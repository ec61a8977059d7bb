//! Counterexamples: evidence for why a formula fails in an initial state.
use std::collections::{HashMap, HashSet, VecDeque};
use vstd::prelude::*;
use vstd::string::StringExecFns;

use crate::checker::{all_initial_in, check};
use crate::formula::{notation, CtlFormula};
use crate::kripke::KripkeStruct;
use crate::paths::{
    expanding, find_outside, first_of_length, first_outside, first_path_to, goes_before,
    is_finite_path, lemma_bfs_first_hit, lemma_closed_avoids, lemma_distinct_states_bound,
    lemma_first_dequeued, lemma_first_of_one, lemma_first_outside, lemma_first_path_start,
    lemma_goes_before_push, lemma_goes_before_step, lemma_levels_extend, lemma_levels_next,
    lemma_levels_start, lemma_new_tree_path, lemma_pop_order, lemma_position, lemma_prefix_path,
    levels_reached, no_shorter_path, parent_links, position, reaches, trace_back, tree_links,
};
use crate::semantics::{ag_set, au_set, ax_set, ex_set, is_path_from, lemma_sat_in_range, sat, until_at};
use crate::stateset::{lemma_hash_set_finite, lemma_subset_of_range, state_range};
use crate::text::{decimal, decimal_text};

verus! {

broadcast use vstd::std_specs::hash::group_hash_axioms;

/// A witness for why a formula is false (counterexample).
///
/// The path is a path of the structure. For EX and the universal formulas
/// (AX, AF, AG, AU) it shows a violation; for the others it is the failing
/// state.
#[derive(Debug)]
pub struct CounterExample {
    /// Description of the counterexample.
    pub description: String,
    /// A path (sequence of state indices) demonstrating the violation.
    pub path: Vec<usize>,
    /// The formula that was violated.
    pub formula: CtlFormula,
}

/// The name of state `s`, or `?` where there is none.
pub open spec fn name_or_unknown(k: KripkeStruct, s: usize) -> Seq<char> {
    if s < k.n() {
        k.states@[s as int]@
    } else {
        "?"@
    }
}

/// "Formula {f} is {verdict} in state {s} ({name})"
pub open spec fn verdict_text(k: KripkeStruct, f: CtlFormula, s: usize, verdict: Seq<char>) -> Seq<char> {
    "Formula "@ + notation(f) + verdict + decimal(s as nat) + " ("@ + name_or_unknown(k, s) + ")"@
}

/// The description text of a statement about `f` in state `s`.
pub fn verdict_description(k: &KripkeStruct, f: &CtlFormula, s: usize, verdict: &str) -> (r: String)
    ensures
        r@ == verdict_text(*k, *f, s, verdict@),
{
    let mut d = String::from_str("Formula ");
    d.append(f.to_string().as_str());
    d.append(verdict);
    d.append(decimal_text(s as u64).as_str());
    d.append(" (");
    let name = match k.state_name(s) {
        Some(name) => name,
        None => "?",
    };
    d.append(name);
    d.append(")");
    d
}

/// `x` as a list of at most one element.
pub open spec fn opt_seq(x: Option<usize>) -> Seq<usize> {
    match x {
        Some(v) => seq![v],
        None => seq![],
    }
}

/// The complement of a set of states.
pub open spec fn outside_of(t: Set<usize>) -> Set<usize> {
    Set::new(|s: usize| !t.contains(s))
}

/// `p` is the path that greedily leaves `start` avoiding `avoid`: each step
/// goes to the first successor outside `avoid`, and the walk stops where there
/// is none or it would revisit a state. Where `start` itself is in `avoid`,
/// the path is just `start`.
pub open spec fn greedy_avoiding(k: KripkeStruct, start: usize, avoid: Set<usize>, p: Seq<usize>) -> bool {
    if avoid.contains(start) {
        p == seq![start]
    } else {
        &&& p.len() >= 1
        &&& p[0] == start
        &&& p.no_duplicates()
        &&& forall|i: int|
            0 <= i < p.len() - 1 ==> first_outside(k.succ(#[trigger] p[i]), avoid) == Some(p[i + 1])
        &&& match first_outside(k.succ(p.last()), avoid) {
            None => true,
            Some(t) => p.contains(t),
        }
    }
}

/// `p` is a finite path from `start`; it is a shortest path from `start` to a
/// state outside `target` where there is one, and of those the one that goes
/// first ([`crate::paths::goes_before`]), and just `start` otherwise.
pub open spec fn violation_search(k: KripkeStruct, start: usize, target: Set<usize>, p: Seq<usize>) -> bool {
    &&& p.len() >= 1
    &&& p[0] == start
    &&& is_finite_path(k, p)
    &&& no_shorter_path(k, start, Set::full(), outside_of(target), p)
    &&& first_of_length(k, start, Set::full(), outside_of(target), p)
    &&& if reaches(k, start, outside_of(target)) {
        !target.contains(p.last())
    } else {
        p == seq![start]
    }
}

/// The counterexample path built for `f` failing at `start`.
pub open spec fn counterexample_path(k: KripkeStruct, f: CtlFormula, start: usize, p: Seq<usize>) -> bool {
    match f {
        CtlFormula::Ex(_) => p == seq![start] + opt_seq(
            if k.succ(start).len() > 0 {
                Some(k.succ(start)[0])
            } else {
                None
            },
        ),
        CtlFormula::Ax(phi) => p == seq![start] + opt_seq(first_outside(k.succ(start), sat(k, *phi))),
        CtlFormula::Ef(phi) => greedy_avoiding(k, start, sat(k, *phi), p),
        CtlFormula::Af(phi) => greedy_avoiding(k, start, sat(k, *phi), p),
        CtlFormula::Ag(phi) => violation_search(k, start, sat(k, *phi), p),
        CtlFormula::Au(_, r) => greedy_avoiding(k, start, sat(k, *r), p),
        _ => p == seq![start],
    }
}

/// What a counterexample shows: for EX and AX a step to a successor violating
/// φ (for EX every successor does); for AG a path to a state violating φ; for
/// AF a path along which φ never holds; for φ₁ AU φ₂ a path along which φ₂
/// never holds.
pub open spec fn shows_violation(k: KripkeStruct, f: CtlFormula, p: Seq<usize>) -> bool {
    match f {
        CtlFormula::Ex(phi) => p.len() == 2 && k.edge(p[0], p[1]) && !sat(k, *phi).contains(p[1]),
        CtlFormula::Ax(phi) => p.len() == 2 && k.edge(p[0], p[1]) && !sat(k, *phi).contains(p[1]),
        CtlFormula::Ag(phi) => p.len() >= 1 && is_finite_path(k, p) && !sat(k, *phi).contains(p.last()),
        CtlFormula::Af(phi) => p.len() >= 1 && is_finite_path(k, p) && forall|i: int|
            0 <= i < p.len() ==> !sat(k, *phi).contains(#[trigger] p[i]),
        CtlFormula::Au(_, r) => p.len() >= 1 && is_finite_path(k, p) && forall|i: int|
            0 <= i < p.len() ==> !sat(k, *r).contains(#[trigger] p[i]),
        _ => true,
    }
}

/// `s` is the first initial state of `k` outside `states`.
pub open spec fn first_initial_outside(k: KripkeStruct, states: Set<usize>, s: usize) -> bool {
    exists|i: int|
        0 <= i < k.initial_states@.len() && k.initial_states@[i] == s && !states.contains(s) && (
        forall|j: int| 0 <= j < i ==> states.contains(#[trigger] k.initial_states@[j]))
}

/// Find a counterexample when a CTL formula does NOT hold in an initial state.
///
/// For EX and the universal operators (AX, AF, AG, AU): a path of the
/// structure that shows the violation. For the others: the failing state.
///
/// Returns `None` if the formula holds in all initial states.
pub fn find_counterexample(k: &KripkeStruct, formula: &CtlFormula) -> (r: Option<CounterExample>)
    requires
        k.wf(),
    ensures
        r is None <==> all_initial_in(*k, sat(*k, *formula)),
        r matches Some(ce) ==> {
            &&& ce.formula == *formula
            &&& ce.path@.len() >= 1
            &&& first_initial_outside(*k, sat(*k, *formula), ce.path@[0])
            &&& ce.description@ == verdict_text(*k, *formula, ce.path@[0], " is false in state "@)
            &&& counterexample_path(*k, *formula, ce.path@[0], ce.path@)
            &&& shows_violation(*k, *formula, ce.path@)
            &&& is_finite_path(*k, ce.path@)
        },
{
    let result = check(k, formula);
    if result.holds {
        return None;
    }
    let mut failing_initial: Option<usize> = None;
    let mut i: usize = 0;
    while i < k.initial_states.len()
        invariant
            i <= k.initial_states@.len(),
            result.satisfying_states@ == sat(*k, *formula),
            failing_initial is None ==> forall|j: int|
                0 <= j < i ==> result.satisfying_states@.contains(#[trigger] k.initial_states@[j]),
            failing_initial matches Some(s) ==> first_initial_outside(*k, sat(*k, *formula), s),
        decreases k.initial_states@.len() - i,
    {
        if failing_initial.is_none() && !result.satisfying_states.contains(&k.initial_states[i]) {
            proof {
                assert(first_initial_outside(*k, sat(*k, *formula), k.initial_states@[i as int]));
            }
            failing_initial = Some(k.initial_states[i]);
        }
        i += 1;
    }
    let start = match failing_initial {
        Some(s) => s,
        None => {
            let mut fallback: usize = 0;
            let mut s: usize = 0;
            while s < k.state_count()
                invariant
                    s <= k.n(),
                decreases k.n() - s,
            {
                if !result.satisfying_states.contains(&s) {
                    fallback = s;
                    break;
                }
                s += 1;
            }
            fallback
        },
    };
    proof {
        if failing_initial is None {
            assert(all_initial_in(*k, sat(*k, *formula)));
        }
        assert(first_initial_outside(*k, sat(*k, *formula), start));
        assert(start < k.n());
        assert(!sat(*k, *formula).contains(start));
    }
    let path = build_counterexample_path(k, formula, start, &result.satisfying_states);
    proof {
        lemma_shows_violation(*k, *formula, start, path@);
    }
    let description = verdict_description(k, formula, start, " is false in state ");
    Some(CounterExample { description, path, formula: formula.clone() })
}

proof fn lemma_shows_violation(k: KripkeStruct, f: CtlFormula, start: usize, p: Seq<usize>)
    requires
        k.wf(),
        start < k.n(),
        !sat(k, f).contains(start),
        counterexample_path(k, f, start, p),
    ensures
        shows_violation(k, f, p),
        is_finite_path(k, p),
{
    match f {
        CtlFormula::Ex(phi) => {
            let a = sat(k, *phi);
            assert(!ex_set(k, a).contains(start));
            assert(k.succ(start).len() > 0);
            let t = k.succ(start)[0];
            assert(k.edge(start, t));
            assert(p[1] == t);
        },
        CtlFormula::Ax(phi) => {
            let a = sat(k, *phi);
            assert(!ax_set(k, a).contains(start));
            let t = choose|t: usize| #[trigger] k.edge(start, t) && !a.contains(t);
            lemma_first_outside(k.succ(start), a);
            if first_outside(k.succ(start), a) is None {
                let j = choose|j: int| 0 <= j < k.succ(start).len() && k.succ(start)[j] == t;
                assert(a.contains(k.succ(start)[j]));
            }
        },
        CtlFormula::Ag(phi) => {
            let a = sat(k, *phi);
            assert(!ag_set(k, a).contains(start));
            let pi = choose|pi: spec_fn(nat) -> usize|
                #[trigger] is_path_from(k, pi, start) && !forall|i: nat| #[trigger] a.contains(pi(i));
            let i = choose|i: nat| !#[trigger] a.contains(pi(i));
            lemma_prefix_path(k, pi, start, i);
            let q = Seq::new(i + 1, |j: int| pi(j as nat));
            assert(outside_of(a).contains(q.last()));
            assert(reaches(k, start, outside_of(a)));
        },
        CtlFormula::Ef(phi) => {
            let a = sat(k, *phi);
            if !a.contains(start) {
                lemma_avoiding_is_path(k, start, a, p);
            }
        },
        CtlFormula::Af(phi) => {
            let a = sat(k, *phi);
            lemma_avoiding_is_path(k, start, a, p);
        },
        CtlFormula::Au(l, r) => {
            let b = sat(k, *r);
            lemma_sat_in_range(k, *r);
            if b.contains(start) {
                assert(until_at(sat(k, *l), b, |i: nat| start, 0));
                assert(au_set(k, sat(k, *l), b).contains(start)) by {
                    assert forall|pi: spec_fn(nat) -> usize| #[trigger]
                        is_path_from(k, pi, start) implies exists|j: nat| #[trigger] until_at(sat(k, *l), b, pi, j) by {
                        assert(until_at(sat(k, *l), b, pi, 0));
                    }
                }
            }
            lemma_avoiding_is_path(k, start, b, p);
        },
        _ => {},
    }
}

proof fn lemma_avoiding_is_path(k: KripkeStruct, start: usize, avoid: Set<usize>, p: Seq<usize>)
    requires
        !avoid.contains(start),
        greedy_avoiding(k, start, avoid, p),
    ensures
        p.len() >= 1,
        is_finite_path(k, p),
        forall|i: int| 0 <= i < p.len() ==> !avoid.contains(#[trigger] p[i]),
{
    assert forall|i: int| 0 <= i < p.len() - 1 implies #[trigger] k.edge(p[i], p[i + 1]) by {
        lemma_first_outside(k.succ(p[i]), avoid);
    }
    assert forall|i: int| 0 <= i < p.len() implies !avoid.contains(#[trigger] p[i]) by {
        if i > 0 {
            lemma_first_outside(k.succ(p[i - 1]), avoid);
            assert(first_outside(k.succ(p[i - 1]), avoid) == Some(p[(i - 1) + 1]));
        }
    }
}

/// The one-state path `[s]`.
pub fn single(s: usize) -> (r: Vec<usize>)
    ensures
        r@ == seq![s],
{
    let mut r: Vec<usize> = Vec::new();
    r.push(s);
    r
}

/// The counterexample path for `formula` failing at `start`.
fn build_counterexample_path(
    k: &KripkeStruct,
    formula: &CtlFormula,
    start: usize,
    _sat: &HashSet<usize>,
) -> (path: Vec<usize>)
    requires
        k.wf(),
        start < k.n(),
    ensures
        counterexample_path(*k, *formula, start, path@),
{
    match formula {
        CtlFormula::Atom(_) => single(start),
        CtlFormula::Not(_phi) => single(start),
        CtlFormula::And(_, _) | CtlFormula::Or(_, _) => single(start),
        CtlFormula::Ex(_) => {
            // EX φ fails when no successor satisfies φ: any step shows it.
            let mut path: Vec<usize> = Vec::new();
            path.push(start);
            let succs = k.successors(start);
            if succs.len() > 0 {
                path.push(succs[0]);
            }
            proof {
                let first = if k.succ(start).len() > 0 {
                    Some(k.succ(start)[0])
                } else {
                    None
                };
                assert(path@ =~= seq![start] + opt_seq(first));
            }
            path
        },
        CtlFormula::Ax(phi) => {
            // AX φ fails when some successor doesn't satisfy φ
            let inner_sat = eval_simple(k, phi);
            let mut path: Vec<usize> = Vec::new();
            path.push(start);
            match find_outside(k.successors(start), &inner_sat) {
                Some(violating) => path.push(violating),
                None => {},
            }
            proof {
                assert(path@ =~= seq![start] + opt_seq(first_outside(k.succ(start), sat(*k, **phi))));
            }
            path
        },
        CtlFormula::Ef(phi) => {
            // EF φ fails — show a path that never reaches φ
            build_path_avoiding(k, start, &eval_simple(k, phi))
        },
        CtlFormula::Af(phi) => {
            // AF φ fails — there's a path that never reaches φ
            build_path_avoiding(k, start, &eval_simple(k, phi))
        },
        CtlFormula::Eg(_phi) => single(start),
        CtlFormula::Ag(phi) => {
            // AG φ fails — there's a reachable state where φ is false
            let inner_sat = eval_simple(k, phi);
            find_path_to_violation(k, start, &inner_sat)
        },
        CtlFormula::Eu(_l, _r) => single(start),
        CtlFormula::Au(_l, r) => {
            // AU fails — there's a path that avoids r
            let sat_r = eval_simple(k, r);
            build_path_avoiding(k, start, &sat_r)
        },
    }
}

/// Build a path from `start` that avoids states in `avoid`.
fn build_path_avoiding(k: &KripkeStruct, start: usize, avoid: &HashSet<usize>) -> (path: Vec<usize>)
    requires
        k.wf(),
        start < k.n(),
    ensures
        greedy_avoiding(*k, start, avoid@, path@),
{
    if avoid.contains(&start) {
        return single(start);
    }
    let mut path: Vec<usize> = Vec::new();
    path.push(start);
    let mut visited: HashSet<usize> = HashSet::new();
    visited.insert(start);
    let mut current = start;
    let n = k.state_count();
    let mut round: usize = 0;
    // Follow transitions staying outside `avoid`
    loop
        invariant
            k.wf(),
            n == k.n(),
            start < n,
            !avoid@.contains(start),
            round <= n,
            path@.len() == round + 1,
            path@[0] == start,
            current == path@.last(),
            visited@ == path@.to_set(),
            path@.no_duplicates(),
            forall|i: int| 0 <= i < path@.len() ==> #[trigger] path@[i] < n,
            forall|i: int|
                0 <= i < path@.len() - 1 ==> first_outside(k.succ(#[trigger] path@[i]), avoid@) == Some(
                    path@[i + 1],
                ),
        ensures
            greedy_avoiding(*k, start, avoid@, path@),
        decreases n - round,
    {
        let next = find_outside(k.successors(current), avoid);
        match next {
            Some(s) => {
                if visited.contains(&s) {
                    break;
                }
                proof {
                    lemma_first_outside(k.succ(current), avoid@);
                    assert(k.edge(current, s));
                    assert(s < n);
                    let p2 = path@.push(s);
                    assert(!path@.contains(s)) by {
                        if path@.contains(s) {
                            assert(path@.to_set().contains(s));
                        }
                    }
                    assert forall|i: int| 0 <= i < p2.len() implies #[trigger] p2[i] < n by {
                        if i < path@.len() {
                            assert(p2[i] == path@[i]);
                        }
                    }
                    assert(p2.no_duplicates()) by {
                        assert forall|a: int, b: int| 0 <= a < p2.len() && 0 <= b < p2.len() && a != b implies p2[a] != p2[b] by {
                            if a < path@.len() && b < path@.len() {
                                assert(p2[a] == path@[a] && p2[b] == path@[b]);
                            } else if a == path@.len() {
                                assert(p2[b] == path@[b]);
                            } else {
                                assert(p2[a] == path@[a]);
                            }
                        }
                    }
                    lemma_distinct_states_bound(p2, n as nat);
                }
                let ghost old_path = path@;
                path.push(s);
                visited.insert(s);
                proof {
                    assert(path@ == old_path.push(s));
                    old_path.lemma_push_to_set_commute(s);
                    assert(path@.drop_last() == old_path);
                    assert forall|i: int|
                        0 <= i < path@.len() - 1 implies first_outside(k.succ(#[trigger] path@[i]), avoid@) == Some(
                            path@[i + 1],
                        ) by {
                        if i < path@.len() - 2 {
                            assert(path@[i] == path@.drop_last()[i]);
                            assert(path@[i + 1] == path@.drop_last()[i + 1]);
                        }
                    }
                }
                current = s;
                round = round + 1;
            },
            None => {
                break;
            },
        }
    }
    path
}

/// Find a path from `start` to a state NOT in `target`, breadth first.
fn find_path_to_violation(k: &KripkeStruct, start: usize, target: &HashSet<usize>) -> (path: Vec<usize>)
    requires
        k.wf(),
        start < k.n(),
    ensures
        violation_search(*k, start, target@, path@),
{
    let n = k.state_count();
    let mut queue: VecDeque<usize> = VecDeque::new();
    let mut parent: HashMap<usize, usize> = HashMap::new();
    queue.push_back(start);
    let mut visited: HashSet<usize> = HashSet::new();
    visited.insert(start);
    let ghost mut dist: Map<usize, nat> = Map::empty().insert(start, 0nat);
    let ghost mut tp: Map<usize, Seq<usize>> = Map::empty().insert(start, seq![start]);
    let ghost mut h: nat = 0;
    assert(queue@[0] == start);
    assert(visited@ =~= dist.dom());
    proof {
        lemma_levels_start(*k, start, Set::full(), Set::empty(), dist);
        lemma_first_path_start(*k, start, Set::full(), Set::empty());
    }
    loop
        invariant
            k.wf(),
            n == k.n(),
            start < n,
            visited@ == dist.dom(),
            visited@.subset_of(state_range(n as nat)),
            parent_links(*k, parent@, dist, start, target@),
            forall|i: int| 0 <= i < queue@.len() ==> visited@.contains(#[trigger] queue@[i]),
            forall|u: usize| #[trigger]
                visited@.contains(u) ==> queue@.contains(u) || (target@.contains(u) && forall|t: usize|
                    #[trigger] k.edge(u, t) ==> visited@.contains(t)),
            forall|i: int| 0 <= i < queue@.len() ==> h <= dist[#[trigger] queue@[i]] <= h + 1,
            forall|i: int, j: int| 0 <= i <= j < queue@.len() ==> dist[queue@[i]] <= dist[queue@[j]],
            forall|u: usize| #[trigger] dist.contains_key(u) ==> dist[u] <= h + 1,
            levels_reached(*k, start, Set::full(), Set::empty(), dist, h),
            tree_links(parent@, tp, dist, start),
            forall|v: usize| #[trigger] dist.contains_key(v) ==> first_path_to(*k, start, Set::full(), Set::empty(), tp[v], v),
            queue@.no_duplicates(),
            forall|i: int, j: int| 0 <= i < j < queue@.len() ==> dist[queue@[i]] < dist[queue@[j]] || goes_before(*k, tp[queue@[i]], tp[queue@[j]]),
            forall|u: usize, w: usize| #![trigger dist.contains_key(u), queue@.contains(w)]
                dist.contains_key(u) && !queue@.contains(u) && queue@.contains(w) && dist[u] == dist[w] ==> goes_before(*k, tp[u], tp[w]),
            forall|w: usize| #[trigger] dist.contains_key(w) && w != start ==> !queue@.contains(parent@[w]),
            forall|u: usize| #[trigger] dist.contains_key(u) && dist[u] == h + 1 ==> queue@.contains(u),
        ensures
            visited@.contains(start),
            forall|u: usize| #[trigger]
                visited@.contains(u) ==> (target@.contains(u) && forall|t: usize|
                    #[trigger] k.edge(u, t) ==> visited@.contains(t)),
        decreases n - visited@.len(), queue@.len(),
    {
        proof {
            lemma_subset_of_range(visited@, n as nat);
        }
        let ghost queue_at_head = queue@;
        assert(forall|u: usize| #[trigger] visited@.contains(u) && !queue_at_head.contains(u) ==> target@.contains(u)
            && forall|t: usize| #[trigger] k.edge(u, t) ==> visited@.contains(t));
        let popped = queue.pop_front();
        let current = match popped {
            Some(c) => c,
            None => {
                proof {
                    assert forall|u: usize| #[trigger] visited@.contains(u) implies (target@.contains(u)
                        && forall|t: usize| #[trigger] k.edge(u, t) ==> visited@.contains(t)) by {
                        assert(!queue@.contains(u));
                    }
                    assert(parent_links(*k, parent@, dist, start, target@));
                }
                break;
            },
        };
        assert(visited@.contains(current)) by {
            assert(queue_at_head[0] == current);
        }
        proof {
            let h2 = dist[current];
            assert(queue_at_head[0] == current);
            assert forall|u: usize| #[trigger] dist.contains_key(u) && dist[u] < h2 implies target@.contains(u)
                && forall|t: usize| #[trigger] k.edge(u, t) ==> dist.contains_key(t) by {
                if queue_at_head.contains(u) {
                    let i = choose|i: int| 0 <= i < queue_at_head.len() && queue_at_head[i] == u;
                    assert(dist[queue_at_head[0]] <= dist[queue_at_head[i]]);
                }
                assert(visited@.contains(u));
            }
            if h2 == h + 1 {
                lemma_levels_next(*k, start, Set::full(), Set::empty(), dist, h);
            }
            assert forall|i: int| 0 <= i < queue@.len() implies h2 <= dist[#[trigger] queue@[i]] <= h2 + 1 by {
                assert(queue@[i] == queue_at_head[i + 1]);
                assert(dist[queue_at_head[0]] <= dist[queue_at_head[i + 1]]);
            }
            assert forall|i: int, j: int| 0 <= i <= j < queue@.len() implies dist[queue@[i]] <= dist[queue@[j]] by {
                assert(queue@[i] == queue_at_head[i + 1]);
                assert(queue@[j] == queue_at_head[j + 1]);
            }
            assert forall|u: usize| #[trigger] dist.contains_key(u) && dist[u] > h2 implies queue_at_head.contains(u) by {}
            h = h2;
        }
        proof {
            lemma_pop_order(*k, start, parent@, dist, tp, queue_at_head, queue@, current, h);
            assert(expanding(*k, start, Set::full(), Set::empty(), dist, tp, queue_at_head, current, h));
        }
        if !target.contains(&current) {
            // Reconstruct the path
            let path = trace_back(&parent, start, current, Ghost(*k), Ghost(dist), Ghost(target@), Ghost(tp));
            proof {
                lemma_first_dequeued(*k, start, outside_of(target@), dist, tp, queue_at_head, current, h);
                assert(path@ == tp[current]);
                assert(!target@.contains(path@.last()));
                assert forall|q: Seq<usize>|
                    #[trigger] is_finite_path(*k, q) && q.len() >= 1 && q[0] == start && outside_of(target@).contains(q.last()) && (
                    forall|i: int| 0 <= i < q.len() - 1 ==> Set::<usize>::full().contains(q[i])) implies path@.len() <= q.len() by {
                    lemma_bfs_first_hit(*k, start, outside_of(target@), dist, h, q);
                }
            }
            return path;
        }
        let succs = k.successors(current);
        let ghost visited_before = visited@;
        let ghost queue_before = queue@;
        let ghost dist_before = dist;
        let ghost tp_before = tp;
        proof {
            lemma_hash_set_finite(&visited);
        }
        let mut j: usize = 0;
        while j < succs.len()
            invariant
                k.wf(),
                n == k.n(),
                start < n,
                succs@ == k.succ(current),
                j <= succs@.len(),
                target@.contains(current),
                visited@.contains(current),
                visited@ == dist.dom(),
                visited_before.subset_of(visited@),
                visited@.subset_of(state_range(n as nat)),
                parent_links(*k, parent@, dist, start, target@),
                forall|i: int| 0 <= i < queue@.len() ==> visited@.contains(#[trigger] queue@[i]),
                queue@.len() >= queue_before.len(),
                forall|i: int| 0 <= i < queue_before.len() ==> queue@[i] == #[trigger] queue_before[i],
                forall|u: usize| #[trigger]
                    visited@.contains(u) && !visited_before.contains(u) ==> queue@.contains(u),
                forall|j2: int| 0 <= j2 < j ==> visited@.contains(#[trigger] succs@[j2]),
                visited@.finite(),
                visited_before.finite(),
                queue@.len() == queue_before.len() + (visited@.len() - visited_before.len()),
                forall|i: int| 0 <= i < queue@.len() ==> h <= dist[#[trigger] queue@[i]] <= h + 1,
                forall|i: int, j: int| 0 <= i <= j < queue@.len() ==> dist[queue@[i]] <= dist[queue@[j]],
                forall|u: usize| #[trigger] dist.contains_key(u) ==> dist[u] <= h + 1,
                dist.contains_key(current),
                dist[current] == h,
                forall|u: usize| #[trigger]
                    dist_before.contains_key(u) ==> dist.contains_key(u) && dist[u] == dist_before[u],
                levels_reached(*k, start, Set::full(), Set::empty(), dist_before, h),
                expanding(*k, start, Set::full(), Set::empty(), dist_before, tp_before, queue_at_head, current, h),
                tree_links(parent@, tp, dist, start),
                forall|u: usize| #[trigger] dist_before.contains_key(u) ==> tp.contains_key(u) && tp[u] == tp_before[u],
                forall|v: usize| #[trigger] dist.contains_key(v) ==> first_path_to(*k, start, Set::full(), Set::empty(), tp[v], v),
                queue@.no_duplicates(),
                !queue@.contains(current),
                forall|i: int, j: int| 0 <= i < j < queue@.len() ==> dist[queue@[i]] < dist[queue@[j]] || goes_before(*k, tp[queue@[i]], tp[queue@[j]]),
                forall|u: usize, w: usize| #![trigger dist.contains_key(u), queue@.contains(w)]
                    dist.contains_key(u) && !queue@.contains(u) && queue@.contains(w) && dist[u] == dist[w] ==> goes_before(*k, tp[u], tp[w]),
                forall|w: usize| #[trigger] dist.contains_key(w) && w != start ==> !queue@.contains(parent@[w]),
                forall|u: usize| #[trigger] dist.contains_key(u) && dist[u] == h + 1 ==> queue@.contains(u),
                forall|w: usize| #[trigger] dist.contains_key(w) && !dist_before.contains_key(w) ==> parent@[w] == current
                    && position(k.succ(current), w) < j,
                forall|w: usize| #[trigger] dist_before.contains_key(w) && w != start ==> !queue_at_head.contains(parent@[w]),
                forall|u: usize| dist_before.contains_key(u) && !queue_at_head.contains(u) && dist_before[u] == h ==> goes_before(*k, tp_before[u], tp_before[current]),
                visited_before == dist_before.dom(),
            decreases succs@.len() - j,
        {
            let succ = succs[j];
            if !visited.contains(&succ) {
                proof {
                    assert(k.edge(current, succ));
                    assert(succ < n);
                }
                proof {
                    lemma_position(k.succ(current), succ);
                    assert(position(k.succ(current), succ) == j) by {
                        if position(k.succ(current), succ) < j {
                            assert(visited@.contains(succs@[position(k.succ(current), succ)]));
                        }
                    }
                    lemma_new_tree_path(*k, start, Set::full(), Set::empty(), dist_before, tp_before, queue_at_head, current, h, succ);
                    assert forall|w: usize| #[trigger] queue@.contains(w) && dist[w] == h + 1 implies goes_before(*k, tp[w], tp_before[current].push(succ)) by {
                        assert(w != succ);
                        if dist_before.contains_key(w) {
                            let x = parent@[w];
                            assert(dist_before[x] + 1 == dist_before[w]);
                            assert(!queue_at_head.contains(x));
                            assert(goes_before(*k, tp_before[x], tp_before[current]));
                            lemma_goes_before_push(*k, tp_before[x], tp_before[current], w, succ);
                        } else {
                            lemma_position(k.succ(current), w);
                            lemma_goes_before_step(*k, tp[current], w, succ);
                        }
                    }
                }
                let ghost queue_pre = queue@;
                let ghost tp_pre = tp;
                let ghost dist_pre = dist;
                visited.insert(succ);
                parent.insert(succ, current);
                queue.push_back(succ);
                proof {
                    dist = dist.insert(succ, dist[current] + 1);
                    tp = tp.insert(succ, tp[current].push(succ));
                    assert(tp_pre[current] == tp_before[current]);
                    assert(queue@[queue@.len() - 1] == succ);
                    assert(forall|i: int| 0 <= i < queue_pre.len() ==> queue@[i] == queue_pre[i]);
                    assert forall|i: int, j2: int| 0 <= i < j2 < queue@.len() implies dist[queue@[i]] < dist[queue@[j2]] || goes_before(*k, tp[queue@[i]], tp[queue@[j2]]) by {
                        if j2 == queue@.len() - 1 {
                            assert(queue_pre.contains(queue@[i]));
                        }
                    }
                    assert(queue@.no_duplicates()) by {
                        assert forall|i: int, j2: int| 0 <= i < j2 < queue@.len() implies queue@[i] != queue@[j2] by {
                            if j2 == queue@.len() - 1 {
                                assert(dist_pre.contains_key(queue_pre[i]));
                            }
                        }
                    }
                    assert forall|u: usize, w: usize| #![trigger dist.contains_key(u), queue@.contains(w)]
                        dist.contains_key(u) && !queue@.contains(u) && queue@.contains(w) && dist[u] == dist[w] implies goes_before(*k, tp[u], tp[w]) by {
                        assert(!queue_pre.contains(u)) by {
                            if queue_pre.contains(u) {
                                let i = choose|i: int| 0 <= i < queue_pre.len() && queue_pre[i] == u;
                                assert(queue@[i] == u);
                            }
                        }
                        assert(u != succ);
                        assert(dist_pre.contains_key(u));
                        if w != succ {
                            let i = choose|i: int| 0 <= i < queue@.len() && queue@[i] == w;
                            assert(queue_pre[i] == w);
                            assert(queue_pre.contains(w));
                        }
                    }
                    assert(forall|i: int| 0 <= i < queue_pre.len() ==> queue@[i] == queue_pre[i]);
                    assert forall|u: usize| #[trigger]
                        visited@.contains(u) && !visited_before.contains(u) implies queue@.contains(u) by {
                        if u != succ {
                            let i = choose|i: int| 0 <= i < queue_pre.len() && queue_pre[i] == u;
                            assert(queue@[i] == u);
                        }
                    }
                }
            }
            j += 1;
        }
        proof {
            assert forall|t: usize| #[trigger] k.edge(current, t) implies visited@.contains(t) by {
                let j2 = choose|j2: int| 0 <= j2 < succs@.len() && succs@[j2] == t;
            }
            assert forall|u: usize| #[trigger] visited@.contains(u) implies queue@.contains(u) || (target@.contains(u)
                && forall|t: usize| #[trigger] k.edge(u, t) ==> visited@.contains(t)) by {
                if visited_before.contains(u) && u != current {
                    if queue_at_head.contains(u) {
                        let i = choose|i: int| 0 <= i < queue_at_head.len() && queue_at_head[i] == u;
                        assert(i != 0);
                        assert(queue_before[i - 1] == u);
                        assert(queue@[i - 1] == u);
                    }
                }
            }
            lemma_levels_extend(*k, start, Set::full(), Set::empty(), dist_before, dist, h);
            lemma_subset_of_range(visited@, n as nat);
            if visited@.len() == visited_before.len() {
                vstd::set_lib::lemma_subset_equality(visited_before, visited@);
            } else {
                vstd::set_lib::lemma_len_subset(visited_before, visited@);
            }
        }
    }
    proof {
        assert forall|u: usize, t: usize| #[trigger] k.edge(u, t) && visited@.contains(u) implies visited@.contains(t) by {}
        assert forall|u: usize| #[trigger] visited@.contains(u) implies !outside_of(target@).contains(u) by {}
        lemma_closed_avoids(*k, visited@, start, outside_of(target@));
        lemma_first_of_one(*k, start, Set::full(), outside_of(target@));
    }
    single(start)
}

/// The states satisfying `formula`, for building paths.
fn eval_simple(k: &KripkeStruct, formula: &CtlFormula) -> (r: HashSet<usize>)
    requires
        k.wf(),
    ensures
        r@ == sat(*k, *formula),
{
    let result = check(k, formula);
    result.satisfying_states
}

} // verus!
