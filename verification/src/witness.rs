//! Witnesses: evidence for why a formula holds in an initial state.
use std::collections::{HashMap, HashSet, VecDeque};
use vstd::prelude::*;

use crate::checker::check;
use crate::counterexample::{opt_seq, single, verdict_description, verdict_text};
use crate::formula::CtlFormula;
use crate::kripke::KripkeStruct;
use crate::paths::{
    expanding, find_inside, first_inside, first_of_length, first_path_to, goes_before,
    is_finite_path, lemma_bfs_depth, lemma_closed_avoids, lemma_distinct_states_bound,
    lemma_first_goal, lemma_first_inside, lemma_first_of_one, lemma_first_path_start,
    lemma_goes_before_push, lemma_goes_before_step, lemma_levels_extend, lemma_levels_next,
    lemma_levels_start, lemma_new_tree_path, lemma_pop_order, lemma_position, lemma_prefix_path,
    levels_reached, no_shorter_path, parent_links, position, reaches, trace_back, tree_links,
};
use crate::semantics::{
    ef_set, eg_set, eu_set, ex_set, is_path_from, lemma_eg_sub, lemma_eg_succ, lemma_sat_in_range, sat,
    until_at,
};
use crate::stateset::{lemma_hash_set_finite, slice_contains, state_range};

verus! {

broadcast use vstd::std_specs::hash::group_hash_axioms;

/// A witness for why a formula is true.
///
/// For existential formulas (EX, EF, EG, EU) the path shows satisfaction; for
/// the universal ones it is the satisfying state.
#[derive(Debug)]
pub struct Witness {
    /// Description of why the formula holds.
    pub description: String,
    /// A path (sequence of state indices) demonstrating satisfaction.
    pub path: Vec<usize>,
    /// The formula that holds.
    pub formula: CtlFormula,
}

/// Some finite path from `s` stays in `a` until it ends in `b`.
pub open spec fn reaches_through(k: KripkeStruct, s: usize, a: Set<usize>, b: Set<usize>) -> bool {
    exists|p: Seq<usize>|
        #[trigger] is_finite_path(k, p) && p.len() >= 1 && p[0] == s && b.contains(p.last()) && (
        forall|i: int| 0 <= i < p.len() - 1 ==> a.contains(#[trigger] p[i]))
}

/// `p` is the breadth-first path from `start` to `target`: just `start` where
/// `start` is in `target` or `target` is unreachable, else a shortest finite
/// path that ends in `target` and meets it nowhere before, and of those the
/// one that goes first ([`goes_before`]).
pub open spec fn target_search(k: KripkeStruct, start: usize, target: Set<usize>, p: Seq<usize>) -> bool {
    &&& p.len() >= 1
    &&& p[0] == start
    &&& is_finite_path(k, p)
    &&& no_shorter_path(k, start, Set::full(), target, p)
    &&& first_of_length(k, start, Set::full(), target, p)
    &&& if target.contains(start) || !reaches(k, start, target) {
        p == seq![start]
    } else {
        &&& target.contains(p.last())
        &&& forall|i: int| 0 <= i < p.len() - 1 ==> !target.contains(#[trigger] p[i])
    }
}

/// `p` is the breadth-first path from `start` that stays in `a` until it
/// reaches `b`: just `start` where `start` is in `b` or no such path exists,
/// else a shortest such path, and of those the one that goes first
/// ([`goes_before`]).
pub open spec fn until_search(k: KripkeStruct, start: usize, a: Set<usize>, b: Set<usize>, p: Seq<usize>) -> bool {
    &&& p.len() >= 1
    &&& p[0] == start
    &&& is_finite_path(k, p)
    &&& no_shorter_path(k, start, a, b, p)
    &&& first_of_length(k, start, a, b, p)
    &&& if b.contains(start) || !reaches_through(k, start, a, b) {
        p == seq![start]
    } else {
        &&& b.contains(p.last())
        &&& forall|i: int| 0 <= i < p.len() - 1 ==> a.contains(#[trigger] p[i]) && !b.contains(p[i])
    }
}

/// The move of the EG walk from `start` through `good` at the end of `q`:
/// back to `start` where it is a successor and `q` has left it, else on to
/// the first successor in `good` not yet on `q`, else to the first successor
/// in `good`, else none. `(t, true)` goes on from `t`; `(t, false)` ends the
/// walk with `t`.
pub open spec fn lasso_move(k: KripkeStruct, start: usize, good: Set<usize>, q: Seq<usize>) -> Option<(usize, bool)> {
    if q.len() > 1 && k.succ(q.last()).contains(start) {
        Some((start, false))
    } else {
        match first_inside(k.succ(q.last()), good.difference(q.to_set())) {
            Some(t) => Some((t, true)),
            None => match first_inside(k.succ(q.last()), good) {
                Some(t) => Some((t, false)),
                None => None,
            },
        }
    }
}

/// Every state of `p` after the first up to `end` is where the walk went on.
pub open spec fn walk_goes_on(k: KripkeStruct, start: usize, good: Set<usize>, p: Seq<usize>, end: int) -> bool {
    forall|i: int| 1 <= i < end ==> lasso_move(k, start, good, #[trigger] p.take(i)) == Some((p[i], true))
}

/// `p` is the EG walk from `start` through `good` ([`lasso_move`]): a path
/// through `good` that closes a loop, its last state occurring earlier; it is
/// just `start` where `start` is not in `good`.
pub open spec fn good_lasso(k: KripkeStruct, start: usize, good: Set<usize>, p: Seq<usize>) -> bool {
    if !good.contains(start) {
        p == seq![start]
    } else {
        &&& p.len() >= 2
        &&& p[0] == start
        &&& is_finite_path(k, p)
        &&& forall|i: int| 0 <= i < p.len() ==> good.contains(#[trigger] p[i])
        &&& p.drop_last().no_duplicates()
        &&& p.drop_last().contains(p.last())
        &&& walk_goes_on(k, start, good, p, p.len() - 1)
        &&& lasso_move(k, start, good, p.drop_last()) == Some((p.last(), false))
    }
}

/// The witness path built for `f` holding at `start`.
pub open spec fn witness_path(k: KripkeStruct, f: CtlFormula, start: usize, p: Seq<usize>) -> bool {
    match f {
        CtlFormula::Ex(phi) => p == seq![start] + opt_seq(first_inside(k.succ(start), sat(k, *phi))),
        CtlFormula::Ef(phi) => target_search(k, start, sat(k, *phi), p),
        CtlFormula::Eg(phi) => good_lasso(k, start, eg_set(k, sat(k, *phi)), p),
        CtlFormula::Eu(l, r) => until_search(k, start, sat(k, *l), sat(k, *r), p),
        _ => p == seq![start],
    }
}

/// What a witness of an existential formula shows: for EX a successor
/// satisfying φ; for EF a path to a state satisfying φ; for EG a path through
/// states satisfying φ that closes a loop, so that going round it forever
/// never leaves φ; for φ₁ EU φ₂ a path through φ₁-states to a φ₂-state.
pub open spec fn shows_satisfaction(k: KripkeStruct, f: CtlFormula, p: Seq<usize>) -> bool {
    match f {
        CtlFormula::Ex(phi) => p.len() == 2 && k.edge(p[0], p[1]) && sat(k, *phi).contains(p[1]),
        CtlFormula::Ef(phi) => p.len() >= 1 && is_finite_path(k, p) && sat(k, *phi).contains(p.last()),
        CtlFormula::Eg(phi) => p.len() >= 2 && is_finite_path(k, p) && (forall|i: int|
            0 <= i < p.len() ==> sat(k, *phi).contains(#[trigger] p[i])) && p.drop_last().contains(p.last()),
        CtlFormula::Eu(l, r) => p.len() >= 1 && is_finite_path(k, p) && sat(k, *r).contains(p.last())
            && forall|i: int| 0 <= i < p.len() - 1 ==> sat(k, *l).contains(#[trigger] p[i]),
        _ => true,
    }
}

/// Some initial state of `k` lies in `states`.
pub open spec fn some_initial_in(k: KripkeStruct, states: Set<usize>) -> bool {
    exists|i: int| 0 <= i < k.initial_states@.len() && states.contains(#[trigger] k.initial_states@[i])
}

/// `s` is the first initial state of `k` inside `states`.
pub open spec fn first_initial_inside(k: KripkeStruct, states: Set<usize>, s: usize) -> bool {
    exists|i: int|
        0 <= i < k.initial_states@.len() && k.initial_states@[i] == s && states.contains(s) && (
        forall|j: int| 0 <= j < i ==> !states.contains(#[trigger] k.initial_states@[j]))
}

/// Find a witness path when a CTL formula holds in an initial state.
///
/// The witness starts at the first initial state where the formula holds.
/// For existential formulas (EX, EF, EG, EU): a path satisfying the formula.
/// For the others: that initial state.
///
/// Returns `None` if the formula does not hold in any initial state.
pub fn find_witness(k: &KripkeStruct, formula: &CtlFormula) -> (r: Option<Witness>)
    requires
        k.wf(),
    ensures
        r is None <==> !some_initial_in(*k, sat(*k, *formula)),
        r matches Some(w) ==> {
            &&& w.formula == *formula
            &&& w.path@.len() >= 1
            &&& first_initial_inside(*k, sat(*k, *formula), w.path@[0])
            &&& w.description@ == verdict_text(*k, *formula, w.path@[0], " is true in state "@)
            &&& witness_path(*k, *formula, w.path@[0], w.path@)
            &&& shows_satisfaction(*k, *formula, w.path@)
            &&& is_finite_path(*k, w.path@)
        },
{
    let result = check(k, formula);
    let mut found: Option<usize> = None;
    let mut i: usize = 0;
    while i < k.initial_states.len()
        invariant
            i <= k.initial_states@.len(),
            result.satisfying_states@ == sat(*k, *formula),
            found is None ==> forall|j: int|
                0 <= j < i ==> !result.satisfying_states@.contains(#[trigger] k.initial_states@[j]),
            found matches Some(s) ==> first_initial_inside(*k, sat(*k, *formula), s),
        decreases k.initial_states@.len() - i,
    {
        if found.is_none() && result.satisfying_states.contains(&k.initial_states[i]) {
            proof {
                assert(first_initial_inside(*k, sat(*k, *formula), k.initial_states@[i as int]));
            }
            found = Some(k.initial_states[i]);
        }
        i += 1;
    }
    let start = match found {
        Some(s) => s,
        None => {
            proof {
                assert(!some_initial_in(*k, sat(*k, *formula)));
            }
            return None;
        },
    };
    proof {
        lemma_sat_in_range(*k, *formula);
        assert(sat(*k, *formula).contains(start));
        assert(some_initial_in(*k, sat(*k, *formula)));
    }
    let path = build_witness_path(k, formula, start, &result.satisfying_states);
    proof {
        lemma_shows_satisfaction(*k, *formula, start, path@);
    }
    let description = verdict_description(k, formula, start, " is true in state ");
    Some(Witness { description, path, formula: formula.clone() })
}

proof fn lemma_shows_satisfaction(k: KripkeStruct, f: CtlFormula, start: usize, p: Seq<usize>)
    requires
        k.wf(),
        sat(k, f).contains(start),
        witness_path(k, f, start, p),
    ensures
        shows_satisfaction(k, f, p),
        is_finite_path(k, p),
{
    match f {
        CtlFormula::Ex(phi) => {
            let a = sat(k, *phi);
            assert(ex_set(k, a).contains(start));
            let t = choose|t: usize| #[trigger] k.edge(start, t) && a.contains(t);
            lemma_first_inside(k.succ(start), a);
            if first_inside(k.succ(start), a) is None {
                let j = choose|j: int| 0 <= j < k.succ(start).len() && k.succ(start)[j] == t;
                assert(!a.contains(k.succ(start)[j]));
            }
        },
        CtlFormula::Ef(phi) => {
            let a = sat(k, *phi);
            assert(ef_set(k, a).contains(start));
            let pi = choose|pi: spec_fn(nat) -> usize|
                #[trigger] is_path_from(k, pi, start) && exists|i: nat| #[trigger] a.contains(pi(i));
            let i = choose|i: nat| #[trigger] a.contains(pi(i));
            lemma_prefix_path(k, pi, start, i);
            let q = Seq::new(i + 1, |j: int| pi(j as nat));
            assert(reaches(k, start, a));
        },
        CtlFormula::Eg(phi) => {
            let g = eg_set(k, sat(k, *phi));
            lemma_eg_sub(k, sat(k, *phi));
            assert forall|i: int| 0 <= i < p.len() implies sat(k, *phi).contains(#[trigger] p[i]) by {
                assert(g.contains(p[i]));
            }
        },
        CtlFormula::Eu(l, r) => {
            let a = sat(k, *l);
            let b = sat(k, *r);
            assert(eu_set(k, a, b).contains(start));
            let pi = choose|pi: spec_fn(nat) -> usize|
                #[trigger] is_path_from(k, pi, start) && exists|j: nat| #[trigger] until_at(a, b, pi, j);
            let j = choose|j: nat| #[trigger] until_at(a, b, pi, j);
            lemma_prefix_path(k, pi, start, j);
            let q = Seq::new(j + 1, |i: int| pi(i as nat));
            assert forall|i: int| 0 <= i < q.len() - 1 implies a.contains(#[trigger] q[i]) by {
                assert(a.contains(pi(i as nat)));
            }
            assert(reaches_through(k, start, a, b));
        },
        _ => {},
    }
}

/// The witness path for `formula` holding at `start`.
fn build_witness_path(
    k: &KripkeStruct,
    formula: &CtlFormula,
    start: usize,
    _sat: &HashSet<usize>,
) -> (path: Vec<usize>)
    requires
        k.wf(),
    ensures
        witness_path(*k, *formula, start, path@),
{
    match formula {
        CtlFormula::Atom(_) => single(start),
        CtlFormula::Not(_phi) => single(start),
        CtlFormula::And(_, _) | CtlFormula::Or(_, _) => single(start),
        CtlFormula::Ex(phi) => {
            let inner_sat = check(k, phi).satisfying_states;
            let mut path: Vec<usize> = Vec::new();
            path.push(start);
            match find_inside(k.successors(start), &inner_sat) {
                Some(succ) => path.push(succ),
                None => {},
            }
            proof {
                assert(path@ =~= seq![start] + opt_seq(first_inside(k.succ(start), sat(*k, **phi))));
            }
            path
        },
        CtlFormula::Ax(_) => single(start),
        CtlFormula::Ef(phi) => {
            let inner_sat = check(k, phi).satisfying_states;
            find_path_to_target(k, start, &inner_sat)
        },
        CtlFormula::Af(_) => single(start),
        CtlFormula::Eg(phi) => {
            // Walking inside the EG states, which all have a successor among
            // them, the walk always closes a loop.
            let eg_states = check(k, formula).satisfying_states;
            proof {
                lemma_sat_in_range(*k, *formula);
                assert forall|s: usize| eg_states@.contains(s) implies exists|t: usize|
                    k.edge(s, t) && eg_states@.contains(t) by {
                    lemma_eg_succ(*k, sat(*k, **phi), s);
                }
            }
            build_cycle_path(k, start, &eg_states)
        },
        CtlFormula::Ag(_) => single(start),
        CtlFormula::Eu(l, r) => {
            let sat_r = check(k, r).satisfying_states;
            let sat_l = check(k, l).satisfying_states;
            find_eu_path(k, start, &sat_l, &sat_r)
        },
        CtlFormula::Au(_, _) => single(start),
    }
}

/// Breadth-first search for a path from `start` to any state in `target`.
fn find_path_to_target(k: &KripkeStruct, start: usize, target: &HashSet<usize>) -> (path: Vec<usize>)
    requires
        k.wf(),
    ensures
        target_search(*k, start, target@, path@),
{
    if target.contains(&start) {
        let p = single(start);
        proof {
            lemma_first_of_one(*k, start, Set::full(), target@);
        }
        return p;
    }
    let n = k.state_count();
    let mut queue: VecDeque<usize> = VecDeque::new();
    let mut parent: HashMap<usize, usize> = HashMap::new();
    let mut visited: HashSet<usize> = HashSet::new();
    queue.push_back(start);
    visited.insert(start);
    let ghost mut dist: Map<usize, nat> = Map::empty().insert(start, 0nat);
    let ghost outside = Set::new(|s: usize| !target@.contains(s));
    let ghost mut h: nat = 0;
    let ghost mut tp: Map<usize, Seq<usize>> = Map::empty().insert(start, seq![start]);
    assert(queue@[0] == start);
    assert(visited@ =~= dist.dom());
    proof {
        lemma_levels_start(*k, start, Set::full(), target@, dist);
        lemma_first_path_start(*k, start, Set::full(), target@);
    }
    loop
        invariant
            k.wf(),
            n == k.n(),
            !target@.contains(start),
            outside == Set::new(|s: usize| !target@.contains(s)),
            visited@ == dist.dom(),
            visited@.subset_of(state_range(n as nat).insert(start)),
            forall|u: usize| #[trigger] visited@.contains(u) ==> !target@.contains(u),
            parent_links(*k, parent@, dist, start, outside),
            forall|i: int| 0 <= i < queue@.len() ==> visited@.contains(#[trigger] queue@[i]),
            forall|u: usize| #[trigger]
                visited@.contains(u) ==> queue@.contains(u) || forall|t: usize|
                    #[trigger] k.edge(u, t) ==> visited@.contains(t),
            forall|i: int| 0 <= i < queue@.len() ==> h <= dist[#[trigger] queue@[i]] <= h + 1,
            forall|i: int, j: int| 0 <= i <= j < queue@.len() ==> dist[queue@[i]] <= dist[queue@[j]],
            forall|u: usize| #[trigger] dist.contains_key(u) ==> dist[u] <= h + 1,
            levels_reached(*k, start, Set::full(), target@, dist, h),
            tree_links(parent@, tp, dist, start),
            forall|v: usize| #[trigger] dist.contains_key(v) ==> first_path_to(*k, start, Set::full(), target@, tp[v], v),
            queue@.no_duplicates(),
            forall|i: int, j: int| 0 <= i < j < queue@.len() ==> dist[queue@[i]] < dist[queue@[j]] || goes_before(*k, tp[queue@[i]], tp[queue@[j]]),
            forall|u: usize, w: usize| #![trigger dist.contains_key(u), queue@.contains(w)]
                dist.contains_key(u) && !queue@.contains(u) && queue@.contains(w) && dist[u] == dist[w] ==> goes_before(*k, tp[u], tp[w]),
            forall|w: usize| #[trigger] dist.contains_key(w) && w != start ==> !queue@.contains(parent@[w]),
            forall|u: usize| #[trigger] dist.contains_key(u) && dist[u] == h + 1 ==> queue@.contains(u),
        ensures
            visited@.contains(start),
            forall|u: usize| #[trigger] visited@.contains(u) ==> !target@.contains(u),
            forall|u: usize, t: usize| #[trigger] k.edge(u, t) && visited@.contains(u) ==> visited@.contains(t),
        decreases n + 1 - visited@.len(), queue@.len(),
    {
        proof {
            lemma_visited_bound(visited@, n as nat, start);
        }
        let ghost queue_at_head = queue@;
        assert(forall|u: usize| #[trigger] visited@.contains(u) && !queue_at_head.contains(u) ==> forall|t: usize|
            #[trigger] k.edge(u, t) ==> visited@.contains(t));
        let popped = queue.pop_front();
        let current = match popped {
            Some(c) => c,
            None => {
                proof {
                    assert forall|u: usize, t: usize| #[trigger] k.edge(u, t) && visited@.contains(u) implies visited@.contains(t) by {
                        assert(!queue@.contains(u));
                    }
                }
                break;
            },
        };
        assert(visited@.contains(current)) by {
            assert(queue_at_head[0] == current);
        }
        assert(!target@.contains(current));
        proof {
            let h2 = dist[current];
            assert(queue_at_head[0] == current);
            assert forall|u: usize, t: usize| #[trigger] k.edge(u, t) && dist.contains_key(u) && dist[u] < h2 implies dist.contains_key(t) by {
                if queue_at_head.contains(u) {
                    let i = choose|i: int| 0 <= i < queue_at_head.len() && queue_at_head[i] == u;
                    assert(dist[queue_at_head[0]] <= dist[queue_at_head[i]]);
                }
                assert(visited@.contains(u));
            }
            if h2 == h + 1 {
                lemma_levels_next(*k, start, Set::full(), target@, dist, h);
            }
            assert forall|i: int| 0 <= i < queue@.len() implies h2 <= dist[#[trigger] queue@[i]] <= h2 + 1 by {
                assert(queue@[i] == queue_at_head[i + 1]);
                assert(dist[queue_at_head[0]] <= dist[queue_at_head[i + 1]]);
            }
            assert forall|i: int, j: int| 0 <= i <= j < queue@.len() implies dist[queue@[i]] <= dist[queue@[j]] by {
                assert(queue@[i] == queue_at_head[i + 1]);
                assert(queue@[j] == queue_at_head[j + 1]);
            }
            assert forall|u: usize| #[trigger] dist.contains_key(u) && dist[u] > h2 implies queue_at_head.contains(u) by {}
            h = h2;
        }
        proof {
            lemma_pop_order(*k, start, parent@, dist, tp, queue_at_head, queue@, current, h);
            assert(expanding(*k, start, Set::full(), target@, dist, tp, queue_at_head, current, h));
        }
        let succs = k.successors(current);
        let ghost visited_before = visited@;
        let ghost queue_before = queue@;
        let ghost dist_before = dist;
        let ghost tp_before = tp;
        proof {
            lemma_hash_set_finite(&visited);
        }
        let mut j: usize = 0;
        while j < succs.len()
            invariant
                k.wf(),
                n == k.n(),
                succs@ == k.succ(current),
                j <= succs@.len(),
                !target@.contains(start),
                outside == Set::new(|s: usize| !target@.contains(s)),
                !target@.contains(current),
                visited@.contains(current),
                visited@ == dist.dom(),
                visited_before.subset_of(visited@),
                visited@.subset_of(state_range(n as nat).insert(start)),
                forall|u: usize| #[trigger] visited@.contains(u) ==> !target@.contains(u),
                parent_links(*k, parent@, dist, start, outside),
                forall|i: int| 0 <= i < queue@.len() ==> visited@.contains(#[trigger] queue@[i]),
                queue@.len() >= queue_before.len(),
                forall|i: int| 0 <= i < queue_before.len() ==> queue@[i] == #[trigger] queue_before[i],
                forall|u: usize| #[trigger]
                    visited@.contains(u) && !visited_before.contains(u) ==> queue@.contains(u),
                forall|j2: int| 0 <= j2 < j ==> visited@.contains(#[trigger] succs@[j2]),
                visited@.finite(),
                visited_before.finite(),
                queue@.len() == queue_before.len() + (visited@.len() - visited_before.len()),
                forall|i: int| 0 <= i < queue@.len() ==> h <= dist[#[trigger] queue@[i]] <= h + 1,
                forall|i: int, j: int| 0 <= i <= j < queue@.len() ==> dist[queue@[i]] <= dist[queue@[j]],
                forall|u: usize| #[trigger] dist.contains_key(u) ==> dist[u] <= h + 1,
                dist.contains_key(current),
                dist[current] == h,
                forall|u: usize| #[trigger]
                    dist_before.contains_key(u) ==> dist.contains_key(u) && dist[u] == dist_before[u],
                levels_reached(*k, start, Set::full(), target@, dist_before, h),
                forall|u: usize, t: usize| #[trigger]
                    k.edge(u, t) && dist_before.contains_key(u) && dist_before[u] < h ==> visited_before.contains(t),
                visited_before.contains(start),
                visited_before == dist_before.dom(),
                expanding(*k, start, Set::full(), target@, dist_before, tp_before, queue_at_head, current, h),
                tree_links(parent@, tp, dist, start),
                forall|u: usize| #[trigger] dist_before.contains_key(u) ==> tp.contains_key(u) && tp[u] == tp_before[u],
                forall|v: usize| #[trigger] dist.contains_key(v) ==> first_path_to(*k, start, Set::full(), target@, tp[v], v),
                queue@.no_duplicates(),
                !queue@.contains(current),
                forall|i: int, j: int| 0 <= i < j < queue@.len() ==> dist[queue@[i]] < dist[queue@[j]] || goes_before(*k, tp[queue@[i]], tp[queue@[j]]),
                forall|u: usize, w: usize| #![trigger dist.contains_key(u), queue@.contains(w)]
                    dist.contains_key(u) && !queue@.contains(u) && queue@.contains(w) && dist[u] == dist[w] ==> goes_before(*k, tp[u], tp[w]),
                forall|w: usize| #[trigger] dist.contains_key(w) && w != start ==> !queue@.contains(parent@[w]),
                forall|u: usize| #[trigger] dist.contains_key(u) && dist[u] == h + 1 ==> queue@.contains(u),
                forall|w: usize| #[trigger] dist.contains_key(w) && !dist_before.contains_key(w) ==> parent@[w] == current
                    && position(k.succ(current), w) < j,
                forall|w: usize| #[trigger] dist_before.contains_key(w) && w != start ==> !queue_at_head.contains(parent@[w]),
                forall|u: usize| dist_before.contains_key(u) && !queue_at_head.contains(u) && dist_before[u] == h ==> goes_before(*k, tp_before[u], tp_before[current]),
            decreases succs@.len() - j,
        {
            let succ = succs[j];
            if !visited.contains(&succ) {
                proof {
                    assert(k.edge(current, succ));
                    assert(succ < n) by {
                        assert(k.transitions@.contains_key(current));
                    }
                }
                proof {
                    lemma_position(k.succ(current), succ);
                    assert(position(k.succ(current), succ) == j) by {
                        if position(k.succ(current), succ) < j {
                            assert(visited@.contains(succs@[position(k.succ(current), succ)]));
                        }
                    }
                }
                let ghost tp_pre = tp;
                let ghost dist_pre = dist;
                parent.insert(succ, current);
                visited.insert(succ);
                proof {
                    dist = dist.insert(succ, dist[current] + 1);
                    tp = tp.insert(succ, tp[current].push(succ));
                    assert(tp_pre[current] == tp_before[current]);
                }
                if target.contains(&succ) {
                    // Reconstruct the path
                    let path = trace_back(&parent, start, succ, Ghost(*k), Ghost(dist), Ghost(outside), Ghost(tp));
                    proof {
                        assert forall|q: Seq<usize>|
                            #[trigger] is_finite_path(*k, q) && q.len() >= 1 && q[0] == start && target@.contains(q.last()) && (
                            forall|i: int| 0 <= i < q.len() - 1 ==> Set::<usize>::full().contains(q[i])) implies path@.len() <= q.len() by {
                            lemma_bfs_depth(*k, start, Set::full(), target@, visited_before, dist_before, h, q);
                        }
                        assert forall|t: usize|
                            #[trigger] position(k.succ(current), t) < position(k.succ(current), succ) implies !target@.contains(t) by {
                            lemma_position(k.succ(current), t);
                            assert(visited@.contains(succs@[position(k.succ(current), t)]));
                        }
                        lemma_first_goal(*k, start, Set::full(), target@, dist_before, tp_before, queue_at_head, current, h, succ);
                        assert(path@ == tp[succ]);
                        assert(reaches(*k, start, target@));
                        assert forall|i: int| 0 <= i < path@.len() - 1 implies !target@.contains(#[trigger] path@[i]) by {
                            assert(outside.contains(path@[i]));
                        }
                    }
                    return path;
                }
                proof {
                    lemma_new_tree_path(*k, start, Set::full(), target@, dist_before, tp_before, queue_at_head, current, h, succ);
                    assert forall|w: usize| #[trigger] queue@.contains(w) && dist[w] == h + 1 implies goes_before(*k, tp[w], tp[succ]) by {
                        assert(w != succ);
                        if dist_before.contains_key(w) {
                            let x = parent@[w];
                            assert(dist_before[x] + 1 == dist_before[w]);
                            assert(!queue_at_head.contains(x));
                            assert(goes_before(*k, tp_before[x], tp_before[current]));
                            lemma_goes_before_push(*k, tp_before[x], tp_before[current], w, succ);
                        } else {
                            lemma_position(k.succ(current), w);
                            lemma_goes_before_step(*k, tp[current], w, succ);
                        }
                    }
                }
                let ghost queue_pre = queue@;
                queue.push_back(succ);
                proof {
                    assert(queue@[queue@.len() - 1] == succ);
                    assert(forall|i: int| 0 <= i < queue_pre.len() ==> queue@[i] == queue_pre[i]);
                    assert forall|i: int, j2: int| 0 <= i < j2 < queue@.len() implies dist[queue@[i]] < dist[queue@[j2]] || goes_before(*k, tp[queue@[i]], tp[queue@[j2]]) by {
                        if j2 == queue@.len() - 1 {
                            assert(queue_pre.contains(queue@[i]));
                        }
                    }
                    assert(queue@.no_duplicates()) by {
                        assert forall|i: int, j2: int| 0 <= i < j2 < queue@.len() implies queue@[i] != queue@[j2] by {
                            if j2 == queue@.len() - 1 {
                                assert(visited_before.contains(queue_pre[i]) || dist_pre.contains_key(queue_pre[i]));
                            }
                        }
                    }
                    assert forall|u: usize, w: usize| #![trigger dist.contains_key(u), queue@.contains(w)]
                        dist.contains_key(u) && !queue@.contains(u) && queue@.contains(w) && dist[u] == dist[w] implies goes_before(*k, tp[u], tp[w]) by {
                        assert(!queue_pre.contains(u)) by {
                            if queue_pre.contains(u) {
                                let i = choose|i: int| 0 <= i < queue_pre.len() && queue_pre[i] == u;
                                assert(queue@[i] == u);
                            }
                        }
                        assert(u != succ);
                        assert(dist_pre.contains_key(u));
                        if w != succ {
                            let i = choose|i: int| 0 <= i < queue@.len() && queue@[i] == w;
                            assert(queue_pre[i] == w);
                            assert(queue_pre.contains(w));
                        }
                    }
                    assert forall|u: usize| #[trigger]
                        visited@.contains(u) && !visited_before.contains(u) implies queue@.contains(u) by {
                        if u != succ {
                            let i = choose|i: int| 0 <= i < queue_pre.len() && queue_pre[i] == u;
                            assert(queue@[i] == u);
                        }
                    }
                }
            }
            j += 1;
        }
        proof {
            assert forall|t: usize| #[trigger] k.edge(current, t) implies visited@.contains(t) by {
                let j2 = choose|j2: int| 0 <= j2 < succs@.len() && succs@[j2] == t;
            }
            assert forall|u: usize| #[trigger] visited@.contains(u) implies queue@.contains(u) || forall|t: usize|
                #[trigger] k.edge(u, t) ==> visited@.contains(t) by {
                if visited_before.contains(u) && u != current {
                    if queue_at_head.contains(u) {
                        let i = choose|i: int| 0 <= i < queue_at_head.len() && queue_at_head[i] == u;
                        assert(i != 0);
                        assert(queue_before[i - 1] == u);
                        assert(queue@[i - 1] == u);
                    }
                }
            }
            lemma_levels_extend(*k, start, Set::full(), target@, dist_before, dist, h);
            lemma_visited_bound(visited@, n as nat, start);
            if visited@.len() == visited_before.len() {
                vstd::set_lib::lemma_subset_equality(visited_before, visited@);
            } else {
                vstd::set_lib::lemma_len_subset(visited_before, visited@);
            }
        }
    }
    proof {
        lemma_closed_avoids(*k, visited@, start, target@);
        lemma_first_of_one(*k, start, Set::full(), target@);
    }
    single(start)
}

/// A set of visited states: the states `0..n` and `start`.
proof fn lemma_visited_bound(v: Set<usize>, n: nat, start: usize)
    requires
        n <= usize::MAX,
        v.subset_of(state_range(n).insert(start)),
    ensures
        v.finite(),
        v.len() <= n + 1,
{
    crate::stateset::lemma_state_range(n);
    vstd::set_lib::lemma_len_subset(v, state_range(n).insert(start));
}

/// The first successor in `good` that `visited` does not hold.
fn find_fresh(v: &[usize], good: &HashSet<usize>, visited: &HashSet<usize>) -> (r: Option<usize>)
    ensures
        r == first_inside(v@, good@.difference(visited@)),
{
    let mut i: usize = 0;
    assert(v@.skip(0) == v@);
    while i < v.len()
        invariant
            i <= v@.len(),
            first_inside(v@, good@.difference(visited@)) == first_inside(v@.skip(i as int), good@.difference(visited@)),
        decreases v@.len() - i,
    {
        assert(v@.skip(i as int)[0] == v@[i as int]);
        if good.contains(&v[i]) && !visited.contains(&v[i]) {
            return Some(v[i]);
        }
        assert(v@.skip(i as int).drop_first() == v@.skip(i + 1));
        i += 1;
    }
    None
}

/// Find a cycle path for EG: a path through states in `good` that forms a
/// loop. Every state of `good` has a successor in `good`, so the walk never
/// gets stuck.
fn build_cycle_path(k: &KripkeStruct, start: usize, good: &HashSet<usize>) -> (path: Vec<usize>)
    requires
        k.wf(),
        good@.subset_of(state_range(k.n())),
        forall|s: usize| good@.contains(s) ==> exists|t: usize| #[trigger] k.edge(s, t) && good@.contains(t),
    ensures
        good_lasso(*k, start, good@, path@),
{
    if !good.contains(&start) {
        return single(start);
    }
    let n = k.state_count();
    let mut path: Vec<usize> = Vec::new();
    path.push(start);
    let mut visited: HashSet<usize> = HashSet::new();
    visited.insert(start);
    let mut current = start;
    let mut round: usize = 0;
    proof {
        assert(path@.drop_last() =~= Seq::<usize>::empty());
        assert(path@ == Seq::<usize>::empty().push(start));
        Seq::<usize>::empty().lemma_push_to_set_commute(start);
        assert(Seq::<usize>::empty().to_set() =~= Set::<usize>::empty());
        assert(visited@ =~= path@.to_set());
    }
    while round <= n
        invariant
            k.wf(),
            n == k.n(),
            good@.subset_of(state_range(n as nat)),
            good@.contains(start),
            path@.len() == round + 1,
            round + 1 <= n,
            path@[0] == start,
            current == path@.last(),
            visited@ == path@.to_set(),
            path@.no_duplicates(),
            is_finite_path(*k, path@),
            forall|i: int| 0 <= i < path@.len() ==> good@.contains(#[trigger] path@[i]),
            walk_goes_on(*k, start, good@, path@, path@.len() as int),
            forall|s: usize| good@.contains(s) ==> exists|t: usize| #[trigger] k.edge(s, t) && good@.contains(t),
        ensures
            good_lasso(*k, start, good@, path@),
        decreases n - round,
    {
        // Look for a successor in good that closes a cycle or extends the path
        let succs = k.successors(current);
        // First, check if we can close the cycle back to start
        if slice_contains(succs, start) && path.len() > 1 {
            let ghost old_path = path@;
            path.push(start);
            proof {
                assert(k.edge(current, start));
                assert(path@.drop_last() == old_path);
                assert(old_path[0] == start);
                lemma_extend_path(*k, old_path, start);
                assert(lasso_move(*k, start, good@, old_path) == Some((start, false)));
                lemma_walk_push(*k, start, good@, old_path, start);
            }
            return path;
        }
        // Try to extend
        match find_fresh(succs, good, &visited) {
            Some(next) => {
                let ghost old_path = path@;
                proof {
                    lemma_first_inside(k.succ(current), good@.difference(visited@));
                    assert(k.edge(current, next));
                    assert(!old_path.contains(next)) by {
                        if old_path.contains(next) {
                            assert(old_path.to_set().contains(next));
                        }
                    }
                }
                path.push(next);
                visited.insert(next);
                proof {
                    assert(lasso_move(*k, start, good@, old_path) == Some((next, true)));
                    lemma_walk_push(*k, start, good@, old_path, next);
                    old_path.lemma_push_to_set_commute(next);
                    lemma_extend_path(*k, old_path, next);
                    assert(path@.no_duplicates()) by {
                        assert forall|a: int, b: int| 0 <= a < path@.len() && 0 <= b < path@.len() && a != b implies path@[a] != path@[b] by {
                            if a < old_path.len() && b < old_path.len() {
                                assert(path@[a] == old_path[a] && path@[b] == old_path[b]);
                            } else if a == old_path.len() {
                                assert(path@[b] == old_path[b]);
                            } else {
                                assert(path@[a] == old_path[a]);
                            }
                        }
                    }
                    assert forall|i: int| 0 <= i < path@.len() implies #[trigger] path@[i] < n by {
                        assert(good@.contains(path@[i]));
                    }
                    lemma_distinct_states_bound(path@, n as nat);
                }
                current = next;
                round = round + 1;
            },
            None => {
                match find_inside(succs, good) {
                    Some(next) => {
                        // Close the cycle at this state
                        let ghost old_path = path@;
                        proof {
                            lemma_first_inside(k.succ(current), good@);
                            lemma_first_inside(k.succ(current), good@.difference(visited@));
                            assert(k.edge(current, next));
                            let j = choose|j: int| 0 <= j < k.succ(current).len() && k.succ(current)[j] == next;
                            assert(!good@.difference(visited@).contains(k.succ(current)[j]));
                            assert(old_path.to_set().contains(next));
                        }
                        path.push(next);
                        proof {
                            assert(path@.drop_last() == old_path);
                            lemma_extend_path(*k, old_path, next);
                            assert(lasso_move(*k, start, good@, old_path) == Some((next, false)));
                            lemma_walk_push(*k, start, good@, old_path, next);
                        }
                        return path;
                    },
                    None => {
                        proof {
                            lemma_first_inside(k.succ(current), good@);
                            let t = choose|t: usize| #[trigger] k.edge(current, t) && good@.contains(t);
                            let j = choose|j: int| 0 <= j < k.succ(current).len() && k.succ(current)[j] == t;
                            assert(!good@.contains(k.succ(current)[j]));
                            assert(lasso_move(*k, start, good@, path@) is None);
                            assert(path@.drop_last().no_duplicates()) by {
                                assert forall|a: int, b: int| 0 <= a < path@.len() - 1 && 0 <= b < path@.len() - 1 && a != b implies path@.drop_last()[a] != path@.drop_last()[b] by {
                                    assert(path@.drop_last()[a] == path@[a]);
                                    assert(path@.drop_last()[b] == path@[b]);
                                }
                            }
                        }
                        break;
                    },
                }
            },
        }
    }
    path
}

proof fn lemma_walk_push(k: KripkeStruct, start: usize, good: Set<usize>, p: Seq<usize>, x: usize)
    requires
        walk_goes_on(k, start, good, p, p.len() as int),
    ensures
        walk_goes_on(k, start, good, p.push(x), p.len() as int),
        lasso_move(k, start, good, p) == Some((x, true)) ==> walk_goes_on(
            k,
            start,
            good,
            p.push(x),
            (p.len() + 1) as int,
        ),
{
    let q = p.push(x);
    assert forall|i: int| 1 <= i < p.len() + 1 implies q.take(i) == p.take(i) by {
        assert(q.take(i) =~= p.take(i));
    }
    assert(q.take(p.len() as int) =~= p);
    assert forall|i: int| 1 <= i < p.len() implies lasso_move(k, start, good, #[trigger] q.take(i)) == Some((q[i], true)) by {
        assert(q.take(i) == p.take(i));
        assert(lasso_move(k, start, good, p.take(i)) == Some((p[i], true)));
    }
    if lasso_move(k, start, good, p) == Some((x, true)) {
        assert forall|i: int| 1 <= i < p.len() + 1 implies lasso_move(k, start, good, #[trigger] q.take(i)) == Some((q[i], true)) by {
            if i < p.len() {
                assert(q.take(i) == p.take(i));
                assert(lasso_move(k, start, good, p.take(i)) == Some((p[i], true)));
            }
        }
    }
}

proof fn lemma_extend_path(k: KripkeStruct, p: Seq<usize>, s: usize)
    requires
        p.len() >= 1,
        is_finite_path(k, p),
        k.edge(p.last(), s),
    ensures
        is_finite_path(k, p.push(s)),
{
    let q = p.push(s);
    assert forall|i: int| 0 <= i < q.len() - 1 implies #[trigger] k.edge(q[i], q[i + 1]) by {
        if i < p.len() - 1 {
            assert(q[i] == p[i] && q[i + 1] == p[i + 1]);
        }
    }
}

/// Find a path for EU: from start, go through l-states, end at an r-state.
fn find_eu_path(
    k: &KripkeStruct,
    start: usize,
    sat_l: &HashSet<usize>,
    sat_r: &HashSet<usize>,
) -> (path: Vec<usize>)
    requires
        k.wf(),
    ensures
        until_search(*k, start, sat_l@, sat_r@, path@),
{
    if sat_r.contains(&start) {
        let p = single(start);
        proof {
            lemma_first_of_one(*k, start, sat_l@, sat_r@);
        }
        return p;
    }
    let n = k.state_count();
    let ghost a = sat_l@;
    let ghost b = sat_r@;
    let ghost inner = Set::new(|s: usize| a.contains(s) && !b.contains(s));
    let mut queue: VecDeque<usize> = VecDeque::new();
    let mut parent: HashMap<usize, usize> = HashMap::new();
    let mut visited: HashSet<usize> = HashSet::new();
    queue.push_back(start);
    visited.insert(start);
    let ghost mut dist: Map<usize, nat> = Map::empty().insert(start, 0nat);
    let ghost mut tp: Map<usize, Seq<usize>> = Map::empty().insert(start, seq![start]);
    let ghost mut h: nat = 0;
    assert(queue@[0] == start);
    assert(visited@ =~= dist.dom());
    proof {
        lemma_levels_start(*k, start, a, b, dist);
        lemma_first_path_start(*k, start, a, b);
    }
    loop
        invariant
            k.wf(),
            n == k.n(),
            a == sat_l@,
            b == sat_r@,
            !b.contains(start),
            inner == Set::new(|s: usize| a.contains(s) && !b.contains(s)),
            visited@ == dist.dom(),
            visited@.subset_of(state_range(n as nat).insert(start)),
            forall|u: usize| #[trigger] visited@.contains(u) ==> !b.contains(u),
            parent_links(*k, parent@, dist, start, inner),
            forall|i: int| 0 <= i < queue@.len() ==> visited@.contains(#[trigger] queue@[i]),
            forall|u: usize| #[trigger]
                visited@.contains(u) ==> queue@.contains(u) || (a.contains(u) ==> forall|t: usize|
                    #[trigger] k.edge(u, t) ==> visited@.contains(t)),
            forall|i: int| 0 <= i < queue@.len() ==> h <= dist[#[trigger] queue@[i]] <= h + 1,
            forall|i: int, j: int| 0 <= i <= j < queue@.len() ==> dist[queue@[i]] <= dist[queue@[j]],
            forall|u: usize| #[trigger] dist.contains_key(u) ==> dist[u] <= h + 1,
            levels_reached(*k, start, a, b, dist, h),
            tree_links(parent@, tp, dist, start),
            forall|v: usize| #[trigger] dist.contains_key(v) ==> first_path_to(*k, start, a, b, tp[v], v),
            queue@.no_duplicates(),
            forall|i: int, j: int| 0 <= i < j < queue@.len() ==> dist[queue@[i]] < dist[queue@[j]] || goes_before(*k, tp[queue@[i]], tp[queue@[j]]),
            forall|u: usize, w: usize| #![trigger dist.contains_key(u), queue@.contains(w)]
                dist.contains_key(u) && !queue@.contains(u) && queue@.contains(w) && dist[u] == dist[w] ==> goes_before(*k, tp[u], tp[w]),
            forall|w: usize| #[trigger] dist.contains_key(w) && w != start ==> !queue@.contains(parent@[w]),
            forall|u: usize| #[trigger] dist.contains_key(u) && dist[u] == h + 1 ==> queue@.contains(u),
        ensures
            visited@.contains(start),
            forall|u: usize| #[trigger] visited@.contains(u) ==> !b.contains(u),
            forall|u: usize, t: usize|
                #[trigger] k.edge(u, t) && visited@.contains(u) && a.contains(u) ==> visited@.contains(t),
        decreases n + 1 - visited@.len(), queue@.len(),
    {
        proof {
            lemma_visited_bound(visited@, n as nat, start);
        }
        let ghost queue_at_head = queue@;
        assert(forall|u: usize| #[trigger] visited@.contains(u) && !queue_at_head.contains(u) && a.contains(u) ==> forall|t: usize|
            #[trigger] k.edge(u, t) ==> visited@.contains(t));
        let popped = queue.pop_front();
        let current = match popped {
            Some(c) => c,
            None => {
                proof {
                    assert forall|u: usize, t: usize|
                        #[trigger] k.edge(u, t) && visited@.contains(u) && a.contains(u) implies visited@.contains(t) by {
                        assert(!queue@.contains(u));
                    }
                }
                break;
            },
        };
        assert(visited@.contains(current)) by {
            assert(queue_at_head[0] == current);
        }
        proof {
            let h2 = dist[current];
            assert(queue_at_head[0] == current);
            assert forall|u: usize, t: usize| #[trigger] k.edge(u, t) && dist.contains_key(u) && dist[u] < h2 && a.contains(u) implies dist.contains_key(t) by {
                if queue_at_head.contains(u) {
                    let i = choose|i: int| 0 <= i < queue_at_head.len() && queue_at_head[i] == u;
                    assert(dist[queue_at_head[0]] <= dist[queue_at_head[i]]);
                }
                assert(visited@.contains(u));
            }
            if h2 == h + 1 {
                lemma_levels_next(*k, start, a, b, dist, h);
            }
            assert forall|i: int| 0 <= i < queue@.len() implies h2 <= dist[#[trigger] queue@[i]] <= h2 + 1 by {
                assert(queue@[i] == queue_at_head[i + 1]);
                assert(dist[queue_at_head[0]] <= dist[queue_at_head[i + 1]]);
            }
            assert forall|i: int, j: int| 0 <= i <= j < queue@.len() implies dist[queue@[i]] <= dist[queue@[j]] by {
                assert(queue@[i] == queue_at_head[i + 1]);
                assert(queue@[j] == queue_at_head[j + 1]);
            }
            assert forall|u: usize| #[trigger] dist.contains_key(u) && dist[u] > h2 implies queue_at_head.contains(u) by {}
            h = h2;
        }
        proof {
            lemma_pop_order(*k, start, parent@, dist, tp, queue_at_head, queue@, current, h);
            assert(expanding(*k, start, a, b, dist, tp, queue_at_head, current, h));
        }
        let succs = k.successors(current);
        let ghost visited_before = visited@;
        let ghost queue_before = queue@;
        let ghost dist_before = dist;
        let ghost tp_before = tp;
        proof {
            lemma_hash_set_finite(&visited);
        }
        let mut j: usize = 0;
        while j < succs.len()
            invariant
                k.wf(),
                n == k.n(),
                a == sat_l@,
                b == sat_r@,
                succs@ == k.succ(current),
                j <= succs@.len(),
                !b.contains(start),
                inner == Set::new(|s: usize| a.contains(s) && !b.contains(s)),
                !b.contains(current),
                visited@.contains(current),
                visited@ == dist.dom(),
                visited_before.subset_of(visited@),
                visited@.subset_of(state_range(n as nat).insert(start)),
                forall|u: usize| #[trigger] visited@.contains(u) ==> !b.contains(u),
                parent_links(*k, parent@, dist, start, inner),
                forall|i: int| 0 <= i < queue@.len() ==> visited@.contains(#[trigger] queue@[i]),
                queue@.len() >= queue_before.len(),
                forall|i: int| 0 <= i < queue_before.len() ==> queue@[i] == #[trigger] queue_before[i],
                forall|u: usize| #[trigger]
                    visited@.contains(u) && !visited_before.contains(u) ==> queue@.contains(u),
                a.contains(current) ==> forall|j2: int| 0 <= j2 < j ==> visited@.contains(#[trigger] succs@[j2]),
                visited@.finite(),
                visited_before.finite(),
                queue@.len() == queue_before.len() + (visited@.len() - visited_before.len()),
                forall|i: int| 0 <= i < queue@.len() ==> h <= dist[#[trigger] queue@[i]] <= h + 1,
                forall|i: int, j: int| 0 <= i <= j < queue@.len() ==> dist[queue@[i]] <= dist[queue@[j]],
                forall|u: usize| #[trigger] dist.contains_key(u) ==> dist[u] <= h + 1,
                dist.contains_key(current),
                dist[current] == h,
                forall|u: usize| #[trigger]
                    dist_before.contains_key(u) ==> dist.contains_key(u) && dist[u] == dist_before[u],
                levels_reached(*k, start, a, b, dist_before, h),
                forall|u: usize, t: usize| #[trigger]
                    k.edge(u, t) && dist_before.contains_key(u) && dist_before[u] < h && a.contains(u) ==> visited_before.contains(t),
                visited_before.contains(start),
                visited_before == dist_before.dom(),
                expanding(*k, start, a, b, dist_before, tp_before, queue_at_head, current, h),
                tree_links(parent@, tp, dist, start),
                forall|u: usize| #[trigger] dist_before.contains_key(u) ==> tp.contains_key(u) && tp[u] == tp_before[u],
                forall|v: usize| #[trigger] dist.contains_key(v) ==> first_path_to(*k, start, a, b, tp[v], v),
                queue@.no_duplicates(),
                !queue@.contains(current),
                forall|i: int, j: int| 0 <= i < j < queue@.len() ==> dist[queue@[i]] < dist[queue@[j]] || goes_before(*k, tp[queue@[i]], tp[queue@[j]]),
                forall|u: usize, w: usize| #![trigger dist.contains_key(u), queue@.contains(w)]
                    dist.contains_key(u) && !queue@.contains(u) && queue@.contains(w) && dist[u] == dist[w] ==> goes_before(*k, tp[u], tp[w]),
                forall|w: usize| #[trigger] dist.contains_key(w) && w != start ==> !queue@.contains(parent@[w]),
                forall|u: usize| #[trigger] dist.contains_key(u) && dist[u] == h + 1 ==> queue@.contains(u),
                forall|w: usize| #[trigger] dist.contains_key(w) && !dist_before.contains_key(w) ==> parent@[w] == current
                    && position(k.succ(current), w) < j,
                forall|w: usize| #[trigger] dist_before.contains_key(w) && w != start ==> !queue_at_head.contains(parent@[w]),
                forall|u: usize| dist_before.contains_key(u) && !queue_at_head.contains(u) && dist_before[u] == h ==> goes_before(*k, tp_before[u], tp_before[current]),
            decreases succs@.len() - j,
        {
            let succ = succs[j];
            if !visited.contains(&succ) {
                if sat_l.contains(&current) || sat_r.contains(&current) {
                    proof {
                        assert(k.edge(current, succ));
                        assert(succ < n) by {
                            assert(k.transitions@.contains_key(current));
                        }
                        assert(inner.contains(current));
                    }
                    proof {
                        lemma_position(k.succ(current), succ);
                        assert(position(k.succ(current), succ) == j) by {
                            if position(k.succ(current), succ) < j {
                                assert(visited@.contains(succs@[position(k.succ(current), succ)]));
                            }
                        }
                    }
                    let ghost tp_pre = tp;
                    let ghost dist_pre = dist;
                    parent.insert(succ, current);
                    visited.insert(succ);
                    proof {
                        dist = dist.insert(succ, dist[current] + 1);
                        tp = tp.insert(succ, tp[current].push(succ));
                        assert(tp_pre[current] == tp_before[current]);
                    }
                    if sat_r.contains(&succ) {
                        let path = trace_back(&parent, start, succ, Ghost(*k), Ghost(dist), Ghost(inner), Ghost(tp));
                        proof {
                            assert forall|q: Seq<usize>|
                                #[trigger] is_finite_path(*k, q) && q.len() >= 1 && q[0] == start && b.contains(q.last()) && (
                                forall|i: int| 0 <= i < q.len() - 1 ==> a.contains(q[i])) implies path@.len() <= q.len() by {
                                lemma_bfs_depth(*k, start, a, b, visited_before, dist_before, h, q);
                            }
                            assert forall|t: usize|
                                #[trigger] position(k.succ(current), t) < position(k.succ(current), succ) implies !b.contains(t) by {
                                lemma_position(k.succ(current), t);
                                assert(visited@.contains(succs@[position(k.succ(current), t)]));
                            }
                            lemma_first_goal(*k, start, a, b, dist_before, tp_before, queue_at_head, current, h, succ);
                            assert(path@ == tp[succ]);
                            assert forall|i: int| 0 <= i < path@.len() - 1 implies a.contains(#[trigger] path@[i])
                                && !b.contains(path@[i]) by {
                                assert(inner.contains(path@[i]));
                            }
                            assert(reaches_through(*k, start, a, b));
                        }
                        return path;
                    }
                    proof {
                        lemma_new_tree_path(*k, start, a, b, dist_before, tp_before, queue_at_head, current, h, succ);
                        assert forall|w: usize| #[trigger] queue@.contains(w) && dist[w] == h + 1 implies goes_before(*k, tp[w], tp[succ]) by {
                            assert(w != succ);
                            if dist_before.contains_key(w) {
                                let x = parent@[w];
                                assert(dist_before[x] + 1 == dist_before[w]);
                                assert(!queue_at_head.contains(x));
                                assert(goes_before(*k, tp_before[x], tp_before[current]));
                                lemma_goes_before_push(*k, tp_before[x], tp_before[current], w, succ);
                            } else {
                                lemma_position(k.succ(current), w);
                                lemma_goes_before_step(*k, tp[current], w, succ);
                            }
                        }
                    }
                    let ghost queue_pre = queue@;
                    queue.push_back(succ);
                    proof {
                        assert(queue@[queue@.len() - 1] == succ);
                        assert(forall|i: int| 0 <= i < queue_pre.len() ==> queue@[i] == queue_pre[i]);
                        assert forall|i: int, j2: int| 0 <= i < j2 < queue@.len() implies dist[queue@[i]] < dist[queue@[j2]] || goes_before(*k, tp[queue@[i]], tp[queue@[j2]]) by {
                            if j2 == queue@.len() - 1 {
                                assert(queue_pre.contains(queue@[i]));
                            }
                        }
                        assert(queue@.no_duplicates()) by {
                            assert forall|i: int, j2: int| 0 <= i < j2 < queue@.len() implies queue@[i] != queue@[j2] by {
                                if j2 == queue@.len() - 1 {
                                    assert(visited_before.contains(queue_pre[i]) || dist_pre.contains_key(queue_pre[i]));
                                }
                            }
                        }
                        assert forall|u: usize, w: usize| #![trigger dist.contains_key(u), queue@.contains(w)]
                            dist.contains_key(u) && !queue@.contains(u) && queue@.contains(w) && dist[u] == dist[w] implies goes_before(*k, tp[u], tp[w]) by {
                            assert(!queue_pre.contains(u)) by {
                                if queue_pre.contains(u) {
                                    let i = choose|i: int| 0 <= i < queue_pre.len() && queue_pre[i] == u;
                                    assert(queue@[i] == u);
                                }
                            }
                            assert(u != succ);
                            assert(dist_pre.contains_key(u));
                            if w != succ {
                                let i = choose|i: int| 0 <= i < queue@.len() && queue@[i] == w;
                                assert(queue_pre[i] == w);
                                assert(queue_pre.contains(w));
                            }
                        }
                        assert forall|u: usize| #[trigger]
                            visited@.contains(u) && !visited_before.contains(u) implies queue@.contains(u) by {
                            if u != succ {
                                let i = choose|i: int| 0 <= i < queue_pre.len() && queue_pre[i] == u;
                                assert(queue@[i] == u);
                            }
                        }
                    }
                }
            }
            j += 1;
        }
        proof {
            if a.contains(current) {
                assert forall|t: usize| #[trigger] k.edge(current, t) implies visited@.contains(t) by {
                    let j2 = choose|j2: int| 0 <= j2 < succs@.len() && succs@[j2] == t;
                }
            }
            assert forall|u: usize| #[trigger] visited@.contains(u) implies queue@.contains(u) || (a.contains(u)
                ==> forall|t: usize| #[trigger] k.edge(u, t) ==> visited@.contains(t)) by {
                if visited_before.contains(u) && u != current {
                    if queue_at_head.contains(u) {
                        let i = choose|i: int| 0 <= i < queue_at_head.len() && queue_at_head[i] == u;
                        assert(i != 0);
                        assert(queue_before[i - 1] == u);
                        assert(queue@[i - 1] == u);
                    }
                }
            }
            lemma_levels_extend(*k, start, a, b, dist_before, dist, h);
            lemma_visited_bound(visited@, n as nat, start);
            if visited@.len() == visited_before.len() {
                vstd::set_lib::lemma_subset_equality(visited_before, visited@);
            } else {
                vstd::set_lib::lemma_len_subset(visited_before, visited@);
            }
        }
    }
    proof {
        if reaches_through(*k, start, a, b) {
            let q = choose|q: Seq<usize>|
                #[trigger] is_finite_path(*k, q) && q.len() >= 1 && q[0] == start && b.contains(q.last()) && (
                forall|i: int| 0 <= i < q.len() - 1 ==> a.contains(#[trigger] q[i]));
            lemma_until_path_visited(*k, visited@, a, q, q.len() - 1);
        }
        lemma_first_of_one(*k, start, a, b);
    }
    single(start)
}

proof fn lemma_until_path_visited(k: KripkeStruct, c: Set<usize>, a: Set<usize>, q: Seq<usize>, i: int)
    requires
        is_finite_path(k, q),
        0 <= i < q.len(),
        c.contains(q[0]),
        forall|j: int| 0 <= j < q.len() - 1 ==> a.contains(#[trigger] q[j]),
        forall|u: usize, t: usize| #[trigger] k.edge(u, t) && c.contains(u) && a.contains(u) ==> c.contains(t),
    ensures
        c.contains(q[i]),
    decreases i,
{
    if i > 0 {
        lemma_until_path_visited(k, c, a, q, i - 1);
        let j = i - 1;
        assert(k.edge(q[j], q[j + 1]));
        assert(a.contains(q[j]));
    }
}

} // verus!
