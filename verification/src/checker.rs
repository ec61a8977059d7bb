//! The model checker: computes the states satisfying a CTL formula by
//! iterative fixpoint computation, recording how many rounds each fixpoint took.
use std::collections::HashSet;
use vstd::prelude::*;
use vstd::std_specs::iter::IteratorSpec;

use crate::complexity::{
    counts_at_most, lemma_records_bounded, lemma_records_concat, lemma_records_none,
    lemma_records_push, records, ComplexityReport,
};
use crate::formula::{formula_size, CtlFormula};
use crate::kripke::KripkeStruct;
use crate::laws::{law_ag_is_not_ef_not, law_ax_is_not_ex_not};
use crate::semantics::{
    af_set, ag_set, au_set, ef_set, eg_set, eu_set, ex_set, ax_set, lemma_af_base, lemma_af_least,
    lemma_af_step, lemma_ag_greatest, lemma_ag_sub, lemma_ag_succ, lemma_au_base, lemma_au_least,
    lemma_au_step, lemma_edge_in_range, lemma_ef_base, lemma_ef_least, lemma_ef_pred,
    lemma_eg_greatest, lemma_eg_sub, lemma_eg_succ, lemma_eu_base, lemma_eu_least, lemma_eu_pred,
    lemma_sat_in_range, sat,
};
use crate::stateset::{
    all_in, any_in, copy_set, insert_all, lemma_state_range, lemma_subset_of_range, range_minus,
    same_states, set_intersect, set_union, state_range,
};

verus! {

broadcast use vstd::std_specs::hash::group_hash_axioms;

/// Result of model checking a formula on a Kripke structure.
#[derive(Debug)]
pub struct CheckResult {
    /// States satisfying the formula.
    pub satisfying_states: HashSet<usize>,
    /// Whether the formula holds in all initial states.
    pub holds: bool,
    /// Complexity report for fixpoint operations.
    pub complexity: ComplexityReport,
}

impl Clone for CheckResult {
    fn clone(&self) -> (r: Self)
        ensures
            r.satisfying_states@ == self.satisfying_states@,
            r.holds == self.holds,
            r.complexity@ == self.complexity@,
    {
        CheckResult {
            satisfying_states: copy_set(&self.satisfying_states),
            holds: self.holds,
            complexity: self.complexity.clone(),
        }
    }
}

/// `x` has no successor in `c`.
pub open spec fn no_successor_in(k: KripkeStruct, c: Set<usize>, x: usize) -> bool {
    !(exists|t: usize| #[trigger] k.edge(x, t) && c.contains(t))
}

/// `x` has a successor outside `c`.
pub open spec fn successor_outside(k: KripkeStruct, c: Set<usize>, x: usize) -> bool {
    !(forall|t: usize| #[trigger] k.edge(x, t) ==> c.contains(t))
}

/// The most rounds one fixpoint takes on `k`: |S|, or 1 on the empty structure.
pub open spec fn round_bound(k: KripkeStruct) -> nat {
    if k.n() == 0 {
        1
    } else {
        k.n()
    }
}

/// The fixpoint operators of `f` in the order in which the checker evaluates
/// them: operands first, the right operand of EU and AU before the left.
pub open spec fn fixpoint_ops(f: CtlFormula) -> Seq<Seq<char>>
    decreases f,
{
    match f {
        CtlFormula::Atom(_) => seq![],
        CtlFormula::Not(g) => fixpoint_ops(*g),
        CtlFormula::And(l, r) => fixpoint_ops(*l) + fixpoint_ops(*r),
        CtlFormula::Or(l, r) => fixpoint_ops(*l) + fixpoint_ops(*r),
        CtlFormula::Ex(g) => fixpoint_ops(*g),
        CtlFormula::Ax(g) => fixpoint_ops(*g),
        CtlFormula::Ef(g) => fixpoint_ops(*g).push("EF"@),
        CtlFormula::Af(g) => fixpoint_ops(*g).push("AF"@),
        CtlFormula::Eg(g) => fixpoint_ops(*g).push("EG"@),
        CtlFormula::Ag(g) => fixpoint_ops(*g).push("AG"@),
        CtlFormula::Eu(l, r) => (fixpoint_ops(*r) + fixpoint_ops(*l)).push("EU"@),
        CtlFormula::Au(l, r) => (fixpoint_ops(*r) + fixpoint_ops(*l)).push("AU"@),
    }
}

/// The states with a successor in `c`.
pub open spec fn pre_image(k: KripkeStruct, c: Set<usize>) -> Set<usize> {
    Set::new(|p: usize| exists|q: usize| k.edge(p, q) && c.contains(q))
}

/// The states outside `c` all of whose successors lie in `c`.
pub open spec fn forced(k: KripkeStruct, c: Set<usize>) -> Set<usize> {
    Set::new(
        |s: usize| s < k.n() && !c.contains(s) && forall|t: usize| #[trigger] k.edge(s, t) ==> c.contains(t),
    )
}

/// One round of EF: add the predecessors of the set.
pub open spec fn ef_round(k: KripkeStruct) -> spec_fn(Set<usize>) -> Set<usize> {
    |c: Set<usize>| c.union(pre_image(k, c))
}

/// One round of AF: add the states all of whose successors are in the set.
pub open spec fn af_round(k: KripkeStruct) -> spec_fn(Set<usize>) -> Set<usize> {
    |c: Set<usize>| c.union(forced(k, c))
}

/// One round of EG: remove the states with no successor in the set.
pub open spec fn eg_round(k: KripkeStruct) -> spec_fn(Set<usize>) -> Set<usize> {
    |c: Set<usize>| c.difference(Set::new(|x: usize| no_successor_in(k, c, x)))
}

/// One round of AG: remove the states with a successor outside the set.
pub open spec fn ag_round(k: KripkeStruct) -> spec_fn(Set<usize>) -> Set<usize> {
    |c: Set<usize>| c.difference(Set::new(|x: usize| successor_outside(k, c, x)))
}

/// One round of EU with left operand `a`: add the predecessors in `a`.
pub open spec fn eu_round(k: KripkeStruct, a: Set<usize>) -> spec_fn(Set<usize>) -> Set<usize> {
    |c: Set<usize>| c.union(pre_image(k, c).intersect(a))
}

/// One round of AU with left operand `a`: add the states in `a` all of whose
/// successors are in the set.
pub open spec fn au_round(k: KripkeStruct, a: Set<usize>) -> spec_fn(Set<usize>) -> Set<usize> {
    |c: Set<usize>| c.union(forced(k, c).intersect(a))
}

/// `g` applied `i` times to `x`.
pub open spec fn iterate(g: spec_fn(Set<usize>) -> Set<usize>, x: Set<usize>, i: nat) -> Set<usize>
    decreases i,
{
    if i == 0 {
        x
    } else {
        g(iterate(g, x, (i - 1) as nat))
    }
}

/// Round `j + 1` of the iteration of `g` from `x` changes the set.
pub open spec fn changes(g: spec_fn(Set<usize>) -> Set<usize>, x: Set<usize>, j: nat) -> bool {
    g(iterate(g, x, j)) != iterate(g, x, j)
}

/// Iterating `g` from `x`, round `c` is the first round that changes nothing.
pub open spec fn stable_at(g: spec_fn(Set<usize>) -> Set<usize>, x: Set<usize>, c: nat) -> bool {
    &&& c >= 1
    &&& !changes(g, x, (c - 1) as nat)
    &&& forall|j: nat| j < c - 1 ==> #[trigger] changes(g, x, j)
}

/// The number of rounds the iteration of `g` from `x` runs, up to and
/// including the first round that changes nothing.
pub open spec fn rounds(g: spec_fn(Set<usize>) -> Set<usize>, x: Set<usize>) -> nat {
    choose|c: nat| stable_at(g, x, c)
}

/// The round count is the round that first changes nothing.
pub proof fn lemma_rounds(g: spec_fn(Set<usize>) -> Set<usize>, x: Set<usize>, c: nat)
    requires
        stable_at(g, x, c),
    ensures
        rounds(g, x) == c,
{
    let d = rounds(g, x);
    assert(stable_at(g, x, d));
    if d < c {
        assert(changes(g, x, (d - 1) as nat));
    }
    if c < d {
        assert(changes(g, x, (c - 1) as nat));
    }
}

/// How many rounds each fixpoint of `f` takes on `k`, in the order of
/// [`fixpoint_ops`].
pub open spec fn fixpoint_counts(k: KripkeStruct, f: CtlFormula) -> Seq<u64>
    decreases f,
{
    match f {
        CtlFormula::Atom(_) => seq![],
        CtlFormula::Not(g) => fixpoint_counts(k, *g),
        CtlFormula::And(l, r) => fixpoint_counts(k, *l) + fixpoint_counts(k, *r),
        CtlFormula::Or(l, r) => fixpoint_counts(k, *l) + fixpoint_counts(k, *r),
        CtlFormula::Ex(g) => fixpoint_counts(k, *g),
        CtlFormula::Ax(g) => fixpoint_counts(k, *g),
        CtlFormula::Ef(g) => fixpoint_counts(k, *g).push(rounds(ef_round(k), sat(k, *g)) as u64),
        CtlFormula::Af(g) => fixpoint_counts(k, *g).push(rounds(af_round(k), sat(k, *g)) as u64),
        CtlFormula::Eg(g) => fixpoint_counts(k, *g).push(rounds(eg_round(k), sat(k, *g)) as u64),
        CtlFormula::Ag(g) => fixpoint_counts(k, *g).push(rounds(ag_round(k), sat(k, *g)) as u64),
        CtlFormula::Eu(l, r) => (fixpoint_counts(k, *r) + fixpoint_counts(k, *l)).push(
            rounds(eu_round(k, sat(k, *l)), sat(k, *r)) as u64,
        ),
        CtlFormula::Au(l, r) => (fixpoint_counts(k, *r) + fixpoint_counts(k, *l)).push(
            rounds(au_round(k, sat(k, *l)), sat(k, *r)) as u64,
        ),
    }
}

/// Whether every initial state of `k` lies in `states`.
pub open spec fn all_initial_in(k: KripkeStruct, states: Set<usize>) -> bool {
    forall|i: int| 0 <= i < k.initial_states@.len() ==> states.contains(#[trigger] k.initial_states@[i])
}

/// Model check a CTL formula on a Kripke structure.
///
/// Returns the set of states satisfying the formula and whether it holds in
/// all initial states. Uses iterative fixpoint computation for all temporal
/// operators; the report records, for each fixpoint in evaluation order, the
/// number of rounds it ran ([`fixpoint_counts`]), which is at most |S|.
pub fn check(k: &KripkeStruct, formula: &CtlFormula) -> (r: CheckResult)
    requires
        k.wf(),
    ensures
        r.satisfying_states@ == sat(*k, *formula),
        r.holds == all_initial_in(*k, sat(*k, *formula)),
        records(
            Seq::empty(),
            r.complexity@,
            fixpoint_ops(*formula),
            fixpoint_counts(*k, *formula),
            round_bound(*k),
        ),
        k.n() >= 1 ==> counts_at_most(r.complexity@, k.n()),
{
    let mut ctx = CheckContext::new(k);
    let satisfying = ctx.eval(formula);
    let holds = all_in(k.initial_states.as_slice(), &satisfying);
    proof {
        lemma_records_bounded(
            Seq::empty(),
            ctx.complexity@,
            fixpoint_ops(*formula),
            fixpoint_counts(*k, *formula),
            round_bound(*k),
        );
    }
    CheckResult { satisfying_states: satisfying, holds, complexity: ctx.complexity }
}

struct CheckContext<'a> {
    k: &'a KripkeStruct,
    complexity: ComplexityReport,
}

proof fn lemma_size_positive(f: CtlFormula)
    ensures
        formula_size(f) >= 1,
{
}

impl<'a> CheckContext<'a> {
    fn new(k: &'a KripkeStruct) -> (c: Self)
        ensures
            c.k == k,
            c.complexity@ == Seq::<(Seq<char>, Seq<u64>)>::empty(),
    {
        Self { k, complexity: ComplexityReport::new() }
    }

    /// Evaluate a CTL formula, returning the set of states satisfying it.
    fn eval(&mut self, formula: &CtlFormula) -> (r: HashSet<usize>)
        requires
            old(self).k.wf(),
        ensures
            final(self).k == old(self).k,
            r@ == sat(*old(self).k, *formula),
            records(
                old(self).complexity@,
                final(self).complexity@,
                fixpoint_ops(*formula),
                fixpoint_counts(*old(self).k, *formula),
                round_bound(*old(self).k),
            ),
        decreases formula_size(*formula), 0int,
    {
        match formula {
            CtlFormula::Atom(p) => {
                proof {
                    lemma_records_none(self.complexity@, round_bound(*self.k));
                }
                self.eval_atom(p.as_str())
            },
            CtlFormula::Not(phi) => self.eval_not(phi),
            CtlFormula::And(l, r) => self.eval_and(l, r),
            CtlFormula::Or(l, r) => self.eval_or(l, r),
            CtlFormula::Ex(phi) => self.eval_ex(phi),
            CtlFormula::Ax(phi) => self.eval_ax(phi),
            CtlFormula::Ef(phi) => self.eval_ef(phi),
            CtlFormula::Af(phi) => self.eval_af(phi),
            CtlFormula::Eg(phi) => self.eval_eg(phi),
            CtlFormula::Ag(phi) => self.eval_ag(phi),
            CtlFormula::Eu(l, r) => self.eval_eu(l, r),
            CtlFormula::Au(l, r) => self.eval_au(l, r),
        }
    }

    fn eval_atom(&self, p: &str) -> (r: HashSet<usize>)
        ensures
            r@ == Set::new(|s: usize| s < self.k.n() && self.k.label_set(s).contains(p@)),
    {
        let mut result: HashSet<usize> = HashSet::new();
        let n = self.k.state_count();
        for i in 0..n
            invariant
                n == self.k.n(),
                result@ == Set::new(|s: usize| s < i && self.k.label_set(s).contains(p@)),
        {
            if self.k.has_label(i, p) {
                result.insert(i);
            }
            assert(result@ =~= Set::new(|s: usize| s < i + 1 && self.k.label_set(s).contains(p@)));
        }
        assert(result@ =~= Set::new(|s: usize| s < self.k.n() && self.k.label_set(s).contains(p@)));
        result
    }

    fn eval_not(&mut self, phi: &CtlFormula) -> (r: HashSet<usize>)
        requires
            old(self).k.wf(),
        ensures
            final(self).k == old(self).k,
            r@ == state_range(old(self).k.n()).difference(sat(*old(self).k, *phi)),
            records(
                old(self).complexity@,
                final(self).complexity@,
                fixpoint_ops(*phi),
                fixpoint_counts(*old(self).k, *phi),
                round_bound(*old(self).k),
            ),
        decreases formula_size(*phi), 1int,
    {
        let inner = self.eval(phi);
        range_minus(self.k.state_count(), &inner)
    }

    fn eval_and(&mut self, l: &CtlFormula, r: &CtlFormula) -> (res: HashSet<usize>)
        requires
            old(self).k.wf(),
        ensures
            final(self).k == old(self).k,
            res@ == sat(*old(self).k, *l).intersect(sat(*old(self).k, *r)),
            records(
                old(self).complexity@,
                final(self).complexity@,
                fixpoint_ops(*l) + fixpoint_ops(*r),
                fixpoint_counts(*old(self).k, *l) + fixpoint_counts(*old(self).k, *r),
                round_bound(*old(self).k),
            ),
        decreases formula_size(*l) + formula_size(*r), 1int,
    {
        proof {
            lemma_size_positive(*l);
            lemma_size_positive(*r);
        }
        let ghost e0 = self.complexity@;
        let left = self.eval(l);
        let ghost e1 = self.complexity@;
        let right = self.eval(r);
        proof {
            lemma_records_concat(
                e0,
                e1,
                self.complexity@,
                fixpoint_ops(*l),
                fixpoint_counts(*self.k, *l),
                fixpoint_ops(*r),
                fixpoint_counts(*self.k, *r),
                round_bound(*self.k),
            );
        }
        set_intersect(&left, &right)
    }

    fn eval_or(&mut self, l: &CtlFormula, r: &CtlFormula) -> (res: HashSet<usize>)
        requires
            old(self).k.wf(),
        ensures
            final(self).k == old(self).k,
            res@ == sat(*old(self).k, *l).union(sat(*old(self).k, *r)),
            records(
                old(self).complexity@,
                final(self).complexity@,
                fixpoint_ops(*l) + fixpoint_ops(*r),
                fixpoint_counts(*old(self).k, *l) + fixpoint_counts(*old(self).k, *r),
                round_bound(*old(self).k),
            ),
        decreases formula_size(*l) + formula_size(*r), 1int,
    {
        proof {
            lemma_size_positive(*l);
            lemma_size_positive(*r);
        }
        let ghost e0 = self.complexity@;
        let left = self.eval(l);
        let ghost e1 = self.complexity@;
        let right = self.eval(r);
        proof {
            lemma_records_concat(
                e0,
                e1,
                self.complexity@,
                fixpoint_ops(*l),
                fixpoint_counts(*self.k, *l),
                fixpoint_ops(*r),
                fixpoint_counts(*self.k, *r),
                round_bound(*self.k),
            );
        }
        set_union(&left, &right)
    }

    /// EF φ = φ ∨ EX EF φ — least fixpoint. Start with the states satisfying
    /// φ and add predecessors until nothing changes.
    fn eval_ef(&mut self, phi: &CtlFormula) -> (r: HashSet<usize>)
        requires
            old(self).k.wf(),
        ensures
            final(self).k == old(self).k,
            r@ == ef_set(*old(self).k, sat(*old(self).k, *phi)),
            records(
                old(self).complexity@,
                final(self).complexity@,
                fixpoint_ops(*phi).push("EF"@),
                fixpoint_counts(*old(self).k, *phi).push(rounds(ef_round(*old(self).k), sat(*old(self).k, *phi)) as u64),
                round_bound(*old(self).k),
            ),
        decreases formula_size(*phi), 1int,
    {
        let mut current = self.eval(phi);
        let k = self.k;
        let ghost a = current@;
        let ghost n = k.n();
        let nstates = k.state_count();
        proof {
            lemma_sat_in_range(*k, *phi);
            lemma_subset_of_range(a, n);
            assert forall|s: usize| a.contains(s) implies ef_set(*k, a).contains(s) by {
                lemma_ef_base(*k, a, s);
            }
        }
        let mut iterations: u64 = 0;
        loop
            invariant_except_break
                iterations + a.len() <= current@.len(),
                a.len() == 0 ==> current@.len() == 0 && iterations == 0,
                current@ == iterate(ef_round(*k), a, iterations as nat),
                forall|j: nat| j < iterations ==> #[trigger] changes(ef_round(*k), a, j),
            invariant
                k.wf(),
                n == k.n(),
                nstates == n,
                a.subset_of(state_range(n)),
                a.finite(),
                a.subset_of(current@),
                current@.subset_of(ef_set(*k, a)),
            ensures
                current@ == ef_set(*k, a),
                1 <= iterations <= round_bound(*k),
                stable_at(ef_round(*k), a, iterations as nat),
            decreases n - current@.len(),
        {
            proof {
                assert(ef_set(*k, a).subset_of(state_range(n)));
                lemma_subset_of_range(current@, n);
            }
            let preds = k.predecessors_of_set(&current);
            let next = set_union(&current, &preds);
            proof {
                assert(next@ =~= ef_round(*k)(current@));
                assert forall|p: usize| preds@.contains(p) implies ef_set(*k, a).contains(p) by {
                    let q = choose|q: usize| k.edge(p, q) && current@.contains(q);
                    lemma_ef_pred(*k, a, p, q);
                }
                if current@.len() == 0 {
                    assert(current@ =~= Set::empty());
                    assert(next@ =~= current@);
                }
            }
            iterations = iterations + 1;
            if same_states(&next, &current) {
                proof {
                    lemma_ef_least(*k, a, current@);
                }
                break;
            }
            proof {
                lemma_subset_of_range(next@, n);
                if next@.subset_of(current@) {
                    assert(next@ =~= current@);
                }
                let x = choose|x: usize| next@.contains(x) && !current@.contains(x);
                vstd::set_lib::lemma_len_subset(current@, next@.remove(x));
            }
            current = next;
        }
        proof {
            lemma_rounds(ef_round(*k), a, iterations as nat);
            lemma_records_push(
                old(self).complexity@,
                self.complexity@,
                fixpoint_ops(*phi),
                fixpoint_counts(*k, *phi),
                round_bound(*k),
                "EF"@,
                iterations,
            );
        }
        self.complexity.record("EF", iterations);
        current
    }

    /// AF φ = φ ∨ AX AF φ — least fixpoint. Start with the states satisfying
    /// φ and add the states all of whose successors are already in the set.
    fn eval_af(&mut self, phi: &CtlFormula) -> (r: HashSet<usize>)
        requires
            old(self).k.wf(),
        ensures
            final(self).k == old(self).k,
            r@ == af_set(*old(self).k, sat(*old(self).k, *phi)),
            records(
                old(self).complexity@,
                final(self).complexity@,
                fixpoint_ops(*phi).push("AF"@),
                fixpoint_counts(*old(self).k, *phi).push(rounds(af_round(*old(self).k), sat(*old(self).k, *phi)) as u64),
                round_bound(*old(self).k),
            ),
        decreases formula_size(*phi), 1int,
    {
        let mut current = self.eval(phi);
        let k = self.k;
        let ghost a = current@;
        let ghost n = k.n();
        let nstates = k.state_count();
        proof {
            lemma_sat_in_range(*k, *phi);
            lemma_subset_of_range(a, n);
            assert forall|s: usize| a.contains(s) implies af_set(*k, a).contains(s) by {
                lemma_af_base(*k, a, s);
            }
        }
        let mut iterations: u64 = 0;
        loop
            invariant_except_break
                iterations + a.len() <= current@.len(),
                a.len() == 0 ==> current@.len() == 0 && iterations == 0,
                current@ == iterate(af_round(*k), a, iterations as nat),
                forall|j: nat| j < iterations ==> #[trigger] changes(af_round(*k), a, j),
            invariant
                k.wf(),
                n == k.n(),
                nstates == n,
                a.subset_of(state_range(n)),
                a.finite(),
                a.subset_of(current@),
                current@.subset_of(af_set(*k, a)),
            ensures
                current@ == af_set(*k, a),
                1 <= iterations <= round_bound(*k),
                stable_at(af_round(*k), a, iterations as nat),
            decreases n - current@.len(),
        {
            proof {
                assert(af_set(*k, a).subset_of(state_range(n)));
                lemma_subset_of_range(current@, n);
            }
            let mut new_states: HashSet<usize> = HashSet::new();
            for i in 0..nstates
                invariant
                    nstates == k.n(),
                    new_states@ == Set::new(
                        |s: usize|
                            s < i && !current@.contains(s) && forall|t: usize| #[trigger]
                                k.edge(s, t) ==> current@.contains(t),
                    ),
            {
                if !current.contains(&i) {
                    let all = all_in(k.successors(i), &current);
                    proof {
                        if !all {
                            let j = choose|j: int| 0 <= j < k.succ(i).len() && !current@.contains(#[trigger] k.succ(i)[j]);
                            assert(k.edge(i, k.succ(i)[j]));
                        }
                    }
                    if all {
                        new_states.insert(i);
                    }
                }
                assert(new_states@ =~= Set::new(
                    |s: usize|
                        s < i + 1 && !current@.contains(s) && forall|t: usize| #[trigger]
                            k.edge(s, t) ==> current@.contains(t),
                ));
            }
            proof {
                assert(new_states@ =~= forced(*k, current@));
                assert forall|s: usize| new_states@.contains(s) implies af_set(*k, a).contains(s) by {
                    lemma_af_step(*k, a, current@, s);
                }
                if current@.len() == 0 {
                    assert(current@ =~= Set::empty());
                    assert forall|s: usize| !new_states@.contains(s) by {
                        if s < n {
                            assert(k.succ(s).len() > 0);
                            assert(k.edge(s, k.succ(s)[0]));
                        }
                    }
                }
            }
            iterations = iterations + 1;
            if new_states.is_empty() {
                proof {
                    assert forall|s: usize| s < k.n() && !current@.contains(s) implies exists|t: usize| #[trigger]
                        k.edge(s, t) && !current@.contains(t) by {
                        assert(!new_states@.contains(s));
                    }
                    lemma_af_least(*k, a, current@);
                    assert(af_round(*k)(current@) =~= current@);
                }
                break;
            }
            let ghost before = current@;
            insert_all(&mut current, &new_states);
            proof {
                let x = choose|x: usize| new_states@.contains(x);
                assert(current@ =~= af_round(*k)(before));
                assert(!before.contains(x) && current@.contains(x));
                lemma_subset_of_range(current@, n);
                vstd::set_lib::lemma_len_subset(before, current@.remove(x));
            }
        }
        proof {
            lemma_rounds(af_round(*k), a, iterations as nat);
            lemma_records_push(
                old(self).complexity@,
                self.complexity@,
                fixpoint_ops(*phi),
                fixpoint_counts(*k, *phi),
                round_bound(*k),
                "AF"@,
                iterations,
            );
        }
        self.complexity.record("AF", iterations);
        current
    }

    /// EG φ = φ ∧ EX EG φ — greatest fixpoint. Start with the states
    /// satisfying φ and remove states that have no successor in the set.
    fn eval_eg(&mut self, phi: &CtlFormula) -> (r: HashSet<usize>)
        requires
            old(self).k.wf(),
        ensures
            final(self).k == old(self).k,
            r@ == eg_set(*old(self).k, sat(*old(self).k, *phi)),
            records(
                old(self).complexity@,
                final(self).complexity@,
                fixpoint_ops(*phi).push("EG"@),
                fixpoint_counts(*old(self).k, *phi).push(rounds(eg_round(*old(self).k), sat(*old(self).k, *phi)) as u64),
                round_bound(*old(self).k),
            ),
        decreases formula_size(*phi), 1int,
    {
        let mut current = self.eval(phi);
        let k = self.k;
        let ghost a = current@;
        let ghost n = k.n();
        let nstates = k.state_count();
        proof {
            lemma_sat_in_range(*k, *phi);
            lemma_subset_of_range(a, n);
            lemma_eg_sub(*k, a);
        }
        let mut iterations: u64 = 0;
        loop
            invariant_except_break
                iterations + current@.len() <= a.len(),
                a.len() == n ==> current@ == a && iterations == 0,
                current@ == iterate(eg_round(*k), a, iterations as nat),
                forall|j: nat| j < iterations ==> #[trigger] changes(eg_round(*k), a, j),
            invariant
                k.wf(),
                n == k.n(),
                nstates == n,
                a.subset_of(state_range(n)),
                a.finite(),
                a.len() <= n,
                n <= usize::MAX,
                current@.subset_of(a),
                eg_set(*k, a).subset_of(current@),
            ensures
                current@ == eg_set(*k, a),
                1 <= iterations <= round_bound(*k),
                stable_at(eg_round(*k), a, iterations as nat),
            decreases current@.len(),
        {
            proof {
                lemma_subset_of_range(current@, n);
            }
            let mut to_remove: Vec<usize> = Vec::new();
            let ghost keys = current.iter().remaining().unref();
            let ghost mut done: int = 0;
            for s in it: current.iter()
                invariant
                    it.seq().unref() == keys,
                    keys.to_set() == current@,
                    done == it.index(),
                    0 <= done <= keys.len(),
                    forall|x: usize| to_remove@.contains(x) <==> exists|j: int|
                        0 <= j < done && keys[j] == x && no_successor_in(*k, current@, x),
            {
                let has_successor_in = any_in(k.successors(*s), &current);
                proof {
                    assert(keys[done] == *s);
                    if has_successor_in {
                        let j = choose|j: int| 0 <= j < k.succ(*s).len() && current@.contains(#[trigger] k.succ(*s)[j]);
                        assert(k.edge(*s, k.succ(*s)[j]));
                    }
                }
                proof {
                    if !has_successor_in {
                        assert forall|t: usize| #[trigger] k.edge(*s, t) implies !current@.contains(t) by {
                            let j = choose|j: int| 0 <= j < k.succ(*s).len() && k.succ(*s)[j] == t;
                        }
                    }
                }
                let ghost before = to_remove@;
                if !has_successor_in {
                    to_remove.push(*s);
                }
                proof {
                    assert(no_successor_in(*k, current@, *s) == !has_successor_in);
                    assert forall|x: usize| to_remove@.contains(x) <==> exists|j: int|
                        0 <= j < done + 1 && keys[j] == x && no_successor_in(*k, current@, x) by {
                        if to_remove@.contains(x) {
                            if x == *s && !has_successor_in {
                                assert(0 <= done < done + 1 && keys[done] == x && no_successor_in(*k, current@, x));
                            } else {
                                let j = choose|j: int| 0 <= j < to_remove@.len() && to_remove@[j] == x;
                                assert(j < before.len());
                                assert(before[j] == x);
                                assert(before.contains(x));
                                let j2 = choose|j2: int| 0 <= j2 < done && keys[j2] == x && no_successor_in(*k, current@, x);
                                assert(0 <= j2 < done + 1 && keys[j2] == x && no_successor_in(*k, current@, x));
                            }
                        }
                        if exists|j: int| 0 <= j < done + 1 && keys[j] == x && no_successor_in(*k, current@, x) {
                            let j = choose|j: int| 0 <= j < done + 1 && keys[j] == x && no_successor_in(*k, current@, x);
                            if j == done {
                                assert(to_remove@[to_remove@.len() - 1] == x);
                            } else {
                                assert(exists|j2: int| 0 <= j2 < done && keys[j2] == x && no_successor_in(*k, current@, x));
                                assert(before.contains(x));
                                let j2 = choose|j2: int| 0 <= j2 < before.len() && before[j2] == x;
                                assert(to_remove@[j2] == x);
                            }
                        }
                    }
                    done = done + 1;
                }
            }
            proof {
                assert forall|x: usize| to_remove@.contains(x) <==> current@.contains(x) && no_successor_in(*k, current@, x) by {
                    if current@.contains(x) {
                        assert(keys.contains(x));
                    }
                }
                assert forall|x: usize| to_remove@.contains(x) implies !eg_set(*k, a).contains(x) by {
                    if eg_set(*k, a).contains(x) {
                        lemma_eg_succ(*k, a, x);
                    }
                }
                if a.len() == n && current@ == a {
                    assert forall|x: usize| !to_remove@.contains(x) by {
                        if current@.contains(x) {
                            assert(k.succ(x).len() > 0);
                            let t = k.succ(x)[0];
                            assert(k.edge(x, t));
                            lemma_edge_in_range(*k, x, t);
                            lemma_state_range(n);
                            vstd::set_lib::lemma_subset_equality(a, state_range(n));
                            assert(current@.contains(t));
                        }
                    }
                }
            }
            iterations = iterations + 1;
            if to_remove.len() == 0 {
                proof {
                    assert forall|x: usize| #[trigger] current@.contains(x) implies exists|t: usize|
                        k.edge(x, t) && current@.contains(t) by {
                        assert(!to_remove@.contains(x));
                    }
                    lemma_eg_greatest(*k, a, current@);
                    assert(eg_round(*k)(current@) =~= current@) by {
                        assert forall|x: usize| current@.contains(x) implies !no_successor_in(*k, current@, x) by {
                            assert(!to_remove@.contains(x));
                        }
                    }
                    if a.len() < n {
                        vstd::set_lib::lemma_len_subset(current@, a);
                    }
                }
                break;
            }
            let ghost start = current@;
            let mut j: usize = 0;
            while j < to_remove.len()
                invariant
                    j <= to_remove@.len(),
                    current@ == start.difference(to_remove@.take(j as int).to_set()),
                    forall|x: usize| to_remove@.contains(x) <==> start.contains(x) && no_successor_in(*k, start, x),
                decreases to_remove@.len() - j,
            {
                current.remove(&to_remove[j]);
                proof {
                    to_remove@.take(j as int).lemma_push_to_set_commute(to_remove@[j as int]);
                    assert(to_remove@.take(j + 1) == to_remove@.take(j as int).push(to_remove@[j as int]));
                    assert(current@ =~= start.difference(to_remove@.take(j + 1).to_set()));
                }
                j += 1;
            }
            proof {
                assert(to_remove@.take(j as int) == to_remove@);
                let x = to_remove@[0];
                assert(to_remove@.contains(x));
                lemma_subset_of_range(start, n);
                vstd::set_lib::lemma_len_subset(current@, start.remove(x));
                assert(current@ =~= eg_round(*k)(start));
                assert(start.contains(x) && !current@.contains(x));
                assert forall|s: usize| eg_set(*k, a).contains(s) implies current@.contains(s) by {
                    assert(!to_remove@.to_set().contains(s));
                }
            }
        }
        proof {
            lemma_rounds(eg_round(*k), a, iterations as nat);
            lemma_records_push(
                old(self).complexity@,
                self.complexity@,
                fixpoint_ops(*phi),
                fixpoint_counts(*k, *phi),
                round_bound(*k),
                "EG"@,
                iterations,
            );
        }
        self.complexity.record("EG", iterations);
        current
    }

    /// AG φ = φ ∧ AX AG φ — greatest fixpoint. Start with the states
    /// satisfying φ and remove states with a successor outside the set.
    fn eval_ag(&mut self, phi: &CtlFormula) -> (r: HashSet<usize>)
        requires
            old(self).k.wf(),
        ensures
            final(self).k == old(self).k,
            r@ == ag_set(*old(self).k, sat(*old(self).k, *phi)),
            r@ == sat(
                *old(self).k,
                CtlFormula::Not(Box::new(CtlFormula::Ef(Box::new(CtlFormula::Not(Box::new(*phi)))))),
            ),
            records(
                old(self).complexity@,
                final(self).complexity@,
                fixpoint_ops(*phi).push("AG"@),
                fixpoint_counts(*old(self).k, *phi).push(rounds(ag_round(*old(self).k), sat(*old(self).k, *phi)) as u64),
                round_bound(*old(self).k),
            ),
        decreases formula_size(*phi), 1int,
    {
        let mut current = self.eval(phi);
        let k = self.k;
        let ghost a = current@;
        let ghost n = k.n();
        let nstates = k.state_count();
        proof {
            lemma_sat_in_range(*k, *phi);
            lemma_subset_of_range(a, n);
            lemma_ag_sub(*k, a);
        }
        let mut iterations: u64 = 0;
        loop
            invariant_except_break
                iterations + current@.len() <= a.len(),
                a.len() == n ==> current@ == a && iterations == 0,
                current@ == iterate(ag_round(*k), a, iterations as nat),
                forall|j: nat| j < iterations ==> #[trigger] changes(ag_round(*k), a, j),
            invariant
                k.wf(),
                n == k.n(),
                nstates == n,
                a.subset_of(state_range(n)),
                a.finite(),
                a.len() <= n,
                n <= usize::MAX,
                current@.subset_of(a),
                ag_set(*k, a).subset_of(current@),
            ensures
                current@ == ag_set(*k, a),
                1 <= iterations <= round_bound(*k),
                stable_at(ag_round(*k), a, iterations as nat),
            decreases current@.len(),
        {
            proof {
                lemma_subset_of_range(current@, n);
            }
            let mut to_remove: Vec<usize> = Vec::new();
            let ghost keys = current.iter().remaining().unref();
            let ghost mut done: int = 0;
            for s in it: current.iter()
                invariant
                    it.seq().unref() == keys,
                    keys.to_set() == current@,
                    done == it.index(),
                    0 <= done <= keys.len(),
                    forall|x: usize| to_remove@.contains(x) <==> exists|j: int|
                        0 <= j < done && keys[j] == x && successor_outside(*k, current@, x),
            {
                let all_successors_in = all_in(k.successors(*s), &current);
                proof {
                    assert(keys[done] == *s);
                    if !all_successors_in {
                        let j = choose|j: int| 0 <= j < k.succ(*s).len() && !current@.contains(#[trigger] k.succ(*s)[j]);
                        assert(k.edge(*s, k.succ(*s)[j]));
                    }
                }
                proof {
                    if all_successors_in {
                        assert forall|t: usize| #[trigger] k.edge(*s, t) implies current@.contains(t) by {
                            let j = choose|j: int| 0 <= j < k.succ(*s).len() && k.succ(*s)[j] == t;
                        }
                    }
                }
                let ghost before = to_remove@;
                if !all_successors_in {
                    to_remove.push(*s);
                }
                proof {
                    assert(successor_outside(*k, current@, *s) == !all_successors_in);
                    assert forall|x: usize| to_remove@.contains(x) <==> exists|j: int|
                        0 <= j < done + 1 && keys[j] == x && successor_outside(*k, current@, x) by {
                        if to_remove@.contains(x) {
                            if x == *s && !all_successors_in {
                                assert(0 <= done < done + 1 && keys[done] == x && successor_outside(*k, current@, x));
                            } else {
                                let j = choose|j: int| 0 <= j < to_remove@.len() && to_remove@[j] == x;
                                assert(j < before.len());
                                assert(before[j] == x);
                                assert(before.contains(x));
                                let j2 = choose|j2: int| 0 <= j2 < done && keys[j2] == x && successor_outside(*k, current@, x);
                                assert(0 <= j2 < done + 1 && keys[j2] == x && successor_outside(*k, current@, x));
                            }
                        }
                        if exists|j: int| 0 <= j < done + 1 && keys[j] == x && successor_outside(*k, current@, x) {
                            let j = choose|j: int| 0 <= j < done + 1 && keys[j] == x && successor_outside(*k, current@, x);
                            if j == done {
                                assert(to_remove@[to_remove@.len() - 1] == x);
                            } else {
                                assert(exists|j2: int| 0 <= j2 < done && keys[j2] == x && successor_outside(*k, current@, x));
                                assert(before.contains(x));
                                let j2 = choose|j2: int| 0 <= j2 < before.len() && before[j2] == x;
                                assert(to_remove@[j2] == x);
                            }
                        }
                    }
                    done = done + 1;
                }
            }
            proof {
                assert forall|x: usize| to_remove@.contains(x) <==> current@.contains(x) && successor_outside(*k, current@, x) by {
                    if current@.contains(x) {
                        assert(keys.contains(x));
                    }
                }
                assert forall|x: usize| to_remove@.contains(x) implies !ag_set(*k, a).contains(x) by {
                    if ag_set(*k, a).contains(x) {
                        let t = choose|t: usize| #[trigger] k.edge(x, t) && !current@.contains(t);
                        lemma_ag_succ(*k, a, x, t);
                    }
                }
                if a.len() == n && current@ == a {
                    lemma_state_range(n);
                    vstd::set_lib::lemma_subset_equality(a, state_range(n));
                    assert forall|x: usize| !to_remove@.contains(x) by {
                        if current@.contains(x) {
                            assert forall|t: usize| #[trigger] k.edge(x, t) implies current@.contains(t) by {
                                lemma_edge_in_range(*k, x, t);
                            }
                        }
                    }
                }
            }
            iterations = iterations + 1;
            if to_remove.len() == 0 {
                proof {
                    assert forall|x: usize, t: usize| #[trigger] k.edge(x, t) && current@.contains(x) implies current@.contains(t) by {
                        assert(!to_remove@.contains(x));
                    }
                    lemma_ag_greatest(*k, a, current@);
                    assert(ag_round(*k)(current@) =~= current@) by {
                        assert forall|x: usize| current@.contains(x) implies !successor_outside(*k, current@, x) by {
                            assert(!to_remove@.contains(x));
                        }
                    }
                    if a.len() < n {
                        vstd::set_lib::lemma_len_subset(current@, a);
                    }
                }
                break;
            }
            let ghost start = current@;
            let mut j: usize = 0;
            while j < to_remove.len()
                invariant
                    j <= to_remove@.len(),
                    current@ == start.difference(to_remove@.take(j as int).to_set()),
                    forall|x: usize| to_remove@.contains(x) <==> start.contains(x) && successor_outside(*k, start, x),
                decreases to_remove@.len() - j,
            {
                current.remove(&to_remove[j]);
                proof {
                    to_remove@.take(j as int).lemma_push_to_set_commute(to_remove@[j as int]);
                    assert(to_remove@.take(j + 1) == to_remove@.take(j as int).push(to_remove@[j as int]));
                    assert(current@ =~= start.difference(to_remove@.take(j + 1).to_set()));
                }
                j += 1;
            }
            proof {
                assert(to_remove@.take(j as int) == to_remove@);
                let x = to_remove@[0];
                assert(to_remove@.contains(x));
                lemma_subset_of_range(start, n);
                vstd::set_lib::lemma_len_subset(current@, start.remove(x));
                assert(current@ =~= ag_round(*k)(start));
                assert(start.contains(x) && !current@.contains(x));
                assert forall|s: usize| ag_set(*k, a).contains(s) implies current@.contains(s) by {
                    assert(!to_remove@.to_set().contains(s));
                }
            }
        }
        proof {
            lemma_rounds(ag_round(*k), a, iterations as nat);
            lemma_records_push(
                old(self).complexity@,
                self.complexity@,
                fixpoint_ops(*phi),
                fixpoint_counts(*k, *phi),
                round_bound(*k),
                "AG"@,
                iterations,
            );
        }
        proof {
            law_ag_is_not_ef_not(*k, *phi);
        }
        self.complexity.record("AG", iterations);
        current
    }

    /// φ₁ EU φ₂ — least fixpoint. Start with the states satisfying φ₂ and add
    /// predecessors that satisfy φ₁ until nothing changes.
    fn eval_eu(&mut self, l: &CtlFormula, r: &CtlFormula) -> (res: HashSet<usize>)
        requires
            old(self).k.wf(),
        ensures
            final(self).k == old(self).k,
            res@ == eu_set(*old(self).k, sat(*old(self).k, *l), sat(*old(self).k, *r)),
            records(
                old(self).complexity@,
                final(self).complexity@,
                (fixpoint_ops(*r) + fixpoint_ops(*l)).push("EU"@),
                (fixpoint_counts(*old(self).k, *r) + fixpoint_counts(*old(self).k, *l)).push(
                    rounds(eu_round(*old(self).k, sat(*old(self).k, *l)), sat(*old(self).k, *r)) as u64,
                ),
                round_bound(*old(self).k),
            ),
        decreases formula_size(*l) + formula_size(*r), 1int,
    {
        proof {
            lemma_size_positive(*l);
            lemma_size_positive(*r);
        }
        let ghost e0 = self.complexity@;
        let sat_r = self.eval(r);
        let ghost e1 = self.complexity@;
        let sat_l = self.eval(l);
        proof {
            lemma_records_concat(
                e0,
                e1,
                self.complexity@,
                fixpoint_ops(*r),
                fixpoint_counts(*self.k, *r),
                fixpoint_ops(*l),
                fixpoint_counts(*self.k, *l),
                round_bound(*self.k),
            );
        }
        let k = self.k;
        let ghost a = sat_l@;
        let ghost b = sat_r@;
        let ghost n = k.n();
        let nstates = k.state_count();
        let mut current = copy_set(&sat_r);
        proof {
            lemma_sat_in_range(*k, *r);
            lemma_subset_of_range(b, n);
            assert forall|s: usize| b.contains(s) implies eu_set(*k, a, b).contains(s) by {
                lemma_eu_base(*k, a, b, s);
            }
        }
        let mut iterations: u64 = 0;
        loop
            invariant_except_break
                iterations + b.len() <= current@.len(),
                b.len() == 0 ==> current@.len() == 0 && iterations == 0,
                current@ == iterate(eu_round(*k, a), b, iterations as nat),
                forall|j: nat| j < iterations ==> #[trigger] changes(eu_round(*k, a), b, j),
            invariant
                k.wf(),
                n == k.n(),
                nstates == n,
                sat_l@ == a,
                b.subset_of(state_range(n)),
                b.finite(),
                b.subset_of(current@),
                current@.subset_of(eu_set(*k, a, b)),
            ensures
                current@ == eu_set(*k, a, b),
                1 <= iterations <= round_bound(*k),
                stable_at(eu_round(*k, a), b, iterations as nat),
            decreases n - current@.len(),
        {
            proof {
                assert(eu_set(*k, a, b).subset_of(state_range(n)));
                lemma_subset_of_range(current@, n);
            }
            let preds = k.predecessors_of_set(&current);
            let addable = set_intersect(&preds, &sat_l);
            let next = set_union(&current, &addable);
            proof {
                assert(next@ =~= eu_round(*k, a)(current@));
                assert forall|p: usize| addable@.contains(p) implies eu_set(*k, a, b).contains(p) by {
                    let q = choose|q: usize| k.edge(p, q) && current@.contains(q);
                    lemma_eu_pred(*k, a, b, p, q);
                }
                if current@.len() == 0 {
                    assert(current@ =~= Set::empty());
                    assert(next@ =~= current@);
                }
            }
            iterations = iterations + 1;
            if same_states(&next, &current) {
                proof {
                    assert forall|p: usize, q: usize| #[trigger] k.edge(p, q) && current@.contains(q) && a.contains(p) implies current@.contains(p) by {
                        assert(preds@.contains(p));
                        assert(next@.contains(p));
                    }
                    lemma_eu_least(*k, a, b, current@);
                }
                break;
            }
            proof {
                lemma_subset_of_range(next@, n);
                if next@.subset_of(current@) {
                    assert(next@ =~= current@);
                }
                let x = choose|x: usize| next@.contains(x) && !current@.contains(x);
                vstd::set_lib::lemma_len_subset(current@, next@.remove(x));
            }
            current = next;
        }
        proof {
            lemma_rounds(eu_round(*k, a), b, iterations as nat);
            lemma_records_push(
                old(self).complexity@,
                self.complexity@,
                fixpoint_ops(*r) + fixpoint_ops(*l),
                fixpoint_counts(*k, *r) + fixpoint_counts(*k, *l),
                round_bound(*k),
                "EU"@,
                iterations,
            );
        }
        self.complexity.record("EU", iterations);
        current
    }

    /// φ₁ AU φ₂ — least fixpoint. Start with the states satisfying φ₂ and add
    /// states satisfying φ₁ all of whose successors are already in the set.
    fn eval_au(&mut self, l: &CtlFormula, r: &CtlFormula) -> (res: HashSet<usize>)
        requires
            old(self).k.wf(),
        ensures
            final(self).k == old(self).k,
            res@ == au_set(*old(self).k, sat(*old(self).k, *l), sat(*old(self).k, *r)),
            records(
                old(self).complexity@,
                final(self).complexity@,
                (fixpoint_ops(*r) + fixpoint_ops(*l)).push("AU"@),
                (fixpoint_counts(*old(self).k, *r) + fixpoint_counts(*old(self).k, *l)).push(
                    rounds(au_round(*old(self).k, sat(*old(self).k, *l)), sat(*old(self).k, *r)) as u64,
                ),
                round_bound(*old(self).k),
            ),
        decreases formula_size(*l) + formula_size(*r), 1int,
    {
        proof {
            lemma_size_positive(*l);
            lemma_size_positive(*r);
        }
        let ghost e0 = self.complexity@;
        let sat_r = self.eval(r);
        let ghost e1 = self.complexity@;
        let sat_l = self.eval(l);
        proof {
            lemma_records_concat(
                e0,
                e1,
                self.complexity@,
                fixpoint_ops(*r),
                fixpoint_counts(*self.k, *r),
                fixpoint_ops(*l),
                fixpoint_counts(*self.k, *l),
                round_bound(*self.k),
            );
        }
        let k = self.k;
        let ghost a = sat_l@;
        let ghost b = sat_r@;
        let ghost n = k.n();
        let nstates = k.state_count();
        let mut current = copy_set(&sat_r);
        proof {
            lemma_sat_in_range(*k, *r);
            lemma_subset_of_range(b, n);
            assert forall|s: usize| b.contains(s) implies au_set(*k, a, b).contains(s) by {
                lemma_au_base(*k, a, b, s);
            }
        }
        let mut iterations: u64 = 0;
        loop
            invariant_except_break
                iterations + b.len() <= current@.len(),
                b.len() == 0 ==> current@.len() == 0 && iterations == 0,
                current@ == iterate(au_round(*k, a), b, iterations as nat),
                forall|j: nat| j < iterations ==> #[trigger] changes(au_round(*k, a), b, j),
            invariant
                k.wf(),
                n == k.n(),
                nstates == n,
                sat_l@ == a,
                b.subset_of(state_range(n)),
                b.finite(),
                b.subset_of(current@),
                current@.subset_of(au_set(*k, a, b)),
            ensures
                current@ == au_set(*k, a, b),
                1 <= iterations <= round_bound(*k),
                stable_at(au_round(*k, a), b, iterations as nat),
            decreases n - current@.len(),
        {
            proof {
                assert(au_set(*k, a, b).subset_of(state_range(n)));
                lemma_subset_of_range(current@, n);
            }
            let mut new_states: HashSet<usize> = HashSet::new();
            for i in 0..nstates
                invariant
                    nstates == k.n(),
                    sat_l@ == a,
                    new_states@ == Set::new(
                        |s: usize|
                            s < i && !current@.contains(s) && a.contains(s) && forall|t: usize| #[trigger]
                                k.edge(s, t) ==> current@.contains(t),
                    ),
            {
                if !current.contains(&i) && sat_l.contains(&i) {
                    let all = all_in(k.successors(i), &current);
                    proof {
                        if !all {
                            let j = choose|j: int| 0 <= j < k.succ(i).len() && !current@.contains(#[trigger] k.succ(i)[j]);
                            assert(k.edge(i, k.succ(i)[j]));
                        }
                    }
                    if all {
                        new_states.insert(i);
                    }
                }
                assert(new_states@ =~= Set::new(
                    |s: usize|
                        s < i + 1 && !current@.contains(s) && a.contains(s) && forall|t: usize| #[trigger]
                            k.edge(s, t) ==> current@.contains(t),
                ));
            }
            proof {
                assert(new_states@ =~= forced(*k, current@).intersect(a));
                assert forall|s: usize| new_states@.contains(s) implies au_set(*k, a, b).contains(s) by {
                    lemma_au_step(*k, a, b, current@, s);
                }
                if current@.len() == 0 {
                    assert(current@ =~= Set::empty());
                    assert forall|s: usize| !new_states@.contains(s) by {
                        if s < n {
                            assert(k.succ(s).len() > 0);
                            assert(k.edge(s, k.succ(s)[0]));
                        }
                    }
                }
            }
            iterations = iterations + 1;
            if new_states.is_empty() {
                proof {
                    assert forall|s: usize| s < k.n() && !current@.contains(s) && a.contains(s) implies exists|t: usize| #[trigger]
                        k.edge(s, t) && !current@.contains(t) by {
                        assert(!new_states@.contains(s));
                    }
                    lemma_au_least(*k, a, b, current@);
                    assert(au_round(*k, a)(current@) =~= current@);
                }
                break;
            }
            let ghost before = current@;
            insert_all(&mut current, &new_states);
            proof {
                let x = choose|x: usize| new_states@.contains(x);
                assert(current@ =~= au_round(*k, a)(before));
                assert(!before.contains(x) && current@.contains(x));
                lemma_subset_of_range(current@, n);
                vstd::set_lib::lemma_len_subset(before, current@.remove(x));
            }
        }
        proof {
            lemma_rounds(au_round(*k, a), b, iterations as nat);
            lemma_records_push(
                old(self).complexity@,
                self.complexity@,
                fixpoint_ops(*r) + fixpoint_ops(*l),
                fixpoint_counts(*k, *r) + fixpoint_counts(*k, *l),
                round_bound(*k),
                "AU"@,
                iterations,
            );
        }
        self.complexity.record("AU", iterations);
        current
    }

    /// EX φ: states that have at least one successor satisfying φ.
    fn eval_ex(&mut self, phi: &CtlFormula) -> (r: HashSet<usize>)
        requires
            old(self).k.wf(),
        ensures
            final(self).k == old(self).k,
            r@ == ex_set(*old(self).k, sat(*old(self).k, *phi)),
            records(
                old(self).complexity@,
                final(self).complexity@,
                fixpoint_ops(*phi),
                fixpoint_counts(*old(self).k, *phi),
                round_bound(*old(self).k),
            ),
        decreases formula_size(*phi), 1int,
    {
        let sat_phi = self.eval(phi);
        let k = self.k;
        let mut result: HashSet<usize> = HashSet::new();
        let n = k.state_count();
        for i in 0..n
            invariant
                n == k.n(),
                result@ == ex_set(*k, sat_phi@).intersect(state_range(i as nat)),
        {
            let found = any_in(k.successors(i), &sat_phi);
            proof {
                if found {
                    let j = choose|j: int| 0 <= j < k.succ(i).len() && sat_phi@.contains(#[trigger] k.succ(i)[j]);
                    assert(k.edge(i, k.succ(i)[j]));
                }
            }
            if found {
                result.insert(i);
            }
            assert(result@ =~= ex_set(*k, sat_phi@).intersect(state_range((i + 1) as nat)));
        }
        assert(result@ =~= ex_set(*k, sat_phi@));
        result
    }

    /// AX φ: all successors satisfy φ.
    fn eval_ax(&mut self, phi: &CtlFormula) -> (r: HashSet<usize>)
        requires
            old(self).k.wf(),
        ensures
            final(self).k == old(self).k,
            r@ == ax_set(*old(self).k, sat(*old(self).k, *phi)),
            r@ == sat(
                *old(self).k,
                CtlFormula::Not(Box::new(CtlFormula::Ex(Box::new(CtlFormula::Not(Box::new(*phi)))))),
            ),
            records(
                old(self).complexity@,
                final(self).complexity@,
                fixpoint_ops(*phi),
                fixpoint_counts(*old(self).k, *phi),
                round_bound(*old(self).k),
            ),
        decreases formula_size(*phi), 1int,
    {
        let sat_phi = self.eval(phi);
        let k = self.k;
        let mut result: HashSet<usize> = HashSet::new();
        let n = k.state_count();
        for i in 0..n
            invariant
                n == k.n(),
                result@ == ax_set(*k, sat_phi@).intersect(state_range(i as nat)),
        {
            let all = all_in(k.successors(i), &sat_phi);
            proof {
                if !all {
                    let j = choose|j: int| 0 <= j < k.succ(i).len() && !sat_phi@.contains(#[trigger] k.succ(i)[j]);
                    assert(k.edge(i, k.succ(i)[j]));
                }
            }
            if all {
                result.insert(i);
            }
            assert(result@ =~= ax_set(*k, sat_phi@).intersect(state_range((i + 1) as nat)));
        }
        proof {
            law_ax_is_not_ex_not(*k, *phi);
        }
        assert(result@ =~= ax_set(*k, sat_phi@));
        result
    }
}

} // verus!
