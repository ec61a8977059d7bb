//! Laws of CTL on Kripke structures: the dualities between the existential and
//! universal operators, the fixpoint characterizations that the checker's
//! iterative algorithms compute, that every formula has a witness or a
//! counterexample, that a complexity report gives back what was recorded and
//! reports the largest count as its maximum, and how formulas are taken apart
//! and written.
use vstd::prelude::*;

use crate::checker::all_initial_in;
use crate::complexity::{
    counts_at_most, counts_for, counts_nonempty, distinct_names, entry_line, entry_of,
    lemma_recorded_counts, max_all, max_of, recorded, sum_of, Entries,
};
use crate::formula::{children, implication, notation, CtlFormula};
use crate::kripke::KripkeStruct;
use crate::semantics::{
    af_set, ag_set, au_set, cons_path, ef_set, eg_set, eu_set, ex_set, ax_set, is_path_from,
    lemma_af_base, lemma_af_least, lemma_af_step, lemma_ag_greatest, lemma_ag_sub, lemma_ag_succ,
    lemma_au_base, lemma_au_least, lemma_au_step, lemma_cons_path, lemma_edge_in_range,
    lemma_ef_base, lemma_ef_least, lemma_ef_pred, lemma_eg_greatest, lemma_eg_sub, lemma_eg_succ,
    lemma_eu_base, lemma_eu_least, lemma_eu_pred, lemma_path_in_range, lemma_sat_in_range,
    lemma_tail_path, lemma_walk_is_path, sat, tail_path, until_at, walk_path,
};
use crate::stateset::state_range;
use crate::text::decimal;
use crate::witness::some_initial_in;

verus! {

/// EX φ ≡ ¬AX ¬φ: some successor satisfies φ exactly where not all successors
/// violate it.
pub proof fn law_ex_is_not_ax_not(k: KripkeStruct, f: CtlFormula)
    requires
        k.wf(),
    ensures
        sat(k, CtlFormula::Ex(Box::new(f))) == sat(
            k,
            CtlFormula::Not(Box::new(CtlFormula::Ax(Box::new(CtlFormula::Not(Box::new(f)))))),
        ),
{
    let a = sat(k, f);
    let r = state_range(k.n());
    assert forall|s: usize| ex_set(k, a).contains(s) <==> r.difference(ax_set(k, r.difference(a))).contains(s) by {
        if s < k.n() {
            if ex_set(k, a).contains(s) {
                let t = choose|t: usize| #[trigger] k.edge(s, t) && a.contains(t);
                assert(!r.difference(a).contains(t));
            }
            if !ax_set(k, r.difference(a)).contains(s) {
                let t = choose|t: usize| #[trigger] k.edge(s, t) && !r.difference(a).contains(t);
                lemma_edge_in_range(k, s, t);
                assert(a.contains(t));
            }
        }
    }
    assert(ex_set(k, a) =~= r.difference(ax_set(k, r.difference(a))));
    let nf = CtlFormula::Not(Box::new(f));
    assert(sat(k, nf) == r.difference(a));
    let inner = CtlFormula::Ax(Box::new(nf));
    assert(sat(k, CtlFormula::Not(Box::new(inner))) == r.difference(sat(k, inner)));
}

/// AX φ ≡ ¬EX ¬φ: all successors satisfy φ exactly where none violates it.
pub proof fn law_ax_is_not_ex_not(k: KripkeStruct, f: CtlFormula)
    requires
        k.wf(),
    ensures
        sat(k, CtlFormula::Ax(Box::new(f))) == sat(
            k,
            CtlFormula::Not(Box::new(CtlFormula::Ex(Box::new(CtlFormula::Not(Box::new(f)))))),
        ),
{
    let a = sat(k, f);
    let r = state_range(k.n());
    assert forall|s: usize| ax_set(k, a).contains(s) <==> r.difference(ex_set(k, r.difference(a))).contains(s) by {
        if s < k.n() {
            if !ax_set(k, a).contains(s) {
                let t = choose|t: usize| #[trigger] k.edge(s, t) && !a.contains(t);
                lemma_edge_in_range(k, s, t);
                assert(r.difference(a).contains(t));
            }
            if ex_set(k, r.difference(a)).contains(s) {
                let t = choose|t: usize| #[trigger] k.edge(s, t) && r.difference(a).contains(t);
                assert(!a.contains(t));
            }
        }
    }
    assert(ax_set(k, a) =~= r.difference(ex_set(k, r.difference(a))));
    let nf = CtlFormula::Not(Box::new(f));
    assert(sat(k, nf) == r.difference(a));
    let inner = CtlFormula::Ex(Box::new(nf));
    assert(sat(k, CtlFormula::Not(Box::new(inner))) == r.difference(sat(k, inner)));
}

/// EF φ ≡ ¬AG ¬φ: φ is reachable exactly where ¬φ does not hold globally.
pub proof fn law_ef_is_not_ag_not(k: KripkeStruct, f: CtlFormula)
    requires
        k.wf(),
    ensures
        sat(k, CtlFormula::Ef(Box::new(f))) == sat(
            k,
            CtlFormula::Not(Box::new(CtlFormula::Ag(Box::new(CtlFormula::Not(Box::new(f)))))),
        ),
{
    let a = sat(k, f);
    let r = state_range(k.n());
    let na = r.difference(a);
    assert forall|s: usize| ef_set(k, a).contains(s) <==> r.difference(ag_set(k, na)).contains(s) by {
        if s < k.n() {
            if ef_set(k, a).contains(s) {
                let pi = choose|pi: spec_fn(nat) -> usize|
                    #[trigger] is_path_from(k, pi, s) && exists|i: nat| #[trigger] a.contains(pi(i));
                let i = choose|i: nat| #[trigger] a.contains(pi(i));
                assert(!na.contains(pi(i)));
            }
            if !ag_set(k, na).contains(s) {
                let pi = choose|pi: spec_fn(nat) -> usize|
                    #[trigger] is_path_from(k, pi, s) && !forall|i: nat| #[trigger] na.contains(pi(i));
                let i = choose|i: nat| !#[trigger] na.contains(pi(i));
                lemma_path_in_range(k, pi, s, i);
                assert(a.contains(pi(i)));
            }
        }
    }
    assert(ef_set(k, a) =~= r.difference(ag_set(k, na)));
    let nf = CtlFormula::Not(Box::new(f));
    assert(sat(k, nf) == r.difference(a));
    let inner = CtlFormula::Ag(Box::new(nf));
    assert(sat(k, CtlFormula::Not(Box::new(inner))) == r.difference(sat(k, inner)));
}

/// EG φ ≡ ¬AF ¬φ: some path keeps φ forever exactly where not every path
/// reaches ¬φ.
pub proof fn law_eg_is_not_af_not(k: KripkeStruct, f: CtlFormula)
    requires
        k.wf(),
    ensures
        sat(k, CtlFormula::Eg(Box::new(f))) == sat(
            k,
            CtlFormula::Not(Box::new(CtlFormula::Af(Box::new(CtlFormula::Not(Box::new(f)))))),
        ),
{
    let a = sat(k, f);
    let r = state_range(k.n());
    let na = r.difference(a);
    assert forall|s: usize| eg_set(k, a).contains(s) <==> r.difference(af_set(k, na)).contains(s) by {
        if s < k.n() {
            if eg_set(k, a).contains(s) {
                let pi = choose|pi: spec_fn(nat) -> usize|
                    #[trigger] is_path_from(k, pi, s) && forall|i: nat| #[trigger] a.contains(pi(i));
                if af_set(k, na).contains(s) {
                    let i = choose|i: nat| #[trigger] na.contains(pi(i));
                    assert(a.contains(pi(i)));
                }
            }
            if !af_set(k, na).contains(s) {
                let pi = choose|pi: spec_fn(nat) -> usize|
                    #[trigger] is_path_from(k, pi, s) && !exists|i: nat| #[trigger] na.contains(pi(i));
                assert forall|i: nat| #[trigger] a.contains(pi(i)) by {
                    lemma_path_in_range(k, pi, s, i);
                    assert(!na.contains(pi(i)));
                }
            }
        }
    }
    assert(eg_set(k, a) =~= r.difference(af_set(k, na)));
    let nf = CtlFormula::Not(Box::new(f));
    assert(sat(k, nf) == r.difference(a));
    let inner = CtlFormula::Af(Box::new(nf));
    assert(sat(k, CtlFormula::Not(Box::new(inner))) == r.difference(sat(k, inner)));
}

/// AF φ ≡ ¬EG ¬φ: every path reaches φ exactly where no path avoids it
/// forever.
pub proof fn law_af_is_not_eg_not(k: KripkeStruct, f: CtlFormula)
    requires
        k.wf(),
    ensures
        sat(k, CtlFormula::Af(Box::new(f))) == sat(
            k,
            CtlFormula::Not(Box::new(CtlFormula::Eg(Box::new(CtlFormula::Not(Box::new(f)))))),
        ),
{
    let a = sat(k, f);
    let r = state_range(k.n());
    let na = r.difference(a);
    assert forall|s: usize| af_set(k, a).contains(s) <==> r.difference(eg_set(k, na)).contains(s) by {
        if s < k.n() {
            if eg_set(k, na).contains(s) {
                let pi = choose|pi: spec_fn(nat) -> usize|
                    #[trigger] is_path_from(k, pi, s) && forall|i: nat| #[trigger] na.contains(pi(i));
                if af_set(k, a).contains(s) {
                    let i = choose|i: nat| #[trigger] a.contains(pi(i));
                    assert(na.contains(pi(i)));
                }
            }
            if !af_set(k, a).contains(s) {
                let pi = choose|pi: spec_fn(nat) -> usize|
                    #[trigger] is_path_from(k, pi, s) && !exists|i: nat| #[trigger] a.contains(pi(i));
                assert forall|i: nat| #[trigger] na.contains(pi(i)) by {
                    lemma_path_in_range(k, pi, s, i);
                    assert(!a.contains(pi(i)));
                }
            }
        }
    }
    assert(af_set(k, a) =~= r.difference(eg_set(k, na)));
    let nf = CtlFormula::Not(Box::new(f));
    assert(sat(k, nf) == r.difference(a));
    let inner = CtlFormula::Eg(Box::new(nf));
    assert(sat(k, CtlFormula::Not(Box::new(inner))) == r.difference(sat(k, inner)));
}

/// AG φ ≡ ¬EF ¬φ: φ holds globally exactly where ¬φ is unreachable.
pub proof fn law_ag_is_not_ef_not(k: KripkeStruct, f: CtlFormula)
    requires
        k.wf(),
    ensures
        sat(k, CtlFormula::Ag(Box::new(f))) == sat(
            k,
            CtlFormula::Not(Box::new(CtlFormula::Ef(Box::new(CtlFormula::Not(Box::new(f)))))),
        ),
{
    let a = sat(k, f);
    let r = state_range(k.n());
    let na = r.difference(a);
    assert forall|s: usize| ag_set(k, a).contains(s) <==> r.difference(ef_set(k, na)).contains(s) by {
        if s < k.n() {
            if ef_set(k, na).contains(s) {
                let pi = choose|pi: spec_fn(nat) -> usize|
                    #[trigger] is_path_from(k, pi, s) && exists|i: nat| #[trigger] na.contains(pi(i));
                let i = choose|i: nat| #[trigger] na.contains(pi(i));
                if ag_set(k, a).contains(s) {
                    assert(a.contains(pi(i)));
                }
            }
            if !ag_set(k, a).contains(s) {
                let pi = choose|pi: spec_fn(nat) -> usize|
                    #[trigger] is_path_from(k, pi, s) && !forall|i: nat| #[trigger] a.contains(pi(i));
                let i = choose|i: nat| !#[trigger] a.contains(pi(i));
                lemma_path_in_range(k, pi, s, i);
                assert(na.contains(pi(i)));
            }
        }
    }
    assert(ag_set(k, a) =~= r.difference(ef_set(k, na)));
    let nf = CtlFormula::Not(Box::new(f));
    assert(sat(k, nf) == r.difference(a));
    let inner = CtlFormula::Ef(Box::new(nf));
    assert(sat(k, CtlFormula::Not(Box::new(inner))) == r.difference(sat(k, inner)));
}

/// φ → φ holds in every state.
pub proof fn law_self_implication_valid(k: KripkeStruct, f: CtlFormula)
    ensures
        sat(k, implication(f, f)) == state_range(k.n()),
{
    lemma_sat_in_range(k, f);
    let nf = CtlFormula::Not(Box::new(f));
    assert(sat(k, nf) == state_range(k.n()).difference(sat(k, f)));
    assert(sat(k, implication(f, f)) == sat(k, nf).union(sat(k, f)));
    assert(sat(k, implication(f, f)) =~= state_range(k.n()));
}

/// φ ↔ φ holds in every state.
pub proof fn law_self_equivalence_valid(k: KripkeStruct, f: CtlFormula)
    ensures
        sat(k, CtlFormula::And(Box::new(implication(f, f)), Box::new(implication(f, f))))
            == state_range(k.n()),
{
    law_self_implication_valid(k, f);
    assert(sat(k, CtlFormula::And(Box::new(implication(f, f)), Box::new(implication(f, f))))
        =~= state_range(k.n()));
}

// ---------------------------------------------------------------------------
// Fixpoint characterizations, on the set `a` (and `b`) of states satisfying
// the operands.

/// EF φ = μZ. (φ ∨ EX Z): a fixpoint, and contained in every `Z` with
/// φ ∨ EX Z ⊆ Z.
pub proof fn law_ef_least_fixpoint(k: KripkeStruct, a: Set<usize>)
    requires
        k.wf(),
        a.subset_of(state_range(k.n())),
    ensures
        ef_set(k, a) == a.union(ex_set(k, ef_set(k, a))),
        forall|z: Set<usize>|
            a.subset_of(z) && #[trigger] ex_set(k, z).subset_of(z) ==> ef_set(k, a).subset_of(z),
{
    let e = ef_set(k, a);
    assert forall|s: usize| e.contains(s) <==> a.union(ex_set(k, e)).contains(s) by {
        if a.contains(s) {
            lemma_ef_base(k, a, s);
        }
        if ex_set(k, e).contains(s) {
            let t = choose|t: usize| #[trigger] k.edge(s, t) && e.contains(t);
            lemma_ef_pred(k, a, s, t);
        }
        if e.contains(s) && !a.contains(s) {
            let pi = choose|pi: spec_fn(nat) -> usize|
                #[trigger] is_path_from(k, pi, s) && exists|i: nat| #[trigger] a.contains(pi(i));
            let i = choose|i: nat| #[trigger] a.contains(pi(i));
            lemma_tail_path(k, pi, s);
            let t = pi(1);
            lemma_edge_in_range(k, s, t);
            let tp = tail_path(pi);
            assert(i > 0);
            assert(a.contains(tp((i - 1) as nat)));
            assert(e.contains(t));
        }
    }
    assert(e =~= a.union(ex_set(k, e)));
    assert forall|z: Set<usize>| a.subset_of(z) && #[trigger] ex_set(k, z).subset_of(z) implies e.subset_of(z) by {
        assert forall|p: usize, q: usize| #[trigger] k.edge(p, q) && z.contains(q) implies z.contains(p) by {
            lemma_edge_in_range(k, p, q);
            assert(ex_set(k, z).contains(p));
        }
        lemma_ef_least(k, a, z);
    }
}

/// AF φ = μZ. (φ ∨ AX Z): a fixpoint, and contained in every `Z` with
/// φ ∨ AX Z ⊆ Z.
pub proof fn law_af_least_fixpoint(k: KripkeStruct, a: Set<usize>)
    requires
        k.wf(),
        a.subset_of(state_range(k.n())),
    ensures
        af_set(k, a) == a.union(ax_set(k, af_set(k, a))),
        forall|z: Set<usize>|
            a.subset_of(z) && #[trigger] ax_set(k, z).subset_of(z) ==> af_set(k, a).subset_of(z),
{
    let e = af_set(k, a);
    assert forall|s: usize| e.contains(s) <==> a.union(ax_set(k, e)).contains(s) by {
        if a.contains(s) {
            lemma_af_base(k, a, s);
        }
        if ax_set(k, e).contains(s) {
            lemma_af_step(k, a, e, s);
        }
        if e.contains(s) && !a.contains(s) {
            assert forall|t: usize| #[trigger] k.edge(s, t) implies e.contains(t) by {
                lemma_edge_in_range(k, s, t);
                assert forall|pi: spec_fn(nat) -> usize| #[trigger]
                    is_path_from(k, pi, t) implies exists|i: nat| #[trigger] a.contains(pi(i)) by {
                    lemma_cons_path(k, s, pi, t);
                    let p2 = cons_path(s, pi);
                    let i = choose|i: nat| #[trigger] a.contains(p2(i));
                    assert(i > 0);
                    assert(a.contains(pi((i - 1) as nat)));
                }
            }
        }
    }
    assert(e =~= a.union(ax_set(k, e)));
    assert forall|z: Set<usize>| a.subset_of(z) && #[trigger] ax_set(k, z).subset_of(z) implies e.subset_of(z) by {
        assert forall|s: usize| s < k.n() && !z.contains(s) implies exists|t: usize| #[trigger]
            k.edge(s, t) && !z.contains(t) by {
            assert(!ax_set(k, z).contains(s));
        }
        lemma_af_least(k, a, z);
    }
}

/// EG φ = νZ. (φ ∧ EX Z): a fixpoint, and containing every `Z` with
/// Z ⊆ φ ∧ EX Z.
pub proof fn law_eg_greatest_fixpoint(k: KripkeStruct, a: Set<usize>)
    requires
        k.wf(),
        a.subset_of(state_range(k.n())),
    ensures
        eg_set(k, a) == a.intersect(ex_set(k, eg_set(k, a))),
        forall|z: Set<usize>| #[trigger] z.subset_of(a.intersect(ex_set(k, z))) ==> z.subset_of(eg_set(k, a)),
{
    let e = eg_set(k, a);
    lemma_eg_sub(k, a);
    assert forall|s: usize| e.contains(s) <==> a.intersect(ex_set(k, e)).contains(s) by {
        if e.contains(s) {
            lemma_eg_succ(k, a, s);
        }
        if a.contains(s) && ex_set(k, e).contains(s) {
            let t = choose|t: usize| #[trigger] k.edge(s, t) && e.contains(t);
            let pi = choose|pi: spec_fn(nat) -> usize|
                #[trigger] is_path_from(k, pi, t) && forall|i: nat| #[trigger] a.contains(pi(i));
            lemma_cons_path(k, s, pi, t);
            let p2 = cons_path(s, pi);
            assert forall|i: nat| #[trigger] a.contains(p2(i)) by {
                if i > 0 {
                    assert(a.contains(pi((i - 1) as nat)));
                }
            }
            assert(is_path_from(k, p2, s));
        }
    }
    assert(e =~= a.intersect(ex_set(k, e)));
    assert forall|z: Set<usize>| #[trigger] z.subset_of(a.intersect(ex_set(k, z))) implies z.subset_of(e) by {
        assert forall|s: usize| #[trigger] z.contains(s) implies exists|t: usize| k.edge(s, t) && z.contains(t) by {
            assert(ex_set(k, z).contains(s));
        }
        lemma_eg_greatest(k, a, z);
    }
}

/// AG φ = νZ. (φ ∧ AX Z): a fixpoint, and containing every `Z` with
/// Z ⊆ φ ∧ AX Z.
pub proof fn law_ag_greatest_fixpoint(k: KripkeStruct, a: Set<usize>)
    requires
        k.wf(),
        a.subset_of(state_range(k.n())),
    ensures
        ag_set(k, a) == a.intersect(ax_set(k, ag_set(k, a))),
        forall|z: Set<usize>| #[trigger] z.subset_of(a.intersect(ax_set(k, z))) ==> z.subset_of(ag_set(k, a)),
{
    let e = ag_set(k, a);
    lemma_ag_sub(k, a);
    assert forall|s: usize| e.contains(s) <==> a.intersect(ax_set(k, e)).contains(s) by {
        if e.contains(s) {
            assert forall|t: usize| #[trigger] k.edge(s, t) implies e.contains(t) by {
                lemma_ag_succ(k, a, s, t);
            }
        }
        if a.contains(s) && ax_set(k, e).contains(s) {
            assert forall|pi: spec_fn(nat) -> usize| #[trigger]
                is_path_from(k, pi, s) implies forall|i: nat| #[trigger] a.contains(pi(i)) by {
                lemma_tail_path(k, pi, s);
                let t = pi(1);
                assert(e.contains(t));
                let tp = tail_path(pi);
                assert(is_path_from(k, tp, t));
                assert forall|i: nat| #[trigger] a.contains(pi(i)) by {
                    if i > 0 {
                        assert(a.contains(tp((i - 1) as nat)));
                    }
                }
            }
        }
    }
    assert(e =~= a.intersect(ax_set(k, e)));
    assert forall|z: Set<usize>| #[trigger] z.subset_of(a.intersect(ax_set(k, z))) implies z.subset_of(e) by {
        assert forall|p: usize, q: usize| #[trigger] k.edge(p, q) && z.contains(p) implies z.contains(q) by {
            assert(ax_set(k, z).contains(p));
        }
        lemma_ag_greatest(k, a, z);
    }
}

/// φ₁ EU φ₂ = μZ. (φ₂ ∨ (φ₁ ∧ EX Z)): a fixpoint, and contained in every
/// such `Z` closed under the step.
pub proof fn law_eu_least_fixpoint(k: KripkeStruct, a: Set<usize>, b: Set<usize>)
    requires
        k.wf(),
        b.subset_of(state_range(k.n())),
    ensures
        eu_set(k, a, b) == b.union(a.intersect(ex_set(k, eu_set(k, a, b)))),
        forall|z: Set<usize>|
            b.subset_of(z) && #[trigger] a.intersect(ex_set(k, z)).subset_of(z) ==> eu_set(
                k,
                a,
                b,
            ).subset_of(z),
{
    let e = eu_set(k, a, b);
    assert forall|s: usize| e.contains(s) <==> b.union(a.intersect(ex_set(k, e))).contains(s) by {
        if b.contains(s) {
            lemma_eu_base(k, a, b, s);
        }
        if a.contains(s) && ex_set(k, e).contains(s) {
            let t = choose|t: usize| #[trigger] k.edge(s, t) && e.contains(t);
            lemma_eu_pred(k, a, b, s, t);
        }
        if e.contains(s) && !b.contains(s) {
            let pi = choose|pi: spec_fn(nat) -> usize|
                #[trigger] is_path_from(k, pi, s) && exists|j: nat| #[trigger] until_at(a, b, pi, j);
            let j = choose|j: nat| #[trigger] until_at(a, b, pi, j);
            assert(j > 0);
            assert(a.contains(pi(0)));
            lemma_tail_path(k, pi, s);
            let t = pi(1);
            lemma_edge_in_range(k, s, t);
            let tp = tail_path(pi);
            assert forall|i: nat| i < (j - 1) as nat implies #[trigger] a.contains(tp(i)) by {
                assert(a.contains(pi(i + 1)));
            }
            assert(until_at(a, b, tp, (j - 1) as nat));
            assert(e.contains(t));
        }
    }
    assert(e =~= b.union(a.intersect(ex_set(k, e))));
    assert forall|z: Set<usize>|
        b.subset_of(z) && #[trigger] a.intersect(ex_set(k, z)).subset_of(z) implies e.subset_of(z) by {
        assert forall|p: usize, q: usize|
            #[trigger] k.edge(p, q) && z.contains(q) && a.contains(p) implies z.contains(p) by {
            lemma_edge_in_range(k, p, q);
            assert(ex_set(k, z).contains(p));
        }
        lemma_eu_least(k, a, b, z);
    }
}

/// φ₁ AU φ₂ = μZ. (φ₂ ∨ (φ₁ ∧ AX Z)): a fixpoint, and contained in every
/// such `Z` closed under the step.
pub proof fn law_au_least_fixpoint(k: KripkeStruct, a: Set<usize>, b: Set<usize>)
    requires
        k.wf(),
        b.subset_of(state_range(k.n())),
    ensures
        au_set(k, a, b) == b.union(a.intersect(ax_set(k, au_set(k, a, b)))),
        forall|z: Set<usize>|
            b.subset_of(z) && #[trigger] a.intersect(ax_set(k, z)).subset_of(z) ==> au_set(
                k,
                a,
                b,
            ).subset_of(z),
{
    let e = au_set(k, a, b);
    assert forall|s: usize| e.contains(s) <==> b.union(a.intersect(ax_set(k, e))).contains(s) by {
        if b.contains(s) {
            lemma_au_base(k, a, b, s);
        }
        if a.contains(s) && ax_set(k, e).contains(s) {
            lemma_au_step(k, a, b, e, s);
        }
        if e.contains(s) && !b.contains(s) {
            lemma_walk_is_path(k, Set::empty(), s);
            let w = walk_path(k, Set::empty(), s);
            let j0 = choose|j: nat| #[trigger] until_at(a, b, w, j);
            assert(j0 > 0);
            assert(a.contains(w(0)));
            assert forall|t: usize| #[trigger] k.edge(s, t) implies e.contains(t) by {
                lemma_edge_in_range(k, s, t);
                assert forall|pi: spec_fn(nat) -> usize| #[trigger]
                    is_path_from(k, pi, t) implies exists|j: nat| #[trigger] until_at(a, b, pi, j) by {
                    lemma_cons_path(k, s, pi, t);
                    let p2 = cons_path(s, pi);
                    let j = choose|j: nat| #[trigger] until_at(a, b, p2, j);
                    assert(j > 0);
                    assert forall|i: nat| i < (j - 1) as nat implies #[trigger] a.contains(pi(i)) by {
                        assert(a.contains(p2(i + 1)));
                    }
                    assert(until_at(a, b, pi, (j - 1) as nat));
                }
            }
        }
    }
    assert(e =~= b.union(a.intersect(ax_set(k, e))));
    assert forall|z: Set<usize>|
        b.subset_of(z) && #[trigger] a.intersect(ax_set(k, z)).subset_of(z) implies e.subset_of(z) by {
        assert forall|t: usize|
            t < k.n() && !z.contains(t) && a.contains(t) implies exists|u: usize| #[trigger]
                k.edge(t, u) && !z.contains(u) by {
            assert(!ax_set(k, z).contains(t));
        }
        lemma_au_least(k, a, b, z);
    }
}

/// With at least one initial state, every formula has a witness or a
/// counterexample: [`crate::witness::find_witness`] finds none only where the
/// formula holds in no initial state, and
/// [`crate::counterexample::find_counterexample`] finds none only where it
/// holds in all of them.
pub proof fn law_witness_or_counterexample(k: KripkeStruct, f: CtlFormula)
    requires
        k.wf(),
        k.initial_states@.len() > 0,
    ensures
        some_initial_in(k, sat(k, f)) || !all_initial_in(k, sat(k, f)),
{
    if all_initial_in(k, sat(k, f)) {
        assert(sat(k, f).contains(k.initial_states@[0]));
    }
}

/// Recording a count for an operator appends it to that operator's counts
/// and leaves every other operator's counts as they were: after
/// [`crate::complexity::ComplexityReport::record`], `iterations` gives back
/// what was recorded.
pub proof fn law_record_then_iterations(e: Entries, op: Seq<char>, count: u64, other: Seq<char>)
    requires
        distinct_names(e),
        counts_nonempty(e),
    ensures
        counts_for(recorded(e, op, count), op) == counts_for(e, op).push(count),
        other != op ==> counts_for(recorded(e, op, count), other) == counts_for(e, other),
{
    lemma_recorded_counts(e, op, count);
}

/// The bound test looks at every count of every operator: the counts are all
/// at most `bound` exactly when each operator's counts are; so the test holds
/// of an empty report for every bound, and a larger bound keeps it.
pub proof fn law_bounds_by_operator(e: Entries, bound: nat, larger: nat)
    requires
        distinct_names(e),
    ensures
        counts_at_most(e, bound) <==> forall|op: Seq<char>, j: int|
            0 <= j < counts_for(e, op).len() ==> #[trigger] counts_for(e, op)[j] <= bound,
        e.len() == 0 ==> counts_at_most(e, bound),
        counts_at_most(e, bound) && bound <= larger ==> counts_at_most(e, larger),
{
    if counts_at_most(e, bound) {
        assert forall|op: Seq<char>, j: int| 0 <= j < counts_for(e, op).len() implies #[trigger] counts_for(e, op)[j] <= bound by {
            if exists|i: int| entry_of(e, op, i) {
                let i = choose|i: int| entry_of(e, op, i);
                assert(e[i].1[j] <= bound);
            }
        }
    }
    if forall|op: Seq<char>, j: int| 0 <= j < counts_for(e, op).len() ==> #[trigger] counts_for(e, op)[j] <= bound {
        assert forall|i: int, j: int| 0 <= i < e.len() && 0 <= j < e[i].1.len() implies #[trigger] e[i].1[j] <= bound by {
            let op = e[i].0;
            assert(entry_of(e, op, i));
            let i2 = choose|i2: int| entry_of(e, op, i2);
            assert(i2 == i);
            assert(counts_for(e, op)[j] <= bound);
        }
    }
}

/// The maximum of a list of counts is one of them and no count exceeds it;
/// with no counts it is 0.
pub proof fn law_max_of_is_largest(s: Seq<u64>)
    ensures
        forall|j: int| 0 <= j < s.len() ==> #[trigger] s[j] <= max_of(s),
        s.len() > 0 ==> exists|j: int| 0 <= j < s.len() && #[trigger] s[j] == max_of(s),
        s.len() == 0 ==> max_of(s) == 0,
    decreases s.len(),
{
    if s.len() > 0 {
        let d = s.drop_last();
        law_max_of_is_largest(d);
        assert forall|j: int| 0 <= j < s.len() implies #[trigger] s[j] <= max_of(s) by {
            if j < d.len() {
                assert(s[j] == d[j]);
            }
        }
        if max_of(d) >= s.last() && d.len() > 0 {
            let j = choose|j: int| 0 <= j < d.len() && #[trigger] d[j] == max_of(d);
            assert(s[j] == d[j]);
        } else {
            assert(s[s.len() - 1] == max_of(s));
        }
    }
}

/// [`crate::complexity::ComplexityReport::max_iterations`] is the largest
/// count of any occurrence of any operator: no recorded count exceeds it, it
/// is one of them, and it is 0 when nothing was recorded.
pub proof fn law_max_iterations_is_largest(e: Entries)
    ensures
        forall|i: int, j: int| 0 <= i < e.len() && 0 <= j < e[i].1.len() ==> #[trigger] e[i].1[j] <= max_all(e),
        (exists|i: int| 0 <= i < e.len() && #[trigger] e[i].1.len() > 0) ==> exists|i: int, j: int|
            0 <= i < e.len() && 0 <= j < e[i].1.len() && #[trigger] e[i].1[j] == max_all(e),
        !(exists|i: int| 0 <= i < e.len() && #[trigger] e[i].1.len() > 0) ==> max_all(e) == 0,
    decreases e.len(),
{
    if e.len() > 0 {
        let d = e.drop_last();
        let last = e.last().1;
        law_max_iterations_is_largest(d);
        law_max_of_is_largest(last);
        assert forall|i: int, j: int| 0 <= i < e.len() && 0 <= j < e[i].1.len() implies #[trigger] e[i].1[j]
            <= max_all(e) by {
            if i < d.len() {
                assert(e[i] == d[i]);
                assert(d[i].1[j] <= max_all(d));
            } else {
                assert(last[j] <= max_of(last));
            }
        }
        if max_all(d) >= max_of(last) {
            if exists|i: int| 0 <= i < d.len() && #[trigger] d[i].1.len() > 0 {
                let (i, j) = choose|i: int, j: int|
                    0 <= i < d.len() && 0 <= j < d[i].1.len() && #[trigger] d[i].1[j] == max_all(d);
                assert(e[i] == d[i]);
                assert(e[i].1[j] == max_all(e));
            } else if last.len() > 0 {
                let j = choose|j: int| 0 <= j < last.len() && #[trigger] last[j] == max_of(last);
                assert(last[j] <= max_all(d));
                assert(e[e.len() - 1].1[j] == max_all(e));
            } else {
                assert forall|i: int| 0 <= i < e.len() implies #[trigger] e[i].1.len() == 0 by {
                    if i < d.len() {
                        assert(e[i] == d[i]);
                    }
                }
            }
        } else {
            let j = choose|j: int| 0 <= j < last.len() && #[trigger] last[j] == max_of(last);
            assert(e[e.len() - 1].1[j] == max_all(e));
        }
    }
}

/// The line of the report for an operator gives its number of occurrences,
/// the sum of its counts and, after "max ", the largest of its counts (0 for
/// none).
pub proof fn law_report_line_gives_largest(op: Seq<char>, counts: Seq<u64>, m: nat)
    requires
        forall|j: int| 0 <= j < counts.len() ==> #[trigger] counts[j] <= m,
        counts.len() > 0 ==> exists|j: int| 0 <= j < counts.len() && #[trigger] counts[j] == m,
        counts.len() == 0 ==> m == 0,
    ensures
        entry_line(op, counts) == "  "@ + op + ": "@ + decimal(counts.len()) + " occurrence(s), total "@
            + decimal(sum_of(counts)) + " iterations, max "@ + decimal(m) + "\n"@,
{
    law_max_of_is_largest(counts);
    if counts.len() > 0 {
        let j = choose|j: int| 0 <= j < counts.len() && #[trigger] counts[j] == m;
        let j2 = choose|j2: int| 0 <= j2 < counts.len() && #[trigger] counts[j2] == max_of(counts);
        assert(counts[j] <= max_of(counts));
        assert(counts[j2] <= m);
    }
    assert(m == max_of(counts));
}

/// The sum of no counts is 0, and appending a count adds it to the sum.
pub proof fn law_sum_of_adds(s: Seq<u64>, c: u64)
    ensures
        sum_of(Seq::<u64>::empty()) == 0,
        sum_of(s.push(c)) == sum_of(s) + c,
{
    assert(s.push(c).drop_last() == s);
}

/// The immediate sub-formulas of a formula: none for an atom, the operand of
/// a unary operator, and the left operand then the right of a binary one.
pub proof fn law_sub_formulas_in_order(a: String, g: CtlFormula, l: CtlFormula, r: CtlFormula)
    ensures
        children(CtlFormula::Atom(a)).len() == 0,
        children(CtlFormula::Not(Box::new(g))) == seq![g],
        children(CtlFormula::Ex(Box::new(g))) == seq![g],
        children(CtlFormula::Ax(Box::new(g))) == seq![g],
        children(CtlFormula::Ef(Box::new(g))) == seq![g],
        children(CtlFormula::Af(Box::new(g))) == seq![g],
        children(CtlFormula::Eg(Box::new(g))) == seq![g],
        children(CtlFormula::Ag(Box::new(g))) == seq![g],
        children(CtlFormula::And(Box::new(l), Box::new(r))) == seq![l, r],
        children(CtlFormula::Or(Box::new(l), Box::new(r))) == seq![l, r],
        children(CtlFormula::Eu(Box::new(l), Box::new(r))) == seq![l, r],
        children(CtlFormula::Au(Box::new(l), Box::new(r))) == seq![l, r],
{
}

/// How a formula is written: a prefix operator (`¬`, `EX`, `AX`, `EF`, `AF`,
/// `EG`, `AG`) comes first, then its operand, bare if it is an atom and in
/// parentheses otherwise; a binary operator stands between its operands, the
/// left first, all in parentheses.
pub proof fn law_notation_names_operator(g: CtlFormula, l: CtlFormula, r: CtlFormula)
    ensures
        ({
            let inner = if g is Atom {
                notation(g)
            } else {
                "("@ + notation(g) + ")"@
            };
            &&& notation(CtlFormula::Not(Box::new(g))) == "¬"@ + inner
            &&& notation(CtlFormula::Ex(Box::new(g))) == "EX "@ + inner
            &&& notation(CtlFormula::Ax(Box::new(g))) == "AX "@ + inner
            &&& notation(CtlFormula::Ef(Box::new(g))) == "EF "@ + inner
            &&& notation(CtlFormula::Af(Box::new(g))) == "AF "@ + inner
            &&& notation(CtlFormula::Eg(Box::new(g))) == "EG "@ + inner
            &&& notation(CtlFormula::Ag(Box::new(g))) == "AG "@ + inner
        }),
        notation(CtlFormula::And(Box::new(l), Box::new(r))) == "("@ + notation(l) + " ∧ "@ + notation(r) + ")"@,
        notation(CtlFormula::Or(Box::new(l), Box::new(r))) == "("@ + notation(l) + " ∨ "@ + notation(r) + ")"@,
        notation(CtlFormula::Eu(Box::new(l), Box::new(r))) == "("@ + notation(l) + " EU "@ + notation(r) + ")"@,
        notation(CtlFormula::Au(Box::new(l), Box::new(r))) == "("@ + notation(l) + " AU "@ + notation(r) + ")"@,
        notation(CtlFormula::Ex(Box::new(g))).take(3) == "EX "@,
        notation(CtlFormula::Ax(Box::new(g))).take(3) == "AX "@,
        notation(CtlFormula::Ef(Box::new(g))).take(3) == "EF "@,
        notation(CtlFormula::Af(Box::new(g))).take(3) == "AF "@,
        notation(CtlFormula::Eg(Box::new(g))).take(3) == "EG "@,
        notation(CtlFormula::Ag(Box::new(g))).take(3) == "AG "@,
{
    reveal_strlit("EX ");
    reveal_strlit("AX ");
    reveal_strlit("EF ");
    reveal_strlit("AF ");
    reveal_strlit("EG ");
    reveal_strlit("AG ");
    let inner = if g is Atom {
        notation(g)
    } else {
        "("@ + notation(g) + ")"@
    };
    assert(("EX "@ + inner).take(3) =~= "EX "@);
    assert(("AX "@ + inner).take(3) =~= "AX "@);
    assert(("EF "@ + inner).take(3) =~= "EF "@);
    assert(("AF "@ + inner).take(3) =~= "AF "@);
    assert(("EG "@ + inner).take(3) =~= "EG "@);
    assert(("AG "@ + inner).take(3) =~= "AG "@);
}

} // verus!
