//! The meaning of CTL formulas on a Kripke structure, by paths, and the facts
//! about it that the iterative fixpoint algorithm rests on.
//!
//! A path from `s` is an infinite sequence of states starting at `s` in which
//! each state has a transition to the next. The set of states satisfying a
//! formula is defined operator by operator, following
//!
//! ```text
//! M, s ⊨ EX φ     iff ∃ successor s' of s: M, s' ⊨ φ
//! M, s ⊨ EF φ     iff ∃ path π from s: ∃i≥0: M, π[i] ⊨ φ
//! M, s ⊨ AG φ     iff ∀ paths π from s: ∀i≥0: M, π[i] ⊨ φ
//! M, s ⊨ φ₁ EU φ₂ iff ∃ path π from s: ∃k≥0: M, π[k] ⊨ φ₂ ∧ ∀j<k: M, π[j] ⊨ φ₁
//! ```
//!
//! and likewise for the others.
use vstd::prelude::*;

use crate::formula::CtlFormula;
use crate::kripke::KripkeStruct;
use crate::stateset::state_range;

verus! {

// ---------------------------------------------------------------------------
// Paths

/// Step `i` of `pi` follows a transition.
pub open spec fn step(k: KripkeStruct, pi: spec_fn(nat) -> usize, i: nat) -> bool {
    k.edge(pi(i), pi(i + 1))
}

/// `pi` is an infinite path of `k` starting at `s`.
pub open spec fn is_path_from(k: KripkeStruct, pi: spec_fn(nat) -> usize, s: usize) -> bool {
    &&& pi(0) == s
    &&& forall|i: nat| #[trigger] step(k, pi, i)
}

// ---------------------------------------------------------------------------
// The temporal operators, on the set `a` (and `b`) of states satisfying the
// operands.

/// EX: some successor lies in `a`.
pub open spec fn ex_set(k: KripkeStruct, a: Set<usize>) -> Set<usize> {
    Set::new(|s: usize| s < k.n() && exists|t: usize| #[trigger] k.edge(s, t) && a.contains(t))
}

/// AX: every successor lies in `a`.
pub open spec fn ax_set(k: KripkeStruct, a: Set<usize>) -> Set<usize> {
    Set::new(|s: usize| s < k.n() && forall|t: usize| #[trigger] k.edge(s, t) ==> a.contains(t))
}

/// EF: some path reaches `a`.
pub open spec fn ef_set(k: KripkeStruct, a: Set<usize>) -> Set<usize> {
    Set::new(
        |s: usize|
            s < k.n() && exists|pi: spec_fn(nat) -> usize| #[trigger]
                is_path_from(k, pi, s) && exists|i: nat| #[trigger] a.contains(pi(i)),
    )
}

/// AF: every path reaches `a`.
pub open spec fn af_set(k: KripkeStruct, a: Set<usize>) -> Set<usize> {
    Set::new(
        |s: usize|
            s < k.n() && forall|pi: spec_fn(nat) -> usize| #[trigger]
                is_path_from(k, pi, s) ==> exists|i: nat| #[trigger] a.contains(pi(i)),
    )
}

/// EG: some path stays in `a`.
pub open spec fn eg_set(k: KripkeStruct, a: Set<usize>) -> Set<usize> {
    Set::new(
        |s: usize|
            s < k.n() && exists|pi: spec_fn(nat) -> usize| #[trigger]
                is_path_from(k, pi, s) && forall|i: nat| #[trigger] a.contains(pi(i)),
    )
}

/// AG: every path stays in `a`.
pub open spec fn ag_set(k: KripkeStruct, a: Set<usize>) -> Set<usize> {
    Set::new(
        |s: usize|
            s < k.n() && forall|pi: spec_fn(nat) -> usize| #[trigger]
                is_path_from(k, pi, s) ==> forall|i: nat| #[trigger] a.contains(pi(i)),
    )
}

/// The path `pi` reaches `b` at step `j`, having been in `a` before.
pub open spec fn until_at(a: Set<usize>, b: Set<usize>, pi: spec_fn(nat) -> usize, j: nat) -> bool {
    b.contains(pi(j)) && forall|i: nat| i < j ==> #[trigger] a.contains(pi(i))
}

/// EU: some path stays in `a` until it reaches `b`.
pub open spec fn eu_set(k: KripkeStruct, a: Set<usize>, b: Set<usize>) -> Set<usize> {
    Set::new(
        |s: usize|
            s < k.n() && exists|pi: spec_fn(nat) -> usize| #[trigger]
                is_path_from(k, pi, s) && exists|j: nat| #[trigger] until_at(a, b, pi, j),
    )
}

/// AU: every path stays in `a` until it reaches `b`.
pub open spec fn au_set(k: KripkeStruct, a: Set<usize>, b: Set<usize>) -> Set<usize> {
    Set::new(
        |s: usize|
            s < k.n() && forall|pi: spec_fn(nat) -> usize| #[trigger]
                is_path_from(k, pi, s) ==> exists|j: nat| #[trigger] until_at(a, b, pi, j),
    )
}

/// The states of `k` that satisfy `f`.
pub open spec fn sat(k: KripkeStruct, f: CtlFormula) -> Set<usize>
    decreases f,
{
    match f {
        CtlFormula::Atom(p) => Set::new(|s: usize| s < k.n() && k.label_set(s).contains(p@)),
        CtlFormula::Not(g) => state_range(k.n()).difference(sat(k, *g)),
        CtlFormula::And(l, r) => sat(k, *l).intersect(sat(k, *r)),
        CtlFormula::Or(l, r) => sat(k, *l).union(sat(k, *r)),
        CtlFormula::Ex(g) => ex_set(k, sat(k, *g)),
        CtlFormula::Ax(g) => ax_set(k, sat(k, *g)),
        CtlFormula::Ef(g) => ef_set(k, sat(k, *g)),
        CtlFormula::Af(g) => af_set(k, sat(k, *g)),
        CtlFormula::Eg(g) => eg_set(k, sat(k, *g)),
        CtlFormula::Ag(g) => ag_set(k, sat(k, *g)),
        CtlFormula::Eu(l, r) => eu_set(k, sat(k, *l), sat(k, *r)),
        CtlFormula::Au(l, r) => au_set(k, sat(k, *l), sat(k, *r)),
    }
}

/// Only states satisfy formulas.
pub proof fn lemma_sat_in_range(k: KripkeStruct, f: CtlFormula)
    ensures
        sat(k, f).subset_of(state_range(k.n())),
    decreases f,
{
    match f {
        CtlFormula::And(l, r) => {
            lemma_sat_in_range(k, *l);
        },
        CtlFormula::Or(l, r) => {
            lemma_sat_in_range(k, *l);
            lemma_sat_in_range(k, *r);
        },
        _ => {},
    }
}

// ---------------------------------------------------------------------------
// Building paths

/// `s` followed by `pi`.
pub open spec fn cons_path(s: usize, pi: spec_fn(nat) -> usize) -> spec_fn(nat) -> usize {
    |i: nat|
        if i == 0 {
            s
        } else {
            pi((i - 1) as nat)
        }
}

/// `pi` without its first state.
pub open spec fn tail_path(pi: spec_fn(nat) -> usize) -> spec_fn(nat) -> usize {
    |i: nat| pi(i + 1)
}

/// A successor of `t`, one in `d` where there is one.
pub open spec fn next_toward(k: KripkeStruct, d: Set<usize>, t: usize) -> usize {
    if exists|u: usize| k.edge(t, u) && d.contains(u) {
        choose|u: usize| k.edge(t, u) && d.contains(u)
    } else {
        k.succ(t)[0]
    }
}

/// The states of `k` not in `c`.
pub open spec fn outside(k: KripkeStruct, c: Set<usize>) -> Set<usize> {
    Set::new(|u: usize| u < k.n() && !c.contains(u))
}

/// The state reached after `i` steps from `s`, each step into `d` where possible.
pub open spec fn walk(k: KripkeStruct, d: Set<usize>, s: usize, i: nat) -> usize
    decreases i,
{
    if i == 0 {
        s
    } else {
        next_toward(k, d, walk(k, d, s, (i - 1) as nat))
    }
}

/// The infinite walk from `s` that steps into `d` where possible.
pub open spec fn walk_path(k: KripkeStruct, d: Set<usize>, s: usize) -> spec_fn(nat) -> usize {
    |i: nat| walk(k, d, s, i)
}

/// Under well-formedness, a transition from a state leads to a state.
pub proof fn lemma_edge_in_range(k: KripkeStruct, s: usize, t: usize)
    requires
        k.wf(),
        k.edge(s, t),
    ensures
        s < k.n(),
        t < k.n(),
{
    assert(k.transitions@.contains_key(s));
}

/// Under well-formedness, a path from a state visits only states.
pub proof fn lemma_path_in_range(k: KripkeStruct, pi: spec_fn(nat) -> usize, s: usize, i: nat)
    requires
        k.wf(),
        s < k.n(),
        is_path_from(k, pi, s),
    ensures
        pi(i) < k.n(),
    decreases i,
{
    if i > 0 {
        let j = (i - 1) as nat;
        assert(step(k, pi, j));
        lemma_edge_in_range(k, pi(j), pi(i));
    }
}

proof fn lemma_next_toward(k: KripkeStruct, d: Set<usize>, t: usize)
    requires
        k.wf(),
        t < k.n(),
    ensures
        k.edge(t, next_toward(k, d, t)),
        next_toward(k, d, t) < k.n(),
        (exists|u: usize| k.edge(t, u) && d.contains(u)) ==> d.contains(next_toward(k, d, t)),
{
    if !(exists|u: usize| k.edge(t, u) && d.contains(u)) {
        assert(k.succ(t).len() > 0);
        assert(k.succ(t).contains(k.succ(t)[0]));
    }
    lemma_edge_in_range(k, t, next_toward(k, d, t));
}

proof fn lemma_walk_range(k: KripkeStruct, d: Set<usize>, s: usize, i: nat)
    requires
        k.wf(),
        s < k.n(),
    ensures
        walk(k, d, s, i) < k.n(),
    decreases i,
{
    if i > 0 {
        lemma_walk_range(k, d, s, (i - 1) as nat);
        lemma_next_toward(k, d, walk(k, d, s, (i - 1) as nat));
    }
}

/// In a total structure every state starts a path.
pub proof fn lemma_walk_is_path(k: KripkeStruct, d: Set<usize>, s: usize)
    requires
        k.wf(),
        s < k.n(),
    ensures
        is_path_from(k, walk_path(k, d, s), s),
{
    let pi = walk_path(k, d, s);
    assert forall|i: nat| #[trigger] step(k, pi, i) by {
        lemma_walk_range(k, d, s, i);
        lemma_next_toward(k, d, walk(k, d, s, i));
        assert(walk(k, d, s, i + 1) == next_toward(k, d, walk(k, d, s, i)));
    }
}

/// A walk from `d` stays in `d` when every state of `d` has a successor in `d`.
pub proof fn lemma_walk_stays(k: KripkeStruct, d: Set<usize>, s: usize, i: nat)
    requires
        k.wf(),
        s < k.n(),
        d.contains(s),
        forall|t: usize| #[trigger] d.contains(t) ==> exists|u: usize| k.edge(t, u) && d.contains(u),
        d.subset_of(state_range(k.n())),
    ensures
        d.contains(walk(k, d, s, i)),
    decreases i,
{
    if i > 0 {
        let j = (i - 1) as nat;
        lemma_walk_stays(k, d, s, j);
        let t = walk(k, d, s, j);
        lemma_next_toward(k, d, t);
    }
}

/// A transition followed by a path is a path.
pub proof fn lemma_cons_path(k: KripkeStruct, s: usize, pi: spec_fn(nat) -> usize, t: usize)
    requires
        k.edge(s, t),
        is_path_from(k, pi, t),
    ensures
        is_path_from(k, cons_path(s, pi), s),
        forall|i: nat| #[trigger] cons_path(s, pi)(i + 1) == pi(i),
{
    let p2 = cons_path(s, pi);
    assert forall|i: nat| #[trigger] step(k, p2, i) by {
        if i > 0 {
            assert(step(k, pi, (i - 1) as nat));
        }
    }
}

/// A path without its first state is a path from the second.
pub proof fn lemma_tail_path(k: KripkeStruct, pi: spec_fn(nat) -> usize, s: usize)
    requires
        is_path_from(k, pi, s),
    ensures
        is_path_from(k, tail_path(pi), pi(1)),
        k.edge(s, pi(1)),
        forall|i: nat| #[trigger] tail_path(pi)(i) == pi(i + 1),
{
    assert(step(k, pi, 0));
    assert forall|i: nat| #[trigger] step(k, tail_path(pi), i) by {
        assert(step(k, pi, i + 1));
    }
}

// ---------------------------------------------------------------------------
// EF

/// States of `a` satisfy EF.
pub proof fn lemma_ef_base(k: KripkeStruct, a: Set<usize>, s: usize)
    requires
        k.wf(),
        s < k.n(),
        a.contains(s),
    ensures
        ef_set(k, a).contains(s),
{
    lemma_walk_is_path(k, Set::empty(), s);
    let pi = walk_path(k, Set::empty(), s);
    assert(a.contains(pi(0)));
}

/// A predecessor of an EF state satisfies EF.
pub proof fn lemma_ef_pred(k: KripkeStruct, a: Set<usize>, p: usize, q: usize)
    requires
        k.wf(),
        k.edge(p, q),
        ef_set(k, a).contains(q),
    ensures
        ef_set(k, a).contains(p),
{
    lemma_edge_in_range(k, p, q);
    let pi = choose|pi: spec_fn(nat) -> usize|
        #[trigger] is_path_from(k, pi, q) && exists|i: nat| #[trigger] a.contains(pi(i));
    let i = choose|i: nat| #[trigger] a.contains(pi(i));
    lemma_cons_path(k, p, pi, q);
    assert(a.contains(cons_path(p, pi)(i + 1)));
}

proof fn lemma_back_to_start(k: KripkeStruct, pi: spec_fn(nat) -> usize, c: Set<usize>, i: nat)
    requires
        forall|i: nat| #[trigger] step(k, pi, i),
        c.contains(pi(i)),
        forall|p: usize, q: usize| #[trigger] k.edge(p, q) && c.contains(q) ==> c.contains(p),
    ensures
        c.contains(pi(0)),
    decreases i,
{
    if i > 0 {
        let j = (i - 1) as nat;
        assert(step(k, pi, j));
        lemma_back_to_start(k, pi, c, j);
    }
}

/// EF is contained in every superset of `a` closed under predecessors.
pub proof fn lemma_ef_least(k: KripkeStruct, a: Set<usize>, c: Set<usize>)
    requires
        a.subset_of(c),
        forall|p: usize, q: usize| #[trigger] k.edge(p, q) && c.contains(q) ==> c.contains(p),
    ensures
        ef_set(k, a).subset_of(c),
{
    assert forall|s: usize| ef_set(k, a).contains(s) implies c.contains(s) by {
        let pi = choose|pi: spec_fn(nat) -> usize|
            #[trigger] is_path_from(k, pi, s) && exists|i: nat| #[trigger] a.contains(pi(i));
        let i = choose|i: nat| #[trigger] a.contains(pi(i));
        lemma_back_to_start(k, pi, c, i);
    }
}

// ---------------------------------------------------------------------------
// AF

/// States of `a` satisfy AF.
pub proof fn lemma_af_base(k: KripkeStruct, a: Set<usize>, s: usize)
    requires
        s < k.n(),
        a.contains(s),
    ensures
        af_set(k, a).contains(s),
{
    assert forall|pi: spec_fn(nat) -> usize| #[trigger]
        is_path_from(k, pi, s) implies exists|i: nat| #[trigger] a.contains(pi(i)) by {
        assert(a.contains(pi(0)));
    }
}

/// A state all of whose successors satisfy AF satisfies AF.
pub proof fn lemma_af_step(k: KripkeStruct, a: Set<usize>, c: Set<usize>, s: usize)
    requires
        s < k.n(),
        c.subset_of(af_set(k, a)),
        forall|t: usize| #[trigger] k.edge(s, t) ==> c.contains(t),
    ensures
        af_set(k, a).contains(s),
{
    assert forall|pi: spec_fn(nat) -> usize| #[trigger]
        is_path_from(k, pi, s) implies exists|i: nat| #[trigger] a.contains(pi(i)) by {
        lemma_tail_path(k, pi, s);
        let t = pi(1);
        assert(af_set(k, a).contains(t));
        let tp = tail_path(pi);
        assert(is_path_from(k, tp, t));
        let i = choose|i: nat| #[trigger] a.contains(tp(i));
        assert(a.contains(pi(i + 1)));
    }
}

/// AF is contained in every superset of `a` that holds each state whose
/// successors it all holds.
pub proof fn lemma_af_least(k: KripkeStruct, a: Set<usize>, c: Set<usize>)
    requires
        k.wf(),
        a.subset_of(c),
        forall|s: usize|
            s < k.n() && !c.contains(s) ==> exists|t: usize| #[trigger] k.edge(s, t) && !c.contains(t),
    ensures
        af_set(k, a).subset_of(c),
{
    let d = outside(k, c);
    assert forall|s: usize| af_set(k, a).contains(s) implies c.contains(s) by {
        if !c.contains(s) {
            assert forall|t: usize| #[trigger] d.contains(t) implies exists|u: usize|
                k.edge(t, u) && d.contains(u) by {
                assert(t < k.n() && !c.contains(t));
                let u = choose|u: usize| #[trigger] k.edge(t, u) && !c.contains(u);
                lemma_edge_in_range(k, t, u);
                assert(k.edge(t, u) && d.contains(u));
            }
            lemma_walk_is_path(k, d, s);
            let pi = walk_path(k, d, s);
            assert(is_path_from(k, pi, s));
            let i = choose|i: nat| #[trigger] a.contains(pi(i));
            lemma_walk_stays(k, d, s, i);
        }
    }
}

// ---------------------------------------------------------------------------
// EG

/// EG states lie in `a`.
pub proof fn lemma_eg_sub(k: KripkeStruct, a: Set<usize>)
    ensures
        eg_set(k, a).subset_of(a),
{
    assert forall|s: usize| eg_set(k, a).contains(s) implies a.contains(s) by {
        let pi = choose|pi: spec_fn(nat) -> usize|
            #[trigger] is_path_from(k, pi, s) && forall|i: nat| #[trigger] a.contains(pi(i));
        assert(a.contains(pi(0)));
    }
}

/// An EG state has a successor that satisfies EG.
pub proof fn lemma_eg_succ(k: KripkeStruct, a: Set<usize>, s: usize)
    requires
        k.wf(),
        eg_set(k, a).contains(s),
    ensures
        exists|t: usize| #[trigger] k.edge(s, t) && eg_set(k, a).contains(t),
{
    let pi = choose|pi: spec_fn(nat) -> usize|
        #[trigger] is_path_from(k, pi, s) && forall|i: nat| #[trigger] a.contains(pi(i));
    lemma_tail_path(k, pi, s);
    let t = pi(1);
    lemma_edge_in_range(k, s, t);
    let tp = tail_path(pi);
    assert forall|i: nat| #[trigger] a.contains(tp(i)) by {
        assert(a.contains(pi(i + 1)));
    }
    assert(is_path_from(k, tp, t));
    assert(eg_set(k, a).contains(t));
}

/// Every subset of `a` in which each state has a successor is contained in EG.
pub proof fn lemma_eg_greatest(k: KripkeStruct, a: Set<usize>, c: Set<usize>)
    requires
        k.wf(),
        c.subset_of(a),
        c.subset_of(state_range(k.n())),
        forall|s: usize| #[trigger] c.contains(s) ==> exists|t: usize| k.edge(s, t) && c.contains(t),
    ensures
        c.subset_of(eg_set(k, a)),
{
    assert forall|s: usize| c.contains(s) implies eg_set(k, a).contains(s) by {
        lemma_walk_is_path(k, c, s);
        let pi = walk_path(k, c, s);
        assert forall|i: nat| #[trigger] a.contains(pi(i)) by {
            lemma_walk_stays(k, c, s, i);
        }
        assert(is_path_from(k, pi, s));
    }
}

// ---------------------------------------------------------------------------
// AG

/// AG states lie in `a`.
pub proof fn lemma_ag_sub(k: KripkeStruct, a: Set<usize>)
    requires
        k.wf(),
    ensures
        ag_set(k, a).subset_of(a),
{
    assert forall|s: usize| ag_set(k, a).contains(s) implies a.contains(s) by {
        lemma_walk_is_path(k, Set::empty(), s);
        let pi = walk_path(k, Set::empty(), s);
        assert(a.contains(pi(0)));
    }
}

/// Every successor of an AG state satisfies AG.
pub proof fn lemma_ag_succ(k: KripkeStruct, a: Set<usize>, s: usize, t: usize)
    requires
        k.wf(),
        ag_set(k, a).contains(s),
        k.edge(s, t),
    ensures
        ag_set(k, a).contains(t),
{
    lemma_edge_in_range(k, s, t);
    assert forall|pi: spec_fn(nat) -> usize| #[trigger]
        is_path_from(k, pi, t) implies forall|i: nat| #[trigger] a.contains(pi(i)) by {
        lemma_cons_path(k, s, pi, t);
        let p2 = cons_path(s, pi);
        assert forall|i: nat| #[trigger] a.contains(pi(i)) by {
            assert(a.contains(p2(i + 1)));
        }
    }
}

proof fn lemma_stays_closed(k: KripkeStruct, pi: spec_fn(nat) -> usize, c: Set<usize>, i: nat)
    requires
        forall|i: nat| #[trigger] step(k, pi, i),
        c.contains(pi(0)),
        forall|p: usize, q: usize| #[trigger] k.edge(p, q) && c.contains(p) ==> c.contains(q),
    ensures
        c.contains(pi(i)),
    decreases i,
{
    if i > 0 {
        let j = (i - 1) as nat;
        assert(step(k, pi, j));
        lemma_stays_closed(k, pi, c, j);
    }
}

/// Every subset of `a` closed under successors is contained in AG.
pub proof fn lemma_ag_greatest(k: KripkeStruct, a: Set<usize>, c: Set<usize>)
    requires
        c.subset_of(a),
        c.subset_of(state_range(k.n())),
        forall|p: usize, q: usize| #[trigger] k.edge(p, q) && c.contains(p) ==> c.contains(q),
    ensures
        c.subset_of(ag_set(k, a)),
{
    assert forall|s: usize| c.contains(s) implies ag_set(k, a).contains(s) by {
        assert forall|pi: spec_fn(nat) -> usize| #[trigger]
            is_path_from(k, pi, s) implies forall|i: nat| #[trigger] a.contains(pi(i)) by {
            assert forall|i: nat| #[trigger] a.contains(pi(i)) by {
                lemma_stays_closed(k, pi, c, i);
            }
        }
    }
}

// ---------------------------------------------------------------------------
// EU

/// States of `b` satisfy EU.
pub proof fn lemma_eu_base(k: KripkeStruct, a: Set<usize>, b: Set<usize>, s: usize)
    requires
        k.wf(),
        s < k.n(),
        b.contains(s),
    ensures
        eu_set(k, a, b).contains(s),
{
    lemma_walk_is_path(k, Set::empty(), s);
    let pi = walk_path(k, Set::empty(), s);
    assert(until_at(a, b, pi, 0));
}

/// A predecessor in `a` of an EU state satisfies EU.
pub proof fn lemma_eu_pred(k: KripkeStruct, a: Set<usize>, b: Set<usize>, p: usize, q: usize)
    requires
        k.wf(),
        k.edge(p, q),
        a.contains(p),
        eu_set(k, a, b).contains(q),
    ensures
        eu_set(k, a, b).contains(p),
{
    lemma_edge_in_range(k, p, q);
    let pi = choose|pi: spec_fn(nat) -> usize|
        #[trigger] is_path_from(k, pi, q) && exists|j: nat| #[trigger] until_at(a, b, pi, j);
    let j = choose|j: nat| #[trigger] until_at(a, b, pi, j);
    lemma_cons_path(k, p, pi, q);
    let p2 = cons_path(p, pi);
    assert forall|i: nat| i < j + 1 implies #[trigger] a.contains(p2(i)) by {
        if i > 0 {
            assert(a.contains(pi((i - 1) as nat)));
        }
    }
    assert(until_at(a, b, p2, j + 1));
}

proof fn lemma_until_back(
    k: KripkeStruct,
    a: Set<usize>,
    pi: spec_fn(nat) -> usize,
    c: Set<usize>,
    m: nat,
    j: nat,
)
    requires
        forall|i: nat| #[trigger] step(k, pi, i),
        m <= j,
        c.contains(pi(j)),
        forall|i: nat| i < j ==> #[trigger] a.contains(pi(i)),
        forall|p: usize, q: usize|
            #[trigger] k.edge(p, q) && c.contains(q) && a.contains(p) ==> c.contains(p),
    ensures
        c.contains(pi(m)),
    decreases j - m,
{
    if m < j {
        lemma_until_back(k, a, pi, c, m + 1, j);
        assert(step(k, pi, m));
        assert(a.contains(pi(m)));
    }
}

/// EU is contained in every superset of `b` that holds each state of `a` with a
/// successor in it.
pub proof fn lemma_eu_least(k: KripkeStruct, a: Set<usize>, b: Set<usize>, c: Set<usize>)
    requires
        b.subset_of(c),
        forall|p: usize, q: usize|
            #[trigger] k.edge(p, q) && c.contains(q) && a.contains(p) ==> c.contains(p),
    ensures
        eu_set(k, a, b).subset_of(c),
{
    assert forall|s: usize| eu_set(k, a, b).contains(s) implies c.contains(s) by {
        let pi = choose|pi: spec_fn(nat) -> usize|
            #[trigger] is_path_from(k, pi, s) && exists|j: nat| #[trigger] until_at(a, b, pi, j);
        let j = choose|j: nat| #[trigger] until_at(a, b, pi, j);
        lemma_until_back(k, a, pi, c, 0, j);
    }
}

// ---------------------------------------------------------------------------
// AU

/// States of `b` satisfy AU.
pub proof fn lemma_au_base(k: KripkeStruct, a: Set<usize>, b: Set<usize>, s: usize)
    requires
        s < k.n(),
        b.contains(s),
    ensures
        au_set(k, a, b).contains(s),
{
    assert forall|pi: spec_fn(nat) -> usize| #[trigger]
        is_path_from(k, pi, s) implies exists|j: nat| #[trigger] until_at(a, b, pi, j) by {
        assert(until_at(a, b, pi, 0));
    }
}

/// A state of `a` all of whose successors satisfy AU satisfies AU.
pub proof fn lemma_au_step(k: KripkeStruct, a: Set<usize>, b: Set<usize>, c: Set<usize>, s: usize)
    requires
        s < k.n(),
        a.contains(s),
        c.subset_of(au_set(k, a, b)),
        forall|t: usize| #[trigger] k.edge(s, t) ==> c.contains(t),
    ensures
        au_set(k, a, b).contains(s),
{
    assert forall|pi: spec_fn(nat) -> usize| #[trigger]
        is_path_from(k, pi, s) implies exists|j: nat| #[trigger] until_at(a, b, pi, j) by {
        lemma_tail_path(k, pi, s);
        let t = pi(1);
        assert(au_set(k, a, b).contains(t));
        let tp = tail_path(pi);
        assert(is_path_from(k, tp, t));
        let j = choose|j: nat| #[trigger] until_at(a, b, tp, j);
        assert forall|i: nat| i < j + 1 implies #[trigger] a.contains(pi(i)) by {
            if i > 0 {
                assert(a.contains(tp((i - 1) as nat)));
            }
        }
        assert(until_at(a, b, pi, j + 1));
    }
}

proof fn lemma_avoiding_walk(
    k: KripkeStruct,
    a: Set<usize>,
    c: Set<usize>,
    s: usize,
    m: nat,
)
    requires
        k.wf(),
        s < k.n(),
        !c.contains(s),
        forall|t: usize|
            t < k.n() && !c.contains(t) && a.contains(t) ==> exists|u: usize| #[trigger]
                k.edge(t, u) && !c.contains(u),
        forall|i: nat| i < m ==> #[trigger] a.contains(walk(k, outside(k, c), s, i)),
    ensures
        !c.contains(walk(k, outside(k, c), s, m)),
    decreases m,
{
    let d = outside(k, c);
    if m > 0 {
        let j = (m - 1) as nat;
        lemma_avoiding_walk(k, a, c, s, j);
        let t = walk(k, d, s, j);
        lemma_walk_range(k, d, s, j);
        assert(a.contains(t));
        let u = choose|u: usize| #[trigger] k.edge(t, u) && !c.contains(u);
        lemma_edge_in_range(k, t, u);
        assert(d.contains(u));
        lemma_next_toward(k, d, t);
    }
}

/// AU is contained in every superset of `b` that holds each state of `a` whose
/// successors it all holds.
pub proof fn lemma_au_least(k: KripkeStruct, a: Set<usize>, b: Set<usize>, c: Set<usize>)
    requires
        k.wf(),
        b.subset_of(c),
        forall|t: usize|
            t < k.n() && !c.contains(t) && a.contains(t) ==> exists|u: usize| #[trigger]
                k.edge(t, u) && !c.contains(u),
    ensures
        au_set(k, a, b).subset_of(c),
{
    let d = outside(k, c);
    assert forall|s: usize| au_set(k, a, b).contains(s) implies c.contains(s) by {
        if !c.contains(s) {
            lemma_walk_is_path(k, d, s);
            let pi = walk_path(k, d, s);
            assert(is_path_from(k, pi, s));
            let j = choose|j: nat| #[trigger] until_at(a, b, pi, j);
            assert forall|i: nat| i < j implies #[trigger] a.contains(walk(k, d, s, i)) by {
                assert(a.contains(pi(i)));
            }
            lemma_avoiding_walk(k, a, c, s, j);
        }
    }
}

} // verus!
