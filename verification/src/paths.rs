//! Finite paths of a Kripke structure, and the search helpers that witness and
//! counterexample generation share.
use std::collections::{HashMap, HashSet};
use vstd::prelude::*;

use crate::kripke::KripkeStruct;
use crate::semantics::{is_path_from, step};
use crate::stateset::{lemma_subset_of_range, state_range};

verus! {

broadcast use vstd::std_specs::hash::group_hash_axioms;

/// Each state of `p` has a transition to the next.
pub open spec fn is_finite_path(k: KripkeStruct, p: Seq<usize>) -> bool {
    forall|i: int| 0 <= i < p.len() - 1 ==> #[trigger] k.edge(p[i], p[i + 1])
}

/// Some finite path from `s` ends in `target`.
pub open spec fn reaches(k: KripkeStruct, s: usize, target: Set<usize>) -> bool {
    exists|p: Seq<usize>|
        #[trigger] is_finite_path(k, p) && p.len() >= 1 && p[0] == s && target.contains(p.last())
}

/// The first element of `s` not in `set`.
pub open spec fn first_outside(s: Seq<usize>, set: Set<usize>) -> Option<usize>
    decreases s.len(),
{
    if s.len() == 0 {
        None
    } else if !set.contains(s[0]) {
        Some(s[0])
    } else {
        first_outside(s.drop_first(), set)
    }
}

/// The first element of `s` in `set`.
pub open spec fn first_inside(s: Seq<usize>, set: Set<usize>) -> Option<usize>
    decreases s.len(),
{
    if s.len() == 0 {
        None
    } else if set.contains(s[0]) {
        Some(s[0])
    } else {
        first_inside(s.drop_first(), set)
    }
}

/// What `first_outside` finds lies in the list and outside the set; where it
/// finds nothing, the whole list lies in the set.
pub proof fn lemma_first_outside(s: Seq<usize>, set: Set<usize>)
    ensures
        first_outside(s, set) matches Some(t) ==> s.contains(t) && !set.contains(t),
        first_outside(s, set) is None ==> forall|i: int| 0 <= i < s.len() ==> set.contains(#[trigger] s[i]),
    decreases s.len(),
{
    if s.len() > 0 && set.contains(s[0]) {
        lemma_first_outside(s.drop_first(), set);
        if let Some(t) = first_outside(s, set) {
            let i = choose|i: int| 0 <= i < s.drop_first().len() && s.drop_first()[i] == t;
            assert(s[i + 1] == t);
        } else {
            assert forall|i: int| 0 <= i < s.len() implies set.contains(#[trigger] s[i]) by {
                if i > 0 {
                    assert(s[i] == s.drop_first()[i - 1]);
                }
            }
        }
    } else if s.len() > 0 {
        assert(s.contains(s[0]));
    }
}

/// What `first_inside` finds lies in the list and in the set; where it finds
/// nothing, no element of the list lies in the set.
pub proof fn lemma_first_inside(s: Seq<usize>, set: Set<usize>)
    ensures
        first_inside(s, set) matches Some(t) ==> s.contains(t) && set.contains(t),
        first_inside(s, set) is None ==> forall|i: int| 0 <= i < s.len() ==> !set.contains(#[trigger] s[i]),
    decreases s.len(),
{
    if s.len() > 0 && !set.contains(s[0]) {
        lemma_first_inside(s.drop_first(), set);
        if let Some(t) = first_inside(s, set) {
            let i = choose|i: int| 0 <= i < s.drop_first().len() && s.drop_first()[i] == t;
            assert(s[i + 1] == t);
        } else {
            assert forall|i: int| 0 <= i < s.len() implies !set.contains(#[trigger] s[i]) by {
                if i > 0 {
                    assert(s[i] == s.drop_first()[i - 1]);
                }
            }
        }
    } else if s.len() > 0 {
        assert(s.contains(s[0]));
    }
}

/// The first element of the list that `set` does not contain.
pub fn find_outside(v: &[usize], set: &HashSet<usize>) -> (r: Option<usize>)
    ensures
        r == first_outside(v@, set@),
{
    let mut i: usize = 0;
    assert(v@.skip(0) == v@);
    while i < v.len()
        invariant
            i <= v@.len(),
            first_outside(v@, set@) == first_outside(v@.skip(i as int), set@),
        decreases v@.len() - i,
    {
        assert(v@.skip(i as int)[0] == v@[i as int]);
        if !set.contains(&v[i]) {
            return Some(v[i]);
        }
        assert(v@.skip(i as int).drop_first() == v@.skip(i + 1));
        i += 1;
    }
    None
}

/// The first element of the list that `set` contains.
pub fn find_inside(v: &[usize], set: &HashSet<usize>) -> (r: Option<usize>)
    ensures
        r == first_inside(v@, set@),
{
    let mut i: usize = 0;
    assert(v@.skip(0) == v@);
    while i < v.len()
        invariant
            i <= v@.len(),
            first_inside(v@, set@) == first_inside(v@.skip(i as int), set@),
        decreases v@.len() - i,
    {
        assert(v@.skip(i as int)[0] == v@[i as int]);
        if set.contains(&v[i]) {
            return Some(v[i]);
        }
        assert(v@.skip(i as int).drop_first() == v@.skip(i + 1));
        i += 1;
    }
    None
}

/// The first `i + 1` states of an infinite path form a finite path.
pub proof fn lemma_prefix_path(k: KripkeStruct, pi: spec_fn(nat) -> usize, s: usize, i: nat)
    requires
        is_path_from(k, pi, s),
    ensures
        is_finite_path(k, Seq::new(i + 1, |j: int| pi(j as nat))),
        Seq::new(i + 1, |j: int| pi(j as nat))[0] == s,
        Seq::new(i + 1, |j: int| pi(j as nat)).last() == pi(i),
{
    let p = Seq::new(i + 1, |j: int| pi(j as nat));
    assert forall|j: int| 0 <= j < p.len() - 1 implies #[trigger] k.edge(p[j], p[j + 1]) by {
        assert(step(k, pi, j as nat));
    }
}

/// A set that holds `s`, is closed under successors and avoids `target`
/// shows that no finite path from `s` reaches `target`.
pub proof fn lemma_closed_avoids(k: KripkeStruct, c: Set<usize>, s: usize, target: Set<usize>)
    requires
        c.contains(s),
        forall|u: usize, t: usize| #[trigger] k.edge(u, t) && c.contains(u) ==> c.contains(t),
        forall|u: usize| #[trigger] c.contains(u) ==> !target.contains(u),
    ensures
        !reaches(k, s, target),
{
    if reaches(k, s, target) {
        let p = choose|p: Seq<usize>|
            #[trigger] is_finite_path(k, p) && p.len() >= 1 && p[0] == s && target.contains(p.last());
        assert forall|i: int| 0 <= i < p.len() implies #[trigger] c.contains(p[i]) by {
            lemma_path_prefix_in(k, c, p, i);
        }
        assert(c.contains(p[p.len() - 1]));
    }
}

proof fn lemma_path_prefix_in(k: KripkeStruct, c: Set<usize>, p: Seq<usize>, i: int)
    requires
        is_finite_path(k, p),
        0 <= i < p.len(),
        c.contains(p[0]),
        forall|u: usize, t: usize| #[trigger] k.edge(u, t) && c.contains(u) ==> c.contains(t),
    ensures
        c.contains(p[i]),
    decreases i,
{
    if i > 0 {
        lemma_path_prefix_in(k, c, p, i - 1);
        let j = i - 1;
        assert(k.edge(p[j], p[j + 1]));
    }
}

/// A list of distinct states of `0..n` has at most `n` elements.
pub proof fn lemma_distinct_states_bound(p: Seq<usize>, n: nat)
    requires
        n <= usize::MAX,
        p.no_duplicates(),
        forall|i: int| 0 <= i < p.len() ==> #[trigger] p[i] < n,
    ensures
        p.len() <= n,
{
    p.unique_seq_to_set();
    assert(p.to_set().subset_of(state_range(n)));
    lemma_subset_of_range(p.to_set(), n);
}

/// The index of the first occurrence of `t` in `s` (`s.len()` where there is none).
pub open spec fn position(s: Seq<usize>, t: usize) -> int
    decreases s.len(),
{
    if s.len() == 0 {
        0
    } else if s[0] == t {
        0
    } else {
        1 + position(s.drop_first(), t)
    }
}

/// `position` finds the first occurrence.
pub proof fn lemma_position(s: Seq<usize>, t: usize)
    ensures
        0 <= position(s, t) <= s.len(),
        position(s, t) < s.len() ==> s[position(s, t)] == t,
        forall|i: int| 0 <= i < position(s, t) ==> s[i] != t,
        s.contains(t) ==> position(s, t) < s.len(),
    decreases s.len(),
{
    if s.len() > 0 && s[0] != t {
        lemma_position(s.drop_first(), t);
        assert forall|i: int| 0 <= i < position(s, t) implies s[i] != t by {
            if i > 0 {
                assert(s[i] == s.drop_first()[i - 1]);
            }
        }
        if s.contains(t) {
            let i = choose|i: int| 0 <= i < s.len() && s[i] == t;
            assert(s.drop_first()[i - 1] == t);
        }
    }
}

/// `p` and `q` share their first `j` states and part at state `j`, where `p`
/// goes to a successor listed before the one `q` goes to.
pub open spec fn parts_first_at(k: KripkeStruct, p: Seq<usize>, q: Seq<usize>, j: int) -> bool {
    &&& 1 <= j < p.len()
    &&& j < q.len()
    &&& p.take(j) == q.take(j)
    &&& position(k.succ(p[j - 1]), p[j]) < position(k.succ(p[j - 1]), q[j])
}

/// `p` goes before `q`: where they part, `p` takes the successor listed first.
pub open spec fn goes_before(k: KripkeStruct, p: Seq<usize>, q: Seq<usize>) -> bool {
    exists|j: int| #[trigger] parts_first_at(k, p, q, j)
}

/// Extending two paths of one length keeps their order.
pub proof fn lemma_goes_before_push(k: KripkeStruct, p: Seq<usize>, q: Seq<usize>, x: usize, y: usize)
    requires
        goes_before(k, p, q),
        p.len() == q.len(),
    ensures
        goes_before(k, p.push(x), q.push(y)),
{
    let j = choose|j: int| #[trigger] parts_first_at(k, p, q, j);
    assert(p.push(x).take(j) == p.take(j));
    assert(q.push(y).take(j) == q.take(j));
    assert(parts_first_at(k, p.push(x), q.push(y), j));
}

/// A path extended by a successor listed earlier goes before the same path
/// extended by one listed later.
pub proof fn lemma_goes_before_step(k: KripkeStruct, p: Seq<usize>, x: usize, y: usize)
    requires
        p.len() >= 1,
        position(k.succ(p.last()), x) < position(k.succ(p.last()), y),
    ensures
        goes_before(k, p.push(x), p.push(y)),
{
    let j = p.len() as int;
    assert(p.push(x).take(j) == p);
    assert(p.push(y).take(j) == p);
    assert(parts_first_at(k, p.push(x), p.push(y), j));
}

/// Going before is transitive on paths of one length.
pub proof fn lemma_goes_before_trans(k: KripkeStruct, p: Seq<usize>, q: Seq<usize>, r: Seq<usize>)
    requires
        goes_before(k, p, q),
        goes_before(k, q, r),
        p.len() == q.len(),
        q.len() == r.len(),
    ensures
        goes_before(k, p, r),
{
    let j1 = choose|j: int| #[trigger] parts_first_at(k, p, q, j);
    let j2 = choose|j: int| #[trigger] parts_first_at(k, q, r, j);
    if j1 < j2 {
        assert(q[j1] == q.take(j2)[j1]);
        assert(r[j1] == r.take(j2)[j1]);
        assert(p.take(j1) =~= r.take(j1)) by {
            assert forall|i: int| 0 <= i < j1 implies p.take(j1)[i] == r.take(j1)[i] by {
                assert(p.take(j1)[i] == q.take(j1)[i]);
                assert(q[i] == q.take(j2)[i]);
                assert(r[i] == r.take(j2)[i]);
            }
        }
        assert(p[j1 - 1] == p.take(j1)[j1 - 1]);
        assert(q[j1 - 1] == q.take(j1)[j1 - 1]);
        assert(parts_first_at(k, p, r, j1));
    } else if j2 < j1 {
        assert(p[j2] == p.take(j1)[j2]);
        assert(q[j2] == q.take(j1)[j2]);
        assert(p.take(j2) =~= r.take(j2)) by {
            assert forall|i: int| 0 <= i < j2 implies p.take(j2)[i] == r.take(j2)[i] by {
                assert(q.take(j2)[i] == r.take(j2)[i]);
                assert(p[i] == p.take(j1)[i]);
                assert(q[i] == q.take(j1)[i]);
            }
        }
        assert(p[j2 - 1] == p.take(j2)[j2 - 1]);
        assert(q[j2 - 1] == q.take(j2)[j2 - 1]);
        assert(parts_first_at(k, p, r, j2));
    } else {
        assert(p.take(j1) =~= r.take(j1)) by {
            assert forall|i: int| 0 <= i < j1 implies p.take(j1)[i] == r.take(j1)[i] by {
                assert(p.take(j1)[i] == q.take(j1)[i]);
            }
        }
        assert(p[j1 - 1] == p.take(j1)[j1 - 1]);
        assert(q[j1 - 1] == q.take(j1)[j1 - 1]);
        assert(parts_first_at(k, p, r, j1));
    }
}

/// Of the paths from `start` that pass only through `a` before they end in
/// `b` and are as long as `p`, `p` goes before every other.
pub open spec fn first_of_length(k: KripkeStruct, start: usize, a: Set<usize>, b: Set<usize>, p: Seq<usize>) -> bool {
    forall|q: Seq<usize>|
        #[trigger] is_finite_path(k, q) && q.len() == p.len() && q[0] == start && b.contains(q.last()) && (
        forall|i: int| 0 <= i < q.len() - 1 ==> a.contains(q[i])) && q != p ==> goes_before(k, p, q)
}

/// The path of `start` alone goes first among the paths of one state.
pub proof fn lemma_first_of_one(k: KripkeStruct, start: usize, a: Set<usize>, b: Set<usize>)
    ensures
        first_of_length(k, start, a, b, seq![start]),
{
    assert forall|q: Seq<usize>|
        #[trigger] is_finite_path(k, q) && q.len() == 1 && q[0] == start && b.contains(q.last()) && (
        forall|i: int| 0 <= i < q.len() - 1 ==> a.contains(q[i])) && q != seq![start] implies goes_before(
        k,
        seq![start],
        q,
    ) by {
        assert(q =~= seq![start]);
    }
}

/// No finite path from `start` that passes only through `a` before it ends in
/// `b` is shorter than `p`.
pub open spec fn no_shorter_path(k: KripkeStruct, start: usize, a: Set<usize>, b: Set<usize>, p: Seq<usize>) -> bool {
    forall|q: Seq<usize>|
        #[trigger] is_finite_path(k, q) && q.len() >= 1 && q[0] == start && b.contains(q.last()) && (
        forall|i: int| 0 <= i < q.len() - 1 ==> a.contains(q[i])) ==> p.len() <= q.len()
}

/// Every path from `start` of at most `h` steps through states in `a` and
/// outside `b` ends at a state with a `dist` of at most its number of steps.
pub open spec fn levels_reached(
    k: KripkeStruct,
    start: usize,
    a: Set<usize>,
    b: Set<usize>,
    dist: Map<usize, nat>,
    h: nat,
) -> bool {
    forall|r: Seq<usize>|
        #[trigger] is_finite_path(k, r) && r.len() >= 1 && r[0] == start && r.len() - 1 <= h && (
        forall|i: int| 0 <= i < r.len() ==> a.contains(r[i]) && !b.contains(r[i])) ==> dist.contains_key(
            r.last(),
        ) && dist[r.last()] <= r.len() - 1
}

/// Level 0 is reached once `start` is, at distance 0.
pub proof fn lemma_levels_start(k: KripkeStruct, start: usize, a: Set<usize>, b: Set<usize>, dist: Map<usize, nat>)
    requires
        dist.contains_key(start),
        dist[start] == 0,
    ensures
        levels_reached(k, start, a, b, dist, 0),
{
    assert forall|r: Seq<usize>|
        #[trigger] is_finite_path(k, r) && r.len() >= 1 && r[0] == start && r.len() - 1 <= 0 && (
        forall|i: int| 0 <= i < r.len() ==> a.contains(r[i]) && !b.contains(r[i])) implies dist.contains_key(
            r.last(),
        ) && dist[r.last()] <= r.len() - 1 by {
        assert(r.last() == r[0]);
    }
}

/// Reached levels stay reached as `dist` grows.
pub proof fn lemma_levels_extend(
    k: KripkeStruct,
    start: usize,
    a: Set<usize>,
    b: Set<usize>,
    d1: Map<usize, nat>,
    d2: Map<usize, nat>,
    h: nat,
)
    requires
        levels_reached(k, start, a, b, d1, h),
        forall|u: usize| #[trigger] d1.contains_key(u) ==> d2.contains_key(u) && d2[u] == d1[u],
    ensures
        levels_reached(k, start, a, b, d2, h),
{
    assert forall|r: Seq<usize>|
        #[trigger] is_finite_path(k, r) && r.len() >= 1 && r[0] == start && r.len() - 1 <= h && (
        forall|i: int| 0 <= i < r.len() ==> a.contains(r[i]) && !b.contains(r[i])) implies d2.contains_key(
            r.last(),
        ) && d2[r.last()] <= r.len() - 1 by {
        assert(d1.contains_key(r.last()));
    }
}

/// Where every state of `a` within `h` steps has all its successors reached,
/// within `h + 1` steps, the next level is reached too.
pub proof fn lemma_levels_next(
    k: KripkeStruct,
    start: usize,
    a: Set<usize>,
    b: Set<usize>,
    dist: Map<usize, nat>,
    h: nat,
)
    requires
        levels_reached(k, start, a, b, dist, h),
        forall|u: usize, t: usize| #[trigger] k.edge(u, t) && dist.contains_key(u) && dist[u] <= h && a.contains(u) ==> dist.contains_key(t),
        forall|u: usize| #[trigger] dist.contains_key(u) ==> dist[u] <= h + 1,
    ensures
        levels_reached(k, start, a, b, dist, h + 1),
{
    assert forall|r: Seq<usize>|
        #[trigger] is_finite_path(k, r) && r.len() >= 1 && r[0] == start && r.len() - 1 <= h + 1 && (
        forall|i: int| 0 <= i < r.len() ==> a.contains(r[i]) && !b.contains(r[i])) implies dist.contains_key(
            r.last(),
        ) && dist[r.last()] <= r.len() - 1 by {
        if r.len() - 1 == h + 1 {
            let r2 = r.drop_last();
            assert forall|i: int| 0 <= i < r2.len() - 1 implies #[trigger] k.edge(r2[i], r2[i + 1]) by {
                assert(k.edge(r[i], r[i + 1]));
            }
            assert forall|i: int| 0 <= i < r2.len() implies a.contains(r2[i]) && !b.contains(r2[i]) by {
                assert(r2[i] == r[i]);
            }
            assert(is_finite_path(k, r2));
            assert(dist.contains_key(r2.last()));
            let j = r.len() - 2;
            assert(k.edge(r[j], r[j + 1]));
            assert(r2.last() == r[j]);
        }
    }
}

/// A breadth-first search from `start` that has expanded every state of `a`
/// below level `h` without meeting `b` finds no path of fewer than `h + 1`
/// steps that passes through `a` and ends in `b`.
pub proof fn lemma_bfs_depth(
    k: KripkeStruct,
    start: usize,
    a: Set<usize>,
    b: Set<usize>,
    seen: Set<usize>,
    dist: Map<usize, nat>,
    h: nat,
    q: Seq<usize>,
)
    requires
        levels_reached(k, start, a, b, dist, h),
        forall|u: usize, t: usize| #[trigger] k.edge(u, t) && dist.contains_key(u) && dist[u] < h && a.contains(u) ==> seen.contains(t),
        forall|u: usize| #[trigger] seen.contains(u) ==> !b.contains(u),
        seen.contains(start),
        is_finite_path(k, q),
        q.len() >= 1,
        q[0] == start,
        b.contains(q.last()),
        forall|i: int| 0 <= i < q.len() - 1 ==> a.contains(#[trigger] q[i]),
    ensures
        q.len() >= h + 2,
    decreases q.len(),
{
    if exists|j: int| 0 <= j < q.len() - 1 && b.contains(q[j]) {
        let j = choose|j: int| 0 <= j < q.len() - 1 && b.contains(q[j]);
        let q2 = q.take(j + 1);
        assert forall|i: int| 0 <= i < q2.len() - 1 implies #[trigger] k.edge(q2[i], q2[i + 1]) by {
            assert(k.edge(q[i], q[i + 1]));
        }
        assert forall|i: int| 0 <= i < q2.len() - 1 implies a.contains(#[trigger] q2[i]) by {
            assert(q2[i] == q[i]);
        }
        lemma_bfs_depth(k, start, a, b, seen, dist, h, q2);
    } else {
        if q.len() == 1 {
            assert(b.contains(start));
        }
        let r = q.drop_last();
        assert forall|i: int| 0 <= i < r.len() - 1 implies #[trigger] k.edge(r[i], r[i + 1]) by {
            assert(k.edge(q[i], q[i + 1]));
        }
        assert forall|i: int| 0 <= i < r.len() implies a.contains(r[i]) && !b.contains(r[i]) by {
            assert(r[i] == q[i]);
            assert(a.contains(q[i]));
        }
        if r.len() - 1 < h {
            assert(is_finite_path(k, r));
            assert(dist.contains_key(r.last()) && dist[r.last()] <= r.len() - 1);
            let j = q.len() - 2;
            assert(k.edge(q[j], q[j + 1]));
            assert(r.last() == q[j]);
            assert(seen.contains(q.last()));
        }
    }
}

/// A breadth-first search from `start` that has dequeued every state below
/// level `h` and found none in `b` finds no path into `b` of fewer than `h`
/// steps.
pub proof fn lemma_bfs_first_hit(
    k: KripkeStruct,
    start: usize,
    b: Set<usize>,
    dist: Map<usize, nat>,
    h: nat,
    q: Seq<usize>,
)
    requires
        levels_reached(k, start, Set::full(), Set::empty(), dist, h),
        forall|u: usize| #[trigger] dist.contains_key(u) && dist[u] < h ==> !b.contains(u),
        is_finite_path(k, q),
        q.len() >= 1,
        q[0] == start,
        b.contains(q.last()),
    ensures
        q.len() >= h + 1,
{
    if q.len() < h + 1 {
        assert(forall|i: int| 0 <= i < q.len() ==> Set::<usize>::full().contains(q[i]) && !Set::<usize>::empty().contains(q[i]));
        assert(dist.contains_key(q.last()) && dist[q.last()] <= q.len() - 1);
    }
}

/// `tp` gives each state that `dist` reaches its path from `start` along the
/// parent links: `start` alone for `start`, else the parent's path extended.
pub open spec fn tree_links(
    parent: Map<usize, usize>,
    tp: Map<usize, Seq<usize>>,
    dist: Map<usize, nat>,
    start: usize,
) -> bool {
    &&& tp.contains_key(start)
    &&& tp[start] == seq![start]
    &&& forall|v: usize| #[trigger]
        dist.contains_key(v) ==> tp.contains_key(v) && tp[v].len() == dist[v] + 1 && tp[v][0] == start
            && tp[v].last() == v
    &&& forall|v: usize| #[trigger] dist.contains_key(v) && v != start ==> tp[v] == tp[parent[v]].push(v)
}

/// `p` goes before every other path from `start` to `v` of its length that
/// avoids `b` and passes only through `a` before `v`.
pub open spec fn first_path_to(k: KripkeStruct, start: usize, a: Set<usize>, b: Set<usize>, p: Seq<usize>, v: usize) -> bool {
    forall|q: Seq<usize>|
        #[trigger] is_finite_path(k, q) && q.len() == p.len() && q[0] == start && q.last() == v && (forall|i: int|
            0 <= i < q.len() ==> !b.contains(q[i])) && (forall|i: int| 0 <= i < q.len() - 1 ==> a.contains(q[i]))
            && q != p ==> goes_before(k, p, q)
}

/// The path `start` alone goes first among the paths of one state.
pub proof fn lemma_first_path_start(k: KripkeStruct, start: usize, a: Set<usize>, b: Set<usize>)
    ensures
        first_path_to(k, start, a, b, seq![start], start),
{
    assert forall|q: Seq<usize>|
        #[trigger] is_finite_path(k, q) && q.len() == 1 && q[0] == start && q.last() == start && (forall|i: int|
            0 <= i < q.len() ==> !b.contains(q[i])) && (forall|i: int| 0 <= i < q.len() - 1 ==> a.contains(q[i]))
            && q != seq![start] implies goes_before(k, seq![start], q) by {
        assert(q =~= seq![start]);
    }
}

/// What a breadth-first search knows when it expands `current`, the first
/// state of the queue, at level `h`: the levels up to `h` are reached, every
/// state of `a` that has left the queue has all its successors reached, the
/// queue holds no state below level `h`, and the tree path of `current` goes
/// before that of every other state of its level still queued.
pub open spec fn expanding(
    k: KripkeStruct,
    start: usize,
    a: Set<usize>,
    b: Set<usize>,
    dist: Map<usize, nat>,
    tp: Map<usize, Seq<usize>>,
    queue: Seq<usize>,
    current: usize,
    h: nat,
) -> bool {
    &&& levels_reached(k, start, a, b, dist, h)
    &&& forall|v: usize| #[trigger] dist.contains_key(v) ==> first_path_to(k, start, a, b, tp[v], v)
    &&& forall|v: usize| #[trigger] dist.contains_key(v) ==> tp[v].len() == dist[v] + 1
    &&& dist.contains_key(current)
    &&& dist[current] == h
    &&& queue.len() >= 1
    &&& queue[0] == current
    &&& forall|u: usize, t: usize| #[trigger]
        k.edge(u, t) && dist.contains_key(u) && !queue.contains(u) && a.contains(u) ==> dist.contains_key(t)
    &&& forall|w: usize| #[trigger] queue.contains(w) ==> dist.contains_key(w) && dist[w] >= h
    &&& forall|w: usize| #[trigger]
        queue.contains(w) && w != current && dist[w] == h ==> goes_before(k, tp[current], tp[w])
}

/// A state first reached from `current` gets, as its tree path, the path of
/// `current` extended by it, and that path goes first among its length.
pub proof fn lemma_new_tree_path(
    k: KripkeStruct,
    start: usize,
    a: Set<usize>,
    b: Set<usize>,
    dist: Map<usize, nat>,
    tp: Map<usize, Seq<usize>>,
    queue: Seq<usize>,
    current: usize,
    h: nat,
    v: usize,
)
    requires
        expanding(k, start, a, b, dist, tp, queue, current, h),
        k.edge(current, v),
        !dist.contains_key(v),
    ensures
        first_path_to(k, start, a, b, tp[current].push(v), v),
{
    let p = tp[current].push(v);
    assert forall|q: Seq<usize>|
        #[trigger] is_finite_path(k, q) && q.len() == p.len() && q[0] == start && q.last() == v && (forall|i: int|
            0 <= i < q.len() ==> !b.contains(q[i])) && (forall|i: int| 0 <= i < q.len() - 1 ==> a.contains(q[i]))
            && q != p implies goes_before(k, p, q) by {
        let r = q.drop_last();
        let u = r.last();
        assert forall|i: int| 0 <= i < r.len() - 1 implies #[trigger] k.edge(r[i], r[i + 1]) by {
            assert(k.edge(q[i], q[i + 1]));
        }
        assert forall|i: int| 0 <= i < r.len() implies a.contains(r[i]) && !b.contains(r[i]) by {
            assert(r[i] == q[i]);
        }
        assert(is_finite_path(k, r));
        assert(dist.contains_key(u) && dist[u] <= h);
        let j = q.len() - 2;
        assert(k.edge(q[j], q[j + 1]));
        assert(u == q[j]);
        assert(a.contains(u));
        if !queue.contains(u) {
            assert(dist.contains_key(v));
        }
        assert(dist[u] == h);
        assert(r.len() == tp[u].len());
        assert forall|i: int| 0 <= i < r.len() - 1 implies a.contains(r[i]) by {}
        assert(r == tp[u] || goes_before(k, tp[u], r)) by {
            assert(first_path_to(k, start, a, b, tp[u], u));
        }
        if u == current {
            if r == tp[current] {
                assert(q =~= p);
            }
        } else {
            assert(goes_before(k, tp[current], tp[u]));
            if r != tp[u] {
                lemma_goes_before_trans(k, tp[current], tp[u], r);
            }
        }
        lemma_goes_before_push(k, tp[current], r, v, v);
        assert(r.push(v) =~= q);
    }
}

/// The first state of `b` that a breadth-first search meets while expanding
/// `current`: where no successor listed before it is in `b`, the tree path to
/// it goes first among the paths of its length into `b`.
pub proof fn lemma_first_goal(
    k: KripkeStruct,
    start: usize,
    a: Set<usize>,
    b: Set<usize>,
    dist: Map<usize, nat>,
    tp: Map<usize, Seq<usize>>,
    queue: Seq<usize>,
    current: usize,
    h: nat,
    v: usize,
)
    requires
        expanding(k, start, a, b, dist, tp, queue, current, h),
        a.contains(current),
        k.edge(current, v),
        b.contains(v),
        forall|u: usize| #[trigger] dist.contains_key(u) ==> !b.contains(u),
        dist.contains_key(start),
        forall|t: usize|
            #[trigger] position(k.succ(current), t) < position(k.succ(current), v) ==> !b.contains(t),
    ensures
        first_of_length(k, start, a, b, tp[current].push(v)),
{
    let p = tp[current].push(v);
    assert forall|q: Seq<usize>|
        #[trigger] is_finite_path(k, q) && q.len() == p.len() && q[0] == start && b.contains(q.last()) && (
        forall|i: int| 0 <= i < q.len() - 1 ==> a.contains(q[i])) && q != p implies goes_before(k, p, q) by {
        // No state of `q` before its last is in `b`: it would give a shorter path.
        assert forall|i: int| 0 <= i < q.len() - 1 implies !b.contains(q[i]) by {
            if b.contains(q[i]) {
                let q2 = q.take(i + 1);
                assert forall|i2: int| 0 <= i2 < q2.len() - 1 implies #[trigger] k.edge(q2[i2], q2[i2 + 1]) by {
                    assert(k.edge(q[i2], q[i2 + 1]));
                }
                assert forall|i2: int| 0 <= i2 < q2.len() - 1 implies a.contains(#[trigger] q2[i2]) by {
                    assert(q2[i2] == q[i2]);
                }
                assert forall|u: usize, t: usize| #[trigger] k.edge(u, t) && dist.contains_key(u) && dist[u] < h && a.contains(u)
                    implies dist.contains_key(t) by {
                    assert(!queue.contains(u));
                }
                lemma_bfs_depth(k, start, a, b, dist.dom(), dist, h, q2);
            }
        }
        let r = q.drop_last();
        let u = r.last();
        let t = q.last();
        assert forall|i: int| 0 <= i < r.len() - 1 implies #[trigger] k.edge(r[i], r[i + 1]) by {
            assert(k.edge(q[i], q[i + 1]));
        }
        assert forall|i: int| 0 <= i < r.len() implies a.contains(r[i]) && !b.contains(r[i]) by {
            assert(r[i] == q[i]);
        }
        assert(is_finite_path(k, r));
        assert(dist.contains_key(u) && dist[u] <= h);
        let j = q.len() - 2;
        assert(k.edge(q[j], q[j + 1]));
        assert(u == q[j]);
        assert(a.contains(u));
        if !queue.contains(u) {
            assert(dist.contains_key(t));
        }
        assert(dist[u] == h);
        assert(r.len() == tp[u].len());
        assert(r == tp[u] || goes_before(k, tp[u], r)) by {
            assert(first_path_to(k, start, a, b, tp[u], u));
        }
        if u == current && r == tp[current] {
            assert(t != v) by {
                if t == v {
                    assert(q =~= p);
                }
            }
            lemma_position(k.succ(current), t);
            lemma_position(k.succ(current), v);
            assert(k.succ(current).contains(t));
            assert(k.succ(current).contains(v));
            if position(k.succ(current), t) < position(k.succ(current), v) {
                assert(!b.contains(t));
            }
            lemma_goes_before_step(k, tp[current], v, t);
            assert(tp[current].push(t) =~= q);
        } else {
            if u != current {
                assert(goes_before(k, tp[current], tp[u]));
                if r != tp[u] {
                    lemma_goes_before_trans(k, tp[current], tp[u], r);
                }
            }
            lemma_goes_before_push(k, tp[current], r, v, t);
            assert(r.push(t) =~= q);
        }
    }
}

/// The first state of `b` that a breadth-first search from `start` over all
/// paths takes from its queue: where no state that has left the queue is in
/// `b`, its tree path goes first among the paths of its length into `b`.
pub proof fn lemma_first_dequeued(
    k: KripkeStruct,
    start: usize,
    b: Set<usize>,
    dist: Map<usize, nat>,
    tp: Map<usize, Seq<usize>>,
    queue: Seq<usize>,
    current: usize,
    h: nat,
)
    requires
        expanding(k, start, Set::full(), Set::empty(), dist, tp, queue, current, h),
        b.contains(current),
        forall|u: usize| #[trigger] dist.contains_key(u) && !queue.contains(u) ==> !b.contains(u),
    ensures
        first_of_length(k, start, Set::full(), b, tp[current]),
{
    let p = tp[current];
    assert forall|q: Seq<usize>|
        #[trigger] is_finite_path(k, q) && q.len() == p.len() && q[0] == start && b.contains(q.last()) && (
        forall|i: int| 0 <= i < q.len() - 1 ==> Set::<usize>::full().contains(q[i])) && q != p implies goes_before(k, p, q) by {
        let g = q.last();
        assert(forall|i: int| 0 <= i < q.len() ==> Set::<usize>::full().contains(q[i]) && !Set::<usize>::empty().contains(q[i]));
        assert(dist.contains_key(g) && dist[g] <= h);
        assert(queue.contains(g));
        assert(dist[g] == h);
        assert(first_path_to(k, start, Set::full(), Set::empty(), tp[g], g));
        assert(forall|i: int| 0 <= i < q.len() ==> !Set::<usize>::empty().contains(q[i]));
        assert(forall|i: int| 0 <= i < q.len() - 1 ==> Set::<usize>::full().contains(q[i]));
        assert(q == tp[g] || goes_before(k, tp[g], q));
        if g != current {
            assert(goes_before(k, tp[current], tp[g]));
            if q != tp[g] {
                lemma_goes_before_trans(k, tp[current], tp[g], q);
            }
        }
    }
}

/// Taking `current`, the first state, off a breadth-first queue at level `h`:
/// the rest keeps its order, and `current` goes before every state of its
/// level still queued and after every one that left the queue earlier.
pub proof fn lemma_pop_order(
    k: KripkeStruct,
    start: usize,
    parent: Map<usize, usize>,
    dist: Map<usize, nat>,
    tp: Map<usize, Seq<usize>>,
    queue_at_head: Seq<usize>,
    queue: Seq<usize>,
    current: usize,
    h: nat,
)
    requires
        queue_at_head.len() >= 1,
        queue_at_head[0] == current,
        queue == queue_at_head.subrange(1, queue_at_head.len() as int),
        dist.contains_key(current),
        dist[current] == h,
        queue_at_head.no_duplicates(),
        forall|i: int| 0 <= i < queue_at_head.len() ==> dist.contains_key(#[trigger] queue_at_head[i]),
        forall|i: int, j: int|
            0 <= i <= j < queue_at_head.len() ==> dist[queue_at_head[i]] <= dist[queue_at_head[j]],
        forall|i: int, j: int|
            0 <= i < j < queue_at_head.len() ==> dist[queue_at_head[i]] < dist[queue_at_head[j]] || goes_before(
                k,
                tp[queue_at_head[i]],
                tp[queue_at_head[j]],
            ),
        forall|u: usize, w: usize| #![trigger dist.contains_key(u), queue_at_head.contains(w)]
            dist.contains_key(u) && !queue_at_head.contains(u) && queue_at_head.contains(w) && dist[u] == dist[w]
                ==> goes_before(k, tp[u], tp[w]),
        forall|w: usize| #[trigger] dist.contains_key(w) && w != start ==> !queue_at_head.contains(parent[w]),
        forall|u: usize| #[trigger] dist.contains_key(u) && dist[u] > h ==> queue_at_head.contains(u),
    ensures
        !queue.contains(current),
        queue.no_duplicates(),
        forall|i: int, j: int|
            0 <= i < j < queue.len() ==> dist[queue[i]] < dist[queue[j]] || goes_before(k, tp[queue[i]], tp[queue[j]]),
        forall|u: usize, w: usize| #![trigger dist.contains_key(u), queue.contains(w)]
            dist.contains_key(u) && !queue.contains(u) && queue.contains(w) && dist[u] == dist[w] ==> goes_before(
                k,
                tp[u],
                tp[w],
            ),
        forall|w: usize| #[trigger] dist.contains_key(w) && w != start ==> !queue.contains(parent[w]),
        forall|u: usize| #[trigger] dist.contains_key(u) && dist[u] == h + 1 ==> queue.contains(u),
        forall|w: usize| #[trigger] queue_at_head.contains(w) ==> dist.contains_key(w) && dist[w] >= h,
        forall|w: usize| #[trigger]
            queue_at_head.contains(w) && w != current && dist[w] == h ==> goes_before(k, tp[current], tp[w]),
        forall|u: usize|
            dist.contains_key(u) && !queue_at_head.contains(u) && dist[u] == h ==> goes_before(k, tp[u], tp[current]),
{
    assert forall|w: usize| #[trigger] queue_at_head.contains(w) implies dist.contains_key(w) && dist[w] >= h by {
        let i = choose|i: int| 0 <= i < queue_at_head.len() && queue_at_head[i] == w;
        assert(dist[queue_at_head[0]] <= dist[queue_at_head[i]]);
    }
    assert forall|w: usize| #[trigger] queue_at_head.contains(w) && w != current && dist[w] == h implies goes_before(
        k,
        tp[current],
        tp[w],
    ) by {
        let i = choose|i: int| 0 <= i < queue_at_head.len() && queue_at_head[i] == w;
        assert(i != 0);
    }
    assert(!queue.contains(current)) by {
        if queue.contains(current) {
            let i = choose|i: int| 0 <= i < queue.len() && queue[i] == current;
            assert(queue_at_head[i + 1] == current);
        }
    }
    assert forall|i: int, j: int| 0 <= i < j < queue.len() implies queue[i] != queue[j] by {
        assert(queue[i] == queue_at_head[i + 1]);
        assert(queue[j] == queue_at_head[j + 1]);
    }
    assert forall|i: int, j: int| 0 <= i < j < queue.len() implies dist[queue[i]] < dist[queue[j]] || goes_before(
        k,
        tp[queue[i]],
        tp[queue[j]],
    ) by {
        assert(queue[i] == queue_at_head[i + 1]);
        assert(queue[j] == queue_at_head[j + 1]);
    }
    assert forall|u: usize, w: usize| #![trigger dist.contains_key(u), queue.contains(w)]
        dist.contains_key(u) && !queue.contains(u) && queue.contains(w) && dist[u] == dist[w] implies goes_before(
        k,
        tp[u],
        tp[w],
    ) by {
        let i = choose|i: int| 0 <= i < queue.len() && queue[i] == w;
        assert(queue_at_head[i + 1] == w);
        assert(queue_at_head.contains(w));
        if u != current {
            if queue_at_head.contains(u) {
                let i2 = choose|i2: int| 0 <= i2 < queue_at_head.len() && queue_at_head[i2] == u;
                assert(i2 != 0);
                assert(queue[i2 - 1] == u);
            }
        }
    }
    assert forall|u: usize| dist.contains_key(u) && !queue_at_head.contains(u) && dist[u] == h implies goes_before(
        k,
        tp[u],
        tp[current],
    ) by {
        assert(queue_at_head.contains(current));
    }
    assert forall|w: usize| #[trigger] dist.contains_key(w) && w != start implies !queue.contains(parent[w]) by {
        if queue.contains(parent[w]) {
            let i = choose|i: int| 0 <= i < queue.len() && queue[i] == parent[w];
            assert(queue_at_head[i + 1] == parent[w]);
        }
    }
    assert forall|u: usize| #[trigger] dist.contains_key(u) && dist[u] == h + 1 implies queue.contains(u) by {
        assert(queue_at_head.contains(u));
        let i = choose|i: int| 0 <= i < queue_at_head.len() && queue_at_head[i] == u;
        assert(i != 0);
        assert(queue[i - 1] == u);
    }
}

/// The parent links of a search tree rooted at `start`: every node other than
/// the root has a parent, one step closer to the root by `dist`, with a
/// transition to it; every parent lies in `inner`.
pub open spec fn parent_links(
    k: KripkeStruct,
    parent: Map<usize, usize>,
    dist: Map<usize, nat>,
    start: usize,
    inner: Set<usize>,
) -> bool {
    &&& dist.contains_key(start)
    &&& dist[start] == 0
    &&& !parent.contains_key(start)
    &&& forall|v: usize| #[trigger]
        dist.contains_key(v) && v != start ==> parent.contains_key(v) && dist.contains_key(
            parent[v],
        ) && dist[parent[v]] + 1 == dist[v] && k.edge(parent[v], v) && inner.contains(parent[v])
}

/// The path from `start` to `end` along the parent links.
pub(crate) fn trace_back(
    parent: &HashMap<usize, usize>,
    start: usize,
    end: usize,
    Ghost(k): Ghost<KripkeStruct>,
    Ghost(dist): Ghost<Map<usize, nat>>,
    Ghost(inner): Ghost<Set<usize>>,
    Ghost(tp): Ghost<Map<usize, Seq<usize>>>,
) -> (path: Vec<usize>)
    requires
        parent_links(k, parent@, dist, start, inner),
        tree_links(parent@, tp, dist, start),
        dist.contains_key(end),
    ensures
        path@ == tp[end],
        path@.len() == dist[end] + 1,
        path@[0] == start,
        path@.last() == end,
        is_finite_path(k, path@),
        forall|i: int| 0 <= i < path@.len() - 1 ==> inner.contains(#[trigger] path@[i]),
{
    let mut back: Vec<usize> = Vec::new();
    back.push(end);
    let mut last = end;
    loop
        invariant
            parent_links(k, parent@, dist, start, inner),
            back@.len() >= 1,
            back@[0] == end,
            last == back@.last(),
            dist.contains_key(last),
            back@.len() + dist[last] == dist[end] + 1,
            forall|i: int| 0 <= i < back@.len() - 1 ==> #[trigger] k.edge(back@[i + 1], back@[i]),
            forall|i: int| 1 <= i < back@.len() ==> inner.contains(#[trigger] back@[i]),
            tree_links(parent@, tp, dist, start),
            tp[last] == tp[end].take(tp[last].len() as int),
            tp[last].len() + back@.len() == tp[end].len() + 1,
            forall|i: int| 0 <= i < back@.len() ==> #[trigger] back@[i] == tp[end][tp[end].len() - 1 - i],
        ensures
            back@.len() == tp[end].len(),
            forall|i: int| 0 <= i < back@.len() ==> #[trigger] back@[i] == tp[end][tp[end].len() - 1 - i],
            back@.len() == dist[end] + 1,
            back@[0] == end,
            back@.last() == start,
            forall|i: int| 0 <= i < back@.len() - 1 ==> #[trigger] k.edge(back@[i + 1], back@[i]),
            forall|i: int| 1 <= i < back@.len() ==> inner.contains(#[trigger] back@[i]),
        decreases dist[last],
    {
        match parent.get(&last) {
            Some(p) => {
                let p = *p;
                proof {
                    let tl = tp[last];
                    assert(tl == tp[p].push(last));
                    assert(tp[p] =~= tp[end].take(tp[p].len() as int)) by {
                        assert forall|i: int| 0 <= i < tp[p].len() implies tp[p][i] == tp[end].take(tp[p].len() as int)[i] by {
                            assert(tp[p][i] == tl[i]);
                            assert(tl[i] == tp[end].take(tl.len() as int)[i]);
                        }
                    }
                    assert(p == tl[tl.len() - 2]);
                    assert(tl[tl.len() - 2] == tp[end].take(tl.len() as int)[tl.len() - 2]);
                }
                let ghost old_back = back@;
                back.push(p);
                proof {
                    assert forall|i: int| 0 <= i < back@.len() implies #[trigger] back@[i] == tp[end][tp[end].len() - 1 - i] by {
                        if i < old_back.len() {
                            assert(back@[i] == old_back[i]);
                        }
                    }
                }
                last = p;
            },
            None => {
                proof {
                    assert(last == start);
                    assert(tp[start].len() == 1);
                }
                break;
            },
        }
    }
    let mut path: Vec<usize> = Vec::new();
    let mut j: usize = back.len();
    while j > 0
        invariant
            j <= back@.len(),
            back@.len() >= 1,
            path@.len() == back@.len() - j,
            forall|i: int| 0 <= i < path@.len() ==> #[trigger] path@[i] == back@[back@.len() - 1 - i],
        decreases j,
    {
        j -= 1;
        path.push(back[j]);
    }
    proof {
        assert forall|i: int| 0 <= i < path@.len() implies path@[i] == tp[end][i] by {
            assert(path@[i] == back@[back@.len() - 1 - i]);
        }
        assert(path@ =~= tp[end]);
        assert forall|i: int| 0 <= i < path@.len() - 1 implies #[trigger] k.edge(path@[i], path@[i + 1]) by {
            let b = back@.len() - 2 - i;
            assert(k.edge(back@[b + 1], back@[b]));
        }
        assert forall|i: int| 0 <= i < path@.len() - 1 implies inner.contains(#[trigger] path@[i]) by {
            assert(path@[i] == back@[back@.len() - 1 - i]);
        }
    }
    path
}

} // verus!
