//! Sets of state indices: the finite sets `0..n` and the executable set
//! operations the checker needs on `HashSet<usize>`.
use std::collections::HashSet;
use vstd::prelude::*;
use vstd::std_specs::iter::IteratorSpec;

verus! {

broadcast use vstd::std_specs::hash::group_hash_axioms;

/// The states `0..n`.
pub open spec fn state_range(n: nat) -> Set<usize> {
    Set::new(|s: usize| s < n)
}

/// `0..n` is finite and has `n` elements (for `n` a possible `usize` count).
pub proof fn lemma_state_range(n: nat)
    requires
        n <= usize::MAX,
    ensures
        state_range(n).finite(),
        state_range(n).len() == n,
    decreases n,
{
    if n == 0 {
        assert(state_range(0) =~= Set::empty());
    } else {
        let m = (n - 1) as nat;
        lemma_state_range(m);
        assert(state_range(n) =~= state_range(m).insert(m as usize));
    }
}

/// A subset of `0..n` is finite and has at most `n` elements.
pub proof fn lemma_subset_of_range(a: Set<usize>, n: nat)
    requires
        n <= usize::MAX,
        a.subset_of(state_range(n)),
    ensures
        a.finite(),
        a.len() <= n,
{
    lemma_state_range(n);
    vstd::set_lib::lemma_len_subset(a, state_range(n));
}

/// The view of a hash set is finite.
pub proof fn lemma_hash_set_finite(a: &HashSet<usize>)
    ensures
        a@.finite(),
{
    let keys = vstd::std_specs::hash::spec_hash_keys_iter(a).remaining().unref();
    vstd::seq_lib::seq_to_set_is_finite(keys);
}

/// A fresh copy of a set of states.
pub fn copy_set(a: &HashSet<usize>) -> (r: HashSet<usize>)
    ensures
        r@ == a@,
{
    let mut r: HashSet<usize> = HashSet::new();
    let ghost keys = a.iter().remaining().unref();
    let ghost mut done: int = 0;
    for x in it: a.iter()
        invariant
            it.seq().unref() == keys,
            keys.to_set() == a@,
            done == it.index(),
            r@ == keys.take(done).to_set(),
    {
        assert(keys.take(done + 1) == keys.take(done).push(*x));
        r.insert(*x);
        proof {
            keys.take(done).lemma_push_to_set_commute(*x);
            done = done + 1;
        }
    }
    assert(keys.take(done) == keys);
    r
}

/// Adds every element of `b` to `a`; reports whether `a` grew.
pub fn insert_all(a: &mut HashSet<usize>, b: &HashSet<usize>) -> (grew: bool)
    ensures
        final(a)@ == old(a)@.union(b@),
        grew == !b@.subset_of(old(a)@),
{
    let ghost start = a@;
    let mut grew = false;
    let ghost keys = b.iter().remaining().unref();
    let ghost mut done: int = 0;
    for x in it: b.iter()
        invariant
            it.seq().unref() == keys,
            keys.to_set() == b@,
            done == it.index(),
            0 <= done <= keys.len(),
            a@ == start.union(keys.take(done).to_set()),
            grew == !keys.take(done).to_set().subset_of(start),
    {
        assert(keys.take(done + 1) == keys.take(done).push(*x));
        let fresh = a.insert(*x);
        proof {
            keys.take(done).lemma_push_to_set_commute(*x);
            assert(a@ =~= start.union(keys.take(done + 1).to_set()));
            if fresh {
                assert(!start.contains(*x));
            }
            done = done + 1;
        }
        if fresh {
            grew = true;
        }
    }
    assert(keys.take(done) == keys);
    grew
}

/// `a ∪ b`.
pub fn set_union(a: &HashSet<usize>, b: &HashSet<usize>) -> (r: HashSet<usize>)
    ensures
        r@ == a@.union(b@),
{
    let mut r = copy_set(a);
    insert_all(&mut r, b);
    r
}

/// The elements of `a` that `keep` contains: `a ∩ keep`.
pub fn set_intersect(a: &HashSet<usize>, keep: &HashSet<usize>) -> (r: HashSet<usize>)
    ensures
        r@ == a@.intersect(keep@),
{
    let mut r: HashSet<usize> = HashSet::new();
    let ghost keys = a.iter().remaining().unref();
    let ghost mut done: int = 0;
    for x in it: a.iter()
        invariant
            it.seq().unref() == keys,
            keys.to_set() == a@,
            done == it.index(),
            r@ == keys.take(done).to_set().intersect(keep@),
    {
        assert(keys.take(done + 1) == keys.take(done).push(*x));
        proof {
            keys.take(done).lemma_push_to_set_commute(*x);
        }
        if keep.contains(x) {
            r.insert(*x);
        }
        proof {
            assert(r@ =~= keys.take(done + 1).to_set().intersect(keep@));
            done = done + 1;
        }
    }
    assert(keys.take(done) == keys);
    r
}

/// The states `0..n` that `a` does not contain.
pub fn range_minus(n: usize, a: &HashSet<usize>) -> (r: HashSet<usize>)
    ensures
        r@ == state_range(n as nat).difference(a@),
{
    let mut r: HashSet<usize> = HashSet::new();
    for i in 0..n
        invariant
            r@ == state_range(i as nat).difference(a@),
    {
        if !a.contains(&i) {
            r.insert(i);
        }
        assert(r@ =~= state_range((i + 1) as nat).difference(a@));
    }
    r
}

/// Whether two sets of states hold the same elements.
pub fn same_states(a: &HashSet<usize>, b: &HashSet<usize>) -> (r: bool)
    ensures
        r == (a@ == b@),
{
    proof {
        lemma_hash_set_finite(a);
        lemma_hash_set_finite(b);
    }
    if a.len() != b.len() {
        return false;
    }
    let ghost keys = a.iter().remaining().unref();
    let ghost mut done: int = 0;
    for x in it: a.iter()
        invariant
            it.seq().unref() == keys,
            keys.to_set() == a@,
            done == it.index(),
            0 <= done <= keys.len(),
            a@.finite(),
            b@.finite(),
            a@.len() == b@.len(),
            forall|j: int| 0 <= j < done ==> b@.contains(#[trigger] keys[j]),
    {
        if !b.contains(x) {
            proof {
                assert(keys[done] == *x);
            }
            return false;
        }
        proof {
            done = done + 1;
        }
    }
    proof {
        assert forall|s: usize| a@.contains(s) implies b@.contains(s) by {
            assert(keys.contains(s));
            let j = choose|j: int| 0 <= j < keys.len() && keys[j] == s;
            assert(b@.contains(keys[j]));
        }
        vstd::set_lib::lemma_subset_equality(a@, b@);
    }
    true
}

/// Whether the list holds `x`.
pub fn slice_contains(v: &[usize], x: usize) -> (r: bool)
    ensures
        r == v@.contains(x),
{
    let mut i: usize = 0;
    while i < v.len()
        invariant
            i <= v@.len(),
            forall|j: int| 0 <= j < i ==> v@[j] != x,
        decreases v@.len() - i,
    {
        if v[i] == x {
            return true;
        }
        i += 1;
    }
    false
}

/// Whether every element of the list lies in `set`.
pub fn all_in(v: &[usize], set: &HashSet<usize>) -> (r: bool)
    ensures
        r == (forall|j: int| 0 <= j < v@.len() ==> set@.contains(#[trigger] v@[j])),
{
    let mut i: usize = 0;
    while i < v.len()
        invariant
            i <= v@.len(),
            forall|j: int| 0 <= j < i ==> set@.contains(#[trigger] v@[j]),
        decreases v@.len() - i,
    {
        if !set.contains(&v[i]) {
            return false;
        }
        i += 1;
    }
    true
}

/// Whether some element of the list lies in `set`.
pub fn any_in(v: &[usize], set: &HashSet<usize>) -> (r: bool)
    ensures
        r == (exists|j: int| 0 <= j < v@.len() && set@.contains(#[trigger] v@[j])),
{
    let mut i: usize = 0;
    while i < v.len()
        invariant
            i <= v@.len(),
            forall|j: int| 0 <= j < i ==> !set@.contains(#[trigger] v@[j]),
        decreases v@.len() - i,
    {
        if set.contains(&v[i]) {
            return true;
        }
        i += 1;
    }
    false
}

} // verus!
