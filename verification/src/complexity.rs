//! Fixpoint iteration counts per CTL operator, and their report.
use vstd::prelude::*;
use vstd::string::StringExecFns;

use crate::text::{decimal, decimal_text};

verus! {

/// Operator names with their iteration counts, one count per occurrence, in
/// the order in which the operators were first recorded.
pub type Entries = Seq<(Seq<char>, Seq<u64>)>;

/// No operator name occurs twice.
pub open spec fn distinct_names(e: Entries) -> bool {
    forall|i: int, j: int| 0 <= i < e.len() && 0 <= j < e.len() && i != j ==> e[i].0 != e[j].0
}

/// The entry of `op` is at index `i`.
pub open spec fn entry_of(e: Entries, op: Seq<char>, i: int) -> bool {
    0 <= i < e.len() && e[i].0 == op
}

/// Every operator has at least one recorded count.
pub open spec fn counts_nonempty(e: Entries) -> bool {
    forall|i: int| 0 <= i < e.len() ==> #[trigger] e[i].1.len() > 0
}

/// The iteration counts recorded for `op` (none if it was never recorded).
pub open spec fn counts_for(e: Entries, op: Seq<char>) -> Seq<u64> {
    if exists|i: int| entry_of(e, op, i) {
        e[choose|i: int| entry_of(e, op, i)].1
    } else {
        seq![]
    }
}

/// `e` after recording `count` iterations for `op`: appended to the counts of
/// `op`, or as a new last entry where `op` has none.
pub open spec fn recorded(e: Entries, op: Seq<char>, count: u64) -> Entries {
    if exists|i: int| entry_of(e, op, i) {
        let i = choose|i: int| entry_of(e, op, i);
        e.update(i, (op, e[i].1.push(count)))
    } else {
        e.push((op, seq![count]))
    }
}

/// `e` after recording `counts[i]` for `ops[i]`, in order.
pub open spec fn recorded_all(e: Entries, ops: Seq<Seq<char>>, counts: Seq<u64>) -> Entries
    decreases ops.len(),
{
    if ops.len() == 0 || counts.len() == 0 {
        e
    } else {
        recorded(
            recorded_all(e, ops.drop_last(), counts.drop_last()),
            ops.last(),
            counts.last(),
        )
    }
}

/// The sum of a list of counts.
pub open spec fn sum_of(s: Seq<u64>) -> nat
    decreases s.len(),
{
    if s.len() == 0 {
        0
    } else {
        sum_of(s.drop_last()) + (s.last() as nat)
    }
}

/// The largest of a list of counts, 0 for none.
pub open spec fn max_of(s: Seq<u64>) -> nat
    decreases s.len(),
{
    if s.len() == 0 {
        0
    } else if max_of(s.drop_last()) >= s.last() {
        max_of(s.drop_last())
    } else {
        s.last() as nat
    }
}

/// The sum of all counts.
pub open spec fn total_of(e: Entries) -> nat
    decreases e.len(),
{
    if e.len() == 0 {
        0
    } else {
        total_of(e.drop_last()) + sum_of(e.last().1)
    }
}

/// The largest count of any occurrence, 0 for none.
pub open spec fn max_all(e: Entries) -> nat
    decreases e.len(),
{
    if e.len() == 0 {
        0
    } else if max_all(e.drop_last()) >= max_of(e.last().1) {
        max_all(e.drop_last())
    } else {
        max_of(e.last().1)
    }
}

/// Every recorded count is at most `bound`.
pub open spec fn counts_at_most(e: Entries, bound: nat) -> bool {
    forall|i: int, j: int| 0 <= i < e.len() && 0 <= j < e[i].1.len() ==> #[trigger] e[i].1[j] <= bound
}

/// The report text: a heading, then a line per operator, then the total.
pub open spec fn report_text(e: Entries) -> Seq<char> {
    "Complexity Report\n"@ + "=================\n"@ + if e.len() == 0 {
        "No fixpoint operations performed.\n"@
    } else {
        entry_lines(e) + "  Total: "@ + decimal(total_of(e)) + " iterations\n"@
    }
}

/// One line per entry, in order.
pub open spec fn entry_lines(e: Entries) -> Seq<char>
    decreases e.len(),
{
    if e.len() == 0 {
        seq![]
    } else {
        entry_lines(e.drop_last()) + entry_line(e.last().0, e.last().1)
    }
}

/// `  {op}: {n} occurrence(s), total {sum} iterations, max {max}`
pub open spec fn entry_line(op: Seq<char>, counts: Seq<u64>) -> Seq<char> {
    "  "@ + op + ": "@ + decimal(counts.len()) + " occurrence(s), total "@ + decimal(
        sum_of(counts),
    ) + " iterations, max "@ + decimal(max_of(counts)) + "\n"@
}

/// `after` is `before` with `counts[i]` recorded for `ops[i]`, in order, and
/// each count lies between 1 and `bound`.
pub open spec fn records(
    before: Entries,
    after: Entries,
    ops: Seq<Seq<char>>,
    counts: Seq<u64>,
    bound: nat,
) -> bool {
    &&& counts.len() == ops.len()
    &&& forall|i: int| 0 <= i < counts.len() ==> 1 <= #[trigger] counts[i] <= bound
    &&& after == recorded_all(before, ops, counts)
}

/// Recording nothing leaves the report as it is.
pub proof fn lemma_records_none(e: Entries, bound: nat)
    ensures
        records(e, e, seq![], seq![], bound),
{
}

/// Recording one more occurrence.
pub proof fn lemma_records_push(
    before: Entries,
    mid: Entries,
    ops: Seq<Seq<char>>,
    counts: Seq<u64>,
    bound: nat,
    op: Seq<char>,
    count: u64,
)
    requires
        records(before, mid, ops, counts, bound),
        1 <= count <= bound,
    ensures
        records(before, recorded(mid, op, count), ops.push(op), counts.push(count), bound),
{
    let c2 = counts.push(count);
    assert(ops.push(op).drop_last() == ops);
    assert(c2.drop_last() == counts);
    assert(forall|i: int| 0 <= i < c2.len() ==> 1 <= #[trigger] c2[i] <= bound);
    assert(recorded(mid, op, count) == recorded_all(before, ops.push(op), c2));
}

proof fn lemma_recorded_all_concat(
    e: Entries,
    o1: Seq<Seq<char>>,
    c1: Seq<u64>,
    o2: Seq<Seq<char>>,
    c2: Seq<u64>,
)
    requires
        o1.len() == c1.len(),
        o2.len() == c2.len(),
    ensures
        recorded_all(recorded_all(e, o1, c1), o2, c2) == recorded_all(e, o1 + o2, c1 + c2),
    decreases o2.len(),
{
    if o2.len() == 0 {
        assert(o1 + o2 == o1);
        assert(c1 + c2 == c1);
    } else {
        lemma_recorded_all_concat(e, o1, c1, o2.drop_last(), c2.drop_last());
        assert((o1 + o2).drop_last() == o1 + o2.drop_last());
        assert((c1 + c2).drop_last() == c1 + c2.drop_last());
        assert((o1 + o2).last() == o2.last());
        assert((c1 + c2).last() == c2.last());
    }
}

/// Recording two runs of occurrences one after the other.
pub proof fn lemma_records_concat(
    e1: Entries,
    e2: Entries,
    e3: Entries,
    o1: Seq<Seq<char>>,
    c1: Seq<u64>,
    o2: Seq<Seq<char>>,
    c2: Seq<u64>,
    bound: nat,
)
    requires
        records(e1, e2, o1, c1, bound),
        records(e2, e3, o2, c2, bound),
    ensures
        records(e1, e3, o1 + o2, c1 + c2, bound),
{
    lemma_recorded_all_concat(e1, o1, c1, o2, c2);
    let c = c1 + c2;
    assert forall|i: int| 0 <= i < c.len() implies 1 <= #[trigger] c[i] <= bound by {
        if i < c1.len() {
            assert(c[i] == c1[i]);
        } else {
            assert(c[i] == c2[i - c1.len()]);
        }
    }
}

/// Recording counts of at most `bound` keeps every count at most `bound`.
pub proof fn lemma_records_bounded(
    before: Entries,
    after: Entries,
    ops: Seq<Seq<char>>,
    counts: Seq<u64>,
    bound: nat,
)
    requires
        records(before, after, ops, counts, bound),
        counts_at_most(before, bound),
    ensures
        counts_at_most(after, bound),
{
    lemma_recorded_all_bounded(before, ops, counts, bound);
}

proof fn lemma_recorded_all_bounded(e: Entries, ops: Seq<Seq<char>>, counts: Seq<u64>, bound: nat)
    requires
        counts_at_most(e, bound),
        forall|i: int| 0 <= i < counts.len() ==> #[trigger] counts[i] <= bound,
    ensures
        counts_at_most(recorded_all(e, ops, counts), bound),
    decreases ops.len(),
{
    if ops.len() > 0 && counts.len() > 0 {
        let c0 = counts.drop_last();
        assert forall|i: int| 0 <= i < c0.len() implies #[trigger] c0[i] <= bound by {
            assert(c0[i] == counts[i]);
        }
        lemma_recorded_all_bounded(e, ops.drop_last(), c0, bound);
        let mid = recorded_all(e, ops.drop_last(), c0);
        let op = ops.last();
        let c = counts.last();
        assert(c <= bound);
        let after = recorded(mid, op, c);
        assert forall|i: int, j: int| 0 <= i < after.len() && 0 <= j < after[i].1.len()
            implies #[trigger] after[i].1[j] <= bound by {
            if exists|x: int| entry_of(mid, op, x) {
                let x = choose|x: int| entry_of(mid, op, x);
                if i == x {
                    if j < mid[x].1.len() {
                        assert(after[i].1[j] == mid[x].1[j]);
                    }
                } else {
                    assert(after[i] == mid[i]);
                }
            } else {
                if i < mid.len() {
                    assert(after[i] == mid[i]);
                }
            }
        }
    }
}

/// Tracks the number of fixpoint iterations performed per CTL operator.
///
/// Each fixpoint of a formula records how many rounds it took to converge;
/// the theoretical worst case is |S| rounds per fixpoint.
#[derive(Debug)]
pub struct ComplexityReport {
    iterations: Vec<(String, Vec<u64>)>,
}

/// The names and counts of stored entries, as text and numbers.
pub open spec fn entries_view(v: Seq<(String, Vec<u64>)>) -> Entries {
    v.map_values(|x: (String, Vec<u64>)| (x.0@, x.1@))
}

impl View for ComplexityReport {
    type V = Entries;

    closed spec fn view(&self) -> Entries {
        entries_view(self.iterations@)
    }
}

impl ComplexityReport {
    #[verifier::type_invariant]
    closed spec fn entries_valid(self) -> bool {
        distinct_names(self@) && counts_nonempty(self@)
    }

    /// Create an empty report.
    pub fn new() -> (r: Self)
        ensures
            r@ == Seq::<(Seq<char>, Seq<u64>)>::empty(),
            distinct_names(r@),
            counts_nonempty(r@),
    {
        let r = ComplexityReport { iterations: Vec::new() };
        proof {
            assert(r@ =~= Seq::<(Seq<char>, Seq<u64>)>::empty());
        }
        r
    }

    /// The index of the entry of `operator`, if any.
    fn find(&self, operator: &str) -> (r: Option<usize>)
        ensures
            match r {
                Some(i) => entry_of(self@, operator@, i as int),
                None => !exists|i: int| entry_of(self@, operator@, i),
            },
    {
        let op = String::from_str(operator);
        let mut i: usize = 0;
        while i < self.iterations.len()
            invariant
                i <= self.iterations@.len(),
                self@.len() == self.iterations@.len(),
                op@ == operator@,
                forall|j: int| 0 <= j < i ==> self@[j].0 != operator@,
            decreases self.iterations@.len() - i,
        {
            if self.iterations[i].0 == op {
                return Some(i);
            }
            i += 1;
        }
        None
    }

    /// Record iterations for an operator occurrence.
    pub fn record(&mut self, operator: &str, iterations: u64)
        ensures
            final(self)@ == recorded(old(self)@, operator@, iterations),
            distinct_names(final(self)@),
            counts_nonempty(final(self)@),
            counts_for(final(self)@, operator@) == counts_for(old(self)@, operator@).push(iterations),
            forall|other: Seq<char>|
                other != operator@ ==> #[trigger] counts_for(final(self)@, other) == counts_for(old(self)@, other),
            total_of(final(self)@) == total_of(old(self)@) + iterations,
            final(self)@.len() == old(self)@.len() + if counts_for(old(self)@, operator@).len() == 0 {
                1int
            } else {
                0int
            },
    {
        proof {
            use_type_invariant(&*self);
            lemma_recorded_counts(self@, operator@, iterations);
        }
        let ghost e = self@;
        let found = self.find(operator);
        let mut entries: Vec<(String, Vec<u64>)> = Vec::new();
        std::mem::swap(&mut entries, &mut self.iterations);
        assert(entries_view(entries@) == e);
        match found {
            Some(i) => {
                proof {
                    assert forall|j: int| entry_of(e, operator@, j) implies j == i by {}
                }
                let (name, mut counts) = entries.remove(i);
                counts.push(iterations);
                entries.insert(i, (name, counts));
                proof {
                    assert(entries_view(entries@) =~= e.update(
                        i as int,
                        (operator@, e[i as int].1.push(iterations)),
                    ));
                }
            },
            None => {
                let mut counts: Vec<u64> = Vec::new();
                counts.push(iterations);
                entries.push((String::from_str(operator), counts));
                proof {
                    assert(entries_view(entries@) =~= e.push(
                        (operator@, seq![iterations]),
                    ));
                }
            },
        }
        proof {
            let ne = entries_view(entries@);
            assert(ne == recorded(e, operator@, iterations));
            assert(counts_nonempty(ne)) by {
                assert forall|a: int| 0 <= a < ne.len() implies #[trigger] ne[a].1.len() > 0 by {
                    if a < e.len() {
                        if found is None || a != found->0 as int {
                            assert(ne[a] == e[a]);
                        }
                    }
                }
            }
            assert(distinct_names(ne)) by {
                assert forall|a: int, b: int| 0 <= a < ne.len() && 0 <= b < ne.len() && a != b
                    implies ne[a].0 != ne[b].0 by {
                    if found is None {
                        if a < e.len() && b < e.len() {
                            assert(ne[a] == e[a] && ne[b] == e[b]);
                        } else if a == e.len() {
                            assert(!entry_of(e, operator@, b));
                        } else {
                            assert(!entry_of(e, operator@, a));
                        }
                    } else {
                        let i = found->0 as int;
                        assert(e[i].0 == operator@);
                        if a != i {
                            assert(ne[a] == e[a]);
                        }
                        if b != i {
                            assert(ne[b] == e[b]);
                        }
                    }
                }
            }
        }
        self.iterations = entries;
    }

    /// Get the iteration counts for a specific operator.
    pub fn iterations(&self, operator: &str) -> (r: &[u64])
        ensures
            r@ == counts_for(self@, operator@),
            distinct_names(self@),
            counts_nonempty(self@),
    {
        proof {
            use_type_invariant(self);
        }
        match self.find(operator) {
            Some(i) => {
                proof {
                    assert forall|j: int| entry_of(self@, operator@, j) implies j == i by {}
                }
                self.iterations[i].1.as_slice()
            },
            None => &[],
        }
    }

    /// The names of the operators that have entries, in the order they were
    /// first recorded.
    pub fn operators(&self) -> (r: Vec<String>)
        ensures
            r@.len() == self@.len(),
            forall|i: int| 0 <= i < r@.len() ==> #[trigger] r@[i]@ == self@[i].0,
    {
        let mut names: Vec<String> = Vec::new();
        let mut i: usize = 0;
        while i < self.iterations.len()
            invariant
                i <= self.iterations@.len(),
                self@.len() == self.iterations@.len(),
                names@.len() == i,
                forall|j: int| 0 <= j < i ==> #[trigger] names@[j]@ == self@[j].0,
            decreases self.iterations@.len() - i,
        {
            names.push(self.iterations[i].0.clone());
            i += 1;
        }
        names
    }

    /// Total iterations across all operators.
    pub fn total_iterations(&self) -> (r: u64)
        requires
            total_of(self@) <= u64::MAX,
        ensures
            r == total_of(self@),
    {
        let mut total: u64 = 0;
        let mut i: usize = 0;
        while i < self.iterations.len()
            invariant
                i <= self.iterations@.len(),
                self@.len() == self.iterations@.len(),
                total_of(self@) <= u64::MAX,
                total == total_of(self@.take(i as int)),
            decreases self.iterations@.len() - i,
        {
            proof {
                assert(self@.take(i + 1).drop_last() == self@.take(i as int));
                lemma_total_prefix(self@, i + 1);
            }
            let part = sum_counts(self.iterations[i].1.as_slice());
            total = total + part;
            i += 1;
        }
        proof {
            assert(self@.take(i as int) == self@);
        }
        total
    }

    /// Maximum iterations for any single operator occurrence.
    pub fn max_iterations(&self) -> (r: u64)
        ensures
            r == max_all(self@),
            forall|i: int, j: int| 0 <= i < self@.len() && 0 <= j < self@[i].1.len() ==> #[trigger] self@[i].1[j] <= r,
            (exists|i: int| 0 <= i < self@.len() && #[trigger] self@[i].1.len() > 0) ==> exists|i: int, j: int|
                0 <= i < self@.len() && 0 <= j < self@[i].1.len() && #[trigger] self@[i].1[j] == r,
            !(exists|i: int| 0 <= i < self@.len() && #[trigger] self@[i].1.len() > 0) ==> r == 0,
    {
        proof {
            crate::laws::law_max_iterations_is_largest(self@);
        }
        let mut best: u64 = 0;
        let mut i: usize = 0;
        while i < self.iterations.len()
            invariant
                i <= self.iterations@.len(),
                self@.len() == self.iterations@.len(),
                best == max_all(self@.take(i as int)),
            decreases self.iterations@.len() - i,
        {
            proof {
                assert(self@.take(i + 1).drop_last() == self@.take(i as int));
            }
            let m = max_counts(self.iterations[i].1.as_slice());
            if m > best {
                best = m;
            }
            i += 1;
        }
        proof {
            assert(self@.take(i as int) == self@);
        }
        best
    }

    /// Number of distinct operators that required fixpoint computation.
    pub fn operator_count(&self) -> (r: usize)
        ensures
            r == self@.len(),
    {
        self.iterations.len()
    }

    /// Returns true if the complexity is within O(|S|²) bounds: no fixpoint took
    /// more than `state_count` rounds.
    pub fn within_quadratic_bounds(&self, state_count: usize) -> (r: bool)
        ensures
            r == counts_at_most(self@, state_count as nat),
            distinct_names(self@),
            counts_nonempty(self@),
    {
        proof {
            use_type_invariant(self);
        }
        let bound = state_count as u64;
        let mut i: usize = 0;
        while i < self.iterations.len()
            invariant
                i <= self.iterations@.len(),
                self@.len() == self.iterations@.len(),
                bound == state_count,
                counts_at_most(self@.take(i as int), state_count as nat),
                distinct_names(self@),
                counts_nonempty(self@),
            decreases self.iterations@.len() - i,
        {
            let counts = self.iterations[i].1.as_slice();
            let mut j: usize = 0;
            while j < counts.len()
                invariant
                    j <= counts@.len(),
                    i < self@.len(),
                    counts@ == self@[i as int].1,
                    bound == state_count,
                    forall|j2: int| 0 <= j2 < j ==> counts@[j2] <= bound,
                    distinct_names(self@),
                    counts_nonempty(self@),
                decreases counts@.len() - j,
            {
                if counts[j] > bound {
                    proof {
                        assert(self@[i as int].1[j as int] > state_count);
                    }
                    return false;
                }
                j += 1;
            }
            proof {
                assert(counts_at_most(self@.take(i + 1), state_count as nat)) by {
                    assert forall|a: int, b: int|
                        0 <= a < self@.take(i + 1).len() && 0 <= b < self@.take(i + 1)[a].1.len()
                        implies #[trigger] self@.take(i + 1)[a].1[b] <= state_count by {
                        if a < i {
                            assert(self@.take(i as int)[a] == self@.take(i + 1)[a]);
                        }
                    }
                }
            }
            i += 1;
        }
        proof {
            assert(self@.take(i as int) == self@);
        }
        true
    }

    /// The human-readable report: a heading, a line per operator with its
    /// occurrences, total and maximum, and the overall total.
    pub fn to_string(&self) -> (r: String)
        requires
            total_of(self@) <= u64::MAX,
        ensures
            r@ == report_text(self@),
    {
        let mut s = String::from_str("Complexity Report\n");
        s.append("=================\n");
        if self.iterations.len() == 0 {
            s.append("No fixpoint operations performed.\n");
            return s;
        }
        let ghost head = s@;
        let mut i: usize = 0;
        while i < self.iterations.len()
            invariant
                i <= self.iterations@.len(),
                self@.len() == self.iterations@.len(),
                total_of(self@) <= u64::MAX,
                s@ == head + entry_lines(self@.take(i as int)),
            decreases self.iterations@.len() - i,
        {
            proof {
                assert(self@.take(i + 1).drop_last() == self@.take(i as int));
                lemma_total_prefix(self@, i + 1);
                lemma_sum_entry_le_total(self@.take(i + 1));
            }
            let name = &self.iterations[i].0;
            let counts = self.iterations[i].1.as_slice();
            let line = line_text(name.as_str(), counts);
            s.append(line.as_str());
            i += 1;
        }
        proof {
            assert(self@.take(i as int) == self@);
        }
        s.append("  Total: ");
        s.append(decimal_text(self.total_iterations()).as_str());
        s.append(" iterations\n");
        s
    }
}

impl Clone for ComplexityReport {
    fn clone(&self) -> (r: Self)
        ensures
            r@ == self@,
    {
        proof {
            use_type_invariant(self);
        }
        let mut entries: Vec<(String, Vec<u64>)> = Vec::new();
        let mut i: usize = 0;
        while i < self.iterations.len()
            invariant
                i <= self.iterations@.len(),
                self@.len() == self.iterations@.len(),
                entries_view(entries@) == self@.take(i as int),
            decreases self.iterations@.len() - i,
        {
            let name = self.iterations[i].0.clone();
            let counts = self.iterations[i].1.clone();
            proof {
                assert(counts@ =~= self.iterations@[i as int].1@);
            }
            let ghost prev = entries@;
            let item = (name, counts);
            let ghost g = item;
            entries.push(item);
            proof {
                assert(entries_view(prev) == self@.take(i as int));
                assert(self@.take(i as int).len() == i);
                assert(entries_view(prev).len() == prev.len());
                assert(prev.len() == i);
                assert(entries@ == prev.push(g));
                assert(entries_view(entries@) =~= entries_view(prev).push((g.0@, g.1@)));
                assert(self@.take(i + 1) =~= self@.take(i as int).push(self@[i as int]));
            }
            i += 1;
        }
        proof {
            assert(self@.take(i as int) == self@);
        }
        ComplexityReport { iterations: entries }
    }
}

impl Default for ComplexityReport {
    fn default() -> (r: Self)
        ensures
            r@ == Seq::<(Seq<char>, Seq<u64>)>::empty(),
            distinct_names(r@),
            counts_nonempty(r@),
    {
        Self::new()
    }
}

/// Appending a count adds it to the sum.
proof fn lemma_sum_push(s: Seq<u64>, c: u64)
    ensures
        sum_of(s.push(c)) == sum_of(s) + c,
{
    assert(s.push(c).drop_last() == s);
}

/// Replacing the counts of entry `i` changes the total by the difference of
/// their sums.
proof fn lemma_total_update(e: Entries, i: int, x: (Seq<char>, Seq<u64>))
    requires
        0 <= i < e.len(),
    ensures
        total_of(e.update(i, x)) + sum_of(e[i].1) == total_of(e) + sum_of(x.1),
    decreases e.len(),
{
    let u = e.update(i, x);
    if i == e.len() - 1 {
        assert(u.drop_last() == e.drop_last());
    } else {
        assert(u.drop_last() == e.drop_last().update(i, x));
        lemma_total_update(e.drop_last(), i, x);
    }
}

/// What recording a count does to the counts of each operator, to the total
/// and to the number of operators.
pub proof fn lemma_recorded_counts(e: Entries, op: Seq<char>, c: u64)
    requires
        distinct_names(e),
        counts_nonempty(e),
    ensures
        distinct_names(recorded(e, op, c)),
        counts_nonempty(recorded(e, op, c)),
        counts_for(recorded(e, op, c), op) == counts_for(e, op).push(c),
        forall|other: Seq<char>| other != op ==> #[trigger] counts_for(recorded(e, op, c), other) == counts_for(e, other),
        total_of(recorded(e, op, c)) == total_of(e) + c,
        recorded(e, op, c).len() == e.len() + if counts_for(e, op).len() == 0 {
            1int
        } else {
            0int
        },
{
    let r = recorded(e, op, c);
    if exists|i: int| entry_of(e, op, i) {
        let i = choose|i: int| entry_of(e, op, i);
        assert(counts_for(e, op) == e[i].1);
        assert(entry_of(r, op, i));
        assert forall|j: int| entry_of(r, op, j) implies j == i by {
            if j != i {
                assert(r[j] == e[j]);
            }
        }
        assert forall|a: int, b: int| 0 <= a < r.len() && 0 <= b < r.len() && a != b implies r[a].0 != r[b].0 by {
            if a != i {
                assert(r[a] == e[a]);
            }
            if b != i {
                assert(r[b] == e[b]);
            }
        }
        assert forall|a: int| 0 <= a < r.len() implies #[trigger] r[a].1.len() > 0 by {
            if a != i {
                assert(r[a] == e[a]);
            }
        }
        assert forall|other: Seq<char>| other != op implies #[trigger] counts_for(r, other) == counts_for(e, other) by {
            assert forall|j: int| entry_of(r, other, j) <==> entry_of(e, other, j) by {
                if 0 <= j < e.len() && j != i {
                    assert(r[j] == e[j]);
                }
            }
            if exists|j: int| entry_of(e, other, j) {
                let j = choose|j: int| entry_of(e, other, j);
                assert forall|j2: int| entry_of(r, other, j2) implies j2 == j by {
                    assert(e[j2].0 == other);
                }
                assert forall|j2: int| entry_of(e, other, j2) implies j2 == j by {}
                assert(r[j] == e[j]);
            }
        }
        lemma_total_update(e, i, (op, e[i].1.push(c)));
        lemma_sum_push(e[i].1, c);
    } else {
        assert(counts_for(e, op).len() == 0);
        assert(entry_of(r, op, e.len() as int));
        assert forall|j: int| entry_of(r, op, j) implies j == e.len() by {
            if j < e.len() {
                assert(r[j] == e[j]);
                assert(entry_of(e, op, j));
            }
        }
        assert(r[e.len() as int].1 == seq![c]);
        assert(seq![c] == Seq::<u64>::empty().push(c));
        assert forall|a: int, b: int| 0 <= a < r.len() && 0 <= b < r.len() && a != b implies r[a].0 != r[b].0 by {
            if a < e.len() {
                assert(r[a] == e[a]);
            }
            if b < e.len() {
                assert(r[b] == e[b]);
            }
            if a == e.len() {
                assert(!entry_of(e, op, b));
            }
            if b == e.len() {
                assert(!entry_of(e, op, a));
            }
        }
        assert forall|a: int| 0 <= a < r.len() implies #[trigger] r[a].1.len() > 0 by {
            if a < e.len() {
                assert(r[a] == e[a]);
            }
        }
        assert forall|other: Seq<char>| other != op implies #[trigger] counts_for(r, other) == counts_for(e, other) by {
            assert forall|j: int| entry_of(r, other, j) <==> entry_of(e, other, j) by {
                if 0 <= j < e.len() {
                    assert(r[j] == e[j]);
                }
            }
            if exists|j: int| entry_of(e, other, j) {
                let j = choose|j: int| entry_of(e, other, j);
                assert forall|j2: int| entry_of(r, other, j2) implies j2 == j by {
                    if j2 < e.len() {
                        assert(r[j2] == e[j2]);
                    }
                }
                assert forall|j2: int| entry_of(e, other, j2) implies j2 == j by {}
                assert(r[j] == e[j]);
            }
        }
        assert(r.drop_last() == e);
        lemma_sum_push(Seq::<u64>::empty(), c);
    }
}

/// The sum of a prefix of the entries is at most the sum of all.
proof fn lemma_total_prefix(e: Entries, i: int)
    requires
        0 <= i <= e.len(),
    ensures
        total_of(e.take(i)) <= total_of(e),
    decreases e.len(),
{
    if i < e.len() {
        assert(e.drop_last().take(i) == e.take(i));
        lemma_total_prefix(e.drop_last(), i);
    } else {
        assert(e.take(i) == e);
    }
}

/// The last entry's sum is at most the total.
proof fn lemma_sum_entry_le_total(e: Entries)
    requires
        e.len() > 0,
    ensures
        sum_of(e.last().1) <= total_of(e),
{
}

proof fn lemma_sum_prefix(s: Seq<u64>, i: int)
    requires
        0 <= i <= s.len(),
    ensures
        sum_of(s.take(i)) <= sum_of(s),
    decreases s.len(),
{
    if i < s.len() {
        assert(s.drop_last().take(i) == s.take(i));
        lemma_sum_prefix(s.drop_last(), i);
    } else {
        assert(s.take(i) == s);
    }
}

fn sum_counts(counts: &[u64]) -> (r: u64)
    requires
        sum_of(counts@) <= u64::MAX,
    ensures
        r == sum_of(counts@),
{
    let mut total: u64 = 0;
    let mut j: usize = 0;
    while j < counts.len()
        invariant
            j <= counts@.len(),
            sum_of(counts@) <= u64::MAX,
            total == sum_of(counts@.take(j as int)),
        decreases counts@.len() - j,
    {
        proof {
            assert(counts@.take(j + 1).drop_last() == counts@.take(j as int));
            lemma_sum_prefix(counts@, j + 1);
        }
        total = total + counts[j];
        j += 1;
    }
    proof {
        assert(counts@.take(j as int) == counts@);
    }
    total
}

fn max_counts(counts: &[u64]) -> (r: u64)
    ensures
        r == max_of(counts@),
{
    let mut best: u64 = 0;
    let mut j: usize = 0;
    while j < counts.len()
        invariant
            j <= counts@.len(),
            best == max_of(counts@.take(j as int)),
        decreases counts@.len() - j,
    {
        proof {
            assert(counts@.take(j + 1).drop_last() == counts@.take(j as int));
        }
        if counts[j] > best {
            best = counts[j];
        }
        j += 1;
    }
    proof {
        assert(counts@.take(j as int) == counts@);
    }
    best
}

fn line_text(op: &str, counts: &[u64]) -> (r: String)
    requires
        sum_of(counts@) <= u64::MAX,
    ensures
        r@ == entry_line(op@, counts@),
{
    let mut s = String::from_str("  ");
    s.append(op);
    s.append(": ");
    s.append(decimal_text(counts.len() as u64).as_str());
    s.append(" occurrence(s), total ");
    s.append(decimal_text(sum_counts(counts)).as_str());
    s.append(" iterations, max ");
    s.append(decimal_text(max_counts(counts)).as_str());
    s.append("\n");
    s
}

} // verus!
