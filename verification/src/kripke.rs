//! Kripke structures: labeled directed graphs, the models of CTL, with a builder
//! that validates what it builds.
use std::collections::{HashMap, HashSet};
use vstd::prelude::*;
use vstd::std_specs::iter::IteratorSpec;
use vstd::string::StringExecFns;

use crate::stateset::slice_contains;
use crate::text::{decimal, decimal_text};

verus! {

broadcast use vstd::std_specs::hash::group_hash_axioms;

/// std `HashSet::<String>::contains`, asked with a `&str`: true exactly when the
/// set holds a string with the same characters as `prop` (`String`'s `Hash`
/// and `Eq` both go by the characters).
#[verifier::external_body]
fn label_set_contains(set: &HashSet<String>, prop: &str) -> (r: bool)
    ensures
        r == set@.map(|x: String| x@).contains(prop@),
{
    set.contains(prop)
}

/// std `HashSet::<String>::insert`: afterwards the set holds the strings it
/// held before and `prop`, compared by their characters.
#[verifier::external_body]
fn label_set_insert(set: &mut HashSet<String>, prop: String)
    ensures
        final(set)@.map(|x: String| x@) == old(set)@.map(|x: String| x@).insert(prop@),
{
    set.insert(prop);
}

/// std `<HashSet<String> as Clone>::clone`: a set of strings with the same
/// characters as those of `set`.
#[verifier::external_body]
fn label_set_clone(set: &HashSet<String>) -> (r: HashSet<String>)
    ensures
        r@.map(|x: String| x@) == set@.map(|x: String| x@),
{
    set.clone()
}

/// A Kripke structure **M = (S, R, L, S₀)**: named states `0..n`, a transition
/// relation given as successor lists, a labeling of states with atomic
/// propositions, and the initial states.
///
/// A structure made by [`KripkeBuilder::build`] is well formed ([`KripkeStruct::wf`]):
/// every transition and initial state refers to a state, and every state has a
/// successor (the transition relation is total).
#[derive(Debug)]
pub struct KripkeStruct {
    /// Named states in order of insertion.
    pub states: Vec<String>,
    /// Adjacency list: transitions[s] = list of successor state indices.
    pub transitions: HashMap<usize, Vec<usize>>,
    /// Labeling function: labeling[s] = set of atomic propositions true in state s.
    pub labeling: HashMap<usize, HashSet<String>>,
    /// Indices of initial states.
    pub initial_states: Vec<usize>,
}

impl KripkeStruct {
    /// The number of states.
    pub open spec fn n(&self) -> nat {
        self.states@.len()
    }

    /// The successor list of `s` (empty where none is recorded).
    pub open spec fn succ(&self, s: usize) -> Seq<usize> {
        if self.transitions@.contains_key(s) {
            self.transitions@[s]@
        } else {
            Seq::empty()
        }
    }

    /// There is a transition from `s` to `t`.
    pub open spec fn edge(&self, s: usize, t: usize) -> bool {
        self.succ(s).contains(t)
    }

    /// The atomic propositions that hold in `s`.
    pub open spec fn label_set(&self, s: usize) -> Set<Seq<char>> {
        if self.labeling@.contains_key(s) {
            self.labeling@[s]@.map(|x: String| x@)
        } else {
            Set::empty()
        }
    }

    /// Every transition starts and ends at a state.
    pub open spec fn transitions_valid(&self) -> bool {
        &&& forall|s: usize| #[trigger] self.transitions@.contains_key(s) ==> s < self.n()
        &&& forall|s: usize, t: usize| #[trigger] self.edge(s, t) ==> t < self.n()
    }

    /// Every initial state is a state.
    pub open spec fn initial_valid(&self) -> bool {
        forall|i: int|
            0 <= i < self.initial_states@.len() ==> #[trigger] self.initial_states@[i] < self.n()
    }

    /// Every state has at least one successor.
    pub open spec fn total(&self) -> bool {
        forall|s: usize| s < self.n() ==> #[trigger] self.succ(s).len() > 0
    }

    /// The structure is a Kripke structure: what [`KripkeStruct::validate`] checks.
    pub open spec fn wf(&self) -> bool {
        &&& self.transitions_valid()
        &&& self.initial_valid()
        &&& self.total()
    }

    /// Create a new empty Kripke structure.
    pub fn new() -> (k: Self)
        ensures
            k.states@.len() == 0,
            k.transitions@ == Map::<usize, Vec<usize>>::empty(),
            k.labeling@ == Map::<usize, HashSet<String>>::empty(),
            k.initial_states@.len() == 0,
            k.wf(),
    {
        Self {
            states: Vec::new(),
            transitions: HashMap::new(),
            labeling: HashMap::new(),
            initial_states: Vec::new(),
        }
    }

    /// Return a builder for constructing a Kripke structure.
    pub fn builder() -> (b: KripkeBuilder)
        ensures
            b.pending().states@.len() == 0,
            b.pending().transitions@ == Map::<usize, Vec<usize>>::empty(),
            b.pending().labeling@ == Map::<usize, HashSet<String>>::empty(),
            b.pending().initial_states@.len() == 0,
    {
        KripkeBuilder::new()
    }

    /// Number of states.
    pub fn state_count(&self) -> (r: usize)
        ensures
            r == self.n(),
    {
        self.states.len()
    }

    /// Get the name of a state by index.
    pub fn state_name(&self, index: usize) -> (r: Option<&str>)
        ensures
            match r {
                Some(name) => index < self.n() && name@ == self.states@[index as int]@,
                None => index >= self.n(),
            },
    {
        if index < self.states.len() {
            Some(self.states[index].as_str())
        } else {
            None
        }
    }

    /// Get successors of a state.
    pub fn successors(&self, state: usize) -> (r: &[usize])
        ensures
            r@ == self.succ(state),
    {
        match self.transitions.get(&state) {
            Some(v) => v.as_slice(),
            None => &[],
        }
    }

    /// Get the set of atomic propositions true in a state.
    pub fn labels(&self, state: usize) -> (r: HashSet<String>)
        ensures
            r@.map(|x: String| x@) == self.label_set(state),
    {
        match self.labeling.get(&state) {
            Some(set) => label_set_clone(set),
            None => {
                let r: HashSet<String> = HashSet::new();
                proof {
                    assert(r@.map(|x: String| x@) =~= Set::empty());
                }
                r
            },
        }
    }

    /// Whether the atomic proposition `prop` holds in `state`.
    pub fn has_label(&self, state: usize, prop: &str) -> (r: bool)
        ensures
            r == self.label_set(state).contains(prop@),
    {
        match self.labeling.get(&state) {
            Some(set) => label_set_contains(set, prop),
            None => false,
        }
    }

    /// Compute the set of predecessors of a state (states that have a transition to it).
    pub fn predecessors(&self, state: usize) -> (r: Vec<usize>)
        ensures
            r@.no_duplicates(),
            forall|s: usize| r@.contains(s) <==> self.edge(s, state),
    {
        let mut preds: Vec<usize> = Vec::new();
        let ghost entries = self.transitions.iter().remaining();
        let ghost mut done: int = 0;
        for (s, succs) in it: self.transitions.iter()
            invariant
                it.seq() == entries,
                entries.no_duplicates(),
                entries.len() == self.transitions@.dom().len(),
                forall|i: int|
                    0 <= i < entries.len() ==> self.transitions@.contains_key(*entries[i].0)
                        && self.transitions@[*entries[i].0] == *entries[i].1,
                forall|k: usize| #[trigger]
                    self.transitions@.contains_key(k) ==> entries.contains(
                        (&k, &self.transitions@[k]),
                    ),
                done == it.index(),
                0 <= done <= entries.len(),
                preds@.no_duplicates(),
                forall|j: int|
                    #![trigger preds@[j]]
                    0 <= j < preds@.len() ==> exists|i: int|
                        0 <= i < done && *entries[i].0 == preds@[j],
                forall|s2: usize|
                    preds@.contains(s2) <==> exists|i: int|
                        0 <= i < done && *entries[i].0 == s2 && self.edge(s2, state),
        {
            let found = slice_contains(succs.as_slice(), state);
            proof {
                assert(entries[done] == (s, succs));
                assert(self.succ(*s) == succs@);
                assert forall|j: int| 0 <= j < preds@.len() implies preds@[j] != *s by {
                    let i = choose|i: int| 0 <= i < done && *entries[i].0 == preds@[j];
                    if preds@[j] == *s {
                        assert(entries[i].0 == entries[done].0);
                        assert(self.transitions@[*entries[i].0] == *entries[i].1);
                        assert(entries[i] == entries[done]);
                    }
                }
            }
            let ghost before = preds@;
            if found {
                preds.push(*s);
            }
            proof {
                assert forall|s2: usize|
                    preds@.contains(s2) <==> exists|i: int|
                        0 <= i < done + 1 && *entries[i].0 == s2 && self.edge(s2, state) by {
                    if preds@.contains(s2) {
                        if s2 != *s {
                            assert(before.contains(s2)) by {
                                let j = choose|j: int| 0 <= j < preds@.len() && preds@[j] == s2;
                                assert(before[j] == s2);
                            }
                        }
                    }
                    if exists|i: int|
                        0 <= i < done + 1 && *entries[i].0 == s2 && self.edge(s2, state) {
                        let i = choose|i: int|
                            0 <= i < done + 1 && *entries[i].0 == s2 && self.edge(s2, state);
                        if i == done {
                            assert(preds@[preds@.len() - 1] == s2);
                        } else {
                            assert(before.contains(s2));
                            let j = choose|j: int| 0 <= j < before.len() && before[j] == s2;
                            assert(preds@[j] == s2);
                        }
                    }
                }
                done = done + 1;
            }
        }
        proof {
            assert forall|s2: usize| self.edge(s2, state) implies preds@.contains(s2) by {
                assert(self.transitions@.contains_key(s2));
                assert(entries.contains((&s2, &self.transitions@[s2])));
                let i = choose|i: int| 0 <= i < entries.len() && entries[i] == (&s2, &self.transitions@[s2]);
                assert(*entries[i].0 == s2);
            }
        }
        preds
    }

    /// Compute the set of all predecessors of a set of states.
    pub fn predecessors_of_set(&self, states: &HashSet<usize>) -> (r: HashSet<usize>)
        ensures
            forall|s: usize|
                r@.contains(s) <==> exists|t: usize| self.edge(s, t) && states@.contains(t),
    {
        let mut preds: HashSet<usize> = HashSet::new();
        let ghost entries = self.transitions.iter().remaining();
        let ghost mut done: int = 0;
        for (s, succs) in it: self.transitions.iter()
            invariant
                it.seq() == entries,
                forall|i: int|
                    0 <= i < entries.len() ==> self.transitions@.contains_key(*entries[i].0)
                        && self.transitions@[*entries[i].0] == *entries[i].1,
                forall|k: usize| #[trigger]
                    self.transitions@.contains_key(k) ==> entries.contains(
                        (&k, &self.transitions@[k]),
                    ),
                done == it.index(),
                0 <= done <= entries.len(),
                forall|s2: usize|
                    preds@.contains(s2) <==> exists|i: int, t: usize|
                        0 <= i < done && *entries[i].0 == s2 && self.edge(s2, t)
                            && states@.contains(t),
        {
            proof {
                assert(entries[done] == (s, succs));
                assert(self.succ(*s) == succs@);
            }
            let ghost before = preds@;
            let mut j: usize = 0;
            while j < succs.len()
                invariant
                    j <= succs@.len(),
                    self.succ(*s) == succs@,
                    preds@ == before.union(
                        if exists|j2: int| 0 <= j2 < j && states@.contains(#[trigger] succs@[j2]) {
                            set![*s]
                        } else {
                            Set::empty()
                        },
                    ),
                decreases succs@.len() - j,
            {
                if states.contains(&succs[j]) {
                    preds.insert(*s);
                }
                proof {
                    let cond_old = exists|j2: int| 0 <= j2 < j && states@.contains(#[trigger] succs@[j2]);
                    let cond_new = exists|j2: int| 0 <= j2 < j + 1 && states@.contains(#[trigger] succs@[j2]);
                    if states@.contains(succs@[j as int]) {
                        assert(cond_new);
                    } else if cond_new {
                        let j2 = choose|j2: int| 0 <= j2 < j + 1 && states@.contains(#[trigger] succs@[j2]);
                        assert(j2 < j);
                        assert(cond_old);
                    }
                }
                j += 1;
            }
            proof {
                let cond = exists|j2: int| 0 <= j2 < succs@.len() && states@.contains(#[trigger] succs@[j2]);
                assert(cond <==> exists|t: usize| self.edge(*s, t) && states@.contains(t)) by {
                    if cond {
                        let j2 = choose|j2: int| 0 <= j2 < succs@.len() && states@.contains(#[trigger] succs@[j2]);
                        assert(self.edge(*s, succs@[j2]));
                    }
                    if exists|t: usize| self.edge(*s, t) && states@.contains(t) {
                        let t = choose|t: usize| self.edge(*s, t) && states@.contains(t);
                        let j2 = choose|j2: int| 0 <= j2 < succs@.len() && succs@[j2] == t;
                        assert(states@.contains(succs@[j2]));
                    }
                }
                assert forall|s2: usize|
                    preds@.contains(s2) <==> exists|i: int, t: usize|
                        0 <= i < done + 1 && *entries[i].0 == s2 && self.edge(s2, t)
                            && states@.contains(t) by {
                    if preds@.contains(s2) && !before.contains(s2) {
                        let t = choose|t: usize| self.edge(*s, t) && states@.contains(t);
                        assert(*entries[done].0 == s2 && self.edge(s2, t) && states@.contains(t));
                    }
                    if exists|i: int, t: usize|
                        0 <= i < done + 1 && *entries[i].0 == s2 && self.edge(s2, t)
                            && states@.contains(t) {
                        let (i, t) = choose|i: int, t: usize|
                            0 <= i < done + 1 && *entries[i].0 == s2 && self.edge(s2, t)
                                && states@.contains(t);
                        if i < done {
                            assert(before.contains(s2));
                        } else {
                            assert(s2 == *s);
                        }
                    }
                }
                done = done + 1;
            }
        }
        proof {
            assert forall|s2: usize|
                (exists|t: usize| self.edge(s2, t) && states@.contains(t)) implies preds@.contains(s2) by {
                let t = choose|t: usize| self.edge(s2, t) && states@.contains(t);
                assert(self.transitions@.contains_key(s2));
                assert(entries.contains((&s2, &self.transitions@[s2])));
                let i = choose|i: int| 0 <= i < entries.len() && entries[i] == (&s2, &self.transitions@[s2]);
                assert(*entries[i].0 == s2);
            }
        }
        preds
    }
}

impl Clone for KripkeStruct {
    /// A structure with the same states, transitions, labels and initial
    /// states.
    fn clone(&self) -> (r: Self)
        ensures
            r.states@ == self.states@,
            r.transitions@ == self.transitions@,
            r.labeling@ == self.labeling@,
            r.initial_states@ == self.initial_states@,
            r.wf() == self.wf(),
    {
        let states = self.states.clone();
        let initial_states = self.initial_states.clone();
        proof {
            assert(states@ =~= self.states@);
            assert(initial_states@ =~= self.initial_states@);
        }
        let r = KripkeStruct {
            states,
            transitions: self.transitions.clone(),
            labeling: self.labeling.clone(),
            initial_states,
        };
        proof {
            assert forall|s: usize| #[trigger] r.succ(s) == self.succ(s) by {}
            assert forall|s: usize, t: usize| #[trigger] r.edge(s, t) == self.edge(s, t) by {
                assert(r.succ(s) == self.succ(s));
            }
            assert(r.n() == self.n());
            assert(r.transitions_valid() <==> self.transitions_valid()) by {
                if self.transitions_valid() {
                    assert forall|s: usize| #[trigger] r.transitions@.contains_key(s) implies s < r.n() by {
                        assert(self.transitions@.contains_key(s));
                    }
                    assert forall|s: usize, t: usize| #[trigger] r.edge(s, t) implies t < r.n() by {
                        assert(self.edge(s, t));
                    }
                }
                if r.transitions_valid() {
                    assert forall|s: usize| #[trigger] self.transitions@.contains_key(s) implies s < self.n() by {
                        assert(r.transitions@.contains_key(s));
                    }
                    assert forall|s: usize, t: usize| #[trigger] self.edge(s, t) implies t < self.n() by {
                        assert(r.edge(s, t));
                    }
                }
            }
            assert(r.initial_valid() <==> self.initial_valid()) by {
                assert forall|i: int| 0 <= i < r.initial_states@.len() implies r.initial_states@[i]
                    == self.initial_states@[i] by {}
            }
            assert(r.total() <==> self.total()) by {
                if self.total() {
                    assert forall|s: usize| s < r.n() implies #[trigger] r.succ(s).len() > 0 by {
                        assert(self.succ(s).len() > 0);
                    }
                }
                if r.total() {
                    assert forall|s: usize| s < self.n() implies #[trigger] self.succ(s).len() > 0 by {
                        assert(r.succ(s).len() > 0);
                    }
                }
            }
        }
        r
    }
}

impl Default for KripkeStruct {
    fn default() -> (k: Self)
        ensures
            k.states@.len() == 0,
            k.transitions@ == Map::<usize, Vec<usize>>::empty(),
            k.labeling@ == Map::<usize, HashSet<String>>::empty(),
            k.initial_states@.len() == 0,
            k.wf(),
    {
        Self::new()
    }
}

/// Builder for [`KripkeStruct`]: adds states, transitions, labels and initial
/// states one at a time, and validates the whole at the end.
#[derive(Debug)]
pub struct KripkeBuilder {
    states: Vec<String>,
    transitions: HashMap<usize, Vec<usize>>,
    labeling: HashMap<usize, HashSet<String>>,
    initial_states: Vec<usize>,
}

impl KripkeBuilder {
    /// The structure built so far, before validation.
    pub closed spec fn pending(&self) -> KripkeStruct {
        KripkeStruct {
            states: self.states,
            transitions: self.transitions,
            labeling: self.labeling,
            initial_states: self.initial_states,
        }
    }

    /// Create a new builder.
    pub fn new() -> (b: Self)
        ensures
            b.pending().states@.len() == 0,
            b.pending().transitions@ == Map::<usize, Vec<usize>>::empty(),
            b.pending().labeling@ == Map::<usize, HashSet<String>>::empty(),
            b.pending().initial_states@.len() == 0,
    {
        Self {
            states: Vec::new(),
            transitions: HashMap::new(),
            labeling: HashMap::new(),
            initial_states: Vec::new(),
        }
    }

    /// Add a named state. The state's index equals the number of states added before it.
    pub fn state(self, name: &str) -> (b: Self)
        ensures
            b.pending().states@.len() == self.pending().states@.len() + 1,
            b.pending().states@.drop_last() == self.pending().states@,
            b.pending().states@.last()@ == name@,
            b.pending().transitions == self.pending().transitions,
            b.pending().labeling == self.pending().labeling,
            b.pending().initial_states == self.pending().initial_states,
    {
        let mut b = self;
        b.states.push(String::from_str(name));
        proof {
            assert(b.states@.drop_last() == self.states@);
        }
        b
    }

    /// Add a transition from state `from` to state `to`.
    pub fn transition(self, from: usize, to: usize) -> (b: Self)
        ensures
            b.pending().transitions@.dom() == self.pending().transitions@.dom().insert(from),
            b.pending().succ(from) == self.pending().succ(from).push(to),
            forall|s: usize| s != from ==> b.pending().succ(s) == self.pending().succ(s),
            b.pending().states == self.pending().states,
            b.pending().labeling == self.pending().labeling,
            b.pending().initial_states == self.pending().initial_states,
    {
        let mut b = self;
        match b.transitions.remove(&from) {
            Some(mut succs) => {
                succs.push(to);
                b.transitions.insert(from, succs);
            },
            None => {
                let mut succs: Vec<usize> = Vec::new();
                succs.push(to);
                b.transitions.insert(from, succs);
            },
        }
        proof {
            assert(b.transitions@.dom() =~= self.transitions@.dom().insert(from));
        }
        b
    }

    /// Label a state with an atomic proposition.
    pub fn label(self, state: usize, prop: &str) -> (b: Self)
        ensures
            b.pending().labeling@.dom() == self.pending().labeling@.dom().insert(state),
            b.pending().label_set(state) == self.pending().label_set(state).insert(prop@),
            forall|s: usize| s != state ==> b.pending().label_set(s) == self.pending().label_set(s),
            b.pending().states == self.pending().states,
            b.pending().transitions == self.pending().transitions,
            b.pending().initial_states == self.pending().initial_states,
    {
        let mut b = self;
        match b.labeling.remove(&state) {
            Some(mut props) => {
                label_set_insert(&mut props, String::from_str(prop));
                b.labeling.insert(state, props);
            },
            None => {
                let mut props: HashSet<String> = HashSet::new();
                proof {
                    assert(props@.map(|x: String| x@) =~= Set::empty());
                }
                label_set_insert(&mut props, String::from_str(prop));
                b.labeling.insert(state, props);
            },
        }
        proof {
            assert(b.labeling@.dom() =~= self.labeling@.dom().insert(state));
        }
        b
    }

    /// Mark a state as initial.
    pub fn initial_state(self, state: usize) -> (b: Self)
        ensures
            b.pending().initial_states@ == if self.pending().initial_states@.contains(state) {
                self.pending().initial_states@
            } else {
                self.pending().initial_states@.push(state)
            },
            b.pending().states == self.pending().states,
            b.pending().transitions == self.pending().transitions,
            b.pending().labeling == self.pending().labeling,
    {
        let mut b = self;
        if !slice_contains(b.initial_states.as_slice(), state) {
            b.initial_states.push(state);
        }
        b
    }

    /// Build the Kripke structure, validating it in the process.
    pub fn build(self) -> (r: Result<KripkeStruct, String>)
        ensures
            r is Ok <==> self.pending().wf(),
            r matches Ok(k) ==> k == self.pending(),
            r matches Err(e) ==> validation_error(self.pending(), e@),
    {
        let k = KripkeStruct {
            states: self.states,
            transitions: self.transitions,
            labeling: self.labeling,
            initial_states: self.initial_states,
        };
        match k.validate() {
            Ok(()) => Ok(k),
            Err(e) => Err(e),
        }
    }
}

impl Clone for KripkeBuilder {
    /// A builder holding the same states, transitions, labels and initial
    /// states.
    fn clone(&self) -> (r: Self)
        ensures
            r.pending().states@ == self.pending().states@,
            r.pending().transitions@ == self.pending().transitions@,
            r.pending().labeling@ == self.pending().labeling@,
            r.pending().initial_states@ == self.pending().initial_states@,
    {
        let states = self.states.clone();
        let initial_states = self.initial_states.clone();
        proof {
            assert(states@ =~= self.states@);
            assert(initial_states@ =~= self.initial_states@);
        }
        KripkeBuilder {
            states,
            transitions: self.transitions.clone(),
            labeling: self.labeling.clone(),
            initial_states,
        }
    }
}

impl Default for KripkeBuilder {
    fn default() -> (b: Self)
        ensures
            b.pending().states@.len() == 0,
            b.pending().transitions@ == Map::<usize, Vec<usize>>::empty(),
            b.pending().labeling@ == Map::<usize, HashSet<String>>::empty(),
            b.pending().initial_states@.len() == 0,
    {
        Self::new()
    }
}

// ---------------------------------------------------------------------------
// Validation messages

/// "Invalid transition source: state index {from}"
pub open spec fn bad_source_message(from: usize) -> Seq<char> {
    "Invalid transition source: state index "@ + decimal(from as nat)
}

/// "Invalid transition target: state index {to} from {from}"
pub open spec fn bad_target_message(to: usize, from: usize) -> Seq<char> {
    "Invalid transition target: state index "@ + decimal(to as nat) + " from "@ + decimal(
        from as nat,
    )
}

/// "Invalid initial state index: {s}"
pub open spec fn bad_initial_message(s: usize) -> Seq<char> {
    "Invalid initial state index: "@ + decimal(s as nat)
}

/// "State {i} ({name}) has no successors — transition relation must be total"
pub open spec fn dead_state_message(i: usize, name: Seq<char>) -> Seq<char> {
    "State "@ + decimal(i as nat) + " ("@ + name
        + ") has no successors — transition relation must be total"@
}

/// The message for one transition entry `from ↦ succ(from)` that refers to a
/// non-state: its source if that is out of range, else its first bad target.
pub open spec fn entry_error(k: KripkeStruct, from: usize, e: Seq<char>) -> bool {
    ||| from >= k.n() && e == bad_source_message(from)
    ||| from < k.n() && exists|j: int|
        0 <= j < k.succ(from).len() && k.succ(from)[j] >= k.n() && (forall|j2: int|
            0 <= j2 < j ==> k.succ(from)[j2] < k.n()) && e == bad_target_message(
            k.succ(from)[j],
            from,
        )
}

/// `e` is the message with which [`KripkeStruct::validate`] rejects `k`.
/// Transition entries are checked first, in the map's own order, so where
/// several are bad any of their messages may come; then the initial states, in
/// order; then totality, state by state.
pub open spec fn validation_error(k: KripkeStruct, e: Seq<char>) -> bool {
    if !k.transitions_valid() {
        exists|from: usize| k.transitions@.contains_key(from) && entry_error(k, from, e)
    } else if !k.initial_valid() {
        exists|i: int|
            0 <= i < k.initial_states@.len() && k.initial_states@[i] >= k.n() && (forall|i2: int|
                0 <= i2 < i ==> k.initial_states@[i2] < k.n()) && e == bad_initial_message(
                k.initial_states@[i],
            )
    } else {
        exists|s: usize|
            s < k.n() && k.succ(s).len() == 0 && (forall|s2: usize|
                s2 < s ==> k.succ(s2).len() > 0) && e == dead_state_message(
                s,
                k.states@[s as int]@,
            )
    }
}

fn bad_source_text(from: usize) -> (r: String)
    ensures
        r@ == bad_source_message(from),
{
    let mut s = String::from_str("Invalid transition source: state index ");
    s.append(decimal_text(from as u64).as_str());
    s
}

fn bad_target_text(to: usize, from: usize) -> (r: String)
    ensures
        r@ == bad_target_message(to, from),
{
    let mut s = String::from_str("Invalid transition target: state index ");
    s.append(decimal_text(to as u64).as_str());
    s.append(" from ");
    s.append(decimal_text(from as u64).as_str());
    s
}

fn bad_initial_text(st: usize) -> (r: String)
    ensures
        r@ == bad_initial_message(st),
{
    let mut s = String::from_str("Invalid initial state index: ");
    s.append(decimal_text(st as u64).as_str());
    s
}

fn dead_state_text(i: usize, name: &str) -> (r: String)
    ensures
        r@ == dead_state_message(i, name@),
{
    let mut s = String::from_str("State ");
    s.append(decimal_text(i as u64).as_str());
    s.append(" (");
    s.append(name);
    s.append(") has no successors — transition relation must be total");
    s
}

impl KripkeStruct {
    /// Checks one transition entry; `Err` carries the entry's message.
    fn check_entry(&self, from: usize, succs: &Vec<usize>) -> (r: Result<(), String>)
        requires
            self.succ(from) == succs@,
        ensures
            r is Ok <==> (from < self.n() && forall|t: usize| self.edge(from, t) ==> t < self.n()),
            r matches Err(e) ==> entry_error(*self, from, e@),
    {
        let n = self.states.len();
        if from >= n {
            return Err(bad_source_text(from));
        }
        let mut j: usize = 0;
        while j < succs.len()
            invariant
                j <= succs@.len(),
                n == self.n(),
                self.succ(from) == succs@,
                from < n,
                forall|j2: int| 0 <= j2 < j ==> succs@[j2] < n,
            decreases succs@.len() - j,
        {
            if succs[j] >= n {
                proof {
                    assert(self.edge(from, succs@[j as int]));
                }
                return Err(bad_target_text(succs[j], from));
            }
            j += 1;
        }
        proof {
            assert forall|t: usize| self.edge(from, t) implies t < self.n() by {
                let j2 = choose|j2: int| 0 <= j2 < succs@.len() && succs@[j2] == t;
            }
        }
        Ok(())
    }

    /// Validate the structure: all transitions refer to valid states,
    /// initial states are valid, and the transition relation is total.
    pub fn validate(&self) -> (r: Result<(), String>)
        ensures
            r is Ok <==> self.wf(),
            r matches Err(e) ==> validation_error(*self, e@),
    {
        let n = self.states.len();
        let ghost entries = self.transitions.iter().remaining();
        let ghost mut done: int = 0;
        for (from, tos) in it: self.transitions.iter()
            invariant
                n == self.n(),
                it.seq() == entries,
                forall|i: int|
                    0 <= i < entries.len() ==> self.transitions@.contains_key(*entries[i].0)
                        && self.transitions@[*entries[i].0] == *entries[i].1,
                forall|k: usize| #[trigger]
                    self.transitions@.contains_key(k) ==> entries.contains(
                        (&k, &self.transitions@[k]),
                    ),
                done == it.index(),
                0 <= done <= entries.len(),
                forall|i: int|
                    0 <= i < done ==> #[trigger] *entries[i].0 < n && forall|t: usize|
                        self.edge(*entries[i].0, t) ==> t < n,
        {
            proof {
                assert(entries[done] == (from, tos));
                assert(self.succ(*from) == tos@);
            }
            match self.check_entry(*from, tos) {
                Ok(()) => {},
                Err(e) => {
                    proof {
                        assert(!self.transitions_valid());
                    }
                    return Err(e);
                },
            }
            proof {
                done = done + 1;
            }
        }
        proof {
            assert(self.transitions_valid()) by {
                assert forall|s: usize| #[trigger] self.transitions@.contains_key(s) implies s < self.n()
                    && forall|t: usize| self.edge(s, t) ==> t < self.n() by {
                    assert(entries.contains((&s, &self.transitions@[s])));
                    let i = choose|i: int| 0 <= i < entries.len() && entries[i] == (&s, &self.transitions@[s]);
                    assert(*entries[i].0 == s);
                }
                assert forall|s: usize, t: usize| #[trigger] self.edge(s, t) implies t < self.n() by {
                    assert(self.transitions@.contains_key(s));
                }
            }
        }
        let mut i: usize = 0;
        while i < self.initial_states.len()
            invariant
                n == self.n(),
                self.transitions_valid(),
                i <= self.initial_states@.len(),
                forall|i2: int| 0 <= i2 < i ==> self.initial_states@[i2] < n,
            decreases self.initial_states@.len() - i,
        {
            let s = self.initial_states[i];
            if s >= n {
                return Err(bad_initial_text(s));
            }
            i += 1;
        }
        let mut i: usize = 0;
        while i < n
            invariant
                n == self.n(),
                self.transitions_valid(),
                self.initial_valid(),
                i <= n,
                forall|s2: usize| s2 < i ==> self.succ(s2).len() > 0,
            decreases n - i,
        {
            if self.successors(i).len() == 0 {
                return Err(dead_state_text(i, self.states[i].as_str()));
            }
            i += 1;
        }
        Ok(())
    }
}

} // verus!
