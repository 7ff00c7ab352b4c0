//! Deterministic transition systems given by a set of states and a partial
//! transition function.

use vstd::prelude::*;

verus! {

/// The target that `edges` gives for `q` and `a`: that of the first entry for
/// them.
pub open spec fn lookup(edges: Seq<(u32, char, u32)>, q: u32, a: char) -> Option<u32>
    decreases edges.len(),
{
    if edges.len() == 0 {
        None
    } else {
        match lookup(edges.drop_last(), q, a) {
            Some(t) => Some(t),
            None => if edges.last().0 == q && edges.last().1 == a {
                Some(edges.last().2)
            } else {
                None
            },
        }
    }
}

/// Place of the first entry of `edges` for `q` and `a`.
pub open spec fn entry_place(edges: Seq<(u32, char, u32)>, q: u32, a: char) -> Option<int>
    decreases edges.len(),
{
    if edges.len() == 0 {
        None
    } else {
        match entry_place(edges.drop_last(), q, a) {
            Some(i) => Some(i),
            None => if edges.last().0 == q && edges.last().1 == a {
                Some(edges.len() - 1)
            } else {
                None
            },
        }
    }
}

/// No state and symbol has two entries.
pub open spec fn keys_unique(edges: Seq<(u32, char, u32)>) -> bool {
    forall|i: int, j: int|
        0 <= i < j < edges.len() ==> !((#[trigger] edges[i]).0 == (#[trigger] edges[j]).0
            && edges[i].1 == edges[j].1)
}

/// `entry_place` finds the first entry for `q` and `a`, and `lookup` reads its
/// target.
pub proof fn lemma_entry_place(edges: Seq<(u32, char, u32)>, q: u32, a: char)
    ensures
        match entry_place(edges, q, a) {
            Some(i) => 0 <= i < edges.len() && edges[i].0 == q && edges[i].1 == a && lookup(
                edges,
                q,
                a,
            ) == Some(edges[i].2) && forall|j: int|
                0 <= j < i ==> !((#[trigger] edges[j]).0 == q && edges[j].1 == a),
            None => lookup(edges, q, a) is None && forall|j: int|
                0 <= j < edges.len() ==> !((#[trigger] edges[j]).0 == q && edges[j].1 == a),
        },
    decreases edges.len(),
{
    if edges.len() > 0 {
        let init = edges.drop_last();
        lemma_entry_place(init, q, a);
        assert forall|j: int| 0 <= j < init.len() implies init[j] == edges[j] by {}
    }
}

/// With unique keys, an entry for `q` and `a` is the one that `lookup` reads.
pub proof fn lemma_lookup_entry(edges: Seq<(u32, char, u32)>, i: int)
    requires
        keys_unique(edges),
        0 <= i < edges.len(),
    ensures
        lookup(edges, edges[i].0, edges[i].1) == Some(edges[i].2),
        entry_place(edges, edges[i].0, edges[i].1) == Some(i),
{
    lemma_entry_place(edges, edges[i].0, edges[i].1);
}

/// The symbols of `edges`, in order of first occurrence.
pub open spec fn symbols_of_edges(edges: Seq<(u32, char, u32)>) -> Seq<char> {
    crate::alphabet::first_occurrences(edges.map_values(|e: (u32, char, u32)| e.1))
}

/// `s` without its entry at place `i`.
pub open spec fn without<T>(s: Seq<T>, i: int) -> Seq<T> {
    s.subrange(0, i) + s.subrange(i + 1, s.len() as int)
}

/// An implementation of a deterministic transition system, stored as a list of
/// its states and a list of its transitions.
#[derive(Clone, Debug, PartialEq, Eq)]
pub struct Deterministic {
    states: Vec<u32>,
    edges: Vec<(u32, char, u32)>,
}

/// Stores a [`Deterministic`] transition system with an initial state.
#[derive(Clone, Debug, PartialEq, Eq)]
pub struct InitializedDeterministic {
    det: Deterministic,
    initial: u32,
}

/// A walk over the states of a deterministic transition system, in the order
/// in which they were added.
#[derive(Clone, Debug)]
pub struct StateIter<'a> {
    states: &'a Vec<u32>,
    position: usize,
}

impl<'a> StateIter<'a> {
    /// The states that are walked over.
    pub closed spec fn spec_states(&self) -> Seq<u32> {
        self.states@
    }

    /// Number of states that were handed out.
    pub closed spec fn spec_position(&self) -> nat {
        self.position as nat
    }

    /// The next state, if any is left.
    pub fn next(&mut self) -> (state: Option<u32>)
        ensures
            final(self).spec_states() == old(self).spec_states(),
            match state {
                Some(q) => old(self).spec_position() < old(self).spec_states().len() && q == old(self).spec_states()[old(self).spec_position() as int] && final(self).spec_position()
                    == old(self).spec_position() + 1,
                None => old(self).spec_position() >= old(self).spec_states().len() && final(self).spec_position() == old(self).spec_position(),
            },
    {
        if self.position < self.states.len() {
            let q = self.states[self.position];
            self.position = self.position + 1;
            Some(q)
        } else {
            None
        }
    }
}

impl Deterministic {
    /// The states, in the order in which they were added.
    pub closed spec fn spec_states(&self) -> Seq<u32> {
        self.states@
    }

    /// The transitions `(from, on, to)`, in the order in which their state and
    /// symbol first got one.
    pub closed spec fn spec_edges(&self) -> Seq<(u32, char, u32)> {
        self.edges@
    }

    /// No state is listed twice, and no state and symbol has two transitions.
    pub open spec fn wf(&self) -> bool {
        &&& self.spec_states().no_duplicates()
        &&& keys_unique(self.spec_edges())
    }

    /// The state reached from `q` on `a`, if any.
    pub open spec fn spec_succ(&self, q: u32, a: char) -> Option<u32> {
        lookup(self.spec_edges(), q, a)
    }

    /// The state reached from `q` by reading `word`, if every step is taken.
    pub open spec fn spec_run(&self, q: u32, word: Seq<char>) -> Option<u32>
        decreases word.len(),
    {
        if word.len() == 0 {
            Some(q)
        } else {
            match self.spec_run(q, word.drop_last()) {
                Some(t) => self.spec_succ(t, word.last()),
                None => None,
            }
        }
    }

    /// Create a new empty deterministic transition system.
    pub fn new() -> (ts: Self)
        ensures
            ts.wf(),
            ts.spec_states() == Seq::<u32>::empty(),
            ts.spec_edges() == Seq::<(u32, char, u32)>::empty(),
    {
        Deterministic { edges: Vec::new(), states: Vec::new() }
    }

    /// The transition system without states and transitions.
    pub fn trivial() -> (ts: Self)
        ensures
            ts.wf(),
            ts.spec_states() == Seq::<u32>::empty(),
            ts.spec_edges() == Seq::<(u32, char, u32)>::empty(),
    {
        Deterministic { states: Vec::new(), edges: Vec::new() }
    }

    /// Place of `state` among the states.
    fn state_place(&self, state: u32) -> (place: Option<usize>)
        ensures
            match place {
                Some(i) => i < self.spec_states().len() && self.spec_states()[i as int] == state,
                None => !self.spec_states().contains(state),
            },
    {
        let mut i: usize = 0;
        while i < self.states.len()
            invariant
                i <= self.states@.len(),
                forall|j: int| 0 <= j < i ==> self.states@[j] != state,
            decreases self.states@.len() - i,
        {
            if self.states[i] == state {
                return Some(i);
            }
            i = i + 1;
        }
        None
    }

    /// Place of the transition from `from` on `on`.
    fn edge_place(&self, from: u32, on: char) -> (place: Option<usize>)
        ensures
            match place {
                Some(i) => entry_place(self.spec_edges(), from, on) == Some(i as int),
                None => entry_place(self.spec_edges(), from, on) is None,
            },
    {
        let mut i: usize = 0;
        while i < self.edges.len()
            invariant
                i <= self.edges@.len(),
                forall|j: int|
                    0 <= j < i ==> !((#[trigger] self.edges@[j]).0 == from && self.edges@[j].1
                        == on),
            decreases self.edges@.len() - i,
        {
            if self.edges[i].0 == from && self.edges[i].1 == on {
                proof {
                    lemma_entry_place(self.edges@, from, on);
                }
                return Some(i);
            }
            i = i + 1;
        }
        proof {
            lemma_entry_place(self.edges@, from, on);
        }
        None
    }

    /// Whether `state` is a state.
    pub fn contains_state(&self, state: u32) -> (b: bool)
        ensures
            b == self.spec_states().contains(state),
    {
        self.state_place(state).is_some()
    }

    /// Adds `state`. Returns whether it was new.
    pub fn add_state(&mut self, state: u32) -> (added: bool)
        ensures
            added == !old(self).spec_states().contains(state),
            final(self).spec_states() == if added {
                old(self).spec_states().push(state)
            } else {
                old(self).spec_states()
            },
            final(self).spec_edges() == old(self).spec_edges(),
            old(self).wf() ==> final(self).wf(),
    {
        if self.state_place(state).is_some() {
            false
        } else {
            self.states.push(state);
            proof {
                if old(self).wf() {
                    let after = self.states@;
                    let before = old(self).states@;
                    assert forall|i: int, j: int|
                        0 <= i < after.len() && 0 <= j < after.len() && i != j implies after[i]
                        != after[j] by {
                        if i < before.len() && j < before.len() {
                            assert(before[i] != before[j]);
                        } else if i < before.len() {
                            assert(before[i] == after[i]);
                            assert(before.contains(before[i]));
                        } else {
                            assert(before[j] == after[j]);
                            assert(before.contains(before[j]));
                        }
                    }
                }
            }
            true
        }
    }

    /// Adds a state numbered by the number of states so far, and returns it.
    /// That number must not be taken.
    pub fn add_new_state(&mut self) -> (state: u32)
        requires
            old(self).spec_states().len() <= u32::MAX,
            !old(self).spec_states().contains(old(self).spec_states().len() as u32),
        ensures
            state == old(self).spec_states().len(),
            final(self).spec_states() == old(self).spec_states().push(state),
            final(self).spec_edges() == old(self).spec_edges(),
            old(self).wf() ==> final(self).wf(),
    {
        let id: u32 = self.states.len() as u32;
        self.add_state(id);
        id
    }

    /// Sets the transition from `from` on `on` to lead to `to`. Returns where
    /// it led before, if it was there.
    pub fn add_transition(&mut self, from: u32, on: char, to: u32) -> (previous: Option<u32>)
        requires
            old(self).wf(),
        ensures
            final(self).wf(),
            previous == old(self).spec_succ(from, on),
            final(self).spec_states() == old(self).spec_states(),
            final(self).spec_edges() == match entry_place(old(self).spec_edges(), from, on) {
                Some(i) => old(self).spec_edges().update(i, (from, on, to)),
                None => old(self).spec_edges().push((from, on, to)),
            },
            forall|q: u32, a: char|
                #[trigger] final(self).spec_succ(q, a) == if q == from && a == on {
                    Some(to)
                } else {
                    old(self).spec_succ(q, a)
                },
    {
        let ghost before = self.edges@;
        proof {
            lemma_entry_place(before, from, on);
        }
        match self.edge_place(from, on) {
            Some(i) => {
                let previous = self.edges[i].2;
                self.edges.set(i, (from, on, to));
                proof {
                    let after = self.edges@;
                    assert forall|x: int, y: int| 0 <= x < y < after.len() implies !((
                    #[trigger] after[x]).0 == (#[trigger] after[y]).0 && after[x].1
                        == after[y].1) by {
                        assert(before[x].0 == after[x].0 && before[x].1 == after[x].1);
                        assert(before[y].0 == after[y].0 && before[y].1 == after[y].1);
                    }
                    assert forall|q: u32, a: char| #[trigger]
                        lookup(after, q, a) == if q == from && a == on {
                            Some(to)
                        } else {
                            lookup(before, q, a)
                        } by {
                        lemma_entry_place(before, q, a);
                        lemma_entry_place(after, q, a);
                        match entry_place(before, q, a) {
                            Some(j) => {
                                assert(after[j].0 == q && after[j].1 == a);
                                match entry_place(after, q, a) {
                                    Some(l) => {
                                        assert(before[l].0 == q && before[l].1 == a);
                                    },
                                    None => {},
                                }
                            },
                            None => {
                                match entry_place(after, q, a) {
                                    Some(l) => {
                                        assert(before[l].0 == q && before[l].1 == a);
                                    },
                                    None => {},
                                }
                            },
                        }
                    }
                }
                Some(previous)
            },
            None => {
                self.edges.push((from, on, to));
                proof {
                    let after = self.edges@;
                    assert(after.drop_last() == before);
                    assert forall|x: int, y: int| 0 <= x < y < after.len() implies !((
                    #[trigger] after[x]).0 == (#[trigger] after[y]).0 && after[x].1
                        == after[y].1) by {
                        assert(after[x] == before[x]);
                        if y < before.len() {
                            assert(after[y] == before[y]);
                        }
                    }
                    assert forall|q: u32, a: char| #[trigger]
                        lookup(after, q, a) == if q == from && a == on {
                            Some(to)
                        } else {
                            lookup(before, q, a)
                        } by {}
                }
                None
            },
        }
    }

    /// Removes `state`. Returns it if it was a state. Transitions are left as
    /// they are.
    pub fn remove_state(&mut self, state: u32) -> (removed: Option<u32>)
        ensures
            removed == if old(self).spec_states().contains(state) {
                Some(state)
            } else {
                None
            },
            match removed {
                Some(_) => exists|i: int|
                    0 <= i < old(self).spec_states().len() && old(self).spec_states()[i] == state
                        && final(self).spec_states() == #[trigger] without(
                        old(self).spec_states(),
                        i,
                    ),
                None => final(self).spec_states() == old(self).spec_states(),
            },
            final(self).spec_edges() == old(self).spec_edges(),
    {
        match self.state_place(state) {
            Some(i) => {
                self.states.remove(i);
                assert(self.states@ =~= without(old(self).states@, i as int));
                Some(state)
            },
            None => None,
        }
    }

    /// Removes the transition from `from` on `on`. Returns where it led, if it
    /// was there.
    pub fn remove_transition(&mut self, from: u32, on: char) -> (previous: Option<u32>)
        requires
            old(self).wf(),
        ensures
            final(self).wf(),
            previous == old(self).spec_succ(from, on),
            final(self).spec_states() == old(self).spec_states(),
            final(self).spec_edges() == match entry_place(old(self).spec_edges(), from, on) {
                Some(i) => without(old(self).spec_edges(), i),
                None => old(self).spec_edges(),
            },
            forall|q: u32, a: char|
                #[trigger] final(self).spec_succ(q, a) == if q == from && a == on {
                    None
                } else {
                    old(self).spec_succ(q, a)
                },
    {
        let ghost before = self.edges@;
        proof {
            lemma_entry_place(before, from, on);
        }
        match self.edge_place(from, on) {
            Some(i) => {
                let previous = self.edges[i].2;
                self.edges.remove(i);
                proof {
                    let after = self.edges@;
                    assert(after =~= without(before, i as int));
                    assert forall|x: int| 0 <= x < after.len() implies #[trigger] after[x] == before[if x
                        < i {
                        x
                    } else {
                        x + 1
                    }] by {}
                    assert forall|x: int, y: int| 0 <= x < y < after.len() implies !((
                    #[trigger] after[x]).0 == (#[trigger] after[y]).0 && after[x].1
                        == after[y].1) by {
                        let bx = if x < i { x } else { x + 1 };
                        let by = if y < i { y } else { y + 1 };
                        assert(after[x] == before[bx]);
                        assert(after[y] == before[by]);
                    }
                    assert forall|q: u32, a: char| #[trigger]
                        lookup(after, q, a) == if q == from && a == on {
                            None
                        } else {
                            lookup(before, q, a)
                        } by {
                        lemma_entry_place(before, q, a);
                        lemma_entry_place(after, q, a);
                        match entry_place(after, q, a) {
                            Some(l) => {
                                let bl = if l < i { l } else { l + 1 };
                                assert(after[l] == before[bl]);
                                lemma_lookup_entry(before, bl);
                                lemma_lookup_entry(before, i as int);
                            },
                            None => {
                                match entry_place(before, q, a) {
                                    Some(j) => {
                                        if j != i {
                                            let aj = if j < i { j } else { j - 1 };
                                            assert(after[aj] == before[j]);
                                        } else {
                                            lemma_lookup_entry(before, i as int);
                                        }
                                    },
                                    None => {},
                                }
                            },
                        }
                    }
                }
                Some(previous)
            },
            None => None,
        }
    }

    /// The state reached from `from` on `on`, if any.
    pub fn succ(&self, from: u32, on: char) -> (target: Option<u32>)
        ensures
            target == self.spec_succ(from, on),
    {
        proof {
            lemma_entry_place(self.edges@, from, on);
        }
        match self.edge_place(from, on) {
            Some(i) => Some(self.edges[i].2),
            None => None,
        }
    }

    /// The states, in the order in which they were added.
    pub fn vec_states(&self) -> (states: Vec<u32>)
        ensures
            states@ == self.spec_states(),
    {
        let mut out: Vec<u32> = Vec::new();
        let mut i: usize = 0;
        while i < self.states.len()
            invariant
                i <= self.states@.len(),
                out@ == self.states@.subrange(0, i as int),
            decreases self.states@.len() - i,
        {
            out.push(self.states[i]);
            i = i + 1;
        }
        assert(self.states@.subrange(0, self.states@.len() as int) == self.states@);
        out
    }

    /// A walk over the states, in the order in which they were added.
    pub fn states_iter(&self) -> (iter: StateIter<'_>)
        ensures
            iter.spec_states() == self.spec_states(),
            iter.spec_position() == 0,
    {
        StateIter { states: &self.states, position: 0 }
    }

    /// The transitions `(from, on, to)`, in the order in which their state and
    /// symbol first got one.
    pub fn edges_iter(&self) -> (edges: Vec<(u32, char, u32)>)
        ensures
            edges@ == self.spec_edges(),
    {
        let mut out: Vec<(u32, char, u32)> = Vec::new();
        let mut i: usize = 0;
        while i < self.edges.len()
            invariant
                i <= self.edges@.len(),
                out@ == self.edges@.subrange(0, i as int),
            decreases self.edges@.len() - i,
        {
            out.push(self.edges[i]);
            i = i + 1;
        }
        assert(self.edges@.subrange(0, self.edges@.len() as int) == self.edges@);
        out
    }

    /// The pairs of a state and a symbol that have a transition, in the order
    /// in which they first got one.
    pub fn triggers_iter(&self) -> (triggers: Vec<(u32, char)>)
        ensures
            triggers@ == self.spec_edges().map_values(|e: (u32, char, u32)| (e.0, e.1)),
    {
        let mut out: Vec<(u32, char)> = Vec::new();
        let mut i: usize = 0;
        while i < self.edges.len()
            invariant
                i <= self.edges@.len(),
                out@ == self.edges@.subrange(0, i as int).map_values(
                    |e: (u32, char, u32)| (e.0, e.1),
                ),
            decreases self.edges@.len() - i,
        {
            out.push((self.edges[i].0, self.edges[i].1));
            assert(out@ =~= self.edges@.subrange(0, i + 1).map_values(
                |e: (u32, char, u32)| (e.0, e.1),
            ));
            i = i + 1;
        }
        assert(self.edges@.subrange(0, self.edges@.len() as int) == self.edges@);
        out
    }

    /// The symbols on which there are transitions, in order of first
    /// occurrence.
    pub fn vec_alphabet(&self) -> (symbols: Vec<char>)
        ensures
            symbols@ == symbols_of_edges(self.spec_edges()),
    {
        let mut all: Vec<char> = Vec::new();
        let mut i: usize = 0;
        while i < self.edges.len()
            invariant
                i <= self.edges@.len(),
                all@ == self.edges@.subrange(0, i as int).map_values(|e: (u32, char, u32)| e.1),
            decreases self.edges@.len() - i,
        {
            all.push(self.edges[i].1);
            assert(all@ =~= self.edges@.subrange(0, i + 1).map_values(
                |e: (u32, char, u32)| e.1,
            ));
            i = i + 1;
        }
        assert(self.edges@.subrange(0, self.edges@.len() as int) == self.edges@);
        let alphabet = crate::alphabet::Alphabet::from_symbols(all);
        let mut out: Vec<char> = Vec::new();
        let mut k: usize = 0;
        while k < alphabet.size()
            invariant
                k <= alphabet@.len(),
                out@ == alphabet@.subrange(0, k as int),
            decreases alphabet@.len() - k,
        {
            out.push(alphabet.symbol(k));
            k = k + 1;
        }
        assert(alphabet@.subrange(0, alphabet@.len() as int) == alphabet@);
        out
    }

    /// The state reached from `from` by reading `word`, or the place at which
    /// the run stops: the number of symbols read, the state reached with them
    /// and the symbol on which it has no transition.
    pub fn run_from(&self, from: u32, word: &Vec<char>) -> (end: Result<u32, (usize, u32, char)>)
        ensures
            match end {
                Ok(t) => self.spec_run(from, word@) == Some(t),
                Err((n, q, a)) => n < word@.len() && a == word@[n as int] && self.spec_run(
                    from,
                    word@.subrange(0, n as int),
                ) == Some(q) && self.spec_succ(q, a) is None && self.spec_run(from, word@) is None,
            },
    {
        let mut cur: u32 = from;
        let mut i: usize = 0;
        while i < word.len()
            invariant
                i <= word@.len(),
                self.spec_run(from, word@.subrange(0, i as int)) == Some(cur),
            decreases word@.len() - i,
        {
            proof {
                let next = word@.subrange(0, i + 1);
                assert(next.drop_last() == word@.subrange(0, i as int));
                assert(next.last() == word@[i as int]);
            }
            match self.succ(cur, word[i]) {
                Some(t) => {
                    cur = t;
                },
                None => {
                    proof {
                        self.lemma_run_stops(from, word@, i as int + 1);
                    }
                    return Err((i, cur, word[i]));
                },
            }
            i = i + 1;
        }
        assert(word@.subrange(0, word@.len() as int) == word@);
        Ok(cur)
    }

    /// A run that cannot read the first `n` symbols of a word cannot read the
    /// word.
    pub proof fn lemma_run_stops(&self, from: u32, word: Seq<char>, n: int)
        requires
            0 <= n <= word.len(),
            self.spec_run(from, word.subrange(0, n)) is None,
        ensures
            self.spec_run(from, word) is None,
        decreases word.len() - n,
    {
        if n < word.len() {
            let next = word.subrange(0, n + 1);
            assert(next.drop_last() == word.subrange(0, n));
            self.lemma_run_stops(from, word, n + 1);
        } else {
            assert(word.subrange(0, n) == word);
        }
    }
}

impl InitializedDeterministic {
    /// The transition system.
    pub closed spec fn spec_det(&self) -> Deterministic {
        self.det
    }

    /// The initial state.
    pub closed spec fn spec_initial(&self) -> u32 {
        self.initial
    }

    /// `det` with `initial` as its initial state.
    pub fn from_parts(det: Deterministic, initial: u32) -> (ts: Self)
        ensures
            ts.spec_det() == det,
            ts.spec_initial() == initial,
    {
        InitializedDeterministic { det, initial }
    }

    /// The transition system without states and transitions, with 0 as the
    /// initial state.
    pub fn trivial() -> (ts: Self)
        ensures
            ts.spec_det().wf(),
            ts.spec_det().spec_states() == Seq::<u32>::empty(),
            ts.spec_det().spec_edges() == Seq::<(u32, char, u32)>::empty(),
            ts.spec_initial() == 0,
    {
        InitializedDeterministic { det: Deterministic::trivial(), initial: 0 }
    }

    /// The initial state.
    pub fn initial(&self) -> (state: u32)
        ensures
            state == self.spec_initial(),
    {
        self.initial
    }

    /// The transition system.
    pub fn det(&self) -> (det: &Deterministic)
        ensures
            *det == self.spec_det(),
    {
        &self.det
    }

    /// The state reached from `from` on `on`, if any.
    pub fn succ(&self, from: u32, on: char) -> (target: Option<u32>)
        ensures
            target == self.spec_det().spec_succ(from, on),
    {
        self.det.succ(from, on)
    }

    /// The states, in the order in which they were added.
    pub fn vec_states(&self) -> (states: Vec<u32>)
        ensures
            states@ == self.spec_det().spec_states(),
    {
        self.det.vec_states()
    }

    /// The symbols on which there are transitions, in order of first
    /// occurrence.
    pub fn vec_alphabet(&self) -> (symbols: Vec<char>)
        ensures
            symbols@ == symbols_of_edges(self.spec_det().spec_edges()),
    {
        self.det.vec_alphabet()
    }

    /// A walk over the states, in the order in which they were added.
    pub fn states_iter(&self) -> (iter: StateIter<'_>)
        ensures
            iter.spec_states() == self.spec_det().spec_states(),
            iter.spec_position() == 0,
    {
        self.det.states_iter()
    }

    /// The transitions `(from, on, to)`, in the order in which their state and
    /// symbol first got one.
    pub fn edges_iter(&self) -> (edges: Vec<(u32, char, u32)>)
        ensures
            edges@ == self.spec_det().spec_edges(),
    {
        self.det.edges_iter()
    }

    /// The pairs of a state and a symbol that have a transition, in the order
    /// in which they first got one.
    pub fn triggers_iter(&self) -> (triggers: Vec<(u32, char)>)
        ensures
            triggers@ == self.spec_det().spec_edges().map_values(
                |e: (u32, char, u32)| (e.0, e.1),
            ),
    {
        self.det.triggers_iter()
    }

    /// Adds `state`. Returns whether it was new.
    pub fn add_state(&mut self, state: u32) -> (added: bool)
        ensures
            added == !old(self).spec_det().spec_states().contains(state),
            final(self).spec_det().spec_states() == if added {
                old(self).spec_det().spec_states().push(state)
            } else {
                old(self).spec_det().spec_states()
            },
            final(self).spec_det().spec_edges() == old(self).spec_det().spec_edges(),
            final(self).spec_initial() == old(self).spec_initial(),
            old(self).spec_det().wf() ==> final(self).spec_det().wf(),
    {
        self.det.add_state(state)
    }

    /// Adds a state numbered by the number of states so far, and returns it.
    /// That number must not be taken.
    pub fn add_new_state(&mut self) -> (state: u32)
        requires
            old(self).spec_det().spec_states().len() <= u32::MAX,
            !old(self).spec_det().spec_states().contains(
                old(self).spec_det().spec_states().len() as u32,
            ),
        ensures
            state == old(self).spec_det().spec_states().len(),
            final(self).spec_det().spec_states() == old(self).spec_det().spec_states().push(state),
            final(self).spec_det().spec_edges() == old(self).spec_det().spec_edges(),
            final(self).spec_initial() == old(self).spec_initial(),
    {
        self.det.add_new_state()
    }

    /// Sets the transition from `from` on `on` to lead to `to`. Returns where
    /// it led before, if it was there.
    pub fn add_transition(&mut self, from: u32, on: char, to: u32) -> (previous: Option<u32>)
        requires
            old(self).spec_det().wf(),
        ensures
            final(self).spec_det().wf(),
            previous == old(self).spec_det().spec_succ(from, on),
            final(self).spec_det().spec_states() == old(self).spec_det().spec_states(),
            final(self).spec_initial() == old(self).spec_initial(),
            forall|q: u32, a: char|
                #[trigger] final(self).spec_det().spec_succ(q, a) == if q == from && a == on {
                    Some(to)
                } else {
                    old(self).spec_det().spec_succ(q, a)
                },
    {
        self.det.add_transition(from, on, to)
    }

    /// Removes `state`. Returns it if it was a state.
    pub fn remove_state(&mut self, state: u32) -> (removed: Option<u32>)
        ensures
            removed == if old(self).spec_det().spec_states().contains(state) {
                Some(state)
            } else {
                None
            },
            final(self).spec_det().spec_edges() == old(self).spec_det().spec_edges(),
            final(self).spec_initial() == old(self).spec_initial(),
    {
        self.det.remove_state(state)
    }

    /// Removes the transition from `from` on `on`. Returns where it led, if it
    /// was there.
    pub fn remove_transition(&mut self, from: u32, on: char) -> (previous: Option<u32>)
        requires
            old(self).spec_det().wf(),
        ensures
            final(self).spec_det().wf(),
            previous == old(self).spec_det().spec_succ(from, on),
            final(self).spec_det().spec_states() == old(self).spec_det().spec_states(),
            final(self).spec_initial() == old(self).spec_initial(),
            forall|q: u32, a: char|
                #[trigger] final(self).spec_det().spec_succ(q, a) == if q == from && a == on {
                    None
                } else {
                    old(self).spec_det().spec_succ(q, a)
                },
    {
        self.det.remove_transition(from, on)
    }
}

} // verus!
