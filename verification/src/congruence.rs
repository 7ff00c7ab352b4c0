//! Right congruences: deterministic transition systems whose states are named
//! by classes, with state 0 as the initial state.

use crate::alphabet::Alphabet;
use crate::class::Class;
use crate::index_ts::{run, Edge, IndexTS};
use crate::reach::{lists_state, reachable, representatives};
use vstd::prelude::*;

verus! {

/// A right congruence, given by its quotient structure: one state per class,
/// numbered in the order of creation, state 0 being the class of the empty
/// word.
#[derive(Clone, Debug, PartialEq, Eq)]
pub struct RightCongruence {
    ts: IndexTS<Class, ()>,
}

/// The labels of `states` as sequences of symbols.
pub open spec fn labels_of(states: Seq<Class>) -> Seq<Seq<char>> {
    states.map_values(|c: Class| c@)
}

impl RightCongruence {
    /// The underlying transition system.
    pub closed spec fn spec_ts(&self) -> IndexTS<Class, ()> {
        self.ts
    }

    /// The labels of the states, by state number.
    pub open spec fn spec_labels(&self) -> Seq<Seq<char>> {
        labels_of(self.spec_ts().spec_states())
    }

    /// The edges, in the order in which they were added.
    pub open spec fn spec_edges(&self) -> Seq<Edge<()>> {
        self.spec_ts().spec_edges()
    }

    /// The symbols of the alphabet, in enumeration order.
    pub open spec fn spec_alphabet(&self) -> Seq<char> {
        self.spec_ts().spec_alphabet()
    }

    /// Number of states.
    pub open spec fn spec_size(&self) -> nat {
        self.spec_ts().spec_size()
    }

    /// The structure is well formed and has its initial state.
    pub open spec fn wf(&self) -> bool {
        &&& self.spec_ts().wf()
        &&& self.spec_size() >= 1
    }

    /// The state reached from `q` on `a`, if any.
    pub open spec fn spec_successor(&self, q: int, a: char) -> Option<int> {
        self.spec_ts().spec_successor(q, a)
    }

    /// The state reached from the initial state by reading `word`, if every
    /// step is taken.
    pub open spec fn spec_reached(&self, word: Seq<char>) -> Option<int> {
        self.spec_ts().spec_run(0, word)
    }

    /// Every state has an edge for every symbol of the alphabet.
    pub open spec fn spec_complete(&self) -> bool {
        forall|q: int, k: int|
            0 <= q < self.spec_size() && 0 <= k < self.spec_alphabet().len()
                ==> #[trigger] self.spec_successor(q, self.spec_alphabet()[k]) is Some
    }

    /// No state has two edges for one symbol, and every edge is on a symbol of
    /// the alphabet.
    pub open spec fn spec_deterministic(&self) -> bool {
        &&& forall|i: int, j: int|
            0 <= i < j < self.spec_edges().len() ==> !(#[trigger] self.spec_edges()[i].source
                == (#[trigger] self.spec_edges()[j]).source && self.spec_edges()[i].symbol
                == self.spec_edges()[j].symbol)
        &&& forall|i: int|
            0 <= i < self.spec_edges().len() ==> self.spec_alphabet().contains(
                (#[trigger] self.spec_edges()[i]).symbol,
            )
    }

    /// The congruence with the class of the empty word as its only state, and
    /// no edge.
    pub fn new(alphabet: Alphabet) -> (cong: RightCongruence)
        requires
            alphabet.wf(),
        ensures
            cong.wf(),
            cong.spec_alphabet() == alphabet@,
            cong.spec_labels() == seq![Seq::<char>::empty()],
            cong.spec_edges() == Seq::<Edge<()>>::empty(),
    {
        let mut ts: IndexTS<Class, ()> = IndexTS::new(alphabet);
        ts.add_state(Class::epsilon());
        let cong = RightCongruence { ts };
        assert(cong.spec_labels() =~= seq![Seq::<char>::empty()]);
        cong
    }

    /// Takes `ts` as the structure of a right congruence. It must have a state
    /// 0.
    pub fn from_ts(ts: IndexTS<Class, ()>) -> (cong: RightCongruence)
        requires
            ts.wf(),
            ts.spec_size() >= 1,
        ensures
            cong.wf(),
            cong.spec_ts() == ts,
    {
        RightCongruence { ts }
    }

    /// The underlying transition system.
    pub fn ts(&self) -> (ts: &IndexTS<Class, ()>)
        ensures
            *ts == self.spec_ts(),
    {
        &self.ts
    }

    /// The alphabet.
    pub fn alphabet(&self) -> (alphabet: &Alphabet)
        ensures
            alphabet@ == self.spec_alphabet(),
            self.wf() ==> alphabet.wf(),
    {
        self.ts.alphabet()
    }

    /// The initial state.
    pub fn initial(&self) -> (index: usize)
        ensures
            index == 0,
    {
        0
    }

    /// Number of states.
    pub fn size(&self) -> (n: usize)
        ensures
            n == self.spec_size(),
    {
        self.ts.size()
    }

    /// The numbers of all states, ascending.
    pub fn state_indices(&self) -> (indices: Vec<usize>)
        ensures
            indices@.len() == self.spec_size(),
            forall|i: int| 0 <= i < indices@.len() ==> indices@[i] == i,
    {
        self.ts.state_indices()
    }

    /// The label of state `index`.
    pub fn state_color(&self, index: usize) -> (label: &Class)
        requires
            index < self.spec_size(),
        ensures
            label@ == self.spec_labels()[index as int],
    {
        self.ts.state_color(index)
    }

    /// Gives state `index` the label `label`.
    pub fn set_state_color(&mut self, index: usize, label: Class)
        requires
            index < old(self).spec_size(),
        ensures
            final(self).spec_labels() == old(self).spec_labels().update(index as int, label@),
            final(self).spec_edges() == old(self).spec_edges(),
            final(self).spec_alphabet() == old(self).spec_alphabet(),
            old(self).wf() ==> final(self).wf(),
    {
        self.ts.set_state_color(index, label);
        assert(self.spec_labels() =~= old(self).spec_labels().update(index as int, label@));
    }

    /// Adds a state labelled `label` and returns its number.
    pub fn add_state(&mut self, label: Class) -> (index: usize)
        ensures
            index == old(self).spec_size(),
            final(self).spec_labels() == old(self).spec_labels().push(label@),
            final(self).spec_edges() == old(self).spec_edges(),
            final(self).spec_alphabet() == old(self).spec_alphabet(),
            old(self).wf() ==> final(self).wf(),
    {
        let index = self.ts.add_state(label);
        assert(self.spec_labels() =~= old(self).spec_labels().push(label@));
        index
    }

    /// Adds an edge from `from` to `to` on `on`. Both states must exist.
    pub fn add_edge(&mut self, from: usize, on: char, to: usize) -> (place: usize)
        requires
            from < old(self).spec_size(),
            to < old(self).spec_size(),
        ensures
            place == old(self).spec_edges().len(),
            final(self).spec_edges() == old(self).spec_edges().push(
                Edge { source: from, symbol: on, target: to, color: () },
            ),
            final(self).spec_labels() == old(self).spec_labels(),
            final(self).spec_alphabet() == old(self).spec_alphabet(),
            old(self).wf() ==> final(self).wf(),
    {
        self.ts.add_edge(from, on, to, ())
    }

    /// Takes back the edge that was added last. Returns whether there was one.
    pub fn undo_add_edge(&mut self) -> (undone: bool)
        ensures
            undone == (old(self).spec_edges().len() > 0),
            final(self).spec_edges() == if undone {
                old(self).spec_edges().drop_last()
            } else {
                old(self).spec_edges()
            },
            final(self).spec_labels() == old(self).spec_labels(),
            final(self).spec_alphabet() == old(self).spec_alphabet(),
            old(self).wf() ==> final(self).wf(),
    {
        self.ts.undo_add_edge()
    }

    /// The state reached from `state` on `symbol`, if an edge is taken.
    pub fn successor(&self, state: usize, symbol: char) -> (t: Option<usize>)
        ensures
            match t {
                Some(t) => self.spec_successor(state as int, symbol) == Some(t as int),
                None => self.spec_successor(state as int, symbol) is None,
            },
    {
        self.ts.target(state, symbol)
    }

    /// The first state that is labelled `class`, if there is one.
    pub fn class_to_index(&self, class: &Class) -> (index: Option<usize>)
        ensures
            match index {
                Some(i) => i < self.spec_size() && self.spec_labels()[i as int] == class@
                    && forall|j: int| 0 <= j < i ==> self.spec_labels()[j] != class@,
                None => !self.spec_labels().contains(class@),
            },
    {
        let n = self.ts.size();
        let mut i: usize = 0;
        while i < n
            invariant
                n == self.spec_size(),
                i <= n,
                forall|j: int| 0 <= j < i ==> self.spec_labels()[j] != class@,
            decreases n - i,
        {
            if self.ts.state_color(i).same(class) {
                return Some(i);
            }
            i = i + 1;
        }
        None
    }

    /// The state reached from the initial state by reading `word`, if every
    /// step is taken.
    pub fn reached_state_index(&self, word: &Vec<char>) -> (end: Option<usize>)
        ensures
            match end {
                Some(t) => self.spec_reached(word@) == Some(t as int),
                None => self.spec_reached(word@) is None,
            },
    {
        self.ts.reached_from(0, word)
    }

    /// The label of the state reached from the initial state by reading the
    /// symbols of `text`, if every step is taken.
    pub fn reached_color(&self, text: &str) -> (label: Option<Class>)
        requires
            self.wf(),
        ensures
            match label {
                Some(c) => self.spec_reached(text@) matches Some(t) && 0 <= t < self.spec_size()
                    && c@ == self.spec_labels()[t],
                None => self.spec_reached(text@) is None,
            },
    {
        let word = Class::from_text(text);
        match self.ts.reached_from(0, &word.0) {
            Some(t) => {
                proof {
                    crate::index_ts::lemma_run_in_range(
                        self.spec_edges(),
                        self.spec_size(),
                        0,
                        text@,
                    );
                }
                Some(self.ts.state_color(t).duplicate())
            },
            None => None,
        }
    }
    /// Names every state that a run from the initial state reaches by a
    /// shortest word that leads to it: the one with which a breadth-first
    /// search finds it. The other states keep their names.
    pub fn recompute_labels(&mut self)
        requires
            old(self).wf(),
        ensures
            final(self).wf(),
            final(self).spec_edges() == old(self).spec_edges(),
            final(self).spec_alphabet() == old(self).spec_alphabet(),
            final(self).spec_size() == old(self).spec_size(),
            forall|t: int|
                0 <= t < final(self).spec_size() ==> if reachable(final(self).spec_edges(), 0, t) {
                    run(final(self).spec_edges(), 0, #[trigger] final(self).spec_labels()[t])
                        == Some(t)
                } else {
                    final(self).spec_labels()[t] == old(self).spec_labels()[t]
                },
            forall|t: int, word: Seq<char>|
                0 <= t < final(self).spec_size() && #[trigger] run(
                    final(self).spec_edges(),
                    0,
                    word,
                ) == Some(t) ==> (#[trigger] final(self).spec_labels()[t]).len() <= word.len(),
    {
        let found = representatives(&self.ts, 0);
        let ghost edges = self.spec_edges();
        let ghost n = self.spec_size();
        assert(self.spec_labels().len() == n);
        let mut k: usize = 0;
        while k < found.len()
            invariant
                self.wf(),
                edges == self.spec_edges(),
                self.spec_alphabet() == old(self).spec_alphabet(),
                n == self.spec_size(),
                n == old(self).spec_size(),
                k <= found@.len(),
                forall|x: int|
                    0 <= x < found@.len() ==> (#[trigger] found@[x]).1 < n && run(
                        edges,
                        0,
                        found@[x].0@,
                    ) == Some(found@[x].1 as int),
                forall|i: int, j: int|
                    0 <= i < j < found@.len() ==> (#[trigger] found@[i]).1 != (
                    #[trigger] found@[j]).1,
                forall|x: int|
                    0 <= x < k ==> self.spec_labels()[(#[trigger] found@[x]).1 as int]
                        == found@[x].0@,
                forall|t: int| lists_state(found@, t) <==> reachable(edges, 0, t),
                forall|x: int, word: Seq<char>|
                    0 <= x < found@.len() && #[trigger] run(edges, 0, word) == Some(
                        (#[trigger] found@[x]).1 as int,
                    ) ==> found@[x].0@.len() <= word.len(),
                forall|t: int|
                    0 <= t < n && !lists_state(found@.subrange(0, k as int), t)
                        ==> #[trigger] self.spec_labels()[t] == old(self).spec_labels()[t],
            decreases found@.len() - k,
        {
            let state = found[k].1;
            let label = crate::words::copy_range(&found[k].0, 0, found[k].0.len());
            let ghost before = self.spec_labels();
            assert(before.len() == n);
            self.set_state_color(state, label);
            proof {
                let after = self.spec_labels();
                assert(after.len() == n);
                assert forall|x: int| 0 <= x < k + 1 implies after[(#[trigger] found@[x]).1 as int]
                    == found@[x].0@ by {
                    if x < k {
                        assert(found@[x].1 != found@[k as int].1);
                        assert(before[found@[x].1 as int] == found@[x].0@);
                    }
                }
                assert forall|t: int|
                    0 <= t < n && !lists_state(
                        found@.subrange(0, k + 1),
                        t,
                    ) implies #[trigger] after[t] == old(self).spec_labels()[t] by {
                    let more = found@.subrange(0, k + 1);
                    let less = found@.subrange(0, k as int);
                    if lists_state(less, t) {
                        let x = choose|x: int| 0 <= x < less.len() && (#[trigger] less[x]).1 == t;
                        assert(more[x].1 == t);
                    }
                    if t == state {
                        assert(more[k as int].1 == t);
                    }
                    assert(before[t] == old(self).spec_labels()[t]);
                }
            }
            k = k + 1;
        }
        proof {
            assert(found@.subrange(0, found@.len() as int) == found@);
            assert forall|t: int| 0 <= t < self.spec_size() implies if reachable(edges, 0, t) {
                run(edges, 0, #[trigger] self.spec_labels()[t]) == Some(t)
            } else {
                self.spec_labels()[t] == old(self).spec_labels()[t]
            } by {
                if reachable(edges, 0, t) {
                    assert(lists_state(found@, t));
                    let x = choose|x: int| 0 <= x < found@.len() && (#[trigger] found@[x]).1 == t;
                    assert(self.spec_labels()[found@[x].1 as int] == found@[x].0@);
                }
            }
            assert forall|t: int, word: Seq<char>|
                0 <= t < self.spec_size() && #[trigger] run(edges, 0, word) == Some(t) implies (
            #[trigger] self.spec_labels()[t]).len() <= word.len() by {
                assert(reachable(edges, 0, t));
                assert(lists_state(found@, t));
                let x = choose|x: int| 0 <= x < found@.len() && (#[trigger] found@[x]).1 == t;
                assert(self.spec_labels()[found@[x].1 as int] == found@[x].0@);
                assert(found@[x].0@.len() <= word.len());
            }
        }
    }
}

} // verus!
