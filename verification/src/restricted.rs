//! Automata restricted to the states that a filter keeps.

use crate::class::Class;
use crate::dfa::DFA;
use crate::index_ts::{step, Edge};
use vstd::prelude::*;

verus! {

/// The filter `f` answers for every state.
pub open spec fn asks_all<F: Fn(usize) -> bool>(f: F) -> bool {
    forall|i: usize| call_requires(f, (i,))
}

/// The filter `f` gives one answer for each state.
pub open spec fn one_answer<F: Fn(usize) -> bool>(f: F) -> bool {
    forall|i: usize| !(#[trigger] call_ensures(f, (i,), true) && call_ensures(f, (i,), false))
}

/// The filter `f` keeps the state `i`.
pub open spec fn kept<F: Fn(usize) -> bool>(f: F, i: usize) -> bool {
    call_ensures(f, (i,), true)
}

/// The states below `n` that `f` keeps, ascending.
pub open spec fn kept_below<F: Fn(usize) -> bool>(f: F, n: nat) -> Seq<usize>
    decreases n,
{
    if n == 0 {
        Seq::<usize>::empty()
    } else {
        let rest = kept_below(f, (n - 1) as nat);
        if kept(f, (n - 1) as usize) {
            rest.push((n - 1) as usize)
        } else {
            rest
        }
    }
}

/// The state reached from `q` by reading `word` through kept states only:
/// a step that leads to a state that `f` does not keep is not taken.
pub open spec fn kept_run<F: Fn(usize) -> bool>(
    edges: Seq<Edge<()>>,
    f: F,
    q: int,
    word: Seq<char>,
) -> Option<int>
    decreases word.len(),
{
    if word.len() == 0 {
        Some(q)
    } else {
        match kept_run(edges, f, q, word.drop_last()) {
            Some(t) => match step(edges, t, word.last()) {
                Some(u) => if 0 <= u <= usize::MAX && kept(f, u as usize) {
                    Some(u)
                } else {
                    None
                },
                None => None,
            },
            None => None,
        }
    }
}

/// A run through kept states that cannot read a prefix of a word cannot read
/// the word.
pub proof fn lemma_kept_run_stops<F: Fn(usize) -> bool>(
    edges: Seq<Edge<()>>,
    f: F,
    q: int,
    word: Seq<char>,
    n: int,
)
    requires
        0 <= n <= word.len(),
        kept_run(edges, f, q, word.subrange(0, n)) is None,
    ensures
        kept_run(edges, f, q, word) is None,
    decreases word.len() - n,
{
    if n < word.len() {
        let next = word.subrange(0, n + 1);
        assert(next.drop_last() == word.subrange(0, n));
        lemma_kept_run_stops(edges, f, q, word, n + 1);
    } else {
        assert(word.subrange(0, n) == word);
    }
}

/// Restricts an automaton to a subset of its state indices, which is defined
/// by a filter function.
pub struct RestrictByStateIndex<F> {
    ts: DFA,
    filter: F,
}

impl<F: Fn(usize) -> bool> RestrictByStateIndex<F> {
    /// The automaton that is restricted.
    pub closed spec fn spec_ts(&self) -> DFA {
        self.ts
    }

    /// The filter.
    pub closed spec fn spec_filter(&self) -> F {
        self.filter
    }

    /// Whether `word` is accepted: whether its run through kept states ends,
    /// and ends in an accepting state.
    pub open spec fn spec_accepts(&self, word: Seq<char>) -> bool {
        match kept_run(
            self.spec_ts().spec_ts().spec_edges(),
            self.spec_filter(),
            self.spec_ts().spec_initial() as int,
            word,
        ) {
            Some(t) => 0 <= t < self.spec_ts().spec_ts().spec_size()
                && self.spec_ts().spec_ts().spec_states()[t],
            None => false,
        }
    }

    /// Restricts `ts` to the states that `filter` keeps.
    pub fn new(ts: DFA, filter: F) -> (restricted: Self)
        ensures
            restricted.spec_ts() == ts,
            restricted.spec_filter() == filter,
    {
        RestrictByStateIndex { ts, filter }
    }

    /// The filter.
    pub fn filter(&self) -> (filter: &F)
        ensures
            *filter == self.spec_filter(),
    {
        &self.filter
    }

    /// The automaton that is restricted.
    pub fn ts(&self) -> (ts: &DFA)
        ensures
            *ts == self.spec_ts(),
    {
        &self.ts
    }

    /// The initial state. The filter must keep it.
    pub fn initial(&self) -> (state: usize)
        requires
            kept(self.spec_filter(), self.spec_ts().spec_initial()),
        ensures
            state == self.spec_ts().spec_initial(),
    {
        self.ts.initial()
    }

    /// The states that the filter keeps, ascending.
    pub fn state_indices(&self) -> (indices: Vec<usize>)
        requires
            asks_all(self.spec_filter()),
            one_answer(self.spec_filter()),
        ensures
            indices@ == kept_below(self.spec_filter(), self.spec_ts().spec_ts().spec_size()),
    {
        let n = self.ts.size();
        let mut out: Vec<usize> = Vec::new();
        let mut i: usize = 0;
        while i < n
            invariant
                i <= n,
                asks_all(self.spec_filter()),
                one_answer(self.spec_filter()),
                out@ == kept_below(self.spec_filter(), i as nat),
            decreases n - i,
        {
            if (self.filter)(i) {
                out.push(i);
            }
            i = i + 1;
        }
        out
    }

    /// Whether the word spelled by `text` is accepted by the restricted
    /// automaton. The filter must keep the initial state.
    pub fn accepts(&self, text: &str) -> (b: bool)
        requires
            self.spec_ts().wf(),
            asks_all(self.spec_filter()),
            one_answer(self.spec_filter()),
            kept(self.spec_filter(), self.spec_ts().spec_initial()),
        ensures
            b == self.spec_accepts(text@),
    {
        let word = Class::from_text(text);
        let ghost edges = self.spec_ts().spec_ts().spec_edges();
        let mut cur: usize = self.ts.initial();
        let mut i: usize = 0;
        while i < word.0.len()
            invariant
                self.spec_ts().wf(),
                asks_all(self.spec_filter()),
                one_answer(self.spec_filter()),
                edges == self.spec_ts().spec_ts().spec_edges(),
                word@ == text@,
                i <= word@.len(),
                cur < self.spec_ts().spec_ts().spec_size(),
                kept_run(
                    edges,
                    self.spec_filter(),
                    self.spec_ts().spec_initial() as int,
                    word@.subrange(0, i as int),
                ) == Some(cur as int),
            decreases word@.len() - i,
        {
            proof {
                let next = word@.subrange(0, i + 1);
                assert(next.drop_last() == word@.subrange(0, i as int));
                assert(next.last() == word@[i as int]);
                crate::index_ts::lemma_step_in_range(
                    edges,
                    self.spec_ts().spec_ts().spec_size(),
                    cur as int,
                    word@[i as int],
                );
            }
            match self.ts.ts().target(cur, word.0[i]) {
                Some(t) => {
                    if (self.filter)(t) {
                        cur = t;
                    } else {
                        proof {
                            lemma_kept_run_stops(
                                edges,
                                self.spec_filter(),
                                self.spec_ts().spec_initial() as int,
                                word@,
                                i + 1,
                            );
                        }
                        return false;
                    }
                },
                None => {
                    proof {
                        lemma_kept_run_stops(
                            edges,
                            self.spec_filter(),
                            self.spec_ts().spec_initial() as int,
                            word@,
                            i + 1,
                        );
                    }
                    return false;
                },
            }
            i = i + 1;
        }
        assert(word@.subrange(0, word@.len() as int) == word@);
        *self.ts.ts().state_color(cur)
    }
}

impl DFA {
    /// Restricts the automaton to the states that `filter` keeps.
    pub fn restrict_state_indices<F: Fn(usize) -> bool>(self, filter: F) -> (restricted:
        RestrictByStateIndex<F>)
        ensures
            restricted.spec_ts() == self,
            restricted.spec_filter() == filter,
    {
        RestrictByStateIndex::new(self, filter)
    }
}

/// A walk over state indices that hands out those that a filter keeps.
pub struct RestrictByStateIndexIter<'a, F> {
    filter: &'a F,
    it: Vec<usize>,
    position: usize,
}

impl<'a, F: Fn(usize) -> bool> RestrictByStateIndexIter<'a, F> {
    /// The filter.
    pub closed spec fn spec_filter(&self) -> F {
        *self.filter
    }

    /// The state indices that are walked over.
    pub closed spec fn spec_indices(&self) -> Seq<usize> {
        self.it@
    }

    /// Number of indices that were looked at.
    pub closed spec fn spec_position(&self) -> int {
        self.position as int
    }

    /// The walk has looked at no more indices than there are.
    pub open spec fn wf(&self) -> bool {
        0 <= self.spec_position() <= self.spec_indices().len()
    }

    /// Creates a new walk over the state indices `it` that are kept by
    /// `filter`.
    pub fn new(filter: &'a F, it: Vec<usize>) -> (iter: Self)
        ensures
            iter.wf(),
            iter.spec_filter() == *filter,
            iter.spec_indices() == it@,
            iter.spec_position() == 0,
    {
        RestrictByStateIndexIter { filter, it, position: 0 }
    }

    /// The next index that the filter keeps, if there is one; the walk moves
    /// on behind it, or to the end.
    pub fn next(&mut self) -> (index: Option<usize>)
        requires
            old(self).wf(),
            asks_all(old(self).spec_filter()),
            one_answer(old(self).spec_filter()),
        ensures
            final(self).wf(),
            final(self).spec_filter() == old(self).spec_filter(),
            final(self).spec_indices() == old(self).spec_indices(),
            forall|j: int|
                old(self).spec_position() <= j < final(self).spec_position() - (if index is Some {
                    1int
                } else {
                    0int
                }) ==> !kept(old(self).spec_filter(), #[trigger] old(self).spec_indices()[j]),
            match index {
                Some(i) => old(self).spec_position() < final(self).spec_position() && i == old(self).spec_indices()[final(self).spec_position() - 1] && kept(
                    old(self).spec_filter(),
                    i,
                ),
                None => final(self).spec_position() == old(self).spec_indices().len(),
            },
    {
        while self.position < self.it.len()
            invariant
                self.wf(),
                old(self).wf(),
                self.filter == old(self).filter,
                self.it == old(self).it,
                old(self).position <= self.position,
                asks_all(self.spec_filter()),
                one_answer(self.spec_filter()),
                forall|j: int|
                    old(self).spec_position() <= j < self.spec_position() ==> !kept(
                        old(self).spec_filter(),
                        #[trigger] old(self).spec_indices()[j],
                    ),
            decreases self.it@.len() - self.position,
        {
            let i = self.it[self.position];
            self.position = self.position + 1;
            if (self.filter)(i) {
                return Some(i);
            }
        }
        None
    }
}

/// A walk over edges that hands out those whose target a filter keeps.
pub struct RestrictedEdgesFromIter<'a, F> {
    filter: &'a F,
    it: Vec<Edge<()>>,
    position: usize,
}

impl<'a, F: Fn(usize) -> bool> RestrictedEdgesFromIter<'a, F> {
    /// The filter.
    pub closed spec fn spec_filter(&self) -> F {
        *self.filter
    }

    /// The edges that are walked over.
    pub closed spec fn spec_edges(&self) -> Seq<Edge<()>> {
        self.it@
    }

    /// Number of edges that were looked at.
    pub closed spec fn spec_position(&self) -> int {
        self.position as int
    }

    /// The walk has looked at no more edges than there are.
    pub open spec fn wf(&self) -> bool {
        0 <= self.spec_position() <= self.spec_edges().len()
    }

    /// Creates a new walk over the edges `it` whose targets are kept by
    /// `filter`.
    pub fn new(it: Vec<Edge<()>>, filter: &'a F) -> (iter: Self)
        ensures
            iter.wf(),
            iter.spec_filter() == *filter,
            iter.spec_edges() == it@,
            iter.spec_position() == 0,
    {
        RestrictedEdgesFromIter { filter, it, position: 0 }
    }

    /// The next edge whose target the filter keeps, if there is one; the walk
    /// moves on behind it, or to the end.
    pub fn next(&mut self) -> (edge: Option<Edge<()>>)
        requires
            old(self).wf(),
            asks_all(old(self).spec_filter()),
            one_answer(old(self).spec_filter()),
        ensures
            final(self).wf(),
            final(self).spec_filter() == old(self).spec_filter(),
            final(self).spec_edges() == old(self).spec_edges(),
            forall|j: int|
                old(self).spec_position() <= j < final(self).spec_position() - (if edge is Some {
                    1int
                } else {
                    0int
                }) ==> !kept(
                    old(self).spec_filter(),
                    (#[trigger] old(self).spec_edges()[j]).target,
                ),
            match edge {
                Some(e) => old(self).spec_position() < final(self).spec_position() && e == old(self).spec_edges()[final(self).spec_position() - 1] && kept(
                    old(self).spec_filter(),
                    e.target,
                ),
                None => final(self).spec_position() == old(self).spec_edges().len(),
            },
    {
        while self.position < self.it.len()
            invariant
                self.wf(),
                old(self).wf(),
                self.filter == old(self).filter,
                self.it == old(self).it,
                old(self).position <= self.position,
                asks_all(self.spec_filter()),
                one_answer(self.spec_filter()),
                forall|j: int|
                    old(self).spec_position() <= j < self.spec_position() ==> !kept(
                        old(self).spec_filter(),
                        (#[trigger] old(self).spec_edges()[j]).target,
                    ),
            decreases self.it@.len() - self.position,
        {
            let e = self.it[self.position];
            self.position = self.position + 1;
            if (self.filter)(e.target) {
                return Some(e);
            }
        }
        None
    }
}

/// A walk over edges that hands out those whose source a filter keeps.
pub struct RestrictedEdgesToIter<'a, F> {
    filter: &'a F,
    it: Vec<Edge<()>>,
    position: usize,
}

impl<'a, F: Fn(usize) -> bool> RestrictedEdgesToIter<'a, F> {
    /// The filter.
    pub closed spec fn spec_filter(&self) -> F {
        *self.filter
    }

    /// The edges that are walked over.
    pub closed spec fn spec_edges(&self) -> Seq<Edge<()>> {
        self.it@
    }

    /// Number of edges that were looked at.
    pub closed spec fn spec_position(&self) -> int {
        self.position as int
    }

    /// The walk has looked at no more edges than there are.
    pub open spec fn wf(&self) -> bool {
        0 <= self.spec_position() <= self.spec_edges().len()
    }

    /// Creates a new walk over the edges `it` whose sources are kept by
    /// `filter`.
    pub fn new(it: Vec<Edge<()>>, filter: &'a F) -> (iter: Self)
        ensures
            iter.wf(),
            iter.spec_filter() == *filter,
            iter.spec_edges() == it@,
            iter.spec_position() == 0,
    {
        RestrictedEdgesToIter { filter, it, position: 0 }
    }

    /// The next edge whose source the filter keeps, if there is one; the walk
    /// moves on behind it, or to the end.
    pub fn next(&mut self) -> (edge: Option<Edge<()>>)
        requires
            old(self).wf(),
            asks_all(old(self).spec_filter()),
            one_answer(old(self).spec_filter()),
        ensures
            final(self).wf(),
            final(self).spec_filter() == old(self).spec_filter(),
            final(self).spec_edges() == old(self).spec_edges(),
            forall|j: int|
                old(self).spec_position() <= j < final(self).spec_position() - (if edge is Some {
                    1int
                } else {
                    0int
                }) ==> !kept(
                    old(self).spec_filter(),
                    (#[trigger] old(self).spec_edges()[j]).source,
                ),
            match edge {
                Some(e) => old(self).spec_position() < final(self).spec_position() && e == old(self).spec_edges()[final(self).spec_position() - 1] && kept(
                    old(self).spec_filter(),
                    e.source,
                ),
                None => final(self).spec_position() == old(self).spec_edges().len(),
            },
    {
        while self.position < self.it.len()
            invariant
                self.wf(),
                old(self).wf(),
                self.filter == old(self).filter,
                self.it == old(self).it,
                old(self).position <= self.position,
                asks_all(self.spec_filter()),
                one_answer(self.spec_filter()),
                forall|j: int|
                    old(self).spec_position() <= j < self.spec_position() ==> !kept(
                        old(self).spec_filter(),
                        (#[trigger] old(self).spec_edges()[j]).source,
                    ),
            decreases self.it@.len() - self.position,
        {
            let e = self.it[self.position];
            self.position = self.position + 1;
            if (self.filter)(e.source) {
                return Some(e);
            }
        }
        None
    }
}

} // verus!
