//! Transition systems stored as a list of state colours and a list of edges.

use crate::alphabet::Alphabet;
use vstd::prelude::*;

verus! {

/// An edge from `source` to `target` that is taken on `symbol`.
#[derive(Clone, Copy, Debug, PartialEq, Eq, Hash)]
pub struct Edge<C> {
    pub source: usize,
    pub symbol: char,
    pub target: usize,
    pub color: C,
}

/// One step of a run: the edge taken from `source` on `symbol`.
#[derive(Clone, Copy, Debug, PartialEq, Eq, Hash)]
pub struct Transition<C> {
    pub source: usize,
    pub symbol: char,
    pub target: usize,
    pub color: C,
}

impl<C> Transition<C> {
    /// The step from `source` on `symbol` to `target`, coloured `color`.
    pub fn new(source: usize, symbol: char, target: usize, color: C) -> (t: Transition<C>)
        ensures
            t.source == source,
            t.symbol == symbol,
            t.target == target,
            t.color == color,
    {
        Transition { source, symbol, target, color }
    }
}

/// Place, in `edges`, of the edge that is taken from `q` on `a`: the first one
/// that was added for that state and symbol.
pub open spec fn taken_edge<C>(edges: Seq<Edge<C>>, q: int, a: char) -> Option<int>
    decreases edges.len(),
{
    if edges.len() == 0 {
        None
    } else {
        match taken_edge(edges.drop_last(), q, a) {
            Some(i) => Some(i),
            None => if edges.last().source == q && edges.last().symbol == a {
                Some(edges.len() - 1)
            } else {
                None
            },
        }
    }
}

/// The state reached from `q` on `a`, if an edge is taken.
pub open spec fn step<C>(edges: Seq<Edge<C>>, q: int, a: char) -> Option<int> {
    match taken_edge(edges, q, a) {
        Some(i) => Some(edges[i].target as int),
        None => None,
    }
}

/// The state reached from `q` by reading `word`, if every step is taken.
pub open spec fn run<C>(edges: Seq<Edge<C>>, q: int, word: Seq<char>) -> Option<int>
    decreases word.len(),
{
    if word.len() == 0 {
        Some(q)
    } else {
        match run(edges, q, word.drop_last()) {
            Some(t) => step(edges, t, word.last()),
            None => None,
        }
    }
}

/// Places of the edges that leave `source`, in the order in which they were
/// added.
pub open spec fn edge_places_from<C>(edges: Seq<Edge<C>>, source: int) -> Seq<usize>
    decreases edges.len(),
{
    if edges.len() == 0 {
        Seq::<usize>::empty()
    } else {
        let rest = edge_places_from(edges.drop_last(), source);
        if edges.last().source == source {
            rest.push((edges.len() - 1) as usize)
        } else {
            rest
        }
    }
}

/// What `taken_edge` returns is the first edge for that state and symbol.
pub proof fn lemma_taken_edge<C>(edges: Seq<Edge<C>>, q: int, a: char)
    ensures
        match taken_edge(edges, q, a) {
            Some(i) => 0 <= i < edges.len() && edges[i].source == q && edges[i].symbol == a
                && forall|j: int|
                0 <= j < i ==> !(#[trigger] edges[j].source == q && edges[j].symbol == a),
            None => forall|j: int|
                0 <= j < edges.len() ==> !(#[trigger] edges[j].source == q && edges[j].symbol
                    == a),
        },
    decreases edges.len(),
{
    if edges.len() > 0 {
        lemma_taken_edge(edges.drop_last(), q, a);
        let init = edges.drop_last();
        assert forall|j: int| 0 <= j < init.len() implies init[j] == edges[j] by {}
    }
}

/// An edge that matches and has no match before it is the one taken.
pub proof fn lemma_taken_edge_is<C>(edges: Seq<Edge<C>>, q: int, a: char, i: int)
    requires
        0 <= i < edges.len(),
        edges[i].source == q,
        edges[i].symbol == a,
        forall|j: int| 0 <= j < i ==> !(#[trigger] edges[j].source == q && edges[j].symbol == a),
    ensures
        taken_edge(edges, q, a) == Some(i),
{
    lemma_taken_edge(edges, q, a);
}

/// One more edge changes the step only for its own state and symbol, and only
/// where no edge was taken before.
pub proof fn lemma_step_push<C>(edges: Seq<Edge<C>>, e: Edge<C>, q: int, a: char)
    ensures
        step(edges.push(e), q, a) == match step(edges, q, a) {
            Some(t) => Some(t),
            None => if e.source == q && e.symbol == a {
                Some(e.target as int)
            } else {
                None
            },
        },
{
    assert(edges.push(e).drop_last() == edges);
    lemma_taken_edge(edges, q, a);
}

/// Every edge leads from a state to a state.
pub open spec fn edges_in_range<C>(edges: Seq<Edge<C>>, n: nat) -> bool {
    forall|i: int|
        0 <= i < edges.len() ==> (#[trigger] edges[i]).source < n && edges[i].target < n
}

/// A step from a state leads to a state.
pub proof fn lemma_step_in_range<C>(edges: Seq<Edge<C>>, n: nat, q: int, a: char)
    requires
        edges_in_range(edges, n),
    ensures
        step(edges, q, a) matches Some(t) ==> 0 <= t < n && 0 <= q < n,
{
    lemma_taken_edge(edges, q, a);
}

/// A run from a state ends in a state.
pub proof fn lemma_run_in_range<C>(edges: Seq<Edge<C>>, n: nat, q: int, word: Seq<char>)
    requires
        edges_in_range(edges, n),
        0 <= q < n,
    ensures
        run(edges, q, word) matches Some(t) ==> 0 <= t < n,
    decreases word.len(),
{
    if word.len() > 0 {
        lemma_run_in_range(edges, n, q, word.drop_last());
        match run(edges, q, word.drop_last()) {
            Some(t) => lemma_step_in_range(edges, n, t, word.last()),
            None => {},
        }
    }
}

/// The run on a single symbol is the step on it.
pub proof fn lemma_run_single<C>(edges: Seq<Edge<C>>, q: int, a: char)
    ensures
        run(edges, q, seq![a]) == step(edges, q, a),
{
    let w = seq![a];
    assert(w.drop_last() =~= Seq::<char>::empty());
    assert(w.last() == a);
    assert(run(edges, q, w.drop_last()) == Some(q));
}

/// A run that reads `u` and then `v` is the run on `v` from where `u` ends.
pub proof fn lemma_run_concat<C>(edges: Seq<Edge<C>>, q: int, u: Seq<char>, v: Seq<char>)
    ensures
        run(edges, q, u + v) == match run(edges, q, u) {
            Some(t) => run(edges, t, v),
            None => None,
        },
    decreases v.len(),
{
    if v.len() == 0 {
        assert(u + v == u);
    } else {
        assert((u + v).drop_last() == u + v.drop_last());
        assert((u + v).last() == v.last());
        lemma_run_concat(edges, q, u, v.drop_last());
    }
}

/// A transition system over an alphabet: states are numbered in the order in
/// which they were added and carry a colour; edges are kept in the order in
/// which they were added.
#[derive(Clone, Debug, PartialEq, Eq)]
pub struct IndexTS<Q, C> {
    alphabet: Alphabet,
    states: Vec<Q>,
    edges: Vec<Edge<C>>,
}

/// A transition system whose edges carry the colours.
pub type MealyTS<C> = IndexTS<(), C>;

/// A transition system whose states carry the colours.
pub type MooreTS<Q> = IndexTS<Q, ()>;

impl<Q, C: Copy> IndexTS<Q, C> {
    /// The colours of the states, by state number.
    pub closed spec fn spec_states(&self) -> Seq<Q> {
        self.states@
    }

    /// The edges, in the order in which they were added.
    pub closed spec fn spec_edges(&self) -> Seq<Edge<C>> {
        self.edges@
    }

    /// The symbols of the alphabet, in enumeration order.
    pub closed spec fn spec_alphabet(&self) -> Seq<char> {
        self.alphabet@
    }

    /// Number of states.
    pub open spec fn spec_size(&self) -> nat {
        self.spec_states().len()
    }

    /// The alphabet repeats no symbol and every edge joins two states.
    pub open spec fn wf(&self) -> bool {
        &&& self.spec_alphabet().no_duplicates()
        &&& edges_in_range(self.spec_edges(), self.spec_size())
    }

    /// The state reached from `q` on `a`, if any.
    pub open spec fn spec_successor(&self, q: int, a: char) -> Option<int> {
        step(self.spec_edges(), q, a)
    }

    /// The state reached from `q` by reading `word`, if every step is taken.
    pub open spec fn spec_run(&self, q: int, word: Seq<char>) -> Option<int> {
        run(self.spec_edges(), q, word)
    }

    /// Creates a transition system without states for `alphabet`.
    pub fn new(alphabet: Alphabet) -> (ts: Self)
        requires
            alphabet.wf(),
        ensures
            ts.wf(),
            ts.spec_alphabet() == alphabet@,
            ts.spec_states() == Seq::<Q>::empty(),
            ts.spec_edges() == Seq::<Edge<C>>::empty(),
    {
        IndexTS { alphabet, states: Vec::new(), edges: Vec::new() }
    }

    /// The alphabet.
    pub fn alphabet(&self) -> (alphabet: &Alphabet)
        ensures
            alphabet@ == self.spec_alphabet(),
            self.wf() ==> alphabet.wf(),
    {
        &self.alphabet
    }

    /// Number of states.
    pub fn size(&self) -> (n: usize)
        ensures
            n == self.spec_size(),
    {
        self.states.len()
    }

    /// Number of edges.
    pub fn edge_count(&self) -> (n: usize)
        ensures
            n == self.spec_edges().len(),
    {
        self.edges.len()
    }

    /// Checks whether the state exists.
    pub fn contains_state(&self, index: usize) -> (b: bool)
        ensures
            b == (index < self.spec_size()),
    {
        index < self.states.len()
    }

    /// The numbers of all states, ascending.
    pub fn state_indices(&self) -> (indices: Vec<usize>)
        ensures
            indices@.len() == self.spec_size(),
            forall|i: int| 0 <= i < indices@.len() ==> indices@[i] == i,
    {
        let mut out: Vec<usize> = Vec::new();
        let mut i: usize = 0;
        while i < self.states.len()
            invariant
                i <= self.states.len(),
                out@.len() == i,
                forall|j: int| 0 <= j < i ==> out@[j] == j,
            decreases self.states.len() - i,
        {
            out.push(i);
            i = i + 1;
        }
        out
    }

    /// The colour of state `index`.
    pub fn state_color(&self, index: usize) -> (color: &Q)
        requires
            index < self.spec_size(),
        ensures
            *color == self.spec_states()[index as int],
    {
        &self.states[index]
    }

    /// The colour of state `index`, if the state exists.
    pub fn state(&self, index: usize) -> (color: Option<&Q>)
        ensures
            color == if index < self.spec_size() {
                Some(&self.spec_states()[index as int])
            } else {
                None
            },
    {
        if index < self.states.len() {
            Some(&self.states[index])
        } else {
            None
        }
    }

    /// Gives state `index` the colour `color`.
    pub fn set_state_color(&mut self, index: usize, color: Q)
        requires
            index < old(self).spec_size(),
        ensures
            final(self).spec_states() == old(self).spec_states().update(index as int, color),
            final(self).spec_edges() == old(self).spec_edges(),
            final(self).spec_alphabet() == old(self).spec_alphabet(),
    {
        self.states.set(index, color);
    }

    /// Adds a state coloured `color` and returns its number.
    pub fn add_state(&mut self, color: Q) -> (index: usize)
        ensures
            index == old(self).spec_size(),
            final(self).spec_states() == old(self).spec_states().push(color),
            final(self).spec_edges() == old(self).spec_edges(),
            final(self).spec_alphabet() == old(self).spec_alphabet(),
            old(self).wf() ==> final(self).wf(),
    {
        let id = self.states.len();
        self.states.push(color);
        id
    }

    /// Adds an edge from `from` to `to` on `on`, coloured `color`, and returns its
    /// place among the edges. Both states must exist.
    pub fn add_edge(&mut self, from: usize, on: char, to: usize, color: C) -> (place: usize)
        requires
            from < old(self).spec_size(),
            to < old(self).spec_size(),
        ensures
            place == old(self).spec_edges().len(),
            final(self).spec_edges() == old(self).spec_edges().push(
                Edge { source: from, symbol: on, target: to, color },
            ),
            final(self).spec_states() == old(self).spec_states(),
            final(self).spec_alphabet() == old(self).spec_alphabet(),
            old(self).wf() ==> final(self).wf(),
    {
        let place = self.edges.len();
        self.edges.push(Edge { source: from, symbol: on, target: to, color });
        place
    }

    /// Takes back the edge that was added last. Returns whether there was one.
    pub fn undo_add_edge(&mut self) -> (undone: bool)
        ensures
            undone == (old(self).spec_edges().len() > 0),
            final(self).spec_edges() == if undone {
                old(self).spec_edges().drop_last()
            } else {
                old(self).spec_edges()
            },
            final(self).spec_states() == old(self).spec_states(),
            final(self).spec_alphabet() == old(self).spec_alphabet(),
            old(self).wf() ==> final(self).wf(),
    {
        self.edges.pop().is_some()
    }

    /// The transition system with the same alphabet and edges, whose states
    /// carry the colours `colors`.
    pub fn recolored<R>(&self, colors: Vec<R>) -> (ts: IndexTS<R, C>)
        requires
            colors@.len() == self.spec_size(),
        ensures
            ts.spec_alphabet() == self.spec_alphabet(),
            ts.spec_edges() == self.spec_edges(),
            ts.spec_states() == colors@,
            self.wf() ==> ts.wf(),
    {
        let mut edges: Vec<Edge<C>> = Vec::new();
        let mut k: usize = 0;
        while k < self.edges.len()
            invariant
                k <= self.edges@.len(),
                edges@ == self.edges@.subrange(0, k as int),
            decreases self.edges@.len() - k,
        {
            edges.push(self.edges[k]);
            k = k + 1;
        }
        assert(self.edges@.subrange(0, self.edges@.len() as int) == self.edges@);
        IndexTS { alphabet: self.alphabet.duplicate(), states: colors, edges }
    }

    /// The edge at `place`.
    pub fn edge(&self, place: usize) -> (edge: Edge<C>)
        requires
            place < self.spec_edges().len(),
        ensures
            edge == self.spec_edges()[place as int],
    {
        self.edges[place]
    }

    /// The edge at `place`, if there is one.
    pub fn get_edge(&self, place: usize) -> (edge: Option<&Edge<C>>)
        ensures
            edge == if place < self.spec_edges().len() {
                Some(&self.spec_edges()[place as int])
            } else {
                None
            },
    {
        if place < self.edges.len() {
            Some(&self.edges[place])
        } else {
            None
        }
    }

    /// Places of the edges that leave `source`, in the order in which they
    /// were added.
    pub fn edge_indices_from(&self, source: usize) -> (places: Vec<usize>)
        ensures
            places@ == edge_places_from(self.spec_edges(), source as int),
    {
        let mut out: Vec<usize> = Vec::new();
        let mut i: usize = 0;
        while i < self.edges.len()
            invariant
                i <= self.edges.len(),
                out@ == edge_places_from(self.edges@.subrange(0, i as int), source as int),
            decreases self.edges.len() - i,
        {
            proof {
                let next = self.edges@.subrange(0, i + 1);
                assert(next.drop_last() == self.edges@.subrange(0, i as int));
            }
            if self.edges[i].source == source {
                out.push(i);
            }
            i = i + 1;
        }
        assert(self.edges@.subrange(0, self.edges.len() as int) == self.edges@);
        out
    }

    /// The edges that leave `source`, in the order in which they were added.
    pub fn edges_from(&self, source: usize) -> (edges: Vec<Edge<C>>)
        ensures
            edges@ == edge_places_from(self.spec_edges(), source as int).map_values(
                |i: usize| self.spec_edges()[i as int],
            ),
    {
        let places = self.edge_indices_from(source);
        let total: usize = self.edges.len();
        proof {
            assert(self.edges@.len() == total);
            lemma_edge_places(self.edges@, source as int);
        }
        let mut out: Vec<Edge<C>> = Vec::new();
        let mut k: usize = 0;
        while k < places.len()
            invariant
                k <= places.len(),
                places@ == edge_places_from(self.spec_edges(), source as int),
                forall|j: int|
                    0 <= j < places@.len() ==> is_place_from(
                        self.edges@,
                        source as int,
                        #[trigger] places@[j],
                    ),
                out@ == places@.subrange(0, k as int).map_values(
                    |i: usize| self.spec_edges()[i as int],
                ),
            decreases places.len() - k,
        {
            out.push(self.edges[places[k]]);
            assert(out@ =~= places@.subrange(0, k + 1).map_values(
                |i: usize| self.spec_edges()[i as int],
            ));
            k = k + 1;
        }
        assert(places@.subrange(0, places.len() as int) == places@);
        out
    }

    /// Place of the last edge that leaves `source`, if any does.
    pub fn last_edge_from(&self, source: usize) -> (place: Option<usize>)
        ensures
            place == if edge_places_from(self.spec_edges(), source as int).len() > 0 {
                Some(edge_places_from(self.spec_edges(), source as int).last())
            } else {
                None
            },
    {
        let places = self.edge_indices_from(source);
        if places.len() > 0 {
            Some(places[places.len() - 1])
        } else {
            None
        }
    }

    /// The edge taken from `state` on `symbol`, if there is one: the first that
    /// was added for that state and symbol.
    pub fn successor(&self, state: usize, symbol: char) -> (t: Option<Transition<C>>)
        ensures
            match t {
                Some(t) => taken_edge(self.spec_edges(), state as int, symbol) matches Some(i)
                    && t == (Transition {
                    source: state,
                    symbol,
                    target: self.spec_edges()[i].target,
                    color: self.spec_edges()[i].color,
                }),
                None => taken_edge(self.spec_edges(), state as int, symbol) is None,
            },
            t matches Some(t) ==> self.spec_successor(state as int, symbol) == Some(
                t.target as int,
            ),
            t is None ==> self.spec_successor(state as int, symbol) is None,
    {
        let mut i: usize = 0;
        while i < self.edges.len()
            invariant
                i <= self.edges.len(),
                forall|j: int|
                    0 <= j < i ==> !(#[trigger] self.edges@[j].source == state && self.edges@[j].symbol
                        == symbol),
            decreases self.edges.len() - i,
        {
            if self.edges[i].source == state && self.edges[i].symbol == symbol {
                proof {
                    lemma_taken_edge_is(self.edges@, state as int, symbol, i as int);
                }
                return Some(
                    Transition {
                        source: state,
                        symbol,
                        target: self.edges[i].target,
                        color: self.edges[i].color,
                    },
                );
            }
            i = i + 1;
        }
        proof {
            lemma_taken_edge(self.edges@, state as int, symbol);
        }
        None
    }

    /// The state reached from `state` on `symbol`, if an edge is taken.
    pub fn target(&self, state: usize, symbol: char) -> (t: Option<usize>)
        ensures
            match t {
                Some(t) => self.spec_successor(state as int, symbol) == Some(t as int),
                None => self.spec_successor(state as int, symbol) is None,
            },
    {
        match self.successor(state, symbol) {
            Some(t) => Some(t.target),
            None => None,
        }
    }

    /// The state reached from `state` by reading `word`, if every step is
    /// taken.
    pub fn reached_from(&self, state: usize, word: &Vec<char>) -> (end: Option<usize>)
        ensures
            match end {
                Some(t) => self.spec_run(state as int, word@) == Some(t as int),
                None => self.spec_run(state as int, word@) is None,
            },
    {
        let mut cur: usize = state;
        let mut i: usize = 0;
        while i < word.len()
            invariant
                i <= word.len(),
                self.spec_run(state as int, word@.subrange(0, i as int)) == Some(cur as int),
            decreases word.len() - i,
        {
            proof {
                let next = word@.subrange(0, i + 1);
                assert(next.drop_last() == word@.subrange(0, i as int));
                assert(next.last() == word@[i as int]);
                lemma_run_dead(self.spec_edges(), state as int, next, word@);
            }
            match self.target(cur, word[i]) {
                Some(t) => {
                    cur = t;
                },
                None => {
                    return None;
                },
            }
            i = i + 1;
        }
        assert(word@.subrange(0, word.len() as int) == word@);
        Some(cur)
    }
}

/// Whether `place` is the place of an edge of `edges` that leaves `source`.
pub open spec fn is_place_from<C>(edges: Seq<Edge<C>>, source: int, place: usize) -> bool {
    place < edges.len() && edges[place as int].source == source
}

/// The places listed by `edge_places_from` are places of edges from `source`.
pub proof fn lemma_edge_places<C>(edges: Seq<Edge<C>>, source: int)
    requires
        edges.len() <= usize::MAX,
    ensures
        forall|j: int|
            0 <= j < edge_places_from(edges, source).len() ==> is_place_from(
                edges,
                source,
                #[trigger] edge_places_from(edges, source)[j],
            ),
    decreases edges.len(),
{
    if edges.len() > 0 {
        let init = edges.drop_last();
        lemma_edge_places(init, source);
        let rest = edge_places_from(init, source);
        let all = edge_places_from(edges, source);
        assert forall|j: int| 0 <= j < all.len() implies is_place_from(
            edges,
            source,
            #[trigger] all[j],
        ) by {
            if j < rest.len() {
                assert(is_place_from(init, source, rest[j]));
                assert(all[j] == rest[j]);
                assert(init[rest[j] as int] == edges[rest[j] as int]);
            }
        }
    }
}

/// A run that cannot read a prefix of a word cannot read the word.
pub proof fn lemma_run_dead<C>(edges: Seq<Edge<C>>, q: int, prefix: Seq<char>, word: Seq<char>)
    requires
        prefix.len() <= word.len(),
        prefix == word.subrange(0, prefix.len() as int),
    ensures
        run(edges, q, prefix) is None ==> run(edges, q, word) is None,
{
    let rest = word.subrange(prefix.len() as int, word.len() as int);
    assert(word == prefix + rest);
    lemma_run_concat(edges, q, prefix, rest);
}

} // verus!
