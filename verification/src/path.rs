//! Paths through a transition system, and lassos: paths that end in a cycle.

use crate::index_ts::{taken_edge, IndexTS, Transition};
use vstd::prelude::*;

verus! {

/// A path: the states it leaves, each with the symbol on which it leaves, and
/// the state it ends in. It is kept apart from the transition system it was
/// found in.
#[derive(Clone, Debug, PartialEq, Eq, Hash)]
pub struct Path {
    end: usize,
    transitions: Vec<(usize, char)>,
}

/// The states of `transitions`, in order, followed by `end`.
pub open spec fn states_along(transitions: Seq<(usize, char)>, end: usize) -> Seq<usize> {
    transitions.map_values(|t: (usize, char)| t.0).push(end)
}

/// Every step of `transitions` has an edge in `edges`.
pub open spec fn steps_exist<C>(
    edges: Seq<crate::index_ts::Edge<C>>,
    transitions: Seq<(usize, char)>,
) -> bool {
    forall|i: int|
        0 <= i < transitions.len() ==> taken_edge(
            edges,
            (#[trigger] transitions[i]).0 as int,
            transitions[i].1,
        ) is Some
}

/// The colour of the edge that is taken on `t`.
pub open spec fn color_of_step<C>(edges: Seq<crate::index_ts::Edge<C>>, t: (usize, char)) -> C {
    edges[taken_edge(edges, t.0 as int, t.1).unwrap()].color
}

/// The values of `s` in order of first occurrence.
pub open spec fn distinct_values(s: Seq<usize>) -> Seq<usize>
    decreases s.len(),
{
    if s.len() == 0 {
        Seq::<usize>::empty()
    } else {
        let rest = distinct_values(s.drop_last());
        if rest.contains(s.last()) {
            rest
        } else {
            rest.push(s.last())
        }
    }
}

impl Path {
    /// The state in which the path ends.
    pub closed spec fn spec_end(&self) -> usize {
        self.end
    }

    /// The steps of the path: the state left and the symbol read.
    pub closed spec fn spec_transitions(&self) -> Seq<(usize, char)> {
        self.transitions@
    }

    /// Returns the index of the state that is reached by the path.
    pub fn reached(&self) -> (state: usize)
        ensures
            state == self.spec_end(),
    {
        self.end
    }

    /// Returns true if the path is empty/trivial, meaning it consists of only
    /// one state.
    pub fn is_empty(&self) -> (b: bool)
        ensures
            b == (self.spec_transitions().len() == 0),
    {
        self.transitions.len() == 0
    }

    /// Returns the length of the path.
    pub fn len(&self) -> (n: usize)
        ensures
            n == self.spec_transitions().len(),
    {
        self.transitions.len()
    }

    /// The path that stays in `state`.
    pub fn empty(state: usize) -> (path: Path)
        ensures
            path.spec_end() == state,
            path.spec_transitions() == Seq::<(usize, char)>::empty(),
    {
        Path { end: state, transitions: Vec::new() }
    }

    /// Creates a new path that takes the given `transitions` and ends in
    /// `state`.
    pub fn new(state: usize, transitions: Vec<(usize, char)>) -> (path: Path)
        ensures
            path.spec_end() == state,
            path.spec_transitions() == transitions@,
    {
        Path { end: state, transitions }
    }

    /// Creates a looping path by pointing the last transition to the given
    /// `position`: what comes before it is the base, the rest the cycle. The
    /// path must end in the state it leaves at `position`.
    pub fn loop_back_to(self, position: usize) -> (lasso: Lasso)
        requires
            position < self.spec_transitions().len(),
            self.spec_end() == self.spec_transitions()[position as int].0,
        ensures
            lasso.spec_base().spec_end() == self.spec_transitions()[position as int].0,
            lasso.spec_base().spec_transitions() == self.spec_transitions().subrange(
                0,
                position as int,
            ),
            lasso.spec_cycle().spec_end() == self.spec_end(),
            lasso.spec_cycle().spec_transitions() == self.spec_transitions().subrange(
                position as int,
                self.spec_transitions().len() as int,
            ),
    {
        let mut base: Vec<(usize, char)> = Vec::new();
        let mut cycle: Vec<(usize, char)> = Vec::new();
        let mut i: usize = 0;
        while i < self.transitions.len()
            invariant
                position < self.transitions@.len(),
                i <= self.transitions@.len(),
                base@ == self.transitions@.subrange(
                    0,
                    if i <= position { i as int } else { position as int },
                ),
                cycle@ == self.transitions@.subrange(
                    position as int,
                    if i <= position { position as int } else { i as int },
                ),
            decreases self.transitions@.len() - i,
        {
            if i < position {
                base.push(self.transitions[i]);
            } else {
                cycle.push(self.transitions[i]);
            }
            i = i + 1;
        }
        Lasso::new(Path::new(self.transitions[position].0, base), Path::new(self.end, cycle))
    }

    /// Returns the colours of the edges that the path takes in `ts`, in
    /// order. Every step of the path must have an edge in `ts`.
    pub fn edge_colors<Q, C: Copy>(&self, ts: &IndexTS<Q, C>) -> (colors: Vec<C>)
        requires
            steps_exist(ts.spec_edges(), self.spec_transitions()),
        ensures
            colors@ == self.spec_transitions().map_values(
                |t: (usize, char)| color_of_step(ts.spec_edges(), t),
            ),
    {
        let mut out: Vec<C> = Vec::new();
        let mut i: usize = 0;
        while i < self.transitions.len()
            invariant
                i <= self.transitions@.len(),
                steps_exist(ts.spec_edges(), self.transitions@),
                out@ == self.transitions@.subrange(0, i as int).map_values(
                    |t: (usize, char)| color_of_step(ts.spec_edges(), t),
                ),
            decreases self.transitions@.len() - i,
        {
            let t = self.transitions[i];
            match ts.successor(t.0, t.1) {
                Some(tr) => {
                    out.push(tr.color);
                },
                None => {
                    assert(false);
                },
            }
            assert(out@ =~= self.transitions@.subrange(0, i + 1).map_values(
                |t: (usize, char)| color_of_step(ts.spec_edges(), t),
            ));
            i = i + 1;
        }
        assert(self.transitions@.subrange(0, self.transitions@.len() as int) == self.transitions@);
        out
    }

    /// Returns the colour of the state that is reached by the path. The state
    /// must be a state of `ts`.
    pub fn reached_state_color<'a, Q, C: Copy>(&self, ts: &'a IndexTS<Q, C>) -> (color: &'a Q)
        requires
            self.spec_end() < ts.spec_size(),
        ensures
            *color == ts.spec_states()[self.spec_end() as int],
    {
        ts.state_color(self.end)
    }

    /// The colour of the edge that the last step takes in `ts`; `None` for an
    /// empty path, or where `ts` has no such edge.
    pub fn last_transition_color<Q, C: Copy>(&self, ts: &IndexTS<Q, C>) -> (color: Option<C>)
        ensures
            color == if self.spec_transitions().len() > 0 && taken_edge(
                ts.spec_edges(),
                self.spec_transitions().last().0 as int,
                self.spec_transitions().last().1,
            ) is Some {
                Some(color_of_step(ts.spec_edges(), self.spec_transitions().last()))
            } else {
                None
            },
    {
        if self.transitions.len() == 0 {
            return None;
        }
        let t = self.transitions[self.transitions.len() - 1];
        match ts.successor(t.0, t.1) {
            Some(tr) => Some(tr.color),
            None => None,
        }
    }

    /// Returns the indices of the states visited by the path, in order.
    pub fn state_sequence(&self) -> (states: Vec<usize>)
        ensures
            states@ == states_along(self.spec_transitions(), self.spec_end()),
    {
        let mut out: Vec<usize> = Vec::new();
        let mut i: usize = 0;
        while i < self.transitions.len()
            invariant
                i <= self.transitions@.len(),
                out@ == self.transitions@.subrange(0, i as int).map_values(
                    |t: (usize, char)| t.0,
                ),
            decreases self.transitions@.len() - i,
        {
            out.push(self.transitions[i].0);
            assert(out@ =~= self.transitions@.subrange(0, i + 1).map_values(
                |t: (usize, char)| t.0,
            ));
            i = i + 1;
        }
        assert(self.transitions@.subrange(0, self.transitions@.len() as int) == self.transitions@);
        out.push(self.end);
        out
    }

    /// Gives the colours of the states visited by the path, in order. Every
    /// state of the path must be a state of `ts`.
    pub fn state_colors<'a, Q, C: Copy>(&self, ts: &'a IndexTS<Q, C>) -> (colors: Vec<&'a Q>)
        requires
            forall|i: int|
                0 <= i < states_along(self.spec_transitions(), self.spec_end()).len()
                    ==> #[trigger] states_along(self.spec_transitions(), self.spec_end())[i]
                    < ts.spec_size(),
        ensures
            colors@.len() == self.spec_transitions().len() + 1,
            forall|i: int|
                0 <= i < colors@.len() ==> *#[trigger] colors@[i] == ts.spec_states()[states_along(
                    self.spec_transitions(),
                    self.spec_end(),
                )[i] as int],
    {
        let states = self.state_sequence();
        let mut out: Vec<&'a Q> = Vec::new();
        let mut i: usize = 0;
        while i < states.len()
            invariant
                i <= states@.len(),
                states@ == states_along(self.spec_transitions(), self.spec_end()),
                forall|j: int| 0 <= j < states@.len() ==> #[trigger] states@[j] < ts.spec_size(),
                out@.len() == i,
                forall|j: int|
                    0 <= j < i ==> *#[trigger] out@[j] == ts.spec_states()[states@[j] as int],
            decreases states@.len() - i,
        {
            assert(states@[i as int] < ts.spec_size());
            out.push(ts.state_color(states[i]));
            i = i + 1;
        }
        out
    }

    /// Attempts to extend the path in the given `ts` by the given `symbol`.
    /// If the path can be extended, the transition is returned. Otherwise,
    /// `None` is returned and the path stays as it is.
    pub fn extend_in<Q, C: Copy>(&mut self, ts: &IndexTS<Q, C>, symbol: char) -> (taken: Option<
        Transition<C>,
    >)
        ensures
            match taken {
                Some(t) => {
                    &&& taken_edge(ts.spec_edges(), old(self).spec_end() as int, symbol) matches Some(
                        i,
                    )
                    &&& t == (Transition {
                        source: old(self).spec_end(),
                        symbol,
                        target: ts.spec_edges()[i].target,
                        color: ts.spec_edges()[i].color,
                    })
                    &&& final(self).spec_end() == t.target
                    &&& final(self).spec_transitions() == old(self).spec_transitions().push(
                        (old(self).spec_end(), symbol),
                    )
                },
                None => {
                    &&& taken_edge(ts.spec_edges(), old(self).spec_end() as int, symbol) is None
                    &&& *final(self) == *old(self)
                },
            },
    {
        match ts.successor(self.end, symbol) {
            Some(t) => {
                self.transitions.push((self.end, symbol));
                self.end = t.target;
                Some(t)
            },
            None => None,
        }
    }

    /// Extends self with the steps of the given `other` path. The state in
    /// which the path ends stays as it is.
    pub fn extend_with(&mut self, other: Path)
        ensures
            final(self).spec_transitions() == old(self).spec_transitions()
                + other.spec_transitions(),
            final(self).spec_end() == old(self).spec_end(),
    {
        let mut i: usize = 0;
        while i < other.transitions.len()
            invariant
                i <= other.transitions@.len(),
                self.end == old(self).end,
                self.transitions@ == old(self).transitions@ + other.transitions@.subrange(
                    0,
                    i as int,
                ),
            decreases other.transitions@.len() - i,
        {
            self.transitions.push(other.transitions[i]);
            i = i + 1;
        }
        assert(other.transitions@.subrange(0, other.transitions@.len() as int)
            == other.transitions@);
    }
}

/// A lasso represents an infinite path, which after it ends loops back to
/// some previous position.
#[derive(Clone, Debug, PartialEq, Eq)]
pub struct Lasso {
    base: Path,
    cycle: Path,
}

impl Lasso {
    /// The part that is taken once.
    pub closed spec fn spec_base(&self) -> Path {
        self.base
    }

    /// The part that is taken for ever.
    pub closed spec fn spec_cycle(&self) -> Path {
        self.cycle
    }

    /// Creates a new lasso from the given base and cycle.
    pub fn new(base: Path, cycle: Path) -> (lasso: Lasso)
        ensures
            lasso.spec_base() == base,
            lasso.spec_cycle() == cycle,
    {
        Lasso { base, cycle }
    }

    /// Returns the infinity set of `self` in `ts`: the colours of the edges of
    /// the cycle, each once, in order of first occurrence. Every step of the
    /// cycle must have an edge in `ts`.
    pub fn infinity_set<Q>(self, ts: &IndexTS<Q, usize>) -> (colors: Vec<usize>)
        requires
            steps_exist(ts.spec_edges(), self.spec_cycle().spec_transitions()),
        ensures
            colors@ == distinct_values(
                self.spec_cycle().spec_transitions().map_values(
                    |t: (usize, char)| color_of_step(ts.spec_edges(), t),
                ),
            ),
    {
        let all = self.cycle.edge_colors(ts);
        let mut out: Vec<usize> = Vec::new();
        let mut i: usize = 0;
        while i < all.len()
            invariant
                i <= all@.len(),
                out@ == distinct_values(all@.subrange(0, i as int)),
            decreases all@.len() - i,
        {
            let c = all[i];
            proof {
                let next = all@.subrange(0, i + 1);
                assert(next.drop_last() == all@.subrange(0, i as int));
                assert(next.last() == c);
            }
            let mut known = false;
            let mut k: usize = 0;
            while k < out.len()
                invariant
                    k <= out@.len(),
                    known == out@.subrange(0, k as int).contains(c),
                decreases out@.len() - k,
            {
                proof {
                    let more = out@.subrange(0, k + 1);
                    let less = out@.subrange(0, k as int);
                    assert(more == less.push(out@[k as int]));
                    if less.contains(c) {
                        let x = choose|x: int| 0 <= x < less.len() && less[x] == c;
                        assert(more[x] == c);
                    }
                    if more.contains(c) && out@[k as int] != c {
                        let x = choose|x: int| 0 <= x < more.len() && more[x] == c;
                        assert(less[x] == c);
                    }
                    if out@[k as int] == c {
                        assert(more[k as int] == c);
                    }
                }
                if out[k] == c {
                    known = true;
                }
                k = k + 1;
            }
            assert(out@.subrange(0, out@.len() as int) == out@);
            if !known {
                out.push(c);
            }
            i = i + 1;
        }
        assert(all@.subrange(0, all@.len() as int) == all@);
        out
    }
}

} // verus!
