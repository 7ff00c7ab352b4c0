//! Small types and traits shared by the transition systems.

use crate::congruence::RightCongruence;
use crate::deterministic::InitializedDeterministic;
use crate::dfa::DFA;
use crate::index_ts::IndexTS;
use crate::run::Initialized;
use vstd::prelude::*;

verus! {

/// Type for indices of states and edges.
pub type Idx = usize;

/// Encapsulates what is necessary for a type to be usable as a state index in
/// a transition system.
pub trait IndexType: Copy {
    /// The number that the index stands for.
    spec fn spec_number(&self) -> nat;
}

impl IndexType for usize {
    open spec fn spec_number(&self) -> nat {
        *self as nat
    }
}

impl IndexType for u32 {
    open spec fn spec_number(&self) -> nat {
        *self as nat
    }
}

/// Wrapper type for indices of states in a transition system.
#[derive(Clone, Copy, Debug, PartialEq, Eq, Structural, Hash, PartialOrd, Ord)]
pub struct StateIndex(pub Idx);

impl StateIndex {
    /// Creates a new state index.
    pub fn new(index: Idx) -> (state: Self)
        ensures
            state.0 == index,
    {
        StateIndex(index)
    }
}

/// Helper trait for index types, which also allows conversion to a state
/// index.
pub trait Index {
    /// The number that stands behind the index.
    spec fn spec_index(&self) -> Idx;

    /// Turns self into an index of type [`Idx`].
    fn index(&self) -> (i: Idx)
        ensures
            i == self.spec_index(),
    ;

    /// Turns self into a state index.
    fn as_state_index(&self) -> (state: StateIndex)
        ensures
            state.0 == self.spec_index(),
    ;
}

impl Index for Idx {
    open spec fn spec_index(&self) -> Idx {
        *self
    }

    fn index(&self) -> (i: Idx) {
        *self
    }

    fn as_state_index(&self) -> (state: StateIndex) {
        StateIndex::new(*self)
    }
}

impl Index for StateIndex {
    open spec fn spec_index(&self) -> Idx {
        self.0
    }

    fn index(&self) -> (i: Idx) {
        self.0
    }

    fn as_state_index(&self) -> (state: StateIndex) {
        *self
    }
}

/// Implementors of this trait have a color, which can be obtained.
pub trait HasColor {
    /// The color type of the implementor.
    type Color;

    /// The color of the implementor.
    spec fn spec_color(&self) -> Self::Color;

    /// Returns a reference to the color of the implementor.
    fn color(&self) -> (color: &Self::Color)
        ensures
            *color == self.spec_color(),
    ;
}

/// Implementors of this trait have a color, which can be obtained and set.
pub trait HasColorMut: HasColor {
    /// Sets the color of the implementor to the given color.
    fn set_color(&mut self, color: Self::Color)
        ensures
            final(self).spec_color() == color,
    ;
}

/// A reference to a state in a transition system. This stores the index of
/// the state and a reference to the color of the state.
#[derive(Clone, Copy, Debug, PartialEq, Eq, Hash)]
pub struct StateReference<'a, Q> {
    /// The [`StateIndex`] of the state that is referenced.
    pub index: StateIndex,
    /// A reference to the color of the state.
    pub color: &'a Q,
}

impl<'a, Q> StateReference<'a, Q> {
    /// Creates a new state reference.
    pub fn new(index: StateIndex, color: &'a Q) -> (state: Self)
        ensures
            state.index == index,
            state.color == color,
    {
        StateReference { index, color }
    }
}

impl<'a, Q> HasColor for StateReference<'a, Q> {
    type Color = Q;

    open spec fn spec_color(&self) -> Q {
        *self.color
    }

    fn color(&self) -> (color: &Q) {
        self.color
    }
}

/// A state that owns its colour.
#[derive(Clone, Debug, PartialEq, Eq)]
pub struct State<Q> {
    /// The colour of the state.
    pub color: Q,
}

impl<Q> HasColor for State<Q> {
    type Color = Q;

    open spec fn spec_color(&self) -> Q {
        self.color
    }

    fn color(&self) -> (color: &Q) {
        &self.color
    }
}

impl<Q> HasColorMut for State<Q> {
    fn set_color(&mut self, color: Q) {
        self.color = color;
    }
}

/// Implementors of this trait have a distinguished (initial) state.
pub trait Pointed {
    /// How states are named.
    type StateIndex;

    /// The initial state.
    spec fn spec_initial_state(&self) -> Self::StateIndex;

    /// Returns the index of the initial state.
    fn initial(&self) -> (state: Self::StateIndex)
        ensures
            state == self.spec_initial_state(),
    ;
}

impl Pointed for RightCongruence {
    type StateIndex = usize;

    open spec fn spec_initial_state(&self) -> usize {
        0
    }

    fn initial(&self) -> (state: usize) {
        0
    }
}

impl Pointed for DFA {
    type StateIndex = usize;

    open spec fn spec_initial_state(&self) -> usize {
        self.spec_initial()
    }

    fn initial(&self) -> (state: usize) {
        DFA::initial(self)
    }
}

impl Pointed for InitializedDeterministic {
    type StateIndex = u32;

    open spec fn spec_initial_state(&self) -> u32 {
        self.spec_initial()
    }

    fn initial(&self) -> (state: u32) {
        InitializedDeterministic::initial(self)
    }
}

impl Pointed for Initialized {
    type StateIndex = u32;

    open spec fn spec_initial_state(&self) -> u32 {
        self.spec_start()
    }

    fn initial(&self) -> (state: u32) {
        Initialized::initial(self)
    }
}

/// Helper trait of [`FiniteState`]: the number of states.
pub trait HasFiniteStates {
    /// Number of states.
    spec fn spec_state_count(&self) -> nat;
}

/// Implementors of this trait have a finite number of states, numbered from 0,
/// and allow iteration over the set of all state indices.
pub trait FiniteState: HasFiniteStates {
    /// Returns the state indices in `self`, ascending.
    fn state_indices(&self) -> (indices: Vec<usize>)
        ensures
            indices@.len() == self.spec_state_count(),
            forall|i: int| 0 <= i < indices@.len() ==> indices@[i] == i,
    ;

    /// Gives the size of `self`.
    fn size(&self) -> (n: usize)
        ensures
            n == self.spec_state_count(),
    ;

    /// Returns true if and only if the given state `index` exists.
    fn contains_state_index(&self, index: usize) -> (b: bool)
        ensures
            b == (index < self.spec_state_count()),
    ;
}

impl<Q, C: Copy> HasFiniteStates for IndexTS<Q, C> {
    open spec fn spec_state_count(&self) -> nat {
        self.spec_size()
    }
}

impl<Q, C: Copy> FiniteState for IndexTS<Q, C> {
    fn state_indices(&self) -> (indices: Vec<usize>) {
        IndexTS::state_indices(self)
    }

    fn size(&self) -> (n: usize) {
        IndexTS::size(self)
    }

    fn contains_state_index(&self, index: usize) -> (b: bool) {
        self.contains_state(index)
    }
}

impl HasFiniteStates for RightCongruence {
    open spec fn spec_state_count(&self) -> nat {
        self.spec_size()
    }
}

impl FiniteState for RightCongruence {
    fn state_indices(&self) -> (indices: Vec<usize>) {
        RightCongruence::state_indices(self)
    }

    fn size(&self) -> (n: usize) {
        RightCongruence::size(self)
    }

    fn contains_state_index(&self, index: usize) -> (b: bool) {
        index < RightCongruence::size(self)
    }
}

/// Abstracts possessing a set of states, numbered from 0, each with a colour.
pub trait HasStates {
    /// The colour of a state.
    type StateColor;

    /// The colours of the states, by state number.
    spec fn spec_state_colors(&self) -> Seq<Self::StateColor>;

    /// Returns a reference to the colour of the state with the given index,
    /// if it exists and `None` otherwise.
    fn state(&self, index: usize) -> (color: Option<&Self::StateColor>)
        ensures
            color == if index < self.spec_state_colors().len() {
                Some(&self.spec_state_colors()[index as int])
            } else {
                None
            },
    ;

    /// Returns the number of states.
    fn hs_size(&self) -> (n: usize)
        ensures
            n == self.spec_state_colors().len(),
    ;
}

/// Abstracts possessing a set of states, which can be mutated.
pub trait HasMutableStates: HasStates {
    /// Gives the state with the given index the colour `color`. Returns
    /// whether the state exists; nothing changes where it does not.
    fn state_mut(&mut self, index: usize, color: Self::StateColor) -> (done: bool)
        ensures
            done == (index < old(self).spec_state_colors().len()),
            final(self).spec_state_colors() == if done {
                old(self).spec_state_colors().update(index as int, color)
            } else {
                old(self).spec_state_colors()
            },
    ;
}

impl<Q, C: Copy> HasStates for IndexTS<Q, C> {
    type StateColor = Q;

    open spec fn spec_state_colors(&self) -> Seq<Q> {
        self.spec_states()
    }

    fn state(&self, index: usize) -> (color: Option<&Q>) {
        IndexTS::state(self, index)
    }

    fn hs_size(&self) -> (n: usize) {
        IndexTS::size(self)
    }
}

impl<Q, C: Copy> HasMutableStates for IndexTS<Q, C> {
    fn state_mut(&mut self, index: usize, color: Q) -> (done: bool) {
        if index < IndexTS::size(self) {
            self.set_state_color(index, color);
            true
        } else {
            false
        }
    }
}

} // verus!
