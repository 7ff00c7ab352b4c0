//! What several types of the library can do alike: be reduced to a truth
//! value, name a class, be seen as an automaton, be run, be evaluated, be
//! turned into a right congruence.

use crate::class::Class;
use crate::congruence::RightCongruence;
use crate::deterministic::Deterministic;
use crate::dfa::{renumbered, renumbered_edge, DFA};
use crate::index_ts::{run, Edge};
use crate::run::{
    evaluate_finite, evaluate_infinite, infinite_outcome, run_steps, EvaluateErr, Run,
};
use crate::words::{Str, UltimatelyPeriodicWord};
use vstd::prelude::*;

verus! {

/// Helper trait to reduce a value to a truth value. Normally, `true`
/// corresponds to `1`, while `false` corresponds to `0`. This does not work
/// well with conditions in which the least even number wins, so this helper
/// trait is introduced.
pub trait ReducesTo {
    /// Whether the value can be reduced.
    spec fn reducible(&self) -> bool;

    /// What the value reduces to.
    spec fn spec_reduce(&self) -> bool;

    /// Reduce `self` to a truth value.
    fn reduce(self) -> (b: bool)
        requires
            self.reducible(),
        ensures
            b == self.spec_reduce(),
    ;
}

impl ReducesTo for bool {
    open spec fn reducible(&self) -> bool {
        true
    }

    open spec fn spec_reduce(&self) -> bool {
        *self
    }

    fn reduce(self) -> (b: bool) {
        self
    }
}

impl ReducesTo for usize {
    open spec fn reducible(&self) -> bool {
        true
    }

    open spec fn spec_reduce(&self) -> bool {
        *self % 2 == 0
    }

    fn reduce(self) -> (b: bool) {
        (self % 2) == 0
    }
}

impl ReducesTo for Vec<bool> {
    open spec fn reducible(&self) -> bool {
        true
    }

    open spec fn spec_reduce(&self) -> bool {
        self@.contains(true)
    }

    fn reduce(self) -> (b: bool) {
        let mut i: usize = 0;
        while i < self.len()
            invariant
                i <= self@.len(),
                forall|j: int| 0 <= j < i ==> !self@[j],
            decreases self@.len() - i,
        {
            if self[i] {
                return true;
            }
            i = i + 1;
        }
        false
    }
}

/// The least value of `s`.
pub open spec fn least(s: Seq<usize>) -> usize
    decreases s.len(),
{
    if s.len() <= 1 {
        s[0]
    } else {
        let rest = least(s.drop_last());
        if s.last() < rest {
            s.last()
        } else {
            rest
        }
    }
}

impl ReducesTo for Vec<usize> {
    open spec fn reducible(&self) -> bool {
        self@.len() > 0
    }

    open spec fn spec_reduce(&self) -> bool {
        least(self@) % 2 == 0
    }

    fn reduce(self) -> (b: bool) {
        let mut best: usize = self[0];
        let mut i: usize = 1;
        assert(self@.subrange(0, 1).len() == 1);
        assert(self@.subrange(0, 1)[0] == self@[0]);
        while i < self.len()
            invariant
                1 <= i <= self@.len(),
                best == least(self@.subrange(0, i as int)),
            decreases self@.len() - i,
        {
            proof {
                let next = self@.subrange(0, i + 1);
                assert(next.drop_last() == self@.subrange(0, i as int));
                assert(next.last() == self@[i as int]);
            }
            if self[i] < best {
                best = self[i];
            }
            i = i + 1;
        }
        assert(self@.subrange(0, self@.len() as int) == self@);
        best % 2 == 0
    }
}

/// Implementors of this trait can be used as indices for the right
/// congruence.
pub trait IndexesRightCongruence {
    /// The state that `self` names in `congruence`.
    spec fn spec_to_index(&self, congruence: &RightCongruence) -> Option<usize>;

    /// Turns `self` into an index for the given right congruence.
    fn to_index(&self, congruence: &RightCongruence) -> (index: Option<usize>)
        ensures
            index == self.spec_to_index(congruence),
    ;
}

impl IndexesRightCongruence for usize {
    open spec fn spec_to_index(&self, congruence: &RightCongruence) -> Option<usize> {
        Some(*self)
    }

    fn to_index(&self, congruence: &RightCongruence) -> (index: Option<usize>) {
        Some(*self)
    }
}

impl IndexesRightCongruence for Class {
    open spec fn spec_to_index(&self, congruence: &RightCongruence) -> Option<usize> {
        if congruence.spec_labels().contains(self@) {
            Some(first_place(congruence.spec_labels(), self@) as usize)
        } else {
            None
        }
    }

    fn to_index(&self, congruence: &RightCongruence) -> (index: Option<usize>) {
        let index = congruence.class_to_index(self);
        proof {
            match index {
                Some(i) => {
                    lemma_first_place(congruence.spec_labels(), self@, i as int);
                },
                None => {},
            }
        }
        index
    }
}

/// The first place at which `label` stands in `labels`.
pub open spec fn first_place(labels: Seq<Seq<char>>, label: Seq<char>) -> int
    decreases labels.len(),
{
    if labels.len() == 0 {
        0
    } else if labels.drop_last().contains(label) {
        first_place(labels.drop_last(), label)
    } else {
        labels.len() - 1
    }
}

/// A place that holds `label`, with no such place before it, is its first
/// place.
pub proof fn lemma_first_place(labels: Seq<Seq<char>>, label: Seq<char>, i: int)
    requires
        0 <= i < labels.len(),
        labels[i] == label,
        forall|j: int| 0 <= j < i ==> labels[j] != label,
    ensures
        labels.contains(label),
        first_place(labels, label) == i,
    decreases labels.len(),
{
    let init = labels.drop_last();
    if i < labels.len() - 1 {
        assert(init[i] == label);
        assert forall|j: int| 0 <= j < i implies init[j] != label by {
            assert(labels[j] != label);
        }
        lemma_first_place(init, label, i);
    } else {
        if init.contains(label) {
            let j = choose|j: int| 0 <= j < init.len() && init[j] == label;
            assert(labels[j] != label);
        }
    }
}

/// This trait is implemented by everything which can be viewed as a [`DFA`].
pub trait DFALike {
    /// Whether `self` can be viewed as an automaton.
    spec fn dfa_ready(&self) -> bool;

    /// What `self` accepts.
    spec fn dfa_accepts(&self, word: Seq<char>) -> bool;

    /// Builds the automaton that `self` stands for.
    fn collect_dfa(&self) -> (dfa: DFA)
        requires
            self.dfa_ready(),
        ensures
            dfa.wf(),
            forall|word: Seq<char>| #[trigger] dfa.spec_accepts(word) == self.dfa_accepts(word),
    ;
}

impl DFALike for DFA {
    open spec fn dfa_ready(&self) -> bool {
        self.wf()
    }

    open spec fn dfa_accepts(&self, word: Seq<char>) -> bool {
        self.spec_accepts(word)
    }

    fn collect_dfa(&self) -> (dfa: DFA) {
        let dfa = self.with_initial(self.initial());
        proof {
            assert forall|word: Seq<char>| #[trigger]
                dfa.spec_accepts(word) == self.dfa_accepts(word) by {}
        }
        dfa
    }
}

impl DFALike for RightCongruence {
    open spec fn dfa_ready(&self) -> bool {
        self.wf()
    }

    open spec fn dfa_accepts(&self, word: Seq<char>) -> bool {
        self.spec_reached(word) is Some
    }

    fn collect_dfa(&self) -> (dfa: DFA) {
        crate::dfa::all_accepting(self)
    }
}

/// Implementors of this trait can be run in a transition system, producing
/// either an induced object or a failed partial run.
pub trait Runnable {
    /// The type of object induced by a successful run.
    type Induces;

    /// Whether the word can be run.
    spec fn runnable(&self) -> bool;

    /// Whether `result` is what the run of `self` in `ts` from `from` comes
    /// to.
    spec fn run_outcome(
        &self,
        ts: Deterministic,
        from: u32,
        result: Result<Self::Induces, EvaluateErr>,
    ) -> bool;

    /// Runs `self` in `ts` starting in `from`.
    fn run_in_from(&self, ts: &Deterministic, from: u32) -> (result: Result<
        Self::Induces,
        EvaluateErr,
    >)
        requires
            self.runnable(),
        ensures
            self.run_outcome(*ts, from, result),
    ;
}

/// What the run of `ts` from `from` on the finite word `word` comes to.
pub open spec fn finite_outcome(
    ts: Deterministic,
    from: u32,
    word: Seq<char>,
    result: Result<u32, EvaluateErr>,
) -> bool {
    match result {
        Ok(t) => ts.spec_run(from, word) == Some(t),
        Err((trace, q, a)) => {
            &&& ts.spec_run(from, word) is None
            &&& trace@.len() < word.len()
            &&& a == word[trace@.len() as int]
            &&& ts.spec_run(from, word.subrange(0, trace@.len() as int)) == Some(q)
            &&& ts.spec_succ(q, a) is None
            &&& trace@ == run_steps(ts, from, word.subrange(0, trace@.len() as int))
        },
    }
}

impl Runnable for Str {
    type Induces = u32;

    open spec fn runnable(&self) -> bool {
        true
    }

    open spec fn run_outcome(
        &self,
        ts: Deterministic,
        from: u32,
        result: Result<u32, EvaluateErr>,
    ) -> bool {
        finite_outcome(ts, from, self@, result)
    }

    fn run_in_from(&self, ts: &Deterministic, from: u32) -> (result: Result<u32, EvaluateErr>) {
        evaluate_finite(ts, from, self)
    }
}

impl Runnable for UltimatelyPeriodicWord {
    type Induces = Vec<(u32, char, u32)>;

    open spec fn runnable(&self) -> bool {
        self.wf()
    }

    open spec fn run_outcome(
        &self,
        ts: Deterministic,
        from: u32,
        result: Result<Vec<(u32, char, u32)>, EvaluateErr>,
    ) -> bool {
        infinite_outcome(ts, from, self.spec_base(), self.spec_recur(), result)
    }

    fn run_in_from(&self, ts: &Deterministic, from: u32) -> (result: Result<
        Vec<(u32, char, u32)>,
        EvaluateErr,
    >) {
        evaluate_infinite(ts, from, self)
    }
}

/// Implementors can be evaluated. In case this evaluation is successful, an
/// object of type [`Self::Induces`] is returned, otherwise, an
/// [`EvaluateErr`] is returned.
pub trait Evaluate {
    /// The type of object that is produced if the evaluation is successful.
    type Induces;

    /// Whether `self` can be evaluated.
    spec fn evaluable(&self) -> bool;

    /// Whether `result` is what the evaluation comes to.
    spec fn outcome(&self, result: Result<Self::Induces, EvaluateErr>) -> bool;

    /// Perform the evaluation.
    fn evaluate(&self) -> (result: Result<Self::Induces, EvaluateErr>)
        requires
            self.evaluable(),
        ensures
            self.outcome(result),
    ;
}

impl Evaluate for Run<Str> {
    type Induces = u32;

    open spec fn evaluable(&self) -> bool {
        true
    }

    open spec fn outcome(&self, result: Result<u32, EvaluateErr>) -> bool {
        finite_outcome(self.spec_ts(), self.spec_origin(), self.spec_input()@, result)
    }

    fn evaluate(&self) -> (result: Result<u32, EvaluateErr>) {
        Run::<Str>::evaluate(self)
    }
}

impl Evaluate for Run<UltimatelyPeriodicWord> {
    type Induces = Vec<(u32, char, u32)>;

    open spec fn evaluable(&self) -> bool {
        self.spec_input().wf()
    }

    open spec fn outcome(&self, result: Result<Vec<(u32, char, u32)>, EvaluateErr>) -> bool {
        infinite_outcome(
            self.spec_ts(),
            self.spec_origin(),
            self.spec_input().spec_base(),
            self.spec_input().spec_recur(),
            result,
        )
    }

    fn evaluate(&self) -> (result: Result<Vec<(u32, char, u32)>, EvaluateErr>) {
        Run::<UltimatelyPeriodicWord>::evaluate(self)
    }
}

/// A congruence is a transition system which has a distinguished initial
/// state; it can be turned into a right congruence.
pub trait Congruence {
    /// Whether `self` can be turned into a right congruence.
    spec fn congruence_ready(&self) -> bool;

    /// Whether `cong` has the structure of `self`, with the states numbered
    /// as `map` says.
    spec fn has_structure(&self, cong: &RightCongruence, map: Seq<usize>) -> bool;

    /// Creates a new instance of a [`RightCongruence`] from the transition
    /// structure of `self`. Returns the created congruence together with the
    /// number that each state has in it.
    fn build_right_congruence(&self) -> (result: (RightCongruence, Vec<usize>))
        requires
            self.congruence_ready(),
        ensures
            self.has_structure(&result.0, result.1@),
    ;
}

impl Congruence for DFA {
    open spec fn congruence_ready(&self) -> bool {
        self.wf()
    }

    open spec fn has_structure(&self, cong: &RightCongruence, map: Seq<usize>) -> bool {
        &&& cong.wf()
        &&& cong.spec_alphabet() == self.spec_ts().spec_alphabet()
        &&& cong.spec_size() == self.spec_ts().spec_size()
        &&& map.len() == self.spec_ts().spec_size()
        &&& forall|s: int|
            0 <= s < map.len() ==> #[trigger] map[s] == renumbered(self.spec_initial(), s as usize)
        &&& cong.spec_edges() == self.spec_ts().spec_edges().map_values(
            |e: Edge<()>| renumbered_edge(self.spec_initial(), e),
        )
        &&& forall|t: int|
            0 <= t < cong.spec_size() ==> if crate::reach::reachable(cong.spec_edges(), 0, t) {
                run(cong.spec_edges(), 0, #[trigger] cong.spec_labels()[t]) == Some(t)
            } else {
                cong.spec_labels()[t] == Seq::<char>::empty()
            }
        &&& forall|t: int, word: Seq<char>|
            0 <= t < cong.spec_size() && #[trigger] run(cong.spec_edges(), 0, word) == Some(t) ==> (
            #[trigger] cong.spec_labels()[t]).len() <= word.len()
    }

    fn build_right_congruence(&self) -> (result: (RightCongruence, Vec<usize>)) {
        DFA::build_right_congruence(self)
    }
}

} // verus!
