//! Runs of a deterministic transition system on a finite word, step by step
//! and as a whole.

use crate::deterministic::{entry_place, lemma_entry_place, Deterministic, InitializedDeterministic};
use crate::reach::lemma_distinct_in_range;
use crate::sample::distinct;
use crate::words::{Str, UltimatelyPeriodicWord};
use vstd::prelude::*;

verus! {

/// Encapsulates the possible outputs of a run when a symbol is consumed.
#[derive(Clone, Copy, Debug, PartialEq, Eq, Structural)]
pub enum RunOutput {
    /// A transition is taken, gives the trigger.
    Trigger(u32, char),
    /// The word has ended, returns the reached state.
    WordEnd(u32),
    /// No transition for the given symbol is found, returns the state we are
    /// in as well as the missing symbol.
    Missing(u32, char),
    /// The run has failed previously and thus cannot be continued.
    FailedBefore,
}

impl RunOutput {
    /// Returns true iff the run output is a trigger.
    pub fn is_trigger(&self) -> (b: bool)
        ensures
            b == (*self is Trigger),
    {
        match self {
            RunOutput::Trigger(_, _) => true,
            _ => false,
        }
    }

    /// Creates a new `RunOutput::Trigger` from the given state symbol pair.
    pub fn trigger(from: u32, on: char) -> (out: Self)
        ensures
            out == RunOutput::Trigger(from, on),
    {
        RunOutput::Trigger(from, on)
    }

    /// Creates a new `RunOutput::WordEnd` with the given reached state.
    pub fn end(state: u32) -> (out: Self)
        ensures
            out == RunOutput::WordEnd(state),
    {
        RunOutput::WordEnd(state)
    }

    /// Creates a new `RunOutput::Missing` with the given state and missing
    /// symbol.
    pub fn missing(state: u32, missing: char) -> (out: Self)
        ensures
            out == RunOutput::Missing(state, missing),
    {
        RunOutput::Missing(state, missing)
    }

    /// Returns the trigger if `self` is of type `RunOutput::Trigger` and
    /// `None` otherwise.
    pub fn get_trigger(&self) -> (trigger: Option<(u32, char)>)
        ensures
            trigger == match *self {
                RunOutput::Trigger(q, a) => Some((q, a)),
                _ => None,
            },
    {
        match self {
            RunOutput::Trigger(q, a) => Some((*q, *a)),
            _ => None,
        }
    }
}

/// An escape prefix for a transition system is a sequence of triggers, a state
/// `q` and a symbol `a` such that the triggers bring the transition system
/// into `q`, and no transition is defined for `a` in `q`. With it comes what
/// is left of the word after the triggers.
#[derive(Clone, Debug, PartialEq, Eq)]
pub struct EscapePrefix<W>(pub Vec<(u32, char)>, pub u32, pub char, pub W);

impl EscapePrefix<Str> {
    /// Creates a new escape prefix from the given prefix, state and symbol;
    /// what is left of `word` after as many symbols as the prefix has triggers
    /// is its suffix.
    pub fn new(word: &Str, prefix: Vec<(u32, char)>, state: u32, symbol: char) -> (escape: Self)
        ensures
            escape.0@ == prefix@,
            escape.1 == state,
            escape.2 == symbol,
            escape.3@ == word@.subrange(
                if prefix@.len() <= word@.len() {
                    prefix@.len() as int
                } else {
                    word@.len() as int
                },
                word@.len() as int,
            ),
    {
        let length = prefix.len();
        EscapePrefix(prefix, state, symbol, word.skip(length))
    }
}

impl EscapePrefix<UltimatelyPeriodicWord> {
    /// Turns the escape prefix of a finite word into one of the infinite word
    /// `word`: triggers, state and symbol stay, the suffix is what is left of
    /// `word` after as many symbols as there are triggers.
    pub fn from_finite(word: &UltimatelyPeriodicWord, escape_prefix: EscapePrefix<Str>) -> (escape:
        Self)
        requires
            word.wf(),
        ensures
            escape.0@ == escape_prefix.0@,
            escape.1 == escape_prefix.1,
            escape.2 == escape_prefix.2,
            escape.3.wf(),
            forall|i: int|
                0 <= i ==> escape.3.symbol_at(i) == word.symbol_at(i + escape_prefix.0@.len()),
    {
        let length = escape_prefix.0.len();
        EscapePrefix(escape_prefix.0, escape_prefix.1, escape_prefix.2, word.skip(length))
    }
}

/// A run in progress: the transition system, the word, how much of it was
/// read, and the triggers taken so far.
#[derive(Clone, Debug)]
pub struct Walker<'a> {
    ts: &'a Deterministic,
    word: &'a Str,
    position: usize,
    state: u32,
    failed: bool,
    seq: Vec<(u32, char)>,
}

impl<'a> Walker<'a> {
    /// The transition system.
    pub closed spec fn spec_ts(&self) -> Deterministic {
        *self.ts
    }

    /// The word that is read.
    pub closed spec fn spec_word(&self) -> Seq<char> {
        self.word@
    }

    /// Number of symbols read.
    pub closed spec fn spec_position(&self) -> nat {
        self.position as nat
    }

    /// The state the run is in.
    pub closed spec fn spec_state(&self) -> u32 {
        self.state
    }

    /// Whether a transition was missing.
    pub closed spec fn spec_failed(&self) -> bool {
        self.failed
    }

    /// The triggers taken so far.
    pub closed spec fn spec_seq(&self) -> Seq<(u32, char)> {
        self.seq@
    }

    /// As many symbols were read as the word has at most, and one trigger was
    /// taken for each.
    pub open spec fn wf(&self) -> bool {
        &&& self.spec_position() <= self.spec_word().len()
        &&& self.spec_seq().len() == self.spec_position()
    }

    /// A run of `ts` on `word` that starts in `from`.
    pub fn new(ts: &'a Deterministic, word: &'a Str, from: u32) -> (walker: Self)
        ensures
            walker.wf(),
            walker.spec_ts() == *ts,
            walker.spec_word() == word@,
            walker.spec_position() == 0,
            walker.spec_state() == from,
            !walker.spec_failed(),
            walker.spec_seq() == Seq::<(u32, char)>::empty(),
    {
        Walker { ts, word, position: 0, state: from, failed: false, seq: Vec::new() }
    }

    /// Takes one step: the trigger taken, where the next symbol has a
    /// transition; the end of the word, where no symbol is left; the missing
    /// transition, where the next symbol has none; and after a missing
    /// transition, that the run has failed before.
    pub fn next(&mut self) -> (out: RunOutput)
        requires
            old(self).wf(),
        ensures
            final(self).wf(),
            final(self).spec_ts() == old(self).spec_ts(),
            final(self).spec_word() == old(self).spec_word(),
            out == if old(self).spec_failed() {
                RunOutput::FailedBefore
            } else if old(self).spec_position() >= old(self).spec_word().len() {
                RunOutput::WordEnd(old(self).spec_state())
            } else if old(self).spec_ts().spec_succ(
                old(self).spec_state(),
                old(self).spec_word()[old(self).spec_position() as int],
            ) is Some {
                RunOutput::Trigger(
                    old(self).spec_state(),
                    old(self).spec_word()[old(self).spec_position() as int],
                )
            } else {
                RunOutput::Missing(
                    old(self).spec_state(),
                    old(self).spec_word()[old(self).spec_position() as int],
                )
            },
            match out {
                RunOutput::Trigger(q, a) => {
                    &&& final(self).spec_position() == old(self).spec_position() + 1
                    &&& Some(final(self).spec_state()) == old(self).spec_ts().spec_succ(q, a)
                    &&& final(self).spec_seq() == old(self).spec_seq().push((q, a))
                    &&& !final(self).spec_failed()
                },
                RunOutput::Missing(_, _) => {
                    &&& final(self).spec_position() == old(self).spec_position()
                    &&& final(self).spec_state() == old(self).spec_state()
                    &&& final(self).spec_seq() == old(self).spec_seq()
                    &&& final(self).spec_failed()
                },
                _ => *final(self) == *old(self),
            },
    {
        if self.failed {
            return RunOutput::FailedBefore;
        }
        let length: usize = self.word.length();
        match self.word.nth(self.position) {
            None => RunOutput::WordEnd(self.state),
            Some(a) => {
                let q = self.state;
                match self.ts.succ(q, a) {
                    Some(t) => {
                        self.seq.push((q, a));
                        self.state = t;
                        self.position = self.position + 1;
                        RunOutput::Trigger(q, a)
                    },
                    None => {
                        self.failed = true;
                        RunOutput::Missing(q, a)
                    },
                }
            },
        }
    }

    /// Number of symbols read.
    pub fn position(&self) -> (n: usize)
        ensures
            n == self.spec_position(),
    {
        self.position
    }

    /// The triggers taken so far.
    pub fn taken(&self) -> (seq: &Vec<(u32, char)>)
        ensures
            seq@ == self.spec_seq(),
    {
        &self.seq
    }
}

/// Abstracts the ability to run a word on a transition system step by step.
pub trait Walk {
    /// The transition system that is walked.
    spec fn spec_walked(&self) -> Deterministic;

    /// Creates a walker that starts at the given state and consumes the given
    /// word.
    fn walk<'a>(&'a self, from: u32, word: &'a Str) -> (walker: Walker<'a>)
        ensures
            walker.wf(),
            walker.spec_ts() == self.spec_walked(),
            walker.spec_word() == word@,
            walker.spec_position() == 0,
            walker.spec_state() == from,
            !walker.spec_failed(),
            walker.spec_seq() == Seq::<(u32, char)>::empty(),
    ;
}

impl Walk for Deterministic {
    open spec fn spec_walked(&self) -> Deterministic {
        *self
    }

    fn walk<'a>(&'a self, from: u32, word: &'a Str) -> (walker: Walker<'a>) {
        Walker::new(self, word, from)
    }
}

impl Walk for InitializedDeterministic {
    open spec fn spec_walked(&self) -> Deterministic {
        self.spec_det()
    }

    fn walk<'a>(&'a self, from: u32, word: &'a Str) -> (walker: Walker<'a>) {
        Walker::new(self.det(), word, from)
    }
}

/// The triggers of the run of `ts` from `q` on `word`, as far as it goes, each
/// with the state it leads to.
pub open spec fn run_steps(ts: Deterministic, q: u32, word: Seq<char>) -> Seq<(u32, char, u32)>
    decreases word.len(),
{
    if word.len() == 0 {
        Seq::<(u32, char, u32)>::empty()
    } else {
        let init = word.drop_last();
        match ts.spec_run(q, init) {
            Some(t) => match ts.spec_succ(t, word.last()) {
                Some(u) => run_steps(ts, q, init).push((t, word.last(), u)),
                None => run_steps(ts, q, init),
            },
            None => run_steps(ts, q, init),
        }
    }
}

/// Encapsulates the run of a transition system on a word starting from a
/// designated origin state.
#[derive(Clone, Debug, PartialEq, Eq)]
pub struct Run<W> {
    ts: Deterministic,
    input: W,
    origin: u32,
}

/// A failed evaluation: the transitions taken, the state reached with them and
/// the symbol on which it has no transition.
pub type EvaluateErr = (Vec<(u32, char, u32)>, u32, char);

impl<W> Run<W> {
    /// The transition system on which the run is performed.
    pub closed spec fn spec_ts(&self) -> Deterministic {
        self.ts
    }

    /// The input word of the run.
    pub closed spec fn spec_input(&self) -> W {
        self.input
    }

    /// The state in which the run starts.
    pub closed spec fn spec_origin(&self) -> u32 {
        self.origin
    }

    /// Creates a new run on the given transition system with the given input.
    pub fn new(on: Deterministic, from: u32, word: W) -> (run: Self)
        ensures
            run.spec_ts() == on,
            run.spec_origin() == from,
            run.spec_input() == word,
    {
        Run { ts: on, input: word, origin: from }
    }

    /// Returns the transition system on which the run is performed.
    pub fn ts(&self) -> (ts: &Deterministic)
        ensures
            *ts == self.spec_ts(),
    {
        &self.ts
    }

    /// Returns the input word of the run.
    pub fn input(&self) -> (input: &W)
        ensures
            *input == self.spec_input(),
    {
        &self.input
    }

    /// Returns the state in which the run starts.
    pub fn origin(&self) -> (state: u32)
        ensures
            state == self.spec_origin(),
    {
        self.origin
    }
}

/// The run of `ts` from `from` on `word` as a whole: the state reached, or the
/// transitions taken up to the missing one, the state reached with them and
/// the symbol on which it has no transition.
pub fn evaluate_finite(ts: &Deterministic, from: u32, word: &Str) -> (result: Result<
    u32,
    EvaluateErr,
>)
    ensures
        match result {
            Ok(t) => ts.spec_run(from, word@) == Some(t),
            Err((trace, q, a)) => {
                &&& ts.spec_run(from, word@) is None
                &&& trace@.len() < word@.len()
                &&& a == word@[trace@.len() as int]
                &&& ts.spec_run(from, word@.subrange(0, trace@.len() as int)) == Some(q)
                &&& ts.spec_succ(q, a) is None
                &&& trace@ == run_steps(*ts, from, word@.subrange(0, trace@.len() as int))
            },
        },
{
    let mut trace: Vec<(u32, char, u32)> = Vec::new();
    let mut cur: u32 = from;
    let symbols = word.symbols();
    let mut i: usize = 0;
    while i < symbols.len()
        invariant
            symbols@ == word@,
            i <= word@.len(),
            trace@.len() == i,
            ts.spec_run(from, word@.subrange(0, i as int)) == Some(cur),
            trace@ == run_steps(*ts, from, word@.subrange(0, i as int)),
        decreases word@.len() - i,
    {
        proof {
            let next = word@.subrange(0, i + 1);
            assert(next.drop_last() == word@.subrange(0, i as int));
            assert(next.last() == word@[i as int]);
        }
        match ts.succ(cur, symbols[i]) {
            Some(t) => {
                trace.push((cur, symbols[i], t));
                cur = t;
            },
            None => {
                proof {
                    ts.lemma_run_stops(from, word@, i as int + 1);
                }
                return Err((trace, cur, symbols[i]));
            },
        }
        i = i + 1;
    }
    assert(word@.subrange(0, word@.len() as int) == word@);
    Ok(cur)
}

impl Run<Str> {
    /// Performs the run: the state reached, or where and on what it stops.
    pub fn evaluate(&self) -> (result: Result<u32, EvaluateErr>)
        ensures
            match result {
                Ok(t) => self.spec_ts().spec_run(self.spec_origin(), self.spec_input()@) == Some(
                    t,
                ),
                Err((trace, q, a)) => {
                    &&& self.spec_ts().spec_run(self.spec_origin(), self.spec_input()@) is None
                    &&& trace@.len() < self.spec_input()@.len()
                    &&& a == self.spec_input()@[trace@.len() as int]
                    &&& self.spec_ts().spec_run(
                        self.spec_origin(),
                        self.spec_input()@.subrange(0, trace@.len() as int),
                    ) == Some(q)
                    &&& self.spec_ts().spec_succ(q, a) is None
                    &&& trace@ == run_steps(
                        self.spec_ts(),
                        self.spec_origin(),
                        self.spec_input()@.subrange(0, trace@.len() as int),
                    )
                },
            },
    {
        evaluate_finite(&self.ts, self.origin, &self.input)
    }
}

/// `recur` written `k` times in a row.
pub open spec fn repeated(recur: Seq<char>, k: nat) -> Seq<char>
    decreases k,
{
    if k == 0 {
        Seq::<char>::empty()
    } else {
        repeated(recur, (k - 1) as nat) + recur
    }
}

/// The state that `ts` is in after it has read `recur` `k` times from `q`.
pub open spec fn lap_state(ts: Deterministic, q: u32, recur: Seq<char>, k: nat) -> Option<u32> {
    ts.spec_run(q, repeated(recur, k))
}

/// What the run of `ts` from `from` on `recur^ω` comes to. It ends well after
/// `k` laps, where `k` is the first number of laps that ends in a state in
/// which an earlier lap has ended; it then gives the steps of these laps, each
/// once, in order of first occurrence. It fails where a transition is missing,
/// and then gives the steps taken so far, the state reached with them and the
/// symbol on which it has no transition.
pub open spec fn laps_outcome(
    ts: Deterministic,
    from: u32,
    recur: Seq<char>,
    result: Result<Vec<(u32, char, u32)>, EvaluateErr>,
) -> bool {
    match result {
        Ok(steps) => exists|k: nat|
            {
                &&& k >= 1
                &&& #[trigger] lap_state(ts, from, recur, k) is Some
                &&& exists|i: nat|
                    1 <= i < k && #[trigger] lap_state(ts, from, recur, i) == lap_state(
                        ts,
                        from,
                        recur,
                        k,
                    )
                &&& forall|i: nat, j: nat|
                    1 <= i < j < k ==> #[trigger] lap_state(ts, from, recur, i)
                        != #[trigger] lap_state(ts, from, recur, j)
                &&& steps@ == distinct(run_steps(ts, from, repeated(recur, k)))
            },
        Err((trace, q, a)) => exists|k: nat, i: int|
            {
                &&& 0 <= i < recur.len()
                &&& a == recur[i]
                &&& ts.spec_run(from, #[trigger] (repeated(recur, k) + recur.subrange(0, i)))
                    == Some(q)
                &&& ts.spec_succ(q, a) is None
                &&& trace@ == run_steps(ts, from, repeated(recur, k) + recur.subrange(0, i))
            },
    }
}

/// What the run of `ts` from `from` on `base · recur^ω` comes to: where the
/// base is read to its end, what the run on `recur^ω` from there comes to;
/// else the failure on the base.
pub open spec fn infinite_outcome(
    ts: Deterministic,
    from: u32,
    base: Seq<char>,
    recur: Seq<char>,
    result: Result<Vec<(u32, char, u32)>, EvaluateErr>,
) -> bool {
    match ts.spec_run(from, base) {
        Some(reached) => laps_outcome(ts, reached, recur, result),
        None => result matches Err((trace, q, a)) && trace@.len() < base.len() && a
            == base[trace@.len() as int] && ts.spec_run(from, base.subrange(0, trace@.len() as int))
            == Some(q) && ts.spec_succ(q, a) is None && trace@ == run_steps(
            ts,
            from,
            base.subrange(0, trace@.len() as int),
        ),
    }
}

/// The steps of `steps`, each once, in order of first occurrence.
pub fn distinct_steps(steps: &Vec<(u32, char, u32)>) -> (out: Vec<(u32, char, u32)>)
    ensures
        out@ == distinct(steps@),
{
    let mut out: Vec<(u32, char, u32)> = Vec::new();
    let mut i: usize = 0;
    while i < steps.len()
        invariant
            i <= steps@.len(),
            out@ == distinct(steps@.subrange(0, i as int)),
        decreases steps@.len() - i,
    {
        let c = steps[i];
        proof {
            let next = steps@.subrange(0, i + 1);
            assert(next.drop_last() == steps@.subrange(0, i as int));
            assert(next.last() == c);
        }
        let mut known = false;
        let mut k: usize = 0;
        while k < out.len()
            invariant
                k <= out@.len(),
                known == out@.subrange(0, k as int).contains(c),
            decreases out@.len() - k,
        {
            proof {
                let more = out@.subrange(0, k + 1);
                let less = out@.subrange(0, k as int);
                assert(more == less.push(out@[k as int]));
                if less.contains(c) {
                    let x = choose|x: int| 0 <= x < less.len() && less[x] == c;
                    assert(more[x] == c);
                }
                if more.contains(c) && out@[k as int] != c {
                    let x = choose|x: int| 0 <= x < more.len() && more[x] == c;
                    assert(less[x] == c);
                }
                if out@[k as int] == c {
                    assert(more[k as int] == c);
                }
            }
            if out[k].0 == c.0 && out[k].1 == c.1 && out[k].2 == c.2 {
                known = true;
            }
            k = k + 1;
        }
        assert(out@.subrange(0, out@.len() as int) == out@);
        if !known {
            out.push(c);
        }
        i = i + 1;
    }
    assert(steps@.subrange(0, steps@.len() as int) == steps@);
    out
}

/// Whether `state` stands in `seen`.
pub fn seen_before(seen: &Vec<u32>, state: u32) -> (b: bool)
    ensures
        b == seen@.contains(state),
{
    let mut i: usize = 0;
    while i < seen.len()
        invariant
            i <= seen@.len(),
            forall|j: int| 0 <= j < i ==> seen@[j] != state,
        decreases seen@.len() - i,
    {
        if seen[i] == state {
            return true;
        }
        i = i + 1;
    }
    false
}

/// What the run of `ts` from `from` on the infinite word `recur^ω` comes to.
/// The period is read lap by lap; the run is over as soon as a lap ends in a
/// state in which an earlier lap has ended. It gives the steps taken up to
/// there, each once, in order of first occurrence. Where a transition is
/// missing, it gives the steps taken in the laps so far, the state reached
/// with them and the symbol on which it has no transition.
pub fn evaluate_laps(ts: &Deterministic, from: u32, recur: &Vec<char>) -> (result: Result<
    Vec<(u32, char, u32)>,
    EvaluateErr,
>)
    requires
        recur@.len() > 0,
    ensures
        laps_outcome(*ts, from, recur@, result),
{
    let ghost edges = ts.spec_edges();
    let mut seen: Vec<u32> = Vec::new();
    let ghost mut places: Seq<int> = Seq::empty();
    let mut seq: Vec<(u32, char, u32)> = Vec::new();
    let mut cur: u32 = from;
    let ghost mut laps: nat = 0;
    loop
        invariant
            recur@.len() > 0,
            edges == ts.spec_edges(),
            ts.spec_run(from, repeated(recur@, laps)) == Some(cur),
            seq@ == run_steps(*ts, from, repeated(recur@, laps)),
            seen@.len() == laps,
            places.len() == laps,
            forall|i: int|
                0 <= i < laps ==> lap_state(*ts, from, recur@, (i + 1) as nat) == Some(
                    #[trigger] seen@[i],
                ),
            forall|i: int|
                0 <= i < laps ==> 0 <= #[trigger] places[i] < edges.len() && edges[places[i]].2
                    == seen@[i],
            seen@.no_duplicates(),
        decreases edges.len() - seen@.len(),
    {
        proof {
            assert(places.no_duplicates()) by {
                assert forall|x: int, y: int|
                    0 <= x < places.len() && 0 <= y < places.len() && x != y implies places[x]
                    != places[y] by {
                    assert(seen@[x] != seen@[y]);
                }
            }
            lemma_distinct_in_range(places, edges.len() as int);
        }
        let ghost start = repeated(recur@, laps);
        let ghost mut last_place: int = 0;
        let mut i: usize = 0;
        while i < recur.len()
            invariant
                recur@.len() > 0,
                edges == ts.spec_edges(),
                start == repeated(recur@, laps),
                i <= recur@.len(),
                ts.spec_run(from, start + recur@.subrange(0, i as int)) == Some(cur),
                seq@ == run_steps(*ts, from, start + recur@.subrange(0, i as int)),
                i > 0 ==> 0 <= last_place < edges.len() && edges[last_place].2 == cur,
            decreases recur@.len() - i,
        {
            let a = recur[i];
            proof {
                let before = start + recur@.subrange(0, i as int);
                let after = start + recur@.subrange(0, i + 1);
                assert(after.drop_last() == before);
                assert(after.last() == a);
                lemma_entry_place(edges, cur, a);
            }
            match ts.succ(cur, a) {
                Some(t) => {
                    proof {
                        last_place = entry_place(edges, cur, a).unwrap();
                    }
                    seq.push((cur, a, t));
                    cur = t;
                },
                None => {
                    proof {
                        let word = repeated(recur@, laps) + recur@.subrange(0, i as int);
                        assert(ts.spec_run(from, word) == Some(cur));
                    }
                    return Err((seq, cur, a));
                },
            }
            i = i + 1;
        }
        proof {
            assert(recur@.subrange(0, recur@.len() as int) == recur@);
            assert(repeated(recur@, laps + 1) == start + recur@);
        }
        if seen_before(&seen, cur) {
            let steps = distinct_steps(&seq);
            proof {
                let k = laps + 1;
                let x = choose|x: int| 0 <= x < seen@.len() && seen@[x] == cur;
                assert(lap_state(*ts, from, recur@, (x + 1) as nat) == Some(seen@[x]));
                assert(lap_state(*ts, from, recur@, k) == Some(cur));
                assert forall|i: nat, j: nat| 1 <= i < j < k implies #[trigger] lap_state(
                    *ts,
                    from,
                    recur@,
                    i,
                ) != #[trigger] lap_state(*ts, from, recur@, j) by {
                    assert(lap_state(*ts, from, recur@, ((i - 1) + 1) as nat) == Some(
                        seen@[i - 1],
                    ));
                    assert(lap_state(*ts, from, recur@, ((j - 1) + 1) as nat) == Some(
                        seen@[j - 1],
                    ));
                    assert(seen@[i - 1] != seen@[j - 1]);
                }
                assert(1 <= (x + 1) as nat && ((x + 1) as nat) < k);
            }
            return Ok(steps);
        }
        proof {
            assert forall|x: int, y: int|
                0 <= x < seen@.len() + 1 && 0 <= y < seen@.len() + 1 && x != y implies seen@.push(
                cur,
            )[x] != seen@.push(cur)[y] by {
                if x < seen@.len() && y < seen@.len() {
                    assert(seen@[x] != seen@[y]);
                } else if x < seen@.len() {
                    assert(seen@.contains(seen@[x]));
                } else {
                    assert(seen@.contains(seen@[y]));
                }
            }
            let more = places.push(last_place);
            assert(more.no_duplicates()) by {
                assert forall|x: int, y: int|
                    0 <= x < more.len() && 0 <= y < more.len() && x != y implies more[x]
                    != more[y] by {
                    if x < places.len() && y < places.len() {
                        assert(seen@[x] != seen@[y]);
                    } else if x < places.len() {
                        assert(seen@.contains(seen@[x]));
                    } else {
                        assert(seen@.contains(seen@[y]));
                    }
                }
            }
            lemma_distinct_in_range(more, edges.len() as int);
            places = more;
            laps = laps + 1;
        }
        seen.push(cur);
    }
}

/// The run of `ts` from `from` on the infinite word `word`: the base is read
/// first, then the period lap by lap, from the state that the base leads to.
/// A transition that is missing while the base is read gives what
/// `evaluate_finite` gives for the base.
pub fn evaluate_infinite(ts: &Deterministic, from: u32, word: &UltimatelyPeriodicWord) -> (result:
    Result<Vec<(u32, char, u32)>, EvaluateErr>)
    requires
        word.wf(),
    ensures
        infinite_outcome(*ts, from, word.spec_base(), word.spec_recur(), result),
{
    let symbols = crate::words::copy_range(word.base(), 0, word.base_length());
    assert(symbols@ == word.spec_base()) by {
        assert(word.spec_base().subrange(0, word.spec_base().len() as int) == word.spec_base());
    }
    let base = Str::from_symbols(symbols.0);
    assert(base@ == word.spec_base());
    match evaluate_finite(ts, from, &base) {
        Err(e) => {
            assert(ts.spec_run(from, word.spec_base()) is None);
            Err(e)
        },
        Ok(reached) => {
            assert(ts.spec_run(from, word.spec_base()) == Some(reached));
            evaluate_laps(ts, reached, word.recur())
        },
    }
}

impl Run<UltimatelyPeriodicWord> {
    /// Performs the run on the infinite input: the steps that are taken from
    /// the end of the base until a lap of the period ends where an earlier lap
    /// has ended, each once; or where and on what the run stops.
    pub fn evaluate(&self) -> (result: Result<Vec<(u32, char, u32)>, EvaluateErr>)
        requires
            self.spec_input().wf(),
        ensures
            infinite_outcome(
                self.spec_ts(),
                self.spec_origin(),
                self.spec_input().spec_base(),
                self.spec_input().spec_recur(),
                result,
            ),
    {
        evaluate_infinite(&self.ts, self.origin, &self.input)
    }
}

/// Holds a transition system together with the state in which runs start.
#[derive(Clone, Debug, PartialEq, Eq)]
pub struct Initialized {
    ts: Deterministic,
    start: u32,
}

impl Initialized {
    /// The transition system.
    pub closed spec fn spec_ts(&self) -> Deterministic {
        self.ts
    }

    /// The state in which runs start.
    pub closed spec fn spec_start(&self) -> u32 {
        self.start
    }

    /// `ts` with `start` as the state in which runs start.
    pub fn new(ts: Deterministic, start: u32) -> (init: Self)
        ensures
            init.spec_ts() == ts,
            init.spec_start() == start,
    {
        Initialized { ts, start }
    }

    /// The state in which runs start.
    pub fn initial(&self) -> (state: u32)
        ensures
            state == self.spec_start(),
    {
        self.start
    }

    /// The transition system.
    pub fn ts(&self) -> (ts: &Deterministic)
        ensures
            *ts == self.spec_ts(),
    {
        &self.ts
    }

    /// The state reached from the start by reading the symbols of `text`, or
    /// where and on what the run stops.
    pub fn run(&self, text: &str) -> (result: Result<u32, EvaluateErr>)
        ensures
            match result {
                Ok(t) => self.spec_ts().spec_run(self.spec_start(), text@) == Some(t),
                Err((trace, q, a)) => {
                    &&& self.spec_ts().spec_run(self.spec_start(), text@) is None
                    &&& trace@.len() < text@.len()
                    &&& a == text@[trace@.len() as int]
                    &&& self.spec_ts().spec_succ(q, a) is None
                },
            },
    {
        let word = Str::from_text(text);
        evaluate_finite(&self.ts, self.start, &word)
    }
}

} // verus!
