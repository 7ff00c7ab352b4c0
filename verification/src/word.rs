//! What finite and infinite words have in common: access by position, and the
//! walks over their symbols and transitions.

use crate::alphabet::Alphabet;
use crate::class::Class;
use crate::congruence::RightCongruence;
use crate::index_ts::Edge;
use crate::words::{PeriodicWord, Str, UltimatelyPeriodicWord};
use vstd::prelude::*;

verus! {

/// A linear word is a word that can be indexed by a `usize`. This is the case
/// for both finite and infinite words.
pub trait LinearWord {
    /// What has to hold of a word before it is read.
    spec fn readable(&self) -> bool;

    /// The symbol at position `i`, if the word has one there.
    spec fn spec_nth(&self, i: int) -> Option<char>;

    /// Returns the symbol at the given `position` in `self`, if it exists.
    fn nth(&self, position: usize) -> (sym: Option<char>)
        requires
            self.readable(),
        ensures
            sym == self.spec_nth(position as int),
    ;

    /// Returns the first symbol of `self`, if it exists.
    fn first(&self) -> (sym: Option<char>)
        requires
            self.readable(),
        ensures
            sym == self.spec_nth(0),
    ;
}

/// Abstracts a word over an alphabet of characters.
pub trait Word {
    /// What has to hold of a word before it is read.
    spec fn well_formed(&self) -> bool;

    /// The symbol at position `i`, if the word has one there.
    spec fn symbol(&self, i: int) -> Option<char>;

    /// Returns the symbol at the given index, or `None` if the index is out of
    /// bounds.
    fn nth(&self, index: usize) -> (sym: Option<char>)
        requires
            self.well_formed(),
        ensures
            sym == self.symbol(index as int),
    ;
}

/// A trait which indicates that a word is finite.
pub trait IsFinite: Word {
    /// Number of symbols.
    spec fn spec_length(&self) -> nat;

    /// Returns the length of the word.
    fn length(&self) -> (n: usize)
        ensures
            n == self.spec_length(),
    ;
}

/// Marker trait for infinite words, assumes the implementor is finitely
/// representable as an ultimately periodic word, i.e. a base word followed by
/// an infinitely looping non-empty word.
pub trait IsInfinite: Word {
    /// Length of the base word.
    spec fn spec_base_length(&self) -> nat;

    /// Length of the recurring word.
    spec fn spec_recur_length(&self) -> nat;

    /// Returns the length of the base word.
    fn base_length(&self) -> (n: usize)
        ensures
            n == self.spec_base_length(),
    ;

    /// Returns the length of the recurring word.
    fn recur_length(&self) -> (n: usize)
        ensures
            n == self.spec_recur_length(),
    ;
}

/// A trait which allows reading the symbols of a finite word in order.
pub trait SymbolIterable: Word {
    /// The symbols of the word.
    spec fn spec_symbols(&self) -> Seq<char>;

    /// Returns the symbols of the word, in order.
    fn iter(&self) -> (symbols: Vec<char>)
        ensures
            symbols@ == self.spec_symbols(),
    ;
}

/// The symbol at position `i` of the finite word `s`.
pub open spec fn finite_nth(s: Seq<char>, i: int) -> Option<char> {
    if 0 <= i < s.len() {
        Some(s[i])
    } else {
        None
    }
}

impl Word for Str {
    open spec fn well_formed(&self) -> bool {
        true
    }

    open spec fn symbol(&self, i: int) -> Option<char> {
        finite_nth(self@, i)
    }

    fn nth(&self, index: usize) -> (sym: Option<char>) {
        Str::nth(self, index)
    }
}

impl IsFinite for Str {
    open spec fn spec_length(&self) -> nat {
        self@.len()
    }

    fn length(&self) -> (n: usize) {
        Str::length(self)
    }
}

impl SymbolIterable for Str {
    open spec fn spec_symbols(&self) -> Seq<char> {
        self@
    }

    fn iter(&self) -> (symbols: Vec<char>) {
        self.prefix(Str::length(self)).0
    }
}

impl LinearWord for Str {
    open spec fn readable(&self) -> bool {
        true
    }

    open spec fn spec_nth(&self, i: int) -> Option<char> {
        finite_nth(self@, i)
    }

    fn nth(&self, position: usize) -> (sym: Option<char>) {
        Str::nth(self, position)
    }

    fn first(&self) -> (sym: Option<char>) {
        Str::nth(self, 0)
    }
}

impl Word for Class {
    open spec fn well_formed(&self) -> bool {
        true
    }

    open spec fn symbol(&self, i: int) -> Option<char> {
        finite_nth(self@, i)
    }

    fn nth(&self, index: usize) -> (sym: Option<char>) {
        Class::nth(self, index)
    }
}

impl IsFinite for Class {
    open spec fn spec_length(&self) -> nat {
        self@.len()
    }

    fn length(&self) -> (n: usize) {
        Class::length(self)
    }
}

impl LinearWord for Class {
    open spec fn readable(&self) -> bool {
        true
    }

    open spec fn spec_nth(&self, i: int) -> Option<char> {
        finite_nth(self@, i)
    }

    fn nth(&self, position: usize) -> (sym: Option<char>) {
        Class::nth(self, position)
    }

    fn first(&self) -> (sym: Option<char>) {
        Class::nth(self, 0)
    }
}

impl Word for UltimatelyPeriodicWord {
    open spec fn well_formed(&self) -> bool {
        self.wf()
    }

    open spec fn symbol(&self, i: int) -> Option<char> {
        Some(self.symbol_at(i))
    }

    fn nth(&self, index: usize) -> (sym: Option<char>) {
        UltimatelyPeriodicWord::nth(self, index)
    }
}

impl IsInfinite for UltimatelyPeriodicWord {
    open spec fn spec_base_length(&self) -> nat {
        self.spec_base().len()
    }

    open spec fn spec_recur_length(&self) -> nat {
        self.spec_recur().len()
    }

    fn base_length(&self) -> (n: usize) {
        UltimatelyPeriodicWord::base_length(self)
    }

    fn recur_length(&self) -> (n: usize) {
        UltimatelyPeriodicWord::recur_length(self)
    }
}

impl LinearWord for UltimatelyPeriodicWord {
    open spec fn readable(&self) -> bool {
        self.wf()
    }

    open spec fn spec_nth(&self, i: int) -> Option<char> {
        Some(self.symbol_at(i))
    }

    fn nth(&self, position: usize) -> (sym: Option<char>) {
        UltimatelyPeriodicWord::nth(self, position)
    }

    fn first(&self) -> (sym: Option<char>) {
        UltimatelyPeriodicWord::nth(self, 0)
    }
}

impl Word for PeriodicWord {
    open spec fn well_formed(&self) -> bool {
        self.wf()
    }

    open spec fn symbol(&self, i: int) -> Option<char> {
        Some(crate::words::upw_symbol(Seq::<char>::empty(), self@, i))
    }

    fn nth(&self, index: usize) -> (sym: Option<char>) {
        PeriodicWord::nth(self, index)
    }
}

impl IsInfinite for PeriodicWord {
    open spec fn spec_base_length(&self) -> nat {
        0
    }

    open spec fn spec_recur_length(&self) -> nat {
        self@.len()
    }

    fn base_length(&self) -> (n: usize) {
        0
    }

    fn recur_length(&self) -> (n: usize) {
        PeriodicWord::recur_length(self)
    }
}

/// A walk over the symbols of a word between two positions. It is used up by
/// walking: each step hands out the symbol at the start position and moves
/// that position on.
#[derive(Clone, Debug, PartialEq, Eq, Hash)]
pub struct ConsumingInfixIterator<'a, W: LinearWord> {
    word: &'a W,
    start: usize,
    end: usize,
}

impl<'a, W: LinearWord> ConsumingInfixIterator<'a, W> {
    /// The word that is walked over.
    pub closed spec fn spec_word(&self) -> W {
        *self.word
    }

    /// The position of the next symbol.
    pub closed spec fn spec_start(&self) -> usize {
        self.start
    }

    /// The position at which the walk ends.
    pub closed spec fn spec_end(&self) -> usize {
        self.end
    }

    /// Creates a new walk over `word` from position `start` up to, not
    /// including, position `end`.
    pub fn new(word: &'a W, start: usize, end: usize) -> (iter: Self)
        ensures
            iter.spec_word() == *word,
            iter.spec_start() == start,
            iter.spec_end() == end,
    {
        ConsumingInfixIterator { word, start, end }
    }

    /// The symbol at the start position, which then moves on by one; `None`
    /// once the start position has reached the end position.
    pub fn next(&mut self) -> (sym: Option<char>)
        requires
            old(self).spec_word().readable(),
        ensures
            final(self).spec_word() == old(self).spec_word(),
            final(self).spec_end() == old(self).spec_end(),
            sym == if old(self).spec_start() < old(self).spec_end() {
                old(self).spec_word().spec_nth(old(self).spec_start() as int)
            } else {
                None
            },
            final(self).spec_start() == if old(self).spec_start() < old(self).spec_end() {
                (old(self).spec_start() + 1) as usize
            } else {
                old(self).spec_start()
            },
    {
        if self.start < self.end {
            let out = self.word.nth(self.start);
            self.start = self.start + 1;
            out
        } else {
            None
        }
    }
}

/// Used to extract the transitions from a word viewed as a transition system.
/// For a finite word w = abaab, it hands out the transitions
/// ε -a-> a, a -b-> ab, ab -a-> aba, ...
/// An infinite word w = uv^ω gives transitions that mimic a finite path on
/// the symbols of u, to which a loop on the symbols of v is attached.
#[derive(Clone, Debug)]
pub struct WordTransitions<W> {
    word: W,
    pos: usize,
}

/// A transition between classes: from a class, on a symbol, to a class.
pub type CongruenceTransition = (Class, char, Class);

impl<W> WordTransitions<W> {
    /// The word whose transitions are handed out.
    pub closed spec fn spec_word(&self) -> W {
        self.word
    }

    /// Number of transitions handed out.
    pub closed spec fn spec_pos(&self) -> usize {
        self.pos
    }

    /// Creates a new [`WordTransitions`] object.
    pub fn new(word: W) -> (transitions: Self)
        ensures
            transitions.spec_word() == word,
            transitions.spec_pos() == 0,
    {
        WordTransitions { word, pos: 0 }
    }
}

impl WordTransitions<UltimatelyPeriodicWord> {
    /// The next transition. With `b` for the length of the base and `r` for
    /// that of the period: up to position `b + r` the transition leads from
    /// the prefix of that length to the prefix that is one symbol longer; at
    /// position `b + r` it leads back to the prefix of length `b + 1`; after
    /// that there is none.
    pub fn next(&mut self) -> (transition: Option<CongruenceTransition>)
        requires
            old(self).spec_word().wf(),
            old(self).spec_word().spec_base().len() + old(self).spec_word().spec_recur().len()
                < usize::MAX,
        ensures
            final(self).spec_word() == old(self).spec_word(),
            ({
                let w = old(self).spec_word();
                let pos = old(self).spec_pos();
                let back = w.spec_base().len() + w.spec_recur().len();
                match transition {
                    Some((from, on, to)) => {
                        &&& pos <= back
                        &&& final(self).spec_pos() == pos + 1
                        &&& from@ == w.spec_prefix(pos as nat)
                        &&& on == w.symbol_at(pos as int)
                        &&& to@ == if pos < back {
                            w.spec_prefix((pos + 1) as nat)
                        } else {
                            w.spec_prefix(w.spec_base().len() + 1)
                        }
                    },
                    None => pos > back && final(self).spec_pos() == pos,
                }
            }),
    {
        let back = self.word.base_length() + self.word.recur_length();
        if self.pos > back {
            return None;
        }
        let from = self.word.prefix(self.pos);
        let on = self.word.symbol(self.pos);
        let to = if self.pos < back {
            self.word.prefix(self.pos + 1)
        } else {
            self.word.prefix(self.word.base_length() + 1)
        };
        self.pos = self.pos + 1;
        Some((from, on, to))
    }
}

impl WordTransitions<Str> {
    /// The next transition: from the prefix with as many symbols as
    /// transitions were handed out, to the prefix that is one symbol longer;
    /// none once the word is used up.
    pub fn next(&mut self) -> (transition: Option<CongruenceTransition>)
        ensures
            final(self).spec_word() == old(self).spec_word(),
            ({
                let w = old(self).spec_word()@;
                let pos = old(self).spec_pos();
                match transition {
                    Some((from, on, to)) => {
                        &&& pos < w.len()
                        &&& final(self).spec_pos() == pos + 1
                        &&& from@ == w.subrange(0, pos as int)
                        &&& on == w[pos as int]
                        &&& to@ == w.subrange(0, pos + 1)
                    },
                    None => pos >= w.len() && final(self).spec_pos() == pos,
                }
            }),
    {
        let length = self.word.length();
        if self.pos < length {
            let from = self.word.prefix(self.pos);
            let to = self.word.prefix(self.pos + 1);
            match self.word.nth(self.pos) {
                Some(on) => {
                    self.pos = self.pos + 1;
                    Some((from, on, to))
                },
                None => None,
            }
        } else {
            None
        }
    }
}

/// The edge from `source` to `target` on `a`.
pub open spec fn edge_on(source: usize, a: char, target: usize) -> Edge<()> {
    Edge { source, symbol: a, target, color: () }
}

/// The edge that the word `base · recur^ω` takes at position `i`: on to the
/// next position, and from the last position of the first lap back into the
/// period.
pub open spec fn word_edge(base: Seq<char>, recur: Seq<char>, i: int) -> Edge<()> {
    edge_on(
        i as usize,
        crate::words::upw_symbol(base, recur, i),
        if i < base.len() + recur.len() {
            (i + 1) as usize
        } else {
            (base.len() + 1) as usize
        },
    )
}

impl UltimatelyPeriodicWord {
    /// The word as a transition system: one state for each prefix up to the
    /// end of the first lap of the period and one symbol more, named by that
    /// prefix; each state steps to the next on the symbol at its position, and
    /// the last steps back into the period.
    pub fn into_ts(&self) -> (cong: RightCongruence)
        requires
            self.wf(),
            self.spec_base().len() + self.spec_recur().len() < usize::MAX,
        ensures
            cong.wf(),
            cong.spec_alphabet() == crate::alphabet::first_occurrences(
                self.spec_base() + self.spec_recur(),
            ),
            cong.spec_labels() == Seq::new(
                self.spec_base().len() + self.spec_recur().len() + 1,
                |i: int| self.spec_prefix(i as nat),
            ),
            cong.spec_edges() == Seq::new(
                self.spec_base().len() + self.spec_recur().len() + 1,
                |i: int| word_edge(self.spec_base(), self.spec_recur(), i),
            ),
    {
        let b = self.base_length();
        let r = self.recur_length();
        let back: usize = b + r;
        let mut symbols: Vec<char> = Vec::new();
        let mut i: usize = 0;
        while i < back
            invariant
                self.wf(),
                back == self.spec_base().len() + self.spec_recur().len(),
                i <= back,
                symbols@ == (self.spec_base() + self.spec_recur()).subrange(0, i as int),
            decreases back - i,
        {
            let a = self.symbol(i);
            proof {
                crate::words::lemma_first_lap(self.spec_base(), self.spec_recur(), i as int);
            }
            symbols.push(a);
            i = i + 1;
        }
        assert((self.spec_base() + self.spec_recur()).subrange(0, back as int) == self.spec_base()
            + self.spec_recur());
        let mut cong = RightCongruence::new(Alphabet::from_symbols(symbols));
        assert(self.spec_prefix(0) =~= Seq::<char>::empty());
        assert(cong.spec_labels() =~= Seq::new(1, |i: int| self.spec_prefix(i as nat)));
        let mut i: usize = 1;
        while i <= back
            invariant
                self.wf(),
                back == self.spec_base().len() + self.spec_recur().len(),
                back < usize::MAX,
                1 <= i <= back + 1,
                cong.wf(),
                cong.spec_alphabet() == crate::alphabet::first_occurrences(
                    self.spec_base() + self.spec_recur(),
                ),
                cong.spec_edges() == Seq::<Edge<()>>::empty(),
                cong.spec_labels() == Seq::new(i as nat, |i: int| self.spec_prefix(i as nat)),
            decreases back + 1 - i,
        {
            cong.add_state(self.prefix(i));
            assert(cong.spec_labels() =~= Seq::new(
                (i + 1) as nat,
                |i: int| self.spec_prefix(i as nat),
            ));
            i = i + 1;
        }
        let ghost labels = cong.spec_labels();
        let mut i: usize = 0;
        while i <= back
            invariant
                self.wf(),
                b == self.spec_base().len(),
                back == self.spec_base().len() + self.spec_recur().len(),
                back < usize::MAX,
                i <= back + 1,
                cong.wf(),
                cong.spec_alphabet() == crate::alphabet::first_occurrences(
                    self.spec_base() + self.spec_recur(),
                ),
                cong.spec_labels() == labels,
                labels.len() == back + 1,
                cong.spec_edges() == Seq::new(
                    i as nat,
                    |i: int| word_edge(self.spec_base(), self.spec_recur(), i),
                ),
            decreases back + 1 - i,
        {
            let a = self.symbol(i);
            let to: usize = if i < back { i + 1 } else { b + 1 };
            assert(cong.spec_labels().len() == cong.spec_size());
            let ghost before = cong.spec_edges();
            cong.add_edge(i, a, to);
            assert(cong.spec_edges().last() == word_edge(
                self.spec_base(),
                self.spec_recur(),
                i as int,
            ));
            assert(cong.spec_edges().drop_last() == before);
            assert(cong.spec_edges() =~= Seq::new(
                (i + 1) as nat,
                |i: int| word_edge(self.spec_base(), self.spec_recur(), i),
            ));
            i = i + 1;
        }
        cong
    }
}

} // verus!
