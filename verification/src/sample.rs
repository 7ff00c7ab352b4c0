//! Samples: finite sets of infinite words, split into positive and negative
//! instances.

use crate::prefix_tree::{
    all_well_formed, is_separated, max_base, max_recur, separated, words_wf,
};
use crate::dfa::{accepts_all_of, prefix_acceptor, DFA};
use crate::prefix_tree::{is_prefix_tree, symbols_of};
use crate::congruence::RightCongruence;
use crate::prefix_tree::lemma_max_parts;
use crate::words::{lemma_rotated_once_more, rotated, same_symbols, UltimatelyPeriodicWord};
use vstd::prelude::*;

verus! {

/// The values of `s` in order of first occurrence.
pub open spec fn distinct<T>(s: Seq<T>) -> Seq<T>
    decreases s.len(),
{
    if s.len() == 0 {
        Seq::<T>::empty()
    } else {
        let rest = distinct(s.drop_last());
        if rest.contains(s.last()) {
            rest
        } else {
            rest.push(s.last())
        }
    }
}

/// The base and the period of each word of `words`.
pub open spec fn parts_of(words: Seq<UltimatelyPeriodicWord>) -> Seq<(Seq<char>, Seq<char>)> {
    words.map_values(|w: UltimatelyPeriodicWord| (w.spec_base(), w.spec_recur()))
}

/// The words of `words` in order of first occurrence; words count as one where
/// they have the same base and the same period.
pub fn distinct_words(words: Vec<UltimatelyPeriodicWord>) -> (out: Vec<UltimatelyPeriodicWord>)
    ensures
        parts_of(out@) == distinct(parts_of(words@)),
{
    let mut rest = words;
    let mut out: Vec<UltimatelyPeriodicWord> = Vec::new();
    let ghost mut done: int = 0;
    while rest.len() > 0
        invariant
            0 <= done <= words@.len(),
            rest@ == words@.subrange(done, words@.len() as int),
            parts_of(out@) == distinct(parts_of(words@.subrange(0, done))),
        decreases rest@.len(),
    {
        let w = rest.remove(0);
        proof {
            assert(w == words@[done]);
            let next = parts_of(words@.subrange(0, done + 1));
            assert(next.drop_last() =~= parts_of(words@.subrange(0, done)));
            assert(next.last() == (w.spec_base(), w.spec_recur()));
        }
        let mut known = false;
        let mut k: usize = 0;
        while k < out.len()
            invariant
                k <= out@.len(),
                known == parts_of(out@).subrange(0, k as int).contains(
                    (w.spec_base(), w.spec_recur()),
                ),
            decreases out@.len() - k,
        {
            proof {
                let all = parts_of(out@);
                let more = all.subrange(0, k + 1);
                let less = all.subrange(0, k as int);
                let x = (w.spec_base(), w.spec_recur());
                assert(more == less.push(all[k as int]));
                if less.contains(x) {
                    let i = choose|i: int| 0 <= i < less.len() && less[i] == x;
                    assert(more[i] == x);
                }
                if more.contains(x) && all[k as int] != x {
                    let i = choose|i: int| 0 <= i < more.len() && more[i] == x;
                    assert(less[i] == x);
                }
                if all[k as int] == x {
                    assert(more[k as int] == x);
                }
            }
            if out[k].same_parts(&w) {
                known = true;
            }
            k = k + 1;
        }
        assert(parts_of(out@).subrange(0, out@.len() as int) == parts_of(out@));
        if !known {
            let ghost before = parts_of(out@);
            out.push(w);
            assert(parts_of(out@) =~= before.push((w.spec_base(), w.spec_recur())));
        }
        proof {
            done = done + 1;
            assert(rest@ =~= words@.subrange(done, words@.len() as int));
        }
    }
    assert(words@.subrange(0, words@.len() as int) == words@);
    out
}

/// The base and the period of `w` after its point of repetition was moved on
/// `n` times.
pub open spec fn unrolled(w: UltimatelyPeriodicWord, n: nat) -> (Seq<char>, Seq<char>) {
    (
        w.spec_prefix(w.spec_base().len() + n),
        rotated(w.spec_recur(), (n as int) % (w.spec_recur().len() as int)),
    )
}

/// After `n` moves, the base of word `k` is the base of a word before it.
pub open spec fn clashes(words: Seq<UltimatelyPeriodicWord>, k: int, n: nat) -> bool {
    exists|j: int| 0 <= j < k && (#[trigger] words[j]).spec_base() == unrolled(words[k], n).0
}

/// `n` is the least number of moves after which the base of word `k` is the
/// base of no word before it.
pub open spec fn clear_after(words: Seq<UltimatelyPeriodicWord>, k: int, n: nat) -> bool {
    !clashes(words, k, n) && forall|m: nat| m < n ==> #[trigger] clashes(words, k, m)
}

/// One more move of the point of repetition, on the parts of a word.
pub proof fn lemma_unrolled_step(w: UltimatelyPeriodicWord, n: nat)
    requires
        w.wf(),
    ensures
        unrolled(w, n + 1).0 == unrolled(w, n).0.push(unrolled(w, n).1[0]),
        unrolled(w, n + 1).1 == unrolled(w, n).1.subrange(
            1,
            unrolled(w, n).1.len() as int,
        ).push(unrolled(w, n).1[0]),
        unrolled(w, n).1.len() == w.spec_recur().len(),
{
    let recur = w.spec_recur();
    let r = recur.len() as int;
    let b = w.spec_base().len();
    lemma_rotated_once_more(recur, n);
    let rot = unrolled(w, n).1;
    assert(rot.subrange(1, rot.len() as int).push(rot[0]) =~= rotated(rot, 1));
    assert(w.symbol_at((b + n) as int) == recur[(n as int) % r]);
    assert(unrolled(w, n + 1).0 =~= unrolled(w, n).0.push(rot[0]));
}

/// The parts that word `k` of `words` has in the separated sample: those after
/// `counts[k]` moves of its point of repetition.
pub open spec fn separated_parts(
    words: Seq<UltimatelyPeriodicWord>,
    counts: Seq<nat>,
    k: int,
) -> (Seq<char>, Seq<char>) {
    unrolled(words[k], counts[k])
}

/// `positive` and `negative` are the two sides of the separated sample of
/// `words`, of which the first `npos` are the positive instances: `counts`
/// gives for each word the least number of moves after which its base is the
/// base of no word before it; each side holds the parts of its words after
/// that many moves, from the last word to the first, each once.
pub open spec fn separates(
    words: Seq<UltimatelyPeriodicWord>,
    npos: nat,
    counts: Seq<nat>,
    positive: Seq<(Seq<char>, Seq<char>)>,
    negative: Seq<(Seq<char>, Seq<char>)>,
) -> bool {
    &&& counts.len() == words.len()
    &&& forall|k: int| 0 <= k < counts.len() ==> clear_after(words, k, #[trigger] counts[k])
    &&& positive == distinct(
        Seq::new(npos, |x: int| separated_parts(words, counts, npos - 1 - x)),
    )
    &&& negative == distinct(
        Seq::new(
            (words.len() - npos) as nat,
            |x: int| separated_parts(words, counts, words.len() - 1 - x),
        ),
    )
}

/// A finite sample: the words known to belong to a language, and the words
/// known not to.
#[derive(Clone, Debug, PartialEq, Eq)]
pub struct Sample {
    positive: Vec<UltimatelyPeriodicWord>,
    negative: Vec<UltimatelyPeriodicWord>,
}

impl Sample {
    /// The positive instances, in the order in which they are held.
    pub closed spec fn spec_positive(&self) -> Seq<UltimatelyPeriodicWord> {
        self.positive@
    }

    /// The negative instances, in the order in which they are held.
    pub closed spec fn spec_negative(&self) -> Seq<UltimatelyPeriodicWord> {
        self.negative@
    }

    /// All instances: the positive ones, then the negative ones.
    pub open spec fn spec_words(&self) -> Seq<UltimatelyPeriodicWord> {
        self.spec_positive() + self.spec_negative()
    }

    /// Every word is well formed, and neither side lists one infinite word
    /// twice.
    pub open spec fn wf(&self) -> bool {
        &&& words_wf(self.spec_positive())
        &&& words_wf(self.spec_negative())
        &&& separated(self.spec_positive())
        &&& separated(self.spec_negative())
    }

    /// Creates a new sample from the given data.
    pub fn from_parts(
        positive: Vec<UltimatelyPeriodicWord>,
        negative: Vec<UltimatelyPeriodicWord>,
    ) -> (sample: Sample)
        ensures
            sample.spec_positive() == positive@,
            sample.spec_negative() == negative@,
    {
        Sample { positive, negative }
    }

    /// Creates a new sample from two lists of words; each side keeps its words
    /// in order of first occurrence.
    pub fn from_iters(
        positive: Vec<UltimatelyPeriodicWord>,
        negative: Vec<UltimatelyPeriodicWord>,
    ) -> (sample: Sample)
        ensures
            parts_of(sample.spec_positive()) == distinct(parts_of(positive@)),
            parts_of(sample.spec_negative()) == distinct(parts_of(negative@)),
    {
        Sample { positive: distinct_words(positive), negative: distinct_words(negative) }
    }

    /// The automaton of the finite prefixes of the positive instances.
    pub fn positive_prefixes(&self) -> (dfa: DFA)
        requires
            self.wf(),
        ensures
            dfa.wf(),
            exists|tree: RightCongruence|
                is_prefix_tree(
                    &tree,
                    crate::alphabet::first_occurrences(
                        symbols_of(self.spec_positive(), self.spec_positive().len() as int),
                    ),
                    self.spec_positive(),
                ) && #[trigger] accepts_all_of(&dfa, &tree) && forall|word: Seq<char>|
                    #[trigger] dfa.spec_accepts(word) == tree.spec_reached(word) is Some,
    {
        prefix_acceptor(&self.positive)
    }

    /// The automaton of the finite prefixes of the negative instances.
    pub fn negative_prefixes(&self) -> (dfa: DFA)
        requires
            self.wf(),
        ensures
            dfa.wf(),
            exists|tree: RightCongruence|
                is_prefix_tree(
                    &tree,
                    crate::alphabet::first_occurrences(
                        symbols_of(self.spec_negative(), self.spec_negative().len() as int),
                    ),
                    self.spec_negative(),
                ) && #[trigger] accepts_all_of(&dfa, &tree) && forall|word: Seq<char>|
                    #[trigger] dfa.spec_accepts(word) == tree.spec_reached(word) is Some,
    {
        prefix_acceptor(&self.negative)
    }

    /// Whether every word is well formed and neither side lists one infinite
    /// word twice.
    pub fn is_well_formed(&self) -> (b: bool)
        ensures
            b == self.wf(),
    {
        all_well_formed(&self.positive) && all_well_formed(&self.negative) && is_separated(
            &self.positive,
        ) && is_separated(&self.negative)
    }

    /// Returns the number of elements in the sample, which must be one that
    /// can be counted.
    pub fn len(&self) -> (n: usize)
        requires
            self.spec_words().len() <= usize::MAX,
        ensures
            n == self.spec_words().len(),
    {
        self.positive.len() + self.negative.len()
    }

    /// Checks if the sample is empty.
    pub fn is_empty(&self) -> (b: bool)
        ensures
            b == (self.spec_words().len() == 0),
    {
        self.positive.len() == 0 && self.negative.len() == 0
    }

    /// The positive instances.
    pub fn positive_iter(&self) -> (words: &Vec<UltimatelyPeriodicWord>)
        ensures
            words@ == self.spec_positive(),
    {
        &self.positive
    }

    /// The negative instances.
    pub fn negative_iter(&self) -> (words: &Vec<UltimatelyPeriodicWord>)
        ensures
            words@ == self.spec_negative(),
    {
        &self.negative
    }

    /// The instance at place `i` of all instances: the positive ones come
    /// first.
    pub fn word_at(&self, i: usize) -> (word: &UltimatelyPeriodicWord)
        requires
            i < self.spec_words().len(),
        ensures
            *word == self.spec_words()[i as int],
    {
        if i < self.positive.len() {
            &self.positive[i]
        } else {
            &self.negative[i - self.positive.len()]
        }
    }

    /// All instances: the positive ones, then the negative ones.
    pub fn iter(&self) -> (words: Vec<&UltimatelyPeriodicWord>)
        ensures
            words@.len() == self.spec_words().len(),
            forall|i: int|
                #![trigger words@[i]]
                0 <= i < words@.len() ==> *words@[i] == self.spec_words()[i],
    {
        let ghost all = self.spec_words();
        let mut out: Vec<&UltimatelyPeriodicWord> = Vec::new();
        let mut i: usize = 0;
        while i < self.positive.len()
            invariant
                all == self.spec_words(),
                i <= self.positive@.len(),
                out@.len() == i,
                forall|j: int| #![trigger out@[j]] 0 <= j < i ==> *out@[j] == all[j],
            decreases self.positive@.len() - i,
        {
            out.push(self.word_at(i));
            i = i + 1;
        }
        let mut k: usize = 0;
        while k < self.negative.len()
            invariant
                all == self.spec_words(),
                k <= self.negative@.len(),
                out@.len() == self.positive@.len() + k,
                forall|j: int| #![trigger out@[j]] 0 <= j < out@.len() ==> *out@[j] == all[j],
            decreases self.negative@.len() - k,
        {
            out.push(&self.negative[k]);
            k = k + 1;
        }
        out
    }

    /// All instances, each with the side it stands on: `true` for a positive
    /// instance.
    pub fn annotated_iter(&self) -> (words: Vec<(bool, &UltimatelyPeriodicWord)>)
        ensures
            words@.len() == self.spec_words().len(),
            forall|i: int|
                #![trigger words@[i]]
                0 <= i < words@.len() ==> *words@[i].1 == self.spec_words()[i] && words@[i].0 == (i
                    < self.spec_positive().len()),
    {
        let ghost all = self.spec_words();
        let ghost n = self.spec_positive().len();
        let mut out: Vec<(bool, &UltimatelyPeriodicWord)> = Vec::new();
        let mut i: usize = 0;
        while i < self.positive.len()
            invariant
                all == self.spec_words(),
                n == self.positive@.len(),
                i <= self.positive@.len(),
                out@.len() == i,
                forall|j: int|
                    #![trigger out@[j]]
                    0 <= j < i ==> *out@[j].1 == all[j] && out@[j].0 == (j < n),
            decreases self.positive@.len() - i,
        {
            out.push((true, self.word_at(i)));
            i = i + 1;
        }
        let mut k: usize = 0;
        while k < self.negative.len()
            invariant
                all == self.spec_words(),
                n == self.positive@.len(),
                k <= self.negative@.len(),
                out@.len() == self.positive@.len() + k,
                forall|j: int|
                    #![trigger out@[j]]
                    0 <= j < out@.len() ==> *out@[j].1 == all[j] && out@[j].0 == (j < n),
            decreases self.negative@.len() - k,
        {
            out.push((false, &self.negative[k]));
            k = k + 1;
        }
        out
    }

    /// Returns the maximum length of the base prefix of any word in the
    /// sample, 0 for an empty sample.
    pub fn max_base_len(&self) -> (n: usize)
        ensures
            n == max_base(self.spec_words()),
    {
        let ghost all = self.spec_words();
        let total_positive = self.positive.len();
        let total_negative = self.negative.len();
        let mut best: usize = 0;
        let mut i: usize = 0;
        while i < total_positive
            invariant
                all == self.spec_words(),
                total_positive == self.positive@.len(),
                i <= total_positive,
                best == max_base(all.subrange(0, i as int)),
            decreases total_positive - i,
        {
            proof {
                let next = all.subrange(0, i + 1);
                assert(next.drop_last() == all.subrange(0, i as int));
                assert(next.last() == all[i as int]);
            }
            let b = self.word_at(i).base_length();
            if b > best {
                best = b;
            }
            i = i + 1;
        }
        let mut k: usize = 0;
        while k < total_negative
            invariant
                all == self.spec_words(),
                total_positive == self.positive@.len(),
                total_negative == self.negative@.len(),
                k <= total_negative,
                best == max_base(all.subrange(0, total_positive + k)),
            decreases total_negative - k,
        {
            proof {
                let next = all.subrange(0, total_positive + k + 1);
                assert(next.drop_last() == all.subrange(0, total_positive + k));
                assert(next.last() == self.negative@[k as int]);
            }
            let b = self.negative[k].base_length();
            if b > best {
                best = b;
            }
            k = k + 1;
        }
        assert(all.subrange(0, all.len() as int) == all);
        best
    }

    /// Returns the maximum loop length of any word in the sample, 0 for an
    /// empty sample.
    pub fn max_recur_len(&self) -> (n: usize)
        ensures
            n == max_recur(self.spec_words()),
    {
        let ghost all = self.spec_words();
        let total_positive = self.positive.len();
        let total_negative = self.negative.len();
        let mut best: usize = 0;
        let mut i: usize = 0;
        while i < total_positive
            invariant
                all == self.spec_words(),
                total_positive == self.positive@.len(),
                i <= total_positive,
                best == max_recur(all.subrange(0, i as int)),
            decreases total_positive - i,
        {
            proof {
                let next = all.subrange(0, i + 1);
                assert(next.drop_last() == all.subrange(0, i as int));
                assert(next.last() == all[i as int]);
            }
            let r = self.word_at(i).recur_length();
            if r > best {
                best = r;
            }
            i = i + 1;
        }
        let mut k: usize = 0;
        while k < total_negative
            invariant
                all == self.spec_words(),
                total_positive == self.positive@.len(),
                total_negative == self.negative@.len(),
                k <= total_negative,
                best == max_recur(all.subrange(0, total_positive + k)),
            decreases total_negative - k,
        {
            proof {
                let next = all.subrange(0, total_positive + k + 1);
                assert(next.drop_last() == all.subrange(0, total_positive + k));
                assert(next.last() == self.negative@[k as int]);
            }
            let r = self.negative[k].recur_length();
            if r > best {
                best = r;
            }
            k = k + 1;
        }
        assert(all.subrange(0, all.len() as int) == all);
        best
    }
    /// Whether the base of `word` is the base of one of the first `k`
    /// instances.
    fn base_clash(&self, k: usize, word: &UltimatelyPeriodicWord) -> (b: bool)
        requires
            k <= self.spec_words().len(),
        ensures
            b == exists|j: int|
                0 <= j < k && (#[trigger] self.spec_words()[j]).spec_base() == word.spec_base(),
    {
        let mut j: usize = 0;
        while j < k
            invariant
                j <= k,
                k <= self.spec_words().len(),
                forall|x: int|
                    0 <= x < j ==> (#[trigger] self.spec_words()[x]).spec_base()
                        != word.spec_base(),
            decreases k - j,
        {
            if same_symbols(self.word_at(j).base(), word.base()) {
                return true;
            }
            j = j + 1;
        }
        false
    }

    /// Builds a sample of the same infinite words in which no two words have
    /// the same base. The instances are taken from the last to the first; the
    /// point of repetition of each is moved on until its base is the base of
    /// no instance before it; each side keeps what it gets in this order, each
    /// word once.
    pub fn build_separated(&self) -> (sample: Sample)
        requires
            words_wf(self.spec_words()),
            max_base(self.spec_words()) + max_recur(self.spec_words()) < usize::MAX,
        ensures
            exists|counts: Seq<nat>| #[trigger]
                separates(
                    self.spec_words(),
                    self.spec_positive().len(),
                    counts,
                    parts_of(sample.spec_positive()),
                    parts_of(sample.spec_negative()),
                ),
    {
        let ghost all = self.spec_words();
        let npos: usize = self.positive.len();
        let total: usize = npos + self.negative.len();
        let mut pos: Vec<UltimatelyPeriodicWord> = Vec::new();
        let mut neg: Vec<UltimatelyPeriodicWord> = Vec::new();
        let ghost mut counts: Seq<nat> = Seq::new(total as nat, |i: int| 0nat);
        let mut k: usize = total;
        while k > 0
            invariant
                all == self.spec_words(),
                words_wf(all),
                max_base(all) + max_recur(all) < usize::MAX,
                npos == self.spec_positive().len(),
                total == all.len(),
                k <= total,
                counts.len() == total,
                forall|i: int| k <= i < total ==> clear_after(all, i, #[trigger] counts[i]),
                pos@.len() == (if k < npos { npos - k } else { 0 }),
                neg@.len() == (if k < npos { total - npos } else { total - k }),
                forall|x: int|
                    0 <= x < pos@.len() ==> #[trigger] parts_of(pos@)[x] == separated_parts(
                        all,
                        counts,
                        npos - 1 - x,
                    ),
                forall|x: int|
                    0 <= x < neg@.len() ==> #[trigger] parts_of(neg@)[x] == separated_parts(
                        all,
                        counts,
                        total - 1 - x,
                    ),
            decreases k,
        {
            k = k - 1;
            let mut word = self.word_at(k).duplicate();
            let ghost src = all[k as int];
            let ghost mut n: nat = 0;
            proof {
                assert(src.wf());
                lemma_max_parts(all, k as int);
                assert(unrolled(src, 0).0 =~= src.spec_base()) by {
                    assert forall|i: int| 0 <= i < src.spec_base().len() implies unrolled(
                        src,
                        0,
                    ).0[i] == src.spec_base()[i] by {}
                }
                vstd::arithmetic::div_mod::lemma_small_mod(0nat, src.spec_recur().len());
                assert(unrolled(src, 0).1 =~= src.spec_recur());
            }
            loop
                invariant
                    all == self.spec_words(),
                    words_wf(all),
                    max_base(all) + max_recur(all) < usize::MAX,
                    total == all.len(),
                    k < total,
                    src == all[k as int],
                    src.wf(),
                    src.spec_recur().len() <= max_recur(all),
                    word.spec_base() == unrolled(src, n).0,
                    word.spec_recur() == unrolled(src, n).1,
                    word.spec_recur().len() == src.spec_recur().len(),
                    word.spec_base().len() == src.spec_base().len() + n,
                    src.spec_base().len() + n <= max_base(all) + 1,
                    forall|m: nat| m < n ==> #[trigger] clashes(all, k as int, m),
                ensures
                    clear_after(all, k as int, n),
                    word.spec_base() == unrolled(src, n).0,
                    word.spec_recur() == unrolled(src, n).1,
                decreases max_base(all) + 1 - (src.spec_base().len() + n),
            {
                let clash = self.base_clash(k, &word);
                proof {
                    if clash {
                        let j = choose|j: int|
                            0 <= j < k && (#[trigger] all[j]).spec_base() == word.spec_base();
                        lemma_max_parts(all, j);
                        assert(clashes(all, k as int, n));
                    } else {
                        if clashes(all, k as int, n) {
                            let j = choose|j: int|
                                0 <= j < k && (#[trigger] all[j]).spec_base() == unrolled(
                                    all[k as int],
                                    n,
                                ).0;
                            assert(all[j].spec_base() == word.spec_base());
                        }
                    }
                }
                if !clash {
                    break ;
                }
                proof {
                    lemma_unrolled_step(src, n);
                }
                word.unroll_one();
                proof {
                    assert forall|m: nat| m < n + 1 implies #[trigger] clashes(
                        all,
                        k as int,
                        m,
                    ) by {}
                    n = n + 1;
                }
            }
            proof {
                let before = counts;
                counts = counts.update(k as int, n);
                assert forall|i: int| k <= i < total implies clear_after(
                    all,
                    i,
                    #[trigger] counts[i],
                ) by {
                    if i > k {
                        assert(clear_after(all, i, before[i]));
                    }
                }
                assert forall|x: int| 0 <= x < pos@.len() implies #[trigger] parts_of(pos@)[x]
                    == separated_parts(all, counts, npos - 1 - x) by {
                    assert(parts_of(pos@)[x] == separated_parts(all, before, npos - 1 - x));
                }
                assert forall|x: int| 0 <= x < neg@.len() implies #[trigger] parts_of(neg@)[x]
                    == separated_parts(all, counts, total - 1 - x) by {
                    assert(parts_of(neg@)[x] == separated_parts(all, before, total - 1 - x));
                }
            }
            if k < npos {
                let ghost old_parts = parts_of(pos@);
                pos.push(word);
                proof {
                    assert(parts_of(pos@) =~= old_parts.push((word.spec_base(), word.spec_recur())));
                    assert forall|x: int| 0 <= x < pos@.len() implies #[trigger] parts_of(pos@)[x]
                        == separated_parts(all, counts, npos - 1 - x) by {
                        if x < old_parts.len() {
                            assert(parts_of(pos@)[x] == old_parts[x]);
                        }
                    }
                }
            } else {
                let ghost old_parts = parts_of(neg@);
                neg.push(word);
                proof {
                    assert(parts_of(neg@) =~= old_parts.push((word.spec_base(), word.spec_recur())));
                    assert forall|x: int| 0 <= x < neg@.len() implies #[trigger] parts_of(neg@)[x]
                        == separated_parts(all, counts, total - 1 - x) by {
                        if x < old_parts.len() {
                            assert(parts_of(neg@)[x] == old_parts[x]);
                        }
                    }
                }
            }
        }
        proof {
            assert(parts_of(pos@) =~= Seq::new(
                npos as nat,
                |x: int| separated_parts(all, counts, npos - 1 - x),
            ));
            assert(parts_of(neg@) =~= Seq::new(
                (all.len() - npos) as nat,
                |x: int| separated_parts(all, counts, all.len() - 1 - x),
            ));
        }
        let sample = Sample { positive: distinct_words(pos), negative: distinct_words(neg) };
        assert(separates(
            all,
            npos as nat,
            counts,
            parts_of(sample.spec_positive()),
            parts_of(sample.spec_negative()),
        ));
        sample
    }
}

} // verus!
