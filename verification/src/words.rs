//! Finite words and ultimately periodic infinite words.

use crate::class::Class;
use vstd::arithmetic::div_mod::{
    lemma_fundamental_div_mod, lemma_mod_multiples_vanish, lemma_mod_pos_bound, lemma_small_mod,
};
use vstd::prelude::*;

verus! {

/// The symbol at position `i` of the infinite word `base · recur^ω`.
pub open spec fn upw_symbol<S>(base: Seq<S>, recur: Seq<S>, i: int) -> S {
    if i < base.len() {
        base[i]
    } else {
        recur[(i - base.len()) % (recur.len() as int)]
    }
}

/// The first `n` symbols of `base · recur^ω`.
pub open spec fn upw_prefix<S>(base: Seq<S>, recur: Seq<S>, n: nat) -> Seq<S> {
    Seq::new(n, |i: int| upw_symbol(base, recur, i))
}

/// Whether `c` is a prefix of `base · recur^ω`.
pub open spec fn upw_has_prefix<S>(base: Seq<S>, recur: Seq<S>, c: Seq<S>) -> bool {
    forall|i: int| 0 <= i < c.len() ==> upw_symbol(base, recur, i) == #[trigger] c[i]
}

/// Past its base, `base · recur^ω` repeats with period `recur.len()`.
pub proof fn lemma_upw_periodic<S>(base: Seq<S>, recur: Seq<S>, i: int, k: int)
    requires
        recur.len() > 0,
        i >= base.len(),
        k >= 0,
    ensures
        upw_symbol(base, recur, i + k * recur.len()) == upw_symbol(base, recur, i),
{
    let r = recur.len() as int;
    assert(k * r >= 0) by (nonlinear_arith)
        requires
            k >= 0,
            r > 0,
    ;
    lemma_mod_multiples_vanish(k, i - base.len(), r);
    assert(k * r == r * k) by (nonlinear_arith);
}

/// Two ultimately periodic words that agree on the first
/// `max(b1, b2) + r1 * r2` positions agree everywhere.
pub proof fn lemma_upw_agree<S>(b1: Seq<S>, r1: Seq<S>, b2: Seq<S>, r2: Seq<S>, i: int)
    requires
        r1.len() > 0,
        r2.len() > 0,
        forall|j: int|
            0 <= j < agreement_horizon(b1.len(), r1.len(), b2.len(), r2.len()) ==> upw_symbol(
                b1,
                r1,
                j,
            ) == upw_symbol(b2, r2, j),
        i >= 0,
    ensures
        upw_symbol(b1, r1, i) == upw_symbol(b2, r2, i),
{
    let m: int = if b1.len() >= b2.len() { b1.len() as int } else { b2.len() as int };
    let p: int = (r1.len() * r2.len()) as int;
    assert(p > 0) by (nonlinear_arith)
        requires
            p == r1.len() * r2.len(),
            r1.len() > 0,
            r2.len() > 0,
    ;
    if i >= m + p {
        let q = (i - m) / p;
        let j = m + (i - m) % p;
        lemma_fundamental_div_mod(i - m, p);
        assert(i == j + p * q);
        assert(q >= 0) by (nonlinear_arith)
            requires
                i - m >= 0,
                p > 0,
                q == (i - m) / p,
        ;
        assert(p * q == (q * r2.len()) * r1.len()) by (nonlinear_arith)
            requires
                p == r1.len() * r2.len(),
        ;
        assert(p * q == (q * r1.len()) * r2.len()) by (nonlinear_arith)
            requires
                p == r1.len() * r2.len(),
        ;
        assert(q * r2.len() >= 0 && q * r1.len() >= 0) by (nonlinear_arith)
            requires
                q >= 0,
        ;
        lemma_upw_periodic(b1, r1, j, q * r2.len());
        lemma_upw_periodic(b2, r2, j, q * r1.len());
        assert(0 <= j < m + p);
    }
}

/// Moving the point of repetition one symbol on keeps every symbol in place.
pub proof fn lemma_unroll_keeps_symbols<S>(base: Seq<S>, recur: Seq<S>, i: int)
    requires
        recur.len() > 0,
        i >= 0,
    ensures
        upw_symbol(
            base.push(recur[0]),
            recur.subrange(1, recur.len() as int).push(recur[0]),
            i,
        ) == upw_symbol(base, recur, i),
{
    let r = recur.len() as int;
    let nb = base.push(recur[0]);
    let nr = recur.subrange(1, r).push(recur[0]);
    if i < base.len() {
    } else if i == base.len() {
        lemma_small_mod(0nat, r as nat);
    } else {
        let k = i - nb.len();
        let a = k % r;
        lemma_fundamental_div_mod(k, r);
        lemma_mod_pos_bound(k, r);
        if a + 1 < r {
            lemma_mod_multiples_vanish(k / r, a + 1, r);
            lemma_small_mod((a + 1) as nat, r as nat);
            assert(k + 1 == r * (k / r) + (a + 1));
            assert((k + 1) % r == a + 1);
            assert(nr[a] == recur[a + 1]);
        } else {
            lemma_mod_multiples_vanish(k / r + 1, 0, r);
            lemma_small_mod(0nat, r as nat);
            assert(k + 1 == r * (k / r + 1) + 0) by (nonlinear_arith)
                requires
                    k == r * (k / r) + a,
                    a + 1 == r,
            ;
            assert((k + 1) % r == 0);
            assert(nr[a] == recur[0]);
        }
        assert(i - base.len() == k + 1);
    }
}

/// The period of `recur`, begun `k` symbols later.
pub open spec fn rotated<S>(recur: Seq<S>, k: int) -> Seq<S> {
    recur.subrange(k, recur.len() as int) + recur.subrange(0, k)
}

/// A periodic word whose period is begun `k` symbols later is the word from
/// its position `k` on.
pub proof fn lemma_rotated_symbols<S>(recur: Seq<S>, m: int, i: int)
    requires
        recur.len() > 0,
        m >= 0,
        i >= 0,
    ensures
        upw_symbol(Seq::<S>::empty(), rotated(recur, m % (recur.len() as int)), i) == upw_symbol(
            Seq::<S>::empty(),
            recur,
            i + m,
        ),
{
    let r = recur.len() as int;
    let k = m % r;
    let j = i % r;
    lemma_mod_pos_bound(m, r);
    lemma_mod_pos_bound(i, r);
    vstd::arithmetic::div_mod::lemma_add_mod_noop(i, m, r);
    let rot = rotated(recur, k);
    assert(rot.len() == r);
    if j + k < r {
        lemma_small_mod((j + k) as nat, r as nat);
        assert(rot[j] == recur[j + k]);
    } else {
        lemma_mod_multiples_vanish(-1, j + k, r);
        lemma_small_mod((j + k - r) as nat, r as nat);
        assert(rot[j] == recur[j + k - r]);
    }
}

/// In its first lap, `base · recur^ω` reads `base` and then `recur`.
pub proof fn lemma_first_lap<S>(base: Seq<S>, recur: Seq<S>, i: int)
    requires
        recur.len() > 0,
        0 <= i < base.len() + recur.len(),
    ensures
        upw_symbol(base, recur, i) == (base + recur)[i],
{
    if i >= base.len() {
        lemma_small_mod((i - base.len()) as nat, recur.len());
    }
}

/// Beginning the period one symbol later than `n` symbols later is beginning
/// it `n + 1` symbols later.
pub proof fn lemma_rotated_once_more<S>(recur: Seq<S>, n: nat)
    requires
        recur.len() > 0,
    ensures
        rotated(rotated(recur, (n as int) % (recur.len() as int)), 1) == rotated(
            recur,
            ((n + 1) as int) % (recur.len() as int),
        ),
        rotated(recur, (n as int) % (recur.len() as int))[0] == recur[(n as int) % (
        recur.len() as int)],
        rotated(recur, (n as int) % (recur.len() as int)).len() == recur.len(),
{
    let r = recur.len() as int;
    let a = (n as int) % r;
    lemma_mod_pos_bound(n as int, r);
    lemma_fundamental_div_mod(n as int, r);
    let rot = rotated(recur, a);
    assert(rot.len() == r);
    assert(rot[0] == recur[a]);
    if a + 1 < r {
        lemma_mod_multiples_vanish((n as int) / r, a + 1, r);
        lemma_small_mod((a + 1) as nat, r as nat);
        assert((n + 1) as int == r * ((n as int) / r) + (a + 1));
        assert(((n + 1) as int) % r == a + 1);
        assert(rotated(rot, 1) =~= rotated(recur, a + 1));
    } else {
        lemma_mod_multiples_vanish((n as int) / r + 1, 0, r);
        lemma_small_mod(0nat, r as nat);
        assert((n + 1) as int == r * ((n as int) / r + 1) + 0) by (nonlinear_arith)
            requires
                n as int == r * ((n as int) / r) + a,
                a + 1 == r,
        ;
        assert(((n + 1) as int) % r == 0);
        assert(rotated(rot, 1) =~= rotated(recur, 0));
    }
}

/// Number of positions after which two ultimately periodic words, with bases of
/// `b1` and `b2` symbols and periods of `r1` and `r2` symbols, cannot differ for
/// the first time.
pub open spec fn agreement_horizon(b1: nat, r1: nat, b2: nat, r2: nat) -> int {
    (if b1 >= b2 { b1 as int } else { b2 as int }) + r1 * r2
}

/// A finite word.
#[derive(Clone, Debug, PartialEq, Eq, Hash)]
pub struct Str<S = char> {
    symbols: Vec<S>,
}

impl<S> View for Str<S> {
    type V = Seq<S>;

    closed spec fn view(&self) -> Seq<S> {
        self.symbols@
    }
}

impl<S: Copy> Str<S> {
    /// The empty word.
    pub fn empty() -> (w: Self)
        ensures
            w@ == Seq::<S>::empty(),
    {
        Str { symbols: Vec::new() }
    }

    /// The word that holds `symbols`, in order.
    pub fn from_symbols(symbols: Vec<S>) -> (w: Self)
        ensures
            w@ == symbols@,
    {
        Str { symbols }
    }

    /// Number of symbols.
    pub fn length(&self) -> (n: usize)
        ensures
            n == self@.len(),
    {
        self.symbols.len()
    }

    /// The symbol at `index`, if there is one.
    pub fn nth(&self, index: usize) -> (sym: Option<S>)
        ensures
            sym == if index < self@.len() {
                Some(self@[index as int])
            } else {
                None
            },
    {
        if index < self.symbols.len() {
            Some(self.symbols[index])
        } else {
            None
        }
    }

    /// The symbols, in order.
    pub fn symbols(&self) -> (symbols: &Vec<S>)
        ensures
            symbols@ == self@,
    {
        &self.symbols
    }

    /// What is left after the first `n` symbols; nothing where the word has
    /// fewer.
    pub fn skip(&self, n: usize) -> (w: Self)
        ensures
            w@ == self@.subrange(
                if n <= self@.len() { n as int } else { self@.len() as int },
                self@.len() as int,
            ),
    {
        let m: usize = if n <= self.symbols.len() { n } else { self.symbols.len() };
        Str { symbols: copy_symbols(&self.symbols, m, self.symbols.len()) }
    }
}

impl Str<char> {
    /// The word spelled by `text`.
    pub fn from_text(text: &str) -> (w: Str)
        ensures
            w@ == text@,
    {
        let c = Class::from_text(text);
        Str { symbols: c.0 }
    }

    /// The first `n` symbols as a class; the whole word where it has fewer.
    pub fn prefix(&self, n: usize) -> (c: Class)
        ensures
            c@ == self@.subrange(0, if n <= self@.len() { n as int } else { self@.len() as int }),
    {
        let m: usize = if n <= self.symbols.len() { n } else { self.symbols.len() };
        copy_range(&self.symbols, 0, m)
    }
}

/// The entries of `symbols` from place `from` up to, not including, place
/// `to`.
pub fn copy_symbols<S: Copy>(symbols: &Vec<S>, from: usize, to: usize) -> (out: Vec<S>)
    requires
        from <= to <= symbols@.len(),
    ensures
        out@ == symbols@.subrange(from as int, to as int),
{
    let mut v: Vec<S> = Vec::new();
    let mut i: usize = from;
    while i < to
        invariant
            from <= i <= to <= symbols@.len(),
            v@ == symbols@.subrange(from as int, i as int),
        decreases to - i,
    {
        v.push(symbols[i]);
        i = i + 1;
    }
    v
}

/// The symbols of `symbols` from place `from` up to, not including, place `to`.
pub fn copy_range(symbols: &Vec<char>, from: usize, to: usize) -> (c: Class)
    requires
        from <= to <= symbols@.len(),
    ensures
        c@ == symbols@.subrange(from as int, to as int),
{
    Class(copy_symbols(symbols, from, to))
}

/// Whether `a` and `b` hold the same symbols.
pub fn same_symbols(a: &Vec<char>, b: &Vec<char>) -> (same: bool)
    ensures
        same == (a@ == b@),
{
    if a.len() != b.len() {
        return false;
    }
    let mut i: usize = 0;
    while i < a.len()
        invariant
            a@.len() == b@.len(),
            i <= a@.len(),
            forall|j: int| 0 <= j < i ==> a@[j] == b@[j],
        decreases a@.len() - i,
    {
        if a[i] != b[i] {
            return false;
        }
        i = i + 1;
    }
    assert(a@ =~= b@);
    true
}

/// An infinite word that repeats one non-empty finite word for ever.
#[derive(Clone, Debug, PartialEq, Eq, Hash)]
pub struct PeriodicWord<S = char> {
    period: Vec<S>,
}

impl<S> View for PeriodicWord<S> {
    type V = Seq<S>;

    closed spec fn view(&self) -> Seq<S> {
        self.period@
    }
}

impl<S: Copy> PeriodicWord<S> {
    /// The period is not empty.
    pub open spec fn wf(&self) -> bool {
        self@.len() > 0
    }

    /// The word `period^ω`.
    pub fn from_symbols(period: Vec<S>) -> (w: Self)
        requires
            period@.len() > 0,
        ensures
            w.wf(),
            w@ == period@,
    {
        PeriodicWord { period }
    }

    /// Length of the period.
    pub fn recur_length(&self) -> (n: usize)
        ensures
            n == self@.len(),
    {
        self.period.len()
    }

    /// The symbol at `index`.
    pub fn nth(&self, index: usize) -> (sym: Option<S>)
        requires
            self.wf(),
        ensures
            sym == Some(upw_symbol(Seq::<S>::empty(), self@, index as int)),
    {
        Some(self.period[index % self.period.len()])
    }
}

impl PeriodicWord<char> {
    /// The word that repeats `text` for ever.
    pub fn from_text(text: &str) -> (w: PeriodicWord)
        requires
            text@.len() > 0,
        ensures
            w.wf(),
            w@ == text@,
    {
        let c = Class::from_text(text);
        PeriodicWord { period: c.0 }
    }
}

/// An infinite word `base · recur^ω`, held as its two finite parts.
#[derive(Clone, Debug, PartialEq, Eq, Hash)]
pub struct UltimatelyPeriodicWord<S = char> {
    base: Vec<S>,
    recur: Vec<S>,
}

impl<S: Copy> UltimatelyPeriodicWord<S> {
    /// The finite part that is read once.
    pub closed spec fn spec_base(&self) -> Seq<S> {
        self.base@
    }

    /// The finite part that is repeated for ever.
    pub closed spec fn spec_recur(&self) -> Seq<S> {
        self.recur@
    }

    /// The repeated part is not empty, and both parts together can be indexed.
    pub open spec fn wf(&self) -> bool {
        &&& self.spec_recur().len() > 0
        &&& self.spec_base().len() + self.spec_recur().len() <= usize::MAX
    }

    /// The symbol at position `i`.
    pub open spec fn symbol_at(&self, i: int) -> S {
        upw_symbol(self.spec_base(), self.spec_recur(), i)
    }

    /// The first `n` symbols.
    pub open spec fn spec_prefix(&self, n: nat) -> Seq<S> {
        upw_prefix(self.spec_base(), self.spec_recur(), n)
    }

    /// Whether `c` is a prefix of this word.
    pub open spec fn spec_has_prefix(&self, c: Seq<S>) -> bool {
        upw_has_prefix(self.spec_base(), self.spec_recur(), c)
    }

    /// Whether both stand for the same infinite word.
    pub open spec fn same_word(&self, other: &Self) -> bool {
        forall|i: int| 0 <= i ==> self.symbol_at(i) == other.symbol_at(i)
    }

    /// The word `base · recur^ω`.
    pub fn new(base: Vec<S>, recur: Vec<S>) -> (w: Self)
        requires
            recur@.len() > 0,
            base@.len() + recur@.len() <= usize::MAX,
        ensures
            w.wf(),
            w.spec_base() == base@,
            w.spec_recur() == recur@,
    {
        UltimatelyPeriodicWord { base, recur }
    }

    /// Length of the part that is read once.
    pub fn base_length(&self) -> (n: usize)
        ensures
            n == self.spec_base().len(),
    {
        self.base.len()
    }

    /// Length of the part that is repeated.
    pub fn recur_length(&self) -> (n: usize)
        ensures
            n == self.spec_recur().len(),
    {
        self.recur.len()
    }

    /// The part that is read once.
    pub fn base(&self) -> (symbols: &Vec<S>)
        ensures
            symbols@ == self.spec_base(),
    {
        &self.base
    }

    /// The part that is repeated.
    pub fn recur(&self) -> (symbols: &Vec<S>)
        ensures
            symbols@ == self.spec_recur(),
    {
        &self.recur
    }

    /// The symbol at `index`.
    pub fn nth(&self, index: usize) -> (sym: Option<S>)
        requires
            self.wf(),
        ensures
            sym == Some(self.symbol_at(index as int)),
    {
        Some(self.symbol(index))
    }

    /// The symbol at `index`.
    pub fn symbol(&self, index: usize) -> (sym: S)
        requires
            self.wf(),
        ensures
            sym == self.symbol_at(index as int),
    {
        if index < self.base.len() {
            self.base[index]
        } else {
            self.recur[(index - self.base.len()) % self.recur.len()]
        }
    }

    /// A copy of this word.
    pub fn duplicate(&self) -> (w: Self)
        ensures
            w.spec_base() == self.spec_base(),
            w.spec_recur() == self.spec_recur(),
    {
        let base = copy_symbols(&self.base, 0, self.base.len());
        let recur = copy_symbols(&self.recur, 0, self.recur.len());
        assert(self.base@.subrange(0, self.base@.len() as int) == self.base@);
        assert(self.recur@.subrange(0, self.recur@.len() as int) == self.recur@);
        UltimatelyPeriodicWord { base: base, recur: recur }
    }

    /// Whether the repeated part is not empty and both parts together can be
    /// indexed.
    pub fn is_well_formed(&self) -> (b: bool)
        ensures
            b == self.wf(),
    {
        self.recur.len() > 0 && self.base.len().checked_add(self.recur.len()).is_some()
    }

    /// The infinite word that is left after the first `n` symbols.
    pub fn skip(&self, n: usize) -> (w: Self)
        requires
            self.wf(),
        ensures
            w.wf(),
            w.spec_base() == self.spec_base().subrange(
                if n <= self.spec_base().len() { n as int } else { self.spec_base().len() as int },
                self.spec_base().len() as int,
            ),
            w.spec_recur() == rotated(
                self.spec_recur(),
                if n <= self.spec_base().len() {
                    0
                } else {
                    (n - self.spec_base().len()) % (self.spec_recur().len() as int)
                },
            ),
            forall|i: int| 0 <= i ==> w.symbol_at(i) == self.symbol_at(i + n),
    {
        let b = self.base.len();
        let r = self.recur.len();
        if n <= b {
            let base = copy_symbols(&self.base, n, b);
            let recur = copy_symbols(&self.recur, 0, r);
            let w = UltimatelyPeriodicWord { base: base, recur: recur };
            proof {
                assert(w.spec_recur() =~= rotated(self.spec_recur(), 0));
                assert forall|i: int| 0 <= i implies w.symbol_at(i) == self.symbol_at(i + n) by {}
            }
            w
        } else {
            let k = (n - b) % r;
            let tail = copy_symbols(&self.recur, k, r);
            let head = copy_symbols(&self.recur, 0, k);
            let mut recur = tail;
            let mut i: usize = 0;
            while i < head.len()
                invariant
                    i <= head@.len(),
                    recur@ == tail@ + head@.subrange(0, i as int),
                decreases head@.len() - i,
            {
                recur.push(head[i]);
                i = i + 1;
            }
            assert(head@.subrange(0, head@.len() as int) == head@);
            let w = UltimatelyPeriodicWord { base: Vec::new(), recur };
            proof {
                assert(w.spec_recur() =~= rotated(self.spec_recur(), k as int));
                assert(w.spec_base() =~= self.spec_base().subrange(b as int, b as int));
                assert forall|i: int| 0 <= i implies w.symbol_at(i) == self.symbol_at(i + n) by {
                    lemma_rotated_symbols(self.spec_recur(), n - b, i);
                }
            }
            w
        }
    }

    /// Moves the point of repetition one symbol on: the first repeated symbol
    /// joins the base and the period is rotated by one. The infinite word stays
    /// the same.
    pub fn unroll_one(&mut self)
        requires
            old(self).wf(),
            old(self).spec_base().len() + old(self).spec_recur().len() < usize::MAX,
        ensures
            final(self).wf(),
            final(self).spec_base() == old(self).spec_base().push(old(self).spec_recur()[0]),
            final(self).spec_recur() == old(self).spec_recur().subrange(
                1,
                old(self).spec_recur().len() as int,
            ).push(old(self).spec_recur()[0]),
            final(self).same_word(old(self)),
    {
        let first = self.recur[0];
        let rest = copy_symbols(&self.recur, 1, self.recur.len());
        let mut rotated = rest;
        rotated.push(first);
        self.base.push(first);
        self.recur = rotated;
        proof {
            let ob = old(self).spec_base();
            let or = old(self).spec_recur();
            assert(self.spec_recur() == or.subrange(1, or.len() as int).push(or[0]));
            assert forall|i: int| 0 <= i implies self.symbol_at(i) == old(self).symbol_at(i) by {
                lemma_unroll_keeps_symbols(ob, or, i);
            }
        }
    }
}

impl UltimatelyPeriodicWord<char> {
    /// The word `base · recur^ω`, both parts spelled as text.
    pub fn from_text(base: &str, recur: &str) -> (w: UltimatelyPeriodicWord)
        requires
            recur@.len() > 0,
            base@.len() + recur@.len() <= usize::MAX,
        ensures
            w.wf(),
            w.spec_base() == base@,
            w.spec_recur() == recur@,
    {
        let b = Class::from_text(base);
        let r = Class::from_text(recur);
        UltimatelyPeriodicWord { base: b.0, recur: r.0 }
    }

    /// The word `recur^ω`.
    pub fn periodic(recur: &str) -> (w: UltimatelyPeriodicWord)
        requires
            0 < recur@.len() <= usize::MAX,
        ensures
            w.wf(),
            w.spec_base() == Seq::<char>::empty(),
            w.spec_recur() == recur@,
    {
        let r = Class::from_text(recur);
        UltimatelyPeriodicWord { base: Vec::new(), recur: r.0 }
    }

    /// The word that reads `text` up to `loop_index` once and repeats the rest.
    pub fn with_loop_index(text: &str, loop_index: usize) -> (w: UltimatelyPeriodicWord)
        requires
            loop_index < text@.len() <= usize::MAX,
        ensures
            w.wf(),
            w.spec_base() == text@.subrange(0, loop_index as int),
            w.spec_recur() == text@.subrange(loop_index as int, text@.len() as int),
    {
        let all = Class::from_text(text);
        let b = copy_range(&all.0, 0, loop_index);
        let r = copy_range(&all.0, loop_index, all.0.len());
        UltimatelyPeriodicWord { base: b.0, recur: r.0 }
    }

    /// The first `n` symbols, as a class.
    pub fn prefix(&self, n: usize) -> (c: Class)
        requires
            self.wf(),
        ensures
            c@ == self.spec_prefix(n as nat),
    {
        let mut v: Vec<char> = Vec::new();
        let mut i: usize = 0;
        while i < n
            invariant
                self.wf(),
                i <= n,
                v@ == self.spec_prefix(i as nat),
            decreases n - i,
        {
            v.push(self.symbol(i));
            assert(v@ == self.spec_prefix((i + 1) as nat));
            i = i + 1;
        }
        Class(v)
    }

    /// Whether the word begins with the symbols of `symbols`.
    pub fn has_prefix(&self, symbols: &Vec<char>) -> (b: bool)
        requires
            self.wf(),
        ensures
            b == self.spec_has_prefix(symbols@),
    {
        let mut i: usize = 0;
        while i < symbols.len()
            invariant
                self.wf(),
                i <= symbols.len(),
                forall|j: int| 0 <= j < i ==> self.symbol_at(j) == #[trigger] symbols@[j],
            decreases symbols.len() - i,
        {
            if self.symbol(i) != symbols[i] {
                return false;
            }
            i = i + 1;
        }
        true
    }

    /// Whether both words have the same base and the same period.
    pub fn same_parts(&self, other: &UltimatelyPeriodicWord) -> (b: bool)
        ensures
            b == (self.spec_base() == other.spec_base() && self.spec_recur()
                == other.spec_recur()),
    {
        same_symbols(&self.base, &other.base) && same_symbols(&self.recur, &other.recur)
    }

    /// The symbol at `index`, for an index beyond what a `usize` holds.
    fn symbol_far(&self, index: u128) -> (sym: char)
        requires
            self.wf(),
        ensures
            sym == self.symbol_at(index as int),
    {
        let b: u128 = self.base.len() as u128;
        let r: u128 = self.recur.len() as u128;
        if index < b {
            self.base[index as usize]
        } else {
            let k: u128 = (index - b) % r;
            self.recur[k as usize]
        }
    }

    /// Whether both stand for the same infinite word.
    pub fn denotes_same(&self, other: &UltimatelyPeriodicWord) -> (b: bool)
        requires
            self.wf(),
            other.wf(),
        ensures
            b == self.same_word(other),
    {
        let b1: u128 = self.base.len() as u128;
        let b2: u128 = other.base.len() as u128;
        let r1: u128 = self.recur.len() as u128;
        let r2: u128 = other.recur.len() as u128;
        assert(r1 * r2 <= 0xffff_ffff_ffff_ffff * 0xffff_ffff_ffff_ffff) by (nonlinear_arith)
            requires
                r1 <= 0xffff_ffff_ffff_ffff,
                r2 <= 0xffff_ffff_ffff_ffff,
        ;
        let horizon: u128 = (if b1 >= b2 { b1 } else { b2 }) + r1 * r2;
        let mut i: u128 = 0;
        while i < horizon
            invariant
                self.wf(),
                other.wf(),
                i <= horizon,
                horizon == agreement_horizon(
                    self.spec_base().len(),
                    self.spec_recur().len(),
                    other.spec_base().len(),
                    other.spec_recur().len(),
                ),
                forall|j: int| 0 <= j < i ==> self.symbol_at(j) == other.symbol_at(j),
            decreases horizon - i,
        {
            if self.symbol_far(i) != other.symbol_far(i) {
                return false;
            }
            i = i + 1;
        }
        proof {
            assert forall|j: int| 0 <= j < horizon implies upw_symbol(
                self.spec_base(),
                self.spec_recur(),
                j,
            ) == upw_symbol(other.spec_base(), other.spec_recur(), j) by {
                assert(self.symbol_at(j) == other.symbol_at(j));
            }
            assert forall|n: int| 0 <= n implies self.symbol_at(n) == other.symbol_at(n) by {
                lemma_upw_agree(
                    self.spec_base(),
                    self.spec_recur(),
                    other.spec_base(),
                    other.spec_recur(),
                    n,
                );
            }
        }
        true
    }
}

} // verus!
