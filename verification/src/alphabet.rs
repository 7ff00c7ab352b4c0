//! Finite alphabets with a fixed enumeration order.

use vstd::prelude::*;

verus! {

/// The symbols of `s` in order of first occurrence.
pub open spec fn first_occurrences(s: Seq<char>) -> Seq<char>
    decreases s.len(),
{
    if s.len() == 0 {
        Seq::<char>::empty()
    } else {
        let rest = first_occurrences(s.drop_last());
        if rest.contains(s.last()) {
            rest
        } else {
            rest.push(s.last())
        }
    }
}

/// `first_occurrences` repeats nothing and keeps exactly the symbols of `s`.
pub proof fn lemma_first_occurrences(s: Seq<char>)
    ensures
        first_occurrences(s).no_duplicates(),
        first_occurrences(s).len() <= s.len(),
        forall|c: char| first_occurrences(s).contains(c) <==> s.contains(c),
    decreases s.len(),
{
    if s.len() > 0 {
        let init = s.drop_last();
        lemma_first_occurrences(init);
        let rest = first_occurrences(init);
        let out = first_occurrences(s);
        assert forall|c: char| out.contains(c) <==> s.contains(c) by {
            assert(rest.contains(c) <==> init.contains(c));
            if s.contains(c) && !out.contains(c) {
                let i = choose|i: int| 0 <= i < s.len() && s[i] == c;
                if i < s.len() - 1 {
                    assert(init[i] == c);
                    let j = choose|j: int| 0 <= j < rest.len() && rest[j] == c;
                    assert(out[j] == c);
                } else if !rest.contains(s.last()) {
                    assert(out[rest.len() as int] == c);
                } else {
                    let j = choose|j: int| 0 <= j < rest.len() && rest[j] == c;
                    assert(out[j] == c);
                }
            }
            if out.contains(c) && !s.contains(c) {
                let j = choose|j: int| 0 <= j < out.len() && out[j] == c;
                if j < rest.len() {
                    assert(rest[j] == c);
                    let i = choose|i: int| 0 <= i < init.len() && init[i] == c;
                    assert(s[i] == c);
                } else {
                    assert(s[s.len() - 1] == c);
                }
            }
        }
    }
}

/// Every symbol of `word` belongs to `alphabet`.
pub open spec fn word_over(alphabet: Seq<char>, word: Seq<char>) -> bool {
    forall|i: int| 0 <= i < word.len() ==> alphabet.contains(#[trigger] word[i])
}

/// A finite set of symbols, enumerated in a fixed order.
#[derive(Clone, Debug, PartialEq, Eq)]
pub struct Alphabet {
    symbols: Vec<char>,
}

impl View for Alphabet {
    type V = Seq<char>;

    closed spec fn view(&self) -> Seq<char> {
        self.symbols@
    }
}

impl Alphabet {
    /// No symbol is listed twice.
    pub open spec fn wf(&self) -> bool {
        self@.no_duplicates()
    }

    /// The alphabet of the symbols of `symbols`, enumerated in order of first
    /// occurrence.
    pub fn from_symbols(symbols: Vec<char>) -> (alphabet: Alphabet)
        ensures
            alphabet.wf(),
            alphabet@ == first_occurrences(symbols@),
    {
        let mut out: Vec<char> = Vec::new();
        let mut i: usize = 0;
        while i < symbols.len()
            invariant
                i <= symbols.len(),
                out@ == first_occurrences(symbols@.subrange(0, i as int)),
            decreases symbols.len() - i,
        {
            let sym = symbols[i];
            let known = position_of(&out, sym).is_some();
            proof {
                let next = symbols@.subrange(0, i + 1);
                assert(next.drop_last() == symbols@.subrange(0, i as int));
                assert(next.last() == sym);
            }
            if !known {
                out.push(sym);
            }
            i = i + 1;
        }
        proof {
            assert(symbols@.subrange(0, symbols.len() as int) == symbols@);
            lemma_first_occurrences(symbols@);
        }
        Alphabet { symbols: out }
    }

    /// The alphabet spelled by `text`, one symbol per character.
    pub fn from_text(text: &str) -> (alphabet: Alphabet)
        ensures
            alphabet.wf(),
            alphabet@ == first_occurrences(text@),
    {
        let n: usize = text.unicode_len();
        let mut v: Vec<char> = Vec::new();
        let mut i: usize = 0;
        while i < n
            invariant
                n == text@.len(),
                i <= n,
                v@ == text@.subrange(0, i as int),
            decreases n - i,
        {
            v.push(text.get_char(i));
            i = i + 1;
        }
        assert(text@.subrange(0, n as int) == text@);
        Alphabet::from_symbols(v)
    }

    /// The symbols in enumeration order.
    pub fn universe(&self) -> (symbols: &Vec<char>)
        ensures
            symbols@ == self@,
    {
        &self.symbols
    }

    /// Number of symbols.
    pub fn size(&self) -> (n: usize)
        ensures
            n == self@.len(),
    {
        self.symbols.len()
    }

    /// The symbol at place `i` of the enumeration.
    pub fn symbol(&self, i: usize) -> (sym: char)
        requires
            i < self@.len(),
        ensures
            sym == self@[i as int],
    {
        self.symbols[i]
    }

    /// Whether `sym` belongs to the alphabet.
    pub fn contains(&self, sym: char) -> (b: bool)
        ensures
            b == self@.contains(sym),
    {
        position_of(&self.symbols, sym).is_some()
    }

    /// A copy of this alphabet.
    pub fn duplicate(&self) -> (alphabet: Alphabet)
        ensures
            alphabet@ == self@,
    {
        let mut v: Vec<char> = Vec::new();
        let mut i: usize = 0;
        while i < self.symbols.len()
            invariant
                i <= self.symbols.len(),
                v@ == self.symbols@.subrange(0, i as int),
            decreases self.symbols.len() - i,
        {
            v.push(self.symbols[i]);
            i = i + 1;
        }
        assert(self.symbols@.subrange(0, self.symbols.len() as int) == self.symbols@);
        Alphabet { symbols: v }
    }
}

/// The first place at which `sym` stands in `symbols`.
pub fn position_of(symbols: &Vec<char>, sym: char) -> (place: Option<usize>)
    ensures
        match place {
            Some(i) => i < symbols@.len() && symbols@[i as int] == sym && forall|j: int|
                0 <= j < i ==> symbols@[j] != sym,
            None => !symbols@.contains(sym),
        },
{
    let mut i: usize = 0;
    while i < symbols.len()
        invariant
            i <= symbols.len(),
            forall|j: int| 0 <= j < i ==> symbols@[j] != sym,
        decreases symbols.len() - i,
    {
        if symbols[i] == sym {
            return Some(i);
        }
        i = i + 1;
    }
    None
}

} // verus!
