//! Classes: finite words used as canonical names of states.

use itertools::Itertools;
use vstd::prelude::*;

verus! {

/// A finite word that names a state of a right congruence.
#[derive(Clone, Debug, PartialEq, Eq, Hash)]
pub struct Class(pub Vec<char>);

impl View for Class {
    type V = Seq<char>;

    open spec fn view(&self) -> Seq<char> {
        self.0@
    }
}

/// Length-first, then lexicographic, strict order on finite words.
pub open spec fn length_lex_less(a: Seq<char>, b: Seq<char>) -> bool {
    a.len() < b.len() || (a.len() == b.len() && exists|k: int|
        0 <= k < a.len() && #[trigger] first_difference(a, b, k) && (a[k] as int) < (b[k] as int))
}

/// `k` is the first position at which `a` and `b` differ.
pub open spec fn first_difference(a: Seq<char>, b: Seq<char>, k: int) -> bool {
    &&& 0 <= k < a.len()
    &&& k < b.len()
    &&& a[k] != b[k]
    &&& forall|j: int| 0 <= j < k ==> a[j] == b[j]
}

/// What a class is printed as: the empty class as a lone epsilon, any other as
/// its symbols in order.
pub open spec fn class_text(c: Seq<char>) -> Seq<char> {
    if c.len() == 0 {
        seq!['\u{3b5}']
    } else {
        c
    }
}

/// Concatenates the symbols of `symbols` with `Itertools::join` and an empty
/// separator. A `char` displays as itself, so the text holds exactly the
/// symbols, in order.
#[verifier::external_body]
pub(crate) fn join_symbols(symbols: &Vec<char>) -> (text: String)
    ensures
        text@ == symbols@,
{
    symbols.iter().join("")
}

impl Class {
    /// The empty class.
    pub fn epsilon() -> (c: Class)
        ensures
            c@ == Seq::<char>::empty(),
    {
        Class(Vec::new())
    }

    /// The class that holds `sym` alone.
    pub fn singleton(sym: char) -> (c: Class)
        ensures
            c@ == seq![sym],
    {
        let mut v: Vec<char> = Vec::new();
        v.push(sym);
        Class(v)
    }

    /// The class that holds the symbols of `symbols`, in order.
    pub fn from_symbols(symbols: Vec<char>) -> (c: Class)
        ensures
            c@ == symbols@,
    {
        Class(symbols)
    }

    /// The class spelled by `text`.
    pub fn from_text(text: &str) -> (c: Class)
        ensures
            c@ == text@,
    {
        let n: usize = text.unicode_len();
        let mut v: Vec<char> = Vec::new();
        let mut i: usize = 0;
        while i < n
            invariant
                n == text@.len(),
                i <= n,
                v@ == text@.subrange(0, i as int),
            decreases n - i,
        {
            v.push(text.get_char(i));
            i = i + 1;
        }
        assert(text@.subrange(0, n as int) == text@);
        Class(v)
    }

    /// Renders the class: a lone epsilon for the empty class, its symbols
    /// otherwise.
    pub fn mr_to_string(&self) -> (text: String)
        ensures
            text@ == class_text(self@),
    {
        if self.0.len() == 0 {
            let mut v: Vec<char> = Vec::new();
            v.push('\u{3b5}');
            join_symbols(&v)
        } else {
            join_symbols(&self.0)
        }
    }

    /// The class as it is shown: its rendering between square brackets.
    pub fn show(&self) -> (text: String)
        ensures
            text@ == seq!['['] + class_text(self@) + seq![']'],
    {
        let mut v: Vec<char> = Vec::new();
        v.push('[');
        if self.0.len() == 0 {
            v.push('\u{3b5}');
        } else {
            let mut i: usize = 0;
            while i < self.0.len()
                invariant
                    i <= self.0@.len(),
                    v@ == seq!['['] + self.0@.subrange(0, i as int),
                decreases self.0@.len() - i,
            {
                v.push(self.0[i]);
                i = i + 1;
            }
            assert(self.0@.subrange(0, self.0@.len() as int) == self.0@);
        }
        v.push(']');
        join_symbols(&v)
    }

    /// Number of symbols.
    pub fn length(&self) -> (n: usize)
        ensures
            n == self@.len(),
    {
        self.0.len()
    }

    /// Whether this is the empty class.
    pub fn is_empty(&self) -> (b: bool)
        ensures
            b == (self@.len() == 0),
    {
        self.0.len() == 0
    }

    /// The symbol at `position`, if there is one.
    pub fn nth(&self, position: usize) -> (sym: Option<char>)
        ensures
            sym == if position < self@.len() {
                Some(self@[position as int])
            } else {
                None
            },
    {
        if position < self.0.len() {
            Some(self.0[position])
        } else {
            None
        }
    }

    /// A copy of this class.
    pub fn duplicate(&self) -> (c: Class)
        ensures
            c@ == self@,
    {
        self.prefix(self.0.len())
    }

    /// The first `n` symbols; the whole class where it has fewer.
    pub fn prefix(&self, n: usize) -> (c: Class)
        ensures
            c@ == self@.subrange(0, if n <= self@.len() { n as int } else { self@.len() as int }),
    {
        let m: usize = if n <= self.0.len() { n } else { self.0.len() };
        let mut v: Vec<char> = Vec::new();
        let mut i: usize = 0;
        while i < m
            invariant
                m <= self.0.len(),
                i <= m,
                v@ == self.0@.subrange(0, i as int),
            decreases m - i,
        {
            v.push(self.0[i]);
            i = i + 1;
        }
        Class(v)
    }

    /// This class followed by `sym`.
    pub fn extended(&self, sym: char) -> (c: Class)
        ensures
            c@ == self@.push(sym),
    {
        let mut c = self.duplicate();
        c.0.push(sym);
        c
    }

    /// Whether both classes hold the same symbols.
    pub fn same(&self, other: &Class) -> (b: bool)
        ensures
            b == (self@ == other@),
    {
        if self.0.len() != other.0.len() {
            return false;
        }
        let mut i: usize = 0;
        while i < self.0.len()
            invariant
                self.0.len() == other.0.len(),
                i <= self.0.len(),
                forall|j: int| 0 <= j < i ==> self@[j] == other@[j],
            decreases self.0.len() - i,
        {
            if self.0[i] != other.0[i] {
                return false;
            }
            i = i + 1;
        }
        assert(self@ =~= other@);
        true
    }

    /// Whether this class comes strictly before `other`: shorter classes first,
    /// classes of one length in lexicographic order.
    pub fn precedes(&self, other: &Class) -> (b: bool)
        ensures
            b == length_lex_less(self@, other@),
    {
        if self.0.len() != other.0.len() {
            return self.0.len() < other.0.len();
        }
        let mut i: usize = 0;
        while i < self.0.len()
            invariant
                self.0.len() == other.0.len(),
                i <= self.0.len(),
                forall|j: int| 0 <= j < i ==> self@[j] == other@[j],
            decreases self.0.len() - i,
        {
            if self.0[i] != other.0[i] {
                assert(first_difference(self@, other@, i as int));
                assert forall|k: int| #[trigger] first_difference(self@, other@, k) implies k == i by {}
                return self.0[i] < other.0[i];
            }
            i = i + 1;
        }
        assert forall|k: int| !#[trigger] first_difference(self@, other@, k) by {}
        false
    }
}

} // verus!
