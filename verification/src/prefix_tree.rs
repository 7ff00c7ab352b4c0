//! The automaton of the finite prefixes of a set of ultimately periodic words.

use crate::alphabet::Alphabet;
use crate::class::Class;
use crate::congruence::RightCongruence;
use crate::index_ts::{lemma_step_push, lemma_taken_edge, step, Edge};
use crate::reach::lemma_distinct_in_range;
use crate::words::{agreement_horizon, lemma_upw_agree, UltimatelyPeriodicWord};
use vstd::prelude::*;

verus! {

/// Every word of the set is well formed, and the set can be indexed.
pub open spec fn words_wf(words: Seq<UltimatelyPeriodicWord>) -> bool {
    &&& words.len() <= usize::MAX
    &&& forall|i: int| 0 <= i < words.len() ==> (#[trigger] words[i]).wf()
}

/// No two entries of the set stand for the same infinite word.
pub open spec fn separated(words: Seq<UltimatelyPeriodicWord>) -> bool {
    forall|i: int, j: int|
        #![trigger words[i], words[j]]
        0 <= i < j < words.len() ==> !words[i].same_word(&words[j])
}

/// Places of the words that begin with `c`, ascending.
pub open spec fn places_with_prefix(words: Seq<UltimatelyPeriodicWord>, c: Seq<char>) -> Seq<
    usize,
>
    decreases words.len(),
{
    if words.len() == 0 {
        Seq::<usize>::empty()
    } else {
        let rest = places_with_prefix(words.drop_last(), c);
        if words.last().spec_has_prefix(c) {
            rest.push((words.len() - 1) as usize)
        } else {
            rest
        }
    }
}

/// Number of words that begin with `c`.
pub open spec fn count_with_prefix(words: Seq<UltimatelyPeriodicWord>, c: Seq<char>) -> nat {
    places_with_prefix(words, c).len()
}

/// Whether `place` is the place of a word that begins with `c`.
pub open spec fn has_prefix_at(
    words: Seq<UltimatelyPeriodicWord>,
    c: Seq<char>,
    place: usize,
) -> bool {
    place < words.len() && words[place as int].spec_has_prefix(c)
}

/// The state that follows the state `c` on the symbol `a` in the prefix tree of
/// `words`. With `candidate` for `c` followed by `a`: none where no word begins
/// with the candidate; the candidate where several do; where exactly one word
/// does, the candidate cut short by that word's period if that is possible and
/// the word is also the only one that begins with what is left, and the
/// candidate otherwise.
pub open spec fn tree_successor(
    words: Seq<UltimatelyPeriodicWord>,
    c: Seq<char>,
    a: char,
) -> Option<Seq<char>> {
    let candidate = c.push(a);
    let places = places_with_prefix(words, candidate);
    if places.len() == 0 {
        None
    } else if places.len() > 1 {
        Some(candidate)
    } else {
        let period = words[places[0] as int].spec_recur().len();
        if candidate.len() < period {
            Some(candidate)
        } else {
            let base = candidate.subrange(0, candidate.len() - period);
            if count_with_prefix(words, base) == 1 {
                Some(base)
            } else {
                Some(candidate)
            }
        }
    }
}

/// `places_with_prefix` lists exactly the places of the words that begin with
/// `c`, in ascending order.
pub proof fn lemma_places_with_prefix(words: Seq<UltimatelyPeriodicWord>, c: Seq<char>)
    requires
        words.len() <= usize::MAX,
    ensures
        forall|k: int|
            0 <= k < places_with_prefix(words, c).len() ==> has_prefix_at(
                words,
                c,
                #[trigger] places_with_prefix(words, c)[k],
            ),
        forall|k: int, l: int|
            0 <= k < l < places_with_prefix(words, c).len() ==> (#[trigger] places_with_prefix(
                words,
                c,
            )[k]) < (#[trigger] places_with_prefix(words, c)[l]),
        forall|i: int|
            0 <= i < words.len() && (#[trigger] words[i]).spec_has_prefix(c)
                ==> places_with_prefix(words, c).contains(i as usize),
    decreases words.len(),
{
    if words.len() > 0 {
        let init = words.drop_last();
        lemma_places_with_prefix(init, c);
        let rest = places_with_prefix(init, c);
        let all = places_with_prefix(words, c);
        assert forall|k: int| 0 <= k < all.len() implies has_prefix_at(
            words,
            c,
            #[trigger] all[k],
        ) by {
            if k < rest.len() {
                assert(has_prefix_at(init, c, rest[k]));
                assert(all[k] == rest[k]);
                assert(init[rest[k] as int] == words[rest[k] as int]);
            }
        }
        assert forall|k: int, l: int| 0 <= k < l < all.len() implies (#[trigger] all[k]) < (
        #[trigger] all[l]) by {
            assert(has_prefix_at(init, c, rest[k]));
            assert(all[k] == rest[k]);
            if l < rest.len() {
                assert(all[l] == rest[l]);
            }
        }
        assert forall|i: int|
            0 <= i < words.len() && (#[trigger] words[i]).spec_has_prefix(c) implies all.contains(
            i as usize,
        ) by {
            if i < init.len() {
                assert(init[i] == words[i]);
                assert(rest.contains(i as usize));
                let k = choose|k: int| 0 <= k < rest.len() && rest[k] == i as usize;
                assert(all[k] == i as usize);
            } else {
                assert(all[all.len() - 1] == i as usize);
            }
        }
    }
}

/// The places of the words of `words` that begin with the symbols of `class`.
pub fn words_with_prefix(words: &Vec<UltimatelyPeriodicWord>, class: &Class) -> (places: Vec<usize>)
    requires
        words_wf(words@),
    ensures
        places@ == places_with_prefix(words@, class@),
{
    let mut out: Vec<usize> = Vec::new();
    let mut i: usize = 0;
    while i < words.len()
        invariant
            words_wf(words@),
            i <= words.len(),
            out@ == places_with_prefix(words@.subrange(0, i as int), class@),
        decreases words.len() - i,
    {
        proof {
            let next = words@.subrange(0, i + 1);
            assert(next.drop_last() == words@.subrange(0, i as int));
            assert(next.last() == words@[i as int]);
        }
        if words[i].has_prefix(&class.0) {
            out.push(i);
        }
        i = i + 1;
    }
    assert(words@.subrange(0, words.len() as int) == words@);
    out
}

/// The state that follows `from` on `on` in the prefix tree of `words`.
pub fn prefix_successor(words: &Vec<UltimatelyPeriodicWord>, from: &Class, on: char) -> (next:
    Option<Class>)
    requires
        words_wf(words@),
    ensures
        match next {
            Some(c) => tree_successor(words@, from@, on) == Some(c@),
            None => tree_successor(words@, from@, on) is None,
        },
{
    let candidate = from.extended(on);
    let places = words_with_prefix(words, &candidate);
    if places.len() == 0 {
        return None;
    }
    if places.len() > 1 {
        return Some(candidate);
    }
    proof {
        lemma_places_with_prefix(words@, candidate@);
        assert(has_prefix_at(words@, candidate@, places@[0]));
    }
    let period = words[places[0]].recur_length();
    if candidate.length() < period {
        return Some(candidate);
    }
    let base = candidate.prefix(candidate.length() - period);
    let with_base = words_with_prefix(words, &base);
    if with_base.len() == 1 {
        Some(base)
    } else {
        Some(candidate)
    }
}

/// The words of a set, seen as the states of the automaton of their prefixes:
/// a state is a class, the initial state is the empty class.
pub struct Prefixes<'a> {
    alphabet: Alphabet,
    set: &'a Vec<UltimatelyPeriodicWord>,
}

/// The symbols of all words up to place `n`, each word's base first and then
/// its period.
pub open spec fn symbols_of(words: Seq<UltimatelyPeriodicWord>, n: int) -> Seq<char>
    decreases n,
{
    if n <= 0 {
        Seq::<char>::empty()
    } else {
        symbols_of(words, n - 1) + words[n - 1].spec_base() + words[n - 1].spec_recur()
    }
}

impl<'a> Prefixes<'a> {
    /// The set of words.
    pub closed spec fn spec_words(&self) -> Seq<UltimatelyPeriodicWord> {
        self.set@
    }

    /// The symbols that occur in the words, in order of first occurrence.
    pub closed spec fn spec_alphabet(&self) -> Seq<char> {
        self.alphabet@
    }

    /// The words are well formed.
    pub open spec fn wf(&self) -> bool {
        &&& words_wf(self.spec_words())
        &&& self.spec_alphabet().no_duplicates()
    }

    /// The prefixes of the words of `set`, over the alphabet of the symbols
    /// that occur in them.
    pub fn new(set: &'a Vec<UltimatelyPeriodicWord>) -> (prefixes: Self)
        requires
            words_wf(set@),
        ensures
            prefixes.wf(),
            prefixes.spec_words() == set@,
            prefixes.spec_alphabet() == crate::alphabet::first_occurrences(
                symbols_of(set@, set@.len() as int),
            ),
    {
        let mut all: Vec<char> = Vec::new();
        let mut i: usize = 0;
        while i < set.len()
            invariant
                i <= set.len(),
                all@ == symbols_of(set@, i as int),
            decreases set.len() - i,
        {
            let base = set[i].base();
            let mut k: usize = 0;
            while k < base.len()
                invariant
                    i < set.len(),
                    base@ == set@[i as int].spec_base(),
                    k <= base.len(),
                    all@ == symbols_of(set@, i as int) + base@.subrange(0, k as int),
                decreases base.len() - k,
            {
                all.push(base[k]);
                k = k + 1;
            }
            assert(base@.subrange(0, base.len() as int) == base@);
            let recur = set[i].recur();
            let mut k: usize = 0;
            while k < recur.len()
                invariant
                    i < set.len(),
                    base@ == set@[i as int].spec_base(),
                    recur@ == set@[i as int].spec_recur(),
                    k <= recur.len(),
                    all@ == symbols_of(set@, i as int) + base@ + recur@.subrange(0, k as int),
                decreases recur.len() - k,
            {
                all.push(recur[k]);
                k = k + 1;
            }
            assert(recur@.subrange(0, recur.len() as int) == recur@);
            i = i + 1;
        }
        Prefixes { alphabet: Alphabet::from_symbols(all), set }
    }

    /// The alphabet: the symbols that occur in the words.
    pub fn alphabet(&self) -> (alphabet: &Alphabet)
        ensures
            alphabet@ == self.spec_alphabet(),
            self.wf() ==> alphabet.wf(),
    {
        &self.alphabet
    }

    /// The initial state: the empty class.
    pub fn initial(&self) -> (c: Class)
        ensures
            c@ == Seq::<char>::empty(),
    {
        Class::epsilon()
    }

    /// The places of the words that begin with the symbols of `class`.
    pub fn find_words_with_prefix(&self, class: &Class) -> (places: Vec<usize>)
        requires
            self.wf(),
        ensures
            places@ == places_with_prefix(self.spec_words(), class@),
    {
        words_with_prefix(self.set, class)
    }

    /// The state that follows `from` on `on`.
    pub fn successor(&self, from: &Class, on: char) -> (next: Option<Class>)
        requires
            self.wf(),
        ensures
            match next {
                Some(c) => tree_successor(self.spec_words(), from@, on) == Some(c@),
                None => tree_successor(self.spec_words(), from@, on) is None,
            },
    {
        prefix_successor(self.set, from, on)
    }
}

/// Length of the longest base among `words`.
pub open spec fn max_base(words: Seq<UltimatelyPeriodicWord>) -> nat
    decreases words.len(),
{
    if words.len() == 0 {
        0
    } else {
        let m = max_base(words.drop_last());
        let b = words.last().spec_base().len();
        if b > m {
            b
        } else {
            m
        }
    }
}

/// Length of the longest period among `words`.
pub open spec fn max_recur(words: Seq<UltimatelyPeriodicWord>) -> nat
    decreases words.len(),
{
    if words.len() == 0 {
        0
    } else {
        let m = max_recur(words.drop_last());
        let r = words.last().spec_recur().len();
        if r > m {
            r
        } else {
            m
        }
    }
}

/// A length from which on no two different words of `words` share a prefix.
pub open spec fn horizon(words: Seq<UltimatelyPeriodicWord>) -> nat {
    max_base(words) + max_recur(words) * max_recur(words)
}

/// A bound on the length of the states of the prefix tree of `words`.
pub open spec fn span(words: Seq<UltimatelyPeriodicWord>) -> nat {
    horizon(words) + max_recur(words)
}

/// No base is longer than `max_base`, no period longer than `max_recur`.
pub proof fn lemma_max_parts(words: Seq<UltimatelyPeriodicWord>, i: int)
    requires
        0 <= i < words.len(),
    ensures
        words[i].spec_base().len() <= max_base(words),
        words[i].spec_recur().len() <= max_recur(words),
    decreases words.len(),
{
    if i < words.len() - 1 {
        lemma_max_parts(words.drop_last(), i);
    }
}

/// A prefix that two different words of a separated set share is shorter than
/// the horizon.
pub proof fn lemma_shared_prefix_short(
    words: Seq<UltimatelyPeriodicWord>,
    c: Seq<char>,
    i: int,
    j: int,
)
    requires
        words_wf(words),
        separated(words),
        0 <= i < j < words.len(),
        words[i].spec_has_prefix(c),
        words[j].spec_has_prefix(c),
    ensures
        c.len() < horizon(words),
{
    let wi = words[i];
    let wj = words[j];
    assert(wi.wf() && wj.wf());
    lemma_max_parts(words, i);
    lemma_max_parts(words, j);
    let ri = wi.spec_recur().len();
    let rj = wj.spec_recur().len();
    let m = max_recur(words);
    assert(ri * rj <= m * m) by (nonlinear_arith)
        requires
            ri <= m,
            rj <= m,
    ;
    let ah = agreement_horizon(wi.spec_base().len(), ri, wj.spec_base().len(), rj);
    assert(ah <= horizon(words));
    if c.len() >= horizon(words) {
        assert forall|n: int| 0 <= n implies wi.symbol_at(n) == wj.symbol_at(n) by {
            assert forall|k: int| 0 <= k < ah implies crate::words::upw_symbol(
                wi.spec_base(),
                wi.spec_recur(),
                k,
            ) == crate::words::upw_symbol(wj.spec_base(), wj.spec_recur(), k) by {
                assert(wi.symbol_at(k) == c[k]);
                assert(wj.symbol_at(k) == c[k]);
            }
            lemma_upw_agree(wi.spec_base(), wi.spec_recur(), wj.spec_base(), wj.spec_recur(), n);
        }
        assert(wi.same_word(&wj));
        assert(!words[i].same_word(&words[j]));
    }
}

/// A prefix with which several words of a separated set begin is shorter than
/// the horizon.
pub proof fn lemma_ambiguous_short(words: Seq<UltimatelyPeriodicWord>, c: Seq<char>)
    requires
        words_wf(words),
        separated(words),
        count_with_prefix(words, c) >= 2,
    ensures
        c.len() < horizon(words),
{
    lemma_places_with_prefix(words, c);
    let places = places_with_prefix(words, c);
    assert(has_prefix_at(words, c, places[0]));
    assert(has_prefix_at(words, c, places[1]));
    assert(places[0] < places[1]);
    lemma_shared_prefix_short(words, c, places[0] as int, places[1] as int);
}

/// A successor of a state within the span is a prefix of some word and lies
/// within the span.
pub proof fn lemma_successor_bound(words: Seq<UltimatelyPeriodicWord>, c: Seq<char>, a: char)
    requires
        words_wf(words),
        separated(words),
        c.len() <= span(words),
    ensures
        tree_successor(words, c, a) matches Some(s) ==> s.len() <= span(words) && count_with_prefix(
            words,
            s,
        ) >= 1,
{
    let candidate = c.push(a);
    let places = places_with_prefix(words, candidate);
    lemma_places_with_prefix(words, candidate);
    if places.len() > 1 {
        lemma_ambiguous_short(words, candidate);
    } else if places.len() == 1 {
        assert(has_prefix_at(words, candidate, places[0]));
        let w = words[places[0] as int];
        let period = w.spec_recur().len();
        lemma_max_parts(words, places[0] as int);
        if candidate.len() >= period {
            let base = candidate.subrange(0, candidate.len() - period);
            assert(w.wf());
            assert(w.spec_has_prefix(base)) by {
                assert forall|i: int| 0 <= i < base.len() implies w.symbol_at(i) == #[trigger] base[i] by {
                    assert(base[i] == candidate[i]);
                }
            }
            lemma_places_with_prefix(words, base);
            assert(places_with_prefix(words, base).contains(places[0]));
            if count_with_prefix(words, base) != 1 {
                lemma_ambiguous_short(words, base);
            }
        }
    }
}

/// A prefix tree whose labels repeat nothing, are prefixes of words, and lie
/// within the span has at most one state for each word and length, and the
/// initial state.
pub proof fn lemma_tree_size(words: Seq<UltimatelyPeriodicWord>, labels: Seq<Seq<char>>)
    requires
        words_wf(words),
        labels.len() >= 1,
        labels.no_duplicates(),
        labels_bounded(words, labels),
    ensures
        labels.len() <= words.len() * (span(words) + 1) + 1,
{
    let width = span(words) + 1;
    let codes = Seq::new(
        (labels.len() - 1) as nat,
        |k: int| places_with_prefix(words, labels[k + 1])[0] * width + labels[k + 1].len(),
    );
    assert forall|k: int| 0 <= k < codes.len() implies 0 <= #[trigger] codes[k] < words.len()
        * width by {
        let c = labels[k + 1];
        assert(count_with_prefix(words, c) >= 1 && c.len() <= span(words));
        lemma_places_with_prefix(words, c);
        let p = places_with_prefix(words, c)[0];
        assert(has_prefix_at(words, c, p));
        assert(p * width + c.len() < words.len() * width) by (nonlinear_arith)
            requires
                p < words.len(),
                c.len() < width,
        ;
        assert(p * width >= 0) by (nonlinear_arith)
            requires
                width >= 0,
        ;
    }
    assert forall|x: int, y: int| 0 <= x < codes.len() && 0 <= y < codes.len() && x != y implies codes[x]
        != codes[y] by {
        let c = labels[x + 1];
        let d = labels[y + 1];
        assert(count_with_prefix(words, c) >= 1 && c.len() <= span(words));
        assert(count_with_prefix(words, d) >= 1 && d.len() <= span(words));
        lemma_places_with_prefix(words, c);
        lemma_places_with_prefix(words, d);
        let p = places_with_prefix(words, c)[0];
        let r = places_with_prefix(words, d)[0];
        assert(has_prefix_at(words, c, p));
        assert(has_prefix_at(words, d, r));
        if p * width + c.len() == r * width + d.len() {
            assert(p == r) by (nonlinear_arith)
                requires
                    p * width + c.len() == r * width + d.len(),
                    c.len() < width,
                    d.len() < width,
            ;
            let w = words[p as int];
            assert forall|i: int| 0 <= i < c.len() implies c[i] == d[i] by {
                assert(w.symbol_at(i) == c[i]);
                assert(w.symbol_at(i) == d[i]);
            }
            assert(c =~= d);
        }
    }
    lemma_distinct_in_range(codes, (words.len() * width) as int);
}

/// Every label but the first is a prefix of some word and lies within the
/// span.
pub open spec fn labels_bounded(words: Seq<UltimatelyPeriodicWord>, labels: Seq<Seq<char>>) -> bool {
    forall|q: int|
        1 <= q < labels.len() ==> count_with_prefix(words, #[trigger] labels[q]) >= 1
            && labels[q].len() <= span(words)
}

/// The edge that leaves state `q` on `a` is the one that the words ask for:
/// it leads to the state labelled with the successor, and there is none where
/// there is no successor.
pub open spec fn edge_matches(
    words: Seq<UltimatelyPeriodicWord>,
    labels: Seq<Seq<char>>,
    edges: Seq<Edge<()>>,
    q: int,
    a: char,
) -> bool {
    match tree_successor(words, labels[q], a) {
        Some(c) => step(edges, q, a) matches Some(t) && 0 <= t < labels.len() && labels[t] == c,
        None => step(edges, q, a) is None,
    }
}

/// The edges of the first `rows` states, and of state `rows` on the first
/// `cols` symbols, are the ones that the words ask for.
pub open spec fn rows_done(
    words: Seq<UltimatelyPeriodicWord>,
    alphabet: Seq<char>,
    labels: Seq<Seq<char>>,
    edges: Seq<Edge<()>>,
    rows: int,
    cols: int,
) -> bool {
    forall|q: int, k: int|
        0 <= k < alphabet.len() && (0 <= q < rows || (q == rows && k < cols))
            ==> #[trigger] edge_matches(words, labels, edges, q, alphabet[k])
}

/// The edge leaves one of the first `rows` states on a symbol of the
/// alphabet, or state `rows` on one of the first `cols` symbols.
pub open spec fn edge_allowed(alphabet: Seq<char>, e: Edge<()>, rows: int, cols: int) -> bool {
    (e.source < rows && alphabet.contains(e.symbol)) || (e.source == rows && alphabet.subrange(
        0,
        cols,
    ).contains(e.symbol))
}

/// Every edge is allowed, and no two edges leave one state on one symbol.
pub open spec fn edges_tidy(alphabet: Seq<char>, edges: Seq<Edge<()>>, rows: int, cols: int) -> bool {
    &&& forall|j: int| 0 <= j < edges.len() ==> edge_allowed(alphabet, #[trigger] edges[j], rows, cols)
    &&& forall|i: int, j: int|
        0 <= i < j < edges.len() ==> !(#[trigger] edges[i].source == (#[trigger] edges[j]).source
            && edges[i].symbol == edges[j].symbol)
}

/// State `q` is the successor of a state before it on some symbol of the
/// alphabet.
pub open spec fn discovered(
    words: Seq<UltimatelyPeriodicWord>,
    alphabet: Seq<char>,
    labels: Seq<Seq<char>>,
    q: int,
) -> bool {
    exists|p: int, k: int|
        0 <= p < q && p < labels.len() && 0 <= k < alphabet.len() && #[trigger] tree_successor(
            words,
            labels[p],
            alphabet[k],
        ) == Some(labels[q])
}

/// The pair of state `p` and symbol number `k` comes before the pair of `p2`
/// and `k2` in the order in which the tree is built: state by state, and for
/// each state symbol by symbol.
pub open spec fn built_before(p: int, k: int, p2: int, k2: int) -> bool {
    p < p2 || (p == p2 && k < k2)
}

/// State `q` is numbered in the order of discovery: it is the successor of
/// some state before it on some symbol, and every pair of a state and a symbol
/// that comes before that one leads to a state before `q`, or nowhere.
pub open spec fn numbered_by_discovery(
    words: Seq<UltimatelyPeriodicWord>,
    alphabet: Seq<char>,
    labels: Seq<Seq<char>>,
    edges: Seq<Edge<()>>,
    q: int,
) -> bool {
    exists|p: int, k: int|
        #![trigger tree_successor(words, labels[p], alphabet[k])]
        0 <= p < q && p < labels.len() && 0 <= k < alphabet.len() && tree_successor(
            words,
            labels[p],
            alphabet[k],
        ) == Some(labels[q]) && earlier_lead_before(alphabet, edges, p, k, q)
}

/// Every pair of a state and a symbol that comes before `(p, k)` leads to a
/// state before `q`, or nowhere.
pub open spec fn earlier_lead_before(
    alphabet: Seq<char>,
    edges: Seq<Edge<()>>,
    p: int,
    k: int,
    q: int,
) -> bool {
    forall|p2: int, k2: int|
        0 <= p2 && 0 <= k2 < alphabet.len() && built_before(p2, k2, p, k) ==> leads_before(
            #[trigger] step(edges, p2, alphabet[k2]),
            q,
        )
}

/// The step leads to a state before `q`, or nowhere.
pub open spec fn leads_before(target: Option<int>, q: int) -> bool {
    match target {
        Some(t) => t < q,
        None => true,
    }
}

/// `tree` is the prefix tree of `words` over `alphabet`: its states are
/// labelled with distinct classes, the first with the empty class; from every
/// state and on every symbol of the alphabet it has the edge that
/// `tree_successor` asks for, and no other; every state but the first is the
/// successor of a state before it, and is a prefix of some word; the states
/// are numbered in the order in which a search finds them that goes state by
/// state and, for each state, symbol by symbol.
pub open spec fn is_prefix_tree(
    tree: &RightCongruence,
    alphabet: Seq<char>,
    words: Seq<UltimatelyPeriodicWord>,
) -> bool {
    &&& tree.wf()
    &&& tree.spec_alphabet() == alphabet
    &&& tree.spec_labels().no_duplicates()
    &&& tree.spec_labels()[0] == Seq::<char>::empty()
    &&& tree.spec_deterministic()
    &&& rows_done(
        words,
        alphabet,
        tree.spec_labels(),
        tree.spec_edges(),
        tree.spec_size() as int,
        0,
    )
    &&& forall|q: int|
        1 <= q < tree.spec_size() ==> #[trigger] discovered(words, alphabet, tree.spec_labels(), q)
    &&& forall|q: int|
        1 <= q < tree.spec_size() ==> #[trigger] numbered_by_discovery(
            words,
            alphabet,
            tree.spec_labels(),
            tree.spec_edges(),
            q,
        )
    &&& forall|q: int|
        1 <= q < tree.spec_size() ==> count_with_prefix(words, #[trigger] tree.spec_labels()[q])
            >= 1
}

/// The prefix tree of the empty set has the empty class as its only state,
/// and no edge.
pub proof fn lemma_empty_set_tree(
    tree: &RightCongruence,
    alphabet: Seq<char>,
    words: Seq<UltimatelyPeriodicWord>,
)
    requires
        is_prefix_tree(tree, alphabet, words),
        words.len() == 0,
    ensures
        tree.spec_size() == 1,
        tree.spec_edges().len() == 0,
{
    let labels = tree.spec_labels();
    let edges = tree.spec_edges();
    if tree.spec_size() > 1 {
        assert(count_with_prefix(words, labels[1]) >= 1);
    }
    if edges.len() > 0 {
        let e = edges[0];
        assert(alphabet.contains(e.symbol));
        let k = choose|k: int| 0 <= k < alphabet.len() && alphabet[k] == e.symbol;
        assert(crate::index_ts::edges_in_range(edges, tree.spec_size()));
        assert(e.source < tree.spec_size());
        assert(edge_matches(words, labels, edges, e.source as int, alphabet[k]));
        lemma_taken_edge(edges, e.source as int, e.symbol);
    }
}

/// The pair `(p, k)` is one from which state `q` is found first.
pub open spec fn found_first_from(
    words: Seq<UltimatelyPeriodicWord>,
    alphabet: Seq<char>,
    labels: Seq<Seq<char>>,
    edges: Seq<Edge<()>>,
    p: int,
    k: int,
    q: int,
) -> bool {
    &&& 0 <= p < q
    &&& p < labels.len()
    &&& 0 <= k < alphabet.len()
    &&& tree_successor(words, labels[p], alphabet[k]) == Some(labels[q])
    &&& earlier_lead_before(alphabet, edges, p, k, q)
}

/// `origins` names for every state but the first a pair from which it is
/// found first, and which comes before the pair `(i, k)`.
pub open spec fn origins_known(
    words: Seq<UltimatelyPeriodicWord>,
    alphabet: Seq<char>,
    labels: Seq<Seq<char>>,
    edges: Seq<Edge<()>>,
    origins: Seq<(int, int)>,
    i: int,
    k: int,
) -> bool {
    &&& origins.len() == labels.len()
    &&& forall|q: int|
        1 <= q < labels.len() ==> found_first_from(
            words,
            alphabet,
            labels,
            edges,
            (#[trigger] origins[q]).0,
            origins[q].1,
            q,
        ) && built_before(origins[q].0, origins[q].1, i, k)
}

/// What is known of the origins of the states stays known when the pair
/// `(i, k)` is dealt with: when nothing is added, when an edge from `i` on the
/// symbol `k` is added, and when a state found from that pair is added too.
pub proof fn lemma_origins_step(
    words: Seq<UltimatelyPeriodicWord>,
    alphabet: Seq<char>,
    labels: Seq<Seq<char>>,
    edges: Seq<Edge<()>>,
    origins: Seq<(int, int)>,
    i: int,
    k: int,
    labels_after: Seq<Seq<char>>,
    edges_after: Seq<Edge<()>>,
    origins_after: Seq<(int, int)>,
)
    requires
        origins_known(words, alphabet, labels, edges, origins, i, k),
        rows_done(words, alphabet, labels, edges, i, k),
        alphabet.no_duplicates(),
        0 <= i < labels.len(),
        0 <= k < alphabet.len(),
        edges_after == edges || (edges_after.len() == edges.len() + 1 && edges_after.drop_last()
            == edges && edges_after.last().source == i && edges_after.last().symbol
            == alphabet[k]),
        (labels_after == labels && origins_after == origins) || (labels_after.len()
            == labels.len() + 1 && labels_after.drop_last() == labels && origins_after
            == origins.push((i, k)) && tree_successor(words, labels[i], alphabet[k]) == Some(
            labels_after.last(),
        )),
    ensures
        origins_known(words, alphabet, labels_after, edges_after, origins_after, i, k + 1),
{
    assert forall|p2: int, k2: int|
        0 <= p2 && 0 <= k2 < alphabet.len() && built_before(p2, k2, i, k) implies #[trigger] step(
        edges_after,
        p2,
        alphabet[k2],
    ) == step(edges, p2, alphabet[k2]) by {
        if edges_after != edges {
            assert(edges_after == edges.push(edges_after.last()));
            lemma_step_push(edges, edges_after.last(), p2, alphabet[k2]);
            if p2 == i {
                assert(alphabet[k2] != alphabet[k]);
            }
        }
    }
    assert forall|q: int| 1 <= q < labels_after.len() implies found_first_from(
        words,
        alphabet,
        labels_after,
        edges_after,
        (#[trigger] origins_after[q]).0,
        origins_after[q].1,
        q,
    ) && built_before(origins_after[q].0, origins_after[q].1, i, k + 1) by {
        let p = origins_after[q].0;
        let l = origins_after[q].1;
        if q < labels.len() {
            assert(origins_after[q] == origins[q]);
            assert(found_first_from(words, alphabet, labels, edges, p, l, q));
            assert(labels_after[p] == labels[p]);
            assert(labels_after[q] == labels[q]);
            assert forall|p2: int, k2: int|
                0 <= p2 && 0 <= k2 < alphabet.len() && built_before(
                    p2,
                    k2,
                    p,
                    l,
                ) implies leads_before(#[trigger] step(edges_after, p2, alphabet[k2]), q) by {
                assert(leads_before(step(edges, p2, alphabet[k2]), q));
            }
        } else {
            assert(labels_after[i] == labels[i]);
            assert forall|p2: int, k2: int|
                0 <= p2 && 0 <= k2 < alphabet.len() && built_before(
                    p2,
                    k2,
                    i,
                    k,
                ) implies leads_before(#[trigger] step(edges_after, p2, alphabet[k2]), q) by {
                assert(edge_matches(words, labels, edges, p2, alphabet[k2]));
            }
        }
    }
}

/// While state `i` is at symbol `k`, it has no edge on that symbol yet.
pub proof fn lemma_no_edge_yet(alphabet: Seq<char>, edges: Seq<Edge<()>>, i: int, k: int)
    requires
        edges_tidy(alphabet, edges, i, k),
        alphabet.no_duplicates(),
        0 <= k < alphabet.len(),
    ensures
        step(edges, i, alphabet[k]) is None,
        forall|j: int|
            0 <= j < edges.len() ==> !((#[trigger] edges[j]).source == i && edges[j].symbol
                == alphabet[k]),
{
    assert forall|j: int| 0 <= j < edges.len() implies !((#[trigger] edges[j]).source == i
        && edges[j].symbol == alphabet[k]) by {
        assert(edge_allowed(alphabet, edges[j], i, k));
        if edges[j].source == i && edges[j].symbol == alphabet[k] {
            let sub = alphabet.subrange(0, k);
            let x = choose|x: int| 0 <= x < sub.len() && sub[x] == alphabet[k];
            assert(alphabet[x] == alphabet[k]);
        }
    }
    lemma_taken_edge(edges, i, alphabet[k]);
}

/// One more label leaves the finished rows finished.
pub proof fn lemma_rows_keep_on_label(
    words: Seq<UltimatelyPeriodicWord>,
    alphabet: Seq<char>,
    labels: Seq<Seq<char>>,
    edges: Seq<Edge<()>>,
    rows: int,
    cols: int,
    c: Seq<char>,
)
    requires
        rows_done(words, alphabet, labels, edges, rows, cols),
        0 <= rows < labels.len(),
    ensures
        rows_done(words, alphabet, labels.push(c), edges, rows, cols),
{
    let more = labels.push(c);
    assert forall|q: int, k: int|
        0 <= k < alphabet.len() && (0 <= q < rows || (q == rows && k < cols)) implies #[trigger] edge_matches(
        words,
        more,
        edges,
        q,
        alphabet[k],
    ) by {
        assert(edge_matches(words, labels, edges, q, alphabet[k]));
        assert(more[q] == labels[q]);
        match step(edges, q, alphabet[k]) {
            Some(t) => {
                if 0 <= t < labels.len() {
                    assert(more[t] == labels[t]);
                }
            },
            None => {},
        }
    }
}

/// The edge that the words ask for, once added, finishes one more symbol of
/// the current row.
pub proof fn lemma_rows_after_edge(
    words: Seq<UltimatelyPeriodicWord>,
    alphabet: Seq<char>,
    labels: Seq<Seq<char>>,
    edges: Seq<Edge<()>>,
    i: int,
    k: int,
    e: Edge<()>,
)
    requires
        rows_done(words, alphabet, labels, edges, i, k),
        edges_tidy(alphabet, edges, i, k),
        alphabet.no_duplicates(),
        0 <= k < alphabet.len(),
        0 <= i < labels.len(),
        e.source == i,
        e.symbol == alphabet[k],
        e.target < labels.len(),
        tree_successor(words, labels[i], alphabet[k]) == Some(labels[e.target as int]),
    ensures
        rows_done(words, alphabet, labels, edges.push(e), i, k + 1),
        edges_tidy(alphabet, edges.push(e), i, k + 1),
{
    let more = edges.push(e);
    lemma_no_edge_yet(alphabet, edges, i, k);
    assert forall|q: int, l: int|
        0 <= l < alphabet.len() && (0 <= q < i || (q == i && l < k + 1)) implies #[trigger] edge_matches(
        words,
        labels,
        more,
        q,
        alphabet[l],
    ) by {
        lemma_step_push(edges, e, q, alphabet[l]);
        if q == i && l == k {
        } else {
            assert(edge_matches(words, labels, edges, q, alphabet[l]));
            if q == i {
                assert(alphabet[l] != alphabet[k]);
            }
        }
    }
    assert forall|j: int| 0 <= j < more.len() implies edge_allowed(
        alphabet,
        #[trigger] more[j],
        i,
        k + 1,
    ) by {
        if j < edges.len() {
            assert(more[j] == edges[j]);
            assert(edge_allowed(alphabet, edges[j], i, k));
            if edges[j].source == i {
                let sub = alphabet.subrange(0, k);
                let x = choose|x: int| 0 <= x < sub.len() && sub[x] == edges[j].symbol;
                assert(alphabet.subrange(0, k + 1)[x] == edges[j].symbol);
            }
        } else {
            assert(more[j] == e);
            assert(alphabet.subrange(0, k + 1)[k] == alphabet[k]);
        }
    }
    assert forall|x: int, y: int| 0 <= x < y < more.len() implies !(#[trigger] more[x].source == (
    #[trigger] more[y]).source && more[x].symbol == more[y].symbol) by {
        assert(more[x] == edges[x]);
        if y < edges.len() {
            assert(more[y] == edges[y]);
        } else {
            assert(more[y] == e);
        }
    }
}

/// Where the words ask for no edge, the symbol is finished as it is.
pub proof fn lemma_rows_no_edge(
    words: Seq<UltimatelyPeriodicWord>,
    alphabet: Seq<char>,
    labels: Seq<Seq<char>>,
    edges: Seq<Edge<()>>,
    i: int,
    k: int,
)
    requires
        rows_done(words, alphabet, labels, edges, i, k),
        edges_tidy(alphabet, edges, i, k),
        alphabet.no_duplicates(),
        0 <= k < alphabet.len(),
        tree_successor(words, labels[i], alphabet[k]) is None,
    ensures
        rows_done(words, alphabet, labels, edges, i, k + 1),
        edges_tidy(alphabet, edges, i, k + 1),
{
    lemma_no_edge_yet(alphabet, edges, i, k);
    assert forall|q: int, l: int|
        0 <= l < alphabet.len() && (0 <= q < i || (q == i && l < k + 1)) implies #[trigger] edge_matches(
        words,
        labels,
        edges,
        q,
        alphabet[l],
    ) by {
        if q == i && l == k {
        } else {
            assert(edge_matches(words, labels, edges, q, alphabet[l]));
        }
    }
    assert forall|j: int| 0 <= j < edges.len() implies edge_allowed(
        alphabet,
        #[trigger] edges[j],
        i,
        k + 1,
    ) by {
        assert(edge_allowed(alphabet, edges[j], i, k));
        if edges[j].source == i {
            let sub = alphabet.subrange(0, k);
            let x = choose|x: int| 0 <= x < sub.len() && sub[x] == edges[j].symbol;
            assert(alphabet.subrange(0, k + 1)[x] == edges[j].symbol);
        }
    }
}

/// A row that is finished on every symbol is a finished row.
pub proof fn lemma_row_complete(
    words: Seq<UltimatelyPeriodicWord>,
    alphabet: Seq<char>,
    labels: Seq<Seq<char>>,
    edges: Seq<Edge<()>>,
    i: int,
)
    requires
        rows_done(words, alphabet, labels, edges, i, alphabet.len() as int),
        edges_tidy(alphabet, edges, i, alphabet.len() as int),
    ensures
        rows_done(words, alphabet, labels, edges, i + 1, 0),
        edges_tidy(alphabet, edges, i + 1, 0),
{
    assert forall|q: int, l: int|
        0 <= l < alphabet.len() && (0 <= q < i + 1 || (q == i + 1 && l < 0)) implies #[trigger] edge_matches(
        words,
        labels,
        edges,
        q,
        alphabet[l],
    ) by {
        assert(edge_matches(words, labels, edges, q, alphabet[l]));
    }
    assert forall|j: int| 0 <= j < edges.len() implies edge_allowed(
        alphabet,
        #[trigger] edges[j],
        i + 1,
        0,
    ) by {
        assert(edge_allowed(alphabet, edges[j], i, alphabet.len() as int));
        if edges[j].source == i {
            assert(alphabet.subrange(0, alphabet.len() as int) == alphabet);
        }
    }
}

/// Builds the prefix tree of `words` over `alphabet`, breadth first from the
/// empty class, with the symbols taken in the order of the alphabet.
pub fn prefix_tree(alphabet: Alphabet, words: &Vec<UltimatelyPeriodicWord>) -> (tree:
    RightCongruence)
    requires
        alphabet.wf(),
        words_wf(words@),
        separated(words@),
    ensures
        is_prefix_tree(&tree, alphabet@, words@),
{
    let ghost sigma = alphabet@;
    let symbols = alphabet.duplicate();
    let mut tree = RightCongruence::new(alphabet);
    let ghost total = words@.len() * (span(words@) + 1) + 1;
    let ghost mut origins: Seq<(int, int)> = seq![(0int, 0int)];
    let mut i: usize = 0;
    while i < tree.size()
        invariant
            origins_known(
                words@,
                sigma,
                tree.spec_labels(),
                tree.spec_edges(),
                origins,
                i as int,
                0,
            ),
            symbols@ == sigma,
            sigma.no_duplicates(),
            words_wf(words@),
            separated(words@),
            total == words@.len() * (span(words@) + 1) + 1,
            tree.wf(),
            tree.spec_alphabet() == sigma,
            i <= tree.spec_size(),
            tree.spec_labels().no_duplicates(),
            tree.spec_labels()[0] == Seq::<char>::empty(),
            labels_bounded(words@, tree.spec_labels()),
            forall|q: int|
                1 <= q < tree.spec_size() ==> #[trigger] discovered(
                    words@,
                    sigma,
                    tree.spec_labels(),
                    q,
                ),
            rows_done(words@, sigma, tree.spec_labels(), tree.spec_edges(), i as int, 0),
            edges_tidy(sigma, tree.spec_edges(), i as int, 0),
        decreases total - tree.spec_size(), tree.spec_size() - i,
    {
        proof {
            lemma_tree_size(words@, tree.spec_labels());
        }
        let ghost size_before = tree.spec_size();
        let label = tree.state_color(i).duplicate();
        let mut k: usize = 0;
        while k < symbols.size()
            invariant
                origins_known(
                    words@,
                    sigma,
                    tree.spec_labels(),
                    tree.spec_edges(),
                    origins,
                    i as int,
                    k as int,
                ),
                symbols@ == sigma,
                sigma.no_duplicates(),
                words_wf(words@),
                separated(words@),
                tree.wf(),
                tree.spec_alphabet() == sigma,
                i < tree.spec_size(),
                size_before <= tree.spec_size(),
                k <= sigma.len(),
                label@ == tree.spec_labels()[i as int],
                tree.spec_labels().no_duplicates(),
                tree.spec_labels()[0] == Seq::<char>::empty(),
                labels_bounded(words@, tree.spec_labels()),
                forall|q: int|
                    1 <= q < tree.spec_size() ==> #[trigger] discovered(
                        words@,
                        sigma,
                        tree.spec_labels(),
                        q,
                    ),
                rows_done(words@, sigma, tree.spec_labels(), tree.spec_edges(), i as int, k as int),
                edges_tidy(sigma, tree.spec_edges(), i as int, k as int),
            decreases sigma.len() - k,
        {
            let a = symbols.symbol(k);
            let next = prefix_successor(words, &label, a);
            let ghost labels_before = tree.spec_labels();
            let ghost edges_before = tree.spec_edges();
            let ghost mut fresh: bool = false;
            match next {
                None => {
                    proof {
                        lemma_rows_no_edge(
                            words@,
                            sigma,
                            tree.spec_labels(),
                            tree.spec_edges(),
                            i as int,
                            k as int,
                        );
                    }
                },
                Some(c) => {
                    let ghost cv = c@;
                    let ghost labels0 = tree.spec_labels();
                    proof {
                        assert(label@.len() <= span(words@)) by {
                            if i > 0 {
                                assert(labels_bounded(words@, labels0));
                            }
                        }
                        lemma_successor_bound(words@, label@, a);
                    }
                    let found = tree.class_to_index(&c);
                    let t: usize = match found {
                        Some(t) => t,
                        None => {
                            let t = tree.add_state(c);
                            proof {
                                fresh = true;
                                let labels1 = tree.spec_labels();
                                lemma_rows_keep_on_label(
                                    words@,
                                    sigma,
                                    labels0,
                                    tree.spec_edges(),
                                    i as int,
                                    k as int,
                                    cv,
                                );
                                assert(labels1.no_duplicates()) by {
                                    assert forall|x: int, y: int|
                                        0 <= x < labels1.len() && 0 <= y < labels1.len() && x
                                            != y implies labels1[x] != labels1[y] by {
                                        if x < labels0.len() && y < labels0.len() {
                                            assert(labels0[x] != labels0[y]);
                                        } else if x < labels0.len() {
                                            assert(labels0[x] == labels1[x]);
                                            if labels0[x] == cv {
                                                assert(labels0.contains(cv));
                                            }
                                        } else {
                                            assert(labels0[y] == labels1[y]);
                                            if labels0[y] == cv {
                                                assert(labels0.contains(cv));
                                            }
                                        }
                                    }
                                }
                                assert(labels_bounded(words@, labels1)) by {
                                    assert forall|q: int| 1 <= q < labels1.len() implies count_with_prefix(
                                        words@,
                                        #[trigger] labels1[q],
                                    ) >= 1 && labels1[q].len() <= span(words@) by {
                                        if q < labels0.len() {
                                            assert(labels1[q] == labels0[q]);
                                            assert(count_with_prefix(words@, labels0[q]) >= 1);
                                        }
                                    }
                                }
                                assert forall|q: int| 1 <= q < labels1.len() implies #[trigger] discovered(
                                    words@,
                                    sigma,
                                    labels1,
                                    q,
                                ) by {
                                    if q < labels0.len() {
                                        assert(discovered(words@, sigma, labels0, q));
                                        let (p, l) = choose|p: int, l: int|
                                            0 <= p < q && p < labels0.len() && 0 <= l
                                                < sigma.len() && #[trigger] tree_successor(
                                                words@,
                                                labels0[p],
                                                sigma[l],
                                            ) == Some(labels0[q]);
                                        assert(labels1[p] == labels0[p]);
                                        assert(labels1[q] == labels0[q]);
                                        assert(tree_successor(words@, labels1[p], sigma[l]) == Some(
                                            labels1[q],
                                        ));
                                    } else {
                                        assert(labels1[i as int] == label@);
                                        assert(tree_successor(
                                            words@,
                                            labels1[i as int],
                                            sigma[k as int],
                                        ) == Some(labels1[q]));
                                    }
                                }
                            }
                            t
                        },
                    };
                    proof {
                        assert(tree.spec_labels()[t as int] == cv);
                        assert(tree.spec_labels()[i as int] == label@);
                        lemma_rows_after_edge(
                            words@,
                            sigma,
                            tree.spec_labels(),
                            tree.spec_edges(),
                            i as int,
                            k as int,
                            Edge { source: i, symbol: a, target: t, color: () },
                        );
                    }
                    tree.add_edge(i, a, t);
                    proof {
                        let after = tree.spec_edges();
                        assert(after.drop_last() == edges_before);
                        assert(after.last().source == i && after.last().symbol == sigma[k as int]);
                        if fresh {
                            assert(tree.spec_labels().drop_last() == labels_before);
                            assert(tree.spec_labels().last() == cv);
                        } else {
                            assert(tree.spec_labels() == labels_before);
                        }
                    }
                },
            }
            proof {
                let origins_after = if fresh {
                    origins.push((i as int, k as int))
                } else {
                    origins
                };
                lemma_origins_step(
                    words@,
                    sigma,
                    labels_before,
                    edges_before,
                    origins,
                    i as int,
                    k as int,
                    tree.spec_labels(),
                    tree.spec_edges(),
                    origins_after,
                );
                origins = origins_after;
            }
            k = k + 1;
        }
        proof {
            lemma_row_complete(
                words@,
                sigma,
                tree.spec_labels(),
                tree.spec_edges(),
                i as int,
            );
            lemma_tree_size(words@, tree.spec_labels());
            assert(origins_known(
                words@,
                sigma,
                tree.spec_labels(),
                tree.spec_edges(),
                origins,
                i + 1,
                0,
            ));
        }
        i = i + 1;
    }
    proof {
        let edges = tree.spec_edges();
        let n = tree.spec_size() as int;
        assert(tree.spec_deterministic()) by {
            assert forall|j: int| 0 <= j < edges.len() implies sigma.contains(
                (#[trigger] edges[j]).symbol,
            ) by {
                assert(edge_allowed(sigma, edges[j], n, 0));
                assert(edges[j].source < n);
            }
        }
        assert forall|q: int| 1 <= q < tree.spec_size() implies count_with_prefix(
            words@,
            #[trigger] tree.spec_labels()[q],
        ) >= 1 by {
            assert(labels_bounded(words@, tree.spec_labels()));
        }
        assert forall|q: int| 1 <= q < tree.spec_size() implies #[trigger] numbered_by_discovery(
            words@,
            sigma,
            tree.spec_labels(),
            edges,
            q,
        ) by {
            let p = origins[q].0;
            let k = origins[q].1;
            assert(found_first_from(words@, sigma, tree.spec_labels(), edges, p, k, q));
            assert(tree_successor(words@, tree.spec_labels()[p], sigma[k]) == Some(
                tree.spec_labels()[q],
            ));
        }
    }
    tree
}

/// Whether every word of `words` is well formed.
pub fn all_well_formed(words: &Vec<UltimatelyPeriodicWord>) -> (b: bool)
    ensures
        b == words_wf(words@),
{
    let mut i: usize = 0;
    while i < words.len()
        invariant
            i <= words@.len(),
            forall|j: int| 0 <= j < i ==> (#[trigger] words@[j]).wf(),
        decreases words@.len() - i,
    {
        if !words[i].is_well_formed() {
            return false;
        }
        i = i + 1;
    }
    true
}

/// Whether no two entries of `words` stand for the same infinite word.
pub fn is_separated(words: &Vec<UltimatelyPeriodicWord>) -> (b: bool)
    requires
        words_wf(words@),
    ensures
        b == separated(words@),
{
    let mut j: usize = 0;
    while j < words.len()
        invariant
            words_wf(words@),
            j <= words@.len(),
            forall|x: int, y: int|
                #![trigger words@[x], words@[y]]
                0 <= x < y < j ==> !words@[x].same_word(&words@[y]),
        decreases words@.len() - j,
    {
        let mut i: usize = 0;
        while i < j
            invariant
                words_wf(words@),
                j < words@.len(),
                i <= j,
                forall|x: int, y: int|
                    #![trigger words@[x], words@[y]]
                    0 <= x < y < j ==> !words@[x].same_word(&words@[y]),
                forall|x: int| 0 <= x < i ==> !(#[trigger] words@[x]).same_word(&words@[j as int]),
            decreases j - i,
        {
            if words[i].denotes_same(&words[j]) {
                return false;
            }
            i = i + 1;
        }
        j = j + 1;
    }
    true
}

} // verus!
