//! Deterministic finite automata: transition systems whose states are marked
//! as accepting or not, with an initial state.

use crate::alphabet::Alphabet;
use crate::class::Class;
use crate::congruence::RightCongruence;
use crate::index_ts::{lemma_run_in_range, run, Edge, IndexTS};
use crate::prefix_tree::{is_prefix_tree, prefix_tree, separated, words_wf, Prefixes};
use crate::words::UltimatelyPeriodicWord;
use vstd::prelude::*;

verus! {

/// A deterministic finite automaton. It accepts a word if the run on it from
/// the initial state ends in an accepting state.
#[derive(Clone, Debug, PartialEq, Eq)]
pub struct DFA {
    ts: IndexTS<bool, ()>,
    initial: usize,
}

impl DFA {
    /// The transition system; the colour of a state says whether it accepts.
    pub closed spec fn spec_ts(&self) -> IndexTS<bool, ()> {
        self.ts
    }

    /// The initial state.
    pub closed spec fn spec_initial(&self) -> usize {
        self.initial
    }

    /// The structure is well formed and the initial state is one of its
    /// states.
    pub open spec fn wf(&self) -> bool {
        &&& self.spec_ts().wf()
        &&& self.spec_initial() < self.spec_ts().spec_size()
    }

    /// The state reached from the initial state by reading `word`, if every
    /// step is taken.
    pub open spec fn spec_reached(&self, word: Seq<char>) -> Option<int> {
        run(self.spec_ts().spec_edges(), self.spec_initial() as int, word)
    }

    /// Whether `word` is accepted: whether its run ends, and ends in an
    /// accepting state.
    pub open spec fn spec_accepts(&self, word: Seq<char>) -> bool {
        match self.spec_reached(word) {
            Some(t) => 0 <= t < self.spec_ts().spec_size() && self.spec_ts().spec_states()[t],
            None => false,
        }
    }

    /// The automaton with the structure `ts` and the initial state `initial`.
    pub fn from_parts(ts: IndexTS<bool, ()>, initial: usize) -> (dfa: DFA)
        requires
            ts.wf(),
            initial < ts.spec_size(),
        ensures
            dfa.wf(),
            dfa.spec_ts() == ts,
            dfa.spec_initial() == initial,
    {
        DFA { ts, initial }
    }

    /// The automaton over `alphabet` with one state, which is initial and
    /// does not accept, and no edge.
    pub fn new(alphabet: Alphabet) -> (dfa: DFA)
        requires
            alphabet.wf(),
        ensures
            dfa.wf(),
            dfa.spec_initial() == 0,
            dfa.spec_ts().spec_alphabet() == alphabet@,
            dfa.spec_ts().spec_states() == seq![false],
            dfa.spec_ts().spec_edges() == Seq::<Edge<()>>::empty(),
    {
        let mut ts: IndexTS<bool, ()> = IndexTS::new(alphabet);
        ts.add_state(false);
        assert(ts.spec_states() =~= seq![false]);
        DFA { ts, initial: 0 }
    }

    /// Adds a state that accepts if `accepting` holds, and returns its number.
    pub fn add_state(&mut self, accepting: bool) -> (index: usize)
        ensures
            index == old(self).spec_ts().spec_size(),
            final(self).spec_initial() == old(self).spec_initial(),
            final(self).spec_ts().spec_states() == old(self).spec_ts().spec_states().push(
                accepting,
            ),
            final(self).spec_ts().spec_edges() == old(self).spec_ts().spec_edges(),
            final(self).spec_ts().spec_alphabet() == old(self).spec_ts().spec_alphabet(),
            old(self).wf() ==> final(self).wf(),
    {
        self.ts.add_state(accepting)
    }

    /// Adds an edge from `from` to `to` on `on`. Both states must exist.
    pub fn add_edge(&mut self, from: usize, on: char, to: usize) -> (place: usize)
        requires
            from < old(self).spec_ts().spec_size(),
            to < old(self).spec_ts().spec_size(),
        ensures
            place == old(self).spec_ts().spec_edges().len(),
            final(self).spec_initial() == old(self).spec_initial(),
            final(self).spec_ts().spec_edges() == old(self).spec_ts().spec_edges().push(
                Edge { source: from, symbol: on, target: to, color: () },
            ),
            final(self).spec_ts().spec_states() == old(self).spec_ts().spec_states(),
            final(self).spec_ts().spec_alphabet() == old(self).spec_ts().spec_alphabet(),
            old(self).wf() ==> final(self).wf(),
    {
        self.ts.add_edge(from, on, to, ())
    }

    /// The transition system.
    pub fn ts(&self) -> (ts: &IndexTS<bool, ()>)
        ensures
            *ts == self.spec_ts(),
    {
        &self.ts
    }

    /// The initial state.
    pub fn initial(&self) -> (state: usize)
        ensures
            state == self.spec_initial(),
    {
        self.initial
    }

    /// Number of states.
    pub fn size(&self) -> (n: usize)
        ensures
            n == self.spec_ts().spec_size(),
    {
        self.ts.size()
    }

    /// Whether the word `symbols` is accepted.
    pub fn accepts_word(&self, symbols: &Vec<char>) -> (b: bool)
        requires
            self.wf(),
        ensures
            b == self.spec_accepts(symbols@),
    {
        match self.ts.reached_from(self.initial, symbols) {
            Some(t) => {
                proof {
                    lemma_run_in_range(
                        self.spec_ts().spec_edges(),
                        self.spec_ts().spec_size(),
                        self.spec_initial() as int,
                        symbols@,
                    );
                }
                *self.ts.state_color(t)
            },
            None => false,
        }
    }

    /// Whether the word spelled by `text` is accepted.
    pub fn accepts(&self, text: &str) -> (b: bool)
        requires
            self.wf(),
        ensures
            b == self.spec_accepts(text@),
    {
        let word = Class::from_text(text);
        self.accepts_word(&word.0)
    }

    /// Builds the negation of the automaton by swapping accepting and
    /// non-accepting states.
    pub fn negation(&self) -> (dfa: DFA)
        requires
            self.wf(),
        ensures
            dfa.wf(),
            dfa.spec_initial() == self.spec_initial(),
            dfa.spec_ts().spec_alphabet() == self.spec_ts().spec_alphabet(),
            dfa.spec_ts().spec_edges() == self.spec_ts().spec_edges(),
            dfa.spec_ts().spec_states() == self.spec_ts().spec_states().map_values(|b: bool| !b),
            forall|word: Seq<char>|
                #[trigger] dfa.spec_accepts(word) == (self.spec_reached(word) is Some
                    && !self.spec_accepts(word)),
    {
        let n = self.ts.size();
        let mut colors: Vec<bool> = Vec::new();
        let mut i: usize = 0;
        while i < n
            invariant
                n == self.spec_ts().spec_size(),
                i <= n,
                colors@ == self.spec_ts().spec_states().subrange(0, i as int).map_values(
                    |b: bool| !b,
                ),
            decreases n - i,
        {
            colors.push(!*self.ts.state_color(i));
            assert(colors@ =~= self.spec_ts().spec_states().subrange(0, i + 1).map_values(
                |b: bool| !b,
            ));
            i = i + 1;
        }
        assert(self.spec_ts().spec_states().subrange(0, n as int) == self.spec_ts().spec_states());
        let ts = self.ts.recolored(colors);
        let dfa = DFA { ts, initial: self.initial };
        proof {
            assert forall|word: Seq<char>|
                #[trigger] dfa.spec_accepts(word) == (self.spec_reached(word) is Some
                    && !self.spec_accepts(word)) by {
                lemma_run_in_range(
                    self.spec_ts().spec_edges(),
                    self.spec_ts().spec_size(),
                    self.spec_initial() as int,
                    word,
                );
            }
        }
        dfa
    }
}

/// The automaton that accepts exactly the words on which `tree` has a run:
/// the structure of `tree` with every state accepting.
pub fn all_accepting(tree: &RightCongruence) -> (dfa: DFA)
    requires
        tree.wf(),
    ensures
        dfa.wf(),
        dfa.spec_initial() == 0,
        dfa.spec_ts().spec_alphabet() == tree.spec_alphabet(),
        dfa.spec_ts().spec_edges() == tree.spec_edges(),
        dfa.spec_ts().spec_states() == Seq::new(tree.spec_size(), |i: int| true),
        forall|word: Seq<char>| #[trigger] dfa.spec_accepts(word) == tree.spec_reached(word) is Some,
{
    let n = tree.size();
    let mut colors: Vec<bool> = Vec::new();
    let mut i: usize = 0;
    while i < n
        invariant
            n == tree.spec_size(),
            i <= n,
            colors@ == Seq::new(i as nat, |i: int| true),
        decreases n - i,
    {
        colors.push(true);
        assert(colors@ =~= Seq::new((i + 1) as nat, |i: int| true));
        i = i + 1;
    }
    let ts = tree.ts().recolored(colors);
    let dfa = DFA { ts, initial: 0 };
    proof {
        assert forall|word: Seq<char>|
            #[trigger] dfa.spec_accepts(word) == tree.spec_reached(word) is Some by {
            lemma_run_in_range(tree.spec_edges(), tree.spec_size(), 0, word);
        }
    }
    dfa
}

/// The state `s` is named by the parts of an automaton: it is the initial
/// state, an accepting state, or an end of a transition.
pub open spec fn mentioned(
    edges: Seq<(usize, char, usize)>,
    accepting: Seq<usize>,
    initial: usize,
    s: usize,
) -> bool {
    s == initial || accepting.contains(s) || exists|j: int|
        0 <= j < edges.len() && ((#[trigger] edges[j]).0 == s || edges[j].2 == s)
}

/// The edge that the transition `t` stands for.
pub open spec fn edge_of(t: (usize, char, usize)) -> Edge<()> {
    Edge { source: t.0, symbol: t.1, target: t.2, color: () }
}

/// Whether `s` stands in `list`.
pub fn lists_index(list: &Vec<usize>, s: usize) -> (b: bool)
    ensures
        b == list@.contains(s),
{
    let mut i: usize = 0;
    while i < list.len()
        invariant
            i <= list@.len(),
            forall|j: int| 0 <= j < i ==> list@[j] != s,
        decreases list@.len() - i,
    {
        if list[i] == s {
            return true;
        }
        i = i + 1;
    }
    false
}

impl DFA {
    /// The automaton with the given transitions `(from, on, to)`, accepting
    /// states and initial state. Its states are numbered from 0 up to the
    /// greatest state that is named; its alphabet holds the symbols of the
    /// transitions in order of first occurrence; of two transitions from one
    /// state on one symbol the first counts.
    pub fn from_parts_iters(
        edges: Vec<(usize, char, usize)>,
        accepting: Vec<usize>,
        initial: usize,
    ) -> (dfa: DFA)
        requires
            forall|s: usize| mentioned(edges@, accepting@, initial, s) ==> s < usize::MAX,
        ensures
            dfa.wf(),
            dfa.spec_initial() == initial,
            forall|s: usize|
                mentioned(edges@, accepting@, initial, s) ==> s < dfa.spec_ts().spec_size(),
            dfa.spec_ts().spec_size() > 0 && mentioned(
                edges@,
                accepting@,
                initial,
                (dfa.spec_ts().spec_size() - 1) as usize,
            ),
            forall|i: int|
                0 <= i < dfa.spec_ts().spec_size() ==> #[trigger] dfa.spec_ts().spec_states()[i]
                    == accepting@.contains(i as usize),
            dfa.spec_ts().spec_edges() == edges@.map_values(|t: (usize, char, usize)| edge_of(t)),
            dfa.spec_ts().spec_alphabet() == crate::alphabet::first_occurrences(
                edges@.map_values(|t: (usize, char, usize)| t.1),
            ),
    {
        let mut top: usize = initial;
        let mut symbols: Vec<char> = Vec::new();
        let mut i: usize = 0;
        while i < edges.len()
            invariant
                i <= edges@.len(),
                mentioned(edges@, accepting@, initial, top),
                top >= initial,
                forall|j: int| 0 <= j < i ==> (#[trigger] edges@[j]).0 <= top && edges@[j].2 <= top,
                symbols@ == edges@.subrange(0, i as int).map_values(
                    |t: (usize, char, usize)| t.1,
                ),
            decreases edges@.len() - i,
        {
            if edges[i].0 > top {
                top = edges[i].0;
            }
            if edges[i].2 > top {
                top = edges[i].2;
            }
            symbols.push(edges[i].1);
            assert(symbols@ =~= edges@.subrange(0, i + 1).map_values(
                |t: (usize, char, usize)| t.1,
            ));
            i = i + 1;
        }
        assert(edges@.subrange(0, edges@.len() as int) == edges@);
        let mut i: usize = 0;
        while i < accepting.len()
            invariant
                i <= accepting@.len(),
                mentioned(edges@, accepting@, initial, top),
                top >= initial,
                forall|j: int|
                    0 <= j < edges@.len() ==> (#[trigger] edges@[j]).0 <= top && edges@[j].2 <= top,
                forall|j: int| 0 <= j < i ==> accepting@[j] <= top,
            decreases accepting@.len() - i,
        {
            if accepting[i] > top {
                top = accepting[i];
                assert(accepting@.contains(top));
            }
            i = i + 1;
        }
        assert forall|s: usize| mentioned(edges@, accepting@, initial, s) implies s <= top by {
            if accepting@.contains(s) {
                let j = choose|j: int| 0 <= j < accepting@.len() && accepting@[j] == s;
                assert(accepting@[j] <= top);
            }
        }
        let size: usize = top + 1;
        let alphabet = crate::alphabet::Alphabet::from_symbols(symbols);
        let mut ts: IndexTS<bool, ()> = IndexTS::new(alphabet);
        let mut q: usize = 0;
        while q < size
            invariant
                q <= size,
                ts.wf(),
                ts.spec_alphabet() == crate::alphabet::first_occurrences(
                    edges@.map_values(|t: (usize, char, usize)| t.1),
                ),
                ts.spec_edges() == Seq::<Edge<()>>::empty(),
                ts.spec_states().len() == q,
                forall|x: int|
                    0 <= x < q ==> #[trigger] ts.spec_states()[x] == accepting@.contains(
                        x as usize,
                    ),
            decreases size - q,
        {
            ts.add_state(lists_index(&accepting, q));
            q = q + 1;
        }
        let ghost colors = ts.spec_states();
        let mut i: usize = 0;
        while i < edges.len()
            invariant
                i <= edges@.len(),
                size == top + 1,
                forall|j: int|
                    0 <= j < edges@.len() ==> (#[trigger] edges@[j]).0 <= top && edges@[j].2 <= top,
                ts.wf(),
                ts.spec_alphabet() == crate::alphabet::first_occurrences(
                    edges@.map_values(|t: (usize, char, usize)| t.1),
                ),
                ts.spec_states() == colors,
                colors.len() == size,
                ts.spec_edges() == edges@.subrange(0, i as int).map_values(
                    |t: (usize, char, usize)| edge_of(t),
                ),
            decreases edges@.len() - i,
        {
            assert(edges@[i as int].0 <= top);
            let t = edges[i];
            let ghost before = ts.spec_edges();
            ts.add_edge(t.0, t.1, t.2, ());
            assert(ts.spec_edges().last() == edge_of(t));
            assert(ts.spec_edges().drop_last() == before);
            assert(ts.spec_edges() =~= edges@.subrange(0, i + 1).map_values(
                |t: (usize, char, usize)| edge_of(t),
            ));
            i = i + 1;
        }
        assert(edges@.subrange(0, edges@.len() as int) == edges@);
        DFA { ts, initial }
    }
}

/// `dfa` is `tree` with every state accepting, and state 0 initial.
pub open spec fn accepts_all_of(dfa: &DFA, tree: &RightCongruence) -> bool {
    &&& dfa.spec_initial() == 0
    &&& dfa.spec_ts().spec_alphabet() == tree.spec_alphabet()
    &&& dfa.spec_ts().spec_edges() == tree.spec_edges()
    &&& dfa.spec_ts().spec_states() == Seq::new(tree.spec_size(), |i: int| true)
}

/// The automaton of the finite prefixes of the words of `set`, over the
/// symbols that occur in them: the prefix tree of `set` with every state
/// accepting. It accepts a word exactly if the prefix tree has a run on it.
pub fn prefix_acceptor(set: &Vec<UltimatelyPeriodicWord>) -> (dfa: DFA)
    requires
        words_wf(set@),
        separated(set@),
    ensures
        dfa.wf(),
        exists|tree: RightCongruence|
            is_prefix_tree(
                &tree,
                crate::alphabet::first_occurrences(
                    crate::prefix_tree::symbols_of(set@, set@.len() as int),
                ),
                set@,
            ) && #[trigger] accepts_all_of(&dfa, &tree) && forall|word: Seq<char>|
                #[trigger] dfa.spec_accepts(word) == tree.spec_reached(word) is Some,
{
    let prefixes = Prefixes::new(set);
    let tree = prefix_tree(prefixes.alphabet().duplicate(), set);
    let dfa = all_accepting(&tree);
    assert(accepts_all_of(&dfa, &tree));
    dfa
}

impl RightCongruence {
    /// The automaton of the words that lead from the class `class` back to
    /// it: the structure of the congruence, with the states labelled `class`
    /// accepting and the first of them initial. The class must be one of the
    /// congruence.
    pub fn looping_words(&self, class: &Class) -> (dfa: DFA)
        requires
            self.wf(),
            self.spec_labels().contains(class@),
        ensures
            dfa.wf(),
            dfa.spec_initial() < self.spec_size(),
            self.spec_labels()[dfa.spec_initial() as int] == class@,
            forall|j: int| 0 <= j < dfa.spec_initial() ==> self.spec_labels()[j] != class@,
            dfa.spec_ts().spec_alphabet() == self.spec_alphabet(),
            dfa.spec_ts().spec_edges() == self.spec_edges(),
            dfa.spec_ts().spec_states() == self.spec_labels().map_values(
                |label: Seq<char>| label == class@,
            ),
    {
        let n = self.size();
        let mut colors: Vec<bool> = Vec::new();
        let mut i: usize = 0;
        while i < n
            invariant
                n == self.spec_size(),
                i <= n,
                colors@ == self.spec_labels().subrange(0, i as int).map_values(
                    |label: Seq<char>| label == class@,
                ),
            decreases n - i,
        {
            colors.push(self.state_color(i).same(class));
            assert(colors@ =~= self.spec_labels().subrange(0, i + 1).map_values(
                |label: Seq<char>| label == class@,
            ));
            i = i + 1;
        }
        assert(self.spec_labels().subrange(0, n as int) == self.spec_labels());
        let ts = self.ts().recolored(colors);
        match self.class_to_index(class) {
            Some(initial) => DFA { ts, initial },
            None => {
                assert(false);
                DFA { ts, initial: 0 }
            },
        }
    }
}

/// The number that state `s` gets in a congruence whose state 0 stands for
/// `initial`: the other states keep their order.
pub open spec fn renumbered(initial: usize, s: usize) -> usize {
    if s == initial {
        0
    } else if s < initial {
        (s + 1) as usize
    } else {
        s
    }
}

/// The edge `e` between the renumbered states.
pub open spec fn renumbered_edge(initial: usize, e: Edge<()>) -> Edge<()> {
    Edge {
        source: renumbered(initial, e.source),
        symbol: e.symbol,
        target: renumbered(initial, e.target),
        color: (),
    }
}

/// The number that state `s` gets in a congruence whose state 0 stands for
/// `initial`.
pub fn renumber(initial: usize, s: usize) -> (t: usize)
    requires
        s < usize::MAX,
    ensures
        t == renumbered(initial, s),
{
    if s == initial {
        0
    } else if s < initial {
        s + 1
    } else {
        s
    }
}

impl DFA {
    /// Creates a right congruence from the transition structure of `self`.
    /// Returns the congruence together with the number that each state has in
    /// it: the initial state becomes state 0, the others keep their order. A
    /// state that a run reaches is named by a shortest word that leads to it,
    /// any other by the empty class.
    pub fn build_right_congruence(&self) -> (result: (RightCongruence, Vec<usize>))
        requires
            self.wf(),
        ensures
            result.0.wf(),
            result.0.spec_alphabet() == self.spec_ts().spec_alphabet(),
            result.0.spec_size() == self.spec_ts().spec_size(),
            result.1@.len() == self.spec_ts().spec_size(),
            forall|s: int|
                0 <= s < result.1@.len() ==> #[trigger] result.1@[s] == renumbered(
                    self.spec_initial(),
                    s as usize,
                ),
            result.0.spec_edges() == self.spec_ts().spec_edges().map_values(
                |e: Edge<()>| renumbered_edge(self.spec_initial(), e),
            ),
            forall|t: int|
                0 <= t < result.0.spec_size() ==> if crate::reach::reachable(
                    result.0.spec_edges(),
                    0,
                    t,
                ) {
                    run(result.0.spec_edges(), 0, #[trigger] result.0.spec_labels()[t]) == Some(t)
                } else {
                    result.0.spec_labels()[t] == Seq::<char>::empty()
                },
            forall|t: int, word: Seq<char>|
                0 <= t < result.0.spec_size() && #[trigger] run(result.0.spec_edges(), 0, word)
                    == Some(t) ==> (#[trigger] result.0.spec_labels()[t]).len() <= word.len(),
    {
        let n = self.ts.size();
        let initial = self.initial;
        let mut cong = RightCongruence::new(self.ts.alphabet().duplicate());
        let mut map: Vec<usize> = Vec::new();
        let mut s: usize = 0;
        while s < n
            invariant
                s <= n,
                map@.len() == s,
                forall|x: int| 0 <= x < s ==> #[trigger] map@[x] == renumbered(initial, x as usize),
            decreases n - s,
        {
            map.push(renumber(initial, s));
            s = s + 1;
        }
        assert(cong.spec_labels() =~= Seq::new(1, |i: int| Seq::<char>::empty()));
        assert(cong.spec_labels().len() == cong.spec_size());
        while cong.size() < n
            invariant
                self.wf(),
                n == self.spec_ts().spec_size(),
                cong.wf(),
                cong.spec_alphabet() == self.spec_ts().spec_alphabet(),
                cong.spec_edges() == Seq::<Edge<()>>::empty(),
                cong.spec_size() <= n,
                cong.spec_labels() == Seq::new(cong.spec_size(), |i: int| Seq::<char>::empty()),
            decreases n - cong.spec_size(),
        {
            let ghost before = cong.spec_size();
            assert(cong.spec_labels().len() == before);
            cong.add_state(Class::epsilon());
            assert(cong.spec_labels().len() == before + 1);
            assert(cong.spec_labels() =~= Seq::new(
                (before + 1) as nat,
                |i: int| Seq::<char>::empty(),
            ));
        }
        assert(cong.spec_labels().len() == cong.spec_size());
        let ghost blank = cong.spec_labels();
        let m = self.ts.edge_count();
        let mut k: usize = 0;
        while k < m
            invariant
                self.wf(),
                n == self.spec_ts().spec_size(),
                initial == self.spec_initial(),
                m == self.spec_ts().spec_edges().len(),
                k <= m,
                cong.wf(),
                cong.spec_alphabet() == self.spec_ts().spec_alphabet(),
                blank.len() == n,
                cong.spec_labels() == blank,
                cong.spec_edges() == self.spec_ts().spec_edges().subrange(0, k as int).map_values(
                    |e: Edge<()>| renumbered_edge(self.spec_initial(), e),
                ),
            decreases m - k,
        {
            let e = self.ts.edge(k);
            assert(crate::index_ts::edges_in_range(
                self.spec_ts().spec_edges(),
                self.spec_ts().spec_size(),
            ));
            assert(self.spec_ts().spec_edges()[k as int].source < n);
            let from = renumber(initial, e.source);
            let to = renumber(initial, e.target);
            let ghost before = cong.spec_edges();
            assert(cong.spec_labels().len() == cong.spec_size());
            cong.add_edge(from, e.symbol, to);
            assert(cong.spec_edges().last() == renumbered_edge(initial, e));
            assert(cong.spec_edges().drop_last() == before);
            assert(cong.spec_edges() =~= self.spec_ts().spec_edges().subrange(
                0,
                k + 1,
            ).map_values(|e: Edge<()>| renumbered_edge(self.spec_initial(), e)));
            k = k + 1;
        }
        assert(self.spec_ts().spec_edges().subrange(0, m as int) == self.spec_ts().spec_edges());
        assert(cong.spec_labels().len() == cong.spec_size());
        cong.recompute_labels();
        (cong, map)
    }
}

} // verus!
