//! The product of two automata: union and intersection.

use crate::dfa::DFA;
use crate::index_ts::{
    lemma_run_in_range, lemma_taken_edge, run, step, taken_edge, Edge, IndexTS,
};
use crate::reach::{joint_run, jointly_reachable, lists_pair, reachable_pairs};
use vstd::prelude::*;

verus! {

/// Where both systems step to from `pair` on `a`, if both do.
pub open spec fn joint_step<C1, C2>(
    left: Seq<Edge<C1>>,
    right: Seq<Edge<C2>>,
    pair: (usize, usize),
    a: char,
) -> Option<(int, int)> {
    match (step(left, pair.0 as int, a), step(right, pair.1 as int, a)) {
        (Some(t1), Some(t2)) => Some((t1, t2)),
        _ => None,
    }
}

/// The edge `e` of the product joins two listed pairs, and follows the joint
/// step of the two systems.
pub open spec fn product_edge_sound<C1, C2>(
    left: Seq<Edge<C1>>,
    right: Seq<Edge<C2>>,
    pairs: Seq<(usize, usize)>,
    e: Edge<()>,
) -> bool {
    &&& e.source < pairs.len()
    &&& e.target < pairs.len()
    &&& joint_step(left, right, pairs[e.source as int], e.symbol) == Some(
        (pairs[e.target as int].0 as int, pairs[e.target as int].1 as int),
    )
}

/// Some edge of `edges` leaves `k` on `a`.
pub open spec fn has_edge_for(edges: Seq<Edge<()>>, k: int, a: char) -> bool {
    exists|j: int| 0 <= j < edges.len() && (#[trigger] edges[j]).source == k && edges[j].symbol == a
}

/// `edges` are the edges of the product on the first `rows` pairs: every edge
/// follows a joint step, and every joint step from one of these pairs has an
/// edge.
pub open spec fn product_rows<C1, C2>(
    left: Seq<Edge<C1>>,
    right: Seq<Edge<C2>>,
    pairs: Seq<(usize, usize)>,
    edges: Seq<Edge<()>>,
    rows: int,
) -> bool {
    &&& forall|j: int|
        0 <= j < edges.len() ==> product_edge_sound(left, right, pairs, #[trigger] edges[j])
    &&& forall|k: int, a: char|
        0 <= k < rows && (#[trigger] joint_step(left, right, pairs[k], a)) is Some ==> has_edge_for(
            edges,
            k,
            a,
        )
}

/// A run of the product is a joint run of the two systems, and where the
/// product has none, one of them has none.
pub proof fn lemma_product_run<C1, C2>(
    left: Seq<Edge<C1>>,
    right: Seq<Edge<C2>>,
    pairs: Seq<(usize, usize)>,
    edges: Seq<Edge<()>>,
    word: Seq<char>,
)
    requires
        pairs.len() > 0,
        product_rows(left, right, pairs, edges, pairs.len() as int),
    ensures
        match run(edges, 0, word) {
            Some(k) => 0 <= k < pairs.len() && joint_run(
                left,
                right,
                pairs[0].0 as int,
                pairs[0].1 as int,
                word,
                pairs[k].0 as int,
                pairs[k].1 as int,
            ),
            None => run(left, pairs[0].0 as int, word) is None || run(
                right,
                pairs[0].1 as int,
                word,
            ) is None,
        },
    decreases word.len(),
{
    if word.len() > 0 {
        let init = word.drop_last();
        let a = word.last();
        lemma_product_run(left, right, pairs, edges, init);
        match run(edges, 0, init) {
            Some(k) => {
                lemma_taken_edge(edges, k, a);
                match taken_edge(edges, k, a) {
                    Some(j) => {
                        assert(product_edge_sound(left, right, pairs, edges[j]));
                    },
                    None => {
                        if joint_step(left, right, pairs[k], a) is Some {
                            assert(has_edge_for(edges, k, a));
                        }
                    },
                }
            },
            None => {},
        }
    }
}

/// Place of the pair `(p, q)` in `pairs`.
pub fn index_of_pair(pairs: &Vec<(usize, usize)>, p: usize, q: usize) -> (place: Option<usize>)
    ensures
        match place {
            Some(i) => i < pairs@.len() && pairs@[i as int] == (p, q),
            None => !lists_pair(pairs@, p as int, q as int),
        },
{
    let mut k: usize = 0;
    while k < pairs.len()
        invariant
            k <= pairs@.len(),
            forall|j: int| 0 <= j < k ==> pairs@[j] != (p, q),
        decreases pairs@.len() - k,
    {
        if pairs[k].0 == p && pairs[k].1 == q {
            return Some(k);
        }
        k = k + 1;
    }
    None
}

/// How an automaton that runs two automata side by side accepts.
#[derive(Clone, Copy, Debug, PartialEq, Eq, Structural)]
pub enum Combine {
    /// Accept where one of the two accepts.
    Either,
    /// Accept where both accept.
    Both,
    /// Accept where exactly one of the two accepts.
    Differ,
}

impl Combine {
    /// Whether the pair accepts, given whether its parts do.
    pub open spec fn spec_apply(self, a: bool, b: bool) -> bool {
        match self {
            Combine::Either => a || b,
            Combine::Both => a && b,
            Combine::Differ => a != b,
        }
    }

    /// Whether the pair accepts, given whether its parts do.
    pub fn apply(self, a: bool, b: bool) -> (c: bool)
        ensures
            c == self.spec_apply(a, b),
    {
        match self {
            Combine::Either => a || b,
            Combine::Both => a && b,
            Combine::Differ => a != b,
        }
    }
}

/// What the product of `left` and `right` accepts: the words on which both
/// have a run, and whose two runs end in states that `how` accepts together.
pub open spec fn product_accepts(left: &DFA, right: &DFA, how: Combine, word: Seq<char>) -> bool {
    match (left.spec_reached(word), right.spec_reached(word)) {
        (Some(t1), Some(t2)) => 0 <= t1 < left.spec_ts().spec_size() && 0 <= t2
            < right.spec_ts().spec_size() && how.spec_apply(
            left.spec_ts().spec_states()[t1],
            right.spec_ts().spec_states()[t2],
        ),
        _ => false,
    }
}

/// The product of `left` and `right`: its states are the pairs of states that
/// a common word reaches, the pair of the initial states first; it steps where
/// both step.
pub fn product(left: &DFA, right: &DFA, how: Combine) -> (dfa: DFA)
    requires
        left.wf(),
        right.wf(),
    ensures
        dfa.wf(),
        dfa.spec_initial() == 0,
        dfa.spec_ts().spec_alphabet() == left.spec_ts().spec_alphabet(),
        forall|word: Seq<char>|
            #[trigger] dfa.spec_accepts(word) == product_accepts(left, right, how, word),
{
    let pairs = reachable_pairs(left.ts(), right.ts(), left.initial(), right.initial());
    let ghost le = left.spec_ts().spec_edges();
    let ghost re = right.spec_ts().spec_edges();
    let ghost n1 = left.spec_ts().spec_size();
    let ghost n2 = right.spec_ts().spec_size();
    let mut ts: IndexTS<bool, ()> = IndexTS::new(left.ts().alphabet().duplicate());
    let mut k: usize = 0;
    while k < pairs.len()
        invariant
            k <= pairs@.len(),
            n1 == left.spec_ts().spec_size(),
            n2 == right.spec_ts().spec_size(),
            forall|x: int|
                0 <= x < pairs@.len() ==> (#[trigger] pairs@[x]).0 < n1 && pairs@[x].1 < n2,
            ts.wf(),
            ts.spec_alphabet() == left.spec_ts().spec_alphabet(),
            ts.spec_edges() == Seq::<Edge<()>>::empty(),
            ts.spec_states().len() == k,
            forall|x: int|
                0 <= x < k ==> #[trigger] ts.spec_states()[x] == how.spec_apply(
                    left.spec_ts().spec_states()[pairs@[x].0 as int],
                    right.spec_ts().spec_states()[pairs@[x].1 as int],
                ),
        decreases pairs@.len() - k,
    {
        let c1 = *left.ts().state_color(pairs[k].0);
        let c2 = *right.ts().state_color(pairs[k].1);
        ts.add_state(how.apply(c1, c2));
        k = k + 1;
    }
    let ghost colors = ts.spec_states();
    let total = left.ts().edge_count();
    let mut k: usize = 0;
    while k < pairs.len()
        invariant
            left.wf(),
            right.wf(),
            le == left.spec_ts().spec_edges(),
            re == right.spec_ts().spec_edges(),
            n1 == left.spec_ts().spec_size(),
            n2 == right.spec_ts().spec_size(),
            total == le.len(),
            k <= pairs@.len(),
            forall|x: int|
                0 <= x < pairs@.len() ==> (#[trigger] pairs@[x]).0 < n1 && pairs@[x].1 < n2,
            forall|p: int, q: int|
                lists_pair(pairs@, p, q) <==> jointly_reachable(
                    le,
                    re,
                    pairs@[0].0 as int,
                    pairs@[0].1 as int,
                    p,
                    q,
                ),
            pairs@.len() > 0,
            ts.wf(),
            ts.spec_alphabet() == left.spec_ts().spec_alphabet(),
            ts.spec_states() == colors,
            colors.len() == pairs@.len(),
            product_rows(le, re, pairs@, ts.spec_edges(), k as int),
        decreases pairs@.len() - k,
    {
        let p = pairs[k].0;
        let q = pairs[k].1;
        let mut i: usize = 0;
        while i < total
            invariant
                left.wf(),
                right.wf(),
                le == left.spec_ts().spec_edges(),
                re == right.spec_ts().spec_edges(),
                n1 == left.spec_ts().spec_size(),
                n2 == right.spec_ts().spec_size(),
                total == le.len(),
                i <= total,
                k < pairs@.len(),
                pairs@[k as int] == (p, q),
                forall|x: int|
                    0 <= x < pairs@.len() ==> (#[trigger] pairs@[x]).0 < n1 && pairs@[x].1 < n2,
                forall|p: int, q: int|
                    lists_pair(pairs@, p, q) <==> jointly_reachable(
                        le,
                        re,
                        pairs@[0].0 as int,
                        pairs@[0].1 as int,
                        p,
                        q,
                    ),
                pairs@.len() > 0,
                ts.wf(),
                ts.spec_alphabet() == left.spec_ts().spec_alphabet(),
                ts.spec_states() == colors,
                colors.len() == pairs@.len(),
                product_rows(le, re, pairs@, ts.spec_edges(), k as int),
                forall|j: int|
                    0 <= j < i && (#[trigger] le[j]).source == p && joint_step(
                        le,
                        re,
                        (p, q),
                        le[j].symbol,
                    ) is Some ==> has_edge_for(ts.spec_edges(), k as int, le[j].symbol),
            decreases total - i,
        {
            let e = left.ts().edge(i);
            if e.source == p {
                let t1 = left.ts().target(p, e.symbol);
                let t2 = right.ts().target(q, e.symbol);
                match (t1, t2) {
                    (Some(t1), Some(t2)) => {
                        proof {
                            lemma_joint_step_listed(le, re, pairs@, k as int, e.symbol);
                        }
                        match index_of_pair(&pairs, t1, t2) {
                            Some(target) => {
                                let ghost before = ts.spec_edges();
                                ts.add_edge(k, e.symbol, target, ());
                                proof {
                                    lemma_product_rows_push(
                                        le,
                                        re,
                                        pairs@,
                                        before,
                                        k as int,
                                        Edge {
                                            source: k,
                                            symbol: e.symbol,
                                            target,
                                            color: (),
                                        },
                                    );
                                    let after = ts.spec_edges();
                                    assert(after[before.len() as int].source == k);
                                    assert forall|j: int|
                                        0 <= j < i + 1 && (#[trigger] le[j]).source == p
                                            && joint_step(le, re, (p, q), le[j].symbol)
                                            is Some implies has_edge_for(
                                        after,
                                        k as int,
                                        le[j].symbol,
                                    ) by {
                                        if j < i {
                                            assert(has_edge_for(before, k as int, le[j].symbol));
                                            let x = choose|x: int|
                                                0 <= x < before.len() && (#[trigger] before[x]).source
                                                    == k && before[x].symbol == le[j].symbol;
                                            assert(after[x] == before[x]);
                                        } else {
                                            assert(after[before.len() as int].symbol == le[j].symbol);
                                        }
                                    }
                                }
                            },
                            None => {
                                assert(false);
                            },
                        }
                    },
                    _ => {},
                }
            }
            i = i + 1;
        }
        proof {
            let edges = ts.spec_edges();
            assert forall|x: int, a: char|
                0 <= x < k + 1 && (#[trigger] joint_step(le, re, pairs@[x], a))
                    is Some implies has_edge_for(edges, x, a) by {
                if x == k {
                    lemma_taken_edge(le, p as int, a);
                    let j = taken_edge(le, p as int, a).unwrap();
                    assert(le[j].source == p);
                }
            }
        }
        k = k + 1;
    }
    let dfa = DFA::from_parts(ts, 0);
    proof {
        let edges = dfa.spec_ts().spec_edges();
        assert forall|word: Seq<char>|
            #[trigger] dfa.spec_accepts(word) == product_accepts(left, right, how, word) by {
            lemma_product_run(le, re, pairs@, edges, word);
            lemma_run_in_range(le, n1, left.spec_initial() as int, word);
            lemma_run_in_range(re, n2, right.spec_initial() as int, word);
            lemma_run_in_range(edges, colors.len(), 0, word);
        }
    }
    dfa
}

/// A joint step from a listed pair leads to a listed pair.
pub proof fn lemma_joint_step_listed<C1, C2>(
    left: Seq<Edge<C1>>,
    right: Seq<Edge<C2>>,
    pairs: Seq<(usize, usize)>,
    k: int,
    a: char,
)
    requires
        pairs.len() > 0,
        0 <= k < pairs.len(),
        forall|p: int, q: int|
            lists_pair(pairs, p, q) <==> jointly_reachable(
                left,
                right,
                pairs[0].0 as int,
                pairs[0].1 as int,
                p,
                q,
            ),
        joint_step(left, right, pairs[k], a) is Some,
    ensures
        lists_pair(
            pairs,
            joint_step(left, right, pairs[k], a).unwrap().0,
            joint_step(left, right, pairs[k], a).unwrap().1,
        ),
{
    let p_start = pairs[0].0 as int;
    let q_start = pairs[0].1 as int;
    let p = pairs[k].0 as int;
    let q = pairs[k].1 as int;
    assert(lists_pair(pairs, p, q)) by {
        assert(pairs[k] == (p as usize, q as usize));
    }
    let w = choose|w: Seq<char>| joint_run(left, right, p_start, q_start, w, p, q);
    let (t1, t2) = joint_step(left, right, pairs[k], a).unwrap();
    let more = w.push(a);
    assert(more.drop_last() == w);
    assert(joint_run(left, right, p_start, q_start, more, t1, t2));
}

/// One more edge that follows a joint step keeps the rows of the product.
pub proof fn lemma_product_rows_push<C1, C2>(
    left: Seq<Edge<C1>>,
    right: Seq<Edge<C2>>,
    pairs: Seq<(usize, usize)>,
    edges: Seq<Edge<()>>,
    rows: int,
    e: Edge<()>,
)
    requires
        product_rows(left, right, pairs, edges, rows),
        product_edge_sound(left, right, pairs, e),
    ensures
        product_rows(left, right, pairs, edges.push(e), rows),
{
    let more = edges.push(e);
    assert forall|j: int| 0 <= j < more.len() implies product_edge_sound(
        left,
        right,
        pairs,
        #[trigger] more[j],
    ) by {
        if j < edges.len() {
            assert(more[j] == edges[j]);
        }
    }
    assert forall|k: int, a: char|
        0 <= k < rows && (#[trigger] joint_step(left, right, pairs[k], a))
            is Some implies has_edge_for(more, k, a) by {
        assert(has_edge_for(edges, k, a));
        let x = choose|x: int|
            0 <= x < edges.len() && (#[trigger] edges[x]).source == k && edges[x].symbol == a;
        assert(more[x] == edges[x]);
    }
}

impl DFA {
    /// Computes the union of two automata through their product: the words
    /// on which both have a run and one of them accepts.
    pub fn union(&self, other: &DFA) -> (dfa: DFA)
        requires
            self.wf(),
            other.wf(),
        ensures
            dfa.wf(),
            forall|word: Seq<char>|
                #[trigger] dfa.spec_accepts(word) == product_accepts(
                    self,
                    other,
                    Combine::Either,
                    word,
                ),
    {
        product(self, other, Combine::Either)
    }

    /// Computes the intersection of two automata through their product: the
    /// words that both accept.
    pub fn intersection(&self, other: &DFA) -> (dfa: DFA)
        requires
            self.wf(),
            other.wf(),
        ensures
            dfa.wf(),
            forall|word: Seq<char>|
                #[trigger] dfa.spec_accepts(word) == product_accepts(
                    self,
                    other,
                    Combine::Both,
                    word,
                ),
    {
        product(self, other, Combine::Both)
    }
}

impl DFA {
    /// Tries to construct a word that is accepted. If such a word exists, the
    /// function returns a shortest one, otherwise `None`.
    pub fn dfa_give_word(&self) -> (word: Option<Vec<char>>)
        requires
            self.wf(),
        ensures
            match word {
                Some(w) => self.spec_accepts(w@) && forall|other: Seq<char>|
                    #[trigger] self.spec_accepts(other) ==> w@.len() <= other.len(),
                None => forall|w: Seq<char>| !self.spec_accepts(w),
            },
    {
        let found = crate::reach::representatives(self.ts(), self.initial());
        let mut k: usize = 0;
        while k < found.len()
            invariant
                self.wf(),
                k <= found@.len(),
                forall|i: int, j: int|
                    0 <= i < j < found@.len() ==> (#[trigger] found@[i]).1 != (
                    #[trigger] found@[j]).1,
                forall|i: int, j: int|
                    0 <= i <= j < found@.len() ==> (#[trigger] found@[i]).0@.len() <= (
                    #[trigger] found@[j]).0@.len(),
                forall|t: int|
                    crate::reach::lists_state(found@, t) <==> crate::reach::reachable(
                        self.spec_ts().spec_edges(),
                        self.spec_initial() as int,
                        t,
                    ),
                forall|x: int, word: Seq<char>|
                    0 <= x < found@.len() && #[trigger] run(
                        self.spec_ts().spec_edges(),
                        self.spec_initial() as int,
                        word,
                    ) == Some((#[trigger] found@[x]).1 as int) ==> found@[x].0@.len()
                        <= word.len(),
                forall|x: int|
                    0 <= x < found@.len() ==> (#[trigger] found@[x]).1 < self.spec_ts().spec_size()
                        && run(
                        self.spec_ts().spec_edges(),
                        self.spec_initial() as int,
                        found@[x].0@,
                    ) == Some(found@[x].1 as int),
                forall|x: int|
                    0 <= x < k ==> !self.spec_ts().spec_states()[(#[trigger] found@[x]).1 as int],
            decreases found@.len() - k,
        {
            if *self.ts().state_color(found[k].1) {
                let word = crate::words::copy_range(&found[k].0, 0, found[k].0.len()).0;
                assert(word@ == found@[k as int].0@);
                proof {
                    assert forall|other: Seq<char>| #[trigger]
                        self.spec_accepts(other) implies word@.len() <= other.len() by {
                        let t = self.spec_reached(other).unwrap();
                        assert(crate::reach::reachable(
                            self.spec_ts().spec_edges(),
                            self.spec_initial() as int,
                            t,
                        ));
                        assert(crate::reach::lists_state(found@, t));
                        let x = choose|x: int|
                            0 <= x < found@.len() && (#[trigger] found@[x]).1 == t;
                        assert(found@[x].0@.len() <= other.len());
                        if x < k {
                            assert(!self.spec_ts().spec_states()[found@[x].1 as int]);
                        } else {
                            assert(found@[k as int].0@.len() <= found@[x].0@.len());
                        }
                    }
                }
                return Some(word);
            }
            k = k + 1;
        }
        proof {
            assert forall|w: Seq<char>| !self.spec_accepts(w) by {
                if self.spec_accepts(w) {
                    let t = self.spec_reached(w).unwrap();
                    assert(crate::reach::reachable(
                        self.spec_ts().spec_edges(),
                        self.spec_initial() as int,
                        t,
                    ));
                    assert(crate::reach::lists_state(found@, t));
                    let x = choose|x: int| 0 <= x < found@.len() && (#[trigger] found@[x]).1 == t;
                    assert(!self.spec_ts().spec_states()[found@[x].1 as int]);
                }
            }
        }
        None
    }

    /// Returns true if and only if no word is accepted.
    pub fn dfa_is_empty(&self) -> (b: bool)
        requires
            self.wf(),
        ensures
            b == forall|w: Seq<char>| !self.spec_accepts(w),
    {
        self.dfa_give_word().is_none()
    }

    /// Checks that no word is accepted by `other` and read, but not accepted,
    /// by `self`: the intersection of the negation of `self` with `other` is
    /// searched for a word.
    pub fn equivalent(&self, other: &DFA) -> (b: bool)
        requires
            self.wf(),
            other.wf(),
        ensures
            b == forall|w: Seq<char>|
                !(self.spec_reached(w) is Some && !self.spec_accepts(w) && #[trigger] other.spec_accepts(
                    w,
                )),
    {
        let negated = self.negation();
        let both = negated.intersection(other);
        let word = both.dfa_give_word();
        proof {
            assert forall|w: Seq<char>|
                both.spec_accepts(w) == (self.spec_reached(w) is Some && !self.spec_accepts(w)
                    && #[trigger] other.spec_accepts(w)) by {
                assert(both.spec_accepts(w) == product_accepts(&negated, other, Combine::Both, w));
                assert(negated.spec_accepts(w) == (self.spec_reached(w) is Some
                    && !self.spec_accepts(w)));
                lemma_run_in_range(
                    negated.spec_ts().spec_edges(),
                    negated.spec_ts().spec_size(),
                    negated.spec_initial() as int,
                    w,
                );
                lemma_run_in_range(
                    other.spec_ts().spec_edges(),
                    other.spec_ts().spec_size(),
                    other.spec_initial() as int,
                    w,
                );
            }
            match &word {
                Some(w) => {
                    assert(both.spec_accepts(w@));
                    assert(self.spec_reached(w@) is Some && !self.spec_accepts(w@)
                        && other.spec_accepts(w@));
                },
                None => {
                    assert forall|w: Seq<char>|
                        !(self.spec_reached(w) is Some && !self.spec_accepts(w)
                            && #[trigger] other.spec_accepts(w)) by {
                        assert(!both.spec_accepts(w));
                    }
                },
            }
        }
        word.is_none()
    }

    /// This automaton with `initial` as its initial state.
    pub fn with_initial(&self, initial: usize) -> (dfa: DFA)
        requires
            self.wf(),
            initial < self.spec_ts().spec_size(),
        ensures
            dfa.wf(),
            dfa.spec_initial() == initial,
            dfa.spec_ts().spec_alphabet() == self.spec_ts().spec_alphabet(),
            dfa.spec_ts().spec_edges() == self.spec_ts().spec_edges(),
            dfa.spec_ts().spec_states() == self.spec_ts().spec_states(),
    {
        let n = self.ts().size();
        let mut colors: Vec<bool> = Vec::new();
        let mut i: usize = 0;
        while i < n
            invariant
                n == self.spec_ts().spec_size(),
                i <= n,
                colors@ == self.spec_ts().spec_states().subrange(0, i as int),
            decreases n - i,
        {
            colors.push(*self.ts().state_color(i));
            i = i + 1;
        }
        assert(self.spec_ts().spec_states().subrange(0, n as int) == self.spec_ts().spec_states());
        DFA::from_parts(self.ts().recolored(colors), initial)
    }

    /// A shortest word that tells the states `left` and `right` apart: one
    /// that both read, and that leads one of them to an accepting state and
    /// the other to a state that is not. `None` where the two are the same state, where
    /// one of them is no state, or where there is no such word.
    pub fn separate(&self, left: usize, right: usize) -> (word: Option<Vec<char>>)
        requires
            self.wf(),
        ensures
            match word {
                Some(w) => left < self.spec_ts().spec_size() && right < self.spec_ts().spec_size()
                    && left != right && tells_apart(self, left as int, right as int, w@)
                    && forall|other: Seq<char>|
                    #[trigger] tells_apart(self, left as int, right as int, other) ==> w@.len()
                        <= other.len(),
                None => left >= self.spec_ts().spec_size() || right >= self.spec_ts().spec_size()
                    || left == right || forall|w: Seq<char>|
                    !tells_apart(self, left as int, right as int, w),
            },
    {
        if left >= self.ts().size() || right >= self.ts().size() || left == right {
            return None;
        }
        let from_left = self.with_initial(left);
        let from_right = self.with_initial(right);
        let both = product(&from_left, &from_right, Combine::Differ);
        let word = both.dfa_give_word();
        proof {
            assert forall|w: Seq<char>|
                #[trigger] both.spec_accepts(w) == tells_apart(self, left as int, right as int, w) by {
                assert(both.spec_accepts(w) == product_accepts(
                    &from_left,
                    &from_right,
                    Combine::Differ,
                    w,
                ));
                lemma_run_in_range(
                    self.spec_ts().spec_edges(),
                    self.spec_ts().spec_size(),
                    left as int,
                    w,
                );
                lemma_run_in_range(
                    self.spec_ts().spec_edges(),
                    self.spec_ts().spec_size(),
                    right as int,
                    w,
                );
            }
            match &word {
                Some(w) => {
                    assert(both.spec_accepts(w@));
                    assert forall|other: Seq<char>| #[trigger]
                        tells_apart(self, left as int, right as int, other) implies w@.len()
                        <= other.len() by {
                        assert(both.spec_accepts(other));
                    }
                },
                None => {
                    assert forall|w: Seq<char>| !tells_apart(
                        self,
                        left as int,
                        right as int,
                        w,
                    ) by {
                        assert(!both.spec_accepts(w));
                    }
                },
            }
        }
        word
    }

    /// Returns the indices of all states that are accepting, ascending.
    pub fn accepting_states(&self) -> (states: Vec<usize>)
        ensures
            states@ == states_colored(self.spec_ts().spec_states(), true),
    {
        self.states_with_color(true)
    }

    /// Returns the indices of all states that are rejecting, ascending.
    pub fn rejecting_states(&self) -> (states: Vec<usize>)
        ensures
            states@ == states_colored(self.spec_ts().spec_states(), false),
    {
        self.states_with_color(false)
    }

    /// Returns the indices of all states whose colour is `color`, ascending.
    pub fn states_with_color(&self, color: bool) -> (states: Vec<usize>)
        ensures
            states@ == states_colored(self.spec_ts().spec_states(), color),
    {
        let n = self.ts().size();
        let mut out: Vec<usize> = Vec::new();
        let mut i: usize = 0;
        while i < n
            invariant
                n == self.spec_ts().spec_size(),
                i <= n,
                out@ == states_colored(self.spec_ts().spec_states().subrange(0, i as int), color),
            decreases n - i,
        {
            proof {
                let next = self.spec_ts().spec_states().subrange(0, i + 1);
                assert(next.drop_last() == self.spec_ts().spec_states().subrange(0, i as int));
            }
            if *self.ts().state_color(i) == color {
                out.push(i);
            }
            i = i + 1;
        }
        assert(self.spec_ts().spec_states().subrange(0, n as int) == self.spec_ts().spec_states());
        out
    }
}

/// The places of `colors` that hold `color`, ascending.
pub open spec fn states_colored(colors: Seq<bool>, color: bool) -> Seq<usize>
    decreases colors.len(),
{
    if colors.len() == 0 {
        Seq::<usize>::empty()
    } else {
        let rest = states_colored(colors.drop_last(), color);
        if colors.last() == color {
            rest.push((colors.len() - 1) as usize)
        } else {
            rest
        }
    }
}

/// The automaton reads `word` from `left` and from `right`, and exactly one of
/// the two runs ends in an accepting state.
pub open spec fn tells_apart(dfa: &DFA, left: int, right: int, word: Seq<char>) -> bool {
    match (run(dfa.spec_ts().spec_edges(), left, word), run(
        dfa.spec_ts().spec_edges(),
        right,
        word,
    )) {
        (Some(t1), Some(t2)) => 0 <= t1 < dfa.spec_ts().spec_size() && 0 <= t2
            < dfa.spec_ts().spec_size() && dfa.spec_ts().spec_states()[t1]
            != dfa.spec_ts().spec_states()[t2],
        _ => false,
    }
}

} // verus!
