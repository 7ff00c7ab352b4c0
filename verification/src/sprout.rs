//! The passive learner: the conflict relation of a sample, and the search that
//! grows a right congruence against it.

use crate::alphabet::{word_over, Alphabet};
use crate::congruence::RightCongruence;
use crate::index_ts::{
    lemma_run_concat, lemma_run_single, lemma_step_in_range, lemma_taken_edge, run, step, taken_edge, Edge, IndexTS,
};
use crate::prefix_tree::{is_prefix_tree, prefix_tree};
use crate::reach::{
    find_pair, joint_run, jointly_reachable, lists_pair, on_joint_cycle, reachable_pairs,
};
use crate::sample::Sample;
use vstd::prelude::*;

verus! {

/// Both systems step on `a` from `(p, q)`, and some word leads back from where
/// they arrive.
pub open spec fn returns_via<C1, C2>(
    left: Seq<Edge<C1>>,
    right: Seq<Edge<C2>>,
    p: int,
    q: int,
    a: char,
) -> bool {
    match (step(left, p, a), step(right, q, a)) {
        (Some(t1), Some(t2)) => jointly_reachable(left, right, t1, t2, p, q),
        _ => false,
    }
}

/// A pair lies on a joint cycle exactly if it returns to itself via some first
/// symbol.
pub proof fn lemma_cycle_first_symbol<C1, C2>(
    left: Seq<Edge<C1>>,
    right: Seq<Edge<C2>>,
    p: int,
    q: int,
)
    ensures
        on_joint_cycle(left, right, p, q) <==> exists|a: char|
            #[trigger] returns_via(left, right, p, q, a),
{
    if on_joint_cycle(left, right, p, q) {
        let w = choose|w: Seq<char>| w.len() > 0 && #[trigger] joint_run(left, right, p, q, w, p, q);
        let a = w[0];
        let first = seq![a];
        let rest = w.subrange(1, w.len() as int);
        assert(w == first + rest);
        lemma_run_concat(left, p, first, rest);
        lemma_run_concat(right, q, first, rest);
        lemma_run_single(left, p, a);
        lemma_run_single(right, q, a);
        let t1 = step(left, p, a).unwrap();
        let t2 = step(right, q, a).unwrap();
        assert(joint_run(left, right, t1, t2, rest, p, q));
        assert(returns_via(left, right, p, q, a));
    }
    if exists|a: char| #[trigger] returns_via(left, right, p, q, a) {
        let a = choose|a: char| #[trigger] returns_via(left, right, p, q, a);
        let t1 = step(left, p, a).unwrap();
        let t2 = step(right, q, a).unwrap();
        let rest = choose|v: Seq<char>| joint_run(left, right, t1, t2, v, p, q);
        let first = seq![a];
        let w = first + rest;
        lemma_run_concat(left, p, first, rest);
        lemma_run_concat(right, q, first, rest);
        lemma_run_single(left, p, a);
        lemma_run_single(right, q, a);
        assert(joint_run(left, right, p, q, w, p, q));
    }
}

/// Whether `(p, q)` lies on a joint cycle of `left` and `right`: whether some
/// non-empty word leads both back to where they are.
pub fn lies_on_joint_cycle<Q1, C1: Copy, Q2, C2: Copy>(
    left: &IndexTS<Q1, C1>,
    right: &IndexTS<Q2, C2>,
    p: usize,
    q: usize,
) -> (b: bool)
    requires
        left.wf(),
        right.wf(),
        p < left.spec_size(),
        q < right.spec_size(),
    ensures
        b == on_joint_cycle(left.spec_edges(), right.spec_edges(), p as int, q as int),
{
    let ghost le = left.spec_edges();
    let ghost re = right.spec_edges();
    let total = left.edge_count();
    let mut i: usize = 0;
    while i < total
        invariant
            left.wf(),
            right.wf(),
            le == left.spec_edges(),
            re == right.spec_edges(),
            total == le.len(),
            i <= total,
            p < left.spec_size(),
            q < right.spec_size(),
            forall|j: int|
                0 <= j < i && (#[trigger] le[j]).source == p ==> !returns_via(
                    le,
                    re,
                    p as int,
                    q as int,
                    le[j].symbol,
                ),
        decreases total - i,
    {
        let e = left.edge(i);
        if e.source == p {
            let t1 = left.target(p, e.symbol);
            let t2 = right.target(q, e.symbol);
            match (t1, t2) {
                (Some(t1), Some(t2)) => {
                    proof {
                        lemma_step_in_range(le, left.spec_size(), p as int, e.symbol);
                        lemma_step_in_range(re, right.spec_size(), q as int, e.symbol);
                    }
                    let back = reachable_pairs(left, right, t1, t2);
                    if find_pair(&back, p, q) {
                        proof {
                            assert(returns_via(le, re, p as int, q as int, e.symbol));
                            lemma_cycle_first_symbol(le, re, p as int, q as int);
                        }
                        return true;
                    }
                },
                _ => {},
            }
        }
        i = i + 1;
    }
    proof {
        lemma_cycle_first_symbol(le, re, p as int, q as int);
        assert forall|a: char| !#[trigger] returns_via(le, re, p as int, q as int, a) by {
            lemma_taken_edge(le, p as int, a);
            match taken_edge(le, p as int, a) {
                Some(j) => {
                    assert(le[j].source == p);
                },
                None => {},
            }
        }
    }
    false
}

/// The pairs of `pairs` that lie on a joint cycle of `left` and `right`.
pub fn pairs_on_cycles<Q1, C1: Copy, Q2, C2: Copy>(
    left: &IndexTS<Q1, C1>,
    right: &IndexTS<Q2, C2>,
    pairs: &Vec<(usize, usize)>,
) -> (kept: Vec<(usize, usize)>)
    requires
        left.wf(),
        right.wf(),
        forall|k: int|
            0 <= k < pairs@.len() ==> (#[trigger] pairs@[k]).0 < left.spec_size() && pairs@[k].1
                < right.spec_size(),
    ensures
        forall|p: int, q: int|
            lists_pair(kept@, p, q) <==> (lists_pair(pairs@, p, q) && on_joint_cycle(
                left.spec_edges(),
                right.spec_edges(),
                p,
                q,
            )),
        pairs@.no_duplicates() ==> kept@.no_duplicates(),
{
    let ghost le = left.spec_edges();
    let ghost re = right.spec_edges();
    let mut kept: Vec<(usize, usize)> = Vec::new();
    let mut i: usize = 0;
    while i < pairs.len()
        invariant
            left.wf(),
            right.wf(),
            le == left.spec_edges(),
            re == right.spec_edges(),
            i <= pairs.len(),
            forall|k: int|
                0 <= k < pairs@.len() ==> (#[trigger] pairs@[k]).0 < left.spec_size()
                    && pairs@[k].1 < right.spec_size(),
            forall|p: int, q: int|
                lists_pair(kept@, p, q) <==> (lists_pair(pairs@.subrange(0, i as int), p, q)
                    && on_joint_cycle(le, re, p, q)),
            pairs@.no_duplicates() ==> kept@.no_duplicates(),
        decreases pairs.len() - i,
    {
        let pair = pairs[i];
        let ghost before = kept@;
        let ghost seen = pairs@.subrange(0, i as int);
        let ghost next = pairs@.subrange(0, i + 1);
        let on_cycle = lies_on_joint_cycle(left, right, pair.0, pair.1);
        if on_cycle {
            kept.push(pair);
        }
        proof {
            assert forall|p: int, q: int|
                lists_pair(kept@, p, q) <==> (lists_pair(next, p, q) && on_joint_cycle(
                    le,
                    re,
                    p,
                    q,
                )) by {
                let here = (p == pair.0 && q == pair.1);
                if lists_pair(kept@, p, q) {
                    let k = choose|k: int|
                        0 <= k < kept@.len() && #[trigger] kept@[k] == (p as usize, q as usize)
                            && 0 <= p <= usize::MAX && 0 <= q <= usize::MAX;
                    if k < before.len() {
                        assert(before[k] == (p as usize, q as usize));
                        assert(lists_pair(before, p, q));
                        let x = choose|x: int|
                            0 <= x < seen.len() && #[trigger] seen[x] == (p as usize, q as usize);
                        assert(next[x] == (p as usize, q as usize));
                    } else {
                        assert(next[i as int] == pair);
                    }
                }
                if lists_pair(next, p, q) && on_joint_cycle(le, re, p, q) {
                    let x = choose|x: int|
                        0 <= x < next.len() && #[trigger] next[x] == (p as usize, q as usize) && 0
                            <= p <= usize::MAX && 0 <= q <= usize::MAX;
                    if x < i {
                        assert(seen[x] == (p as usize, q as usize));
                        assert(lists_pair(before, p, q));
                        let k = choose|k: int|
                            0 <= k < before.len() && #[trigger] before[k] == (
                                p as usize,
                                q as usize,
                            );
                        assert(kept@[k] == (p as usize, q as usize));
                    } else {
                        assert(kept@[before.len() as int] == pair);
                    }
                }
            }
            if pairs@.no_duplicates() && on_cycle {
                assert forall|x: int, y: int|
                    0 <= x < kept@.len() && 0 <= y < kept@.len() && x != y implies kept@[x]
                    != kept@[y] by {
                    if x < before.len() && y < before.len() {
                        assert(before[x] != before[y]);
                    } else {
                        let z = if x < before.len() { x } else { y };
                        if before[z] == pair {
                            assert(lists_pair(before, pair.0 as int, pair.1 as int));
                            let j = choose|j: int|
                                0 <= j < seen.len() && #[trigger] seen[j] == (pair.0, pair.1);
                            assert(pairs@[j] == pairs@[i as int]);
                        }
                    }
                }
            }
        }
        i = i + 1;
    }
    assert(pairs@.subrange(0, pairs.len() as int) == pairs@);
    kept
}

/// Two prefix trees, one of the positive and one of the negative words of a
/// sample, and the pairs of their states that must never both be reached.
#[derive(Clone, Debug)]
pub struct ConflictRelation {
    positive: RightCongruence,
    negative: RightCongruence,
    conflicts: Vec<(usize, usize)>,
}

/// Some word takes `cong` anywhere and takes `tree` from its initial state to
/// `t`.
pub open spec fn reached_with(cong: Seq<Edge<()>>, tree: Seq<Edge<()>>, t: int) -> bool {
    exists|c: int| #[trigger] jointly_reachable(cong, tree, 0, 0, c, t)
}

/// Some word over `alphabet` takes `tree` from its initial state to `t`.
pub open spec fn reached_over(tree: Seq<Edge<()>>, alphabet: Seq<char>, t: int) -> bool {
    exists|word: Seq<char>| word_over(alphabet, word) && #[trigger] run(tree, 0, word) == Some(t)
}

/// The self loop on state 0 that is taken on `a`.
pub open spec fn loop_on(a: char) -> Edge<()> {
    Edge { source: 0usize, symbol: a, target: 0usize, color: () }
}

/// One self loop on state 0 for each symbol of `alphabet`, in order.
pub open spec fn self_loops(alphabet: Seq<char>) -> Seq<Edge<()>> {
    Seq::new(alphabet.len(), |k: int| loop_on(alphabet[k]))
}

impl ConflictRelation {
    /// The prefix tree of the positive words.
    pub closed spec fn spec_positive(&self) -> RightCongruence {
        self.positive
    }

    /// The prefix tree of the negative words.
    pub closed spec fn spec_negative(&self) -> RightCongruence {
        self.negative
    }

    /// The conflicting pairs: a state of the positive tree and a state of the
    /// negative tree.
    pub closed spec fn spec_conflicts(&self) -> Seq<(usize, usize)> {
        self.conflicts@
    }

    /// Both trees are well formed, and the conflicts are exactly the pairs of
    /// their states that a common word reaches and that lie on a common
    /// cycle, each listed once.
    pub open spec fn wf(&self) -> bool {
        &&& self.spec_positive().wf()
        &&& self.spec_negative().wf()
        &&& self.spec_conflicts().no_duplicates()
        &&& forall|p: int, n: int|
            self.spec_conflict(p, n) <==> (jointly_reachable(
                self.spec_positive().spec_edges(),
                self.spec_negative().spec_edges(),
                0,
                0,
                p,
                n,
            ) && on_joint_cycle(
                self.spec_positive().spec_edges(),
                self.spec_negative().spec_edges(),
                p,
                n,
            ))
    }

    /// Every conflict comes from a strongly connected component of the
    /// product of the two trees that is not trivial: one that holds more than
    /// one pair, or a pair with a self loop.
    pub proof fn lemma_conflicts_from_nontrivial_components(&self, p: int, n: int)
        requires
            self.wf(),
            self.spec_conflict(p, n),
        ensures
            jointly_reachable(
                self.spec_positive().spec_edges(),
                self.spec_negative().spec_edges(),
                0,
                0,
                p,
                n,
            ),
            crate::reach::in_nontrivial_component(
                self.spec_positive().spec_edges(),
                self.spec_negative().spec_edges(),
                p,
                n,
            ),
    {
        crate::reach::lemma_cycle_iff_nontrivial(
            self.spec_positive().spec_edges(),
            self.spec_negative().spec_edges(),
            p,
            n,
        );
    }

    /// The product of the two trees has no cycle where one of them has no
    /// edge: there are no conflicts then.
    pub proof fn lemma_no_conflicts_without_edges(&self)
        requires
            self.wf(),
            self.spec_positive().spec_edges().len() == 0 || self.spec_negative().spec_edges().len()
                == 0,
        ensures
            self.spec_conflicts().len() == 0,
            forall|alphabet: Seq<char>| self.admits(alphabet),
    {
        let pe = self.spec_positive().spec_edges();
        let ne = self.spec_negative().spec_edges();
        if self.spec_conflicts().len() > 0 {
            let pair = self.spec_conflicts()[0];
            assert(self.spec_conflict(pair.0 as int, pair.1 as int));
            let w = choose|w: Seq<char>|
                w.len() > 0 && #[trigger] joint_run(
                    pe,
                    ne,
                    pair.0 as int,
                    pair.1 as int,
                    w,
                    pair.0 as int,
                    pair.1 as int,
                );
            let init = w.drop_last();
            match run(pe, pair.0 as int, init) {
                Some(t) => {
                    lemma_taken_edge(pe, t, w.last());
                },
                None => {},
            }
            match run(ne, pair.1 as int, init) {
                Some(t) => {
                    lemma_taken_edge(ne, t, w.last());
                },
                None => {},
            }
            assert(false);
        }
        assert forall|alphabet: Seq<char>| self.admits(alphabet) by {
            assert forall|p: int, n: int| #[trigger] self.spec_conflict(p, n) implies !(
            reached_over(pe, alphabet, p) && reached_over(ne, alphabet, n)) by {
                let k = choose|k: int|
                    0 <= k < self.spec_conflicts().len() && #[trigger] self.spec_conflicts()[k]
                        == (p as usize, n as usize);
            }
        }
    }

    /// Whether `(p, n)` is a conflict.
    pub open spec fn spec_conflict(&self, p: int, n: int) -> bool {
        lists_pair(self.spec_conflicts(), p, n)
    }

    /// Whether `cong` keeps clear of every conflict: no conflict `(p, n)` has
    /// `p` among the positive states and `n` among the negative states that
    /// words of `cong` reach; the two are looked for independently.
    pub open spec fn spec_consistent(&self, cong: &RightCongruence) -> bool {
        self.consistent_edges(cong.spec_edges())
    }

    /// Whether a congruence with the edges `edges` keeps clear of every
    /// conflict.
    pub open spec fn consistent_edges(&self, edges: Seq<Edge<()>>) -> bool {
        forall|p: int, n: int|
            #[trigger] self.spec_conflict(p, n) ==> !(reached_with(
                edges,
                self.spec_positive().spec_edges(),
                p,
            ) && reached_with(edges, self.spec_negative().spec_edges(), n))
    }

    /// Whether any congruence over `alphabet` can keep clear of the conflicts:
    /// no conflict `(p, n)` has both `p` and `n` reached by words over
    /// `alphabet`.
    pub open spec fn admits(&self, alphabet: Seq<char>) -> bool {
        forall|p: int, n: int|
            #[trigger] self.spec_conflict(p, n) ==> !(reached_over(
                self.spec_positive().spec_edges(),
                alphabet,
                p,
            ) && reached_over(self.spec_negative().spec_edges(), alphabet, n))
    }

    /// Without conflicts, every congruence keeps clear of them.
    pub proof fn lemma_empty_relation_admits(&self, alphabet: Seq<char>)
        requires
            self.spec_conflicts().len() == 0,
        ensures
            self.admits(alphabet),
    {
        assert forall|p: int, n: int| #[trigger] self.spec_conflict(p, n) implies !(reached_over(
            self.spec_positive().spec_edges(),
            alphabet,
            p,
        ) && reached_over(self.spec_negative().spec_edges(), alphabet, n)) by {
            let k = choose|k: int|
                0 <= k < self.spec_conflicts().len() && #[trigger] self.spec_conflicts()[k] == (
                    p as usize,
                    n as usize,
                );
        }
    }

    /// The prefix tree of the positive words.
    pub fn positive_tree(&self) -> (tree: &RightCongruence)
        ensures
            *tree == self.spec_positive(),
    {
        &self.positive
    }

    /// The prefix tree of the negative words.
    pub fn negative_tree(&self) -> (tree: &RightCongruence)
        ensures
            *tree == self.spec_negative(),
    {
        &self.negative
    }

    /// The conflicting pairs.
    pub fn conflicts(&self) -> (pairs: &Vec<(usize, usize)>)
        ensures
            pairs@ == self.spec_conflicts(),
    {
        &self.conflicts
    }

    /// Whether `cong` keeps clear of every conflict.
    pub fn consistent(&self, cong: &RightCongruence) -> (b: bool)
        requires
            self.wf(),
            cong.wf(),
        ensures
            b == self.spec_consistent(cong),
    {
        let left = reachable_pairs(cong.ts(), self.positive.ts(), 0, 0);
        let right = reachable_pairs(cong.ts(), self.negative.ts(), 0, 0);
        let ghost ce = cong.spec_edges();
        let ghost pe = self.spec_positive().spec_edges();
        let ghost ne = self.spec_negative().spec_edges();
        let mut i: usize = 0;
        while i < left.len()
            invariant
                i <= left.len(),
                ce == cong.spec_edges(),
                pe == self.spec_positive().spec_edges(),
                ne == self.spec_negative().spec_edges(),
                forall|p: int, q: int|
                    lists_pair(left@, p, q) <==> jointly_reachable(ce, pe, 0, 0, p, q),
                forall|p: int, q: int|
                    lists_pair(right@, p, q) <==> jointly_reachable(ce, ne, 0, 0, p, q),
                forall|x: int, y: int|
                    0 <= x < i && 0 <= y < right@.len() ==> !self.spec_conflict(
                        (#[trigger] left@[x]).1 as int,
                        (#[trigger] right@[y]).1 as int,
                    ),
            decreases left.len() - i,
        {
            let mut j: usize = 0;
            while j < right.len()
                invariant
                    i < left.len(),
                    j <= right.len(),
                    ce == cong.spec_edges(),
                    pe == self.spec_positive().spec_edges(),
                    ne == self.spec_negative().spec_edges(),
                    forall|p: int, q: int| lists_pair(left@, p, q) <==> jointly_reachable(ce, pe, 0, 0, p, q),
                    forall|p: int, q: int| lists_pair(right@, p, q) <==> jointly_reachable(ce, ne, 0, 0, p, q),
                    forall|x: int, y: int|
                        0 <= x < i && 0 <= y < right@.len() ==> !self.spec_conflict(
                            (#[trigger] left@[x]).1 as int,
                            (#[trigger] right@[y]).1 as int,
                        ),
                    forall|y: int|
                        0 <= y < j ==> !self.spec_conflict(
                            left@[i as int].1 as int,
                            (#[trigger] right@[y]).1 as int,
                        ),
                decreases right.len() - j,
            {
                if find_pair(&self.conflicts, left[i].1, right[j].1) {
                    proof {
                        let l = left@[i as int];
                        let r = right@[j as int];
                        assert(lists_pair(left@, l.0 as int, l.1 as int));
                        assert(lists_pair(right@, r.0 as int, r.1 as int));
                        assert(jointly_reachable(ce, pe, 0, 0, l.0 as int, l.1 as int));
                        assert(jointly_reachable(ce, ne, 0, 0, r.0 as int, r.1 as int));
                        assert(reached_with(ce, pe, l.1 as int));
                        assert(reached_with(ce, ne, r.1 as int));
                        assert(self.spec_conflict(l.1 as int, r.1 as int));
                    }
                    return false;
                }
                j = j + 1;
            }
            i = i + 1;
        }
        proof {
            assert forall|p: int, n: int| #[trigger] self.spec_conflict(p, n) implies !(
            reached_with(ce, pe, p) && reached_with(ce, ne, n)) by {
                if reached_with(ce, pe, p) && reached_with(ce, ne, n) {
                    let c = choose|c: int| #[trigger] jointly_reachable(ce, pe, 0, 0, c, p);
                    let d = choose|d: int| #[trigger] jointly_reachable(ce, ne, 0, 0, d, n);
                    assert(lists_pair(left@, c, p));
                    assert(lists_pair(right@, d, n));
                    let x = choose|x: int|
                        0 <= x < left@.len() && #[trigger] left@[x] == (c as usize, p as usize)
                            && 0 <= c <= usize::MAX && 0 <= p <= usize::MAX;
                    let y = choose|y: int|
                        0 <= y < right@.len() && #[trigger] right@[y] == (d as usize, n as usize)
                            && 0 <= d <= usize::MAX && 0 <= n <= usize::MAX;
                    assert(!self.spec_conflict(left@[x].1 as int, right@[y].1 as int));
                }
            }
        }
        true
    }
}

/// Builds the conflict relation of `sample` over `alphabet`: the prefix trees
/// of its two sides, and every pair of their states that a common word reaches
/// and that lies on a common cycle.
pub fn prefix_consistency_conflicts(alphabet: &Alphabet, sample: Sample) -> (relation:
    ConflictRelation)
    requires
        alphabet.wf(),
        sample.wf(),
    ensures
        relation.wf(),
        is_prefix_tree(&relation.spec_positive(), alphabet@, sample.spec_positive()),
        is_prefix_tree(&relation.spec_negative(), alphabet@, sample.spec_negative()),
        (sample.spec_positive().len() == 0 || sample.spec_negative().len() == 0)
            ==> relation.spec_conflicts().len() == 0,
{
    let positive = prefix_tree(alphabet.duplicate(), sample.positive_iter());
    let negative = prefix_tree(alphabet.duplicate(), sample.negative_iter());
    let product = reachable_pairs(positive.ts(), negative.ts(), 0, 0);
    let conflicts = pairs_on_cycles(positive.ts(), negative.ts(), &product);
    let relation = ConflictRelation { positive, negative, conflicts };
    proof {
        if sample.spec_positive().len() == 0 {
            crate::prefix_tree::lemma_empty_set_tree(
                &relation.spec_positive(),
                alphabet@,
                sample.spec_positive(),
            );
            relation.lemma_no_conflicts_without_edges();
        }
        if sample.spec_negative().len() == 0 {
            crate::prefix_tree::lemma_empty_set_tree(
                &relation.spec_negative(),
                alphabet@,
                sample.spec_negative(),
            );
            relation.lemma_no_conflicts_without_edges();
        }
    }
    relation
}

/// Builds the conflict relation of `sample` over `alphabet`, where the sample
/// is well formed; `None` where a word of it is not, or one side of it lists
/// one infinite word twice.
pub fn compute_conflicts(alphabet: &Alphabet, sample: Sample) -> (result: Option<ConflictRelation>)
    requires
        alphabet.wf(),
    ensures
        result is Some <==> sample.wf(),
        result matches Some(relation) ==> {
            &&& relation.wf()
            &&& is_prefix_tree(&relation.spec_positive(), alphabet@, sample.spec_positive())
            &&& is_prefix_tree(&relation.spec_negative(), alphabet@, sample.spec_negative())
            &&& ((sample.spec_positive().len() == 0 || sample.spec_negative().len() == 0)
                ==> relation.spec_conflicts().len() == 0)
        },
{
    if sample.is_well_formed() {
        Some(prefix_consistency_conflicts(alphabet, sample))
    } else {
        None
    }
}

/// Every edge is on a symbol of `alphabet`.
pub open spec fn symbols_within<C>(edges: Seq<Edge<C>>, alphabet: Seq<char>) -> bool {
    forall|j: int| 0 <= j < edges.len() ==> alphabet.contains((#[trigger] edges[j]).symbol)
}

/// A word that has a run reads only symbols that stand on edges.
pub proof fn lemma_run_symbols<C>(edges: Seq<Edge<C>>, alphabet: Seq<char>, q: int, word: Seq<char>)
    requires
        symbols_within(edges, alphabet),
        run(edges, q, word) is Some,
    ensures
        word_over(alphabet, word),
    decreases word.len(),
{
    if word.len() > 0 {
        let init = word.drop_last();
        lemma_run_symbols(edges, alphabet, q, init);
        let t = run(edges, q, init).unwrap();
        lemma_taken_edge(edges, t, word.last());
        let j = taken_edge(edges, t, word.last()).unwrap();
        assert(alphabet.contains(edges[j].symbol));
        assert forall|i: int| 0 <= i < word.len() implies alphabet.contains(#[trigger] word[i]) by {
            if i < init.len() {
                assert(init[i] == word[i]);
            }
        }
    }
}

/// The self loops on the symbols of `alphabet` read every word over
/// `alphabet`, and stay in state 0.
pub proof fn lemma_self_loops_run(alphabet: Seq<char>, word: Seq<char>)
    requires
        word_over(alphabet, word),
    ensures
        run(self_loops(alphabet), 0, word) == Some(0int),
    decreases word.len(),
{
    if word.len() > 0 {
        let init = word.drop_last();
        assert forall|i: int| 0 <= i < init.len() implies alphabet.contains(#[trigger] init[i]) by {
            assert(init[i] == word[i]);
        }
        lemma_self_loops_run(alphabet, init);
        let a = word.last();
        assert(alphabet.contains(word[word.len() - 1]));
        let k = choose|k: int| 0 <= k < alphabet.len() && alphabet[k] == a;
        let loops = self_loops(alphabet);
        assert(loops[k].source == 0 && loops[k].symbol == a);
        lemma_taken_edge(loops, 0, a);
    }
}

/// A congruence whose edges are on symbols of `alphabet` keeps clear of the
/// conflicts where any congruence over `alphabet` can.
pub proof fn lemma_admitted_is_consistent(
    relation: &ConflictRelation,
    ce: Seq<Edge<()>>,
    alphabet: Seq<char>,
)
    requires
        relation.admits(alphabet),
        symbols_within(ce, alphabet),
    ensures
        relation.consistent_edges(ce),
{
    let pe = relation.spec_positive().spec_edges();
    let ne = relation.spec_negative().spec_edges();
    assert forall|p: int, n: int| #[trigger] relation.spec_conflict(p, n) implies !(reached_with(
        ce,
        pe,
        p,
    ) && reached_with(ce, ne, n)) by {
        if reached_with(ce, pe, p) && reached_with(ce, ne, n) {
            let c = choose|c: int| #[trigger] jointly_reachable(ce, pe, 0, 0, c, p);
            let d = choose|d: int| #[trigger] jointly_reachable(ce, ne, 0, 0, d, n);
            let u = choose|u: Seq<char>| joint_run(ce, pe, 0, 0, u, c, p);
            let v = choose|v: Seq<char>| joint_run(ce, ne, 0, 0, v, d, n);
            lemma_run_symbols(ce, alphabet, 0, u);
            lemma_run_symbols(ce, alphabet, 0, v);
            assert(run(pe, 0, u) == Some(p));
            assert(run(ne, 0, v) == Some(n));
            assert(reached_over(pe, alphabet, p));
            assert(reached_over(ne, alphabet, n));
        }
    }
}

/// The one-class congruence with every self loop keeps clear of the conflicts
/// only where some congruence over `alphabet` can.
pub proof fn lemma_consistent_loops_admit(
    relation: &ConflictRelation,
    cong: &RightCongruence,
    alphabet: Seq<char>,
)
    requires
        relation.spec_consistent(cong),
        cong.spec_edges() == self_loops(alphabet),
    ensures
        relation.admits(alphabet),
{
    let ce = cong.spec_edges();
    let pe = relation.spec_positive().spec_edges();
    let ne = relation.spec_negative().spec_edges();
    assert forall|p: int, n: int| #[trigger] relation.spec_conflict(p, n) implies !(reached_over(
        pe,
        alphabet,
        p,
    ) && reached_over(ne, alphabet, n)) by {
        if reached_over(pe, alphabet, p) && reached_over(ne, alphabet, n) {
            let u = choose|u: Seq<char>| word_over(alphabet, u) && #[trigger] run(pe, 0, u) == Some(p);
            let v = choose|v: Seq<char>| word_over(alphabet, v) && #[trigger] run(ne, 0, v) == Some(n);
            lemma_self_loops_run(alphabet, u);
            lemma_self_loops_run(alphabet, v);
            assert(joint_run(ce, pe, 0, 0, u, 0, p));
            assert(joint_run(ce, ne, 0, 0, v, 0, n));
            assert(jointly_reachable(ce, pe, 0, 0, 0, p));
            assert(jointly_reachable(ce, ne, 0, 0, 0, n));
            assert(reached_with(ce, pe, p));
            assert(reached_with(ce, ne, n));
        }
    }
}

/// The one-class congruence with a self loop for each symbol of its alphabet
/// has exactly one edge from its state on each symbol.
pub proof fn lemma_loops_total(cong: &RightCongruence)
    requires
        cong.spec_size() == 1,
        cong.spec_alphabet().no_duplicates(),
        cong.spec_edges() == self_loops(cong.spec_alphabet()),
    ensures
        cong.spec_complete(),
        cong.spec_deterministic(),
{
    let sigma = cong.spec_alphabet();
    let loops = cong.spec_edges();
    assert forall|q: int, k: int|
        0 <= q < cong.spec_size() && 0 <= k < sigma.len() implies #[trigger] cong.spec_successor(
        q,
        sigma[k],
    ) is Some by {
        assert(loops[k].source == 0 && loops[k].symbol == sigma[k]);
        lemma_taken_edge(loops, 0, sigma[k]);
    }
    assert forall|i: int| 0 <= i < loops.len() implies sigma.contains(
        (#[trigger] loops[i]).symbol,
    ) by {
        assert(sigma[i] == loops[i].symbol);
    }
}

/// A complete congruence has a run on every word over its alphabet.
pub proof fn lemma_complete_runs(cong: &RightCongruence, word: Seq<char>)
    requires
        cong.wf(),
        cong.spec_complete(),
        word_over(cong.spec_alphabet(), word),
    ensures
        run(cong.spec_edges(), 0, word) matches Some(t) && 0 <= t < cong.spec_size(),
    decreases word.len(),
{
    if word.len() > 0 {
        let init = word.drop_last();
        assert(word_over(cong.spec_alphabet(), init)) by {
            assert forall|i: int| 0 <= i < init.len() implies cong.spec_alphabet().contains(
                #[trigger] init[i],
            ) by {
                assert(init[i] == word[i]);
            }
        }
        lemma_complete_runs(cong, init);
        let t = run(cong.spec_edges(), 0, init).unwrap();
        assert(cong.spec_alphabet().contains(word[word.len() - 1]));
        let k = choose|k: int|
            0 <= k < cong.spec_alphabet().len() && cong.spec_alphabet()[k] == word.last();
        assert(cong.spec_successor(t, cong.spec_alphabet()[k]) is Some);
        crate::index_ts::lemma_run_in_range(cong.spec_edges(), cong.spec_size(), 0, word);
    }
}

/// Where no congruence over `alphabet` can keep clear of the conflicts, a
/// complete congruence over `alphabet` does not: the search for one cannot
/// end well.
pub proof fn lemma_complete_meets_conflict(
    relation: &ConflictRelation,
    cong: &RightCongruence,
    alphabet: Seq<char>,
)
    requires
        cong.wf(),
        cong.spec_alphabet() == alphabet,
        cong.spec_complete(),
        !relation.admits(alphabet),
    ensures
        !relation.spec_consistent(cong),
{
    let ce = cong.spec_edges();
    let pe = relation.spec_positive().spec_edges();
    let ne = relation.spec_negative().spec_edges();
    let (p, n) = choose|p: int, n: int|
        #[trigger] relation.spec_conflict(p, n) && reached_over(pe, alphabet, p) && reached_over(
            ne,
            alphabet,
            n,
        );
    let u = choose|u: Seq<char>| word_over(alphabet, u) && #[trigger] run(pe, 0, u) == Some(p);
    let v = choose|v: Seq<char>| word_over(alphabet, v) && #[trigger] run(ne, 0, v) == Some(n);
    lemma_complete_runs(cong, u);
    lemma_complete_runs(cong, v);
    let c = run(ce, 0, u).unwrap();
    let d = run(ce, 0, v).unwrap();
    assert(joint_run(ce, pe, 0, 0, u, c, p));
    assert(joint_run(ce, ne, 0, 0, v, d, n));
    assert(jointly_reachable(ce, pe, 0, 0, c, p));
    assert(jointly_reachable(ce, ne, 0, 0, d, n));
    assert(reached_with(ce, pe, p));
    assert(reached_with(ce, ne, n));
}

/// The edge from `source` to `target` on `a`.
pub open spec fn edge_to(source: usize, a: char, target: usize) -> Edge<()> {
    Edge { source, symbol: a, target, color: () }
}

/// How the obligation `(source, a)` is resolved in a congruence with the
/// labels `labels` and the edges `edges`: by an edge to `target`, which is the
/// first state with which the congruence keeps clear of the conflicts, or,
/// where there is no such state, a new state that is named by the name of the
/// source followed by the symbol.
pub open spec fn resolved(
    relation: &ConflictRelation,
    labels: Seq<Seq<char>>,
    edges: Seq<Edge<()>>,
    source: usize,
    a: char,
    target: usize,
    labels_after: Seq<Seq<char>>,
    edges_after: Seq<Edge<()>>,
) -> bool {
    &&& target <= labels.len()
    &&& forall|t: usize|
        t < target ==> !#[trigger] relation.consistent_edges(edges.push(edge_to(source, a, t)))
    &&& edges_after == edges.push(edge_to(source, a, target))
    &&& if target < labels.len() {
        relation.consistent_edges(edges_after) && labels_after == labels
    } else {
        labels_after == labels.push(labels[source as int].push(a))
    }
}

/// Resolves the obligation `(source, sym)`: the existing states are tried as
/// targets in the order of their creation; an edge with which the congruence
/// keeps clear of the conflicts is kept, any other is taken back; where no
/// state will do, a new state is made, named by the name of the source
/// followed by the symbol, and the edge leads to it. Returns the target.
pub fn resolve(
    cong: &mut RightCongruence,
    conflicts: &ConflictRelation,
    source: usize,
    sym: char,
) -> (target: usize)
    requires
        old(cong).wf(),
        conflicts.wf(),
        source < old(cong).spec_size(),
    ensures
        final(cong).wf(),
        final(cong).spec_alphabet() == old(cong).spec_alphabet(),
        resolved(
            conflicts,
            old(cong).spec_labels(),
            old(cong).spec_edges(),
            source,
            sym,
            target,
            final(cong).spec_labels(),
            final(cong).spec_edges(),
        ),
{
    let ghost labels = cong.spec_labels();
    let ghost edges = cong.spec_edges();
    let n: usize = cong.size();
    assert(labels.len() == n);
    let mut target: usize = 0;
    while target < n
        invariant
            cong.wf(),
            conflicts.wf(),
            cong.spec_alphabet() == old(cong).spec_alphabet(),
            labels == old(cong).spec_labels(),
            edges == old(cong).spec_edges(),
            cong.spec_labels() == labels,
            cong.spec_edges() == edges,
            labels.len() == n,
            n == cong.spec_size(),
            source < n,
            target <= n,
            forall|t: usize|
                t < target ==> !#[trigger] conflicts.consistent_edges(
                    edges.push(edge_to(source, sym, t)),
                ),
        decreases n - target,
    {
        cong.add_edge(source, sym, target);
        assert(cong.spec_edges() == edges.push(edge_to(source, sym, target)));
        if conflicts.consistent(cong) {
            proof {
                assert(conflicts.consistent_edges(cong.spec_edges()));
                assert(cong.spec_labels() == labels);
                assert(target < labels.len());
            }
            return target;
        }
        cong.undo_add_edge();
        assert(cong.spec_edges() == edges) by {
            assert(edges.push(edge_to(source, sym, target)).drop_last() == edges);
        }
        assert(cong.spec_labels().len() == cong.spec_size());
        target = target + 1;
    }
    let label = cong.state_color(source).extended(sym);
    let fresh = cong.add_state(label);
    assert(cong.spec_labels().len() == cong.spec_size());
    cong.add_edge(source, sym, fresh);
    assert(cong.spec_edges() == edges.push(edge_to(source, sym, fresh)));
    fresh
}

/// The obligations `(state, symbol)` for every symbol of `symbols`, in order,
/// are put at the back of `queue`.
fn enqueue_all(queue: &mut Vec<(usize, char)>, state: usize, symbols: &Alphabet)
    ensures
        final(queue)@ == old(queue)@ + Seq::new(symbols@.len(), |k: int| (state, symbols@[k])),
{
    let mut k: usize = 0;
    while k < symbols.size()
        invariant
            k <= symbols@.len(),
            queue@ == old(queue)@ + Seq::new(k as nat, |l: int| (state, symbols@[l])),
        decreases symbols@.len() - k,
    {
        queue.push((state, symbols.symbol(k)));
        k = k + 1;
    }
}

/// The search: resolves every obligation `(state, symbol)` once, in the order
/// in which they arise, each as `resolve` does; a new state brings an
/// obligation for every symbol of the alphabet.
fn sprout(alphabet: &Alphabet, conflicts: &ConflictRelation) -> (cong: RightCongruence)
    requires
        alphabet.wf(),
        conflicts.wf(),
        alphabet@.len() == 0 || conflicts.admits(alphabet@),
    ensures
        cong.wf(),
        cong.spec_alphabet() == alphabet@,
        cong.spec_labels() == seq![Seq::<char>::empty()],
        cong.spec_edges() == self_loops(alphabet@),
{
    let ghost sigma = alphabet@;
    let mut cong = RightCongruence::new(alphabet.duplicate());
    let mut queue: Vec<(usize, char)> = Vec::new();
    enqueue_all(&mut queue, cong.initial(), alphabet);
    let mut head: usize = 0;
    assert(cong.spec_edges() =~= self_loops(sigma.subrange(0, 0)));
    while head < queue.len()
        invariant
            sigma == alphabet@,
            alphabet.wf(),
            conflicts.wf(),
            sigma.len() == 0 || conflicts.admits(sigma),
            cong.wf(),
            cong.spec_alphabet() == sigma,
            cong.spec_labels() == seq![Seq::<char>::empty()],
            queue@ == Seq::new(sigma.len(), |k: int| (0usize, sigma[k])),
            head <= queue@.len(),
            cong.spec_edges() == self_loops(sigma.subrange(0, head as int)),
        decreases queue@.len() - head,
    {
        let source: usize = queue[head].0;
        let sym: char = queue[head].1;
        let states: usize = cong.size();
        let ghost edges = cong.spec_edges();
        proof {
            assert(cong.spec_labels().len() == 1);
            let first = edges.push(edge_to(source, sym, 0));
            assert(first =~= self_loops(sigma.subrange(0, head + 1)));
            assert(symbols_within(first, sigma)) by {
                assert forall|j: int| 0 <= j < first.len() implies sigma.contains(
                    (#[trigger] first[j]).symbol,
                ) by {
                    assert(sigma[j] == first[j].symbol);
                }
            }
            lemma_admitted_is_consistent(conflicts, first, sigma);
        }
        let target = resolve(&mut cong, conflicts, source, sym);
        proof {
            assert(source == 0 && sym == sigma[head as int]);
            if target >= 1 {
                assert(!conflicts.consistent_edges(edges.push(edge_to(source, sym, 0usize))));
            }
            assert(target == 0);
            assert(cong.spec_edges() =~= self_loops(sigma.subrange(0, head + 1)));
        }
        if target == states {
            // No state would do: the obligation got a state of its own, which
            // brings an obligation for every symbol.
            enqueue_all(&mut queue, target, alphabet);
        }
        head = head + 1;
    }
    proof {
        assert(sigma.subrange(0, sigma.len() as int) == sigma);
    }
    cong
}

/// Grows the right congruence for `conflicts` over `alphabet`: starting from
/// the class of the empty word, every pair of a state and a symbol gets one
/// edge, to the first state (in order of creation) with which the congruence
/// keeps clear of the conflicts, or to a new state where there is none.
///
/// The search is made where the alphabet is empty or some congruence over it
/// can keep clear of the conflicts at all. The first state then takes every
/// edge: the result has one class, with a self loop for each symbol in the
/// order of the alphabet. Where the alphabet has a symbol and no congruence
/// over it can keep clear of the conflicts, no complete congruence does
/// (`lemma_complete_meets_conflict`), and the search is not made:
/// `try_omega_sprout` tells the two apart.
pub fn omega_sprout(alphabet: Alphabet, conflicts: ConflictRelation) -> (cong: RightCongruence)
    requires
        alphabet.wf(),
        conflicts.wf(),
        alphabet@.len() == 0 || conflicts.admits(alphabet@),
    ensures
        cong.wf(),
        cong.spec_alphabet() == alphabet@,
        cong.spec_labels() == seq![Seq::<char>::empty()],
        cong.spec_edges() == self_loops(alphabet@),
        cong.spec_complete(),
        cong.spec_deterministic(),
        conflicts.spec_consistent(&cong) <==> conflicts.admits(alphabet@),
{
    let cong = sprout(&alphabet, &conflicts);
    proof {
        assert(cong.spec_labels().len() == 1);
        lemma_loops_total(&cong);
        if conflicts.admits(alphabet@) {
            assert(symbols_within(cong.spec_edges(), alphabet@)) by {
                assert(cong.spec_deterministic());
            }
            lemma_admitted_is_consistent(&conflicts, cong.spec_edges(), alphabet@);
        }
        if conflicts.spec_consistent(&cong) {
            lemma_consistent_loops_admit(&conflicts, &cong, alphabet@);
        }
    }
    cong
}

/// Grows the right congruence for `conflicts` over `alphabet` as
/// `omega_sprout` does, and returns `None` where the alphabet has a symbol
/// and no congruence over it can keep clear of the conflicts.
pub fn try_omega_sprout(alphabet: Alphabet, conflicts: ConflictRelation) -> (result: Option<
    RightCongruence,
>)
    requires
        alphabet.wf(),
        conflicts.wf(),
    ensures
        result is Some <==> (alphabet@.len() == 0 || conflicts.admits(alphabet@)),
        result matches Some(cong) ==> {
            &&& cong.wf()
            &&& cong.spec_alphabet() == alphabet@
            &&& cong.spec_labels() == seq![Seq::<char>::empty()]
            &&& cong.spec_edges() == self_loops(alphabet@)
            &&& cong.spec_complete()
            &&& cong.spec_deterministic()
            &&& (conflicts.spec_consistent(&cong) <==> conflicts.admits(alphabet@))
        },
{
    if alphabet.size() > 0 {
        let ghost sigma = alphabet@;
        let mut all = RightCongruence::new(alphabet.duplicate());
        let mut k: usize = 0;
        while k < alphabet.size()
            invariant
                sigma == alphabet@,
                k <= sigma.len(),
                all.wf(),
                all.spec_labels() == seq![Seq::<char>::empty()],
                all.spec_edges() == self_loops(sigma.subrange(0, k as int)),
            decreases sigma.len() - k,
        {
            assert(all.spec_labels().len() == 1);
            all.add_edge(0, alphabet.symbol(k), 0);
            assert(all.spec_edges() =~= self_loops(sigma.subrange(0, k + 1)));
            k = k + 1;
        }
        proof {
            assert(sigma.subrange(0, sigma.len() as int) == sigma);
            if conflicts.admits(sigma) {
                assert(symbols_within(all.spec_edges(), sigma)) by {
                    assert forall|j: int| 0 <= j < all.spec_edges().len() implies sigma.contains(
                        (#[trigger] all.spec_edges()[j]).symbol,
                    ) by {
                        assert(sigma[j] == all.spec_edges()[j].symbol);
                    }
                }
                lemma_admitted_is_consistent(&conflicts, all.spec_edges(), sigma);
            }
            if conflicts.spec_consistent(&all) {
                lemma_consistent_loops_admit(&conflicts, &all, sigma);
            }
        }
        if !conflicts.consistent(&all) {
            return None;
        }
    }
    Some(omega_sprout(alphabet, conflicts))
}

} // verus!
