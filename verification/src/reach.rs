//! Joint runs of two transition systems: which pairs of states a common word
//! reaches, and which pairs lie on a common cycle.

use crate::index_ts::{
    lemma_run_concat, lemma_step_in_range, lemma_taken_edge, run, step, taken_edge, Edge, IndexTS,
};
use vstd::prelude::*;
use vstd::set_lib::{lemma_int_range, lemma_len_subset, set_int_range};

verus! {

/// Reading `word` leads `left` from `p_start` to `p` and `right` from `q_start` to `q`.
pub open spec fn joint_run<C1, C2>(
    left: Seq<Edge<C1>>,
    right: Seq<Edge<C2>>,
    p_start: int,
    q_start: int,
    word: Seq<char>,
    p: int,
    q: int,
) -> bool {
    run(left, p_start, word) == Some(p) && run(right, q_start, word) == Some(q)
}

/// Some word leads `left` from `p_start` to `p` and `right` from `q_start` to `q`.
pub open spec fn jointly_reachable<C1, C2>(
    left: Seq<Edge<C1>>,
    right: Seq<Edge<C2>>,
    p_start: int,
    q_start: int,
    p: int,
    q: int,
) -> bool {
    exists|word: Seq<char>| joint_run(left, right, p_start, q_start, word, p, q)
}

/// Some non-empty word leads `left` from `p` back to `p` and `right` from `q`
/// back to `q`.
pub open spec fn on_joint_cycle<C1, C2>(
    left: Seq<Edge<C1>>,
    right: Seq<Edge<C2>>,
    p: int,
    q: int,
) -> bool {
    exists|word: Seq<char>| word.len() > 0 && #[trigger] joint_run(left, right, p, q, word, p, q)
}

/// Whether the pair `(p, q)` is listed in `pairs`.
pub open spec fn lists_pair(pairs: Seq<(usize, usize)>, p: int, q: int) -> bool {
    exists|k: int| 0 <= k < pairs.len() && #[trigger] pairs[k] == (p as usize, q as usize) && 0 <= p
        <= usize::MAX && 0 <= q <= usize::MAX
}

/// Every joint step from one of the first `upto` pairs leads to a listed pair.
pub open spec fn closed_upto<C1, C2>(
    left: Seq<Edge<C1>>,
    right: Seq<Edge<C2>>,
    pairs: Seq<(usize, usize)>,
    upto: int,
) -> bool {
    forall|k: int, a: char|
        0 <= k < upto ==> #[trigger] joint_step_listed(left, right, pairs, pairs[k], a)
}

/// The joint step from `pair` on `a`, where both systems take one, leads to a
/// listed pair.
pub open spec fn joint_step_listed<C1, C2>(
    left: Seq<Edge<C1>>,
    right: Seq<Edge<C2>>,
    pairs: Seq<(usize, usize)>,
    pair: (usize, usize),
    a: char,
) -> bool {
    match (step(left, pair.0 as int, a), step(right, pair.1 as int, a)) {
        (Some(t1), Some(t2)) => lists_pair(pairs, t1, t2),
        _ => true,
    }
}

/// A sequence of distinct integers below `m` has at most `m` entries.
pub proof fn lemma_distinct_in_range(s: Seq<int>, m: int)
    requires
        s.no_duplicates(),
        forall|i: int| 0 <= i < s.len() ==> 0 <= #[trigger] s[i] < m,
    ensures
        s.len() <= m || s.len() == 0,
{
    if s.len() > 0 {
        assert(0 <= s[0] < m);
        s.unique_seq_to_set();
        lemma_int_range(0, m);
        assert(s.to_set().subset_of(set_int_range(0, m))) by {
            assert forall|x: int| s.to_set().contains(x) implies set_int_range(0, m).contains(
                x,
            ) by {
                let i = choose|i: int| 0 <= i < s.len() && s[i] == x;
                assert(0 <= s[i] < m);
            }
        }
        lemma_len_subset(s.to_set(), set_int_range(0, m));
    }
}

/// A list of distinct pairs below `(n1, n2)` has at most `n1 * n2` entries.
pub proof fn lemma_distinct_pairs(pairs: Seq<(usize, usize)>, n1: nat, n2: nat)
    requires
        pairs.no_duplicates(),
        forall|k: int| 0 <= k < pairs.len() ==> (#[trigger] pairs[k]).0 < n1 && pairs[k].1 < n2,
    ensures
        pairs.len() <= n1 * n2,
{
    let codes = Seq::new(pairs.len(), |k: int| pairs[k].0 * n2 + pairs[k].1);
    assert forall|i: int, j: int| 0 <= i < codes.len() && 0 <= j < codes.len() && i != j implies codes[i]
        != codes[j] by {
        let a = pairs[i];
        let b = pairs[j];
        assert(a.0 < n1 && a.1 < n2 && b.0 < n1 && b.1 < n2);
        if a.0 * n2 + a.1 == b.0 * n2 + b.1 {
            assert(a.0 == b.0) by (nonlinear_arith)
                requires
                    a.0 * n2 + a.1 == b.0 * n2 + b.1,
                    a.1 < n2,
                    b.1 < n2,
            ;
            assert(a == b);
        }
    }
    assert forall|i: int| 0 <= i < codes.len() implies 0 <= #[trigger] codes[i] < n1 * n2 by {
        let a = pairs[i];
        assert(a.0 < n1 && a.1 < n2);
        assert(a.0 * n2 + a.1 < n1 * n2) by (nonlinear_arith)
            requires
                a.0 < n1,
                a.1 < n2,
        ;
        assert(a.0 * n2 >= 0) by (nonlinear_arith);
    }
    lemma_distinct_in_range(codes, (n1 * n2) as int);
}

/// Listing one more pair keeps what was listed and what was closed.
pub proof fn lemma_closed_push<C1, C2>(
    left: Seq<Edge<C1>>,
    right: Seq<Edge<C2>>,
    pairs: Seq<(usize, usize)>,
    upto: int,
    pair: (usize, usize),
)
    requires
        closed_upto(left, right, pairs, upto),
        upto <= pairs.len(),
    ensures
        closed_upto(left, right, pairs.push(pair), upto),
        forall|p: int, q: int| lists_pair(pairs, p, q) ==> lists_pair(pairs.push(pair), p, q),
        lists_pair(pairs.push(pair), pair.0 as int, pair.1 as int),
{
    let more = pairs.push(pair);
    assert forall|p: int, q: int| lists_pair(pairs, p, q) implies lists_pair(more, p, q) by {
        let k = choose|k: int|
            0 <= k < pairs.len() && #[trigger] pairs[k] == (p as usize, q as usize);
        assert(more[k] == (p as usize, q as usize));
    }
    assert(more[pairs.len() as int] == pair);
    assert forall|k: int, a: char| 0 <= k < upto implies #[trigger] joint_step_listed(
        left,
        right,
        more,
        more[k],
        a,
    ) by {
        assert(more[k] == pairs[k]);
        assert(joint_step_listed(left, right, pairs, pairs[k], a));
    }
}

/// A list that holds the start and is closed under joint steps holds every
/// pair that a joint run from the start reaches.
pub proof fn lemma_closed_complete<C1, C2>(
    left: Seq<Edge<C1>>,
    right: Seq<Edge<C2>>,
    pairs: Seq<(usize, usize)>,
    p_start: int,
    q_start: int,
    word: Seq<char>,
    p: int,
    q: int,
)
    requires
        lists_pair(pairs, p_start, q_start),
        closed_upto(left, right, pairs, pairs.len() as int),
        joint_run(left, right, p_start, q_start, word, p, q),
    ensures
        lists_pair(pairs, p, q),
    decreases word.len(),
{
    if word.len() > 0 {
        let init = word.drop_last();
        let p_mid = run(left, p_start, init).unwrap();
        let q_mid = run(right, q_start, init).unwrap();
        lemma_closed_complete(left, right, pairs, p_start, q_start, init, p_mid, q_mid);
        let k = choose|k: int|
            0 <= k < pairs.len() && #[trigger] pairs[k] == (p_mid as usize, q_mid as usize) && 0 <= p_mid
                <= usize::MAX && 0 <= q_mid <= usize::MAX;
        assert(joint_step_listed(left, right, pairs, pairs[k], word.last()));
    }
}

/// Whether `(p, q)` is listed in `pairs`.
pub fn find_pair(pairs: &Vec<(usize, usize)>, p: usize, q: usize) -> (found: bool)
    ensures
        found == lists_pair(pairs@, p as int, q as int),
{
    let mut k: usize = 0;
    while k < pairs.len()
        invariant
            k <= pairs.len(),
            forall|j: int| 0 <= j < k ==> pairs@[j] != (p, q),
        decreases pairs.len() - k,
    {
        if pairs[k].0 == p && pairs[k].1 == q {
            return true;
        }
        k = k + 1;
    }
    false
}

/// The pairs of states that a common word reaches from `(p_start, q_start)`, each listed
/// once, the start first.
pub fn reachable_pairs<Q1, C1: Copy, Q2, C2: Copy>(
    left: &IndexTS<Q1, C1>,
    right: &IndexTS<Q2, C2>,
    p_start: usize,
    q_start: usize,
) -> (pairs: Vec<(usize, usize)>)
    requires
        left.wf(),
        right.wf(),
        p_start < left.spec_size(),
        q_start < right.spec_size(),
    ensures
        pairs@.no_duplicates(),
        pairs@.len() > 0 && pairs@[0] == (p_start, q_start),
        forall|k: int|
            0 <= k < pairs@.len() ==> (#[trigger] pairs@[k]).0 < left.spec_size() && pairs@[k].1
                < right.spec_size(),
        forall|p: int, q: int|
            lists_pair(pairs@, p, q) <==> jointly_reachable(
                left.spec_edges(),
                right.spec_edges(),
                p_start as int,
                q_start as int,
                p,
                q,
            ),
{
    let ghost le = left.spec_edges();
    let ghost re = right.spec_edges();
    let ghost n1 = left.spec_size();
    let ghost n2 = right.spec_size();
    let mut pairs: Vec<(usize, usize)> = Vec::new();
    pairs.push((p_start, q_start));
    let ghost mut words: Seq<Seq<char>> = seq![Seq::<char>::empty()];
    let mut head: usize = 0;
    let edge_total: usize = left.edge_count();
    proof {
        assert(lists_pair(pairs@, p_start as int, q_start as int)) by {
            assert(pairs@[0] == (p_start, q_start));
        }
    }
    while head < pairs.len()
        invariant
            left.wf(),
            right.wf(),
            le == left.spec_edges(),
            re == right.spec_edges(),
            n1 == left.spec_size(),
            n2 == right.spec_size(),
            edge_total == le.len(),
            p_start < n1,
            q_start < n2,
            head <= pairs@.len(),
            pairs@.len() > 0 && pairs@[0] == (p_start, q_start),
            pairs@.no_duplicates(),
            words.len() == pairs@.len(),
            forall|k: int|
                0 <= k < pairs@.len() ==> (#[trigger] pairs@[k]).0 < n1 && pairs@[k].1 < n2,
            forall|k: int|
                0 <= k < pairs@.len() ==> joint_run(
                    le,
                    re,
                    p_start as int,
                    q_start as int,
                    #[trigger] words[k],
                    pairs@[k].0 as int,
                    pairs@[k].1 as int,
                ),
            closed_upto(le, re, pairs@, head as int),
        decreases n1 * n2 - pairs@.len(), pairs@.len() - head,
    {
        let p: usize = pairs[head].0;
        let q: usize = pairs[head].1;
        let ghost before = pairs@.len();
        proof {
            lemma_distinct_pairs(pairs@, n1, n2);
        }
        let mut i: usize = 0;
        while i < edge_total
            invariant
                left.wf(),
                right.wf(),
                le == left.spec_edges(),
                re == right.spec_edges(),
                n1 == left.spec_size(),
                n2 == right.spec_size(),
                edge_total == le.len(),
                i <= edge_total,
                head < pairs@.len(),
                before <= pairs@.len(),
                pairs@[head as int] == (p, q),
                pairs@.len() > 0 && pairs@[0] == (p_start, q_start),
                pairs@.no_duplicates(),
                words.len() == pairs@.len(),
                forall|k: int|
                    0 <= k < pairs@.len() ==> (#[trigger] pairs@[k]).0 < n1 && pairs@[k].1 < n2,
                forall|k: int|
                    0 <= k < pairs@.len() ==> joint_run(
                        le,
                        re,
                        p_start as int,
                        q_start as int,
                        #[trigger] words[k],
                        pairs@[k].0 as int,
                        pairs@[k].1 as int,
                    ),
                closed_upto(le, re, pairs@, head as int),
                forall|j: int|
                    0 <= j < i && (#[trigger] le[j]).source == p ==> joint_step_listed(
                        le,
                        re,
                        pairs@,
                        (p, q),
                        le[j].symbol,
                    ),
            decreases edge_total - i,
        {
            let e = left.edge(i);
            if e.source == p {
                let t1 = left.target(p, e.symbol);
                let t2 = right.target(q, e.symbol);
                match (t1, t2) {
                    (Some(t1), Some(t2)) => {
                        proof {
                            lemma_step_in_range(le, n1, p as int, e.symbol);
                            lemma_step_in_range(re, n2, q as int, e.symbol);
                        }
                        if !find_pair(&pairs, t1, t2) {
                            proof {
                                lemma_closed_push(le, re, pairs@, head as int, (t1, t2));
                                let w = words[head as int].push(e.symbol);
                                assert(w.drop_last() == words[head as int]);
                                assert(joint_run(
                                    le,
                                    re,
                                    p_start as int,
                                    q_start as int,
                                    words[head as int],
                                    p as int,
                                    q as int,
                                ));
                                assert(joint_run(
                                    le,
                                    re,
                                    p_start as int,
                                    q_start as int,
                                    w,
                                    t1 as int,
                                    t2 as int,
                                ));
                                assert forall|j: int|
                                    0 <= j < i && (#[trigger] le[j]).source
                                        == p implies joint_step_listed(
                                    le,
                                    re,
                                    pairs@.push((t1, t2)),
                                    (p, q),
                                    le[j].symbol,
                                ) by {
                                    assert(joint_step_listed(le, re, pairs@, (p, q), le[j].symbol));
                                }
                                assert forall|k: int| 0 <= k < pairs@.len() implies pairs@[k] != (
                                    t1,
                                    t2,
                                ) by {
                                    if pairs@[k] == (t1, t2) {
                                        assert(lists_pair(pairs@, t1 as int, t2 as int));
                                    }
                                }
                                words = words.push(w);
                            }
                            pairs.push((t1, t2));
                        }
                    },
                    _ => {},
                }
            }
            i = i + 1;
        }
        proof {
            assert forall|a: char| joint_step_listed(le, re, pairs@, (p, q), a) by {
                lemma_taken_edge(le, p as int, a);
                match taken_edge(le, p as int, a) {
                    Some(j) => {
                        assert(le[j].source == p);
                        assert(joint_step_listed(le, re, pairs@, (p, q), le[j].symbol));
                    },
                    None => {},
                }
            }
            assert forall|k: int, a: char| 0 <= k < head + 1 implies #[trigger] joint_step_listed(
                le,
                re,
                pairs@,
                pairs@[k],
                a,
            ) by {
                if k == head {
                    assert(joint_step_listed(le, re, pairs@, (p, q), a));
                }
            }
            lemma_distinct_pairs(pairs@, n1, n2);
        }
        head = head + 1;
    }
    proof {
        assert(lists_pair(pairs@, p_start as int, q_start as int)) by {
            assert(pairs@[0] == (p_start, q_start));
        }
        assert forall|p: int, q: int|
            lists_pair(pairs@, p, q) <==> jointly_reachable(le, re, p_start as int, q_start as int, p, q) by {
            if lists_pair(pairs@, p, q) {
                let k = choose|k: int|
                    0 <= k < pairs@.len() && #[trigger] pairs@[k] == (p as usize, q as usize) && 0
                        <= p <= usize::MAX && 0 <= q <= usize::MAX;
                assert(joint_run(le, re, p_start as int, q_start as int, words[k], p, q));
            }
            if jointly_reachable(le, re, p_start as int, q_start as int, p, q) {
                let w = choose|w: Seq<char>| joint_run(le, re, p_start as int, q_start as int, w, p, q);
                lemma_closed_complete(le, re, pairs@, p_start as int, q_start as int, w, p, q);
            }
        }
    }
    pairs
}

/// Both systems step from `(p, q)` to `(p, q)` on one symbol.
pub open spec fn has_joint_self_loop<C1, C2>(
    left: Seq<Edge<C1>>,
    right: Seq<Edge<C2>>,
    p: int,
    q: int,
) -> bool {
    exists|a: char| #[trigger] step(left, p, a) == Some(p) && step(right, q, a) == Some(q)
}

/// `(p_other, q_other)` is another pair of the strongly connected component of `(p, q)`:
/// each of the two is reached from the other.
pub open spec fn shares_component<C1, C2>(
    left: Seq<Edge<C1>>,
    right: Seq<Edge<C2>>,
    p: int,
    q: int,
    p_other: int,
    q_other: int,
) -> bool {
    &&& (p_other, q_other) != (p, q)
    &&& jointly_reachable(left, right, p, q, p_other, q_other)
    &&& jointly_reachable(left, right, p_other, q_other, p, q)
}

/// The strongly connected component of `(p, q)` in the product of `left` and
/// `right` is not trivial: it holds another pair, or `(p, q)` has a self loop.
pub open spec fn in_nontrivial_component<C1, C2>(
    left: Seq<Edge<C1>>,
    right: Seq<Edge<C2>>,
    p: int,
    q: int,
) -> bool {
    has_joint_self_loop(left, right, p, q) || exists|p_other: int, q_other: int|
        #[trigger] shares_component(left, right, p, q, p_other, q_other)
}

/// A pair lies on a joint cycle exactly if its strongly connected component is
/// not trivial.
pub proof fn lemma_cycle_iff_nontrivial<C1, C2>(
    left: Seq<Edge<C1>>,
    right: Seq<Edge<C2>>,
    p: int,
    q: int,
)
    ensures
        on_joint_cycle(left, right, p, q) <==> in_nontrivial_component(left, right, p, q),
{
    if on_joint_cycle(left, right, p, q) {
        let w = choose|w: Seq<char>| w.len() > 0 && #[trigger] joint_run(left, right, p, q, w, p, q);
        let a = w[0];
        let first = seq![a];
        let rest = w.subrange(1, w.len() as int);
        assert(w == first + rest);
        lemma_run_concat(left, p, first, rest);
        lemma_run_concat(right, q, first, rest);
        crate::index_ts::lemma_run_single(left, p, a);
        crate::index_ts::lemma_run_single(right, q, a);
        let t1 = step(left, p, a).unwrap();
        let t2 = step(right, q, a).unwrap();
        if (t1, t2) == (p, q) {
            assert(step(left, p, a) == Some(p) && step(right, q, a) == Some(q));
            assert(has_joint_self_loop(left, right, p, q));
        } else {
            assert(joint_run(left, right, p, q, first, t1, t2));
            assert(joint_run(left, right, t1, t2, rest, p, q));
            assert(shares_component(left, right, p, q, t1, t2));
        }
    }
    if has_joint_self_loop(left, right, p, q) {
        let a = choose|a: char| #[trigger] step(left, p, a) == Some(p) && step(right, q, a) == Some(q);
        crate::index_ts::lemma_run_single(left, p, a);
        crate::index_ts::lemma_run_single(right, q, a);
        assert(joint_run(left, right, p, q, seq![a], p, q));
    }
    if exists|p_other: int, q_other: int| #[trigger] shares_component(left, right, p, q, p_other, q_other) {
        let (p_other, q_other) = choose|p_other: int, q_other: int| #[trigger]
            shares_component(left, right, p, q, p_other, q_other);
        let u = choose|u: Seq<char>| joint_run(left, right, p, q, u, p_other, q_other);
        let v = choose|v: Seq<char>| joint_run(left, right, p_other, q_other, v, p, q);
        lemma_run_concat(left, p, u, v);
        lemma_run_concat(right, q, u, v);
        assert(u.len() > 0);
        assert(joint_run(left, right, p, q, u + v, p, q));
    }
}

/// Some word leads from `q_start` to `t`.
pub open spec fn reachable<C>(edges: Seq<Edge<C>>, q_start: int, t: int) -> bool {
    exists|word: Seq<char>| #[trigger] run(edges, q_start, word) == Some(t)
}

/// Whether the state `t` is listed in `found`.
pub open spec fn lists_state(found: Seq<(Vec<char>, usize)>, t: int) -> bool {
    exists|k: int| 0 <= k < found.len() && (#[trigger] found[k]).1 == t
}

/// The state `t` is listed in `found` with a word of at most `bound` symbols.
pub open spec fn lists_state_within(found: Seq<(Vec<char>, usize)>, t: int, bound: int) -> bool {
    exists|k: int| 0 <= k < found.len() && (#[trigger] found[k]).1 == t && found[k].0@.len() <= bound
}

/// Every step from one of the first `upto` listed states leads to a state
/// that is listed with a word at most one symbol longer.
pub open spec fn steps_listed<C>(
    edges: Seq<Edge<C>>,
    found: Seq<(Vec<char>, usize)>,
    upto: int,
) -> bool {
    forall|k: int, a: char|
        0 <= k < upto ==> #[trigger] step_listed(
            edges,
            found,
            found[k].1 as int,
            a,
            found[k].0@.len() as int + 1,
        )
}

/// The step from `q` on `a`, where there is one, leads to a state that is
/// listed with a word of at most `bound` symbols.
pub open spec fn step_listed<C>(
    edges: Seq<Edge<C>>,
    found: Seq<(Vec<char>, usize)>,
    q: int,
    a: char,
    bound: int,
) -> bool {
    match step(edges, q, a) {
        Some(t) => lists_state_within(found, t, bound),
        None => true,
    }
}

/// A list that holds the start with the empty word and is closed under steps
/// holds every state that a run from the start reaches, with a word that is no
/// longer than the word of the run.
pub proof fn lemma_steps_listed_complete<C>(
    edges: Seq<Edge<C>>,
    found: Seq<(Vec<char>, usize)>,
    q_start: int,
    word: Seq<char>,
)
    requires
        lists_state_within(found, q_start, 0),
        steps_listed(edges, found, found.len() as int),
        run(edges, q_start, word) is Some,
    ensures
        lists_state_within(found, run(edges, q_start, word).unwrap(), word.len() as int),
    decreases word.len(),
{
    if word.len() > 0 {
        let init = word.drop_last();
        lemma_steps_listed_complete(edges, found, q_start, init);
        let t = run(edges, q_start, init).unwrap();
        let k = choose|k: int|
            0 <= k < found.len() && (#[trigger] found[k]).1 == t && found[k].0@.len()
                <= init.len();
        assert(step_listed(edges, found, found[k].1 as int, word.last(), found[k].0@.len() as int + 1));
        let u = run(edges, q_start, word).unwrap();
        let j = choose|j: int|
            0 <= j < found.len() && (#[trigger] found[j]).1 == u && found[j].0@.len()
                <= found[k].0@.len() + 1;
        assert(found[j].0@.len() <= word.len());
    }
}

/// Listing one more state keeps what was listed and what was closed.
pub proof fn lemma_steps_listed_push<C>(
    edges: Seq<Edge<C>>,
    found: Seq<(Vec<char>, usize)>,
    upto: int,
    entry: (Vec<char>, usize),
    q: int,
    a: char,
    bound: int,
)
    requires
        steps_listed(edges, found, upto),
        upto <= found.len(),
    ensures
        steps_listed(edges, found.push(entry), upto),
        forall|t: int| lists_state(found, t) ==> lists_state(found.push(entry), t),
        lists_state(found.push(entry), entry.1 as int),
        lists_state_within(found.push(entry), entry.1 as int, entry.0@.len() as int),
        step_listed(edges, found, q, a, bound) ==> step_listed(edges, found.push(entry), q, a, bound),
{
    let more = found.push(entry);
    assert forall|t: int| lists_state(found, t) implies lists_state(more, t) by {
        let k = choose|k: int| 0 <= k < found.len() && (#[trigger] found[k]).1 == t;
        assert(more[k].1 == t);
    }
    assert forall|t: int, c: int| lists_state_within(found, t, c) implies lists_state_within(
        more,
        t,
        c,
    ) by {
        let k = choose|k: int|
            0 <= k < found.len() && (#[trigger] found[k]).1 == t && found[k].0@.len() <= c;
        assert(more[k] == found[k]);
    }
    assert(more[found.len() as int] == entry);
    assert forall|k: int, b: char| 0 <= k < upto implies #[trigger] step_listed(
        edges,
        more,
        more[k].1 as int,
        b,
        more[k].0@.len() as int + 1,
    ) by {
        assert(more[k] == found[k]);
        assert(step_listed(edges, found, found[k].1 as int, b, found[k].0@.len() as int + 1));
    }
}

/// The states that runs from `q_start` reach, each listed once with a shortest
/// word that leads to it, `q_start` with the empty word first; the words do
/// not get shorter along the list.
pub fn representatives<Q, C: Copy>(ts: &IndexTS<Q, C>, q_start: usize) -> (found: Vec<
    (Vec<char>, usize),
>)
    requires
        ts.wf(),
        q_start < ts.spec_size(),
    ensures
        found@.len() > 0,
        found@[0].1 == q_start,
        found@[0].0@ == Seq::<char>::empty(),
        forall|k: int|
            0 <= k < found@.len() ==> (#[trigger] found@[k]).1 < ts.spec_size() && run(
                ts.spec_edges(),
                q_start as int,
                found@[k].0@,
            ) == Some(found@[k].1 as int),
        forall|i: int, j: int|
            0 <= i < j < found@.len() ==> (#[trigger] found@[i]).1 != (#[trigger] found@[j]).1,
        forall|i: int, j: int|
            0 <= i <= j < found@.len() ==> (#[trigger] found@[i]).0@.len() <= (
            #[trigger] found@[j]).0@.len(),
        forall|t: int| lists_state(found@, t) <==> reachable(ts.spec_edges(), q_start as int, t),
        forall|k: int, word: Seq<char>|
            0 <= k < found@.len() && #[trigger] run(ts.spec_edges(), q_start as int, word) == Some(
                (#[trigger] found@[k]).1 as int,
            ) ==> found@[k].0@.len() <= word.len(),
{
    let ghost edges = ts.spec_edges();
    let ghost n = ts.spec_size();
    let mut found: Vec<(Vec<char>, usize)> = Vec::new();
    found.push((Vec::new(), q_start));
    let total = ts.edge_count();
    let mut head: usize = 0;
    proof {
        assert(found@[0].1 == q_start);
        assert(lists_state(found@, q_start as int));
    }
    while head < found.len()
        invariant
            ts.wf(),
            edges == ts.spec_edges(),
            n == ts.spec_size(),
            total == edges.len(),
            q_start < n,
            head <= found@.len(),
            found@.len() > 0,
            found@[0].1 == q_start,
            found@[0].0@ == Seq::<char>::empty(),
            forall|k: int|
                0 <= k < found@.len() ==> (#[trigger] found@[k]).1 < n && run(
                    edges,
                    q_start as int,
                    found@[k].0@,
                ) == Some(found@[k].1 as int),
            forall|i: int, j: int|
                0 <= i < j < found@.len() ==> (#[trigger] found@[i]).1 != (#[trigger] found@[j]).1,
            forall|i: int, j: int|
                0 <= i <= j < found@.len() ==> (#[trigger] found@[i]).0@.len() <= (
                #[trigger] found@[j]).0@.len(),
            head < found@.len() ==> forall|j: int|
                0 <= j < found@.len() ==> (#[trigger] found@[j]).0@.len() <= found@[head as int].0@.len()
                    + 1,
            steps_listed(edges, found@, head as int),
        decreases n - found@.len(), found@.len() - head,
    {
        let q: usize = found[head].1;
        let ghost before = found@.len();
        let ghost depth: int = found@[head as int].0@.len() as int;
        proof {
            lemma_distinct_states(found@, n);
        }
        let mut i: usize = 0;
        while i < total
            invariant
                ts.wf(),
                edges == ts.spec_edges(),
                n == ts.spec_size(),
                total == edges.len(),
                q_start < n,
                i <= total,
                head < found@.len(),
                before <= found@.len(),
                found@[head as int].1 == q,
                found@[head as int].0@.len() == depth,
                found@.len() > 0,
                found@[0].1 == q_start,
                found@[0].0@ == Seq::<char>::empty(),
                forall|k: int|
                    0 <= k < found@.len() ==> (#[trigger] found@[k]).1 < n && run(
                        edges,
                        q_start as int,
                        found@[k].0@,
                    ) == Some(found@[k].1 as int),
                forall|i: int, j: int|
                    0 <= i < j < found@.len() ==> (#[trigger] found@[i]).1 != (
                    #[trigger] found@[j]).1,
                forall|i: int, j: int|
                    0 <= i <= j < found@.len() ==> (#[trigger] found@[i]).0@.len() <= (
                    #[trigger] found@[j]).0@.len(),
                forall|j: int|
                    0 <= j < found@.len() ==> (#[trigger] found@[j]).0@.len() <= depth + 1,
                steps_listed(edges, found@, head as int),
                forall|j: int|
                    0 <= j < i && (#[trigger] edges[j]).source == q ==> step_listed(
                        edges,
                        found@,
                        q as int,
                        edges[j].symbol,
                        depth + 1,
                    ),
            decreases total - i,
        {
            let e = ts.edge(i);
            if e.source == q {
                match ts.target(q, e.symbol) {
                    Some(t) => {
                        proof {
                            lemma_step_in_range(edges, n, q as int, e.symbol);
                        }
                        if !has_state(&found, t) {
                            let mut word = crate::words::copy_range(
                                &found[head].0,
                                0,
                                found[head].0.len(),
                            ).0;
                            word.push(e.symbol);
                            proof {
                                let old_word = found@[head as int].0@;
                                assert(word@.drop_last() == old_word);
                                assert(run(edges, q_start as int, old_word) == Some(q as int));
                                assert(run(edges, q_start as int, word@) == Some(t as int));
                                lemma_steps_listed_push(
                                    edges,
                                    found@,
                                    head as int,
                                    (word, t),
                                    q as int,
                                    e.symbol,
                                    depth + 1,
                                );
                                assert forall|j: int|
                                    0 <= j < i && (#[trigger] edges[j]).source
                                        == q implies step_listed(
                                    edges,
                                    found@.push((word, t)),
                                    q as int,
                                    edges[j].symbol,
                                    depth + 1,
                                ) by {
                                    lemma_steps_listed_push(
                                        edges,
                                        found@,
                                        head as int,
                                        (word, t),
                                        q as int,
                                        edges[j].symbol,
                                        depth + 1,
                                    );
                                }
                                assert forall|k: int| 0 <= k < found@.len() implies (
                                #[trigger] found@[k]).1 != t by {
                                    if found@[k].1 == t {
                                        assert(lists_state(found@, t as int));
                                    }
                                }
                            }
                            found.push((word, t));
                        } else {
                            proof {
                                let j = choose|j: int|
                                    0 <= j < found@.len() && (#[trigger] found@[j]).1 == t;
                                assert(found@[j].0@.len() <= depth + 1);
                                assert(lists_state_within(found@, t as int, depth + 1));
                            }
                        }
                    },
                    None => {},
                }
            }
            i = i + 1;
        }
        proof {
            let bound = depth + 1;
            assert forall|a: char| #[trigger] step_listed(edges, found@, q as int, a, bound) by {
                lemma_taken_edge(edges, q as int, a);
                match taken_edge(edges, q as int, a) {
                    Some(j) => {
                        assert(edges[j].source == q);
                        assert(step_listed(edges, found@, q as int, edges[j].symbol, depth + 1));
                    },
                    None => {},
                }
            }
            assert forall|k: int, a: char| 0 <= k < head + 1 implies #[trigger] step_listed(
                edges,
                found@,
                found@[k].1 as int,
                a,
                found@[k].0@.len() as int + 1,
            ) by {
                if k == head {
                    assert(step_listed(edges, found@, q as int, a, depth + 1));
                }
            }
            lemma_distinct_states(found@, n);
            if head + 1 < found@.len() {
                assert forall|j: int| 0 <= j < found@.len() implies (
                #[trigger] found@[j]).0@.len() <= found@[head + 1].0@.len() + 1 by {
                    assert(found@[head as int].0@.len() <= found@[head + 1].0@.len());
                }
            }
        }
        head = head + 1;
    }
    proof {
        assert(lists_state(found@, q_start as int));
        assert(lists_state_within(found@, q_start as int, 0)) by {
            assert(found@[0].1 == q_start && found@[0].0@.len() <= 0);
        }
        assert forall|t: int| lists_state(found@, t) <==> reachable(edges, q_start as int, t) by {
            if lists_state(found@, t) {
                let k = choose|k: int| 0 <= k < found@.len() && (#[trigger] found@[k]).1 == t;
                assert(run(edges, q_start as int, found@[k].0@) == Some(t));
            }
            if reachable(edges, q_start as int, t) {
                let w = choose|w: Seq<char>| #[trigger] run(edges, q_start as int, w) == Some(t);
                lemma_steps_listed_complete(edges, found@, q_start as int, w);
                let k = choose|k: int|
                    0 <= k < found@.len() && (#[trigger] found@[k]).1 == t && found@[k].0@.len()
                        <= w.len();
            }
        }
        assert forall|k: int, word: Seq<char>|
            0 <= k < found@.len() && #[trigger] run(edges, q_start as int, word) == Some(
                (#[trigger] found@[k]).1 as int,
            ) implies found@[k].0@.len() <= word.len() by {
            lemma_steps_listed_complete(edges, found@, q_start as int, word);
            let j = choose|j: int|
                0 <= j < found@.len() && (#[trigger] found@[j]).1 == found@[k].1
                    && found@[j].0@.len() <= word.len();
            if j < k {
                assert(found@[j].1 != found@[k].1);
            }
            if k < j {
                assert(found@[k].1 != found@[j].1);
            }
        }
    }
    found
}

/// A list of distinct states below `n` has at most `n` entries.
pub proof fn lemma_distinct_states(found: Seq<(Vec<char>, usize)>, n: nat)
    requires
        forall|k: int| 0 <= k < found.len() ==> (#[trigger] found[k]).1 < n,
        forall|i: int, j: int|
            0 <= i < j < found.len() ==> (#[trigger] found[i]).1 != (#[trigger] found[j]).1,
    ensures
        found.len() <= n,
{
    let states = Seq::new(found.len(), |k: int| found[k].1 as int);
    assert forall|i: int, j: int|
        0 <= i < states.len() && 0 <= j < states.len() && i != j implies states[i]
        != states[j] by {
        if i < j {
            assert(found[i].1 != found[j].1);
        } else {
            assert(found[j].1 != found[i].1);
        }
    }
    assert forall|k: int| 0 <= k < states.len() implies 0 <= #[trigger] states[k] < n by {
        assert(found[k].1 < n);
    }
    lemma_distinct_in_range(states, n as int);
}

/// Whether the state `t` is listed in `found`.
pub fn has_state(found: &Vec<(Vec<char>, usize)>, t: usize) -> (b: bool)
    ensures
        b == lists_state(found@, t as int),
{
    let mut k: usize = 0;
    while k < found.len()
        invariant
            k <= found@.len(),
            forall|j: int| 0 <= j < k ==> (#[trigger] found@[j]).1 != t,
        decreases found@.len() - k,
    {
        if found[k].1 == t {
            return true;
        }
        k = k + 1;
    }
    false
}

} // verus!
