//! What the prefix tree of a set of words accepts.

use crate::alphabet::word_over;
use crate::congruence::RightCongruence;
use crate::index_ts::lemma_taken_edge;
use crate::prefix_tree::{
    count_with_prefix, edge_matches, has_prefix_at, is_prefix_tree, lemma_empty_set_tree,
    lemma_places_with_prefix, places_with_prefix, tree_successor, words_wf,
};
use crate::words::UltimatelyPeriodicWord;
use vstd::prelude::*;

verus! {

/// Some word of the set begins with `c`.
pub open spec fn some_word_begins(words: Seq<UltimatelyPeriodicWord>, c: Seq<char>) -> bool {
    exists|i: int| 0 <= i < words.len() && (#[trigger] words[i]).spec_has_prefix(c)
}

/// From position `m` on, the word repeats with the length of its period.
pub open spec fn periodic_from(w: UltimatelyPeriodicWord, m: int) -> bool {
    forall|j: int| j >= m ==> #[trigger] w.symbol_at(j + w.spec_recur().len()) == w.symbol_at(j)
}

/// Wherever a word is the only one of the set that begins with one of its own
/// prefixes, it repeats with the length of its period from the end of that
/// prefix on. This holds of every set of words without a base, and of every
/// set in which no word is told from the others before its base has ended.
pub open spec fn fold_safe(words: Seq<UltimatelyPeriodicWord>) -> bool {
    forall|i: int, m: nat|
        0 <= i < words.len() && count_with_prefix(words, #[trigger] words[i].spec_prefix(m)) == 1
            ==> periodic_from(words[i], m as int)
}

/// `c` and `u` are continued to prefixes of words of the set by the same
/// words.
pub open spec fn same_continuations(
    words: Seq<UltimatelyPeriodicWord>,
    c: Seq<char>,
    u: Seq<char>,
) -> bool {
    forall|v: Seq<char>| #[trigger] some_word_begins(words, c + v) <==> some_word_begins(words, u + v)
}

/// Words begin with `c` exactly if `c` is counted with some word.
pub proof fn lemma_count_positive(words: Seq<UltimatelyPeriodicWord>, c: Seq<char>)
    requires
        words_wf(words),
    ensures
        count_with_prefix(words, c) >= 1 <==> some_word_begins(words, c),
{
    lemma_places_with_prefix(words, c);
    let places = places_with_prefix(words, c);
    if places.len() >= 1 {
        assert(has_prefix_at(words, c, places[0]));
        assert(words[places[0] as int].spec_has_prefix(c));
    }
    if some_word_begins(words, c) {
        let i = choose|i: int| 0 <= i < words.len() && (#[trigger] words[i]).spec_has_prefix(c);
        assert(places.contains(i as usize));
    }
}

/// Where one word alone begins with `c`, every word that begins with `c` is
/// that word.
pub proof fn lemma_only_word(words: Seq<UltimatelyPeriodicWord>, c: Seq<char>, i: int, j: int)
    requires
        words_wf(words),
        count_with_prefix(words, c) == 1,
        0 <= i < words.len(),
        0 <= j < words.len(),
        words[i].spec_has_prefix(c),
        words[j].spec_has_prefix(c),
    ensures
        i == j,
        places_with_prefix(words, c)[0] == i,
{
    lemma_places_with_prefix(words, c);
    let places = places_with_prefix(words, c);
    assert(places.contains(i as usize));
    assert(places.contains(j as usize));
    let x = choose|x: int| 0 <= x < places.len() && places[x] == i as usize;
    let y = choose|y: int| 0 <= y < places.len() && places[y] == j as usize;
}

/// A word that begins with `d` begins with every prefix of `d`.
pub proof fn lemma_begins_with_prefix(w: UltimatelyPeriodicWord, c: Seq<char>, v: Seq<char>)
    requires
        w.spec_has_prefix(c + v),
    ensures
        w.spec_has_prefix(c),
{
    assert forall|i: int| 0 <= i < c.len() implies w.symbol_at(i) == #[trigger] c[i] by {
        assert((c + v)[i] == c[i]);
    }
}

/// Cutting a candidate short by the period of the only word that begins with
/// it, and with what is left, changes nothing about how it can be continued.
pub proof fn lemma_fold_keeps_continuations(
    words: Seq<UltimatelyPeriodicWord>,
    candidate: Seq<char>,
    v: Seq<char>,
)
    requires
        words_wf(words),
        fold_safe(words),
        count_with_prefix(words, candidate) == 1,
        candidate.len() >= words[places_with_prefix(words, candidate)[0] as int].spec_recur().len(),
        count_with_prefix(
            words,
            candidate.subrange(
                0,
                candidate.len() - words[places_with_prefix(
                    words,
                    candidate,
                )[0] as int].spec_recur().len(),
            ),
        ) == 1,
    ensures
        some_word_begins(
            words,
            candidate.subrange(
                0,
                candidate.len() - words[places_with_prefix(
                    words,
                    candidate,
                )[0] as int].spec_recur().len(),
            ) + v,
        ) <==> some_word_begins(words, candidate + v),
{
    lemma_places_with_prefix(words, candidate);
    let i = places_with_prefix(words, candidate)[0] as int;
    assert(has_prefix_at(words, candidate, places_with_prefix(words, candidate)[0]));
    let w = words[i];
    assert(w.wf());
    let r = w.spec_recur().len() as int;
    let m = candidate.len() - r;
    let base = candidate.subrange(0, m);
    assert(w.spec_has_prefix(base)) by {
        assert forall|x: int| 0 <= x < base.len() implies w.symbol_at(x) == #[trigger] base[x] by {
            assert(base[x] == candidate[x]);
        }
    }
    assert(base =~= w.spec_prefix(m as nat)) by {
        assert forall|x: int| 0 <= x < m implies base[x] == w.spec_prefix(m as nat)[x] by {
            assert(w.symbol_at(x) == base[x]);
        }
    }
    assert(count_with_prefix(words, words[i].spec_prefix(m as nat)) == 1);
    assert(periodic_from(w, m));
    if some_word_begins(words, base + v) {
        let j = choose|j: int|
            0 <= j < words.len() && (#[trigger] words[j]).spec_has_prefix(base + v);
        lemma_begins_with_prefix(words[j], base, v);
        lemma_only_word(words, base, i, j);
        assert(w.spec_has_prefix(candidate + v)) by {
            assert forall|x: int| 0 <= x < (candidate + v).len() implies w.symbol_at(x)
                == #[trigger] (candidate + v)[x] by {
                if x < candidate.len() {
                    assert(w.symbol_at(x) == candidate[x]);
                } else {
                    assert(w.symbol_at((x - r) + r) == w.symbol_at(x - r));
                    assert(w.symbol_at(x - r) == (base + v)[x - r]);
                }
            }
        }
    }
    if some_word_begins(words, candidate + v) {
        let j = choose|j: int|
            0 <= j < words.len() && (#[trigger] words[j]).spec_has_prefix(candidate + v);
        lemma_begins_with_prefix(words[j], candidate, v);
        lemma_only_word(words, candidate, i, j);
        assert(w.spec_has_prefix(base + v)) by {
            assert forall|x: int| 0 <= x < (base + v).len() implies w.symbol_at(x) == #[trigger] (
            base + v)[x] by {
                if x < m {
                    assert(w.symbol_at(x) == base[x]);
                } else {
                    assert(w.symbol_at(x + r) == w.symbol_at(x));
                    assert(w.symbol_at(x + r) == (candidate + v)[x + r]);
                }
            }
        }
    }
}

/// The state that the prefix tree reaches on `u` is continued to prefixes of
/// words by the same words as `u`; and where the tree has no run on `u`, no
/// word begins with `u`.
pub proof fn lemma_tree_tracks_prefixes(
    tree: &RightCongruence,
    alphabet: Seq<char>,
    words: Seq<UltimatelyPeriodicWord>,
    u: Seq<char>,
)
    requires
        is_prefix_tree(tree, alphabet, words),
        words_wf(words),
        fold_safe(words),
        word_over(alphabet, u),
    ensures
        match tree.spec_reached(u) {
            Some(t) => 0 <= t < tree.spec_size() && same_continuations(
                words,
                tree.spec_labels()[t],
                u,
            ),
            None => !some_word_begins(words, u),
        },
    decreases u.len(),
{
    let labels = tree.spec_labels();
    let edges = tree.spec_edges();
    if u.len() == 0 {
        assert(u =~= labels[0]);
    } else {
        let init = u.drop_last();
        let a = u.last();
        assert(word_over(alphabet, init)) by {
            assert forall|i: int| 0 <= i < init.len() implies alphabet.contains(
                #[trigger] init[i],
            ) by {
                assert(init[i] == u[i]);
            }
        }
        lemma_tree_tracks_prefixes(tree, alphabet, words, init);
        assert(u =~= init + seq![a]);
        match tree.spec_reached(init) {
            None => {
                if some_word_begins(words, u) {
                    let j = choose|j: int|
                        0 <= j < words.len() && (#[trigger] words[j]).spec_has_prefix(u);
                    lemma_begins_with_prefix(words[j], init, seq![a]);
                }
            },
            Some(t) => {
                let c = labels[t];
                let candidate = c.push(a);
                assert(candidate =~= c + seq![a]);
                assert(alphabet.contains(u[u.len() - 1]));
                let k = choose|k: int| 0 <= k < alphabet.len() && alphabet[k] == a;
                assert(edge_matches(words, labels, edges, t, alphabet[k]));
                assert forall|v: Seq<char>| #[trigger]
                    some_word_begins(words, candidate + v) <==> some_word_begins(
                        words,
                        u + v,
                    ) by {
                    assert(candidate + v =~= c + (seq![a] + v));
                    assert(u + v =~= init + (seq![a] + v));
                    assert(some_word_begins(words, c + (seq![a] + v)) <==> some_word_begins(
                        words,
                        init + (seq![a] + v),
                    ));
                }
                lemma_count_positive(words, candidate);
                match tree_successor(words, c, a) {
                    None => {
                        assert(candidate + Seq::<char>::empty() =~= candidate);
                        assert(u + Seq::<char>::empty() =~= u);
                        assert(some_word_begins(words, candidate + Seq::<char>::empty())
                            <==> some_word_begins(words, u + Seq::<char>::empty()));
                    },
                    Some(s) => {
                        let t2 = tree.spec_reached(u).unwrap();
                        assert(labels[t2] == s);
                        if s != candidate {
                            assert forall|v: Seq<char>| #[trigger]
                                some_word_begins(words, s + v) <==> some_word_begins(
                                    words,
                                    u + v,
                                ) by {
                                lemma_fold_keeps_continuations(words, candidate, v);
                                assert(some_word_begins(words, candidate + v)
                                    <==> some_word_begins(words, u + v));
                            }
                        }
                    },
                }
            },
        }
    }
}

/// The prefix tree of a fold-safe set of words has a run on exactly the finite
/// prefixes of its words: on a word over the alphabet, the tree has a run if
/// and only if some word of the set begins with it. (Of the empty set this is
/// said of the non-empty words only: its tree accepts the empty word.)
pub proof fn lemma_prefix_tree_language(
    tree: &RightCongruence,
    alphabet: Seq<char>,
    words: Seq<UltimatelyPeriodicWord>,
    u: Seq<char>,
)
    requires
        is_prefix_tree(tree, alphabet, words),
        words_wf(words),
        fold_safe(words),
        word_over(alphabet, u),
        words.len() > 0 || u.len() > 0,
    ensures
        tree.spec_reached(u) is Some <==> some_word_begins(words, u),
{
    lemma_tree_tracks_prefixes(tree, alphabet, words, u);
    match tree.spec_reached(u) {
        Some(t) => {
            let label = tree.spec_labels()[t];
            assert(label + Seq::<char>::empty() =~= label);
            assert(u + Seq::<char>::empty() =~= u);
            assert(some_word_begins(words, label + Seq::<char>::empty()) <==> some_word_begins(
                words,
                u + Seq::<char>::empty(),
            ));
            if t >= 1 {
                lemma_count_positive(words, label);
            } else if words.len() > 0 {
                assert(words[0].spec_has_prefix(label));
            } else {
                lemma_empty_set_tree(tree, alphabet, words);
                let init = u.drop_last();
                match tree.spec_reached(init) {
                    Some(q) => {
                        lemma_taken_edge(tree.spec_edges(), q, u.last());
                    },
                    None => {},
                }
            }
        },
        None => {},
    }
}

/// Every state of the prefix tree but the first is a prefix of a word of the
/// set: no other class is a state.
pub proof fn lemma_states_are_prefixes(
    tree: &RightCongruence,
    alphabet: Seq<char>,
    words: Seq<UltimatelyPeriodicWord>,
    q: int,
)
    requires
        is_prefix_tree(tree, alphabet, words),
        words_wf(words),
        1 <= q < tree.spec_size(),
    ensures
        some_word_begins(words, tree.spec_labels()[q]),
{
    lemma_count_positive(words, tree.spec_labels()[q]);
}

/// A set of words in which no word is the only one that begins with a prefix
/// of its own that is shorter than its base is fold-safe.
pub proof fn lemma_late_folds_safe(words: Seq<UltimatelyPeriodicWord>)
    requires
        words_wf(words),
        forall|i: int, m: nat|
            0 <= i < words.len() && m < words[i].spec_base().len() ==> count_with_prefix(
                words,
                #[trigger] words[i].spec_prefix(m),
            ) != 1,
    ensures
        fold_safe(words),
{
    assert forall|i: int, m: nat|
        0 <= i < words.len() && count_with_prefix(words, #[trigger] words[i].spec_prefix(m))
            == 1 implies periodic_from(words[i], m as int) by {
        let w = words[i];
        assert(w.wf());
        assert forall|j: int| j >= m implies #[trigger] w.symbol_at(j + w.spec_recur().len())
            == w.symbol_at(j) by {
            crate::words::lemma_upw_periodic(w.spec_base(), w.spec_recur(), j, 1);
        }
    }
}

/// A set of words without bases is fold-safe.
pub proof fn lemma_periodic_words_fold_safe(words: Seq<UltimatelyPeriodicWord>)
    requires
        words_wf(words),
        forall|i: int| 0 <= i < words.len() ==> (#[trigger] words[i]).spec_base().len() == 0,
    ensures
        fold_safe(words),
{
    assert forall|i: int, m: nat|
        0 <= i < words.len() && count_with_prefix(words, #[trigger] words[i].spec_prefix(m))
            == 1 implies periodic_from(words[i], m as int) by {
        let w = words[i];
        assert(w.wf());
        assert forall|j: int| j >= m implies #[trigger] w.symbol_at(j + w.spec_recur().len())
            == w.symbol_at(j) by {
            crate::words::lemma_upw_periodic(w.spec_base(), w.spec_recur(), j, 1);
        }
    }
}

} // verus!
