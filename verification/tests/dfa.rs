use automata::dfa::DFA;

fn left() -> DFA {
    DFA::from_parts_iters(
        vec![
            (0, 'a', 1),
            (1, 'a', 2),
            (2, 'a', 0),
            (0, 'b', 0),
            (1, 'b', 1),
            (2, 'b', 2),
        ],
        vec![0],
        0,
    )
}

fn right() -> DFA {
    DFA::from_parts_iters(
        vec![(0, 'a', 0), (1, 'a', 1), (0, 'b', 1), (1, 'b', 0)],
        vec![0],
        0,
    )
}

#[test]
fn dfa_operations() {
    let left = left();
    let right = right();

    let union = left.union(&right);
    for p in ["aaa", "bb", "abb", "b"] {
        assert!(union.accepts(p));
    }
    for n in ["ab", "aba", "baa", "aababba"] {
        assert!(!union.accepts(n));
    }

    let intersection = left.intersection(&right);
    for p in ["", "aaabb", "bb", "aaa"] {
        assert!(intersection.accepts(p));
    }
    for n in ["a", "b", "aba", "bba", "aaab", "baabab"] {
        assert!(!intersection.accepts(n));
    }

    let negation = left.negation();
    for p in ["a", "aa", "ba"] {
        assert!(negation.accepts(p));
    }
    for n in ["", "aaa"] {
        assert!(!negation.accepts(n));
    }
}

#[test]
fn product_has_the_reachable_pairs_only() {
    let union = left().union(&right());
    assert_eq!(union.size(), 6);
    assert_eq!(union.initial(), 0);
    let same = left().intersection(&left());
    assert_eq!(same.size(), 3);
}

#[test]
fn words_and_emptiness() {
    let left = left();
    assert_eq!(left.dfa_give_word(), Some(vec![]));
    assert!(!left.dfa_is_empty());
    let none = DFA::from_parts_iters(vec![(0, 'a', 1), (1, 'a', 0)], vec![], 0);
    assert_eq!(none.dfa_give_word(), None);
    assert!(none.dfa_is_empty());
    let far = DFA::from_parts_iters(vec![(0, 'a', 1), (1, 'b', 2)], vec![2], 0);
    assert_eq!(far.dfa_give_word(), Some(vec!['a', 'b']));
    assert_eq!(far.accepting_states(), vec![2]);
    assert_eq!(far.rejecting_states(), vec![0, 1]);
}

#[test]
fn telling_states_apart() {
    let left = left();
    assert_eq!(left.separate(0, 1), Some(vec![]));
    assert_eq!(left.separate(1, 2), Some(vec!['a']));
    assert_eq!(left.separate(1, 1), None);
    assert_eq!(left.separate(1, 7), None);
    let twins = DFA::from_parts_iters(vec![(0, 'a', 1), (1, 'a', 0)], vec![0, 1], 0);
    assert_eq!(twins.separate(0, 1), None);
}

#[test]
fn one_sided_equivalence() {
    let left = left();
    assert!(left.equivalent(&left));
    // every word that `right` accepts and `all` reads is accepted by `all`
    let all = DFA::from_parts_iters(vec![(0, 'a', 0), (0, 'b', 0)], vec![0], 0);
    assert!(all.equivalent(&right()));
    assert!(!right().equivalent(&all));
}

#[test]
fn state_count_follows_the_greatest_state() {
    let dfa = DFA::from_parts_iters(vec![(0, 'x', 4)], vec![2], 1);
    assert_eq!(dfa.size(), 5);
    assert_eq!(dfa.initial(), 1);
    assert!(!dfa.accepts("x"));
    assert_eq!(dfa.ts().alphabet().universe(), &vec!['x']);
}
