use automata::alphabet::Alphabet;
use automata::class::Class;
use automata::dfa::prefix_acceptor;
use automata::prefix_tree::{prefix_successor, prefix_tree, Prefixes};
use automata::words::UltimatelyPeriodicWord;

fn three_words() -> Vec<UltimatelyPeriodicWord> {
    vec![
        UltimatelyPeriodicWord::periodic("a"),
        UltimatelyPeriodicWord::periodic("b"),
        UltimatelyPeriodicWord::periodic("ab"),
    ]
}

#[test]
fn set_prefixes_automaton() {
    let words = three_words();
    let prefix_dfa = prefix_acceptor(&words);
    for p in [
        "",
        "a",
        "b",
        "ab",
        "aaaaaaaaaa",
        "abababababab",
        "abababababababa",
    ] {
        assert!(prefix_dfa.accepts(p));
    }
    for n in ["bba", "aab", "abb", "abababbabababaa"] {
        assert!(!prefix_dfa.accepts(n));
    }
}

#[test]
fn successor_follows_the_rule() {
    let words = three_words();
    let eps = Class::epsilon();
    // several words begin with "a": the candidate is kept
    assert_eq!(prefix_successor(&words, &eps, 'a'), Some(Class::from_text("a")));
    // one word begins with "b", three with the empty class: the candidate is kept
    assert_eq!(prefix_successor(&words, &eps, 'b'), Some(Class::from_text("b")));
    // one word begins with "bb" and one with "b": folded back
    assert_eq!(
        prefix_successor(&words, &Class::from_text("b"), 'b'),
        Some(Class::from_text("b"))
    );
    // no word begins with "ba"
    assert_eq!(prefix_successor(&words, &Class::from_text("b"), 'a'), None);
    // "abab" is cut by the period of (ab)^w to "ab", which only that word begins with
    assert_eq!(
        prefix_successor(&words, &Class::from_text("aba"), 'b'),
        Some(Class::from_text("ab"))
    );
}

#[test]
fn candidate_shorter_than_period_is_kept() {
    let words = vec![UltimatelyPeriodicWord::periodic("ab")];
    assert_eq!(
        prefix_successor(&words, &Class::epsilon(), 'a'),
        Some(Class::from_text("a"))
    );
    assert_eq!(
        prefix_successor(&words, &Class::from_text("a"), 'b'),
        Some(Class::epsilon())
    );
}

#[test]
fn empty_set_gives_one_state() {
    let words: Vec<UltimatelyPeriodicWord> = vec![];
    let tree = prefix_tree(Alphabet::from_text("ab"), &words);
    assert_eq!(tree.size(), 1);
    assert_eq!(tree.state_color(0), &Class::epsilon());
    assert_eq!(tree.ts().edge_count(), 0);
}

#[test]
fn tree_states_are_prefixes_in_breadth_first_order() {
    let words = three_words();
    let tree = prefix_tree(Alphabet::from_text("ab"), &words);
    let labels: Vec<String> = (0..tree.size())
        .map(|i| tree.state_color(i).mr_to_string())
        .collect();
    assert_eq!(labels, vec!["\u{3b5}", "a", "b", "aa", "ab", "aba"]);
    for i in 1..tree.size() {
        let label = tree.state_color(i);
        assert!(words.iter().any(|w| w.has_prefix(&label.0)));
    }
}

#[test]
fn prefixes_collects_the_alphabet() {
    let words = three_words();
    let prefixes = Prefixes::new(&words);
    assert_eq!(prefixes.alphabet().universe(), &vec!['a', 'b']);
    assert_eq!(prefixes.find_words_with_prefix(&Class::from_text("a")), vec![0, 2]);
    assert_eq!(prefixes.initial(), Class::epsilon());
    assert_eq!(
        prefixes.successor(&Class::epsilon(), 'a'),
        Some(Class::from_text("a"))
    );
}
