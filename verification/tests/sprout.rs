use automata::alphabet::Alphabet;
use automata::class::Class;
use automata::congruence::RightCongruence;
use automata::sample::Sample;
use automata::sprout::{omega_sprout, prefix_consistency_conflicts, resolve, try_omega_sprout};
use automata::words::UltimatelyPeriodicWord;

fn end_to_end_sample() -> Sample {
    Sample::from_parts(
        vec![
            UltimatelyPeriodicWord::with_loop_index("b", 0),
            UltimatelyPeriodicWord::with_loop_index("abab", 3),
            UltimatelyPeriodicWord::with_loop_index("abbab", 4),
        ],
        vec![
            UltimatelyPeriodicWord::with_loop_index("ab", 1),
            UltimatelyPeriodicWord::with_loop_index("a", 0),
        ],
    )
}

#[test]
fn prefix_consistency_sprout() {
    let alphabet = Alphabet::from_text("ab");
    let conflicts = prefix_consistency_conflicts(&alphabet, end_to_end_sample());
    assert!(conflicts.conflicts().is_empty());
    let cong = try_omega_sprout(alphabet, conflicts).unwrap();
    assert_eq!(cong.size(), 1);
    for word in ["aba", "abbabb", "baabaaba", "bababaaba", "b", "a", ""] {
        assert_eq!(cong.reached_color(word).map(|c| c.0), Some(vec![]));
    }
}

#[test]
fn sprout_is_total_and_repeatable() {
    let alphabet = Alphabet::from_text("ab");
    let first = omega_sprout(
        alphabet.clone(),
        prefix_consistency_conflicts(&alphabet, end_to_end_sample()),
    );
    let second = omega_sprout(
        alphabet.clone(),
        prefix_consistency_conflicts(&alphabet, end_to_end_sample()),
    );
    assert_eq!(first, second);
    assert!(prefix_consistency_conflicts(&alphabet, end_to_end_sample()).consistent(&first));
    for state in first.state_indices() {
        for sym in ['a', 'b'] {
            assert!(first.successor(state, sym).is_some());
        }
    }
}

fn upw(base: &str, recur: &str) -> UltimatelyPeriodicWord {
    UltimatelyPeriodicWord::from_text(base, recur)
}

#[test]
fn obligation_goes_to_the_first_state_that_will_do() {
    let alphabet = Alphabet::from_text("ab");
    let sample = Sample::from_parts(
        vec![upw("b", "bb"), upw("ab", "ba")],
        vec![upw("aa", "bb"), upw("ab", "bb")],
    );
    let conflicts = prefix_consistency_conflicts(&alphabet, sample);
    let mut pairs = conflicts.conflicts().clone();
    pairs.sort();
    assert_eq!(pairs, vec![(1, 5), (3, 3)]);
    let mut cong = RightCongruence::new(alphabet.clone());
    let q1 = cong.add_state(Class::from_text("b"));
    cong.add_edge(0, 'b', q1);
    assert!(conflicts.consistent(&cong));
    // a loop on the first state reaches a conflict, an edge to the second does not
    assert_eq!(resolve(&mut cong, &conflicts, 0, 'a'), q1);
    assert_eq!(cong.size(), 2);
    assert_eq!(cong.successor(0, 'a'), Some(q1));
    assert_eq!(cong.ts().edge_count(), 2);
    assert!(conflicts.consistent(&cong));
    assert!(try_omega_sprout(alphabet, conflicts).is_none());
}

#[test]
fn obligation_gets_a_state_of_its_own_where_none_will_do() {
    let alphabet = Alphabet::from_text("ab");
    let sample = Sample::from_parts(vec![upw("a", "b")], vec![upw("", "a")]);
    let conflicts = prefix_consistency_conflicts(&alphabet, sample);
    let mut cong = RightCongruence::new(alphabet);
    assert!(!conflicts.consistent(&cong));
    assert_eq!(resolve(&mut cong, &conflicts, 0, 'a'), 1);
    assert_eq!(cong.size(), 2);
    assert_eq!(cong.state_color(1), &Class::from_text("a"));
    assert_eq!(cong.successor(0, 'a'), Some(1));
    assert_eq!(resolve(&mut cong, &conflicts, 1, 'b'), 2);
    assert_eq!(cong.state_color(2), &Class::from_text("ab"));
}
