use automata::alphabet::Alphabet;
use automata::sample::Sample;
use automata::sprout::{compute_conflicts, omega_sprout, prefix_consistency_conflicts, try_omega_sprout};
use automata::words::UltimatelyPeriodicWord;

fn upw(base: &str, recur: &str) -> UltimatelyPeriodicWord {
    UltimatelyPeriodicWord::from_text(base, recur)
}

#[test]
fn sample_parts() {
    let sample = Sample::from_parts(vec![upw("ab", "c"), upw("", "abcd")], vec![upw("abc", "de")]);
    assert_eq!(sample.len(), 3);
    assert!(!sample.is_empty());
    assert_eq!(sample.max_base_len(), 3);
    assert_eq!(sample.max_recur_len(), 4);
    assert_eq!(sample.positive_iter(), &vec![upw("ab", "c"), upw("", "abcd")]);
    assert_eq!(sample.negative_iter(), &vec![upw("abc", "de")]);
    assert_eq!(
        sample.iter(),
        vec![&upw("ab", "c"), &upw("", "abcd"), &upw("abc", "de")]
    );
    assert_eq!(
        sample.annotated_iter(),
        vec![
            (true, &upw("ab", "c")),
            (true, &upw("", "abcd")),
            (false, &upw("abc", "de"))
        ]
    );
    let empty = Sample::from_parts(vec![], vec![]);
    assert!(empty.is_empty());
    assert_eq!(empty.max_base_len(), 0);
    assert_eq!(empty.max_recur_len(), 0);
}

#[test]
fn sample_from_lists_keeps_each_word_once() {
    let sample = Sample::from_iters(
        vec![upw("a", "b"), upw("", "a"), upw("a", "b")],
        vec![upw("", "b"), upw("", "b")],
    );
    assert_eq!(sample.positive_iter(), &vec![upw("a", "b"), upw("", "a")]);
    assert_eq!(sample.negative_iter(), &vec![upw("", "b")]);
}

#[test]
fn one_infinite_word_twice_is_not_well_formed() {
    let good = Sample::from_parts(vec![upw("", "a"), upw("", "ab")], vec![upw("", "a")]);
    assert!(good.is_well_formed());
    let twice = Sample::from_parts(vec![upw("", "a"), upw("a", "aa")], vec![]);
    assert!(!twice.is_well_formed());
    assert!(upw("ab", "ab").denotes_same(&upw("", "ab")));
    assert!(upw("a", "ba").denotes_same(&upw("", "ab")));
    assert!(!upw("a", "ab").denotes_same(&upw("", "ab")));
    assert!(!upw("", "aab").denotes_same(&upw("", "aabaaa")));
    let alphabet = Alphabet::from_text("a");
    assert!(compute_conflicts(&alphabet, twice).is_none());
    assert!(compute_conflicts(&alphabet, good).is_some());
}

#[test]
fn prefixes_of_the_two_sides() {
    let sample = Sample::from_parts(vec![upw("", "ab")], vec![upw("", "b")]);
    let positive = sample.positive_prefixes();
    assert!(positive.accepts("ababa"));
    assert!(!positive.accepts("b"));
    let negative = sample.negative_prefixes();
    assert!(negative.accepts("bbb"));
    assert!(!negative.accepts("a"));
}

#[test]
fn one_side_empty_gives_no_conflicts() {
    let alphabet = Alphabet::from_text("ab");
    for sample in [
        Sample::from_parts(vec![upw("", "a"), upw("a", "b")], vec![]),
        Sample::from_parts(vec![], vec![upw("", "ab")]),
        Sample::from_parts(vec![], vec![]),
    ] {
        let conflicts = prefix_consistency_conflicts(&alphabet, sample);
        assert!(conflicts.conflicts().is_empty());
        let cong = omega_sprout(alphabet.clone(), conflicts.clone());
        assert_eq!(cong.size(), 1);
        assert_eq!(cong.successor(0, 'a'), Some(0));
        assert_eq!(cong.successor(0, 'b'), Some(0));
        assert!(conflicts.consistent(&cong));
    }
}

#[test]
fn conflicts_lie_on_cycles_of_the_product() {
    // the positive tree folds "a" onto the empty class, the negative tree
    // loops on "a": the pair of the initial states lies on a joint cycle
    let alphabet = Alphabet::from_text("ab");
    let sample = Sample::from_parts(vec![upw("a", "b")], vec![upw("", "a")]);
    let conflicts = prefix_consistency_conflicts(&alphabet, sample);
    assert_eq!(conflicts.conflicts(), &vec![(0, 0)]);
    assert_eq!(conflicts.positive_tree().successor(0, 'a'), Some(0));
    assert_eq!(conflicts.negative_tree().successor(0, 'a'), Some(0));
    assert!(try_omega_sprout(alphabet, conflicts.clone()).is_none());
    // with no symbol to read there is nothing to resolve
    let none = Alphabet::from_text("");
    let cong = try_omega_sprout(none, conflicts.clone()).unwrap();
    assert_eq!(cong.size(), 1);
    assert_eq!(cong.ts().edge_count(), 0);
    assert!(!conflicts.consistent(&cong));
}

#[test]
fn separated_sample_has_distinct_bases() {
    let sample = Sample::from_parts(vec![upw("", "ab"), upw("", "abb")], vec![upw("", "b")]);
    let separated = sample.build_separated();
    assert_eq!(
        separated.positive_iter(),
        &vec![upw("a", "bba"), upw("", "ab")]
    );
    assert_eq!(separated.negative_iter(), &vec![upw("b", "b")]);
    // two instances that come to the same parts are kept once
    let twins = Sample::from_parts(vec![upw("", "a"), upw("", "a"), upw("a", "a")], vec![]);
    assert_eq!(
        twins.build_separated().positive_iter(),
        &vec![upw("a", "a"), upw("", "a")]
    );
}
