use automata::deterministic::{Deterministic, InitializedDeterministic};
use automata::render::numeral;

fn sample_ts() -> Deterministic {
    Deterministic::from_transitions(vec![(2, 'b', 0), (0, 'b', 1), (0, 'a', 0), (1, 'a', 2)])
}

#[test]
fn table_of_the_transition_function() {
    let ts = sample_ts();
    let expected = "\
=============== === ===
 Deterministic   a   b 
=============== === ===
 0               0   1 
 1               2   - 
 2               -   0 
=============== === ===";
    assert_eq!(ts.to_string(), expected);
}

#[test]
fn rows_are_sorted_by_state_and_symbol() {
    let ts = sample_ts();
    assert_eq!(ts.vec_states(), vec![2, 0, 1]);
    assert_eq!(ts.vec_alphabet(), vec!['b', 'a']);
    let rows = ts.table_rows();
    assert_eq!(
        rows,
        vec![
            vec!["Deterministic", "a", "b"],
            vec!["0", "0", "1"],
            vec!["1", "2", "-"],
            vec!["2", "-", "0"],
        ]
    );
}

#[test]
fn numerals() {
    assert_eq!(numeral(0), "0");
    assert_eq!(numeral(7), "7");
    assert_eq!(numeral(10), "10");
    assert_eq!(numeral(4096), "4096");
    assert_eq!(numeral(u32::MAX), "4294967295");
}

#[test]
fn later_transition_replaces_earlier() {
    let mut ts = Deterministic::from_transitions(vec![(0, 'a', 1), (0, 'a', 2)]);
    assert_eq!(ts.succ(0, 'a'), Some(2));
    assert_eq!(ts.vec_states(), vec![0, 1, 2]);
    assert_eq!(ts.add_transition(0, 'a', 0), Some(2));
    assert_eq!(ts.add_transition(0, 'b', 0), None);
    assert_eq!(ts.remove_transition(0, 'a'), Some(0));
    assert_eq!(ts.remove_transition(0, 'a'), None);
    assert_eq!(ts.succ(0, 'a'), None);
    assert_eq!(ts.succ(0, 'b'), Some(0));
}

#[test]
fn states_come_and_go() {
    let mut ts = Deterministic::new();
    assert_eq!(ts, Deterministic::trivial());
    assert!(ts.add_state(5));
    assert!(!ts.add_state(5));
    assert!(ts.contains_state(5));
    assert_eq!(ts.remove_state(5), Some(5));
    assert_eq!(ts.remove_state(5), None);
    assert_eq!(ts.add_new_state(), 0);
    assert_eq!(ts.add_new_state(), 1);
    let mut walk = ts.states_iter();
    assert_eq!(walk.next(), Some(0));
    assert_eq!(walk.next(), Some(1));
    assert_eq!(walk.next(), None);
}

#[test]
fn run_or_stop() {
    let ts = sample_ts();
    assert_eq!(ts.run_from(0, &vec!['b', 'a', 'b']), Ok(0));
    assert_eq!(ts.run_from(0, &vec!['b', 'b', 'a']), Err((1, 1, 'b')));
    assert_eq!(ts.run_from(1, &vec![]), Ok(1));
}

#[test]
fn with_an_initial_state() {
    let mut ts = InitializedDeterministic::from_parts(sample_ts(), 2);
    assert_eq!(ts.initial(), 2);
    assert_eq!(ts.succ(2, 'b'), Some(0));
    assert_eq!(ts.add_transition(2, 'a', 2), None);
    assert_eq!(ts.remove_transition(2, 'a'), Some(2));
    assert_eq!(ts.vec_states(), vec![2, 0, 1]);
    assert_eq!(ts.vec_alphabet(), vec!['b', 'a']);
    assert_eq!(
        ts.edges_iter(),
        vec![(2, 'b', 0), (0, 'b', 1), (0, 'a', 0), (1, 'a', 2)]
    );
    assert_eq!(
        ts.det().triggers_iter(),
        vec![(2, 'b'), (0, 'b'), (0, 'a'), (1, 'a')]
    );
    let empty = InitializedDeterministic::trivial();
    assert_eq!(empty.initial(), 0);
    assert_eq!(empty.vec_states(), Vec::<u32>::new());
}
