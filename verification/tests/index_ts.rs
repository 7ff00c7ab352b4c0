use automata::alphabet::Alphabet;
use automata::index_ts::{Edge, IndexTS, MealyTS, Transition};
use automata::ts::{HasMutableStates, HasStates};

#[test]
fn build_ts() {
    let mut ts: MealyTS<usize> = MealyTS::new(Alphabet::from_symbols(vec!['a', 'b']));
    let s0 = ts.add_state(());
    let s1 = ts.add_state(());
    let _e0 = ts.add_edge(s0, 'a', s1, 0);
    let _e1 = ts.add_edge(s0, 'b', s0, 1);
    let _e2 = ts.add_edge(s1, 'a', s1, 0);
    let _e3 = ts.add_edge(s1, 'b', s0, 1);
    println!("{:?}", ts);
    assert!(ts.successor(s0, 'a').is_some());
    assert_eq!(ts.successor(s1, 'a'), Some(Transition::new(s1, 'a', s1, 0)));
    assert_eq!(ts.edges_from(s0).len(), 2);
}

#[test]
fn first_edge_wins_and_undo_takes_the_last() {
    let mut ts: IndexTS<(), ()> = IndexTS::new(Alphabet::from_text("a"));
    let s0 = ts.add_state(());
    let s1 = ts.add_state(());
    ts.add_edge(s0, 'a', s1, ());
    ts.add_edge(s0, 'a', s0, ());
    assert_eq!(ts.target(s0, 'a'), Some(s1));
    assert_eq!(ts.edge_indices_from(s0), vec![0, 1]);
    assert_eq!(ts.last_edge_from(s0), Some(1));
    assert_eq!(ts.last_edge_from(s1), None);
    assert!(ts.undo_add_edge());
    assert!(ts.undo_add_edge());
    assert!(!ts.undo_add_edge());
    assert_eq!(ts.target(s0, 'a'), None);
    assert!(ts.contains_state(1));
    assert!(!ts.contains_state(2));
    assert_eq!(ts.reached_from(s0, &vec![]), Some(s0));
    assert_eq!(ts.reached_from(s0, &vec!['a']), None);
}

#[test]
fn edges_and_colours_by_place() {
    let mut ts: IndexTS<bool, usize> = IndexTS::new(Alphabet::from_text("ab"));
    let s0 = ts.add_state(false);
    let s1 = ts.add_state(true);
    ts.add_edge(s0, 'a', s1, 5);
    assert_eq!(
        ts.get_edge(0),
        Some(&Edge { source: s0, symbol: 'a', target: s1, color: 5 })
    );
    assert_eq!(ts.get_edge(1), None);
    assert_eq!(ts.edge(0).color, 5);
    assert_eq!(ts.state(1), Some(&true));
    assert_eq!(ts.state(2), None);
    assert_eq!(ts.state_color(0), &false);
    ts.set_state_color(0, true);
    assert_eq!(ts.state_color(0), &true);
    assert_eq!(ts.state_indices(), vec![0, 1]);
    assert_eq!(ts.size(), 2);
    let other = ts.recolored(vec!['x', 'y']);
    assert_eq!(other.state_color(1), &'y');
    assert_eq!(other.edge(0), ts.edge(0));
    assert_eq!(other.alphabet(), ts.alphabet());
}

#[test]
fn states_through_the_traits() {
    let mut ts: IndexTS<char, ()> = IndexTS::new(Alphabet::from_text("a"));
    ts.add_state('x');
    assert_eq!(HasStates::state(&ts, 0), Some(&'x'));
    assert_eq!(HasStates::state(&ts, 1), None);
    assert_eq!(ts.hs_size(), 1);
    assert!(ts.state_mut(0, 'y'));
    assert!(!ts.state_mut(3, 'z'));
    assert_eq!(ts.state_color(0), &'y');
}
