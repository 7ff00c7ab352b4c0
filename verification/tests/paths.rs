use automata::alphabet::Alphabet;
use automata::index_ts::{IndexTS, MealyTS, Transition};
use automata::path::{Lasso, Path};

fn coloured() -> IndexTS<char, usize> {
    let mut ts: IndexTS<char, usize> = IndexTS::new(Alphabet::from_text("ab"));
    let s0 = ts.add_state('x');
    let s1 = ts.add_state('y');
    ts.add_edge(s0, 'a', s1, 7);
    ts.add_edge(s0, 'b', s0, 1);
    ts.add_edge(s1, 'a', s1, 7);
    ts.add_edge(s1, 'b', s0, 4);
    ts
}

#[test]
fn path_basics() {
    let empty = Path::empty(3);
    assert!(empty.is_empty());
    assert_eq!(empty.len(), 0);
    assert_eq!(empty.reached(), 3);
    assert_eq!(empty.state_sequence(), vec![3]);
    let path = Path::new(0, vec![(0, 'a'), (1, 'a'), (1, 'b')]);
    assert!(!path.is_empty());
    assert_eq!(path.len(), 3);
    assert_eq!(path.reached(), 0);
    assert_eq!(path.state_sequence(), vec![0, 1, 1, 0]);
}

#[test]
fn path_colours() {
    let ts = coloured();
    let path = Path::new(0, vec![(0, 'a'), (1, 'a'), (1, 'b')]);
    assert_eq!(path.edge_colors(&ts), vec![7, 7, 4]);
    assert_eq!(path.last_transition_color(&ts), Some(4));
    assert_eq!(Path::empty(0).last_transition_color(&ts), None);
    assert_eq!(Path::new(0, vec![(1, 'c')]).last_transition_color(&ts), None);
    assert_eq!(path.reached_state_color(&ts), &'x');
    assert_eq!(path.state_colors(&ts), vec![&'x', &'y', &'y', &'x']);
}

#[test]
fn path_grows() {
    let ts = coloured();
    let mut path = Path::empty(0);
    assert_eq!(path.extend_in(&ts, 'a'), Some(Transition::new(0, 'a', 1, 7)));
    assert_eq!(path.extend_in(&ts, 'b'), Some(Transition::new(1, 'b', 0, 4)));
    assert_eq!(path.extend_in(&ts, 'c'), None);
    assert_eq!(path, Path::new(0, vec![(0, 'a'), (1, 'b')]));
    path.extend_with(Path::new(9, vec![(0, 'b')]));
    assert_eq!(path, Path::new(0, vec![(0, 'a'), (1, 'b'), (0, 'b')]));
}

#[test]
fn lasso_and_its_infinity_set() {
    let mut ts: MealyTS<usize> = MealyTS::new(Alphabet::from_text("ab"));
    let s0 = ts.add_state(());
    let s1 = ts.add_state(());
    ts.add_edge(s0, 'a', s1, 7);
    ts.add_edge(s1, 'a', s1, 7);
    ts.add_edge(s1, 'b', s1, 4);
    let path = Path::new(1, vec![(0, 'a'), (1, 'a'), (1, 'b'), (1, 'a')]);
    let lasso = path.loop_back_to(1);
    assert_eq!(
        lasso,
        Lasso::new(
            Path::new(1, vec![(0, 'a')]),
            Path::new(1, vec![(1, 'a'), (1, 'b'), (1, 'a')])
        )
    );
    assert_eq!(lasso.infinity_set(&ts), vec![7, 4]);
}
