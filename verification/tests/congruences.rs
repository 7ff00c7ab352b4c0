use automata::alphabet::Alphabet;
use automata::class::Class;
use automata::congruence::RightCongruence;
use automata::dfa::DFA;
use automata::forc::FORC;
use automata::index_ts::Edge;
use automata::likes::{Congruence, DFALike, IndexesRightCongruence};
use automata::ts::{FiniteState, Pointed};
use automata::words::UltimatelyPeriodicWord;

fn parity() -> RightCongruence {
    let mut cong = RightCongruence::new(Alphabet::from_text("ab"));
    let q0 = cong.initial();
    let q1 = cong.add_state(Class::from_text("a"));
    cong.add_edge(q0, 'a', q1);
    cong.add_edge(q1, 'a', q0);
    cong.add_edge(q0, 'b', q0);
    cong.add_edge(q1, 'b', q1);
    cong
}

#[test]
fn word_as_ts() {
    let word = UltimatelyPeriodicWord::from_text("aa", "bb");
    let ts = word.into_ts();
    println!("{:?}", ts);
    assert_eq!(ts.size(), 5);
    let labels: Vec<String> = (0..5).map(|i| ts.state_color(i).mr_to_string()).collect();
    assert_eq!(labels, vec!["\u{3b5}", "a", "aa", "aab", "aabb"]);
    let edge = |source, symbol, target| Edge { source, symbol, target, color: () };
    let edges: Vec<Edge<()>> = (0..5).map(|i| ts.ts().edge(i)).collect();
    assert_eq!(
        edges,
        vec![
            edge(0, 'a', 1),
            edge(1, 'a', 2),
            edge(2, 'b', 3),
            edge(3, 'b', 4),
            edge(4, 'b', 3),
        ]
    );
    assert_eq!(ts.alphabet().universe(), &vec!['a', 'b']);
    assert_eq!(ts.reached_state_index(&"aabbbbb".chars().collect()), Some(3));
}

#[test]
fn running_words_into_a_congruence() {
    let cong = parity();
    assert_eq!(cong.size(), 2);
    assert_eq!(cong.reached_color("aba"), Some(Class::epsilon()));
    assert_eq!(cong.reached_color("baabaaba"), Some(Class::from_text("a")));
    assert_eq!(cong.reached_color("abc"), None);
    assert_eq!(cong.successor(0, 'a'), Some(1));
    assert_eq!(cong.class_to_index(&Class::from_text("a")), Some(1));
    assert_eq!(cong.class_to_index(&Class::from_text("b")), None);
    assert_eq!(cong.state_indices(), vec![0, 1]);
    assert_eq!(cong.alphabet().universe(), &vec!['a', 'b']);
    assert_eq!(RightCongruence::from_ts(cong.ts().clone()), cong);
}

#[test]
fn tentative_edge_and_undo() {
    let mut cong = RightCongruence::new(Alphabet::from_text("a"));
    assert_eq!(cong.add_edge(0, 'a', 0), 0);
    assert_eq!(cong.successor(0, 'a'), Some(0));
    assert!(cong.undo_add_edge());
    assert_eq!(cong.successor(0, 'a'), None);
    assert!(!cong.undo_add_edge());
    cong.set_state_color(0, Class::from_text("x"));
    assert_eq!(cong.state_color(0), &Class::from_text("x"));
}

#[test]
fn labels_are_recomputed_from_runs() {
    let mut cong = RightCongruence::new(Alphabet::from_text("ab"));
    let q1 = cong.add_state(Class::from_text("x"));
    let q2 = cong.add_state(Class::from_text("y"));
    let q3 = cong.add_state(Class::from_text("z"));
    cong.add_edge(0, 'a', q1);
    cong.add_edge(q1, 'b', q2);
    cong.add_edge(q2, 'a', 0);
    cong.add_edge(q3, 'a', 0);
    cong.recompute_labels();
    assert_eq!(cong.state_color(0), &Class::epsilon());
    assert_eq!(cong.state_color(q1), &Class::from_text("a"));
    assert_eq!(cong.state_color(q2), &Class::from_text("ab"));
    assert_eq!(cong.state_color(q3), &Class::from_text("z"));
}

#[test]
fn congruence_of_an_automaton() {
    let dfa = DFA::from_parts_iters(vec![(1, 'a', 0), (0, 'b', 2), (2, 'a', 1)], vec![2], 1);
    let (cong, map) = DFA::build_right_congruence(&dfa);
    assert_eq!(map, vec![1, 0, 2]);
    assert_eq!(cong.size(), 3);
    assert_eq!(cong.successor(0, 'a'), Some(1));
    assert_eq!(cong.successor(1, 'b'), Some(2));
    assert_eq!(cong.successor(2, 'a'), Some(0));
    assert_eq!(cong.state_color(0), &Class::epsilon());
    assert_eq!(cong.state_color(1), &Class::from_text("a"));
    assert_eq!(cong.state_color(2), &Class::from_text("ab"));
    let (again, _) = Congruence::build_right_congruence(&dfa);
    assert_eq!(again, cong);
}

#[test]
fn words_that_loop_on_a_class() {
    let cong = parity();
    let dfa = cong.looping_words(&Class::from_text("a"));
    assert_eq!(dfa.initial(), 1);
    for p in ["", "aa", "b", "abab", "baa"] {
        assert!(dfa.accepts(p));
    }
    for n in ["a", "ab", "bba"] {
        assert!(!dfa.accepts(n));
    }
}

#[test]
fn family_of_congruences() {
    let leading = parity();
    let mut forc = FORC::new(leading.clone(), vec![(0, parity())]);
    assert_eq!(forc.leading(), &leading);
    assert_eq!(forc.prc(0), Some(&parity()));
    assert_eq!(forc.prc(1), None);
    let one = RightCongruence::new(Alphabet::from_text("ab"));
    forc.insert(1, one.clone());
    assert_eq!(forc.prc(1), Some(&one));
    forc.insert(0, one.clone());
    assert_eq!(forc.prc(0), Some(&one));
    let from_list = FORC::from_iter(leading, vec![(0, parity()), (0, one.clone())]);
    assert_eq!(from_list.prc(0), Some(&one));
}

#[test]
fn naming_a_class_of_a_congruence() {
    let cong = parity();
    assert_eq!(3usize.to_index(&cong), Some(3));
    assert_eq!(Class::from_text("a").to_index(&cong), Some(1));
    assert_eq!(Class::from_text("ab").to_index(&cong), None);
}

#[test]
fn seen_as_automata() {
    let cong = parity();
    let dfa = cong.collect_dfa();
    assert!(dfa.accepts("abba"));
    assert!(!dfa.accepts("abc"));
    let copy = dfa.collect_dfa();
    assert_eq!(copy, dfa);
    assert_eq!(Pointed::initial(&cong), 0);
    assert_eq!(Pointed::initial(&dfa), 0);
    assert_eq!(FiniteState::size(&cong), 2);
    assert!(FiniteState::contains_state_index(&cong, 1));
    assert!(!FiniteState::contains_state_index(&cong, 2));
    assert_eq!(FiniteState::state_indices(cong.ts()), vec![0, 1]);
}
