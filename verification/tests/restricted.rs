use automata::alphabet::Alphabet;
use automata::dfa::DFA;
use automata::index_ts::Edge;
use automata::restricted::{
    RestrictByStateIndex, RestrictByStateIndexIter, RestrictedEdgesFromIter, RestrictedEdgesToIter,
};

fn three_state_dfa() -> (DFA, usize, usize, usize) {
    let mut dfa = DFA::new(Alphabet::from_symbols(vec!['a', 'b']));
    let q0 = dfa.initial();
    let q1 = dfa.add_state(false);
    let q2 = dfa.add_state(true);
    dfa.add_edge(q0, 'a', q1);
    dfa.add_edge(q0, 'b', q0);
    dfa.add_edge(q1, 'a', q2);
    dfa.add_edge(q1, 'b', q1);
    dfa.add_edge(q2, 'a', q0);
    dfa.add_edge(q2, 'b', q2);
    (dfa, q0, q1, q2)
}

#[test]
fn restrict_ts_by_state_index() {
    let (dfa, _q0, _q1, q2) = three_state_dfa();
    assert!(dfa.accepts("aa"));

    let restricted = dfa.restrict_state_indices(|idx| idx != q2);
    assert!(!restricted.accepts("aa"));
}

#[test]
fn restriction_keeps_what_the_filter_keeps() {
    let (dfa, q0, q1, q2) = three_state_dfa();
    let keep_all = RestrictByStateIndex::new(dfa.clone(), |_idx| true);
    assert!(keep_all.accepts("aa"));
    assert!(keep_all.accepts("bab" ) == dfa.accepts("bab"));
    assert_eq!(keep_all.state_indices(), vec![q0, q1, q2]);
    assert_eq!(keep_all.initial(), q0);
    assert_eq!(keep_all.ts(), &dfa);
    let no_middle = dfa.clone().restrict_state_indices(|idx| idx != q1);
    assert_eq!(no_middle.state_indices(), vec![q0, q2]);
    assert!(!no_middle.accepts("aa"));
    assert!(!no_middle.accepts("bb"));
    assert!((no_middle.filter())(q0));
    assert!(!(no_middle.filter())(q1));
}

#[test]
fn filtered_walks() {
    let even = |idx: usize| idx % 2 == 0;
    let mut indices = RestrictByStateIndexIter::new(&even, vec![3, 4, 5, 6, 7]);
    assert_eq!(indices.next(), Some(4));
    assert_eq!(indices.next(), Some(6));
    assert_eq!(indices.next(), None);
    assert_eq!(indices.next(), None);
    let edge = |source, symbol, target| Edge { source, symbol, target, color: () };
    let edges = vec![edge(0, 'a', 1), edge(1, 'a', 2), edge(2, 'b', 2), edge(3, 'b', 0)];
    let mut from = RestrictedEdgesFromIter::new(edges.clone(), &even);
    assert_eq!(from.next(), Some(edge(1, 'a', 2)));
    assert_eq!(from.next(), Some(edge(2, 'b', 2)));
    assert_eq!(from.next(), Some(edge(3, 'b', 0)));
    assert_eq!(from.next(), None);
    let mut to = RestrictedEdgesToIter::new(edges, &even);
    assert_eq!(to.next(), Some(edge(0, 'a', 1)));
    assert_eq!(to.next(), Some(edge(2, 'b', 2)));
    assert_eq!(to.next(), None);
}
