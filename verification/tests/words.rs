use automata::class::Class;
use automata::ts::{HasColor, HasColorMut, Index, State, StateIndex, StateReference};
use automata::word::{
    ConsumingInfixIterator, IsFinite, IsInfinite, LinearWord, SymbolIterable, Word,
    WordTransitions,
};
use automata::words::{PeriodicWord, Str, UltimatelyPeriodicWord};

#[test]
fn macro_upw() {
    let w = UltimatelyPeriodicWord::from_text("a", "bbbb");
    let ww = UltimatelyPeriodicWord::from_text("ab", "b");
    assert_eq!(w.prefix(6), ww.prefix(6));
}

#[test]
fn symbols_by_position() {
    let w = UltimatelyPeriodicWord::from_text("ab", "cd");
    let got: Vec<char> = (0..7).map(|i| w.symbol(i)).collect();
    assert_eq!(got, vec!['a', 'b', 'c', 'd', 'c', 'd', 'c']);
    assert_eq!(w.nth(5), Some('d'));
    assert_eq!(w.base_length(), 2);
    assert_eq!(w.recur_length(), 2);
    assert_eq!(w.prefix(5), Class::from_text("abcdc"));
    assert!(w.has_prefix(&vec!['a', 'b', 'c']));
    assert!(!w.has_prefix(&vec!['a', 'c']));
    assert!(w.has_prefix(&vec![]));
    let p = PeriodicWord::from_text("xyz");
    assert_eq!(p.nth(4), Some('y'));
}

#[test]
fn loop_index_splits_the_text() {
    let w = UltimatelyPeriodicWord::with_loop_index("abab", 3);
    assert_eq!(w.base(), &vec!['a', 'b', 'a']);
    assert_eq!(w.recur(), &vec!['b']);
    let w = UltimatelyPeriodicWord::with_loop_index("a", 0);
    assert_eq!(w, UltimatelyPeriodicWord::periodic("a"));
}

#[test]
fn unrolling_keeps_the_word() {
    let mut w = UltimatelyPeriodicWord::from_text("a", "bcd");
    let before = w.prefix(12);
    w.unroll_one();
    assert_eq!(w.base(), &vec!['a', 'b']);
    assert_eq!(w.recur(), &vec!['c', 'd', 'b']);
    assert_eq!(w.prefix(12), before);
}

#[test]
fn skipping_an_infinite_word() {
    let w = UltimatelyPeriodicWord::from_text("ab", "cde");
    assert_eq!(w.skip(1), UltimatelyPeriodicWord::from_text("b", "cde"));
    assert_eq!(w.skip(2), UltimatelyPeriodicWord::from_text("", "cde"));
    assert_eq!(w.skip(4), UltimatelyPeriodicWord::from_text("", "ecd"));
    assert_eq!(w.skip(6).prefix(4), Class::from_text("decd"));
}

#[test]
fn finite_words() {
    let w = Str::from_text("abc");
    assert_eq!(w.length(), 3);
    assert_eq!(w.nth(2), Some('c'));
    assert_eq!(w.nth(3), None);
    assert_eq!(w.prefix(2), Class::from_text("ab"));
    assert_eq!(w.prefix(9), Class::from_text("abc"));
    assert_eq!(w.skip(1), Str::from_text("bc"));
    assert_eq!(w.skip(7), Str::empty());
}

#[test]
fn classes() {
    assert_eq!(Class::epsilon().mr_to_string(), "\u{3b5}");
    assert_eq!(Class::from_text("ab").mr_to_string(), "ab");
    assert_eq!(Class::singleton('x'), Class::from_text("x"));
    assert!(Class::from_text("b").precedes(&Class::from_text("aa")));
    assert!(Class::from_text("ab").precedes(&Class::from_text("ba")));
    assert!(!Class::from_text("ab").precedes(&Class::from_text("ab")));
    assert!(!Class::from_text("ba").precedes(&Class::from_text("ab")));
    assert!(Class::from_text("ab").same(&Class::from_text("ab")));
    assert_eq!(Class::from_text("ab").extended('c'), Class::from_text("abc"));
    assert_eq!(Class::from_text("abc").prefix(1), Class::from_text("a"));
}

#[test]
fn transitions_of_words() {
    let mut finite = WordTransitions::new(Str::from_text("ab"));
    assert_eq!(
        finite.next(),
        Some((Class::epsilon(), 'a', Class::from_text("a")))
    );
    assert_eq!(
        finite.next(),
        Some((Class::from_text("a"), 'b', Class::from_text("ab")))
    );
    assert_eq!(finite.next(), None);
    let mut infinite = WordTransitions::new(UltimatelyPeriodicWord::from_text("a", "bc"));
    let got: Vec<_> = (0..5).map(|_| infinite.next()).collect();
    assert_eq!(
        got,
        vec![
            Some((Class::epsilon(), 'a', Class::from_text("a"))),
            Some((Class::from_text("a"), 'b', Class::from_text("ab"))),
            Some((Class::from_text("ab"), 'c', Class::from_text("abc"))),
            Some((Class::from_text("abc"), 'b', Class::from_text("ab"))),
            None,
        ]
    );
}

#[test]
fn words_through_the_traits() {
    let word = Str::from_text("abcde");
    assert_eq!(Word::nth(&word, 1), Some('b'));
    assert_eq!(LinearWord::first(&word), Some('a'));
    assert_eq!(IsFinite::length(&word), 5);
    assert_eq!(SymbolIterable::iter(&word), vec!['a', 'b', 'c', 'd', 'e']);
    assert_eq!(IsFinite::length(&Class::from_text("ab")), 2);
    let infinite = UltimatelyPeriodicWord::from_text("ab", "c");
    assert_eq!(IsInfinite::base_length(&infinite), 2);
    assert_eq!(IsInfinite::recur_length(&infinite), 1);
    assert_eq!(LinearWord::nth(&infinite, 9), Some('c'));
    let periodic = PeriodicWord::from_text("xy");
    assert_eq!(IsInfinite::base_length(&periodic), 0);
    assert_eq!(IsInfinite::recur_length(&periodic), 2);
    assert_eq!(Word::nth(&periodic, 3), Some('y'));
    let mut infix = ConsumingInfixIterator::new(&word, 1, 3);
    assert_eq!(infix.next(), Some('b'));
    assert_eq!(infix.next(), Some('c'));
    assert_eq!(infix.next(), None);
    let mut beyond = ConsumingInfixIterator::new(&word, 4, 7);
    assert_eq!(beyond.next(), Some('e'));
    assert_eq!(beyond.next(), None);
    assert_eq!(beyond.next(), None);
}

#[test]
fn state_indices_and_references() {
    let index = StateIndex::new(4);
    assert_eq!(index.index(), 4);
    assert_eq!(7usize.as_state_index(), StateIndex(7));
    assert_eq!(index.as_state_index(), index);
    let colour = 'q';
    let state = StateReference::new(index, &colour);
    assert_eq!(state.color(), &'q');
    assert_eq!(state.index, index);
    let mut owned = State { color: 1 };
    owned.set_color(2);
    assert_eq!(owned.color(), &2);
}

#[test]
fn class_is_shown_in_brackets() {
    assert_eq!(Class::epsilon().show(), "[\u{3b5}]");
    assert_eq!(Class::from_text("ab").show(), "[ab]");
}

#[test]
fn symbol_iterability() {
    let word = Str::<usize>::from_symbols(vec![1, 3, 3, 7]);
    let mut iter = word.symbols().iter().copied();
    assert_eq!(iter.next(), Some(1));
    assert_eq!(iter.next(), Some(3));
    assert_eq!(iter.next(), Some(3));
    assert_eq!(iter.next(), Some(7));
    assert_eq!(iter.next(), None);
    assert_eq!(word.nth(3), Some(7));
    assert_eq!(word.nth(4), None);

    let word = UltimatelyPeriodicWord::new(vec![], vec![1, 3, 3, 7]);
    assert_eq!(word.nth(0), Some(1usize));
    assert_eq!(word.nth(6), Some(3usize));
    let periodic = PeriodicWord::from_symbols(vec![1usize, 3, 3, 7]);
    assert_eq!(periodic.nth(7), Some(7));
}
