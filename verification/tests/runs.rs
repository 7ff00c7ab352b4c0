use automata::deterministic::Deterministic;
use automata::likes::{Evaluate, ReducesTo, Runnable};
use automata::run::{
    evaluate_finite, evaluate_infinite, evaluate_laps, EscapePrefix, Initialized, Run, RunOutput,
    Walk,
};
use automata::words::{Str, UltimatelyPeriodicWord};

fn three_states(complete: bool) -> (Deterministic, u32, u32, u32) {
    let mut ts = Deterministic::new();
    let q0 = ts.add_new_state();
    let q1 = ts.add_new_state();
    let q2 = ts.add_new_state();
    ts.add_transition(q0, 'a', q1);
    ts.add_transition(q0, 'b', q0);
    ts.add_transition(q1, 'a', q2);
    ts.add_transition(q1, 'b', q0);
    if complete {
        ts.add_transition(q2, 'a', q2);
    }
    ts.add_transition(q2, 'b', q0);
    (ts, q0, q1, q2)
}

#[test]
fn basic_run() {
    let (ts, q0, q1, _q2) = three_states(true);
    let w = Str::from_text("abba");
    assert_eq!(Run::new(ts, q0, w).evaluate(), Ok(q1));
}

#[test]
fn basic_run_with_missing() {
    let (mut ts, q0, q1, q2) = three_states(false);
    let w = Str::from_text("abaaa");
    {
        let mut run = ts.walk(q0, &w);
        assert_eq!(run.next(), RunOutput::trigger(q0, 'a'));
        assert_eq!(run.next(), RunOutput::trigger(q1, 'b'));
        assert_eq!(run.next(), RunOutput::trigger(q0, 'a'));
        assert_eq!(run.next(), RunOutput::trigger(q1, 'a'));
        assert_eq!(run.next(), RunOutput::missing(q2, 'a'));
    }
    ts.add_transition(q2, 'a', q0);
    assert_eq!(evaluate_finite(&ts, q0, &w), Ok(q0));
}

#[test]
fn input_to_run() {
    let (ts, q0, q1, _q2) = three_states(false);
    assert_eq!(Initialized::new(ts.clone(), q0).run("abba"), Ok(q1));
    assert_eq!(Initialized::new(ts, q0).run("abb"), Ok(q0));
}

#[test]
fn initialize_it() {
    let mut ts = Deterministic::new();
    for (p, a, q) in [(0, 'a', 0), (0, 'b', 1), (1, 'a', 1), (1, 'b', 0)] {
        ts.add_state(p);
        ts.add_state(q);
        ts.add_transition(p, a, q);
    }
    let ts = Initialized::new(ts, 0);
    assert_eq!(ts.run("abba"), Ok(0));
}

#[test]
fn walker_reports_end_and_earlier_failure() {
    let (ts, q0, q1, q2) = three_states(false);
    let w = Str::from_text("a");
    let mut run = ts.walk(q0, &w);
    assert_eq!(run.next(), RunOutput::Trigger(q0, 'a'));
    assert_eq!(run.next(), RunOutput::WordEnd(q1));
    assert_eq!(run.next(), RunOutput::end(q1));
    let w = Str::from_text("aaa");
    let mut run = ts.walk(q0, &w);
    run.next();
    run.next();
    assert_eq!(run.next(), RunOutput::Missing(q2, 'a'));
    assert_eq!(run.next(), RunOutput::FailedBefore);
    assert_eq!(run.position(), 2);
    assert_eq!(run.taken(), &vec![(q0, 'a'), (q1, 'a')]);
}

#[test]
fn failed_evaluation_tells_where() {
    let (ts, q0, q1, q2) = three_states(false);
    let w = Str::from_text("aaab");
    assert_eq!(
        Run::new(ts, q0, w).evaluate(),
        Err((vec![(q0, 'a', q1), (q1, 'a', q2)], q2, 'a'))
    );
}

#[test]
fn run_output_accessors() {
    assert!(RunOutput::trigger(1, 'a').is_trigger());
    assert!(!RunOutput::end(1).is_trigger());
    assert_eq!(RunOutput::trigger(1, 'a').get_trigger(), Some((1, 'a')));
    assert_eq!(RunOutput::missing(1, 'a').get_trigger(), None);
    assert_eq!(RunOutput::FailedBefore.get_trigger(), None);
}

#[test]
fn run_on_an_infinite_word() {
    let (ts, q0, q1, q2) = three_states(true);
    let word = UltimatelyPeriodicWord::from_text("a", "ab");
    assert_eq!(
        evaluate_infinite(&ts, q0, &word),
        Ok(vec![(q1, 'a', q2), (q2, 'b', q0), (q0, 'a', q1), (q1, 'b', q0)])
    );
    assert_eq!(
        Run::new(ts.clone(), q0, word).evaluate(),
        Ok(vec![(q1, 'a', q2), (q2, 'b', q0), (q0, 'a', q1), (q1, 'b', q0)])
    );
    // a lap that ends where it began is told after the second lap
    assert_eq!(
        evaluate_laps(&ts, q0, &vec!['b']),
        Ok(vec![(q0, 'b', q0)])
    );
    let (ts, q0, q1, q2) = three_states(false);
    assert_eq!(
        evaluate_laps(&ts, q0, &vec!['a', 'a']),
        Err((vec![(q0, 'a', q1), (q1, 'a', q2)], q2, 'a'))
    );
    assert_eq!(
        evaluate_infinite(&ts, q0, &UltimatelyPeriodicWord::from_text("aaa", "b")),
        Err((vec![(q0, 'a', q1), (q1, 'a', q2)], q2, 'a'))
    );
}

#[test]
fn runs_through_the_traits() {
    let (ts, q0, q1, _q2) = three_states(true);
    assert_eq!(Str::from_text("abba").run_in_from(&ts, q0), Ok(q1));
    assert_eq!(
        UltimatelyPeriodicWord::periodic("b").run_in_from(&ts, q0),
        Ok(vec![(q0, 'b', q0)])
    );
    assert_eq!(
        Evaluate::evaluate(&Run::new(ts.clone(), q0, Str::from_text("ab"))),
        Ok(q0)
    );
    assert_eq!(
        Evaluate::evaluate(&Run::new(ts, q0, UltimatelyPeriodicWord::periodic("b"))),
        Ok(vec![(q0, 'b', q0)])
    );
    assert!(true.reduce());
    assert!(4usize.reduce());
    assert!(!3usize.reduce());
    assert!(vec![false, true].reduce());
    assert!(!vec![false, false].reduce());
    assert!(vec![5usize, 2, 9].reduce());
    assert!(!vec![5usize, 3, 9].reduce());
}

#[test]
fn escape_prefixes() {
    let word = Str::from_text("abcde");
    let escape = EscapePrefix::new(&word, vec![(0, 'a'), (1, 'b')], 2, 'c');
    assert_eq!(
        escape,
        EscapePrefix(vec![(0, 'a'), (1, 'b')], 2, 'c', Str::from_text("cde"))
    );
    let infinite = UltimatelyPeriodicWord::from_text("ab", "cd");
    let escape = EscapePrefix::from_finite(&infinite, escape);
    assert_eq!(escape.0, vec![(0, 'a'), (1, 'b')]);
    assert_eq!(escape.1, 2);
    assert_eq!(escape.2, 'c');
    assert_eq!(escape.3, UltimatelyPeriodicWord::from_text("", "cd"));
}
