use code20::fa::FA;
use code20::iterate::{
    halting_walk_exists, iterate_until_repeat, ready_for_labels, round, same_automaton, start_productive, RoundsEnd,
};
use code20::rules::rule_n;
use code20::solver::Solver;

fn elementary(rule: u8) -> Solver<impl Fn(Vec<usize>) -> usize> {
    Solver::from(3, move |v: Vec<usize>| rule_n(rule, v))
}

#[test]
fn rounds_stop_when_a_labelling_repeats() {
    let mut s = elementary(0);
    assert_eq!(iterate_until_repeat(&mut s, 199), RoundsEnd::Repeat(2));
    assert_eq!(s.fa.q, vec![0]);
    assert_eq!(s.fa.t, vec![(0, 0, 0)]);
    assert_eq!(s.fa.f, vec![0]);

    let mut s = elementary(204);
    assert_eq!(iterate_until_repeat(&mut s, 199), RoundsEnd::Repeat(3));
    assert_eq!(s.fa.q, vec![0, 1]);
    assert_eq!(s.fa.t, vec![(0, 0, 1), (1, 0, 1), (1, 1, 1)]);
    assert_eq!(s.fa.f, vec![0, 1]);
    // the automaton left behind is already in its canonical labelling
    assert!(s.fa.canonical_label() == s.fa);
}

#[test]
fn one_round_of_the_identity_rule() {
    let s = elementary(204);
    let b = round(&s.fa, 3, &s.rule).unwrap();
    assert_eq!(b.q, vec![0, 1, 2]);
    assert_eq!(b.t, vec![(0, 0, 1), (1, 0, 2), (2, 0, 2), (2, 1, 2)]);
    assert_eq!(b.q0, 0);
    assert_eq!(b.f, vec![0, 1, 2]);
}

#[test]
fn no_rounds_leave_the_automaton_alone() {
    let mut s = elementary(90);
    let before = s.fa.clone();
    assert_eq!(iterate_until_repeat(&mut s, 0), RoundsEnd::NoRepeat);
    assert!(s.fa == before);
}

#[test]
fn a_growing_automaton_brings_no_repeat() {
    let mut s = elementary(90);
    assert_eq!(iterate_until_repeat(&mut s, 3), RoundsEnd::NoRepeat);
    assert_eq!(s.fa.q.len(), 256);
    assert_eq!(s.fa.q0, 0);
}

#[test]
fn a_round_without_a_halting_walk_is_stuck() {
    // node 1 halts but no edge reaches it
    let fa = FA::from(vec![0, 1], 2, vec![(0, 0, 0)], 0, vec![1]);
    assert!(!halting_walk_exists(&fa, 2));
    assert!(!start_productive(&fa));
    assert!(!ready_for_labels(&fa));
    let mut s = Solver { fa: fa.clone(), n: 3, rule: move |v: Vec<usize>| rule_n(204, v) };
    assert!(round(&s.fa, 3, &s.rule).is_none());
    assert_eq!(iterate_until_repeat(&mut s, 5), RoundsEnd::Stuck);
    assert!(s.fa == fa);
}

#[test]
fn checks_on_automata() {
    let fa = FA::from(vec![0, 1, 2], 2, vec![(0, 0, 1), (1, 1, 2), (2, 0, 0)], 0, vec![2]);
    assert!(halting_walk_exists(&fa, 2));
    assert!(start_productive(&fa));
    assert!(ready_for_labels(&fa));
    // two followers for one letter from the start
    let nfa = FA::from(vec![0, 1, 2], 2, vec![(0, 0, 1), (0, 0, 2), (1, 1, 2)], 0, vec![2]);
    assert!(!ready_for_labels(&nfa));
    // an edge out of a node the start never reaches
    let extra = FA::from(vec![0, 1, 2], 2, vec![(0, 0, 1), (2, 1, 1)], 0, vec![1]);
    assert!(!ready_for_labels(&extra));
    assert!(same_automaton(&fa, &fa.clone()));
    assert!(!same_automaton(&fa, &nfa));
}
