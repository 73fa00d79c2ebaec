use code20::fa::FA;
use code20::rules::{bits, code20step, code_20, nest, rule_n};
use code20::solver::Solver;

#[test]
fn code_20_counts_two_or_four() {
    assert_eq!(code_20(vec![1, 1, 0, 0, 0]), 1);
    assert_eq!(code_20(vec![1, 1, 1, 0, 0]), 0);
    assert_eq!(code_20(vec![1, 1, 1, 1, 0]), 1);
    assert_eq!(code20step(&vec![0, 0, 0, 0, 0]), 0);
}

#[test]
fn elementary_rules_by_number() {
    assert_eq!(rule_n(110, vec![1, 1, 0]), 1);
    assert_eq!(rule_n(110, vec![1, 1, 1]), 0);
    assert_eq!(rule_n(30, vec![0, 0, 1]), 1);
}

#[test]
fn bits_highest_first() {
    assert_eq!(bits(5, 4), vec![0, 1, 0, 1]);
    assert_eq!(bits(6, 2), vec![1, 0]);
}

#[test]
fn nesting_one_level_applies_the_rule() {
    assert_eq!(nest(code_20, 1, vec![0, 1, 1, 0, 0]), 1);
}

#[test]
fn the_de_bruijn_automaton_of_code_20() {
    let d = FA::debruign(3, &code_20);
    assert_eq!(d.q, vec![0, 1, 2, 3]);
    assert_eq!(d.sigma, 2);
    assert_eq!(d.q0, 0);
    assert_eq!(d.f, vec![0]);
    assert_eq!(
        d.t,
        vec![(0, 0, 0), (0, 0, 1), (1, 0, 2), (1, 1, 3), (2, 0, 0), (2, 1, 1), (3, 1, 2), (3, 0, 3)]
    );
}

#[test]
fn a_solver_steps_without_changing_itself() {
    let mut s = Solver::from(3, code_20);
    let before = s.fa.clone();
    let (stepped, walks) = s.step();
    assert!(s.fa == before);
    assert_eq!(stepped.q.len(), walks.len());
    // one node for each walk of two steps: 4 nodes with 2 ways each, twice
    assert_eq!(walks.len(), 16);
    assert_eq!(stepped.q0, 0);
    let w = s.without_null_loop();
    assert_eq!(w.q, vec![0, 1, 2, 3, 4]);
    assert_eq!(w.t[0], (0, 0, 4));
    assert_eq!(w.t[4], (2, 0, 4));
}

#[test]
fn a_step_has_one_edge_per_overlapping_pair_in_order() {
    let mut s = Solver::from(3, code_20);
    let (stepped, walks) = s.step();
    let k = 2;
    let mut expected = Vec::new();
    for a in 0..walks.len() {
        for b in 0..walks.len() {
            if walks[a].1[1..] == walks[b].1[..k] {
                expected.push((a, b));
            }
        }
    }
    let got: Vec<(usize, usize)> = stepped.t.iter().map(|&(a, _, b)| (a, b)).collect();
    assert_eq!(got, expected);
}

#[test]
fn a_rule_is_only_asked_about_cells_of_zero_and_one() {
    let first_cell = |v: Vec<usize>| v[0];
    let d = FA::debruign(3, &first_cell);
    assert_eq!(d.t, vec![(0, 0, 0), (0, 0, 1), (1, 0, 2), (1, 0, 3), (2, 1, 0), (2, 1, 1), (3, 1, 2), (3, 1, 3)]);
}
