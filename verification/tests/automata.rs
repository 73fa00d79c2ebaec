use code20::automaton::{carun, castep, largest_sequential_zeros, normal, remove_surrounding_zeros, sequence_count};
use code20::fsm::{stepsall, vec_to_u64};

#[test]
fn one_step_of_code_20_on_a_finite_row() {
    assert_eq!(castep(&vec![0, 1, 1, 0, 0]), vec![1, 1, 1, 1, 0]);
    assert_eq!(castep(&vec![1]), vec![0]);
    let run = carun(vec![0, 1, 1, 0, 0], 2);
    assert_eq!(run.len(), 3);
    assert_eq!(run[1], vec![1, 1, 1, 1, 0]);
    assert_eq!(run[2], castep(&run[1]));
}

#[test]
fn runs_and_counts() {
    assert_eq!(largest_sequential_zeros(vec![1, 0, 0, 1, 0]), 2);
    assert_eq!(largest_sequential_zeros(vec![]), 0);
    assert_eq!(largest_sequential_zeros(vec![0, 0, 0]), 3);
    assert_eq!(sequence_count(&[1, 1, 1], &[1, 1]), 2);
    assert_eq!(sequence_count(&[1], &[1, 1]), 0);
    assert_eq!(sequence_count(&[1, 0], &[]), 0);
    assert_eq!(remove_surrounding_zeros(vec![0, 0, 1, 0, 1, 0]), vec![1, 0, 1]);
    assert_eq!(remove_surrounding_zeros(vec![0, 0]), Vec::<u8>::new());
}

#[test]
fn normal_drops_rows_seen_in_earlier_evolutions() {
    // with period 1 no earlier step is compared; the second row, trimmed, is
    // the first row trimmed and is dropped
    assert_eq!(normal(vec![vec![0, 1, 0], vec![1]], 1), vec![vec![0, 1, 0]]);
    // with period 2 a row equal to its first step is not of exact period 2
    assert_eq!(normal(vec![vec![0]], 2), Vec::<Vec<u8>>::new());
}

#[test]
fn fsm_steps_and_words() {
    let all = stepsall(vec![0, 1, 1, 0, 0], 1);
    assert_eq!(all, vec![vec![0, 1, 1, 0, 0], vec![1, 1, 1, 1, 0]]);
    assert_eq!(vec_to_u64(vec![1, 0, 1, 1]), 13);
    assert_eq!(vec_to_u64(vec![]), 0);
}
