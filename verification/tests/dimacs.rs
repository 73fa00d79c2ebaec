use code20::dimacs::{dimacs_text, names_symmetric, solver_values};

fn chars(s: &str) -> Vec<char> {
    s.chars().collect()
}

#[test]
fn clauses_are_written_in_dimacs_format() {
    let cnf = vec![vec![1, -2], vec![3], vec![-12, 4, 2147483647]];
    assert_eq!(dimacs_text(&cnf), "p cnf 2147483647 3\n1 -2 0\n3 0\n-12 4 2147483647 0\n");
}

#[test]
fn the_variable_count_is_the_largest_absolute_literal() {
    let cnf = vec![vec![-17, 3], vec![], vec![9]];
    assert_eq!(dimacs_text(&cnf), "p cnf 17 3\n-17 3 0\n0\n9 0\n");
}

#[test]
fn no_clauses_give_only_the_header() {
    assert_eq!(dimacs_text(&vec![]), "p cnf 0 0\n");
}

#[test]
fn values_come_from_the_v_lines() {
    let answer = "c some comment\ns SATISFIABLE\nv 1 -2 3 \nv -4 5 0\n";
    assert_eq!(solver_values(&chars(answer), false), vec![1, -2, 3, -4, 5, 0]);
}

#[test]
fn v_lines_are_run_together_without_a_break() {
    // the last number of one line and the first of the next become one token
    let answer = "v 1 -2 3\nv -4 5 0";
    assert_eq!(solver_values(&chars(answer), false), vec![1, -2, 5, 0]);
}

#[test]
fn short_lines_and_other_lines_give_nothing() {
    let answer = "v\nvx\nx 1 2\n  v 3\nv  7";
    assert_eq!(solver_values(&chars(answer), false), vec![7]);
}

#[test]
fn tokens_that_are_no_i32_are_skipped() {
    let answer = "v +7 2147483648 -2147483648 abc - + 0x1 007\u{a0}8";
    assert_eq!(solver_values(&chars(answer), false), vec![7, -2147483648, 7, 8]);
}

#[test]
fn symmetric_answers_are_mirrored() {
    assert_eq!(solver_values(&chars("v 1 -2 3\n"), true), vec![1, -2, 3, 3, -2, 1]);
    assert_eq!(solver_values(&chars(""), true), Vec::<i32>::new());
}

#[test]
fn symmetric_runs_are_told_by_their_name() {
    assert!(names_symmetric(&chars("filesolver/cnf_for_w10_p2_symmetric_output.txt")));
    assert!(names_symmetric(&chars("symmetric")));
    assert!(!names_symmetric(&chars("filesolver/cnf_for_w10_p2_output.txt")));
    assert!(!names_symmetric(&chars("symmetri")));
}
