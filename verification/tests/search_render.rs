use code20::int_u1024::{from_u128, one, to_u128};
use code20::render::{array_plot, solution_to_array};
use code20::search::code20;

#[test]
fn code20_on_a_row_of_1024_cells() {
    assert_eq!(to_u128(code20(from_u128(0b11 << 10))), 0b1111 << 9);
    assert_eq!(to_u128(code20(from_u128(1 << 10))), 0);
    // cells past the edge of the row are dead
    assert_eq!(to_u128(code20(from_u128(0b11))), 0b111);
}

#[test]
fn a_lone_cell_is_drawn_until_it_dies() {
    let arr = solution_to_array(one(), 1, 0);
    assert_eq!(arr.len(), 2);
    assert_eq!(arr[0].len(), 20);
    assert_eq!(arr[0].iter().filter(|&&c| c == 1).count(), 1);
    assert!(arr[1].iter().all(|&c| c == 0));
}

#[test]
fn plotting_rows() {
    assert_eq!(array_plot(vec![vec![1, 0], vec![0, 1]]), "█ \n █");
    assert_eq!(array_plot(vec![vec![2]]), "?");
    assert_eq!(array_plot(vec![]), "");
}

#[test]
fn the_search_stops_at_its_depth() {
    let mut found = Vec::new();
    assert_eq!(code20::search::solve_dfs(code20::int_u1024::one(), 1020, 1, &mut found), 1);
    assert!(found.is_empty());
}

#[test]
fn the_search_starts_one_cell_below_twice_the_period() {
    // with len == 2 p - 1 no cell is fixed yet; the empty row comes back after one step
    let mut found = Vec::new();
    let zero = code20::int_u1024::zero();
    assert_eq!(code20::search::solve_dfs(zero, 1, 1, &mut found), 1);
    assert_eq!(found.len(), 1);
    assert!(found[0].0 == zero);
    assert_eq!(found[0].1, 1);
}
