use code20::customuint::U256;
use code20::satsearch::{blocking_clauses, from_big_endian, solution_number, solution_rows, step256, u256tobits, vec_bool_to_bytes};

#[test]
fn a_lone_cell_dies() {
    assert_eq!(step256(U256([1 << 10, 0, 0, 0])).0, [0, 0, 0, 0]);
}

#[test]
fn two_neighbours_grow_into_four() {
    assert_eq!(step256(U256([0b11 << 10, 0, 0, 0])).0, [0b1111 << 9, 0, 0, 0]);
    // on the ring, cell 0 and cell 1 reach round to cell 255
    assert_eq!(step256(U256([0b11, 0, 0, 0])).0, [0b111, 0, 0, 1 << 63]);
}

#[test]
fn bits_are_listed_most_significant_first() {
    let bits = u256tobits(U256([1, 0, 0, 1 << 63]));
    assert_eq!(bits.len(), 256);
    assert_eq!(bits[0], 1);
    assert_eq!(bits[255], 1);
    assert_eq!(bits.iter().map(|&b| b as u32).sum::<u32>(), 2);
}

#[test]
fn a_row_of_signs_is_read_as_binary() {
    assert_eq!(solution_number(&[0, 5, -1, 3], 4).0, [0b101, 0, 0, 0]);
    assert_eq!(solution_number(&[9], 1).0, [0, 0, 0, 0]);
}

#[test]
fn bits_are_packed_high_bit_first() {
    assert_eq!(vec_bool_to_bytes(&[true, false, true]), vec![0b1010_0000]);
    assert_eq!(vec_bool_to_bytes(&[true; 9]), vec![255, 128]);
    assert_eq!(vec_bool_to_bytes(&[]), Vec::<u8>::new());
}

#[test]
fn bytes_are_read_big_endian() {
    assert_eq!(from_big_endian(&[1, 2]).0, [0x0102, 0, 0, 0]);
    let mut bytes = vec![0u8; 32];
    bytes[0] = 0x80;
    assert_eq!(from_big_endian(&bytes).0, [0, 0, 0, 1 << 63]);
}

#[test]
fn rows_of_a_solution_evolve_under_code_20() {
    // signs 1, 1, 0 pack into 0b1100_0000: cells 6 and 7 live
    let rows = solution_rows(&[0, 1, 1, -1], 3, 1).unwrap();
    assert_eq!(rows.len(), 5);
    let live = |row: &Vec<u8>| (0..256).filter(|&k| row[k] == 1).collect::<Vec<usize>>();
    assert_eq!(live(&rows[0]), vec![6, 7]);
    assert_eq!(live(&rows[1]), vec![5, 6, 7, 8]);
    assert_eq!(live(&rows[2]), vec![4, 6, 7, 9]);
}

#[test]
fn wide_rows_are_not_drawn() {
    let ans = vec![1i32; 300];
    assert!(solution_rows(&ans, 256, 1).is_none());
    assert!(solution_rows(&ans, 248, 1).is_some());
}

#[test]
fn blocking_clauses_negate_the_row_and_sign_it_by_later_rows() {
    let output = vec![0, 3, -4, 5, 99];
    let later = vec![U256([1, 0, 0, 1u64 << 63]), U256([2, 0, 0, 0]), U256([1 | (1u64 << 1), 0, 0, 1u64 << 62])];
    let cs = blocking_clauses(&output, 3, &later);
    assert_eq!(cs, vec![vec![-3, 4, -5], vec![-3, -4, 5], vec![3, 4, 5]]);
}

#[test]
fn blocking_clauses_without_later_rows() {
    let cs = blocking_clauses(&[7, 1, 2], 2, &[]);
    assert_eq!(cs, vec![vec![-1, -2]]);
}
