use code20::fa::FA;

fn one_bit_debruijn() -> FA {
    FA::from(vec![0, 1], 2, vec![(0, 0, 0), (0, 1, 1), (1, 0, 0), (1, 1, 1)], 0, vec![0])
}

#[test]
fn packed_walks_come_in_stack_order() {
    let fa = one_bit_debruijn();
    let walks = fa.edge_tree_bin((0, vec![0]), 2);
    assert_eq!(walks, vec![(2, vec![0, 1, 0]), (3, vec![0, 1, 1]), (0, vec![0, 0, 0]), (1, vec![0, 0, 1])]);
}

#[test]
fn packed_walks_of_one_step_keep_the_letters_before() {
    let fa = one_bit_debruijn();
    let walks = fa.edge_tree_bin((5, vec![1]), 1);
    assert_eq!(walks, vec![(10, vec![1, 0]), (11, vec![1, 1])]);
}

#[test]
fn packed_step_of_the_parity_rule() {
    let fa = one_bit_debruijn();
    let parity = |x: u8| (x.count_ones() % 2) as usize;
    let r = fa.usize_dfa_step(3, &parity);
    assert_eq!(r.q, vec![2, 3, 0, 1, 2, 3, 0, 1]);
    assert_eq!(r.sigma, 2);
    assert_eq!(r.q0, 2);
    assert_eq!(r.f, vec![2]);
    assert_eq!(r.t.len(), 32);
    assert_eq!(r.t[..8].to_vec(), vec![(2, 1, 0), (2, 1, 0), (2, 0, 1), (2, 0, 1), (3, 0, 2), (3, 0, 2), (3, 1, 3), (3, 1, 3)]);
}
