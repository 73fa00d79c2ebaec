use code20::fa::FA;

fn sorted(mut v: Vec<usize>) -> Vec<usize> {
    v.sort();
    v
}

#[test]
fn canonical_label_test_1() {
    let (a, b, c) = ('a' as usize, 'b' as usize, 'c' as usize);
    let (ua, ub, uc) = ('A' as usize, 'B' as usize, 'C' as usize);
    let fa1 = FA::from(vec![a, b, c], 2, vec![(a, 0, b), (b, 1, c), (c, 0, a), (c, 1, b)], a, vec![a]);
    let fa2 = FA::from(vec![ub, uc, ua], 2, vec![(ub, 1, uc), (ua, 0, ub), (uc, 1, ub), (uc, 0, ua)], ua, vec![ua]);

    let fa1c = fa1.to_usize_fa().canonical_label();
    let fa2c = fa2.to_usize_fa().canonical_label();

    assert!(fa1c == fa2c);
}

#[test]
fn canonical_labels_follow_the_breadth_first_order() {
    let (a, b, c) = ('a' as usize, 'b' as usize, 'c' as usize);
    let fa1 = FA::from(vec![a, b, c], 2, vec![(a, 0, b), (b, 1, c), (c, 0, a), (c, 1, b)], a, vec![a]);
    let fa1c = fa1.to_usize_fa().canonical_label();
    assert_eq!(fa1c.q, vec![0, 1, 2]);
    assert_eq!(fa1c.t, vec![(0, 0, 1), (1, 1, 2), (2, 0, 0), (2, 1, 1)]);
    assert_eq!(fa1c.q0, 0);
    assert_eq!(fa1c.f, vec![0]);
}

#[test]
fn renaming_nodes_keeps_the_canonical_label() {
    let fa1 = FA::from(vec![0, 1, 2, 3], 2, vec![(0, 1, 2), (2, 0, 3), (3, 1, 1), (1, 0, 0), (2, 1, 2)], 0, vec![3, 1]);
    let g = |n: usize| [40, 7, 19, 3][n];
    let fa2 = FA::from(
        fa1.q.iter().map(|&n| g(n)).collect(),
        2,
        fa1.t.iter().map(|&(a, x, b)| (g(a), x, g(b))).collect(),
        g(0),
        fa1.f.iter().map(|&n| g(n)).collect(),
    );
    let c1 = fa1.canonical_label();
    let c2 = fa2.canonical_label();
    assert_eq!(c1.q, c2.q);
    assert_eq!(c1.t, c2.t);
    assert_eq!(c1.f, c2.f);
    assert_eq!(c1.q0, c2.q0);
    assert_eq!(c1.t, vec![(0, 1, 1), (1, 0, 2), (1, 1, 1), (2, 1, 3), (3, 0, 0)]);
    assert_eq!(c1.f, vec![2, 3]);
}

#[test]
fn to_dfa_test_1() {
    let fa = FA::from(vec![0, 1, 2], 2, vec![(0, 0, 0), (0, 1, 2), (2, 0, 2), (2, 1, 1), (1, 0, 0), (0, 0, 1)], 0, vec![0]);
    let (dfa, sets) = fa.bs_usize_to_dfa();
    let members: Vec<Vec<usize>> = sets.iter().map(|s| s.to_vec()).collect();
    // {0} -0-> {0,1}, {0} -1-> {2}; {0,1} -0-> {0,1}, {0,1} -1-> {2}; {2} -0-> {2}, {2} -1-> {1}; {1} -0-> {0}
    assert_eq!(members, vec![vec![0], vec![0, 1], vec![2], vec![1]]);
    assert_eq!(dfa.q, vec![0, 1, 2, 3]);
    assert_eq!(dfa.q0, 0);
    assert_eq!(dfa.f, vec![0, 1]);
    let mut t = dfa.t.clone();
    t.sort();
    assert_eq!(t, vec![(0, 0, 1), (0, 1, 2), (1, 0, 1), (1, 1, 2), (2, 0, 2), (2, 1, 3), (3, 0, 0)]);
}

#[test]
fn to_dfa_test_2() {
    let fa = FA::from(vec![0, 1, 2, 3], 2, vec![(0, 0, 1), (1, 0, 1), (1, 1, 2), (0, 0, 2), (2, 1, 3), (3, 1, 0)], 0, vec![0]);
    let (dfa, sets) = fa.bs_usize_to_dfa();
    let members: Vec<Vec<usize>> = sets.iter().map(|s| s.to_vec()).collect();
    assert_eq!(members[0], vec![0]);
    assert_eq!(dfa.q.len(), sets.len());
    // every set of the construction is different
    for i in 0..members.len() {
        for j in 0..i {
            assert_ne!(members[i], members[j]);
        }
    }
    // the halting sets are those holding node 0
    for i in 0..members.len() {
        assert_eq!(dfa.f.contains(&i), members[i].contains(&0));
    }
}

#[test]
fn edges_of_a_node() {
    let fa = FA::from(vec![0, 1, 2], 2, vec![(0, 0, 1), (1, 1, 2), (0, 1, 2), (0, 0, 1)], 0, vec![2]);
    assert_eq!(fa.edges_of_node_with_state(0, 0), &vec![1]);
    assert_eq!(fa.edges_of_node(0), vec![1, 2]);
    assert_eq!(fa.edges_of_node_capturing(0), vec![(0, 1), (1, 2)]);
    assert_eq!(fa.edges_of_node_capturing(2), vec![]);
}

#[test]
fn an_edge_tree_lists_every_walk() {
    let fa = FA::from(vec![0, 1, 2], 2, vec![(0, 0, 1), (1, 1, 2), (0, 1, 2)], 0, vec![2]);
    let tree = fa.edge_tree_of_node(0, 2);
    assert_eq!(tree, vec![(vec![0, 1], vec![0, 1, 2])]);
    let tree = fa.edge_tree_of_node(0, 1);
    assert_eq!(tree, vec![(vec![0], vec![0, 1]), (vec![1], vec![0, 2])]);
}

#[test]
fn nodes_renamed_by_position() {
    let fa = FA::from(vec![7, 3, 9], 2, vec![(7, 0, 3), (3, 1, 9)], 7, vec![9]);
    let u = fa.to_usize_fa();
    assert_eq!(u.q, vec![0, 1, 2]);
    assert_eq!(u.t, vec![(0, 0, 1), (1, 1, 2)]);
    assert_eq!(u.q0, 0);
    assert_eq!(u.f, vec![2]);
}

#[test]
fn unreachable_and_unproductive_nodes_go() {
    let fa = FA::from(vec![0, 1, 2, 3, 4], 2, vec![(0, 0, 1), (1, 1, 2), (3, 0, 0), (0, 1, 4)], 0, vec![2]);
    let r = fa.remove_unreachable_nodes();
    assert_eq!(sorted(r.q.clone()), vec![0, 1, 2, 4]);
    assert_eq!(r.t, vec![(0, 0, 1), (1, 1, 2), (0, 1, 4)]);
    assert_eq!(r.f, vec![2]);
    let p = fa.remove_unproductive_nodes();
    assert_eq!(*p.q.last().unwrap(), 0);
    assert_eq!(sorted(p.q[..p.q.len() - 1].to_vec()), vec![0, 1, 2, 3]);
    assert_eq!(p.t, vec![(0, 0, 1), (1, 1, 2), (3, 0, 0)]);
    let e = fa.easy_simplifications();
    assert_eq!(e.t, vec![(0, 0, 1), (1, 1, 2)]);
    assert_eq!(e.f, vec![2]);
    assert_eq!(e.q0, 0);
    // the nodes left are nodes of the automaton, and the only word accepted is still 0 1
    assert!(e.q.iter().all(|n| fa.q.contains(n)));
    assert_eq!(sorted(e.q.clone()).iter().filter(|&&n| n != 0).cloned().collect::<Vec<_>>(), vec![1, 2]);
}

#[test]
fn minimizing_merges_nodes_of_equal_behaviour() {
    let fa = FA::from(vec![0, 1, 2, 3], 2, vec![(0, 0, 1), (0, 1, 2), (1, 0, 3), (2, 0, 3)], 0, vec![3]);
    let m = fa.usize_dfa_minimize();
    assert_eq!(m.q, vec![0, 1, 2]);
    assert_eq!(m.t, vec![(0, 0, 1), (0, 1, 1), (1, 0, 2)]);
    assert_eq!(m.f, vec![2]);
    assert_eq!(m.q0, 0);
    assert_eq!(m.sigma, 2);
}

#[test]
fn minimizing_a_minimal_automaton_changes_nothing() {
    let fa = FA::from(vec![0, 1, 2], 1, vec![(0, 0, 1), (1, 0, 2), (2, 0, 2)], 0, vec![2]);
    let m = fa.usize_dfa_minimize();
    assert_eq!(m.q, vec![0, 1, 2]);
    assert_eq!(m.t, vec![(0, 0, 1), (1, 0, 2), (2, 0, 2)]);
    assert_eq!(m.f, vec![2]);
    let s = fa.usize_full_simplify();
    assert_eq!(s.q.len(), 3);
}

#[test]
fn nodes_far_from_the_start_are_cut() {
    // a chain 0 -> 1 -> ... -> 7, halting at 3
    let t: Vec<(usize, usize, usize)> = (0..7).map(|i| (i, 0, i + 1)).collect();
    let fa = FA::from((0..8).collect(), 1, t, 0, vec![3, 7]);
    let r = fa.remove_after_five_nodes();
    assert_eq!(r.q, vec![0, 1, 2, 3, 4, 5]);
    assert_eq!(r.t, vec![(0, 0, 1), (1, 0, 2), (2, 0, 3), (3, 0, 4), (4, 0, 5)]);
    assert_eq!(r.f, vec![3]);
    // a shortcut brings node 7 near
    let mut t2: Vec<(usize, usize, usize)> = (0..7).map(|i| (i, 0, i + 1)).collect();
    t2.push((0, 0, 6));
    let fa2 = FA::from((0..8).collect(), 1, t2, 0, vec![3, 7]);
    assert_eq!(fa2.remove_after_five_nodes().q, vec![0, 1, 2, 3, 4, 5, 6, 7]);
}

#[test]
fn words_along_walks_from_the_start() {
    let fa = FA::from(vec![0, 1], 2, vec![(0, 0, 1), (1, 1, 0)], 0, vec![1]);
    assert_eq!(fa.all_words(0, 0, 100, 0), vec![vec![0], vec![0, 1]]);
    assert_eq!(fa.all_words(0, 0, 100, 1), vec![vec![0], vec![0, 1, 0], vec![0, 1, 0, 1]]);
    // one round only
    assert_eq!(fa.all_words(0, 1, 100, 1), vec![vec![0]]);
    // stop once a word is found
    assert_eq!(fa.all_words(0, 0, 1, 1), vec![vec![0]]);
}

#[test]
fn the_subset_automaton_has_one_edge_per_set_and_letter() {
    let fa = FA::from(vec![0, 1, 2, 3], 2, vec![(0, 0, 1), (1, 0, 1), (1, 1, 2), (0, 0, 2), (2, 1, 3), (3, 1, 0)], 0, vec![0]);
    let (dfa, _) = fa.bs_usize_to_dfa();
    for a in 0..dfa.t.len() {
        for b in 0..a {
            assert!(dfa.t[a].0 != dfa.t[b].0 || dfa.t[a].1 != dfa.t[b].1);
        }
    }
}
