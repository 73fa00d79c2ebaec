use code20::net::{Net, Path};
use std::collections::HashSet;

fn net(rows: Vec<[Vec<usize>; 2]>) -> Net {
    Net { r: rows }
}

#[test]
fn the_all_net_loops_on_every_letter() {
    assert_eq!(Net::all_net().r, vec![[vec![0], vec![0]]]);
}

#[test]
fn reversing_turns_every_edge_round() {
    let n = net(vec![[vec![1], vec![0]], [vec![], vec![0, 1]]]);
    let r = n.reverse_edges();
    assert_eq!(r.r, vec![[vec![], vec![0, 1]], [vec![0], vec![1]]]);
    // turning round twice gives back the same followers
    let rr = r.reverse_edges();
    assert_eq!(rr.r, n.r);
}

#[test]
fn stepping_a_set_of_nodes() {
    let n = net(vec![[vec![1], vec![0]], [vec![], vec![0, 1]]]);
    assert_eq!(n.net_step(&[0, 1], 1), vec![0, 1]);
    assert_eq!(n.net_step(&[1], 0), Vec::<usize>::new());
    assert_eq!(n.net_step(&[1, 0, 1], 0), vec![1]);
}

#[test]
fn selecting_nodes_renumbers_them() {
    let n = net(vec![[vec![1], vec![0]], [vec![], vec![0, 1]]]);
    assert_eq!(n.select(&[1]).r, vec![[vec![], vec![0]]]);
    assert_eq!(n.select(&[1, 0]).r, vec![[vec![], vec![1, 0]], [vec![0], vec![1]]]);
}

#[test]
fn unreachable_nodes_are_dropped() {
    let n = net(vec![[vec![1], vec![]], [vec![], vec![0]], [vec![0], vec![2]]]);
    assert_eq!(n.without_unreachable().r, vec![[vec![1], vec![]], [vec![], vec![0]]]);
}

#[test]
fn the_subset_construction() {
    let n = net(vec![[vec![0, 1], vec![]], [vec![], vec![1]]]);
    let accept: HashSet<usize> = [1].into_iter().collect();
    let (d, acc) = n.determinize(&[0], &accept);
    assert_eq!(d.r, vec![[vec![1], vec![]], [vec![1], vec![2]], [vec![], vec![2]]]);
    let expected: HashSet<usize> = [1, 2].into_iter().collect();
    assert_eq!(acc, expected);
}

#[test]
fn minimizing_the_all_net() {
    let m = Net::all_net().minimize_brzozowski().unwrap();
    assert_eq!(m.r, vec![[vec![0], vec![0]]]);
}

#[test]
fn minimizing_merges_equivalent_nodes() {
    // two nodes that both lead to each other on every letter
    let n = net(vec![[vec![1], vec![1]], [vec![0], vec![0]]]);
    let m = n.minimize_brzozowski().unwrap();
    assert_eq!(m.r, vec![[vec![0], vec![0]]]);
}

#[test]
fn a_cellular_automaton_step() {
    // radius 1, the rule writes the letter read: node 0 splits into 4
    let o = Net::all_net().ca_step((1, vec![0, 1, 0, 1, 0, 1, 0, 1]));
    assert_eq!(
        o.r,
        vec![[vec![0], vec![1]], [vec![2], vec![3]], [vec![0], vec![1]], [vec![2], vec![3]]]
    );
    // radius 0: node 0 stays one node; the rule swaps the letters
    let o = Net::all_net().ca_step((0, vec![1, 0]));
    assert_eq!(o.r, vec![[vec![0], vec![0]]]);
}

#[test]
fn walks_grow_and_are_cut_to_the_maximum() {
    let ps = Net::all_net().paths(2, 3);
    let collected: Vec<Vec<usize>> = ps.iter().map(|p| p.collected.clone()).collect();
    assert_eq!(collected, vec![vec![1, 0], vec![0, 1], vec![0, 0]]);
    assert!(ps.iter().all(|p| p.nodes == vec![0, 0, 0]));
    let all = Net::all_net().paths(2, 10);
    let collected: Vec<Vec<usize>> = all.iter().map(|p| p.collected.clone()).collect();
    assert_eq!(collected, vec![vec![0, 0], vec![0, 1], vec![1, 0], vec![1, 1]]);
}

#[test]
fn paths_step_by_step() {
    let mut p = Path::new(3);
    p.push(4, 1);
    assert_eq!(p.nodes, vec![3, 4]);
    assert_eq!(p.collected, vec![1]);
    let more = p.push_multiple(&[vec![5, 6], vec![7]]);
    let ends: Vec<(usize, usize)> = more.iter().map(|q| (*q.nodes.last().unwrap(), *q.collected.last().unwrap())).collect();
    assert_eq!(ends, vec![(5, 0), (6, 0), (7, 1)]);
    assert!(more[0].less_than(&more[1]));
    assert!(!more[1].less_than(&more[0]));
    assert!(more[2].same_as(&more[2].copy()));
}

#[test]
fn networks_are_written_as_wolfram_lists() {
    let n = net(vec![[vec![1], vec![0, 2]], [vec![], vec![1]], [vec![2], vec![]], [vec![], vec![]]]);
    assert_eq!(n.to_mathematica(), "{{0->2, 1->1,1->3}, {1->2}, {0->3}, {}}");
    assert_eq!(Net::all_net().to_mathematica(), "{{0->1, 1->1}}");
    assert_eq!(net(vec![]).to_mathematica(), "{}");
}

#[test]
fn very_large_networks_are_written_empty() {
    let n = net(vec![[vec![0], vec![]]; 1_000_001]);
    assert_eq!(n.to_mathematica(), "{}");
    let m = net(vec![[vec![9], vec![]]; 2]);
    assert_eq!(m.to_mathematica(), "{{0->10}, {0->10}}");
}
