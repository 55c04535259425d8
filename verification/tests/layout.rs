use dioxus_flow::layout::{
    assign_ranks, barycenter_sort, layer_graph, neighbor_lists, order_ranks, reverse_back_edges,
    LayoutDirection,
};
use dioxus_flow::types::Side;

fn ids(names: &[&str]) -> Vec<String> {
    names.iter().map(|n| n.to_string()).collect()
}

fn edges(pairs: &[(&str, &str)]) -> Vec<(String, String)> {
    pairs
        .iter()
        .map(|(a, b)| (a.to_string(), b.to_string()))
        .collect()
}

#[test]
fn handle_sides_follow_the_direction() {
    assert_eq!(LayoutDirection::TopToBottom.handle_sides(), (Side::Top, Side::Bottom));
    assert_eq!(LayoutDirection::BottomToTop.handle_sides(), (Side::Bottom, Side::Top));
    assert_eq!(LayoutDirection::LeftToRight.handle_sides(), (Side::Left, Side::Right));
    assert_eq!(LayoutDirection::RightToLeft.handle_sides(), (Side::Right, Side::Left));
    for direction in [
        LayoutDirection::TopToBottom,
        LayoutDirection::BottomToTop,
        LayoutDirection::LeftToRight,
        LayoutDirection::RightToLeft,
    ] {
        let (target, source) = direction.handle_sides();
        assert_eq!(target.opposite(), source);
    }
    assert_eq!(LayoutDirection::default(), LayoutDirection::TopToBottom);
}

#[test]
fn a_chain_takes_one_rank_per_node() {
    let g = layer_graph(&ids(&["a", "b", "c"]), &edges(&[("a", "b"), ("b", "c")]));
    assert_eq!(g.arcs, vec![(0, 1), (1, 2)]);
    assert_eq!(g.oriented, g.arcs);
    assert_eq!(g.ranks, vec![0, 1, 2]);
    assert_eq!(g.order, vec![vec![0], vec![1], vec![2]]);
}

#[test]
fn a_diamond_puts_both_middles_on_one_rank() {
    let g = layer_graph(
        &ids(&["a", "b", "c", "d"]),
        &edges(&[("a", "b"), ("a", "c"), ("b", "d"), ("c", "d")]),
    );
    assert_eq!(g.ranks, vec![0, 1, 1, 2]);
    assert_eq!(g.order.len(), 3);
    let mut middle = g.order[1].clone();
    middle.sort();
    assert_eq!(middle, vec![1, 2]);
    assert_eq!(g.preds[3], vec![1, 2]);
    assert_eq!(g.succs[0], vec![1, 2]);
}

#[test]
fn a_cycle_is_broken_and_lands_on_distinct_ranks() {
    let g = layer_graph(
        &ids(&["a", "b", "c"]),
        &edges(&[("a", "b"), ("b", "c"), ("c", "a")]),
    );
    assert_eq!(g.arcs, vec![(0, 1), (1, 2), (2, 0)]);
    // The closing arc is the back edge of the search from `a`.
    assert_eq!(g.oriented, vec![(0, 1), (1, 2), (0, 2)]);
    let mut ranks = g.ranks.clone();
    ranks.sort();
    ranks.dedup();
    assert_eq!(ranks.len(), 3);
    assert_eq!(g.ranks, vec![0, 1, 2]);
}

#[test]
fn unknown_ends_and_self_loops_are_ignored() {
    let g = layer_graph(
        &ids(&["a", "b", "lonely"]),
        &edges(&[("a", "b"), ("a", "ghost"), ("b", "b"), ("a", "b")]),
    );
    assert_eq!(g.arcs, vec![(0, 1)]);
    assert_eq!(g.ranks, vec![0, 1, 0]);
    assert_eq!(g.ranks.len(), 3);
}

#[test]
fn an_empty_graph_has_one_empty_rank() {
    let g = layer_graph(&Vec::new(), &Vec::new());
    assert!(g.arcs.is_empty());
    assert!(g.ranks.is_empty());
    assert_eq!(g.order, vec![Vec::<usize>::new()]);
}

#[test]
fn a_repeated_id_resolves_to_its_last_node() {
    let g = layer_graph(&ids(&["a", "b", "a"]), &edges(&[("a", "b")]));
    assert_eq!(g.arcs, vec![(2, 1)]);
    assert_eq!(g.ranks, vec![0, 1, 0]);
}

#[test]
fn back_edges_are_turned_around() {
    let mut arcs = vec![(0, 1), (1, 2), (2, 0)];
    reverse_back_edges(3, &mut arcs);
    assert_eq!(arcs, vec![(0, 1), (1, 2), (0, 2)]);
    // An acyclic graph is left alone.
    let mut dag = vec![(2, 1), (1, 0), (2, 0)];
    reverse_back_edges(3, &mut dag);
    assert_eq!(dag, vec![(2, 1), (1, 0), (2, 0)]);
}

#[test]
fn ranks_are_longest_paths() {
    let arcs = vec![(0, 1), (1, 2), (0, 2), (3, 2)];
    assert_eq!(assign_ranks(4, &arcs), vec![0, 1, 2, 0]);
    assert_eq!(assign_ranks(2, &Vec::new()), vec![0, 0]);
}

#[test]
fn neighbor_lists_follow_arc_order() {
    let (preds, succs) = neighbor_lists(3, &vec![(0, 2), (1, 2), (0, 1)]);
    assert_eq!(preds, vec![vec![], vec![0], vec![0, 1]]);
    assert_eq!(succs, vec![vec![2, 1], vec![2], vec![]]);
}

#[test]
fn ranks_are_grouped_into_rows() {
    let ranks = vec![0, 1, 1, 2];
    let arcs = vec![(0, 1), (0, 2), (1, 3), (2, 3)];
    let order = order_ranks(4, &arcs, &ranks);
    assert_eq!(order.len(), 3);
    assert_eq!(order[0], vec![0]);
    assert_eq!(order[2], vec![3]);
    let mut middle = order[1].clone();
    middle.sort();
    assert_eq!(middle, vec![1, 2]);
}

#[test]
fn barycenters_order_a_row() {
    // Node 0 hangs under position 2, node 2 under position 0, and node 1
    // has no neighbours so it keeps its own slot (1).
    let neighbors = vec![vec![5], vec![], vec![4], vec![], vec![], vec![]];
    let pos = vec![0, 1, 2, 0, 0, 2];
    let mut row = vec![0, 1, 2];
    barycenter_sort(&mut row, &neighbors, &pos);
    assert_eq!(row, vec![2, 1, 0]);
    // Equal keys keep their order.
    let mut tied = vec![3, 4];
    let flat = vec![vec![], vec![], vec![], vec![0], vec![3]];
    let zero = vec![0, 0, 0, 0, 0];
    barycenter_sort(&mut tied, &flat, &zero);
    assert_eq!(tied, vec![3, 4]);
}

#[test]
fn fractional_barycenters_compare_exactly() {
    // Node 0 averages positions 0 and 1 (1/2); node 1 sits at 0 (key 0).
    let neighbors = vec![vec![2, 3], vec![2], vec![], vec![]];
    let pos = vec![0, 0, 0, 1];
    let mut row = vec![0, 1];
    barycenter_sort(&mut row, &neighbors, &pos);
    assert_eq!(row, vec![1, 0]);
}

#[test]
fn only_an_arc_on_a_cycle_is_turned_round() {
    // 0 -> 1 -> 2 -> 1 holds one cycle; 0 -> 2 and 0 -> 1 lie on none.
    let mut arcs = vec![(0, 1), (0, 2), (1, 2), (2, 1)];
    reverse_back_edges(3, &mut arcs);
    assert_eq!(arcs, vec![(0, 1), (0, 2), (1, 2), (1, 2)]);
}

#[test]
fn the_depth_first_search_turns_the_arc_that_closes_the_cycle() {
    let mut arcs = vec![(0, 1), (1, 2), (2, 0)];
    reverse_back_edges(3, &mut arcs);
    assert_eq!(arcs, vec![(0, 1), (1, 2), (0, 2)]);
}

#[test]
fn a_rank_above_the_node_count_adds_empty_rows() {
    let order = order_ranks(1, &vec![], &vec![3]);
    assert_eq!(order, vec![vec![], vec![], vec![], vec![0]]);
}

#[test]
fn unknown_ends_self_loops_and_repeats_change_nothing() {
    let names = ids(&["a", "b", "lonely"]);
    let plain = layer_graph(&names, &edges(&[("a", "b")]));
    let noisy = layer_graph(
        &names,
        &edges(&[("a", "ghost"), ("a", "b"), ("b", "b"), ("a", "b"), ("ghost", "lonely")]),
    );
    assert_eq!(plain.arcs, noisy.arcs);
    assert_eq!(plain.oriented, noisy.oriented);
    assert_eq!(plain.ranks, noisy.ranks);
    assert_eq!(plain.order, noisy.order);
    assert_eq!(plain.ranks.len(), 3);
}
