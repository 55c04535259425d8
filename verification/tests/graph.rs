use dioxus_flow::graph::{
    delete_plan, delete_request, deselect_edges, deselect_nodes, grabbed, new_edge_id, nudged,
    press_edge, press_node, retain_marked, select_node, select_only, toggle_node, EdgeRef, NodeRef,
};
use dioxus_flow::types::Connection;

fn node(id: &str, selected: bool) -> NodeRef {
    NodeRef {
        id: id.to_string(),
        selected,
        selectable: true,
        draggable: true,
    }
}

fn edge(id: &str, source: &str, target: &str, selected: bool) -> EdgeRef {
    EdgeRef {
        id: id.to_string(),
        source: source.to_string(),
        target: target.to_string(),
        source_handle: None,
        target_handle: None,
        selected,
        selectable: true,
    }
}

fn selection(nodes: &[NodeRef]) -> Vec<bool> {
    nodes.iter().map(|n| n.selected).collect()
}

fn connection(source: &str, target: &str, source_handle: Option<&str>, target_handle: Option<&str>) -> Connection {
    Connection {
        source: source.to_string(),
        target: target.to_string(),
        source_handle: source_handle.map(|h| h.to_string()),
        target_handle: target_handle.map(|h| h.to_string()),
    }
}

#[test]
fn a_plain_press_selects_the_node_alone() {
    let mut nodes = vec![node("a", true), node("b", false), node("c", true)];
    assert!(press_node(&mut nodes, &"b".to_string(), true, false));
    assert_eq!(selection(&nodes), vec![false, true, false]);
}

#[test]
fn a_plain_press_on_a_selected_node_keeps_the_selection() {
    let mut nodes = vec![node("a", true), node("b", false), node("c", true)];
    assert!(!press_node(&mut nodes, &"c".to_string(), true, false));
    assert_eq!(selection(&nodes), vec![true, false, true]);
}

#[test]
fn shift_toggles_and_toggling_twice_restores() {
    let mut nodes = vec![node("a", true), node("b", false)];
    assert!(!press_node(&mut nodes, &"b".to_string(), true, true));
    assert_eq!(selection(&nodes), vec![true, true]);
    assert!(!press_node(&mut nodes, &"b".to_string(), true, true));
    assert_eq!(selection(&nodes), vec![true, false]);
}

#[test]
fn an_unselectable_node_changes_nothing() {
    let mut nodes = vec![node("a", true), node("b", false)];
    assert!(!press_node(&mut nodes, &"b".to_string(), false, false));
    assert_eq!(selection(&nodes), vec![true, false]);
    assert!(!select_node(&mut nodes, &"b".to_string(), false, false));
    assert_eq!(selection(&nodes), vec![true, false]);
}

#[test]
fn keyboard_selection() {
    let mut nodes = vec![node("a", true), node("b", false)];
    assert!(select_node(&mut nodes, &"b".to_string(), true, false));
    assert_eq!(selection(&nodes), vec![false, true]);
    assert!(!select_node(&mut nodes, &"a".to_string(), true, true));
    assert_eq!(selection(&nodes), vec![true, true]);
}

#[test]
fn only_the_first_node_of_an_id_toggles() {
    let mut nodes = vec![node("a", false), node("a", false)];
    toggle_node(&mut nodes, &"a".to_string());
    assert_eq!(selection(&nodes), vec![true, false]);
    select_only(&mut nodes, &"a".to_string());
    assert_eq!(selection(&nodes), vec![true, true]);
    deselect_nodes(&mut nodes);
    assert_eq!(selection(&nodes), vec![false, false]);
}

#[test]
fn pressing_an_edge() {
    let mut edges = vec![edge("e1", "a", "b", true), edge("e2", "b", "c", false)];
    assert!(press_edge(&mut edges, &"e2".to_string(), true, false));
    assert_eq!(edges.iter().map(|e| e.selected).collect::<Vec<_>>(), vec![false, true]);
    assert!(!press_edge(&mut edges, &"e1".to_string(), true, true));
    assert_eq!(edges.iter().map(|e| e.selected).collect::<Vec<_>>(), vec![true, true]);
    assert!(!press_edge(&mut edges, &"e1".to_string(), false, false));
    assert_eq!(edges.iter().map(|e| e.selected).collect::<Vec<_>>(), vec![true, true]);
    deselect_edges(&mut edges);
    assert_eq!(edges.iter().map(|e| e.selected).collect::<Vec<_>>(), vec![false, false]);
}

#[test]
fn a_press_drags_the_selection_along() {
    let mut nodes = vec![node("a", true), node("b", false), node("c", true), node("d", false)];
    nodes[2].draggable = false;
    assert_eq!(grabbed(&nodes, &"b".to_string()), vec![0, 1]);
    assert_eq!(grabbed(&nodes, &"c".to_string()), vec![0, 2]);
}

#[test]
fn arrow_keys_move_the_selection_or_the_focused_node() {
    let nodes = vec![node("a", true), node("b", false), node("c", true)];
    assert_eq!(nudged(&nodes, &"a".to_string()), vec![0, 2]);
    assert_eq!(nudged(&nodes, &"b".to_string()), vec![1]);
    assert_eq!(nudged(&nodes, &"zzz".to_string()), Vec::<usize>::new());
}

#[test]
fn a_delete_takes_the_selection_and_its_edges() {
    let nodes = vec![node("a", true), node("b", false), node("c", false), node("a", true)];
    let edges = vec![
        edge("ab", "a", "b", false),
        edge("bc", "b", "c", false),
        edge("cb", "c", "b", true),
        edge("ca", "c", "a", false),
    ];
    let request = delete_request(&nodes, &edges);
    assert_eq!(request.nodes, vec!["a".to_string()]);
    assert_eq!(request.edges, vec!["ab".to_string(), "cb".to_string(), "ca".to_string()]);

    let (keep_nodes, keep_edges) = delete_plan(&nodes, &edges);
    assert_eq!(keep_nodes, vec![false, true, true, false]);
    assert_eq!(keep_edges, vec![false, true, false, false]);

    let mut nodes = nodes;
    let mut edges = edges;
    retain_marked(&mut nodes, &keep_nodes);
    retain_marked(&mut edges, &keep_edges);
    assert_eq!(nodes.iter().map(|n| n.id.as_str()).collect::<Vec<_>>(), vec!["b", "c"]);
    assert_eq!(edges.iter().map(|e| e.id.as_str()).collect::<Vec<_>>(), vec!["bc"]);

    // Nothing is left to delete.
    let again = delete_request(&nodes, &edges);
    assert!(again.nodes.is_empty() && again.edges.is_empty());
}

#[test]
fn nothing_selected_means_nothing_to_delete() {
    let nodes = vec![node("a", false)];
    let edges = vec![edge("e", "a", "a", false)];
    let request = delete_request(&nodes, &edges);
    assert!(request.nodes.is_empty());
    assert!(request.edges.is_empty());
}

#[test]
fn a_new_connection_gets_its_own_edge_id() {
    let edges = vec![edge("x", "p", "q", false)];
    let id = new_edge_id(&edges, &connection("a", "b", None, None));
    assert_eq!(id, Some("a->b".to_string()));
    let id = new_edge_id(&edges, &connection("a", "b", Some("out"), Some("in")));
    assert_eq!(id, Some("a->b#out#in".to_string()));
}

#[test]
fn an_exact_duplicate_connection_adds_nothing() {
    let mut existing = edge("custom", "a", "b", false);
    existing.source_handle = Some("out".to_string());
    let edges = vec![existing];
    assert_eq!(new_edge_id(&edges, &connection("a", "b", Some("out"), None)), None);
    // A different handle is a different connection.
    assert_eq!(
        new_edge_id(&edges, &connection("a", "b", Some("other"), None)),
        Some("a->b#other".to_string())
    );
}

#[test]
fn a_taken_id_is_numbered() {
    let mut first = edge("a->b", "a", "b", false);
    first.source_handle = Some("h".to_string());
    let edges = vec![first];
    assert_eq!(
        new_edge_id(&edges, &connection("a", "b", None, None)),
        Some("a->b-2".to_string())
    );
    let mut second = edge("a->b-2", "x", "y", false);
    second.target_handle = Some("t".to_string());
    let mut third = edge("a->b-3", "x", "y", false);
    third.target_handle = Some("u".to_string());
    let edges = vec![edges[0].clone(), second, third];
    assert_eq!(
        new_edge_id(&edges, &connection("a", "b", None, None)),
        Some("a->b-4".to_string())
    );
}

#[test]
fn retaining_keeps_order() {
    let mut items = vec![10, 20, 30, 40, 50];
    retain_marked(&mut items, &vec![true, false, true, false, true]);
    assert_eq!(items, vec![10, 30, 50]);
    let mut none: Vec<u8> = vec![1, 2];
    retain_marked(&mut none, &vec![false, false]);
    assert!(none.is_empty());
}
