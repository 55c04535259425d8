use dioxus_flow::types::{
    edge_id, orient_connection, AnchorMode, Connection, DeleteRequest, EdgeKind, HandleKey, HandleKind,
    MarkerKind, Side,
};

fn key(node: &str, kind: HandleKind, id: &str) -> HandleKey {
    HandleKey {
        node: node.to_string(),
        kind,
        id: id.to_string(),
    }
}

#[test]
fn sides_face_each_other() {
    for side in [Side::Top, Side::Right, Side::Bottom, Side::Left] {
        assert_eq!(side.opposite().opposite(), side);
        assert_ne!(side.opposite(), side);
        assert_eq!(side.opposite().is_horizontal(), side.is_horizontal());
    }
    assert!(Side::Left.is_horizontal() && Side::Right.is_horizontal());
    assert!(!Side::Top.is_horizontal() && !Side::Bottom.is_horizontal());
    assert_eq!(Side::Top.class_name(), "top");
    assert_eq!(Side::Right.class_name(), "right");
    assert_eq!(Side::Bottom.class_name(), "bottom");
    assert_eq!(Side::Left.class_name(), "left");
}

#[test]
fn defaults() {
    assert_eq!(EdgeKind::default(), EdgeKind::Bezier);
    assert_eq!(MarkerKind::default(), MarkerKind::ArrowClosed);
    assert_eq!(AnchorMode::default(), AnchorMode::Handles);
}

#[test]
fn handles_accept_the_other_kind_on_another_node() {
    let out = key("a", HandleKind::Source, "");
    assert!(out.accepts(&key("b", HandleKind::Target, "")));
    assert!(key("b", HandleKind::Target, "").accepts(&out));
    assert!(!out.accepts(&key("b", HandleKind::Source, "")));
    assert!(!out.accepts(&key("a", HandleKind::Target, "x")));
    assert!(!out.accepts(&out));
    assert!(out == key("a", HandleKind::Source, ""));
    assert!(out != key("a", HandleKind::Source, "x"));
}

#[test]
fn a_connection_points_from_source_to_target_whichever_end_it_started_from() {
    let source = key("a", HandleKind::Source, "out");
    let target = key("b", HandleKind::Target, "");
    let forwards = orient_connection(&source, &target);
    let backwards = orient_connection(&target, &source);
    for c in [forwards, backwards] {
        assert_eq!(c.source, "a");
        assert_eq!(c.target, "b");
        assert_eq!(c.source_handle.as_deref(), Some("out"));
        assert_eq!(c.target_handle, None);
    }
}

#[test]
fn edge_ids() {
    assert_eq!(edge_id("a", "b"), "a->b");
    let plain = Connection {
        source: "1".to_string(),
        target: "2".to_string(),
        source_handle: None,
        target_handle: None,
    };
    assert_eq!(plain.edge_id(), "1->2");
    let handled = Connection {
        source: "1".to_string(),
        target: "2".to_string(),
        source_handle: Some("s".to_string()),
        target_handle: Some("t".to_string()),
    };
    assert_eq!(handled.edge_id(), "1->2#s#t");
    let target_only = Connection {
        source: "1".to_string(),
        target: "2".to_string(),
        source_handle: None,
        target_handle: Some("t".to_string()),
    };
    assert_eq!(target_only.edge_id(), "1->2#t");
}

#[test]
fn connections_and_delete_requests_compare_by_value() {
    let a = Connection {
        source: "a".to_string(),
        target: "b".to_string(),
        source_handle: Some("out".to_string()),
        target_handle: None,
    };
    let mut b = a.clone();
    assert!(a == b);
    b.target_handle = Some("in".to_string());
    assert!(a != b);
    b.target_handle = None;
    b.source_handle = None;
    assert!(a != b);

    let r = DeleteRequest {
        nodes: vec!["x".to_string()],
        edges: vec!["x->y".to_string(), "y->x".to_string()],
    };
    let mut s = r.clone();
    assert!(r == s);
    s.edges.pop();
    assert!(r != s);
    s.edges.push("y->z".to_string());
    assert!(r != s);
}
