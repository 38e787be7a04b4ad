//! Standalone vertex and edge records.

use geomcore::{Edge, Vertex};

#[test]
fn test_vertex_new_defaults() {
    let v = Vertex::new(Some("v1".to_string()), Some("data".to_string()));
    assert_eq!(v.name, "v1");
    assert_eq!(v.attribute, "data");
    assert_eq!(v.index, -1);
    assert_eq!(v.guid.len(), 36);

    let empty = Vertex::new(None, None);
    assert_eq!(empty.name, "");
    assert_eq!(empty.attribute, "");
}

#[test]
fn test_edge_vertices_and_connects() {
    let e = Edge::new(
        Some("e1".to_string()),
        Some("a".to_string()),
        Some("b".to_string()),
        Some("attr".to_string()),
    );
    assert_eq!(e.vertices(), ("a".to_string(), "b".to_string()));
    assert!(e.connects("a"));
    assert!(e.connects("b"));
    assert!(!e.connects("c"));
}

#[test]
fn test_edge_other_vertex() {
    let e = Edge::new(
        None,
        Some("a".to_string()),
        Some("b".to_string()),
        None,
    );
    assert_eq!(e.other_vertex("a"), "b");
    assert_eq!(e.other_vertex("b"), "a");
    assert_eq!(e.other_vertex("zzz"), "a");
}
