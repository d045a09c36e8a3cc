//! Tests of the persistent store's decision logic.

use graphs::store::edge_key;
use graphs::store::node_key;
use graphs::store::plan_update;
use graphs::store::read_node;
use graphs::store::with_predecessor;
use graphs::store::with_successor;
use graphs::store::ReadOutcome;
use graphs::GraphErrorKind;
use graphs::Node;

#[test]
fn record_keys_are_prefixed() {
    assert_eq!(node_key("a"), "node_a");
    assert_eq!(edge_key("a", "b"), "edge_a_b");
}

#[test]
fn read_treats_corrupt_as_absent() {
    assert!(read_node(ReadOutcome::Missing).is_none());
    assert!(read_node(ReadOutcome::Corrupt).is_none());
    let n = read_node(ReadOutcome::Present(Node::new("a".to_string()))).unwrap();
    assert_eq!(n.id, "a");
}

#[test]
fn update_of_missing_record_is_node_not_found() {
    let r = plan_update(ReadOutcome::Missing, |n: Node| n);
    assert_eq!(r.unwrap_err().kind, GraphErrorKind::NodeNotFound);
}

#[test]
fn update_of_corrupt_record_is_deserialization_failure() {
    let r = plan_update(ReadOutcome::Corrupt, |n: Node| n);
    assert_eq!(r.unwrap_err().kind, GraphErrorKind::DeserializationFailure);
}

#[test]
fn update_applies_the_transform() {
    let node = Node::new("test".to_string());
    let r = plan_update(ReadOutcome::Present(node), |n: Node| {
        with_successor(n, &"other".to_string())
    })
    .unwrap();
    assert_eq!(r.id, "test");
    assert_eq!(r.successors, vec!["other".to_string()]);
}

#[test]
fn sequential_updates_lose_neither_write() {
    let node = Node::new("n".to_string());
    let after_first = plan_update(ReadOutcome::Present(node), |n: Node| {
        with_successor(n, &"x".to_string())
    })
    .unwrap();
    let after_second = plan_update(ReadOutcome::Present(after_first), |n: Node| {
        with_successor(n, &"y".to_string())
    })
    .unwrap();
    assert!(after_second.successors.contains(&"x".to_string()));
    assert!(after_second.successors.contains(&"y".to_string()));
    assert_eq!(after_second.successors.len(), 2);
}

#[test]
fn endpoint_transforms_are_symmetric() {
    let u = with_successor(Node::new("u".to_string()), &"v".to_string());
    assert_eq!(u.successors, vec!["v".to_string()]);
    assert!(u.has_successor(&"v".to_string()));
    assert!(!u.has_predecessor(&"v".to_string()));
    assert_eq!(u.predecessors.len(), 0);
    let v = with_predecessor(Node::new("v".to_string()), &"u".to_string());
    assert_eq!(v.predecessors, vec!["u".to_string()]);
    assert_eq!(v.successors.len(), 0);
    let twice = with_successor(u, &"v".to_string());
    assert_eq!(twice.successors.len(), 1);
}
