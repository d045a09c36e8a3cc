//! Tests of the entity model and the in-memory graph engine.

use graphs::Edge;
use graphs::Graph;
use graphs::GraphErrorKind;
use graphs::Node;

#[test]
fn create_node() {
    let new_node = Node::new(String::from("abc"));
    assert_eq!(new_node.id, "abc");
}

#[test]
fn create_edge() {
    let new_edge = Edge::new("a".to_string(), "b".to_string());
    assert_eq!(new_edge.u, "a");
    assert_eq!(new_edge.v, "b");
}

#[test]
fn graph_create_empty_graph() {
    let graph = Graph::new();
    assert_eq!(graph.node_count(), 0);
}

#[test]
fn graph_add_node() {
    let mut graph = Graph::new();
    let node = Node::new(String::from("a"));
    graph.add_node(node);
    assert_eq!(graph.get_node(&"a".to_string()).unwrap().id, "a");
}

#[test]
fn add_edges() {
    let mut graph = Graph::new();
    let edge = Edge::new("a".to_string(), "b".to_string());
    graph.add_edge(edge);
    let records = graph
        .get_edges(&"a".to_string(), &"b".to_string())
        .unwrap();
    assert_eq!(records[0].u, "a");
    assert_eq!(graph.get_node(&"a".to_string()).unwrap().id, "a");
    assert_eq!(graph.get_node(&"b".to_string()).unwrap().id, "b");
}

#[test]
fn get_empty_successors() {
    let mut graph = Graph::new();
    graph.add_node(Node::new("a".to_string()));
    assert_eq!(graph.get_successors(&"a".to_string()).unwrap().len(), 0);
}

#[test]
fn get_single_successor() {
    let mut graph = Graph::new();
    graph.add_edge(Edge::new("a".to_string(), "b".to_string()));
    let successors = graph.get_successors(&"a".to_string()).unwrap();
    assert_eq!(successors.len(), 1);
    assert_eq!(successors.contains(&"b".to_string()), true);
}

#[test]
fn get_predecessors() {
    let mut graph = Graph::new();
    graph.add_edge(Edge::new("a".to_string(), "b".to_string()));
    graph.add_edge(Edge::new("c".to_string(), "b".to_string()));
    let predecessors = graph.get_predecessors(&"b".to_string()).unwrap();
    assert_eq!(predecessors.len(), 2);
    assert_eq!(predecessors.contains(&"a".to_string()), true);
    assert_eq!(predecessors.contains(&"c".to_string()), true);
}

#[test]
fn adjacency_recorded_on_both_endpoints() {
    let mut graph = Graph::new();
    graph.add_edge(Edge::new("u".to_string(), "v".to_string()));
    let successors = graph.get_successors(&"u".to_string()).unwrap();
    assert!(successors.contains(&"v".to_string()));
    let predecessors = graph.get_predecessors(&"v".to_string()).unwrap();
    assert!(predecessors.contains(&"u".to_string()));
    assert!(graph.get_node(&"u".to_string()).is_some());
    assert!(graph.get_node(&"v".to_string()).is_some());
}

#[test]
fn parallel_edges_keep_two_records_one_successor() {
    let mut graph = Graph::new();
    let e1 = Edge::new("a".to_string(), "b".to_string());
    let e2 = Edge::new("a".to_string(), "b".to_string());
    let id1 = e1.id;
    let id2 = e2.id;
    graph.add_edge(e1);
    graph.add_edge(e2);
    let records = graph
        .get_edges(&"a".to_string(), &"b".to_string())
        .unwrap();
    assert_eq!(records.len(), 2);
    assert_eq!(records[0].id, id1);
    assert_eq!(records[1].id, id2);
    assert_ne!(id1, id2);
    let successors = graph.get_successors(&"a".to_string()).unwrap();
    assert_eq!(successors.len(), 1);
    assert_eq!(successors[0], "b");
}

#[test]
fn unknown_node_queries_fail() {
    let mut graph = Graph::new();
    graph.add_edge(Edge::new("a".to_string(), "b".to_string()));
    let e = graph.get_successors(&"zzz".to_string()).unwrap_err();
    assert_eq!(e.kind, GraphErrorKind::NodeNotFound);
    let e = graph.get_predecessors(&"zzz".to_string()).unwrap_err();
    assert_eq!(e.kind, GraphErrorKind::NodeNotFound);
}

#[test]
fn add_node_replaces_outright() {
    let mut graph = Graph::new();
    graph.add_edge(Edge::new("a".to_string(), "b".to_string()));
    graph.add_node(Node::new("a".to_string()));
    assert_eq!(graph.get_successors(&"a".to_string()).unwrap().len(), 0);
}

#[test]
fn error_message_is_kept() {
    let e = graphs::GraphError::new(GraphErrorKind::NodeNotFound, "Node not found");
    assert_eq!(e.message().as_str(), "Node not found");
    assert_eq!(e.details, "Node not found");
}
