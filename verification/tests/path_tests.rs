//! Tests of the breadth-first shortest-path search.

use graphs::analysis::shortest_path_bfs;
use graphs::Edge;
use graphs::Graph;
use graphs::GraphError;
use graphs::GraphErrorKind;

#[test]
fn find_shortest_path_does_not_exist() {
    let mut graph = Graph::new();
    graph.add_edge(Edge::new("a".to_string(), "b".to_string()));
    let shortest_path = shortest_path_bfs(&graph, &"b".to_string(), &"a".to_string());
    assert_eq!(
        shortest_path,
        Err(GraphError::new(
            GraphErrorKind::NotConnected,
            "start 'b' and stop 'a' nodes are not connected"
        ))
    );
}

#[test]
fn find_direct_shortest_path() {
    let mut graph = Graph::new();
    graph.add_edge(Edge::new("a".to_string(), "b".to_string()));
    let shortest_path = shortest_path_bfs(&graph, &"a".to_string(), &"b".to_string()).unwrap();
    assert_eq!(shortest_path.len(), 2);
    assert_eq!(shortest_path, vec!["a".to_string(), "b".to_string()])
}

#[test]
fn find_shortest_path_with_alternative() {
    let mut graph = Graph::new();
    graph.add_edge(Edge::new("a".to_string(), "b".to_string()));
    graph.add_edge(Edge::new("a".to_string(), "c".to_string()));
    graph.add_edge(Edge::new("b".to_string(), "c".to_string()));
    let shortest_path = shortest_path_bfs(&graph, &"a".to_string(), &"c".to_string()).unwrap();
    assert_eq!(shortest_path.len(), 2);
    assert_eq!(shortest_path, vec!["a", "c"])
}

#[test]
fn find_multi_hop_shortest_path() {
    let mut graph = Graph::new();
    graph.add_edge(Edge::new("a".to_string(), "b".to_string()));
    graph.add_edge(Edge::new("b".to_string(), "c".to_string()));
    let shortest_path = shortest_path_bfs(&graph, &"a".to_string(), &"c".to_string()).unwrap();
    assert_eq!(shortest_path.len(), 3);
    assert_eq!(
        shortest_path,
        vec!["a".to_string(), "b".to_string(), "c".to_string()]
    )
}

#[test]
fn chain_with_shortcut_takes_the_shortcut() {
    let mut graph = Graph::new();
    let ids: Vec<String> = ('a'..='z').map(|c| c.to_string()).collect();
    for w in ids.windows(2) {
        graph.add_edge(Edge::new(w[0].clone(), w[1].clone()));
    }
    graph.add_edge(Edge::new("c".to_string(), "z".to_string()));
    let shortest_path = shortest_path_bfs(&graph, &"a".to_string(), &"z".to_string()).unwrap();
    assert_eq!(
        shortest_path,
        vec![
            "a".to_string(),
            "b".to_string(),
            "c".to_string(),
            "z".to_string()
        ]
    );
}

#[test]
fn start_equals_stop_needs_a_cycle() {
    let mut graph = Graph::new();
    graph.add_edge(Edge::new("a".to_string(), "b".to_string()));
    let no_loop = shortest_path_bfs(&graph, &"a".to_string(), &"a".to_string());
    assert_eq!(no_loop.unwrap_err().kind, GraphErrorKind::NotConnected);
    graph.add_edge(Edge::new("a".to_string(), "a".to_string()));
    let with_loop = shortest_path_bfs(&graph, &"a".to_string(), &"a".to_string()).unwrap();
    assert_eq!(with_loop, vec!["a".to_string(), "a".to_string()]);
}

#[test]
fn missing_start_is_node_not_found() {
    let mut graph = Graph::new();
    graph.add_edge(Edge::new("a".to_string(), "b".to_string()));
    let e = shortest_path_bfs(&graph, &"q".to_string(), &"b".to_string()).unwrap_err();
    assert_eq!(e.kind, GraphErrorKind::NodeNotFound);
}
