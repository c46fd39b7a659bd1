use petgraph::graph::{EdgeIndex, NodeIndex};
use rsim::dependency_graph::{ComponentEvents, DependencyGraph};
use rsim::types::ComponentId;

fn mock(id: &str, subscriptions: &[&str], emitted_events: &[&str]) -> ComponentEvents {
    ComponentEvents {
        id: ComponentId::new(id.to_string(), "MockComponent".to_string()),
        subscriptions: subscriptions.iter().map(|s| s.to_string()).collect(),
        emitted_events: emitted_events.iter().map(|s| s.to_string()).collect(),
    }
}

#[test]
fn test_dependency_graph_construction() {
    let component_a = mock("A", &["event1", "event2"], &["event3", "event4"]);
    let component_b = mock("B", &["event3"], &["event5"]);
    let component_c = mock("C", &["event4", "event5"], &["event1"]);
    let a_id = component_a.id.clone();
    let b_id = component_b.id.clone();
    let c_id = component_c.id.clone();
    let components = vec![component_a, component_b, component_c];

    let graph = DependencyGraph::build(&components);
    let petgraph = graph.graph();
    assert_eq!(petgraph.node_count(), 3);
    assert_eq!(petgraph.edge_count(), 4);

    let a_node = NodeIndex::new(graph.get_node(&a_id).unwrap());
    let b_node = NodeIndex::new(graph.get_node(&b_id).unwrap());
    let c_node = NodeIndex::new(graph.get_node(&c_id).unwrap());
    assert!(petgraph.contains_edge(a_node, b_node));
    assert!(petgraph.contains_edge(a_node, c_node));
    assert!(petgraph.contains_edge(b_node, c_node));
    assert!(petgraph.contains_edge(c_node, a_node));
}

#[test]
fn test_dependency_graph_nodes_in_order() {
    let components = vec![mock("A", &[], &["x"]), mock("B", &["x"], &[])];
    let graph = DependencyGraph::build(&components);
    assert_eq!(graph.get_node(&components[0].id), Some(0));
    assert_eq!(graph.get_node(&components[1].id), Some(1));
    assert_eq!(graph.get_component(1).map(|c| c.id()), Some("B"));
    assert_eq!(graph.get_component(2), None);
    let missing = ComponentId::new("Z".to_string(), "MockComponent".to_string());
    assert_eq!(graph.get_node(&missing), None);
}

#[test]
fn test_dependency_graph_no_self_loops() {
    let components = vec![mock("A", &["x"], &["x"])];
    let graph = DependencyGraph::build(&components);
    assert_eq!(graph.graph().edge_count(), 0);
}

#[test]
fn test_dependency_graph_one_edge_per_subscription() {
    let components = vec![mock("A", &[], &["x", "y"]), mock("B", &["x", "y", "x"], &[])];
    let graph = DependencyGraph::build(&components);
    assert_eq!(graph.graph().edge_count(), 3);
}

#[test]
fn test_update_edge_weight() {
    let components = vec![mock("A", &[], &["x"]), mock("B", &["x"], &[])];
    let mut graph = DependencyGraph::build(&components);
    let a = components[0].id.clone();
    let b = components[1].id.clone();
    assert_eq!(graph.graph()[EdgeIndex::new(0)], 0);
    assert!(graph.update_edge_weight(&a, &b, 42));
    assert_eq!(graph.graph()[EdgeIndex::new(0)], 42);
    assert!(!graph.update_edge_weight(&b, &a, 7));
    let missing = ComponentId::new("Z".to_string(), "MockComponent".to_string());
    assert!(!graph.update_edge_weight(&a, &missing, 7));
    assert_eq!(graph.graph()[EdgeIndex::new(0)], 42);
}

#[test]
fn test_empty_dependency_graph() {
    let graph = DependencyGraph::new();
    assert_eq!(graph.graph().node_count(), 0);
    assert_eq!(graph.graph().edge_count(), 0);
}
