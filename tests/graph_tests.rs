use apex_core::diagnostics::{validate, ProblemKind};
use apex_core::graph::{Endpoint, ExecutionGraph, GraphEdge, GraphError, GraphNode, NodeType};
use apex_core::{inspect_graph, patch_graph, validate_graph, ApexCore};

fn node(id: &str) -> GraphNode {
    GraphNode {
        id: id.to_string(),
        name: format!("Node {}", id),
        node_type: NodeType::Task,
        dependencies: vec![],
        outputs: vec![],
        metadata: serde_json::Value::Object(serde_json::Map::new()),
    }
}

fn edge(from: &str, to: &str) -> GraphEdge {
    GraphEdge { from: from.to_string(), to: to.to_string(), condition: None }
}

fn graph_with(nodes: &[&str], edges: &[(&str, &str)]) -> ExecutionGraph {
    let mut g = ExecutionGraph::new("g".to_string());
    for n in nodes {
        g.add_node(node(n)).unwrap();
    }
    for (a, b) in edges {
        g.add_edge(edge(a, b)).unwrap();
    }
    g
}

#[test]
fn test_graph_creation() {
    let graph = ExecutionGraph::new("test-graph".to_string());
    assert_eq!(graph.id, "test-graph");
    assert_eq!(graph.nodes.len(), 0);
}

#[test]
fn test_add_node() {
    let mut graph = ExecutionGraph::new("test-graph".to_string());
    let node = GraphNode {
        id: "node-1".to_string(),
        name: "Test Node".to_string(),
        node_type: NodeType::Task,
        dependencies: vec![],
        outputs: vec![],
        metadata: serde_json::Value::Object(serde_json::Map::new()),
    };
    assert!(graph.add_node(node).is_ok());
}

#[test]
fn two_roots_scheduled_in_declaration_order() {
    let g = graph_with(&["A", "B", "C"], &[("A", "C"), ("B", "C")]);
    assert_eq!(g.order().unwrap(), vec!["A", "B", "C"]);
}

#[test]
fn two_node_cycle_is_detected() {
    let g = graph_with(&["A", "B"], &[("A", "B"), ("B", "A")]);
    match g.order() {
        Err(GraphError::CycleDetected(rest)) => assert_eq!(rest, vec!["A", "B"]),
        other => panic!("expected a cycle, got {:?}", other),
    }
}

#[test]
fn edge_between_unknown_nodes_names_the_source() {
    let mut g = ExecutionGraph::new("g".to_string());
    match g.add_edge(edge("X", "Y")) {
        Err(GraphError::UnknownEndpoint { endpoint, id }) => {
            assert_eq!(endpoint, Endpoint::Source);
            assert_eq!(id, "X");
        }
        other => panic!("expected an unknown endpoint, got {:?}", other),
    }
    assert_eq!(g.edges.len(), 0);
}

#[test]
fn edge_to_unknown_destination_leaves_edges_unchanged() {
    let mut g = graph_with(&["A", "B"], &[("A", "B")]);
    match g.add_edge(edge("A", "Z")) {
        Err(GraphError::UnknownEndpoint { endpoint, id }) => {
            assert_eq!(endpoint, Endpoint::Destination);
            assert_eq!(id, "Z");
        }
        other => panic!("expected an unknown endpoint, got {:?}", other),
    }
    assert_eq!(g.edges.len(), 1);
    assert_eq!(g.edges[0].from, "A");
    assert_eq!(g.edges[0].to, "B");
}

#[test]
fn removing_a_node_in_use_is_refused() {
    let mut g = graph_with(&["A", "B"], &[("A", "B")]);
    match g.remove_node(&"A".to_string()) {
        Err(GraphError::NodeInUse(id)) => assert_eq!(id, "A"),
        other => panic!("expected node in use, got {:?}", other),
    }
    assert_eq!(g.nodes.len(), 2);
    match g.remove_node(&"B".to_string()) {
        Err(GraphError::NodeInUse(id)) => assert_eq!(id, "B"),
        other => panic!("expected node in use, got {:?}", other),
    }
    assert_eq!(g.nodes.len(), 2);
}

#[test]
fn removing_a_free_node_and_an_absent_one() {
    let mut g = graph_with(&["A", "B", "C"], &[("A", "B")]);
    let removed = g.remove_node(&"C".to_string()).unwrap();
    assert_eq!(removed.id, "C");
    assert_eq!(g.nodes.len(), 2);
    match g.remove_node(&"C".to_string()) {
        Err(GraphError::NodeNotFound(id)) => assert_eq!(id, "C"),
        other => panic!("expected node not found, got {:?}", other),
    }
}

#[test]
fn removing_edges_by_position() {
    let mut g = graph_with(&["A", "B"], &[("A", "B"), ("B", "A")]);
    assert!(g.order().is_err());
    let e = g.remove_edge(1).unwrap();
    assert_eq!(e.from, "B");
    assert_eq!(g.order().unwrap(), vec!["A", "B"]);
    match g.remove_edge(5) {
        Err(GraphError::EdgeNotFound(i)) => assert_eq!(i, 5),
        other => panic!("expected edge not found, got {:?}", other),
    }
    assert!(g.remove_node(&"A".to_string()).is_err());
    g.remove_edge(0).unwrap();
    assert!(g.remove_node(&"A".to_string()).is_ok());
}

#[test]
fn duplicate_node_is_refused() {
    let mut g = graph_with(&["A"], &[]);
    match g.add_node(node("A")) {
        Err(GraphError::DuplicateId(id)) => assert_eq!(id, "A"),
        other => panic!("expected duplicate id, got {:?}", other),
    }
    assert_eq!(g.nodes.len(), 1);
}

#[test]
fn order_respects_every_edge() {
    let g = graph_with(
        &["E", "D", "C", "B", "A"],
        &[("A", "B"), ("B", "C"), ("A", "D"), ("D", "C"), ("C", "E"), ("A", "E")],
    );
    let order = g.order().unwrap();
    assert_eq!(order.len(), 5);
    let pos = |id: &str| order.iter().position(|x| x == id).unwrap();
    for e in &g.edges {
        assert!(pos(&e.from) < pos(&e.to));
    }
    assert_eq!(order, vec!["A", "B", "D", "C", "E"]);
}

#[test]
fn order_is_repeatable() {
    let g = graph_with(&["P", "Q", "R", "S"], &[("S", "Q"), ("P", "R"), ("S", "R")]);
    let first = g.order().unwrap();
    let second = g.order().unwrap();
    assert_eq!(first, second);
    assert_eq!(first, vec!["P", "S", "Q", "R"]);
}

#[test]
fn cycle_behind_a_chain_lists_the_stuck_nodes() {
    let g = graph_with(&["A", "B", "C", "D"], &[("A", "B"), ("B", "C"), ("C", "B"), ("C", "D")]);
    match g.order() {
        Err(GraphError::CycleDetected(rest)) => assert_eq!(rest, vec!["B", "C", "D"]),
        other => panic!("expected a cycle, got {:?}", other),
    }
}

#[test]
fn self_loop_is_a_cycle() {
    let g = graph_with(&["A"], &[("A", "A")]);
    assert!(matches!(g.order(), Err(GraphError::CycleDetected(_))));
}

#[test]
fn empty_graph_orders_to_nothing() {
    let g = ExecutionGraph::new("empty".to_string());
    assert_eq!(g.order().unwrap(), Vec::<String>::new());
}

#[test]
fn parallel_edges_are_kept() {
    let g = graph_with(&["A", "B"], &[("A", "B"), ("A", "B")]);
    assert_eq!(g.edges.len(), 2);
    assert_eq!(g.order().unwrap(), vec!["A", "B"]);
}

#[test]
fn sorted_order_is_kept_until_the_graph_changes() {
    let mut g = graph_with(&["A", "B"], &[("B", "A")]);
    assert!(g.get_execution_order().is_empty());
    g.topological_sort().unwrap();
    assert_eq!(g.get_execution_order(), vec!["B", "A"]);
    g.add_node(node("C")).unwrap();
    assert!(g.get_execution_order().is_empty());
    g.topological_sort().unwrap();
    assert_eq!(g.get_execution_order(), vec!["B", "C", "A"]);
    g.add_edge(edge("A", "B")).unwrap();
    assert!(g.get_execution_order().is_empty());
    assert!(g.topological_sort().is_err());
    assert!(g.get_execution_order().is_empty());
}

#[test]
fn validation_reports_every_dangling_endpoint() {
    let mut g = graph_with(&["A"], &[]);
    g.edges.push(edge("A", "X"));
    g.edges.push(edge("Y", "A"));
    let v = validate(&g);
    assert!(!v.ok());
    assert_eq!(v.problems.len(), 2);
    assert_eq!(v.problems[0].kind, ProblemKind::DanglingDestination);
    assert_eq!(v.problems[0].index, 0);
    assert_eq!(v.problems[0].id, "X");
    assert_eq!(v.problems[1].kind, ProblemKind::DanglingSource);
    assert_eq!(v.problems[1].index, 1);
    assert_eq!(v.problems[1].id, "Y");
}

#[test]
fn validation_of_a_fully_dangling_edge_reports_both_ends() {
    let mut g = ExecutionGraph::new("g".to_string());
    g.edges.push(edge("X", "Y"));
    let v = g.validate();
    assert_eq!(v.problems.len(), 2);
    assert_eq!(v.problems[0].kind, ProblemKind::DanglingSource);
    assert_eq!(v.problems[1].kind, ProblemKind::DanglingDestination);
}

#[test]
fn validation_of_a_sound_graph_is_ok() {
    let g = graph_with(&["A", "B"], &[("A", "B"), ("B", "A")]);
    assert!(g.validate().ok());
}

#[test]
fn core_patches_then_validates() {
    let mut core = ApexCore::new(42);
    assert_eq!(core.deterministic_seed(), 42);
    assert!(validate_graph(&core).ok());
    let v = patch_graph(&mut core, |g| {
        g.add_node(node("A")).unwrap();
        g.edges.push(edge("A", "B"));
    });
    assert_eq!(v.problems.len(), 1);
    assert_eq!(v.problems[0].kind, ProblemKind::DanglingDestination);
    let copy = inspect_graph(&core);
    assert_eq!(copy.nodes.len(), 1);
    assert_eq!(copy.nodes[0].id, "A");
    assert_eq!(copy.edges.len(), 1);
    assert_eq!(copy.edges[0].to, "B");
}

#[test]
fn node_copy_keeps_its_fields() {
    let mut n = node("A");
    n.dependencies = vec!["x".to_string()];
    n.node_type = NodeType::Decision;
    let c = n.duplicate();
    assert_eq!(c.id, "A");
    assert_eq!(c.dependencies, vec!["x"]);
    assert_eq!(c.node_type, NodeType::Decision);
    assert_eq!(c.metadata, n.metadata);
}

#[test]
fn validation_reports_repeated_node_ids_after_edges() {
    let mut g = graph_with(&["A", "B"], &[]);
    g.nodes.push(node("A"));
    g.edges.push(edge("A", "Q"));
    let v = g.validate();
    assert_eq!(v.problems.len(), 2);
    assert_eq!(v.problems[0].kind, ProblemKind::DanglingDestination);
    assert_eq!(v.problems[1].kind, ProblemKind::DuplicateNodeId);
    assert_eq!(v.problems[1].index, 2);
    assert_eq!(v.problems[1].id, "A");
}

#[test]
fn empty_node_id_is_refused() {
    let mut g = ExecutionGraph::new("g".to_string());
    assert!(matches!(g.add_node(node("")), Err(GraphError::EmptyId)));
    assert_eq!(g.nodes.len(), 0);
}

#[test]
fn copy_of_the_graph_is_exact_and_independent() {
    let mut core = ApexCore::new(1);
    patch_graph(&mut core, |g| {
        let mut n = node("A");
        n.outputs = vec!["out".to_string()];
        n.metadata = serde_json::Value::Bool(true);
        g.add_node(n).unwrap();
        g.add_node(node("B")).unwrap();
        g.add_edge(edge("A", "B")).unwrap();
    });
    let copy = inspect_graph(&core);
    patch_graph(&mut core, |g| {
        g.remove_edge(0).unwrap();
    });
    assert_eq!(copy.edges.len(), 1);
    assert_eq!(copy.nodes[0].outputs, vec!["out"]);
    assert_eq!(copy.nodes[0].metadata, serde_json::Value::Bool(true));
    assert_eq!(core.graph.edges.len(), 0);
}

#[test]
fn blocked_removal_inside_a_patch_changes_nothing() {
    let mut core = ApexCore::new(0);
    patch_graph(&mut core, |g| {
        g.add_node(node("A")).unwrap();
        g.add_node(node("B")).unwrap();
        g.add_edge(edge("A", "B")).unwrap();
    });
    let mut result = None;
    let v = patch_graph(&mut core, |g| {
        result = Some(g.remove_node(&"A".to_string()));
    });
    assert!(matches!(result, Some(Err(GraphError::NodeInUse(_)))));
    assert!(v.ok());
    assert_eq!(inspect_graph(&core).nodes.len(), 2);
}
