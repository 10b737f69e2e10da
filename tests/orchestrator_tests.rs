use apex_core::graph::{ExecutionGraph, GraphEdge, GraphNode, NodeType};
use apex_core::orchestrator::{NodeOutcome, Run, RunError, RunStatus};

fn node(id: &str, kind: NodeType) -> GraphNode {
    GraphNode {
        id: id.to_string(),
        name: id.to_string(),
        node_type: kind,
        dependencies: vec![],
        outputs: vec![],
        metadata: serde_json::Value::String(format!("meta-{}", id)),
    }
}

fn edge(from: &str, to: &str) -> GraphEdge {
    GraphEdge { from: from.to_string(), to: to.to_string(), condition: Some("yes".to_string()) }
}

fn diamond() -> ExecutionGraph {
    let mut g = ExecutionGraph::new("d".to_string());
    g.add_node(node("start", NodeType::Task)).unwrap();
    g.add_node(node("check", NodeType::Decision)).unwrap();
    g.add_node(node("merge", NodeType::Aggregator)).unwrap();
    g.add_edge(edge("start", "check")).unwrap();
    g.add_edge(edge("check", "merge")).unwrap();
    g.add_edge(edge("start", "merge")).unwrap();
    g
}

#[test]
fn run_dispatches_in_order_and_completes() {
    let g = diamond();
    let mut run = Run::start(&g).ok().unwrap();
    let mut seen = vec![];
    loop {
        let d = match run.next_step(false) {
            Some(d) => (d.node_id.clone(), d.kind, d.metadata.clone()),
            None => break,
        };
        seen.push(d.clone());
        run.record(NodeOutcome::Success(Some(serde_json::Value::Bool(true))));
    }
    assert_eq!(run.status, RunStatus::Completed);
    let ids: Vec<String> = seen.iter().map(|d| d.0.clone()).collect();
    assert_eq!(ids, vec!["start", "check", "merge"]);
    assert_eq!(seen[1].1, NodeType::Decision);
    assert_eq!(seen[2].2, serde_json::Value::String("meta-merge".to_string()));
    assert_eq!(run.results.len(), 3);
}

#[test]
fn run_stops_at_the_first_failure() {
    let g = diamond();
    let mut run = Run::start(&g).ok().unwrap();
    assert!(run.next_step(false).is_some());
    run.record(NodeOutcome::Success(None));
    assert!(run.next_step(false).is_some());
    run.record(NodeOutcome::Failure("boom".to_string()));
    assert_eq!(
        run.status,
        RunStatus::Failed { node_id: "check".to_string(), reason: "boom".to_string() }
    );
    assert!(run.next_step(false).is_none());
    assert_eq!(run.results.len(), 1);
    assert_eq!(run.results[0].node_id, "start");
}

#[test]
fn run_can_be_cancelled_between_nodes() {
    let g = diamond();
    let mut run = Run::start(&g).ok().unwrap();
    assert!(run.next_step(false).is_some());
    run.record(NodeOutcome::Success(None));
    assert!(run.next_step(true).is_none());
    assert_eq!(run.status, RunStatus::Cancelled);
    assert!(run.next_step(false).is_none());
    assert_eq!(run.status, RunStatus::Cancelled);
}

#[test]
fn run_refuses_an_invalid_graph_listing_every_problem() {
    let mut g = diamond();
    g.edges.push(edge("ghost", "start"));
    g.edges.push(edge("merge", "phantom"));
    match Run::start(&g) {
        Err(RunError::ValidationFailed(p)) => assert_eq!(p.len(), 2),
        _ => panic!("expected validation failure"),
    }
}

#[test]
fn run_refuses_a_cyclic_graph() {
    let mut g = diamond();
    g.add_edge(edge("merge", "start")).unwrap();
    match Run::start(&g) {
        Err(RunError::CycleDetected(rest)) => assert_eq!(rest, vec!["start", "check", "merge"]),
        _ => panic!("expected a cycle"),
    }
}

#[test]
fn run_of_an_empty_graph_completes_at_once() {
    let g = ExecutionGraph::new("e".to_string());
    let mut run = Run::start(&g).ok().unwrap();
    assert!(run.next_step(false).is_none());
    assert_eq!(run.status, RunStatus::Completed);
}

#[test]
fn run_refuses_repeated_node_ids() {
    let mut g = diamond();
    g.nodes.push(node("check", NodeType::Loop));
    match Run::start(&g) {
        Err(RunError::ValidationFailed(p)) => {
            assert_eq!(p.len(), 1);
            assert_eq!(p[0].index, 3);
        }
        _ => panic!("expected validation failure"),
    }
}
