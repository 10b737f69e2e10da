use apex_core::optimize::OptimizationStrategy;
use apex_core::engine::{ApeXEngine, ExecutionStatus, TaskStatus};
use apex_core::server::{TaskRequest, TaskResponse};

#[test]
fn test_engine_creation() {
    let engine = ApeXEngine::new("test-engine".to_string());
    assert_eq!(engine.id, "test-engine");
    assert_eq!(engine.capabilities.len(), 4);
}

#[test]
fn test_task_execution() {
    let mut engine = ApeXEngine::new("test-engine".to_string());
    engine.begin_task("task-1".to_string(), "Test task".to_string(), "2025-10-29T12:00:00+00:00".to_string());
    let result = engine.finish_task(&"task-1".to_string());
    assert_eq!(result, "Task task-1 completed successfully");
    let state = engine.get_state();
    assert_eq!(state.tasks.len(), 1);
    assert_eq!(state.tasks[0].status, TaskStatus::Completed);
    assert!(!state.tasks[0].created_at.is_empty());
}

#[test]
fn begin_and_finish_update_the_ledger() {
    let mut engine = ApeXEngine::new("e".to_string());
    assert_eq!(engine.version, "0.1.0-alpha");
    engine.begin_task("t1".to_string(), "first".to_string(), "2024-01-01T00:00:00+00:00".to_string());
    assert_eq!(engine.state.status, ExecutionStatus::Running);
    assert_eq!(engine.state.metrics.total_tasks, 1);
    assert_eq!(engine.state.tasks[0].status, TaskStatus::Running);
    assert_eq!(engine.state.tasks[0].priority, 1);
    engine.begin_task("t1".to_string(), "again".to_string(), "2024-01-02T00:00:00+00:00".to_string());
    assert_eq!(engine.state.tasks.len(), 1);
    assert_eq!(engine.state.tasks[0].description, "again");
    assert_eq!(engine.state.metrics.total_tasks, 2);
    let msg = engine.finish_task(&"t1".to_string());
    assert_eq!(msg, "Task t1 completed successfully");
    assert_eq!(engine.state.status, ExecutionStatus::Idle);
    assert_eq!(engine.state.metrics.completed_tasks, 1);
    assert_eq!(engine.state.tasks[0].status, TaskStatus::Completed);
}

#[test]
fn finishing_an_unknown_task_still_counts() {
    let mut engine = ApeXEngine::new("e".to_string());
    engine.begin_task("t1".to_string(), "d".to_string(), "now".to_string());
    engine.finish_task(&"other".to_string());
    assert_eq!(engine.state.tasks[0].status, TaskStatus::Running);
    assert_eq!(engine.state.metrics.completed_tasks, 1);
}

#[test]
fn reset_clears_tasks_and_keeps_counters() {
    let mut engine = ApeXEngine::new("e".to_string());
    engine.begin_task("t1".to_string(), "d".to_string(), "now".to_string());
    engine.reset();
    let state = engine.get_state();
    assert_eq!(state.status, ExecutionStatus::Idle);
    assert!(state.tasks.is_empty());
    assert_eq!(state.metrics.total_tasks, 1);
}

#[test]
fn task_responses() {
    let req = TaskRequest { id: "t9".to_string(), description: "d".to_string(), priority: 3 };
    let r = TaskResponse::created(&req);
    assert_eq!(r.id, "t9");
    assert_eq!(r.status, "created");
    assert!(r.result.is_none());
    let p = TaskResponse::pending("t9".to_string());
    assert_eq!(p.status, "pending");
}

#[test]
fn only_scgo_and_gradient_descent_are_implemented() {
    assert!(OptimizationStrategy::SCGO.is_implemented());
    assert!(OptimizationStrategy::GradientDescent.is_implemented());
    assert!(!OptimizationStrategy::EvolutionaryAlgorithm.is_implemented());
    assert!(!OptimizationStrategy::ParticleSwarm.is_implemented());
}
