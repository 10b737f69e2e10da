//! Driving a graph to completion: validate, order, then hand nodes to an
//! executor one at a time, stopping on the first failure or on cancellation.
//! The executor itself is the caller's: this module decides what to dispatch
//! next and records what came back.

use vstd::prelude::*;
use crate::diagnostics::{all_problems, problems_view, validate, Problem};
use crate::graph::{strings_view, ExecutionGraph, GraphError, NodeType};

verus! {

/// What the executor reported for one node.
pub enum NodeOutcome {
    Success(Option<serde_json::Value>),
    Failure(String),
}

/// A completed node and its payload.
pub struct NodeResult {
    pub node_id: String,
    pub payload: Option<serde_json::Value>,
}

/// Why a run did not start.
pub enum RunError {
    /// The graph has structural problems; all of them are listed.
    ValidationFailed(Vec<Problem>),
    /// No execution order exists; carries the nodes that never became ready.
    CycleDetected(Vec<String>),
}

/// Where a run stands.
#[derive(Clone, Debug, PartialEq, Eq)]
pub enum RunStatus {
    InProgress,
    Completed,
    Failed { node_id: String, reason: String },
    Cancelled,
}

/// A node as the executor receives it.
pub struct Dispatch {
    pub node_id: String,
    pub kind: NodeType,
    pub metadata: serde_json::Value,
}

/// A run over a fixed execution order.
pub struct Run {
    pub plan: Vec<Dispatch>,
    pub results: Vec<NodeResult>,
    pub status: RunStatus,
}

impl Run {
    /// The ids of the planned nodes, in order.
    pub open spec fn plan_ids(&self) -> Seq<Seq<char>> {
        self.plan@.map_values(|d: Dispatch| d.node_id@)
    }

    /// Results only come from planned nodes, in plan order, and a run that is
    /// in progress still has nodes to dispatch or is about to complete.
    pub open spec fn wf(&self) -> bool {
        &&& self.results@.len() <= self.plan@.len()
        &&& forall|i: int| 0 <= i < self.results@.len() ==> #[trigger] self.results@[i].node_id@ == self.plan@[i].node_id@
    }

    /// Starts a run: fails with every validation problem when the graph has
    /// any (dangling endpoints, repeated ids), with the stuck nodes when it has a cycle, and otherwise plans the
    /// nodes in execution order.
    pub fn start(graph: &ExecutionGraph) -> (r: Result<Run, RunError>)
        ensures
            all_problems(*graph).len() > 0 ==> (r matches Err(RunError::ValidationFailed(p))
                && problems_view(p@) == all_problems(*graph)),
            all_problems(*graph).len() == 0 && graph.has_cycle() ==> (r matches Err(
                RunError::CycleDetected(rest),
            ) && strings_view(rest@) == graph.never_ready()),
            all_problems(*graph).len() == 0 && !graph.has_cycle() ==> (r matches Ok(run)
                && run.plan_ids() == graph.planned_order() && run.results@.len() == 0
                && run.status == RunStatus::InProgress && run.wf()),
    {
        let v = validate(graph);
        if !v.ok() {
            return Err(RunError::ValidationFailed(v.problems));
        }
        match graph.order() {
            Err(GraphError::CycleDetected(rest)) => Err(RunError::CycleDetected(rest)),
            Err(_) => Err(RunError::CycleDetected(Vec::new())),
            Ok(order) => {
                proof {
                    // an execution order lists nodes only, so each lookup below succeeds
                    let s = strings_view(order@);
                    assert forall|j: int| 0 <= j < order@.len() implies graph.has_node(#[trigger] order@[j]@) by {
                        assert(s[j] == order@[j]@);
                        assert(s.contains(order@[j]@));
                    }
                }
                let mut plan: Vec<Dispatch> = Vec::new();
                let mut i: usize = 0;
                while i < order.len()
                    invariant
                        i <= order@.len(),
                        plan@.len() == i,
                        forall|j: int| 0 <= j < i ==> (#[trigger] plan@[j]).node_id@ == order@[j]@,
                        forall|j: int| 0 <= j < order@.len() ==> graph.has_node(#[trigger] order@[j]@),
                    decreases order@.len() - i,
                {
                    match graph.find_node(&order[i]) {
                        Some(k) => {
                            let node = &graph.nodes[k];
                            plan.push(
                                Dispatch {
                                    node_id: order[i].clone(),
                                    kind: node.node_type,
                                    metadata: node.metadata.clone(),
                                },
                            );
                        },
                        None => {
                            proof {
                                assert(graph.has_node(order@[i as int]@));
                            }
                            return Err(RunError::CycleDetected(Vec::new()));
                        },
                    }
                    i = i + 1;
                }
                let run = Run { plan, results: Vec::new(), status: RunStatus::InProgress };
                proof {
                    assert(run.plan_ids() =~= strings_view(order@));
                }
                Ok(run)
            },
        }
    }

    /// The next node to hand to the executor, if any. A cancellation request
    /// ends a run that is in progress as cancelled; a run whose plan is done
    /// ends as completed. Returns `None` once the run has ended.
    pub fn next_step(&mut self, cancel_requested: bool) -> (r: Option<&Dispatch>)
        requires
            old(self).wf(),
        ensures
            final(self).wf(),
            final(self).plan@ == old(self).plan@,
            final(self).results@ == old(self).results@,
            old(self).status != RunStatus::InProgress ==> r is None && final(self).status == old(self).status,
            old(self).status == RunStatus::InProgress && cancel_requested ==> r is None
                && final(self).status == RunStatus::Cancelled,
            old(self).status == RunStatus::InProgress && !cancel_requested && old(self).results@.len()
                == old(self).plan@.len() ==> r is None && final(self).status == RunStatus::Completed,
            old(self).status == RunStatus::InProgress && !cancel_requested && old(self).results@.len()
                < old(self).plan@.len() ==> r == Some(&old(self).plan@[old(self).results@.len() as int])
                && final(self).status == RunStatus::InProgress,
    {
        match self.status {
            RunStatus::InProgress => {},
            _ => {
                return None;
            },
        }
        if cancel_requested {
            self.status = RunStatus::Cancelled;
            return None;
        }
        if self.results.len() == self.plan.len() {
            self.status = RunStatus::Completed;
            return None;
        }
        Some(&self.plan[self.results.len()])
    }

    /// Records the executor's outcome for the node last dispatched: a success
    /// adds its result; a failure ends the run as failed at that node, keeping
    /// the results so far.
    pub fn record(&mut self, outcome: NodeOutcome)
        requires
            old(self).wf(),
            old(self).status == RunStatus::InProgress,
            old(self).results@.len() < old(self).plan@.len(),
        ensures
            final(self).wf(),
            final(self).plan@ == old(self).plan@,
            ({
                let node = old(self).plan@[old(self).results@.len() as int].node_id;
                match outcome {
                    NodeOutcome::Success(payload) => final(self).results@ == old(self).results@.push(
                        NodeResult { node_id: node, payload },
                    ) && final(self).status == RunStatus::InProgress,
                    NodeOutcome::Failure(reason) => final(self).results@ == old(self).results@
                        && final(self).status == (RunStatus::Failed { node_id: node, reason }),
                }
            }),
    {
        let node_id = self.plan[self.results.len()].node_id.clone();
        match outcome {
            NodeOutcome::Success(payload) => {
                self.results.push(NodeResult { node_id, payload });
            },
            NodeOutcome::Failure(reason) => {
                self.status = RunStatus::Failed { node_id, reason };
            },
        }
    }
}

} // verus!
