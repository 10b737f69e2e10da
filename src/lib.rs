//! A small DAG-based task orchestrator: typed nodes joined by conditional
//! edges, structural validation, and a deterministic execution order.

use vstd::prelude::*;

pub mod diagnostics;
pub mod engine;
pub mod graph;
pub mod optimize;
pub mod orchestrator;
pub mod persist;
pub mod schedule;
pub mod server;

use crate::diagnostics::{all_problems, problems_view, Validation};
use crate::graph::ExecutionGraph;

verus! {

/// One graph with the seed that makes runs over it reproducible. The core
/// owns its graph outright, so a patch and the validation after it see one
/// consistent graph.
pub struct ApexCore {
    pub graph: ExecutionGraph,
    pub seed: u64,
}

impl ApexCore {
    /// A core with an empty graph.
    pub fn new(seed: u64) -> (r: Self)
        ensures
            r.seed == seed,
            r.graph.nodes@.len() == 0,
            r.graph.edges@.len() == 0,
            r.graph.execution_order@.len() == 0,
            r.graph.wf(),
            r.graph.ids_nonempty(),
    {
        ApexCore { graph: ExecutionGraph::new(String::new()), seed }
    }

    pub fn deterministic_seed(&self) -> (r: u64)
        ensures
            r == self.seed,
    {
        self.seed
    }
}

/// Validates the core's graph.
pub fn validate_graph(core: &ApexCore) -> (v: Validation)
    ensures
        problems_view(v.problems@) == all_problems(core.graph),
{
    crate::diagnostics::validate(&core.graph)
}

/// Applies `patcher` to the core's graph, then validates the result: the
/// core keeps exactly the graph the patcher left.
pub fn patch_graph<F: FnOnce(&mut ExecutionGraph)>(core: &mut ApexCore, patcher: F) -> (v: Validation)
    requires
        forall|g: &mut ExecutionGraph| patcher.requires((g,)),
    ensures
        exists|g: &mut ExecutionGraph|
            *g == old(core).graph && *final(g) == final(core).graph && patcher.ensures((g,), ()),
        final(core).seed == old(core).seed,
        problems_view(v.problems@) == all_problems(final(core).graph),
{
    patcher(&mut core.graph);
    crate::diagnostics::validate(&core.graph)
}

/// A copy of the core's graph: the same id, the same nodes field by field in
/// the same order, the same edges and the same stored order.
pub fn inspect_graph(core: &ApexCore) -> (r: ExecutionGraph)
    ensures
        r.same_as(core.graph),
        r.node_ids() == core.graph.node_ids(),
{
    core.graph.snapshot()
}

} // verus!
