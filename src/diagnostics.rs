//! Structural validation of a graph: every problem found is reported.

use vstd::prelude::*;
use crate::graph::ExecutionGraph;

verus! {

/// What is wrong.
#[derive(Clone, Copy, Debug, PartialEq, Eq, Structural)]
pub enum ProblemKind {
    DanglingSource,
    DanglingDestination,
    DuplicateNodeId,
    Cycle,
}

/// One problem: its kind, the position of the offending edge (or node, for
/// a duplicate id), and the id at fault.
#[derive(Clone, Debug)]
pub struct Problem {
    pub kind: ProblemKind,
    pub index: usize,
    pub id: String,
}

impl View for Problem {
    type V = (ProblemKind, int, Seq<char>);

    open spec fn view(&self) -> (ProblemKind, int, Seq<char>) {
        (self.kind, self.index as int, self.id@)
    }
}

/// The outcome of a validation: the problems found, in order.
#[derive(Clone, Debug)]
pub struct Validation {
    pub problems: Vec<Problem>,
}

/// The views of a sequence of problems.
pub open spec fn problems_view(p: Seq<Problem>) -> Seq<(ProblemKind, int, Seq<char>)> {
    p.map_values(|x: Problem| x@)
}

/// The problems of edge `k`: a missing source, then a missing destination.
pub open spec fn edge_problems(g: ExecutionGraph, k: int) -> Seq<(ProblemKind, int, Seq<char>)> {
    let e = g.edges@[k];
    (if g.has_node(e.from@) {
        Seq::empty()
    } else {
        seq![(ProblemKind::DanglingSource, k, e.from@)]
    }) + (if g.has_node(e.to@) {
        Seq::empty()
    } else {
        seq![(ProblemKind::DanglingDestination, k, e.to@)]
    })
}

/// The problems of the first `m` edges, edge by edge.
pub open spec fn problems_upto(g: ExecutionGraph, m: int) -> Seq<(ProblemKind, int, Seq<char>)>
    decreases m,
{
    if m <= 0 {
        Seq::empty()
    } else {
        problems_upto(g, m - 1) + edge_problems(g, m - 1)
    }
}

/// Each problem among the first `m` edges names one of them, and each of
/// those edges with a missing endpoint is named.
pub proof fn lemma_problems_upto(g: ExecutionGraph, m: int)
    requires
        0 <= m <= g.edges@.len(),
    ensures
        forall|i: int| 0 <= i < problems_upto(g, m).len() ==> 0 <= #[trigger] problems_upto(g, m)[i].1 < m,
        forall|k: int|
            0 <= k < m && !g.edge_resolved(k) ==> exists|i: int|
                0 <= i < problems_upto(g, m).len() && #[trigger] problems_upto(g, m)[i].1 == k,
        problems_upto(g, m).len() == 0 <==> forall|k: int| 0 <= k < m ==> g.edge_resolved(k),
    decreases m,
{
    if m > 0 {
        lemma_problems_upto(g, m - 1);
        let p = problems_upto(g, m - 1);
        let q = edge_problems(g, m - 1);
        assert(problems_upto(g, m) == p + q);
        assert forall|i: int| 0 <= i < (p + q).len() implies 0 <= #[trigger] (p + q)[i].1 < m by {
            if i < p.len() {
                assert((p + q)[i] == p[i]);
            } else {
                assert((p + q)[i] == q[i - p.len()]);
            }
        }
        assert forall|k: int| 0 <= k < m && !g.edge_resolved(k) implies exists|i: int|
            0 <= i < (p + q).len() && #[trigger] (p + q)[i].1 == k by {
            if k < m - 1 {
                let i = choose|i: int| 0 <= i < p.len() && #[trigger] p[i].1 == k;
                assert((p + q)[i] == p[i]);
            } else {
                let e = g.edges@[k];
                let a: Seq<(ProblemKind, int, Seq<char>)> = if g.has_node(e.from@) {
                    Seq::empty()
                } else {
                    seq![(ProblemKind::DanglingSource, k, e.from@)]
                };
                let b: Seq<(ProblemKind, int, Seq<char>)> = if g.has_node(e.to@) {
                    Seq::empty()
                } else {
                    seq![(ProblemKind::DanglingDestination, k, e.to@)]
                };
                assert(q == a + b);
                if a.len() > 0 {
                    assert(q[0] == a[0]);
                } else {
                    assert(q[0] == b[0]);
                }
                assert((p + q)[p.len() as int] == q[0]);
                assert((p + q)[p.len() as int].1 == k);
            }
        }
        if (p + q).len() == 0 {
            assert(q.len() == 0);
            assert(g.edge_resolved(m - 1));
        }
        if forall|k: int| 0 <= k < m ==> g.edge_resolved(k) {
            assert(g.edge_resolved(m - 1));
            assert(q.len() == 0);
        }
    }
}

/// Edge problems are about dangling endpoints only.
pub proof fn lemma_edge_kinds(g: ExecutionGraph, m: int, i: int)
    requires
        0 <= i < problems_upto(g, m).len(),
    ensures
        problems_upto(g, m)[i].0 != ProblemKind::DuplicateNodeId,
    decreases m,
{
    if m > 0 {
        let p = problems_upto(g, m - 1);
        let q = edge_problems(g, m - 1);
        assert(problems_upto(g, m) == p + q);
        if i < p.len() {
            assert((p + q)[i] == p[i]);
            lemma_edge_kinds(g, m - 1, i);
        } else {
            assert((p + q)[i] == q[i - p.len()]);
        }
    }
}

/// Node `i` repeats the id of an earlier node.
pub open spec fn repeats_earlier(ids: Seq<Seq<char>>, i: int) -> bool {
    ids.subrange(0, i).contains(ids[i])
}

/// The duplicate-id problems of the first `m` nodes, node by node.
pub open spec fn duplicates_upto(g: ExecutionGraph, m: int) -> Seq<(ProblemKind, int, Seq<char>)>
    decreases m,
{
    if m <= 0 {
        Seq::empty()
    } else {
        duplicates_upto(g, m - 1) + if repeats_earlier(g.node_ids(), m - 1) {
            seq![(ProblemKind::DuplicateNodeId, m - 1, g.node_ids()[m - 1])]
        } else {
            Seq::empty()
        }
    }
}

/// Every problem of the graph: dangling endpoints edge by edge, then
/// repeated node ids node by node.
pub open spec fn all_problems(g: ExecutionGraph) -> Seq<(ProblemKind, int, Seq<char>)> {
    problems_upto(g, g.edges@.len() as int) + duplicates_upto(g, g.nodes@.len() as int)
}

/// No duplicate-id problem among the first `m` nodes exactly when their ids
/// are distinct.
pub proof fn lemma_duplicates_upto(g: ExecutionGraph, m: int)
    requires
        0 <= m <= g.nodes@.len(),
    ensures
        duplicates_upto(g, m).len() == 0 <==> g.node_ids().subrange(0, m).no_duplicates(),
    decreases m,
{
    let ids = g.node_ids();
    if m > 0 {
        lemma_duplicates_upto(g, m - 1);
        let pre = ids.subrange(0, m - 1);
        let cur = ids.subrange(0, m);
        assert(cur == pre.push(ids[m - 1]));
        if repeats_earlier(ids, m - 1) {
            let j = choose|j: int| 0 <= j < pre.len() && pre[j] == ids[m - 1];
            assert(cur[j] == cur[m - 1]);
        } else if pre.no_duplicates() {
            assert forall|a: int, b: int| 0 <= a < cur.len() && 0 <= b < cur.len() && a != b implies cur[a] != cur[b] by {
                if a == m - 1 {
                    assert(pre[b] == cur[b]);
                } else if b == m - 1 {
                    assert(pre[a] == cur[a]);
                } else {
                    assert(pre[a] == cur[a] && pre[b] == cur[b]);
                }
            }
        } else {
            let (a, b) = choose|a: int, b: int| 0 <= a < pre.len() && 0 <= b < pre.len() && a != b && pre[a] == pre[b];
            assert(cur[a] == cur[b]);
        }
    } else {
        assert(ids.subrange(0, 0).no_duplicates());
    }
}

/// Checks that both endpoints of every edge are nodes, reporting each
/// missing endpoint, edge by edge, source before destination; then that node
/// ids are unique, reporting each node that repeats an earlier id.
pub fn validate(graph: &ExecutionGraph) -> (v: Validation)
    ensures
        problems_view(v.problems@) == all_problems(*graph),
        v.problems@.len() == 0 <==> (forall|k: int| 0 <= k < graph.edges@.len() ==> graph.edge_resolved(k))
            && graph.wf(),
        forall|k: int|
            0 <= k < graph.edges@.len() && !graph.edge_resolved(k) ==> exists|i: int|
                0 <= i < v.problems@.len() && #[trigger] v.problems@[i].index == k
                    && v.problems@[i].kind != ProblemKind::DuplicateNodeId,
{
    let mut problems: Vec<Problem> = Vec::new();
    let mut k: usize = 0;
    while k < graph.edges.len()
        invariant
            k <= graph.edges@.len(),
            problems_view(problems@) == problems_upto(*graph, k as int),
        decreases graph.edges@.len() - k,
    {
        let ghost before = problems_view(problems@);
        let e = &graph.edges[k];
        if !graph.contains_node(&e.from) {
            problems.push(Problem { kind: ProblemKind::DanglingSource, index: k, id: e.from.clone() });
        }
        let ghost mid = problems_view(problems@);
        if !graph.contains_node(&e.to) {
            problems.push(Problem { kind: ProblemKind::DanglingDestination, index: k, id: e.to.clone() });
        }
        proof {
            let q = edge_problems(*graph, k as int);
            assert(problems_view(problems@) =~= before + q);
            assert(problems_upto(*graph, k + 1) == before + q);
        }
        k = k + 1;
    }
    let ghost edge_part = problems_view(problems@);
    let mut i: usize = 0;
    while i < graph.nodes.len()
        invariant
            i <= graph.nodes@.len(),
            problems_view(problems@) == edge_part + duplicates_upto(*graph, i as int),
            edge_part == problems_upto(*graph, graph.edges@.len() as int),
        decreases graph.nodes@.len() - i,
    {
        let ghost before = problems_view(problems@);
        let mut j: usize = 0;
        let mut seen = false;
        while j < i
            invariant
                j <= i < graph.nodes@.len(),
                seen == graph.node_ids().subrange(0, j as int).contains(graph.node_ids()[i as int]),
            decreases i - j,
        {
            proof {
                let ids = graph.node_ids();
                assert(ids.subrange(0, j + 1) == ids.subrange(0, j as int).push(ids[j as int]));
                crate::graph::lemma_push_contains_id(ids.subrange(0, j as int), ids[j as int], ids[i as int]);
                assert(ids[j as int] == graph.nodes@[j as int].id@);
                assert(ids[i as int] == graph.nodes@[i as int].id@);
            }
            if graph.nodes[j].id == graph.nodes[i].id {
                seen = true;
            }
            j = j + 1;
        }
        if seen {
            problems.push(
                Problem { kind: ProblemKind::DuplicateNodeId, index: i, id: graph.nodes[i].id.clone() },
            );
        }
        proof {
            let ids = graph.node_ids();
            assert(seen == repeats_earlier(ids, i as int));
            assert(ids[i as int] == graph.nodes@[i as int].id@);
            let tail: Seq<(ProblemKind, int, Seq<char>)> = if repeats_earlier(ids, i as int) {
                seq![(ProblemKind::DuplicateNodeId, i as int, ids[i as int])]
            } else {
                Seq::empty()
            };
            assert(duplicates_upto(*graph, i + 1) == duplicates_upto(*graph, i as int) + tail);
            assert(problems_view(problems@) =~= before + tail);
            assert(problems_view(problems@) =~= edge_part + duplicates_upto(*graph, i + 1));
        }
        i = i + 1;
    }
    proof {
        lemma_problems_upto(*graph, graph.edges@.len() as int);
        lemma_duplicates_upto(*graph, graph.nodes@.len() as int);
        assert(graph.node_ids().subrange(0, graph.nodes@.len() as int) =~= graph.node_ids());
        let pv = problems_view(problems@);
        assert(pv.len() == problems@.len());
        assert forall|kk: int|
            0 <= kk < graph.edges@.len() && !graph.edge_resolved(kk) implies exists|i: int|
                0 <= i < problems@.len() && #[trigger] problems@[i].index == kk
                    && problems@[i].kind != ProblemKind::DuplicateNodeId by {
            let i = choose|i: int| 0 <= i < edge_part.len() && #[trigger] edge_part[i].1 == kk;
            assert(pv[i] == edge_part[i]);
            assert(pv[i] == problems@[i]@);
            lemma_edge_kinds(*graph, graph.edges@.len() as int, i);
        }
    }
    Validation { problems }
}

impl Validation {
    /// No problem was found.
    pub fn ok(&self) -> (r: bool)
        ensures
            r == (self.problems@.len() == 0),
    {
        self.problems.len() == 0
    }
}

} // verus!
