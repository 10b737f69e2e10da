//! Workflow graphs: nodes kept in insertion order, edges kept in insertion
//! order, and the operations that keep the two consistent.
//!
//! Node kinds do not change the structure: every edge is a dependency,
//! whatever the kinds of its ends. A `Loop` is expected to be unrolled into
//! distinct node ids before it is submitted, so a back-edge is a cycle like
//! any other; a `Decision` depends on, and is depended on by, all of its
//! edges, and only the executor reads their conditions to pick a branch.

use vstd::prelude::*;
use vstd::string::*;
use crate::schedule::{kahn_order, kahn_spec};
use crate::diagnostics::{all_problems, problems_view, Validation};

verus! {

/// Opaque structured metadata attached to a node; the graph never looks inside.
#[verifier::external_type_specification]
#[verifier::external_body]
pub struct ExJsonValue(serde_json::Value);

/// Relies on serde_json's derived `Clone` for `Value`: the copy equals the original.
pub assume_specification[ <serde_json::Value as Clone>::clone ](v: &serde_json::Value) -> (r: serde_json::Value)
    ensures
        r == *v,
;

/// The kind of work a node stands for.
#[derive(Clone, Copy, Debug, PartialEq, Eq, Structural)]
pub enum NodeType {
    Task,
    Decision,
    Loop,
    Aggregator,
}

/// A node of a workflow graph.
///
/// `dependencies` is informational only: edges are the authoritative
/// dependency relation.
#[derive(Clone, Debug)]
pub struct GraphNode {
    pub id: String,
    pub name: String,
    pub node_type: NodeType,
    pub dependencies: Vec<String>,
    pub outputs: Vec<String>,
    pub metadata: serde_json::Value,
}

/// A directed dependency `from -> to`, with an optional condition tag that
/// only the executor interprets.
#[derive(Clone, Debug)]
pub struct GraphEdge {
    pub from: String,
    pub to: String,
    pub condition: Option<String>,
}

/// Which end of an edge was not found.
#[derive(Clone, Copy, Debug, PartialEq, Eq, Structural)]
pub enum Endpoint {
    Source,
    Destination,
}

/// Why a graph operation was rejected.
#[derive(Clone, Debug)]
pub enum GraphError {
    /// A node with this id is already present.
    DuplicateId(String),
    /// A node id must not be empty.
    EmptyId,
    /// An edge names a node that is not present.
    UnknownEndpoint { endpoint: Endpoint, id: String },
    /// The node is still referenced by an edge.
    NodeInUse(String),
    /// No node with this id is present.
    NodeNotFound(String),
    /// No edge has this position.
    EdgeNotFound(usize),
    /// No execution order exists; carries the nodes that never became ready.
    CycleDetected(Vec<String>),
}

/// A workflow graph: nodes in insertion order with unique ids, edges in
/// insertion order, and the last execution order computed (empty when none
/// has been computed since the last change).
#[derive(Clone, Debug)]
pub struct ExecutionGraph {
    pub id: String,
    pub nodes: Vec<GraphNode>,
    pub edges: Vec<GraphEdge>,
    pub execution_order: Vec<String>,
}

/// The ids of a sequence of nodes.
pub open spec fn ids_of(nodes: Seq<GraphNode>) -> Seq<Seq<char>> {
    nodes.map_values(|n: GraphNode| n.id@)
}

/// The views of a sequence of strings.
pub open spec fn strings_view(s: Seq<String>) -> Seq<Seq<char>> {
    s.map_values(|x: String| x@)
}

/// A link into `x` whose source the scheduler left out.
pub open spec fn stuck_link(links: Seq<(usize, usize)>, queue: Seq<usize>, x: usize) -> int {
    choose|k: int| 0 <= k < links.len() && links[k].1 == x && !queue.contains(links[k].0)
}

/// The source of that link.
pub open spec fn stuck_pred(links: Seq<(usize, usize)>, queue: Seq<usize>, x: usize) -> usize {
    links[stuck_link(links, queue, x)].0
}

/// `m` steps back from `start`, each to a left-out source of a link.
pub open spec fn back_walk(links: Seq<(usize, usize)>, queue: Seq<usize>, start: usize, m: nat) -> Seq<usize>
    decreases m,
{
    if m == 0 {
        seq![start]
    } else {
        let p = back_walk(links, queue, start, (m - 1) as nat);
        p.push(stuck_pred(links, queue, p.last()))
    }
}

fn copy_strings(v: &Vec<String>) -> (r: Vec<String>)
    ensures
        r@ == v@,
{
    let mut r: Vec<String> = Vec::new();
    let mut i: usize = 0;
    while i < v.len()
        invariant
            i <= v@.len(),
            r@ == v@.subrange(0, i as int),
        decreases v@.len() - i,
    {
        r.push(v[i].clone());
        i = i + 1;
        proof {
            assert(r@ =~= v@.subrange(0, i as int));
        }
    }
    proof {
        assert(r@ =~= v@);
    }
    r
}

/// What a sequence of ids contains after a push.
pub proof fn lemma_push_contains_id(q: Seq<Seq<char>>, x: Seq<char>, w: Seq<char>)
    ensures
        q.push(x).contains(w) <==> (q.contains(w) || w == x),
{
    if q.contains(w) {
        let j = choose|j: int| 0 <= j < q.len() && q[j] == w;
        assert(q.push(x)[j] == w);
    }
    if w == x {
        assert(q.push(x)[q.len() as int] == x);
    }
    if q.push(x).contains(w) && w != x {
        let j = choose|j: int| 0 <= j < q.len() + 1 && q.push(x)[j] == w;
        assert(q[j] == w);
    }
}

/// The position of the node with id `id` among `ids`.
pub open spec fn position_in(ids: Seq<Seq<char>>, id: Seq<char>) -> usize {
    (choose|i: int| 0 <= i < ids.len() && ids[i] == id) as usize
}

/// The first `m` edges whose endpoints are both among `ids`, as pairs of positions.
pub open spec fn links_of(ids: Seq<Seq<char>>, edges: Seq<GraphEdge>, m: nat) -> Seq<(usize, usize)>
    decreases m,
{
    if m == 0 {
        Seq::empty()
    } else {
        let p = links_of(ids, edges, (m - 1) as nat);
        let e = edges[m - 1];
        if ids.contains(e.from@) && ids.contains(e.to@) {
            p.push((position_in(ids, e.from@), position_in(ids, e.to@)))
        } else {
            p
        }
    }
}

/// The order Kahn's algorithm gives for nodes with ids `ids` and these edges.
pub open spec fn plan_of(ids: Seq<Seq<char>>, edges: Seq<GraphEdge>) -> Seq<Seq<char>> {
    kahn_spec(ids.len(), links_of(ids, edges, edges.len())).map_values(|v: usize| ids[v as int])
}

/// The ids, in node order, of the first `m` nodes that `taken` leaves out.
pub open spec fn left_out(ids: Seq<Seq<char>>, taken: Seq<usize>, m: nat) -> Seq<Seq<char>>
    decreases m,
{
    if m == 0 {
        Seq::empty()
    } else {
        left_out(ids, taken, (m - 1) as nat) + if taken.contains((m - 1) as usize) {
            Seq::empty()
        } else {
            seq![ids[m - 1]]
        }
    }
}

/// Two graphs with the same node ids, in the same insertion order, and the
/// same edges are ordered alike: the execution order depends on nothing else.
pub proof fn lemma_order_deterministic(g1: ExecutionGraph, g2: ExecutionGraph)
    requires
        g1.node_ids() == g2.node_ids(),
        g1.edges@ == g2.edges@,
    ensures
        g1.planned_order() == g2.planned_order(),
{
}

impl GraphNode {
    /// `other` holds the same id, name, kind, dependency and output lists,
    /// and metadata.
    pub open spec fn same_as(&self, other: GraphNode) -> bool {
        &&& self.id == other.id
        &&& self.name == other.name
        &&& self.node_type == other.node_type
        &&& self.dependencies@ == other.dependencies@
        &&& self.outputs@ == other.outputs@
        &&& self.metadata == other.metadata
    }

    /// A copy of the node.
    pub fn duplicate(&self) -> (r: GraphNode)
        ensures
            r.same_as(*self),
    {
        GraphNode {
            id: self.id.clone(),
            name: self.name.clone(),
            node_type: self.node_type,
            dependencies: copy_strings(&self.dependencies),
            outputs: copy_strings(&self.outputs),
            metadata: self.metadata.clone(),
        }
    }
}

impl GraphEdge {
    /// A copy of the edge.
    pub fn duplicate(&self) -> (r: GraphEdge)
        ensures
            r == *self,
    {
        GraphEdge {
            from: self.from.clone(),
            to: self.to.clone(),
            condition: match &self.condition {
                Some(c) => Some(c.clone()),
                None => None,
            },
        }
    }

    /// Whether the edge starts or ends at `id`.
    pub open spec fn touches(self, id: Seq<char>) -> bool {
        self.from@ == id || self.to@ == id
    }
}

impl ExecutionGraph {
    /// The node ids, in insertion order.
    pub open spec fn node_ids(&self) -> Seq<Seq<char>> {
        ids_of(self.nodes@)
    }

    pub open spec fn has_node(&self, id: Seq<char>) -> bool {
        self.node_ids().contains(id)
    }

    /// Every node id is non-empty.
    pub open spec fn ids_nonempty(&self) -> bool {
        forall|i: int| 0 <= i < self.nodes@.len() ==> (#[trigger] self.nodes@[i]).id@.len() > 0
    }

    /// Node ids are unique.
    pub open spec fn wf(&self) -> bool {
        self.node_ids().no_duplicates()
    }

    /// Both endpoints of edge `k` are nodes of the graph.
    pub open spec fn edge_resolved(&self, k: int) -> bool {
        self.has_node(self.edges@[k].from@) && self.has_node(self.edges@[k].to@)
    }

    /// Some edge starts or ends at `id`.
    pub open spec fn referenced(&self, id: Seq<char>) -> bool {
        exists|k: int| 0 <= k < self.edges@.len() && #[trigger] self.edges@[k].touches(id)
    }

    /// The source of edge `k` comes before its destination in `s`.
    pub open spec fn precedes(&self, s: Seq<Seq<char>>, k: int) -> bool {
        exists|i: int, j: int|
            0 <= i < j < s.len() && s[i] == self.edges@[k].from@ && s[j] == self.edges@[k].to@
    }

    /// `s` lists every node exactly once, and the source of each edge between
    /// nodes before its destination.
    pub open spec fn is_execution_order(&self, s: Seq<Seq<char>>) -> bool {
        &&& s.no_duplicates()
        &&& forall|x: Seq<char>| #[trigger] s.contains(x) <==> self.has_node(x)
        &&& forall|k: int|
            0 <= k < self.edges@.len() && #[trigger] self.edge_resolved(k) ==> self.precedes(s, k)
    }

    /// Some execution order exists.
    pub open spec fn schedulable(&self) -> bool {
        exists|s: Seq<Seq<char>>| self.is_execution_order(s)
    }

    /// Link `l`, a pair of node positions, joins the endpoints of edge `e`.
    pub open spec fn link_of(&self, l: (usize, usize), e: int) -> bool {
        &&& 0 <= e < self.edges@.len()
        &&& l.0 < self.nodes@.len()
        &&& l.1 < self.nodes@.len()
        &&& self.nodes@[l.0 as int].id@ == self.edges@[e].from@
        &&& self.nodes@[l.1 as int].id@ == self.edges@[e].to@
    }

    /// Some edge runs from node `u` to node `v`.
    pub open spec fn has_edge(&self, u: Seq<char>, v: Seq<char>) -> bool {
        &&& self.has_node(u)
        &&& self.has_node(v)
        &&& exists|k: int| 0 <= k < self.edges@.len() && self.edges@[k].from@ == u && self.edges@[k].to@ == v
    }

    /// `c` is a closed path of edges: it starts and ends at the same node.
    pub open spec fn is_cycle(&self, c: Seq<Seq<char>>) -> bool {
        &&& c.len() >= 2
        &&& c[0] == c.last()
        &&& forall|i: int| 0 <= i < c.len() - 1 ==> self.has_edge(#[trigger] c[i], c[i + 1])
    }

    pub open spec fn has_cycle(&self) -> bool {
        exists|c: Seq<Seq<char>>| self.is_cycle(c)
    }

    /// The execution order Kahn's algorithm gives this graph.
    pub open spec fn planned_order(&self) -> Seq<Seq<char>> {
        plan_of(self.node_ids(), self.edges@)
    }

    /// The ids, in node order, of the nodes Kahn's algorithm never takes:
    /// those whose count of incoming edges from untaken nodes never reaches zero.
    pub open spec fn never_ready(&self) -> Seq<Seq<char>> {
        let ids = self.node_ids();
        left_out(ids, kahn_spec(ids.len(), links_of(ids, self.edges@, self.edges@.len())), ids.len())
    }

    /// Pair `l` of node positions joins the endpoints of some edge.
    pub open spec fn is_link(&self, l: (usize, usize)) -> bool {
        exists|e: int| self.link_of(l, e)
    }

    /// Creates an empty graph.
    pub fn new(id: String) -> (r: Self)
        ensures
            r.id == id,
            r.nodes@.len() == 0,
            r.edges@.len() == 0,
            r.execution_order@.len() == 0,
            r.wf(),
            r.ids_nonempty(),
    {
        ExecutionGraph { id, nodes: Vec::new(), edges: Vec::new(), execution_order: Vec::new() }
    }

    /// The position of the first node whose id is `id`.
    pub fn find_node(&self, id: &String) -> (r: Option<usize>)
        ensures
            match r {
                Some(i) => i < self.nodes@.len() && self.nodes@[i as int].id@ == id@,
                None => !self.has_node(id@),
            },
    {
        let mut i: usize = 0;
        while i < self.nodes.len()
            invariant
                i <= self.nodes@.len(),
                forall|j: int| 0 <= j < i ==> self.nodes@[j].id@ != id@,
            decreases self.nodes@.len() - i,
        {
            if self.nodes[i].id == *id {
                return Some(i);
            }
            i = i + 1;
        }
        proof {
            if self.has_node(id@) {
                let j = choose|j: int| 0 <= j < self.node_ids().len() && self.node_ids()[j] == id@;
                assert(self.nodes@[j].id@ == id@);
            }
        }
        None
    }

    /// Whether a node with id `id` is present.
    pub fn contains_node(&self, id: &String) -> (r: bool)
        ensures
            r == self.has_node(id@),
    {
        match self.find_node(id) {
            Some(i) => {
                proof {
                    assert(self.node_ids()[i as int] == id@);
                }
                true
            },
            None => false,
        }
    }
    /// Adds a node; rejected, with the graph unchanged, when its id is empty
    /// or already present.
    pub fn add_node(&mut self, node: GraphNode) -> (r: Result<(), GraphError>)
        ensures
            node.id@.len() == 0 ==> (r matches Err(GraphError::EmptyId) && *final(self) == *old(self)),
            node.id@.len() > 0 && old(self).has_node(node.id@) ==> (r matches Err(GraphError::DuplicateId(d))
                && d@ == node.id@ && *final(self) == *old(self)),
            node.id@.len() > 0 && !old(self).has_node(node.id@) ==> r is Ok
                && final(self).nodes@ == old(self).nodes@.push(node)
                && final(self).edges@ == old(self).edges@
                && final(self).id == old(self).id
                && final(self).execution_order@.len() == 0,
            old(self).wf() ==> final(self).wf(),
            old(self).ids_nonempty() ==> final(self).ids_nonempty(),
    {
        if node.id.unicode_len() == 0 {
            return Err(GraphError::EmptyId);
        }
        if self.contains_node(&node.id) {
            return Err(GraphError::DuplicateId(node.id.clone()));
        }
        self.nodes.push(node);
        self.execution_order = Vec::new();
        proof {
            assert(ids_of(self.nodes@) =~= ids_of(old(self).nodes@).push(node.id@));
        }
        Ok(())
    }

    /// Appends an edge; rejected, with the graph unchanged, when an endpoint
    /// is not a node (the source is checked first).
    pub fn add_edge(&mut self, edge: GraphEdge) -> (r: Result<(), GraphError>)
        ensures
            !old(self).has_node(edge.from@) ==> (r matches Err(
                GraphError::UnknownEndpoint { endpoint: Endpoint::Source, id },
            ) && id@ == edge.from@),
            old(self).has_node(edge.from@) && !old(self).has_node(edge.to@) ==> (r matches Err(
                GraphError::UnknownEndpoint { endpoint: Endpoint::Destination, id },
            ) && id@ == edge.to@),
            r is Err ==> *final(self) == *old(self),
            old(self).has_node(edge.from@) && old(self).has_node(edge.to@) ==> r is Ok
                && final(self).edges@ == old(self).edges@.push(edge)
                && final(self).nodes@ == old(self).nodes@
                && final(self).id == old(self).id
                && final(self).execution_order@.len() == 0,
            old(self).wf() ==> final(self).wf(),
            old(self).ids_nonempty() ==> final(self).ids_nonempty(),
    {
        if !self.contains_node(&edge.from) {
            return Err(
                GraphError::UnknownEndpoint { endpoint: Endpoint::Source, id: edge.from.clone() },
            );
        }
        if !self.contains_node(&edge.to) {
            return Err(
                GraphError::UnknownEndpoint { endpoint: Endpoint::Destination, id: edge.to.clone() },
            );
        }
        self.edges.push(edge);
        self.execution_order = Vec::new();
        Ok(())
    }

    /// Whether some edge starts or ends at `id`.
    pub fn is_referenced(&self, id: &String) -> (r: bool)
        ensures
            r == self.referenced(id@),
    {
        let mut k: usize = 0;
        while k < self.edges.len()
            invariant
                k <= self.edges@.len(),
                forall|j: int| 0 <= j < k ==> !(#[trigger] self.edges@[j].touches(id@)),
            decreases self.edges@.len() - k,
        {
            if self.edges[k].from == *id || self.edges[k].to == *id {
                assert(self.edges@[k as int].touches(id@));
                return true;
            }
            k = k + 1;
        }
        false
    }

    /// Removes and returns the node `id`; rejected, with the graph unchanged,
    /// while an edge still references it or when it is absent.
    pub fn remove_node(&mut self, id: &String) -> (r: Result<GraphNode, GraphError>)
        ensures
            old(self).referenced(id@) ==> (r matches Err(GraphError::NodeInUse(u)) && u@ == id@),
            !old(self).referenced(id@) && !old(self).has_node(id@) ==> (r matches Err(
                GraphError::NodeNotFound(u),
            ) && u@ == id@),
            r is Err ==> *final(self) == *old(self),
            !old(self).referenced(id@) && old(self).has_node(id@) ==> (r matches Ok(n)
                && n.id@ == id@
                && exists|i: int|
                    0 <= i < old(self).nodes@.len() && old(self).nodes@[i] == n
                        && final(self).nodes@ == old(self).nodes@.remove(i)),
            r is Ok ==> final(self).edges@ == old(self).edges@ && final(self).id == old(self).id
                && final(self).execution_order@.len() == 0,
            old(self).wf() ==> final(self).wf(),
            old(self).wf() && r is Ok ==> !final(self).has_node(id@),
            old(self).ids_nonempty() ==> final(self).ids_nonempty(),
    {
        if self.is_referenced(id) {
            return Err(GraphError::NodeInUse(id.clone()));
        }
        match self.find_node(id) {
            None => Err(GraphError::NodeNotFound(id.clone())),
            Some(i) => {
                let ghost before = self.nodes@;
                let n = self.nodes.remove(i);
                self.execution_order = Vec::new();
                proof {
                    let a = ids_of(before);
                    let b = ids_of(self.nodes@);
                    assert(b =~= a.remove(i as int));
                    assert(self.nodes@ =~= before.remove(i as int));
                    if old(self).wf() {
                        assert forall|x: int, y: int|
                            0 <= x < b.len() && 0 <= y < b.len() && x != y implies b[x] != b[y] by {
                            let xx = if x < i { x } else { x + 1 };
                            let yy = if y < i { y } else { y + 1 };
                            assert(b[x] == a[xx] && b[y] == a[yy]);
                        }
                        if b.contains(id@) {
                            let x = choose|x: int| 0 <= x < b.len() && b[x] == id@;
                            let xx = if x < i { x } else { x + 1 };
                            assert(a[xx] == a[i as int]);
                        }
                    }
                }
                Ok(n)
            },
        }
    }

    /// Removes and returns the edge at position `index`.
    pub fn remove_edge(&mut self, index: usize) -> (r: Result<GraphEdge, GraphError>)
        ensures
            index >= old(self).edges@.len() ==> (r matches Err(GraphError::EdgeNotFound(i))
                && i == index && *final(self) == *old(self)),
            index < old(self).edges@.len() ==> (r matches Ok(e) && e == old(self).edges@[index as int]
                && final(self).edges@ == old(self).edges@.remove(index as int)
                && final(self).nodes@ == old(self).nodes@
                && final(self).id == old(self).id
                && final(self).execution_order@.len() == 0),
            old(self).wf() ==> final(self).wf(),
    {
        if index >= self.edges.len() {
            return Err(GraphError::EdgeNotFound(index));
        }
        let e = self.edges.remove(index);
        self.execution_order = Vec::new();
        Ok(e)
    }

    /// With unique ids, a node's position is the one `position_in` names.
    proof fn lemma_position(&self, i: usize, id: Seq<char>)
        requires
            self.wf(),
            i < self.nodes@.len(),
            self.nodes@[i as int].id@ == id,
        ensures
            position_in(self.node_ids(), id) == i,
    {
        let ids = self.node_ids();
        assert(ids[i as int] == id);
        let j = choose|j: int| 0 <= j < ids.len() && ids[j] == id;
        assert(j == i);
    }

    /// The edges between nodes as pairs of node positions, in edge order;
    /// edges with a missing endpoint are left out.
    fn resolve_links(&self) -> (links: Vec<(usize, usize)>)
        requires
            self.wf(),
        ensures
            links@ == links_of(self.node_ids(), self.edges@, self.edges@.len()),
            forall|k: int| 0 <= k < links@.len() ==> self.is_link(#[trigger] links@[k]),
            forall|e: int|
                0 <= e < self.edges@.len() && #[trigger] self.edge_resolved(e) ==> exists|k: int|
                    0 <= k < links@.len() && self.link_of(links@[k], e),
    {
        let mut links: Vec<(usize, usize)> = Vec::new();
        let ghost mut origin: Seq<int> = Seq::empty();
        let ghost mut slot: Seq<int> = Seq::empty();
        let mut e: usize = 0;
        while e < self.edges.len()
            invariant
                e <= self.edges@.len(),
                origin.len() == links@.len(),
                slot.len() == e,
                self.wf(),
                links@ == links_of(self.node_ids(), self.edges@, e as nat),
                forall|k: int| 0 <= k < links@.len() ==> self.link_of(links@[k], origin[k]),
                forall|f: int|
                    0 <= f < e && self.edge_resolved(f) ==> 0 <= slot[f] < links@.len() && self.link_of(
                        links@[slot[f]],
                        f,
                    ),
            decreases self.edges@.len() - e,
        {
            let a = self.find_node(&self.edges[e].from);
            let b = self.find_node(&self.edges[e].to);
            match (a, b) {
                (Some(a), Some(b)) => {
                    proof {
                        self.lemma_position(a, self.edges@[e as int].from@);
                        self.lemma_position(b, self.edges@[e as int].to@);
                        assert(self.node_ids()[a as int] == self.edges@[e as int].from@);
                        assert(self.node_ids()[b as int] == self.edges@[e as int].to@);
                        slot = slot.push(links@.len() as int);
                        origin = origin.push(e as int);
                    }
                    links.push((a, b));
                },
                _ => {
                    proof {
                        slot = slot.push(-1);
                    }
                },
            }
            e = e + 1;
        }
        proof {
            assert forall|k: int| 0 <= k < links@.len() implies self.is_link(#[trigger] links@[k]) by {
                assert(self.link_of(links@[k], origin[k]));
            }
            assert forall|f: int|
                0 <= f < self.edges@.len() && #[trigger] self.edge_resolved(f) implies exists|k: int|
                    0 <= k < links@.len() && self.link_of(links@[k], f) by {
                assert(self.link_of(links@[slot[f]], f));
            }
        }
        links
    }

    /// A node left out by the scheduler cannot stand at any position of an
    /// execution order: some other left-out node would have to come first.
    proof fn lemma_stuck_absent(
        &self,
        links: Seq<(usize, usize)>,
        origin: Seq<int>,
        queue: Seq<usize>,
        s: Seq<Seq<char>>,
        p: int,
        w: usize,
    )
        requires
            origin.len() == links.len(),
            forall|k: int| 0 <= k < links.len() ==> self.link_of(#[trigger] links[k], origin[k]),
            forall|x: usize|
                x < self.nodes@.len() && !queue.contains(x) ==> exists|k: int|
                    0 <= k < links.len() && links[k].1 == x && !queue.contains(links[k].0),
            self.is_execution_order(s),
            0 <= p < s.len(),
            w < self.nodes@.len(),
            !queue.contains(w),
        ensures
            s[p] != self.nodes@[w as int].id@,
        decreases p,
    {
        if s[p] == self.nodes@[w as int].id@ {
            let k = choose|k: int| 0 <= k < links.len() && links[k].1 == w && !queue.contains(links[k].0);
            let e = origin[k];
            assert(self.link_of(links[k], e));
            let u = links[k].0;
            assert(self.node_ids()[u as int] == self.edges@[e].from@);
            assert(self.node_ids()[w as int] == self.edges@[e].to@);
            assert(self.edge_resolved(e));
            assert(self.precedes(s, e));
            let (i, j) = choose|i: int, j: int|
                0 <= i < j < s.len() && s[i] == self.edges@[e].from@ && s[j] == self.edges@[e].to@;
            assert(j == p);
            self.lemma_stuck_absent(links, origin, queue, s, i, u);
        }
    }

    /// Along a path of a cycle, each node stands later in an execution order
    /// than the first.
    proof fn lemma_cycle_positions(&self, c: Seq<Seq<char>>, s: Seq<Seq<char>>, m: int)
        requires
            self.is_cycle(c),
            self.is_execution_order(s),
            1 <= m < c.len(),
        ensures
            exists|i: int, j: int| 0 <= i < j < s.len() && s[i] == c[0] && s[j] == c[m],
        decreases m,
    {
        assert(self.has_edge(c[m - 1], c[m]));
        let k = choose|k: int|
            0 <= k < self.edges@.len() && self.edges@[k].from@ == c[m - 1] && self.edges@[k].to@ == c[m];
        assert(self.edge_resolved(k));
        assert(self.precedes(s, k));
        let (i2, j2) = choose|i: int, j: int|
            0 <= i < j < s.len() && s[i] == self.edges@[k].from@ && s[j] == self.edges@[k].to@;
        if m > 1 {
            self.lemma_cycle_positions(c, s, m - 1);
            let (i, j) = choose|i: int, j: int| 0 <= i < j < s.len() && s[i] == c[0] && s[j] == c[m - 1];
            assert(j == i2);
            assert(0 <= i < j2 < s.len() && s[i] == c[0] && s[j2] == c[m]);
        } else {
            assert(0 <= i2 < j2 < s.len() && s[i2] == c[0] && s[j2] == c[m]);
        }
    }

    /// A graph with a cycle has no execution order.
    pub proof fn lemma_cycle_unschedulable(&self, c: Seq<Seq<char>>)
        requires
            self.is_cycle(c),
        ensures
            !self.schedulable(),
    {
        if self.schedulable() {
            let s = choose|s: Seq<Seq<char>>| self.is_execution_order(s);
            self.lemma_cycle_positions(c, s, c.len() - 1);
            let (i, j) = choose|i: int, j: int|
                0 <= i < j < s.len() && s[i] == c[0] && s[j] == c[c.len() - 1];
        }
    }

    /// From a node left out by the scheduler, `m` steps back along links
    /// between left-out nodes.
    proof fn lemma_back_walk(
        &self,
        links: Seq<(usize, usize)>,
        queue: Seq<usize>,
        start: usize,
        m: nat,
    )
        requires
            forall|x: usize|
                x < self.nodes@.len() && !queue.contains(x) ==> exists|k: int|
                    0 <= k < links.len() && links[k].1 == x && !queue.contains(links[k].0),
            forall|k: int| 0 <= k < links.len() ==> links[k].0 < self.nodes@.len(),
            start < self.nodes@.len(),
            !queue.contains(start),
        ensures
            back_walk(links, queue, start, m).len() == m + 1,
            back_walk(links, queue, start, m)[0] == start,
            forall|i: int|
                0 <= i <= m ==> #[trigger] back_walk(links, queue, start, m)[i] < self.nodes@.len()
                    && !queue.contains(back_walk(links, queue, start, m)[i]),
            forall|i: int|
                0 <= i < m ==> exists|k: int|
                    0 <= k < links.len() && links[k].0 == #[trigger] back_walk(links, queue, start, m)[i + 1]
                        && links[k].1 == back_walk(links, queue, start, m)[i],
        decreases m,
    {
        if m > 0 {
            self.lemma_back_walk(links, queue, start, (m - 1) as nat);
            let p = back_walk(links, queue, start, (m - 1) as nat);
            let x = p.last();
            assert(x < self.nodes@.len() && !queue.contains(x));
            let k = stuck_link(links, queue, x);
            assert(0 <= k < links.len() && links[k].1 == x && !queue.contains(links[k].0));
            let w = back_walk(links, queue, start, m);
            assert(w == p.push(stuck_pred(links, queue, p.last())));
            assert forall|i: int| 0 <= i < m implies exists|kk: int|
                0 <= kk < links.len() && links[kk].0 == #[trigger] w[i + 1] && links[kk].1 == w[i] by {
                if i < m - 1 {
                    assert(w[i + 1] == p[i + 1] && w[i] == p[i]);
                } else {
                    assert(links[k].0 == w[i + 1] && links[k].1 == w[i]);
                }
            }
        }
    }

    /// When the scheduler leaves a node out, walking back along links between
    /// left-out nodes must repeat a node, which closes a cycle.
    #[verifier::rlimit(40)]
    proof fn lemma_stuck_cycle(
        &self,
        links: Seq<(usize, usize)>,
        origin: Seq<int>,
        queue: Seq<usize>,
        start: usize,
        n: usize,
    )
        requires
            n == self.nodes@.len(),
            origin.len() == links.len(),
            forall|k: int| 0 <= k < links.len() ==> self.link_of(#[trigger] links[k], origin[k]),
            forall|x: usize|
                x < self.nodes@.len() && !queue.contains(x) ==> exists|k: int|
                    0 <= k < links.len() && links[k].1 == x && !queue.contains(links[k].0),
            start < self.nodes@.len(),
            !queue.contains(start),
        ensures
            self.has_cycle(),
    {
        assert forall|k: int| 0 <= k < links.len() implies links[k].0 < n by {
            assert(self.link_of(links[k], origin[k]));
        }
        self.lemma_back_walk(links, queue, start, n as nat);
        let w = back_walk(links, queue, start, n as nat);
        assert forall|j: int| 0 <= j < w.len() implies w[j] < n by {
            assert(back_walk(links, queue, start, n as nat)[j] < n);
        }
        if w.no_duplicates() {
            crate::schedule::lemma_distinct_below(w, n);
        }
        let (a, b) = choose|a: int, b: int| 0 <= a < w.len() && 0 <= b < w.len() && a != b && w[a] == w[b];
        let lo = if a < b { a } else { b };
        let hi = if a < b { b } else { a };
        self.lemma_walk_cycle(links, origin, w, lo, hi);
    }

    /// A stretch of a backward walk that returns to its first node, read
    /// forwards, is a cycle.
    proof fn lemma_walk_cycle(&self, links: Seq<(usize, usize)>, origin: Seq<int>, w: Seq<usize>, lo: int, hi: int)
        requires
            origin.len() == links.len(),
            forall|k: int| 0 <= k < links.len() ==> self.link_of(#[trigger] links[k], origin[k]),
            0 <= lo < hi < w.len(),
            w[lo] == w[hi],
            forall|j: int| 0 <= j < w.len() ==> w[j] < self.nodes@.len(),
            forall|i: int|
                0 <= i < w.len() - 1 ==> exists|k: int|
                    0 <= k < links.len() && links[k].0 == #[trigger] w[i + 1] && links[k].1 == w[i],
        ensures
            self.has_cycle(),
    {
        let ids = self.node_ids();
        let c = Seq::new((hi - lo + 1) as nat, |t: int| ids[w[hi - t] as int]);
        assert(c[0] == c.last());
        assert forall|t: int| 0 <= t < c.len() - 1 implies self.has_edge(#[trigger] c[t], c[t + 1]) by {
            let i = hi - t - 1;
            assert(w[i + 1] < self.nodes@.len() && w[i] < self.nodes@.len());
            let k = choose|k: int| 0 <= k < links.len() && links[k].0 == w[i + 1] && links[k].1 == w[i];
            let e = origin[k];
            assert(self.link_of(links[k], e));
            assert(c[t] == ids[w[i + 1] as int]);
            assert(c[t + 1] == ids[w[i] as int]);
            assert(self.edges@[e].from@ == c[t] && self.edges@[e].to@ == c[t + 1]);
        }
        assert(self.is_cycle(c));
    }

    /// The execution order by Kahn's algorithm: nodes that no edge enters are
    /// ready in insertion order, the earliest ready node runs next, and a node
    /// becomes ready, behind those already waiting, once every edge into it
    /// comes from a node that has run. Fails when no execution order exists,
    /// listing the nodes that never became ready.
    pub fn order(&self) -> (r: Result<Vec<String>, GraphError>)
        requires
            self.wf(),
        ensures
            r is Ok <==> self.schedulable(),
            r is Ok <==> !self.has_cycle(),
            r matches Ok(s) ==> self.is_execution_order(strings_view(s@)),
            r matches Ok(s) ==> strings_view(s@) == self.planned_order(),
            r is Ok <==> self.never_ready().len() == 0,
            r matches Err(e) ==> (e matches GraphError::CycleDetected(rest) && strings_view(rest@)
                == self.never_ready()),
    {
        let n = self.nodes.len();
        let links = self.resolve_links();
        proof {
            assert forall|k: int| 0 <= k < links@.len() implies links@[k].0 < n && links@[k].1 < n by {
                assert(self.is_link(links@[k]));
                let e = choose|e: int| self.link_of(links@[k], e);
            }
        }
        let queue = kahn_order(n, &links);
        let mut seen: Vec<bool> = Vec::new();
        let mut v: usize = 0;
        while v < n
            invariant
                v <= n,
                seen@.len() == v,
                forall|i: int| 0 <= i < v ==> !seen@[i],
            decreases n - v,
        {
            seen.push(false);
            v = v + 1;
        }
        let mut j: usize = 0;
        while j < queue.len()
            invariant
                j <= queue@.len(),
                seen@.len() == n,
                forall|i: int| 0 <= i < queue@.len() ==> queue@[i] < n,
                forall|w: usize| w < n ==> (seen@[w as int] <==> queue@.subrange(0, j as int).contains(w)),
            decreases queue@.len() - j,
        {
            let ghost before = queue@.subrange(0, j as int);
            seen.set(queue[j], true);
            j = j + 1;
            proof {
                assert(queue@.subrange(0, j as int) =~= before.push(queue@[j - 1]));
                assert forall|w: usize| w < n implies (seen@[w as int] <==> queue@.subrange(0, j as int).contains(w)) by {
                    crate::schedule::lemma_push_contains(before, queue@[j - 1], w);
                }
            }
        }
        proof {
            assert(queue@.subrange(0, queue@.len() as int) =~= queue@);
        }
        let mut rest: Vec<String> = Vec::new();
        let ghost mut missing: usize = 0;
        let mut v: usize = 0;
        while v < n
            invariant
                v <= n,
                n == self.nodes@.len(),
                seen@.len() == n,
                forall|w: usize| w < n ==> (seen@[w as int] <==> queue@.contains(w)),
                queue@ == kahn_spec(n as nat, links_of(self.node_ids(), self.edges@, self.edges@.len())),
                strings_view(rest@) == left_out(self.node_ids(), queue@, v as nat),
                rest@.len() == 0 ==> forall|w: int| 0 <= w < v ==> seen@[w],
                rest@.len() > 0 ==> missing < n && !queue@.contains(missing),
            decreases n - v,
        {
            let ghost before = strings_view(rest@);
            if !seen[v] {
                rest.push(self.nodes[v].id.clone());
                proof {
                    missing = v;
                    assert(self.node_ids()[v as int] == self.nodes@[v as int].id@);
                    assert(strings_view(rest@) =~= before + seq![self.node_ids()[v as int]]);
                }
            } else {
                proof {
                    assert(strings_view(rest@) =~= before + Seq::<Seq<char>>::empty());
                }
            }
            v = v + 1;
        }
        if rest.len() > 0 {
            proof {
                let origin = Seq::new(links@.len(), |k: int| choose|e: int| self.link_of(links@[k], e));
                assert forall|k: int| 0 <= k < links@.len() implies self.link_of(#[trigger] links@[k], origin[k]) by {
                    assert(self.is_link(links@[k]));
                }
                self.lemma_stuck_cycle(links@, origin, queue@, missing, n);
                if self.schedulable() {
                    let s = choose|s: Seq<Seq<char>>| self.is_execution_order(s);
                    let x = self.nodes@[missing as int].id@;
                    assert(self.node_ids()[missing as int] == x);
                    assert(s.contains(x));
                    let p = choose|p: int| 0 <= p < s.len() && s[p] == x;
                    self.lemma_stuck_absent(links@, origin, queue@, s, p, missing);
                }
            }
            return Err(GraphError::CycleDetected(rest));
        }
        let mut out: Vec<String> = Vec::new();
        let mut j: usize = 0;
        while j < queue.len()
            invariant
                j <= queue@.len(),
                n == self.nodes@.len(),
                forall|i: int| 0 <= i < queue@.len() ==> queue@[i] < n,
                out@.len() == j,
                forall|i: int| 0 <= i < j ==> out@[i]@ == self.nodes@[queue@[i] as int].id@,
            decreases queue@.len() - j,
        {
            out.push(self.nodes[queue[j]].id.clone());
            j = j + 1;
        }
        proof {
            let s = strings_view(out@);
            let ids = self.node_ids();
            assert(s =~= self.planned_order());
            assert forall|i: int| 0 <= i < s.len() implies s[i] == ids[queue@[i] as int] by {}
            assert(s.no_duplicates()) by {
                assert forall|a: int, b: int| 0 <= a < s.len() && 0 <= b < s.len() && a != b implies s[a] != s[b] by {
                    assert(queue@[a] != queue@[b]);
                }
            }
            assert forall|x: Seq<char>| #[trigger] s.contains(x) <==> self.has_node(x) by {
                if s.contains(x) {
                    let i = choose|i: int| 0 <= i < s.len() && s[i] == x;
                    assert(ids[queue@[i] as int] == x);
                }
                if self.has_node(x) {
                    let w = choose|w: int| 0 <= w < ids.len() && ids[w] == x;
                    assert(seen@[w]);
                    assert(queue@.contains(w as usize));
                    let i = choose|i: int| 0 <= i < queue@.len() && queue@[i] == w as usize;
                    assert(s[i] == x);
                }
            }
            assert forall|e: int| 0 <= e < self.edges@.len() && #[trigger] self.edge_resolved(e) implies self.precedes(s, e) by {
                let k = choose|k: int| 0 <= k < links@.len() && self.link_of(links@[k], e);
                let (a, b) = links@[k];
                assert(seen@[b as int]);
                let j = choose|j: int| 0 <= j < queue@.len() && queue@[j] == b;
                assert(queue@.subrange(0, j).contains(a));
                let i = choose|i: int| 0 <= i < j && queue@.subrange(0, j)[i] == a;
                assert(queue@[i] == a);
                assert(s[i] == self.edges@[e].from@);
                assert(s[j] == self.edges@[e].to@);
            }
            assert(self.is_execution_order(s));
            if self.has_cycle() {
                let c = choose|c: Seq<Seq<char>>| self.is_cycle(c);
                self.lemma_cycle_unschedulable(c);
            }
        }
        Ok(out)
    }

    /// Computes the execution order and keeps it; on failure the graph is
    /// left unchanged.
    pub fn topological_sort(&mut self) -> (r: Result<(), GraphError>)
        requires
            old(self).wf(),
        ensures
            r is Ok <==> old(self).schedulable(),
            final(self).nodes@ == old(self).nodes@,
            final(self).edges@ == old(self).edges@,
            final(self).id == old(self).id,
            r is Ok ==> old(self).is_execution_order(strings_view(final(self).execution_order@)),
            r is Ok ==> strings_view(final(self).execution_order@) == old(self).planned_order(),
            r matches Err(e) ==> (e is CycleDetected && *final(self) == *old(self)),
    {
        match self.order() {
            Ok(s) => {
                self.execution_order = s;
                Ok(())
            },
            Err(e) => Err(e),
        }
    }

    /// `other` holds the same id, the same nodes field by field in the same
    /// order, the same edges and the same stored order.
    pub open spec fn same_as(&self, other: ExecutionGraph) -> bool {
        &&& self.id == other.id
        &&& self.nodes@.len() == other.nodes@.len()
        &&& forall|i: int| 0 <= i < self.nodes@.len() ==> (#[trigger] self.nodes@[i]).same_as(other.nodes@[i])
        &&& self.edges@ == other.edges@
        &&& self.execution_order@ == other.execution_order@
    }

    /// A copy of the graph.
    pub fn snapshot(&self) -> (r: ExecutionGraph)
        ensures
            r.same_as(*self),
            r.node_ids() == self.node_ids(),
    {
        let mut nodes: Vec<GraphNode> = Vec::new();
        let mut i: usize = 0;
        while i < self.nodes.len()
            invariant
                i <= self.nodes@.len(),
                nodes@.len() == i,
                forall|j: int| 0 <= j < i ==> (#[trigger] nodes@[j]).same_as(self.nodes@[j]),
            decreases self.nodes@.len() - i,
        {
            nodes.push(self.nodes[i].duplicate());
            i = i + 1;
        }
        let mut edges: Vec<GraphEdge> = Vec::new();
        let mut k: usize = 0;
        while k < self.edges.len()
            invariant
                k <= self.edges@.len(),
                edges@ == self.edges@.subrange(0, k as int),
            decreases self.edges@.len() - k,
        {
            edges.push(self.edges[k].duplicate());
            k = k + 1;
            proof {
                assert(edges@ =~= self.edges@.subrange(0, k as int));
            }
        }
        proof {
            assert(edges@ =~= self.edges@);
            assert(ids_of(nodes@) =~= ids_of(self.nodes@));
        }
        ExecutionGraph { id: self.id.clone(), nodes, edges, execution_order: self.execution_order.clone() }
    }

    /// Checks that both endpoints of every edge are nodes and that node ids
    /// are unique; see `diagnostics::validate`.
    pub fn validate(&self) -> (v: Validation)
        ensures
            problems_view(v.problems@) == all_problems(*self),
            v.problems@.len() == 0 <==> (forall|k: int| 0 <= k < self.edges@.len() ==> self.edge_resolved(k))
                && self.wf(),
    {
        crate::diagnostics::validate(self)
    }

    /// The execution order computed by the last successful sort; empty when
    /// none was computed or the graph changed since.
    pub fn get_execution_order(&self) -> (r: Vec<String>)
        ensures
            r@ == self.execution_order@,
    {
        self.execution_order.clone()
    }
}

} // verus!
