//! The graph store: exclusive, identity-assigning owner of all nodes and
//! edges, with per-subgraph adjacency indices, hierarchical containment,
//! the node-to-architecture mapping, and the propagation table.

use vstd::prelude::*;

use crate::types::{NodeId, EdgeId, Counter, SubgraphKind, EdgeKind};
use crate::state::EdgeState;

verus! {

/// Errors returned by the insertion operations. All validation happens
/// before any mutation, so a failed call leaves the store unchanged.
#[derive(Debug, Clone, Copy, PartialEq, Eq)]
pub enum GraphError {
    /// `add_node` referenced a parent id absent from the store.
    ParentNotFound(NodeId),
    /// `add_edge` referenced a source or target id absent from the store
    /// (the source is checked first).
    NodeNotFound(NodeId),
}

/// A vertex in either the architecture or implementation view.
///
/// The `id` field is assigned by the store on insertion; the `children`
/// list is maintained exclusively by the store and always reflects exactly
/// the nodes whose `parent` field equals this node's identifier.
pub struct Node {
    pub id: NodeId,
    pub name: String,
    pub subgraph: SubgraphKind,
    pub parent: Option<NodeId>,
    pub children: Vec<NodeId>,
}

/// A directed relationship between two nodes, scoped to exactly one
/// subgraph. The `id` field is assigned by the store on insertion; `state`
/// and `counter` are written by the reset and classification machinery.
pub struct Edge {
    pub id: EdgeId,
    pub from: NodeId,
    pub to: NodeId,
    pub kind: EdgeKind,
    pub subgraph: SubgraphKind,
    pub state: EdgeState,
    pub counter: Counter,
}

/// One outgoing-adjacency slot: the edges leaving `node` within one of the
/// two traversal views, in insertion order.
pub struct OutEntry {
    pub node: NodeId,
    pub out: Vec<EdgeId>,
}

/// One propagation-table slot: the implementation edges whose facts justify
/// the architecture-or-propagated edge `edge`.
pub struct SupportEntry {
    pub edge: EdgeId,
    pub support: Vec<EdgeId>,
}

/// One entry of the functional implementation-to-architecture node mapping.
pub struct NodeMapping {
    pub impl_node: NodeId,
    pub arch_node: NodeId,
}

/// The graph store. Nodes and edges are kept in insertion order, which the
/// identity-assignment contract makes strictly increasing id order.
pub struct ReflexionGraph {
    pub nodes: Vec<Node>,
    pub edges: Vec<Edge>,
    pub impl_out: Vec<OutEntry>,
    pub arch_out: Vec<OutEntry>,
    pub maps_to: Vec<NodeMapping>,
    pub propagation_table: Vec<SupportEntry>,
    pub next_node_id: NodeId,
    pub next_edge_id: EdgeId,
}

/// Some stored node carries identifier `id`.
pub open spec fn has_node_id(s: Seq<Node>, id: NodeId) -> bool {
    exists|i: int| 0 <= i < s.len() && s[i].id == id
}

/// Index of the stored node carrying identifier `id` (unique under
/// well-formedness).
pub open spec fn node_index_of(s: Seq<Node>, id: NodeId) -> int {
    choose|i: int| 0 <= i < s.len() && s[i].id == id
}

/// Some stored edge carries identifier `id`.
pub open spec fn has_edge_id(s: Seq<Edge>, id: EdgeId) -> bool {
    exists|i: int| 0 <= i < s.len() && s[i].id == id
}

/// Some stored edge carries identifier `id` and lives in the `Propagated`
/// subgraph.
pub open spec fn has_propagated_id(s: Seq<Edge>, id: EdgeId) -> bool {
    exists|i: int| 0 <= i < s.len() && s[i].id == id
        && s[i].subgraph == SubgraphKind::Propagated
}

/// The subsequence of edges that survives discarding the propagated view.
pub open spec fn purge_propagated(s: Seq<Edge>) -> Seq<Edge>
    decreases s.len(),
{
    if s.len() == 0 {
        Seq::empty()
    } else {
        let rest = purge_propagated(s.drop_last());
        if s.last().subgraph != SubgraphKind::Propagated {
            rest.push(s.last())
        } else {
            rest
        }
    }
}

/// The subsequence of recorded edge ids that do not name a propagated edge
/// of `edges`.
pub open spec fn purge_ids(s: Seq<EdgeId>, edges: Seq<Edge>) -> Seq<EdgeId>
    decreases s.len(),
{
    if s.len() == 0 {
        Seq::empty()
    } else {
        let rest = purge_ids(s.drop_last(), edges);
        if !has_propagated_id(edges, s.last()) {
            rest.push(s.last())
        } else {
            rest
        }
    }
}

/// The propagation-table entries whose key does not name a propagated edge
/// of `edges`.
pub open spec fn purge_table(t: Seq<SupportEntry>, edges: Seq<Edge>) -> Seq<SupportEntry>
    decreases t.len(),
{
    if t.len() == 0 {
        Seq::empty()
    } else {
        let rest = purge_table(t.drop_last(), edges);
        if !has_propagated_id(edges, t.last().edge) {
            rest.push(t.last())
        } else {
            rest
        }
    }
}

/// Architecture and propagated edges share one traversal view, because
/// propagated edges are projections of implementation facts onto the
/// architecture namespace.
pub open spec fn on_arch_side(sg: SubgraphKind) -> bool {
    sg == SubgraphKind::Architecture || sg == SubgraphKind::Propagated
}

/// Whether an edge is routed to the architecture-facing index
/// (`arch_side`) or to the implementation-facing one.
pub open spec fn edge_routed_to(e: Edge, arch_side: bool) -> bool {
    if arch_side {
        on_arch_side(e.subgraph)
    } else {
        e.subgraph == SubgraphKind::Implementation
    }
}

/// Some adjacency entry is keyed by node `n`.
pub open spec fn adj_has_key(adj: Seq<OutEntry>, n: NodeId) -> bool {
    exists|i: int| 0 <= i < adj.len() && adj[i].node == n
}

/// Index of the adjacency entry keyed by node `n` (unique under
/// well-formedness).
pub open spec fn adj_index_of(adj: Seq<OutEntry>, n: NodeId) -> int {
    choose|i: int| 0 <= i < adj.len() && adj[i].node == n
}

/// The outgoing edge ids recorded at node `n`; the empty sequence when no
/// entry exists yet.
pub open spec fn adj_at(adj: Seq<OutEntry>, n: NodeId) -> Seq<EdgeId> {
    if adj_has_key(adj, n) {
        adj[adj_index_of(adj, n)].out@
    } else {
        Seq::empty()
    }
}

/// Adjacency entry keys are pairwise distinct.
pub open spec fn adj_keys_unique(adj: Seq<OutEntry>) -> bool {
    forall|i: int, j: int|
        0 <= i < j < adj.len() ==> #[trigger] adj[i].node != #[trigger] adj[j].node
}

/// The id listed at position `k` of adjacency entry `i` belongs to a stored
/// edge leaving that entry's node on the matching side.
pub open spec fn adj_slot_backed(
    adj: Seq<OutEntry>,
    edges: Seq<Edge>,
    arch_side: bool,
    i: int,
    k: int,
) -> bool {
    exists|e: int|
        0 <= e < edges.len() && edges[e].id == adj[i].out@[k]
            && edges[e].from == adj[i].node && edge_routed_to(edges[e], arch_side)
}

/// Well-formedness of one adjacency index against the edge store: unique
/// keys, duplicate-free entries, every listed id backed by a matching
/// stored edge, and every matching stored edge listed at its source.
pub open spec fn adj_ok(adj: Seq<OutEntry>, edges: Seq<Edge>, arch_side: bool) -> bool {
    &&& adj_keys_unique(adj)
    &&& forall|i: int, k1: int, k2: int|
        0 <= i < adj.len() && 0 <= k1 < k2 < adj[i].out@.len()
            ==> #[trigger] adj[i].out@[k1] != #[trigger] adj[i].out@[k2]
    &&& forall|i: int, k: int|
        0 <= i < adj.len() && 0 <= k < adj[i].out@.len()
            ==> #[trigger] adj_slot_backed(adj, edges, arch_side, i, k)
    &&& forall|e: int|
        0 <= e < edges.len() && edge_routed_to(#[trigger] edges[e], arch_side)
            ==> adj_at(adj, edges[e].from).contains(edges[e].id)
}

/// The child listed at position `k` of node `i` is a stored node whose
/// parent field names node `i`.
pub open spec fn child_backed(s: Seq<Node>, i: int, k: int) -> bool {
    exists|j: int|
        0 <= j < s.len() && s[j].id == s[i].children@[k]
            && s[j].parent == Some(s[i].id)
}

/// Node `j`'s parent link is reflected in the parent's children list.
pub open spec fn parent_listed(s: Seq<Node>, j: int) -> bool {
    &&& has_node_id(s, s[j].parent->0)
    &&& s[node_index_of(s, s[j].parent->0)].children@.contains(s[j].id)
}

/// The propagation-table key at position `i` is the id of a stored
/// architecture-or-propagated edge.
pub open spec fn table_key_backed(t: Seq<SupportEntry>, edges: Seq<Edge>, i: int) -> bool {
    exists|e: int|
        0 <= e < edges.len() && edges[e].id == t[i].edge && on_arch_side(edges[e].subgraph)
}

impl ReflexionGraph {
    /// Node identifiers are in `[1, next_node_id)` and strictly increase in
    /// storage order (so they are pairwise distinct and never reused).
    pub open spec fn nodes_ok(self) -> bool {
        &&& forall|i: int|
            0 <= i < self.nodes@.len()
                ==> 1 <= #[trigger] self.nodes@[i].id < self.next_node_id
        &&& forall|i: int, j: int|
            0 <= i < j < self.nodes@.len()
                ==> #[trigger] self.nodes@[i].id < #[trigger] self.nodes@[j].id
    }

    /// Edge identifiers are in `[1, next_edge_id)`, strictly increase in
    /// storage order, and every edge's endpoints are stored nodes.
    pub open spec fn edges_ok(self) -> bool {
        &&& forall|i: int|
            0 <= i < self.edges@.len()
                ==> 1 <= #[trigger] self.edges@[i].id < self.next_edge_id
        &&& forall|i: int, j: int|
            0 <= i < j < self.edges@.len()
                ==> #[trigger] self.edges@[i].id < #[trigger] self.edges@[j].id
        &&& forall|i: int|
            0 <= i < self.edges@.len()
                ==> has_node_id(self.nodes@, #[trigger] self.edges@[i].from)
                    && has_node_id(self.nodes@, self.edges@[i].to)
    }

    /// Parent/child symmetry: children lists are duplicate-free, every
    /// listed child is a stored node pointing back at this parent, and
    /// every parent link is listed in that parent's children.
    pub open spec fn hierarchy_ok(self) -> bool {
        &&& forall|i: int, k1: int, k2: int|
            0 <= i < self.nodes@.len()
                && 0 <= k1 < k2 < self.nodes@[i].children@.len()
                ==> #[trigger] self.nodes@[i].children@[k1]
                    != #[trigger] self.nodes@[i].children@[k2]
        &&& forall|i: int, k: int|
            0 <= i < self.nodes@.len() && 0 <= k < self.nodes@[i].children@.len()
                ==> #[trigger] child_backed(self.nodes@, i, k)
        &&& forall|j: int|
            0 <= j < self.nodes@.len() && #[trigger] self.nodes@[j].parent is Some
                ==> parent_listed(self.nodes@, j)
    }

    /// Propagation-table keys are pairwise distinct ids of stored
    /// architecture-or-propagated edges.
    pub open spec fn table_ok(self) -> bool {
        &&& forall|i: int, j: int|
            0 <= i < j < self.propagation_table@.len()
                ==> #[trigger] self.propagation_table@[i].edge
                    != #[trigger] self.propagation_table@[j].edge
        &&& forall|i: int|
            0 <= i < self.propagation_table@.len()
                ==> #[trigger] table_key_backed(
                    self.propagation_table@,
                    self.edges@,
                    i,
                )
    }

    /// The node mapping is functional: at most one architecture target per
    /// implementation node.
    pub open spec fn mapping_ok(self) -> bool {
        forall|i: int, j: int|
            0 <= i < j < self.maps_to@.len()
                ==> #[trigger] self.maps_to@[i].impl_node
                    != #[trigger] self.maps_to@[j].impl_node
    }

    /// Well-formedness of the whole store, established by `new` and
    /// preserved by every operation.
    pub open spec fn wf(self) -> bool {
        &&& self.next_node_id >= 1
        &&& self.next_edge_id >= 1
        &&& self.nodes_ok()
        &&& self.edges_ok()
        &&& self.hierarchy_ok()
        &&& adj_ok(self.impl_out@, self.edges@, false)
        &&& adj_ok(self.arch_out@, self.edges@, true)
        &&& self.table_ok()
        &&& self.mapping_ok()
    }

    /// Creates an empty store with both identity counters at 1.
    pub fn new() -> (r: Self)
        ensures
            r.wf(),
            r.nodes@.len() == 0,
            r.edges@.len() == 0,
            r.impl_out@.len() == 0,
            r.arch_out@.len() == 0,
            r.maps_to@.len() == 0,
            r.propagation_table@.len() == 0,
            r.next_node_id == 1,
            r.next_edge_id == 1,
    {
        ReflexionGraph {
            nodes: Vec::new(),
            edges: Vec::new(),
            impl_out: Vec::new(),
            arch_out: Vec::new(),
            maps_to: Vec::new(),
            propagation_table: Vec::new(),
            next_node_id: 1,
            next_edge_id: 1,
        }
    }

    /// Draws the next node identifier and advances the node counter;
    /// identifiers are handed out strictly increasing and never reused.
    pub fn fresh_node_id(&mut self) -> (r: NodeId)
        requires
            old(self).next_node_id < u32::MAX,
        ensures
            r == old(self).next_node_id,
            final(self).next_node_id == old(self).next_node_id + 1,
            final(self).nodes@ == old(self).nodes@,
            final(self).edges@ == old(self).edges@,
            final(self).impl_out@ == old(self).impl_out@,
            final(self).arch_out@ == old(self).arch_out@,
            final(self).maps_to@ == old(self).maps_to@,
            final(self).propagation_table@ == old(self).propagation_table@,
            final(self).next_edge_id == old(self).next_edge_id,
            old(self).wf() ==> final(self).wf(),
    {
        let id = self.next_node_id;
        self.next_node_id = self.next_node_id + 1;
        id
    }

    /// Draws the next edge identifier and advances the edge counter;
    /// identifiers are handed out strictly increasing and never reused,
    /// even after propagated edges are discarded.
    pub fn fresh_edge_id(&mut self) -> (r: EdgeId)
        requires
            old(self).next_edge_id < u32::MAX,
        ensures
            r == old(self).next_edge_id,
            final(self).next_edge_id == old(self).next_edge_id + 1,
            final(self).nodes@ == old(self).nodes@,
            final(self).edges@ == old(self).edges@,
            final(self).impl_out@ == old(self).impl_out@,
            final(self).arch_out@ == old(self).arch_out@,
            final(self).maps_to@ == old(self).maps_to@,
            final(self).propagation_table@ == old(self).propagation_table@,
            final(self).next_node_id == old(self).next_node_id,
            old(self).wf() ==> final(self).wf(),
    {
        let id = self.next_edge_id;
        self.next_edge_id = self.next_edge_id + 1;
        id
    }

    /// Index of the stored node with identifier `id`, if any.
    fn find_node_index(&self, id: NodeId) -> (r: Option<usize>)
        ensures
            match r {
                Some(i) => i < self.nodes@.len() && self.nodes@[i as int].id == id,
                None => !has_node_id(self.nodes@, id),
            },
    {
        let mut i: usize = 0;
        while i < self.nodes.len()
            invariant
                i <= self.nodes@.len(),
                forall|j: int| 0 <= j < i ==> #[trigger] self.nodes@[j].id != id,
            decreases self.nodes@.len() - i,
        {
            if self.nodes[i].id == id {
                return Some(i);
            }
            i = i + 1;
        }
        None
    }

    /// Index of the stored edge with identifier `id`, if any.
    fn find_edge_index(&self, id: EdgeId) -> (r: Option<usize>)
        ensures
            match r {
                Some(i) => i < self.edges@.len() && self.edges@[i as int].id == id,
                None => !has_edge_id(self.edges@, id),
            },
    {
        let mut i: usize = 0;
        while i < self.edges.len()
            invariant
                i <= self.edges@.len(),
                forall|j: int| 0 <= j < i ==> #[trigger] self.edges@[j].id != id,
            decreases self.edges@.len() - i,
        {
            if self.edges[i].id == id {
                return Some(i);
            }
            i = i + 1;
        }
        None
    }

    /// Whether a node with identifier `id` is stored.
    pub fn contains_node(&self, id: NodeId) -> (r: bool)
        ensures
            r == has_node_id(self.nodes@, id),
    {
        self.find_node_index(id).is_some()
    }

    /// The stored node with identifier `id`, if any.
    pub fn get_node(&self, id: NodeId) -> (r: Option<&Node>)
        ensures
            match r {
                Some(n) => has_node_id(self.nodes@, id) && n.id == id
                    && self.nodes@.contains(*n),
                None => !has_node_id(self.nodes@, id),
            },
    {
        match self.find_node_index(id) {
            Some(i) => Some(&self.nodes[i]),
            None => None,
        }
    }

    /// The recorded outgoing edges of node `n` in the implementation-facing
    /// adjacency index, if an entry exists.
    pub fn impl_adjacent(&self, n: NodeId) -> (r: Option<&Vec<EdgeId>>)
        requires
            self.wf(),
        ensures
            match r {
                Some(v) => adj_has_key(self.impl_out@, n)
                    && v@ == adj_at(self.impl_out@, n),
                None => !adj_has_key(self.impl_out@, n),
            },
    {
        adj_lookup(&self.impl_out, n)
    }

    /// The recorded outgoing edges of node `n` in the architecture-facing
    /// adjacency index (architecture and propagated edges), if an entry
    /// exists.
    pub fn arch_adjacent(&self, n: NodeId) -> (r: Option<&Vec<EdgeId>>)
        requires
            self.wf(),
        ensures
            match r {
                Some(v) => adj_has_key(self.arch_out@, n)
                    && v@ == adj_at(self.arch_out@, n),
                None => !adj_has_key(self.arch_out@, n),
            },
    {
        adj_lookup(&self.arch_out, n)
    }

    /// The stored edge with identifier `id`, if any.
    pub fn get_edge(&self, id: EdgeId) -> (r: Option<&Edge>)
        ensures
            match r {
                Some(e) => has_edge_id(self.edges@, id) && e.id == id
                    && self.edges@.contains(*e),
                None => !has_edge_id(self.edges@, id),
            },
    {
        match self.find_edge_index(id) {
            Some(i) => Some(&self.edges[i]),
            None => None,
        }
    }

    /// Inserts a node record, assigning it a fresh identifier that
    /// overrides the caller-supplied placeholder.
    ///
    /// Fails with `ParentNotFound` — leaving the store unchanged — when a
    /// declared parent id is absent. On success the only mutations are the
    /// insertion itself, the advanced node counter, and the fresh id
    /// appended to the declared parent's children list.
    ///
    /// Callers hand in a record without children: the children list is
    /// maintained exclusively by the store and always reflects exactly the
    /// nodes whose parent field names this node.
    pub fn add_node(&mut self, node: Node) -> (r: Result<NodeId, GraphError>)
        requires
            old(self).wf(),
            old(self).next_node_id < u32::MAX,
            node.children@.len() == 0,
        ensures
            final(self).wf(),
            ({
                let s0 = *old(self);
                let s1 = *final(self);
                if node.parent is Some && !has_node_id(s0.nodes@, node.parent->0) {
                    &&& r == Err::<NodeId, GraphError>(
                        GraphError::ParentNotFound(node.parent->0),
                    )
                    &&& s1 == s0
                } else {
                    &&& r == Ok::<NodeId, GraphError>(s0.next_node_id)
                    &&& add_node_updates(s0, s1, node, s0.next_node_id)
                }
            }),
    {
        let ghost s0 = *self;
        let mut node = node;
        match node.parent {
            Some(parent_id) => {
                if !self.contains_node(parent_id) {
                    return Err(GraphError::ParentNotFound(parent_id));
                }
            },
            None => {},
        }
        let id = self.fresh_node_id();
        node.id = id;
        let parent = node.parent;
        proof {
            assert(node_assigned(node, id) == node);
        }
        self.nodes.push(node);
        match parent {
            Some(parent_id) => {
                proof {
                    let w = choose|w: int|
                        0 <= w < s0.nodes@.len() && s0.nodes@[w].id == parent_id;
                    assert(self.nodes@[w].id == parent_id);
                    assert(has_node_id(self.nodes@, parent_id));
                }
                match self.find_node_index(parent_id) {
                    Some(pi) => {
                        proof {
                            // the match cannot be the just-pushed node
                            assert(s0.nodes@[pi as int].id == parent_id);
                            lemma_node_at_index(s0.nodes@, pi as int);
                        }
                        let nref = &mut self.nodes[pi];
                        nref.children.push(id);
                        proof {
                            lemma_add_node_with_parent_wf(s0, *self, node, id, pi as int);
                        }
                    },
                    None => {
                        proof {
                            assert(false);
                        }
                    },
                }
            },
            None => {
                proof {
                    lemma_add_node_root_wf(s0, *self, node, id);
                }
            },
        }
        Ok(id)
    }

    /// Inserts an edge record, assigning it a fresh identifier that
    /// overrides the caller-supplied placeholder.
    ///
    /// Fails with `NodeNotFound` — leaving the store unchanged — when an
    /// endpoint is absent; the source is checked before the target, so if
    /// both are missing the source's absence is reported. On success the
    /// fresh id is also appended to the subgraph-appropriate adjacency
    /// index at the source node: implementation edges go to the
    /// implementation-facing index, architecture and propagated edges to
    /// the architecture-facing one.
    pub fn add_edge(&mut self, edge: Edge) -> (r: Result<EdgeId, GraphError>)
        requires
            old(self).wf(),
            old(self).next_edge_id < u32::MAX,
        ensures
            final(self).wf(),
            ({
                let s0 = *old(self);
                let s1 = *final(self);
                if !has_node_id(s0.nodes@, edge.from) {
                    &&& r == Err::<EdgeId, GraphError>(GraphError::NodeNotFound(edge.from))
                    &&& s1 == s0
                } else if !has_node_id(s0.nodes@, edge.to) {
                    &&& r == Err::<EdgeId, GraphError>(GraphError::NodeNotFound(edge.to))
                    &&& s1 == s0
                } else {
                    &&& r == Ok::<EdgeId, GraphError>(s0.next_edge_id)
                    &&& add_edge_updates(s0, s1, edge, s0.next_edge_id)
                }
            }),
    {
        let ghost s0 = *self;
        if !self.contains_node(edge.from) {
            return Err(GraphError::NodeNotFound(edge.from));
        }
        if !self.contains_node(edge.to) {
            return Err(GraphError::NodeNotFound(edge.to));
        }
        let id = self.fresh_edge_id();
        let from = edge.from;
        let is_impl = matches!(edge.subgraph, SubgraphKind::Implementation);
        let mut e2 = edge;
        let ghost rec = e2;
        e2.id = id;
        proof {
            assert(e2 == edge_assigned(rec, id));
        }
        self.edges.push(e2);
        if is_impl {
            adj_push(&mut self.impl_out, from, id);
        } else {
            adj_push(&mut self.arch_out, from, id);
        }
        proof {
            assert(add_edge_updates(s0, *self, rec, id));
            lemma_add_edge_wf(s0, *self, rec, id);
        }
        Ok(id)
    }

    /// Puts every edge into the canonical pre-analysis state: counter 0,
    /// `Specified` for architecture edges, `Undefined` for implementation
    /// and propagated edges, and an empty propagation table.
    ///
    /// Idempotent, and touches neither identities, adjacency, hierarchy,
    /// nor the node mapping.
    pub fn init_states(&mut self)
        ensures
            final(self).edges@.len() == old(self).edges@.len(),
            forall|i: int|
                0 <= i < old(self).edges@.len()
                    ==> final(self).edges@[i] == edge_reset(old(self).edges@[i]),
            final(self).propagation_table@.len() == 0,
            final(self).nodes@ == old(self).nodes@,
            final(self).impl_out@ == old(self).impl_out@,
            final(self).arch_out@ == old(self).arch_out@,
            final(self).maps_to@ == old(self).maps_to@,
            final(self).next_node_id == old(self).next_node_id,
            final(self).next_edge_id == old(self).next_edge_id,
            old(self).wf() ==> final(self).wf(),
    {
        let ghost s0 = *self;
        let mut i: usize = 0;
        while i < self.edges.len()
            invariant
                i <= self.edges@.len(),
                self.edges@.len() == s0.edges@.len(),
                forall|j: int|
                    0 <= j < i ==> self.edges@[j] == edge_reset(s0.edges@[j]),
                forall|j: int|
                    i <= j < self.edges@.len() ==> self.edges@[j] == s0.edges@[j],
                self.nodes@ == s0.nodes@,
                self.impl_out@ == s0.impl_out@,
                self.arch_out@ == s0.arch_out@,
                self.maps_to@ == s0.maps_to@,
                self.propagation_table@ == s0.propagation_table@,
                self.next_node_id == s0.next_node_id,
                self.next_edge_id == s0.next_edge_id,
            decreases self.edges@.len() - i,
        {
            let sg = self.edges[i].subgraph;
            let eref = &mut self.edges[i];
            eref.counter = 0;
            match sg {
                SubgraphKind::Architecture => {
                    eref.state = EdgeState::Specified;
                },
                SubgraphKind::Implementation | SubgraphKind::Propagated => {
                    eref.state = EdgeState::Undefined;
                },
            }
            i = i + 1;
        }
        self.propagation_table.clear();
        proof {
            if s0.wf() {
                lemma_reset_wf(s0, *self);
            }
        }
    }

    /// Removes every edge of the `Propagated` subgraph, together with its
    /// entries in both adjacency indices and any propagation-table entry
    /// keyed by its id. Nodes, the remaining edges, the node mapping and
    /// the identity counters are untouched, so identifiers are never
    /// reused. A no-op when no propagated edges exist.
    pub fn clear_propagated_edges(&mut self)
        requires
            old(self).wf(),
        ensures
            final(self).wf(),
            final(self).edges@ == purge_propagated(old(self).edges@),
            final(self).impl_out@.len() == old(self).impl_out@.len(),
            final(self).arch_out@.len() == old(self).arch_out@.len(),
            forall|i: int|
                0 <= i < old(self).impl_out@.len()
                    ==> #[trigger] final(self).impl_out@[i].node == old(self).impl_out@[i].node,
            forall|i: int|
                0 <= i < old(self).arch_out@.len()
                    ==> #[trigger] final(self).arch_out@[i].node == old(self).arch_out@[i].node,
            forall|i: int|
                0 <= i < old(self).impl_out@.len()
                    ==> #[trigger] final(self).impl_out@[i].out@
                        == purge_ids(old(self).impl_out@[i].out@, old(self).edges@),
            forall|i: int|
                0 <= i < old(self).arch_out@.len()
                    ==> #[trigger] final(self).arch_out@[i].out@
                        == purge_ids(old(self).arch_out@[i].out@, old(self).edges@),
            final(self).propagation_table@
                == purge_table(old(self).propagation_table@, old(self).edges@),
            final(self).nodes@ == old(self).nodes@,
            final(self).maps_to@ == old(self).maps_to@,
            final(self).next_node_id == old(self).next_node_id,
            final(self).next_edge_id == old(self).next_edge_id,
            forall|i: int|
                0 <= i < final(self).edges@.len()
                    ==> #[trigger] final(self).edges@[i].subgraph != SubgraphKind::Propagated,
            forall|i: int, k: int|
                0 <= i < final(self).impl_out@.len()
                    && 0 <= k < final(self).impl_out@[i].out@.len()
                    ==> !has_propagated_id(
                        old(self).edges@,
                        #[trigger] final(self).impl_out@[i].out@[k],
                    ),
            forall|i: int, k: int|
                0 <= i < final(self).arch_out@.len()
                    && 0 <= k < final(self).arch_out@[i].out@.len()
                    ==> !has_propagated_id(
                        old(self).edges@,
                        #[trigger] final(self).arch_out@[i].out@[k],
                    ),
            forall|i: int|
                0 <= i < final(self).propagation_table@.len()
                    ==> !has_propagated_id(
                        old(self).edges@,
                        #[trigger] final(self).propagation_table@[i].edge,
                    ),
    {
        let ghost s0 = *self;
        let ghost e0 = s0.edges@;
        // split the edge store into survivors and removed propagated ids
        let mut kept: Vec<Edge> = Vec::new();
        let mut removed: Vec<EdgeId> = Vec::new();
        let ghost mut j: int = 0;
        while self.edges.len() > 0
            invariant
                0 <= j <= e0.len(),
                self.edges@ == e0.skip(j),
                kept@ == purge_propagated(e0.take(j)),
                forall|x: EdgeId|
                    removed@.contains(x) <==> has_propagated_id(e0.take(j), x),
                self.nodes@ == s0.nodes@,
                self.impl_out@ == s0.impl_out@,
                self.arch_out@ == s0.arch_out@,
                self.maps_to@ == s0.maps_to@,
                self.propagation_table@ == s0.propagation_table@,
                self.next_node_id == s0.next_node_id,
                self.next_edge_id == s0.next_edge_id,
            decreases self.edges@.len(),
        {
            let e = self.edges.remove(0);
            let is_prop = matches!(e.subgraph, SubgraphKind::Propagated);
            let ghost r0 = removed@;
            proof {
                assert(e == e0[j]);
                assert(self.edges@ =~= e0.skip(j + 1));
                let pre = e0.take(j);
                let post = e0.take(j + 1);
                assert(post =~= pre.push(e0[j]));
                lemma_purge_propagated_push(pre, e0[j]);
                lemma_has_prop_push(pre, e0[j]);
            }
            if is_prop {
                removed.push(e.id);
            } else {
                kept.push(e);
            }
            proof {
                let pre = e0.take(j);
                let post = e0.take(j + 1);
                assert(post =~= pre.push(e0[j]));
                assert forall|x: EdgeId|
                    removed@.contains(x) <==> has_propagated_id(post, x) by {
                    assert(has_propagated_id(pre.push(e0[j]), x)
                        <==> (has_propagated_id(pre, x)
                            || (e0[j].subgraph == SubgraphKind::Propagated
                                && e0[j].id == x)));
                    if is_prop {
                        assert(removed@ == r0.push(e.id));
                        if removed@.contains(x) {
                            let k = choose|k: int|
                                0 <= k < removed@.len() && removed@[k] == x;
                            if k < r0.len() {
                                assert(r0[k] == x);
                                assert(r0.contains(x));
                            } else {
                                assert(x == e.id);
                            }
                        }
                        if has_propagated_id(pre, x) {
                            assert(r0.contains(x));
                            lemma_push_contains(r0, e.id, x);
                        }
                        if e0[j].subgraph == SubgraphKind::Propagated && e0[j].id == x {
                            lemma_push_contains_self(r0, e.id);
                        }
                    } else {
                        assert(removed@ == r0);
                    }
                }
                j = j + 1;
            }
        }
        proof {
            assert(j == e0.len());
            assert(e0.take(j) =~= e0);
        }
        self.edges = kept;
        // scrub both adjacency indices
        adj_purge(&mut self.impl_out, &removed, Ghost(e0));
        adj_purge(&mut self.arch_out, &removed, Ghost(e0));
        // drop propagation-table entries keyed by a removed id
        let ghost t0 = s0.propagation_table@;
        let mut kept_t: Vec<SupportEntry> = Vec::new();
        let ghost mut jt: int = 0;
        while self.propagation_table.len() > 0
            invariant
                0 <= jt <= t0.len(),
                self.propagation_table@ == t0.skip(jt),
                kept_t@ == purge_table(t0.take(jt), e0),
                forall|x: EdgeId| removed@.contains(x) <==> has_propagated_id(e0, x),
                self.nodes@ == s0.nodes@,
                self.edges@ == purge_propagated(e0),
                self.impl_out@.len() == s0.impl_out@.len(),
                self.arch_out@.len() == s0.arch_out@.len(),
                forall|i: int|
                    0 <= i < s0.impl_out@.len()
                        ==> #[trigger] self.impl_out@[i].node == s0.impl_out@[i].node,
                forall|i: int|
                    0 <= i < s0.arch_out@.len()
                        ==> #[trigger] self.arch_out@[i].node == s0.arch_out@[i].node,
                forall|i: int|
                    0 <= i < s0.impl_out@.len()
                        ==> #[trigger] self.impl_out@[i].out@
                            == purge_ids(s0.impl_out@[i].out@, e0),
                forall|i: int|
                    0 <= i < s0.arch_out@.len()
                        ==> #[trigger] self.arch_out@[i].out@
                            == purge_ids(s0.arch_out@[i].out@, e0),
                self.maps_to@ == s0.maps_to@,
                self.next_node_id == s0.next_node_id,
                self.next_edge_id == s0.next_edge_id,
            decreases self.propagation_table@.len(),
        {
            let ent = self.propagation_table.remove(0);
            proof {
                assert(ent == t0[jt]);
                assert(self.propagation_table@ =~= t0.skip(jt + 1));
                let pre = t0.take(jt);
                let post = t0.take(jt + 1);
                assert(post =~= pre.push(t0[jt]));
                lemma_purge_table_push(pre, e0, t0[jt]);
            }
            let drop_it = contains_eid(&removed, ent.edge);
            if !drop_it {
                kept_t.push(ent);
            }
            proof {
                jt = jt + 1;
            }
        }
        proof {
            assert(jt == t0.len());
            assert(t0.take(jt) =~= t0);
        }
        self.propagation_table = kept_t;
        proof {
            let e1 = self.edges@;
            lemma_purge_propagated_props(e0);
            lemma_purge_propagated_sorted(e0);
            // surviving edges keep their bounds and endpoints
            assert forall|i: int| 0 <= i < e1.len()
                implies 1 <= #[trigger] e1[i].id < self.next_edge_id
                    && has_node_id(self.nodes@, e1[i].from)
                    && has_node_id(self.nodes@, e1[i].to) by {
                assert(e1.contains(e1[i]));
                assert(e0.contains(e1[i]));
                let w = choose|w: int| 0 <= w < e0.len() && e0[w] == e1[i];
                assert(1 <= e0[w].id < s0.next_edge_id);
                assert(has_node_id(s0.nodes@, e0[w].from));
                assert(has_node_id(s0.nodes@, e0[w].to));
            }
            lemma_adj_ok_after_purge(s0.impl_out@, self.impl_out@, e0, false);
            lemma_adj_ok_after_purge(s0.arch_out@, self.arch_out@, e0, true);
            // surviving table entries stay distinct and backed
            lemma_purge_table_props(t0, e0);
            lemma_purge_table_distinct(t0, e0);
            let t1v = self.propagation_table@;
            assert forall|i: int| 0 <= i < t1v.len()
                implies #[trigger] table_key_backed(t1v, e1, i) by {
                assert(t1v.contains(t1v[i]));
                assert(t0.contains(t1v[i]));
                assert(!has_propagated_id(e0, t1v[i].edge));
                let w = choose|w: int| 0 <= w < t0.len() && t0[w] == t1v[i];
                assert(table_key_backed(t0, e0, w));
                let ed = choose|ed: int|
                    0 <= ed < e0.len() && e0[ed].id == t0[w].edge
                        && on_arch_side(e0[ed].subgraph);
                if e0[ed].subgraph == SubgraphKind::Propagated {
                    assert(has_propagated_id(e0, t1v[i].edge));
                }
                assert(e0.contains(e0[ed]));
                assert(e1.contains(e0[ed]));
                let w2 = choose|w2: int| 0 <= w2 < e1.len() && e1[w2] == e0[ed];
                assert(e1[w2].id == t1v[i].edge && on_arch_side(e1[w2].subgraph));
            }
            // no removed id survives in either adjacency index
            assert forall|i: int, k: int|
                0 <= i < self.impl_out@.len() && 0 <= k < self.impl_out@[i].out@.len()
                implies !has_propagated_id(e0, #[trigger] self.impl_out@[i].out@[k]) by {
                lemma_purge_ids_props(s0.impl_out@[i].out@, e0);
            }
            assert forall|i: int, k: int|
                0 <= i < self.arch_out@.len() && 0 <= k < self.arch_out@[i].out@.len()
                implies !has_propagated_id(e0, #[trigger] self.arch_out@[i].out@[k]) by {
                lemma_purge_ids_props(s0.arch_out@[i].out@, e0);
            }
            assert(self.wf());
        }
    }
}

/// Index of the adjacency entry keyed by node `n`, if any.
fn find_adj_index(adj: &Vec<OutEntry>, n: NodeId) -> (r: Option<usize>)
    ensures
        match r {
            Some(i) => i < adj@.len() && adj@[i as int].node == n,
            None => !adj_has_key(adj@, n),
        },
{
    let mut i: usize = 0;
    while i < adj.len()
        invariant
            i <= adj@.len(),
            forall|j: int| 0 <= j < i ==> #[trigger] adj@[j].node != n,
        decreases adj@.len() - i,
    {
        if adj[i].node == n {
            return Some(i);
        }
        i = i + 1;
    }
    None
}

/// Looks up the recorded outgoing edges of node `n` in one adjacency index.
fn adj_lookup(adj: &Vec<OutEntry>, n: NodeId) -> (r: Option<&Vec<EdgeId>>)
    requires
        adj_keys_unique(adj@),
    ensures
        match r {
            Some(v) => adj_has_key(adj@, n) && v@ == adj_at(adj@, n),
            None => !adj_has_key(adj@, n),
        },
{
    match find_adj_index(adj, n) {
        Some(i) => {
            proof {
                lemma_adj_entry_at(adj@, i as int);
            }
            Some(&adj[i].out)
        },
        None => None,
    }
}

/// The node record `rec` with the store-assigned identifier `id` in place
/// of the caller-supplied placeholder.
pub open spec fn node_assigned(rec: Node, id: NodeId) -> Node {
    Node {
        id: id,
        name: rec.name,
        subgraph: rec.subgraph,
        parent: rec.parent,
        children: rec.children,
    }
}

/// Success transition of `add_node`: the fresh node is appended, the node
/// counter advances, and — when a parent is declared — exactly that
/// parent's children list grows by the fresh id. Everything else is
/// untouched.
pub open spec fn add_node_updates(
    s0: ReflexionGraph,
    s1: ReflexionGraph,
    rec: Node,
    id: NodeId,
) -> bool {
    &&& id == s0.next_node_id
    &&& s1.next_node_id == id + 1
    &&& s1.next_edge_id == s0.next_edge_id
    &&& s1.edges@ == s0.edges@
    &&& s1.impl_out@ == s0.impl_out@
    &&& s1.arch_out@ == s0.arch_out@
    &&& s1.maps_to@ == s0.maps_to@
    &&& s1.propagation_table@ == s0.propagation_table@
    &&& if rec.parent is None {
        s1.nodes@ == s0.nodes@.push(node_assigned(rec, id))
    } else {
        let pi = node_index_of(s0.nodes@, rec.parent->0);
        &&& s1.nodes@.len() == s0.nodes@.len() + 1
        &&& s1.nodes@[s0.nodes@.len() as int] == node_assigned(rec, id)
        &&& forall|j: int|
            0 <= j < s0.nodes@.len() && j != pi ==> s1.nodes@[j] == s0.nodes@[j]
        &&& s1.nodes@[pi].id == s0.nodes@[pi].id
        &&& s1.nodes@[pi].name == s0.nodes@[pi].name
        &&& s1.nodes@[pi].subgraph == s0.nodes@[pi].subgraph
        &&& s1.nodes@[pi].parent == s0.nodes@[pi].parent
        &&& s1.nodes@[pi].children@ == s0.nodes@[pi].children@.push(id)
    }
}

/// Membership in a sequence survives a push.
proof fn lemma_push_contains<A>(s: Seq<A>, x: A, y: A)
    requires
        s.contains(y),
    ensures
        s.push(x).contains(y),
{
    let k = choose|k: int| 0 <= k < s.len() && s[k] == y;
    assert(s.push(x)[k] == y);
}

/// A push makes the pushed element a member.
proof fn lemma_push_contains_self<A>(s: Seq<A>, x: A)
    ensures
        s.push(x).contains(x),
{
    assert(s.push(x)[s.len() as int] == x);
}

/// Node-id membership transfers to any sequence that keeps the original
/// ids at their positions.
proof fn lemma_has_node_id_monotone(n: Seq<Node>, n1: Seq<Node>)
    requires
        n1.len() >= n.len(),
        forall|j: int| 0 <= j < n.len() ==> #[trigger] n1[j].id == n[j].id,
    ensures
        forall|x: NodeId| has_node_id(n, x) ==> has_node_id(n1, x),
{
    assert forall|x: NodeId| has_node_id(n, x) implies has_node_id(n1, x) by {
        let w = choose|w: int| 0 <= w < n.len() && n[w].id == x;
        assert(n1[w].id == x);
    }
}

/// Appending a root node (no declared parent) preserves well-formedness.
proof fn lemma_add_node_root_wf(s0: ReflexionGraph, s1: ReflexionGraph, rec: Node, id: NodeId)
    requires
        s0.wf(),
        rec.children@.len() == 0,
        rec.parent is None,
        id == s0.next_node_id,
        id < u32::MAX,
        s1.nodes@ == s0.nodes@.push(node_assigned(rec, id)),
        s1.next_node_id == id + 1,
        s1.next_edge_id == s0.next_edge_id,
        s1.edges@ == s0.edges@,
        s1.impl_out@ == s0.impl_out@,
        s1.arch_out@ == s0.arch_out@,
        s1.maps_to@ == s0.maps_to@,
        s1.propagation_table@ == s0.propagation_table@,
    ensures
        s1.wf(),
{
    let n = s0.nodes@;
    let n1 = s1.nodes@;
    let len = n.len() as int;
    assert(forall|j: int| 0 <= j < len ==> #[trigger] n1[j] == n[j]);
    lemma_has_node_id_monotone(n, n1);
    assert forall|i: int, k: int|
        0 <= i < n1.len() && 0 <= k < n1[i].children@.len()
        implies #[trigger] child_backed(n1, i, k) by {
        assert(i < len);
        assert(child_backed(n, i, k));
        let j = choose|j: int|
            0 <= j < n.len() && n[j].id == n[i].children@[k]
                && n[j].parent == Some(n[i].id);
        assert(n1[j] == n[j]);
        assert(n1[j].id == n1[i].children@[k] && n1[j].parent == Some(n1[i].id));
    }
    assert forall|j: int|
        0 <= j < n1.len() && #[trigger] n1[j].parent is Some
        implies parent_listed(n1, j) by {
        assert(j < len);
        assert(parent_listed(n, j));
        let q = n[j].parent->0;
        let qi = node_index_of(n, q);
        assert(0 <= qi < len && n[qi].id == q);
        assert(n1[qi].id == q);
        assert forall|a: int, b: int| 0 <= a < b < n1.len()
            implies #[trigger] n1[a].id < #[trigger] n1[b].id by {
            if b < len {
                assert(n[a].id < n[b].id);
            } else {
                assert(n[a].id < s0.next_node_id);
            }
        }
        lemma_node_at_index(n1, qi);
        assert(n1[node_index_of(n1, q)].children@.contains(n1[j].id));
    }
}

/// Appending a child node and recording it in its parent's children list
/// preserves well-formedness.
proof fn lemma_add_node_with_parent_wf(
    s0: ReflexionGraph,
    s1: ReflexionGraph,
    rec: Node,
    id: NodeId,
    pi: int,
)
    requires
        s0.wf(),
        rec.children@.len() == 0,
        rec.parent is Some,
        has_node_id(s0.nodes@, rec.parent->0),
        pi == node_index_of(s0.nodes@, rec.parent->0),
        id == s0.next_node_id,
        id < u32::MAX,
        s1.nodes@.len() == s0.nodes@.len() + 1,
        s1.nodes@[s0.nodes@.len() as int] == node_assigned(rec, id),
        forall|j: int|
            0 <= j < s0.nodes@.len() && j != pi ==> s1.nodes@[j] == s0.nodes@[j],
        s1.nodes@[pi].id == s0.nodes@[pi].id,
        s1.nodes@[pi].name == s0.nodes@[pi].name,
        s1.nodes@[pi].subgraph == s0.nodes@[pi].subgraph,
        s1.nodes@[pi].parent == s0.nodes@[pi].parent,
        s1.nodes@[pi].children@ == s0.nodes@[pi].children@.push(id),
        s1.next_node_id == id + 1,
        s1.next_edge_id == s0.next_edge_id,
        s1.edges@ == s0.edges@,
        s1.impl_out@ == s0.impl_out@,
        s1.arch_out@ == s0.arch_out@,
        s1.maps_to@ == s0.maps_to@,
        s1.propagation_table@ == s0.propagation_table@,
    ensures
        s1.wf(),
{
    let n = s0.nodes@;
    let n1 = s1.nodes@;
    let len = n.len() as int;
    let p = rec.parent->0;
    assert(0 <= pi < len && n[pi].id == p);
    assert(forall|j: int| 0 <= j < len ==> #[trigger] n1[j].id == n[j].id);
    lemma_has_node_id_monotone(n, n1);
    // storage order still strictly increasing
    assert forall|a: int, b: int| 0 <= a < b < n1.len()
        implies #[trigger] n1[a].id < #[trigger] n1[b].id by {
        if b < len {
            assert(n[a].id < n[b].id);
        } else {
            assert(n[a].id < s0.next_node_id);
        }
    }
    // ids of listed children are stored node ids, hence below the fresh id
    assert forall|k: int| 0 <= k < n[pi].children@.len()
        implies #[trigger] n[pi].children@[k] != id by {
        assert(child_backed(n, pi, k));
        let j = choose|j: int|
            0 <= j < n.len() && n[j].id == n[pi].children@[k]
                && n[j].parent == Some(n[pi].id);
        assert(n[j].id < s0.next_node_id);
    }
    // children lists stay duplicate-free
    assert forall|i: int, k1: int, k2: int|
        0 <= i < n1.len() && 0 <= k1 < k2 < n1[i].children@.len()
        implies #[trigger] n1[i].children@[k1] != #[trigger] n1[i].children@[k2] by {
        if i == len {
            assert(n1[i].children@.len() == 0);
        } else if i == pi {
            if k2 < n[pi].children@.len() {
                assert(n[pi].children@[k1] != n[pi].children@[k2]);
            } else {
                assert(n1[i].children@[k2] == id);
                assert(n[pi].children@[k1] != id);
            }
        } else {
            assert(n1[i] == n[i]);
            assert(n[i].children@[k1] != n[i].children@[k2]);
        }
    }
    // every listed child is still backed
    assert forall|i: int, k: int|
        0 <= i < n1.len() && 0 <= k < n1[i].children@.len()
        implies #[trigger] child_backed(n1, i, k) by {
        if i == len {
            assert(false);
        } else if i == pi && k == n[pi].children@.len() {
            assert(n1[i].children@[k] == id);
            assert(n1[len].id == id && n1[len].parent == Some(p));
            assert(n1[pi].id == p);
        } else {
            assert(n1[i].children@[k] == n[i].children@[k]);
            assert(child_backed(n, i, k));
            let j = choose|j: int|
                0 <= j < n.len() && n[j].id == n[i].children@[k]
                    && n[j].parent == Some(n[i].id);
            assert(n1[j].id == n[j].id);
            assert(n1[j].parent == n[j].parent);
            assert(n1[j].id == n1[i].children@[k] && n1[j].parent == Some(n1[i].id));
        }
    }
    // every parent link is still listed
    assert forall|j: int|
        0 <= j < n1.len() && #[trigger] n1[j].parent is Some
        implies parent_listed(n1, j) by {
        if j == len {
            assert(n1[j].parent == Some(p));
            lemma_node_at_index(n1, pi);
            assert(node_index_of(n1, p) == pi);
            lemma_push_contains_self(n[pi].children@, id);
            assert(n1[pi].children@.contains(id));
            assert(n1[j].id == id);
        } else {
            assert(n1[j].parent == n[j].parent);
            assert(parent_listed(n, j));
            let q = n[j].parent->0;
            let qi = node_index_of(n, q);
            assert(0 <= qi < len && n[qi].id == q);
            assert(n1[qi].id == q);
            lemma_node_at_index(n1, qi);
            assert(node_index_of(n1, q) == qi);
            assert(n[qi].children@.contains(n[j].id));
            if qi == pi {
                lemma_push_contains(n[pi].children@, id, n[j].id);
                assert(n1[qi].children@.contains(n1[j].id));
            } else {
                assert(n1[qi] == n[qi]);
                assert(n1[qi].children@.contains(n1[j].id));
            }
        }
    }
}

/// Under pairwise-distinct node ids, the node at index `i` is the one
/// `node_index_of` finds for its id.
proof fn lemma_node_at_index(s: Seq<Node>, i: int)
    requires
        forall|a: int, b: int|
            0 <= a < b < s.len() ==> #[trigger] s[a].id < #[trigger] s[b].id,
        0 <= i < s.len(),
    ensures
        has_node_id(s, s[i].id),
        node_index_of(s, s[i].id) == i,
{
    assert(has_node_id(s, s[i].id));
    let j = node_index_of(s, s[i].id);
    assert(0 <= j < s.len() && s[j].id == s[i].id);
    if i < j {
        assert(s[i].id < s[j].id);
    } else if j < i {
        assert(s[j].id < s[i].id);
    }
}

/// The edge record `rec` with the store-assigned identifier `id` in place
/// of the caller-supplied placeholder.
pub open spec fn edge_assigned(rec: Edge, id: EdgeId) -> Edge {
    Edge {
        id: id,
        from: rec.from,
        to: rec.to,
        kind: rec.kind,
        subgraph: rec.subgraph,
        state: rec.state,
        counter: rec.counter,
    }
}

/// Success transition of `add_edge`: the fresh edge is appended, the edge
/// counter advances, and the fresh id is appended to the
/// subgraph-appropriate adjacency index at the edge's source node.
/// Everything else is untouched.
pub open spec fn add_edge_updates(
    s0: ReflexionGraph,
    s1: ReflexionGraph,
    rec: Edge,
    id: EdgeId,
) -> bool {
    &&& id == s0.next_edge_id
    &&& s1.next_edge_id == id + 1
    &&& s1.next_node_id == s0.next_node_id
    &&& s1.nodes@ == s0.nodes@
    &&& s1.maps_to@ == s0.maps_to@
    &&& s1.propagation_table@ == s0.propagation_table@
    &&& s1.edges@ == s0.edges@.push(edge_assigned(rec, id))
    &&& if rec.subgraph == SubgraphKind::Implementation {
        &&& adj_at(s1.impl_out@, rec.from) == adj_at(s0.impl_out@, rec.from).push(id)
        &&& forall|m: NodeId|
            m != rec.from ==> adj_at(s1.impl_out@, m) == adj_at(s0.impl_out@, m)
        &&& s1.arch_out@ == s0.arch_out@
    } else {
        &&& adj_at(s1.arch_out@, rec.from) == adj_at(s0.arch_out@, rec.from).push(id)
        &&& forall|m: NodeId|
            m != rec.from ==> adj_at(s1.arch_out@, m) == adj_at(s0.arch_out@, m)
        &&& s1.impl_out@ == s0.impl_out@
    }
}

/// The canonical pre-analysis state of an edge's classification field:
/// `Specified` marks an architecture edge as "comparison pending", all
/// other edges start `Undefined`.
pub open spec fn reset_state_for(sg: SubgraphKind) -> EdgeState {
    if sg == SubgraphKind::Architecture {
        EdgeState::Specified
    } else {
        EdgeState::Undefined
    }
}

/// The edge `e` with its classification and counter put back into the
/// canonical pre-analysis state; identity, endpoints, kind and subgraph
/// are untouched.
pub open spec fn edge_reset(e: Edge) -> Edge {
    Edge {
        id: e.id,
        from: e.from,
        to: e.to,
        kind: e.kind,
        subgraph: e.subgraph,
        state: reset_state_for(e.subgraph),
        counter: 0,
    }
}

/// Resetting states and counters preserves well-formedness: nothing the
/// invariants read is changed except the emptied propagation table.
proof fn lemma_reset_wf(s0: ReflexionGraph, s1: ReflexionGraph)
    requires
        s0.wf(),
        s1.edges@.len() == s0.edges@.len(),
        forall|i: int|
            0 <= i < s0.edges@.len() ==> s1.edges@[i] == edge_reset(s0.edges@[i]),
        s1.propagation_table@.len() == 0,
        s1.nodes@ == s0.nodes@,
        s1.impl_out@ == s0.impl_out@,
        s1.arch_out@ == s0.arch_out@,
        s1.maps_to@ == s0.maps_to@,
        s1.next_node_id == s0.next_node_id,
        s1.next_edge_id == s0.next_edge_id,
    ensures
        s1.wf(),
{
    let e0 = s0.edges@;
    let e1 = s1.edges@;
    assert(forall|i: int| 0 <= i < e0.len() ==> #[trigger] e1[i].id == e0[i].id);
    assert(forall|i: int| 0 <= i < e0.len() ==> #[trigger] e1[i].from == e0[i].from);
    assert(forall|i: int| 0 <= i < e0.len() ==> #[trigger] e1[i].to == e0[i].to);
    assert(forall|i: int|
        0 <= i < e0.len() ==> #[trigger] e1[i].subgraph == e0[i].subgraph);
    lemma_adj_ok_fieldwise(s0.impl_out@, e0, e1, false);
    lemma_adj_ok_fieldwise(s0.arch_out@, e0, e1, true);
}

/// Adjacency coherence only reads edge identities, sources and subgraphs,
/// so it survives any rewrite that keeps those fields.
proof fn lemma_adj_ok_fieldwise(t: Seq<OutEntry>, e0: Seq<Edge>, e1: Seq<Edge>, arch_side: bool)
    requires
        adj_ok(t, e0, arch_side),
        e1.len() == e0.len(),
        forall|i: int| 0 <= i < e0.len() ==> #[trigger] e1[i].id == e0[i].id,
        forall|i: int| 0 <= i < e0.len() ==> #[trigger] e1[i].from == e0[i].from,
        forall|i: int| 0 <= i < e0.len() ==> #[trigger] e1[i].subgraph == e0[i].subgraph,
    ensures
        adj_ok(t, e1, arch_side),
{
    assert forall|i: int, k: int|
        0 <= i < t.len() && 0 <= k < t[i].out@.len()
        implies #[trigger] adj_slot_backed(t, e1, arch_side, i, k) by {
        assert(adj_slot_backed(t, e0, arch_side, i, k));
        let e = choose|e: int|
            0 <= e < e0.len() && e0[e].id == t[i].out@[k] && e0[e].from == t[i].node
                && edge_routed_to(e0[e], arch_side);
        assert(e1[e].id == t[i].out@[k] && e1[e].from == t[i].node
            && edge_routed_to(e1[e], arch_side));
    }
    assert forall|e: int|
        0 <= e < e1.len() && edge_routed_to(#[trigger] e1[e], arch_side)
        implies adj_at(t, e1[e].from).contains(e1[e].id) by {
        assert(edge_routed_to(e0[e], arch_side));
        assert(adj_at(t, e0[e].from).contains(e0[e].id));
    }
}

/// Under unique keys, the entry at index `i` is the one `adj_at` reads for
/// its key.
proof fn lemma_adj_entry_at(adj: Seq<OutEntry>, i: int)
    requires
        adj_keys_unique(adj),
        0 <= i < adj.len(),
    ensures
        adj_has_key(adj, adj[i].node),
        adj_index_of(adj, adj[i].node) == i,
        adj_at(adj, adj[i].node) == adj[i].out@,
{
    assert(adj_has_key(adj, adj[i].node));
    let j = adj_index_of(adj, adj[i].node);
    assert(0 <= j < adj.len() && adj[j].node == adj[i].node);
    if i < j {
        assert(adj[i].node != adj[j].node);
    } else if j < i {
        assert(adj[j].node != adj[i].node);
    }
}

/// Appends edge id `eid` to the adjacency slot of node `n`, creating the
/// slot when none exists yet.
fn adj_push(adj: &mut Vec<OutEntry>, n: NodeId, eid: EdgeId)
    requires
        adj_keys_unique(old(adj)@),
    ensures
        adj_keys_unique(final(adj)@),
        adj_at(final(adj)@, n) == adj_at(old(adj)@, n).push(eid),
        forall|m: NodeId| m != n ==> adj_at(final(adj)@, m) == adj_at(old(adj)@, m),
        forall|m: NodeId|
            adj_has_key(final(adj)@, m) <==> (adj_has_key(old(adj)@, m) || m == n),
{
    let ghost t0 = adj@;
    match find_adj_index(adj, n) {
        Some(i) => {
            proof {
                lemma_adj_entry_at(t0, i as int);
            }
            let eref = &mut adj[i];
            eref.out.push(eid);
            proof {
                let t1 = adj@;
                assert(t1.len() == t0.len());
                assert(forall|j: int|
                    0 <= j < t0.len() && j != i ==> #[trigger] t1[j] == t0[j]);
                assert(t1[i as int].node == n);
                assert(t1[i as int].out@ == t0[i as int].out@.push(eid));
                assert(forall|j: int|
                    0 <= j < t0.len() ==> #[trigger] t1[j].node == t0[j].node);
                lemma_adj_entry_at(t1, i as int);
                assert forall|m: NodeId| m != n
                    implies adj_at(t1, m) == adj_at(t0, m) by {
                    if adj_has_key(t0, m) {
                        let j = adj_index_of(t0, m);
                        lemma_adj_entry_at(t0, j);
                        assert(t1[j].node == m);
                        lemma_adj_entry_at(t1, j);
                        assert(t1[j] == t0[j]);
                    } else {
                        assert(!adj_has_key(t1, m));
                    }
                }
                assert forall|m: NodeId|
                    adj_has_key(t1, m) <==> (adj_has_key(t0, m) || m == n) by {
                    if adj_has_key(t1, m) {
                        let j = adj_index_of(t1, m);
                        assert(t0[j].node == m);
                    }
                    if adj_has_key(t0, m) {
                        let j = adj_index_of(t0, m);
                        assert(t1[j].node == m);
                    }
                }
            }
        },
        None => {
            let mut v: Vec<EdgeId> = Vec::new();
            v.push(eid);
            adj.push(OutEntry { node: n, out: v });
            proof {
                let t1 = adj@;
                let len = t0.len() as int;
                assert(t1.len() == len + 1);
                assert(forall|j: int| 0 <= j < len ==> #[trigger] t1[j] == t0[j]);
                assert(t1[len].node == n && t1[len].out@ == Seq::<EdgeId>::empty().push(eid));
                assert forall|a: int, b: int| 0 <= a < b < t1.len()
                    implies #[trigger] t1[a].node != #[trigger] t1[b].node by {
                    if b < len {
                        assert(t0[a].node != t0[b].node);
                    } else {
                        assert(t1[b].node == n);
                        assert(t0[a].node != n);
                    }
                }
                lemma_adj_entry_at(t1, len);
                assert(adj_at(t1, n) == adj_at(t0, n).push(eid));
                assert forall|m: NodeId| m != n
                    implies adj_at(t1, m) == adj_at(t0, m) by {
                    if adj_has_key(t0, m) {
                        let j = adj_index_of(t0, m);
                        lemma_adj_entry_at(t0, j);
                        assert(t1[j].node == m);
                        lemma_adj_entry_at(t1, j);
                    } else {
                        if adj_has_key(t1, m) {
                            let j = adj_index_of(t1, m);
                            assert(0 <= j < t1.len() && t1[j].node == m);
                            assert(j != len);
                            assert(t0[j].node == m);
                            assert(false);
                        }
                    }
                }
                assert forall|m: NodeId|
                    adj_has_key(t1, m) <==> (adj_has_key(t0, m) || m == n) by {
                    if adj_has_key(t1, m) && m != n {
                        let j = adj_index_of(t1, m);
                        assert(j != len);
                        assert(t0[j].node == m);
                    }
                    if adj_has_key(t0, m) {
                        let j = adj_index_of(t0, m);
                        assert(t1[j].node == m);
                    }
                }
            }
        },
    }
}

/// Appending an edge routed to the other index leaves one adjacency index
/// well-formed.
proof fn lemma_adj_ok_after_edge_append(
    t: Seq<OutEntry>,
    e0: Seq<Edge>,
    e1: Seq<Edge>,
    arch_side: bool,
    newe: Edge,
)
    requires
        adj_ok(t, e0, arch_side),
        e1 == e0.push(newe),
        !edge_routed_to(newe, arch_side),
    ensures
        adj_ok(t, e1, arch_side),
{
    assert forall|i: int, k: int|
        0 <= i < t.len() && 0 <= k < t[i].out@.len()
        implies #[trigger] adj_slot_backed(t, e1, arch_side, i, k) by {
        assert(adj_slot_backed(t, e0, arch_side, i, k));
        let e = choose|e: int|
            0 <= e < e0.len() && e0[e].id == t[i].out@[k] && e0[e].from == t[i].node
                && edge_routed_to(e0[e], arch_side);
        assert(e1[e] == e0[e]);
    }
    assert forall|e: int|
        0 <= e < e1.len() && edge_routed_to(#[trigger] e1[e], arch_side)
        implies adj_at(t, e1[e].from).contains(e1[e].id) by {
        assert(e < e0.len());
        assert(e1[e] == e0[e]);
    }
}

/// Appending an edge and recording its id at its source keeps the
/// receiving adjacency index well-formed.
proof fn lemma_adj_ok_after_push(
    t0: Seq<OutEntry>,
    t1: Seq<OutEntry>,
    e0: Seq<Edge>,
    e1: Seq<Edge>,
    arch_side: bool,
    newe: Edge,
    id: EdgeId,
)
    requires
        adj_ok(t0, e0, arch_side),
        adj_keys_unique(t1),
        e1 == e0.push(newe),
        newe.id == id,
        edge_routed_to(newe, arch_side),
        forall|i: int| 0 <= i < e0.len() ==> #[trigger] e0[i].id < id,
        adj_at(t1, newe.from) == adj_at(t0, newe.from).push(id),
        forall|m: NodeId| m != newe.from ==> adj_at(t1, m) == adj_at(t0, m),
    ensures
        adj_ok(t1, e1, arch_side),
{
    // every old slot holds an id below the fresh one
    assert forall|m: NodeId, k: int|
        0 <= k < adj_at(t0, m).len()
        implies #[trigger] adj_at(t0, m)[k] < id by {
        assert(adj_has_key(t0, m));
        let i = adj_index_of(t0, m);
        lemma_adj_entry_at(t0, i);
        assert(adj_slot_backed(t0, e0, arch_side, i, k));
        let e = choose|e: int|
            0 <= e < e0.len() && e0[e].id == t0[i].out@[k] && e0[e].from == t0[i].node
                && edge_routed_to(e0[e], arch_side);
        assert(e0[e].id < id);
    }
    // duplicate-free slots
    assert forall|i: int, k1: int, k2: int|
        0 <= i < t1.len() && 0 <= k1 < k2 < t1[i].out@.len()
        implies #[trigger] t1[i].out@[k1] != #[trigger] t1[i].out@[k2] by {
        let m = t1[i].node;
        lemma_adj_entry_at(t1, i);
        if m == newe.from {
            let s = adj_at(t0, m);
            assert(t1[i].out@ == s.push(id));
            if k2 < s.len() {
                assert(adj_has_key(t0, m));
                let i0 = adj_index_of(t0, m);
                lemma_adj_entry_at(t0, i0);
                assert(t0[i0].out@[k1] != t0[i0].out@[k2]);
            } else {
                assert(t1[i].out@[k2] == id);
                assert(s[k1] < id);
            }
        } else {
            assert(t1[i].out@ == adj_at(t0, m));
            assert(adj_has_key(t0, m));
            let i0 = adj_index_of(t0, m);
            lemma_adj_entry_at(t0, i0);
            assert(t0[i0].out@[k1] != t0[i0].out@[k2]);
        }
    }
    // every listed id is backed
    assert forall|i: int, k: int|
        0 <= i < t1.len() && 0 <= k < t1[i].out@.len()
        implies #[trigger] adj_slot_backed(t1, e1, arch_side, i, k) by {
        let m = t1[i].node;
        lemma_adj_entry_at(t1, i);
        let s = adj_at(t0, m);
        if m == newe.from && k == s.len() {
            assert(t1[i].out@ == s.push(id));
            assert(t1[i].out@[k] == id);
            let w = e0.len() as int;
            assert(e1[w] == newe);
            assert(e1[w].id == t1[i].out@[k] && e1[w].from == t1[i].node
                && edge_routed_to(e1[w], arch_side));
        } else {
            if m == newe.from {
                assert(t1[i].out@ == s.push(id));
                assert(t1[i].out@[k] == s[k]);
            } else {
                assert(t1[i].out@ == s);
            }
            assert(0 <= k < s.len());
            assert(adj_has_key(t0, m));
            let i0 = adj_index_of(t0, m);
            lemma_adj_entry_at(t0, i0);
            assert(adj_slot_backed(t0, e0, arch_side, i0, k));
            let e = choose|e: int|
                0 <= e < e0.len() && e0[e].id == t0[i0].out@[k]
                    && e0[e].from == t0[i0].node && edge_routed_to(e0[e], arch_side);
            assert(e1[e] == e0[e]);
            assert(e1[e].id == t1[i].out@[k] && e1[e].from == t1[i].node
                && edge_routed_to(e1[e], arch_side));
        }
    }
    // every routed edge is listed at its source
    assert forall|e: int|
        0 <= e < e1.len() && edge_routed_to(#[trigger] e1[e], arch_side)
        implies adj_at(t1, e1[e].from).contains(e1[e].id) by {
        if e < e0.len() {
            assert(e1[e] == e0[e]);
            assert(adj_at(t0, e0[e].from).contains(e0[e].id));
            if e0[e].from == newe.from {
                lemma_push_contains(adj_at(t0, newe.from), id, e0[e].id);
            }
        } else {
            assert(e1[e] == newe);
            lemma_push_contains_self(adj_at(t0, newe.from), id);
        }
    }
}

/// The success transition of `add_edge` preserves well-formedness.
proof fn lemma_add_edge_wf(s0: ReflexionGraph, s1: ReflexionGraph, rec: Edge, id: EdgeId)
    requires
        s0.wf(),
        has_node_id(s0.nodes@, rec.from),
        has_node_id(s0.nodes@, rec.to),
        id == s0.next_edge_id,
        id < u32::MAX,
        add_edge_updates(s0, s1, rec, id),
        adj_keys_unique(s1.impl_out@),
        adj_keys_unique(s1.arch_out@),
    ensures
        s1.wf(),
{
    let e0 = s0.edges@;
    let e1 = s1.edges@;
    let newe = edge_assigned(rec, id);
    assert(forall|i: int| 0 <= i < e0.len() ==> #[trigger] e1[i] == e0[i]);
    // edge ids stay strictly increasing and bounded
    assert forall|a: int, b: int| 0 <= a < b < e1.len()
        implies #[trigger] e1[a].id < #[trigger] e1[b].id by {
        if b < e0.len() {
            assert(e0[a].id < e0[b].id);
        } else {
            assert(e0[a].id < s0.next_edge_id);
        }
    }
    assert forall|i: int| 0 <= i < e1.len()
        implies has_node_id(s1.nodes@, #[trigger] e1[i].from)
            && has_node_id(s1.nodes@, e1[i].to) by {
        if i < e0.len() {
            assert(e1[i] == e0[i]);
        }
    }
    // both adjacency indices stay coherent
    if rec.subgraph == SubgraphKind::Implementation {
        lemma_adj_ok_after_push(
            s0.impl_out@,
            s1.impl_out@,
            e0,
            e1,
            false,
            newe,
            id,
        );
        lemma_adj_ok_after_edge_append(s1.arch_out@, e0, e1, true, newe);
    } else {
        lemma_adj_ok_after_push(
            s0.arch_out@,
            s1.arch_out@,
            e0,
            e1,
            true,
            newe,
            id,
        );
        lemma_adj_ok_after_edge_append(s1.impl_out@, e0, e1, false, newe);
    }
    // propagation-table keys stay backed
    assert forall|i: int| 0 <= i < s1.propagation_table@.len()
        implies #[trigger] table_key_backed(s1.propagation_table@, e1, i) by {
        assert(table_key_backed(s0.propagation_table@, e0, i));
        let e = choose|e: int|
            0 <= e < e0.len() && e0[e].id == s0.propagation_table@[i].edge
                && on_arch_side(e0[e].subgraph);
        assert(e1[e] == e0[e]);
    }
}

/// Whether the id list contains `x`.
fn contains_eid(v: &Vec<EdgeId>, x: EdgeId) -> (r: bool)
    ensures
        r == v@.contains(x),
{
    let mut i: usize = 0;
    while i < v.len()
        invariant
            i <= v@.len(),
            forall|j: int| 0 <= j < i ==> v@[j] != x,
        decreases v@.len() - i,
    {
        if v[i] == x {
            return true;
        }
        i = i + 1;
    }
    false
}

/// Rewrites every adjacency slot, dropping the ids of the removed
/// propagated edges.
fn adj_purge(adj: &mut Vec<OutEntry>, removed: &Vec<EdgeId>, Ghost(edges0): Ghost<Seq<Edge>>)
    requires
        forall|x: EdgeId| removed@.contains(x) <==> has_propagated_id(edges0, x),
    ensures
        final(adj)@.len() == old(adj)@.len(),
        forall|i: int|
            0 <= i < old(adj)@.len()
                ==> #[trigger] final(adj)@[i].node == old(adj)@[i].node,
        forall|i: int|
            0 <= i < old(adj)@.len()
                ==> #[trigger] final(adj)@[i].out@ == purge_ids(old(adj)@[i].out@, edges0),
{
    let ghost a0 = adj@;
    let mut i: usize = 0;
    while i < adj.len()
        invariant
            i <= a0.len(),
            adj@.len() == a0.len(),
            forall|q: int| i <= q < a0.len() ==> #[trigger] adj@[q] == a0[q],
            forall|q: int| 0 <= q < i ==> #[trigger] adj@[q].node == a0[q].node,
            forall|q: int|
                0 <= q < i ==> #[trigger] adj@[q].out@ == purge_ids(a0[q].out@, edges0),
            forall|x: EdgeId| removed@.contains(x) <==> has_propagated_id(edges0, x),
        decreases a0.len() - i,
    {
        let ghost slot = a0[i as int].out@;
        let mut out2: Vec<EdgeId> = Vec::new();
        let mut k: usize = 0;
        proof {
            assert(slot.take(0) =~= Seq::<EdgeId>::empty());
        }
        while k < adj[i].out.len()
            invariant
                i < adj@.len(),
                adj@.len() == a0.len(),
                forall|q: int| i <= q < a0.len() ==> #[trigger] adj@[q] == a0[q],
                forall|q: int| 0 <= q < i ==> #[trigger] adj@[q].node == a0[q].node,
                forall|q: int|
                    0 <= q < i ==> #[trigger] adj@[q].out@ == purge_ids(a0[q].out@, edges0),
                forall|x: EdgeId| removed@.contains(x) <==> has_propagated_id(edges0, x),
                slot == a0[i as int].out@,
                k <= slot.len(),
                out2@ == purge_ids(slot.take(k as int), edges0),
            decreases slot.len() - k,
        {
            let eid = adj[i].out[k];
            let drop_it = contains_eid(removed, eid);
            if !drop_it {
                out2.push(eid);
            }
            proof {
                let pre = slot.take(k as int);
                let post = slot.take(k as int + 1);
                assert(post =~= pre.push(slot[k as int]));
                lemma_purge_ids_push(pre, edges0, slot[k as int]);
            }
            k = k + 1;
        }
        proof {
            assert(slot.take(slot.len() as int) =~= slot);
        }
        let eref = &mut adj[i];
        eref.out = out2;
        i = i + 1;
    }
}

/// Rebuilding both the edge store and an adjacency index through the purge
/// keeps the index coherent.
proof fn lemma_adj_ok_after_purge(
    t0: Seq<OutEntry>,
    t1: Seq<OutEntry>,
    e0: Seq<Edge>,
    arch_side: bool,
)
    requires
        adj_ok(t0, e0, arch_side),
        forall|a: int, b: int|
            0 <= a < b < e0.len() ==> #[trigger] e0[a].id < #[trigger] e0[b].id,
        t1.len() == t0.len(),
        forall|i: int| 0 <= i < t0.len() ==> #[trigger] t1[i].node == t0[i].node,
        forall|i: int|
            0 <= i < t0.len() ==> #[trigger] t1[i].out@ == purge_ids(t0[i].out@, e0),
    ensures
        adj_ok(t1, purge_propagated(e0), arch_side),
{
    let e1 = purge_propagated(e0);
    lemma_purge_propagated_props(e0);
    // keys stay unique
    assert forall|a: int, b: int| 0 <= a < b < t1.len()
        implies #[trigger] t1[a].node != #[trigger] t1[b].node by {
        assert(t0[a].node != t0[b].node);
    }
    // slots stay duplicate-free
    assert forall|i: int, k1: int, k2: int|
        0 <= i < t1.len() && 0 <= k1 < k2 < t1[i].out@.len()
        implies #[trigger] t1[i].out@[k1] != #[trigger] t1[i].out@[k2] by {
        assert forall|a: int, b: int| 0 <= a < b < t0[i].out@.len()
            implies t0[i].out@[a] != t0[i].out@[b] by {
            assert(t0[i].out@[a] != t0[i].out@[b]);
        }
        lemma_purge_ids_distinct(t0[i].out@, e0);
    }
    // every surviving slot id is backed by a surviving edge
    assert forall|i: int, k: int|
        0 <= i < t1.len() && 0 <= k < t1[i].out@.len()
        implies #[trigger] adj_slot_backed(t1, e1, arch_side, i, k) by {
        lemma_purge_ids_props(t0[i].out@, e0);
        let x = t1[i].out@[k];
        assert(purge_ids(t0[i].out@, e0).contains(x));
        assert(!has_propagated_id(e0, x));
        assert(t0[i].out@.contains(x));
        let k0 = choose|k0: int| 0 <= k0 < t0[i].out@.len() && t0[i].out@[k0] == x;
        assert(adj_slot_backed(t0, e0, arch_side, i, k0));
        let e = choose|e: int|
            0 <= e < e0.len() && e0[e].id == t0[i].out@[k0] && e0[e].from == t0[i].node
                && edge_routed_to(e0[e], arch_side);
        if e0[e].subgraph == SubgraphKind::Propagated {
            assert(has_propagated_id(e0, x));
        }
        assert(e0.contains(e0[e]));
        assert(e1.contains(e0[e]));
        let w = choose|w: int| 0 <= w < e1.len() && e1[w] == e0[e];
        assert(e1[w].id == t1[i].out@[k] && e1[w].from == t1[i].node
            && edge_routed_to(e1[w], arch_side));
    }
    // every surviving routed edge is still listed at its source
    assert forall|e: int|
        0 <= e < e1.len() && edge_routed_to(#[trigger] e1[e], arch_side)
        implies adj_at(t1, e1[e].from).contains(e1[e].id) by {
        let x = e1[e];
        assert(e1.contains(x));
        assert(e0.contains(x));
        assert(x.subgraph != SubgraphKind::Propagated);
        let w = choose|w: int| 0 <= w < e0.len() && e0[w] == x;
        assert(edge_routed_to(e0[w], arch_side));
        assert(adj_at(t0, x.from).contains(x.id));
        if !adj_has_key(t0, x.from) {
            assert(adj_at(t0, x.from).len() == 0);
            assert(false);
        }
        let i0 = adj_index_of(t0, x.from);
        assert(0 <= i0 < t0.len() && t0[i0].node == x.from);
        lemma_adj_entry_at(t0, i0);
        assert(!has_propagated_id(e0, x.id)) by {
            if has_propagated_id(e0, x.id) {
                let v = choose|v: int|
                    0 <= v < e0.len() && e0[v].id == x.id
                        && e0[v].subgraph == SubgraphKind::Propagated;
                assert(v != w);
                if v < w {
                    assert(e0[v].id < e0[w].id);
                } else {
                    assert(e0[w].id < e0[v].id);
                }
            }
        }
        lemma_purge_ids_props(t0[i0].out@, e0);
        assert(t0[i0].out@.contains(x.id));
        assert(purge_ids(t0[i0].out@, e0).contains(x.id));
        assert(t1[i0].node == x.from && t1[i0].out@ == purge_ids(t0[i0].out@, e0));
        assert forall|a: int, b: int| 0 <= a < b < t1.len()
            implies t1[a].node != t1[b].node by {
            assert(t0[a].node != t0[b].node);
        }
        lemma_adj_entry_at(t1, i0);
        assert(adj_at(t1, x.from).contains(x.id));
    }
}

/// Membership after a push is membership before, or the pushed element.
proof fn lemma_contains_push_iff<A>(s: Seq<A>, x: A)
    ensures
        forall|y: A| s.push(x).contains(y) <==> (s.contains(y) || y == x),
{
    assert forall|y: A| s.push(x).contains(y) <==> (s.contains(y) || y == x) by {
        if s.push(x).contains(y) {
            let k = choose|k: int| 0 <= k < s.push(x).len() && s.push(x)[k] == y;
            if k < s.len() {
                assert(s[k] == y);
            }
        }
        if s.contains(y) {
            lemma_push_contains(s, x, y);
        }
        if y == x {
            lemma_push_contains_self(s, x);
        }
    }
}

/// How the propagated-id predicate evolves when one edge is appended.
proof fn lemma_has_prop_push(s: Seq<Edge>, e: Edge)
    ensures
        forall|x: EdgeId|
            has_propagated_id(s.push(e), x)
                <==> (has_propagated_id(s, x)
                    || (e.subgraph == SubgraphKind::Propagated && e.id == x)),
{
    assert forall|x: EdgeId|
        has_propagated_id(s.push(e), x)
            <==> (has_propagated_id(s, x)
                || (e.subgraph == SubgraphKind::Propagated && e.id == x)) by {
        if has_propagated_id(s.push(e), x) {
            let k = choose|k: int|
                0 <= k < s.push(e).len() && s.push(e)[k].id == x
                    && s.push(e)[k].subgraph == SubgraphKind::Propagated;
            if k < s.len() {
                assert(s[k].id == x && s[k].subgraph == SubgraphKind::Propagated);
            }
        }
        if has_propagated_id(s, x) {
            let k = choose|k: int|
                0 <= k < s.len() && s[k].id == x
                    && s[k].subgraph == SubgraphKind::Propagated;
            assert(s.push(e)[k] == s[k]);
        }
        if e.subgraph == SubgraphKind::Propagated && e.id == x {
            assert(s.push(e)[s.len() as int] == e);
        }
    }
}

/// Unfolding step for `purge_propagated` over a push.
proof fn lemma_purge_propagated_push(s: Seq<Edge>, e: Edge)
    ensures
        purge_propagated(s.push(e)) == (if e.subgraph != SubgraphKind::Propagated {
            purge_propagated(s).push(e)
        } else {
            purge_propagated(s)
        }),
{
    assert(s.push(e).drop_last() =~= s);
    assert(s.push(e).last() == e);
    assert(s.push(e).len() == s.len() + 1);
}

/// Unfolding step for `purge_ids` over a push.
proof fn lemma_purge_ids_push(s: Seq<EdgeId>, edges: Seq<Edge>, x: EdgeId)
    ensures
        purge_ids(s.push(x), edges) == (if !has_propagated_id(edges, x) {
            purge_ids(s, edges).push(x)
        } else {
            purge_ids(s, edges)
        }),
{
    assert(s.push(x).drop_last() =~= s);
    assert(s.push(x).last() == x);
    assert(s.push(x).len() == s.len() + 1);
}

/// Unfolding step for `purge_table` over a push.
proof fn lemma_purge_table_push(t: Seq<SupportEntry>, edges: Seq<Edge>, ent: SupportEntry)
    ensures
        purge_table(t.push(ent), edges) == (if !has_propagated_id(edges, ent.edge) {
            purge_table(t, edges).push(ent)
        } else {
            purge_table(t, edges)
        }),
{
    assert(t.push(ent).drop_last() =~= t);
    assert(t.push(ent).last() == ent);
    assert(t.push(ent).len() == t.len() + 1);
}

/// What survives the edge purge: a subsequence of the input, free of
/// propagated edges, containing every non-propagated input edge.
proof fn lemma_purge_propagated_props(s: Seq<Edge>)
    ensures
        forall|x: Edge| #[trigger] purge_propagated(s).contains(x) ==> s.contains(x),
        forall|k: int|
            0 <= k < purge_propagated(s).len()
                ==> #[trigger] purge_propagated(s)[k].subgraph != SubgraphKind::Propagated,
        forall|x: Edge|
            s.contains(x) && x.subgraph != SubgraphKind::Propagated
                ==> #[trigger] purge_propagated(s).contains(x),
    decreases s.len(),
{
    if s.len() == 0 {
        assert forall|x: Edge|
            s.contains(x) && x.subgraph != SubgraphKind::Propagated
            implies #[trigger] purge_propagated(s).contains(x) by {
            assert(false);
        }
    } else {
        let d = s.drop_last();
        lemma_purge_propagated_props(d);
        assert(s =~= d.push(s.last()));
        lemma_purge_propagated_push(d, s.last());
        lemma_contains_push_iff(d, s.last());
        lemma_contains_push_iff(purge_propagated(d), s.last());
        assert forall|x: Edge| #[trigger] purge_propagated(s).contains(x)
            implies s.contains(x) by {
            if purge_propagated(d).contains(x) {
                assert(d.contains(x));
                assert(s.contains(x));
            } else {
                assert(x == s.last());
            }
        }
        assert forall|x: Edge|
            s.contains(x) && x.subgraph != SubgraphKind::Propagated
            implies #[trigger] purge_propagated(s).contains(x) by {
            assert(d.push(s.last()).contains(x));
            if d.contains(x) {
                assert(purge_propagated(d).contains(x));
                if s.last().subgraph != SubgraphKind::Propagated {
                    assert(purge_propagated(s) == purge_propagated(d).push(s.last()));
                    lemma_push_contains(purge_propagated(d), s.last(), x);
                } else {
                    assert(purge_propagated(s) == purge_propagated(d));
                }
            } else {
                assert(x == s.last());
                assert(purge_propagated(s) == purge_propagated(d).push(s.last()));
                lemma_push_contains_self(purge_propagated(d), s.last());
            }
        }
    }
}

/// The edge purge preserves strictly increasing identifier order.
proof fn lemma_purge_propagated_sorted(s: Seq<Edge>)
    requires
        forall|a: int, b: int|
            0 <= a < b < s.len() ==> #[trigger] s[a].id < #[trigger] s[b].id,
    ensures
        forall|a: int, b: int|
            0 <= a < b < purge_propagated(s).len()
                ==> #[trigger] purge_propagated(s)[a].id
                    < #[trigger] purge_propagated(s)[b].id,
    decreases s.len(),
{
    if s.len() > 0 {
        let d = s.drop_last();
        lemma_purge_propagated_sorted(d);
        lemma_purge_propagated_props(d);
        if s.last().subgraph != SubgraphKind::Propagated {
            let p = purge_propagated(s);
            assert(s =~= d.push(s.last()));
            lemma_purge_propagated_push(d, s.last());
            assert forall|a: int, b: int| 0 <= a < b < p.len()
                implies #[trigger] p[a].id < #[trigger] p[b].id by {
                if b < purge_propagated(d).len() {
                    assert(purge_propagated(d)[a].id < purge_propagated(d)[b].id);
                } else {
                    assert(p[b] == s.last());
                    assert(purge_propagated(d).contains(p[a]));
                    assert(d.contains(p[a]));
                    let w = choose|w: int| 0 <= w < d.len() && d[w] == p[a];
                    assert(s[w] == p[a]);
                    assert(s[w].id < s[s.len() - 1].id);
                }
            }
        }
    }
}

/// What survives the id purge: a subsequence of the input, free of
/// propagated ids, containing every surviving input id.
proof fn lemma_purge_ids_props(s: Seq<EdgeId>, edges: Seq<Edge>)
    ensures
        forall|x: EdgeId| #[trigger] purge_ids(s, edges).contains(x) ==> s.contains(x),
        forall|k: int|
            0 <= k < purge_ids(s, edges).len()
                ==> !has_propagated_id(edges, #[trigger] purge_ids(s, edges)[k]),
        forall|x: EdgeId|
            s.contains(x) && !has_propagated_id(edges, x)
                ==> #[trigger] purge_ids(s, edges).contains(x),
    decreases s.len(),
{
    if s.len() == 0 {
        assert forall|x: EdgeId|
            s.contains(x) && !has_propagated_id(edges, x)
            implies #[trigger] purge_ids(s, edges).contains(x) by {
            assert(false);
        }
    } else {
        let d = s.drop_last();
        lemma_purge_ids_props(d, edges);
        assert(s =~= d.push(s.last()));
        lemma_purge_ids_push(d, edges, s.last());
        lemma_contains_push_iff(d, s.last());
        lemma_contains_push_iff(purge_ids(d, edges), s.last());
        assert forall|x: EdgeId| #[trigger] purge_ids(s, edges).contains(x)
            implies s.contains(x) by {
            if purge_ids(d, edges).contains(x) {
                assert(d.contains(x));
            } else {
                assert(x == s.last());
            }
        }
        assert forall|x: EdgeId|
            s.contains(x) && !has_propagated_id(edges, x)
            implies #[trigger] purge_ids(s, edges).contains(x) by {
            if d.contains(x) {
                assert(purge_ids(d, edges).contains(x));
            } else {
                assert(x == s.last());
            }
        }
    }
}

/// The id purge keeps duplicate-free lists duplicate-free.
proof fn lemma_purge_ids_distinct(s: Seq<EdgeId>, edges: Seq<Edge>)
    requires
        forall|a: int, b: int| 0 <= a < b < s.len() ==> s[a] != s[b],
    ensures
        forall|a: int, b: int|
            0 <= a < b < purge_ids(s, edges).len()
                ==> purge_ids(s, edges)[a] != purge_ids(s, edges)[b],
    decreases s.len(),
{
    if s.len() > 0 {
        let d = s.drop_last();
        assert forall|a: int, b: int| 0 <= a < b < d.len() implies d[a] != d[b] by {
            assert(s[a] != s[b]);
        }
        lemma_purge_ids_distinct(d, edges);
        lemma_purge_ids_props(d, edges);
        if !has_propagated_id(edges, s.last()) {
            let p = purge_ids(s, edges);
            assert(s =~= d.push(s.last()));
            lemma_purge_ids_push(d, edges, s.last());
            assert forall|a: int, b: int| 0 <= a < b < p.len()
                implies p[a] != p[b] by {
                if b < purge_ids(d, edges).len() {
                    assert(purge_ids(d, edges)[a] != purge_ids(d, edges)[b]);
                } else {
                    assert(p[b] == s.last());
                    assert(purge_ids(d, edges).contains(p[a]));
                    assert(d.contains(p[a]));
                    let w = choose|w: int| 0 <= w < d.len() && d[w] == p[a];
                    assert(s[w] == p[a]);
                    assert(s[w] != s[s.len() - 1]);
                }
            }
        }
    }
}

/// What survives the table purge: a subsequence of the input, free of
/// purged keys, containing every surviving input entry.
proof fn lemma_purge_table_props(t: Seq<SupportEntry>, edges: Seq<Edge>)
    ensures
        forall|x: SupportEntry|
            #[trigger] purge_table(t, edges).contains(x) ==> t.contains(x),
        forall|k: int|
            0 <= k < purge_table(t, edges).len()
                ==> !has_propagated_id(edges, #[trigger] purge_table(t, edges)[k].edge),
        forall|x: SupportEntry|
            t.contains(x) && !has_propagated_id(edges, x.edge)
                ==> #[trigger] purge_table(t, edges).contains(x),
    decreases t.len(),
{
    if t.len() == 0 {
        assert forall|x: SupportEntry|
            t.contains(x) && !has_propagated_id(edges, x.edge)
            implies #[trigger] purge_table(t, edges).contains(x) by {
            assert(false);
        }
    } else {
        let d = t.drop_last();
        lemma_purge_table_props(d, edges);
        assert(t =~= d.push(t.last()));
        lemma_purge_table_push(d, edges, t.last());
        lemma_contains_push_iff(d, t.last());
        lemma_contains_push_iff(purge_table(d, edges), t.last());
        assert forall|x: SupportEntry| #[trigger] purge_table(t, edges).contains(x)
            implies t.contains(x) by {
            if purge_table(d, edges).contains(x) {
                assert(d.contains(x));
            } else {
                assert(x == t.last());
            }
        }
        assert forall|x: SupportEntry|
            t.contains(x) && !has_propagated_id(edges, x.edge)
            implies #[trigger] purge_table(t, edges).contains(x) by {
            if d.contains(x) {
                assert(purge_table(d, edges).contains(x));
            } else {
                assert(x == t.last());
            }
        }
    }
}

/// Law: identity monotonicity. In a well-formed store every assigned
/// identifier lies strictly below its kind's counter, and stored
/// identifiers are pairwise distinct. Since `add_node` and `add_edge`
/// return the counter's current value and advance it, and no operation
/// ever decreases a counter — `clear_propagated_edges` in particular keeps
/// both — assigned identifiers strictly increase per kind and are never
/// reused, even after propagated edges are removed.
pub proof fn lemma_identity_monotonic(g: ReflexionGraph)
    requires
        g.wf(),
    ensures
        forall|i: int|
            0 <= i < g.nodes@.len() ==> #[trigger] g.nodes@[i].id < g.next_node_id,
        forall|i: int|
            0 <= i < g.edges@.len() ==> #[trigger] g.edges@[i].id < g.next_edge_id,
        forall|i: int, j: int|
            0 <= i < j < g.nodes@.len()
                ==> #[trigger] g.nodes@[i].id != #[trigger] g.nodes@[j].id,
        forall|i: int, j: int|
            0 <= i < j < g.edges@.len()
                ==> #[trigger] g.edges@[i].id != #[trigger] g.edges@[j].id,
{
}

/// Law: parent/child symmetry. In a well-formed store, whenever node `c`
/// declares a parent, that parent is stored and its children list holds
/// `c`'s identifier at exactly one position.
pub proof fn lemma_parent_child_symmetry(g: ReflexionGraph, ci: int)
    requires
        g.wf(),
        0 <= ci < g.nodes@.len(),
        g.nodes@[ci].parent is Some,
    ensures
        has_node_id(g.nodes@, g.nodes@[ci].parent->0),
        ({
            let pc = g.nodes@[node_index_of(g.nodes@, g.nodes@[ci].parent->0)].children@;
            &&& exists|k: int| 0 <= k < pc.len() && pc[k] == g.nodes@[ci].id
            &&& forall|k1: int, k2: int|
                0 <= k1 < pc.len() && 0 <= k2 < pc.len() && pc[k1] == g.nodes@[ci].id
                    && pc[k2] == g.nodes@[ci].id ==> k1 == k2
        }),
{
    assert(parent_listed(g.nodes@, ci));
    let p = g.nodes@[ci].parent->0;
    let pi = node_index_of(g.nodes@, p);
    let pc = g.nodes@[pi].children@;
    assert(pc.contains(g.nodes@[ci].id));
    let k = choose|k: int| 0 <= k < pc.len() && pc[k] == g.nodes@[ci].id;
    assert(0 <= k < pc.len() && pc[k] == g.nodes@[ci].id);
    assert forall|k1: int, k2: int|
        0 <= k1 < pc.len() && 0 <= k2 < pc.len() && pc[k1] == g.nodes@[ci].id
            && pc[k2] == g.nodes@[ci].id implies k1 == k2 by {
        if k1 < k2 {
            assert(pc[k1] != pc[k2]);
        } else if k2 < k1 {
            assert(pc[k2] != pc[k1]);
        }
    }
}

/// Law: adjacency routing. In a well-formed store an edge id is listed in
/// the implementation-facing adjacency at node `n` exactly when a stored
/// `Implementation` edge with that id leaves `n`, and in the
/// architecture-facing adjacency exactly when a stored `Architecture` or
/// `Propagated` edge with that id leaves `n`. No id is listed on both
/// sides, so the two traversal views never cross-contaminate.
pub proof fn lemma_adjacency_routing(g: ReflexionGraph, n: NodeId, eid: EdgeId)
    requires
        g.wf(),
    ensures
        adj_at(g.impl_out@, n).contains(eid) <==> (exists|i: int|
            0 <= i < g.edges@.len() && #[trigger] g.edges@[i].id == eid
                && g.edges@[i].from == n
                && g.edges@[i].subgraph == SubgraphKind::Implementation),
        adj_at(g.arch_out@, n).contains(eid) <==> (exists|i: int|
            0 <= i < g.edges@.len() && #[trigger] g.edges@[i].id == eid
                && g.edges@[i].from == n && on_arch_side(g.edges@[i].subgraph)),
        !(adj_at(g.impl_out@, n).contains(eid) && adj_at(g.arch_out@, n).contains(eid)),
{
    lemma_adj_side_characterization(g.impl_out@, g.edges@, false, n, eid);
    lemma_adj_side_characterization(g.arch_out@, g.edges@, true, n, eid);
    if adj_at(g.impl_out@, n).contains(eid) && adj_at(g.arch_out@, n).contains(eid) {
        let i1 = choose|i: int|
            0 <= i < g.edges@.len() && g.edges@[i].id == eid && g.edges@[i].from == n
                && edge_routed_to(g.edges@[i], false);
        let i2 = choose|i: int|
            0 <= i < g.edges@.len() && g.edges@[i].id == eid && g.edges@[i].from == n
                && edge_routed_to(g.edges@[i], true);
        if i1 < i2 {
            assert(g.edges@[i1].id < g.edges@[i2].id);
        } else if i2 < i1 {
            assert(g.edges@[i2].id < g.edges@[i1].id);
        }
    }
}

/// One adjacency index lists an id at `n` exactly when a matching stored
/// edge leaves `n` on that side.
proof fn lemma_adj_side_characterization(
    t: Seq<OutEntry>,
    edges: Seq<Edge>,
    arch_side: bool,
    n: NodeId,
    eid: EdgeId,
)
    requires
        adj_ok(t, edges, arch_side),
    ensures
        adj_at(t, n).contains(eid) <==> (exists|i: int|
            0 <= i < edges.len() && #[trigger] edges[i].id == eid && edges[i].from == n
                && edge_routed_to(edges[i], arch_side)),
{
    if adj_at(t, n).contains(eid) {
        if !adj_has_key(t, n) {
            assert(adj_at(t, n).len() == 0);
            assert(false);
        }
        let i0 = adj_index_of(t, n);
        lemma_adj_entry_at(t, i0);
        let k = choose|k: int| 0 <= k < t[i0].out@.len() && t[i0].out@[k] == eid;
        assert(adj_slot_backed(t, edges, arch_side, i0, k));
        let e = choose|e: int|
            0 <= e < edges.len() && edges[e].id == t[i0].out@[k]
                && edges[e].from == t[i0].node && edge_routed_to(edges[e], arch_side);
        assert(edges[e].id == eid && edges[e].from == n
            && edge_routed_to(edges[e], arch_side));
    }
    if exists|i: int|
        0 <= i < edges.len() && #[trigger] edges[i].id == eid && edges[i].from == n
            && edge_routed_to(edges[i], arch_side) {
        let e = choose|i: int|
            0 <= i < edges.len() && #[trigger] edges[i].id == eid && edges[i].from == n
                && edge_routed_to(edges[i], arch_side);
        assert(edge_routed_to(edges[e], arch_side));
        assert(adj_at(t, edges[e].from).contains(edges[e].id));
    }
}

/// The table purge keeps pairwise-distinct keys pairwise distinct.
proof fn lemma_purge_table_distinct(t: Seq<SupportEntry>, edges: Seq<Edge>)
    requires
        forall|a: int, b: int|
            0 <= a < b < t.len() ==> #[trigger] t[a].edge != #[trigger] t[b].edge,
    ensures
        forall|a: int, b: int|
            0 <= a < b < purge_table(t, edges).len()
                ==> #[trigger] purge_table(t, edges)[a].edge
                    != #[trigger] purge_table(t, edges)[b].edge,
    decreases t.len(),
{
    if t.len() > 0 {
        let d = t.drop_last();
        assert forall|a: int, b: int| 0 <= a < b < d.len()
            implies #[trigger] d[a].edge != #[trigger] d[b].edge by {
            assert(t[a].edge != t[b].edge);
        }
        lemma_purge_table_distinct(d, edges);
        lemma_purge_table_props(d, edges);
        if !has_propagated_id(edges, t.last().edge) {
            let p = purge_table(t, edges);
            assert(t =~= d.push(t.last()));
            lemma_purge_table_push(d, edges, t.last());
            assert forall|a: int, b: int| 0 <= a < b < p.len()
                implies #[trigger] p[a].edge != #[trigger] p[b].edge by {
                if b < purge_table(d, edges).len() {
                    assert(purge_table(d, edges)[a].edge != purge_table(d, edges)[b].edge);
                } else {
                    assert(p[b] == t.last());
                    assert(purge_table(d, edges).contains(p[a]));
                    assert(d.contains(p[a]));
                    let w = choose|w: int| 0 <= w < d.len() && d[w] == p[a];
                    assert(t[w] == p[a]);
                    assert(t[w].edge != t[t.len() - 1].edge);
                }
            }
        }
    }
}

} // verus!

