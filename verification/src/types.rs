//! Shared primitive vocabulary: identifiers, counters, and the kind tags
//! used by nodes and edges.

use vstd::prelude::*;

verus! {

/// Opaque node identifier, assigned by the graph store, scoped to one graph
/// instance. Valid identifiers start at 1.
pub type NodeId = u32;

/// Opaque edge identifier, assigned by the graph store, scoped to one graph
/// instance. Valid identifiers start at 1.
pub type EdgeId = u32;

/// Signed counter attached to each edge; its semantics (e.g. number of
/// supporting facts) are owned by the external comparison engine.
pub type Counter = i32;

/// The subgraph a node or edge belongs to.
///
/// Nodes live in `Architecture` or `Implementation`; edges may additionally
/// live in `Propagated`, the projection of implementation facts onto
/// architecture-level nodes.
#[derive(Debug, Clone, Copy, PartialEq, Eq, Hash)]
pub enum SubgraphKind {
    Architecture,
    Implementation,
    Propagated,
}

/// Open string-valued relationship classifier, compared by value.
///
/// Three well-known kinds have named constructors (`contains`, `calls`,
/// `depends_on`); arbitrary caller-defined kinds go through `new`.
#[derive(Debug, Clone, PartialEq, Eq, Hash)]
pub struct EdgeKind(pub String);

impl View for EdgeKind {
    type V = Seq<char>;

    open spec fn view(&self) -> Seq<char> {
        self.0@
    }
}

impl EdgeKind {
    /// Wraps an arbitrary caller-defined relationship label.
    pub fn new(s: String) -> (r: Self)
        ensures
            r@ == s@,
    {
        EdgeKind(s)
    }

    /// The well-known containment relationship.
    pub fn contains() -> (r: Self)
        ensures
            r@ == "contains"@,
    {
        EdgeKind(String::from_str("contains"))
    }

    /// The well-known call relationship.
    pub fn calls() -> (r: Self)
        ensures
            r@ == "calls"@,
    {
        EdgeKind(String::from_str("calls"))
    }

    /// The well-known dependency relationship.
    pub fn depends_on() -> (r: Self)
        ensures
            r@ == "depends_on"@,
    {
        EdgeKind(String::from_str("depends_on"))
    }

    /// Reads the label back as a string slice.
    pub fn as_str(&self) -> (r: &str)
        ensures
            r@ == self@,
    {
        self.0.as_str()
    }
}

impl From<String> for EdgeKind {
    /// Wraps a label, so that callers can write `EdgeKind::from(...)`.
    fn from(s: String) -> (r: EdgeKind)
        ensures
            r == EdgeKind(s),
    {
        EdgeKind(s)
    }
}

impl vstd::std_specs::convert::FromSpecImpl<String> for EdgeKind {
    open spec fn obeys_from_spec() -> bool {
        true
    }

    open spec fn from_spec(s: String) -> EdgeKind {
        EdgeKind(s)
    }
}

/// Closed categories of nodes, plus an open `Custom` escape hatch. Part of
/// the shared vocabulary; the graph store itself does not branch on it.
#[derive(Debug, Clone, PartialEq, Eq, Hash)]
pub enum NodeKind {
    ArchitectureNode,
    ImplementationNode,
    DatastoreNode,
    ServiceNode,
    UINode,
    ModuleNode,
    ClassNode,
    PackageNode,
    FunctionNode,
    Custom(String),
}

impl NodeKind {
    /// Wraps an arbitrary caller-defined node category label.
    pub fn custom(s: String) -> (r: Self)
        ensures
            r == NodeKind::Custom(s),
    {
        NodeKind::Custom(s)
    }
}

} // verus!
