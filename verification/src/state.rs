//! Classification taxonomies: the outcome vocabulary written by the
//! comparison engine, with derived predicates grouping the outcomes into
//! violations, undecided cases, and acceptable cases.

use vstd::prelude::*;

verus! {

/// Classification of an edge after (or before) a comparison run.
///
/// The eight values fall into three disjoint semantic groups:
/// violations (`Absent`, `Divergent`), acceptable outcomes (`Convergent`,
/// `Allowed`, `AllowedAbsent`), and undecided cases (`Undefined`,
/// `Unmapped`, `Specified`).
#[derive(Debug, Copy, Clone, PartialEq, Eq, Hash)]
pub enum EdgeState {
    /// Not yet classified, or data missing.
    Undefined,
    /// Recorded in the architecture spec, comparison still pending.
    Specified,
    /// The spec demands the relationship and the code exhibits it.
    Convergent,
    /// The spec demands the relationship but the code lacks it.
    Absent,
    /// The spec marks the relationship optional and it is indeed missing.
    AllowedAbsent,
    /// The code exhibits a relationship the spec permits but does not demand.
    Allowed,
    /// The code exhibits a relationship the spec neither specifies nor allows.
    Divergent,
    /// Comparison impossible because the endpoint node mapping is missing.
    Unmapped,
}

impl EdgeState {
    /// The edge records architectural debt: the spec and the code disagree.
    pub open spec fn spec_is_violation(self) -> bool {
        self == EdgeState::Absent || self == EdgeState::Divergent
    }

    /// The edge is still undecided: tooling or modeling debt.
    pub open spec fn spec_is_unknown(self) -> bool {
        self == EdgeState::Undefined || self == EdgeState::Unmapped
            || self == EdgeState::Specified
    }

    /// The edge needs no action: the spec and the code agree.
    pub open spec fn spec_is_ok(self) -> bool {
        self == EdgeState::Allowed || self == EdgeState::AllowedAbsent
            || self == EdgeState::Convergent
    }

    pub fn is_violation(&self) -> (r: bool)
        ensures
            r == self.spec_is_violation(),
    {
        matches!(self, EdgeState::Absent | EdgeState::Divergent)
    }

    pub fn is_unknown(&self) -> (r: bool)
        ensures
            r == self.spec_is_unknown(),
    {
        matches!(self, EdgeState::Undefined | EdgeState::Unmapped | EdgeState::Specified)
    }

    pub fn is_ok(&self) -> (r: bool)
        ensures
            r == self.spec_is_ok(),
    {
        matches!(self, EdgeState::Allowed | EdgeState::AllowedAbsent | EdgeState::Convergent)
    }
}

/// Law: the three edge predicates are mutually exclusive and jointly
/// exhaustive — every `EdgeState` value satisfies exactly one of
/// `is_violation`, `is_unknown`, `is_ok`.
pub proof fn lemma_edge_state_partition(s: EdgeState)
    ensures
        s.spec_is_violation() || s.spec_is_unknown() || s.spec_is_ok(),
        !(s.spec_is_violation() && s.spec_is_unknown()),
        !(s.spec_is_violation() && s.spec_is_ok()),
        !(s.spec_is_unknown() && s.spec_is_ok()),
{
    match s {
        EdgeState::Undefined => {},
        EdgeState::Specified => {},
        EdgeState::Convergent => {},
        EdgeState::Absent => {},
        EdgeState::AllowedAbsent => {},
        EdgeState::Allowed => {},
        EdgeState::Divergent => {},
        EdgeState::Unmapped => {},
    }
}

/// Mapping status of a node between the implementation and architecture
/// views.
#[derive(Debug, Copy, Clone, PartialEq, Eq, Hash)]
pub enum NodeState {
    /// Implementation node successfully maps to an architecture node.
    Mapped,
    /// Implementation node exists but has no mapping to the architecture.
    Unmapped,
    /// Architecture node exists but no implementation node maps to it.
    SpecifiedOnly,
    /// Node not yet classified, or the pipeline has not run.
    Undefined,
}

impl NodeState {
    /// The node records a mapping problem.
    pub open spec fn spec_is_problem(self) -> bool {
        self == NodeState::Unmapped || self == NodeState::SpecifiedOnly
    }

    /// The node is still unclassified.
    pub open spec fn spec_is_unknown(self) -> bool {
        self == NodeState::Undefined
    }

    /// The node is mapped and needs no action.
    pub open spec fn spec_is_ok(self) -> bool {
        self == NodeState::Mapped
    }

    pub fn is_problem(&self) -> (r: bool)
        ensures
            r == self.spec_is_problem(),
    {
        matches!(self, NodeState::Unmapped | NodeState::SpecifiedOnly)
    }

    pub fn is_unknown(&self) -> (r: bool)
        ensures
            r == self.spec_is_unknown(),
    {
        matches!(self, NodeState::Undefined)
    }

    pub fn is_ok(&self) -> (r: bool)
        ensures
            r == self.spec_is_ok(),
    {
        matches!(self, NodeState::Mapped)
    }
}

/// Law: the three node predicates are mutually exclusive and jointly
/// exhaustive — every `NodeState` value satisfies exactly one of
/// `is_problem`, `is_unknown`, `is_ok`.
pub proof fn lemma_node_state_partition(s: NodeState)
    ensures
        s.spec_is_problem() || s.spec_is_unknown() || s.spec_is_ok(),
        !(s.spec_is_problem() && s.spec_is_unknown()),
        !(s.spec_is_problem() && s.spec_is_ok()),
        !(s.spec_is_unknown() && s.spec_is_ok()),
{
    match s {
        NodeState::Mapped => {},
        NodeState::Unmapped => {},
        NodeState::SpecifiedOnly => {},
        NodeState::Undefined => {},
    }
}

} // verus!
