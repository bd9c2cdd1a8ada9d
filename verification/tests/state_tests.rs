use reflexion_graph::state::{EdgeState, NodeState};

#[test]
fn is_violation_true_for_absent_and_divergent() {
    assert!(EdgeState::Absent.is_violation());
    assert!(EdgeState::Divergent.is_violation());
}

#[test]
fn is_violation_false_for_non_violations() {
    assert!(!EdgeState::Undefined.is_violation());
    assert!(!EdgeState::Specified.is_violation());
    assert!(!EdgeState::Convergent.is_violation());
    assert!(!EdgeState::AllowedAbsent.is_violation());
    assert!(!EdgeState::Allowed.is_violation());
    assert!(!EdgeState::Unmapped.is_violation());
}

#[test]
fn every_edge_state_satisfies_exactly_one_predicate() {
    let all = vec![
        EdgeState::Undefined,
        EdgeState::Specified,
        EdgeState::Convergent,
        EdgeState::Absent,
        EdgeState::AllowedAbsent,
        EdgeState::Allowed,
        EdgeState::Divergent,
        EdgeState::Unmapped,
    ];
    for s in all {
        let mut hits: u32 = 0;
        if s.is_violation() {
            hits += 1;
        }
        if s.is_unknown() {
            hits += 1;
        }
        if s.is_ok() {
            hits += 1;
        }
        assert_eq!(hits, 1);
    }
}

#[test]
fn edge_state_groups_match_the_taxonomy() {
    assert!(EdgeState::Undefined.is_unknown());
    assert!(EdgeState::Specified.is_unknown());
    assert!(EdgeState::Unmapped.is_unknown());
    assert!(EdgeState::Convergent.is_ok());
    assert!(EdgeState::Allowed.is_ok());
    assert!(EdgeState::AllowedAbsent.is_ok());
}

#[test]
fn every_node_state_satisfies_exactly_one_predicate() {
    let all = vec![
        NodeState::Mapped,
        NodeState::Unmapped,
        NodeState::SpecifiedOnly,
        NodeState::Undefined,
    ];
    for s in all {
        let mut hits: u32 = 0;
        if s.is_problem() {
            hits += 1;
        }
        if s.is_unknown() {
            hits += 1;
        }
        if s.is_ok() {
            hits += 1;
        }
        assert_eq!(hits, 1);
    }
}

#[test]
fn node_state_groups_match_the_taxonomy() {
    assert!(NodeState::Mapped.is_ok());
    assert!(NodeState::Unmapped.is_problem());
    assert!(NodeState::SpecifiedOnly.is_problem());
    assert!(NodeState::Undefined.is_unknown());
}
