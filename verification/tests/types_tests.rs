use reflexion_graph::types::{EdgeKind, NodeKind};

#[test]
fn named_edge_kinds_carry_their_labels() {
    assert_eq!(EdgeKind::contains().as_str(), "contains");
    assert_eq!(EdgeKind::calls().as_str(), "calls");
    assert_eq!(EdgeKind::depends_on().as_str(), "depends_on");
}

#[test]
fn custom_edge_kinds_compare_by_value() {
    let a = EdgeKind::new("reads_from".to_string());
    let b = EdgeKind::new("reads_from".to_string());
    let c = EdgeKind::new("writes_to".to_string());
    assert_eq!(a.as_str(), "reads_from");
    assert_eq!(a, b);
    assert_ne!(a, c);
    assert_ne!(a, EdgeKind::calls());
}

#[test]
fn edge_kind_from_string_equals_named_constructor() {
    let k = EdgeKind::from("contains".to_string());
    assert_eq!(k, EdgeKind::contains());
    assert_eq!(k.as_str(), "contains");
}

#[test]
fn custom_node_kinds_carry_their_labels() {
    let k = NodeKind::custom("Repository".to_string());
    assert_eq!(k, NodeKind::Custom("Repository".to_string()));
    assert_ne!(k, NodeKind::custom("Service".to_string()));
    assert_ne!(NodeKind::ArchitectureNode, NodeKind::ImplementationNode);
}
