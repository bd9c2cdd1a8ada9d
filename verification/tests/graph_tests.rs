use reflexion_graph::graph::{Edge, GraphError, Node, ReflexionGraph, SupportEntry};
use reflexion_graph::state::EdgeState;
use reflexion_graph::types::{EdgeId, EdgeKind, NodeId, SubgraphKind};

fn mk_node(name: &str, subgraph: SubgraphKind, parent: Option<NodeId>) -> Node {
    Node {
        id: 0, // will be overwritten by add_node
        name: name.to_string(),
        subgraph,
        parent,
        children: vec![],
    }
}

fn mk_edge(from: NodeId, to: NodeId, subgraph: SubgraphKind, kind: EdgeKind) -> Edge {
    Edge {
        id: 0, // will be overwritten by add_edge
        from,
        to,
        kind,
        subgraph,
        state: EdgeState::Undefined,
        counter: 0,
    }
}

#[test]
fn add_node_sets_id_and_updates_parent_children() {
    let mut g = ReflexionGraph::new();

    let parent_id = g.add_node(mk_node("A", SubgraphKind::Architecture, None)).unwrap();
    let child_id = g
        .add_node(mk_node("B", SubgraphKind::Architecture, Some(parent_id)))
        .unwrap();

    // parent exists and has the child
    let parent = g.get_node(parent_id).unwrap();
    assert!(parent.children.contains(&child_id));

    // child points to parent
    let child = g.get_node(child_id).unwrap();
    assert_eq!(child.parent, Some(parent_id));
}

#[test]
fn add_node_rejects_missing_parent() {
    let mut g = ReflexionGraph::new();

    let err = g
        .add_node(mk_node("B", SubgraphKind::Architecture, Some(999)))
        .unwrap_err();

    assert_eq!(err, GraphError::ParentNotFound(999));
}

#[test]
fn add_edge_updates_correct_adjacency_map() {
    let mut g = ReflexionGraph::new();

    // 2 arch nodes, 2 impl nodes
    let a1 = g.add_node(mk_node("Arch1", SubgraphKind::Architecture, None)).unwrap();
    let a2 = g.add_node(mk_node("Arch2", SubgraphKind::Architecture, None)).unwrap();
    let i1 = g.add_node(mk_node("Impl1", SubgraphKind::Implementation, None)).unwrap();
    let i2 = g.add_node(mk_node("Impl2", SubgraphKind::Implementation, None)).unwrap();

    // 1 arch edge, 1 impl edge
    let e_arch = g
        .add_edge(mk_edge(a1, a2, SubgraphKind::Architecture, EdgeKind::contains()))
        .unwrap();

    let e_impl = g
        .add_edge(mk_edge(i1, i2, SubgraphKind::Implementation, EdgeKind::calls()))
        .unwrap();

    // architecture-facing adjacency contains e_arch at a1
    let arch_out = g.arch_adjacent(a1).unwrap();
    assert!(arch_out.contains(&e_arch));

    // implementation-facing adjacency contains e_impl at i1
    let impl_out = g.impl_adjacent(i1).unwrap();
    assert!(impl_out.contains(&e_impl));
}

#[test]
fn add_edge_rejects_missing_nodes() {
    let mut g = ReflexionGraph::new();

    let n1 = g.add_node(mk_node("N1", SubgraphKind::Architecture, None)).unwrap();

    // to node missing
    let err = g
        .add_edge(mk_edge(n1, 999, SubgraphKind::Architecture, EdgeKind::depends_on()))
        .unwrap_err();

    assert_eq!(err, GraphError::NodeNotFound(999));
}

#[test]
fn init_states_resets_edge_states_counters_and_clears_propagation_table() {
    // Build a tiny graph in "post-run" messy state
    let mut g = ReflexionGraph::new();

    let n1: NodeId = 1;
    let n2: NodeId = 2;

    let e_arch: EdgeId = 10;
    let e_impl: EdgeId = 11;
    let e_prop: EdgeId = 12;

    g.edges.push(Edge {
        id: e_arch,
        from: n1,
        to: n2,
        kind: EdgeKind::depends_on(),
        subgraph: SubgraphKind::Architecture,
        state: EdgeState::Undefined, // wrong on purpose
        counter: 7,                  // wrong on purpose
    });

    g.edges.push(Edge {
        id: e_impl,
        from: n1,
        to: n2,
        kind: EdgeKind::depends_on(),
        subgraph: SubgraphKind::Implementation,
        state: EdgeState::Specified, // wrong on purpose
        counter: 9,                  // wrong on purpose
    });

    g.edges.push(Edge {
        id: e_prop,
        from: n1,
        to: n2,
        kind: EdgeKind::depends_on(),
        subgraph: SubgraphKind::Propagated,
        state: EdgeState::Specified, // wrong on purpose
        counter: 3,                  // wrong on purpose
    });

    // Fake leftover propagation table entries from a previous run
    g.propagation_table.push(SupportEntry { edge: e_prop, support: vec![] });

    // Act
    g.init_states();

    // Assert
    let a = g.get_edge(e_arch).unwrap();
    assert!(matches!(a.state, EdgeState::Specified));
    assert_eq!(a.counter, 0);

    let i = g.get_edge(e_impl).unwrap();
    assert!(matches!(i.state, EdgeState::Undefined));
    assert_eq!(i.counter, 0);

    let p = g.get_edge(e_prop).unwrap();
    assert!(matches!(p.state, EdgeState::Undefined));
    assert_eq!(p.counter, 0);

    assert!(g.propagation_table.is_empty());
}

#[test]
fn add_edge_reports_missing_source_before_missing_target() {
    let mut g = ReflexionGraph::new();

    // both endpoints missing: the source's absence is reported
    let err = g
        .add_edge(mk_edge(998, 999, SubgraphKind::Architecture, EdgeKind::calls()))
        .unwrap_err();

    assert_eq!(err, GraphError::NodeNotFound(998));
}

#[test]
fn failed_insertions_leave_the_store_unchanged() {
    let mut g = ReflexionGraph::new();
    let n1 = g.add_node(mk_node("N1", SubgraphKind::Architecture, None)).unwrap();

    let node_count = g.nodes.len();
    let edge_count = g.edges.len();

    assert!(g.add_node(mk_node("X", SubgraphKind::Architecture, Some(999))).is_err());
    assert!(g
        .add_edge(mk_edge(n1, 999, SubgraphKind::Implementation, EdgeKind::calls()))
        .is_err());

    assert_eq!(g.nodes.len(), node_count);
    assert_eq!(g.edges.len(), edge_count);
    assert!(g.impl_adjacent(n1).is_none());
    assert!(g.arch_adjacent(n1).is_none());
}

#[test]
fn identifiers_increase_and_are_never_reused() {
    let mut g = ReflexionGraph::new();

    let n1 = g.add_node(mk_node("A", SubgraphKind::Architecture, None)).unwrap();
    let n2 = g.add_node(mk_node("B", SubgraphKind::Architecture, None)).unwrap();
    assert_eq!(n1, 1);
    assert_eq!(n2, 2);

    let e1 = g
        .add_edge(mk_edge(n1, n2, SubgraphKind::Architecture, EdgeKind::contains()))
        .unwrap();
    let e2 = g
        .add_edge(mk_edge(n1, n2, SubgraphKind::Propagated, EdgeKind::calls()))
        .unwrap();
    assert_eq!(e1, 1);
    assert_eq!(e2, 2);

    // removing the propagated edge must not free its identifier
    g.clear_propagated_edges();
    let e3 = g
        .add_edge(mk_edge(n2, n1, SubgraphKind::Implementation, EdgeKind::calls()))
        .unwrap();
    assert_eq!(e3, 3);

    // the raw counters can also be drawn directly
    assert_eq!(g.fresh_node_id(), 3);
    assert_eq!(g.fresh_node_id(), 4);
    assert_eq!(g.fresh_edge_id(), 4);
}

#[test]
fn dual_subgraph_scenario_keeps_adjacency_views_apart() {
    let mut g = ReflexionGraph::new();

    let a1 = g.add_node(mk_node("A1", SubgraphKind::Architecture, None)).unwrap();
    let a2 = g.add_node(mk_node("A2", SubgraphKind::Architecture, None)).unwrap();
    let i1 = g.add_node(mk_node("I1", SubgraphKind::Implementation, None)).unwrap();
    let i2 = g.add_node(mk_node("I2", SubgraphKind::Implementation, None)).unwrap();

    let e_arch = g
        .add_edge(mk_edge(a1, a2, SubgraphKind::Architecture, EdgeKind::contains()))
        .unwrap();
    let e_impl = g
        .add_edge(mk_edge(i1, i2, SubgraphKind::Implementation, EdgeKind::calls()))
        .unwrap();

    // each edge is listed exactly where it belongs...
    assert!(g.arch_adjacent(a1).unwrap().contains(&e_arch));
    assert!(g.impl_adjacent(i1).unwrap().contains(&e_impl));

    // ...and nowhere else
    assert!(!g.arch_adjacent(a1).unwrap().contains(&e_impl));
    assert!(!g.impl_adjacent(i1).unwrap().contains(&e_arch));
    assert!(g.impl_adjacent(a1).is_none());
    assert!(g.arch_adjacent(i1).is_none());
}

#[test]
fn propagated_edges_route_to_the_architecture_view() {
    let mut g = ReflexionGraph::new();

    let a1 = g.add_node(mk_node("A1", SubgraphKind::Architecture, None)).unwrap();
    let a2 = g.add_node(mk_node("A2", SubgraphKind::Architecture, None)).unwrap();

    let e_prop = g
        .add_edge(mk_edge(a1, a2, SubgraphKind::Propagated, EdgeKind::calls()))
        .unwrap();

    assert!(g.arch_adjacent(a1).unwrap().contains(&e_prop));
    assert!(g.impl_adjacent(a1).is_none());
}

#[test]
fn clear_propagated_edges_purges_edges_adjacency_and_table() {
    let mut g = ReflexionGraph::new();

    let a1 = g.add_node(mk_node("A1", SubgraphKind::Architecture, None)).unwrap();
    let a2 = g.add_node(mk_node("A2", SubgraphKind::Architecture, None)).unwrap();
    let i1 = g.add_node(mk_node("I1", SubgraphKind::Implementation, None)).unwrap();

    let e_arch = g
        .add_edge(mk_edge(a1, a2, SubgraphKind::Architecture, EdgeKind::contains()))
        .unwrap();
    let e_impl = g
        .add_edge(mk_edge(i1, a1, SubgraphKind::Implementation, EdgeKind::calls()))
        .unwrap();
    let e_prop = g
        .add_edge(mk_edge(a1, a2, SubgraphKind::Propagated, EdgeKind::calls()))
        .unwrap();

    // evidentiary support recorded for one surviving and one doomed key
    g.propagation_table.push(SupportEntry { edge: e_arch, support: vec![e_impl] });
    g.propagation_table.push(SupportEntry { edge: e_prop, support: vec![e_impl] });

    g.clear_propagated_edges();

    // the propagated edge is gone from the store and from the adjacency
    assert!(g.get_edge(e_prop).is_none());
    assert!(!g.arch_adjacent(a1).unwrap().contains(&e_prop));

    // nothing else moved
    assert!(g.get_edge(e_arch).is_some());
    assert!(g.get_edge(e_impl).is_some());
    assert!(g.arch_adjacent(a1).unwrap().contains(&e_arch));
    assert!(g.impl_adjacent(i1).unwrap().contains(&e_impl));
    assert!(g.get_node(a1).is_some());
    assert!(g.get_node(a2).is_some());
    assert!(g.get_node(i1).is_some());

    // only the doomed table entry was dropped
    assert_eq!(g.propagation_table.len(), 1);
    assert_eq!(g.propagation_table[0].edge, e_arch);
}

#[test]
fn clear_propagated_edges_is_a_no_op_without_propagated_edges() {
    let mut g = ReflexionGraph::new();

    let a1 = g.add_node(mk_node("A1", SubgraphKind::Architecture, None)).unwrap();
    let a2 = g.add_node(mk_node("A2", SubgraphKind::Architecture, None)).unwrap();
    let e_arch = g
        .add_edge(mk_edge(a1, a2, SubgraphKind::Architecture, EdgeKind::contains()))
        .unwrap();

    g.clear_propagated_edges();

    assert_eq!(g.edges.len(), 1);
    assert!(g.get_edge(e_arch).is_some());
    assert!(g.arch_adjacent(a1).unwrap().contains(&e_arch));
}

#[test]
fn init_states_is_idempotent() {
    let mut g = ReflexionGraph::new();

    let a1 = g.add_node(mk_node("A1", SubgraphKind::Architecture, None)).unwrap();
    let a2 = g.add_node(mk_node("A2", SubgraphKind::Architecture, None)).unwrap();
    let e_arch = g
        .add_edge(mk_edge(a1, a2, SubgraphKind::Architecture, EdgeKind::contains()))
        .unwrap();
    let e_impl = g
        .add_edge(mk_edge(a2, a1, SubgraphKind::Implementation, EdgeKind::calls()))
        .unwrap();

    g.init_states();
    g.init_states();

    let a = g.get_edge(e_arch).unwrap();
    assert!(matches!(a.state, EdgeState::Specified));
    assert_eq!(a.counter, 0);
    let i = g.get_edge(e_impl).unwrap();
    assert!(matches!(i.state, EdgeState::Undefined));
    assert_eq!(i.counter, 0);
    assert!(g.propagation_table.is_empty());
}
