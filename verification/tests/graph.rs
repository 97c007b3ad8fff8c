use metal_fusion::graph::Edge;
use metal_fusion::graph::Graph;
use metal_fusion::op::Dependency;
use metal_fusion::op::Op;
use metal_fusion::op::ShapeTracker;

fn data(slot: u8, shape: u64) -> Dependency {
    Dependency::Data { input_order: slot, output_order: 0, shape: ShapeTracker(shape) }
}

fn sorted(mut edges: Vec<Edge>) -> Vec<(u32, u32, Option<(u8, u8, u64)>)> {
    let mut keys: Vec<(u32, u32, Option<(u8, u8, u64)>)> = edges
        .drain(..)
        .map(|e| (e.source, e.target, e.weight.as_data().map(|d| (d.0, d.1, d.2 .0))))
        .collect();
    keys.sort();
    keys
}

#[test]
fn a_new_graph_is_empty() {
    let g = Graph::new();
    assert_eq!(g.node_count(), 0);
    assert_eq!(g.edge_count(), 0);
    assert!(g.node_ids().is_empty());
    assert!(!g.contains_node(0));
    assert!(g.node(0).is_none());
    assert!(g.incoming(0).is_empty());
    assert!(g.outgoing(0).is_empty());
    assert_eq!(g.remap(5), 5);
    assert!(!g.is_protected(0));
    assert!(!g.is_retrieved(0));
}

#[test]
fn nodes_and_edges_are_added() {
    let mut g = Graph::new();
    let a = g.add_op(Op::Constant(9)).unwrap();
    let b = g.add_op(Op::Mul).unwrap();
    assert_ne!(a, b);
    assert_eq!(g.node_ids(), vec![a, b]);
    assert_eq!(g.constant(a), Some(9));
    assert_eq!(g.constant(b), None);
    assert_eq!(g.constant(77), None);
    assert!(g.add_edge(a, b, data(0, 1)));
    assert!(g.add_edge(a, b, data(0, 1)));
    assert!(g.add_edge(a, b, Dependency::Schedule));
    assert_eq!(g.edge_count(), 3);
    assert_eq!(g.incoming(b).len(), 3);
    assert_eq!(g.outgoing(a).len(), 3);
    assert!(g.incoming(a).is_empty());
    assert_eq!(
        sorted(g.incoming(b)),
        vec![(a, b, None), (a, b, Some((0, 0, 1))), (a, b, Some((0, 0, 1)))]
    );
}

#[test]
fn an_edge_to_a_missing_node_is_refused() {
    let mut g = Graph::new();
    let a = g.add_op(Op::Add).unwrap();
    assert!(!g.add_edge(a, 40, data(0, 1)));
    assert!(!g.add_edge(40, a, data(0, 1)));
    assert_eq!(g.edge_count(), 0);
    assert!(g.add_edge(a, a, data(0, 1)));
    assert_eq!(g.edge_count(), 1);
}

#[test]
fn removing_a_node_removes_its_edges() {
    let mut g = Graph::new();
    let a = g.add_op(Op::Other(1)).unwrap();
    let b = g.add_op(Op::Other(2)).unwrap();
    let c = g.add_op(Op::Other(3)).unwrap();
    assert!(g.add_edge(a, b, data(0, 1)));
    assert!(g.add_edge(b, c, data(0, 2)));
    assert!(g.add_edge(a, c, data(1, 3)));
    assert!(matches!(g.remove_node(b), Some(Op::Other(2))));
    assert_eq!(g.node_ids(), vec![a, c]);
    assert_eq!(g.edge_count(), 1);
    assert_eq!(g.incoming(c), vec![Edge { source: a, target: c, weight: data(1, 3) }]);
    assert!(g.remove_node(b).is_none());
    assert_eq!(g.node_count(), 2);
}

#[test]
fn a_protected_node_is_not_removed() {
    let mut g = Graph::new();
    let a = g.add_op(Op::Sin).unwrap();
    assert!(g.keep(a));
    assert!(g.is_protected(a));
    assert!(!g.is_retrieved(a));
    assert!(g.remove_node(a).is_none());
    assert!(g.contains_node(a));
    assert!(!g.keep(a + 1));
    assert!(!g.is_protected(a + 1));
}

#[test]
fn retrieving_protects_too() {
    let mut g = Graph::new();
    let a = g.add_op(Op::Sin).unwrap();
    assert!(g.retrieve(a));
    assert!(g.is_retrieved(a));
    assert!(g.is_protected(a));
    assert!(!g.retrieve(a + 1));
    assert!(!g.is_retrieved(a + 1));
}

#[test]
fn outgoing_edges_are_copied_not_moved() {
    let mut g = Graph::new();
    let from = g.add_op(Op::Other(1)).unwrap();
    let to = g.add_op(Op::Other(2)).unwrap();
    let p = g.add_op(Op::Other(3)).unwrap();
    let q = g.add_op(Op::Other(4)).unwrap();
    assert!(g.add_edge(from, p, data(0, 1)));
    assert!(g.add_edge(from, p, data(0, 1)));
    assert!(g.add_edge(from, q, data(2, 5)));
    assert!(g.add_edge(to, q, data(1, 6)));
    assert!(g.add_edge(p, from, data(0, 7)));
    g.move_outgoing_edge(from, to);
    assert_eq!(g.edge_count(), 8);
    assert_eq!(
        sorted(g.outgoing(from)),
        vec![(from, p, Some((0, 0, 1))), (from, p, Some((0, 0, 1))), (from, q, Some((2, 0, 5)))]
    );
    assert_eq!(
        sorted(g.outgoing(to)),
        vec![
            (to, p, Some((0, 0, 1))),
            (to, p, Some((0, 0, 1))),
            (to, q, Some((1, 0, 6))),
            (to, q, Some((2, 0, 5))),
        ]
    );
    assert_eq!(g.incoming(from).len(), 1);
}

#[test]
fn references_move_to_the_replacement() {
    let mut g = Graph::new();
    let old = g.add_op(Op::Sin).unwrap();
    let new = g.add_op(Op::Other(1)).unwrap();
    let other = g.add_op(Op::Other(2)).unwrap();
    assert!(g.retrieve(old));
    assert!(g.keep(other));
    g.move_references(old, new);
    assert!(g.is_protected(new) && g.is_retrieved(new));
    assert!(!g.is_protected(old) && !g.is_retrieved(old));
    assert!(g.is_protected(other) && !g.is_retrieved(other));
    assert_eq!(g.remap(old), new);
    assert_eq!(g.remap(new), new);
    // A second replacement redirects what pointed at the first.
    let newer = g.add_op(Op::Other(3)).unwrap();
    g.move_references(new, newer);
    assert_eq!(g.remap(old), newer);
    assert_eq!(g.remap(new), newer);
    assert!(g.is_retrieved(newer) && !g.is_retrieved(new));
}

#[test]
fn references_of_an_unreferenced_node_only_remap() {
    let mut g = Graph::new();
    let old = g.add_op(Op::Sin).unwrap();
    let new = g.add_op(Op::Other(1)).unwrap();
    g.move_references(old, new);
    assert!(!g.is_protected(new) && !g.is_retrieved(new));
    assert_eq!(g.remap(old), new);
}

#[test]
fn the_first_data_input_skips_scheduling_edges() {
    let mut g = Graph::new();
    let a = g.add_op(Op::Other(1)).unwrap();
    let b = g.add_op(Op::Mul).unwrap();
    assert!(g.first_data_input(b).is_none());
    assert!(g.add_edge(a, b, Dependency::Schedule));
    assert!(g.first_data_input(b).is_none());
    assert!(g.add_edge(a, b, data(3, 8)));
    assert_eq!(g.first_data_input(b), Some(Edge { source: a, target: b, weight: data(3, 8) }));
    assert!(g.first_data_input(a).is_none());
}

#[test]
fn the_lowest_source_leaves_one_node_out() {
    let mut g = Graph::new();
    let c = g.add_op(Op::Constant(1)).unwrap();
    let p = g.add_op(Op::Other(1)).unwrap();
    let q = g.add_op(Op::Other(2)).unwrap();
    let m = g.add_op(Op::Mul).unwrap();
    assert!(g.lowest_source_except(m, c).is_none());
    assert!(g.add_edge(c, m, data(0, 1)));
    assert!(g.lowest_source_except(m, c).is_none());
    assert!(g.add_edge(q, m, Dependency::Schedule));
    assert!(g.lowest_source_except(m, c).is_none());
    assert!(g.add_edge(p, m, data(5, 2)));
    assert!(g.add_edge(q, m, data(4, 3)));
    assert_eq!(
        g.lowest_source_except(m, c),
        Some(Edge { source: q, target: m, weight: data(4, 3) })
    );
    assert_eq!(
        g.lowest_source_except(m, q),
        Some(Edge { source: c, target: m, weight: data(0, 1) })
    );
}

#[test]
fn splicing_puts_a_node_beside_another() {
    let mut g = Graph::new();
    let x = g.add_op(Op::Other(1)).unwrap();
    let t = g.add_op(Op::Sin).unwrap();
    let out = g.add_op(Op::Other(2)).unwrap();
    assert!(g.add_edge(x, t, data(0, 1)));
    assert!(g.add_edge(t, out, data(0, 2)));
    assert!(g.retrieve(t));
    let new = g.splice(t, x, ShapeTracker(9), Op::Other(7));
    assert!(g.contains_node(t));
    assert_eq!(g.incoming(new), vec![Edge { source: x, target: new, weight: data(0, 9) }]);
    assert_eq!(g.outgoing(new), vec![Edge { source: new, target: out, weight: data(0, 2) }]);
    assert_eq!(g.outgoing(t).len(), 1);
    assert!(g.is_retrieved(new) && !g.is_retrieved(t));
    assert_eq!(g.remap(t), new);
    assert_eq!(g.edge_count(), 4);
}
