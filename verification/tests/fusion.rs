use metal_fusion::fusion::MetalCosCompiler;
use metal_fusion::fusion::MetalExpCompiler;
use metal_fusion::fusion::HALF_PI;
use metal_fusion::fusion::INV_LN_2;
use metal_fusion::fusion::NEG_ONE;
use metal_fusion::graph::Edge;
use metal_fusion::graph::Graph;
use metal_fusion::op::Dependency;
use metal_fusion::op::MetalCos;
use metal_fusion::op::MetalExp;
use metal_fusion::op::Op;
use metal_fusion::op::OpKind;
use metal_fusion::op::ShapeTracker;
use metal_fusion::rewrite::RewriteError;

fn data(slot: u8, shape: u64) -> Dependency {
    Dependency::Data { input_order: slot, output_order: 0, shape: ShapeTracker(shape) }
}

fn node(g: &mut Graph, op: Op) -> u32 {
    g.add_op(op).unwrap()
}

fn link(g: &mut Graph, from: u32, to: u32, slot: u8, shape: u64) {
    assert!(g.add_edge(from, to, data(slot, shape)));
}

/// x, -1, mul, pi/2, add, sin, and one consumer of sin.
fn cos_graph() -> (Graph, [u32; 7]) {
    let mut g = Graph::new();
    let x = node(&mut g, Op::Other(1));
    let neg = node(&mut g, Op::Constant(NEG_ONE));
    let mul = node(&mut g, Op::Mul);
    let pi = node(&mut g, Op::Constant(HALF_PI));
    let add = node(&mut g, Op::Add);
    let sin = node(&mut g, Op::Sin);
    let out = node(&mut g, Op::Other(2));
    link(&mut g, x, mul, 0, 7);
    link(&mut g, neg, mul, 1, 7);
    link(&mut g, mul, add, 0, 7);
    link(&mut g, pi, add, 1, 7);
    link(&mut g, add, sin, 0, 7);
    link(&mut g, sin, out, 0, 9);
    (g, [x, neg, mul, pi, add, sin, out])
}

/// x, 1/ln 2, mul, exp2, and one consumer of exp2.
fn exp_graph() -> (Graph, [u32; 5]) {
    let mut g = Graph::new();
    let x = node(&mut g, Op::Other(1));
    let c = node(&mut g, Op::Constant(INV_LN_2));
    let mul = node(&mut g, Op::Mul);
    let exp2 = node(&mut g, Op::Exp2);
    let out = node(&mut g, Op::Other(2));
    link(&mut g, x, mul, 0, 5);
    link(&mut g, c, mul, 1, 6);
    link(&mut g, mul, exp2, 0, 5);
    link(&mut g, exp2, out, 0, 8);
    (g, [x, c, mul, exp2, out])
}

fn cos_kernel() -> MetalCos {
    MetalCos::new(11, 22)
}

fn exp_kernel() -> MetalExp {
    MetalExp::new(33, 44)
}

fn only_node_of_kind(g: &Graph, kind: OpKind) -> u32 {
    let ids: Vec<u32> =
        g.node_ids().into_iter().filter(|id| g.node(*id).unwrap().kind() == kind).collect();
    assert_eq!(ids.len(), 1);
    ids[0]
}

#[test]
fn a_sine_chain_becomes_one_cosine() {
    let (mut g, [x, neg, mul, pi, add, sin, out]) = cos_graph();
    assert_eq!(MetalCosCompiler.compile(&mut g, cos_kernel()), Ok(1));
    for gone in [neg, mul, pi, add, sin] {
        // The new node may take a freed id; none of the old operators is left.
        assert!(g.node(gone).map_or(true, |op| op.kind() == OpKind::Cos));
    }
    assert_eq!(g.node_count(), 3);
    let cos = only_node_of_kind(&g, OpKind::Cos);
    assert!(matches!(g.node(cos), Some(Op::Cos(k)) if k.pipeline == 11 && k.device == 22));
    assert_eq!(g.incoming(cos), vec![Edge { source: x, target: cos, weight: data(0, 7) }]);
    assert_eq!(g.outgoing(cos), vec![Edge { source: cos, target: out, weight: data(0, 9) }]);
    assert_eq!(g.incoming(out), vec![Edge { source: cos, target: out, weight: data(0, 9) }]);
    assert_eq!(g.edge_count(), 2);
    assert_eq!(g.remap(sin), cos);
}

#[test]
fn a_power_of_two_chain_becomes_one_exponential() {
    let (mut g, [x, c, mul, exp2, out]) = exp_graph();
    assert_eq!(MetalExpCompiler.compile(&mut g, exp_kernel()), Ok(1));
    for gone in [c, mul, exp2] {
        assert!(g.node(gone).map_or(true, |op| op.kind() == OpKind::Exp));
    }
    assert_eq!(g.node_count(), 3);
    let exp = only_node_of_kind(&g, OpKind::Exp);
    assert!(matches!(g.node(exp), Some(Op::Exp(k)) if k.pipeline == 33 && k.device == 44));
    assert_eq!(g.incoming(exp), vec![Edge { source: x, target: exp, weight: data(0, 5) }]);
    assert_eq!(g.outgoing(exp), vec![Edge { source: exp, target: out, weight: data(0, 8) }]);
    assert_eq!(g.edge_count(), 2);
    assert_eq!(g.remap(exp2), exp);
}

#[test]
fn a_graph_without_the_shapes_is_left_alone() {
    let mut g = Graph::new();
    let x = node(&mut g, Op::Other(1));
    let c = node(&mut g, Op::Constant(0x3C00));
    let mul = node(&mut g, Op::Mul);
    let sin = node(&mut g, Op::Sin);
    let exp2 = node(&mut g, Op::Exp2);
    link(&mut g, x, mul, 0, 1);
    link(&mut g, c, mul, 1, 1);
    link(&mut g, mul, sin, 0, 1);
    link(&mut g, mul, exp2, 0, 1);
    assert_eq!(MetalCosCompiler.compile(&mut g, cos_kernel()), Ok(0));
    assert_eq!(MetalExpCompiler.compile(&mut g, exp_kernel()), Ok(0));
    assert_eq!(g.node_count(), 5);
    assert_eq!(g.edge_count(), 4);
    assert_eq!(g.node_ids(), vec![x, c, mul, sin, exp2]);
}

#[test]
fn a_pass_run_twice_finds_nothing_more() {
    let (mut g, _) = cos_graph();
    assert_eq!(MetalCosCompiler.compile(&mut g, cos_kernel()), Ok(1));
    let nodes = g.node_ids();
    let edges = g.edge_count();
    assert_eq!(MetalCosCompiler.compile(&mut g, cos_kernel()), Ok(0));
    assert_eq!(g.node_ids(), nodes);
    assert_eq!(g.edge_count(), edges);

    let (mut g, _) = exp_graph();
    assert_eq!(MetalExpCompiler.compile(&mut g, exp_kernel()), Ok(1));
    let nodes = g.node_ids();
    assert_eq!(MetalExpCompiler.compile(&mut g, exp_kernel()), Ok(0));
    assert_eq!(g.node_ids(), nodes);
}

#[test]
fn retrieval_moves_from_the_sine_to_the_cosine() {
    let (mut g, [_, _, _, _, _, sin, _]) = cos_graph();
    assert!(g.retrieve(sin));
    assert_eq!(MetalCosCompiler.compile(&mut g, cos_kernel()), Ok(1));
    let cos = only_node_of_kind(&g, OpKind::Cos);
    assert_ne!(cos, sin);
    assert!(g.is_retrieved(cos));
    assert!(g.is_protected(cos));
    assert!(!g.is_retrieved(sin));
    assert!(!g.is_protected(sin));
    assert_eq!(g.remap(sin), cos);
}

#[test]
fn a_protected_intermediate_keeps_the_cosine_shape() {
    for which in 1..5 {
        let (mut g, ids) = cos_graph();
        assert!(g.keep(ids[which]));
        assert_eq!(MetalCosCompiler.compile(&mut g, cos_kernel()), Ok(0));
        assert_eq!(g.node_ids(), ids.to_vec());
        assert_eq!(g.edge_count(), 6);
        assert_eq!(g.node(ids[2]).unwrap().kind(), OpKind::Mul);
        assert_eq!(g.constant(ids[1]), Some(NEG_ONE));
        assert_eq!(g.constant(ids[3]), Some(HALF_PI));
        assert_eq!(
            g.incoming(ids[5]),
            vec![Edge { source: ids[4], target: ids[5], weight: data(0, 7) }]
        );
    }
}

#[test]
fn a_protected_node_keeps_the_exponential_shape() {
    for which in 1..4 {
        let (mut g, ids) = exp_graph();
        assert!(g.keep(ids[which]));
        assert_eq!(MetalExpCompiler.compile(&mut g, exp_kernel()), Ok(0));
        assert_eq!(g.node_ids(), ids.to_vec());
        assert_eq!(g.edge_count(), 4);
    }
}

#[test]
fn every_edge_that_left_the_sine_leaves_the_cosine() {
    let (mut g, [_, _, _, _, _, sin, out]) = cos_graph();
    let other = node(&mut g, Op::Other(3));
    link(&mut g, sin, other, 1, 4);
    link(&mut g, sin, out, 1, 9);
    let mut before: Vec<(u32, Dependency)> =
        g.outgoing(sin).into_iter().map(|e| (e.target, e.weight)).collect();
    assert_eq!(before.len(), 3);
    assert_eq!(MetalCosCompiler.compile(&mut g, cos_kernel()), Ok(1));
    let cos = only_node_of_kind(&g, OpKind::Cos);
    let mut after: Vec<(u32, Dependency)> =
        g.outgoing(cos).into_iter().map(|e| (e.target, e.weight)).collect();
    let key = |p: &(u32, Dependency)| (p.0, p.1.as_data().map(|d| (d.0, d.1, d.2 .0)));
    before.sort_by_key(key);
    after.sort_by_key(key);
    assert_eq!(after, before);
}

#[test]
fn two_occurrences_are_both_rewritten() {
    let (mut g, [x, _, _, _, _, sin, _]) = cos_graph();
    // A second chain on the same x, ending in its own sine.
    let neg = node(&mut g, Op::Constant(NEG_ONE));
    let mul = node(&mut g, Op::Mul);
    let pi = node(&mut g, Op::Constant(HALF_PI));
    let add = node(&mut g, Op::Add);
    let sin2 = node(&mut g, Op::Sin);
    link(&mut g, x, mul, 0, 7);
    link(&mut g, neg, mul, 1, 7);
    link(&mut g, mul, add, 0, 7);
    link(&mut g, pi, add, 1, 7);
    link(&mut g, add, sin2, 0, 7);
    assert_ne!(sin, sin2);
    assert_eq!(MetalCosCompiler.compile(&mut g, cos_kernel()), Ok(2));
    assert_eq!(g.node_count(), 4);
    let kinds: Vec<OpKind> = g.node_ids().iter().map(|id| g.node(*id).unwrap().kind()).collect();
    assert_eq!(kinds.iter().filter(|k| **k == OpKind::Cos).count(), 2);
    assert_eq!(g.outgoing(x).len(), 2);
}

#[test]
fn a_nested_occurrence_is_rewritten_after_the_inner_one() {
    // sin(add(mul(sin(add(mul(x, -1), pi/2)), -1), pi/2))
    let (mut g, [x, _, _, _, _, sin, out]) = cos_graph();
    let neg = node(&mut g, Op::Constant(NEG_ONE));
    let mul = node(&mut g, Op::Mul);
    let pi = node(&mut g, Op::Constant(HALF_PI));
    let add = node(&mut g, Op::Add);
    link(&mut g, sin, mul, 0, 7);
    link(&mut g, neg, mul, 1, 7);
    link(&mut g, mul, add, 0, 7);
    link(&mut g, pi, add, 1, 7);
    let sin2 = node(&mut g, Op::Sin);
    link(&mut g, add, sin2, 0, 7);
    assert_eq!(MetalCosCompiler.compile(&mut g, cos_kernel()), Ok(2));
    assert_eq!(g.node_count(), 4);
    assert!(g.contains_node(x));
    assert!(g.contains_node(out));
    let inner = g.outgoing(x);
    assert_eq!(inner.len(), 1);
    let inner = inner[0].target;
    assert_eq!(g.node(inner).unwrap().kind(), OpKind::Cos);
    let mut targets: Vec<u32> = g.outgoing(inner).iter().map(|e| e.target).collect();
    targets.sort();
    assert_eq!(targets.len(), 2);
    assert!(targets.contains(&out));
    let outer = if targets[0] == out { targets[1] } else { targets[0] };
    assert_eq!(g.node(outer).unwrap().kind(), OpKind::Cos);
    assert_eq!(g.incoming(outer), vec![Edge { source: inner, target: outer, weight: data(0, 7) }]);
}

#[test]
fn a_near_constant_is_no_match() {
    let mut g = Graph::new();
    let x = node(&mut g, Op::Other(1));
    let c = node(&mut g, Op::Constant(INV_LN_2 + 1));
    let mul = node(&mut g, Op::Mul);
    let exp2 = node(&mut g, Op::Exp2);
    link(&mut g, x, mul, 0, 5);
    link(&mut g, c, mul, 1, 5);
    link(&mut g, mul, exp2, 0, 5);
    assert_eq!(MetalExpCompiler.compile(&mut g, exp_kernel()), Ok(0));
    assert_eq!(g.node_count(), 4);
}

#[test]
fn an_exponential_without_another_factor_is_inconsistent() {
    let mut g = Graph::new();
    let c = node(&mut g, Op::Constant(INV_LN_2));
    let mul = node(&mut g, Op::Mul);
    let exp2 = node(&mut g, Op::Exp2);
    link(&mut g, c, mul, 0, 5);
    link(&mut g, c, mul, 1, 5);
    link(&mut g, mul, exp2, 0, 5);
    assert_eq!(
        MetalExpCompiler.compile(&mut g, exp_kernel()),
        Err(RewriteError::MatchInconsistency)
    );
    assert_eq!(g.node_ids(), vec![c, mul, exp2]);
    assert_eq!(g.edge_count(), 3);
}

#[test]
fn one_node_in_two_places_of_the_shape_is_no_occurrence() {
    // sin(add(mul(c, -1), c)) with c = pi/2: x and pi/2 would be one node.
    let mut g = Graph::new();
    let c = node(&mut g, Op::Constant(HALF_PI));
    let neg = node(&mut g, Op::Constant(NEG_ONE));
    let mul = node(&mut g, Op::Mul);
    let add = node(&mut g, Op::Add);
    let sin = node(&mut g, Op::Sin);
    link(&mut g, c, mul, 0, 1);
    link(&mut g, neg, mul, 1, 1);
    link(&mut g, mul, add, 0, 1);
    link(&mut g, c, add, 1, 1);
    link(&mut g, add, sin, 0, 1);
    assert_eq!(MetalCosCompiler.compile(&mut g, cos_kernel()), Ok(0));
    assert_eq!(g.node_count(), 5);
    assert_eq!(g.edge_count(), 5);
}

#[test]
fn a_product_without_data_inputs_is_inconsistent() {
    let (mut g, _) = cos_graph();
    // A second chain whose product has only scheduling edges.
    let x = g.add_op(Op::Other(9)).unwrap();
    let neg = g.add_op(Op::Constant(NEG_ONE)).unwrap();
    let mul = g.add_op(Op::Mul).unwrap();
    let pi = g.add_op(Op::Constant(HALF_PI)).unwrap();
    let add = g.add_op(Op::Add).unwrap();
    let sin = g.add_op(Op::Sin).unwrap();
    assert!(g.add_edge(x, mul, Dependency::Schedule));
    assert!(g.add_edge(neg, mul, Dependency::Schedule));
    link(&mut g, mul, add, 0, 7);
    link(&mut g, pi, add, 1, 7);
    link(&mut g, add, sin, 0, 7);
    assert_eq!(
        MetalCosCompiler.compile(&mut g, cos_kernel()),
        Err(RewriteError::MatchInconsistency)
    );
    assert!(g.contains_node(sin));
}

#[test]
fn the_exponential_reads_the_lowest_slot_that_is_not_the_constant() {
    let mut g = Graph::new();
    let c = node(&mut g, Op::Constant(INV_LN_2));
    let late = node(&mut g, Op::Other(1));
    let early = node(&mut g, Op::Other(2));
    let mul = node(&mut g, Op::Mul);
    let exp2 = node(&mut g, Op::Exp2);
    link(&mut g, c, mul, 0, 1);
    link(&mut g, late, mul, 2, 20);
    link(&mut g, early, mul, 1, 10);
    link(&mut g, mul, exp2, 0, 1);
    assert_eq!(MetalExpCompiler.compile(&mut g, exp_kernel()), Ok(1));
    let exp = only_node_of_kind(&g, OpKind::Exp);
    assert_eq!(g.incoming(exp), vec![Edge { source: early, target: exp, weight: data(0, 10) }]);
}

#[test]
fn the_passes_compose_in_order() {
    // exp2(mul(sin(add(mul(x, -1), pi/2)), 1/ln 2))
    let (mut g, [x, _, _, _, _, sin, out]) = cos_graph();
    let c = node(&mut g, Op::Constant(INV_LN_2));
    let mul = node(&mut g, Op::Mul);
    let exp2 = node(&mut g, Op::Exp2);
    link(&mut g, sin, mul, 0, 3);
    link(&mut g, c, mul, 1, 3);
    link(&mut g, mul, exp2, 0, 3);
    assert_eq!(MetalCosCompiler.compile(&mut g, cos_kernel()), Ok(1));
    assert_eq!(MetalExpCompiler.compile(&mut g, exp_kernel()), Ok(1));
    let cos = only_node_of_kind(&g, OpKind::Cos);
    let exp = only_node_of_kind(&g, OpKind::Exp);
    assert_eq!(g.node_count(), 4);
    assert_eq!(g.incoming(cos), vec![Edge { source: x, target: cos, weight: data(0, 7) }]);
    assert_eq!(g.incoming(exp), vec![Edge { source: cos, target: exp, weight: data(0, 3) }]);
    assert_eq!(g.incoming(out), vec![Edge { source: cos, target: out, weight: data(0, 9) }]);
}
