use metal_fusion::fusion::MetalCosCompiler;
use metal_fusion::fusion::MetalExpCompiler;
use metal_fusion::fusion::COS_ADD;
use metal_fusion::fusion::COS_HALF_PI;
use metal_fusion::fusion::COS_MUL;
use metal_fusion::fusion::COS_NEG_ONE;
use metal_fusion::fusion::COS_SIN;
use metal_fusion::fusion::COS_X;
use metal_fusion::fusion::HALF_PI;
use metal_fusion::fusion::INV_LN_2;
use metal_fusion::fusion::NEG_ONE;
use metal_fusion::graph::Graph;
use metal_fusion::op::Dependency;
use metal_fusion::op::MetalExp;
use metal_fusion::op::Op;
use metal_fusion::op::OpKind;
use metal_fusion::op::ShapeTracker;
use metal_fusion::rewrite::Outcome;
use metal_fusion::rewrite::RewriteError;
use metal_fusion::select::Binding;
use metal_fusion::select::Check;
use metal_fusion::select::SelectOp;
use metal_fusion::select::Selector;

fn data(slot: u8) -> Dependency {
    Dependency::Data { input_order: slot, output_order: 0, shape: ShapeTracker(1) }
}

fn slots(found: &[Binding]) -> Vec<Vec<Option<u32>>> {
    let mut all: Vec<Vec<Option<u32>>> = found.iter().map(|b| b.slots.clone()).collect();
    all.sort();
    all
}

#[test]
fn a_node_selector_finds_nodes_by_kind() {
    let mut g = Graph::new();
    let a = g.add_op(Op::Mul).unwrap();
    let _b = g.add_op(Op::Add).unwrap();
    let c = g.add_op(Op::Mul).unwrap();
    let s = Selector::op(SelectOp::new().ty(OpKind::Mul).ptr(0));
    assert_eq!(slots(&s.search(&g, 1)), vec![vec![Some(a)], vec![Some(c)]]);
    assert_eq!(slots(&s.search(&g, 2)), vec![vec![Some(a), None], vec![Some(c), None]]);
    // A selector that captures into a variable the binding lacks finds nothing.
    assert!(s.search(&g, 0).is_empty());
    let any = Selector::op(SelectOp::new());
    assert_eq!(any.search(&g, 1).len(), 3);
}

#[test]
fn a_check_compares_constants_exactly() {
    let check = Check::ConstantExact(0x0000);
    assert!(check.test(Op::Constant(0x0000)));
    assert!(check.test(Op::Constant(0x8000)));
    assert!(!check.test(Op::Constant(0x0001)));
    assert!(!check.test(Op::Mul));
    assert!(!Check::ConstantExact(0x7E00).test(Op::Constant(0x7E00)));
    let sel = SelectOp::new().ty(OpKind::Mul).check(Check::ConstantExact(1));
    assert!(!sel.test(Op::Constant(1)));
    assert!(!sel.test(Op::Mul));
    assert!(SelectOp::new().test(Op::Sin));
}

#[test]
fn an_edge_selector_follows_edges_backwards() {
    let mut g = Graph::new();
    let a = g.add_op(Op::Other(1)).unwrap();
    let b = g.add_op(Op::Other(2)).unwrap();
    let m = g.add_op(Op::Mul).unwrap();
    assert!(g.add_edge(a, m, data(0)));
    assert!(g.add_edge(b, m, data(1)));
    assert!(g.add_edge(m, a, Dependency::Schedule));
    let s = Selector::edge(
        Selector::op(SelectOp::new().ptr(0)),
        Selector::op(SelectOp::new().ty(OpKind::Mul).ptr(1)),
    );
    assert_eq!(
        slots(&s.search(&g, 2)),
        vec![vec![Some(a), Some(m)], vec![Some(b), Some(m)]]
    );
}

#[test]
fn a_variable_captured_twice_names_one_node() {
    let mut g = Graph::new();
    let a = g.add_op(Op::Other(1)).unwrap();
    let b = g.add_op(Op::Other(2)).unwrap();
    let m = g.add_op(Op::Mul).unwrap();
    let n = g.add_op(Op::Add).unwrap();
    assert!(g.add_edge(a, m, data(0)));
    assert!(g.add_edge(b, m, data(1)));
    assert!(g.add_edge(m, n, data(0)));
    assert!(g.add_edge(a, n, data(1)));
    // add(mul(v, _), v): the same v feeds both.
    let s = Selector::edge(
        Selector::op(SelectOp::new().ptr(0)),
        Selector::edge(
            Selector::edge(
                Selector::op(SelectOp::new().ptr(0)),
                Selector::op(SelectOp::new().ty(OpKind::Mul).ptr(1)),
            ),
            Selector::op(SelectOp::new().ty(OpKind::Add).ptr(2)),
        ),
    );
    assert_eq!(slots(&s.search(&g, 3)), vec![vec![Some(a), Some(m), Some(n)]]);
}

#[test]
fn two_variables_never_name_one_node() {
    let mut g = Graph::new();
    let a = g.add_op(Op::Other(1)).unwrap();
    let m = g.add_op(Op::Mul).unwrap();
    assert!(g.add_edge(a, m, data(0)));
    assert!(g.add_edge(m, m, data(1)));
    let s = Selector::edge(
        Selector::op(SelectOp::new().ptr(0)),
        Selector::op(SelectOp::new().ty(OpKind::Mul).ptr(1)),
    );
    assert_eq!(slots(&s.overlays(&g, 2)), vec![vec![Some(a), Some(m)], vec![Some(m), Some(m)]]);
    assert_eq!(slots(&s.search(&g, 2)), vec![vec![Some(a), Some(m)]]);
    assert!(Binding { slots: vec![Some(1), None, Some(2)] }.is_distinct());
    assert!(!Binding { slots: vec![Some(1), None, Some(1)] }.is_distinct());
    assert!(Binding { slots: vec![] }.is_distinct());
}

#[test]
fn parallel_edges_list_an_occurrence_once_each() {
    let mut g = Graph::new();
    let a = g.add_op(Op::Other(1)).unwrap();
    let m = g.add_op(Op::Mul).unwrap();
    assert!(g.add_edge(a, m, data(0)));
    assert!(g.add_edge(a, m, data(1)));
    let s = Selector::edge(
        Selector::op(SelectOp::new().ptr(0)),
        Selector::op(SelectOp::new().ty(OpKind::Mul).ptr(1)),
    );
    assert_eq!(
        slots(&s.search(&g, 2)),
        vec![vec![Some(a), Some(m)], vec![Some(a), Some(m)]]
    );
}

#[test]
fn bindings_are_read_by_variable() {
    let b = Binding::unbound(3);
    assert_eq!(b.slots, vec![None, None, None]);
    assert_eq!(b.get(1), None);
    assert_eq!(b.get(9), None);
    let c = Binding { slots: vec![Some(4), None] };
    assert_eq!(c.get(0), Some(4));
    assert_eq!(c.copy().slots, c.slots);
}

#[test]
fn the_cosine_rule_binds_all_six_nodes() {
    let mut g = Graph::new();
    let x = g.add_op(Op::Other(1)).unwrap();
    let neg = g.add_op(Op::Constant(NEG_ONE)).unwrap();
    let mul = g.add_op(Op::Mul).unwrap();
    let pi = g.add_op(Op::Constant(HALF_PI)).unwrap();
    let add = g.add_op(Op::Add).unwrap();
    let sin = g.add_op(Op::Sin).unwrap();
    for (a, b, s) in [(x, mul, 0), (neg, mul, 1), (mul, add, 0), (pi, add, 1), (add, sin, 0)] {
        assert!(g.add_edge(a, b, data(s)));
    }
    let rule = MetalCosCompiler::rule();
    let found = rule.pattern.search(&g, rule.vars);
    assert_eq!(found.len(), 1);
    let b = &found[0];
    assert_eq!(b.get(COS_X), Some(x));
    assert_eq!(b.get(COS_NEG_ONE), Some(neg));
    assert_eq!(b.get(COS_MUL), Some(mul));
    assert_eq!(b.get(COS_HALF_PI), Some(pi));
    assert_eq!(b.get(COS_ADD), Some(add));
    assert_eq!(b.get(COS_SIN), Some(sin));
    assert!(!rule.guard_hit(&g, b));
    assert!(rule.is_removed(b, sin) && rule.is_removed(b, neg) && !rule.is_removed(b, x));
    assert_eq!(rule.choose_input(&g, b).map(|p| p.0), Some(x));
    assert!(g.keep(sin));
    assert!(!rule.guard_hit(&g, b));
    assert!(g.keep(pi));
    assert!(rule.guard_hit(&g, b));
}

#[test]
fn applying_a_rule_skips_rewrites_or_fails() {
    let rule = MetalExpCompiler::rule();
    let kernel = Op::Exp(MetalExp::new(1, 2));
    let build = |with_x: bool| {
        let mut g = Graph::new();
        let c = g.add_op(Op::Constant(INV_LN_2)).unwrap();
        let mul = g.add_op(Op::Mul).unwrap();
        let exp2 = g.add_op(Op::Exp2).unwrap();
        assert!(g.add_edge(c, mul, data(1)));
        assert!(g.add_edge(mul, exp2, data(0)));
        if with_x {
            let x = g.add_op(Op::Other(1)).unwrap();
            assert!(g.add_edge(x, mul, data(0)));
        }
        (g, exp2)
    };
    let (mut g, exp2) = build(true);
    let found = rule.pattern.search(&g, rule.vars);
    assert_eq!(found.len(), 1);
    assert!(g.keep(exp2));
    assert_eq!(rule.apply(&mut g, &found[0], kernel), Ok(Outcome::Skipped));
    assert_eq!(g.node_count(), 4);

    let (mut g, _) = build(false);
    let found = rule.pattern.search(&g, rule.vars);
    assert_eq!(rule.apply(&mut g, &found[0], kernel), Err(RewriteError::MatchInconsistency));
    assert_eq!(g.node_count(), 3);

    let (mut g, _) = build(true);
    let found = rule.pattern.search(&g, rule.vars);
    match rule.apply(&mut g, &found[0], kernel) {
        Ok(Outcome::Rewritten(new)) => {
            assert_eq!(g.node(new).unwrap().kind(), OpKind::Exp);
            assert_eq!(g.node_count(), 2);
            assert_eq!(g.edge_count(), 1);
        }
        other => panic!("{other:?}"),
    }
    assert_eq!(rule.run(&mut g, kernel), Ok(0));
}
