//! The two fusion passes: `sin(x * -1 + pi/2)` becomes one cosine kernel,
//! and `exp2(x * 1/ln 2)` becomes one exponential kernel.
//!
//! The cosine pass is meant to run before the exponential pass; neither
//! looks for what the other builds.

use vstd::prelude::*;
use crate::graph::Edge;
use crate::graph::Graph;
use crate::graph::GraphView;
use crate::op::MetalCos;
use crate::op::MetalExp;
use crate::op::Op;
use crate::op::OpKind;
use crate::laws::lemma_pass_keeps_acyclic;
use crate::laws::lemma_pass_spares_protected;
use crate::rewrite::InputRule;
use crate::rewrite::RewriteError;
use crate::rewrite::Rule;
use crate::rewrite::RuleView;
use crate::rewrite::feeds;
use crate::rewrite::node_of;
use crate::select::Check;
use crate::select::SelectOp;
use crate::select::Selector;

verus! {

/// The bits of the half-precision number nearest to pi/2.
pub const HALF_PI: u16 = 0x3E48;

/// The bits of the half-precision number -1.
pub const NEG_ONE: u16 = 0xBC00;

/// The bits of the half-precision number nearest to 1/ln 2.
pub const INV_LN_2: u16 = 0x3DC5;

/// Variable of the cosine shape: the argument `x`.
pub const COS_X: usize = 0;

/// Variable of the cosine shape: the constant -1.
pub const COS_NEG_ONE: usize = 1;

/// Variable of the cosine shape: the product `x * -1`.
pub const COS_MUL: usize = 2;

/// Variable of the cosine shape: the constant pi/2.
pub const COS_HALF_PI: usize = 3;

/// Variable of the cosine shape: the sum.
pub const COS_ADD: usize = 4;

/// Variable of the cosine shape: the sine.
pub const COS_SIN: usize = 5;

/// Variable of the exponential shape: the constant 1/ln 2.
pub const EXP_CONSTANT: usize = 0;

/// Variable of the exponential shape: the product.
pub const EXP_MUL: usize = 1;

/// Variable of the exponential shape: the power of two.
pub const EXP_EXP2: usize = 2;

/// The shape `sin(add(mul(x, -1), pi/2))`. Both constants are compared
/// exactly.
pub open spec fn cos_pattern() -> Selector {
    let half_pi = SelectOp {
        ty: None,
        check: Some(Check::ConstantExact(HALF_PI)),
        ptr: Some(COS_HALF_PI),
    };
    let neg_one = SelectOp {
        ty: None,
        check: Some(Check::ConstantExact(NEG_ONE)),
        ptr: Some(COS_NEG_ONE),
    };
    let x = SelectOp { ty: None, check: None, ptr: Some(COS_X) };
    let mul = SelectOp { ty: Some(OpKind::Mul), check: None, ptr: Some(COS_MUL) };
    let add = SelectOp { ty: Some(OpKind::Add), check: None, ptr: Some(COS_ADD) };
    let sin = SelectOp { ty: Some(OpKind::Sin), check: None, ptr: Some(COS_SIN) };
    let product = Selector::Edge(
        Box::new(Selector::Op(x)),
        Box::new(Selector::Edge(Box::new(Selector::Op(neg_one)), Box::new(Selector::Op(mul)))),
    );
    let sum = Selector::Edge(
        Box::new(Selector::Op(half_pi)),
        Box::new(Selector::Edge(Box::new(product), Box::new(Selector::Op(add)))),
    );
    Selector::Edge(Box::new(sum), Box::new(Selector::Op(sin)))
}

/// The cosine rule: an occurrence is left alone where one of the two
/// constants, the product or the sum is protected; else the sine is
/// replaced by a cosine of `x`, which takes the shape of a data edge into
/// the product, and the five matched nodes but `x` are removed.
pub open spec fn cos_rule() -> RuleView {
    RuleView {
        pattern: cos_pattern(),
        vars: 6,
        guarded: seq![COS_NEG_ONE, COS_HALF_PI, COS_MUL, COS_ADD],
        removed: seq![COS_MUL, COS_ADD, COS_NEG_ONE, COS_HALF_PI, COS_SIN],
        terminal: COS_SIN,
        feeder: COS_ADD,
        input: InputRule::Captured { input: COS_X, shape_at: COS_MUL },
    }
}

/// The shape `exp2(mul(_, 1/ln 2))`. The constant is compared exactly; the
/// other factor is not part of the shape.
pub open spec fn exp_pattern() -> Selector {
    let constant = SelectOp {
        ty: None,
        check: Some(Check::ConstantExact(INV_LN_2)),
        ptr: Some(EXP_CONSTANT),
    };
    let mul = SelectOp { ty: Some(OpKind::Mul), check: None, ptr: Some(EXP_MUL) };
    let exp2 = SelectOp { ty: Some(OpKind::Exp2), check: None, ptr: Some(EXP_EXP2) };
    Selector::Edge(
        Box::new(Selector::Edge(Box::new(Selector::Op(constant)), Box::new(Selector::Op(mul)))),
        Box::new(Selector::Op(exp2)),
    )
}

/// The exponential rule: an occurrence is left alone where the constant,
/// the product or the power of two is protected; else the power of two is
/// replaced by an exponential of the product's other factor, and the three
/// matched nodes are removed.
pub open spec fn exp_rule() -> RuleView {
    RuleView {
        pattern: exp_pattern(),
        vars: 3,
        guarded: seq![EXP_CONSTANT, EXP_MUL, EXP_EXP2],
        removed: seq![EXP_MUL, EXP_CONSTANT, EXP_EXP2],
        terminal: EXP_EXP2,
        feeder: EXP_MUL,
        input: InputRule::OtherSource { consumer: EXP_MUL, excluded: EXP_CONSTANT },
    }
}

/// The cosine rule hangs together.
pub proof fn lemma_cos_rule_wf()
    ensures
        cos_rule().wf(),
{
    reveal_with_fuel(Selector::captures, 6);
    let rule = cos_rule();
    assert(rule.guarded[0] == COS_NEG_ONE && rule.guarded[1] == COS_HALF_PI && rule.guarded[2]
        == COS_MUL && rule.guarded[3] == COS_ADD);
    assert(rule.removed[0] == COS_MUL && rule.removed[1] == COS_ADD && rule.removed[2]
        == COS_NEG_ONE && rule.removed[3] == COS_HALF_PI && rule.removed[4] == COS_SIN);
    assert forall|g: GraphView, node: u32, b: Seq<Option<u32>>| #[trigger]
        rule.pattern.occurs_at(g, node, b) implies feeds(
        g,
        node_of(b, rule.feeder),
        node_of(b, rule.terminal),
    ) by {
        reveal_with_fuel(Selector::occurs_at, 4);
    }
}

/// The exponential rule hangs together.
pub proof fn lemma_exp_rule_wf()
    ensures
        exp_rule().wf(),
{
    reveal_with_fuel(Selector::captures, 4);
    let rule = exp_rule();
    assert(rule.guarded[0] == EXP_CONSTANT && rule.guarded[1] == EXP_MUL && rule.guarded[2]
        == EXP_EXP2);
    assert(rule.removed[0] == EXP_MUL && rule.removed[1] == EXP_CONSTANT && rule.removed[2]
        == EXP_EXP2);
    assert forall|g: GraphView, node: u32, b: Seq<Option<u32>>| #[trigger]
        rule.pattern.occurs_at(g, node, b) implies feeds(
        g,
        node_of(b, rule.feeder),
        node_of(b, rule.terminal),
    ) by {
        reveal_with_fuel(Selector::occurs_at, 3);
    }
}

/// The cosine shape lies upstream of its sine.
pub proof fn lemma_cos_rule_upstream()
    ensures
        cos_rule().upstream(),
{
    let rule = cos_rule();
    assert forall|g: GraphView, node: u32, b: Seq<Option<u32>>, rank: spec_fn(u32) -> int|
        #![trigger rule.pattern.occurs_at(g, node, b), g.ranked_by(rank)]
        rule.pattern.occurs_at(g, node, b) && g.ranked_by(rank) implies {
        &&& forall|k: int|
            0 <= k < rule.removed.len() ==> rank(node_of(b, #[trigger] rule.removed[k])) <= rank(
                node_of(b, rule.terminal),
            )
        &&& rank(node_of(b, COS_X)) < rank(node_of(b, rule.terminal))
    } by {
        reveal_with_fuel(Selector::occurs_at, 6);
    }
}

/// The exponential shape lies upstream of its power of two.
pub proof fn lemma_exp_rule_upstream()
    ensures
        exp_rule().upstream(),
{
    let rule = exp_rule();
    assert forall|g: GraphView, node: u32, b: Seq<Option<u32>>, rank: spec_fn(u32) -> int|
        #![trigger rule.pattern.occurs_at(g, node, b), g.ranked_by(rank)]
        rule.pattern.occurs_at(g, node, b) && g.ranked_by(rank) implies {
        &&& forall|k: int|
            0 <= k < rule.removed.len() ==> rank(node_of(b, #[trigger] rule.removed[k])) <= rank(
                node_of(b, rule.terminal),
            )
        &&& rank(node_of(b, EXP_MUL)) <= rank(node_of(b, rule.terminal))
    } by {
        reveal_with_fuel(Selector::occurs_at, 4);
    }
}

/// Replaces `sin(x * -1 + pi/2)` by a cosine kernel. Meant to run before
/// [`MetalExpCompiler`].
#[derive(Default, Debug)]
pub struct MetalCosCompiler;

impl MetalCosCompiler {
    /// The cosine rule.
    pub fn rule() -> (r: Rule)
        ensures
            r@ == cos_rule(),
            r@.wf(),
    {
        let half_pi = SelectOp::new().check(Check::ConstantExact(HALF_PI)).ptr(COS_HALF_PI);
        let neg_one = SelectOp::new().check(Check::ConstantExact(NEG_ONE)).ptr(COS_NEG_ONE);
        let x = SelectOp::new().ptr(COS_X);
        let mul = SelectOp::new().ty(OpKind::Mul).ptr(COS_MUL);
        let add = SelectOp::new().ty(OpKind::Add).ptr(COS_ADD);
        let sin = SelectOp::new().ty(OpKind::Sin).ptr(COS_SIN);
        let pattern = Selector::edge(
            Selector::edge(
                Selector::op(half_pi),
                Selector::edge(
                    Selector::edge(
                        Selector::op(x),
                        Selector::edge(Selector::op(neg_one), Selector::op(mul)),
                    ),
                    Selector::op(add),
                ),
            ),
            Selector::op(sin),
        );
        let rule = Rule {
            pattern,
            vars: 6,
            guarded: vec![COS_NEG_ONE, COS_HALF_PI, COS_MUL, COS_ADD],
            removed: vec![COS_MUL, COS_ADD, COS_NEG_ONE, COS_HALF_PI, COS_SIN],
            terminal: COS_SIN,
            feeder: COS_ADD,
            input: InputRule::Captured { input: COS_X, shape_at: COS_MUL },
        };
        proof {
            assert(rule@ =~= cos_rule());
            lemma_cos_rule_wf();
        }
        rule
    }

    /// Applies the pass to the graph: rewrites every occurrence of the
    /// cosine shape that nothing protects into a node that runs `kernel`,
    /// and returns how many it rewrote.
    pub fn compile(&self, graph: &mut Graph, kernel: MetalCos) -> (r: Result<usize, RewriteError>)
        requires
            old(graph)@.wf(),
            old(graph)@.fits(),
        ensures
            final(graph)@.wf(),
            final(graph)@.fits(),
            r matches Ok(n) ==> cos_rule().reaches(
                Op::Cos(kernel),
                old(graph)@,
                final(graph)@,
                n as nat,
            ) && !cos_rule().enabled(final(graph)@),
            r is Err ==> (exists|n: nat|
                cos_rule().reaches(Op::Cos(kernel), old(graph)@, final(graph)@, n))
                && exists|b: Seq<Option<u32>>| cos_rule().stuck_at(final(graph)@, b),
            !cos_rule().enabled(old(graph)@) ==> r == Ok::<usize, RewriteError>(0)
                && final(graph)@ == old(graph)@,
            old(graph)@.acyclic() ==> final(graph)@.acyclic(),
            forall|id: u32|
                #![trigger old(graph)@.no_delete.contains(id)]
                old(graph)@.no_delete.contains(id) && old(graph)@.nodes[id].spec_kind() != OpKind::Sin
                    ==> final(graph)@.nodes.contains_key(id)
                    && final(graph)@.nodes[id] == old(graph)@.nodes[id]
                    && final(graph)@.no_delete.contains(id),
    {
        let rule = Self::rule();
        let r = rule.run(graph, Op::Cos(kernel));
        proof {
            let n = match r {
                Ok(n) => n as nat,
                Err(_) => choose|n: nat|
                    cos_rule().reaches(Op::Cos(kernel), old(graph)@, graph@, n),
            };
            if old(graph)@.acyclic() {
                lemma_cos_rule_upstream();
                lemma_pass_keeps_acyclic(cos_rule(), Op::Cos(kernel), old(graph)@, graph@, n);
            }
            assert forall|id: u32|
                #![trigger old(graph)@.no_delete.contains(id)]
                old(graph)@.no_delete.contains(id) && old(graph)@.nodes[id].spec_kind() != OpKind::Sin
                    implies graph@.nodes.contains_key(id)
                && graph@.nodes[id] == old(graph)@.nodes[id]
                && graph@.no_delete.contains(id) by {
                assert(!cos_pattern().admits(COS_SIN as int, old(graph)@.nodes[id])) by {
                    reveal_with_fuel(Selector::admits, 6);
                }
                lemma_pass_spares_protected(
                    cos_rule(),
                    Op::Cos(kernel),
                    old(graph)@,
                    graph@,
                    n,
                    id,
                );
            }
        }
        r
    }
}

/// Replaces `exp2(x * 1/ln 2)` by an exponential kernel. Meant to run
/// after [`MetalCosCompiler`].
#[derive(Default, Debug)]
pub struct MetalExpCompiler;

impl MetalExpCompiler {
    /// The exponential rule.
    pub fn rule() -> (r: Rule)
        ensures
            r@ == exp_rule(),
            r@.wf(),
    {
        let constant = SelectOp::new().check(Check::ConstantExact(INV_LN_2)).ptr(EXP_CONSTANT);
        let mul = SelectOp::new().ty(OpKind::Mul).ptr(EXP_MUL);
        let exp2 = SelectOp::new().ty(OpKind::Exp2).ptr(EXP_EXP2);
        let pattern = Selector::edge(
            Selector::edge(Selector::op(constant), Selector::op(mul)),
            Selector::op(exp2),
        );
        let rule = Rule {
            pattern,
            vars: 3,
            guarded: vec![EXP_CONSTANT, EXP_MUL, EXP_EXP2],
            removed: vec![EXP_MUL, EXP_CONSTANT, EXP_EXP2],
            terminal: EXP_EXP2,
            feeder: EXP_MUL,
            input: InputRule::OtherSource { consumer: EXP_MUL, excluded: EXP_CONSTANT },
        };
        proof {
            assert(rule@ =~= exp_rule());
            lemma_exp_rule_wf();
        }
        rule
    }

    /// Applies the pass to the graph: rewrites every occurrence of the
    /// exponential shape that nothing protects into a node that runs
    /// `kernel`, and returns how many it rewrote.
    pub fn compile(&self, graph: &mut Graph, kernel: MetalExp) -> (r: Result<usize, RewriteError>)
        requires
            old(graph)@.wf(),
            old(graph)@.fits(),
        ensures
            final(graph)@.wf(),
            final(graph)@.fits(),
            r matches Ok(n) ==> exp_rule().reaches(
                Op::Exp(kernel),
                old(graph)@,
                final(graph)@,
                n as nat,
            ) && !exp_rule().enabled(final(graph)@),
            r is Err ==> (exists|n: nat|
                exp_rule().reaches(Op::Exp(kernel), old(graph)@, final(graph)@, n))
                && exists|b: Seq<Option<u32>>| exp_rule().stuck_at(final(graph)@, b),
            !exp_rule().enabled(old(graph)@) ==> r == Ok::<usize, RewriteError>(0)
                && final(graph)@ == old(graph)@,
            old(graph)@.acyclic() ==> final(graph)@.acyclic(),
            forall|id: u32|
                #![trigger old(graph)@.no_delete.contains(id)]
                old(graph)@.no_delete.contains(id)
                    ==> final(graph)@.nodes.contains_key(id)
                    && final(graph)@.nodes[id] == old(graph)@.nodes[id]
                    && final(graph)@.no_delete.contains(id),
    {
        let rule = Self::rule();
        let r = rule.run(graph, Op::Exp(kernel));
        proof {
            let n = match r {
                Ok(n) => n as nat,
                Err(_) => choose|n: nat|
                    exp_rule().reaches(Op::Exp(kernel), old(graph)@, graph@, n),
            };
            if old(graph)@.acyclic() {
                lemma_exp_rule_upstream();
                lemma_pass_keeps_acyclic(exp_rule(), Op::Exp(kernel), old(graph)@, graph@, n);
            }
            assert(exp_rule().guarded[2] == exp_rule().terminal);
            assert forall|id: u32|
                #![trigger old(graph)@.no_delete.contains(id)]
                old(graph)@.no_delete.contains(id)
                    implies graph@.nodes.contains_key(id)
                && graph@.nodes[id] == old(graph)@.nodes[id]
                && graph@.no_delete.contains(id) by {
                lemma_pass_spares_protected(
                    exp_rule(),
                    Op::Exp(kernel),
                    old(graph)@,
                    graph@,
                    n,
                    id,
                );
            }
        }
        r
    }
}

} // verus!
