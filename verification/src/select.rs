//! Selectors: a small language of subgraph shapes, and the search that
//! finds every occurrence of a shape in a graph.

use vstd::prelude::*;
use crate::op::Op;
use crate::op::OpKind;
use crate::op::half_eq;
use crate::op::half_bits_eq;
use crate::graph::Edge;
use crate::graph::Graph;
use crate::graph::GraphView;

verus! {

/// A test on a node's operator beyond its kind.
#[derive(Clone, Copy, Debug)]
pub enum Check {
    /// The node is a constant, and its value equals the half-precision
    /// number with these bits: exactly, with no tolerance.
    ConstantExact(u16),
}

impl Check {
    /// Whether the operator passes the test.
    pub open spec fn holds(self, op: Op) -> bool {
        match self {
            Check::ConstantExact(bits) => op matches Op::Constant(c) && half_eq(c, bits),
        }
    }

    /// Applies the test to an operator.
    pub fn test(&self, op: Op) -> (r: bool)
        ensures
            r == self.holds(op),
    {
        match self {
            Check::ConstantExact(bits) => match op {
                Op::Constant(c) => half_bits_eq(c, *bits),
                _ => false,
            },
        }
    }
}

/// Selects one node: by kind, by a test on its operator, or both; and may
/// capture the node's id in a numbered variable.
#[derive(Clone, Copy, Debug)]
pub struct SelectOp {
    /// The kind the node must have, if any.
    pub ty: Option<OpKind>,
    /// The test the node's operator must pass, if any.
    pub check: Option<Check>,
    /// The variable that receives the node's id, if any.
    pub ptr: Option<usize>,
}

impl SelectOp {
    /// Selects any node and captures nothing.
    pub fn new() -> (s: SelectOp)
        ensures
            s == (SelectOp { ty: None, check: None, ptr: None }),
    {
        SelectOp { ty: None, check: None, ptr: None }
    }

    /// Narrows the selection to nodes of one kind.
    pub fn ty(self, kind: OpKind) -> (s: SelectOp)
        ensures
            s == (SelectOp { ty: Some(kind), ..self }),
    {
        SelectOp { ty: Some(kind), check: self.check, ptr: self.ptr }
    }

    /// Narrows the selection to nodes whose operator passes `check`.
    pub fn check(self, check: Check) -> (s: SelectOp)
        ensures
            s == (SelectOp { check: Some(check), ..self }),
    {
        SelectOp { ty: self.ty, check: Some(check), ptr: self.ptr }
    }

    /// Captures the selected node's id in variable `var`.
    pub fn ptr(self, var: usize) -> (s: SelectOp)
        ensures
            s == (SelectOp { ptr: Some(var), ..self }),
    {
        SelectOp { ty: self.ty, check: self.check, ptr: Some(var) }
    }

    /// Whether a node with this operator is selected.
    pub open spec fn accepts(self, op: Op) -> bool {
        &&& self.ty matches Some(kind) ==> op.spec_kind() == kind
        &&& self.check matches Some(check) ==> check.holds(op)
    }

    /// Decides whether a node with this operator is selected. The kind is
    /// looked at first, and the test only where the kind fits.
    pub fn test(&self, op: Op) -> (r: bool)
        ensures
            r == self.accepts(op),
    {
        let kind_fits = match self.ty {
            Some(kind) => op.kind() == kind,
            None => true,
        };
        if !kind_fits {
            return false;
        }
        match self.check {
            Some(check) => check.test(op),
            None => true,
        }
    }
}

/// A subgraph shape. `Edge(source, target)` stands for the node that
/// `target` selects, and demands an edge to it from a node that `source`
/// selects; either side may again be an edge shape.
#[derive(Debug)]
pub enum Selector {
    Op(SelectOp),
    Edge(Box<Selector>, Box<Selector>),
}

/// One occurrence of a shape: for each variable, the node it captured.
#[derive(Debug)]
pub struct Binding {
    pub slots: Vec<Option<u32>>,
}

impl View for Binding {
    type V = Seq<Option<u32>>;

    open spec fn view(&self) -> Seq<Option<u32>> {
        self.slots@
    }
}

impl Binding {
    /// A binding of `vars` variables, none of them bound.
    pub fn unbound(vars: usize) -> (b: Binding)
        ensures
            b@ == Seq::new(vars as nat, |v: int| None::<u32>),
    {
        let mut slots: Vec<Option<u32>> = Vec::new();
        let mut i: usize = 0;
        while i < vars
            invariant
                i <= vars,
                slots@ == Seq::new(i as nat, |v: int| None::<u32>),
            decreases vars - i,
        {
            slots.push(None);
            i = i + 1;
            assert(slots@ =~= Seq::new(i as nat, |v: int| None::<u32>));
        }
        Binding { slots }
    }

    /// The node that variable `var` captured.
    pub fn get(&self, var: usize) -> (id: Option<u32>)
        ensures
            id == bound(self@, var as int),
    {
        if var < self.slots.len() {
            self.slots[var]
        } else {
            None
        }
    }

    /// A copy of the binding.
    pub fn copy(&self) -> (b: Binding)
        ensures
            b@ == self@,
    {
        let mut slots: Vec<Option<u32>> = Vec::new();
        let mut i: usize = 0;
        while i < self.slots.len()
            invariant
                i <= self.slots.len(),
                slots@ == self.slots@.take(i as int),
            decreases self.slots.len() - i,
        {
            slots.push(self.slots[i]);
            i = i + 1;
            assert(slots@ =~= self.slots@.take(i as int));
        }
        assert(self.slots@.take(i as int) =~= self.slots@);
        Binding { slots }
    }

    /// Whether no two variables name the same node.
    pub fn is_distinct(&self) -> (r: bool)
        ensures
            r == distinct(self@),
    {
        let n = self.slots.len();
        let mut v: usize = 0;
        while v < n
            invariant
                v <= n,
                n == self.slots@.len(),
                forall|p: int, q: int|
                    0 <= p < q < v && self@[p] is Some && self@[q] is Some ==> self@[p]
                        != self@[q],
            decreases n - v,
        {
            if let Some(late) = self.slots[v] {
                let mut u: usize = 0;
                while u < v
                    invariant
                        u <= v < n,
                        n == self.slots@.len(),
                        self@[v as int] == Some(late),
                        forall|p: int|
                            0 <= p < u && self@[p] is Some ==> self@[p] != self@[v as int],
                    decreases v - u,
                {
                    if let Some(early) = self.slots[u] {
                        if early == late {
                            assert(self@[u as int] == self@[v as int]);
                            return false;
                        }
                    }
                    u = u + 1;
                }
            }
            v = v + 1;
        }
        true
    }

    /// A copy of the binding in which `var` is bound to `id`.
    fn with(&self, var: usize, id: u32) -> (b: Binding)
        requires
            var < self@.len(),
        ensures
            b@ == self@.update(var as int, Some(id)),
    {
        let mut b = self.copy();
        b.slots.set(var, Some(id));
        b
    }
}

/// The node that variable `var` has in `b`; `None` where `b` has no such
/// variable.
pub open spec fn bound(b: Seq<Option<u32>>, var: int) -> Option<u32> {
    if 0 <= var < b.len() {
        b[var]
    } else {
        None
    }
}

/// Whether no two variables of `b` name the same node.
pub open spec fn distinct(b: Seq<Option<u32>>) -> bool {
    forall|u: int, v: int|
        0 <= u < v < b.len() && b[u] is Some && b[v] is Some ==> b[u] != b[v]
}

/// Whether `b` is among the bindings `found`.
pub open spec fn found_in(found: Seq<Binding>, b: Seq<Option<u32>>) -> bool {
    exists|i: int| 0 <= i < found.len() && (#[trigger] found[i])@ == b
}

/// Whether `b` extends the `i`-th of `targets` by an occurrence of `source`
/// at the start of the `j`-th of `incoming`.
pub open spec fn via(
    source: Selector,
    g: GraphView,
    targets: Seq<Binding>,
    incoming: Seq<Edge>,
    i: int,
    j: int,
    b: Seq<Option<u32>>,
) -> bool {
    &&& source.extends(targets[i]@, b)
    &&& source.occurs_at(g, incoming[j].source, b)
}

/// Whether the pair `(i, j)` comes before `(rows, cols)` when the pairs
/// below `width` columns are walked row by row.
pub open spec fn done(i: int, j: int, rows: int, cols: int, width: int) -> bool {
    &&& 0 <= i
    &&& 0 <= j < width
    &&& i < rows || (i == rows && j < cols)
}

/// Whether `b` arises from one of the pairs walked before `(rows, cols)`.
pub open spec fn joined(
    source: Selector,
    g: GraphView,
    targets: Seq<Binding>,
    incoming: Seq<Edge>,
    rows: int,
    cols: int,
    b: Seq<Option<u32>>,
) -> bool {
    exists|i: int, j: int|
        #[trigger] via(source, g, targets, incoming, i, j, b) && done(
            i,
            j,
            rows,
            cols,
            incoming.len() as int,
        )
}

/// A binding is found in two lists put together exactly if it is found in
/// one of them.
proof fn lemma_found_in_concat(first: Seq<Binding>, second: Seq<Binding>, b: Seq<Option<u32>>)
    ensures
        found_in(first + second, b) <==> found_in(first, b) || found_in(second, b),
{
    let both = first + second;
    if found_in(first, b) {
        let i = choose|i: int| 0 <= i < first.len() && (#[trigger] first[i])@ == b;
        assert(both[i]@ == b);
    }
    if found_in(second, b) {
        let i = choose|i: int| 0 <= i < second.len() && (#[trigger] second[i])@ == b;
        assert(both[first.len() + i]@ == b);
    }
    if found_in(both, b) {
        let i = choose|i: int| 0 <= i < both.len() && (#[trigger] both[i])@ == b;
        if i < first.len() {
            assert(first[i]@ == b);
        } else {
            assert(second[i - first.len()]@ == b);
        }
    }
}

/// A binding is found in a list with one more entry exactly if it is found
/// in the list or is that entry.
proof fn lemma_found_in_push(list: Seq<Binding>, entry: Binding, b: Seq<Option<u32>>)
    ensures
        found_in(list.push(entry), b) <==> found_in(list, b) || entry@ == b,
{
    lemma_found_in_concat(list, seq![entry], b);
    assert(list.push(entry) =~= list + seq![entry]);
    if entry@ == b {
        assert(seq![entry][0]@ == b);
    }
}

/// Walking one pair further adds what that pair gives.
proof fn lemma_joined_step(
    source: Selector,
    g: GraphView,
    targets: Seq<Binding>,
    incoming: Seq<Edge>,
    i: int,
    j: int,
    b: Seq<Option<u32>>,
)
    requires
        0 <= i,
        0 <= j < incoming.len(),
    ensures
        joined(source, g, targets, incoming, i, j + 1, b) <==> joined(
            source,
            g,
            targets,
            incoming,
            i,
            j,
            b,
        ) || via(source, g, targets, incoming, i, j, b),
{
    let width = incoming.len() as int;
    if joined(source, g, targets, incoming, i, j + 1, b) {
        let (x, y) = choose|x: int, y: int|
            #[trigger] via(source, g, targets, incoming, x, y, b) && done(x, y, i, j + 1, width);
        if !(x == i && y == j) {
            assert(done(x, y, i, j, width));
        }
    }
    if joined(source, g, targets, incoming, i, j, b) {
        let (x, y) = choose|x: int, y: int|
            #[trigger] via(source, g, targets, incoming, x, y, b) && done(x, y, i, j, width);
        assert(done(x, y, i, j + 1, width));
    }
    if via(source, g, targets, incoming, i, j, b) {
        assert(done(i, j, i, j + 1, width));
    }
}

/// A row walked to its end is the next row not yet begun.
proof fn lemma_joined_row(
    source: Selector,
    g: GraphView,
    targets: Seq<Binding>,
    incoming: Seq<Edge>,
    i: int,
    b: Seq<Option<u32>>,
)
    requires
        0 <= i,
    ensures
        joined(source, g, targets, incoming, i, incoming.len() as int, b) <==> joined(
            source,
            g,
            targets,
            incoming,
            i + 1,
            0,
            b,
        ),
{
    let width = incoming.len() as int;
    if joined(source, g, targets, incoming, i, width, b) {
        let (x, y) = choose|x: int, y: int|
            #[trigger] via(source, g, targets, incoming, x, y, b) && done(x, y, i, width, width);
        assert(done(x, y, i + 1, 0, width));
    }
    if joined(source, g, targets, incoming, i + 1, 0, b) {
        let (x, y) = choose|x: int, y: int|
            #[trigger] via(source, g, targets, incoming, x, y, b) && done(x, y, i + 1, 0, width);
        assert(done(x, y, i, width, width));
    }
}

impl Selector {
    /// The shape that selects one node.
    pub fn op(select: SelectOp) -> (s: Selector)
        ensures
            s == Selector::Op(select),
    {
        Selector::Op(select)
    }

    /// The shape of an edge from what `source` selects to what `target`
    /// selects.
    pub fn edge(source: Selector, target: Selector) -> (s: Selector)
        ensures
            s == Selector::Edge(Box::new(source), Box::new(target)),
    {
        Selector::Edge(Box::new(source), Box::new(target))
    }

    /// Whether some node of the shape captures into variable `var`.
    pub open spec fn captures(self, var: int) -> bool
        decreases self,
    {
        match self {
            Selector::Op(select) => select.ptr matches Some(p) && p == var,
            Selector::Edge(source, target) => source.captures(var) || target.captures(var),
        }
    }

    /// Whether a node with the operator `op` passes every selection of the
    /// shape that captures into `var`.
    pub open spec fn admits(self, var: int, op: Op) -> bool
        decreases self,
    {
        match self {
            Selector::Op(select) => select.ptr matches Some(p) && p == var ==> select.accepts(op),
            Selector::Edge(source, target) => source.admits(var, op) && target.admits(var, op),
        }
    }

    /// Whether the shape occurs in `g` at `node` under the binding `b`: each
    /// node of the shape selects a live node of `g`, each edge of the shape
    /// has an edge of `g` under it, and each capture agrees with `b`. A
    /// variable that the shape captures twice thus names one node.
    pub open spec fn occurs_at(self, g: GraphView, node: u32, b: Seq<Option<u32>>) -> bool
        decreases self,
    {
        match self {
            Selector::Op(select) => {
                &&& g.nodes.contains_key(node)
                &&& select.accepts(g.nodes[node])
                &&& select.ptr matches Some(p) ==> bound(b, p as int) == Some(node)
            },
            Selector::Edge(source, target) => {
                &&& target.occurs_at(g, node, b)
                &&& exists|e: Edge|
                    {
                        &&& #[trigger] g.edges.count(e) > 0
                        &&& e.target == node
                        &&& source.occurs_at(g, e.source, b)
                    }
            },
        }
    }

    /// Whether `b` is an occurrence of the shape in `g`: the shape occurs
    /// under `b` at some node, `b` binds no variable but those the shape
    /// captures, and no two variables name the same node.
    pub open spec fn is_match(self, g: GraphView, b: Seq<Option<u32>>) -> bool {
        &&& exists|node: u32| self.occurs_at(g, node, b)
        &&& forall|var: int| 0 <= var < b.len() && !self.captures(var) ==> b[var] is None
        &&& distinct(b)
    }

    /// As [`Self::is_match`], but two variables may name one node.
    pub open spec fn is_overlay(self, g: GraphView, b: Seq<Option<u32>>) -> bool {
        &&& exists|node: u32| self.occurs_at(g, node, b)
        &&& forall|var: int| 0 <= var < b.len() && !self.captures(var) ==> b[var] is None
    }

    /// Whether `b` adds to `base` only bindings of variables that the shape
    /// captures.
    pub open spec fn extends(self, base: Seq<Option<u32>>, b: Seq<Option<u32>>) -> bool {
        &&& b.len() == base.len()
        &&& forall|var: int|
            0 <= var < b.len() ==> {
                &&& base[var] is Some ==> b[var] == base[var]
                &&& base[var] is None && !self.captures(var) ==> b[var] is None
            }
    }

    /// Where the shape occurs, the node is live.
    pub proof fn lemma_occurs_at_live(self, g: GraphView, node: u32, b: Seq<Option<u32>>)
        requires
            self.occurs_at(g, node, b),
        ensures
            g.nodes.contains_key(node),
        decreases self,
    {
        match self {
            Selector::Op(_) => {},
            Selector::Edge(_, target) => {
                target.lemma_occurs_at_live(g, node, b);
            },
        }
    }

    /// Where the shape occurs, each variable it captures is bound to a live
    /// node.
    pub proof fn lemma_captured_is_live(
        self,
        g: GraphView,
        node: u32,
        b: Seq<Option<u32>>,
        var: int,
    )
        requires
            self.occurs_at(g, node, b),
            self.captures(var),
        ensures
            0 <= var < b.len(),
            b[var] is Some,
            g.nodes.contains_key(b[var]->0),
        decreases self,
    {
        match self {
            Selector::Op(_) => {},
            Selector::Edge(source, target) => {
                if target.captures(var) {
                    target.lemma_captured_is_live(g, node, b, var);
                } else {
                    let e = choose|e: Edge|
                        {
                            &&& #[trigger] g.edges.count(e) > 0
                            &&& e.target == node
                            &&& source.occurs_at(g, e.source, b)
                        };
                    source.lemma_captured_is_live(g, e.source, b, var);
                }
            },
        }
    }

    /// Joins the two sides of an edge shape: a binding extends `base` to an
    /// occurrence of the whole shape at `node` exactly if it extends, by the
    /// source shape at the start of an edge into `node`, one of the bindings
    /// `targets` that extend `base` to an occurrence of the target shape.
    proof fn lemma_edge_join(
        source: Selector,
        target: Selector,
        g: GraphView,
        node: u32,
        base: Seq<Option<u32>>,
        targets: Seq<Binding>,
        incoming: Seq<Edge>,
        b: Seq<Option<u32>>,
    )
        requires
            forall|d: Seq<Option<u32>>|
                found_in(targets, d) <==> target.extends(base, d) && target.occurs_at(g, node, d),
            forall|e: Edge| incoming.contains(e) <==> g.edges.count(e) > 0 && e.target == node,
        ensures
            joined(source, g, targets, incoming, targets.len() as int, 0, b) <==> Selector::Edge(
                Box::new(source),
                Box::new(target),
            ).extends(base, b) && Selector::Edge(Box::new(source), Box::new(target)).occurs_at(
                g,
                node,
                b,
            ),
    {
        let whole = Selector::Edge(Box::new(source), Box::new(target));
        if joined(source, g, targets, incoming, targets.len() as int, 0, b) {
            let (i, j) = choose|i: int, j: int| via(source, g, targets, incoming, i, j, b) && done(
                i,
                j,
                targets.len() as int,
                0,
                incoming.len() as int,
            );
            let d = targets[i]@;
            let e = incoming[j];
            assert(found_in(targets, d));
            assert(incoming.contains(e));
            assert forall|var: int| 0 <= var < d.len() && target.captures(var) implies d[var]
                == b[var] by {
                target.lemma_captured_is_live(g, node, d, var);
            }
            target.lemma_occurs_at_agree(g, node, d, b);
            assert(g.edges.count(e) > 0);
            assert(whole.occurs_at(g, node, b));
            assert(whole.extends(base, b));
        }
        if whole.extends(base, b) && whole.occurs_at(g, node, b) {
            let d = Seq::new(
                b.len(),
                |var: int|
                    if base[var] is Some || target.captures(var) {
                        b[var]
                    } else {
                        None
                    },
            );
            target.lemma_occurs_at_agree(g, node, b, d);
            assert(target.extends(base, d));
            assert(found_in(targets, d));
            let i = choose|i: int| 0 <= i < targets.len() && (#[trigger] targets[i])@ == d;
            let e = choose|e: Edge|
                {
                    &&& #[trigger] g.edges.count(e) > 0
                    &&& e.target == node
                    &&& source.occurs_at(g, e.source, b)
                };
            assert(incoming.contains(e));
            let j = choose|j: int| 0 <= j < incoming.len() && incoming[j] == e;
            assert(source.extends(d, b));
            assert(via(source, g, targets, incoming, i, j, b));
            assert(done(i, j, targets.len() as int, 0, incoming.len() as int));
        }
    }

    /// Every binding that extends `base` to an occurrence of the shape at
    /// `node`.
    pub fn match_at(&self, graph: &Graph, node: u32, base: &Binding) -> (found: Vec<Binding>)
        requires
            graph@.wf(),
        ensures
            forall|b: Seq<Option<u32>>|
                found_in(found@, b) <==> self.extends(base@, b) && self.occurs_at(graph@, node, b),
        decreases self,
    {
        let mut found: Vec<Binding> = Vec::new();
        match self {
            Selector::Op(select) => {
                let accepted = match graph.node(node) {
                    Some(op) => select.test(op),
                    None => false,
                };
                if accepted {
                    match select.ptr {
                        None => {
                            found.push(base.copy());
                        },
                        Some(var) => {
                            if var < base.slots.len() {
                                match base.slots[var] {
                                    None => {
                                        found.push(base.with(var, node));
                                    },
                                    Some(earlier) => {
                                        if earlier == node {
                                            found.push(base.copy());
                                        }
                                    },
                                }
                            }
                        },
                    }
                }
                proof {
                    assert forall|b: Seq<Option<u32>>|
                        found_in(found@, b) <==> self.extends(base@, b) && self.occurs_at(
                            graph@,
                            node,
                            b,
                        ) by {
                        if found@.len() == 1 {
                            if self.extends(base@, b) && self.occurs_at(graph@, node, b) {
                                assert(b =~= found@[0]@);
                            }
                            if found_in(found@, b) {
                                assert(b == found@[0]@);
                            }
                        }
                    }
                }
            },
            Selector::Edge(source, target) => {
                let targets = target.match_at(graph, node, base);
                let incoming = graph.incoming(node);
                let mut i: usize = 0;
                while i < targets.len()
                    invariant
                        i <= targets.len(),
                        graph@.wf(),
                        *self == Selector::Edge(*source, *target),
                        forall|b: Seq<Option<u32>>|
                            found_in(found@, b) <==> joined(
                                **source,
                                graph@,
                                targets@,
                                incoming@,
                                i as int,
                                0,
                                b,
                            ),
                    decreases targets.len() - i,
                {
                    let mut j: usize = 0;
                    while j < incoming.len()
                        invariant
                            i < targets.len(),
                            j <= incoming.len(),
                            graph@.wf(),
                            *self == Selector::Edge(*source, *target),
                            forall|b: Seq<Option<u32>>|
                                found_in(found@, b) <==> joined(
                                    **source,
                                    graph@,
                                    targets@,
                                    incoming@,
                                    i as int,
                                    j as int,
                                    b,
                                ),
                        decreases incoming.len() - j,
                    {
                        assert(self matches Selector::Edge(s, _) && s == source);
                        let mut more = source.match_at(graph, incoming[j].source, &targets[i]);
                        let ghost before = found@;
                        let ghost added = more@;
                        found.append(&mut more);
                        proof {
                            assert forall|b: Seq<Option<u32>>|
                                found_in(found@, b) <==> joined(
                                    **source,
                                    graph@,
                                    targets@,
                                    incoming@,
                                    i as int,
                                    j + 1,
                                    b,
                                ) by {
                                lemma_found_in_concat(before, added, b);
                                lemma_joined_step(
                                    **source,
                                    graph@,
                                    targets@,
                                    incoming@,
                                    i as int,
                                    j as int,
                                    b,
                                );
                            }
                        }
                        j = j + 1;
                    }
                    proof {
                        assert forall|b: Seq<Option<u32>>|
                            found_in(found@, b) <==> joined(
                                **source,
                                graph@,
                                targets@,
                                incoming@,
                                i + 1,
                                0,
                                b,
                            ) by {
                            lemma_joined_row(**source, graph@, targets@, incoming@, i as int, b);
                        }
                    }
                    i = i + 1;
                }
                proof {
                    assert forall|b: Seq<Option<u32>>|
                        found_in(found@, b) <==> self.extends(base@, b) && self.occurs_at(
                            graph@,
                            node,
                            b,
                        ) by {
                        Self::lemma_edge_join(
                            **source,
                            **target,
                            graph@,
                            node,
                            base@,
                            targets@,
                            incoming@,
                            b,
                        );
                    }
                }
            },
        }
        found
    }

    /// Every way to lay the shape over the graph, as bindings of `vars`
    /// variables, two of which may name one node. The roots are tried in
    /// ascending order of their ids; a binding is listed once for each way
    /// the graph's parallel edges carry it.
    pub fn overlays(&self, graph: &Graph, vars: usize) -> (found: Vec<Binding>)
        requires
            graph@.wf(),
        ensures
            forall|b: Seq<Option<u32>>|
                found_in(found@, b) <==> b.len() == vars && self.is_overlay(graph@, b),
    {
        let base = Binding::unbound(vars);
        let roots = graph.node_ids();
        let mut found: Vec<Binding> = Vec::new();
        let mut i: usize = 0;
        while i < roots.len()
            invariant
                i <= roots.len(),
                graph@.wf(),
                base@ == Seq::new(vars as nat, |v: int| None::<u32>),
                forall|b: Seq<Option<u32>>|
                    found_in(found@, b) <==> self.extends(base@, b) && exists|k: int|
                        0 <= k < i && self.occurs_at(graph@, #[trigger] roots@[k], b),
            decreases roots.len() - i,
        {
            let mut more = self.match_at(graph, roots[i], &base);
            let ghost before = found@;
            let ghost added = more@;
            found.append(&mut more);
            proof {
                assert forall|b: Seq<Option<u32>>|
                    found_in(found@, b) <==> self.extends(base@, b) && exists|k: int|
                        0 <= k < i + 1 && self.occurs_at(graph@, #[trigger] roots@[k], b) by {
                    lemma_found_in_concat(before, added, b);
                    if self.extends(base@, b) && exists|k: int|
                        0 <= k < i + 1 && self.occurs_at(graph@, #[trigger] roots@[k], b) {
                        let k = choose|k: int|
                            0 <= k < i + 1 && self.occurs_at(graph@, #[trigger] roots@[k], b);
                        if k < i {
                            assert(found_in(before, b));
                        }
                    }
                }
            }
            i = i + 1;
        }
        proof {
            assert forall|b: Seq<Option<u32>>|
                found_in(found@, b) <==> b.len() == vars && self.is_overlay(graph@, b) by {
                if b.len() == vars && self.is_overlay(graph@, b) {
                    let node = choose|node: u32| self.occurs_at(graph@, node, b);
                    self.lemma_occurs_at_live(graph@, node, b);
                    assert(roots@.contains(node));
                    let k = choose|k: int| 0 <= k < roots@.len() && roots@[k] == node;
                    assert(self.occurs_at(graph@, roots@[k], b));
                    assert(self.extends(base@, b));
                }
            }
        }
        found
    }

    /// Every occurrence of the shape in the graph, as bindings of `vars`
    /// variables, in the order in which [`Self::overlays`] lists them.
    pub fn search(&self, graph: &Graph, vars: usize) -> (found: Vec<Binding>)
        requires
            graph@.wf(),
        ensures
            forall|b: Seq<Option<u32>>|
                found_in(found@, b) <==> b.len() == vars && self.is_match(graph@, b),
    {
        let all = self.overlays(graph, vars);
        let mut found: Vec<Binding> = Vec::new();
        let mut i: usize = 0;
        while i < all.len()
            invariant
                i <= all.len(),
                forall|b: Seq<Option<u32>>|
                    found_in(all@, b) <==> b.len() == vars && self.is_overlay(graph@, b),
                forall|b: Seq<Option<u32>>| #[trigger]
                    found_in(found@, b) <==> distinct(b) && found_in(all@.take(i as int), b),
            decreases all.len() - i,
        {
            let ghost before = found@;
            if all[i].is_distinct() {
                found.push(all[i].copy());
            }
            proof {
                assert(all@.take(i + 1) =~= all@.take(i as int).push(all@[i as int]));
                assert forall|b: Seq<Option<u32>>| #[trigger]
                    found_in(found@, b) <==> distinct(b) && found_in(all@.take(i + 1), b) by {
                    assert(found_in(before, b) <==> distinct(b) && found_in(
                        all@.take(i as int),
                        b,
                    ));
                    lemma_found_in_push(all@.take(i as int), all@[i as int], b);
                    if found@.len() > before.len() {
                        assert(found@ =~= before.push(found@[found@.len() - 1]));
                        lemma_found_in_push(before, found@[found@.len() - 1], b);
                    }
                }
            }
            i = i + 1;
        }
        proof {
            assert(all@.take(i as int) =~= all@);
            assert forall|b: Seq<Option<u32>>|
                found_in(found@, b) <==> b.len() == vars && self.is_match(graph@, b) by {
                assert(found_in(found@, b) <==> distinct(b) && found_in(all@.take(i as int), b));
                assert(found_in(all@, b) <==> b.len() == vars && self.is_overlay(graph@, b));
            }
        }
        found
    }

    /// Where the shape occurs, the node of each bound variable passes every
    /// selection that captures into the variable.
    pub proof fn lemma_bound_is_admitted(
        self,
        g: GraphView,
        node: u32,
        b: Seq<Option<u32>>,
        var: int,
    )
        requires
            self.occurs_at(g, node, b),
            0 <= var < b.len(),
            b[var] is Some,
        ensures
            self.admits(var, g.nodes[b[var]->0]),
        decreases self,
    {
        match self {
            Selector::Op(_) => {},
            Selector::Edge(source, target) => {
                target.lemma_bound_is_admitted(g, node, b, var);
                let e = choose|e: Edge|
                    {
                        &&& #[trigger] g.edges.count(e) > 0
                        &&& e.target == node
                        &&& source.occurs_at(g, e.source, b)
                    };
                source.lemma_bound_is_admitted(g, e.source, b, var);
            },
        }
    }

    /// Whether the shape occurs under a binding depends only on the
    /// variables that the shape captures.
    pub proof fn lemma_occurs_at_agree(
        self,
        g: GraphView,
        node: u32,
        a: Seq<Option<u32>>,
        b: Seq<Option<u32>>,
    )
        requires
            self.occurs_at(g, node, a),
            a.len() == b.len(),
            forall|var: int| 0 <= var < a.len() && self.captures(var) ==> a[var] == b[var],
        ensures
            self.occurs_at(g, node, b),
        decreases self,
    {
        match self {
            Selector::Op(select) => {
                if let Some(p) = select.ptr {
                    assert(self.captures(p as int));
                }
            },
            Selector::Edge(source, target) => {
                target.lemma_occurs_at_agree(g, node, a, b);
                let e = choose|e: Edge|
                    {
                        &&& #[trigger] g.edges.count(e) > 0
                        &&& e.target == node
                        &&& source.occurs_at(g, e.source, a)
                    };
                source.lemma_occurs_at_agree(g, e.source, a, b);
            },
        }
    }
}

} // verus!
