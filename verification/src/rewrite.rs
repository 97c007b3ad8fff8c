//! Rewrite rules, the engine that applies one to an occurrence of its
//! shape, and the pass that applies it until the shape occurs no more.

use vstd::prelude::*;
use crate::counting::lemma_filter_len;
use crate::counting::lemma_filter_split;
use crate::counting::lemma_map_len_bound;
use crate::counting::lemma_subset_len;
use crate::graph::Edge;
use crate::graph::Graph;
use crate::graph::GraphView;
use crate::op::Dependency;
use crate::op::Op;
use crate::op::ShapeTracker;
use crate::select::Binding;
use crate::select::Selector;
use crate::select::found_in;

verus! {

/// Where the replacement node takes its one input from.
#[derive(Clone, Copy, Debug)]
pub enum InputRule {
    /// From the node captured in `input`; the new edge takes the shape of a
    /// data edge into the node captured in `shape_at`.
    Captured { input: usize, shape_at: usize },
    /// From a data source of the node captured in `consumer`, other than
    /// the node captured in `excluded`: the one at the lowest input slot,
    /// with the shape of that edge.
    OtherSource { consumer: usize, excluded: usize },
}

/// A rewrite rule: a shape, and what becomes of an occurrence of it.
#[derive(Debug)]
pub struct Rule {
    /// The shape to look for.
    pub pattern: Selector,
    /// The number of variables in a binding of the shape.
    pub vars: usize,
    /// The variables whose nodes must not be protected; an occurrence with
    /// a protected one is left alone.
    pub guarded: Vec<usize>,
    /// The variables whose nodes are removed, in this order.
    pub removed: Vec<usize>,
    /// The variable of the node that the replacement stands in for.
    pub terminal: usize,
    /// The variable of a removed node that the shape joins to the terminal
    /// by an edge.
    pub feeder: usize,
    /// Where the replacement takes its input from.
    pub input: InputRule,
}

/// What became of one occurrence.
#[derive(Clone, Copy, Debug, PartialEq, Eq, Structural)]
pub enum Outcome {
    /// The occurrence was replaced by the node with this id.
    Rewritten(u32),
    /// A guarded node is protected: the occurrence was left alone.
    Skipped,
}

/// Why a pass stopped.
#[derive(Clone, Copy, Debug, PartialEq, Eq, Structural)]
pub enum RewriteError {
    /// An occurrence has no input for its replacement, or only one that
    /// the rewrite would remove: the rule and the graph disagree.
    MatchInconsistency,
}

/// The node that `var` has in `b`.
pub open spec fn node_of(b: Seq<Option<u32>>, var: usize) -> u32 {
    b[var as int]->0
}

/// The edge that feeds the replacement node: from `x`, into input slot 0.
pub open spec fn input_edge(x: u32, new: u32, shape: ShapeTracker) -> Edge {
    Edge {
        source: x,
        target: new,
        weight: Dependency::Data { input_order: 0, output_order: 0, shape },
    }
}

/// Whether `a` is another node than `t` and has an edge to it.
pub open spec fn feeds(g: GraphView, a: u32, t: u32) -> bool {
    &&& a != t
    &&& exists|e: Edge| #[trigger] g.edges.count(e) > 0 && e.source == a && e.target == t
}

impl GraphView {
    /// How often `e` occurs once the node `new` has been spliced in for
    /// `t`: fed by `feed`, and with a copy of every edge that leaves `t`.
    pub open spec fn spliced_count(self, t: u32, feed: Edge, new: u32, e: Edge) -> nat {
        if e.source == new {
            self.edges.count(Edge { source: t, ..e })
        } else if e == feed {
            1
        } else {
            self.edges.count(e)
        }
    }
}

impl Graph {
    /// Splices a new node in beside `t`: adds a node for `op`, feeds it
    /// from `x`, gives it a copy of every edge that leaves `t`, and hands
    /// it the outside references to `t`. `t` itself stays.
    pub fn splice(&mut self, t: u32, x: u32, shape: ShapeTracker, op: Op) -> (new: u32)
        requires
            old(self)@.wf(),
            old(self)@.fits(),
            old(self)@.nodes.contains_key(x),
            x != t,
        ensures
            final(self)@.wf(),
            !old(self)@.nodes.contains_key(new),
            final(self)@.nodes == old(self)@.nodes.insert(new, op),
            forall|e: Edge| #[trigger]
                final(self)@.edges.count(e) == old(self)@.spliced_count(
                    t,
                    input_edge(x, new, shape),
                    new,
                    e,
                ),
            final(self)@.edges.len() == old(self)@.edges.len() + 1 + old(self)@.outgoing(t).len(),
            final(self)@.no_delete == old(self)@.with_references_moved(t, new).no_delete,
            final(self)@.to_retrieve == old(self)@.with_references_moved(t, new).to_retrieve,
            final(self)@.id_remap == old(self)@.with_references_moved(t, new).id_remap,
    {
        let ghost g = self@;
        proof {
            lemma_filter_len(g.edges, |e: Edge| e.source == t);
        }
        let new = self.add_op(op).unwrap();
        let weight = Dependency::Data { input_order: 0, output_order: 0, shape };
        let added = self.add_edge(x, new, weight);
        let ghost g1 = self@;
        let ghost feed = input_edge(x, new, shape);
        proof {
            assert(added);
            assert(g1.outgoing(t) =~= g.outgoing(t));
        }
        self.move_outgoing_edge(t, new);
        self.move_references(t, new);
        proof {
            assert forall|e: Edge| #[trigger]
                self@.edges.count(e) == g.spliced_count(t, feed, new, e) by {
                assert(self@.edges.count(e) == g1.count_after_move(t, new, e));
                let back = Edge { source: t, ..e };
                if e.source == new {
                    assert(g.edges.count(e) == 0);
                    assert(back != feed);
                    assert(e != feed);
                } else if e == feed {
                    assert(g.edges.count(e) == 0);
                }
            }
        }
        new
    }
}

/// A rule, as mathematical values.
#[verifier::ext_equal]
pub struct RuleView {
    pub pattern: Selector,
    pub vars: usize,
    pub guarded: Seq<usize>,
    pub removed: Seq<usize>,
    pub terminal: usize,
    pub feeder: usize,
    pub input: InputRule,
}

impl View for Rule {
    type V = RuleView;

    open spec fn view(&self) -> RuleView {
        RuleView {
            pattern: self.pattern,
            vars: self.vars,
            guarded: self.guarded@,
            removed: self.removed@,
            terminal: self.terminal,
            feeder: self.feeder,
            input: self.input,
        }
    }
}

impl RuleView {
    /// Whether the rule hangs together: every variable it names is one the
    /// shape captures; it removes the terminal, the feeder, and beside the
    /// terminal only guarded nodes; and wherever the shape occurs, the
    /// feeder is another node than the terminal and has an edge to it.
    pub open spec fn wf(self) -> bool {
        &&& self.pattern.captures(self.terminal as int)
        &&& self.pattern.captures(self.feeder as int)
        &&& forall|k: int|
            0 <= k < self.guarded.len() ==> self.pattern.captures(
                (#[trigger] self.guarded[k]) as int,
            )
        &&& forall|k: int|
            0 <= k < self.removed.len() ==> {
                &&& self.pattern.captures((#[trigger] self.removed[k]) as int)
                &&& self.removed[k] == self.terminal || self.guarded.contains(self.removed[k])
            }
        &&& self.removed.contains(self.terminal)
        &&& self.removed.contains(self.feeder)
        &&& match self.input {
            InputRule::Captured { input, shape_at } => self.pattern.captures(input as int)
                && self.pattern.captures(shape_at as int),
            InputRule::OtherSource { consumer, excluded } => self.pattern.captures(
                consumer as int,
            ) && self.pattern.captures(excluded as int),
        }
        &&& forall|g: GraphView, node: u32, b: Seq<Option<u32>>| #[trigger]
            self.pattern.occurs_at(g, node, b) ==> feeds(
                g,
                node_of(b, self.feeder),
                node_of(b, self.terminal),
            )
    }

    /// The variable of a matched node that the replacement's input feeds:
    /// the input itself where the shape captures it, else its consumer.
    pub open spec fn anchor(self) -> usize {
        match self.input {
            InputRule::Captured { input, shape_at } => input,
            InputRule::OtherSource { consumer, excluded } => consumer,
        }
    }

    /// Whether the shape lies upstream of its terminal: wherever it occurs
    /// in a graph whose edges a ranking grows along, no removed node ranks
    /// above the terminal, and the replacement's input ranks below it.
    pub open spec fn upstream(self) -> bool {
        forall|g: GraphView, node: u32, b: Seq<Option<u32>>, rank: spec_fn(u32) -> int|
            #![trigger self.pattern.occurs_at(g, node, b), g.ranked_by(rank)]
            self.pattern.occurs_at(g, node, b) && g.ranked_by(rank) ==> {
                &&& forall|k: int|
                    0 <= k < self.removed.len() ==> rank(node_of(b, #[trigger] self.removed[k]))
                        <= rank(node_of(b, self.terminal))
                &&& match self.input {
                    InputRule::Captured { input, shape_at } => rank(node_of(b, input)) < rank(
                        node_of(b, self.terminal),
                    ),
                    InputRule::OtherSource { consumer, excluded } => rank(node_of(b, consumer))
                        <= rank(node_of(b, self.terminal)),
                }
            }
    }

    /// Whether one of the guarded nodes of `b` is protected in `g`.
    pub open spec fn is_guard_hit(self, g: GraphView, b: Seq<Option<u32>>) -> bool {
        exists|k: int|
            0 <= k < self.guarded.len() && g.no_delete.contains(
                node_of(b, #[trigger] self.guarded[k]),
            )
    }

    /// Whether the rule removes the node `id` from the occurrence `b`.
    pub open spec fn removes(self, b: Seq<Option<u32>>, id: u32) -> bool {
        self.removes_among(b, self.removed.len() as int, id)
    }

    /// Whether `id` is the node of one of the first `n` removed variables.
    pub open spec fn removes_among(self, b: Seq<Option<u32>>, n: int, id: u32) -> bool {
        exists|k: int| 0 <= k < n && node_of(b, #[trigger] self.removed[k]) == id
    }

    /// Whether `b` is an occurrence of the shape that the rule may rewrite:
    /// none of its guarded nodes is protected.
    pub open spec fn enabled_at(self, g: GraphView, b: Seq<Option<u32>>) -> bool {
        &&& b.len() == self.vars
        &&& self.pattern.is_match(g, b)
        &&& !self.is_guard_hit(g, b)
    }

    /// Whether the rule has an occurrence in `g` that it may rewrite.
    pub open spec fn enabled(self, g: GraphView) -> bool {
        exists|b: Seq<Option<u32>>| self.enabled_at(g, b)
    }

    /// Whether the replacement of the occurrence `b` may take its input
    /// from `x`, with `shape` on the new edge.
    pub open spec fn candidate(
        self,
        g: GraphView,
        b: Seq<Option<u32>>,
        x: u32,
        shape: ShapeTracker,
    ) -> bool {
        match self.input {
            InputRule::Captured { input, shape_at } => {
                &&& x == node_of(b, input)
                &&& exists|e: Edge| #[trigger]
                    g.is_data_input(node_of(b, shape_at), e) && e.weight->shape == shape
            },
            InputRule::OtherSource { consumer, excluded } => exists|e: Edge|
                {
                    &&& #[trigger] g.is_lowest_other_input(
                        node_of(b, consumer),
                        node_of(b, excluded),
                        e,
                    )
                    &&& e.source == x
                    &&& e.weight->shape == shape
                },
        }
    }

    /// Whether the occurrence `b` cannot be rewritten although nothing
    /// protects it: the graph offers no input for the replacement, or
    /// offers one that the rewrite would remove.
    pub open spec fn stuck_at(self, g: GraphView, b: Seq<Option<u32>>) -> bool {
        &&& self.enabled_at(g, b)
        &&& {
            ||| forall|x: u32, shape: ShapeTracker| !self.candidate(g, b, x, shape)
            ||| exists|x: u32, shape: ShapeTracker|
                self.candidate(g, b, x, shape) && self.removes(b, x)
        }
    }

    /// How often `e` occurs after the occurrence `b` has been rewritten
    /// with `new` as the replacement, fed by `feed`.
    pub open spec fn count_after(
        self,
        g: GraphView,
        b: Seq<Option<u32>>,
        feed: Edge,
        new: u32,
        e: Edge,
    ) -> nat {
        if self.removes(b, e.source) || self.removes(b, e.target) {
            0
        } else {
            g.spliced_count(node_of(b, self.terminal), feed, new, e)
        }
    }

    /// The nodes after the occurrence `b` has been rewritten with `new` as
    /// the replacement: `new` with `op`, and the nodes of `g` that the rule
    /// does not remove.
    pub open spec fn nodes_after(self, g: GraphView, b: Seq<Option<u32>>, op: Op, new: u32) -> Map<
        u32,
        Op,
    > {
        Map::new(
            |id: u32| (id == new || g.nodes.contains_key(id)) && !self.removes(b, id),
            |id: u32|
                if id == new {
                    op
                } else {
                    g.nodes[id]
                },
        )
    }

    /// Whether `after` is `g` with the occurrence `b` rewritten: the new
    /// node `new` holds `op` and is fed from `x`; every edge that left the
    /// terminal leaves `new` instead; `new` has taken the terminal's place
    /// in the reference tables; and the removed nodes are gone with the
    /// edges at them.
    pub open spec fn rewrites(
        self,
        g: GraphView,
        b: Seq<Option<u32>>,
        op: Op,
        x: u32,
        shape: ShapeTracker,
        new: u32,
        after: GraphView,
    ) -> bool {
        let t = node_of(b, self.terminal);
        &&& !g.nodes.contains_key(new)
        &&& after.nodes == self.nodes_after(g, b, op, new)
        &&& forall|e: Edge| #[trigger]
            after.edges.count(e) == self.count_after(g, b, input_edge(x, new, shape), new, e)
        &&& after.no_delete == g.with_references_moved(t, new).no_delete
        &&& after.to_retrieve == g.with_references_moved(t, new).to_retrieve
        &&& after.id_remap == g.with_references_moved(t, new).id_remap
    }

    /// Whether `after` is `g` with the occurrence `b` rewritten into the
    /// node `new`, from an input that the graph offers and the rule does
    /// not remove.
    pub open spec fn rewrites_from(
        self,
        g: GraphView,
        b: Seq<Option<u32>>,
        op: Op,
        new: u32,
        after: GraphView,
    ) -> bool {
        exists|x: u32, shape: ShapeTracker|
            {
                &&& self.candidate(g, b, x, shape)
                &&& !self.removes(b, x)
                &&& #[trigger] self.rewrites(g, b, op, x, shape, new, after)
            }
    }

    /// Whether one rewrite by the rule leads from `g` to `after`.
    pub open spec fn step(self, op: Op, g: GraphView, after: GraphView) -> bool {
        exists|b: Seq<Option<u32>>, new: u32|
            self.enabled_at(g, b) && #[trigger] self.rewrites_from(g, b, op, new, after)
    }

    /// In an occurrence, every variable that the shape captures is bound to
    /// a live node.
    pub proof fn lemma_match_is_live(self, g: GraphView, b: Seq<Option<u32>>)
        requires
            self.pattern.is_match(g, b),
        ensures
            forall|var: int| #[trigger]
                self.pattern.captures(var) ==> 0 <= var < b.len() && b[var] is Some
                    && g.nodes.contains_key(b[var]->0),
    {
        let node = choose|node: u32| self.pattern.occurs_at(g, node, b);
        assert forall|var: int| #[trigger] self.pattern.captures(var) implies 0 <= var < b.len()
            && b[var] is Some && g.nodes.contains_key(b[var]->0) by {
            self.pattern.lemma_captured_is_live(g, node, b, var);
        }
    }

    /// Whether `n` rewrites by the rule, one after another, lead from `g`
    /// to `after`.
    pub open spec fn reaches(self, op: Op, g: GraphView, after: GraphView, n: nat) -> bool
        decreases n,
    {
        if n == 0 {
            after == g
        } else {
            exists|mid: GraphView|
                self.reaches(op, g, mid, (n - 1) as nat) && #[trigger] self.step(op, mid, after)
        }
    }

    /// From a graph in which the rule has nothing to rewrite, no rewrite
    /// leads anywhere: what is reached is the graph itself, in no steps.
    pub proof fn lemma_reaches_from_fixed(self, op: Op, g: GraphView, after: GraphView, n: nat)
        requires
            self.reaches(op, g, after, n),
        ensures
            !self.enabled(g) ==> n == 0 && after == g,
        decreases n,
    {
        if n > 0 && !self.enabled(g) {
            let mid = choose|mid: GraphView|
                self.reaches(op, g, mid, (n - 1) as nat) && #[trigger] self.step(op, mid, after);
            self.lemma_reaches_from_fixed(op, g, mid, (n - 1) as nat);
            let (b, new) = choose|b: Seq<Option<u32>>, new: u32|
                self.enabled_at(mid, b) && #[trigger] self.rewrites_from(mid, b, op, new, after);
            assert(self.enabled_at(g, b));
        }
    }
}

impl Rule {
    /// Whether one of the guarded nodes of the occurrence is protected.
    pub fn guard_hit(&self, graph: &Graph, binding: &Binding) -> (hit: bool)
        requires
            self@.wf(),
            self.pattern.is_match(graph@, binding@),
        ensures
            hit == self@.is_guard_hit(graph@, binding@),
    {
        proof {
            self@.lemma_match_is_live(graph@, binding@);
        }
        let mut k: usize = 0;
        while k < self.guarded.len()
            invariant
                k <= self.guarded.len(),
                forall|j: int|
                    0 <= j < self@.guarded.len() ==> bound_at(binding@, #[trigger] self@.guarded[j]),
                forall|j: int|
                    0 <= j < k ==> !graph@.no_delete.contains(
                        node_of(binding@, #[trigger] self@.guarded[j]),
                    ),
            decreases self.guarded.len() - k,
        {
            let var = self.guarded[k];
            assert(bound_at(binding@, self@.guarded[k as int]));
            let id = binding.get(var).unwrap();
            if graph.is_protected(id) {
                return true;
            }
            k = k + 1;
        }
        false
    }

    /// Whether the rule removes the node `id` from the occurrence.
    pub fn is_removed(&self, binding: &Binding, id: u32) -> (r: bool)
        requires
            forall|j: int|
                0 <= j < self@.removed.len() ==> bound_at(binding@, #[trigger] self@.removed[j]),
        ensures
            r == self@.removes(binding@, id),
    {
        let mut k: usize = 0;
        while k < self.removed.len()
            invariant
                k <= self.removed.len(),
                forall|j: int|
                    0 <= j < self@.removed.len() ==> bound_at(binding@, #[trigger] self@.removed[j]),
                !self@.removes_among(binding@, k as int, id),
            decreases self.removed.len() - k,
        {
            let var = self.removed[k];
            assert(bound_at(binding@, self@.removed[k as int]));
            if binding.get(var).unwrap() == id {
                assert(node_of(binding@, self@.removed[k as int]) == id);
                return true;
            }
            k = k + 1;
        }
        false
    }

    /// An input for the replacement of the occurrence, with the shape for
    /// the new edge; `None` where the graph offers none.
    pub fn choose_input(&self, graph: &Graph, binding: &Binding) -> (found: Option<
        (u32, ShapeTracker),
    >)
        requires
            self@.wf(),
            graph@.wf(),
            self.pattern.is_match(graph@, binding@),
        ensures
            found matches Some((x, shape)) ==> self@.candidate(graph@, binding@, x, shape)
                && graph@.nodes.contains_key(x),
            found is None ==> forall|x: u32, shape: ShapeTracker|
                !self@.candidate(graph@, binding@, x, shape),
    {
        proof {
            self@.lemma_match_is_live(graph@, binding@);
        }
        match self.input {
            InputRule::Captured { input, shape_at } => {
                assert(self.pattern.captures(input as int));
                assert(self.pattern.captures(shape_at as int));
                let x = binding.get(input).unwrap();
                let at = binding.get(shape_at).unwrap();
                match graph.first_data_input(at) {
                    Some(edge) => match edge.weight {
                        Dependency::Data { input_order, output_order, shape } => {
                            assert(graph@.is_data_input(node_of(binding@, shape_at), edge));
                            Some((x, shape))
                        },
                        Dependency::Schedule => None,
                    },
                    None => None,
                }
            },
            InputRule::OtherSource { consumer, excluded } => {
                assert(self.pattern.captures(consumer as int));
                assert(self.pattern.captures(excluded as int));
                let at = binding.get(consumer).unwrap();
                let not = binding.get(excluded).unwrap();
                match graph.lowest_source_except(at, not) {
                    Some(edge) => match edge.weight {
                        Dependency::Data { input_order, output_order, shape } => {
                            assert(graph@.is_lowest_other_input(
                                node_of(binding@, consumer),
                                node_of(binding@, excluded),
                                edge,
                            ));
                            Some((edge.source, shape))
                        },
                        Dependency::Schedule => None,
                    },
                    None => None,
                }
            },
        }
    }

    /// Removes the nodes that the rule removes from the occurrence, with
    /// the edges at them.
    fn remove_matched(&self, graph: &mut Graph, binding: &Binding)
        requires
            old(graph)@.wf(),
            forall|j: int|
                0 <= j < self@.removed.len() ==> bound_at(binding@, #[trigger] self@.removed[j]),
            forall|j: int|
                0 <= j < self@.removed.len() ==> !old(graph)@.no_delete.contains(
                    node_of(binding@, #[trigger] self@.removed[j]),
                ),
        ensures
            final(graph)@.wf(),
            final(graph)@.no_delete == old(graph)@.no_delete,
            final(graph)@.to_retrieve == old(graph)@.to_retrieve,
            final(graph)@.id_remap == old(graph)@.id_remap,
            forall|id: u32|
                #![trigger final(graph)@.nodes.contains_key(id)]
                #![trigger old(graph)@.nodes.contains_key(id)]
                final(graph)@.nodes.contains_key(id) <==> old(graph)@.nodes.contains_key(id)
                    && !self@.removes(binding@, id),
            forall|id: u32| #[trigger]
                final(graph)@.nodes.contains_key(id) ==> final(graph)@.nodes[id] == old(
                    graph,
                )@.nodes[id],
            forall|e: Edge| #[trigger]
                final(graph)@.edges.count(e) == (if self@.removes(binding@, e.source)
                    || self@.removes(binding@, e.target) {
                    0
                } else {
                    old(graph)@.edges.count(e)
                }),
    {
        let mut k: usize = 0;
        while k < self.removed.len()
            invariant
                k <= self.removed.len(),
                old(graph)@.wf(),
                graph@.wf(),
                forall|j: int|
                    0 <= j < self@.removed.len() ==> bound_at(binding@, #[trigger] self@.removed[j]),
                forall|j: int|
                    0 <= j < self@.removed.len() ==> !old(graph)@.no_delete.contains(
                        node_of(binding@, #[trigger] self@.removed[j]),
                    ),
                graph@.no_delete == old(graph)@.no_delete,
                graph@.to_retrieve == old(graph)@.to_retrieve,
                graph@.id_remap == old(graph)@.id_remap,
                forall|id: u32|
                    #![trigger graph@.nodes.contains_key(id)]
                    #![trigger old(graph)@.nodes.contains_key(id)]
                    graph@.nodes.contains_key(id) <==> old(graph)@.nodes.contains_key(id)
                        && !self@.removes_among(binding@, k as int, id),
                forall|id: u32| #[trigger]
                    graph@.nodes.contains_key(id) ==> graph@.nodes[id] == old(graph)@.nodes[id],
                forall|e: Edge| #[trigger]
                    graph@.edges.count(e) == (if self@.removes_among(binding@, k as int, e.source)
                        || self@.removes_among(binding@, k as int, e.target) {
                        0
                    } else {
                        old(graph)@.edges.count(e)
                    }),
            decreases self.removed.len() - k,
        {
            let var = self.removed[k];
            assert(bound_at(binding@, self@.removed[k as int]));
            let id = binding.get(var).unwrap();
            let ghost before = graph@;
            assert(!before.no_delete.contains(node_of(binding@, self@.removed[k as int])));
            graph.remove_node(id);
            proof {
                assert forall|x: u32|
                    self@.removes_among(binding@, k + 1, x) <==> self@.removes_among(
                        binding@,
                        k as int,
                        x,
                    ) || x == id by {
                    if self@.removes_among(binding@, k + 1, x) {
                        let j = choose|j: int|
                            0 <= j < k + 1 && node_of(binding@, #[trigger] self@.removed[j]) == x;
                        if j < k {
                            assert(self@.removes_among(binding@, k as int, x));
                        }
                    }
                    if self@.removes_among(binding@, k as int, x) {
                        let j = choose|j: int|
                            0 <= j < k && node_of(binding@, #[trigger] self@.removed[j]) == x;
                        assert(0 <= j < k + 1);
                    }
                    if x == id {
                        assert(node_of(binding@, self@.removed[k as int]) == x);
                    }
                }
                assert forall|x: u32|
                    #![trigger graph@.nodes.contains_key(x)]
                    #![trigger old(graph)@.nodes.contains_key(x)]
                    graph@.nodes.contains_key(x) <==> old(graph)@.nodes.contains_key(x)
                        && !self@.removes_among(binding@, k + 1, x) by {
                    assert(before.nodes.contains_key(x) <==> old(graph)@.nodes.contains_key(x)
                        && !self@.removes_among(binding@, k as int, x));
                    assert(self@.removes_among(binding@, k + 1, x) <==> self@.removes_among(
                        binding@,
                        k as int,
                        x,
                    ) || x == id);
                }
                assert forall|x: u32| #[trigger] graph@.nodes.contains_key(x) implies graph@.nodes[x]
                    == old(graph)@.nodes[x] by {
                    assert(before.nodes.contains_key(x));
                }
                assert forall|e: Edge| #[trigger]
                    graph@.edges.count(e) == (if self@.removes_among(binding@, k + 1, e.source)
                        || self@.removes_among(binding@, k + 1, e.target) {
                        0
                    } else {
                        old(graph)@.edges.count(e)
                    }) by {
                    assert(self@.removes_among(binding@, k + 1, e.source) <==> self@.removes_among(
                        binding@,
                        k as int,
                        e.source,
                    ) || e.source == id);
                    assert(self@.removes_among(binding@, k + 1, e.target) <==> self@.removes_among(
                        binding@,
                        k as int,
                        e.target,
                    ) || e.target == id);
                    if !before.nodes.contains_key(id) && (e.source == id || e.target == id) {
                        assert(before.edges.count(e) == 0);
                    }
                }
            }
            k = k + 1;
        }
    }

    /// Rewrites one occurrence of the shape, unless a guarded node of it is
    /// protected: splices the replacement in for the terminal, then
    /// removes the matched nodes.
    pub fn apply(&self, graph: &mut Graph, binding: &Binding, op: Op) -> (r: Result<
        Outcome,
        RewriteError,
    >)
        requires
            self@.wf(),
            old(graph)@.wf(),
            old(graph)@.fits(),
            binding@.len() == self.vars,
            self.pattern.is_match(old(graph)@, binding@),
        ensures
            final(graph)@.wf(),
            r == Ok::<Outcome, RewriteError>(Outcome::Skipped) <==> self@.is_guard_hit(
                old(graph)@,
                binding@,
            ),
            !(r matches Ok(Outcome::Rewritten(_))) ==> final(graph)@ == old(graph)@,
            r is Err ==> self@.stuck_at(old(graph)@, binding@),
            r matches Ok(Outcome::Rewritten(new)) ==> self@.rewrites_from(
                old(graph)@,
                binding@,
                op,
                new,
                final(graph)@,
            ),
            r matches Ok(Outcome::Rewritten(_)) ==> final(graph)@.nodes.len() < old(
                graph,
            )@.nodes.len() && final(graph)@.edges.len() <= old(graph)@.edges.len(),
    {
        let ghost g = graph@;
        let ghost b = binding@;
        proof {
            self@.lemma_match_is_live(g, b);
            assert forall|j: int| 0 <= j < self@.removed.len() implies bound_at(
                b,
                #[trigger] self@.removed[j],
            ) by {
                assert(self.pattern.captures(self@.removed[j] as int));
            }
        }
        if self.guard_hit(graph, binding) {
            return Ok(Outcome::Skipped);
        }
        let (x, shape) = match self.choose_input(graph, binding) {
            Some(input) => input,
            None => {
                return Err(RewriteError::MatchInconsistency);
            },
        };
        if self.is_removed(binding, x) {
            return Err(RewriteError::MatchInconsistency);
        }
        let t = binding.get(self.terminal).unwrap();
        let ghost f = node_of(b, self.feeder);
        proof {
            let k = choose|k: int| 0 <= k < self@.removed.len() && self@.removed[k] == self.terminal;
            assert(node_of(b, self@.removed[k]) == t);
            assert(self@.removes(b, t));
            let kf = choose|k: int| 0 <= k < self@.removed.len() && self@.removed[k] == self.feeder;
            assert(node_of(b, self@.removed[kf]) == f);
            assert(self@.removes(b, f));
            let node = choose|node: u32| self.pattern.occurs_at(g, node, b);
            assert(feeds(g, f, t));
            assert(g.nodes.contains_key(t));
            assert(g.nodes.contains_key(f));
        }
        let new = graph.splice(t, x, shape, op);
        let ghost g3 = graph@;
        proof {
            assert forall|j: int| 0 <= j < self@.removed.len() implies !g3.no_delete.contains(
                node_of(b, #[trigger] self@.removed[j]),
            ) by {
                let var = self@.removed[j];
                assert(self.pattern.captures(var as int));
                if var != self.terminal {
                    let i = choose|i: int| 0 <= i < self@.guarded.len() && self@.guarded[i] == var;
                    assert(!g.no_delete.contains(node_of(b, self@.guarded[i])));
                }
            }
        }
        self.remove_matched(graph, binding);
        proof {
            let after = graph@;
            let feed = input_edge(x, new, shape);
            assert forall|id: u32| #[trigger] self@.removes(b, id) implies g.nodes.contains_key(id) by {
                let k = choose|k: int|
                    0 <= k < self@.removed.len() && node_of(b, #[trigger] self@.removed[k]) == id;
                assert(self.pattern.captures(self@.removed[k] as int));
            }
            assert forall|id: u32| #[trigger]
                after.nodes.contains_key(id) <==> (id == new || g.nodes.contains_key(id))
                    && !self@.removes(b, id) by {
                assert(g3.nodes.contains_key(id) <==> id == new || g.nodes.contains_key(id));
            }
            assert forall|id: u32| #[trigger] after.nodes.contains_key(id) implies after.nodes[id]
                == (if id == new {
                op
            } else {
                g.nodes[id]
            }) by {
                assert(g3.nodes.contains_key(id));
            }
            assert(after.nodes =~= self@.nodes_after(g, b, op, new));
            assert forall|e: Edge| #[trigger]
                after.edges.count(e) == self@.count_after(g, b, feed, new, e) by {
                assert(g3.edges.count(e) == g.spliced_count(t, feed, new, e));
            }
            assert(self@.rewrites(g, b, op, x, shape, new, after));
            // One node came, and at least the terminal and the feeder went.
            let room = g.nodes.dom().insert(new).remove(t).remove(f);
            lemma_map_len_bound(after.nodes, room);
            // The edges at the terminal went: as many as the copies that
            // came, and the feeder's besides.
            let fe = choose|e: Edge| #[trigger] g.edges.count(e) > 0 && e.source == f && e.target == t;
            let at_t = |e: Edge| e.source == t || e.target == t;
            let off_t = |e: Edge| !(e.source == t || e.target == t);
            let gone = g.outgoing(t).insert(fe);
            assert forall|e: Edge| gone.count(e) <= g3.edges.filter(at_t).count(e) by {
                assert(g.edges.count(e) <= g3.edges.count(e));
            }
            lemma_subset_len(gone, g3.edges.filter(at_t));
            lemma_filter_split(g3.edges, at_t, off_t);
            assert forall|e: Edge| after.edges.count(e) <= g3.edges.filter(off_t).count(e) by {
                if at_t(e) {
                    assert(self@.removes(b, e.source) || self@.removes(b, e.target));
                }
            }
            lemma_subset_len(after.edges, g3.edges.filter(off_t));
            assert(self@.candidate(g, b, x, shape));
            assert(!self@.removes(b, x));
            assert(after.nodes.len() < g.nodes.len());
            assert(gone.len() == g.outgoing(t).len() + 1);
            assert(g3.edges.filter(at_t).len() >= g.outgoing(t).len() + 1);
            assert(after.edges.len() <= g.edges.len());
            assert(self@.rewrites_from(g, b, op, new, after));
        }
        Ok(Outcome::Rewritten(new))
    }

    /// Rewrites the first of the occurrences `found` that nothing protects.
    /// `true` where one was rewritten, `false` where each is protected.
    fn rewrite_first(&self, graph: &mut Graph, found: &Vec<Binding>, op: Op) -> (r: Result<
        bool,
        RewriteError,
    >)
        requires
            self@.wf(),
            old(graph)@.wf(),
            old(graph)@.fits(),
            forall|b: Seq<Option<u32>>|
                found_in(found@, b) <==> b.len() == self.vars && self.pattern.is_match(
                    old(graph)@,
                    b,
                ),
        ensures
            final(graph)@.wf(),
            final(graph)@.fits(),
            r matches Ok(rewritten) ==> {
                if rewritten {
                    &&& self@.step(op, old(graph)@, final(graph)@)
                    &&& final(graph)@.nodes.len() < old(graph)@.nodes.len()
                } else {
                    &&& final(graph)@ == old(graph)@
                    &&& !self@.enabled(old(graph)@)
                }
            },
            r is Err ==> final(graph)@ == old(graph)@ && exists|b: Seq<Option<u32>>|
                self@.stuck_at(old(graph)@, b),
    {
        let mut i: usize = 0;
        while i < found.len()
            invariant
                i <= found.len(),
                self@.wf(),
                graph@ == old(graph)@,
                graph@.wf(),
                graph@.fits(),
                forall|b: Seq<Option<u32>>|
                    found_in(found@, b) <==> b.len() == self.vars && self.pattern.is_match(
                        old(graph)@,
                        b,
                    ),
                forall|j: int| 0 <= j < i ==> self@.is_guard_hit(graph@, (#[trigger] found@[j])@),
            decreases found.len() - i,
        {
            assert(found_in(found@, found@[i as int]@));
            let ghost g = graph@;
            match self.apply(graph, &found[i], op) {
                Ok(Outcome::Rewritten(new)) => {
                    assert(self@.enabled_at(g, found@[i as int]@));
                    assert(self@.step(op, g, graph@));
                    return Ok(true);
                },
                Ok(Outcome::Skipped) => {},
                Err(e) => {
                    return Err(e);
                },
            }
            i = i + 1;
        }
        proof {
            if self@.enabled(graph@) {
                let b = choose|b: Seq<Option<u32>>| self@.enabled_at(graph@, b);
                assert(found_in(found@, b));
                let j = choose|j: int| 0 <= j < found@.len() && (#[trigger] found@[j])@ == b;
                assert(self@.is_guard_hit(graph@, found@[j]@));
            }
        }
        Ok(false)
    }

    /// Runs the pass: rewrites occurrences of the shape, searching anew
    /// after each rewrite, until none is left that the rule may rewrite.
    /// Returns the number of rewrites. Stops with an error, at the graph
    /// reached so far, on an occurrence that has no usable input.
    pub fn run(&self, graph: &mut Graph, op: Op) -> (r: Result<usize, RewriteError>)
        requires
            self@.wf(),
            old(graph)@.wf(),
            old(graph)@.fits(),
        ensures
            final(graph)@.wf(),
            final(graph)@.fits(),
            r matches Ok(n) ==> self@.reaches(op, old(graph)@, final(graph)@, n as nat)
                && !self@.enabled(final(graph)@),
            r is Err ==> (exists|n: nat| self@.reaches(op, old(graph)@, final(graph)@, n))
                && exists|b: Seq<Option<u32>>| self@.stuck_at(final(graph)@, b),
            !self@.enabled(old(graph)@) ==> r == Ok::<usize, RewriteError>(0) && final(graph)@
                == old(graph)@,
    {
        let mut applied: usize = 0;
        loop
            invariant
                self@.wf(),
                graph@.wf(),
                graph@.fits(),
                old(graph)@.nodes.len() < u32::MAX,
                self@.reaches(op, old(graph)@, graph@, applied as nat),
                applied + graph@.nodes.len() <= old(graph)@.nodes.len(),
            decreases graph@.nodes.len(),
        {
            let found = self.pattern.search(graph, self.vars);
            let ghost g = graph@;
            match self.rewrite_first(graph, &found, op) {
                Ok(rewritten) => {
                    if !rewritten {
                        proof {
                            self@.lemma_reaches_from_fixed(op, old(graph)@, graph@, applied as nat);
                        }
                        return Ok(applied);
                    }
                    applied = applied + 1;
                },
                Err(e) => {
                    proof {
                        self@.lemma_reaches_from_fixed(op, old(graph)@, graph@, applied as nat);
                    }
                    return Err(e);
                },
            }
        }
    }
}

/// Whether `var` is a variable of `b` and bound in it.
pub open spec fn bound_at(b: Seq<Option<u32>>, var: usize) -> bool {
    var < b.len() && b[var as int] is Some
}

} // verus!
