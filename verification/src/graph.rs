//! The dataflow graph: operator nodes, shape-annotated edges, and the
//! tables that record which nodes the outside world still refers to.

use vstd::prelude::*;
use vstd::multiset::Multiset;
use vstd::std_specs::iter::IteratorSpec;
use std::collections::HashMap;
use std::collections::HashSet;
use petgraph::stable_graph::StableGraph;
use petgraph::stable_graph::NodeIndex;
use petgraph::Directed;
use petgraph::Direction;
use crate::op::Op;
use crate::op::Dependency;

verus! {

broadcast use vstd::std_specs::hash::group_hash_axioms;

/// A directed edge of the graph.
#[derive(Clone, Copy, Debug, PartialEq, Eq, Structural)]
pub struct Edge {
    pub source: u32,
    pub target: u32,
    pub weight: Dependency,
}

/// `petgraph::stable_graph::StableGraph`, taken as opaque: what it holds is
/// named by [`stable_nodes`] and [`stable_edges`].
#[verifier::external_type_specification]
#[verifier::external_body]
#[verifier::reject_recursive_types(N)]
#[verifier::reject_recursive_types(E)]
#[verifier::reject_recursive_types(Ty)]
#[verifier::reject_recursive_types(Ix)]
pub struct ExStableGraph<N, E, Ty, Ix>(StableGraph<N, E, Ty, Ix>);

/// `petgraph::Directed`, the marker of graphs with directed edges.
#[verifier::external_type_specification]
#[verifier::external_body]
pub struct ExDirected(Directed);

/// `petgraph::Direction`, with its two variants `Outgoing` and `Incoming`.
#[verifier::external_type_specification]
pub struct ExDirection(Direction);

/// The live nodes of a stable graph, each index with its weight.
pub uninterp spec fn stable_nodes(g: StableGraph<Op, Dependency, Directed, u32>) -> Map<u32, Op>;

/// The live edges of a stable graph, each as often as it occurs.
pub uninterp spec fn stable_edges(g: StableGraph<Op, Dependency, Directed, u32>) -> Multiset<Edge>;

/// The edges of `edges` that arrive at `node` (`Incoming`) or leave it
/// (`Outgoing`).
pub open spec fn edges_at(edges: Multiset<Edge>, node: u32, dir: Direction) -> Multiset<Edge> {
    match dir {
        Direction::Incoming => edges.filter(|e: Edge| e.target == node),
        Direction::Outgoing => edges.filter(|e: Edge| e.source == node),
    }
}

/// `StableGraph::new`: a graph without nodes and edges.
#[verifier::external_body]
fn stable_new() -> (g: StableGraph<Op, Dependency, Directed, u32>)
    ensures
        stable_nodes(g) =~= Map::empty(),
        stable_edges(g) =~= Multiset::empty(),
{
    StableGraph::new()
}

/// `StableGraph::node_count`: the number of live nodes.
#[verifier::external_body]
fn stable_node_count(g: &StableGraph<Op, Dependency, Directed, u32>) -> (n: usize)
    ensures
        n == stable_nodes(*g).len(),
{
    g.node_count()
}

/// `StableGraph::edge_count`: the number of live edges.
#[verifier::external_body]
fn stable_edge_count(g: &StableGraph<Op, Dependency, Directed, u32>) -> (n: usize)
    ensures
        n == stable_edges(*g).len(),
{
    g.edge_count()
}

/// `StableGraph::add_node`: the weight is stored under an index that no live
/// node had, and nothing else changes. The call panics when no index below
/// `u32::MAX` is free; with fewer live nodes than that one is.
#[verifier::external_body]
fn stable_add_node(g: &mut StableGraph<Op, Dependency, Directed, u32>, weight: Op) -> (id: u32)
    requires
        stable_nodes(*old(g)).dom().finite(),
        stable_nodes(*old(g)).len() < u32::MAX,
    ensures
        !stable_nodes(*old(g)).contains_key(id),
        stable_nodes(*final(g)) == stable_nodes(*old(g)).insert(id, weight),
        stable_edges(*final(g)) == stable_edges(*old(g)),
{
    g.add_node(weight).index() as u32
}

/// `StableGraph::add_edge`: one more edge from `source` to `target`, beside
/// any that were there. The call panics when an endpoint is not a live node
/// or when no edge index below `u32::MAX` is free.
#[verifier::external_body]
fn stable_add_edge(
    g: &mut StableGraph<Op, Dependency, Directed, u32>,
    source: u32,
    target: u32,
    weight: Dependency,
)
    requires
        stable_nodes(*old(g)).contains_key(source),
        stable_nodes(*old(g)).contains_key(target),
        stable_edges(*old(g)).len() < u32::MAX,
    ensures
        stable_nodes(*final(g)) == stable_nodes(*old(g)),
        stable_edges(*final(g)) == stable_edges(*old(g)).insert((Edge { source, target, weight })),
{
    g.add_edge(NodeIndex::new(source as usize), NodeIndex::new(target as usize), weight);
}

/// `StableGraph::remove_node`: a live node leaves with every edge that
/// starts or ends at it, and its weight is returned; for an index that is
/// not live nothing changes.
#[verifier::external_body]
fn stable_remove_node(g: &mut StableGraph<Op, Dependency, Directed, u32>, id: u32) -> (w: Option<
    Op,
>)
    ensures
        stable_nodes(*old(g)).contains_key(id) ==> {
            &&& w == Some(stable_nodes(*old(g))[id])
            &&& stable_nodes(*final(g)) == stable_nodes(*old(g)).remove(id)
            &&& stable_edges(*final(g)) == stable_edges(*old(g)).filter(
                |e: Edge| e.source != id && e.target != id,
            )
        },
        !stable_nodes(*old(g)).contains_key(id) ==> {
            &&& w is None
            &&& stable_nodes(*final(g)) == stable_nodes(*old(g))
            &&& stable_edges(*final(g)) == stable_edges(*old(g))
        },
{
    g.remove_node(NodeIndex::new(id as usize))
}

/// `StableGraph::node_weight`: the weight of a live node, `None` otherwise.
#[verifier::external_body]
fn stable_node_weight(g: &StableGraph<Op, Dependency, Directed, u32>, id: u32) -> (w: Option<Op>)
    ensures
        w == (if stable_nodes(*g).contains_key(id) {
            Some(stable_nodes(*g)[id])
        } else {
            None
        }),
{
    g.node_weight(NodeIndex::new(id as usize)).copied()
}

/// `StableGraph::node_indices`: the indices of the live nodes, each once, in
/// ascending order.
#[verifier::external_body]
fn stable_node_indices(g: &StableGraph<Op, Dependency, Directed, u32>) -> (ids: Vec<u32>)
    ensures
        forall|i: int, j: int| 0 <= i < j < ids@.len() ==> ids@[i] < ids@[j],
        forall|id: u32| ids@.contains(id) <==> stable_nodes(*g).contains_key(id),
{
    g.node_indices().map(|n| n.index() as u32).collect()
}

/// `StableGraph::edges_directed`: for a live node, its incoming or outgoing
/// edges, each as often as it occurs, in an order that the contract leaves
/// open; for any other index, nothing.
#[verifier::external_body]
fn stable_edges_directed(
    g: &StableGraph<Op, Dependency, Directed, u32>,
    id: u32,
    dir: Direction,
) -> (edges: Vec<Edge>)
    ensures
        stable_nodes(*g).contains_key(id) ==> edges@.to_multiset() == edges_at(
            stable_edges(*g),
            id,
            dir,
        ),
        !stable_nodes(*g).contains_key(id) ==> edges@.len() == 0,
{
    g.edges_directed(NodeIndex::new(id as usize), dir).map(
        |e| Edge {
            source: petgraph::visit::EdgeRef::source(&e).index() as u32,
            target: petgraph::visit::EdgeRef::target(&e).index() as u32,
            weight: *e.weight(),
        },
    ).collect()
}

/// What a graph holds, as mathematical values.
#[verifier::ext_equal]
pub struct GraphView {
    /// Each live node's id, with its operator.
    pub nodes: Map<u32, Op>,
    /// The edges, each as often as it occurs.
    pub edges: Multiset<Edge>,
    /// The protected set: ids that the outside refers to and that must not
    /// be removed.
    pub no_delete: Set<u32>,
    /// The ids whose results are read back after the graph has run.
    pub to_retrieve: Set<u32>,
    /// For an id that a rewrite replaced, the id that now stands for it.
    pub id_remap: Map<u32, u32>,
}

impl GraphView {
    /// Every edge joins live nodes, every protected id is live, and every id
    /// to retrieve is protected.
    pub open spec fn wf(self) -> bool {
        &&& self.nodes.dom().finite()
        &&& forall|e: Edge| #[trigger]
            self.edges.count(e) > 0 ==> self.nodes.contains_key(e.source)
                && self.nodes.contains_key(e.target)
        &&& forall|id: u32| #[trigger]
            self.no_delete.contains(id) ==> self.nodes.contains_key(id)
        &&& forall|id: u32| #[trigger]
            self.to_retrieve.contains(id) ==> self.no_delete.contains(id)
    }

    /// Whether `rank` grows along every edge.
    pub open spec fn ranked_by(self, rank: spec_fn(u32) -> int) -> bool {
        forall|e: Edge| #[trigger] self.edges.count(e) > 0 ==> rank(e.source) < rank(e.target)
    }

    /// Whether the graph has no cycle: some ranking of the nodes grows along
    /// every edge.
    pub open spec fn acyclic(self) -> bool {
        exists|rank: spec_fn(u32) -> int| self.ranked_by(rank)
    }

    /// The edges that arrive at `node`.
    pub open spec fn incoming(self, node: u32) -> Multiset<Edge> {
        edges_at(self.edges, node, Direction::Incoming)
    }

    /// The edges that leave `node`.
    pub open spec fn outgoing(self, node: u32) -> Multiset<Edge> {
        edges_at(self.edges, node, Direction::Outgoing)
    }

    /// Whether one more node fits.
    pub open spec fn has_node_room(self) -> bool {
        self.nodes.len() < u32::MAX
    }

    /// Whether one rewrite fits: one more node, and as many more edges as
    /// there are and one.
    pub open spec fn fits(self) -> bool {
        &&& self.nodes.len() < u32::MAX
        &&& 2 * self.edges.len() + 1 <= u32::MAX
    }

    /// Whether `e` is a data edge of the graph that arrives at `node`.
    pub open spec fn is_data_input(self, node: u32, e: Edge) -> bool {
        &&& self.edges.count(e) > 0
        &&& e.target == node
        &&& e.weight is Data
    }

    /// Whether `e` is a data edge of the graph that arrives at `node` from
    /// another node than `excluded`.
    pub open spec fn is_other_input(self, node: u32, excluded: u32, e: Edge) -> bool {
        &&& self.is_data_input(node, e)
        &&& e.source != excluded
    }

    /// Whether no data edge into `node` from another node than `excluded`
    /// arrives at a lower input slot than `e` does.
    pub open spec fn is_lowest_other_input(self, node: u32, excluded: u32, e: Edge) -> bool {
        &&& self.is_other_input(node, excluded, e)
        &&& forall|o: Edge| #[trigger]
            self.is_other_input(node, excluded, o) ==> e.weight->input_order
                <= o.weight->input_order
    }

    /// The id that now stands for `id`.
    pub open spec fn remapped(self, id: u32) -> u32 {
        if self.id_remap.contains_key(id) {
            self.id_remap[id]
        } else {
            id
        }
    }

    /// How often the edge `e` occurs once every edge that leaves `from` has
    /// been copied to leave `to`.
    pub open spec fn count_after_move(self, from: u32, to: u32, e: Edge) -> nat {
        if e.source == to {
            self.edges.count(e) + self.edges.count(Edge { source: from, ..e })
        } else {
            self.edges.count(e)
        }
    }

    /// The tables after `trg` has taken the place of `src` in them.
    pub open spec fn with_references_moved(self, src: u32, trg: u32) -> GraphView {
        GraphView {
            no_delete: if self.no_delete.contains(src) {
                self.no_delete.remove(src).insert(trg)
            } else {
                self.no_delete
            },
            to_retrieve: if self.to_retrieve.contains(src) {
                self.to_retrieve.remove(src).insert(trg)
            } else {
                self.to_retrieve
            },
            id_remap: Map::new(
                |k: u32| k == src || self.id_remap.contains_key(k),
                |k: u32|
                    if k == src || self.id_remap[k] == src {
                        trg
                    } else {
                        self.id_remap[k]
                    },
            ),
            ..self
        }
    }

    /// Whether `id` is a live node that is not protected.
    pub open spec fn removable(self, id: u32) -> bool {
        self.nodes.contains_key(id) && !self.no_delete.contains(id)
    }

    /// The graph without the node `id` and the edges at it.
    pub open spec fn without_node(self, id: u32) -> GraphView {
        GraphView {
            nodes: self.nodes.remove(id),
            edges: self.edges.filter(|e: Edge| e.source != id && e.target != id),
            ..self
        }
    }
}

/// A dataflow graph with its reference tables.
pub struct Graph {
    graph: StableGraph<Op, Dependency, Directed, u32>,
    id_remap: HashMap<u32, u32>,
    no_delete: HashSet<u32>,
    to_retrieve: HashSet<u32>,
}

impl View for Graph {
    type V = GraphView;

    closed spec fn view(&self) -> GraphView {
        GraphView {
            nodes: stable_nodes(self.graph),
            edges: stable_edges(self.graph),
            no_delete: self.no_delete@,
            to_retrieve: self.to_retrieve@,
            id_remap: self.id_remap@,
        }
    }
}

impl Graph {
    /// An empty graph.
    pub fn new() -> (g: Graph)
        ensures
            g@.wf(),
            g@.nodes =~= Map::empty(),
            g@.edges =~= Multiset::empty(),
            g@.no_delete =~= Set::empty(),
            g@.to_retrieve =~= Set::empty(),
            g@.id_remap =~= Map::empty(),
    {
        Graph {
            graph: stable_new(),
            id_remap: HashMap::new(),
            no_delete: HashSet::new(),
            to_retrieve: HashSet::new(),
        }
    }

    /// The number of nodes.
    pub fn node_count(&self) -> (n: usize)
        ensures
            n == self@.nodes.len(),
    {
        stable_node_count(&self.graph)
    }

    /// The number of edges.
    pub fn edge_count(&self) -> (n: usize)
        ensures
            n == self@.edges.len(),
    {
        stable_edge_count(&self.graph)
    }

    /// The operator of a node, `None` if the id is not live.
    pub fn node(&self, id: u32) -> (op: Option<Op>)
        ensures
            op == (if self@.nodes.contains_key(id) {
                Some(self@.nodes[id])
            } else {
                None
            }),
    {
        stable_node_weight(&self.graph, id)
    }

    /// Whether `id` is a live node.
    pub fn contains_node(&self, id: u32) -> (r: bool)
        ensures
            r == self@.nodes.contains_key(id),
    {
        stable_node_weight(&self.graph, id).is_some()
    }

    /// The value of a constant node; `None` if the id is not live or the node
    /// is of another kind.
    pub fn constant(&self, id: u32) -> (bits: Option<u16>)
        ensures
            bits == (if self@.nodes.contains_key(id) {
                self@.nodes[id].spec_as_constant()
            } else {
                None
            }),
    {
        match stable_node_weight(&self.graph, id) {
            Some(op) => op.as_constant(),
            None => None,
        }
    }

    /// The ids of all nodes, in ascending order.
    pub fn node_ids(&self) -> (ids: Vec<u32>)
        ensures
            forall|i: int, j: int| 0 <= i < j < ids@.len() ==> ids@[i] < ids@[j],
            forall|id: u32| ids@.contains(id) <==> self@.nodes.contains_key(id),
    {
        stable_node_indices(&self.graph)
    }

    /// Adds a node. `None`, and no change, when the graph already holds
    /// `u32::MAX` nodes.
    pub fn add_op(&mut self, op: Op) -> (id: Option<u32>)
        requires
            old(self)@.wf(),
        ensures
            final(self)@.wf(),
            old(self)@.has_node_room() <==> id is Some,
            id matches Some(n) ==> !old(self)@.nodes.contains_key(n) && final(self)@ == (GraphView {
                nodes: old(self)@.nodes.insert(n, op),
                ..old(self)@
            }),
            id is None ==> final(self)@ == old(self)@,
    {
        if stable_node_count(&self.graph) >= u32::MAX as usize {
            return None;
        }
        let n = stable_add_node(&mut self.graph, op);
        proof {
            assert(self@.nodes == old(self)@.nodes.insert(n, op));
            assert(self@.no_delete == old(self)@.no_delete);
        }
        Some(n)
    }

    /// Adds an edge. `false`, and no change, when an endpoint is not a live
    /// node or the graph already holds `u32::MAX` edges.
    pub fn add_edge(&mut self, source: u32, target: u32, weight: Dependency) -> (added: bool)
        requires
            old(self)@.wf(),
        ensures
            final(self)@.wf(),
            added <==> old(self)@.nodes.contains_key(source) && old(self)@.nodes.contains_key(
                target,
            ) && old(self)@.edges.len() < u32::MAX,
            added ==> final(self)@ == (GraphView {
                edges: old(self)@.edges.insert((Edge { source, target, weight })),
                ..old(self)@
            }),
            !added ==> final(self)@ == old(self)@,
    {
        if !self.contains_node(source) || !self.contains_node(target) {
            return false;
        }
        if stable_edge_count(&self.graph) >= u32::MAX as usize {
            return false;
        }
        stable_add_edge(&mut self.graph, source, target, weight);
        true
    }

    /// The edges that arrive at `id`, in no particular order.
    pub fn incoming(&self, id: u32) -> (edges: Vec<Edge>)
        requires
            self@.wf(),
        ensures
            edges@.to_multiset() == self@.incoming(id),
            forall|e: Edge| edges@.contains(e) <==> self@.edges.count(e) > 0 && e.target == id,
    {
        let edges = stable_edges_directed(&self.graph, id, Direction::Incoming);
        proof {
            broadcast use vstd::seq_lib::group_to_multiset_ensures;

            assert(edges@.to_multiset() =~= self@.incoming(id));
            assert forall|e: Edge| edges@.contains(e) <==> self@.edges.count(e) > 0 && e.target
                == id by {
                assert(edges@.contains(e) <==> edges@.to_multiset().count(e) > 0);
                assert(self@.incoming(id).count(e) == if e.target == id {
                    self@.edges.count(e)
                } else {
                    0
                });
            }
        }
        edges
    }

    /// The edges that leave `id`, in no particular order.
    pub fn outgoing(&self, id: u32) -> (edges: Vec<Edge>)
        requires
            self@.wf(),
        ensures
            edges@.to_multiset() == self@.outgoing(id),
            forall|e: Edge| edges@.contains(e) <==> self@.edges.count(e) > 0 && e.source == id,
    {
        let edges = stable_edges_directed(&self.graph, id, Direction::Outgoing);
        proof {
            broadcast use vstd::seq_lib::group_to_multiset_ensures;

            assert(edges@.to_multiset() =~= self@.outgoing(id));
            assert forall|e: Edge| edges@.contains(e) <==> self@.edges.count(e) > 0 && e.source
                == id by {
                assert(edges@.contains(e) <==> edges@.to_multiset().count(e) > 0);
                assert(self@.outgoing(id).count(e) == if e.source == id {
                    self@.edges.count(e)
                } else {
                    0
                });
            }
        }
        edges
    }

    /// A data edge into `id`, the first that the graph lists; `None` where
    /// no data edge arrives at `id`.
    pub fn first_data_input(&self, id: u32) -> (found: Option<Edge>)
        requires
            self@.wf(),
        ensures
            found matches Some(e) ==> self@.is_data_input(id, e),
            found is None ==> forall|e: Edge| !self@.is_data_input(id, e),
    {
        let incoming = self.incoming(id);
        let mut i: usize = 0;
        while i < incoming.len()
            invariant
                i <= incoming.len(),
                forall|e: Edge| incoming@.contains(e) <==> self@.edges.count(e) > 0 && e.target == id,
                forall|k: int| 0 <= k < i ==> incoming@[k].weight is Schedule,
            decreases incoming.len() - i,
        {
            let edge = incoming[i];
            if !edge.weight.is_schedule() {
                assert(incoming@.contains(edge));
                return Some(edge);
            }
            i = i + 1;
        }
        proof {
            assert forall|e: Edge| !self@.is_data_input(id, e) by {
                if self@.is_data_input(id, e) {
                    assert(incoming@.contains(e));
                    let k = choose|k: int| 0 <= k < incoming@.len() && incoming@[k] == e;
                    assert(incoming@[k].weight is Schedule);
                }
            }
        }
        None
    }

    /// The data edge into `id` at the lowest input slot among those that
    /// come from another node than `excluded`; where several share that
    /// slot, the first that the graph lists. `None` where there is none.
    pub fn lowest_source_except(&self, id: u32, excluded: u32) -> (found: Option<Edge>)
        requires
            self@.wf(),
        ensures
            found matches Some(e) ==> self@.is_lowest_other_input(id, excluded, e),
            found is None ==> forall|e: Edge| !self@.is_other_input(id, excluded, e),
    {
        let incoming = self.incoming(id);
        let mut best: Option<Edge> = None;
        let mut best_slot: u8 = 0;
        let mut i: usize = 0;
        while i < incoming.len()
            invariant
                i <= incoming.len(),
                forall|e: Edge| incoming@.contains(e) <==> self@.edges.count(e) > 0 && e.target == id,
                best matches Some(e) ==> self@.is_other_input(id, excluded, e)
                    && e.weight->input_order == best_slot,
                best is None ==> forall|k: int|
                    0 <= k < i ==> !self@.is_other_input(id, excluded, #[trigger] incoming@[k]),
                best is Some ==> forall|k: int|
                    0 <= k < i && self@.is_other_input(id, excluded, #[trigger] incoming@[k])
                        ==> best_slot <= incoming@[k].weight->input_order,
            decreases incoming.len() - i,
        {
            let edge = incoming[i];
            proof {
                assert(incoming@.contains(edge));
            }
            if edge.source != excluded {
                match edge.weight {
                    Dependency::Data { input_order, output_order, shape } => {
                        let better = match best {
                            Some(_) => input_order < best_slot,
                            None => true,
                        };
                        if better {
                            best = Some(edge);
                            best_slot = input_order;
                        }
                    },
                    Dependency::Schedule => {},
                }
            }
            i = i + 1;
        }
        proof {
            assert forall|o: Edge| #[trigger] self@.is_other_input(id, excluded, o) implies best
                is Some && best_slot <= o.weight->input_order by {
                assert(incoming@.contains(o));
                let k = choose|k: int| 0 <= k < incoming@.len() && incoming@[k] == o;
                assert(self@.is_other_input(id, excluded, incoming@[k]));
            }
        }
        best
    }

    /// Whether `id` is in the protected set.
    pub fn is_protected(&self, id: u32) -> (r: bool)
        ensures
            r == self@.no_delete.contains(id),
    {
        self.no_delete.contains(&id)
    }

    /// Whether the result of `id` is to be read back.
    pub fn is_retrieved(&self, id: u32) -> (r: bool)
        ensures
            r == self@.to_retrieve.contains(id),
    {
        self.to_retrieve.contains(&id)
    }

    /// The id that now stands for `id`: the table's entry, or `id` itself
    /// where the table has none.
    pub fn remap(&self, id: u32) -> (r: u32)
        ensures
            r == self@.remapped(id),
    {
        match self.id_remap.get(&id) {
            Some(current) => *current,
            None => id,
        }
    }

    /// Protects a node from removal. `false`, and no change, when `id` is
    /// not a live node.
    pub fn keep(&mut self, id: u32) -> (kept: bool)
        requires
            old(self)@.wf(),
        ensures
            final(self)@.wf(),
            kept == old(self)@.nodes.contains_key(id),
            kept ==> final(self)@ == (GraphView {
                no_delete: old(self)@.no_delete.insert(id),
                ..old(self)@
            }),
            !kept ==> final(self)@ == old(self)@,
    {
        if !self.contains_node(id) {
            return false;
        }
        self.no_delete.insert(id);
        true
    }

    /// Marks a node's result as one to read back, which also protects the
    /// node. `false`, and no change, when `id` is not a live node.
    pub fn retrieve(&mut self, id: u32) -> (marked: bool)
        requires
            old(self)@.wf(),
        ensures
            final(self)@.wf(),
            marked == old(self)@.nodes.contains_key(id),
            marked ==> final(self)@ == (GraphView {
                no_delete: old(self)@.no_delete.insert(id),
                to_retrieve: old(self)@.to_retrieve.insert(id),
                ..old(self)@
            }),
            !marked ==> final(self)@ == old(self)@,
    {
        if !self.contains_node(id) {
            return false;
        }
        self.no_delete.insert(id);
        self.to_retrieve.insert(id);
        true
    }

    /// Removes a node with the edges at it, and returns its operator. `None`,
    /// and no change, when `id` is not a live node or is protected.
    pub fn remove_node(&mut self, id: u32) -> (op: Option<Op>)
        requires
            old(self)@.wf(),
        ensures
            final(self)@.wf(),
            op == (if old(self)@.removable(id) {
                Some(old(self)@.nodes[id])
            } else {
                None
            }),
            final(self)@ == (if old(self)@.removable(id) {
                old(self)@.without_node(id)
            } else {
                old(self)@
            }),
    {
        if self.no_delete.contains(&id) {
            return None;
        }
        let op = stable_remove_node(&mut self.graph, id);
        proof {
            if old(self)@.nodes.contains_key(id) {
                assert(self@.nodes == old(self)@.nodes.remove(id));
                assert(self@.no_delete == old(self)@.no_delete);
                assert(self@ == old(self)@.without_node(id));
            } else {
                assert(self@ == old(self)@);
            }
        }
        op
    }

    /// Gives `to` a copy of every edge that leaves `from`: same target, same
    /// weight. The edges at `from` stay until `from` itself is removed.
    pub fn move_outgoing_edge(&mut self, from: u32, to: u32)
        requires
            old(self)@.wf(),
            old(self)@.nodes.contains_key(to),
            old(self)@.edges.len() + old(self)@.outgoing(from).len() <= u32::MAX,
        ensures
            final(self)@.wf(),
            final(self)@.nodes == old(self)@.nodes,
            final(self)@.no_delete == old(self)@.no_delete,
            final(self)@.to_retrieve == old(self)@.to_retrieve,
            final(self)@.id_remap == old(self)@.id_remap,
            forall|e: Edge| #[trigger]
                final(self)@.edges.count(e) == old(self)@.count_after_move(from, to, e),
            final(self)@.edges.len() == old(self)@.edges.len() + old(self)@.outgoing(from).len(),
    {
        let leaving = self.outgoing(from);
        let mut i: usize = 0;
        proof {
            broadcast use vstd::seq_lib::group_to_multiset_ensures;

            assert(leaving@.take(0) =~= Seq::<Edge>::empty());
        }
        while i < leaving.len()
            invariant
                i <= leaving.len(),
                old(self)@.wf(),
                old(self)@.nodes.contains_key(to),
                leaving@.to_multiset() == old(self)@.outgoing(from),
                leaving@.len() == old(self)@.outgoing(from).len(),
                forall|e: Edge|
                    leaving@.contains(e) <==> old(self)@.edges.count(e) > 0 && e.source == from,
                old(self)@.edges.len() + leaving@.len() <= u32::MAX,
                self@.nodes == old(self)@.nodes,
                self@.no_delete == old(self)@.no_delete,
                self@.to_retrieve == old(self)@.to_retrieve,
                self@.id_remap == old(self)@.id_remap,
                self@.edges.len() == old(self)@.edges.len() + i,
                forall|e: Edge| #[trigger]
                    self@.edges.count(e) == old(self)@.edges.count(e) + (if e.source == to {
                        leaving@.take(i as int).to_multiset().count(Edge { source: from, ..e })
                    } else {
                        0
                    }),
            decreases leaving.len() - i,
        {
            let edge = leaving[i];
            let ghost before = self@.edges;
            proof {
                assert(leaving@.contains(edge));
            }
            stable_add_edge(&mut self.graph, to, edge.target, edge.weight);
            proof {
                broadcast use vstd::seq_lib::group_to_multiset_ensures;

                let added = Edge { source: to, target: edge.target, weight: edge.weight };
                assert(leaving@.take(i + 1) =~= leaving@.take(i as int).push(edge));
                assert(self@.edges == before.insert(added));
                assert forall|e: Edge| #[trigger]
                    self@.edges.count(e) == old(self)@.edges.count(e) + (if e.source == to {
                        leaving@.take(i + 1).to_multiset().count(Edge { source: from, ..e })
                    } else {
                        0
                    }) by {
                    let back = Edge { source: from, ..e };
                    assert(leaving@.take(i + 1).to_multiset().count(back) == leaving@.take(
                        i as int,
                    ).to_multiset().count(back) + (if back == edge {
                        1nat
                    } else {
                        0nat
                    }));
                    assert(e.source == to ==> (back == edge <==> e == added));
                }
            }
            i = i + 1;
        }
        proof {
            assert(leaving@.take(i as int) =~= leaving@);
            assert forall|e: Edge| #[trigger]
                self@.edges.count(e) == old(self)@.count_after_move(from, to, e) by {
                let back = Edge { source: from, ..e };
                assert(old(self)@.outgoing(from).count(back) == old(self)@.edges.count(back));
            }
            assert forall|e: Edge| #[trigger] self@.edges.count(e) > 0 implies self@.nodes.contains_key(
                e.source,
            ) && self@.nodes.contains_key(e.target) by {
                let back = Edge { source: from, ..e };
                if old(self)@.edges.count(e) == 0 {
                    assert(old(self)@.edges.count(back) > 0);
                }
            }
        }
    }

    /// Hands every outside reference to `src` over to `trg`: `trg` takes the
    /// place of `src` in the protected set and in the set to retrieve, and
    /// the remap table sends `src`, and every id it sent to `src`, to `trg`.
    pub fn move_references(&mut self, src: u32, trg: u32)
        requires
            old(self)@.wf(),
            old(self)@.nodes.contains_key(trg),
        ensures
            final(self)@.wf(),
            final(self)@ == old(self)@.with_references_moved(src, trg),
    {
        let keys = self.remapped_ids();
        let mut i: usize = 0;
        while i < keys.len()
            invariant
                i <= keys.len(),
                forall|k: u32| keys@.contains(k) <==> old(self)@.id_remap.contains_key(k),
                self@.nodes == old(self)@.nodes,
                self@.edges == old(self)@.edges,
                self@.no_delete == old(self)@.no_delete,
                self@.to_retrieve == old(self)@.to_retrieve,
                self@.id_remap.dom() == old(self)@.id_remap.dom(),
                forall|k: u32| #[trigger]
                    self@.id_remap.contains_key(k) ==> self@.id_remap[k] == (if old(
                        self,
                    )@.id_remap[k] == src && exists|j: int| 0 <= j < i && keys@[j] == k {
                        trg
                    } else {
                        old(self)@.id_remap[k]
                    }),
            decreases keys.len() - i,
        {
            let k = keys[i];
            let ghost before = self@.id_remap;
            proof {
                assert(keys@.contains(k));
            }
            let hit = match self.id_remap.get(&k) {
                Some(v) => *v == src,
                None => false,
            };
            if hit {
                self.id_remap.insert(k, trg);
            }
            proof {
                assert(self@.id_remap.dom() =~= old(self)@.id_remap.dom());
                assert forall|q: u32| #[trigger] self@.id_remap.contains_key(q) implies self@.id_remap[q]
                    == (if old(self)@.id_remap[q] == src && exists|j: int|
                    0 <= j < i + 1 && keys@[j] == q {
                    trg
                } else {
                    old(self)@.id_remap[q]
                }) by {
                    if q == k {
                        assert(keys@[i as int] == q);
                    } else {
                        assert(self@.id_remap[q] == before[q]);
                        if exists|j: int| 0 <= j < i + 1 && keys@[j] == q {
                            let j = choose|j: int| 0 <= j < i + 1 && keys@[j] == q;
                            assert(0 <= j < i && keys@[j] == q);
                        }
                    }
                }
            }
            i = i + 1;
        }
        self.id_remap.insert(src, trg);
        if self.no_delete.remove(&src) {
            self.no_delete.insert(trg);
        }
        if self.to_retrieve.remove(&src) {
            self.to_retrieve.insert(trg);
        }
        proof {
            let want = old(self)@.with_references_moved(src, trg);
            assert(self@.id_remap =~= want.id_remap) by {
                assert forall|k: u32| want.id_remap.contains_key(k) implies #[trigger] self@.id_remap[k]
                    == want.id_remap[k] by {
                    if k != src {
                        assert(keys@.contains(k));
                        let j = choose|j: int| 0 <= j < keys@.len() && keys@[j] == k;
                        assert(0 <= j < i && keys@[j] == k);
                    }
                }
            }
            assert(self@.no_delete =~= want.no_delete);
            assert(self@.to_retrieve =~= want.to_retrieve);
        }
    }

    /// The ids that the remap table has an entry for, each once.
    fn remapped_ids(&self) -> (keys: Vec<u32>)
        ensures
            forall|k: u32| keys@.contains(k) <==> self@.id_remap.contains_key(k),
    {
        let mut keys: Vec<u32> = Vec::new();
        let ghost all = self.id_remap.keys().remaining().unref();
        for k in it: self.id_remap.keys()
            invariant
                keys@.len() == it.index(),
                forall|j: int| 0 <= j < keys@.len() ==> keys@[j] == *it.seq()[j],
                it.seq().unref() == all,
                all.to_set() == self.id_remap@.dom(),
        {
            keys.push(*k);
        }
        proof {
            assert(keys@ =~= all);
            assert forall|k: u32| keys@.contains(k) <==> self@.id_remap.contains_key(k) by {
                assert(all.to_set().contains(k) <==> all.contains(k));
            }
        }
        keys
    }
}

} // verus!
