//! What holds of every rewrite and of every pass, stated over the views.

use vstd::prelude::*;
use vstd::multiset::Multiset;
use crate::counting::lemma_map_len_bound;
use crate::graph::Edge;
use crate::graph::GraphView;
use crate::op::Op;
use crate::rewrite::RuleView;
use crate::rewrite::input_edge;
use crate::rewrite::node_of;
use crate::op::ShapeTracker;

verus! {

/// A pass run again on its own result does nothing: where `n` rewrites led
/// from `g` to a graph `first` in which the rule finds nothing to rewrite,
/// any run of rewrites from `first` is empty and ends at `first`.
pub proof fn lemma_pass_idempotent(
    rule: RuleView,
    op: Op,
    g: GraphView,
    first: GraphView,
    n: nat,
    second: GraphView,
    m: nat,
)
    requires
        rule.reaches(op, g, first, n),
        !rule.enabled(first),
        rule.reaches(op, first, second, m),
    ensures
        m == 0,
        second == first,
{
    rule.lemma_reaches_from_fixed(op, first, second, m);
}

/// In an occurrence, a node that the rule removes is the terminal or one
/// of the guarded nodes, and is live.
pub proof fn lemma_removed_is_guarded(rule: RuleView, g: GraphView, b: Seq<Option<u32>>, id: u32)
    requires
        rule.wf(),
        rule.pattern.is_match(g, b),
        rule.removes(b, id),
    ensures
        g.nodes.contains_key(id),
        id == node_of(b, rule.terminal) || exists|k: int|
            0 <= k < rule.guarded.len() && node_of(b, #[trigger] rule.guarded[k]) == id,
{
    rule.lemma_match_is_live(g, b);
    let j = choose|j: int| 0 <= j < rule.removed.len() && node_of(b, #[trigger] rule.removed[j]) == id;
    let var = rule.removed[j];
    assert(rule.pattern.captures(var as int));
    if var != rule.terminal {
        let k = choose|k: int| 0 <= k < rule.guarded.len() && rule.guarded[k] == var;
        assert(node_of(b, rule.guarded[k]) == id);
    }
}

/// A rewrite hands the terminal's outside references to the replacement:
/// where the terminal was to be retrieved, the replacement now is and the
/// terminal no longer; the same holds of the protected set; and the remap
/// table sends the terminal to the replacement.
pub proof fn lemma_rewrite_moves_references(
    rule: RuleView,
    g: GraphView,
    b: Seq<Option<u32>>,
    op: Op,
    new: u32,
    after: GraphView,
)
    requires
        rule.wf(),
        rule.pattern.is_match(g, b),
        rule.rewrites_from(g, b, op, new, after),
    ensures
        g.to_retrieve.contains(node_of(b, rule.terminal)) ==> after.to_retrieve.contains(new)
            && !after.to_retrieve.contains(node_of(b, rule.terminal)),
        g.no_delete.contains(node_of(b, rule.terminal)) ==> after.no_delete.contains(new)
            && !after.no_delete.contains(node_of(b, rule.terminal)),
        after.id_remap.contains_key(node_of(b, rule.terminal)),
        after.id_remap[node_of(b, rule.terminal)] == new,
{
    rule.lemma_match_is_live(g, b);
    assert(rule.pattern.captures(rule.terminal as int));
}

/// A rewrite keeps a graph well formed.
pub proof fn lemma_rewrite_wf(
    rule: RuleView,
    g: GraphView,
    b: Seq<Option<u32>>,
    op: Op,
    new: u32,
    after: GraphView,
)
    requires
        rule.wf(),
        g.wf(),
        rule.enabled_at(g, b),
        rule.rewrites_from(g, b, op, new, after),
    ensures
        after.wf(),
{
    rule.lemma_match_is_live(g, b);
    let t = node_of(b, rule.terminal);
    assert(rule.pattern.captures(rule.terminal as int));
    let (x, shape) = choose|x: u32, shape: ShapeTracker|
        {
            &&& rule.candidate(g, b, x, shape)
            &&& !rule.removes(b, x)
            &&& #[trigger] rule.rewrites(g, b, op, x, shape, new, after)
        };
    lemma_candidate_is_live(rule, g, b, x, shape);
    lemma_map_len_bound(after.nodes, g.nodes.dom().insert(new));
    assert forall|id: u32| #[trigger] after.no_delete.contains(id) implies after.nodes.contains_key(
        id,
    ) by {
        if id != new {
            assert(g.no_delete.contains(id));
            if rule.removes(b, id) {
                lemma_removed_is_guarded(rule, g, b, id);
            }
        }
    }
    assert forall|e: Edge| #[trigger] after.edges.count(e) > 0 implies after.nodes.contains_key(
        e.source,
    ) && after.nodes.contains_key(e.target) by {
        let feed = input_edge(x, new, shape);
        assert(after.edges.count(e) == rule.count_after(g, b, feed, new, e));
        if e.source == new {
            assert(g.edges.count(Edge { source: t, ..e }) > 0);
        } else if e == feed {
        } else {
            assert(g.edges.count(e) > 0);
        }
    }
}

/// The input that the graph offers for a replacement is a live node.
pub proof fn lemma_candidate_is_live(
    rule: RuleView,
    g: GraphView,
    b: Seq<Option<u32>>,
    x: u32,
    shape: ShapeTracker,
)
    requires
        rule.wf(),
        g.wf(),
        rule.pattern.is_match(g, b),
        rule.candidate(g, b, x, shape),
    ensures
        g.nodes.contains_key(x),
{
    rule.lemma_match_is_live(g, b);
    match rule.input {
        crate::rewrite::InputRule::Captured { input, shape_at } => {
            assert(rule.pattern.captures(input as int));
        },
        crate::rewrite::InputRule::OtherSource { consumer, excluded } => {
            let e = choose|e: Edge|
                {
                    &&& #[trigger] g.is_lowest_other_input(
                        node_of(b, consumer),
                        node_of(b, excluded),
                        e,
                    )
                    &&& e.source == x
                    &&& e.weight->shape == shape
                };
            assert(g.edges.count(e) > 0);
        },
    }
}

/// A rewrite leaves every protected node in place, with its operator and
/// its protection, unless the node is the terminal of the rewritten
/// occurrence, and that only where the rule does not guard its terminal.
pub proof fn lemma_rewrite_spares_protected(
    rule: RuleView,
    g: GraphView,
    b: Seq<Option<u32>>,
    op: Op,
    new: u32,
    after: GraphView,
    id: u32,
)
    requires
        rule.wf(),
        g.wf(),
        rule.enabled_at(g, b),
        rule.rewrites_from(g, b, op, new, after),
        g.no_delete.contains(id),
        id != node_of(b, rule.terminal) || rule.guarded.contains(rule.terminal),
    ensures
        after.nodes.contains_key(id),
        after.nodes[id] == g.nodes[id],
        after.no_delete.contains(id),
{
    if rule.removes(b, id) {
        lemma_removed_is_guarded(rule, g, b, id);
    }
    if id == node_of(b, rule.terminal) {
        let k = choose|k: int| 0 <= k < rule.guarded.len() && rule.guarded[k] == rule.terminal;
        assert(g.no_delete.contains(node_of(b, rule.guarded[k])));
    }
}

/// A rewrite leaves the edges between nodes that it leaves in place as
/// they were: each occurs as often as before.
pub proof fn lemma_rewrite_spares_edges(
    rule: RuleView,
    g: GraphView,
    b: Seq<Option<u32>>,
    op: Op,
    new: u32,
    after: GraphView,
    e: Edge,
)
    requires
        rule.wf(),
        g.wf(),
        rule.enabled_at(g, b),
        rule.rewrites_from(g, b, op, new, after),
        g.nodes.contains_key(e.source),
        g.nodes.contains_key(e.target),
        !rule.removes(b, e.source),
        !rule.removes(b, e.target),
    ensures
        after.edges.count(e) == g.edges.count(e),
{
    let (x, shape) = choose|x: u32, shape: ShapeTracker|
        {
            &&& rule.candidate(g, b, x, shape)
            &&& !rule.removes(b, x)
            &&& #[trigger] rule.rewrites(g, b, op, x, shape, new, after)
        };
    assert(after.edges.count(e) == rule.count_after(g, b, input_edge(x, new, shape), new, e));
}

/// Over a whole pass, a protected node stays in place with its operator
/// and its protection, if the rule guards its terminal or the node's
/// operator is none that the shape takes for a terminal. The graph stays
/// well formed.
pub proof fn lemma_pass_spares_protected(
    rule: RuleView,
    op: Op,
    g: GraphView,
    after: GraphView,
    n: nat,
    id: u32,
)
    requires
        rule.wf(),
        g.wf(),
        rule.reaches(op, g, after, n),
        g.no_delete.contains(id),
        rule.guarded.contains(rule.terminal) || !rule.pattern.admits(
            rule.terminal as int,
            g.nodes[id],
        ),
    ensures
        after.wf(),
        after.nodes.contains_key(id),
        after.nodes[id] == g.nodes[id],
        after.no_delete.contains(id),
    decreases n,
{
    if n > 0 {
        let mid = choose|mid: GraphView|
            rule.reaches(op, g, mid, (n - 1) as nat) && #[trigger] rule.step(op, mid, after);
        lemma_pass_spares_protected(rule, op, g, mid, (n - 1) as nat, id);
        let (b, new) = choose|b: Seq<Option<u32>>, new: u32|
            rule.enabled_at(mid, b) && #[trigger] rule.rewrites_from(mid, b, op, new, after);
        lemma_rewrite_wf(rule, mid, b, op, new, after);
        if id == node_of(b, rule.terminal) {
            rule.lemma_match_is_live(mid, b);
            assert(rule.pattern.captures(rule.terminal as int));
            let node = choose|node: u32| rule.pattern.occurs_at(mid, node, b);
            rule.pattern.lemma_bound_is_admitted(mid, node, b, rule.terminal as int);
        }
        lemma_rewrite_spares_protected(rule, mid, b, op, new, after, id);
    }
}

/// Over a whole pass, the edges between two protected nodes that stay in
/// place occur as often as before.
pub proof fn lemma_pass_spares_edges(
    rule: RuleView,
    op: Op,
    g: GraphView,
    after: GraphView,
    n: nat,
    e: Edge,
)
    requires
        rule.wf(),
        g.wf(),
        rule.reaches(op, g, after, n),
        g.no_delete.contains(e.source),
        g.no_delete.contains(e.target),
        rule.guarded.contains(rule.terminal) || (!rule.pattern.admits(
            rule.terminal as int,
            g.nodes[e.source],
        ) && !rule.pattern.admits(rule.terminal as int, g.nodes[e.target])),
    ensures
        after.edges.count(e) == g.edges.count(e),
    decreases n,
{
    if n > 0 {
        let mid = choose|mid: GraphView|
            rule.reaches(op, g, mid, (n - 1) as nat) && #[trigger] rule.step(op, mid, after);
        lemma_pass_spares_edges(rule, op, g, mid, (n - 1) as nat, e);
        lemma_pass_spares_protected(rule, op, g, mid, (n - 1) as nat, e.source);
        lemma_pass_spares_protected(rule, op, g, mid, (n - 1) as nat, e.target);
        lemma_pass_spares_protected(rule, op, g, after, n, e.source);
        lemma_pass_spares_protected(rule, op, g, after, n, e.target);
        let (b, new) = choose|b: Seq<Option<u32>>, new: u32|
            rule.enabled_at(mid, b) && #[trigger] rule.rewrites_from(mid, b, op, new, after);
        rule.lemma_match_is_live(mid, b);
        if rule.removes(b, e.source) {
            lemma_removed_is_gone(rule, mid, b, op, new, after, e.source);
        }
        if rule.removes(b, e.target) {
            lemma_removed_is_gone(rule, mid, b, op, new, after, e.target);
        }
        lemma_rewrite_spares_edges(rule, mid, b, op, new, after, e);
    }
}

/// A rewrite leaves no node in place that the rule removes.
pub proof fn lemma_removed_is_gone(
    rule: RuleView,
    g: GraphView,
    b: Seq<Option<u32>>,
    op: Op,
    new: u32,
    after: GraphView,
    id: u32,
)
    requires
        rule.rewrites_from(g, b, op, new, after),
        rule.removes(b, id),
    ensures
        !after.nodes.contains_key(id),
{
}

/// A rewrite by a rule whose shape lies upstream of its terminal keeps a
/// graph free of cycles.
pub proof fn lemma_rewrite_keeps_acyclic(
    rule: RuleView,
    g: GraphView,
    b: Seq<Option<u32>>,
    op: Op,
    new: u32,
    after: GraphView,
)
    requires
        rule.wf(),
        rule.upstream(),
        g.wf(),
        g.acyclic(),
        rule.enabled_at(g, b),
        rule.rewrites_from(g, b, op, new, after),
    ensures
        after.acyclic(),
{
    let t = node_of(b, rule.terminal);
    let (x, shape) = choose|x: u32, shape: ShapeTracker|
        {
            &&& rule.candidate(g, b, x, shape)
            &&& !rule.removes(b, x)
            &&& #[trigger] rule.rewrites(g, b, op, x, shape, new, after)
        };
    let feed = input_edge(x, new, shape);
    let rank = choose|rank: spec_fn(u32) -> int| g.ranked_by(rank);
    let node = choose|node: u32| rule.pattern.occurs_at(g, node, b);
    assert(rule.pattern.occurs_at(g, node, b) && g.ranked_by(rank));
    lemma_candidate_is_live(rule, g, b, x, shape);
    assert(rank(x) < rank(t)) by {
        match rule.input {
            crate::rewrite::InputRule::Captured { input, shape_at } => {},
            crate::rewrite::InputRule::OtherSource { consumer, excluded } => {
                let e = choose|e: Edge|
                    {
                        &&& #[trigger] g.is_lowest_other_input(
                            node_of(b, consumer),
                            node_of(b, excluded),
                            e,
                        )
                        &&& e.source == x
                        &&& e.weight->shape == shape
                    };
                assert(g.edges.count(e) > 0);
            },
        }
    }
    let next = |id: u32|
        if id == new {
            rank(t)
        } else {
            rank(id)
        };
    assert forall|e: Edge| #[trigger] after.edges.count(e) > 0 implies next(e.source) < next(
        e.target,
    ) by {
        assert(after.edges.count(e) == rule.count_after(g, b, feed, new, e));
        if e.source == new {
            let back = Edge { source: t, ..e };
            assert(g.edges.count(back) > 0);
        } else if e == feed {
        } else {
            assert(g.edges.count(e) > 0);
        }
    }
    assert(after.ranked_by(next));
}

/// A pass by a rule whose shape lies upstream of its terminal keeps a graph
/// well formed and free of cycles.
pub proof fn lemma_pass_keeps_acyclic(
    rule: RuleView,
    op: Op,
    g: GraphView,
    after: GraphView,
    n: nat,
)
    requires
        rule.wf(),
        rule.upstream(),
        g.wf(),
        g.acyclic(),
        rule.reaches(op, g, after, n),
    ensures
        after.wf(),
        after.acyclic(),
    decreases n,
{
    if n > 0 {
        let mid = choose|mid: GraphView|
            rule.reaches(op, g, mid, (n - 1) as nat) && #[trigger] rule.step(op, mid, after);
        lemma_pass_keeps_acyclic(rule, op, g, mid, (n - 1) as nat);
        let (b, new) = choose|b: Seq<Option<u32>>, new: u32|
            rule.enabled_at(mid, b) && #[trigger] rule.rewrites_from(mid, b, op, new, after);
        lemma_rewrite_wf(rule, mid, b, op, new, after);
        lemma_rewrite_keeps_acyclic(rule, mid, b, op, new, after);
    }
}

/// In a graph free of cycles, no edge leads from the terminal of an
/// occurrence to a node that the rule removes, where the rule's shape lies
/// upstream of its terminal.
pub proof fn lemma_terminal_feeds_no_removed(
    rule: RuleView,
    g: GraphView,
    b: Seq<Option<u32>>,
    e: Edge,
)
    requires
        rule.upstream(),
        g.acyclic(),
        rule.pattern.is_match(g, b),
        g.edges.count(e) > 0,
        e.source == node_of(b, rule.terminal),
    ensures
        !rule.removes(b, e.target),
{
    let rank = choose|rank: spec_fn(u32) -> int| g.ranked_by(rank);
    let node = choose|node: u32| rule.pattern.occurs_at(g, node, b);
    assert(rule.pattern.occurs_at(g, node, b) && g.ranked_by(rank));
    if rule.removes(b, e.target) {
        let k = choose|k: int|
            0 <= k < rule.removed.len() && node_of(b, #[trigger] rule.removed[k]) == e.target;
        assert(rank(node_of(b, rule.removed[k])) <= rank(node_of(b, rule.terminal)));
    }
}

/// Two multisets of edges are equally large where one holds, for each edge
/// of the other, the same edge with another source, as often.
pub proof fn lemma_resourced_len(a: Multiset<Edge>, from: u32, b: Multiset<Edge>, to: u32)
    requires
        forall|e: Edge| #[trigger] a.count(e) > 0 ==> e.source == from,
        forall|e: Edge| #[trigger] b.count(e) > 0 ==> e.source == to,
        forall|e: Edge| e.source == to ==> #[trigger] b.count(e) == a.count(Edge { source: from, ..e }),
    ensures
        a.len() == b.len(),
    decreases a.len(),
{
    if a.len() == 0 {
        if b.len() > 0 {
            let e = b.choose();
            assert(b.count(e) > 0);
            assert(a.count(Edge { source: from, ..e }) > 0);
        }
    } else {
        let e = a.choose();
        assert(a.count(e) > 0);
        let moved = Edge { source: to, ..e };
        assert(Edge { source: from, ..moved } == e);
        assert(b.count(moved) == a.count(e));
        let a1 = a.remove(e);
        let b1 = b.remove(moved);
        assert forall|o: Edge| o.source == to implies #[trigger] b1.count(o) == a1.count(
            Edge { source: from, ..o },
        ) by {
            let back = Edge { source: from, ..o };
            assert(b.count(o) == a.count(back));
            assert(o == moved <==> back == e);
        }
        lemma_resourced_len(a1, from, b1, to);
    }
}

/// A rewrite in a graph free of cycles conserves the edges that leave the
/// terminal: the replacement has, for each target and weight, as many edges
/// as the terminal had, and as many in all.
pub proof fn lemma_rewrite_conserves_out_edges(
    rule: RuleView,
    g: GraphView,
    b: Seq<Option<u32>>,
    op: Op,
    new: u32,
    after: GraphView,
)
    requires
        rule.wf(),
        rule.upstream(),
        g.wf(),
        g.acyclic(),
        rule.enabled_at(g, b),
        rule.rewrites_from(g, b, op, new, after),
    ensures
        forall|e: Edge|
            e.source == new ==> #[trigger] after.edges.count(e) == g.edges.count(
                Edge { source: node_of(b, rule.terminal), ..e },
            ),
        after.outgoing(new).len() == g.outgoing(node_of(b, rule.terminal)).len(),
{
    assert forall|e: Edge| #[trigger]
        g.edges.count(e) > 0 && e.source == node_of(b, rule.terminal) implies !rule.removes(
        b,
        e.target,
    ) by {
        lemma_terminal_feeds_no_removed(rule, g, b, e);
    }
    lemma_rewrite_conserves_spared_out_edges(rule, g, b, op, new, after);
}

/// A rewrite conserves the edges that leave the terminal, where none of
/// them led to a node that the rewrite removes: the replacement has, for
/// each target and weight, as many edges as the terminal had, and as many
/// in all.
pub proof fn lemma_rewrite_conserves_spared_out_edges(
    rule: RuleView,
    g: GraphView,
    b: Seq<Option<u32>>,
    op: Op,
    new: u32,
    after: GraphView,
)
    requires
        rule.wf(),
        g.wf(),
        rule.enabled_at(g, b),
        rule.rewrites_from(g, b, op, new, after),
        forall|e: Edge| #[trigger]
            g.edges.count(e) > 0 && e.source == node_of(b, rule.terminal) ==> !rule.removes(
                b,
                e.target,
            ),
    ensures
        forall|e: Edge|
            e.source == new ==> #[trigger] after.edges.count(e) == g.edges.count(
                Edge { source: node_of(b, rule.terminal), ..e },
            ),
        after.outgoing(new).len() == g.outgoing(node_of(b, rule.terminal)).len(),
{
    let t = node_of(b, rule.terminal);
    let (x, shape) = choose|x: u32, shape: ShapeTracker|
        {
            &&& rule.candidate(g, b, x, shape)
            &&& !rule.removes(b, x)
            &&& #[trigger] rule.rewrites(g, b, op, x, shape, new, after)
        };
    let feed = input_edge(x, new, shape);
    rule.lemma_match_is_live(g, b);
    assert(rule.pattern.captures(rule.terminal as int));
    assert forall|e: Edge| e.source == new implies #[trigger] after.edges.count(e)
        == g.edges.count(Edge { source: t, ..e }) by {
        let back = Edge { source: t, ..e };
        assert(after.edges.count(e) == rule.count_after(g, b, feed, new, e));
        if rule.removes(b, new) {
            lemma_removed_is_guarded(rule, g, b, new);
        }
        if rule.removes(b, e.target) {
            if g.edges.count(back) > 0 {
                assert(!rule.removes(b, back.target));
            }
        }
    }
    assert forall|e: Edge| e.source == new implies #[trigger] after.outgoing(new).count(e)
        == g.outgoing(t).count(Edge { source: t, ..e }) by {
        assert(after.edges.count(e) == g.edges.count(Edge { source: t, ..e }));
    }
    lemma_resourced_len(g.outgoing(t), t, after.outgoing(new), new);
}

} // verus!
