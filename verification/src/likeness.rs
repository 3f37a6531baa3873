//! Graphs that sound alike.
//!
//! A bake depends on which nodes there are and how they are wired, not on
//! how they are listed, and on a node's configuration only as far as the
//! node's samples do.
use crate::bake;
use crate::bake::{Frame, Job};
use crate::elementary::Elementary;
use crate::float::F32;
use crate::node::{ContextView, Node, NodeKind};
use crate::order;
use crate::patch::{GraphView, NodeId, NodeView, PatchView};
use vstd::prelude::*;

verus! {

/// Two nodes make the same samples of everything.
pub open spec fn same_sound(a: NodeKind, b: NodeKind) -> bool {
    &&& a.initial() == b.initial()
    &&& forall|c: ContextView, f: spec_fn(Elementary, F32) -> F32|
        #[trigger] a.step(c, f) == b.step(c, f)
}

/// Two lists hold the same identifiers, each with the same wiring and the
/// same sound.
pub open spec fn alike(a: Seq<NodeView>, b: Seq<NodeView>) -> bool {
    &&& a.len() == b.len()
    &&& forall|id: NodeId| #[trigger] order::present(a, id) <==> order::present(b, id)
    &&& forall|id: NodeId| #[trigger]
        order::present(a, id) ==> {
            &&& order::node_of(a, id).inputs == order::node_of(b, id).inputs
            &&& same_sound(order::node_of(a, id).kind, order::node_of(b, id).kind)
        }
}

/// Two lists hold the same identifiers, and each reads the same nodes.
pub open spec fn wired_alike(a: Seq<NodeView>, b: Seq<NodeView>) -> bool {
    &&& a.len() == b.len()
    &&& forall|id: NodeId| #[trigger] order::present(a, id) <==> order::present(b, id)
    &&& forall|id: NodeId, s: NodeId|
        order::present(a, id) ==> (#[trigger] reads(a, id, s) <==> reads(b, id, s))
}

/// A node reads another one.
pub open spec fn reads(nodes: Seq<NodeView>, id: NodeId, s: NodeId) -> bool {
    order::sources(order::node_of(nodes, id).inputs).contains(s)
}

/// Lists that are alike are wired alike.
proof fn lemma_wired(a: Seq<NodeView>, b: Seq<NodeView>)
    requires
        alike(a, b),
    ensures
        wired_alike(a, b),
{
}

/// Nothing is missing where every source of every node is there.
pub proof fn lemma_nothing_missing(nodes: Seq<NodeView>)
    requires
        order::distinct(nodes),
    ensures
        order::first_missing(order::all_sources(nodes), nodes) is None <==> forall|
            id: NodeId,
            s: NodeId,
        |
            order::present(nodes, id) && #[trigger] order::sources(
                order::node_of(nodes, id).inputs,
            ).contains(s) ==> order::present(nodes, s),
{
    let all: Seq<NodeId> = order::all_sources(nodes);
    lemma_first_missing(all, nodes);
    if order::first_missing(all, nodes) is None {
        assert forall|id: NodeId, s: NodeId|
            order::present(nodes, id) && #[trigger] order::sources(
                order::node_of(nodes, id).inputs,
            ).contains(s) implies order::present(nodes, s) by {
            let i: int = choose|i: int| 0 <= i < nodes.len() && (#[trigger] nodes[i]).id == id;
            order::lemma_node_of(nodes, i);
            lemma_all_sources(nodes, s);
            assert(order::sources(nodes[i].inputs).contains(s));
            assert(all.contains(s));
        }
    } else {
        let s: NodeId = order::first_missing(all, nodes)->0;
        lemma_all_sources(nodes, s);
        let i: int = choose|i: int|
            0 <= i < nodes.len() && order::sources((#[trigger] nodes[i]).inputs).contains(s);
        order::lemma_node_of(nodes, i);
        assert(order::present(nodes, nodes[i].id));
        assert(order::sources(order::node_of(nodes, nodes[i].id).inputs).contains(s));
    }
}

proof fn lemma_first_missing(ids: Seq<NodeId>, nodes: Seq<NodeView>)
    ensures
        match order::first_missing(ids, nodes) {
            Some(s) => ids.contains(s) && !order::present(nodes, s),
            None => forall|s: NodeId| #[trigger] ids.contains(s) ==> order::present(nodes, s),
        },
    decreases ids.len(),
{
    if ids.len() > 0 {
        let front: Seq<NodeId> = ids.drop_last();
        lemma_first_missing(front, nodes);
        assert(ids.last() == ids[ids.len() - 1]);
        assert forall|s: NodeId| #[trigger] ids.contains(s) implies front.contains(s) || s
            == ids.last() by {
            let i: int = choose|i: int| 0 <= i < ids.len() && ids[i] == s;
            if i < ids.len() - 1 {
                assert(front[i] == s);
            }
        }
        assert forall|s: NodeId| #[trigger] front.contains(s) implies ids.contains(s) by {
            let i: int = choose|i: int| 0 <= i < front.len() && front[i] == s;
            assert(ids[i] == s);
        }
    }
}

proof fn lemma_all_sources(nodes: Seq<NodeView>, s: NodeId)
    ensures
        order::all_sources(nodes).contains(s) <==> exists|i: int|
            0 <= i < nodes.len() && order::sources((#[trigger] nodes[i]).inputs).contains(s),
    decreases nodes.len(),
{
    if nodes.len() > 0 {
        let front: Seq<NodeView> = nodes.drop_last();
        let last: Seq<NodeId> = order::sources(nodes.last().inputs);
        let before: Seq<NodeId> = order::all_sources(front);
        let all: Seq<NodeId> = order::all_sources(nodes);
        lemma_all_sources(front, s);
        if all.contains(s) {
            let k: int = choose|k: int| 0 <= k < all.len() && all[k] == s;
            if k < before.len() {
                assert(before[k] == s);
                let i: int = choose|i: int|
                    0 <= i < front.len() && order::sources((#[trigger] front[i]).inputs).contains(
                        s,
                    );
                assert(nodes[i] == front[i]);
            } else {
                assert(last[k - before.len()] == s);
                assert(nodes[nodes.len() - 1] == nodes.last());
            }
        }
        if exists|i: int|
            0 <= i < nodes.len() && order::sources((#[trigger] nodes[i]).inputs).contains(s) {
            let i: int = choose|i: int|
                0 <= i < nodes.len() && order::sources((#[trigger] nodes[i]).inputs).contains(s);
            if i < nodes.len() - 1 {
                assert(front[i] == nodes[i]);
                let k: int = choose|k: int| 0 <= k < before.len() && before[k] == s;
                assert(all[k] == s);
            } else {
                let k: int = choose|k: int| 0 <= k < last.len() && last[k] == s;
                assert(all[before.len() + k] == s);
            }
        }
    }
}

/// What is ready in one list is ready in one wired alike.
proof fn lemma_ready_carries(
    a: Seq<NodeView>,
    b: Seq<NodeView>,
    o: Seq<NodeId>,
    id: NodeId,
    k: int,
)
    requires
        wired_alike(a, b),
        order::present(a, id),
    ensures
        order::ready(a, o, id, k) == order::ready(b, o, id, k),
{
    assert forall|s: NodeId| #[trigger]
        order::sources(order::node_of(a, id).inputs).contains(s) == order::sources(
            order::node_of(b, id).inputs,
        ).contains(s) by {
        assert(reads(a, id, s) <==> reads(b, id, s));
    }
    if order::ready(a, o, id, k) {
        assert forall|s: NodeId| #[trigger]
            order::sources(order::node_of(b, id).inputs).contains(s) implies o.take(k).contains(
            s,
        ) by {
            assert(order::sources(order::node_of(a, id).inputs).contains(s));
        }
    }
}

/// An order of one list is an order of one wired alike.
proof fn lemma_order_carries(a: Seq<NodeView>, b: Seq<NodeView>, o: Seq<NodeId>)
    requires
        wired_alike(a, b),
        order::is_order(a, o),
    ensures
        order::is_order(b, o),
{
    assert forall|i: int| 0 <= i < o.len() implies order::present(b, #[trigger] o[i]) by {
        assert(order::present(a, o[i]));
    }
    assert forall|i: int| 0 <= i < o.len() implies order::ready(b, o, #[trigger] o[i], i) by {
        assert(order::present(a, o[i]));
        lemma_ready_carries(a, b, o, o[i], i);
        assert(order::ready(a, o, o[i], i));
    }
    assert forall|i: int, id: NodeId|
        0 <= i < o.len() && #[trigger] order::waiting(b, o, id, i) implies o[i].0 <= id.0 by {
        assert(order::present(a, id));
        lemma_ready_carries(a, b, o, id, i);
        assert(order::waiting(a, o, id, i));
    }
}

/// The evaluation order depends on the identifiers and on what reads what
/// alone: not on the listing, the configurations, the ports or the amounts.
pub proof fn law_graphs_wired_alike_sort_alike(a: GraphView, b: GraphView)
    requires
        order::distinct(a.nodes),
        order::distinct(b.nodes),
        wired_alike(a.nodes, b.nodes),
        a.output == b.output,
    ensures
        order::sorted(a) is Ok <==> order::sorted(b) is Ok,
        order::sorted(a) is Ok ==> order::sorted(a) == order::sorted(b),
{
    order::lemma_distinct(a.nodes);
    order::lemma_distinct(b.nodes);
    lemma_wiring_turns(a.nodes, b.nodes);
    assert(order::present(a.nodes, a.output) == order::present(b.nodes, b.output));
    lemma_missing_carries(a.nodes, b.nodes);
    lemma_missing_carries(b.nodes, a.nodes);
    if order::sorted(a) is Ok {
        let o: Seq<NodeId> = order::sorted(a)->Ok_0;
        assert(order::is_order(a.nodes, o));
        lemma_order_carries(a.nodes, b.nodes, o);
        let p: Seq<NodeId> = choose|p: Seq<NodeId>| order::is_order(b.nodes, p);
        order::law_order_is_unique(b.nodes, o, p);
    }
    if order::sorted(b) is Ok {
        let o: Seq<NodeId> = order::sorted(b)->Ok_0;
        assert(order::is_order(b.nodes, o));
        lemma_order_carries(b.nodes, a.nodes, o);
    }
}

/// Where nothing is missing in one list, nothing is in one wired alike.
proof fn lemma_missing_carries(a: Seq<NodeView>, b: Seq<NodeView>)
    requires
        order::distinct(a),
        order::distinct(b),
        wired_alike(a, b),
    ensures
        order::first_missing(order::all_sources(a), a) is None ==> order::first_missing(
            order::all_sources(b),
            b,
        ) is None,
{
    lemma_nothing_missing(a);
    lemma_nothing_missing(b);
    if order::first_missing(order::all_sources(a), a) is None {
        assert forall|id: NodeId, s: NodeId|
            order::present(b, id) && #[trigger] order::sources(
                order::node_of(b, id).inputs,
            ).contains(s) implies order::present(b, s) by {
            assert(order::present(a, id));
            assert(reads(a, id, s) <==> reads(b, id, s));
            assert(order::sources(order::node_of(a, id).inputs).contains(s));
            assert(order::present(a, s));
        }
    }
}

/// Being wired alike goes both ways.
proof fn lemma_wiring_turns(a: Seq<NodeView>, b: Seq<NodeView>)
    requires
        wired_alike(a, b),
    ensures
        wired_alike(b, a),
{
    assert forall|id: NodeId| #[trigger] order::present(b, id) <==> order::present(a, id) by {
        assert(order::present(a, id) <==> order::present(b, id));
    }
    assert forall|id: NodeId, s: NodeId| order::present(b, id) implies (#[trigger] reads(b, id, s)
        <==> reads(a, id, s)) by {
        assert(order::present(a, id));
        assert(reads(a, id, s) <==> reads(b, id, s));
    }
}

/// The states of nodes that are in the order agree.
spec fn frames_agree(a: Frame, b: Frame, o: Seq<NodeId>) -> bool {
    &&& a.outputs == b.outputs
    &&& a.rng == b.rng
    &&& forall|i: int| 0 <= i < o.len() ==> a.states[#[trigger] o[i]] == b.states[o[i]]
}

/// Two bakes whose graphs are alike, in one order.
spec fn jobs_agree(a: Job, b: Job) -> bool {
    &&& alike(a.graph.nodes, b.graph.nodes)
    &&& a.order == b.order
    &&& order::is_order(a.graph.nodes, a.order)
    &&& a.seed == b.seed
    &&& a.sample_rate == b.sample_rate
    &&& a.duration_samples == b.duration_samples
    &&& a.gate_samples == b.gate_samples
    &&& a.f == b.f
    &&& a.graph.output == b.graph.output
}

proof fn lemma_nodes_done_agree(a: Job, b: Job, x: Frame, y: Frame, k: int, index: u64)
    requires
        jobs_agree(a, b),
        frames_agree(x, y, a.order),
        0 <= k <= a.order.len(),
        forall|id: NodeId| x.states.dom().contains(id) && y.states.dom().contains(id),
        forall|id: NodeId| x.outputs.dom().contains(id),
    ensures
        frames_agree(a.nodes_done(x, k, index), b.nodes_done(y, k, index), a.order),
        forall|id: NodeId|
            a.nodes_done(x, k, index).states.dom().contains(id) && b.nodes_done(
                y,
                k,
                index,
            ).states.dom().contains(id),
        forall|id: NodeId| a.nodes_done(x, k, index).outputs.dom().contains(id),
    decreases k,
{
    if k > 0 {
        lemma_nodes_done_agree(a, b, x, y, k - 1, index);
        let id: NodeId = a.order[k - 1];
        assert(order::present(a.graph.nodes, id));
        let p: Frame = a.nodes_done(x, k - 1, index);
        let q: Frame = b.nodes_done(y, k - 1, index);
        assert(p.states[id] == q.states[id]);
        assert(a.context(p, id, index) == b.context(q, id, index));
        assert(same_sound(
            order::node_of(a.graph.nodes, id).kind,
            order::node_of(b.graph.nodes, id).kind,
        ));
        let c: ContextView = a.context(p, id, index);
        assert(order::node_of(a.graph.nodes, id).kind.step(c, a.f) == order::node_of(
            b.graph.nodes,
            id,
        ).kind.step(c, a.f));
        let s: Frame = a.nodes_done(x, k, index);
        let t: Frame = b.nodes_done(y, k, index);
        assert(s == a.node_done(p, id, index));
        assert(t == b.node_done(q, id, index));
        assert forall|i: int| 0 <= i < a.order.len() implies s.states[#[trigger] a.order[i]]
            == t.states[a.order[i]] by {
            assert(p.states[a.order[i]] == q.states[a.order[i]]);
        }
    }
}

proof fn lemma_samples_done_agree(a: Job, b: Job, n: int)
    requires
        jobs_agree(a, b),
    ensures
        frames_agree(a.samples_done(n), b.samples_done(n), a.order),
        forall|id: NodeId|
            a.samples_done(n).states.dom().contains(id) && b.samples_done(n).states.dom().contains(
                id,
            ),
        forall|id: NodeId| a.samples_done(n).outputs.dom().contains(id),
    decreases n,
{
    if n <= 0 {
        assert forall|i: int| 0 <= i < a.order.len() implies a.start().states[
            #[trigger] a.order[i]] == b.start().states[a.order[i]] by {
            assert(order::present(a.graph.nodes, a.order[i]));
        }
        assert(a.start().outputs =~= b.start().outputs);
    } else {
        lemma_samples_done_agree(a, b, n - 1);
        lemma_nodes_done_agree(
            a,
            b,
            a.samples_done(n - 1),
            b.samples_done(n - 1),
            a.order.len() as int,
            (n - 1) as u64,
        );
    }
}

/// Patches with the same seed whose graphs are alike give the same buffer.
pub proof fn law_alike_patches_bake_alike(
    a: PatchView,
    b: PatchView,
    sample_rate: u32,
    duration_samples: u64,
    gate_samples: Option<u64>,
    f: spec_fn(Elementary, F32) -> F32,
)
    requires
        order::distinct(a.graph.nodes),
        order::distinct(b.graph.nodes),
        alike(a.graph.nodes, b.graph.nodes),
        a.graph.output == b.graph.output,
        a.seed == b.seed,
    ensures
        bake::baked(a, sample_rate, duration_samples, gate_samples, f) is Ok <==> bake::baked(
            b,
            sample_rate,
            duration_samples,
            gate_samples,
            f,
        ) is Ok,
        bake::baked(a, sample_rate, duration_samples, gate_samples, f) is Ok ==> bake::baked(
            a,
            sample_rate,
            duration_samples,
            gate_samples,
            f,
        ) == bake::baked(b, sample_rate, duration_samples, gate_samples, f),
{
    lemma_wired(a.graph.nodes, b.graph.nodes);
    law_graphs_wired_alike_sort_alike(a.graph, b.graph);
    if duration_samples > 0 && order::sorted(a.graph) is Ok {
        let x: Job = bake::job(a, sample_rate, duration_samples, gate_samples, f);
        let y: Job = bake::job(b, sample_rate, duration_samples, gate_samples, f);
        assert(jobs_agree(x, y));
        assert forall|i: int| 0 <= i < duration_samples implies #[trigger] x.heard(i)
            == y.heard(i) by {
            lemma_samples_done_agree(x, y, i + 1);
        }
        assert(x.buffer() =~= y.buffer());
    }
}

/// How the nodes of a patch are listed does not matter: any listing of the
/// same nodes gives the same buffer.
pub proof fn law_listing_does_not_matter(
    a: PatchView,
    b: PatchView,
    sample_rate: u32,
    duration_samples: u64,
    gate_samples: Option<u64>,
    f: spec_fn(Elementary, F32) -> F32,
)
    requires
        a.seed == b.seed,
        a.graph.output == b.graph.output,
        a.graph.nodes.to_multiset() == b.graph.nodes.to_multiset(),
    ensures
        bake::baked(a, sample_rate, duration_samples, gate_samples, f) is Ok ==> bake::baked(
            a,
            sample_rate,
            duration_samples,
            gate_samples,
            f,
        ) == bake::baked(b, sample_rate, duration_samples, gate_samples, f),
{
    let x: Seq<NodeView> = a.graph.nodes;
    let y: Seq<NodeView> = b.graph.nodes;
    if duration_samples > 0 && order::sorted(a.graph) is Ok {
        order::lemma_distinct(x);
        broadcast use vstd::seq_lib::group_to_multiset_ensures;

        assert(x.len() == x.to_multiset().len());
        assert(y.len() == y.to_multiset().len());
        lemma_distinct_listing(x, y);
        assert forall|id: NodeId| #[trigger] order::present(x, id) <==> order::present(y, id) by {
            if order::present(x, id) {
                let i: int = choose|i: int| 0 <= i < x.len() && (#[trigger] x[i]).id == id;
                lemma_listed(x, y, i);
            }
            if order::present(y, id) {
                let i: int = choose|i: int| 0 <= i < y.len() && (#[trigger] y[i]).id == id;
                lemma_listed(y, x, i);
            }
        }
        assert forall|id: NodeId| #[trigger] order::present(x, id) implies {
            &&& order::node_of(x, id).inputs == order::node_of(y, id).inputs
            &&& same_sound(order::node_of(x, id).kind, order::node_of(y, id).kind)
        } by {
            let i: int = choose|i: int| 0 <= i < x.len() && (#[trigger] x[i]).id == id;
            order::lemma_node_of(x, i);
            lemma_listed(x, y, i);
            let j: int = choose|j: int| 0 <= j < y.len() && y[j] == x[i];
            order::lemma_node_of(y, j);
        }
        law_alike_patches_bake_alike(
            a,
            b,
            sample_rate,
            duration_samples,
            gate_samples,
            f,
        );
    }
}

/// What stands in one listing stands in the other.
proof fn lemma_listed(x: Seq<NodeView>, y: Seq<NodeView>, i: int)
    requires
        x.to_multiset() == y.to_multiset(),
        0 <= i < x.len(),
    ensures
        y.contains(x[i]),
        exists|j: int| 0 <= j < y.len() && #[trigger] y[j] == x[i],
{
    broadcast use vstd::seq_lib::group_to_multiset_ensures;

    assert(x.contains(x[i]));
    assert(x.to_multiset().count(x[i]) > 0);
    assert(y.to_multiset().count(x[i]) > 0);
}

/// Another listing of distinct nodes is distinct.
proof fn lemma_distinct_listing(x: Seq<NodeView>, y: Seq<NodeView>)
    requires
        x.to_multiset() == y.to_multiset(),
        order::distinct(x),
    ensures
        order::distinct(y),
{
    broadcast use vstd::seq_lib::group_to_multiset_ensures;

    assert(x.no_duplicates()) by {
        assert forall|i: int, j: int| 0 <= i < j < x.len() implies x[i] != x[j] by {
            assert(x[i].id != x[j].id);
        }
    }
    x.lemma_multiset_has_no_duplicates();
    y.lemma_multiset_has_no_duplicates_conv();
    assert forall|i: int, j: int| 0 <= i < j < y.len() implies (#[trigger] y[i]).id != (
    #[trigger] y[j]).id by {
        lemma_listed(y, x, i);
        lemma_listed(y, x, j);
        let p: int = choose|p: int| 0 <= p < x.len() && #[trigger] x[p] == y[i];
        let q: int = choose|q: int| 0 <= q < x.len() && #[trigger] x[q] == y[j];
        assert(y[i] != y[j]);
        if p < q {
            assert(x[p].id != x[q].id);
        } else {
            assert(x[q].id != x[p].id);
        }
    }
}

} // verus!
