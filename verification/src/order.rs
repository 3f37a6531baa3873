//! The order in which the nodes of a graph are evaluated.
use crate::patch::{
    Connection, GraphError, GraphNode, GraphView, NodeGraph, NodeId, NodeView, Port, PortView,
};
use crate::patch;
use vstd::prelude::*;

verus! {

/// The nodes that some connections read, in the connections' order.
pub open spec fn read_by(connections: Seq<Connection>) -> Seq<NodeId>
    decreases connections.len(),
{
    if connections.len() == 0 {
        Seq::empty()
    } else {
        let before: Seq<NodeId> = read_by(connections.drop_last());
        match connections.last() {
            Connection::Constant { .. } => before,
            Connection::Node { id, .. } => before.push(id),
        }
    }
}

/// The nodes that some ports read, in the ports' order.
pub open spec fn sources(ports: Seq<PortView>) -> Seq<NodeId>
    decreases ports.len(),
{
    if ports.len() == 0 {
        Seq::empty()
    } else {
        sources(ports.drop_last()) + read_by(ports.last().connections)
    }
}

/// The nodes that some nodes read, in the nodes' order.
pub open spec fn all_sources(nodes: Seq<NodeView>) -> Seq<NodeId>
    decreases nodes.len(),
{
    if nodes.len() == 0 {
        Seq::empty()
    } else {
        all_sources(nodes.drop_last()) + sources(nodes.last().inputs)
    }
}

/// A node with the identifier is there.
pub open spec fn present(nodes: Seq<NodeView>, id: NodeId) -> bool {
    exists|i: int| 0 <= i < nodes.len() && (#[trigger] nodes[i]).id == id
}

/// The node with an identifier.
pub open spec fn node_of(nodes: Seq<NodeView>, id: NodeId) -> NodeView {
    nodes[choose|i: int| 0 <= i < nodes.len() && (#[trigger] nodes[i]).id == id]
}

/// The first identifier, in the nodes' order, that an earlier node has too.
pub open spec fn first_repeat(nodes: Seq<NodeView>) -> Option<NodeId>
    decreases nodes.len(),
{
    if nodes.len() == 0 {
        None
    } else {
        match first_repeat(nodes.drop_last()) {
            Some(id) => Some(id),
            None => if present(nodes.drop_last(), nodes.last().id) {
                Some(nodes.last().id)
            } else {
                None
            },
        }
    }
}

/// The first of some identifiers that no node has.
pub open spec fn first_missing(ids: Seq<NodeId>, nodes: Seq<NodeView>) -> Option<NodeId>
    decreases ids.len(),
{
    if ids.len() == 0 {
        None
    } else {
        match first_missing(ids.drop_last(), nodes) {
            Some(id) => Some(id),
            None => if present(nodes, ids.last()) {
                None
            } else {
                Some(ids.last())
            },
        }
    }
}

/// Everything that a node reads is among the first `k` of an order.
pub open spec fn ready(nodes: Seq<NodeView>, order: Seq<NodeId>, id: NodeId, k: int) -> bool {
    forall|s: NodeId| #[trigger]
        sources(node_of(nodes, id).inputs).contains(s) ==> order.take(k).contains(s)
}

/// A node is not among the first `k` of an order, but everything that it
/// reads is.
pub open spec fn waiting(nodes: Seq<NodeView>, order: Seq<NodeId>, id: NodeId, k: int) -> bool {
    &&& present(nodes, id)
    &&& !order.take(k).contains(id)
    &&& ready(nodes, order, id, k)
}

/// An evaluation order: every node once, behind everything that it reads, and
/// at every place the node with the lowest identifier of those that wait for
/// nothing more.
pub open spec fn is_order(nodes: Seq<NodeView>, order: Seq<NodeId>) -> bool {
    &&& order.len() == nodes.len()
    &&& order.no_duplicates()
    &&& forall|i: int| 0 <= i < order.len() ==> present(nodes, #[trigger] order[i])
    &&& forall|i: int| 0 <= i < order.len() ==> ready(nodes, order, #[trigger] order[i], i)
    &&& forall|i: int, id: NodeId|
        0 <= i < order.len() && #[trigger] waiting(nodes, order, id, i) ==> order[i].0 <= id.0
}

/// What sorting a graph yields: its evaluation order, or the first of these
/// that is wrong with it: a repeated identifier, a missing output, a missing
/// source, nodes that wait for each other.
pub open spec fn sorted(graph: GraphView) -> Result<Seq<NodeId>, GraphError> {
    match first_repeat(graph.nodes) {
        Some(id) => Err(GraphError::DuplicateId(id)),
        None => if !present(graph.nodes, graph.output) {
            Err(GraphError::MissingOutput(graph.output))
        } else {
            match first_missing(all_sources(graph.nodes), graph.nodes) {
                Some(id) => Err(GraphError::UnknownNode(id)),
                None => if exists|o: Seq<NodeId>| is_order(graph.nodes, o) {
                    Ok(choose|o: Seq<NodeId>| is_order(graph.nodes, o))
                } else {
                    Err(GraphError::Cycle)
                },
            }
        },
    }
}

/// A node reads one of some nodes.
#[verifier::opaque]
pub open spec fn reads_one_of(nodes: Seq<NodeView>, knot: Set<NodeId>, id: NodeId) -> bool {
    exists|s: NodeId|
        knot.contains(s) && #[trigger] sources(node_of(nodes, id).inputs).contains(s)
}

/// Some nodes each of which reads one of them.
pub open spec fn is_knot(nodes: Seq<NodeView>, knot: Set<NodeId>) -> bool {
    &&& exists|id: NodeId| #[trigger] knot.contains(id)
    &&& forall|id: NodeId| #[trigger]
        knot.contains(id) ==> present(nodes, id) && reads_one_of(nodes, knot, id)
}

/// What a node reads of some nodes.
proof fn lemma_read_of(nodes: Seq<NodeView>, knot: Set<NodeId>, id: NodeId) -> (s: NodeId)
    requires
        reads_one_of(nodes, knot, id),
    ensures
        knot.contains(s),
        sources(node_of(nodes, id).inputs).contains(s),
{
    reveal(reads_one_of);
    choose|s: NodeId|
        knot.contains(s) && #[trigger] sources(node_of(nodes, id).inputs).contains(s)
}

/// Two orders that agree up to a place make the same nodes ready up to it.
proof fn lemma_ready_agrees(
    nodes: Seq<NodeView>,
    a: Seq<NodeId>,
    b: Seq<NodeId>,
    id: NodeId,
    i: int,
    k: int,
)
    requires
        0 <= k <= i <= a.len(),
        i <= b.len(),
        a.take(i) == b.take(i),
    ensures
        ready(nodes, a, id, k) == ready(nodes, b, id, k),
{
    assert(a.take(k) =~= a.take(i).take(k));
    assert(b.take(k) =~= b.take(i).take(k));
}

/// Every node stands somewhere in an order.
pub proof fn lemma_order_covers(nodes: Seq<NodeView>, order: Seq<NodeId>, id: NodeId)
    requires
        is_order(nodes, order),
        present(nodes, id),
    ensures
        order.contains(id),
{
    let ids: Seq<NodeId> = nodes.map_values(|n: NodeView| n.id);
    assert forall|x: NodeId| order.to_set().contains(x) implies #[trigger] ids.to_set().contains(
        x,
    ) by {
        let i: int = choose|i: int| 0 <= i < order.len() && order[i] == x;
        assert(present(nodes, order[i]));
        let j: int = choose|j: int| 0 <= j < nodes.len() && (#[trigger] nodes[j]).id == x;
        assert(ids[j] == x);
    }
    order.unique_seq_to_set();
    vstd::set_lib::lemma_len_subset(order.to_set(), ids.to_set());
    vstd::seq_lib::seq_to_set_is_finite(ids);
    ids.lemma_cardinality_of_set();
    let j: int = choose|j: int| 0 <= j < nodes.len() && (#[trigger] nodes[j]).id == id;
    assert(ids[j] == id);
    vstd::set_lib::lemma_subset_equality(order.to_set(), ids.to_set());
    assert(order.to_set().contains(id));
}

/// A graph has at most one evaluation order.
pub proof fn law_order_is_unique(nodes: Seq<NodeView>, a: Seq<NodeId>, b: Seq<NodeId>)
    requires
        is_order(nodes, a),
        is_order(nodes, b),
    ensures
        a == b,
{
    lemma_orders_agree(nodes, a, b, a.len() as int);
    assert(a.take(a.len() as int) =~= a);
    assert(b.take(b.len() as int) =~= b);
}

proof fn lemma_orders_agree(nodes: Seq<NodeView>, a: Seq<NodeId>, b: Seq<NodeId>, n: int)
    requires
        is_order(nodes, a),
        is_order(nodes, b),
        0 <= n <= a.len(),
    ensures
        a.take(n) == b.take(n),
    decreases n,
{
    if n > 0 {
        let i: int = n - 1;
        lemma_orders_agree(nodes, a, b, i);
        lemma_waits(nodes, a, i);
        lemma_waits(nodes, b, i);
        lemma_ready_agrees(nodes, a, b, a[i], i, i);
        lemma_ready_agrees(nodes, a, b, b[i], i, i);
        assert(waiting(nodes, b, a[i], i));
        assert(waiting(nodes, a, b[i], i));
        assert(a.take(n) =~= a.take(i).push(a[i]));
        assert(b.take(n) =~= b.take(i).push(b[i]));
    }
}

/// The node at a place of an order waits for nothing more there.
pub proof fn lemma_waits(nodes: Seq<NodeView>, order: Seq<NodeId>, i: int)
    requires
        is_order(nodes, order),
        0 <= i < order.len(),
    ensures
        waiting(nodes, order, order[i], i),
{
    assert(present(nodes, order[i]));
    assert(ready(nodes, order, order[i], i));
    if order.take(i).contains(order[i]) {
        let j: int = choose|j: int| 0 <= j < i && order.take(i)[j] == order[i];
        assert(order[j] == order[i]);
    }
}

/// Nodes that wait for each other have no place in any order: a graph with a
/// knot has no evaluation order.
pub proof fn law_knot_has_no_order(nodes: Seq<NodeView>, knot: Set<NodeId>, order: Seq<NodeId>)
    requires
        is_knot(nodes, knot),
    ensures
        !is_order(nodes, order),
{
    if is_order(nodes, order) {
        let id: NodeId = choose|id: NodeId| #[trigger] knot.contains(id);
        lemma_order_covers(nodes, order, id);
        let p: int = choose|p: int| 0 <= p < order.len() && order[p] == id;
        lemma_outside_knot(nodes, knot, order, p);
    }
}

/// Where every node stands behind what it reads, none is in a knot.
proof fn lemma_outside_knot(nodes: Seq<NodeView>, knot: Set<NodeId>, order: Seq<NodeId>, p: int)
    requires
        is_knot(nodes, knot),
        forall|i: int| 0 <= i < order.len() ==> ready(nodes, order, #[trigger] order[i], i),
        0 <= p < order.len(),
    ensures
        !knot.contains(order[p]),
    decreases p,
{
    let id: NodeId = order[p];
    if knot.contains(id) {
        let s: NodeId = lemma_read_of(nodes, knot, id);
        assert(ready(nodes, order, order[p], p));
        assert(order.take(p).contains(s));
        let j: int = choose|j: int| 0 <= j < p && order.take(p)[j] == s;
        assert(order[j] == s);
        lemma_outside_knot(nodes, knot, order, j);
    }
}

/// Copies out the nodes that a node reads.
fn sources_of(ports: &Vec<Port>) -> (r: Vec<NodeId>)
    ensures
        r@ == sources(patch::ports_view(ports@)),
{
    let ghost all: Seq<PortView> = patch::ports_view(ports@);
    let mut r: Vec<NodeId> = Vec::new();
    let mut p: usize = 0;
    while p < ports.len()
        invariant
            p <= ports.len(),
            all == patch::ports_view(ports@),
            r@ == sources(all.take(p as int)),
        decreases ports.len() - p,
    {
        let list: &Vec<Connection> = &ports[p].connections;
        let ghost so_far: Seq<NodeId> = r@;
        let mut c: usize = 0;
        assert(r@ =~= so_far + read_by(list@.take(0)));
        while c < list.len()
            invariant
                c <= list.len(),
                r@ == so_far + read_by(list@.take(c as int)),
            decreases list.len() - c,
        {
            assert(list@.take(c + 1).drop_last() =~= list@.take(c as int));
            match list[c] {
                Connection::Constant { .. } => {},
                Connection::Node { id, .. } => {
                    r.push(id);
                },
            }
            assert(r@ =~= so_far + read_by(list@.take(c + 1)));
            c = c + 1;
        }
        assert(list@.take(c as int) =~= list@);
        assert(all.take(p + 1).drop_last() =~= all.take(p as int));
        assert(all.take(p + 1).last() == ports[p as int]@);
        p = p + 1;
    }
    assert(all.take(p as int) =~= all);
    r
}

/// The place of the first node among the first `n` that has an identifier.
fn find(nodes: &Vec<GraphNode>, n: usize, id: NodeId) -> (r: Option<usize>)
    requires
        n <= nodes.len(),
    ensures
        match r {
            Some(i) => i < n && nodes[i as int].id == id,
            None => forall|i: int| 0 <= i < n ==> (#[trigger] nodes[i]).id != id,
        },
        r is Some <==> present(patch::nodes_view(nodes@).take(n as int), id),
{
    let ghost view: Seq<NodeView> = patch::nodes_view(nodes@).take(n as int);
    let mut i: usize = 0;
    while i < n
        invariant
            i <= n <= nodes.len(),
            view == patch::nodes_view(nodes@).take(n as int),
            forall|j: int| 0 <= j < i ==> (#[trigger] nodes[j]).id != id,
        decreases n - i,
    {
        if nodes[i].id == id {
            assert(view[i as int].id == id);
            return Some(i);
        }
        i = i + 1;
    }
    assert forall|j: int| 0 <= j < view.len() implies (#[trigger] view[j]).id != id by {
        assert(nodes[j].id != id);
    }
    None
}

/// No two nodes share an identifier.
pub open spec fn distinct(nodes: Seq<NodeView>) -> bool {
    forall|i: int, j: int|
        0 <= i < j < nodes.len() ==> (#[trigger] nodes[i]).id != (#[trigger] nodes[j]).id
}

/// Without a repeated identifier all are distinct, and the other way round.
pub proof fn lemma_distinct(nodes: Seq<NodeView>)
    ensures
        first_repeat(nodes) is None <==> distinct(nodes),
    decreases nodes.len(),
{
    if nodes.len() > 0 {
        let front: Seq<NodeView> = nodes.drop_last();
        lemma_distinct(front);
        if first_repeat(nodes) is None {
            assert forall|i: int, j: int| 0 <= i < j < nodes.len() implies (
            #[trigger] nodes[i]).id != (#[trigger] nodes[j]).id by {
                assert(front[i] == nodes[i]);
                if j < nodes.len() - 1 {
                    assert(front[j] == nodes[j]);
                }
            }
        }
        if distinct(nodes) {
            assert forall|i: int, j: int| 0 <= i < j < front.len() implies (
            #[trigger] front[i]).id != (#[trigger] front[j]).id by {
                assert(front[i] == nodes[i] && front[j] == nodes[j]);
            }
            assert forall|i: int| 0 <= i < front.len() implies (#[trigger] front[i]).id
                != nodes.last().id by {
                assert(front[i] == nodes[i]);
                assert(nodes[i].id != nodes[nodes.len() - 1].id);
            }
        }
    }
}

/// Among nodes with distinct identifiers each is the one with its own.
pub proof fn lemma_node_of(nodes: Seq<NodeView>, i: int)
    requires
        distinct(nodes),
        0 <= i < nodes.len(),
    ensures
        node_of(nodes, nodes[i].id) == nodes[i],
        present(nodes, nodes[i].id),
{
    let j: int = choose|j: int| 0 <= j < nodes.len() && (#[trigger] nodes[j]).id == nodes[i].id;
    assert(0 <= j < nodes.len() && nodes[j].id == nodes[i].id);
    if j < i {
        assert(nodes[j].id != nodes[i].id);
    } else if i < j {
        assert(nodes[i].id != nodes[j].id);
    }
}

/// The first missing identifier of two lists, one behind the other.
proof fn lemma_first_missing_joins(a: Seq<NodeId>, b: Seq<NodeId>, nodes: Seq<NodeView>)
    ensures
        first_missing(a + b, nodes) == (match first_missing(a, nodes) {
            Some(id) => Some(id),
            None => first_missing(b, nodes),
        }),
    decreases b.len(),
{
    if b.len() == 0 {
        assert(a + b =~= a);
    } else {
        lemma_first_missing_joins(a, b.drop_last(), nodes);
        assert((a + b).drop_last() =~= a + b.drop_last());
        assert((a + b).last() == b.last());
    }
}

/// The first missing identifier of a list is that of its beginning.
proof fn lemma_first_missing_prefix(ids: Seq<NodeId>, k: int, nodes: Seq<NodeView>)
    requires
        0 <= k <= ids.len(),
        first_missing(ids.take(k), nodes) is Some,
    ensures
        first_missing(ids, nodes) == first_missing(ids.take(k), nodes),
{
    lemma_first_missing_joins(ids.take(k), ids.skip(k), nodes);
    assert(ids.take(k) + ids.skip(k) =~= ids);
}

/// All that the first `k` nodes read comes first in what all of them read.
proof fn lemma_all_sources_prefix(nodes: Seq<NodeView>, k: int)
    requires
        0 <= k <= nodes.len(),
    ensures
        all_sources(nodes.take(k)).len() <= all_sources(nodes).len(),
        all_sources(nodes).take(all_sources(nodes.take(k)).len() as int) == all_sources(
            nodes.take(k),
        ),
    decreases nodes.len(),
{
    if k == nodes.len() {
        assert(nodes.take(k) =~= nodes);
        assert(all_sources(nodes).take(all_sources(nodes).len() as int) =~= all_sources(nodes));
    } else {
        let front: Seq<NodeView> = nodes.drop_last();
        lemma_all_sources_prefix(front, k);
        assert(front.take(k) =~= nodes.take(k));
        let n: int = all_sources(nodes.take(k)).len() as int;
        assert(all_sources(nodes).take(n) =~= all_sources(front).take(n));
    }
}

/// The nodes that each node reads, by their places in the graph.
pub open spec fn resolved(nodes: Seq<NodeView>, deps: Seq<Seq<usize>>) -> bool {
    &&& deps.len() == nodes.len()
    &&& forall|v: int| 0 <= v < nodes.len() ==> resolved_at(nodes, v, #[trigger] deps[v])
}

/// The nodes that one node reads, by their places in the graph.
pub open spec fn resolved_at(nodes: Seq<NodeView>, v: int, list: Seq<usize>) -> bool {
    let ids: Seq<NodeId> = sources(nodes[v].inputs);
    &&& list.len() == ids.len()
    &&& forall|d: int|
        0 <= d < list.len() ==> (#[trigger] list[d]) < nodes.len() && nodes[list[d] as int].id
            == ids[d]
}

/// The contents of a list of lists.
pub open spec fn lists_view(lists: Seq<Vec<usize>>) -> Seq<Seq<usize>> {
    lists.map_values(|l: Vec<usize>| l@)
}

/// Finds the nodes that each node reads, or the first that is missing.
fn resolve(nodes: &Vec<GraphNode>) -> (r: Result<Vec<Vec<usize>>, NodeId>)
    ensures
        match r {
            Ok(deps) => {
                &&& resolved(patch::nodes_view(nodes@), lists_view(deps@))
                &&& first_missing(
                    all_sources(patch::nodes_view(nodes@)),
                    patch::nodes_view(nodes@),
                ) is None
            },
            Err(id) => first_missing(
                all_sources(patch::nodes_view(nodes@)),
                patch::nodes_view(nodes@),
            ) == Some(id),
        },
{
    let ghost view: Seq<NodeView> = patch::nodes_view(nodes@);
    let mut deps: Vec<Vec<usize>> = Vec::new();
    let mut v: usize = 0;
    while v < nodes.len()
        invariant
            v <= nodes.len(),
            view == patch::nodes_view(nodes@),
            deps.len() == v,
            first_missing(all_sources(view.take(v as int)), view) is None,
            forall|u: int| 0 <= u < v ==> resolved_at(view, u, (#[trigger] deps[u])@),
        decreases nodes.len() - v,
    {
        let ids: Vec<NodeId> = sources_of(&nodes[v].inputs);
        let ghost so_far: Seq<NodeId> = all_sources(view.take(v as int));
        proof {
            assert(view[v as int] == nodes[v as int]@);
            assert(view.take(v + 1).drop_last() =~= view.take(v as int));
            assert(view.take(v + 1).last() == view[v as int]);
            assert(all_sources(view.take(v + 1)) == so_far + ids@);
            lemma_all_sources_prefix(view, v + 1);
        }
        let mut list: Vec<usize> = Vec::new();
        let mut d: usize = 0;
        while d < ids.len()
            invariant
                d <= ids.len(),
                list.len() == d,
                v < nodes.len(),
                view == patch::nodes_view(nodes@),
                so_far == all_sources(view.take(v as int)),
                all_sources(view.take(v + 1)) == so_far + ids@,
                all_sources(view.take(v + 1)).len() <= all_sources(view).len(),
                all_sources(view).take(all_sources(view.take(v + 1)).len() as int) == all_sources(
                    view.take(v + 1),
                ),
                first_missing(so_far, view) is None,
                first_missing(ids@.take(d as int), view) is None,
                forall|e: int|
                    0 <= e < d ==> (#[trigger] list[e]) < nodes.len() && nodes[list[e] as int].id
                        == ids[e],
            decreases ids.len() - d,
        {
            proof {
                assert(ids@.take(d + 1).drop_last() =~= ids@.take(d as int));
                assert(ids@.take(d + 1).last() == ids[d as int]);
                assert(view.take(nodes.len() as int) =~= view);
            }
            match find(nodes, nodes.len(), ids[d]) {
                Some(at) => {
                    list.push(at);
                },
                None => {
                    proof {
                        assert(first_missing(ids@.take(d + 1), view) == Some(ids[d as int]));
                        lemma_first_missing_prefix(ids@, d + 1, view);
                        lemma_first_missing_joins(so_far, ids@, view);
                        lemma_first_missing_prefix(
                            all_sources(view),
                            all_sources(view.take(v + 1)).len() as int,
                            view,
                        );
                    }
                    return Err(ids[d]);
                },
            }
            d = d + 1;
        }
        proof {
            assert(ids@.take(d as int) =~= ids@);
            lemma_first_missing_joins(so_far, ids@, view);
            assert(resolved_at(view, v as int, list@)) by {
                assert forall|e: int| 0 <= e < list.len() implies (#[trigger] list[e])
                    < view.len() && view[list[e] as int].id == sources(
                    view[v as int].inputs,
                )[e] by {
                    assert(view[list[e] as int] == nodes[list[e] as int]@);
                }
            }
        }
        deps.push(list);
        v = v + 1;
    }
    proof {
        assert(view.take(v as int) =~= view);
        assert forall|u: int| 0 <= u < view.len() implies resolved_at(
            view,
            u,
            #[trigger] lists_view(deps@)[u],
        ) by {
            assert(lists_view(deps@)[u] == deps[u]@);
        }
    }
    Ok(deps)
}

/// The places of the nodes, sorted by the nodes' identifiers.
pub open spec fn sorted_places(nodes: Seq<NodeView>, places: Seq<usize>, n: int) -> bool {
    &&& places.len() == n
    &&& forall|q: int| 0 <= q < n ==> #[trigger] places[q] < n
    &&& forall|v: usize| v < n ==> places.contains(v)
    &&& forall|p: int, q: int|
        0 <= p < q < n ==> nodes[(#[trigger] places[p]) as int].id.0 < nodes[(
        #[trigger] places[q]) as int].id.0
}

/// Sorts the places of the nodes by the nodes' identifiers.
fn by_identifier(nodes: &Vec<GraphNode>) -> (r: Vec<usize>)
    requires
        distinct(patch::nodes_view(nodes@)),
    ensures
        sorted_places(patch::nodes_view(nodes@), r@, nodes.len() as int),
{
    let ghost view: Seq<NodeView> = patch::nodes_view(nodes@);
    let mut places: Vec<usize> = Vec::new();
    let mut n: usize = 0;
    while n < nodes.len()
        invariant
            n <= nodes.len(),
            view == patch::nodes_view(nodes@),
            distinct(view),
            sorted_places(view, places@, n as int),
        decreases nodes.len() - n,
    {
        let id: u32 = nodes[n].id.0;
        let mut at: usize = 0;
        while at < places.len() && nodes[places[at]].id.0 < id
            invariant
                at <= places.len(),
                n < nodes.len(),
                view == patch::nodes_view(nodes@),
                sorted_places(view, places@, n as int),
                id == nodes[n as int].id.0,
                forall|q: int| 0 <= q < at ==> view[(#[trigger] places[q]) as int].id.0 < id,
            decreases places.len() - at,
        {
            assert(view[places[at as int] as int] == nodes[places[at as int] as int]@);
            at = at + 1;
        }
        let ghost before: Seq<usize> = places@;
        places.insert(at, n);
        proof {
            assert(view[n as int] == nodes[n as int]@);
            assert forall|q: int| at <= q < n implies view[(#[trigger] before[q]) as int].id.0
                > id by {
                assert(view[before[at as int] as int] == nodes[before[at as int] as int]@);
                assert(view[before[at as int] as int].id != view[n as int].id);
                if q > at {
                    assert(view[before[at as int] as int].id.0 < view[before[q] as int].id.0);
                }
            }
            assert forall|v: usize| v < n + 1 implies places@.contains(v) by {
                if v == n {
                    assert(places@[at as int] == v);
                } else {
                    assert(before.contains(v));
                    let q: int = choose|q: int| 0 <= q < before.len() && before[q] == v;
                    if q < at {
                        assert(places@[q] == v);
                    } else {
                        assert(places@[q + 1] == v);
                    }
                }
            }
            assert forall|p: int, q: int| 0 <= p < q < n + 1 implies view[(
            #[trigger] places@[p]) as int].id.0 < view[(#[trigger] places@[q]) as int].id.0 by {
                if q < at {
                    assert(places@[p] == before[p] && places@[q] == before[q]);
                } else if q == at {
                    assert(places@[p] == before[p]);
                } else if p < at {
                    assert(places@[p] == before[p] && places@[q] == before[q - 1]);
                } else if p == at {
                    assert(places@[q] == before[q - 1]);
                } else {
                    assert(places@[p] == before[p - 1] && places@[q] == before[q - 1]);
                }
            }
            assert forall|q: int| 0 <= q < n + 1 implies #[trigger] places@[q] < n + 1 by {
                if q < at {
                    assert(places@[q] == before[q]);
                } else if q > at {
                    assert(places@[q] == before[q - 1]);
                }
            }
        }
        n = n + 1;
    }
    places
}

/// Everything in a list is among the first `k` of an order.
pub open spec fn all_before(list: Seq<usize>, order: Seq<usize>, k: int) -> bool {
    forall|d: int| 0 <= d < list.len() ==> order.take(k).contains(#[trigger] list[d])
}

/// An order that is being built.
struct Sorter {
    /// The places of the nodes that are evaluated, in order.
    order: Vec<usize>,
    /// Whether a node is in the order.
    done: Vec<bool>,
}

impl Sorter {
    /// Every node of the order was the lowest that waited for nothing more.
    spec fn wf(self, nodes: Seq<NodeView>, deps: Seq<Seq<usize>>) -> bool {
        let order: Seq<usize> = self.order@;
        &&& nodes.len() == deps.len()
        &&& self.done.len() == nodes.len()
        &&& order.no_duplicates()
        &&& forall|i: int| 0 <= i < order.len() ==> #[trigger] order[i] < nodes.len()
        &&& forall|v: usize|
            v < nodes.len() ==> (#[trigger] self.done[v as int] <==> order.contains(v))
        &&& forall|i: int|
            0 <= i < order.len() ==> all_before(deps[(#[trigger] order[i]) as int], order, i)
        &&& forall|i: int, v: usize|
            0 <= i < order.len() && v < nodes.len() && !order.take(i).contains(v)
                && #[trigger] all_before(deps[v as int], order, i) ==> nodes[order[i] as int].id.0
                <= nodes[v as int].id.0
    }

    /// Whatever is not in the order waits for something that is not either.
    spec fn complete(self, deps: Seq<Seq<usize>>) -> bool {
        forall|v: int|
            0 <= v < deps.len() && !#[trigger] self.done[v] ==> !all_before(
                deps[v],
                self.order@,
                self.order.len() as int,
            )
    }
}

/// Everything in a list was evaluated.
fn all_done(list: &Vec<usize>, done: &Vec<bool>) -> (r: bool)
    requires
        forall|d: int| 0 <= d < list.len() ==> #[trigger] list[d] < done.len(),
    ensures
        r == forall|d: int| 0 <= d < list.len() ==> done[(#[trigger] list[d]) as int],
{
    let mut d: usize = 0;
    while d < list.len()
        invariant
            d <= list.len(),
            forall|e: int| 0 <= e < list.len() ==> #[trigger] list[e] < done.len(),
            forall|e: int| 0 <= e < d ==> done[(#[trigger] list[e]) as int],
        decreases list.len() - d,
    {
        if !done[list[d]] {
            assert(!done[list[d as int] as int]);
            return false;
        }
        d = d + 1;
    }
    true
}

/// The place of the lowest node that is not in an order while everything
/// that it reads is.
fn lowest(
    s: &Sorter,
    places: &Vec<usize>,
    deps: &Vec<Vec<usize>>,
    Ghost(nodes): Ghost<Seq<NodeView>>,
) -> (r: Option<usize>)
    requires
        s.wf(nodes, lists_view(deps@)),
        resolved(nodes, lists_view(deps@)),
        sorted_places(nodes, places@, nodes.len() as int),
    ensures
        match r {
            Some(v) => {
                &&& v < nodes.len()
                &&& !s.done[v as int]
                &&& all_before(lists_view(deps@)[v as int], s.order@, s.order.len() as int)
                &&& forall|u: usize|
                    u < nodes.len() && !#[trigger] s.done[u as int] && all_before(
                        lists_view(deps@)[u as int],
                        s.order@,
                        s.order.len() as int,
                    ) ==> nodes[v as int].id.0 <= nodes[u as int].id.0
            },
            None => s.complete(lists_view(deps@)),
        },
{
    let ghost lists: Seq<Seq<usize>> = lists_view(deps@);
    let ghost n: int = s.order.len() as int;
    let mut q: usize = 0;
    while q < places.len()
        invariant
            q <= places.len(),
            n == s.order.len(),
            lists == lists_view(deps@),
            s.wf(nodes, lists),
            resolved(nodes, lists),
            sorted_places(nodes, places@, nodes.len() as int),
            forall|p: int|
                0 <= p < q && !s.done[(#[trigger] places[p]) as int] ==> !all_before(
                    lists[places[p] as int],
                    s.order@,
                    n,
                ),
        decreases places.len() - q,
    {
        let v: usize = places[q];
        proof {
            assert(lists[v as int] == deps[v as int]@);
            assert(resolved_at(nodes, v as int, lists[v as int]));
            assert(s.order@.take(n) =~= s.order@);
        }
        if !s.done[v] && all_done(&deps[v], &s.done) {
            proof {
                assert forall|d: int| 0 <= d < lists[v as int].len() implies s.order@.take(
                    n,
                ).contains(#[trigger] lists[v as int][d]) by {
                    assert(s.done[deps[v as int][d] as int]);
                }
                assert forall|u: usize|
                    u < nodes.len() && !#[trigger] s.done[u as int] && all_before(
                        lists[u as int],
                        s.order@,
                        n,
                    ) implies nodes[v as int].id.0 <= nodes[u as int].id.0 by {
                    assert(places@.contains(u));
                    let p: int = choose|p: int| 0 <= p < places.len() && places[p] == u;
                    if p < q {
                        assert(!s.done[places[p] as int]);
                    } else if q < p {
                        assert(nodes[places[q as int] as int].id.0 < nodes[places[p] as int].id.0);
                    }
                }
            }
            return Some(v);
        }
        proof {
            if !s.done[v as int] && all_before(lists[v as int], s.order@, n) {
                assert forall|d: int| 0 <= d < deps[v as int].len() implies s.done[(
                #[trigger] deps[v as int][d]) as int] by {
                    assert(s.order@.take(n).contains(lists[v as int][d]));
                    assert(lists[v as int][d] < nodes.len());
                }
            }
        }
        q = q + 1;
    }
    proof {
        assert forall|v: int| 0 <= v < lists.len() && !#[trigger] s.done[v] implies !all_before(
            lists[v],
            s.order@,
            n,
        ) by {
            assert(places@.contains(v as usize));
            let p: int = choose|p: int| 0 <= p < places.len() && places[p] == v as usize;
            assert(!s.done[places[p] as int]);
        }
    }
    None
}

/// Puts the lowest node that waits for nothing more behind an order.
fn put(
    s: &mut Sorter,
    v: usize,
    Ghost(nodes): Ghost<Seq<NodeView>>,
    Ghost(deps): Ghost<Seq<Seq<usize>>>,
)
    requires
        old(s).wf(nodes, deps),
        v < nodes.len(),
        !old(s).done[v as int],
        all_before(deps[v as int], old(s).order@, old(s).order.len() as int),
        forall|u: usize|
            u < nodes.len() && !#[trigger] old(s).done[u as int] && all_before(
                deps[u as int],
                old(s).order@,
                old(s).order.len() as int,
            ) ==> nodes[v as int].id.0 <= nodes[u as int].id.0,
    ensures
        final(s).wf(nodes, deps),
        final(s).order@ == old(s).order@.push(v),
{
    let ghost before: Sorter = *s;
    let ghost n: int = s.order.len() as int;
    s.order.push(v);
    s.done.set(v, true);
    proof {
        let order: Seq<usize> = s.order@;
        assert(before.done[v as int] <==> before.order@.contains(v));
        assert(order.no_duplicates());
        assert forall|k: int| 0 <= k <= n implies #[trigger] order.take(k) == before.order@.take(
            k,
        ) by {
            assert(order.take(k) =~= before.order@.take(k));
        }
        assert(before.order@.take(n) =~= before.order@);
        assert forall|u: usize| u < nodes.len() implies (#[trigger] s.done[u as int]
            <==> order.contains(u)) by {
            assert(before.done[u as int] <==> before.order@.contains(u));
            if u == v {
                assert(order[n] == v);
            } else {
                if before.order@.contains(u) {
                    let i: int = choose|i: int| 0 <= i < n && before.order@[i] == u;
                    assert(order[i] == u);
                }
                if order.contains(u) {
                    let i: int = choose|i: int| 0 <= i < order.len() && order[i] == u;
                    assert(before.order@[i] == u);
                }
            }
        }
        assert forall|i: int| 0 <= i < order.len() implies all_before(
            deps[(#[trigger] order[i]) as int],
            order,
            i,
        ) by {
            if i < n {
                assert(order[i] == before.order@[i]);
            }
            assert(all_before(deps[order[i] as int], before.order@, i));
            assert(order.take(i) == before.order@.take(i));
        }
        assert forall|i: int, u: usize|
            0 <= i < order.len() && u < nodes.len() && !order.take(i).contains(u)
                && #[trigger] all_before(deps[u as int], order, i) implies nodes[order[i] as int].id.0
            <= nodes[u as int].id.0 by {
            assert(order.take(i) == before.order@.take(i));
            assert(all_before(deps[u as int], before.order@, i));
            if i < n {
                assert(order[i] == before.order@[i]);
            } else {
                assert(!before.done[u as int]);
            }
        }
    }
}

/// Orders the places of the nodes as far as they become ready.
fn run(places: &Vec<usize>, deps: &Vec<Vec<usize>>, Ghost(nodes): Ghost<Seq<NodeView>>) -> (s:
    Sorter)
    requires
        resolved(nodes, lists_view(deps@)),
        sorted_places(nodes, places@, nodes.len() as int),
    ensures
        s.wf(nodes, lists_view(deps@)),
        s.complete(lists_view(deps@)),
{
    let ghost lists: Seq<Seq<usize>> = lists_view(deps@);
    let n: usize = deps.len();
    let mut s: Sorter = Sorter { order: Vec::new(), done: vec![false; n] };
    loop
        invariant
            lists == lists_view(deps@),
            n == deps.len(),
            n == nodes.len(),
            resolved(nodes, lists),
            sorted_places(nodes, places@, nodes.len() as int),
            s.wf(nodes, lists),
        decreases n - s.order.len(),
    {
        match lowest(&s, places, deps, Ghost(nodes)) {
            Some(v) => {
                put(&mut s, v, Ghost(nodes), Ghost(lists));
                proof {
                    lemma_bounded(s.order@, n as int);
                }
            },
            None => {
                return s;
            },
        }
    }
}

/// Places without a repeat are not more than there are places.
proof fn lemma_bounded(order: Seq<usize>, n: int)
    requires
        order.no_duplicates(),
        forall|i: int| 0 <= i < order.len() ==> #[trigger] order[i] < n,
        0 <= n <= usize::MAX,
    ensures
        order.len() <= n,
        order.len() < n ==> exists|v: usize| v < n && !#[trigger] order.contains(v),
{
    let all: Seq<usize> = Seq::new(n as nat, |i: int| i as usize);
    assert(all.no_duplicates());
    all.unique_seq_to_set();
    order.unique_seq_to_set();
    vstd::seq_lib::seq_to_set_is_finite(all);
    vstd::seq_lib::seq_to_set_is_finite(order);
    assert forall|v: usize| order.to_set().contains(v) implies #[trigger] all.to_set().contains(
        v,
    ) by {
        let i: int = choose|i: int| 0 <= i < order.len() && order[i] == v;
        assert(order[i] < n);
        assert(all[v as int] == v);
    }
    vstd::set_lib::lemma_len_subset(order.to_set(), all.to_set());
    if order.len() < n {
        if forall|v: usize| v < n ==> #[trigger] order.contains(v) {
            assert forall|v: usize| all.to_set().contains(v) implies #[trigger] order.to_set()
                .contains(v) by {
                let i: int = choose|i: int| 0 <= i < all.len() && all[i] == v;
                assert(v < n);
                assert(order.contains(v));
            }
            vstd::set_lib::lemma_len_subset(all.to_set(), order.to_set());
        }
    }
}

/// The identifiers of an order of places.
pub open spec fn named(nodes: Seq<NodeView>, order: Seq<usize>) -> Seq<NodeId> {
    order.map_values(|v: usize| nodes[v as int].id)
}

/// Readiness by places is readiness by identifiers.
proof fn lemma_ready_named(
    nodes: Seq<NodeView>,
    deps: Seq<Seq<usize>>,
    order: Seq<usize>,
    v: usize,
    k: int,
)
    requires
        distinct(nodes),
        resolved(nodes, deps),
        forall|i: int| 0 <= i < order.len() ==> #[trigger] order[i] < nodes.len(),
        v < nodes.len(),
        0 <= k <= order.len(),
    ensures
        ready(nodes, named(nodes, order), nodes[v as int].id, k) == all_before(
            deps[v as int],
            order,
            k,
        ),
{
    lemma_node_of(nodes, v as int);
    let ids: Seq<NodeId> = sources(nodes[v as int].inputs);
    let list: Seq<usize> = deps[v as int];
    let names: Seq<NodeId> = named(nodes, order);
    assert(resolved_at(nodes, v as int, list));
    if all_before(list, order, k) {
        assert forall|s: NodeId| #[trigger] ids.contains(s) implies names.take(k).contains(s) by {
            let d: int = choose|d: int| 0 <= d < ids.len() && ids[d] == s;
            assert(order.take(k).contains(list[d]));
            let j: int = choose|j: int| 0 <= j < k && order.take(k)[j] == list[d];
            assert(names.take(k)[j] == s);
        }
    }
    if ready(nodes, names, nodes[v as int].id, k) {
        assert forall|d: int| 0 <= d < list.len() implies order.take(k).contains(
            #[trigger] list[d],
        ) by {
            assert(ids.contains(ids[d]));
            assert(names.take(k).contains(ids[d]));
            let j: int = choose|j: int| 0 <= j < k && names.take(k)[j] == ids[d];
            assert(order[j] < nodes.len());
            assert(nodes[order[j] as int].id == nodes[list[d] as int].id);
            if order[j] < list[d] {
                assert(nodes[order[j] as int].id != nodes[list[d] as int].id);
            } else if list[d] < order[j] {
                assert(nodes[list[d] as int].id != nodes[order[j] as int].id);
            }
            assert(order.take(k)[j] == list[d]);
        }
    }
}

/// A full order of places is an evaluation order.
proof fn lemma_full_order(nodes: Seq<NodeView>, deps: Seq<Seq<usize>>, s: Sorter)
    requires
        distinct(nodes),
        resolved(nodes, deps),
        s.wf(nodes, deps),
        s.order.len() == nodes.len(),
    ensures
        is_order(nodes, named(nodes, s.order@)),
{
    let order: Seq<usize> = s.order@;
    let names: Seq<NodeId> = named(nodes, order);
    assert forall|i: int, j: int| 0 <= i < j < names.len() implies names[i] != names[j] by {
        assert(order[i] < nodes.len() && order[j] < nodes.len());
        assert(order[i] != order[j]);
        if order[i] < order[j] {
            assert(nodes[order[i] as int].id != nodes[order[j] as int].id);
        } else {
            assert(nodes[order[j] as int].id != nodes[order[i] as int].id);
        }
    }
    assert forall|i: int| 0 <= i < names.len() implies present(nodes, #[trigger] names[i]) by {
        assert(order[i] < nodes.len());
        lemma_node_of(nodes, order[i] as int);
    }
    assert forall|i: int| 0 <= i < names.len() implies ready(
        nodes,
        names,
        #[trigger] names[i],
        i,
    ) by {
        assert(order[i] < nodes.len());
        lemma_ready_named(nodes, deps, order, order[i], i);
        assert(all_before(deps[order[i] as int], order, i));
    }
    assert forall|i: int, id: NodeId|
        0 <= i < names.len() && #[trigger] waiting(nodes, names, id, i) implies names[i].0
        <= id.0 by {
        let u: int = choose|u: int| 0 <= u < nodes.len() && (#[trigger] nodes[u]).id == id;
        lemma_ready_named(nodes, deps, order, u as usize, i);
        if order.take(i).contains(u as usize) {
            let j: int = choose|j: int| 0 <= j < i && order.take(i)[j] == u as usize;
            assert(names.take(i)[j] == id);
        }
        assert(order[i] < nodes.len());
        assert(all_before(deps[(u as usize) as int], order, i));
    }
}

/// What never becomes ready is a knot.
proof fn lemma_rest_is_knot(nodes: Seq<NodeView>, deps: Seq<Seq<usize>>, s: Sorter) -> (knot: Set<
    NodeId,
>)
    requires
        distinct(nodes),
        resolved(nodes, deps),
        s.wf(nodes, deps),
        s.complete(deps),
        s.order.len() != nodes.len(),
        nodes.len() <= usize::MAX,
    ensures
        is_knot(nodes, knot),
{
    let order: Seq<usize> = s.order@;
    let n: int = order.len() as int;
    let knot: Set<NodeId> = Set::new(
        |id: NodeId|
            exists|v: usize|
                v < nodes.len() && !s.done[v as int] && (#[trigger] nodes[v as int]).id == id,
    );
    lemma_bounded(order, nodes.len() as int);
    let free: usize = choose|v: usize| v < nodes.len() && !#[trigger] order.contains(v);
    assert(!s.done[free as int]);
    assert(knot.contains(nodes[free as int].id));
    assert forall|id: NodeId| #[trigger] knot.contains(id) implies present(nodes, id)
        && reads_one_of(nodes, knot, id) by {
        let v: usize = choose|v: usize|
            v < nodes.len() && !s.done[v as int] && (#[trigger] nodes[v as int]).id == id;
        lemma_node_of(nodes, v as int);
        let list: Seq<usize> = deps[v as int];
        assert(!s.done[v as int]);
        assert(!all_before(list, order, n));
        let d: int = choose|d: int|
            0 <= d < list.len() && !order.take(n).contains(#[trigger] list[d]);
        assert(resolved_at(nodes, v as int, list));
        let u: usize = list[d];
        assert(order.take(n) =~= order);
        assert(!s.done[u as int]);
        let t: NodeId = nodes[u as int].id;
        assert(knot.contains(t));
        assert(sources(nodes[v as int].inputs)[d] == t);
        assert(sources(node_of(nodes, id).inputs).contains(t));
        reveal(reads_one_of);
    }
    knot
}

/// The first repeated identifier of a list is that of its beginning.
proof fn lemma_first_repeat_prefix(nodes: Seq<NodeView>, k: int)
    requires
        0 <= k <= nodes.len(),
        first_repeat(nodes.take(k)) is Some,
    ensures
        first_repeat(nodes) == first_repeat(nodes.take(k)),
    decreases nodes.len(),
{
    if k == nodes.len() {
        assert(nodes.take(k) =~= nodes);
    } else {
        assert(nodes.drop_last().take(k) =~= nodes.take(k));
        lemma_first_repeat_prefix(nodes.drop_last(), k);
    }
}

/// The first identifier that an earlier node has too.
fn duplicate(nodes: &Vec<GraphNode>) -> (r: Option<NodeId>)
    ensures
        r == first_repeat(patch::nodes_view(nodes@)),
{
    let ghost view: Seq<NodeView> = patch::nodes_view(nodes@);
    let mut i: usize = 0;
    while i < nodes.len()
        invariant
            i <= nodes.len(),
            view == patch::nodes_view(nodes@),
            first_repeat(view.take(i as int)) is None,
        decreases nodes.len() - i,
    {
        proof {
            assert(view.take(i + 1).drop_last() =~= view.take(i as int));
            assert(view.take(i + 1).last() == nodes[i as int]@);
        }
        if find(nodes, i, nodes[i].id).is_some() {
            proof {
                lemma_first_repeat_prefix(view, i + 1);
            }
            return Some(nodes[i].id);
        }
        i = i + 1;
    }
    assert(view.take(i as int) =~= view);
    None
}

/// The identifiers of an order of places.
fn names(nodes: &Vec<GraphNode>, order: &Vec<usize>) -> (r: Vec<NodeId>)
    requires
        forall|j: int| 0 <= j < order.len() ==> #[trigger] order[j] < nodes.len(),
    ensures
        r@ == named(patch::nodes_view(nodes@), order@),
{
    let ghost view: Seq<NodeView> = patch::nodes_view(nodes@);
    let mut r: Vec<NodeId> = Vec::new();
    let mut k: usize = 0;
    while k < order.len()
        invariant
            k <= order.len(),
            view == patch::nodes_view(nodes@),
            r.len() == k,
            forall|j: int| 0 <= j < order.len() ==> #[trigger] order[j] < nodes.len(),
            forall|j: int| 0 <= j < k ==> #[trigger] r[j] == view[order[j] as int].id,
        decreases order.len() - k,
    {
        assert(view[order[k as int] as int] == nodes[order[k as int] as int]@);
        r.push(nodes[order[k]].id);
        k = k + 1;
    }
    assert(r@ =~= named(view, order@));
    r
}

/// Where nothing is wrong with a graph, the order that it has is the one that
/// sorting yields.
proof fn lemma_sorted(graph: GraphView, order: Seq<NodeId>)
    requires
        first_repeat(graph.nodes) is None,
        present(graph.nodes, graph.output),
        first_missing(all_sources(graph.nodes), graph.nodes) is None,
        is_order(graph.nodes, order),
    ensures
        sorted(graph) == Ok::<Seq<NodeId>, GraphError>(order),
{
    let other: Seq<NodeId> = choose|o: Seq<NodeId>| is_order(graph.nodes, o);
    law_order_is_unique(graph.nodes, order, other);
}

/// Where all that is wrong with a graph is a knot, sorting says so.
proof fn lemma_unsorted(graph: GraphView, knot: Set<NodeId>)
    requires
        first_repeat(graph.nodes) is None,
        present(graph.nodes, graph.output),
        first_missing(all_sources(graph.nodes), graph.nodes) is None,
        is_knot(graph.nodes, knot),
    ensures
        sorted(graph) == Err::<Seq<NodeId>, GraphError>(GraphError::Cycle),
{
    assert forall|o: Seq<NodeId>| !is_order(graph.nodes, o) by {
        law_knot_has_no_order(graph.nodes, knot, o);
    }
}

/// The evaluation order of a graph whose sources are found, where there is
/// one.
fn arrange(graph: &NodeGraph, deps: &Vec<Vec<usize>>) -> (r: Result<Vec<NodeId>, GraphError>)
    requires
        first_repeat(graph@.nodes) is None,
        present(graph@.nodes, graph@.output),
        first_missing(all_sources(graph@.nodes), graph@.nodes) is None,
        resolved(graph@.nodes, lists_view(deps@)),
    ensures
        match r {
            Ok(order) => sorted(graph@) == Ok::<Seq<NodeId>, GraphError>(order@) && is_order(
                graph@.nodes,
                order@,
            ),
            Err(e) => sorted(graph@) == Err::<Seq<NodeId>, GraphError>(e),
        },
        r is Err ==> exists|knot: Set<NodeId>| is_knot(graph@.nodes, knot),
{
    let nodes: &Vec<GraphNode> = &graph.nodes;
    let ghost view: Seq<NodeView> = patch::nodes_view(nodes@);
    proof {
        lemma_distinct(view);
    }
    let places: Vec<usize> = by_identifier(nodes);
    let s: Sorter = run(&places, deps, Ghost(view));
    if s.order.len() != nodes.len() {
        proof {
            let knot: Set<NodeId> = lemma_rest_is_knot(view, lists_view(deps@), s);
            lemma_unsorted(graph@, knot);
        }
        return Err(GraphError::Cycle);
    }
    proof {
        lemma_full_order(view, lists_view(deps@), s);
        lemma_sorted(graph@, named(view, s.order@));
    }
    Ok(names(nodes, &s.order))
}

/// Sorts a graph so that every node stands behind what it reads.
///
/// Of the nodes whose sources are all emitted the one with the lowest
/// identifier comes next, so the order does not depend on how the nodes are
/// listed.
pub fn topo_sort(graph: &NodeGraph) -> (r: Result<Vec<NodeId>, GraphError>)
    ensures
        match r {
            Ok(order) => sorted(graph@) == Ok::<Seq<NodeId>, GraphError>(order@) && is_order(
                graph@.nodes,
                order@,
            ),
            Err(e) => sorted(graph@) == Err::<Seq<NodeId>, GraphError>(e),
        },
        r == Err::<Vec<NodeId>, GraphError>(GraphError::Cycle) ==> exists|knot: Set<NodeId>|
            is_knot(graph@.nodes, knot),
{
    let nodes: &Vec<GraphNode> = &graph.nodes;
    let ghost view: Seq<NodeView> = patch::nodes_view(nodes@);
    match duplicate(nodes) {
        Some(id) => {
            return Err(GraphError::DuplicateId(id));
        },
        None => {},
    }
    proof {
        assert(view.take(nodes.len() as int) =~= view);
    }
    if find(nodes, nodes.len(), graph.output).is_none() {
        return Err(GraphError::MissingOutput(graph.output));
    }
    let deps: Vec<Vec<usize>> = match resolve(nodes) {
        Ok(deps) => deps,
        Err(id) => {
            return Err(GraphError::UnknownNode(id));
        },
    };
    arrange(graph, &deps)
}

} // verus!
