//! What building a graph and sorting it do: a wired connection is added and
//! nothing is lost, and a graph that cannot be sorted is answered with the
//! first thing that is wrong with it.
use crate::order;
use crate::patch;
use crate::patch::{Connection, GraphError, GraphView, NodeId, NodeView, PortView};
use vstd::prelude::*;

verus! {

/// Bytes are ordered by the first place at which they differ; what ends
/// before it differs comes first.
pub proof fn law_the_first_difference_decides(a: Seq<u8>, b: Seq<u8>, k: int)
    requires
        0 <= k <= a.len(),
        k <= b.len(),
        forall|i: int| 0 <= i < k ==> a[i] == b[i],
        k < a.len() && k < b.len() ==> a[k] != b[k],
    ensures
        patch::bytes_before(a, b) <==> k < b.len() && (k == a.len() || a[k] < b[k]),
    decreases k,
{
    if k > 0 {
        let x: Seq<u8> = a.drop_first();
        let y: Seq<u8> = b.drop_first();
        assert(a[0] == b[0]);
        assert forall|i: int| 0 <= i < k - 1 implies x[i] == y[i] by {
            assert(a[i + 1] == b[i + 1]);
        }
        law_the_first_difference_decides(x, y, k - 1);
    }
}

/// The connections of the port of a name, none where there is no such port.
pub open spec fn connections_of(ports: Seq<PortView>, name: Seq<char>) -> Seq<Connection>
    decreases ports.len(),
{
    if ports.len() == 0 {
        Seq::empty()
    } else if ports.last().name == name {
        ports.last().connections
    } else {
        connections_of(ports.drop_last(), name)
    }
}

/// The connections of the port at a place.
proof fn lemma_connections_of(ports: Seq<PortView>, at: int)
    requires
        0 <= at < ports.len(),
        forall|i: int| at < i < ports.len() ==> (#[trigger] ports[i]).name != ports[at].name,
    ensures
        connections_of(ports, ports[at].name) == ports[at].connections,
    decreases ports.len(),
{
    if at < ports.len() - 1 {
        let front: Seq<PortView> = ports.drop_last();
        assert(ports[ports.len() - 1].name != ports[at].name);
        assert forall|i: int| at < i < front.len() implies (#[trigger] front[i]).name
            != front[at].name by {
            assert(front[i] == ports[i]);
        }
        lemma_connections_of(front, at);
    }
}

/// A port that is not there has no connections.
proof fn lemma_no_connections(ports: Seq<PortView>, name: Seq<char>)
    requires
        forall|i: int| 0 <= i < ports.len() ==> (#[trigger] ports[i]).name != name,
    ensures
        connections_of(ports, name) == Seq::<Connection>::empty(),
    decreases ports.len(),
{
    if ports.len() > 0 {
        let front: Seq<PortView> = ports.drop_last();
        assert(ports[ports.len() - 1].name != name);
        assert forall|i: int| 0 <= i < front.len() implies (#[trigger] front[i]).name != name by {
            assert(front[i] == ports[i]);
        }
        lemma_no_connections(front, name);
    }
}

/// In ordered ports every name is at one place.
proof fn lemma_one_place(ports: Seq<PortView>, i: int, j: int)
    requires
        patch::ordered(ports),
        0 <= i < ports.len(),
        0 <= j < ports.len(),
        i != j,
    ensures
        ports[i].name != ports[j].name,
{
    patch::lemma_text_order(ports[i].name, ports[i].name, ports[i].name);
    if i < j {
        assert(patch::text_before(ports[i].name, ports[j].name));
    } else {
        assert(patch::text_before(ports[j].name, ports[i].name));
    }
}

/// Wiring a connection to a port adds it behind those that the port has, and
/// leaves the connections of every other port as they are.
pub proof fn law_wiring_adds_one_connection(
    ports: Seq<PortView>,
    name: Seq<char>,
    conn: Connection,
    other: Seq<char>,
)
    requires
        patch::ordered(ports),
    ensures
        ({
            let after: Seq<PortView> = patch::wired_to(ports, name, conn);
            &&& connections_of(after, name) == connections_of(ports, name).push(conn)
            &&& other != name ==> connections_of(after, other) == connections_of(ports, other)
        }),
{
    let after: Seq<PortView> = patch::wired_to(ports, name, conn);
    let at: int = patch::place(ports, name);
    patch::lemma_place(ports, name);
    patch::law_wiring_keeps_ports_ordered(ports, name, conn);
    assert forall|i: int| at < i < after.len() implies (#[trigger] after[i]).name
        != after[at].name by {
        lemma_one_place(after, i, at);
    }
    lemma_connections_of(after, at);
    if at < ports.len() && ports[at].name == name {
        assert forall|i: int| at < i < ports.len() implies (#[trigger] ports[i]).name
            != ports[at].name by {
            lemma_one_place(ports, i, at);
        }
        lemma_connections_of(ports, at);
    } else {
        assert forall|i: int| 0 <= i < ports.len() implies (#[trigger] ports[i]).name != name by {
            if i < at {
                assert(after[i] == ports[i]);
                lemma_one_place(after, i, at);
            } else {
                assert(after[i + 1] == ports[i]);
                lemma_one_place(after, i + 1, at);
            }
        }
        lemma_no_connections(ports, name);
        assert(seq![conn] =~= Seq::<Connection>::empty().push(conn));
    }
    if other != name {
        lemma_other_ports(ports, name, conn, other);
    }
}

/// The other ports stay.
proof fn lemma_other_ports(
    ports: Seq<PortView>,
    name: Seq<char>,
    conn: Connection,
    other: Seq<char>,
)
    requires
        patch::ordered(ports),
        other != name,
    ensures
        connections_of(patch::wired_to(ports, name, conn), other) == connections_of(ports, other),
{
    let after: Seq<PortView> = patch::wired_to(ports, name, conn);
    let at: int = patch::place(ports, name);
    patch::lemma_place(ports, name);
    patch::law_wiring_keeps_ports_ordered(ports, name, conn);
    let kept: bool = at < ports.len() && ports[at].name == name;
    if exists|i: int| 0 <= i < ports.len() && (#[trigger] ports[i]).name == other {
        let i: int = choose|i: int| 0 <= i < ports.len() && (#[trigger] ports[i]).name == other;
        let j: int = if kept || i < at {
            i
        } else {
            i + 1
        };
        assert(after[j] == ports[i]);
        assert forall|k: int| i < k < ports.len() implies (#[trigger] ports[k]).name
            != ports[i].name by {
            lemma_one_place(ports, k, i);
        }
        assert forall|k: int| j < k < after.len() implies (#[trigger] after[k]).name
            != after[j].name by {
            lemma_one_place(after, k, j);
        }
        lemma_connections_of(ports, i);
        lemma_connections_of(after, j);
    } else {
        assert forall|k: int| 0 <= k < after.len() implies (#[trigger] after[k]).name
            != other by {
            if kept {
                if k != at {
                    assert(after[k] == ports[k]);
                }
            } else if k < at {
                assert(after[k] == ports[k]);
            } else if k > at {
                assert(after[k] == ports[k - 1]);
            }
        }
        lemma_no_connections(ports, other);
        lemma_no_connections(after, other);
    }
}

/// The first node whose identifier an earlier one has too.
pub open spec fn repeats_first(nodes: Seq<NodeView>, id: NodeId) -> bool {
    exists|j: int|
        0 <= j < nodes.len() && (#[trigger] nodes[j]).id == id && order::present(
            nodes.take(j),
            id,
        ) && order::distinct(nodes.take(j))
}

/// A node reads another one.
pub open spec fn is_read(nodes: Seq<NodeView>, id: NodeId) -> bool {
    exists|n: int, p: int, c: int|
        #![trigger nodes[n].inputs[p].connections[c]]
        0 <= n < nodes.len() && 0 <= p < nodes[n].inputs.len() && 0 <= c
            < nodes[n].inputs[p].connections.len() && (
        nodes[n].inputs[p].connections[c] matches Connection::Node { id: s, .. } && s == id)
}

/// Sorting answers with the first of these that holds: an identifier is
/// repeated, the first one that is; the output is not there; a node that is
/// read is not there, the first one that is read; the nodes have no order.  Else it answers with their
/// order.
pub proof fn law_sorting_answers_what_is_wrong(graph: GraphView)
    ensures
        match order::sorted(graph) {
            Err(GraphError::DuplicateId(id)) => !order::distinct(graph.nodes) && repeats_first(
                graph.nodes,
                id,
            ),
            Err(GraphError::MissingOutput(id)) => order::distinct(graph.nodes) && id
                == graph.output && !order::present(graph.nodes, id),
            Err(GraphError::UnknownNode(id)) => order::distinct(graph.nodes) && order::present(
                graph.nodes,
                graph.output,
            ) && is_read(graph.nodes, id) && !order::present(graph.nodes, id) && misses_first(
                graph.nodes,
                id,
            ),
            Err(GraphError::Cycle) => order::distinct(graph.nodes) && order::present(
                graph.nodes,
                graph.output,
            ) && (forall|o: Seq<NodeId>| !#[trigger] order::is_order(graph.nodes, o)),
            Ok(o) => order::distinct(graph.nodes) && order::present(graph.nodes, graph.output)
                && order::is_order(graph.nodes, o),
        },
        (order::sorted(graph) is Ok || order::sorted(graph) == Err::<Seq<NodeId>, GraphError>(
            GraphError::Cycle,
        )) ==> forall|id: NodeId| #[trigger]
            is_read(graph.nodes, id) ==> order::present(graph.nodes, id),
{
    let nodes: Seq<NodeView> = graph.nodes;
    order::lemma_distinct(nodes);
    lemma_first_repeat(nodes);
    let all: Seq<NodeId> = order::all_sources(nodes);
    lemma_first_missing(all, nodes);
    if let Some(id) = order::first_missing(all, nodes) {
        lemma_misses_first(nodes, id);
    }
    assert forall|id: NodeId| #[trigger] is_read(nodes, id) == all.contains(id) by {
        lemma_read(nodes, id);
    }
}

/// A node is read that is not there, and whatever is read before it is: by
/// the nodes listed earlier, by the earlier ports of the node that reads it,
/// and by the earlier connections of the port.
pub open spec fn misses_first(nodes: Seq<NodeView>, id: NodeId) -> bool {
    exists|n: int, p: int, c: int|
        #![trigger nodes[n].inputs[p].connections[c]]
        {
            &&& 0 <= n < nodes.len() && 0 <= p < nodes[n].inputs.len() && 0 <= c
                < nodes[n].inputs[p].connections.len()
            &&& (nodes[n].inputs[p].connections[c] matches Connection::Node { id: r, .. } && r
                == id)
            &&& forall|s: NodeId| #[trigger]
                is_read(nodes.take(n), s) ==> order::present(nodes, s)
            &&& forall|s: NodeId| #[trigger]
                ports_read(nodes[n].inputs.take(p), s) ==> order::present(nodes, s)
            &&& forall|k: int|
                0 <= k < c ==> (#[trigger] nodes[n].inputs[p].connections[k] matches Connection::Node {
                    id: s,
                    ..
                } ==> order::present(nodes, s))
        }
}

/// What is missing first from two lists in a row.
proof fn lemma_missing_in_two(a: Seq<NodeId>, b: Seq<NodeId>, nodes: Seq<NodeView>)
    ensures
        order::first_missing(a + b, nodes) == match order::first_missing(a, nodes) {
            Some(id) => Some(id),
            None => order::first_missing(b, nodes),
        },
    decreases b.len(),
{
    if b.len() == 0 {
        assert(a + b =~= a);
    } else {
        lemma_missing_in_two(a, b.drop_last(), nodes);
        assert((a + b).drop_last() =~= a + b.drop_last());
        assert((a + b).last() == b.last());
    }
}

/// The node that reads what is missing first.
proof fn lemma_missing_node(some: Seq<NodeView>, nodes: Seq<NodeView>, id: NodeId) -> (n: int)
    requires
        order::first_missing(order::all_sources(some), nodes) == Some(id),
    ensures
        0 <= n < some.len(),
        order::first_missing(order::sources(some[n].inputs), nodes) == Some(id),
        order::first_missing(order::all_sources(some.take(n)), nodes) is None,
    decreases some.len(),
{
    let front: Seq<NodeView> = some.drop_last();
    let last: int = some.len() - 1;
    lemma_missing_in_two(
        order::all_sources(front),
        order::sources(some.last().inputs),
        nodes,
    );
    if order::first_missing(order::all_sources(front), nodes) is Some {
        let n: int = lemma_missing_node(front, nodes, id);
        assert(front.take(n) =~= some.take(n));
        n
    } else {
        assert(some.take(last) =~= front);
        last
    }
}

/// The port that reads what is missing first.
proof fn lemma_missing_port(ports: Seq<PortView>, nodes: Seq<NodeView>, id: NodeId) -> (p: int)
    requires
        order::first_missing(order::sources(ports), nodes) == Some(id),
    ensures
        0 <= p < ports.len(),
        order::first_missing(order::read_by(ports[p].connections), nodes) == Some(id),
        order::first_missing(order::sources(ports.take(p)), nodes) is None,
    decreases ports.len(),
{
    let front: Seq<PortView> = ports.drop_last();
    let last: int = ports.len() - 1;
    lemma_missing_in_two(
        order::sources(front),
        order::read_by(ports.last().connections),
        nodes,
    );
    if order::first_missing(order::sources(front), nodes) is Some {
        let p: int = lemma_missing_port(front, nodes, id);
        assert(front.take(p) =~= ports.take(p));
        p
    } else {
        assert(ports.take(last) =~= front);
        last
    }
}

/// The connection that reads what is missing first.
proof fn lemma_missing_connection(
    connections: Seq<Connection>,
    nodes: Seq<NodeView>,
    id: NodeId,
) -> (c: int)
    requires
        order::first_missing(order::read_by(connections), nodes) == Some(id),
    ensures
        0 <= c < connections.len(),
        connections[c] matches Connection::Node { id: s, .. } && s == id,
        order::first_missing(order::read_by(connections.take(c)), nodes) is None,
    decreases connections.len(),
{
    let front: Seq<Connection> = connections.drop_last();
    let before: Seq<NodeId> = order::read_by(front);
    let last: int = connections.len() - 1;
    if let Connection::Node { id: s, .. } = connections.last() {
        assert(before.push(s).drop_last() =~= before);
    }
    if order::first_missing(before, nodes) is Some {
        let c: int = lemma_missing_connection(front, nodes, id);
        assert(front.take(c) =~= connections.take(c));
        c
    } else {
        assert(connections.take(last) =~= front);
        last
    }
}

/// What is answered to be missing is missing first.
proof fn lemma_misses_first(nodes: Seq<NodeView>, id: NodeId)
    requires
        order::first_missing(order::all_sources(nodes), nodes) == Some(id),
    ensures
        misses_first(nodes, id),
{
    let n: int = lemma_missing_node(nodes, nodes, id);
    let ports: Seq<PortView> = nodes[n].inputs;
    let p: int = lemma_missing_port(ports, nodes, id);
    let connections: Seq<Connection> = ports[p].connections;
    let c: int = lemma_missing_connection(connections, nodes, id);
    lemma_first_missing(order::all_sources(nodes.take(n)), nodes);
    lemma_first_missing(order::sources(ports.take(p)), nodes);
    lemma_first_missing(order::read_by(connections.take(c)), nodes);
    assert forall|s: NodeId| #[trigger] is_read(nodes.take(n), s) implies order::present(
        nodes,
        s,
    ) by {
        lemma_read(nodes.take(n), s);
    }
    assert forall|s: NodeId| #[trigger] ports_read(nodes[n].inputs.take(p), s) implies order::present(
        nodes,
        s,
    ) by {
        lemma_ports_read(ports.take(p), s);
    }
    assert forall|k: int| 0 <= k < c implies (
    #[trigger] nodes[n].inputs[p].connections[k] matches Connection::Node { id: s, .. }
        ==> order::present(nodes, s)) by {
        if let Connection::Node { id: s, .. } = connections[k] {
            lemma_read_by(connections.take(c), s);
            assert(connections.take(c)[k] == connections[k]);
        }
    }
    assert(nodes[n].inputs[p].connections[c] == connections[c]);
}

/// The identifier that is repeated first.
proof fn lemma_first_repeat(nodes: Seq<NodeView>)
    ensures
        order::first_repeat(nodes) matches Some(id) ==> repeats_first(nodes, id),
    decreases nodes.len(),
{
    if nodes.len() > 0 {
        let front: Seq<NodeView> = nodes.drop_last();
        lemma_first_repeat(front);
        order::lemma_distinct(front);
        match order::first_repeat(front) {
            Some(id) => {
                let j: int = choose|j: int|
                    0 <= j < front.len() && (#[trigger] front[j]).id == id && order::present(
                        front.take(j),
                        id,
                    ) && order::distinct(front.take(j));
                assert(front.take(j) =~= nodes.take(j));
                assert(nodes[j].id == id);
            },
            None => {
                let last: int = nodes.len() - 1;
                assert(nodes.take(last) =~= front);
                assert(nodes[last] == nodes.last());
            },
        }
    }
}

/// An identifier that no node has is missing.
proof fn lemma_first_missing(ids: Seq<NodeId>, nodes: Seq<NodeView>)
    ensures
        match order::first_missing(ids, nodes) {
            Some(id) => ids.contains(id) && !order::present(nodes, id),
            None => forall|id: NodeId| #[trigger] ids.contains(id) ==> order::present(nodes, id),
        },
    decreases ids.len(),
{
    if ids.len() > 0 {
        let front: Seq<NodeId> = ids.drop_last();
        lemma_first_missing(front, nodes);
        match order::first_missing(front, nodes) {
            Some(id) => {
                let i: int = choose|i: int| 0 <= i < front.len() && front[i] == id;
                assert(ids[i] == id);
            },
            None => {
                assert(ids[ids.len() - 1] == ids.last());
                if order::present(nodes, ids.last()) {
                    assert forall|id: NodeId| #[trigger] ids.contains(id) implies order::present(
                        nodes,
                        id,
                    ) by {
                        let i: int = choose|i: int| 0 <= i < ids.len() && ids[i] == id;
                        if i < front.len() {
                            assert(front[i] == id);
                            assert(front.contains(id));
                        }
                    }
                }
            },
        }
    }
}

/// The sources of some connections.
proof fn lemma_read_by(connections: Seq<Connection>, id: NodeId)
    ensures
        order::read_by(connections).contains(id) <==> exists|c: int|
            0 <= c < connections.len() && (#[trigger] connections[c] matches Connection::Node {
                id: s,
                ..
            } && s == id),
    decreases connections.len(),
{
    if connections.len() > 0 {
        let front: Seq<Connection> = connections.drop_last();
        let before: Seq<NodeId> = order::read_by(front);
        let all: Seq<NodeId> = order::read_by(connections);
        let last: int = connections.len() - 1;
        lemma_read_by(front, id);
        assert(connections[last] == connections.last());
        if all.contains(id) {
            let i: int = choose|i: int| 0 <= i < all.len() && all[i] == id;
            if i < before.len() {
                assert(before[i] == id);
                let c: int = choose|c: int|
                    0 <= c < front.len() && (#[trigger] front[c] matches Connection::Node {
                        id: s,
                        ..
                    } && s == id);
                assert(connections[c] == front[c]);
            }
        }
        if exists|c: int|
            0 <= c < connections.len() && (#[trigger] connections[c] matches Connection::Node {
                id: s,
                ..
            } && s == id) {
            let c: int = choose|c: int|
                0 <= c < connections.len() && (#[trigger] connections[c] matches Connection::Node {
                    id: s,
                    ..
                } && s == id);
            if c < last {
                assert(front[c] == connections[c]);
                let i: int = choose|i: int| 0 <= i < before.len() && before[i] == id;
                assert(all[i] == id);
            } else {
                assert(all[before.len() as int] == id);
            }
        }
    }
}

/// A port reads a node.
pub open spec fn ports_read(ports: Seq<PortView>, id: NodeId) -> bool {
    exists|p: int, c: int|
        #![trigger ports[p].connections[c]]
        0 <= p < ports.len() && 0 <= c < ports[p].connections.len() && (
        ports[p].connections[c] matches Connection::Node { id: s, .. } && s == id)
}

/// The sources of some ports.
proof fn lemma_ports_read(ports: Seq<PortView>, id: NodeId)
    ensures
        order::sources(ports).contains(id) <==> ports_read(ports, id),
    decreases ports.len(),
{
    if ports.len() > 0 {
        let front: Seq<PortView> = ports.drop_last();
        let before: Seq<NodeId> = order::sources(front);
        let tail: Seq<NodeId> = order::read_by(ports.last().connections);
        let all: Seq<NodeId> = order::sources(ports);
        let last: int = ports.len() - 1;
        lemma_ports_read(front, id);
        lemma_read_by(ports.last().connections, id);
        assert(ports[last] == ports.last());
        if all.contains(id) {
            let i: int = choose|i: int| 0 <= i < all.len() && all[i] == id;
            if i < before.len() {
                assert(before[i] == id);
                let (p, c): (int, int) = choose|p: int, c: int|
                    #![trigger front[p].connections[c]]
                    0 <= p < front.len() && 0 <= c < front[p].connections.len() && (
                    front[p].connections[c] matches Connection::Node { id: s, .. } && s == id);
                assert(ports[p].connections[c] == front[p].connections[c]);
            } else {
                assert(tail[i - before.len()] == id);
                assert(tail.contains(id));
                let c: int = choose|c: int|
                    0 <= c < ports.last().connections.len() && (
                    #[trigger] ports.last().connections[c] matches Connection::Node { id: s, .. }
                        && s == id);
                assert(ports[last].connections[c] == ports.last().connections[c]);
            }
        }
        if ports_read(ports, id) {
            let (p, c): (int, int) = choose|p: int, c: int|
                #![trigger ports[p].connections[c]]
                0 <= p < ports.len() && 0 <= c < ports[p].connections.len() && (
                ports[p].connections[c] matches Connection::Node { id: s, .. } && s == id);
            if p < last {
                assert(front[p].connections[c] == ports[p].connections[c]);
                assert(ports_read(front, id));
                let i: int = choose|i: int| 0 <= i < before.len() && before[i] == id;
                assert(all[i] == id);
            } else {
                assert(ports.last().connections[c] == ports[p].connections[c]);
                let i: int = choose|i: int| 0 <= i < tail.len() && tail[i] == id;
                assert(all[before.len() + i] == id);
            }
        }
    }
}

/// The sources of some nodes.
proof fn lemma_read(nodes: Seq<NodeView>, id: NodeId)
    ensures
        order::all_sources(nodes).contains(id) <==> is_read(nodes, id),
    decreases nodes.len(),
{
    if nodes.len() > 0 {
        let front: Seq<NodeView> = nodes.drop_last();
        let before: Seq<NodeId> = order::all_sources(front);
        let tail: Seq<NodeId> = order::sources(nodes.last().inputs);
        let all: Seq<NodeId> = order::all_sources(nodes);
        let last: int = nodes.len() - 1;
        lemma_read(front, id);
        lemma_ports_read(nodes.last().inputs, id);
        assert(nodes[last] == nodes.last());
        if all.contains(id) {
            let i: int = choose|i: int| 0 <= i < all.len() && all[i] == id;
            if i < before.len() {
                assert(before[i] == id);
                let (n, p, c): (int, int, int) = choose|n: int, p: int, c: int|
                    #![trigger front[n].inputs[p].connections[c]]
                    0 <= n < front.len() && 0 <= p < front[n].inputs.len() && 0 <= c
                        < front[n].inputs[p].connections.len() && (
                    front[n].inputs[p].connections[c] matches Connection::Node { id: s, .. } && s
                        == id);
                assert(nodes[n].inputs[p].connections[c] == front[n].inputs[p].connections[c]);
            } else {
                assert(tail[i - before.len()] == id);
                assert(tail.contains(id));
                let ports: Seq<PortView> = nodes.last().inputs;
                let (p, c): (int, int) = choose|p: int, c: int|
                    #![trigger ports[p].connections[c]]
                    0 <= p < ports.len() && 0 <= c < ports[p].connections.len() && (
                    ports[p].connections[c] matches Connection::Node { id: s, .. } && s == id);
                assert(nodes[last].inputs[p].connections[c] == ports[p].connections[c]);
            }
        }
        if is_read(nodes, id) {
            let (n, p, c): (int, int, int) = choose|n: int, p: int, c: int|
                #![trigger nodes[n].inputs[p].connections[c]]
                0 <= n < nodes.len() && 0 <= p < nodes[n].inputs.len() && 0 <= c
                    < nodes[n].inputs[p].connections.len() && (
                nodes[n].inputs[p].connections[c] matches Connection::Node { id: s, .. } && s
                    == id);
            if n < last {
                assert(front[n].inputs[p].connections[c] == nodes[n].inputs[p].connections[c]);
                assert(is_read(front, id));
                let i: int = choose|i: int| 0 <= i < before.len() && before[i] == id;
                assert(all[i] == id);
            } else {
                let ports: Seq<PortView> = nodes.last().inputs;
                assert(ports[p].connections[c] == nodes[n].inputs[p].connections[c]);
                assert(ports_read(ports, id));
                let i: int = choose|i: int| 0 <= i < tail.len() && tail[i] == id;
                assert(all[before.len() + i] == id);
            }
        }
    }
}

/// The order of a sorted graph names every node once, each behind all that
/// its connections read, and at every place the lowest of the nodes that wait
/// for nothing more.
pub proof fn law_orders_put_sources_first(graph: GraphView, o: Seq<NodeId>, k: int)
    requires
        order::sorted(graph) == Ok::<Seq<NodeId>, GraphError>(o),
        0 <= k < o.len(),
    ensures
        o.len() == graph.nodes.len(),
        o.no_duplicates(),
        order::present(graph.nodes, o[k]),
        forall|s: NodeId| #[trigger]
            ports_read(order::node_of(graph.nodes, o[k]).inputs, s) ==> o.take(k).contains(s),
        forall|id: NodeId|
            order::present(graph.nodes, id) && !#[trigger] o.take(k).contains(id) && (forall|
                s: NodeId,
            | #[trigger]
                ports_read(order::node_of(graph.nodes, id).inputs, s) ==> o.take(k).contains(s))
                ==> o[k].0 <= id.0,
{
    law_sorting_answers_what_is_wrong(graph);
    assert(order::ready(graph.nodes, o, o[k], k));
    assert forall|s: NodeId| #[trigger]
        ports_read(order::node_of(graph.nodes, o[k]).inputs, s) implies o.take(k).contains(s) by {
        lemma_ports_read(order::node_of(graph.nodes, o[k]).inputs, s);
    }
    assert forall|id: NodeId|
        order::present(graph.nodes, id) && !#[trigger] o.take(k).contains(id) && (forall|
            s: NodeId,
        | #[trigger]
            ports_read(order::node_of(graph.nodes, id).inputs, s) ==> o.take(k).contains(
                s,
            )) implies o[k].0 <= id.0 by {
        let ports: Seq<PortView> = order::node_of(graph.nodes, id).inputs;
        assert forall|s: NodeId| #[trigger] order::sources(ports).contains(s) implies o.take(
            k,
        ).contains(s) by {
            lemma_ports_read(ports, s);
        }
        assert(order::waiting(graph.nodes, o, id, k));
    }
}

} // verus!
