//! The description of a graph of nodes.
//!
//! A patch is a seed and a graph.  Each node of the graph has an identifier,
//! a configuration and named input ports; each port has a list of
//! connections whose values are summed.  A connection is a constant or
//! another node's output times an amount.  Sample rate and duration are not
//! part of a patch.
use crate::constants::ONE;
use crate::float::F32;
use crate::node;
use crate::node::NodeKind;
pub use crate::order::topo_sort;
use vstd::prelude::*;

verus! {

/// Identifier of a node within a graph.
#[derive(Clone, Copy, Debug, PartialEq, Eq, PartialOrd, Ord, Hash, Structural)]
pub struct NodeId(pub u32);

impl Default for NodeId {
    fn default() -> (r: NodeId)
        ensures
            r == NodeId(0),
    {
        NodeId(0)
    }
}

/// Source of one contribution to an input port.
#[derive(Clone, Copy, Debug, PartialEq, Eq, Structural)]
pub enum Connection {
    /// A fixed value.
    Constant {
        /// The value.
        value: F32,
    },
    /// Another node's output.
    Node {
        /// The other node.
        id: NodeId,
        /// By how much its output is multiplied.
        amount: F32,
    },
}

impl View for Connection {
    type V = Connection;

    open spec fn view(&self) -> Connection {
        *self
    }
}

impl Default for Connection {
    fn default() -> (r: Connection)
        ensures
            r == (Connection::Constant { value: F32::of(0) }),
    {
        Connection::Constant { value: F32::of(0) }
    }
}

impl Connection {
    /// Another node's output as it is.
    pub fn from_node(id: NodeId) -> (r: Connection)
        ensures
            r == (Connection::Node { id, amount: F32::of(ONE) }),
    {
        Connection::Node { id, amount: F32::of(ONE) }
    }

    /// Another node's output times an amount.
    pub fn modulation(id: NodeId, amount: F32) -> (r: Connection)
        ensures
            r == (Connection::Node { id, amount }),
    {
        Connection::Node { id, amount }
    }

    /// A fixed value.
    pub fn constant(value: F32) -> (r: Connection)
        ensures
            r == (Connection::Constant { value }),
    {
        Connection::Constant { value }
    }
}

/// A named input port and what is wired to it.
#[derive(Debug, PartialEq)]
pub struct Port {
    /// The name.
    pub name: String,
    /// The connections, whose values are summed in their order.
    pub connections: Vec<Connection>,
}

/// The contents of a [`Port`].
#[verifier::ext_equal]
pub struct PortView {
    /// The name.
    pub name: Seq<char>,
    /// The connections.
    pub connections: Seq<Connection>,
}

impl View for Port {
    type V = PortView;

    open spec fn view(&self) -> PortView {
        PortView { name: self.name@, connections: self.connections@ }
    }
}

/// A node placed in a graph.
#[derive(Debug, PartialEq)]
pub struct GraphNode {
    /// The identifier, unlike that of any other node of the graph.
    pub id: NodeId,
    /// The configuration.
    pub kind: NodeKind,
    /// The wired ports, in the order of their names.
    pub inputs: Vec<Port>,
}

/// The contents of a [`GraphNode`].
#[verifier::ext_equal]
pub struct NodeView {
    /// The identifier.
    pub id: NodeId,
    /// The configuration.
    pub kind: NodeKind,
    /// The wired ports.
    pub inputs: Seq<PortView>,
}

/// The contents of a list of ports.
pub open spec fn ports_view(ports: Seq<Port>) -> Seq<PortView> {
    ports.map_values(|p: Port| p@)
}

impl View for GraphNode {
    type V = NodeView;

    open spec fn view(&self) -> NodeView {
        NodeView { id: self.id, kind: self.kind, inputs: ports_view(self.inputs@) }
    }
}

/// A graph of nodes and the one whose output is heard.
#[derive(Debug, PartialEq)]
pub struct NodeGraph {
    /// The nodes; their order has no meaning.
    pub nodes: Vec<GraphNode>,
    /// The node whose output is heard.
    pub output: NodeId,
}

/// The contents of a [`NodeGraph`].
#[verifier::ext_equal]
pub struct GraphView {
    /// The nodes.
    pub nodes: Seq<NodeView>,
    /// The node whose output is heard.
    pub output: NodeId,
}

/// The contents of a list of nodes.
pub open spec fn nodes_view(nodes: Seq<GraphNode>) -> Seq<NodeView> {
    nodes.map_values(|n: GraphNode| n@)
}

impl View for NodeGraph {
    type V = GraphView;

    open spec fn view(&self) -> GraphView {
        GraphView { nodes: nodes_view(self.nodes@), output: self.output }
    }
}

/// A graph and the seed of its random nodes.
#[derive(Debug, PartialEq)]
pub struct AudioPatch {
    /// The seed.
    pub seed: u32,
    /// The graph.
    pub graph: NodeGraph,
}

/// The contents of an [`AudioPatch`].
#[verifier::ext_equal]
pub struct PatchView {
    /// The seed.
    pub seed: u32,
    /// The graph.
    pub graph: GraphView,
}

impl View for AudioPatch {
    type V = PatchView;

    open spec fn view(&self) -> PatchView {
        PatchView { seed: self.seed, graph: self.graph@ }
    }
}

impl NodeView {
    /// A silent node without inputs.
    pub open spec fn silent() -> NodeView {
        NodeView { id: NodeId(0), kind: NodeKind::Silence, inputs: Seq::empty() }
    }
}

impl PatchView {
    /// One silent node with the seed zero.
    pub open spec fn silent() -> PatchView {
        PatchView {
            seed: 0,
            graph: GraphView { nodes: seq![NodeView::silent()], output: NodeId(0) },
        }
    }
}

impl Default for GraphNode {
    fn default() -> (r: GraphNode)
        ensures
            r@ == NodeView::silent(),
    {
        let r: GraphNode = GraphNode { id: NodeId(0), kind: NodeKind::Silence, inputs: Vec::new() };
        assert(r@.inputs =~= Seq::empty());
        r
    }
}

impl Default for NodeGraph {
    fn default() -> (r: NodeGraph)
        ensures
            r@ == PatchView::silent().graph,
    {
        let mut nodes: Vec<GraphNode> = Vec::new();
        nodes.push(GraphNode::default());
        let r: NodeGraph = NodeGraph { nodes, output: NodeId(0) };
        assert(r@.nodes =~= seq![NodeView::silent()]);
        r
    }
}

impl Default for AudioPatch {
    fn default() -> (r: AudioPatch)
        ensures
            r@ == PatchView::silent(),
    {
        AudioPatch { seed: 0, graph: NodeGraph::default() }
    }
}

/// Copies a list of connections.
pub fn copy_connections(list: &Vec<Connection>) -> (r: Vec<Connection>)
    ensures
        r@ == list@,
{
    let mut r: Vec<Connection> = Vec::new();
    let mut i: usize = 0;
    while i < list.len()
        invariant
            i <= list.len(),
            r@ == list@.take(i as int),
        decreases list.len() - i,
    {
        assert(list@.take(i + 1) =~= list@.take(i as int).push(list@[i as int]));
        r.push(list[i]);
        i = i + 1;
    }
    assert(list@.take(i as int) =~= list@);
    r
}

impl Clone for Port {
    fn clone(&self) -> (r: Port)
        ensures
            r@ == self@,
    {
        Port { name: self.name.clone(), connections: copy_connections(&self.connections) }
    }
}

impl Clone for GraphNode {
    fn clone(&self) -> (r: GraphNode)
        ensures
            r@ == self@,
    {
        let mut inputs: Vec<Port> = Vec::new();
        let mut i: usize = 0;
        while i < self.inputs.len()
            invariant
                i <= self.inputs.len(),
                inputs.len() == i,
                forall|j: int| 0 <= j < i ==> (#[trigger] inputs[j])@ == self.inputs[j]@,
            decreases self.inputs.len() - i,
        {
            inputs.push(self.inputs[i].clone());
            i = i + 1;
        }
        assert(ports_view(inputs@) =~= ports_view(self.inputs@));
        GraphNode { id: self.id, kind: self.kind, inputs }
    }
}

impl Clone for NodeGraph {
    fn clone(&self) -> (r: NodeGraph)
        ensures
            r@ == self@,
    {
        let mut nodes: Vec<GraphNode> = Vec::new();
        let mut i: usize = 0;
        while i < self.nodes.len()
            invariant
                i <= self.nodes.len(),
                nodes.len() == i,
                forall|j: int| 0 <= j < i ==> (#[trigger] nodes[j])@ == self.nodes[j]@,
            decreases self.nodes.len() - i,
        {
            nodes.push(self.nodes[i].clone());
            i = i + 1;
        }
        assert(nodes_view(nodes@) =~= nodes_view(self.nodes@));
        NodeGraph { nodes, output: self.output }
    }
}

impl Clone for AudioPatch {
    fn clone(&self) -> (r: AudioPatch)
        ensures
            r@ == self@,
    {
        AudioPatch { seed: self.seed, graph: self.graph.clone() }
    }
}

/// One byte string stands before another in the dictionary.
pub open spec fn bytes_before(a: Seq<u8>, b: Seq<u8>) -> bool
    decreases a.len(),
{
    if b.len() == 0 {
        false
    } else if a.len() == 0 {
        true
    } else if a[0] != b[0] {
        a[0] < b[0]
    } else {
        bytes_before(a.drop_first(), b.drop_first())
    }
}

/// One text stands before another: by the bytes of their UTF-8 encodings.
pub open spec fn text_before(a: Seq<char>, b: Seq<char>) -> bool {
    bytes_before(vstd::utf8::encode_utf8(a), vstd::utf8::encode_utf8(b))
}

/// One text stands before another.
pub fn is_before(a: &str, b: &str) -> (r: bool)
    ensures
        r == text_before(a@, b@),
{
    let x: &[u8] = a.as_bytes();
    let y: &[u8] = b.as_bytes();
    let mut i: usize = 0;
    assert(x@.skip(0) =~= x@);
    assert(y@.skip(0) =~= y@);
    while i < x.len() && i < y.len()
        invariant
            i <= x.len(),
            i <= y.len(),
            x@ == vstd::utf8::encode_utf8(a@),
            y@ == vstd::utf8::encode_utf8(b@),
            bytes_before(x@, y@) == bytes_before(x@.skip(i as int), y@.skip(i as int)),
        decreases x.len() - i,
    {
        if x[i] != y[i] {
            return x[i] < y[i];
        }
        assert(x@.skip(i as int).drop_first() =~= x@.skip(i + 1));
        assert(y@.skip(i as int).drop_first() =~= y@.skip(i + 1));
        i = i + 1;
    }
    i < y.len()
}

/// The ports stand in the order of their names, no name twice.
pub open spec fn ordered(ports: Seq<PortView>) -> bool {
    forall|i: int, j: int|
        0 <= i < j < ports.len() ==> text_before(
            (#[trigger] ports[i]).name,
            (#[trigger] ports[j]).name,
        )
}

/// The place of a port: the first one whose name does not stand before it.
pub open spec fn place(ports: Seq<PortView>, name: Seq<char>) -> int
    decreases ports.len(),
{
    if ports.len() == 0 {
        0
    } else if text_before(ports[0].name, name) {
        1 + place(ports.drop_first(), name)
    } else {
        0
    }
}

/// The ports once `conn` is wired to the port `name`: behind the connections
/// that the port has, or as the only one of a new port.
pub open spec fn wired_to(ports: Seq<PortView>, name: Seq<char>, conn: Connection) -> Seq<
    PortView,
> {
    let at: int = place(ports, name);
    if at < ports.len() && ports[at].name == name {
        ports.update(
            at,
            PortView { name, connections: ports[at].connections.push(conn) },
        )
    } else {
        ports.insert(at, PortView { name, connections: seq![conn] })
    }
}

impl GraphNode {
    /// Wires one more connection to a port.
    pub fn with_input(self, port: &str, conn: Connection) -> (r: GraphNode)
        ensures
            r@ == (NodeView { inputs: wired_to(self@.inputs, port@, conn), ..self@ }),
    {
        let mut inputs: Vec<Port> = self.inputs;
        let ghost before: Seq<PortView> = ports_view(inputs@);
        let mut at: usize = 0;
        assert(before.skip(0) =~= before);
        while at < inputs.len() && is_before(inputs[at].name.as_str(), port)
            invariant
                at <= inputs.len(),
                before == ports_view(inputs@),
                place(before, port@) == at + place(before.skip(at as int), port@),
            decreases inputs.len() - at,
        {
            assert(before.skip(at as int)[0] == inputs[at as int]@);
            assert(before.skip(at as int).drop_first() =~= before.skip(at + 1));
            at = at + 1;
        }
        proof {
            if at < inputs.len() {
                assert(before.skip(at as int)[0] == inputs[at as int]@);
            }
            assert(place(before, port@) == at);
        }
        if at < inputs.len() && node::same_text(inputs[at].name.as_str(), port) {
            assert(before[at as int] == inputs[at as int]@);
            inputs[at].connections.push(conn);
            assert(ports_view(inputs@) =~= wired_to(before, port@, conn));
        } else {
            let mut connections: Vec<Connection> = Vec::new();
            connections.push(conn);
            assert(connections@ =~= seq![conn]);
            inputs.insert(at, Port { name: port.to_owned(), connections });
            assert(ports_view(inputs@) =~= wired_to(before, port@, conn));
        }
        GraphNode { id: self.id, kind: self.kind, inputs }
    }
}

/// The dictionary order of byte strings is strict and total.
pub proof fn lemma_bytes_order(a: Seq<u8>, b: Seq<u8>, c: Seq<u8>)
    ensures
        bytes_before(a, b) && bytes_before(b, c) ==> bytes_before(a, c),
        bytes_before(a, b) ==> !bytes_before(b, a),
        a != b ==> bytes_before(a, b) || bytes_before(b, a),
        !bytes_before(a, a),
    decreases a.len() + b.len() + c.len(),
{
    if a.len() > 0 && b.len() > 0 {
        lemma_bytes_order(a.drop_first(), b.drop_first(), if c.len() > 0 {
            c.drop_first()
        } else {
            c
        });
        if a[0] == b[0] && a.drop_first() == b.drop_first() {
            assert(a =~= seq![a[0]] + a.drop_first());
            assert(b =~= seq![b[0]] + b.drop_first());
        }
    } else if a.len() == 0 && b.len() == 0 {
        assert(a =~= b);
    }
    lemma_bytes_not_before_themselves(a);
}

proof fn lemma_bytes_not_before_themselves(a: Seq<u8>)
    ensures
        !bytes_before(a, a),
    decreases a.len(),
{
    if a.len() > 0 {
        lemma_bytes_not_before_themselves(a.drop_first());
    }
}

/// The order of texts is strict and total.
pub proof fn lemma_text_order(a: Seq<char>, b: Seq<char>, c: Seq<char>)
    ensures
        text_before(a, b) && text_before(b, c) ==> text_before(a, c),
        a != b ==> text_before(a, b) || text_before(b, a),
        !text_before(a, a),
{
    lemma_bytes_order(
        vstd::utf8::encode_utf8(a),
        vstd::utf8::encode_utf8(b),
        vstd::utf8::encode_utf8(c),
    );
    vstd::utf8::encode_utf8_decode_utf8(a);
    vstd::utf8::encode_utf8_decode_utf8(b);
}

/// The place of a port: what stands before it stands before its name, what
/// stands there does not.
pub proof fn lemma_place(ports: Seq<PortView>, name: Seq<char>)
    ensures
        0 <= place(ports, name) <= ports.len(),
        forall|i: int|
            0 <= i < place(ports, name) ==> text_before((#[trigger] ports[i]).name, name),
        place(ports, name) < ports.len() ==> !text_before(ports[place(ports, name)].name, name),
    decreases ports.len(),
{
    if ports.len() > 0 && text_before(ports[0].name, name) {
        lemma_place(ports.drop_first(), name);
        let k: int = place(ports.drop_first(), name);
        assert forall|i: int| 0 <= i < place(ports, name) implies text_before(
            (#[trigger] ports[i]).name,
            name,
        ) by {
            if i > 0 {
                assert(ports.drop_first()[i - 1] == ports[i]);
            }
        }
        if k < ports.len() - 1 {
            assert(ports.drop_first()[k] == ports[k + 1]);
        }
    }
}

/// Wiring a connection keeps the ports in the order of their names.
pub proof fn law_wiring_keeps_ports_ordered(
    ports: Seq<PortView>,
    name: Seq<char>,
    conn: Connection,
)
    requires
        ordered(ports),
    ensures
        ordered(wired_to(ports, name, conn)),
{
    let at: int = place(ports, name);
    let after: Seq<PortView> = wired_to(ports, name, conn);
    lemma_place(ports, name);
    if at < ports.len() && ports[at].name == name {
        assert forall|i: int, j: int| 0 <= i < j < after.len() implies text_before(
            (#[trigger] after[i]).name,
            (#[trigger] after[j]).name,
        ) by {
            assert(text_before(ports[i].name, ports[j].name));
        }
    } else {
        assert forall|i: int, j: int| 0 <= i < j < after.len() implies text_before(
            (#[trigger] after[i]).name,
            (#[trigger] after[j]).name,
        ) by {
            if j < at {
                assert(text_before(ports[i].name, ports[j].name));
            } else if j == at {
                assert(text_before(ports[i].name, name));
            } else {
                let q: int = j - 1;
                lemma_text_order(ports[at].name, name, name);
                assert(text_before(name, ports[at].name));
                if q > at {
                    assert(text_before(ports[at].name, ports[q].name));
                    lemma_text_order(name, ports[at].name, ports[q].name);
                }
                if i < at {
                    assert(text_before(ports[i].name, ports[q].name));
                } else if i > at {
                    assert(text_before(ports[i - 1].name, ports[q].name));
                }
            }
        }
    }
}

/// Wiring twice to one port wires both, the one behind the other.
pub proof fn law_wiring_twice_wires_both(
    ports: Seq<PortView>,
    name: Seq<char>,
    first: Connection,
    second: Connection,
)
    ensures
        ({
            let after: Seq<PortView> = wired_to(wired_to(ports, name, first), name, second);
            let at: int = place(ports, name);
            let n: int = after[at].connections.len() as int;
            &&& 0 <= at < after.len()
            &&& after[at].name == name
            &&& n >= 2
            &&& after[at].connections[n - 2] == first
            &&& after[at].connections[n - 1] == second
        }),
{
    let once: Seq<PortView> = wired_to(ports, name, first);
    let at: int = place(ports, name);
    lemma_place(ports, name);
    lemma_text_order(name, name, name);
    assert(once[at].name == name);
    lemma_place_of(once, name, at);
}

proof fn lemma_place_of(ports: Seq<PortView>, name: Seq<char>, at: int)
    requires
        0 <= at < ports.len(),
        ports[at].name == name,
        forall|i: int| 0 <= i < at ==> text_before((#[trigger] ports[i]).name, name),
    ensures
        place(ports, name) == at,
{
    lemma_place(ports, name);
    lemma_text_order(name, name, name);
    let p: int = place(ports, name);
    if p < at {
        assert(text_before(ports[p].name, name));
    }
}

/// Why a graph cannot be evaluated.
#[derive(Clone, Copy, Debug, PartialEq, Eq, Structural)]
pub enum GraphError {
    /// A connection names a node that is not there.
    UnknownNode(NodeId),
    /// The output node is not there.
    MissingOutput(NodeId),
    /// Some nodes wait for each other.
    Cycle,
    /// Two nodes share an identifier.
    DuplicateId(NodeId),
}

} // verus!
