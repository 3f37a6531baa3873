//! The sample loop: a patch becomes a mono buffer.
//!
//! The graph is compiled once into a flat plan in evaluation order.  Every
//! sample evaluates every node of the plan once and keeps the output node's
//! value.  All random nodes share one stream, seeded by the patch and
//! advanced in evaluation order, so the same patch at the same sample rate
//! and duration always gives the same buffer, bit for bit.
use crate::elementary;
use crate::elementary::Elementary;
use crate::float::{F32, F64};
use crate::node;
use crate::node::{
    BakeContext, ContextView, Input, InputView, Node, NodeKind, NodeState, StateView, Step,
};
use crate::order;
use crate::patch;
use crate::patch::{
    AudioPatch, Connection, GraphError, GraphNode, GraphView, NodeId, NodeView, PatchView, Port,
    PortView,
};
use crate::stream::Stream;
use crate::wav::MAX_WAV_SAMPLES;
use vstd::prelude::*;

verus! {

/// How many samples are made between two questions whether to go on.
pub const CANCEL_CHECK_INTERVAL: u64 = 4096;

/// What a connection contributes, given the nodes' outputs.
pub open spec fn contribution(c: Connection, outputs: Map<NodeId, F32>) -> F32 {
    match c {
        Connection::Constant { value } => value,
        Connection::Node { id, amount } => outputs[id].times(amount),
    }
}

/// The sum of a port's connections, from zero up in their order.
pub open spec fn port_sum(connections: Seq<Connection>, outputs: Map<NodeId, F32>) -> F32
    decreases connections.len(),
{
    if connections.len() == 0 {
        F32::of(0)
    } else {
        port_sum(connections.drop_last(), outputs).plus(
            contribution(connections.last(), outputs),
        )
    }
}

/// The values on a node's ports, given the nodes' outputs.
pub open spec fn port_values(ports: Seq<PortView>, outputs: Map<NodeId, F32>) -> Seq<InputView> {
    ports.map_values(
        |p: PortView| InputView { port: p.name, value: port_sum(p.connections, outputs) },
    )
}

/// What passes from one evaluated node to the next.
pub struct Frame {
    /// The latest output of every node.
    pub outputs: Map<NodeId, F32>,
    /// What every node keeps.
    pub states: Map<NodeId, StateView>,
    /// The random stream.
    pub rng: Stream,
}

/// A bake of a graph in an evaluation order.
pub struct Job {
    /// The graph.
    pub graph: GraphView,
    /// The seed.
    pub seed: u32,
    /// The evaluation order.
    pub order: Seq<NodeId>,
    /// Samples per second.
    pub sample_rate: u32,
    /// How many samples are made.
    pub duration_samples: u64,
    /// For how many samples the note gate is open.
    pub gate_samples: Option<u64>,
    /// The transcendental functions.
    pub f: spec_fn(Elementary, F32) -> F32,
}

impl Job {
    /// Nothing evaluated yet.
    pub open spec fn start(self) -> Frame {
        Frame {
            outputs: Map::new(|id: NodeId| true, |id: NodeId| F32::of(0)),
            states: Map::new(
                |id: NodeId| true,
                |id: NodeId| order::node_of(self.graph.nodes, id).kind.initial(),
            ),
            rng: Stream { seed: self.seed as u64, position: 0 },
        }
    }

    /// What a node sees.
    pub open spec fn context(self, frame: Frame, id: NodeId, index: u64) -> ContextView {
        ContextView {
            sample_rate: self.sample_rate,
            sample_index: index,
            duration_samples: self.duration_samples,
            rng: frame.rng,
            inputs: port_values(order::node_of(self.graph.nodes, id).inputs, frame.outputs),
            state: frame.states[id],
            gate_samples: self.gate_samples,
        }
    }

    /// The frame once a node is evaluated.
    pub open spec fn node_done(self, frame: Frame, id: NodeId, index: u64) -> Frame {
        let s: Step = order::node_of(self.graph.nodes, id).kind.step(
            self.context(frame, id, index),
            self.f,
        );
        Frame {
            outputs: frame.outputs.insert(id, s.out),
            states: frame.states.insert(id, s.after.state),
            rng: s.after.rng,
        }
    }

    /// The frame once the first `k` nodes of the order are evaluated.
    pub open spec fn nodes_done(self, frame: Frame, k: int, index: u64) -> Frame
        decreases k,
    {
        if k <= 0 {
            frame
        } else {
            self.node_done(self.nodes_done(frame, k - 1, index), self.order[k - 1], index)
        }
    }

    /// The frame once `n` samples are made.
    pub open spec fn samples_done(self, n: int) -> Frame
        decreases n,
    {
        if n <= 0 {
            self.start()
        } else {
            self.nodes_done(
                self.samples_done(n - 1),
                self.order.len() as int,
                (n - 1) as u64,
            )
        }
    }

    /// One sample.
    pub open spec fn heard(self, i: int) -> F32 {
        self.samples_done(i + 1).outputs[self.graph.output]
    }

    /// All samples.
    pub open spec fn buffer(self) -> Seq<F32> {
        Seq::new(self.duration_samples as nat, |i: int| self.heard(i))
    }
}

/// The bake of a patch whose graph has an evaluation order.
pub open spec fn job(
    patch: PatchView,
    sample_rate: u32,
    duration_samples: u64,
    gate_samples: Option<u64>,
    f: spec_fn(Elementary, F32) -> F32,
) -> Job {
    Job {
        graph: patch.graph,
        seed: patch.seed,
        order: order::sorted(patch.graph)->Ok_0,
        sample_rate,
        duration_samples,
        gate_samples,
        f,
    }
}

/// What baking a patch yields: nothing for no samples, else the samples, or
/// what is wrong with the graph.
pub open spec fn baked(
    patch: PatchView,
    sample_rate: u32,
    duration_samples: u64,
    gate_samples: Option<u64>,
    f: spec_fn(Elementary, F32) -> F32,
) -> Result<Seq<F32>, GraphError> {
    if duration_samples == 0 {
        Ok(Seq::empty())
    } else {
        match order::sorted(patch.graph) {
            Ok(_) => Ok(job(patch, sample_rate, duration_samples, gate_samples, f).buffer()),
            Err(e) => Err(e),
        }
    }
}

/// The lines that the nodes of a patch allocate are not longer than memory
/// can be.
pub open spec fn fits(patch: PatchView, sample_rate: u32) -> bool {
    forall|i: int|
        0 <= i < patch.graph.nodes.len() ==> (#[trigger] patch.graph.nodes[i]).kind.fits(
            sample_rate,
        )
}

/// Baking the patch evaluates no node that cannot allocate its lines.
pub open spec fn bakeable(patch: PatchView, sample_rate: u32, duration_samples: u64) -> bool {
    duration_samples > 0 && order::sorted(patch.graph) is Ok ==> fits(patch, sample_rate)
}

/// One resolved contribution to a port.
enum InputSource {
    /// A fixed value.
    Const(F32),
    /// The output at a place of the plan times an amount.
    Node {
        /// The place.
        src: usize,
        /// The amount.
        amount: F32,
    },
}

/// A port of the plan.
struct PortPlan<'a> {
    /// The name.
    name: &'a str,
    /// The contributions.
    sources: Vec<InputSource>,
}

/// A node of the plan.
struct NodePlan<'a> {
    /// The configuration.
    kind: NodeKind,
    /// The ports.
    ports: Vec<PortPlan<'a>>,
}

impl InputSource {
    /// Resolves a connection.
    spec fn resolves(self, c: Connection, order: Seq<NodeId>) -> bool {
        match (self, c) {
            (InputSource::Const(a), Connection::Constant { value }) => a == value,
            (InputSource::Node { src, amount: a }, Connection::Node { id, amount }) => {
                &&& a == amount
                &&& src < order.len()
                &&& order[src as int] == id
            },
            _ => false,
        }
    }
}

/// The sources resolve the connections.
spec fn resolves_all(
    sources: Seq<InputSource>,
    connections: Seq<Connection>,
    order: Seq<NodeId>,
) -> bool {
    &&& sources.len() == connections.len()
    &&& forall|i: int|
        0 <= i < sources.len() ==> (#[trigger] sources[i]).resolves(connections[i], order)
}

/// The planned ports resolve the ports.
spec fn plans_ports(plans: Seq<PortPlan<'_>>, ports: Seq<PortView>, order: Seq<NodeId>) -> bool {
    &&& plans.len() == ports.len()
    &&& forall|i: int|
        0 <= i < plans.len() ==> (#[trigger] plans[i]).name@ == ports[i].name && resolves_all(
            plans[i].sources@,
            ports[i].connections,
            order,
        )
}

/// The planned node resolves the node.
spec fn plans_node(plan: NodePlan<'_>, node: NodeView, order: Seq<NodeId>) -> bool {
    &&& plan.kind == node.kind
    &&& plans_ports(plan.ports@, node.inputs, order)
}

/// The plan resolves the nodes of the order.
spec fn plans(plan: Seq<NodePlan<'_>>, nodes: Seq<NodeView>, order: Seq<NodeId>) -> bool {
    &&& plan.len() == order.len()
    &&& forall|i: int|
        0 <= i < plan.len() ==> plans_node(
            #[trigger] plan[i],
            order::node_of(nodes, order[i]),
            order,
        )
}

/// The place of an identifier in an order.
fn position(order: &Vec<NodeId>, id: NodeId) -> (r: usize)
    requires
        order@.contains(id),
    ensures
        r < order.len(),
        order[r as int] == id,
{
    let mut i: usize = 0;
    while i < order.len() && order[i] != id
        invariant
            i <= order.len(),
            order@.contains(id),
            forall|j: int| 0 <= j < i ==> order[j] != id,
        decreases order.len() - i,
    {
        i = i + 1;
    }
    i
}

/// The node with an identifier.
fn lookup(nodes: &Vec<GraphNode>, id: NodeId) -> (r: &GraphNode)
    requires
        order::distinct(patch::nodes_view(nodes@)),
        order::present(patch::nodes_view(nodes@), id),
    ensures
        r@ == order::node_of(patch::nodes_view(nodes@), id),
{
    let ghost view: Seq<NodeView> = patch::nodes_view(nodes@);
    let ghost at: int = choose|j: int| 0 <= j < view.len() && (#[trigger] view[j]).id == id;
    let mut i: usize = 0;
    while nodes[i].id != id
        invariant
            view == patch::nodes_view(nodes@),
            0 <= at < view.len(),
            view[at].id == id,
            i <= at,
        decreases nodes.len() - i,
    {
        assert(view[i as int] == nodes[i as int]@);
        assert(view[at] == nodes[at]@);
        i = i + 1;
    }
    proof {
        assert(view[i as int] == nodes[i as int]@);
        order::lemma_node_of(view, i as int);
    }
    &nodes[i]
}

/// Resolves the connections of a port.
fn plan_sources(connections: &Vec<Connection>, order: &Vec<NodeId>) -> (r: Vec<InputSource>)
    requires
        forall|c: int|
            0 <= c < connections.len() ==> (#[trigger] connections[c] matches Connection::Node {
                id,
                ..
            } ==> order@.contains(id)),
    ensures
        resolves_all(r@, connections@, order@),
{
    let mut r: Vec<InputSource> = Vec::new();
    let mut c: usize = 0;
    while c < connections.len()
        invariant
            c <= connections.len(),
            r.len() == c,
            forall|j: int|
                0 <= j < connections.len() ==> (#[trigger] connections[j] matches Connection::Node {
                    id,
                    ..
                } ==> order@.contains(id)),
            forall|j: int| 0 <= j < c ==> (#[trigger] r[j]).resolves(connections[j], order@),
        decreases connections.len() - c,
    {
        match connections[c] {
            Connection::Constant { value } => {
                r.push(InputSource::Const(value));
            },
            Connection::Node { id, amount } => {
                let src: usize = position(order, id);
                r.push(InputSource::Node { src, amount });
            },
        }
        c = c + 1;
    }
    r
}

/// Every node that the ports read is in the order.
spec fn ports_covered(ports: Seq<PortView>, order: Seq<NodeId>) -> bool {
    forall|s: NodeId| #[trigger] order::sources(ports).contains(s) ==> order.contains(s)
}

/// A connection of a port is among the sources of the ports.
pub proof fn lemma_connection_is_source(ports: Seq<PortView>, p: int, c: int)
    requires
        0 <= p < ports.len(),
        0 <= c < ports[p].connections.len(),
    ensures
        ports[p].connections[c] matches Connection::Node { id, .. } ==> order::sources(
            ports,
        ).contains(id),
    decreases ports.len(),
{
    if ports[p].connections[c] is Node {
        let id: NodeId = ports[p].connections[c]->id;
        let front: Seq<PortView> = ports.drop_last();
        let last: Seq<NodeId> = order::read_by(ports.last().connections);
        if p < ports.len() - 1 {
            assert(front[p] == ports[p]);
            lemma_connection_is_source(front, p, c);
            let i: int = choose|i: int|
                0 <= i < order::sources(front).len() && order::sources(front)[i] == id;
            assert(order::sources(ports)[i] == id);
        } else {
            lemma_connection_is_read(ports[p].connections, c);
            let i: int = choose|i: int| 0 <= i < last.len() && last[i] == id;
            assert(order::sources(ports)[order::sources(front).len() + i] == id);
        }
    }
}

proof fn lemma_connection_is_read(connections: Seq<Connection>, c: int)
    requires
        0 <= c < connections.len(),
    ensures
        connections[c] matches Connection::Node { id, .. } ==> order::read_by(
            connections,
        ).contains(id),
    decreases connections.len(),
{
    if connections[c] is Node {
        let id: NodeId = connections[c]->id;
        let front: Seq<Connection> = connections.drop_last();
        if c < connections.len() - 1 {
            assert(front[c] == connections[c]);
            lemma_connection_is_read(front, c);
            let i: int = choose|i: int|
                0 <= i < order::read_by(front).len() && order::read_by(front)[i] == id;
            assert(order::read_by(connections)[i] == id);
        } else {
            assert(order::read_by(connections).last() == id);
        }
    }
}

/// Resolves the ports of a node.
fn plan_ports<'a>(ports: &'a Vec<Port>, order: &Vec<NodeId>) -> (r: Vec<PortPlan<'a>>)
    requires
        ports_covered(patch::ports_view(ports@), order@),
    ensures
        plans_ports(r@, patch::ports_view(ports@), order@),
{
    let ghost view: Seq<PortView> = patch::ports_view(ports@);
    let mut r: Vec<PortPlan<'a>> = Vec::new();
    let mut p: usize = 0;
    while p < ports.len()
        invariant
            p <= ports.len(),
            view == patch::ports_view(ports@),
            ports_covered(view, order@),
            r.len() == p,
            forall|j: int|
                0 <= j < p ==> (#[trigger] r[j]).name@ == view[j].name && resolves_all(
                    r[j].sources@,
                    view[j].connections,
                    order@,
                ),
        decreases ports.len() - p,
    {
        proof {
            assert(view[p as int] == ports[p as int]@);
            assert forall|c: int| 0 <= c < ports[p as int].connections.len() implies (
            #[trigger] ports[p as int].connections[c] matches Connection::Node {
                id,
                ..
            } ==> order@.contains(id)) by {
                lemma_connection_is_source(view, p as int, c);
            }
        }
        let sources: Vec<InputSource> = plan_sources(&ports[p].connections, order);
        r.push(PortPlan { name: ports[p].name.as_str(), sources });
        p = p + 1;
    }
    r
}

/// What an order must be for a plan: every node is there and reads what is
/// in the order.
spec fn plannable(nodes: Seq<NodeView>, order: Seq<NodeId>) -> bool {
    &&& order::distinct(nodes)
    &&& forall|i: int|
        0 <= i < order.len() ==> order::present(nodes, #[trigger] order[i]) && ports_covered(
            order::node_of(nodes, order[i]).inputs,
            order,
        )
}

/// Compiles a graph in an evaluation order.
fn compile<'a>(nodes: &'a Vec<GraphNode>, order: &Vec<NodeId>) -> (r: Vec<NodePlan<'a>>)
    requires
        plannable(patch::nodes_view(nodes@), order@),
    ensures
        plans(r@, patch::nodes_view(nodes@), order@),
{
    let ghost view: Seq<NodeView> = patch::nodes_view(nodes@);
    let mut r: Vec<NodePlan<'a>> = Vec::new();
    let mut i: usize = 0;
    while i < order.len()
        invariant
            i <= order.len(),
            view == patch::nodes_view(nodes@),
            plannable(view, order@),
            r.len() == i,
            forall|j: int|
                0 <= j < i ==> plans_node(
                    #[trigger] r[j],
                    order::node_of(view, order[j]),
                    order@,
                ),
        decreases order.len() - i,
    {
        assert(order::present(view, order[i as int]));
        let node: &GraphNode = lookup(nodes, order[i]);
        let ports: Vec<PortPlan<'a>> = plan_ports(&node.inputs, order);
        r.push(NodePlan { kind: node.kind, ports });
        i = i + 1;
    }
    r
}

/// The outputs by place are the outputs by identifier.
spec fn mirrors(outputs: Seq<F32>, frame: Frame, order: Seq<NodeId>) -> bool {
    &&& outputs.len() == order.len()
    &&& forall|i: int|
        0 <= i < order.len() ==> #[trigger] outputs[i] == frame.outputs[order[i]]
}

/// The states by place are the states by identifier, each of them sound and
/// not older than `age`.
spec fn mirrors_states(
    states: Seq<NodeState>,
    frame: Frame,
    order: Seq<NodeId>,
    done: int,
    age: int,
) -> bool {
    &&& states.len() == order.len()
    &&& forall|i: int|
        0 <= i < order.len() ==> {
            &&& (#[trigger] states[i])@ == frame.states[order[i]]
            &&& states[i]@.sound()
            &&& states[i]@.age() <= (if i < done {
                age + 1
            } else {
                age
            })
        }
}

/// Sums the sources of a port.
fn sum_sources(
    sources: &Vec<InputSource>,
    outputs: &Vec<F32>,
    Ghost(connections): Ghost<Seq<Connection>>,
    Ghost(frame): Ghost<Frame>,
    Ghost(order): Ghost<Seq<NodeId>>,
) -> (r: F32)
    requires
        resolves_all(sources@, connections, order),
        mirrors(outputs@, frame, order),
    ensures
        r == port_sum(connections, frame.outputs),
{
    let mut total: F32 = F32::of(0);
    let mut i: usize = 0;
    while i < sources.len()
        invariant
            i <= sources.len(),
            resolves_all(sources@, connections, order),
            mirrors(outputs@, frame, order),
            total == port_sum(connections.take(i as int), frame.outputs),
        decreases sources.len() - i,
    {
        assert(sources[i as int].resolves(connections[i as int], order));
        assert(connections.take(i + 1).drop_last() =~= connections.take(i as int));
        assert(connections.take(i + 1).last() == connections[i as int]);
        let value: F32 = match &sources[i] {
            InputSource::Const(c) => *c,
            InputSource::Node { src, amount } => {
                assert(outputs[*src as int] == frame.outputs[order[*src as int]]);
                outputs[*src].times(*amount)
            },
        };
        total = total.plus(value);
        i = i + 1;
    }
    assert(connections.take(i as int) =~= connections);
    total
}

/// Writes the values on a node's ports.
fn fill_inputs<'a>(
    inputs: &mut Vec<Input<'a>>,
    ports: &Vec<PortPlan<'a>>,
    outputs: &Vec<F32>,
    Ghost(views): Ghost<Seq<PortView>>,
    Ghost(frame): Ghost<Frame>,
    Ghost(order): Ghost<Seq<NodeId>>,
)
    requires
        plans_ports(ports@, views, order),
        mirrors(outputs@, frame, order),
    ensures
        node::inputs_view(final(inputs)@) == port_values(views, frame.outputs),
{
    inputs.clear();
    let mut p: usize = 0;
    while p < ports.len()
        invariant
            p <= ports.len(),
            plans_ports(ports@, views, order),
            mirrors(outputs@, frame, order),
            inputs.len() == p,
            forall|j: int|
                0 <= j < p ==> (#[trigger] inputs[j])@ == (InputView {
                    port: views[j].name,
                    value: port_sum(views[j].connections, frame.outputs),
                }),
        decreases ports.len() - p,
    {
        assert(ports[p as int].name@ == views[p as int].name);
        let value: F32 = sum_sources(
            &ports[p].sources,
            outputs,
            Ghost(views[p as int].connections),
            Ghost(frame),
            Ghost(order),
        );
        inputs.push(Input { port: ports[p].name, value });
        p = p + 1;
    }
    assert(node::inputs_view(inputs@) =~= port_values(views, frame.outputs));
}

/// Makes one sample: evaluates every node of the plan once.
fn evaluate<'a, M: Fn(Elementary, F32) -> F32>(
    plan: &Vec<NodePlan<'a>>,
    ctx: &mut BakeContext<'a>,
    outputs: &mut Vec<F32>,
    states: &mut Vec<NodeState>,
    math: &M,
    Ghost(job): Ghost<Job>,
    Ghost(frame): Ghost<Frame>,
)
    requires
        elementary::answers(*math),
        job.f == elementary::table(*math),
        plans(plan@, job.graph.nodes, job.order),
        job.order.no_duplicates(),
        forall|i: int| 0 <= i < plan.len() ==> (#[trigger] plan[i]).kind.fits(job.sample_rate),
        mirrors(old(outputs)@, frame, job.order),
        old(ctx).sample_index < u64::MAX,
        mirrors_states(
            old(states)@,
            frame,
            job.order,
            0,
            old(ctx).sample_index as int,
        ),
        old(ctx).sample_rate == job.sample_rate,
        old(ctx).duration_samples == job.duration_samples,
        old(ctx).gate_samples == job.gate_samples,
        old(ctx).rng == frame.rng,
    ensures
        ({
            let after: Frame = job.nodes_done(
                frame,
                job.order.len() as int,
                old(ctx).sample_index,
            );
            &&& mirrors(final(outputs)@, after, job.order)
            &&& mirrors_states(
                final(states)@,
                after,
                job.order,
                0,
                old(ctx).sample_index + 1,
            )
            &&& final(ctx).rng == after.rng
        }),
        final(ctx).sample_index == old(ctx).sample_index,
        final(ctx).sample_rate == job.sample_rate,
        final(ctx).duration_samples == job.duration_samples,
        final(ctx).gate_samples == job.gate_samples,
{
    let ghost index: u64 = ctx.sample_index;
    let ghost order: Seq<NodeId> = job.order;
    let mut i: usize = 0;
    while i < plan.len()
        invariant
            i <= plan.len(),
            order == job.order,
            index < u64::MAX,
            elementary::answers(*math),
            job.f == elementary::table(*math),
            plans(plan@, job.graph.nodes, order),
            order.no_duplicates(),
            forall|j: int|
                0 <= j < plan.len() ==> (#[trigger] plan[j]).kind.fits(job.sample_rate),
            mirrors(outputs@, job.nodes_done(frame, i as int, index), order),
            mirrors_states(
                states@,
                job.nodes_done(frame, i as int, index),
                order,
                i as int,
                index as int,
            ),
            ctx.rng == job.nodes_done(frame, i as int, index).rng,
            ctx.sample_index == index,
            ctx.sample_rate == job.sample_rate,
            ctx.duration_samples == job.duration_samples,
            ctx.gate_samples == job.gate_samples,
        decreases plan.len() - i,
    {
        let ghost before: Frame = job.nodes_done(frame, i as int, index);
        let ghost id: NodeId = order[i as int];
        let ghost node: NodeView = order::node_of(job.graph.nodes, id);
        assert(plans_node(plan[i as int], node, order));
        fill_inputs(
            &mut ctx.inputs,
            &plan[i].ports,
            outputs,
            Ghost(node.inputs),
            Ghost(before),
            Ghost(order),
        );
        let ghost kept: Seq<NodeState> = states@;
        assert(kept[i as int]@ == before.states[id]);
        let mut state: NodeState = NodeState::Stateless;
        core::mem::swap(&mut state, &mut states[i]);
        ctx.state = state;
        assert(ctx@ == job.context(before, id, index));
        let out: F32 = plan[i].kind.sample(ctx, math);
        let mut back: NodeState = NodeState::Stateless;
        core::mem::swap(&mut back, &mut ctx.state);
        let ghost made: StateView = back@;
        states.set(i, back);
        outputs.set(i, out);
        proof {
            let after: Frame = job.nodes_done(frame, i + 1, index);
            assert(after == job.node_done(before, id, index));
            assert forall|j: int| 0 <= j < order.len() implies #[trigger] outputs@[j]
                == after.outputs[order[j]] by {
                if j != i {
                    assert(order[j] != id);
                }
            }
            assert forall|j: int| 0 <= j < order.len() implies {
                &&& (#[trigger] states@[j])@ == after.states[order[j]]
                &&& states@[j]@.sound()
                &&& states@[j]@.age() <= (if j < i + 1 {
                    index + 1
                } else {
                    index as int
                })
            } by {
                if j != i {
                    assert(order[j] != id);
                    assert(states@[j] == kept[j]);
                } else {
                    assert(states@[j]@ == made);
                }
            }
        }
        i = i + 1;
    }
}

/// The states of all nodes before the first sample.
fn initial_states(plan: &Vec<NodePlan>) -> (r: Vec<NodeState>)
    ensures
        r.len() == plan.len(),
        forall|i: int|
            0 <= i < plan.len() ==> (#[trigger] r[i])@ == plan[i].kind.initial() && r[i]@.sound()
                && r[i]@.age() == 0,
{
    let mut r: Vec<NodeState> = Vec::new();
    let mut i: usize = 0;
    while i < plan.len()
        invariant
            i <= plan.len(),
            r.len() == i,
            forall|j: int|
                0 <= j < i ==> (#[trigger] r[j])@ == plan[j].kind.initial() && r[j]@.sound()
                    && r[j]@.age() == 0,
        decreases plan.len() - i,
    {
        r.push(plan[i].kind.init_state());
        i = i + 1;
    }
    r
}

/// A sorted graph can be planned.
proof fn lemma_plannable(graph: GraphView)
    requires
        order::sorted(graph) is Ok,
    ensures
        ({
            let o: Seq<NodeId> = order::sorted(graph)->Ok_0;
            &&& order::is_order(graph.nodes, o)
            &&& plannable(graph.nodes, o)
            &&& o.contains(graph.output)
        }),
{
    let o: Seq<NodeId> = order::sorted(graph)->Ok_0;
    order::lemma_distinct(graph.nodes);
    assert(order::is_order(graph.nodes, o));
    order::lemma_order_covers(graph.nodes, o, graph.output);
    assert forall|i: int| 0 <= i < o.len() implies order::present(graph.nodes, #[trigger] o[i])
        && ports_covered(order::node_of(graph.nodes, o[i]).inputs, o) by {
        assert(order::ready(graph.nodes, o, o[i], i));
        assert forall|s: NodeId| #[trigger]
            order::sources(order::node_of(graph.nodes, o[i]).inputs).contains(s) implies o.contains(
            s,
        ) by {
            assert(o.take(i).contains(s));
            let j: int = choose|j: int| 0 <= j < i && o.take(i)[j] == s;
            assert(o[j] == s);
        }
    }
}

/// Makes the samples of a patch until they are all made or `cancelled`
/// answers yes; it is asked before every 4096th sample.
pub fn bake_inner<M: Fn(Elementary, F32) -> F32, C: Fn(u64) -> bool>(
    patch: &AudioPatch,
    sample_rate: u32,
    duration_samples: u64,
    gate_samples: Option<u64>,
    cancelled: &C,
    math: &M,
) -> (r: Result<Vec<F32>, GraphError>)
    requires
        elementary::answers(*math),
        forall|i: u64| #[trigger] cancelled.requires((i,)),
        bakeable(patch@, sample_rate, duration_samples),
    ensures
        match (
            r,
            baked(
                patch@,
                sample_rate,
                duration_samples,
                gate_samples,
                elementary::table(*math),
            ),
        ) {
            (Ok(buffer), Ok(full)) => {
                &&& buffer.len() <= full.len()
                &&& buffer@ == full.take(buffer.len() as int)
                &&& buffer.len() == full.len() || (buffer.len() % 4096 == 0 && cancelled.ensures(
                    (buffer.len() as u64,),
                    true,
                ))
                &&& forall|i: u64|
                    i < buffer.len() && i % 4096 == 0 ==> #[trigger] cancelled.ensures((i,), false)
            },
            (Err(a), Err(b)) => a == b,
            _ => false,
        },
{
    if duration_samples == 0 {
        let r: Vec<F32> = Vec::new();
        assert(r@ =~= Seq::<F32>::empty().take(0));
        return Ok(r);
    }
    let order: Vec<NodeId> = match order::topo_sort(&patch.graph) {
        Ok(order) => order,
        Err(e) => {
            return Err(e);
        },
    };
    let ghost j: Job = job(
        patch@,
        sample_rate,
        duration_samples,
        gate_samples,
        elementary::table(*math),
    );
    proof {
        lemma_plannable(patch@.graph);
    }
    let plan: Vec<NodePlan> = compile(&patch.graph.nodes, &order);
    let output: usize = position(&order, patch.graph.output);
    let mut states: Vec<NodeState> = initial_states(&plan);
    let mut outputs: Vec<F32> = vec![F32::of(0); plan.len()];
    let mut ctx: BakeContext = BakeContext::new(
        sample_rate,
        0,
        duration_samples,
        Stream::new(patch.seed as u64),
        Vec::new(),
        NodeState::Stateless,
    ).with_gate(gate_samples);
    let mut buffer: Vec<F32> = Vec::new();
    proof {
        assert forall|i: int| 0 <= i < plan.len() implies (#[trigger] plan[i]).kind.fits(
            sample_rate,
        ) by {
            let nodes: Seq<NodeView> = patch@.graph.nodes;
            assert(plans_node(plan[i], order::node_of(nodes, order[i]), order@));
            assert(order::present(nodes, order[i]));
            let k: int = choose|k: int|
                0 <= k < nodes.len() && (#[trigger] nodes[k]).id == order[i];
            order::lemma_node_of(nodes, k);
            assert(nodes[k].kind.fits(sample_rate));
        }
        assert forall|i: int| 0 <= i < order.len() implies (#[trigger] states[i])@
            == j.start().states[order[i]] by {
            assert(plans_node(
                plan[i],
                order::node_of(patch@.graph.nodes, order[i]),
                order@,
            ));
        }
        assert(buffer@ =~= j.buffer().take(0));
    }
    let mut index: u64 = 0;
    while index < duration_samples
        invariant
            index <= duration_samples,
            index == buffer.len(),
            ctx.sample_rate == sample_rate,
            ctx.duration_samples == duration_samples,
            ctx.gate_samples == gate_samples,
            elementary::answers(*math),
            forall|i: u64| #[trigger] cancelled.requires((i,)),
            j == job(
                patch@,
                sample_rate,
                duration_samples,
                gate_samples,
                elementary::table(*math),
            ),
            baked(
                patch@,
                sample_rate,
                duration_samples,
                gate_samples,
                elementary::table(*math),
            ) == Ok::<Seq<F32>, GraphError>(j.buffer()),
            j.order == order@,
            order@.no_duplicates(),
            plans(plan@, j.graph.nodes, order@),
            forall|i: int| 0 <= i < plan.len() ==> (#[trigger] plan[i]).kind.fits(sample_rate),
            output < order.len(),
            order[output as int] == patch.graph.output,
            mirrors(outputs@, j.samples_done(index as int), order@),
            mirrors_states(states@, j.samples_done(index as int), order@, 0, index as int),
            ctx.rng == j.samples_done(index as int).rng,
            buffer@ == j.buffer().take(index as int),
            forall|i: u64|
                i < index && i % 4096 == 0 ==> #[trigger] cancelled.ensures((i,), false),
        decreases duration_samples - index,
    {
        if index % CANCEL_CHECK_INTERVAL == 0 && cancelled(index) {
            return Ok(buffer);
        }
        ctx.sample_index = index;
        evaluate(
            &plan,
            &mut ctx,
            &mut outputs,
            &mut states,
            math,
            Ghost(j),
            Ghost(j.samples_done(index as int)),
        );
        buffer.push(outputs[output]);
        proof {
            assert(j.samples_done(index + 1).outputs[patch.graph.output] == j.heard(index as int));
            assert(buffer@ =~= j.buffer().take(index + 1));
        }
        index = index + 1;
    }
    Ok(buffer)
}

/// How many samples a duration in seconds is, to the nearest; none where it
/// is not positive, and no more than a blob can hold.
pub open spec fn spec_duration_samples(sample_rate: u32, duration_secs: F32) -> u64 {
    let samples: F64 = duration_secs.widen().times(F64::from_u64(sample_rate as u64)).round();
    if duration_secs.le(F32::of(0)) {
        0
    } else if F64::from_usize(MAX_WAV_SAMPLES).le(samples) {
        MAX_WAV_SAMPLES as u64
    } else {
        samples.to_u64()
    }
}

/// How many samples a duration in seconds is, to the nearest; none where it
/// is not positive, and no more than a blob can hold.
#[verifier::when_used_as_spec(spec_duration_samples)]
pub fn duration_samples(sample_rate: u32, duration_secs: F32) -> (r: u64)
    ensures
        r == duration_samples(sample_rate, duration_secs),
{
    if duration_secs.le(F32::of(0)) {
        return 0;
    }
    let samples: F64 = duration_secs.widen().times(F64::from_u64(sample_rate as u64)).round();
    if F64::from_usize(MAX_WAV_SAMPLES).le(samples) {
        MAX_WAV_SAMPLES as u64
    } else {
        samples.to_u64()
    }
}

/// Bakes a patch, or says what is wrong with its graph.
pub fn try_bake<M: Fn(Elementary, F32) -> F32>(
    patch: &AudioPatch,
    sample_rate: u32,
    duration_secs: F32,
    math: &M,
) -> (r: Result<Vec<F32>, GraphError>)
    requires
        elementary::answers(*math),
        bakeable(patch@, sample_rate, duration_samples(sample_rate, duration_secs)),
    ensures
        match r {
            Ok(buffer) => baked(
                patch@,
                sample_rate,
                duration_samples(sample_rate, duration_secs),
                None,
                elementary::table(*math),
            ) == Ok::<Seq<F32>, GraphError>(buffer@),
            Err(e) => baked(
                patch@,
                sample_rate,
                duration_samples(sample_rate, duration_secs),
                None,
                elementary::table(*math),
            ) == Err::<Seq<F32>, GraphError>(e),
        },
{
    bake_whole(patch, sample_rate, duration_samples(sample_rate, duration_secs), None, math)
}

/// Makes all the samples of a patch, or says what is wrong with its graph.
pub fn bake_whole<M: Fn(Elementary, F32) -> F32>(
    patch: &AudioPatch,
    sample_rate: u32,
    duration_samples: u64,
    gate_samples: Option<u64>,
    math: &M,
) -> (r: Result<Vec<F32>, GraphError>)
    requires
        elementary::answers(*math),
        bakeable(patch@, sample_rate, duration_samples),
    ensures
        match r {
            Ok(buffer) => baked(
                patch@,
                sample_rate,
                duration_samples,
                gate_samples,
                elementary::table(*math),
            ) == Ok::<Seq<F32>, GraphError>(buffer@),
            Err(e) => baked(
                patch@,
                sample_rate,
                duration_samples,
                gate_samples,
                elementary::table(*math),
            ) == Err::<Seq<F32>, GraphError>(e),
        },
{
    let never = |_i: u64| -> (stop: bool)
        ensures
            !stop,
        { false };
    let r: Result<Vec<F32>, GraphError> = bake_inner(
        patch,
        sample_rate,
        duration_samples,
        gate_samples,
        &never,
        math,
    );
    proof {
        let full = baked(
            patch@,
            sample_rate,
            duration_samples,
            gate_samples,
            elementary::table(*math),
        );
        if full is Ok {
            assert(full->Ok_0.take(full->Ok_0.len() as int) =~= full->Ok_0);
        }
    }
    r
}

/// Bakes a patch until `cancelled` answers yes.
pub fn try_bake_cancellable<M: Fn(Elementary, F32) -> F32, C: Fn(u64) -> bool>(
    patch: &AudioPatch,
    sample_rate: u32,
    duration_secs: F32,
    cancelled: &C,
    math: &M,
) -> (r: Result<Vec<F32>, GraphError>)
    requires
        elementary::answers(*math),
        forall|i: u64| #[trigger] cancelled.requires((i,)),
        bakeable(patch@, sample_rate, duration_samples(sample_rate, duration_secs)),
    ensures
        match (
            r,
            baked(
                patch@,
                sample_rate,
                duration_samples(sample_rate, duration_secs),
                None,
                elementary::table(*math),
            ),
        ) {
            (Ok(buffer), Ok(full)) => {
                &&& buffer.len() <= full.len()
                &&& buffer@ == full.take(buffer.len() as int)
                &&& buffer.len() == full.len() || (buffer.len() % 4096 == 0 && cancelled.ensures(
                    (buffer.len() as u64,),
                    true,
                ))
                &&& forall|i: u64|
                    i < buffer.len() && i % 4096 == 0 ==> #[trigger] cancelled.ensures((i,), false)
            },
            (Err(a), Err(b)) => a == b,
            _ => false,
        },
{
    bake_inner(
        patch,
        sample_rate,
        duration_samples(sample_rate, duration_secs),
        None,
        cancelled,
        math,
    )
}

/// Bakes a patch whose graph has nothing wrong with it.
pub fn bake<M: Fn(Elementary, F32) -> F32>(
    patch: &AudioPatch,
    sample_rate: u32,
    duration_secs: F32,
    math: &M,
) -> (r: Vec<F32>)
    requires
        elementary::answers(*math),
        bakeable(patch@, sample_rate, duration_samples(sample_rate, duration_secs)),
        duration_samples(sample_rate, duration_secs) == 0 || order::sorted(patch@.graph) is Ok,
    ensures
        baked(
            patch@,
            sample_rate,
            duration_samples(sample_rate, duration_secs),
            None,
            elementary::table(*math),
        ) == Ok::<Seq<F32>, GraphError>(r@),
        r.len() == duration_samples(sample_rate, duration_secs),
{
    try_bake(patch, sample_rate, duration_secs, math).expect(
        "bake: AudioPatch.graph is structurally invalid",
    )
}

} // verus!
