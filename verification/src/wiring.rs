//! What a bake computes, stated of its samples: every node is evaluated once
//! for every sample, on what the nodes that it reads have made of that same
//! sample, on what it has kept itself, and on its turn of the one random
//! stream.
use crate::bake;
use crate::bake::{Frame, Job};
use crate::elementary::Elementary;
use crate::float::{F32, F64};
use crate::node;
use crate::node::{ContextView, InputView, Node, Step};
use crate::numbers;
use crate::order;
use crate::patch::{Connection, GraphError, NodeId, NodeView, PatchView, PortView};
use crate::stream::Stream;
use vstd::prelude::*;

verus! {

/// The port of a name has the value of the first entry of that name.
pub proof fn law_ports_are_read_by_name(inputs: Seq<InputView>, i: int)
    requires
        0 <= i < inputs.len(),
        forall|j: int| 0 <= j < i ==> (#[trigger] inputs[j]).port != inputs[i].port,
    ensures
        node::input_at(inputs, inputs[i].port) == inputs[i].value,
    decreases inputs.len(),
{
    if i > 0 {
        let rest: Seq<InputView> = inputs.drop_first();
        assert(inputs[0].port != inputs[i].port);
        assert forall|j: int| 0 <= j < i - 1 implies (#[trigger] rest[j]).port != rest[i
            - 1].port by {
            assert(rest[j] == inputs[j + 1]);
        }
        law_ports_are_read_by_name(rest, i - 1);
    }
}

/// A port that is not wired reads zero.
pub proof fn law_unwired_ports_read_zero(inputs: Seq<InputView>, port: Seq<char>)
    requires
        forall|j: int| 0 <= j < inputs.len() ==> (#[trigger] inputs[j]).port != port,
    ensures
        node::input_at(inputs, port) == F32::of(0),
    decreases inputs.len(),
{
    if inputs.len() > 0 {
        let rest: Seq<InputView> = inputs.drop_first();
        assert(inputs[0].port != port);
        assert forall|j: int| 0 <= j < rest.len() implies (#[trigger] rest[j]).port != port by {
            assert(rest[j] == inputs[j + 1]);
        }
        law_unwired_ports_read_zero(rest, port);
    }
}

/// One port more adds its value to the sum of all ports; no ports sum to
/// zero.
pub proof fn law_one_more_port_adds_its_value(inputs: Seq<InputView>, more: InputView)
    ensures
        node::input_total(Seq::empty()) == F32::of(0),
        node::input_total(inputs.push(more)) == node::input_total(inputs).plus(more.value),
{
    assert(inputs.push(more).drop_last() =~= inputs);
}

/// One connection more adds to its port: a constant its value, a wire the
/// output that it reads times its amount.  No connections sum to zero.
pub proof fn law_one_more_connection_adds_its_signal(
    connections: Seq<Connection>,
    more: Connection,
    outputs: Map<NodeId, F32>,
)
    ensures
        bake::port_sum(Seq::empty(), outputs) == F32::of(0),
        bake::port_sum(connections.push(more), outputs) == bake::port_sum(
            connections,
            outputs,
        ).plus(
            match more {
                Connection::Constant { value } => value,
                Connection::Node { id, amount } => outputs[id].times(amount),
            },
        ),
{
    assert(connections.push(more).drop_last() =~= connections);
}

/// The note gate is open for the first `n` samples of its window, always
/// where it has none.
pub proof fn law_note_gate_opens_for_its_window(c: ContextView)
    ensures
        c.gate_samples is None ==> c.gate_open(),
        c.gate_samples matches Some(n) ==> (c.gate_open() <==> c.sample_index < n),
{
}

/// A context tells its sample rate as a number and its time in seconds: the
/// samples before it over the samples of a second.
pub proof fn law_contexts_tell_rate_and_time(c: ContextView)
    ensures
        c.rate() == F32::from_u64(c.sample_rate as u64),
        c.sample_rate < 0x100_0000 ==> numbers::value(c.rate()) == c.sample_rate
            * numbers::scale(),
        c.time_secs() == F64::from_u64(c.sample_index).over(F64::from_u64(c.sample_rate as u64)),
{
    if c.sample_rate < 0x100_0000 {
        numbers::lemma_small_from_u64(c.sample_rate as u64);
    }
}

/// A node of a bake has been evaluated for a sample: on the outputs of that
/// sample, on what it kept before, with the stream where its turn came, and
/// it has left its output, its state and the stream behind.
pub open spec fn evaluated(
    job: Job,
    id: NodeId,
    index: int,
    before: Frame,
    done: Frame,
    stream: Stream,
    left: Stream,
) -> bool {
    let n: NodeView = order::node_of(job.graph.nodes, id);
    let inputs: Seq<InputView> = Seq::new(
        n.inputs.len(),
        |p: int|
            InputView {
                port: n.inputs[p].name,
                value: bake::port_sum(n.inputs[p].connections, done.outputs),
            },
    );
    let s: Step = n.kind.step(
        ContextView {
            sample_rate: job.sample_rate,
            sample_index: index as u64,
            duration_samples: job.duration_samples,
            rng: stream,
            inputs,
            state: before.states[id],
            gate_samples: job.gate_samples,
        },
        job.f,
    );
    &&& done.outputs[id] == s.out
    &&& done.states[id] == s.after.state
    &&& left == s.after.rng
}

/// The stream as the nodes of an order find it, one after the other.
pub open spec fn passes_on(
    job: Job,
    index: int,
    before: Frame,
    done: Frame,
    streams: Seq<Stream>,
) -> bool {
    &&& streams.len() == job.order.len() + 1
    &&& streams.first() == before.rng
    &&& streams.last() == done.rng
    &&& forall|k: int|
        0 <= k < job.order.len() ==> evaluated(
            job,
            #[trigger] job.order[k],
            index,
            before,
            done,
            streams[k],
            streams[k + 1],
        )
}

/// Every sample evaluates every node of the order once, each on what the
/// others have made of the same sample, and passes the stream on from one to
/// the next.
pub proof fn law_samples_evaluate_every_node(job: Job, index: int) -> (streams: Seq<Stream>)
    requires
        order::is_order(job.graph.nodes, job.order),
        0 <= index < job.duration_samples,
    ensures
        passes_on(job, index, job.samples_done(index), job.samples_done(index + 1), streams),
{
    let before: Frame = job.samples_done(index);
    let n: int = job.order.len() as int;
    let at: u64 = index as u64;
    let done: Frame = job.nodes_done(before, n, at);
    let streams: Seq<Stream> = Seq::new(
        (n + 1) as nat,
        |k: int| job.nodes_done(before, k, at).rng,
    );
    lemma_samples_are_whole(job, index);
    assert forall|k: int| 0 <= k < n implies evaluated(
        job,
        #[trigger] job.order[k],
        index,
        before,
        done,
        streams[k],
        streams[k + 1],
    ) by {
        lemma_node_evaluated(job, before, k, at);
    }
    streams
}

/// Frames hold an output and a state for every identifier.
spec fn whole(frame: Frame) -> bool {
    &&& forall|id: NodeId| #[trigger] frame.outputs.dom().contains(id)
    &&& forall|id: NodeId| #[trigger] frame.states.dom().contains(id)
}

proof fn lemma_nodes_are_whole(job: Job, before: Frame, k: int, at: u64)
    requires
        whole(before),
    ensures
        whole(job.nodes_done(before, k, at)),
    decreases k,
{
    if k > 0 {
        lemma_nodes_are_whole(job, before, k - 1, at);
    }
}

proof fn lemma_samples_are_whole(job: Job, n: int)
    ensures
        whole(job.samples_done(n)),
    decreases n,
{
    if n > 0 {
        lemma_samples_are_whole(job, n - 1);
        lemma_nodes_are_whole(
            job,
            job.samples_done(n - 1),
            job.order.len() as int,
            (n - 1) as u64,
        );
    }
}

/// What a node has left stays until the sample is done, and what it keeps is
/// what it kept until its turn comes.
proof fn lemma_turns(job: Job, before: Frame, m: int, k: int, at: u64)
    requires
        order::is_order(job.graph.nodes, job.order),
        whole(before),
        0 <= m < job.order.len(),
        0 <= k <= job.order.len(),
    ensures
        ({
            let id: NodeId = job.order[m];
            let frame: Frame = job.nodes_done(before, k, at);
            let own: Frame = job.nodes_done(before, m + 1, at);
            &&& k <= m ==> frame.states[id] == before.states[id]
            &&& k > m ==> frame.states[id] == own.states[id] && frame.outputs[id]
                == own.outputs[id]
        }),
    decreases k,
{
    if k > 0 {
        lemma_turns(job, before, m, k - 1, at);
        lemma_nodes_are_whole(job, before, k - 1, at);
        assert(m != k - 1 ==> job.order[m] != job.order[k - 1]);
    }
}

/// A port sums to the same where the outputs that it reads are the same.
proof fn lemma_same_sum(connections: Seq<Connection>, a: Map<NodeId, F32>, b: Map<NodeId, F32>)
    requires
        forall|i: int|
            0 <= i < connections.len() ==> (#[trigger] connections[i] matches Connection::Node {
                id,
                ..
            } ==> a[id] == b[id]),
    ensures
        bake::port_sum(connections, a) == bake::port_sum(connections, b),
    decreases connections.len(),
{
    if connections.len() > 0 {
        let front: Seq<Connection> = connections.drop_last();
        assert forall|i: int| 0 <= i < front.len() implies (#[trigger] front[i] matches Connection::Node {
            id,
            ..
        } ==> a[id] == b[id]) by {
            assert(front[i] == connections[i]);
        }
        lemma_same_sum(front, a, b);
        assert(connections[connections.len() - 1] == connections.last());
    }
}

/// The node at a place of the order is evaluated.
proof fn lemma_node_evaluated(job: Job, before: Frame, k: int, at: u64)
    requires
        order::is_order(job.graph.nodes, job.order),
        whole(before),
        0 <= k < job.order.len(),
    ensures
        evaluated(
            job,
            job.order[k],
            at as int,
            before,
            job.nodes_done(before, job.order.len() as int, at),
            job.nodes_done(before, k, at).rng,
            job.nodes_done(before, k + 1, at).rng,
        ),
{
    let n: int = job.order.len() as int;
    let id: NodeId = job.order[k];
    let done: Frame = job.nodes_done(before, n, at);
    let frame: Frame = job.nodes_done(before, k, at);
    let own: Frame = job.nodes_done(before, k + 1, at);
    let ports: Seq<PortView> = order::node_of(job.graph.nodes, id).inputs;
    lemma_turns(job, before, k, n, at);
    lemma_turns(job, before, k, k, at);
    lemma_nodes_are_whole(job, before, k, at);
    assert(own == job.node_done(frame, id, at));
    let inputs: Seq<InputView> = Seq::new(
        ports.len(),
        |p: int|
            InputView {
                port: ports[p].name,
                value: bake::port_sum(ports[p].connections, done.outputs),
            },
    );
    assert(inputs =~= bake::port_values(ports, frame.outputs)) by {
        assert forall|p: int| 0 <= p < ports.len() implies bake::port_sum(
            #[trigger] ports[p].connections,
            done.outputs,
        ) == bake::port_sum(ports[p].connections, frame.outputs) by {
            lemma_sources_are_done(job, before, k, at, p);
        }
    }
}

/// What the ports of a node read has been made when its turn comes.
proof fn lemma_sources_are_done(job: Job, before: Frame, k: int, at: u64, p: int)
    requires
        order::is_order(job.graph.nodes, job.order),
        whole(before),
        0 <= k < job.order.len(),
        0 <= p < order::node_of(job.graph.nodes, job.order[k]).inputs.len(),
    ensures
        ({
            let ports: Seq<PortView> = order::node_of(job.graph.nodes, job.order[k]).inputs;
            bake::port_sum(
                ports[p].connections,
                job.nodes_done(before, job.order.len() as int, at).outputs,
            ) == bake::port_sum(ports[p].connections, job.nodes_done(before, k, at).outputs)
        }),
{
    let n: int = job.order.len() as int;
    let id: NodeId = job.order[k];
    let ports: Seq<PortView> = order::node_of(job.graph.nodes, id).inputs;
    let connections: Seq<Connection> = ports[p].connections;
    let a: Map<NodeId, F32> = job.nodes_done(before, n, at).outputs;
    let b: Map<NodeId, F32> = job.nodes_done(before, k, at).outputs;
    assert(order::ready(job.graph.nodes, job.order, id, k));
    assert forall|i: int| 0 <= i < connections.len() implies (
    #[trigger] connections[i] matches Connection::Node { id: s, .. } ==> a[s] == b[s]) by {
        if connections[i] is Node {
            let s: NodeId = connections[i]->id;
            bake::lemma_connection_is_source(ports, p, i);
            assert(job.order.take(k).contains(s));
            let m: int = choose|m: int| 0 <= m < k && job.order.take(k)[m] == s;
            assert(job.order[m] == s);
            lemma_turns(job, before, m, n, at);
            lemma_turns(job, before, m, k, at);
        }
    }
    lemma_same_sum(connections, a, b);
}

/// A bake starts with every node's initial state and with the stream of the
/// patch's seed at its beginning.
pub proof fn law_bakes_start_afresh(job: Job, id: NodeId)
    ensures
        job.samples_done(0).states[id] == order::node_of(job.graph.nodes, id).kind.initial(),
        job.samples_done(0).rng.seed == job.seed,
        job.samples_done(0).rng.position == 0,
{
}

/// Baking a sorted graph makes as many samples as asked for; each is the
/// output node's output for that sample, in a bake of that graph, seed, rate,
/// duration and window in the graph's order.
pub proof fn law_bakes_hear_the_output_node(
    patch: PatchView,
    sample_rate: u32,
    duration_samples: u64,
    gate_samples: Option<u64>,
    f: spec_fn(Elementary, F32) -> F32,
    order: Seq<NodeId>,
)
    requires
        order::sorted(patch.graph) == Ok::<Seq<NodeId>, GraphError>(order),
    ensures
        ({
            let job: Job = Job {
                graph: patch.graph,
                seed: patch.seed,
                order,
                sample_rate,
                duration_samples,
                gate_samples,
                f,
            };
            &&& order::is_order(patch.graph.nodes, order)
            &&& order.contains(patch.graph.output)
            &&& bake::baked(patch, sample_rate, duration_samples, gate_samples, f) matches Ok(
                buffer,
            )
            &&& buffer.len() == duration_samples
            &&& forall|i: int|
                0 <= i < duration_samples ==> #[trigger] buffer[i] == job.samples_done(
                    i + 1,
                ).outputs[patch.graph.output]
        }),
{
    order::lemma_distinct(patch.graph.nodes);
    assert(order::is_order(patch.graph.nodes, order));
    order::lemma_order_covers(patch.graph.nodes, order, patch.graph.output);
}

/// Asking for no samples gives none, whatever the graph; asking for some of a
/// graph that cannot be sorted gives what is wrong with it.
pub proof fn law_bakes_answer_what_is_wrong(
    patch: PatchView,
    sample_rate: u32,
    duration_samples: u64,
    gate_samples: Option<u64>,
    f: spec_fn(Elementary, F32) -> F32,
)
    ensures
        duration_samples == 0 ==> bake::baked(patch, sample_rate, 0, gate_samples, f) == Ok::<
            Seq<F32>,
            GraphError,
        >(Seq::empty()),
        duration_samples > 0 ==> (order::sorted(patch.graph) matches Err(e) ==> bake::baked(
            patch,
            sample_rate,
            duration_samples,
            gate_samples,
            f,
        ) == Err::<Seq<F32>, GraphError>(e)),
{
}

} // verus!
