//! How an envelope runs through its stages while the signal on its `"gate"`
//! port stays up or down, and how long each stage lasts.
use crate::adsr;
use crate::adsr::{AdsrCurve, AdsrEnvelope, AdsrPhase, AdsrState, GATE_THRESHOLD};
use crate::bake;
use crate::bake::{Frame, Job};
use crate::constants::ONE;
use crate::elementary::Elementary;
use crate::float::F32;
use crate::node;
use crate::node::{ContextView, InputView, Node, NodeKind, StateView, Step};
use crate::numbers;
use crate::numbers::{scale, value};
use crate::order;
use crate::patch::{NodeId, NodeView};
use crate::rounding;
use crate::rounding::Width;
use crate::stream::Stream;
use crate::wiring;
use vstd::arithmetic::div_mod::*;
use vstd::arithmetic::power2::*;
use vstd::prelude::*;

verus! {

/// The samples of an attack, as an integer.
pub open spec fn attack_samples(e: AdsrEnvelope, rate: F32) -> int {
    e.phase_duration_samples(AdsrPhase::Attack, rate) as int
}

/// The samples of a decay, as an integer.
pub open spec fn decay_samples(e: AdsrEnvelope, rate: F32) -> int {
    e.phase_duration_samples(AdsrPhase::Decay, rate) as int
}

/// The samples of a release, as an integer.
pub open spec fn release_samples(e: AdsrEnvelope, rate: F32) -> int {
    e.phase_duration_samples(AdsrPhase::Release, rate) as int
}

/// A stage lasts its time times the sample rate, the fraction dropped, and
/// one sample at least.
pub open spec fn lasts(samples: int, seconds: F32, rate: F32) -> bool {
    let length: F32 = seconds.times(rate);
    length.is_finite() && value(length) < 0x1_0000_0000_0000_0000 * scale() ==> {
        &&& samples >= 1
        &&& value(length) >= scale() ==> samples * scale() <= value(length) < (samples + 1)
            * scale()
        &&& value(length) < scale() ==> samples == 1
    }
}

/// A stage's length of one or more, without its fraction.
proof fn lemma_lasts(seconds: F32, rate: F32)
    ensures
        lasts(adsr::stage_length(seconds, rate).to_u64() as int, seconds, rate),
{
    let length: F32 = seconds.times(rate);
    let one: F32 = F32::of(ONE);
    let w: Width = Width::Single;
    if length.is_finite() && value(length) < 0x1_0000_0000_0000_0000 * scale() {
        numbers::lemma_zero_one();
        numbers::lemma_value_order(length, one);
        numbers::lemma_value_order(one, length);
        let x: F32 = adsr::stage_length(seconds, rate);
        assert(x.is_finite() && value(x) == if value(length) >= scale() {
            value(length)
        } else {
            scale()
        }) by {
            reveal(F32::spec_max);
        }
        let v: int = value(x);
        let s: int = scale();
        reveal(F32::spec_is_finite);
        reveal(F32::spec_to_u64);
        rounding::lemma_step(w);
        rounding::lemma_encode_exact(w, x.parts().code as int);
        assert(x.parts().size(w) == v);
        lemma_fundamental_div_mod(v, s);
        let n: int = v / s;
        assert(s * n == n * s) by (nonlinear_arith);
        assert((n + 1) * s == n * s + s) by (nonlinear_arith);
        assert(1 <= n < 0x1_0000_0000_0000_0000) by (nonlinear_arith)
            requires
                s <= v < 0x1_0000_0000_0000_0000 * s,
                n * s <= v < n * s + s,
                s > 0,
        ;
        if value(length) < s {
            assert(n == 1) by (nonlinear_arith)
                requires
                    v == s,
                    n * s <= v,
                    n >= 1,
                    s > 0,
            ;
        }
    }
}

/// Every timed stage lasts its own time; rest and sustain do not end of
/// themselves.
pub proof fn law_stages_last_their_times(e: AdsrEnvelope, rate: F32)
    ensures
        lasts(attack_samples(e, rate), e.attack_s, rate),
        lasts(decay_samples(e, rate), e.decay_s, rate),
        lasts(release_samples(e, rate), e.release_s, rate),
        e.phase_duration_samples(AdsrPhase::Idle, rate) == u64::MAX,
        e.phase_duration_samples(AdsrPhase::Sustain, rate) == u64::MAX,
{
    lemma_lasts(e.attack_s, rate);
    lemma_lasts(e.decay_s, rate);
    lemma_lasts(e.release_s, rate);
}

/// A linear ramp is as far as its time; an exponential one leaves the square
/// of what a linear one leaves.
pub proof fn law_curves_follow_their_shapes(alpha: F32)
    requires
        F32::of(0).le(alpha),
        alpha.le(F32::of(ONE)),
    ensures
        adsr::curve_eval(AdsrCurve::Linear, alpha) == alpha,
        ({
            let left: F32 = F32::of(ONE).minus(alpha);
            adsr::curve_eval(AdsrCurve::Exponential, alpha) == F32::of(ONE).minus(left.times(left))
        }),
{
    reveal(F32::spec_clamp);
    reveal(F32::spec_le);
    reveal(F32::spec_lt);
    reveal(F32::spec_same);
}

/// A level on the way from one level to another, once some samples of a time
/// have passed.
pub open spec fn on_the_way(
    level: F32,
    curve: AdsrCurve,
    from: F32,
    to: F32,
    elapsed: u64,
    seconds: F32,
    rate: F32,
) -> bool {
    let whole: F32 = seconds.times(rate).max(F32::of(ONE));
    let way: F32 = adsr::curve_eval(curve, F32::from_u64(elapsed).over(whole));
    level == from.plus(to.minus(from).times(way))
}

/// The stages lead from zero to one, from one to the sustain level, and from
/// the level at the note's end to zero, each in its own time; rest is zero
/// and sustain holds its level.
pub proof fn law_stages_lead_from_level_to_level(e: AdsrEnvelope, s: AdsrState, rate: F32)
    ensures
        ({
            let level: F32 = e.value(s, rate);
            let zero: F32 = F32::of(0);
            let one: F32 = F32::of(ONE);
            let t: u64 = s.elapsed_samples;
            match s.phase {
                AdsrPhase::Idle => level == zero,
                AdsrPhase::Attack => on_the_way(level, e.curve, zero, one, t, e.attack_s, rate),
                AdsrPhase::Decay => on_the_way(
                    level,
                    e.curve,
                    one,
                    e.sustain_level,
                    t,
                    e.decay_s,
                    rate,
                ),
                AdsrPhase::Sustain => level == e.sustain_level,
                AdsrPhase::Release => on_the_way(
                    level,
                    e.curve,
                    s.release_start_level,
                    zero,
                    t,
                    e.release_s,
                    rate,
                ),
            }
        }),
{
}

/// Contexts in a row: each holds the state that the node left at the one
/// before.
pub open spec fn in_a_row(
    kind: NodeKind,
    c: spec_fn(int) -> ContextView,
    n: int,
    f: spec_fn(Elementary, F32) -> F32,
) -> bool {
    &&& forall|i: int|
        0 <= i < n ==> (#[trigger] c(i)).sample_rate == c(0).sample_rate
    &&& forall|i: int|
        0 <= i < n && i + 1 < n ==> c(i + 1).state == kind.step(#[trigger] c(i), f).after.state
}

/// The signal on the `"gate"` port is up.
pub open spec fn is_up(c: ContextView) -> bool {
    F32::of(GATE_THRESHOLD).lt(c.input("gate"@))
}

/// Where a held envelope is after so many samples.
spec fn held_at(s: AdsrState, i: int, attack: int, decay: int) -> bool {
    &&& i > 0 ==> s.last_gate_high
    &&& i == 0 ==> s == AdsrState::idle()
    &&& 0 < i < attack ==> s.phase == AdsrPhase::Attack && s.elapsed_samples == i
    &&& attack <= i < attack + decay ==> s.phase == AdsrPhase::Decay && s.elapsed_samples == i
        - attack
    &&& attack + decay <= i ==> s.phase == AdsrPhase::Sustain
}

/// One sample of a held envelope.
proof fn lemma_held_step(e: AdsrEnvelope, c: ContextView, i: int, f: spec_fn(Elementary, F32) -> F32)
    requires
        c.state is Adsr,
        is_up(c),
        0 <= i,
        attack_samples(e, c.rate()) >= 1,
        decay_samples(e, c.rate()) >= 1,
        held_at(
            c.state->Adsr_0,
            i,
            attack_samples(e, c.rate()),
            decay_samples(e, c.rate()),
        ),
    ensures
        NodeKind::Adsr(e).step(c, f).after.state is Adsr,
        held_at(
            NodeKind::Adsr(e).step(c, f).after.state->Adsr_0,
            i + 1,
            attack_samples(e, c.rate()),
            decay_samples(e, c.rate()),
        ),
        i >= attack_samples(e, c.rate()) + decay_samples(e, c.rate()) ==> NodeKind::Adsr(e).step(
            c,
            f,
        ).out == e.sustain_level,
{
    let s: AdsrState = c.state->Adsr_0;
    let g: AdsrState = e.gated(s, true, c.rate());
    let t: AdsrState = e.aged(g, c.rate());
    assert(NodeKind::Adsr(e).step(c, f) == e.step(c, f));
    assert(e.step(c, f).after.state == StateView::Adsr(t));
}

/// Where a held envelope is at every sample.
proof fn lemma_held(
    e: AdsrEnvelope,
    c: spec_fn(int) -> ContextView,
    n: int,
    f: spec_fn(Elementary, F32) -> F32,
    i: int,
)
    requires
        in_a_row(NodeKind::Adsr(e), c, n, f),
        c(0).state == NodeKind::Adsr(e).initial(),
        forall|k: int| 0 <= k < n ==> is_up(#[trigger] c(k)),
        attack_samples(e, c(0).rate()) >= 1,
        decay_samples(e, c(0).rate()) >= 1,
        0 <= i < n,
    ensures
        c(i).state is Adsr,
        held_at(
            c(i).state->Adsr_0,
            i,
            attack_samples(e, c(0).rate()),
            decay_samples(e, c(0).rate()),
        ),
    decreases i,
{
    if i > 0 {
        lemma_held(e, c, n, f, i - 1);
        let before: ContextView = c(i - 1);
        assert(before.sample_rate == c(0).sample_rate);
        assert(is_up(before));
        lemma_held_step(e, before, i - 1, f);
        assert(c(i - 1 + 1).state == NodeKind::Adsr(e).step(c(i - 1), f).after.state);
    }
}

/// An envelope that starts at rest and whose `"gate"` signal stays up has
/// reached its sustain level once its attack and its decay have passed, and
/// holds it.
pub proof fn law_held_envelopes_reach_their_sustain(
    e: AdsrEnvelope,
    c: spec_fn(int) -> ContextView,
    n: int,
    f: spec_fn(Elementary, F32) -> F32,
    i: int,
)
    requires
        in_a_row(NodeKind::Adsr(e), c, n, f),
        c(0).state == NodeKind::Adsr(e).initial(),
        forall|k: int| 0 <= k < n ==> is_up(#[trigger] c(k)),
        attack_samples(e, c(0).rate()) >= 1,
        decay_samples(e, c(0).rate()) >= 1,
        attack_samples(e, c(0).rate()) + decay_samples(e, c(0).rate()) <= i < n,
    ensures
        NodeKind::Adsr(e).step(c(i), f).out == e.sustain_level,
{
    lemma_held(e, c, n, f, i);
    assert(c(i).sample_rate == c(0).sample_rate);
    assert(is_up(c(i)));
    lemma_held_step(e, c(i), i, f);
}

/// Where a released envelope is after so many samples.
spec fn released_at(s: AdsrState, i: int, release: int) -> bool {
    &&& !s.last_gate_high
    &&& 0 < i < release ==> s.phase == AdsrPhase::Release && s.elapsed_samples == i
    &&& release <= i ==> s.phase == AdsrPhase::Idle
}

/// Where a released envelope is at every sample after the first.
proof fn lemma_released(
    e: AdsrEnvelope,
    c: spec_fn(int) -> ContextView,
    n: int,
    f: spec_fn(Elementary, F32) -> F32,
    i: int,
)
    requires
        in_a_row(NodeKind::Adsr(e), c, n, f),
        c(0).state matches StateView::Adsr(s) && s.last_gate_high && s.phase != AdsrPhase::Idle
            && s.phase != AdsrPhase::Release,
        forall|k: int| 0 <= k < n ==> !is_up(#[trigger] c(k)),
        release_samples(e, c(0).rate()) >= 1,
        0 < i < n,
    ensures
        c(i).state is Adsr,
        released_at(c(i).state->Adsr_0, i, release_samples(e, c(0).rate())),
    decreases i,
{
    let before: ContextView = c(i - 1);
    if i > 1 {
        lemma_released(e, c, n, f, i - 1);
    }
    assert(before.sample_rate == c(0).sample_rate);
    assert(!is_up(before));
    let s: AdsrState = before.state->Adsr_0;
    let g: AdsrState = e.gated(s, false, before.rate());
    let t: AdsrState = e.aged(g, before.rate());
    assert(NodeKind::Adsr(e).step(before, f) == e.step(before, f));
    assert(e.step(before, f).after.state == StateView::Adsr(t));
    assert(c(i - 1 + 1).state == NodeKind::Adsr(e).step(c(i - 1), f).after.state);
}

/// An envelope whose `"gate"` signal falls in mid-note and stays down is at
/// rest once its release has passed: from there on it is zero.
pub proof fn law_released_envelopes_come_to_rest(
    e: AdsrEnvelope,
    c: spec_fn(int) -> ContextView,
    n: int,
    f: spec_fn(Elementary, F32) -> F32,
    i: int,
)
    requires
        in_a_row(NodeKind::Adsr(e), c, n, f),
        c(0).state matches StateView::Adsr(s) && s.last_gate_high && s.phase != AdsrPhase::Idle
            && s.phase != AdsrPhase::Release,
        forall|k: int| 0 <= k < n ==> !is_up(#[trigger] c(k)),
        release_samples(e, c(0).rate()) >= 1,
        release_samples(e, c(0).rate()) <= i < n,
    ensures
        NodeKind::Adsr(e).step(c(i), f).out == F32::of(0),
{
    lemma_released(e, c, n, f, i);
    assert(c(i).sample_rate == c(0).sample_rate);
    assert(!is_up(c(i)));
    assert(NodeKind::Adsr(e).step(c(i), f) == e.step(c(i), f));
}

/// What a node of a bake sees at a sample, but for its turn of the stream.
pub open spec fn seen(job: Job, id: NodeId, index: int, stream: Stream) -> ContextView {
    let n: NodeView = order::node_of(job.graph.nodes, id);
    ContextView {
        sample_rate: job.sample_rate,
        sample_index: index as u64,
        duration_samples: job.duration_samples,
        rng: stream,
        inputs: Seq::new(
            n.inputs.len(),
            |p: int|
                InputView {
                    port: n.inputs[p].name,
                    value: bake::port_sum(
                        n.inputs[p].connections,
                        job.samples_done(index + 1).outputs,
                    ),
                },
        ),
        state: job.samples_done(index).states[id],
        gate_samples: job.gate_samples,
    }
}

/// In a bake too: an envelope node whose `"gate"` port is up at every sample
/// puts out its sustain level once its attack and its decay have passed.
pub proof fn law_held_envelopes_sustain_in_a_bake(
    job: Job,
    id: NodeId,
    e: AdsrEnvelope,
    stream: Stream,
    i: int,
)
    requires
        order::is_order(job.graph.nodes, job.order),
        job.order.contains(id),
        order::node_of(job.graph.nodes, id).kind == NodeKind::Adsr(e),
        forall|k: int|
            0 <= k < job.duration_samples ==> is_up(#[trigger] seen(job, id, k, stream)),
        attack_samples(e, F32::from_u64(job.sample_rate as u64)) >= 1,
        decay_samples(e, F32::from_u64(job.sample_rate as u64)) >= 1,
        attack_samples(e, F32::from_u64(job.sample_rate as u64)) + decay_samples(
            e,
            F32::from_u64(job.sample_rate as u64),
        ) <= i < job.duration_samples,
    ensures
        job.samples_done(i + 1).outputs[id] == e.sustain_level,
{
    let kind: NodeKind = NodeKind::Adsr(e);
    let f: spec_fn(Elementary, F32) -> F32 = job.f;
    let n: int = job.duration_samples as int;
    let c: spec_fn(int) -> ContextView = |k: int| seen(job, id, k, stream);
    assert(c(0).rate() == F32::from_u64(job.sample_rate as u64));
    assert forall|k: int| 0 <= k < n && k + 1 < n implies c(k + 1).state == kind.step(
        #[trigger] c(k),
        f,
    ).after.state by {
        lemma_seen(job, id, e, stream, k);
    }
    assert forall|k: int| 0 <= k < n implies is_up(#[trigger] c(k)) by {
        assert(is_up(seen(job, id, k, stream)));
    }
    law_held_envelopes_reach_their_sustain(e, c, n, f, i);
    lemma_seen(job, id, e, stream, i);
}

/// What an envelope node of a bake leaves at a sample.
proof fn lemma_seen(job: Job, id: NodeId, e: AdsrEnvelope, stream: Stream, k: int)
    requires
        order::is_order(job.graph.nodes, job.order),
        job.order.contains(id),
        order::node_of(job.graph.nodes, id).kind == NodeKind::Adsr(e),
        0 <= k < job.duration_samples,
    ensures
        ({
            let s: Step = NodeKind::Adsr(e).step(seen(job, id, k, stream), job.f);
            &&& job.samples_done(k + 1).outputs[id] == s.out
            &&& job.samples_done(k + 1).states[id] == s.after.state
        }),
{
    let streams: Seq<Stream> = wiring::law_samples_evaluate_every_node(job, k);
    let m: int = choose|m: int| 0 <= m < job.order.len() && job.order[m] == id;
    let before: Frame = job.samples_done(k);
    let done: Frame = job.samples_done(k + 1);
    assert(wiring::evaluated(job, job.order[m], k, before, done, streams[m], streams[m + 1]));
    let a: ContextView = seen(job, id, k, stream);
    let b: ContextView = seen(job, id, k, streams[m]);
    assert(e.step(a, job.f).out == e.step(b, job.f).out);
    assert(e.step(a, job.f).after.state == e.step(b, job.f).after.state);
}

} // verus!
