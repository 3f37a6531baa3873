//! What lies inside an envelope can be baked: clamping comes first, and no
//! line that a node allocates is longer than memory can be.
use crate::arith::Parts;
use crate::bake;
use crate::chorus::Chorus;
use crate::constants::THOUSANDTH;
use crate::envelope;
use crate::envelope::{ClampToEnvelope, Envelope, MAX_DELAY_MS};
use crate::float::F32;
use crate::mixdown;
use crate::node::{Node, NodeKind};
use crate::numbers;
use crate::patch::{AudioPatch, NodeView, PatchView};
use crate::rounding;
use crate::rounding::Width;
use crate::sequence::{EventView, InstrumentView, RecipeView, SequenceRecipe};
use vstd::arithmetic::power2::*;
use vstd::prelude::*;

verus! {

/// Bits of `200.0`.
pub const TWO_HUNDRED: u32 = 0x4348_0000;

/// Bits of `0.25`.
pub const QUARTER: u32 = 0x3e80_0000;

/// A sample rate at which lines of a quarter of a second are not longer than
/// memory can be.
pub open spec fn affordable(sample_rate: u32) -> bool {
    sample_rate <= 2_000_000_000 || isize::MAX > 0x1_0000_0100
}

/// A number of at most `n` rounds up to at most `n`.
proof fn lemma_rounds_up_within(x: F32, n: int)
    requires
        x.is_finite(),
        0 <= numbers::value(x) <= n * numbers::scale(),
        0 <= n <= 0x4000_0000,
        exists|code: int|
            0 <= code < Width::Single.infinity() && #[trigger] rounding::units(Width::Single, code)
                == n * numbers::scale(),
    ensures
        x.ceil().to_usize() <= n,
{
    let w: Width = Width::Single;
    let p: Parts = x.parts();
    let u: int = numbers::scale();
    let top: int = choose|code: int|
        0 <= code < w.infinity() && #[trigger] rounding::units(w, code) == n * u;
    rounding::lemma_step(w);
    lemma_pow2_pos(149);
    assert(p.is_finite(w)) by {
        reveal(F32::spec_is_finite);
    }
    rounding::lemma_encode_exact(w, p.code as int);
    rounding::lemma_encode_exact(w, top);
    let size: int = p.size(w);
    assert(size == 0 || !p.neg);
    let whole: int = size / u;
    let rest: int = size % u;
    vstd::arithmetic::div_mod::lemma_fundamental_div_mod(size, u);
    vstd::arithmetic::div_mod::lemma_mod_bound(size, u);
    vstd::arithmetic::div_mod::lemma_div_pos_is_pos(size, u);
    let up: int = if !p.neg && rest != 0 {
        whole + 1
    } else {
        whole
    };
    assert(0 <= up <= n && up * u <= n * u && 0 <= up * u) by (nonlinear_arith)
        requires
            size == u * whole + rest,
            0 <= rest < u,
            0 <= size <= n * u,
            u > 0,
            0 <= whole,
            up == whole || (up == whole + 1 && rest > 0),
    ;
    rounding::lemma_encode_monotone(w, up * u, 1, n * u, 1);
    rounding::lemma_encode_range(w, up * u, 1);
    let code: int = rounding::encode(w, up * u, 1);
    assert(x.ceil().parts() == (Parts { neg: p.neg, code: code as u64 })) by {
        reveal(F32::spec_ceil);
    }
    rounding::lemma_encode_exact(w, code);
    if code < top {
        rounding::lemma_units_order(w, code, top);
    }
    let after: int = rounding::units(w, code);
    assert(after / u <= n) by (nonlinear_arith)
        requires
            0 <= after <= n * u,
            u > 0,
    ;
    vstd::arithmetic::div_mod::lemma_div_pos_is_pos(after, u);
    reveal(F32::spec_to_usize);
    reveal(F32::spec_to_u64);
}

/// A chorus whose delays are inside the envelope allocates a line of at most
/// a quarter of a second.
proof fn lemma_chorus_fits(e: Chorus, sample_rate: u32)
    requires
        envelope::within(e.depth_ms, F32::of(0), F32::of(MAX_DELAY_MS)),
        envelope::within(e.base_delay_ms, F32::of(0), F32::of(MAX_DELAY_MS)),
        affordable(sample_rate),
    ensures
        e.fits(sample_rate),
{
    let zero: F32 = F32::of(0);
    let most: F32 = F32::of(MAX_DELAY_MS);
    let both: F32 = F32::of(TWO_HUNDRED);
    let milli: F32 = F32::of(THOUSANDTH);
    let quarter: F32 = F32::of(QUARTER);
    let rate: F32 = F32::from_u64(sample_rate as u64);
    let u: int = numbers::scale();
    numbers::lemma_zero_one();
    numbers::lemma_value_of(MAX_DELAY_MS, 0xc8_0000, 132);
    numbers::lemma_value_of(TWO_HUNDRED, 0xc8_0000, 133);
    numbers::lemma_value_of(THOUSANDTH, 0x83_126f, 116);
    numbers::lemma_value_of(QUARTER, 0x80_0000, 124);
    lemma_pow2_adds(16, 116);
    lemma_pow2_adds(17, 116);
    lemma_pow2_adds(8, 116);
    lemma_pow2_adds(33, 116);
    lemma_pow2_pos(116);
    lemma2_to64();
    lemma2_to64_rest();
    let h: int = pow2(116) as int;
    numbers::lemma_value_order(zero, e.depth_ms);
    numbers::lemma_value_order(e.depth_ms, most);
    numbers::lemma_value_order(zero, e.base_delay_ms);
    numbers::lemma_value_order(e.base_delay_ms, most);
    numbers::lemma_plus_between(e.base_delay_ms, e.depth_ms, zero, both);
    let sum: F32 = e.base_delay_ms.plus(e.depth_ms);
    numbers::lemma_value_order(zero, zero);
    numbers::lemma_max_of_larger(sum, zero);
    let longest: F32 = sum.max(zero);
    numbers::lemma_between_finite(sum, longest, sum);
    numbers::lemma_value_order(longest, sum);
    numbers::lemma_value_order(sum, longest);
    numbers::lemma_value_order(zero, sum);
    numbers::lemma_value_order(sum, both);
    let v: int = numbers::value(longest);
    let m: int = numbers::value(milli);
    let q: int = numbers::value(quarter);
    assert(0 * u <= v * m <= q * u) by (nonlinear_arith)
        requires
            0 <= v <= 0xc8_0000 * (0x2_0000 * h),
            m == 0x83_126f * h,
            q == 0x80_0000 * (0x100 * h),
            u == 0x2_0000_0000 * h,
            h > 0,
    ;
    numbers::lemma_times_between(longest, milli, zero, quarter);
    let seconds: F32 = longest.times(milli);
    numbers::lemma_value_order(zero, seconds);
    numbers::lemma_value_order(seconds, quarter);
    // the rate
    numbers::lemma_from_u64_finite(sample_rate as u64);
    numbers::lemma_from_u64_not_negative(sample_rate as u64);
    numbers::lemma_value_order(zero, rate);
    let (cap, n): (u64, int) = if sample_rate <= 2_000_000_000 {
        (2_000_000_000, 500_000_000)
    } else {
        (0x1_0000_0000, 0x4000_0000)
    };
    numbers::lemma_from_u64_order(sample_rate as u64, cap);
    lemma_cap(sample_rate <= 2_000_000_000);
    numbers::lemma_value_order(rate, F32::from_u64(cap));
    let hi: F32 = F32::from_u64(n as u64);
    let r: int = numbers::value(rate);
    let s: int = numbers::value(seconds);
    assert(0 * u <= s * r <= (n * u) * u) by (nonlinear_arith)
        requires
            0 <= s <= q,
            0 <= r <= cap * u,
            4 * q == u,
            cap == 4 * n,
            u > 0,
    ;
    numbers::lemma_times_between(seconds, rate, zero, hi);
    let x: F32 = seconds.times(rate);
    numbers::lemma_value_order(zero, x);
    numbers::lemma_value_order(x, hi);
    lemma_rounds_up_within(x, n);
}

/// The numbers of the caps on the rate and on the length are exact.
proof fn lemma_cap(small: bool)
    ensures
        ({
            let (cap, n): (u64, int) = if small {
                (2_000_000_000u64, 500_000_000int)
            } else {
                (0x1_0000_0000u64, 0x4000_0000int)
            };
            &&& F32::from_u64(cap).is_finite()
            &&& numbers::value(F32::from_u64(cap)) == cap * numbers::scale()
            &&& F32::from_u64(n as u64).is_finite()
            &&& numbers::value(F32::from_u64(n as u64)) == n * numbers::scale()
            &&& exists|code: int|
                0 <= code < Width::Single.infinity() && #[trigger] rounding::units(
                    Width::Single,
                    code,
                ) == n * numbers::scale()
        }),
{
    let w: Width = Width::Single;
    let u: int = numbers::scale();
    rounding::lemma_step(w);
    lemma2_to64();
    lemma2_to64_rest();
    lemma_pow2_pos(149);
    reveal(F32::spec_from_u64);
    reveal(F32::spec_is_finite);
    if small {
        // 1953125 times two to the tenth and to the eighth
        let a: int = numbers::lemma_representable(w, 1_953_125, 159);
        let b: int = numbers::lemma_representable(w, 1_953_125, 157);
        lemma_pow2_adds(10, 149);
        lemma_pow2_adds(8, 149);
        assert(1_953_125 * pow2(159) == 2_000_000_000 * u);
        assert(1_953_125 * pow2(157) == 500_000_000 * u);
        rounding::lemma_encode_exact(w, a);
        rounding::lemma_encode_exact(w, b);
        assert(rounding::units(w, b) == 500_000_000 * u);
    } else {
        let a: int = numbers::lemma_representable(w, 1, 181);
        let b: int = numbers::lemma_representable(w, 1, 179);
        lemma_pow2_adds(32, 149);
        lemma_pow2_adds(30, 149);
        assert(1 * pow2(181) == 0x1_0000_0000 * u);
        assert(1 * pow2(179) == 0x4000_0000 * u);
        rounding::lemma_encode_exact(w, a);
        rounding::lemma_encode_exact(w, b);
        assert(rounding::units(w, b) == 0x4000_0000 * u);
    }
}

/// A node inside the envelope allocates no line longer than memory can be.
proof fn lemma_kind_fits(kind: NodeKind, limits: Envelope, sample_rate: u32)
    requires
        NodeKind::inside(kind, limits),
        affordable(sample_rate),
    ensures
        kind.fits(sample_rate),
{
    match kind {
        NodeKind::Chorus(e) => {
            lemma_chorus_fits(e, sample_rate);
        },
        _ => {},
    }
}

/// A patch inside an envelope can be baked, at every sample rate at which its
/// lines are not longer than memory can be.
pub proof fn law_patches_inside_can_be_baked(
    patch: PatchView,
    limits: Envelope,
    sample_rate: u32,
    duration_samples: u64,
)
    requires
        AudioPatch::inside(patch, limits),
        affordable(sample_rate),
    ensures
        bake::bakeable(patch, sample_rate, duration_samples),
{
    assert forall|i: int| 0 <= i < patch.graph.nodes.len() implies (
    #[trigger] patch.graph.nodes[i]).kind.fits(sample_rate) by {
        assert(envelope::node_inside(patch.graph.nodes[i], limits));
        lemma_kind_fits(patch.graph.nodes[i].kind, limits, sample_rate);
    }
}

/// The instrument that an event names is one of the instruments.
proof fn lemma_instrument_of(instruments: Seq<InstrumentView>, id: Seq<char>)
    ensures
        mixdown::instrument_of(instruments, id) matches Some(p) ==> exists|i: int|
            0 <= i < instruments.len() && (#[trigger] instruments[i]).patch == p,
    decreases instruments.len(),
{
    if instruments.len() > 0 {
        let front: Seq<InstrumentView> = instruments.drop_last();
        lemma_instrument_of(front, id);
        if instruments.last().id == id {
            assert(instruments[instruments.len() - 1].patch == instruments.last().patch);
        } else {
            match mixdown::instrument_of(front, id) {
                Some(p) => {
                    let i: int = choose|i: int|
                        0 <= i < front.len() && (#[trigger] front[i]).patch == p;
                    assert(instruments[i].patch == p);
                },
                None => {},
            }
        }
    }
}

/// A recipe inside an envelope can be mixed down.
pub proof fn law_recipes_inside_can_be_mixed(recipe: RecipeView, limits: Envelope)
    requires
        SequenceRecipe::inside(recipe, limits),
    ensures
        mixdown::mixable(recipe),
{
    assert forall|t: int, e: int|
        0 <= t < recipe.tracks.len() && 0 <= e < recipe.tracks[t].events.len()
            && mixdown::master_len(recipe) > 0 implies mixdown::event_bakeable(
        recipe,
        #[trigger] recipe.tracks[t].events[e],
    ) by {
        let event: EventView = recipe.tracks[t].events[e];
        lemma_instrument_of(recipe.instruments, event.instrument_id);
        match mixdown::instrument_of(recipe.instruments, event.instrument_id) {
            Some(p) => {
                let i: int = choose|i: int|
                    0 <= i < recipe.instruments.len() && (
                    #[trigger] recipe.instruments[i]).patch == p;
                assert(envelope::instrument_inside(recipe.instruments[i], limits));
                lemma_retuned_fits(p, event.pitch_multiplier, limits, recipe.sample_rate);
                law_patches_inside_can_be_baked(
                    p,
                    limits,
                    recipe.sample_rate,
                    mixdown::total_samples(recipe, event),
                );
            },
            None => {},
        }
    }
}

/// Retuning changes no line.
proof fn lemma_retuned_fits(patch: PatchView, mult: F32, limits: Envelope, sample_rate: u32)
    requires
        AudioPatch::inside(patch, limits),
        affordable(sample_rate),
    ensures
        bake::fits(mixdown::retuned(patch, mult), sample_rate),
{
    let turned: PatchView = mixdown::retuned(patch, mult);
    assert forall|i: int| 0 <= i < turned.graph.nodes.len() implies (
    #[trigger] turned.graph.nodes[i]).kind.fits(sample_rate) by {
        let node: NodeView = patch.graph.nodes[i];
        assert(envelope::node_inside(node, limits));
        lemma_kind_fits(node.kind, limits, sample_rate);
        assert(turned.graph.nodes[i].kind == node.kind.retuned(mult));
    }
}

} // verus!
