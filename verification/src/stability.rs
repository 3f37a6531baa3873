//! Chorus and reverb are stable: a signal between minus one and one keeps
//! their lines, and so what they yield, bounded for ever.
use crate::arith::Parts;
use crate::chorus::{Chorus, ChorusView, MAX_FEEDBACK};
use crate::constants::{MINUS_ONE, ONE, THOUSANDTH, TWO_PI};
use crate::elementary::Elementary;
use crate::envelope;
use crate::float::F32;
use crate::node::{ContextView, Node, StateView};
use crate::numbers;
use crate::reverb;
use crate::reverb::{
    AllpassView, CombView, Reverb, ReverbView, ALLPASS_FEEDBACK, DAMP_SCALE, FIXED_GAIN, MAX_ROOM,
};
use crate::rounding;
use crate::rounding::Width;
use vstd::arithmetic::power2::*;
use vstd::prelude::*;

verus! {

/// A finite number of magnitude at most `n`.
pub open spec fn at_most(x: F32, n: int) -> bool {
    x.is_finite() && -n * numbers::scale() <= numbers::value(x) <= n * numbers::scale()
}

/// Two to the power `k`.
spec fn power(k: nat) -> F32 {
    F32::of((0x3f80_0000 + k * 0x80_0000) as u32)
}

proof fn lemma_power(k: nat)
    requires
        k <= 100,
    ensures
        power(k).is_finite(),
        numbers::value(power(k)) == pow2(k) * numbers::scale(),
        numbers::value(power(k).negated()) == -(pow2(k) * numbers::scale()),
        power(k).negated().is_finite(),
        at_most(power(k), pow2(k) as int),
{
    let bits: u32 = (0x3f80_0000 + k * 0x80_0000) as u32;
    numbers::lemma_value_of(bits, 0x80_0000, (126 + k) as nat);
    lemma_pow2_adds(23, (126 + k) as nat);
    lemma_pow2_adds(k, 149);
    lemma2_to64();
    numbers::lemma_negated(power(k));
    lemma_pow2_pos(k);
    lemma_pow2_pos(149);
    assert(-pow2(k) * numbers::scale() == -(pow2(k) * numbers::scale())) by (nonlinear_arith);
    vstd::arithmetic::mul::lemma_mul_nonnegative(pow2(k) as int, numbers::scale());
}

/// A number between two bounds of the same size.
proof fn lemma_between(x: F32, k: nat)
    requires
        k <= 100,
        power(k).negated().le(x),
        x.le(power(k)),
    ensures
        at_most(x, pow2(k) as int),
{
    lemma_power(k);
    numbers::lemma_between_finite(power(k).negated(), x, power(k));
    numbers::lemma_value_order(power(k).negated(), x);
    numbers::lemma_value_order(x, power(k));
    assert(-pow2(k) * numbers::scale() == -(pow2(k) * numbers::scale())) by (nonlinear_arith);
}

/// A larger bound holds too.
proof fn lemma_at_most_widens(x: F32, m: int, n: int)
    requires
        at_most(x, m),
        m <= n,
    ensures
        at_most(x, n),
{
    numbers::lemma_zero_one();
    assert(m * numbers::scale() <= n * numbers::scale() && -n * numbers::scale() <= -m
        * numbers::scale()) by (nonlinear_arith)
        requires
            m <= n,
            numbers::scale() > 0,
    ;
}

/// The encoding of a power of two and half a step of it is that of the power.
proof fn lemma_just_over(k: nat)
    requires
        k <= 100,
    ensures
        rounding::encode(Width::Single, (pow2(149 + k) + pow2(125 + k)) as int, 1) == 0x3f80_0000
            + k * 0x80_0000,
{
    let w: Width = Width::Single;
    let num: int = (pow2(149 + k) + pow2(125 + k)) as int;
    rounding::lemma_step(w);
    lemma_pow2_pos(125 + k);
    lemma_pow2_adds(24, 125 + k);
    lemma_pow2_adds(23, 126 + k);
    lemma_pow2_unfold(126 + k);
    lemma_pow2_unfold(150 + k);
    lemma2_to64();
    rounding::lemma_binade(num, 1, 24, 126 + k);
    let den: int = pow2(126 + k) as int;
    vstd::arithmetic::div_mod::lemma_fundamental_div_mod_converse(
        num,
        den,
        0x80_0000,
        pow2(125 + k) as int,
    );
    vstd::arithmetic::mul::lemma_mul_basics_4(den);
}

/// A sum that is beyond a power of two by no more than half a step is
/// rounded to at most the power.
proof fn lemma_plus_within(x: F32, y: F32, k: nat)
    requires
        k <= 100,
        x.is_finite(),
        y.is_finite(),
        -(pow2(149 + k) + pow2(125 + k)) <= numbers::value(x) + numbers::value(y) <= pow2(149 + k)
            + pow2(125 + k),
    ensures
        at_most(x.plus(y), pow2(k) as int),
{
    let w: Width = Width::Single;
    let total: int = numbers::value(x) + numbers::value(y);
    let most: int = (pow2(149 + k) + pow2(125 + k)) as int;
    rounding::lemma_step(w);
    lemma_just_over(k);
    lemma_pow2_pos(125 + k);
    lemma_pow2_pos(149 + k);
    assert(power(k).negated().le(x.plus(y)) && x.plus(y).le(power(k))) by {
        reveal(F32::spec_plus);
        reveal(F32::spec_negated);
        reveal(F32::spec_is_finite);
        reveal(F32::spec_le);
        reveal(F32::spec_lt);
        reveal(F32::spec_same);
        if total > 0 {
            rounding::lemma_encode_monotone(w, total, 1, most, 1);
            rounding::lemma_encode_range(w, total, 1);
        } else if total < 0 {
            rounding::lemma_encode_monotone(w, -total, 1, most, 1);
            rounding::lemma_encode_range(w, -total, 1);
        }
    }
    lemma_between(x.plus(y), k);
}

/// A number between zero and two, times a power of two, is a number.
proof fn lemma_scaled_up(x: F32, k: nat) -> (y: F32)
    requires
        k <= 64,
        x.is_finite(),
        0 <= numbers::value(x) <= 2 * numbers::scale(),
    ensures
        y.is_finite(),
        numbers::value(y) == numbers::value(x) * pow2(k),
{
    let w: Width = Width::Single;
    let p: Parts = x.parts();
    let code: int = p.code as int;
    rounding::lemma_step(w);
    reveal(F32::spec_is_finite);
    rounding::lemma_units_parts(w, code);
    lemma2_to64();
    lemma_pow2_adds(1, 149);
    let (sig, exp): (int, nat) = if code < w.step() {
        (code, 0)
    } else {
        (w.step() + code % w.step(), (code / w.step() - 1) as nat)
    };
    let size: int = p.size(w);
    assert(size == sig * pow2(exp)) by (nonlinear_arith)
        requires
            code < w.step() ==> sig == code && pow2(exp) == 1 && size == code,
            code >= w.step() ==> size == sig * pow2(exp),
    ;
    if p.neg {
        rounding::lemma_encode_exact(w, code);
    }
    assert(numbers::value(x) == size || size == 0);
    assert(exp <= 150) by {
        if exp > 150 {
            rounding::lemma_pow2_increases(151, exp);
            lemma_pow2_adds(2, 149);
            assert(size > 2 * numbers::scale()) by (nonlinear_arith)
                requires
                    size == sig * pow2(exp),
                    sig >= w.step(),
                    w.step() >= 1,
                    pow2(exp) >= 4 * numbers::scale(),
                    numbers::scale() > 0,
            ;
        }
    }
    lemma_pow2_adds(exp, k);
    let up: int = numbers::lemma_representable(w, sig, exp + k);
    let y: F32 = F32::of(up as u32);
    assert(sig * pow2(exp + k) == size * pow2(k)) by (nonlinear_arith)
        requires
            size == sig * pow2(exp),
            pow2(exp + k) == pow2(exp) * pow2(k),
    ;
    if p.neg {
        assert(numbers::value(x) == 0);
        assert(size == 0);
        assert(size * pow2(k) == 0 && numbers::value(x) * pow2(k) == 0) by (nonlinear_arith)
            requires
                size == 0,
                numbers::value(x) == 0,
        ;
    }
    y
}

/// Blends of numbers of magnitude at most a power of two are no larger.
pub proof fn lemma_blend(a: F32, b: F32, mix: F32, k: nat)
    requires
        k <= 64,
        mix.is_finite(),
        0 <= numbers::value(mix) <= numbers::scale(),
        at_most(a, pow2(k) as int),
        at_most(b, pow2(k) as int),
    ensures
        at_most(a.times(F32::of(ONE).minus(mix)).plus(b.times(mix)), pow2(k) as int),
{
    let one: F32 = F32::of(ONE);
    let rest: F32 = one.minus(mix);
    let u: int = numbers::scale();
    let n: int = pow2(k) as int;
    numbers::lemma_zero_one();
    numbers::lemma_complement(mix);
    numbers::lemma_minus_between(one, mix, F32::of(0), one);
    numbers::lemma_value_order(rest, one);
    let p: F32 = a.times(rest);
    let q: F32 = b.times(mix);
    lemma_part(a, rest, k);
    lemma_part(b, mix, k);
    let r: int = numbers::value(rest);
    let m: int = numbers::value(mix);
    lemma_pow2_adds(k, 149);
    lemma_pow2_adds(k, 125);
    lemma_pow2_pos(k);
    assert(n * r + n * m <= n * u + n * pow2(125)) by (nonlinear_arith)
        requires
            r + m <= u + pow2(125),
            n > 0,
    ;
    lemma_plus_within(p, q, k);
}

/// A part of a number of magnitude at most a power of two is at most that
/// part of the power.
proof fn lemma_part(a: F32, share: F32, k: nat)
    requires
        k <= 64,
        share.is_finite(),
        0 <= numbers::value(share) <= numbers::scale(),
        at_most(a, pow2(k) as int),
    ensures
        a.times(share).is_finite(),
        -(pow2(k) * numbers::value(share)) <= numbers::value(a.times(share)) <= pow2(k)
            * numbers::value(share),
{
    let hi: F32 = lemma_scaled_up(share, k);
    let u: int = numbers::scale();
    let n: int = pow2(k) as int;
    let s: int = numbers::value(share);
    let v: int = numbers::value(a);
    numbers::lemma_zero_one();
    numbers::lemma_negated(hi);
    lemma_pow2_pos(k);
    assert(-(s * n) * u <= v * s <= (s * n) * u && s * n == n * s) by (nonlinear_arith)
        requires
            0 <= s,
            -n * u <= v <= n * u,
    ;
    numbers::lemma_times_between(a, share, hi.negated(), hi);
    numbers::lemma_value_order(hi.negated(), a.times(share));
    numbers::lemma_value_order(a.times(share), hi);
}

/// Bits of `63.0`.
pub const SIXTY_THREE: u32 = 0x427c_0000;

/// What is fed back into a line of magnitude at most 64, together with an
/// input of at most one, is at most 64 again.
proof fn lemma_fed_back(x: F32, held: F32, feedback: F32)
    requires
        at_most(x, 1),
        at_most(held, 64),
        envelope::within(feedback, F32::of(0), F32::of(MAX_ROOM)),
    ensures
        at_most(x.plus(held.times(feedback)), 64),
{
    let hi: F32 = F32::of(SIXTY_THREE);
    let u: int = numbers::scale();
    numbers::lemma_zero_one();
    numbers::lemma_value_of(MAX_ROOM, 0xfa_e148, 125);
    numbers::lemma_value_of(SIXTY_THREE, 0xfc_0000, 131);
    lemma_pow2_adds(18, 131);
    lemma_pow2_adds(24, 125);
    lemma_pow2_adds(6, 125);
    lemma_pow2_pos(125);
    lemma2_to64();
    let h: int = pow2(125) as int;
    assert(numbers::value(hi) == 63 * u);
    numbers::lemma_negated(hi);
    numbers::lemma_value_order(F32::of(0), feedback);
    numbers::lemma_value_order(feedback, F32::of(MAX_ROOM));
    let f: int = numbers::value(feedback);
    let v: int = numbers::value(held);
    assert(-(63 * u) * u <= v * f <= (63 * u) * u) by (nonlinear_arith)
        requires
            0 <= f <= 0xfa_e148 * h,
            -64 * u <= v <= 64 * u,
            u == 0x100_0000 * h,
            h > 0,
    ;
    numbers::lemma_times_between(held, feedback, hi.negated(), hi);
    let p: F32 = held.times(feedback);
    numbers::lemma_value_order(hi.negated(), p);
    numbers::lemma_value_order(p, hi);
    lemma_power(6);
    numbers::lemma_plus_between(x, p, power(6).negated(), power(6));
    lemma_between(x.plus(p), 6);
}

/// The order of factors does not matter.
pub proof fn lemma_times_commutes(x: F32, y: F32)
    ensures
        x.times(y) == y.times(x),
{
    reveal(F32::spec_times);
    let w: Width = Width::Single;
    vstd::arithmetic::mul::lemma_mul_is_commutative(x.parts().size(w), y.parts().size(w));
}

/// The parts of what is left after whole lengths are taken away: its
/// encoding is at most that of the length.
#[verifier::rlimit(40)]
proof fn lemma_left_over_parts(a: Parts, b: Parts)
    requires
        a.is_finite(Width::Single),
        b.is_finite(Width::Single),
        b.code > 0,
        b.size(Width::Single) > 0,
    ensures
        ({
            let r: Parts = Parts::remainder(Width::Single, a, b);
            &&& r.neg == a.neg
            &&& r.code <= b.code
        }),
{
    let w: Width = Width::Single;
    rounding::lemma_step(w);
    rounding::lemma_encode_exact(w, a.code as int);
    rounding::lemma_encode_exact(w, b.code as int);
    let left: int = a.size(w) % b.size(w);
    vstd::arithmetic::div_mod::lemma_mod_bound(a.size(w), b.size(w));
    rounding::lemma_encode_monotone(w, left, 1, b.size(w), 1);
    rounding::lemma_encode_range(w, left, 1);
}

/// What is left after whole lengths are taken away is no longer than one.
#[verifier::rlimit(40)]
proof fn lemma_left_over(x: F32, length: F32)
    requires
        x.is_finite(),
        length.is_finite(),
        numbers::value(length) > 0,
    ensures
        x.modulo(length).is_finite(),
        -numbers::value(length) <= numbers::value(x.modulo(length)) <= numbers::value(length),
{
    let w: Width = Width::Single;
    let a: Parts = x.parts();
    let b: Parts = length.parts();
    rounding::lemma_step(w);
    assert(a.is_finite(w) && b.is_finite(w)) by {
        reveal(F32::spec_is_finite);
    }
    rounding::lemma_encode_exact(w, b.code as int);
    assert(!b.neg && b.code > 0) by {
        if b.code == 0 {
            assert(rounding::units(w, 0) == 0);
        }
    }
    lemma_left_over_parts(a, b);
    let p: Parts = Parts::remainder(w, a, b);
    let r: F32 = x.modulo(length);
    assert(r.parts() == p) by {
        reveal(F32::spec_modulo);
    }
    assert(r.is_finite()) by {
        reveal(F32::spec_is_finite);
    }
    rounding::lemma_encode_exact(w, p.code as int);
    if p.code < b.code {
        rounding::lemma_units_order(w, p.code as int, b.code as int);
    }
}

/// What is left after whole lengths of a ring are taken away lies on the
/// ring.
proof fn lemma_on_the_ring(x: F32, length: F32)
    requires
        x.is_finite(),
        length.is_finite(),
        numbers::value(length) > 0,
    ensures
        x.rem_euclid(length).is_finite(),
        0 <= numbers::value(x.rem_euclid(length)) <= numbers::value(length),
{
    let r: F32 = x.modulo(length);
    let zero: F32 = F32::of(0);
    lemma_left_over(x, length);
    numbers::lemma_zero_one();
    numbers::lemma_value_order(r, zero);
    numbers::lemma_magnitude(length);
    if r.lt(zero) {
        numbers::lemma_plus_between(r, length.magnitude(), zero, length);
        numbers::lemma_value_order(zero, r.plus(length.magnitude()));
        numbers::lemma_value_order(r.plus(length.magnitude()), length);
    }
    reveal(F32::spec_rem_euclid);
}

/// The fraction of a number that is not negative lies between zero and one.
proof fn lemma_fraction(x: F32)
    requires
        x.is_finite(),
        0 <= numbers::value(x),
    ensures
        x.minus(x.floor()).is_finite(),
        0 <= numbers::value(x.minus(x.floor())) <= numbers::scale(),
{
    let w: Width = Width::Single;
    let p: Parts = x.parts();
    let code: int = p.code as int;
    let u: int = numbers::scale();
    rounding::lemma_step(w);
    assert(p.is_finite(w)) by {
        reveal(F32::spec_is_finite);
    }
    numbers::lemma_zero_one();
    rounding::lemma_encode_exact(w, code);
    rounding::lemma_units_parts(w, code);
    lemma2_to64();
    let size: int = p.size(w);
    let whole: int = size / u;
    vstd::arithmetic::div_mod::lemma_fundamental_div_mod(size, u);
    vstd::arithmetic::div_mod::lemma_mod_bound(size, u);
    vstd::arithmetic::mul::lemma_mul_is_commutative(u, whole);
    vstd::arithmetic::div_mod::lemma_div_pos_is_pos(size, u);
    let (sig, exp): (int, nat) = if code < w.step() {
        (code, 0)
    } else {
        (w.step() + code % w.step(), (code / w.step() - 1) as nat)
    };
    assert(size == sig * pow2(exp)) by (nonlinear_arith)
        requires
            code < w.step() ==> sig == code && pow2(exp) == 1 && size == code,
            code >= w.step() ==> size == sig * pow2(exp),
    ;
    if p.neg {
        assert(size == 0);
    }
    let floor_code: int = if exp >= 149 {
        lemma_pow2_adds((exp - 149) as nat, 149);
        let times: int = sig * pow2((exp - 149) as nat);
        assert(size == times * u) by (nonlinear_arith)
            requires
                size == sig * pow2(exp),
                pow2(exp) == pow2((exp - 149) as nat) * u,
                times == sig * pow2((exp - 149) as nat),
        ;
        vstd::arithmetic::div_mod::lemma_fundamental_div_mod_converse(size, u, times, 0);
        code
    } else {
        rounding::lemma_pow2_increases(exp, 149);
        assert(whole < 0x100_0000) by (nonlinear_arith)
            requires
                size == u * whole + size % u,
                0 <= size % u,
                size == sig * pow2(exp),
                0 <= sig < 0x100_0000,
                1 <= pow2(exp) <= u,
                u > 0,
        ;
        numbers::lemma_representable(w, whole, 149)
    };
    rounding::lemma_encode_exact(w, floor_code);
    assert(x.floor().is_finite() && numbers::value(x.floor()) == (if p.neg {
        -(whole * u)
    } else {
        whole * u
    })) by {
        reveal(F32::spec_floor);
        reveal(F32::spec_is_finite);
        if p.neg {
            vstd::arithmetic::div_mod::lemma_small_mod(0, u as nat);
        }
    }
    if p.neg {
        vstd::arithmetic::div_mod::lemma_div_basics_1(u);
        assert(whole * u == 0) by (nonlinear_arith)
            requires
                whole == 0,
        ;
    }
    numbers::lemma_minus_between(x, x.floor(), F32::of(0), F32::of(ONE));
    let frac: F32 = x.minus(x.floor());
    numbers::lemma_value_order(F32::of(0), frac);
    numbers::lemma_value_order(frac, F32::of(ONE));
}

/// A line of a chorus: its cursor inside it, nothing on it larger than 64.
pub open spec fn calm_line(line: ChorusView) -> bool {
    &&& line.sound()
    &&& forall|i: int| 0 <= i < line.buf.len() ==> at_most(#[trigger] line.buf[i], 64)
}

/// Where a calm line is read, nothing larger than 64 is read.
proof fn lemma_delayed(e: Chorus, line: ChorusView, lfo: F32, sample_rate: u32)
    requires
        calm_line(line),
        line.buf.len() > 0,
        sample_rate > 0,
    ensures
        at_most(e.delayed(line, lfo, F32::from_u64(sample_rate as u64)), 64),
{
    let rate: F32 = F32::from_u64(sample_rate as u64);
    let len: usize = line.buf.len() as usize;
    let zero: F32 = F32::of(0);
    let last: F32 = F32::from_usize((len - 1) as usize);
    let total: F32 = F32::from_usize(len);
    let write: F32 = F32::from_usize(line.write as usize);
    numbers::lemma_zero_one();
    numbers::lemma_value_order(zero, zero);
    numbers::lemma_from_u64_finite((len - 1) as u64);
    numbers::lemma_from_u64_finite(len as u64);
    numbers::lemma_from_u64_finite(line.write as u64);
    numbers::lemma_from_u64_finite(sample_rate as u64);
    numbers::lemma_from_u64_not_negative((len - 1) as u64);
    numbers::lemma_from_u64_not_negative(line.write as u64);
    numbers::lemma_from_u64_order(1, sample_rate as u64);
    numbers::lemma_from_u64_order(1, len as u64);
    let raw: F32 = e.base_delay_ms.plus(e.depth_ms.times(lfo)).max(zero);
    numbers::lemma_max_above(e.base_delay_ms.plus(e.depth_ms.times(lfo)), zero);
    numbers::lemma_order(zero, raw, raw);
    numbers::lemma_number_times(raw, THOUSANDTH);
    let seconds: F32 = raw.times(F32::of(THOUSANDTH));
    numbers::lemma_positive_times(rate, seconds, ONE);
    lemma_times_commutes(rate, seconds);
    envelope::lemma_clamp_within(seconds.times(rate), zero, last);
    let delay: F32 = e.delay(lfo, rate, len);
    numbers::lemma_value_order(zero, delay);
    numbers::lemma_value_order(delay, last);
    numbers::lemma_value_order(zero, write);
    numbers::lemma_negated(last);
    numbers::lemma_minus_between(write, delay, last.negated(), write);
    numbers::lemma_value_order(F32::of(ONE), total);
    lemma_on_the_ring(write.minus(delay), total);
    let position: F32 = e.read_position(line.write as usize, delay, len);
    lemma_fraction(position);
    let n: int = line.buf.len() as int;
    let low: int = position.floor().to_usize() as int % n;
    vstd::arithmetic::div_mod::lemma_mod_bound(position.floor().to_usize() as int, n);
    vstd::arithmetic::div_mod::lemma_mod_bound(low + 1, n);
    let high: int = (low + 1) % n;
    lemma2_to64();
    lemma_blend(line.buf[low], line.buf[high], position.minus(position.floor()), 6);
}

/// A chorus starts calm, and where its input lies between minus one and one
/// it stays calm and yields nothing larger than 64, whatever its feedback.
pub proof fn law_chorus_stays_bounded(
    e: Chorus,
    c: ContextView,
    f: spec_fn(Elementary, F32) -> F32,
)
    requires
        c.sample_rate > 0,
        e.fits(c.sample_rate),
        !e.feedback.is_nan(),
        !e.mix.is_nan(),
        at_most(c.input("in"@), 1),
        c.state matches StateView::Chorus(s) && calm_line(s),
    ensures
        at_most(e.step(c, f).out, 64),
        e.step(c, f).after.state matches StateView::Chorus(s) && calm_line(s),
        e.initial() matches StateView::Chorus(s) && calm_line(s),
{
    let s: ChorusView = c.state->Chorus_0;
    let x: F32 = c.input("in"@);
    let line: ChorusView = s.sized(e.line_length(c.rate()));
    let lfo: F32 = f(Elementary::Sin, F32::of(TWO_PI).times(line.phase));
    let delayed: F32 = e.delayed(line, lfo, c.rate());
    numbers::lemma_zero_one();
    assert(at_most(F32::of(0), 64));
    assert(calm_line(line));
    lemma_delayed(e, line, lfo, c.sample_rate);
    envelope::lemma_rank(0, MAX_FEEDBACK);
    envelope::lemma_rank(MAX_FEEDBACK, MAX_ROOM);
    envelope::lemma_clamp_within(e.feedback, F32::of(0), F32::of(MAX_FEEDBACK));
    let feedback: F32 = e.feedback.clamp(F32::of(0), F32::of(MAX_FEEDBACK));
    numbers::lemma_order(feedback, F32::of(MAX_FEEDBACK), F32::of(MAX_ROOM));
    lemma_fed_back(x, delayed, feedback);
    let after: ChorusView = e.written(line, x, delayed, c.rate());
    vstd::arithmetic::div_mod::lemma_mod_bound(line.write + 1, line.buf.len() as int);
    assert(calm_line(after));
    numbers::lemma_clamp_unit(e.mix);
    lemma_at_most_widens(x, 1, 64);
    lemma2_to64();
    lemma_blend(x, delayed, e.mix.clamp(F32::of(0), F32::of(ONE)), 6);
}

/// A comb: its cursor inside its line, nothing in it larger than 64.
pub open spec fn calm_comb(c: CombView) -> bool {
    &&& c.sound()
    &&& at_most(c.filter_store, 64)
    &&& forall|i: int| 0 <= i < c.buf.len() ==> at_most(#[trigger] c.buf[i], 64)
}

/// How large a signal is allowed to be before the `i`th allpass.
pub open spec fn chain_bound(i: nat) -> int {
    pow2(9 + 2 * i) as int
}

/// An allpass of the chain: its cursor inside its line, nothing on its line
/// larger than twice what it is fed.
pub open spec fn calm_allpass(a: AllpassView, i: nat) -> bool {
    &&& a.sound()
    &&& forall|j: int| 0 <= j < a.buf.len() ==> at_most(#[trigger] a.buf[j], 2 * chain_bound(i))
}

/// A reverb with all its lines calm.
pub open spec fn calm_reverb(s: ReverbView) -> bool {
    &&& s.combs.len() == 0 || (s.combs.len() == 8 && s.allpasses.len() == 4)
    &&& forall|i: int| 0 <= i < s.combs.len() ==> calm_comb(#[trigger] s.combs[i])
    &&& forall|i: int|
        0 <= i < s.allpasses.len() ==> calm_allpass(#[trigger] s.allpasses[i], i as nat)
}

/// A calm comb stays calm.
proof fn lemma_comb(c: CombView, input: F32, feedback: F32, damp: F32)
    requires
        calm_comb(c),
        at_most(input, 1),
        envelope::within(feedback, F32::of(0), F32::of(MAX_ROOM)),
        damp.is_finite(),
        0 <= numbers::value(damp) <= numbers::scale(),
    ensures
        calm_comb(c.fed(input, feedback, damp)),
{
    let store: F32 = c.out().times(F32::of(ONE).minus(damp)).plus(c.filter_store.times(damp));
    lemma2_to64();
    assert(at_most(c.out(), 64));
    lemma_blend(c.out(), c.filter_store, damp, 6);
    lemma_fed_back(input, store, feedback);
    vstd::arithmetic::div_mod::lemma_mod_bound(c.idx + 1, c.buf.len() as int);
}

/// The sum of calm combs.
proof fn lemma_comb_total(combs: Seq<CombView>)
    requires
        combs.len() <= 8,
        forall|i: int| 0 <= i < combs.len() ==> calm_comb(#[trigger] combs[i]),
    ensures
        at_most(reverb::comb_total(combs), 64 * combs.len() as int),
    decreases combs.len(),
{
    numbers::lemma_zero_one();
    if combs.len() > 0 {
        let front: Seq<CombView> = combs.drop_last();
        assert forall|i: int| 0 <= i < front.len() implies calm_comb(#[trigger] front[i]) by {
            assert(front[i] == combs[i]);
        }
        lemma_comb_total(front);
        let last: CombView = combs[combs.len() - 1];
        assert(calm_comb(last));
        assert(at_most(last.out(), 64));
        let so_far: F32 = reverb::comb_total(front);
        let n: u64 = (64 * combs.len()) as u64;
        let hi: F32 = F32::from_u64(n);
        numbers::lemma_small_from_u64(n);
        numbers::lemma_negated(hi);
        let u: int = numbers::scale();
        let m: int = 64 * front.len() as int;
        assert(m * u + 64 * u == n * u && -m * u - 64 * u == -(n * u)) by (nonlinear_arith)
            requires
                n == m + 64,
        ;
        numbers::lemma_plus_between(so_far, last.out(), hi.negated(), hi);
        let sum: F32 = so_far.plus(last.out());
        numbers::lemma_value_order(hi.negated(), sum);
        numbers::lemma_value_order(sum, hi);
        assert(-(64 * combs.len()) * u == -(n * u)) by (nonlinear_arith)
            requires
                n == 64 * combs.len(),
        ;
    }
}

/// One allpass: what it yields and what it keeps.
proof fn lemma_allpass(a: AllpassView, x: F32, i: nat)
    requires
        i <= 4,
        calm_allpass(a, i),
        at_most(x, chain_bound(i)),
    ensures
        at_most(a.out(x), chain_bound(i + 1)),
        calm_allpass(a.fed(x), i),
{
    let k: nat = 9 + 2 * i;
    let u: int = numbers::scale();
    let held: F32 = a.buf[a.idx];
    let b: int = chain_bound(i);
    numbers::lemma_zero_one();
    assert(at_most(held, 2 * b));
    lemma_power(k);
    lemma_power(k + 1);
    lemma_power(k + 2);
    lemma_pow2_unfold(k + 1);
    lemma_pow2_unfold(k + 2);
    lemma_pow2_pos(k);
    numbers::lemma_negated(x);
    let vx: int = numbers::value(x);
    let vh: int = numbers::value(held);
    assert(chain_bound(i + 1) == 4 * b);
    // what comes out
    assert(-(4 * b * u) <= -vx + vh <= 4 * b * u) by (nonlinear_arith)
        requires
            -b * u <= vx <= b * u,
            -(2 * b) * u <= vh <= (2 * b) * u,
            b > 0,
            u > 0,
    ;
    assert(pow2(k + 2) * u == 4 * b * u);
    numbers::lemma_plus_between(x.negated(), held, power(k + 2).negated(), power(k + 2));
    lemma_between(a.out(x), k + 2);
    // what is written
    let half: F32 = F32::of(ALLPASS_FEEDBACK);
    numbers::lemma_value_of(ALLPASS_FEEDBACK, 0x80_0000, 125);
    lemma_pow2_adds(23, 126);
    lemma_pow2_unfold(126);
    lemma2_to64();
    assert(2 * numbers::value(half) == u);
    lemma_pow2_pos(125);
    let vf: int = numbers::value(half);
    assert(-(b * u) * u <= vh * vf <= (b * u) * u) by (nonlinear_arith)
        requires
            -(2 * b) * u <= vh <= (2 * b) * u,
            2 * vf == u,
            b > 0,
            u > 0,
    ;
    assert(-(b * u) * u == -(pow2(k) * u) * u);
    numbers::lemma_times_between(held, half, power(k).negated(), power(k));
    let echo: F32 = held.times(half);
    numbers::lemma_value_order(power(k).negated(), echo);
    numbers::lemma_value_order(echo, power(k));
    assert(-(2 * b * u) <= vx + numbers::value(echo) <= 2 * b * u) by (nonlinear_arith)
        requires
            -b * u <= vx <= b * u,
            -(b * u) <= numbers::value(echo) <= b * u,
    ;
    assert(pow2(k + 1) * u == 2 * b * u);
    numbers::lemma_plus_between(x, echo, power(k + 1).negated(), power(k + 1));
    lemma_between(x.plus(echo), k + 1);
    vstd::arithmetic::div_mod::lemma_mod_bound(a.idx + 1, a.buf.len() as int);
}

/// A chain of calm allpasses.
proof fn lemma_chain(chain: Seq<AllpassView>, x: F32)
    requires
        chain.len() <= 4,
        at_most(x, chain_bound(0)),
        forall|i: int| 0 <= i < chain.len() ==> calm_allpass(#[trigger] chain[i], i as nat),
    ensures
        at_most(reverb::diffused(chain, x), chain_bound(chain.len())),
    decreases chain.len(),
{
    if chain.len() > 0 {
        let front: Seq<AllpassView> = chain.drop_last();
        assert forall|i: int| 0 <= i < front.len() implies calm_allpass(
            #[trigger] front[i],
            i as nat,
        ) by {
            assert(front[i] == chain[i]);
        }
        lemma_chain(front, x);
        let last: int = chain.len() - 1;
        assert(calm_allpass(chain[last], last as nat));
        lemma_allpass(chain[last], reverb::diffused(front, x), last as nat);
    }
}

/// A reverb starts calm, and where its input lies between minus one and one
/// it stays calm and yields nothing larger than 131,072, whatever its room.
pub proof fn law_reverb_stays_bounded(
    e: Reverb,
    c: ContextView,
    f: spec_fn(Elementary, F32) -> F32,
)
    requires
        !e.room_size.is_nan(),
        !e.damping.is_nan(),
        !e.mix.is_nan(),
        at_most(c.input("in"@), 1),
        c.state matches StateView::Reverb(s) && calm_reverb(s),
    ensures
        at_most(e.step(c, f).out, 131_072),
        e.step(c, f).after.state matches StateView::Reverb(s) && calm_reverb(s),
        e.initial() matches StateView::Reverb(s) && calm_reverb(s),
{
    let s: ReverbView = c.state->Reverb_0;
    let x: F32 = c.input("in"@);
    let lines: ReverbView = s.built(c.rate());
    let input: F32 = x.times(F32::of(FIXED_GAIN));
    let tail: F32 = reverb::comb_total(lines.combs);
    numbers::lemma_zero_one();
    lemma2_to64();
    assert(calm_reverb(lines)) by {
        assert(at_most(F32::of(0), 64));
        assert forall|i: nat| at_most(F32::of(0), 2 * #[trigger] chain_bound(i)) by {
            lemma_pow2_pos(9 + 2 * i);
            vstd::arithmetic::mul::lemma_mul_nonnegative(2 * chain_bound(i), numbers::scale());
            assert(-(2 * chain_bound(i)) * numbers::scale() == -((2 * chain_bound(i))
                * numbers::scale())) by (nonlinear_arith);
        }
    }
    lemma_input(x);
    reverb::law_room_feedback_is_bounded(e);
    envelope::lemma_rank(0, reverb::ROOM_OFFSET);
    numbers::lemma_order(F32::of(0), F32::of(reverb::ROOM_OFFSET), e.feedback());
    lemma_damp(e);
    let combs: Seq<CombView> = lines.combed(input, e.feedback(), e.damp());
    assert forall|i: int| 0 <= i < combs.len() implies calm_comb(#[trigger] combs[i]) by {
        assert(calm_comb(lines.combs[i]));
        lemma_comb(lines.combs[i], input, e.feedback(), e.damp());
    }
    lemma_comb_total(lines.combs);
    assert(chain_bound(0) == 512);
    lemma_at_most_widens(tail, 64 * lines.combs.len() as int, 512);
    let chain: Seq<AllpassView> = reverb::chain_fed(lines.allpasses, tail);
    assert forall|i: int| 0 <= i < chain.len() implies calm_allpass(
        #[trigger] chain[i],
        i as nat,
    ) by {
        let front: Seq<AllpassView> = lines.allpasses.take(i);
        assert forall|j: int| 0 <= j < front.len() implies calm_allpass(
            #[trigger] front[j],
            j as nat,
        ) by {
            assert(front[j] == lines.allpasses[j]);
        }
        lemma_chain(front, tail);
        assert(calm_allpass(lines.allpasses[i], i as nat));
        lemma_allpass(lines.allpasses[i], reverb::diffused(front, tail), i as nat);
    }
    lemma_chain(lines.allpasses, tail);
    let wet: F32 = reverb::diffused(lines.allpasses, tail);
    assert(chain_bound(4) == 131_072);
    lemma_at_most_widens(wet, chain_bound(lines.allpasses.len()), 131_072);
    lemma_at_most_widens(x, 1, 131_072);
    numbers::lemma_clamp_unit(e.mix);
    lemma_blend(x, wet, e.mix.clamp(F32::of(0), F32::of(ONE)), 17);
}

/// The input of the combs.
proof fn lemma_input(x: F32)
    requires
        at_most(x, 1),
    ensures
        at_most(x.times(F32::of(FIXED_GAIN)), 1),
{
    let gain: F32 = F32::of(FIXED_GAIN);
    let one: F32 = F32::of(ONE);
    let low: F32 = F32::of(MINUS_ONE);
    let u: int = numbers::scale();
    numbers::lemma_zero_one();
    envelope::lemma_rank(0, FIXED_GAIN);
    envelope::lemma_rank(FIXED_GAIN, ONE);
    numbers::lemma_value_order(F32::of(0), gain);
    numbers::lemma_value_order(gain, one);
    let v: int = numbers::value(x);
    let g: int = numbers::value(gain);
    assert(-u * u <= v * g <= u * u) by (nonlinear_arith)
        requires
            -1 * u <= v <= 1 * u,
            0 <= g <= u,
    ;
    numbers::lemma_times_between(x, gain, low, one);
    numbers::lemma_value_order(low, x.times(gain));
    numbers::lemma_value_order(x.times(gain), one);
}

/// The damping of every reverb lies between zero and one.
proof fn lemma_damp(e: Reverb)
    requires
        !e.damping.is_nan(),
    ensures
        e.damp().is_finite(),
        0 <= numbers::value(e.damp()) <= numbers::scale(),
{
    let d: F32 = e.damping.clamp(F32::of(0), F32::of(ONE));
    let k: F32 = F32::of(DAMP_SCALE);
    let zero: F32 = F32::of(0);
    let one: F32 = F32::of(ONE);
    let u: int = numbers::scale();
    numbers::lemma_zero_one();
    numbers::lemma_clamp_unit(e.damping);
    envelope::lemma_rank(0, DAMP_SCALE);
    envelope::lemma_rank(DAMP_SCALE, ONE);
    numbers::lemma_value_order(zero, k);
    numbers::lemma_value_order(k, one);
    let v: int = numbers::value(d);
    let g: int = numbers::value(k);
    assert(0 * u <= v * g <= u * u) by (nonlinear_arith)
        requires
            0 <= v <= u,
            0 <= g <= u,
    ;
    numbers::lemma_times_between(d, k, zero, one);
    numbers::lemma_value_order(zero, d.times(k));
    numbers::lemma_value_order(d.times(k), one);
}

} // verus!
