//! What the delay lines of the effects do: what is written into one comes out
//! of it again after as many samples as it is long, or as it is told.
use crate::accuracy;
use crate::accuracy::{gap, size, PARTS};
use crate::arith::Parts;
use crate::blends;
use crate::chorus::{Chorus, ChorusView, MAX_FEEDBACK};
use crate::constants::{ONE, THOUSANDTH, TWO_PI};
use crate::elementary::Elementary;
use crate::float::F32;
use crate::limits;
use crate::node::{ContextView, Node, StateView, Step};
use crate::numbers;
use crate::numbers::{scale, value};
use crate::oscillator;
use crate::reverb;
use crate::reverb::{
    AllpassView, CombView, Reverb, ReverbView, ALLPASS_FEEDBACK, DAMP_SCALE, FIXED_GAIN,
    ROOM_OFFSET, ROOM_SCALE, TUNING_SAMPLE_RATE,
};
use crate::rounding;
use crate::rounding::Width;
use vstd::arithmetic::div_mod::*;
use vstd::arithmetic::mul::*;
use vstd::arithmetic::power2::*;
use vstd::prelude::*;

verus! {

/// A comb once it has taken some samples, one after the other.
pub open spec fn comb_run(c: CombView, xs: Seq<F32>, feedback: F32, damp: F32) -> CombView
    decreases xs.len(),
{
    if xs.len() == 0 {
        c
    } else {
        comb_run(c, xs.drop_last(), feedback, damp).fed(xs.last(), feedback, damp)
    }
}

/// A place on a ring is reached again only after a whole turn.
proof fn lemma_ring(at: int, a: int, b: int, len: int)
    requires
        0 <= at < len,
        0 <= a < len,
        0 <= b < len,
        (at + a) % len == (at + b) % len,
    ensures
        a == b,
{
    lemma_fundamental_div_mod(at + a, len);
    lemma_fundamental_div_mod(at + b, len);
    let p: int = (at + a) / len;
    let q: int = (at + b) / len;
    assert(a - b == len * (p - q)) by (nonlinear_arith)
        requires
            at + a == len * p + (at + a) % len,
            at + b == len * q + (at + b) % len,
            (at + a) % len == (at + b) % len,
    ;
    assert(p == q) by (nonlinear_arith)
        requires
            a - b == len * (p - q),
            -len < a - b < len,
            len > 0,
    ;
}

/// One place on.
proof fn lemma_next(at: int, n: int, len: int)
    requires
        0 < len,
        0 <= at,
        0 <= n,
    ensures
        ((at + n) % len + 1) % len == (at + n + 1) % len,
        0 <= (at + n) % len < len,
{
    lemma_mod_bound(at + n, len);
    lemma_add_mod_noop(at + n, 1, len);
    if len == 1 {
        lemma_mod_self_0(1);
    } else {
        lemma_small_mod(1, len as nat);
    }
}

/// Where a comb stands after some samples, and which of its places are as
/// they were.
proof fn lemma_comb_run(c: CombView, xs: Seq<F32>, feedback: F32, damp: F32)
    requires
        c.sound(),
        xs.len() <= c.buf.len(),
    ensures
        ({
            let r: CombView = comb_run(c, xs, feedback, damp);
            let len: int = c.buf.len() as int;
            let n: int = xs.len() as int;
            &&& r.buf.len() == len
            &&& r.idx == (c.idx + n) % len
            &&& forall|t: int|
                n <= t < len ==> r.buf[#[trigger] ((c.idx + t) % len)] == c.buf[(c.idx + t) % len]
            &&& n > 0 ==> r.buf[c.idx] == comb_run(c, xs.take(1), feedback, damp).buf[c.idx]
        }),
    decreases xs.len(),
{
    let len: int = c.buf.len() as int;
    let n: int = xs.len() as int;
    lemma_small_mod(c.idx as nat, len as nat);
    if n > 0 {
        let front: Seq<F32> = xs.drop_last();
        lemma_comb_run(c, front, feedback, damp);
        let b: CombView = comb_run(c, front, feedback, damp);
        let r: CombView = comb_run(c, xs, feedback, damp);
        assert(r == b.fed(xs.last(), feedback, damp));
        lemma_next(c.idx, n - 1, len);
        assert forall|t: int| n <= t < len implies r.buf[#[trigger] ((c.idx + t) % len)]
            == c.buf[(c.idx + t) % len] by {
            lemma_mod_bound(c.idx + t, len);
            if (c.idx + t) % len == (c.idx + (n - 1)) % len {
                lemma_ring(c.idx, t, n - 1, len);
            }
        }
        if n == 1 {
            assert(xs.take(1) =~= xs);
        } else {
            assert(front.take(1) =~= xs.take(1));
            if (c.idx + (n - 1)) % len == c.idx {
                assert((c.idx + 0) % len == c.idx);
                lemma_ring(c.idx, n - 1, 0, len);
            }
        }
    }
}

/// A comb repeats: what it takes comes out of it again after as many samples
/// as it is long, with the feedback of what came out when it was taken, itself
/// smoothed by the damping.  Until then, what it held comes out in turn.
pub proof fn law_combs_repeat(c: CombView, xs: Seq<F32>, feedback: F32, damp: F32)
    requires
        c.sound(),
        0 < xs.len() <= c.buf.len(),
    ensures
        ({
            let r: CombView = comb_run(c, xs, feedback, damp);
            let len: int = c.buf.len() as int;
            let kept: F32 = c.buf[c.idx].times(F32::of(ONE).minus(damp)).plus(
                c.filter_store.times(damp),
            );
            &&& xs.len() == len ==> r.out() == xs[0].plus(kept.times(feedback))
            &&& xs.len() < len ==> r.out() == c.buf[(c.idx + xs.len()) % len]
            &&& comb_run(c, xs.take(1), feedback, damp).filter_store == kept
            &&& r.buf.len() == len
        }),
{
    let len: int = c.buf.len() as int;
    let n: int = xs.len() as int;
    lemma_comb_run(c, xs, feedback, damp);
    lemma_mod_bound(c.idx + n, len);
    let first: Seq<F32> = xs.take(1);
    assert(first.drop_last() =~= Seq::empty());
    assert(comb_run(c, first.drop_last(), feedback, damp) == c);
    assert(comb_run(c, first, feedback, damp) == c.fed(xs[0], feedback, damp));
    if n == len {
        lemma_mod_add_multiples_vanish(c.idx, len);
        lemma_small_mod(c.idx as nat, len as nat);
        assert((c.idx + len) % len == c.idx) by {
            assert(len + c.idx == c.idx + len);
        }
    }
}

/// An allpass once it has taken some samples, one after the other.
pub open spec fn allpass_run(a: AllpassView, xs: Seq<F32>) -> AllpassView
    decreases xs.len(),
{
    if xs.len() == 0 {
        a
    } else {
        allpass_run(a, xs.drop_last()).fed(xs.last())
    }
}

proof fn lemma_allpass_run(a: AllpassView, xs: Seq<F32>)
    requires
        a.sound(),
        xs.len() <= a.buf.len(),
    ensures
        ({
            let r: AllpassView = allpass_run(a, xs);
            let len: int = a.buf.len() as int;
            let n: int = xs.len() as int;
            &&& r.buf.len() == len
            &&& r.idx == (a.idx + n) % len
            &&& forall|t: int|
                n <= t < len ==> r.buf[#[trigger] ((a.idx + t) % len)] == a.buf[(a.idx + t) % len]
            &&& n > 0 ==> r.buf[a.idx] == allpass_run(a, xs.take(1)).buf[a.idx]
        }),
    decreases xs.len(),
{
    let len: int = a.buf.len() as int;
    let n: int = xs.len() as int;
    lemma_small_mod(a.idx as nat, len as nat);
    if n > 0 {
        let front: Seq<F32> = xs.drop_last();
        lemma_allpass_run(a, front);
        let b: AllpassView = allpass_run(a, front);
        let r: AllpassView = allpass_run(a, xs);
        assert(r == b.fed(xs.last()));
        lemma_next(a.idx, n - 1, len);
        assert forall|t: int| n <= t < len implies r.buf[#[trigger] ((a.idx + t) % len)]
            == a.buf[(a.idx + t) % len] by {
            lemma_mod_bound(a.idx + t, len);
            if (a.idx + t) % len == (a.idx + (n - 1)) % len {
                lemma_ring(a.idx, t, n - 1, len);
            }
        }
        if n == 1 {
            assert(xs.take(1) =~= xs);
        } else {
            assert(front.take(1) =~= xs.take(1));
            if (a.idx + (n - 1)) % len == a.idx {
                assert((a.idx + 0) % len == a.idx);
                lemma_ring(a.idx, n - 1, 0, len);
            }
        }
    }
}

/// An allpass puts out what it held less what it takes.  What it takes, and
/// half of what came out of its line then, comes out of the line again after
/// as many samples as it is long.
pub proof fn law_allpasses_repeat(a: AllpassView, xs: Seq<F32>, x: F32)
    requires
        a.sound(),
        0 < xs.len() <= a.buf.len(),
    ensures
        ({
            let r: AllpassView = allpass_run(a, xs);
            let len: int = a.buf.len() as int;
            let held: F32 = if xs.len() == len {
                xs[0].plus(a.buf[a.idx].times(F32::of(ALLPASS_FEEDBACK)))
            } else {
                a.buf[(a.idx + xs.len()) % len]
            };
            &&& r.out(x) == x.negated().plus(held)
            &&& r.buf.len() == len
        }),
{
    let len: int = a.buf.len() as int;
    let n: int = xs.len() as int;
    lemma_allpass_run(a, xs);
    lemma_mod_bound(a.idx + n, len);
    let first: Seq<F32> = xs.take(1);
    assert(first.drop_last() =~= Seq::empty());
    assert(allpass_run(a, first.drop_last()) == a);
    assert(allpass_run(a, first) == a.fed(xs[0]));
    if n == len {
        lemma_mod_add_multiples_vanish(a.idx, len);
        lemma_small_mod(a.idx as nat, len as nat);
        assert((a.idx + len) % len == a.idx) by {
            assert(len + a.idx == a.idx + len);
        }
    }
}

/// One comb more adds what comes out of it to the bank; one allpass more
/// takes what the chain before it puts out.
pub proof fn law_banks_add_and_chains_pass_on(
    combs: Seq<CombView>,
    comb: CombView,
    chain: Seq<AllpassView>,
    last: AllpassView,
    x: F32,
)
    ensures
        reverb::comb_total(Seq::empty()) == F32::of(0),
        reverb::comb_total(combs.push(comb)) == reverb::comb_total(combs).plus(comb.out()),
        reverb::diffused(Seq::empty(), x) == x,
        reverb::diffused(chain.push(last), x) == last.out(reverb::diffused(chain, x)),
{
    assert(combs.push(comb).drop_last() =~= combs);
    assert(chain.push(last).drop_last() =~= chain);
}

/// A reverb has made a sample: a small part of the input has gone into every
/// comb of its bank, the sum of what came out of them has gone through its
/// chain, and the end of the chain is its wet signal.
pub open spec fn reverberated(
    e: Reverb,
    step: Step,
    before: ReverbView,
    c: ContextView,
) -> bool {
    let x: F32 = c.input("in"@);
    let tail: F32 = reverb::comb_total(before.combs);
    &&& step.out == e.blend(x, reverb::diffused(before.allpasses, tail))
    &&& step.after.state matches StateView::Reverb(after)
    &&& step.after == ContextView { state: step.after.state, ..c }
    &&& after.combs.len() == before.combs.len()
    &&& forall|i: int|
        0 <= i < after.combs.len() ==> #[trigger] after.combs[i] == before.combs[i].fed(
            x.times(F32::of(FIXED_GAIN)),
            e.feedback(),
            e.damp(),
        )
    &&& after.allpasses.len() == before.allpasses.len()
    &&& forall|i: int|
        0 <= i < after.allpasses.len() ==> #[trigger] after.allpasses[i]
            == before.allpasses[i].fed(reverb::diffused(before.allpasses.take(i), tail))
}

/// Every line is silent, and as long as its tuning at the sample rate.
pub open spec fn is_new_bank(b: ReverbView, rate: F32) -> bool {
    let combs: Seq<usize> = seq![1116usize, 1188, 1277, 1356, 1422, 1491, 1557, 1617];
    let chain: Seq<usize> = seq![556usize, 441, 341, 225];
    &&& b.combs.len() == combs.len()
    &&& forall|i: int|
        0 <= i < combs.len() ==> (#[trigger] b.combs[i]).buf.len() == reverb::scaled_len(
            combs[i],
            rate,
        ) && b.combs[i].idx == 0 && b.combs[i].filter_store == F32::of(0)
    &&& forall|i: int, j: int|
        0 <= i < combs.len() && 0 <= j < b.combs[i].buf.len() ==> #[trigger] b.combs[i].buf[j]
            == F32::of(0)
    &&& b.allpasses.len() == chain.len()
    &&& forall|i: int|
        0 <= i < chain.len() ==> (#[trigger] b.allpasses[i]).buf.len() == reverb::scaled_len(
            chain[i],
            rate,
        ) && b.allpasses[i].idx == 0
    &&& forall|i: int, j: int|
        0 <= i < chain.len() && 0 <= j < b.allpasses[i].buf.len() ==> #[trigger]
            b.allpasses[i].buf[j] == F32::of(0)
}

/// A reverb builds its lines at its first sample and keeps them; at every
/// sample it feeds its bank and its chain.
pub proof fn law_reverbs_feed_their_lines(
    e: Reverb,
    c: ContextView,
    f: spec_fn(Elementary, F32) -> F32,
) -> (before: ReverbView)
    requires
        c.state is Reverb,
    ensures
        reverberated(e, e.step(c, f), before, c),
        c.state->Reverb_0.combs.len() > 0 ==> before == c.state->Reverb_0,
        c.state->Reverb_0.combs.len() == 0 ==> is_new_bank(before, c.rate()),
        e.initial() matches StateView::Reverb(s) && s.combs.len() == 0 && s.allpasses.len() == 0,
{
    c.state->Reverb_0.built(c.rate())
}

/// The size of the room leads the feedback evenly from its least to its most,
/// and the damping its own from nothing; beyond zero and one neither goes on.
pub proof fn law_rooms_set_feedback_and_damping(e: Reverb)
    ensures
        ({
            let room: F32 = e.room_size.clamp(F32::of(0), F32::of(ONE));
            let damping: F32 = e.damping.clamp(F32::of(0), F32::of(ONE));
            &&& limits::nearest(e.room_size, room, F32::of(0), F32::of(ONE))
            &&& limits::nearest(e.damping, damping, F32::of(0), F32::of(ONE))
            &&& e.feedback() == room.times(F32::of(ROOM_SCALE)).plus(F32::of(ROOM_OFFSET))
            &&& e.damp() == damping.times(F32::of(DAMP_SCALE))
        }),
{
    reveal(F32::spec_clamp);
    reveal(F32::spec_lt);
}

/// A chorus keeps its line where it is long enough, and has a silent one of
/// the length that it needs where it is not.
pub open spec fn is_line_for(line: ChorusView, before: ChorusView, needed: int) -> bool {
    &&& line.phase == before.phase
    &&& before.buf.len() >= needed ==> line == before
    &&& before.buf.len() < needed ==> line.buf.len() == needed && line.write == 0 && forall|j: int|
        0 <= j < needed ==> #[trigger] line.buf[j] == F32::of(0)
}

/// A chorus reads its line behind the cursor, writes the input with the fed
/// back echo at the cursor, and moves the cursor and the sweep on.
pub proof fn law_choruses_feed_their_line(
    e: Chorus,
    c: ContextView,
    f: spec_fn(Elementary, F32) -> F32,
) -> (line: ChorusView)
    requires
        c.state is Chorus,
        e.line_length(c.rate()) <= usize::MAX,
        c.state->Chorus_0.sound(),
    ensures
        ({
            let x: F32 = c.input("in"@);
            let len: int = line.buf.len() as int;
            let sweep: F32 = f(Elementary::Sin, F32::of(TWO_PI).times(line.phase));
            let delay: F32 = e.delay(sweep, c.rate(), len as usize);
            let echo: F32 = Chorus::tap(
                line.buf,
                F32::from_usize(line.write as usize).minus(delay).rem_euclid(
                    F32::from_usize(len as usize),
                ),
            );
            let fed: F32 = e.feedback.clamp(F32::of(0), F32::of(MAX_FEEDBACK));
            let s: Step = e.step(c, f);
            &&& is_line_for(line, c.state->Chorus_0, e.line_length(c.rate()))
            &&& 0 <= line.write < len
            &&& s.out == e.blend(x, echo)
            &&& s.after.state matches StateView::Chorus(after)
            &&& s.after == ContextView { state: s.after.state, ..c }
            &&& after.buf.len() == len
            &&& after.buf[line.write] == x.plus(echo.times(fed))
            &&& forall|j: int|
                0 <= j < len && j != line.write ==> #[trigger] after.buf[j] == line.buf[j]
            &&& after.write == (line.write + 1) % len
            &&& after.phase == oscillator::advance(
                line.phase,
                e.rate_hz.max(F32::of(0)),
                c.rate(),
            )
        }),
{
    c.state->Chorus_0.sized(e.line_length(c.rate()))
}

/// The delay of a chorus is its base and as much of its depth as the sweep
/// says, in samples: a thousandth of the sample rate for every millisecond,
/// never less than none nor more than the line holds.
pub proof fn law_chorus_delays_swing_about_their_base(e: Chorus, sweep: F32, rate: F32, len: usize)
    requires
        len > 0,
    ensures
        ({
            let samples: F32 = e.base_delay_ms.plus(e.depth_ms.times(sweep)).max(F32::of(0)).times(
                F32::of(THOUSANDTH),
            ).times(rate);
            limits::nearest(
                samples,
                e.delay(sweep, rate, len),
                F32::of(0),
                F32::from_usize((len - 1) as usize),
            )
        }),
        ({
            let longest: int = e.base_delay_ms.plus(e.depth_ms).max(F32::of(0)).times(
                F32::of(THOUSANDTH),
            ).times(rate).ceil().to_usize() as int;
            &&& e.line_length(rate) >= longest + 4
            &&& e.line_length(rate) >= 5
            &&& e.line_length(rate) == longest + 4 || e.line_length(rate) == 5
        }),
{
    numbers::lemma_from_u64_not_negative((len - 1) as u64);
    reveal(F32::spec_from_usize);
    reveal(F32::spec_clamp);
    reveal(F32::spec_le);
    reveal(F32::spec_lt);
    reveal(F32::spec_same);
}

/// A number that is smaller than a length is its own remainder, or what is
/// left of the length where it is negative, if that is a number.
proof fn lemma_on_the_line(x: F32, length: F32, place: F32)
    requires
        x.is_finite(),
        length.is_finite(),
        place.is_finite(),
        value(length) > 0,
        -value(length) < value(x) < value(length),
        value(place) == if value(x) < 0 {
            value(x) + value(length)
        } else {
            value(x)
        },
    ensures
        x.rem_euclid(length).is_finite(),
        value(x.rem_euclid(length)) == value(place),
{
    let w: Width = Width::Single;
    let a: Parts = x.parts();
    let b: Parts = length.parts();
    let r: F32 = x.modulo(length);
    let zero: F32 = F32::of(0);
    rounding::lemma_step(w);
    assert(a.is_finite(w) && b.is_finite(w)) by {
        reveal(F32::spec_is_finite);
    }
    rounding::lemma_encode_exact(w, a.code as int);
    rounding::lemma_encode_exact(w, b.code as int);
    assert(!b.neg && b.code > 0) by {
        if b.code == 0 {
            assert(rounding::units(w, 0) == 0);
        }
    }
    lemma_small_mod(a.size(w) as nat, b.size(w) as nat);
    assert(r == x) by {
        reveal(F32::spec_modulo);
        numbers::lemma_parts_round_trip(x);
    }
    numbers::lemma_zero_one();
    numbers::lemma_value_order(r, zero);
    numbers::lemma_magnitude(length);
    if value(x) < 0 {
        numbers::lemma_plus_exact(x, length.magnitude(), place);
    }
    reveal(F32::spec_rem_euclid);
}

/// A whole number is its own floor, as an index too.
proof fn lemma_whole(x: F32, n: int)
    requires
        x.is_finite(),
        0 <= n < 0x100_0000,
        value(x) == n * scale(),
    ensures
        x.floor().to_usize() == n,
        x.floor().is_finite(),
        value(x.floor()) == value(x),
{
    let w: Width = Width::Single;
    let p: Parts = x.parts();
    let s: int = scale();
    rounding::lemma_step(w);
    lemma_pow2_pos(149);
    lemma_mul_nonnegative(n, s);
    reveal(F32::spec_is_finite);
    reveal(F32::spec_floor);
    reveal(F32::spec_to_usize);
    reveal(F32::spec_to_u64);
    rounding::lemma_encode_exact(w, p.code as int);
    assert(p.size(w) == n * s) by {
        if p.neg {
            assert(p.size(w) == 0);
        }
    }
    lemma_mul_is_commutative(n, s);
    lemma_fundamental_div_mod_converse(n * s, s, n, 0);
    numbers::lemma_small_integer(w, n);
    let q: Parts = Parts::integer(w, false, n);
    let f: Parts = x.floor().parts();
    assert(f.code == q.code) by {
        rounding::lemma_encode_range(w, n * s, 1);
    }
    if p.neg {
        assert(n * s == 0);
        assert(n == 0) by (nonlinear_arith)
            requires
                n * s == 0,
                s > 0,
        ;
        lemma_mul_basics_1(s);
        rounding::lemma_encode_exact(w, 0);
        assert(f.code == 0);
        lemma_div_basics_1(s);
    }
}

/// A delay of a whole number of samples reads what was written so many
/// samples before: the place that many behind the cursor, round the line's
/// end where it must.
pub proof fn law_whole_delays_read_the_past(e: Chorus, buf: Seq<F32>, write: usize, delay: F32, d: int)
    requires
        1 < buf.len() < 0x100_0000,
        0 <= write < buf.len(),
        0 <= d < buf.len(),
        delay.is_finite(),
        value(delay) == d * scale(),
        forall|j: int| 0 <= j < buf.len() ==> (#[trigger] buf[j]).is_finite(),
    ensures
        Chorus::tap(buf, e.read_position(write, delay, buf.len() as usize)).same(
            buf[(write - d) % (buf.len() as int)],
        ),
{
    let len: int = buf.len() as int;
    let s: int = scale();
    let x: F32 = F32::from_usize(write);
    let length: F32 = F32::from_usize(len as usize);
    numbers::lemma_zero_one();
    reveal(F32::spec_from_usize);
    numbers::lemma_small_from_u64(write as u64);
    numbers::lemma_small_from_u64(len as u64);
    let at: int = if write >= d {
        write - d
    } else {
        write - d + len
    };
    assert(at == (write - d) % len) by {
        if write >= d {
            lemma_small_mod(at as nat, len as nat);
        } else {
            lemma_mod_add_multiples_vanish(write - d, len);
            lemma_small_mod(at as nat, len as nat);
        }
    }
    let place: F32 = F32::from_u64(at as u64);
    numbers::lemma_small_from_u64(at as u64);
    let back: F32 = x.minus(delay);
    lemma_exact_difference(x, delay, write as int, d);
    assert((write - d) * s == write * s - d * s) by (nonlinear_arith);
    assert(at * s == if write >= d {
        (write - d) * s
    } else {
        (write - d) * s + len * s
    }) by (nonlinear_arith)
        requires
            write >= d ==> at == write - d,
            write < d ==> at == write - d + len,
    ;
    assert((write - d) * s < len * s && -(len * s) < (write - d) * s) by (nonlinear_arith)
        requires
            -len < write - d < len,
            s > 0,
    ;
    lemma_mul_strictly_positive(len, s);
    if write < d {
        assert((write - d) * s < 0) by (nonlinear_arith)
            requires
                write < d,
                s > 0,
        ;
    } else {
        lemma_mul_nonnegative(write - d, s);
    }
    lemma_on_the_line(back, length, place);
    let position: F32 = e.read_position(write, delay, len as usize);
    lemma_whole(position, at);
    let frac: F32 = position.minus(position.floor());
    numbers::lemma_minus_between(position, position.floor(), F32::of(0), F32::of(0));
    numbers::lemma_value_order(F32::of(0), frac);
    numbers::lemma_value_order(frac, F32::of(0));
    lemma_small_mod(at as nat, len as nat);
    lemma_mod_bound(at + 1, len);
    numbers::lemma_blend_ends(buf[at], buf[(at + 1) % len], frac);
}

/// The difference of two small whole numbers.
proof fn lemma_exact_difference(x: F32, y: F32, m: int, n: int)
    requires
        x.is_finite(),
        y.is_finite(),
        0 <= m < 0x100_0000,
        0 <= n < 0x100_0000,
        value(x) == m * scale(),
        value(y) == n * scale(),
    ensures
        x.minus(y).is_finite(),
        value(x.minus(y)) == (m - n) * scale(),
{
    let s: int = scale();
    lemma_pow2_pos(149);
    let k: int = if m >= n {
        m - n
    } else {
        n - m
    };
    numbers::lemma_small_from_u64(k as u64);
    let z: F32 = F32::from_u64(k as u64);
    numbers::lemma_negated(z);
    let t: F32 = if m >= n {
        z
    } else {
        z.negated()
    };
    assert((m - n) * s == m * s - n * s) by (nonlinear_arith);
    assert(m < n ==> (m - n) * s == -(k * s)) by (nonlinear_arith)
        requires
            m < n ==> k == n - m,
    ;
    numbers::lemma_negated(y);
    reveal(F32::spec_minus);
    numbers::lemma_plus_exact(x, y.negated(), t);
}

/// Between two places of the line a tap is as far of the way between their
/// samples as it is between the places, round the line's end where it must.
pub proof fn law_taps_read_between_places(buf: Seq<F32>, position: F32)
    requires
        0 < buf.len() < 0x100_0000,
        position.is_finite(),
        0 <= value(position) < buf.len() * scale(),
        forall|j: int| 0 <= j < buf.len() ==> blends::is_signal(#[trigger] buf[j]),
    ensures
        ({
            let at: int = value(position) / scale();
            blends::blends(
                Chorus::tap(buf, position),
                buf[at],
                buf[(at + 1) % (buf.len() as int)],
                value(position) % scale(),
            )
        }),
{
    let s: int = scale();
    let v: int = value(position);
    let at: int = v / s;
    let len: int = buf.len() as int;
    lemma_pow2_pos(149);
    lemma_fundamental_div_mod(v, s);
    assert(0 <= at < len) by (nonlinear_arith)
        requires
            v == s * at + v % s,
            0 <= v % s < s,
            0 <= v < len * s,
            s > 0,
    ;
    lemma_floor(position, at);
    let whole: F32 = position.floor();
    let frac: F32 = position.minus(whole);
    lemma_small_mod(at as nat, len as nat);
    lemma_mod_bound(at + 1, len);
    lemma_mul_is_commutative(s, at);
    lemma_fraction(position, whole);
    blends::lemma_blends(buf[at], buf[(at + 1) % len], frac);
}

/// The floor of a number that is not negative.
proof fn lemma_floor(x: F32, n: int)
    requires
        x.is_finite(),
        0 <= value(x),
        n == value(x) / scale(),
        0 <= n < 0x100_0000,
    ensures
        x.floor().to_usize() == n,
        x.floor().is_finite(),
        value(x.floor()) == n * scale(),
{
    let w: Width = Width::Single;
    let p: Parts = x.parts();
    let s: int = scale();
    rounding::lemma_step(w);
    lemma_pow2_pos(149);
    reveal(F32::spec_is_finite);
    rounding::lemma_encode_exact(w, p.code as int);
    let f: F32 = x.floor();
    numbers::lemma_small_integer(w, n);
    if p.neg {
        assert(p.size(w) == 0);
        lemma_div_basics_1(s);
        lemma_small_mod(0, s as nat);
        assert(n == 0);
        lemma_mul_basics_1(s);
        lemma_whole(x, 0);
    } else {
        assert(f.parts() == Parts::integer(w, false, n)) by {
            reveal(F32::spec_floor);
            lemma_mul_nonnegative(n, s);
            rounding::lemma_encode_range(w, n * s, 1);
        }
        reveal(F32::spec_to_usize);
        reveal(F32::spec_to_u64);
        lemma_mul_is_commutative(n, s);
        lemma_fundamental_div_mod_converse(n * s, s, n, 0);
    }
}

/// What a number has over its floor is a number.
proof fn lemma_fraction(x: F32, whole: F32)
    requires
        x.is_finite(),
        whole.is_finite(),
        0 <= value(x),
        value(whole) == value(x) - value(x) % scale(),
    ensures
        x.minus(whole).is_finite(),
        value(x.minus(whole)) == value(x) % scale(),
{
    let w: Width = Width::Single;
    let s: int = scale();
    let p: Parts = x.parts();
    rounding::lemma_step(w);
    lemma_pow2_pos(149);
    assert(p.is_finite(w)) by {
        reveal(F32::spec_is_finite);
    }
    rounding::lemma_encode_exact(w, p.code as int);
    assert(p.size(w) == value(x)) by {
        if p.neg {
            assert(value(x) == -p.size(w));
        }
    }
    let code: int = numbers::lemma_remainder_encoded(w, p.code as int, 149);
    let z: F32 = F32::of(code as u32);
    assert(z.is_finite() && value(z) == value(x) % s) by {
        reveal(F32::spec_is_finite);
    }
    numbers::lemma_minus_between(x, whole, z, z);
    numbers::lemma_value_order(z, x.minus(whole));
    numbers::lemma_value_order(x.minus(whole), z);
}

/// The length of a reverb's line is its tuning in proportion to the sample
/// rate, to the nearest sample, and one at least.
pub proof fn law_lines_are_tuned_in_proportion(tuning: usize, sample_rate: u32)
    requires
        tuning <= 0x1000,
        sample_rate <= 0x4_0000,
    ensures
        ({
            let n: int = reverb::scaled_len(tuning, F32::from_u64(sample_rate as u64)) as int;
            &&& n >= 1
            &&& n > 1 ==> 2 * gap(44_100 * n, tuning * sample_rate) <= 44_100 + 400
            &&& n == 1 ==> 2 * (tuning * sample_rate) <= 3 * 44_100 + 400
        }),
{
    let s: int = scale();
    let t: int = tuning as int;
    let r: int = sample_rate as int;
    let x: F32 = F32::from_usize(tuning);
    let rate: F32 = F32::from_u64(sample_rate as u64);
    let base: F32 = F32::of(TUNING_SAMPLE_RATE);
    numbers::lemma_zero_one();
    reveal(F32::spec_from_usize);
    numbers::lemma_small_from_u64(tuning as u64);
    numbers::lemma_small_from_u64(sample_rate as u64);
    lemma2_to64();
    numbers::lemma_value_of(TUNING_SAMPLE_RATE, 0xac_4400, 141);
    lemma_pow2_adds(8, 141);
    lemma_pow2_pos(141);
    assert(value(base) == 44_100 * s) by (nonlinear_arith)
        requires
            value(base) == 0xac_4400 * pow2(141),
            s == 256 * pow2(141),
    ;
    // The product of tuning and rate.
    numbers::lemma_value_of(0x4e80_0000, 0x80_0000, 156);
    lemma_pow2_adds(23, 156);
    lemma_pow2_adds(30, 149);
    let far: F32 = F32::of(0x4e80_0000);
    let zero: F32 = F32::of(0);
    assert(0 <= t * r <= 0x4000_0000) by (nonlinear_arith)
        requires
            0 <= t <= 0x1000,
            0 <= r <= 0x4_0000,
    ;
    let tr: int = t * r;
    assert((t * s) * (r * s) == (tr * s) * s) by (nonlinear_arith)
        requires
            tr == t * r,
    ;
    assert(0 <= (tr * s) * s <= (0x4000_0000 * s) * s && 0 * s == 0) by (nonlinear_arith)
        requires
            0 <= tr <= 0x4000_0000,
            s > 0,
    ;
    numbers::lemma_times_between(x, rate, zero, far);
    let p: F32 = x.times(rate);
    numbers::lemma_value_order(zero, p);
    numbers::lemma_value_order(p, far);
    accuracy::law_products_are_accurate(x, rate);
    let pv: int = value(p);
    let g: int = gap(pv, tr * s);
    lemma_cancel(pv, tr * s, s);
    assert(PARTS * g <= tr * s) by {
        lemma_mul_nonnegative(tr, s);
    }
    // The quotient by the rate of the tunings.
    numbers::lemma_value_of(0x4700_0000, 0x80_0000, 141);
    lemma_pow2_adds(23, 141);
    lemma_pow2_adds(15, 149);
    let most: F32 = F32::of(0x4700_0000);
    let ps: int = 44_100 * s;
    assert(0 <= pv * s <= (0x8000 * s) * ps && 0 * ps == 0) by (nonlinear_arith)
        requires
            0 <= pv <= 0x4000_0000 * s,
            ps == 44_100 * s,
            s > 0,
    ;
    numbers::lemma_over_between(p, base, zero, most);
    let q: F32 = p.over(base);
    numbers::lemma_value_order(zero, q);
    numbers::lemma_value_order(q, most);
    accuracy::law_quotients_are_accurate(p, base);
    let qv: int = value(q);
    assert(qv * ps == (44_100 * qv) * s) by (nonlinear_arith)
        requires
            ps == 44_100 * s,
    ;
    let h: int = gap(44_100 * qv, pv);
    lemma_cancel_loosely(44_100 * qv, pv, s);
    lemma_rounded(q);
    let n: int = q.round().to_usize() as int;
    // Together they are off by little more than a half.
    assert(2 * gap(44_100 * (n * s), 44_100 * qv) <= 44_100 * s);
    assert(PARTS * h <= pv + PARTS * 44_100);
    assert(PARTS >= 0x100_0000);
    assert(s >= 0x1_0000_0000) by {
        lemma_pow2_adds(32, 117);
        lemma_pow2_pos(117);
    }
    assert(44_100 * (n * s) == (44_100 * n) * s) by (nonlinear_arith);
    let d: int = gap(44_100 * n, tr);
    assert(gap((44_100 * n) * s, tr * s) == d * s) by (nonlinear_arith)
        requires
            d == (if 44_100 * n < tr {
                tr - 44_100 * n
            } else {
                44_100 * n - tr
            }),
            gap((44_100 * n) * s, tr * s) == (if (44_100 * n) * s < tr * s {
                tr * s - (44_100 * n) * s
            } else {
                (44_100 * n) * s - tr * s
            }),
            s > 0,
    ;
    assert(tr * s <= 0x4000_0000 * s) by (nonlinear_arith)
        requires
            tr <= 0x4000_0000,
            s > 0,
    ;
    assert(2 * (d * s) <= 44_400 * s);
    assert(2 * d <= 44_400) by (nonlinear_arith)
        requires
            2 * (d * s) <= 44_400 * s,
            s > 0,
    ;
}

/// A bound on a difference of multiples is one on the difference.
proof fn lemma_cancel(a: int, b: int, s: int)
    requires
        s > 0,
        b >= 0,
        PARTS * gap(a * s, b * s) <= size(b * s) || 2 * gap(a * s, b * s) <= s,
    ensures
        PARTS * gap(a, b) <= b,
{
    let g: int = gap(a, b);
    assert(gap(a * s, b * s) == g * s) by (nonlinear_arith)
        requires
            g == (if a < b {
                b - a
            } else {
                a - b
            }),
            gap(a * s, b * s) == (if a * s < b * s {
                b * s - a * s
            } else {
                a * s - b * s
            }),
            s > 0,
    ;
    lemma_mul_nonnegative(b, s);
    if PARTS * (g * s) <= b * s {
        assert(PARTS * g <= b) by (nonlinear_arith)
            requires
                PARTS * (g * s) <= b * s,
                s > 0,
        ;
    } else {
        assert(g == 0) by (nonlinear_arith)
            requires
                2 * (g * s) <= s,
                s > 0,
                g >= 0,
        ;
    }
}

/// The same where the bound may be that of the divisor.
proof fn lemma_cancel_loosely(a: int, b: int, s: int)
    requires
        s > 0,
        b >= 0,
        PARTS * gap(a * s, b * s) <= size(b * s) || 2 * gap(a * s, b * s) <= 44_100 * s,
    ensures
        PARTS * gap(a, b) <= b + PARTS * 44_100,
{
    let g: int = gap(a, b);
    assert(gap(a * s, b * s) == g * s) by (nonlinear_arith)
        requires
            g == (if a < b {
                b - a
            } else {
                a - b
            }),
            gap(a * s, b * s) == (if a * s < b * s {
                b * s - a * s
            } else {
                a * s - b * s
            }),
            s > 0,
    ;
    lemma_mul_nonnegative(b, s);
    if PARTS * (g * s) <= b * s {
        assert(PARTS * g <= b) by (nonlinear_arith)
            requires
                PARTS * (g * s) <= b * s,
                s > 0,
        ;
    } else {
        assert(2 * g <= 44_100) by (nonlinear_arith)
            requires
                2 * (g * s) <= 44_100 * s,
                s > 0,
        ;
    }
}

/// A number rounded to an index is no more than a half off.
proof fn lemma_rounded(x: F32)
    requires
        x.is_finite(),
        0 <= value(x) <= 0x8000 * scale(),
    ensures
        2 * gap(x.round().to_usize() as int * scale(), value(x)) <= scale(),
{
    let w: Width = Width::Single;
    let p: Parts = x.parts();
    let s: int = scale();
    let v: int = value(x);
    rounding::lemma_step(w);
    lemma_pow2_pos(149);
    assert(p.is_finite(w)) by {
        reveal(F32::spec_is_finite);
    }
    rounding::lemma_encode_exact(w, p.code as int);
    assert(p.size(w) == v);
    lemma_fundamental_div_mod(v, s);
    lemma_mul_is_commutative(s, v / s);
    lemma_div_pos_is_pos(v, s);
    let q: int = v / s;
    assert((q + 1) * s == q * s + s) by (nonlinear_arith);
    let n: int = if 2 * (v % s) >= s {
        q + 1
    } else {
        q
    };
    assert(0 <= n <= 0x8001) by (nonlinear_arith)
        requires
            0 <= q,
            q * s <= v <= 0x8000 * s,
            n <= q + 1,
            n >= q,
            s > 0,
    ;
    numbers::lemma_small_integer(w, n);
    let r: F32 = x.round();
    lemma_mul_nonnegative(n, s);
    rounding::lemma_encode_range(w, n * s, 1);
    assert(r.parts() == Parts::integer(w, p.neg, n)) by {
        reveal(F32::spec_round);
    }
    reveal(F32::spec_to_usize);
    reveal(F32::spec_to_u64);
    lemma_mul_is_commutative(n, s);
    lemma_fundamental_div_mod_converse(n * s, s, n, 0);
    if p.neg {
        assert(v == 0);
        lemma_small_mod(0, s as nat);
        lemma_div_basics_1(s);
        assert(n == 0);
        lemma_mul_basics_1(s);
    }
}

} // verus!
