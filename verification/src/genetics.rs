//! Mutation and crossover of configurations.
//!
//! Every random decision is a draw from the host's generator.  The draws of
//! one operation are numbered and asked for in order, each once; the library
//! states its results over whatever the answers are.
use crate::constants::{HALF, ONE, TWO};
use crate::elementary;
use crate::elementary::Elementary;
use crate::envelope;
use crate::float::{F32, F64};
use crate::numbers;
use vstd::prelude::*;

verus! {

/// What a draw asks for.
#[derive(Clone, Copy, Debug, PartialEq, Eq, Structural)]
pub enum Draw {
    /// The bits of a uniform 32-bit number from zero up to one.
    Unit,
    /// The bits of a uniform 64-bit number from zero up to one.
    WideUnit,
    /// A fair coin: zero or one.
    Coin,
    /// A uniform 32-bit integer.
    Word,
}

/// `draws` answers every draw, always the same draw with the same answer.
pub open spec fn deals<D: Fn(u64, Draw) -> u64>(draws: D) -> bool {
    &&& forall|i: u64, k: Draw| #[trigger] draws.requires((i, k))
    &&& forall|i: u64, k: Draw, p: u64, q: u64|
        #[trigger] draws.ensures((i, k), p) && #[trigger] draws.ensures((i, k), q) ==> p == q
}

/// What `draws` answers, as a mathematical function.
pub open spec fn deck<D: Fn(u64, Draw) -> u64>(draws: D) -> spec_fn(u64, Draw) -> u64 {
    |i: u64, k: Draw| choose|r: u64| draws.ensures((i, k), r)
}

/// The number of the next draw.
pub open spec fn after(at: u64) -> u64 {
    at.wrapping_add(1)
}

/// The number of the draw `n` draws on.
pub open spec fn nth(at: u64, n: nat) -> u64
    decreases n,
{
    if n == 0 {
        at
    } else {
        after(nth(at, (n - 1) as nat))
    }
}

/// The 32-bit number that a draw answers.
pub open spec fn unit(d: spec_fn(u64, Draw) -> u64, at: u64) -> F32 {
    F32::of((d(at, Draw::Unit) % 0x1_0000_0000) as u32)
}

/// The 64-bit number that a draw answers.
pub open spec fn wide_unit(d: spec_fn(u64, Draw) -> u64, at: u64) -> F64 {
    F64::of(d(at, Draw::WideUnit))
}

/// The side that a coin shows.
pub open spec fn coin(d: spec_fn(u64, Draw) -> u64, at: u64) -> bool {
    d(at, Draw::Coin) != 0
}

/// The integer that a draw answers.
pub open spec fn word(d: spec_fn(u64, Draw) -> u64, at: u64) -> u32 {
    (d(at, Draw::Word) % 0x1_0000_0000) as u32
}

/// A draw decides for a change that has the probability `rate`.
pub open spec fn hit(d: spec_fn(u64, Draw) -> u64, at: u64, rate: F32) -> bool {
    unit(d, at).lt(rate)
}

/// The draws of an operation and how many were asked for.
pub struct Tape<'a, D: Fn(u64, Draw) -> u64> {
    /// The host's generator.
    pub draws: &'a D,
    /// The number of the next draw.
    pub at: u64,
}

impl<'a, D: Fn(u64, Draw) -> u64> Tape<'a, D> {
    /// The generator answers and `at` is the number of the next draw.
    pub open spec fn sound(self) -> bool {
        deals(*self.draws)
    }

    /// What the generator answers.
    pub open spec fn deck(self) -> spec_fn(u64, Draw) -> u64 {
        deck(*self.draws)
    }

    /// Starts at the first draw.
    pub fn new(draws: &'a D) -> (r: Tape<'a, D>)
        ensures
            r.at == 0,
            r.draws == draws,
    {
        Tape { draws, at: 0 }
    }

    /// Asks for the next draw.
    fn ask(&mut self, k: Draw) -> (r: u64)
        requires
            old(self).sound(),
        ensures
            r == (old(self).deck())(old(self).at, k),
            final(self).at == after(old(self).at),
            final(self).draws == old(self).draws,
    {
        let r: u64 = (self.draws)(self.at, k);
        self.at = self.at.wrapping_add(1);
        r
    }

    /// Draws a 32-bit number.
    pub fn unit(&mut self) -> (r: F32)
        requires
            old(self).sound(),
        ensures
            r == unit(old(self).deck(), old(self).at),
            final(self).at == after(old(self).at),
            final(self).draws == old(self).draws,
    {
        let bits: u64 = self.ask(Draw::Unit);
        F32::of((bits % 0x1_0000_0000) as u32)
    }

    /// Draws a 64-bit number.
    pub fn wide_unit(&mut self) -> (r: F64)
        requires
            old(self).sound(),
        ensures
            r == wide_unit(old(self).deck(), old(self).at),
            final(self).at == after(old(self).at),
            final(self).draws == old(self).draws,
    {
        let bits: u64 = self.ask(Draw::WideUnit);
        F64::of(bits)
    }

    /// Tosses a coin.
    pub fn coin(&mut self) -> (r: bool)
        requires
            old(self).sound(),
        ensures
            r == coin(old(self).deck(), old(self).at),
            final(self).at == after(old(self).at),
            final(self).draws == old(self).draws,
    {
        self.ask(Draw::Coin) != 0
    }

    /// Draws an integer.
    pub fn word(&mut self) -> (r: u32)
        requires
            old(self).sound(),
        ensures
            r == word(old(self).deck(), old(self).at),
            final(self).at == after(old(self).at),
            final(self).draws == old(self).draws,
    {
        let bits: u64 = self.ask(Draw::Word);
        (bits % 0x1_0000_0000) as u32
    }

    /// Decides for a change that has the probability `rate`.
    pub fn hit(&mut self, rate: F32) -> (r: bool)
        requires
            old(self).sound(),
        ensures
            r == hit(old(self).deck(), old(self).at, rate),
            final(self).at == after(old(self).at),
            final(self).draws == old(self).draws,
    {
        self.unit().lt(rate)
    }
}

/// A uniform step of up to `half` either way, from a draw.
pub open spec fn spec_step(u: F32, half: F32) -> F32 {
    u.minus(F32::of(HALF)).times(F32::of(TWO)).times(half)
}

/// A uniform step of up to `half` either way, from a draw.
#[verifier::when_used_as_spec(spec_step)]
fn step(u: F32, half: F32) -> (r: F32)
    ensures
        r == step(u, half),
{
    u.minus(F32::of(HALF)).times(F32::of(TWO)).times(half)
}

/// A number after mutation by a uniform step, and the next draw.
pub open spec fn mutated_f32(
    val: F32,
    d: spec_fn(u64, Draw) -> u64,
    at: u64,
    rate: F32,
    half: F32,
    min: F32,
    max: F32,
) -> (F32, u64) {
    if hit(d, at, rate) {
        (val.plus(spec_step(unit(d, after(at)), half)).clamp(min, max), nth(at, 2))
    } else {
        (val, nth(at, 1))
    }
}

/// A number after mutation by a factor of up to `half_octaves` octaves either
/// way, and the next draw.
pub open spec fn mutated_log(
    val: F32,
    d: spec_fn(u64, Draw) -> u64,
    f: spec_fn(Elementary, F32) -> F32,
    at: u64,
    rate: F32,
    half_octaves: F32,
    min: F32,
    max: F32,
) -> (F32, u64) {
    if hit(d, at, rate) {
        (
            val.times(f(Elementary::Exp2, spec_step(unit(d, after(at)), half_octaves))).clamp(
                min,
                max,
            ),
            nth(at, 2),
        )
    } else {
        (val, nth(at, 1))
    }
}

/// A 64-bit number after mutation by a uniform step, and the next draw.
pub open spec fn mutated_f64(
    val: F64,
    d: spec_fn(u64, Draw) -> u64,
    at: u64,
    rate: F32,
    half: F64,
    min: F64,
    max: F64,
) -> (F64, u64) {
    if hit(d, at, rate) {
        (
            val.plus(
                wide_unit(d, after(at)).minus(F64::of(WIDE_HALF)).times(F64::of(WIDE_TWO)).times(
                    half,
                ),
            ).clamp(min, max),
            nth(at, 2),
        )
    } else {
        (val, nth(at, 1))
    }
}

/// The nearest integer from `min` to `max`, which is at least `min`.
pub open spec fn spec_bounded_usize(val: usize, min: usize, max: usize) -> usize {
    if val < min {
        min
    } else if val > max {
        max
    } else {
        val
    }
}

/// The nearest integer from `min` to `max`, which is at least `min`.
#[verifier::when_used_as_spec(spec_bounded_usize)]
pub fn bounded_usize(val: usize, min: usize, max: usize) -> (r: usize)
    ensures
        r == bounded_usize(val, min, max),
{
    if val < min {
        min
    } else if val > max {
        max
    } else {
        val
    }
}

/// An integer after mutation by one step, and the next draw.
pub open spec fn mutated_usize(
    val: usize,
    d: spec_fn(u64, Draw) -> u64,
    at: u64,
    rate: F32,
    min: usize,
    max: usize,
) -> (usize, u64) {
    if hit(d, at, rate) {
        (
            if coin(d, after(at)) {
                bounded_usize(val.saturating_add(1), min, max)
            } else {
                bounded_usize(val.saturating_sub(1), min, max)
            },
            nth(at, 2),
        )
    } else {
        (val, nth(at, 1))
    }
}

/// A seed after mutation, and the next draw.
pub open spec fn mutated_seed(
    val: u32,
    d: spec_fn(u64, Draw) -> u64,
    at: u64,
    rate: F32,
) -> (u32, u64) {
    if hit(d, at, rate) {
        (word(d, after(at)), nth(at, 2))
    } else {
        (val, nth(at, 1))
    }
}

/// A choice among `count` after mutation, and the next draw: the choice after
/// this one, the first after the last.
pub open spec fn mutated_choice(
    val: usize,
    d: spec_fn(u64, Draw) -> u64,
    at: u64,
    rate: F32,
    count: usize,
) -> (usize, u64) {
    if hit(d, at, rate) {
        (
            if val + 1 < count {
                (val + 1) as usize
            } else {
                0
            },
            nth(at, 1),
        )
    } else {
        (val, nth(at, 1))
    }
}

/// One of two parents' values.
pub open spec fn picked<A>(a: A, b: A, d: spec_fn(u64, Draw) -> u64, at: u64) -> A {
    if coin(d, at) {
        a
    } else {
        b
    }
}

/// Bits of the 64-bit number `0.5`.
pub const WIDE_HALF: u64 = 0x3fe0_0000_0000_0000;

/// Bits of the 64-bit number `2.0`.
pub const WIDE_TWO: u64 = 0x4000_0000_0000_0000;

/// Mutates a number by a uniform step, with the probability `rate`.
pub fn mutate_f32<D: Fn(u64, Draw) -> u64>(
    val: F32,
    tape: &mut Tape<'_, D>,
    rate: F32,
    half_range: F32,
    min: F32,
    max: F32,
) -> (r: F32)
    requires
        old(tape).sound(),
        min.le(max),
    ensures
        ({
            let (v, at): (F32, u64) = mutated_f32(
                val,
                old(tape).deck(),
                old(tape).at,
                rate,
                half_range,
                min,
                max,
            );
            &&& r == v
            &&& final(tape).at == at
        }),
        final(tape).draws == old(tape).draws,
{
    proof {
        reveal_with_fuel(nth, 3);
    }
    if tape.hit(rate) {
        let u: F32 = tape.unit();
        val.plus(step(u, half_range)).clamp(min, max)
    } else {
        val
    }
}

/// Mutates a number by a factor, with the probability `rate`.
pub fn mutate_f32_log<D: Fn(u64, Draw) -> u64, M: Fn(Elementary, F32) -> F32>(
    val: F32,
    tape: &mut Tape<'_, D>,
    rate: F32,
    half_octaves: F32,
    min: F32,
    max: F32,
    math: &M,
) -> (r: F32)
    requires
        old(tape).sound(),
        elementary::answers(*math),
        min.le(max),
    ensures
        ({
            let (v, at): (F32, u64) = mutated_log(
                val,
                old(tape).deck(),
                elementary::table(*math),
                old(tape).at,
                rate,
                half_octaves,
                min,
                max,
            );
            &&& r == v
            &&& final(tape).at == at
        }),
        final(tape).draws == old(tape).draws,
{
    proof {
        reveal_with_fuel(nth, 3);
    }
    if tape.hit(rate) {
        let u: F32 = tape.unit();
        let factor: F32 = elementary::ask(math, Elementary::Exp2, step(u, half_octaves));
        val.times(factor).clamp(min, max)
    } else {
        val
    }
}

/// Mutates a 64-bit number by a uniform step, with the probability `rate`.
pub fn mutate_f64<D: Fn(u64, Draw) -> u64>(
    val: F64,
    tape: &mut Tape<'_, D>,
    rate: F32,
    half_range: F64,
    min: F64,
    max: F64,
) -> (r: F64)
    requires
        old(tape).sound(),
        min.le(max),
    ensures
        ({
            let (v, at): (F64, u64) = mutated_f64(
                val,
                old(tape).deck(),
                old(tape).at,
                rate,
                half_range,
                min,
                max,
            );
            &&& r == v
            &&& final(tape).at == at
        }),
        final(tape).draws == old(tape).draws,
{
    proof {
        reveal_with_fuel(nth, 3);
    }
    if tape.hit(rate) {
        let u: F64 = tape.wide_unit();
        val.plus(
            u.minus(F64::of(WIDE_HALF)).times(F64::of(WIDE_TWO)).times(half_range),
        ).clamp(min, max)
    } else {
        val
    }
}

/// Mutates an integer by one step, with the probability `rate`.
pub fn mutate_usize<D: Fn(u64, Draw) -> u64>(
    val: usize,
    tape: &mut Tape<'_, D>,
    rate: F32,
    min: usize,
    max: usize,
) -> (r: usize)
    requires
        old(tape).sound(),
    ensures
        ({
            let (v, at): (usize, u64) = mutated_usize(
                val,
                old(tape).deck(),
                old(tape).at,
                rate,
                min,
                max,
            );
            &&& r == v
            &&& final(tape).at == at
        }),
        final(tape).draws == old(tape).draws,
{
    proof {
        reveal_with_fuel(nth, 3);
    }
    if tape.hit(rate) {
        if tape.coin() {
            bounded_usize(val.saturating_add(1), min, max)
        } else {
            bounded_usize(val.saturating_sub(1), min, max)
        }
    } else {
        val
    }
}

/// Replaces a seed, with the probability `rate`.
pub fn mutate_seed<D: Fn(u64, Draw) -> u64>(val: u32, tape: &mut Tape<'_, D>, rate: F32) -> (r: u32)
    requires
        old(tape).sound(),
    ensures
        ({
            let (v, at): (u32, u64) = mutated_seed(val, old(tape).deck(), old(tape).at, rate);
            &&& r == v
            &&& final(tape).at == at
        }),
        final(tape).draws == old(tape).draws,
{
    proof {
        reveal_with_fuel(nth, 3);
    }
    if tape.hit(rate) {
        tape.word()
    } else {
        val
    }
}

/// Moves a choice among `count` on by one, with the probability `rate`.
pub fn mutate_choice<D: Fn(u64, Draw) -> u64>(
    val: usize,
    tape: &mut Tape<'_, D>,
    rate: F32,
    count: usize,
) -> (r: usize)
    requires
        old(tape).sound(),
        val < count,
    ensures
        ({
            let (v, at): (usize, u64) = mutated_choice(
                val,
                old(tape).deck(),
                old(tape).at,
                rate,
                count,
            );
            &&& r == v
            &&& final(tape).at == at
        }),
        final(tape).draws == old(tape).draws,
{
    proof {
        reveal_with_fuel(nth, 3);
    }
    if tape.hit(rate) {
        if val + 1 < count {
            val + 1
        } else {
            0
        }
    } else {
        val
    }
}

/// The numbers drawn lie between zero and one.
pub open spec fn fair(d: spec_fn(u64, Draw) -> u64) -> bool {
    forall|i: u64| envelope::within(#[trigger] unit(d, i), F32::of(0), F32::of(ONE))
}

/// Two to the power of any number is a number.
pub open spec fn powers(f: spec_fn(Elementary, F32) -> F32) -> bool {
    forall|x: F32| !x.is_nan() ==> !(#[trigger] f(Elementary::Exp2, x)).is_nan()
}

/// A mutated number stays in its range.
pub proof fn lemma_f32_stays(
    val: F32,
    d: spec_fn(u64, Draw) -> u64,
    at: u64,
    rate: F32,
    half: u32,
    min: u32,
    max: u32,
)
    requires
        fair(d),
        envelope::within(val, F32::of(min), F32::of(max)),
        -0x7f80_0000 < envelope::rank_of(min) <= envelope::rank_of(max) < 0x7f80_0000,
        0 < half < 0x7f80_0000,
    ensures
        envelope::within(
            mutated_f32(val, d, at, rate, F32::of(half), F32::of(min), F32::of(max)).0,
            F32::of(min),
            F32::of(max),
        ),
{
    let u: F32 = unit(d, after(at));
    envelope::lemma_rank(min, max);
    envelope::lemma_rank(HALF, HALF);
    numbers::lemma_number_minus(u, F32::of(HALF));
    numbers::lemma_number_times(u.minus(F32::of(HALF)), TWO);
    numbers::lemma_number_times(u.minus(F32::of(HALF)).times(F32::of(TWO)), half);
    numbers::lemma_number_plus(val, spec_step(u, F32::of(half)));
    envelope::lemma_clamp_within(
        val.plus(spec_step(u, F32::of(half))),
        F32::of(min),
        F32::of(max),
    );
}

/// A number mutated by a factor stays in its range.
pub proof fn lemma_log_stays(
    val: F32,
    d: spec_fn(u64, Draw) -> u64,
    f: spec_fn(Elementary, F32) -> F32,
    at: u64,
    rate: F32,
    half: u32,
    min: u32,
    max: u32,
)
    requires
        fair(d),
        powers(f),
        envelope::within(val, F32::of(min), F32::of(max)),
        0 < min <= max < 0x7f80_0000,
        0 < half < 0x7f80_0000,
    ensures
        envelope::within(
            mutated_log(val, d, f, at, rate, F32::of(half), F32::of(min), F32::of(max)).0,
            F32::of(min),
            F32::of(max),
        ),
{
    let u: F32 = unit(d, after(at));
    envelope::lemma_rank(min, max);
    envelope::lemma_rank(HALF, HALF);
    numbers::lemma_number_minus(u, F32::of(HALF));
    numbers::lemma_number_times(u.minus(F32::of(HALF)), TWO);
    numbers::lemma_number_times(u.minus(F32::of(HALF)).times(F32::of(TWO)), half);
    let factor: F32 = f(Elementary::Exp2, spec_step(u, F32::of(half)));
    numbers::lemma_positive_times(val, factor, min);
    envelope::lemma_clamp_within(val.times(factor), F32::of(min), F32::of(max));
}

/// A configuration that can be mutated and crossed with another.
pub trait Evolvable: Sized {
    /// The configuration after mutation, and the next draw.
    spec fn mutated(
        self,
        d: spec_fn(u64, Draw) -> u64,
        f: spec_fn(Elementary, F32) -> F32,
        at: u64,
        rate: F32,
    ) -> (Self, u64);

    /// A child of two configurations, and the next draw.
    spec fn crossed(self, other: Self, d: spec_fn(u64, Draw) -> u64, at: u64) -> (Self, u64);

    /// Every number lies in the range that mutation keeps it in.
    spec fn in_range(self) -> bool;

    /// Mutation has no other change to make than that of the fields.
    spec fn settled(self) -> bool;

    /// Every field is one of two parents'.
    spec fn child_of(self, a: Self, b: Self) -> bool;

    /// Where no draw decides for a change, nothing changes.
    proof fn lemma_misses(
        self,
        d: spec_fn(u64, Draw) -> u64,
        f: spec_fn(Elementary, F32) -> F32,
        at: u64,
        rate: F32,
    )
        requires
            forall|i: u64| !#[trigger] hit(d, i, rate),
            self.settled(),
        ensures
            self.mutated(d, f, at, rate).0 == self,
    ;

    /// Mutation leaves every number in its range.
    proof fn lemma_stays_in_range(
        self,
        d: spec_fn(u64, Draw) -> u64,
        f: spec_fn(Elementary, F32) -> F32,
        at: u64,
        rate: F32,
    )
        requires
            self.in_range(),
            fair(d),
            powers(f),
        ensures
            self.mutated(d, f, at, rate).0.in_range(),
    ;

    /// A child has every field from one of its parents.
    proof fn lemma_child(self, other: Self, d: spec_fn(u64, Draw) -> u64, at: u64)
        ensures
            self.crossed(other, d, at).0.child_of(self, other),
    ;

    /// Mutates every field with the probability `rate`.
    fn mutate<D: Fn(u64, Draw) -> u64, M: Fn(Elementary, F32) -> F32>(
        &mut self,
        tape: &mut Tape<'_, D>,
        rate: F32,
        math: &M,
    )
        requires
            old(tape).sound(),
            elementary::answers(*math),
        ensures
            ({
                let (v, at): (Self, u64) = old(self).mutated(
                    old(tape).deck(),
                    elementary::table(*math),
                    old(tape).at,
                    rate,
                );
                &&& *final(self) == v
                &&& final(tape).at == at
            }),
            final(tape).draws == old(tape).draws,
    ;

    /// Takes every field from one of two parents.
    fn crossover<D: Fn(u64, Draw) -> u64>(&self, other: &Self, tape: &mut Tape<'_, D>) -> (r: Self)
        requires
            old(tape).sound(),
        ensures
            ({
                let (v, at): (Self, u64) = self.crossed(*other, old(tape).deck(), old(tape).at);
                &&& r == v
                &&& final(tape).at == at
            }),
            final(tape).draws == old(tape).draws,
    ;
}

/// At a rate that is not above zero no draw decides for a change.
pub proof fn lemma_zero_rate_misses(d: spec_fn(u64, Draw) -> u64, rate: F32)
    requires
        fair(d),
        !F32::of(0).lt(rate),
    ensures
        forall|i: u64| !#[trigger] hit(d, i, rate),
{
    assert forall|i: u64| !#[trigger] hit(d, i, rate) by {
        assert(envelope::within(unit(d, i), F32::of(0), F32::of(ONE)));
        numbers::lemma_order(F32::of(0), unit(d, i), rate);
    }
}

/// At a rate of zero, or of less than zero, mutation changes nothing.
pub proof fn law_zero_rate_changes_nothing<T: Evolvable>(
    v: T,
    d: spec_fn(u64, Draw) -> u64,
    f: spec_fn(Elementary, F32) -> F32,
    at: u64,
    rate: F32,
)
    requires
        fair(d),
        v.settled(),
        !F32::of(0).lt(rate),
    ensures
        v.mutated(d, f, at, rate).0 == v,
{
    lemma_zero_rate_misses(d, rate);
    v.lemma_misses(d, f, at, rate);
}

/// However often it is mutated, a configuration stays in its range.
pub proof fn law_mutation_stays_in_range<T: Evolvable>(
    v: T,
    d: spec_fn(u64, Draw) -> u64,
    f: spec_fn(Elementary, F32) -> F32,
    at: u64,
    rate: F32,
)
    requires
        v.in_range(),
        fair(d),
        powers(f),
    ensures
        v.mutated(d, f, at, rate).0.in_range(),
{
    v.lemma_stays_in_range(d, f, at, rate);
}

/// A child has every field from one of its parents.
pub proof fn law_child_has_its_parents_fields<T: Evolvable>(
    a: T,
    b: T,
    d: spec_fn(u64, Draw) -> u64,
    at: u64,
)
    ensures
        a.crossed(b, d, at).0.child_of(a, b),
{
    a.lemma_child(b, d, at);
}

/// An integer that is mutated lies between its bounds, whatever it was, and
/// one that was between them moves by at most one step.
pub proof fn law_integers_step_within_bounds(
    val: usize,
    d: spec_fn(u64, Draw) -> u64,
    at: u64,
    rate: F32,
    min: usize,
    max: usize,
)
    requires
        min <= max,
    ensures
        ({
            let r: usize = mutated_usize(val, d, at, rate, min, max).0;
            &&& hit(d, at, rate) ==> min <= r <= max
            &&& !hit(d, at, rate) ==> r == val
            &&& min <= val <= max ==> min <= r <= max && val - 1 <= r <= val + 1
        }),
{
}

} // verus!
