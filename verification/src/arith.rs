//! Correctly rounded binary arithmetic on signed encodings.
//!
//! The operations are those of the IEEE 754 interchange formats with
//! rounding to nearest, ties to even: each finite result is the encoding of
//! the exact result.  Every operation that yields not-a-number yields the
//! one quiet pattern [`Parts::nan`].
use crate::pack;
use crate::rounding;
use crate::rounding::Width;
use vstd::arithmetic::div_mod::*;
use vstd::arithmetic::mul::*;
use vstd::arithmetic::power2::*;
use vstd::prelude::*;

verus! {

/// A sign and an encoding.
#[derive(Clone, Copy, Debug, PartialEq, Eq, Structural)]
pub struct Parts {
    /// The sign bit.
    pub neg: bool,
    /// Everything but the sign bit.
    pub code: u64,
}

/// Where a fraction goes when a number becomes an integer.
#[derive(Clone, Copy, Debug, PartialEq, Eq, Structural)]
pub enum Toward {
    /// To the integer below.
    Down,
    /// To the integer above.
    Up,
    /// To the nearer integer, a half away from zero.
    Nearest,
}

impl Parts {
    /// The quiet not-a-number pattern that operations yield.
    pub open spec fn nan(w: Width) -> Parts {
        Parts { neg: false, code: (w.infinity() + w.step() / 2) as u64 }
    }

    /// Infinity with the given sign.
    pub open spec fn inf(w: Width, neg: bool) -> Parts {
        Parts { neg, code: w.infinity() as u64 }
    }

    /// Not a number.
    pub open spec fn is_nan(self, w: Width) -> bool {
        self.code > w.infinity()
    }

    /// Plus or minus infinity.
    pub open spec fn is_inf(self, w: Width) -> bool {
        self.code == w.infinity()
    }

    /// Neither infinite nor not-a-number.
    pub open spec fn is_finite(self, w: Width) -> bool {
        self.code < w.infinity()
    }

    /// The pattern needs no more bits than the format has.
    pub open spec fn fits(self, w: Width) -> bool {
        self.code <= w.infinity() + w.step() / 2
    }

    /// The magnitude of a finite number, in units.
    pub open spec fn size(self, w: Width) -> int {
        rounding::units(w, self.code as int)
    }

    /// A finite number, in units.
    pub open spec fn value(self, w: Width) -> int {
        if self.neg {
            -self.size(w)
        } else {
            self.size(w)
        }
    }

    /// An integer that orders all patterns but the not-a-number ones.
    pub open spec fn rank(self) -> int {
        if self.neg {
            -(self.code as int)
        } else {
            self.code as int
        }
    }

    /// The rounded number of `num / den` units with the given sign.
    pub open spec fn rounded(w: Width, neg: bool, num: int, den: int) -> Parts {
        Parts { neg, code: rounding::encode(w, num, den) as u64 }
    }

    /// The rounded sum.  An exact zero is positive unless both are negative.
    pub open spec fn sum(w: Width, a: Parts, b: Parts) -> Parts {
        if a.is_nan(w) || b.is_nan(w) {
            Parts::nan(w)
        } else if a.is_inf(w) {
            if b.is_inf(w) && a.neg != b.neg {
                Parts::nan(w)
            } else {
                a
            }
        } else if b.is_inf(w) {
            b
        } else {
            let total: int = a.value(w) + b.value(w);
            if total == 0 {
                Parts { neg: a.neg && b.neg, code: 0 }
            } else if total < 0 {
                Parts::rounded(w, true, -total, 1)
            } else {
                Parts::rounded(w, false, total, 1)
            }
        }
    }

    /// The rounded product.
    pub open spec fn product(w: Width, a: Parts, b: Parts) -> Parts {
        let neg: bool = a.neg != b.neg;
        if a.is_nan(w) || b.is_nan(w) {
            Parts::nan(w)
        } else if a.is_inf(w) || b.is_inf(w) {
            if a.code == 0 || b.code == 0 {
                Parts::nan(w)
            } else {
                Parts::inf(w, neg)
            }
        } else {
            Parts::rounded(w, neg, a.size(w) * b.size(w), pow2(w.unit()) as int)
        }
    }

    /// The rounded quotient.
    pub open spec fn quotient(w: Width, a: Parts, b: Parts) -> Parts {
        let neg: bool = a.neg != b.neg;
        if a.is_nan(w) || b.is_nan(w) || (a.is_inf(w) && b.is_inf(w)) || (a.code == 0 && b.code
            == 0) {
            Parts::nan(w)
        } else if a.is_inf(w) || b.code == 0 {
            Parts::inf(w, neg)
        } else if b.is_inf(w) {
            Parts { neg, code: 0 }
        } else {
            Parts::rounded(w, neg, a.size(w) * pow2(w.unit()), b.size(w))
        }
    }

    /// What is left of `a` after taking `b` away as often as it goes, with
    /// the sign of `a`.  Always exact.
    pub open spec fn remainder(w: Width, a: Parts, b: Parts) -> Parts {
        if a.is_nan(w) || b.is_nan(w) || a.is_inf(w) || b.code == 0 {
            Parts::nan(w)
        } else if b.is_inf(w) {
            a
        } else {
            Parts::rounded(w, a.neg, a.size(w) % b.size(w), 1)
        }
    }

    /// The number without its fraction, or the integer next to it.
    pub open spec fn integral(w: Width, a: Parts, toward: Toward) -> Parts {
        if a.is_nan(w) {
            Parts::nan(w)
        } else if a.is_inf(w) {
            a
        } else {
            let up: bool = match toward {
                Toward::Down => a.neg && a.has_fraction(w),
                Toward::Up => !a.neg && a.has_fraction(w),
                Toward::Nearest => a.past_half(w),
            };
            Parts::integer(
                w,
                a.neg,
                if up {
                    a.whole(w) + 1
                } else {
                    a.whole(w)
                },
            )
        }
    }

    /// The fraction of a finite number is a half or more.
    pub open spec fn past_half(self, w: Width) -> bool {
        2 * (self.size(w) % (pow2(w.unit()) as int)) >= pow2(w.unit())
    }

    /// A number as an unsigned integer: the fraction dropped, negative
    /// numbers and not-a-number as zero, `limit` where the number is larger.
    pub open spec fn unsigned(self, w: Width, limit: int) -> int {
        if self.is_nan(w) || self.neg {
            0
        } else if self.is_inf(w) || self.whole(w) > limit {
            limit
        } else {
            self.whole(w)
        }
    }

    /// Less than, false where one is not a number.
    pub open spec fn below(w: Width, a: Parts, b: Parts) -> bool {
        !a.is_nan(w) && !b.is_nan(w) && a.rank() < b.rank()
    }

    /// Equal as numbers, false where one is not a number.
    pub open spec fn same(w: Width, a: Parts, b: Parts) -> bool {
        !a.is_nan(w) && !b.is_nan(w) && a.rank() == b.rank()
    }

    /// A 32-bit number in the 64-bit format.
    pub open spec fn widened(a: Parts) -> Parts {
        if a.is_nan(Width::Single) {
            Parts::nan(Width::Double)
        } else if a.is_inf(Width::Single) {
            Parts::inf(Width::Double, a.neg)
        } else {
            Parts::rounded(Width::Double, a.neg, a.size(Width::Single) * pow2(925), 1)
        }
    }

    /// A 64-bit number rounded to the 32-bit format.
    pub open spec fn narrowed(a: Parts) -> Parts {
        if a.is_nan(Width::Double) {
            Parts::nan(Width::Single)
        } else if a.is_inf(Width::Double) {
            Parts::inf(Width::Single, a.neg)
        } else {
            Parts::rounded(Width::Single, a.neg, a.size(Width::Double), pow2(925) as int)
        }
    }

    /// The integer `n`.
    pub open spec fn integer(w: Width, neg: bool, n: int) -> Parts {
        Parts::rounded(w, neg, n * pow2(w.unit()), 1)
    }

    /// The magnitude of a finite number without its fraction.
    pub open spec fn whole(self, w: Width) -> int {
        self.size(w) / (pow2(w.unit()) as int)
    }

    /// A finite number has a fraction.
    pub open spec fn has_fraction(self, w: Width) -> bool {
        self.size(w) % (pow2(w.unit()) as int) != 0
    }
}

/// The encoding of `n * 2^x` over `2^y` by the difference of the exponents.
proof fn lemma_encode_shifted(w: Width, n: int, x: nat, y: nat)
    requires
        n >= 0,
    ensures
        rounding::encode(w, n * pow2(x), pow2(y) as int) == rounding::encode(
            w,
            rounding::shifted_num(n, x - y),
            rounding::shifted_den(x - y),
        ),
        pow2(y) > 0,
        n * pow2(x) >= 0,
{
    lemma_pow2_pos(y);
    lemma_pow2_pos(x);
    lemma_mul_nonnegative(n, pow2(x) as int);
    let num: int = n * pow2(x);
    let den: int = pow2(y) as int;
    let e: int = x - y;
    if e >= 0 {
        lemma_pow2_adds(e as nat, y);
        lemma_pow2_pos(e as nat);
        lemma_mul_nonnegative(n, pow2(e as nat) as int);
        assert(num * 1 == (n * pow2(e as nat)) * den) by (nonlinear_arith)
            requires
                num == n * pow2(x),
                pow2(x) == pow2(e as nat) * den,
        ;
        rounding::lemma_encode_ratio(w, num, den, n * pow2(e as nat), 1);
    } else {
        lemma_pow2_adds(x, (-e) as nat);
        lemma_pow2_pos((-e) as nat);
        assert(num * pow2((-e) as nat) == n * den) by (nonlinear_arith)
            requires
                num == n * pow2(x),
                den == pow2(x) * pow2((-e) as nat),
        ;
        rounding::lemma_encode_ratio(w, num, den, n, pow2((-e) as nat) as int);
    }
}

/// A finite encoding as an integer times a power of two.
pub struct Split {
    /// The significand.
    pub sig: u64,
    /// The exponent.
    pub exp: i32,
}

impl Split {
    /// What an encoding splits into.
    pub open spec fn of(self, w: Width, code: int) -> bool {
        &&& rounding::units(w, code) == self.sig * pow2(self.exp as nat)
        &&& self.sig < 2 * w.step()
        &&& 0 <= self.exp < w.top_field()
        &&& self.exp > 0 ==> self.sig >= w.step()
        &&& self.sig == 0 <==> code == 0
        &&& self.exp == (if code < w.step() {
            0
        } else {
            code / w.step() - 1
        })
    }
}

/// Splits a finite encoding.
fn split(w: Width, code: u64) -> (r: Split)
    requires
        code < w.infinity(),
    ensures
        r.of(w, code as int),
{
    proof {
        rounding::lemma_units_parts(w, code as int);
        lemma2_to64();
        assert(code * pow2(0) == code) by (nonlinear_arith)
            requires
                pow2(0) == 1,
        ;
    }
    let step: u64 = match w {
        Width::Single => 0x80_0000,
        Width::Double => 0x10_0000_0000_0000,
    };
    if code < step {
        Split { sig: code, exp: 0 }
    } else {
        Split { sig: step + code % step, exp: (code / step) as i32 - 1 }
    }
}

/// The quiet not-a-number pattern.
pub fn quiet(w: Width) -> (r: Parts)
    ensures
        r == Parts::nan(w),
        r.is_nan(w),
        r.code < w.infinity() + w.step(),
{
    match w {
        Width::Single => Parts { neg: false, code: 0x7fc0_0000 },
        Width::Double => Parts { neg: false, code: 0x7ff8_0000_0000_0000 },
    }
}

/// A far smaller term only nudges the larger one off its encoding point.
proof fn lemma_sticky(w: Width, sig: int, exp: int, low: int, low_exp: int, less: bool)
    requires
        w.step() <= sig < 2 * w.step(),
        0 < low < 2 * w.step(),
        0 <= low_exp,
        exp - low_exp > 64,
    ensures
        ({
            let big: int = sig * pow2(exp as nat);
            let small: int = low * pow2(low_exp as nat);
            let exact: int = if less {
                big - small
            } else {
                big + small
            };
            let n: int = if less {
                16 * sig - 1
            } else {
                16 * sig + 1
            };
            &&& exact > 0
            &&& rounding::encode(w, exact, 1) == rounding::encode(
                w,
                rounding::shifted_num(n, exp - 4),
                rounding::shifted_den(exp - 4),
            )
        }),
{
    let e: int = exp - 3;
    let p: int = pow2(e as nat) as int;
    let big: int = sig * pow2(exp as nat);
    let small: int = low * pow2(low_exp as nat);
    rounding::lemma_step(w);
    lemma_pow2_adds(e as nat, 3);
    lemma2_to64();
    lemma2_to64_rest();
    assert(big == (8 * sig) * p) by (nonlinear_arith)
        requires
            big == sig * pow2(exp as nat),
            pow2(exp as nat) == p * 8,
    ;
    lemma_pow2_pos(low_exp as nat);
    lemma_pow2_adds(low_exp as nat, 53);
    rounding::lemma_pow2_increases((low_exp + 53) as nat, e as nat);
    let lp: int = pow2(low_exp as nat) as int;
    let two53: int = pow2(53) as int;
    assert(0 < small < p) by (nonlinear_arith)
        requires
            small == low * lp,
            0 < low < two53,
            lp > 0,
            lp * two53 <= p,
    ;
    let c: int = if less {
        8 * sig - 1
    } else {
        8 * sig
    };
    let exact: int = if less {
        big - small
    } else {
        big + small
    };
    assert(c * p < exact < (c + 1) * p) by (nonlinear_arith)
        requires
            big == (8 * sig) * p,
            0 < small < p,
            (c == 8 * sig - 1 && exact == big - small) || (c == 8 * sig && exact == big + small),
    ;
    assert(exact > 0) by (nonlinear_arith)
        requires
            c * p < exact,
            c >= 0,
            p > 0,
    ;
    lemma_mul_basics_3(c * p);
    lemma_mul_basics_3((c + 1) * p);
    lemma_mul_basics_3(exact);
    assert(rounding::in_cell(exact, 1, c, e));
    rounding::lemma_middle_in_cell(c, e);
    rounding::lemma_encode_cell(
        w,
        exact,
        1,
        rounding::shifted_num(2 * c + 1, e - 1),
        rounding::shifted_den(e - 1),
        c,
        e,
    );
}

proof fn lemma_aligned(big: int, exp: int, low: int, low_exp: int)
    requires
        0 <= low_exp <= exp,
    ensures
        big * pow2(exp as nat) + low * pow2(low_exp as nat) == (big * pow2((exp - low_exp) as nat)
            + low) * pow2(low_exp as nat),
        big * pow2(exp as nat) - low * pow2(low_exp as nat) == (big * pow2((exp - low_exp) as nat)
            - low) * pow2(low_exp as nat),
{
    lemma_pow2_adds((exp - low_exp) as nat, low_exp as nat);
    let d: int = pow2((exp - low_exp) as nat) as int;
    let p: int = pow2(low_exp as nat) as int;
    assert(big * (d * p) + low * p == (big * d + low) * p) by (nonlinear_arith);
    assert(big * (d * p) - low * p == (big * d - low) * p) by (nonlinear_arith);
}

/// The sum of two finite numbers by their magnitudes.
proof fn lemma_sum_sizes(w: Width, a: Parts, b: Parts)
    requires
        a.is_finite(w),
        b.is_finite(w),
        a.size(w) >= b.size(w),
    ensures
        a.neg == b.neg ==> Parts::sum(w, a, b) == Parts::rounded(
            w,
            a.neg,
            a.size(w) + b.size(w),
            1,
        ),
        a.neg != b.neg ==> Parts::sum(w, a, b) == Parts::rounded(
            w,
            a.neg && a.size(w) != b.size(w),
            a.size(w) - b.size(w),
            1,
        ),
{
    rounding::lemma_encode_exact(w, a.code as int);
    rounding::lemma_encode_exact(w, b.code as int);
    pack::lemma_encode_zero(w, 1);
}

/// The encoding of the sum or difference of two near magnitudes.
fn combine_near(w: Width, x: Split, y: Split, less: bool) -> (r: (u64, bool))
    requires
        x.sig < 2 * w.step(),
        y.sig < 2 * w.step(),
        0 <= y.exp <= x.exp <= y.exp + 64,
        x.exp <= 2047,
        less ==> x.sig * pow2(x.exp as nat) >= y.sig * pow2(y.exp as nat),
    ensures
        ({
            let big: int = x.sig * pow2(x.exp as nat);
            let low: int = y.sig * pow2(y.exp as nat);
            let exact: int = if less {
                big - low
            } else {
                big + low
            };
            &&& r.0 == rounding::encode(w, exact, 1)
            &&& r.0 <= w.infinity()
            &&& r.1 <==> exact == 0
        }),
{
    let d: u32 = (x.exp - y.exp) as u32;
    let ghost s: int = pow2(d as nat) as int;
    let ghost p: int = pow2(y.exp as nat) as int;
    proof {
        rounding::lemma_step(w);
        lemma_aligned(x.sig as int, x.exp as int, y.sig as int, y.exp as int);
        rounding::lemma_pow2_increases(d as nat, 64);
        lemma2_to64();
        lemma_pow2_pos(y.exp as nat);
        assert(0 <= x.sig * s < 0x20_0000_0000_0000 * 0x1_0000_0000_0000_0000) by (nonlinear_arith)
            requires
                x.sig < 0x20_0000_0000_0000,
                1 <= s <= 0x1_0000_0000_0000_0000,
        ;
    }
    let high: u128 = (x.sig as u128) * pack::two_to(d);
    let n: u128 = if less {
        assert(high >= y.sig) by (nonlinear_arith)
            requires
                (high as int - y.sig as int) * p >= 0,
                p > 0,
        ;
        high - y.sig as u128
    } else {
        high + y.sig as u128
    };
    assert(n == 0 <==> n * p == 0) by (nonlinear_arith)
        requires
            p > 0,
    ;
    (pack::pack(w, n, y.exp), n == 0)
}

/// The encoding of the sum or difference of two magnitudes far apart.
fn combine_far(w: Width, x: Split, y: Split, less: bool) -> (r: u64)
    requires
        w.step() <= x.sig < 2 * w.step(),
        0 < y.sig < 2 * w.step(),
        0 <= y.exp,
        y.exp + 64 < x.exp <= 2047,
    ensures
        ({
            let big: int = x.sig * pow2(x.exp as nat);
            let low: int = y.sig * pow2(y.exp as nat);
            let exact: int = if less {
                big - low
            } else {
                big + low
            };
            &&& r == rounding::encode(w, exact, 1)
            &&& r <= w.infinity()
            &&& exact > 0
        }),
{
    proof {
        lemma_sticky(w, x.sig as int, x.exp as int, y.sig as int, y.exp as int, less);
        rounding::lemma_step(w);
    }
    let wide: u128 = (x.sig as u128) * 16;
    let n: u128 = if less {
        wide - 1
    } else {
        wide + 1
    };
    pack::pack(w, n, x.exp - 4)
}

/// The sum of two finite numbers, the first at least as large in magnitude.
fn sum_ordered(w: Width, a: Parts, b: Parts) -> (r: Parts)
    requires
        b.code <= a.code < w.infinity(),
    ensures
        r == Parts::sum(w, a, b),
{
    let x: Split = split(w, a.code);
    let y: Split = split(w, b.code);
    let less: bool = a.neg != b.neg;
    proof {
        if b.code < a.code {
            rounding::lemma_units_order(w, b.code as int, a.code as int);
        }
        lemma_sum_sizes(w, a, b);
        lemma_div_is_ordered(b.code as int, a.code as int, w.step());
        rounding::lemma_units_parts(w, a.code as int);
        rounding::lemma_units_parts(w, b.code as int);
    }
    assert(y.exp <= x.exp);
    if x.exp - y.exp <= 64 {
        let (code, zero) = combine_near(w, x, y, less);
        Parts { neg: a.neg && !(less && zero), code }
    } else if y.sig == 0 {
        proof {
            rounding::lemma_encode_exact(w, a.code as int);
            rounding::lemma_units_order(w, 0, a.code as int);
        }
        a
    } else {
        let code: u64 = combine_far(w, x, y, less);
        Parts { neg: a.neg, code }
    }
}

impl Parts {
    /// `a + b`.
    pub fn plus(w: Width, a: Parts, b: Parts) -> (r: Parts)
        ensures
            r == Parts::sum(w, a, b),
    {
        let top: u64 = w.infinity_code();
        if a.code > top || b.code > top {
            quiet(w)
        } else if a.code == top {
            if b.code == top && a.neg != b.neg {
                quiet(w)
            } else {
                a
            }
        } else if b.code == top {
            b
        } else if b.code <= a.code {
            sum_ordered(w, a, b)
        } else {
            sum_ordered(w, b, a)
        }
    }
}

/// The encoding of a product of two finite magnitudes.
fn product_code(w: Width, a: u64, b: u64) -> (r: u64)
    requires
        a < w.infinity(),
        b < w.infinity(),
    ensures
        r == rounding::encode(
            w,
            rounding::units(w, a as int) * rounding::units(w, b as int),
            pow2(w.unit()) as int,
        ),
{
    let x: Split = split(w, a);
    let y: Split = split(w, b);
    let ghost m: int = x.sig * y.sig;
    proof {
        rounding::lemma_step(w);
        assert(0 <= m < 0x20_0000_0000_0000 * 0x20_0000_0000_0000) by (nonlinear_arith)
            requires
                m == x.sig * y.sig,
                x.sig < 0x20_0000_0000_0000,
                y.sig < 0x20_0000_0000_0000,
        ;
        let p: int = pow2(x.exp as nat) as int;
        let q: int = pow2(y.exp as nat) as int;
        lemma_pow2_adds(x.exp as nat, y.exp as nat);
        assert((x.sig * p) * (y.sig * q) == m * (p * q)) by (nonlinear_arith)
            requires
                m == x.sig * y.sig,
        ;
        lemma_encode_shifted(w, m, (x.exp + y.exp) as nat, w.unit());
    }
    let n: u128 = (x.sig as u128) * (y.sig as u128);
    pack::pack(w, n, x.exp + y.exp - w.unit_bits())
}

/// How a rounded-down quotient brackets the exact one.
proof fn lemma_quotient_cell(
    w: Width,
    a: int,
    a_exp: nat,
    b: int,
    b_exp: nat,
    shift: nat,
    q: int,
    r: int,
)
    requires
        a > 0,
        b > 0,
        a * pow2(shift) == q * b + r,
        0 <= r < b,
        q >= 4 * w.step(),
    ensures
        ({
            let e: int = a_exp - b_exp + w.unit() - shift;
            let n: int = if r == 0 {
                q
            } else {
                2 * q + 1
            };
            let f: int = if r == 0 {
                e
            } else {
                e - 1
            };
            rounding::encode(w, (a * pow2(a_exp)) * pow2(w.unit()), b * pow2(b_exp))
                == rounding::encode(w, rounding::shifted_num(n, f), rounding::shifted_den(f))
        }),
{
    let e: int = a_exp - b_exp + w.unit() - shift;
    let num: int = (a * pow2(a_exp)) * pow2(w.unit());
    let den: int = b * pow2(b_exp);
    let ps: int = pow2(shift) as int;
    let pb: int = pow2(b_exp) as int;
    let pu: int = pow2(w.unit()) as int;
    let pa: int = pow2(a_exp) as int;
    rounding::lemma_step(w);
    lemma_pow2_pos(b_exp);
    lemma_pow2_pos(a_exp);
    lemma_pow2_pos(w.unit());
    lemma_pow2_adds(a_exp, w.unit());
    lemma_mul_strictly_positive(b, pb);
    lemma_mul_strictly_positive(a, pa);
    lemma_mul_strictly_positive(a * pa, pu);
    if e >= 0 {
        // a_exp + unit == e + shift + b_exp
        let pe: int = pow2(e as nat) as int;
        lemma_pow2_pos(e as nat);
        lemma_pow2_adds(e as nat, shift);
        lemma_pow2_adds((e + shift) as nat, b_exp);
        assert(num == (q * b + r) * (pe * pb)) by (nonlinear_arith)
            requires
                num == (a * pa) * pu,
                pa * pu == (pe * ps) * pb,
                a * ps == q * b + r,
        ;
        lemma_mul_strictly_positive(pe, pb);
        lemma_mul_basics_3(num);
        if r == 0 {
            assert(num * 1 == (q * pe) * den) by (nonlinear_arith)
                requires
                    num == (q * b + r) * (pe * pb),
                    r == 0,
                    den == b * pb,
            ;
            lemma_mul_nonnegative(q, pe);
            rounding::lemma_encode_ratio(w, num, den, q * pe, 1);
        } else {
            assert((q * pe) * den < num < ((q + 1) * pe) * den) by (nonlinear_arith)
                requires
                    num == (q * b + r) * (pe * pb),
                    0 < r < b,
                    den == b * pb,
                    pe * pb > 0,
            ;
            assert(rounding::in_cell(num, den, q, e));
        }
    } else {
        // a_exp + unit + (-e) == shift + b_exp
        let pe: int = pow2((-e) as nat) as int;
        lemma_pow2_pos((-e) as nat);
        lemma_pow2_adds((a_exp + w.unit()) as nat, (-e) as nat);
        lemma_pow2_adds(shift, b_exp);
        assert(num * pe == (q * b + r) * pb) by (nonlinear_arith)
            requires
                num == (a * pa) * pu,
                (pa * pu) * pe == ps * pb,
                a * ps == q * b + r,
        ;
        if r == 0 {
            assert(num * pe == q * den) by (nonlinear_arith)
                requires
                    num * pe == (q * b + r) * pb,
                    r == 0,
                    den == b * pb,
            ;
            rounding::lemma_encode_ratio(w, num, den, q, pe);
        } else {
            assert(q * den < num * pe < (q + 1) * den) by (nonlinear_arith)
                requires
                    num * pe == (q * b + r) * pb,
                    0 < r < b,
                    den == b * pb,
                    pb > 0,
            ;
            assert(rounding::in_cell(num, den, q, e));
        }
    }
    if r != 0 {
        rounding::lemma_middle_in_cell(q, e);
        rounding::lemma_encode_cell(
            w,
            num,
            den,
            rounding::shifted_num(2 * q + 1, e - 1),
            rounding::shifted_den(e - 1),
            q,
            e,
        );
    }
}

/// The encoding of a quotient of two finite magnitudes, the divisor not zero.
fn quotient_code(w: Width, a: u64, b: u64) -> (r: u64)
    requires
        a < w.infinity(),
        0 < b < w.infinity(),
    ensures
        r == rounding::encode(
            w,
            rounding::units(w, a as int) * pow2(w.unit()),
            rounding::units(w, b as int),
        ),
{
    proof {
        rounding::lemma_units_order(w, 0, b as int);
        rounding::lemma_step(w);
    }
    if a == 0 {
        proof {
            pack::lemma_encode_zero(w, rounding::units(w, b as int));
            assert(0 * pow2(w.unit()) == 0) by (nonlinear_arith);
        }
        return 0;
    }
    let x: Split = split(w, a);
    let y: Split = split(w, b);
    let x_len: u32 = pack::bit_length(x.sig as u128);
    let y_len: u32 = pack::bit_length(y.sig as u128);
    proof {
        if x_len > w.mant() + 1 {
            rounding::lemma_pow2_increases(w.mant() + 1, (x_len - 1) as nat);
        }
        if y_len > w.mant() + 1 {
            rounding::lemma_pow2_increases(w.mant() + 1, (y_len - 1) as nat);
        }
    }
    let shift: u32 = w.mant_bits() + 3 + y_len - x_len;
    let ghost ps: int = pow2(shift as nat) as int;
    proof {
        lemma_pow2_adds(x_len as nat, shift as nat);
        lemma_pow2_adds((x_len - 1) as nat, shift as nat);
        lemma_pow2_pos(shift as nat);
        rounding::lemma_pow2_increases((x_len + shift) as nat, 127);
        let lo: int = pow2((x_len - 1) as nat) as int;
        let hi: int = pow2(x_len as nat) as int;
        assert(lo * ps <= x.sig * ps < hi * ps) by (nonlinear_arith)
            requires
                lo <= x.sig < hi,
                ps > 0,
        ;
    }
    let n: u128 = (x.sig as u128) * pack::two_to(shift);
    let d: u128 = y.sig as u128;
    let q: u128 = n / d;
    let rest: u128 = n % d;
    proof {
        lemma_fundamental_div_mod(n as int, d as int);
        lemma_mul_is_commutative(d as int, q as int);
        // 2^(mant + 2) * d <= 2^(mant + 2) * 2^y_len == 2^(x_len - 1 + shift) <= n
        let four: int = 4 * w.step();
        lemma_pow2_adds(w.mant(), 2);
        lemma2_to64();
        lemma_pow2_adds(w.mant() + 2, y_len as nat);
        let py: int = pow2(y_len as nat) as int;
        assert(four * py == pow2((x_len - 1 + shift) as nat));
        assert(q >= four) by (nonlinear_arith)
            requires
                n == q * d + rest,
                rest < d,
                d < py,
                d > 0,
                four * py <= n,
        ;
        assert(q <= n) by (nonlinear_arith)
            requires
                n == q * d + rest,
                d >= 1,
                rest >= 0,
                q >= 0,
        ;
        assert(n < pow2((w.mant() + 3 + y_len) as nat));
        rounding::lemma_pow2_increases((w.mant() + 3 + y_len) as nat, 126);
        lemma_pow2_unfold(127);
        lemma_quotient_cell(
            w,
            x.sig as int,
            x.exp as nat,
            y.sig as int,
            y.exp as nat,
            shift as nat,
            q as int,
            rest as int,
        );
    }
    let e: i32 = x.exp - y.exp + w.unit_bits() - shift as i32;
    if rest == 0 {
        pack::pack(w, q, e)
    } else {
        pack::pack(w, 2 * q + 1, e - 1)
    }
}

impl Parts {
    /// `a * b`.
    pub fn times(w: Width, a: Parts, b: Parts) -> (r: Parts)
        ensures
            r == Parts::product(w, a, b),
    {
        let top: u64 = w.infinity_code();
        let neg: bool = a.neg != b.neg;
        if a.code > top || b.code > top {
            quiet(w)
        } else if a.code == top || b.code == top {
            if a.code == 0 || b.code == 0 {
                quiet(w)
            } else {
                Parts { neg, code: top }
            }
        } else {
            Parts { neg, code: product_code(w, a.code, b.code) }
        }
    }

    /// `a / b`.
    pub fn over(w: Width, a: Parts, b: Parts) -> (r: Parts)
        ensures
            r == Parts::quotient(w, a, b),
    {
        let top: u64 = w.infinity_code();
        let neg: bool = a.neg != b.neg;
        if a.code > top || b.code > top || (a.code == top && b.code == top) || (a.code == 0
            && b.code == 0) {
            quiet(w)
        } else if a.code == top || b.code == 0 {
            Parts { neg, code: top }
        } else if b.code == top {
            Parts { neg, code: 0 }
        } else {
            Parts { neg, code: quotient_code(w, a.code, b.code) }
        }
    }
}

/// Scaling a remainder.
pub proof fn lemma_mod_scale(x: int, m: int, p: int)
    requires
        x >= 0,
        m > 0,
        p > 0,
    ensures
        m * p > 0,
        (x * p) % (m * p) == (x % m) * p,
        (x * p) / (m * p) == x / m,
{
    let q: int = x / m;
    let r: int = x % m;
    lemma_fundamental_div_mod(x, m);
    lemma_mul_strictly_positive(m, p);
    assert(x * p == q * (m * p) + r * p) by (nonlinear_arith)
        requires
            x == m * q + r,
    ;
    assert(0 <= r * p < m * p) by (nonlinear_arith)
        requires
            0 <= r < m,
            p > 0,
    ;
    lemma_fundamental_div_mod_converse(x * p, m * p, q, r * p);
}

/// The encoding of what is left of one finite magnitude after taking another
/// away as often as it goes.
fn remainder_code(w: Width, a: u64, b: u64) -> (r: u64)
    requires
        a < w.infinity(),
        0 < b < w.infinity(),
    ensures
        r == rounding::encode(
            w,
            rounding::units(w, a as int) % rounding::units(w, b as int),
            1,
        ),
{
    proof {
        rounding::lemma_units_order(w, 0, b as int);
        rounding::lemma_encode_exact(w, a as int);
    }
    if a < b {
        proof {
            rounding::lemma_units_order(w, a as int, b as int);
            lemma_small_mod(
                rounding::units(w, a as int) as nat,
                rounding::units(w, b as int) as nat,
            );
        }
        return a;
    }
    let x: Split = split(w, a);
    let y: Split = split(w, b);
    let ghost m: int = y.sig as int;
    proof {
        rounding::lemma_step(w);
        lemma_div_is_ordered(b as int, a as int, w.step());
        if b >= w.step() {
        } else if a >= w.step() {
            lemma_div_is_ordered(w.step(), a as int, w.step());
            lemma_div_by_self(w.step());
        }
    }
    let gap: i32 = x.exp - y.exp;
    let mut left: u64 = x.sig % y.sig;
    let mut done: i32 = 0;
    proof {
        lemma2_to64();
        lemma_mul_basics_3(x.sig as int);
    }
    while done < gap
        invariant
            0 <= done <= gap,
            y.sig > 0,
            y.sig < 0x20_0000_0000_0000,
            m == y.sig,
            left == (x.sig * pow2(done as nat)) % m,
            left < y.sig,
        decreases gap - done,
    {
        proof {
            let before: int = x.sig * pow2(done as nat);
            lemma_pow2_unfold((done + 1) as nat);
            assert(x.sig * pow2((done + 1) as nat) == 2 * before) by (nonlinear_arith)
                requires
                    before == x.sig * pow2(done as nat),
                    pow2((done + 1) as nat) == 2 * pow2(done as nat),
            ;
            lemma_mul_mod_noop_right(2, before, m);
        }
        left = (2 * left) % y.sig;
        done = done + 1;
    }
    proof {
        let n: int = x.sig * pow2(gap as nat);
        let p: int = pow2(y.exp as nat) as int;
        lemma_pow2_pos(gap as nat);
        lemma_pow2_pos(y.exp as nat);
        lemma_mul_nonnegative(x.sig as int, pow2(gap as nat) as int);
        lemma_pow2_adds(gap as nat, y.exp as nat);
        assert(x.sig * pow2(x.exp as nat) == n * p) by (nonlinear_arith)
            requires
                n == x.sig * pow2(gap as nat),
                pow2(x.exp as nat) == pow2(gap as nat) * p,
        ;
        lemma_mod_scale(n, m, p);
        lemma_encode_shifted(w, left as int, y.exp as nat, 0);
    }
    pack::pack(w, left as u128, y.exp)
}

/// The integer part of a number below two to the precision, and what can be
/// asked of its fraction.
struct Fraction {
    whole: u64,
    some: bool,
    half: bool,
}

/// Parts a finite number from its fraction, where its exponent leaves room
/// for one.
fn fraction(w: Width, code: u64, x: &Split) -> (r: Fraction)
    requires
        code < w.infinity(),
        x.of(w, code as int),
        x.exp < w.unit(),
    ensures
        ({
            let a: Parts = Parts { neg: false, code };
            &&& r.whole == a.whole(w)
            &&& r.some == a.has_fraction(w)
            &&& r.half == a.past_half(w)
            &&& r.whole <= x.sig
        }),
{
    let shift: u32 = (w.unit_bits() - x.exp) as u32;
    let ghost sh: int = pow2(shift as nat) as int;
    let ghost p: int = pow2(x.exp as nat) as int;
    proof {
        rounding::lemma_step(w);
        lemma_pow2_pos(shift as nat);
        lemma_pow2_pos(x.exp as nat);
        lemma_pow2_adds(shift as nat, x.exp as nat);
        lemma_mod_scale(x.sig as int, sh, p);
        let rest: int = x.sig as int % sh;
        assert(rest * p == 0 <==> rest == 0) by (nonlinear_arith)
            requires
                p > 0,
        ;
        assert(2 * (rest * p) >= sh * p <==> 2 * rest >= sh) by (nonlinear_arith)
            requires
                p > 0,
        ;
    }
    if shift >= 64 {
        proof {
            lemma2_to64_rest();
            lemma2_to64();
            rounding::lemma_pow2_increases(64, shift as nat);
            lemma_small_mod(x.sig as nat, sh as nat);
            lemma_basic_div(x.sig as int, sh);
        }
        Fraction { whole: 0, some: x.sig != 0, half: false }
    } else {
        proof {
            rounding::lemma_pow2_increases(shift as nat, 127);
            lemma_div_is_ordered_by_denominator(x.sig as int, 1, sh);
            lemma_div_basics_2(x.sig as int);
            lemma2_to64_rest();
            rounding::lemma_pow2_increases(shift as nat, 64);
        }
        let d: u128 = pack::two_to(shift);
        let n: u128 = x.sig as u128;
        let rest: u128 = n % d;
        Fraction { whole: (n / d) as u64, some: rest != 0, half: 2 * rest >= d }
    }
}

/// A number whose exponent leaves no room for a fraction.
proof fn lemma_no_fraction(w: Width, code: u64, x: Split)
    requires
        code < w.infinity(),
        x.of(w, code as int),
        x.exp >= w.unit(),
    ensures
        ({
            let a: Parts = Parts { neg: false, code };
            &&& a.whole(w) == x.sig * pow2((x.exp - w.unit()) as nat)
            &&& !a.has_fraction(w)
            &&& !a.past_half(w)
            &&& rounding::encode(w, a.whole(w) * pow2(w.unit()), 1) == code
        }),
{
    let n: int = x.sig * pow2((x.exp - w.unit()) as nat);
    let p: int = pow2(w.unit()) as int;
    lemma_pow2_adds((x.exp - w.unit()) as nat, w.unit());
    lemma_pow2_pos(w.unit());
    assert(x.sig * pow2(x.exp as nat) == n * p) by (nonlinear_arith)
        requires
            n == x.sig * pow2((x.exp - w.unit()) as nat),
            pow2(x.exp as nat) == pow2((x.exp - w.unit()) as nat) * p,
    ;
    lemma_fundamental_div_mod_converse(n * p, p, n, 0);
    rounding::lemma_encode_exact(w, code as int);
}

impl Parts {
    /// `a % b`.
    pub fn modulo(w: Width, a: Parts, b: Parts) -> (r: Parts)
        ensures
            r == Parts::remainder(w, a, b),
    {
        let top: u64 = w.infinity_code();
        if a.code > top || b.code > top || a.code == top || b.code == 0 {
            quiet(w)
        } else if b.code == top {
            a
        } else {
            Parts { neg: a.neg, code: remainder_code(w, a.code, b.code) }
        }
    }

    /// The number rounded to an integer.
    pub fn to_integral(w: Width, a: Parts, toward: Toward) -> (r: Parts)
        ensures
            r == Parts::integral(w, a, toward),
    {
        let top: u64 = w.infinity_code();
        if a.code > top {
            return quiet(w);
        }
        if a.code == top {
            return a;
        }
        let x: Split = split(w, a.code);
        if x.exp >= w.unit_bits() {
            proof {
                lemma_no_fraction(w, a.code, x);
            }
            return a;
        }
        let f: Fraction = fraction(w, a.code, &x);
        let up: bool = match toward {
            Toward::Down => a.neg && f.some,
            Toward::Up => !a.neg && f.some,
            Toward::Nearest => f.half,
        };
        proof {
            rounding::lemma_step(w);
        }
        let n: u128 = if up {
            f.whole as u128 + 1
        } else {
            f.whole as u128
        };
        Parts { neg: a.neg, code: pack::pack(w, n, w.unit_bits()) }
    }

    /// The number as an unsigned integer.
    pub fn to_unsigned(w: Width, a: Parts, limit: u64) -> (r: u64)
        ensures
            r == a.unsigned(w, limit as int),
    {
        let top: u64 = w.infinity_code();
        if a.code > top || a.neg {
            return 0;
        }
        if a.code == top {
            return limit;
        }
        let x: Split = split(w, a.code);
        if x.exp < w.unit_bits() {
            let f: Fraction = fraction(w, a.code, &x);
            return if f.whole > limit {
                limit
            } else {
                f.whole
            };
        }
        proof {
            lemma_no_fraction(w, a.code, x);
            rounding::lemma_step(w);
        }
        let shift: u32 = (x.exp - w.unit_bits()) as u32;
        let ghost p: int = pow2(shift as nat) as int;
        if shift >= 64 {
            proof {
                rounding::lemma_pow2_increases(64, shift as nat);
                lemma2_to64_rest();
                assert(x.sig * p >= 0x1_0000_0000_0000_0000) by (nonlinear_arith)
                    requires
                        p >= 0x1_0000_0000_0000_0000,
                        x.sig >= 1,
                ;
            }
            return limit;
        }
        proof {
            rounding::lemma_pow2_increases(shift as nat, 64);
            lemma2_to64_rest();
            rounding::lemma_pow2_increases(shift as nat, 127);
            assert(0 <= x.sig * p <= 0x20_0000_0000_0000 * 0x1_0000_0000_0000_0000)
                by (nonlinear_arith)
                requires
                    0 <= p <= 0x1_0000_0000_0000_0000,
                    0 <= x.sig <= 0x20_0000_0000_0000,
            ;
        }
        let n: u128 = (x.sig as u128) * pack::two_to(shift);
        if n > limit as u128 {
            limit
        } else {
            n as u64
        }
    }

    /// The number nearest to an integer.
    pub fn from_integer(w: Width, neg: bool, n: u64) -> (r: Parts)
        ensures
            r == Parts::integer(w, neg, n as int),
    {
        proof {
            rounding::lemma_step(w);
        }
        Parts { neg, code: pack::pack(w, n as u128, w.unit_bits()) }
    }

    /// `a < b`.
    pub fn less(w: Width, a: Parts, b: Parts) -> (r: bool)
        ensures
            r == Parts::below(w, a, b),
    {
        let top: u64 = w.infinity_code();
        if a.code > top || b.code > top {
            false
        } else if a.neg {
            if b.neg {
                b.code < a.code
            } else {
                a.code != 0 || b.code != 0
            }
        } else {
            !b.neg && a.code < b.code
        }
    }

    /// `a == b`.
    pub fn equal(w: Width, a: Parts, b: Parts) -> (r: bool)
        ensures
            r == Parts::same(w, a, b),
    {
        let top: u64 = w.infinity_code();
        if a.code > top || b.code > top {
            false
        } else {
            a.code == b.code && (a.neg == b.neg || a.code == 0)
        }
    }

    /// The same number in the 64-bit format.
    pub fn widen(a: Parts) -> (r: Parts)
        ensures
            r == Parts::widened(a),
    {
        if a.code > Width::Single.infinity_code() {
            return quiet(Width::Double);
        }
        if a.code == Width::Single.infinity_code() {
            return Parts { neg: a.neg, code: Width::Double.infinity_code() };
        }
        let x: Split = split(Width::Single, a.code);
        proof {
            rounding::lemma_step(Width::Double);
            lemma_pow2_adds(x.exp as nat, 925);
            assert((x.sig * pow2(x.exp as nat)) * pow2(925) == x.sig * pow2((x.exp + 925) as nat))
                by (nonlinear_arith)
                requires
                    pow2((x.exp + 925) as nat) == pow2(x.exp as nat) * pow2(925),
            ;
        }
        Parts { neg: a.neg, code: pack::pack(Width::Double, x.sig as u128, x.exp + 925) }
    }

    /// The number rounded to the 32-bit format.
    pub fn narrow(a: Parts) -> (r: Parts)
        ensures
            r == Parts::narrowed(a),
    {
        if a.code > Width::Double.infinity_code() {
            return quiet(Width::Single);
        }
        if a.code == Width::Double.infinity_code() {
            return Parts { neg: a.neg, code: Width::Single.infinity_code() };
        }
        let x: Split = split(Width::Double, a.code);
        proof {
            rounding::lemma_step(Width::Double);
            lemma_encode_shifted(Width::Single, x.sig as int, x.exp as nat, 925);
        }
        Parts { neg: a.neg, code: pack::pack(Width::Single, x.sig as u128, x.exp - 925) }
    }
}

/// Every operation yields a pattern that fits its format.
pub proof fn lemma_fits(w: Width, a: Parts, b: Parts, toward: Toward)
    ensures
        Parts::sum(w, a, b).fits(w),
        Parts::product(w, a, b).fits(w),
        Parts::quotient(w, a, b).fits(w),
        Parts::remainder(w, a, b).fits(w),
        Parts::integral(w, a, toward).fits(w),
{
    rounding::lemma_step(w);
    lemma_pow2_pos(w.unit());
    let p: int = pow2(w.unit()) as int;
    if a.is_finite(w) {
        rounding::lemma_encode_exact(w, a.code as int);
        lemma_div_pos_is_pos(a.size(w), p);
        lemma_integer_fits(w, a.neg, a.whole(w));
        lemma_integer_fits(w, a.neg, a.whole(w) + 1);
        if b.is_finite(w) {
            rounding::lemma_encode_exact(w, b.code as int);
            let total: int = a.value(w) + b.value(w);
            if total >= 0 {
                rounding::lemma_encode_range(w, total, 1);
            } else {
                rounding::lemma_encode_range(w, -total, 1);
            }
            lemma_mul_nonnegative(a.size(w), b.size(w));
            rounding::lemma_encode_range(w, a.size(w) * b.size(w), p);
            if b.code > 0 {
                rounding::lemma_units_order(w, 0, b.code as int);
                lemma_mul_nonnegative(a.size(w), p);
                rounding::lemma_encode_range(w, a.size(w) * p, b.size(w));
                lemma_mod_bound(a.size(w), b.size(w));
                rounding::lemma_encode_range(w, a.size(w) % b.size(w), 1);
            }
        }
    }
}

/// A rounded integer fits its format.
pub proof fn lemma_integer_fits(w: Width, neg: bool, n: int)
    requires
        n >= 0,
    ensures
        Parts::integer(w, neg, n).fits(w),
{
    rounding::lemma_step(w);
    lemma_pow2_pos(w.unit());
    lemma_mul_nonnegative(n, pow2(w.unit()) as int);
    rounding::lemma_encode_range(w, n * pow2(w.unit()), 1);
}

/// A conversion between the formats fits its target.
pub proof fn lemma_converted_fits(a: Parts)
    ensures
        Parts::widened(a).fits(Width::Double),
        Parts::narrowed(a).fits(Width::Single),
{
    rounding::lemma_step(Width::Single);
    rounding::lemma_step(Width::Double);
    lemma_pow2_pos(925);
    if a.is_finite(Width::Single) {
        rounding::lemma_encode_exact(Width::Single, a.code as int);
        lemma_mul_nonnegative(a.size(Width::Single), pow2(925) as int);
        rounding::lemma_encode_range(Width::Double, a.size(Width::Single) * pow2(925), 1);
    }
    if a.is_finite(Width::Double) {
        rounding::lemma_encode_exact(Width::Double, a.code as int);
        rounding::lemma_encode_range(
            Width::Single,
            a.size(Width::Double),
            pow2(925) as int,
        );
    }
}

} // verus!
