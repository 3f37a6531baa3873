//! Rounding of exact rationals to binary floating-point encodings.
//!
//! Every finite number of a binary format is an integer multiple of the
//! format's smallest positive number, its *unit*: `2^-149` for the 32-bit
//! format and `2^-1074` for the 64-bit one.  A magnitude is therefore
//! stated here as a rational `num / den` counted in units, and the encoding
//! of a magnitude is the format's bit pattern with the sign bit left out.
//! Encodings are ordered as the magnitudes they stand for, and the encoding
//! of infinity is the least one that is not finite.
use vstd::arithmetic::div_mod::*;
use vstd::arithmetic::mul::*;
use vstd::arithmetic::power2::*;
use vstd::prelude::*;

verus! {

/// The two interchange formats of the library's arithmetic.
#[derive(Clone, Copy, Debug, PartialEq, Eq, Structural)]
pub enum Width {
    /// 32 bits: 23 stored significand bits, an 8-bit exponent field.
    Single,
    /// 64 bits: 52 stored significand bits, an 11-bit exponent field.
    Double,
}

impl Width {
    /// Number of stored significand bits.
    pub open spec fn mant(self) -> nat {
        match self {
            Width::Single => 23,
            Width::Double => 52,
        }
    }

    /// The unit of the format is two to the minus this.
    pub open spec fn unit(self) -> nat {
        match self {
            Width::Single => 149,
            Width::Double => 1074,
        }
    }

    /// The exponent field of infinity and of the not-a-number patterns.
    pub open spec fn top_field(self) -> nat {
        match self {
            Width::Single => 255,
            Width::Double => 2047,
        }
    }

    /// `2^mant`: how many encodings share one exponent field.
    pub open spec fn step(self) -> int {
        match self {
            Width::Single => 0x80_0000,
            Width::Double => 0x10_0000_0000_0000,
        }
    }

    /// The encoding of infinity.
    pub open spec fn infinity(self) -> int {
        self.top_field() * self.step()
    }
}

/// The integer nearest to `num / den`, the even one of two equally near.
pub open spec fn nearest(num: int, den: int) -> int {
    let whole: int = num / den;
    let rest: int = num % den;
    if 2 * rest < den || (2 * rest == den && whole % 2 == 0) {
        whole
    } else {
        whole + 1
    }
}

/// The least `k` such that `num / den < 2^(prec + k)`.
pub open spec fn binade(num: int, den: int, prec: nat) -> nat
    decreases (if num >= den { num - den + 1 } else { 0 }),
{
    if den <= 0 || num < den * pow2(prec) {
        0
    } else {
        proof {
            lemma_pow2_pos(prec);
            assert(num >= den) by (nonlinear_arith)
                requires
                    den > 0,
                    num >= den * pow2(prec),
                    pow2(prec) >= 1,
            ;
        }
        1 + binade(num, 2 * den, prec)
    }
}

/// The encoding of the number nearest to `num / den` units, ties to the even
/// encoding, infinity from half a step past the largest finite number on.
///
/// A number below `2^(mant + 1)` units is encoded by its count of units; one
/// twice as large has an encoding one `step` further on.
pub open spec fn encode(w: Width, num: int, den: int) -> int {
    let k: nat = binade(num, den, w.mant() + 1);
    let code: int = k * w.step() + nearest(num, den * pow2(k));
    if code < w.infinity() {
        code
    } else {
        w.infinity()
    }
}

/// The units that a finite encoding stands for.
pub open spec fn units(w: Width, code: int) -> int {
    if code < w.step() {
        code
    } else {
        (w.step() + code % w.step()) * pow2((code / w.step() - 1) as nat)
    }
}

/// The numerator of `n * 2^e`.
pub open spec fn shifted_num(n: int, e: int) -> int {
    if e >= 0 {
        n * pow2(e as nat)
    } else {
        n
    }
}

/// The denominator of `n * 2^e`.
pub open spec fn shifted_den(e: int) -> int {
    if e >= 0 {
        1
    } else {
        pow2((-e) as nat) as int
    }
}

pub proof fn lemma_step(w: Width)
    ensures
        w.step() == pow2(w.mant()),
        2 * w.step() == pow2(w.mant() + 1),
        w.infinity() < pow2(63),
        w == Width::Single ==> w.infinity() == 0x7f80_0000,
        w == Width::Double ==> w.infinity() == 0x7ff0_0000_0000_0000,
        pow2(63) == 0x8000_0000_0000_0000,
        pow2(127) == 0x8000_0000_0000_0000_0000_0000_0000_0000,
        pow2(128) == 2 * pow2(127),
{
    lemma2_to64();
    lemma2_to64_rest();
    lemma_pow2_adds(64, 63);
    lemma_pow2_adds(127, 1);
    assert(0x1_0000_0000_0000_0000 * 0x8000_0000_0000_0000
        == 0x8000_0000_0000_0000_0000_0000_0000_0000) by (nonlinear_arith);
}

/// `binade` is the one exponent that brackets the ratio.
pub proof fn lemma_binade(num: int, den: int, prec: nat, k: nat)
    requires
        den > 0,
        num < den * pow2(prec + k),
        k == 0 || num >= den * pow2((prec + k - 1) as nat),
    ensures
        binade(num, den, prec) == k,
    decreases k,
{
    if k > 0 {
        lemma_pow2_pos(prec);
        assert(den * pow2((prec + k - 1) as nat) >= den * pow2(prec)) by {
            lemma_pow2_increases(prec, (prec + k - 1) as nat);
            lemma_mul_inequality(pow2(prec) as int, pow2((prec + k - 1) as nat) as int, den);
            lemma_mul_is_commutative(den, pow2(prec) as int);
            lemma_mul_is_commutative(den, pow2((prec + k - 1) as nat) as int);
        }
        lemma_pow2_unfold(prec + k);
        assert(den * pow2(prec + k) == 2 * den * pow2((prec + k - 1) as nat)) by (nonlinear_arith)
            requires
                pow2(prec + k) == 2 * pow2((prec + k - 1) as nat),
        ;
        if k > 1 {
            lemma_pow2_unfold((prec + k - 1) as nat);
            assert(den * pow2((prec + k - 1) as nat) == 2 * den * pow2((prec + k - 2) as nat))
                by (nonlinear_arith)
                requires
                    pow2((prec + k - 1) as nat) == 2 * pow2((prec + k - 2) as nat),
            ;
        }
        lemma_binade(num, 2 * den, prec, (k - 1) as nat);
    }
}

/// The bracket that `binade` names.
pub proof fn lemma_binade_bracket(num: int, den: int, prec: nat)
    requires
        den > 0,
        num >= 0,
    ensures
        num < den * pow2(prec + binade(num, den, prec)),
        binade(num, den, prec) == 0 || num >= den * pow2(
            (prec + binade(num, den, prec) - 1) as nat,
        ),
    decreases (if num >= den { num - den + 1 } else { 0 }),
{
    if num >= den * pow2(prec) {
        lemma_pow2_pos(prec);
        assert(num >= den) by (nonlinear_arith)
            requires
                den > 0,
                num >= den * pow2(prec),
                pow2(prec) >= 1,
        ;
        lemma_binade_bracket(num, 2 * den, prec);
        let k: nat = binade(num, 2 * den, prec);
        lemma_pow2_unfold(prec + k + 1);
        assert(2 * den * pow2(prec + k) == den * pow2(prec + k + 1)) by (nonlinear_arith)
            requires
                pow2(prec + k + 1) == 2 * pow2(prec + k),
        ;
        if k > 0 {
            lemma_pow2_unfold(prec + k);
            assert(2 * den * pow2((prec + k - 1) as nat) == den * pow2(prec + k))
                by (nonlinear_arith)
                requires
                    pow2(prec + k) == 2 * pow2((prec + k - 1) as nat),
            ;
        }
    }
}

pub proof fn lemma_pow2_increases(a: nat, b: nat)
    requires
        a <= b,
    ensures
        1 <= pow2(a) <= pow2(b),
{
    lemma_pow2_pos(a);
    if a < b {
        lemma_pow2_strictly_increases(a, b);
    }
}

/// Scaling both sides of a ratio leaves the nearest integer alone.
pub proof fn lemma_nearest_scale(c: int, num: int, den: int)
    requires
        c > 0,
        den > 0,
    ensures
        nearest(c * num, c * den) == nearest(num, den),
{
    lemma_truncate_middle_all(c, num, den);
    let rest: int = num % den;
    assert(2 * (c * rest) < c * den <==> 2 * rest < den) by (nonlinear_arith)
        requires
            c > 0,
    ;
    assert(2 * (c * rest) == c * den <==> 2 * rest == den) by (nonlinear_arith)
        requires
            c > 0,
    ;
}

proof fn lemma_truncate_middle_all(c: int, num: int, den: int)
    requires
        c > 0,
        den > 0,
    ensures
        (c * num) / (c * den) == num / den,
        (c * num) % (c * den) == c * (num % den),
{
    lemma_fundamental_div_mod(num, den);
    let q: int = num / den;
    let r: int = num % den;
    assert(c * num == q * (c * den) + c * r) by (nonlinear_arith)
        requires
            num == den * q + r,
    ;
    assert(0 <= c * r < c * den) by (nonlinear_arith)
        requires
            0 <= r < den,
            c > 0,
    ;
    lemma_fundamental_div_mod_converse(c * num, c * den, q, c * r);
}

/// Scaling both sides of a ratio leaves its binade alone.
proof fn lemma_binade_scale(c: int, num: int, den: int, prec: nat)
    requires
        c > 0,
        den > 0,
        num >= 0,
    ensures
        binade(c * num, c * den, prec) == binade(num, den, prec),
{
    let k: nat = binade(num, den, prec);
    lemma_binade_bracket(num, den, prec);
    let hi: int = pow2(prec + k) as int;
    assert(c * num < (c * den) * hi) by (nonlinear_arith)
        requires
            num < den * hi,
            c > 0,
    ;
    assert(c * den > 0) by (nonlinear_arith)
        requires
            c > 0,
            den > 0,
    ;
    if k > 0 {
        let lo: int = pow2((prec + k - 1) as nat) as int;
        assert(c * num >= (c * den) * lo) by (nonlinear_arith)
            requires
                num >= den * lo,
                c > 0,
        ;
    }
    lemma_binade(c * num, c * den, prec, k);
}

/// Scaling both sides of a ratio leaves its encoding alone.
pub proof fn lemma_encode_scale(w: Width, c: int, num: int, den: int)
    requires
        c > 0,
        den > 0,
        num >= 0,
    ensures
        encode(w, c * num, c * den) == encode(w, num, den),
{
    lemma_binade_scale(c, num, den, w.mant() + 1);
    let k: nat = binade(num, den, w.mant() + 1);
    lemma_pow2_pos(k);
    assert(den * pow2(k) > 0) by (nonlinear_arith)
        requires
            den > 0,
            pow2(k) > 0,
    ;
    lemma_nearest_scale(c, num, den * pow2(k));
    assert((c * den) * pow2(k) == c * (den * pow2(k))) by (nonlinear_arith);
}

/// Two names of one ratio have one encoding.
pub proof fn lemma_encode_ratio(w: Width, num1: int, den1: int, num2: int, den2: int)
    requires
        den1 > 0,
        den2 > 0,
        num1 >= 0,
        num2 >= 0,
        num1 * den2 == num2 * den1,
    ensures
        encode(w, num1, den1) == encode(w, num2, den2),
{
    lemma_encode_scale(w, den2, num1, den1);
    lemma_encode_scale(w, den1, num2, den2);
    assert(den2 * num1 == den1 * num2) by (nonlinear_arith)
        requires
            num1 * den2 == num2 * den1,
    ;
    assert(den2 * den1 == den1 * den2) by (nonlinear_arith);
}

/// Where a ratio lies strictly between two neighbours of a grid that holds
/// every half-way point, the nearest integer depends on the cell alone.
proof fn lemma_nearest_cell(x: int, y: int, c: int, h: int)
    requires
        y > 0,
        h > 0,
        c >= 0,
        c * y < x < (c + 1) * y,
    ensures
        nearest(x, 2 * h * y) == (if c % (2 * h) < h {
            c / (2 * h)
        } else {
            c / (2 * h) + 1
        }),
{
    let q: int = c / (2 * h);
    let r: int = c % (2 * h);
    lemma_fundamental_div_mod(c, 2 * h);
    let rest: int = x - q * (2 * h * y);
    assert(r * y < rest < (r + 1) * y) by (nonlinear_arith)
        requires
            rest == x - q * (2 * h * y),
            c == 2 * h * q + r,
            c * y < x < (c + 1) * y,
    ;
    assert(0 <= r * y) by (nonlinear_arith)
        requires
            0 <= r,
            y > 0,
    ;
    assert((r + 1) * y <= 2 * h * y) by (nonlinear_arith)
        requires
            r < 2 * h,
            y > 0,
    ;
    lemma_fundamental_div_mod_converse(x, 2 * h * y, q, rest);
    if r < h {
        assert((r + 1) * y <= h * y) by (nonlinear_arith)
            requires
                r < h,
                y > 0,
        ;
        assert(2 * (h * y) == 2 * h * y) by (nonlinear_arith);
    } else {
        assert(r * y >= h * y) by (nonlinear_arith)
            requires
                r >= h,
                y > 0,
        ;
        assert(2 * (h * y) == 2 * h * y) by (nonlinear_arith);
    }
}

/// `num / den` lies strictly between `c * 2^e` and `(c + 1) * 2^e`.
pub open spec fn in_cell(num: int, den: int, c: int, e: int) -> bool {
    shifted_num(c, e) * den < num * shifted_den(e) < shifted_num(c + 1, e) * den
}

/// `2^s` counted in steps of `2^e`.
proof fn lemma_grid(s: nat, e: int)
    requires
        s >= e,
    ensures
        pow2(s) * shifted_den(e) == shifted_num(1, e) * pow2((s - e) as nat),
        shifted_den(e) > 0,
        shifted_num(1, e) > 0,
        forall|c: int| #[trigger] shifted_num(c, e) == c * shifted_num(1, e),
{
    if e >= 0 {
        lemma_pow2_pos(e as nat);
        lemma_pow2_adds(e as nat, (s - e) as nat);
    } else {
        lemma_pow2_pos((-e) as nat);
        lemma_pow2_adds(s, (-e) as nat);
    }
}

/// Which powers of two lie above a cell depends on the cell alone.
proof fn lemma_cell_below(num: int, den: int, c: int, e: int, s: nat)
    requires
        den > 0,
        c >= 0,
        in_cell(num, den, c, e),
        s >= e,
    ensures
        num < den * pow2(s) <==> c < pow2((s - e) as nat),
{
    lemma_grid(s, e);
    let wd: int = shifted_den(e);
    let wn: int = shifted_num(1, e);
    let t: int = pow2((s - e) as nat) as int;
    let x: int = num * wd;
    let y: int = wn * den;
    let p: int = pow2(s) as int;
    assert((den * p) * wd == t * y) by (nonlinear_arith)
        requires
            p * wd == wn * t,
            y == wn * den,
    ;
    assert(c * y < x < (c + 1) * y) by (nonlinear_arith)
        requires
            y == wn * den,
            x == num * wd,
            (c * wn) * den < num * wd < ((c + 1) * wn) * den,
    ;
    assert(num < den * p <==> x < t * y) by (nonlinear_arith)
        requires
            x == num * wd,
            (den * p) * wd == t * y,
            wd > 0,
    ;
    assert(y > 0) by (nonlinear_arith)
        requires
            y == wn * den,
            wn > 0,
            den > 0,
    ;
    if c < t {
        assert((c + 1) * y <= t * y) by (nonlinear_arith)
            requires
                c < t,
                y > 0,
        ;
    } else {
        assert(c * y >= t * y) by (nonlinear_arith)
            requires
                c >= t,
                y > 0,
        ;
    }
}

/// A cell with at least three significant bits to spare is finer than half
/// the spacing of the encodings around it.
proof fn lemma_cell_binade(num: int, den: int, c: int, e: int, prec: nat)
    requires
        den > 0,
        num >= 0,
        c >= pow2(prec + 1),
        in_cell(num, den, c, e),
    ensures
        binade(num, den, prec) >= e + 2,
        c < pow2((prec + binade(num, den, prec) - e) as nat),
        binade(num, den, prec) == 0 || c >= pow2((prec + binade(num, den, prec) - 1 - e) as nat),
{
    let k: nat = binade(num, den, prec);
    lemma_binade_bracket(num, den, prec);
    lemma_pow2_pos(prec + 1);
    if k < e + 2 {
        let s: nat = (prec + 1 + e) as nat;
        lemma_cell_below(num, den, c, e, s);
        lemma_pow2_increases(prec + k, s);
        assert(den * pow2(prec + k) <= den * pow2(s)) by (nonlinear_arith)
            requires
                den > 0,
                pow2(prec + k) <= pow2(s),
        ;
        assert(false);
    }
    lemma_cell_below(num, den, c, e, prec + k);
    if k > 0 {
        lemma_cell_below(num, den, c, e, (prec + k - 1) as nat);
    }
}

/// Rounding inside a cell depends on the cell alone.
proof fn lemma_cell_nearest(num: int, den: int, c: int, e: int, k: nat)
    requires
        den > 0,
        c >= 0,
        k >= e + 2,
        in_cell(num, den, c, e),
    ensures
        ({
            let h: int = pow2((k - 1 - e) as nat) as int;
            nearest(num, den * pow2(k)) == (if c % (2 * h) < h {
                c / (2 * h)
            } else {
                c / (2 * h) + 1
            })
        }),
{
    lemma_grid(k, e);
    let wd: int = shifted_den(e);
    let wn: int = shifted_num(1, e);
    let h: int = pow2((k - 1 - e) as nat) as int;
    lemma_pow2_pos((k - 1 - e) as nat);
    lemma_pow2_unfold((k - e) as nat);
    let y: int = wn * den;
    let x: int = num * wd;
    let p: int = pow2(k) as int;
    lemma_pow2_pos(k);
    assert(den * p > 0) by (nonlinear_arith)
        requires
            den > 0,
            p > 0,
    ;
    lemma_nearest_scale(wd, num, den * p);
    assert(wd * num == x) by (nonlinear_arith)
        requires
            x == num * wd,
    ;
    assert(wd * (den * p) == 2 * h * y) by (nonlinear_arith)
        requires
            p * wd == wn * (2 * h),
            y == wn * den,
    ;
    assert(c * y < x < (c + 1) * y) by (nonlinear_arith)
        requires
            y == wn * den,
            x == num * wd,
            (c * wn) * den < num * wd < ((c + 1) * wn) * den,
    ;
    assert(y > 0) by (nonlinear_arith)
        requires
            y == wn * den,
            wn > 0,
            den > 0,
    ;
    lemma_nearest_cell(x, y, c, h);
}

/// Two ratios inside one fine cell have one encoding.
pub proof fn lemma_encode_cell(
    w: Width,
    num1: int,
    den1: int,
    num2: int,
    den2: int,
    c: int,
    e: int,
)
    requires
        den1 > 0,
        den2 > 0,
        num1 >= 0,
        num2 >= 0,
        c >= 4 * w.step(),
        in_cell(num1, den1, c, e),
        in_cell(num2, den2, c, e),
    ensures
        encode(w, num1, den1) == encode(w, num2, den2),
{
    let prec: nat = w.mant() + 1;
    lemma_step(w);
    lemma_pow2_unfold(prec + 1);
    lemma_cell_binade(num1, den1, c, e, prec);
    let k: nat = binade(num1, den1, prec);
    lemma_cell_below(num2, den2, c, e, prec + k);
    if k > 0 {
        lemma_cell_below(num2, den2, c, e, (prec + k - 1) as nat);
    }
    lemma_binade(num2, den2, prec, k);
    lemma_cell_nearest(num1, den1, c, e, k);
    lemma_cell_nearest(num2, den2, c, e, k);
}

/// A ratio that is an exact encoding point, or the middle of a cell.
pub proof fn lemma_middle_in_cell(c: int, e: int)
    requires
        c >= 0,
    ensures
        in_cell(shifted_num(2 * c + 1, e - 1), shifted_den(e - 1), c, e),
        shifted_den(e - 1) > 0,
        shifted_num(2 * c + 1, e - 1) > 0,
{
    if e >= 1 {
        lemma_pow2_unfold(e as nat);
        lemma_pow2_pos((e - 1) as nat);
        let p: int = pow2((e - 1) as nat) as int;
        assert(c * (2 * p) < (2 * c + 1) * p < (c + 1) * (2 * p)) by (nonlinear_arith)
            requires
                p > 0,
        ;
        assert((2 * c + 1) * p > 0) by (nonlinear_arith)
            requires
                p > 0,
                c >= 0,
        ;
        assert(shifted_num(c, e) == c * (2 * p));
        assert(shifted_num(c + 1, e) == (c + 1) * (2 * p));
        assert(shifted_num(2 * c + 1, e - 1) == (2 * c + 1) * p);
        lemma_mul_basics_3(c * (2 * p));
        lemma_mul_basics_3((c + 1) * (2 * p));
        lemma_mul_basics_3((2 * c + 1) * p);
    } else {
        lemma_pow2_unfold((1 - e) as nat);
        lemma_pow2_pos((-e) as nat);
        let p: int = pow2((-e) as nat) as int;
        assert(c * (2 * p) < (2 * c + 1) * p < (c + 1) * (2 * p)) by (nonlinear_arith)
            requires
                p > 0,
        ;
        assert(pow2(0) == 1) by {
            lemma2_to64();
        }
        assert(c * pow2(0) == c && (c + 1) * pow2(0) == c + 1) by (nonlinear_arith)
            requires
                pow2(0) == 1,
        ;
        assert(shifted_num(c, e) == c);
        assert(shifted_num(c + 1, e) == c + 1);
        assert(shifted_den(e) == p);
        assert(shifted_den(e - 1) == 2 * p);
    }
}

proof fn lemma_nearest_range(num: int, den: int, lo: int, hi: int)
    requires
        den > 0,
        lo * den <= num <= hi * den,
    ensures
        lo <= nearest(num, den) <= hi,
{
    lemma_fundamental_div_mod(num, den);
    let q: int = num / den;
    let r: int = num % den;
    assert(q >= lo) by (nonlinear_arith)
        requires
            den * q + r == num,
            lo * den <= num,
            r < den,
            den > 0,
    ;
    assert(q <= hi) by (nonlinear_arith)
        requires
            den * q + r == num,
            num <= hi * den,
            0 <= r,
            den > 0,
    ;
    if q == hi {
        assert(r == 0) by (nonlinear_arith)
            requires
                den * q + r == num,
                num <= hi * den,
                q == hi,
                0 <= r,
        ;
    }
}

proof fn lemma_nearest_monotone(num1: int, num2: int, den: int)
    requires
        den > 0,
        num1 <= num2,
    ensures
        nearest(num1, den) <= nearest(num2, den),
{
    lemma_fundamental_div_mod(num1, den);
    lemma_fundamental_div_mod(num2, den);
    let q1: int = num1 / den;
    let q2: int = num2 / den;
    let r1: int = num1 % den;
    let r2: int = num2 % den;
    assert(q1 <= q2) by (nonlinear_arith)
        requires
            den * q1 + r1 <= den * q2 + r2,
            0 <= r1,
            r2 < den,
            den > 0,
    ;
}

proof fn lemma_encode_monotone_over(w: Width, num1: int, num2: int, den: int)
    requires
        den > 0,
        0 <= num1 <= num2,
    ensures
        encode(w, num1, den) <= encode(w, num2, den),
{
    let prec: nat = w.mant() + 1;
    let k1: nat = binade(num1, den, prec);
    let k2: nat = binade(num2, den, prec);
    lemma_step(w);
    lemma_binade_bracket(num1, den, prec);
    lemma_binade_bracket(num2, den, prec);
    lemma_pow2_pos(k1);
    lemma_pow2_pos(k2);
    let d1: int = den * pow2(k1);
    let d2: int = den * pow2(k2);
    assert(d1 > 0 && d2 > 0) by (nonlinear_arith)
        requires
            d1 == den * pow2(k1),
            d2 == den * pow2(k2),
            den > 0,
            pow2(k1) > 0,
            pow2(k2) > 0,
    ;
    if k1 == k2 {
        lemma_nearest_monotone(num1, num2, d1);
    } else {
        if k1 > k2 {
            lemma_pow2_increases(prec + k2, (prec + k1 - 1) as nat);
            assert(den * pow2((prec + k1 - 1) as nat) >= den * pow2(prec + k2))
                by (nonlinear_arith)
                requires
                    den > 0,
                    pow2((prec + k1 - 1) as nat) >= pow2(prec + k2),
            ;
            assert(false);
        }
        lemma_pow2_adds(prec, k1);
        assert(2 * w.step() * d1 == den * pow2(prec + k1)) by (nonlinear_arith)
            requires
                pow2(prec + k1) == pow2(prec) * pow2(k1),
                2 * w.step() == pow2(prec),
                d1 == den * pow2(k1),
        ;
        assert(0 * d1 == 0) by (nonlinear_arith);
        lemma_nearest_range(num1, d1, 0, 2 * w.step());
        lemma_pow2_adds((prec - 1) as nat, k2);
        assert(w.step() * d2 == den * pow2((prec + k2 - 1) as nat)) by (nonlinear_arith)
            requires
                pow2((prec + k2 - 1) as nat) == pow2((prec - 1) as nat) * pow2(k2),
                w.step() == pow2((prec - 1) as nat),
                d2 == den * pow2(k2),
        ;
        lemma_pow2_adds(prec, k2);
        assert(2 * w.step() * d2 == den * pow2(prec + k2)) by (nonlinear_arith)
            requires
                pow2(prec + k2) == pow2(prec) * pow2(k2),
                2 * w.step() == pow2(prec),
                d2 == den * pow2(k2),
        ;
        lemma_nearest_range(num2, d2, w.step(), 2 * w.step());
        assert(k2 * w.step() >= (k1 + 1) * w.step()) by (nonlinear_arith)
            requires
                k2 >= k1 + 1,
                w.step() > 0,
        ;
        assert((k1 + 1) * w.step() == k1 * w.step() + w.step()) by (nonlinear_arith);
    }
}

/// Rounding keeps the order of what it rounds.
pub proof fn lemma_encode_monotone(w: Width, num1: int, den1: int, num2: int, den2: int)
    requires
        den1 > 0,
        den2 > 0,
        0 <= num1,
        0 <= num2,
        num1 * den2 <= num2 * den1,
    ensures
        encode(w, num1, den1) <= encode(w, num2, den2),
{
    lemma_encode_scale(w, den2, num1, den1);
    lemma_encode_scale(w, den1, num2, den2);
    lemma_mul_is_commutative(den2, num1);
    lemma_mul_is_commutative(den1, num2);
    lemma_mul_is_commutative(den1, den2);
    lemma_mul_nonnegative(den2, num1);
    lemma_mul_strictly_positive(den1, den2);
    lemma_encode_monotone_over(w, den2 * num1, den1 * num2, den1 * den2);
}

/// Every encoding is between zero and infinity.
pub proof fn lemma_encode_range(w: Width, num: int, den: int)
    requires
        den > 0,
        num >= 0,
    ensures
        0 <= encode(w, num, den) <= w.infinity(),
{
    let k: nat = binade(num, den, w.mant() + 1);
    lemma_step(w);
    lemma_pow2_pos(k);
    let d: int = den * pow2(k);
    assert(d > 0) by (nonlinear_arith)
        requires
            d == den * pow2(k),
            den > 0,
            pow2(k) > 0,
    ;
    assert(0 * d == 0) by (nonlinear_arith);
    assert(num <= num * d) by (nonlinear_arith)
        requires
            d > 0,
            num >= 0,
    ;
    lemma_nearest_range(num, d, 0, num);
    assert(k * w.step() >= 0) by (nonlinear_arith)
        requires
            w.step() > 0,
            k >= 0,
    ;
}

/// Significand and exponent of an encoding.
pub proof fn lemma_units_parts(w: Width, code: int)
    requires
        0 <= code,
    ensures
        ({
            let field: int = code / w.step();
            let rest: int = code % w.step();
            &&& code == field * w.step() + rest
            &&& 0 <= field
            &&& 0 <= rest < w.step()
            &&& code < w.step() <==> field == 0
            &&& code < w.infinity() <==> field < w.top_field()
        }),
{
    let field: int = code / w.step();
    let rest: int = code % w.step();
    lemma_fundamental_div_mod(code, w.step());
    lemma_mul_is_commutative(field, w.step());
    lemma_div_pos_is_pos(code, w.step());
    if field >= 1 {
        assert(field * w.step() >= w.step()) by (nonlinear_arith)
            requires
                field >= 1,
                w.step() > 0,
        ;
    }
    if field < w.top_field() {
        assert(field * w.step() + w.step() <= w.infinity()) by (nonlinear_arith)
            requires
                field + 1 <= w.top_field(),
                w.step() > 0,
                w.infinity() == w.top_field() * w.step(),
        ;
    } else {
        assert(field * w.step() >= w.infinity()) by (nonlinear_arith)
            requires
                field >= w.top_field(),
                w.step() > 0,
                w.infinity() == w.top_field() * w.step(),
        ;
    }
}

/// A finite number is the one nearest to itself.
pub proof fn lemma_encode_exact(w: Width, code: int)
    requires
        0 <= code < w.infinity(),
    ensures
        encode(w, units(w, code), 1) == code,
        units(w, code) >= 0,
{
    lemma_units_parts(w, code);
    lemma_step(w);
    lemma2_to64();
    let prec: nat = w.mant() + 1;
    let field: int = code / w.step();
    let sig: int = w.step() + code % w.step();
    let u: int = units(w, code);
    if field <= 1 {
        if field == 1 {
            lemma_mul_basics_3(sig);
        }
        assert(u == code);
        lemma_binade(u, 1, prec, 0);
        lemma_fundamental_div_mod_converse(u, 1, u, 0);
    } else {
        let k: nat = (field - 1) as nat;
        let p: int = pow2(k) as int;
        lemma_pow2_pos(k);
        lemma_pow2_adds(prec, k);
        lemma_pow2_adds((prec - 1) as nat, k);
        assert(w.step() * p <= u < (2 * w.step()) * p) by (nonlinear_arith)
            requires
                u == sig * p,
                w.step() <= sig < 2 * w.step(),
                p > 0,
        ;
        lemma_mul_strictly_positive(w.step(), p);
        lemma_binade(u, 1, prec, k);
        lemma_fundamental_div_mod_converse(u, p, sig, 0);
        assert(k * w.step() + w.step() == field * w.step()) by (nonlinear_arith)
            requires
                field == k + 1,
        ;
    }
}

/// Encodings are ordered as the numbers they stand for.
pub proof fn lemma_units_order(w: Width, low: int, high: int)
    requires
        0 <= low < high < w.infinity(),
    ensures
        0 <= units(w, low) < units(w, high),
{
    lemma_encode_exact(w, low);
    lemma_encode_exact(w, high);
    if units(w, high) <= units(w, low) {
        lemma_mul_basics_3(units(w, high));
        lemma_mul_basics_3(units(w, low));
        lemma_encode_monotone(w, units(w, high), 1, units(w, low), 1);
    }
}

} // verus!
