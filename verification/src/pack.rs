//! Packing of an integer times a power of two into an encoding.
use crate::rounding;
use crate::rounding::Width;
use vstd::arithmetic::div_mod::*;
use vstd::arithmetic::mul::*;
use vstd::arithmetic::power2::*;
use vstd::bits::*;
use vstd::prelude::*;
use vstd::std_specs::bits::*;

verus! {

impl Width {
    /// Number of stored significand bits.
    pub fn mant_bits(self) -> (r: u32)
        ensures
            r == self.mant(),
    {
        match self {
            Width::Single => 23,
            Width::Double => 52,
        }
    }

    /// The exponent of the format's unit, negated.
    pub fn unit_bits(self) -> (r: i32)
        ensures
            r == self.unit(),
    {
        match self {
            Width::Single => 149,
            Width::Double => 1074,
        }
    }

    /// The encoding of infinity.
    pub fn infinity_code(self) -> (r: u64)
        ensures
            r == self.infinity(),
    {
        match self {
            Width::Single => 0x7f80_0000,
            Width::Double => 0x7ff0_0000_0000_0000,
        }
    }

    /// The exponent field of infinity.
    pub fn top(self) -> (r: u32)
        ensures
            r == self.top_field(),
    {
        match self {
            Width::Single => 255,
            Width::Double => 2047,
        }
    }
}

proof fn lemma_one_shl(k: u32)
    requires
        k < 128,
    ensures
        1u128 << k == pow2(k as nat),
    decreases k,
{
    rounding::lemma_step(Width::Single);
    if k == 0 {
        assert(1u128 << 0u32 == 1u128) by (bit_vector);
        lemma2_to64();
    } else {
        let j: u32 = (k - 1) as u32;
        lemma_one_shl(j);
        lemma_pow2_unfold(k as nat);
        rounding::lemma_pow2_increases(k as nat, 127);
        assert((1u128 << k) == (1u128 << j) * 2) by (bit_vector)
            requires
                0 < k < 128,
                j == k - 1,
        ;
    }
}

proof fn lemma_leading_zeros(i: u64)
    requires
        i > 0,
    ensures
        0 <= u64_leading_zeros(i) < 64,
        pow2((63 - u64_leading_zeros(i)) as nat) <= i < pow2((64 - u64_leading_zeros(i)) as nat),
    decreases i,
{
    reveal(u64_leading_zeros);
    lemma2_to64();
    if i == 1 {
        assert(u64_leading_zeros(0) == 64);
        assert(u64_leading_zeros(1) == 63);
    } else {
        lemma_leading_zeros(i / 2);
        let z: int = u64_leading_zeros(i / 2);
        assert(z > 0) by {
            if z == 0 {
                rounding::lemma_step(Width::Single);
                assert(false);
            }
        }
        lemma_pow2_unfold((64 - z) as nat);
        lemma_pow2_unfold((65 - z) as nat);
    }
}

/// Two to the `k`.
pub fn two_to(k: u32) -> (r: u128)
    requires
        k < 128,
    ensures
        r == pow2(k as nat),
{
    proof {
        lemma_one_shl(k);
    }
    1u128 << k
}

/// Number of bits up to and with the highest one of `n`.
pub fn bit_length(n: u128) -> (l: u32)
    requires
        n > 0,
    ensures
        1 <= l <= 128,
        pow2((l - 1) as nat) <= n < pow2(l as nat),
{
    let high: u64 = (n >> 64) as u64;
    proof {
        lemma_u128_shr_is_div(n, 64);
        lemma2_to64();
        lemma2_to64_rest();
        lemma_fundamental_div_mod(n as int, pow2(64) as int);
    }
    assert(high == n / 0x1_0000_0000_0000_0000);
    if high > 0 {
        let z: u32 = high.leading_zeros();
        proof {
            lemma_leading_zeros(high);
            lemma_pow2_adds((63 - z) as nat, 64);
            lemma_pow2_adds((64 - z) as nat, 64);
            let a: int = pow2((63 - z) as nat) as int;
            let b: int = pow2((64 - z) as nat) as int;
            let p: int = pow2(64) as int;
            assert(a * p <= n < b * p) by (nonlinear_arith)
                requires
                    a <= high < b,
                    n == p * high + n as int % p,
                    0 <= n as int % p < p,
            ;
        }
        128 - z
    } else {
        let low: u64 = n as u64;
        let z: u32 = low.leading_zeros();
        proof {
            lemma_leading_zeros(low);
        }
        64 - z
    }
}

proof fn lemma_pow2_product(n: int, len: nat, x: nat)
    requires
        len >= 1,
        pow2((len - 1) as nat) <= n < pow2(len),
    ensures
        pow2((len - 1 + x) as nat) <= n * pow2(x) < pow2(len + x),
{
    lemma_pow2_adds((len - 1) as nat, x);
    lemma_pow2_adds(len, x);
    lemma_pow2_pos(x);
    let a: int = pow2((len - 1) as nat) as int;
    let b: int = pow2(len) as int;
    let p: int = pow2(x) as int;
    assert(a * p <= n * p < b * p) by (nonlinear_arith)
        requires
            a <= n < b,
            p > 0,
    ;
}

/// The binade of `n * 2^e` by the length of `n`.
proof fn lemma_pack_binade(w: Width, n: int, e: int, len: nat, k: nat)
    requires
        len >= 1,
        pow2((len - 1) as nat) <= n < pow2(len),
        k == (if len + e > w.mant() + 1 {
            len + e - (w.mant() + 1)
        } else {
            0
        }),
    ensures
        rounding::binade(rounding::shifted_num(n, e), rounding::shifted_den(e), w.mant() + 1) == k,
{
    let prec: nat = w.mant() + 1;
    let num: int = rounding::shifted_num(n, e);
    let den: int = rounding::shifted_den(e);
    if e >= 0 {
        lemma_pow2_product(n, len, e as nat);
        rounding::lemma_pow2_increases((len + e) as nat, prec + k);
    } else {
        lemma_pow2_pos((-e) as nat);
        lemma_pow2_adds((-e) as nat, prec + k);
        rounding::lemma_pow2_increases(len, (-e + prec + k) as nat);
        if k > 0 {
            lemma_pow2_adds((-e) as nat, (prec + k - 1) as nat);
        }
    }
    rounding::lemma_binade(num, den, prec, k);
}

/// Rounding `n * 2^e` to a multiple of a larger `2^k` is rounding `n`.
proof fn lemma_pack_scale(n: int, e: int, k: nat)
    requires
        n >= 0,
        k > e,
    ensures
        rounding::nearest(rounding::shifted_num(n, e), rounding::shifted_den(e) * pow2(k)) == rounding::nearest(n, pow2((k - e) as nat) as int),
{
    if e >= 0 {
        lemma_pow2_adds(e as nat, (k - e) as nat);
        lemma_pow2_pos(e as nat);
        lemma_pow2_pos((k - e) as nat);
        rounding::lemma_nearest_scale(pow2(e as nat) as int, n, pow2((k - e) as nat) as int);
        lemma_mul_is_commutative(n, pow2(e as nat) as int);
    } else {
        lemma_pow2_adds((-e) as nat, k);
    }
}

/// Rounding `n * 2^e` to a multiple of a smaller `2^k` changes nothing.
proof fn lemma_pack_exact(n: int, e: int, len: nat, k: nat, bound: nat)
    requires
        len >= 1,
        pow2((len - 1) as nat) <= n < pow2(len),
        k <= e,
        len + e - k <= bound,
    ensures
        rounding::nearest(rounding::shifted_num(n, e), rounding::shifted_den(e) * pow2(k)) == n * pow2((e - k) as nat),
        0 <= n * pow2((e - k) as nat) < pow2(bound),
{
    let d: nat = (e - k) as nat;
    lemma_pow2_product(n, len, d);
    rounding::lemma_pow2_increases(len + d, bound);
    lemma_pow2_pos((len - 1 + d) as nat);
    lemma_pow2_adds(d, k);
    lemma_pow2_pos(k);
    let q: int = n * pow2(d);
    let p: int = pow2(k) as int;
    assert(n * (pow2(d) * p) == q * p) by (nonlinear_arith)
        requires
            q == n * pow2(d),
    ;
    lemma_fundamental_div_mod_converse(q * p, p, q, 0);
}

proof fn lemma_nearest_bounds(num: int, den: int, hi: int)
    requires
        den > 0,
        0 <= num <= hi * den,
    ensures
        0 <= rounding::nearest(num, den) <= hi,
{
    lemma_fundamental_div_mod(num, den);
    let q: int = num / den;
    let r: int = num % den;
    assert(q >= 0) by {
        lemma_div_pos_is_pos(num, den);
    }
    assert(q <= hi) by (nonlinear_arith)
        requires
            den * q + r == num,
            num <= hi * den,
            0 <= r,
            den > 0,
    ;
    if q == hi {
        assert(r == 0) by (nonlinear_arith)
            requires
                den * q + r == num,
                num <= hi * den,
                q == hi,
                0 <= r,
        ;
    }
}

/// The integer nearest to `n / 2^t`.
fn round_shift(n: u128, t: u32) -> (r: u64)
    requires
        0 < t < 128,
        n < pow2((53 + t) as nat),
    ensures
        r == rounding::nearest(n as int, pow2(t as nat) as int),
        r <= pow2(53),
{
    proof {
        lemma_u128_shr_is_div(n, t as u128);
        assert(n >> t == n >> (t as u128)) by (bit_vector);
        lemma_pow2_unfold(t as nat);
        lemma_pow2_pos((t - 1) as nat);
        lemma_fundamental_div_mod(n as int, pow2(t as nat) as int);
        lemma_pow2_adds(53, t as nat);
        lemma_nearest_bounds(n as int, pow2(t as nat) as int, pow2(53) as int);
        lemma2_to64_rest();
        let q: int = n as int / pow2(t as nat) as int;
        let p: int = pow2(t as nat) as int;
        assert(q <= pow2(53)) by (nonlinear_arith)
            requires
                n == p * q + n as int % p,
                0 <= n as int % p,
                n < pow2(53) * p,
                p > 0,
        ;
        lemma_mul_is_commutative(q, p);
    }
    let whole: u128 = n >> t;
    let rest: u128 = n - whole * two_to(t);
    let half: u128 = two_to(t - 1);
    let q: u64 = whole as u64;
    if rest < half || (rest == half && q % 2 == 0) {
        q
    } else {
        q + 1
    }
}

pub proof fn lemma_encode_zero(w: Width, den: int)
    requires
        den > 0,
    ensures
        rounding::encode(w, 0, den) == 0,
{
    let prec: nat = w.mant() + 1;
    rounding::lemma_step(w);
    lemma_pow2_pos(prec);
    assert(den * pow2(prec) > 0) by (nonlinear_arith)
        requires
            den > 0,
            pow2(prec) > 0,
    ;
    rounding::lemma_binade(0, den, prec, 0);
    lemma2_to64();
    assert(den * pow2(0) == den) by (nonlinear_arith)
        requires
            pow2(0) == 1,
    ;
    lemma_small_mod(0, den as nat);
    lemma_basic_div(0, den);
}

proof fn lemma_pack_shift_bound(n: int, len: nat, d: nat)
    requires
        len >= 1,
        pow2((len - 1) as nat) <= n < pow2(len),
        n * pow2(d) < pow2(53),
    ensures
        d < 53,
{
    if d >= 53 {
        rounding::lemma_pow2_increases(53, d);
        lemma_pow2_pos((len - 1) as nat);
        assert(n * pow2(d) >= pow2(d)) by (nonlinear_arith)
            requires
                n >= 1,
                pow2(d) >= 0,
        ;
    }
}

/// The number `n * 2^e` units, rounded to the format.
pub fn pack(w: Width, n: u128, e: i32) -> (code: u64)
    requires
        n < pow2(127),
        -6000 <= e <= 6000,
    ensures
        code == rounding::encode(w, rounding::shifted_num(n as int, e as int), rounding::shifted_den(e as int)),
        code <= w.infinity(),
{
    let ghost num: int = rounding::shifted_num(n as int, e as int);
    let ghost den: int = rounding::shifted_den(e as int);
    proof {
        rounding::lemma_step(w);
        if e < 0 {
            lemma_pow2_pos((-e) as nat);
        }
    }
    if n == 0 {
        proof {
            lemma_encode_zero(w, den);
            assert(0 * pow2(e as nat) == 0) by (nonlinear_arith);
        }
        return 0;
    }
    let length: u32 = bit_length(n);
    let over: i32 = length as i32 + e - (w.mant_bits() as i32 + 1);
    let k: i32 = if over > 0 {
        over
    } else {
        0
    };
    proof {
        lemma_pack_binade(w, n as int, e as int, length as nat, k as nat);
        lemma_pow2_pos(k as nat);
    }
    if k >= w.top() as i32 {
        proof {
            assert(k * w.step() >= w.top_field() * w.step()) by (nonlinear_arith)
                requires
                    k >= w.top_field(),
                    w.step() > 0,
            ;
            assert(num >= 0) by (nonlinear_arith)
                requires
                    num == n || num == n * pow2(e as nat),
            ;
            assert(den * pow2(k as nat) > 0) by (nonlinear_arith)
                requires
                    den > 0,
                    pow2(k as nat) > 0,
            ;
            assert(num <= num * (den * pow2(k as nat))) by (nonlinear_arith)
                requires
                    den * pow2(k as nat) > 0,
                    num >= 0,
            ;
            lemma_nearest_bounds(num, den * pow2(k as nat), num);
        }
        return w.infinity_code();
    }
    let t: i32 = k - e;
    let q: u64 = if t <= 0 {
        proof {
            lemma_pack_exact(n as int, e as int, length as nat, k as nat, 53);
            lemma2_to64_rest();
            lemma_pack_shift_bound(n as int, length as nat, (-t) as nat);
        }
        (n * two_to((-t) as u32)) as u64
    } else {
        proof {
            lemma_pack_scale(n as int, e as int, k as nat);
        }
        if t >= 128 {
            proof {
                rounding::lemma_pow2_increases(128, t as nat);
                lemma_small_mod(n as nat, pow2(t as nat));
                lemma_basic_div(n as int, pow2(t as nat) as int);
            }
            0
        } else {
            proof {
                rounding::lemma_pow2_increases(length as nat, (53 + t) as nat);
            }
            round_shift(n, t as u32)
        }
    };
    assert(q == rounding::nearest(num, den * pow2(k as nat)));
    proof {
        lemma2_to64_rest();
        assert(k * w.step() < w.infinity()) by (nonlinear_arith)
            requires
                0 <= k < w.top_field(),
                w.step() > 0,
                w.infinity() == w.top_field() * w.step(),
        ;
    }
    let code: u64 = (k as u64) * (two_to(w.mant_bits()) as u64) + q;
    if code < w.infinity_code() {
        code
    } else {
        w.infinity_code()
    }
}

} // verus!
