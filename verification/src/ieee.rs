//! The few binary floating-point results that the DirectMonotonic layout
//! depends on, computed with integers.
//!
//! A positive number is held as `m * 2^e`. Every operation rounds the exact
//! result to a number of significant bits, to nearest with ties to even:
//! 53 bits for a double, 24 for a single.

use vstd::prelude::*;
use vstd::arithmetic::div_mod::{
    lemma_fundamental_div_mod, lemma_fundamental_div_mod_converse, lemma_mod_bound,
};
use vstd::arithmetic::power2::{lemma2_to64, lemma2_to64_rest, lemma_pow2_adds, lemma_pow2_pos, pow2};
use crate::bytes::lemma_pow2_mono;

verus! {

/// `n / d` to the nearest integer, ties to even.
pub open spec fn nearest(n: nat, d: nat) -> nat {
    let q = n / d;
    let r = n % d;
    if 2 * r < d || (2 * r == d && q % 2 == 0) {
        q
    } else {
        q + 1
    }
}

/// The `k` with `2^k <= n / d < 2^(k+1)`, for `n >= d > 0`.
pub open spec fn order_above(n: nat, d: nat) -> nat
    decreases n - d,
{
    if 0 < d && 2 * d <= n {
        order_above(n, 2 * d) + 1
    } else {
        0
    }
}

/// The `k` with `2^-k <= n / d < 2^(1-k)`, for `0 < n <= d`.
pub open spec fn order_below(n: nat, d: nat) -> nat
    decreases
        if n < d {
            d - n
        } else {
            0
        },
{
    if 0 < n && n < d {
        order_below(2 * n, d) + 1
    } else {
        0
    }
}

/// The binary order of magnitude of `n / d`.
pub open spec fn order(n: nat, d: nat) -> int {
    if n >= d {
        order_above(n, d) as int
    } else {
        -(order_below(n, d) as int)
    }
}

/// `n / d` rounded to `p` significant bits, as `(m, e)` for `m * 2^e`.
pub open spec fn rounded(n: nat, d: nat, p: nat) -> (nat, int) {
    let e = order(n, d) - (p - 1);
    if e >= 0 {
        (nearest(n, d * pow2(e as nat)), e)
    } else {
        (nearest(n * pow2((-e) as nat), d), e)
    }
}

/// The double nearest to the positive integer `n`.
pub open spec fn double_of(n: nat) -> (nat, int) {
    rounded(n, 1, 53)
}

/// The single nearest to the positive integer `n`.
pub open spec fn single_of(n: nat) -> (nat, int) {
    rounded(n, 1, 24)
}

/// The double nearest to the quotient of two.
pub open spec fn double_quotient(a: (nat, int), b: (nat, int)) -> (nat, int) {
    let (m, e) = rounded(a.0, b.0, 53);
    (m, e + a.1 - b.1)
}

/// The single nearest to a double.
pub open spec fn single_of_double(a: (nat, int)) -> (nat, int) {
    let (m, e) = rounded(a.0, 1, 24);
    (m, e + a.1)
}

/// The single nearest to the product of two.
pub open spec fn single_product(a: (nat, int), b: (nat, int)) -> (nat, int) {
    let (m, e) = rounded(a.0 * b.0, 1, 24);
    (m, e + a.1 + b.1)
}

/// `m * 2^e` without its fraction.
pub open spec fn whole_part(a: (nat, int)) -> nat {
    if a.1 >= 0 {
        a.0 * pow2(a.1 as nat)
    } else {
        a.0 / pow2((-a.1) as nat)
    }
}

/// The bits of a positive single in the normal range.
pub open spec fn single_bits(a: (nat, int)) -> int {
    (a.1 + 149) * 0x80_0000 + a.0
}

/// The distance of an `i64` from zero.
pub open spec fn magnitude(v: i64) -> nat {
    if v < 0 {
        (-v) as nat
    } else {
        v as nat
    }
}

/// The bits of the single nearest to the double nearest to `diff / steps`,
/// both taken as doubles.
pub open spec fn average_bits(diff: i64, steps: nat) -> int {
    if diff == 0 {
        0
    } else {
        single_bits(single_of_double(double_quotient(double_of(magnitude(diff)), double_of(steps)))) + if diff < 0 {
            0x8000_0000int
        } else {
            0int
        }
    }
}

/// A single other than an infinity or NaN, without its sign.
pub open spec fn single_parts(bits: u32) -> (nat, int) {
    let exponent = bits as int / 0x80_0000 % 256;
    let fraction = bits as int % 0x80_0000;
    if exponent == 0 {
        (fraction as nat, -149)
    } else {
        ((fraction + 0x80_0000) as nat, exponent - 150)
    }
}

/// A magnitude with a sign, as the nearest `i64`.
pub open spec fn saturated(negative: bool, m: nat) -> int {
    if negative {
        if m > 0x8000_0000_0000_0000 {
            i64::MIN as int
        } else {
            -(m as int)
        }
    } else if m > 0x7FFF_FFFF_FFFF_FFFF {
        i64::MAX as int
    } else {
        m as int
    }
}

/// The product of the single with these bits and the single nearest to `i`,
/// without its fraction; NaN counts as zero.
pub open spec fn product_part(bits: u32, i: nat) -> int {
    let negative = bits >= 0x8000_0000;
    let exponent = bits as int / 0x80_0000 % 256;
    let fraction = bits as int % 0x80_0000;
    if i == 0 || (exponent == 255 && fraction != 0) {
        0
    } else if exponent == 255 {
        saturated(negative, 0x1_0000_0000_0000_0000)
    } else if single_parts(bits).0 == 0 {
        0
    } else {
        saturated(negative, whole_part(single_product(single_parts(bits), single_of(i))))
    }
}

proof fn lemma_order_above(n: nat, d: nat)
    requires
        0 < d <= n,
    ensures
        d * pow2(order_above(n, d)) <= n < d * pow2(order_above(n, d) + 1),
    decreases n - d,
{
    lemma2_to64();
        lemma2_to64_rest();
    if 2 * d <= n {
        lemma_order_above(n, 2 * d);
        let k = order_above(n, 2 * d);
        lemma_pow2_adds(1, k);
        lemma_pow2_adds(1, k + 1);
        let a = pow2(k);
        let b = pow2(k + 1);
        assert((2 * d) * a == d * (2 * a)) by (nonlinear_arith);
        assert((2 * d) * b == d * (2 * b)) by (nonlinear_arith);
    } else {
        assert(d * 1 == d && d * 2 == 2 * d);
    }
}

/// Between two integers, rounding stays between them.
proof fn lemma_nearest_between(n: nat, d: nat, lo: nat, hi: nat)
    requires
        d > 0,
        lo * d <= n < hi * d,
    ensures
        lo <= nearest(n, d) <= hi,
{
    let q = n / d;
    let r = n % d;
    lemma_fundamental_div_mod(n as int, d as int);
    lemma_mod_bound(n as int, d as int);
    assert(q < hi) by (nonlinear_arith)
        requires
            d * q + r < hi * d,
            r >= 0,
            d > 0,
    ;
    assert(q >= lo) by (nonlinear_arith)
        requires
            d * q + r >= lo * d,
            r < d,
            d > 0,
    ;
}

/// Rounding an integer to `p` bits gives a significand of `p` bits, or the
/// next power of two.
proof fn lemma_rounded_range(n: nat, p: nat)
    requires
        n > 0,
        p > 0,
    ensures
        pow2((p - 1) as nat) <= rounded(n, 1, p).0 <= pow2(p),
{
    let k = order_above(n, 1);
    lemma_order_above(n, 1);
    assert(1 * pow2(k) == pow2(k) && 1 * pow2(k + 1) == pow2(k + 1));
    let e = k - (p - 1);
    let lo = pow2((p - 1) as nat);
    let hi = pow2(p);
    if e >= 0 {
        let d = pow2(e as nat);
        lemma_pow2_pos(e as nat);
        lemma_pow2_adds((p - 1) as nat, e as nat);
        lemma_pow2_adds(p, e as nat);
        assert(1 * d == d);
        lemma_nearest_between(n, d, lo, hi);
    } else {
        let f = pow2((-e) as nat);
        lemma_pow2_pos((-e) as nat);
        lemma_pow2_adds(k, (-e) as nat);
        lemma_pow2_adds(k + 1, (-e) as nat);
        assert(pow2(k) * f <= n * f < pow2(k + 1) * f) by (nonlinear_arith)
            requires
                pow2(k) <= n < pow2(k + 1),
                f > 0,
        {
        }
        lemma_nearest_between(n * f, 1, lo, hi);
    }
}

proof fn lemma_order_bound(n: nat, k: nat)
    requires
        0 < n,
        n < pow2(k + 1),
    ensures
        order_above(n, 1) <= k,
{
    lemma_order_above(n, 1);
    let o = order_above(n, 1);
    assert(1 * pow2(o) == pow2(o));
    if o > k {
        lemma_pow2_mono(k + 1, o);
    }
}

fn nearest_u128(n: u128, d: u128) -> (r: u128)
    requires
        0 < d < 0x4000_0000_0000_0000_0000_0000_0000_0000,
        n < u128::MAX,
    ensures
        r == nearest(n as nat, d as nat),
{
    let q: u128 = n / d;
    let r: u128 = n % d;
    proof {
        lemma_fundamental_div_mod(n as int, d as int);
        assert(q <= n) by (nonlinear_arith)
            requires
                n == d * q + r,
                d >= 1,
                r >= 0,
                q >= 0,
        ;
    }
    if 2 * r < d || (2 * r == d && q % 2 == 0) {
        q
    } else {
        q + 1
    }
}

/// `2^e`, for an exponent below 127.
fn wide_two_to(e: u32) -> (r: u128)
    requires
        e < 127,
    ensures
        r == pow2(e as nat),
        r <= 0x4000_0000_0000_0000_0000_0000_0000_0000,
        e < 126 ==> r < 0x4000_0000_0000_0000_0000_0000_0000_0000,
{
    let mut r: u128 = 1;
    let mut i: u32 = 0;
    proof {
        lemma2_to64();
        lemma2_to64_rest();
        lemma_pow2_adds(63, 63);
        lemma_pow2_mono(e as nat, 126);
        if e < 126 {
            lemma_pow2_mono(e as nat, 125);
            lemma_pow2_adds(1, 125);
        }
    }
    while i < e
        invariant
            i <= e < 127,
            r == pow2(i as nat),
            pow2(126) == 0x4000_0000_0000_0000_0000_0000_0000_0000,
        decreases e - i,
    {
        proof {
            lemma2_to64();
        lemma2_to64_rest();
            lemma_pow2_adds(1, i as nat);
            lemma_pow2_mono(i as nat + 1, 126);
        }
        r = r * 2;
        i = i + 1;
    }
    r
}

/// An integer rounded to `p` significant bits.
fn round_integer(n: u64, p: u32) -> (r: (u64, i32))
    requires
        n > 0,
        0 < p <= 53,
    ensures
        (r.0 as nat, r.1 as int) == rounded(n as nat, 1, p as nat),
        pow2((p - 1) as nat) <= r.0 <= pow2(p as nat),
        -52 <= r.1 <= 63,
        r.1 == order_above(n as nat, 1) - (p - 1),
{
    let mut k: u32 = 0;
    let mut d: u128 = 1;
    proof {
        lemma2_to64();
        lemma2_to64_rest();
        lemma_pow2_adds(64, 1);
        lemma_order_bound(n as nat, 63);
        lemma_rounded_range(n as nat, p as nat);
        lemma_pow2_mono(p as nat, 53);
    }
    while 2 * d <= n as u128
        invariant
            0 < d <= n,
            order_above(n as nat, 1) == k + order_above(n as nat, d as nat),
            order_above(n as nat, 1) <= 63,
        decreases n - d,
    {
        d = 2 * d;
        k = k + 1;
    }
    let e: i32 = k as i32 - (p as i32 - 1);
    let m: u128 = if e >= 0 {
        nearest_u128(n as u128, wide_two_to(e as u32))
    } else {
        let f: u128 = wide_two_to((-e) as u32);
        proof {
            lemma_pow2_mono((-e) as nat, 52);
            assert(n * f <= 0xFFFF_FFFF_FFFF_FFFF * 0x10_0000_0000_0000) by (nonlinear_arith)
                requires
                    n <= 0xFFFF_FFFF_FFFF_FFFF,
                    f <= 0x10_0000_0000_0000,
            ;
        }
        nearest_u128(n as u128 * f, 1)
    };
    (m as u64, e)
}

/// The quotient of two 53-bit significands, rounded to 53 bits.
fn round_quotient(n: u64, d: u64) -> (r: (u64, i32))
    requires
        0x10_0000_0000_0000 <= n <= 0x20_0000_0000_0000,
        0x10_0000_0000_0000 <= d <= 0x20_0000_0000_0000,
    ensures
        (r.0 as nat, r.1 as int) == rounded(n as nat, d as nat, 53),
        0 < r.0 <= 0x20_0000_0000_0000,
        -53 <= r.1 <= -51,
{
    proof {
        reveal_with_fuel(order_above, 3);
        reveal_with_fuel(order_below, 3);
    }
    let e: i32 = if n >= 2 * d {
        -51
    } else if n >= d {
        -52
    } else {
        -53
    };
    let f: u128 = wide_two_to((-e) as u32);
    proof {
        lemma2_to64();
        lemma2_to64_rest();
        assert(n * f <= 0x20_0000_0000_0000 * 0x20_0000_0000_0000) by (nonlinear_arith)
            requires
                n <= 0x20_0000_0000_0000,
                f <= 0x20_0000_0000_0000,
        ;
        assert(1 * d <= n * f) by (nonlinear_arith)
            requires
                d <= 2 * n,
                f >= 2,
        ;
        assert(n * f < (0x20_0000_0000_0000 + 1) * d) by (nonlinear_arith)
            requires
                n >= 2 * d ==> f == 0x8_0000_0000_0000 && n <= 2 * d,
                2 * d > n >= d ==> f == 0x10_0000_0000_0000,
                n < d ==> f == 0x20_0000_0000_0000,
                d > 0,
        ;
        lemma_nearest_between((n * f) as nat, d as nat, 1, 0x20_0000_0000_0001);
        lemma_nearest_le((n * f) as nat, d as nat, 0x20_0000_0000_0000);
    }
    let m: u128 = nearest_u128(n as u128 * f, d as u128);
    (m as u64, e)
}

/// Rounding does not pass an integer that the number does not pass.
proof fn lemma_nearest_le(n: nat, d: nat, hi: nat)
    requires
        d > 0,
        n <= hi * d,
    ensures
        nearest(n, d) <= hi,
{
    let q = n / d;
    let r = n % d;
    lemma_fundamental_div_mod(n as int, d as int);
    lemma_mod_bound(n as int, d as int);
    assert(q < hi || (q == hi && r == 0)) by (nonlinear_arith)
        requires
            d * q + r <= hi * d,
            0 <= r < d,
    ;
}

/// The bits of the single-precision average increment `diff / steps`, which
/// is first computed in double precision.
pub fn average(diff: i64, steps: u64) -> (r: u32)
    requires
        steps > 0,
    ensures
        r == average_bits(diff, steps as nat),
{
    if diff == 0 {
        return 0;
    }
    let size: u64 = if diff < 0 {
        (-(diff as i128)) as u64
    } else {
        diff as u64
    };
    proof {
        lemma2_to64();
        lemma2_to64_rest();
        lemma_order_bound(size as nat, 63);
        lemma_order_bound(steps as nat, 63);
    }
    let (m1, e1): (u64, i32) = round_integer(size, 53);
    let (m2, e2): (u64, i32) = round_integer(steps, 53);
    proof {
        vstd::arithmetic::power2::lemma2_to64_rest();
    }
    let (m3, e3): (u64, i32) = round_quotient(m1, m2);
    proof {
        lemma_order_bound(m3 as nat, 53);
    }
    let (m4, e4): (u64, i32) = round_integer(m3, 24);
    let e: i32 = e4 + e3 + e1 - e2;
    let sign: u32 = if diff < 0 {
        0x8000_0000
    } else {
        0
    };
    assert((e + 149) * 0x80_0000 + m4 < 0x8000_0000);
    (e + 149) as u32 * 0x80_0000 + m4 as u32 + sign
}

/// The product of the single with these bits and `i` taken as a single,
/// without its fraction, as the nearest `i64`; NaN counts as zero.
pub fn product(bits: u32, i: u64) -> (r: i64)
    ensures
        r == product_part(bits, i as nat),
{
    let negative: bool = bits >= 0x8000_0000;
    let exponent: u32 = bits / 0x80_0000 % 256;
    let fraction: u32 = bits % 0x80_0000;
    if i == 0 || (exponent == 255 && fraction != 0) {
        return 0;
    }
    if exponent == 255 {
        return if negative {
            i64::MIN
        } else {
            i64::MAX
        };
    }
    let (m, e): (u64, i32) = if exponent == 0 {
        (fraction as u64, -149)
    } else {
        ((fraction + 0x80_0000) as u64, exponent as i32 - 150)
    };
    if m == 0 {
        return 0;
    }
    let (f, g): (u64, i32) = round_integer(i, 24);
    proof {
        lemma2_to64();
        lemma2_to64_rest();
        assert(0 < m * f <= 0x100_0000 * 0x100_0000) by (nonlinear_arith)
            requires
                0 < m <= 0x100_0000,
                0 < f <= 0x100_0000,
        ;
    }
    let (h, k): (u64, i32) = round_integer(m * f, 24);
    let p: i32 = k + e + g;
    let whole: u128 = if p >= 0 {
        if p >= 64 {
            proof {
                lemma_pow2_mono(64, p as nat);
                assert(h * pow2(p as nat) >= 0x1_0000_0000_0000_0000) by (nonlinear_arith)
                    requires
                        h >= 1,
                        pow2(p as nat) >= 0x1_0000_0000_0000_0000,
                ;
            }
            0x1_0000_0000_0000_0000
        } else {
            let d: u128 = wide_two_to(p as u32);
            proof {
                lemma_pow2_mono(p as nat, 63);
                assert(h * d <= 0x100_0000 * 0x8000_0000_0000_0000) by (nonlinear_arith)
                    requires
                        h <= 0x100_0000,
                        d <= 0x8000_0000_0000_0000,
                ;
            }
            h as u128 * d
        }
    } else if p <= -64 {
        proof {
            lemma_pow2_mono(64, (-p) as nat);
            lemma_fundamental_div_mod_converse(h as int, pow2((-p) as nat) as int, 0, h as int);
        }
        0
    } else {
        let d: u128 = wide_two_to((-p) as u32);
        proof {
            lemma_pow2_pos((-p) as nat);
        }
        h as u128 / d
    };
    assert(saturated(negative, whole as nat) == product_part(bits, i as nat));
    if negative {
        if whole > 0x8000_0000_0000_0000 {
            i64::MIN
        } else {
            (-(whole as i128)) as i64
        }
    } else if whole > 0x7FFF_FFFF_FFFF_FFFF {
        i64::MAX
    } else {
        whole as i64
    }
}

/// A double other than an infinity or NaN, without its sign.
pub open spec fn double_parts(bits: u64) -> (nat, int) {
    let exponent = bits as int / 0x10_0000_0000_0000 % 2048;
    let fraction = bits as int % 0x10_0000_0000_0000;
    if exponent == 0 {
        (fraction as nat, -1074)
    } else {
        ((fraction + 0x10_0000_0000_0000) as nat, exponent - 1075)
    }
}

/// The bits, but for the sign, of the double with the value of a single. A
/// NaN stays one, and is made quiet.
pub open spec fn widened_magnitude(bits: u32) -> int {
    let exponent = bits as int / 0x80_0000 % 256;
    let fraction = bits as int % 0x80_0000;
    if exponent == 255 {
        2047 * 0x10_0000_0000_0000 + fraction * 0x2000_0000 + if 0 < fraction < 0x40_0000 {
            0x8_0000_0000_0000int
        } else {
            0int
        }
    } else if exponent > 0 {
        (exponent + 896) * 0x10_0000_0000_0000 + fraction * 0x2000_0000
    } else if fraction == 0 {
        0
    } else {
        let k = order_above(fraction as nat, 1);
        (k + 874) * 0x10_0000_0000_0000 + (fraction - pow2(k)) * pow2((52 - k) as nat)
    }
}

/// The bits of the double with the value of a single.
pub open spec fn widened(bits: u32) -> int {
    widened_magnitude(bits) + if bits >= 0x8000_0000 {
        0x8000_0000_0000_0000int
    } else {
        0int
    }
}

/// The binary order is the only one that fits.
proof fn lemma_order_unique(n: nat, k: nat)
    requires
        pow2(k) <= n < pow2(k + 1),
    ensures
        order_above(n, 1) == k,
{
    lemma_pow2_pos(k);
    lemma_order_above(n, 1);
    let o = order_above(n, 1);
    assert(1 * pow2(o) == pow2(o) && 1 * pow2(o + 1) == pow2(o + 1));
    if o < k {
        lemma_pow2_mono(o + 1, k);
    } else if k < o {
        lemma_pow2_mono(k + 1, o);
    }
}

/// A fraction below the normal range, shifted up by `s` bits into it.
proof fn lemma_subnormal(fraction: nat, m: nat, s: nat)
    requires
        0 < fraction < 0x80_0000,
        s <= 23,
        m == fraction * pow2(s),
        0x80_0000 <= m < 0x100_0000,
    ensures
        order_above(fraction, 1) == 23 - s,
        (fraction - pow2((23 - s) as nat)) * pow2((29 + s) as nat) == (m - 0x80_0000) * 0x2000_0000,
{
    let k = (23 - s) as nat;
    lemma2_to64();
    lemma_pow2_adds(k, s);
    lemma_pow2_adds(k + 1, s);
    lemma_pow2_adds(29, s);
    lemma_pow2_pos(s);
    let (a, b, c) = (pow2(k), pow2(k + 1), pow2(s));
    assert(a <= fraction < b) by (nonlinear_arith)
        requires
            a * c == 0x80_0000,
            b * c == 0x100_0000,
            0x80_0000 <= fraction * c < 0x100_0000,
            c > 0,
    ;
    lemma_order_unique(fraction, k);
    let x = fraction as int;
    assert((x - a) * (0x2000_0000 * c) == (x * c - a * c) * 0x2000_0000) by (nonlinear_arith);
}

/// The bits of the double with the value of a single.
pub fn widen(bits: u32) -> (r: u64)
    ensures
        r == widened(bits),
{
    let sign: u64 = if bits >= 0x8000_0000 {
        0x8000_0000_0000_0000
    } else {
        0
    };
    let exponent: u64 = ((bits / 0x80_0000) % 256) as u64;
    let fraction: u64 = (bits % 0x80_0000) as u64;
    if exponent == 255 {
        let quiet: u64 = if 0 < fraction && fraction < 0x40_0000 {
            0x8_0000_0000_0000
        } else {
            0
        };
        return sign + (2047 * 0x10_0000_0000_0000 + fraction * 0x2000_0000 + quiet);
    }
    if exponent > 0 {
        return sign + ((exponent + 896) * 0x10_0000_0000_0000 + fraction * 0x2000_0000);
    }
    if fraction == 0 {
        return sign;
    }
    let mut m: u64 = fraction;
    let mut s: u64 = 0;
    proof {
        lemma2_to64();
        assert(fraction * 1 == fraction);
    }
    while m < 0x80_0000
        invariant
            0 < fraction < 0x80_0000,
            s <= 23,
            m == fraction * pow2(s as nat),
            m < 0x100_0000,
            pow2(s as nat) <= m,
        decreases 23 - s,
    {
        proof {
            lemma2_to64();
            lemma_pow2_adds(1, s as nat);
            let c = pow2(s as nat);
            assert(fraction * (2 * c) == 2 * (fraction * c)) by (nonlinear_arith);
            if s == 23 {
                assert(pow2(23) == 0x80_0000);
            }
        }
        m = 2 * m;
        s = s + 1;
    }
    proof {
        lemma_subnormal(fraction as nat, m as nat, s as nat);
        assert(52 - (23 - s) == 29 + s);
    }
    sign + ((897 - s) * 0x10_0000_0000_0000 + (m - 0x80_0000) * 0x2000_0000)
}

/// Widening keeps the sign and the exact value of every finite single: its
/// significand times a power of two is that of the double.
pub proof fn law_widening_exact(bits: u32, wide: u64)
    requires
        bits as int / 0x80_0000 % 256 != 255,
        wide == widened(bits),
    ensures
        (wide >= 0x8000_0000_0000_0000) == (bits >= 0x8000_0000),
        single_parts(bits).0 > 0 ==> {
            &&& single_parts(bits).1 >= double_parts(wide).1
            &&& double_parts(wide).0 == single_parts(bits).0 * pow2((single_parts(bits).1 - double_parts(wide).1) as nat)
        },
        single_parts(bits).0 == 0 ==> double_parts(wide).0 == 0,
{
    let exponent = bits as int / 0x80_0000 % 256;
    let fraction = bits as int % 0x80_0000;
    lemma2_to64();
    lemma2_to64_rest();
    let b52 = 0x10_0000_0000_0000int;
    if exponent > 0 {
        lemma_wide_parts(wide, exponent + 896, fraction * 0x2000_0000);
        let e = (single_parts(bits).1 - double_parts(wide).1) as nat;
        assert(e == 29);
        assert(pow2(e) == 0x2000_0000);
        assert((fraction + 0x80_0000) * 0x2000_0000 == fraction * 0x2000_0000 + b52);
    } else if fraction == 0 {
        lemma_wide_parts(wide, 0, 0);
    } else {
        let k = order_above(fraction as nat, 1);
        lemma_order_above(fraction as nat, 1);
        lemma_order_bound(fraction as nat, 22);
        assert(1 * pow2(k) == pow2(k) && 1 * pow2(k + 1) == pow2(k + 1));
        lemma_pow2_adds(k, (52 - k) as nat);
        lemma_pow2_adds(1, k);
        lemma_pow2_pos((52 - k) as nat);
        let (a, c) = (pow2(k) as int, pow2((52 - k) as nat) as int);
        let f = (fraction - a) * c;
        assert(0 <= f < b52) by (nonlinear_arith)
            requires
                f == (fraction - a) * c,
                a * c == b52,
                a <= fraction < 2 * a,
                c > 0,
        ;
        assert(f + b52 == fraction * c) by (nonlinear_arith)
            requires
                f == (fraction - a) * c,
                a * c == b52,
        ;
        lemma_wide_parts(wide, k as int + 874, f);
        let e = (single_parts(bits).1 - double_parts(wide).1) as nat;
        assert(e == 52 - k);
    }
}

/// The parts of a double by its exponent and fraction.
proof fn lemma_wide_parts(wide: u64, exponent: int, fraction: int)
    requires
        0 <= exponent < 2047,
        0 <= fraction < 0x10_0000_0000_0000,
        wide == exponent * 0x10_0000_0000_0000 + fraction || wide == exponent * 0x10_0000_0000_0000 + fraction
            + 0x8000_0000_0000_0000,
    ensures
        wide as int / 0x10_0000_0000_0000 % 2048 == exponent,
        wide as int % 0x10_0000_0000_0000 == fraction,
        (wide >= 0x8000_0000_0000_0000) == (wide != exponent * 0x10_0000_0000_0000 + fraction),
{
}

/// Widening keeps infinities and NaNs what they are, with their sign.
pub proof fn law_widening_special(bits: u32, wide: u64)
    requires
        bits as int / 0x80_0000 % 256 == 255,
        wide == widened(bits),
    ensures
        wide as int / 0x10_0000_0000_0000 % 2048 == 2047,
        (wide as int % 0x10_0000_0000_0000 == 0) == (bits as int % 0x80_0000 == 0),
        (wide >= 0x8000_0000_0000_0000) == (bits >= 0x8000_0000),
        bits as int % 0x80_0000 != 0 ==> (wide as int / 0x2000_0000) % 0x40_0000 == bits as int % 0x40_0000,
{
    let fraction = bits as int % 0x80_0000;
    let f = fraction * 0x2000_0000 + if 0 < fraction < 0x40_0000 {
        0x8_0000_0000_0000int
    } else {
        0int
    };
    assert(0 <= f < 0x10_0000_0000_0000);
    if bits >= 0x8000_0000 {
        assert(wide == 2047 * 0x10_0000_0000_0000 + f + 0x8000_0000_0000_0000);
    } else {
        assert(wide == 2047 * 0x10_0000_0000_0000 + f);
    }
}

} // verus!
