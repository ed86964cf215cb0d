//! `DirectWriter`/`DirectReader` packing (bulk form).
//!
//! Byte-aligned widths write `bpv/8` little-endian bytes per value; widths
//! 1, 2 and 4 pack values from the low bits up into little-endian longs;
//! widths 12, 20 and 28 pack value pairs into 3, 5 and 7 bytes. Padding
//! behind the payload lets readers over-read safely.

use vstd::prelude::*;
use vstd::arithmetic::div_mod::{
    lemma_div_denominator, lemma_fundamental_div_mod, lemma_fundamental_div_mod_converse,
    lemma_mod_bound, lemma_small_mod,
};
use vstd::arithmetic::power2::{lemma2_to64, lemma2_to64_rest, lemma_pow2_adds, lemma_pow2_pos, pow2};
use vstd::bits::{lemma_u64_shl_is_mul, lemma_u64_shr_is_div};
use vstd::slice::slice_subrange;
use crate::bytes::{
    le_bytes, le_uint, le_value, lemma_le_bytes_len, lemma_le_round_trip, lemma_le_value_bound, lemma_le_value_split,
    lemma_pow2_mono, push_le,
};
use crate::error::{Error, ErrorKind, Result};

verus! {

pub const SUPPORTED_BITS_PER_VALUE: [u8; 14] = [1, 2, 4, 8, 12, 16, 20, 24, 28, 32, 40, 48, 56, 64];

/// The widths that a reader accepts.
pub open spec fn supported(bpv: u8) -> bool {
    bpv == 1 || bpv == 2 || bpv == 4 || bpv == 8 || bpv == 12 || bpv == 16 || bpv == 20 || bpv == 24 || bpv == 28
        || bpv == 32 || bpv == 40 || bpv == 48 || bpv == 56 || bpv == 64
}

/// The widths that a writer can lay out.
pub open spec fn packable(bpv: u8) -> bool {
    bpv <= 64 && (bpv % 8 == 0 || bpv < 36)
}

pub open spec fn ceil_div(a: nat, b: nat) -> nat {
    ((a + b - 1) / b as int) as nat
}

/// How many values share one little-endian word.
pub open spec fn group_size(bpv: u8) -> nat {
    if bpv % 8 == 0 {
        1
    } else if bpv < 8 {
        64nat / (bpv as nat)
    } else {
        2
    }
}

/// How many bytes of the word a group of `n` values takes.
pub open spec fn group_bytes(n: nat, bpv: u8) -> nat {
    if bpv % 8 == 0 {
        (bpv / 8) as nat
    } else if bpv < 8 {
        ceil_div(n * bpv as nat, 8)
    } else {
        (2 * bpv as nat) / 8
    }
}

/// The word of a group: its values from the low bits up, `bpv` bits apart.
pub open spec fn group_word(values: Seq<i64>, bpv: u8) -> u64
    decreases values.len(),
{
    if values.len() == 0 {
        0
    } else if values.len() == 1 {
        values[0] as u64
    } else {
        (values[0] as u64) | (group_word(values.drop_first(), bpv) << (bpv as u64))
    }
}

/// The payload bytes of `values`, group by group.
pub open spec fn payload(values: Seq<i64>, bpv: u8) -> Seq<u8>
    decreases values.len(),
{
    let g = group_size(bpv);
    if values.len() == 0 || g == 0 {
        Seq::empty()
    } else {
        let n = if values.len() < g { values.len() } else { g };
        le_bytes(group_word(values.take(n as int), bpv) as nat, group_bytes(n, bpv)) + payload(
            values.skip(n as int),
            bpv,
        )
    }
}

/// How many zero bytes follow the payload.
pub open spec fn padding(bpv: u8) -> nat {
    if bpv > 32 {
        ceil_div((64 - bpv) as nat, 8)
    } else if bpv > 16 {
        ceil_div((32 - bpv) as nat, 8)
    } else if bpv > 8 {
        ceil_div((16 - bpv) as nat, 8)
    } else {
        0
    }
}

/// What packing `values` at `bpv` bits each writes.
pub open spec fn packed(values: Seq<i64>, bpv: u8) -> Seq<u8> {
    if bpv == 0 {
        Seq::empty()
    } else {
        payload(values, bpv) + Seq::new(padding(bpv), |i: int| 0u8)
    }
}

/// How many payload bytes `count` values take.
pub open spec fn payload_len(count: nat, bpv: u8) -> nat {
    if bpv % 8 == 0 {
        count * bpv as nat / 8
    } else if bpv < 8 {
        count / group_size(bpv) * 8 + ceil_div(count % group_size(bpv) * bpv as nat, 8)
    } else {
        ceil_div(count, 2) * (2 * bpv as nat / 8)
    }
}

proof fn lemma_payload_bound(values: Seq<i64>, bpv: u8)
    requires
        supported(bpv),
    ensures
        payload(values, bpv).len() <= 8 * values.len(),
    decreases values.len(),
{
    let g = group_size(bpv);
    if values.len() > 0 && g > 0 {
        let n: nat = if values.len() < g {
            values.len()
        } else {
            g
        };
        let word = group_word(values.take(n as int), bpv) as nat;
        lemma_le_bytes_len(word, group_bytes(n, bpv));
        assert(group_bytes(n, bpv) <= 8 * n) by {
            if bpv % 8 != 0 && bpv < 8 {
                assert(n * bpv as nat <= 8 * n) by (nonlinear_arith)
                    requires
                        bpv < 8,
                ;
                lemma_ceil_div(n * bpv as nat, 8);
            }
        }
        lemma_payload_bound(values.skip(n as int), bpv);
    }
}

/// Packing takes at most eight bytes for each value, and eight more.
pub proof fn law_packed_len(values: Seq<i64>, bpv: u8)
    requires
        bpv == 0 || supported(bpv),
    ensures
        packed(values, bpv).len() <= 8 * values.len() + 8,
{
    if bpv > 0 {
        lemma_payload_bound(values, bpv);
    }
}

/// Bits `i * bpv` up to `(i + 1) * bpv` of the number that `b` spells.
pub open spec fn unpacked(b: Seq<u8>, bpv: u8, i: nat) -> nat {
    le_value(b) / pow2(i * bpv as nat) % pow2(bpv as nat)
}

/// The first `count` values of `b`.
pub open spec fn unpacked_values(b: Seq<u8>, bpv: u8, count: nat) -> Seq<u64> {
    Seq::new(count, |i: int| unpacked(b, bpv, i as nat) as u64)
}

/// Whether a reader accepts the width.
fn is_supported(bpv: u8) -> (r: bool)
    ensures
        r == supported(bpv),
{
    let mut i: usize = 0;
    while i < SUPPORTED_BITS_PER_VALUE.len()
        invariant
            i <= 14,
            forall|k: int| 0 <= k < i ==> SUPPORTED_BITS_PER_VALUE@[k] != bpv,
        decreases 14 - i,
    {
        if SUPPORTED_BITS_PER_VALUE[i] == bpv {
            return true;
        }
        i = i + 1;
    }
    proof {
        let t = SUPPORTED_BITS_PER_VALUE@;
        assert(t[0] == 1 && t[1] == 2 && t[2] == 4 && t[3] == 8 && t[4] == 12 && t[5] == 16 && t[6] == 20 && t[7]
            == 24 && t[8] == 28 && t[9] == 32 && t[10] == 40 && t[11] == 48 && t[12] == 56 && t[13] == 64);
    }
    false
}

/// `2^e`, for an exponent that fits.
pub fn two_to(e: u32) -> (r: u64)
    requires
        e < 64,
    ensures
        r == pow2(e as nat),
{
    proof {
        lemma2_to64();
        lemma2_to64_rest();
        vstd::bits::lemma_u64_pow2_no_overflow(e as nat);
        lemma_u64_shl_is_mul(1, e as u64);
    }
    1u64 << (e as u64)
}

/// Bits needed for `max_value` (unsigned), rounded up to a supported width;
/// at least one.
pub fn unsigned_bits_required(max_value: i64) -> (r: u8)
    ensures
        r == bits_required(max_value as u64),
{
    let v: u64 = max_value as u64;
    if v < 0x2 {
        1
    } else if v < 0x4 {
        2
    } else if v < 0x10 {
        4
    } else if v < 0x100 {
        8
    } else if v < 0x1000 {
        12
    } else if v < 0x1_0000 {
        16
    } else if v < 0x10_0000 {
        20
    } else if v < 0x100_0000 {
        24
    } else if v < 0x1000_0000 {
        28
    } else if v < 0x1_0000_0000 {
        32
    } else if v < 0x100_0000_0000 {
        40
    } else if v < 0x1_0000_0000_0000 {
        48
    } else if v < 0x100_0000_0000_0000 {
        56
    } else {
        64
    }
}

/// The least supported width that holds `v`.
pub open spec fn bits_required(v: u64) -> u8 {
    if v < 0x2 {
        1
    } else if v < 0x4 {
        2
    } else if v < 0x10 {
        4
    } else if v < 0x100 {
        8
    } else if v < 0x1000 {
        12
    } else if v < 0x1_0000 {
        16
    } else if v < 0x10_0000 {
        20
    } else if v < 0x100_0000 {
        24
    } else if v < 0x1000_0000 {
        28
    } else if v < 0x1_0000_0000 {
        32
    } else if v < 0x100_0000_0000 {
        40
    } else if v < 0x1_0000_0000_0000 {
        48
    } else if v < 0x100_0000_0000_0000 {
        56
    } else {
        64
    }
}

/// The width chosen for a number is supported, holds it, and no smaller
/// supported width does.
pub proof fn law_bits_required(v: u64)
    ensures
        supported(bits_required(v)),
        v < pow2(bits_required(v) as nat),
        forall|s: u8| supported(s) && v < #[trigger] pow2(s as nat) ==> bits_required(v) <= s,
{
    lemma2_to64();
    lemma2_to64_rest();
}

pub proof fn lemma_ceil_div(a: nat, b: nat)
    requires
        b > 0,
    ensures
        ceil_div(a, b) == if a % b == 0 { a / b } else { a / b + 1 },
        (ceil_div(a, b) - 1) * b < a <= ceil_div(a, b) * b,
{
    let q = a as int / b as int;
    let r = a as int % b as int;
    lemma_fundamental_div_mod(a as int, b as int);
    assert(b * q == q * b) by (nonlinear_arith);
    if r == 0 {
        lemma_fundamental_div_mod_converse(a + b - 1, b as int, q, b - 1);
    } else {
        assert((q + 1) * b == q * b + b) by (nonlinear_arith);
        lemma_fundamental_div_mod_converse(a + b - 1, b as int, q + 1, r - 1);
    }
    let c = ceil_div(a, b) as int;
    assert((c - 1) * b == c * b - b) by (nonlinear_arith);
    assert((q + 1) * b == q * b + b) by (nonlinear_arith);
}

/// One group's word.
fn word_of(values: &[i64], from: usize, n: usize, bpv: u8) -> (r: u64)
    requires
        from + n <= values@.len(),
        n > 1 ==> bpv < 64,
    ensures
        r == group_word(values@.subrange(from as int, from + n), bpv),
{
    let total: usize = values.len();
    if n == 0 {
        return 0;
    }
    let mut word: u64 = values[from + n - 1] as u64;
    let mut k: usize = n - 1;
    while k > 0
        invariant
            k < n,
            n > 1 ==> bpv < 64,
            total == values@.len(),
            from + n <= total,
            word == group_word(values@.subrange(from + k, from + n), bpv),
        decreases k,
    {
        k = k - 1;
        proof {
            let s = values@.subrange(from + k, from + n);
            assert(s.drop_first() =~= values@.subrange(from + k + 1, from + n));
        }
        word = (values[from + k] as u64) | (word << (bpv as u64));
    }
    word
}

/// Pack `values` at `bits_per_value` and append to `out`, with the trailing
/// padding bytes.
pub fn pack(values: &[i64], bits_per_value: u8, out: &mut Vec<u8>)
    requires
        packable(bits_per_value),
    ensures
        final(out)@ == old(out)@ + packed(values@, bits_per_value),
{
    let bpv: u8 = bits_per_value;
    if bpv == 0 {
        assert(out@ =~= old(out)@ + packed(values@, bpv));
        return;
    }
    let g: usize = if bpv % 8 == 0 {
        1
    } else if bpv < 8 {
        64 / (bpv as usize)
    } else {
        2
    };
    proof {
        if bpv < 8 {
            assert(1 <= 64int / (bpv as int) <= 64) by (nonlinear_arith)
                requires
                    1 <= bpv <= 7,
            ;
        }
    }
    assert(g == group_size(bpv));
    let total: usize = values.len();
    let mut i: usize = 0;
    assert(values@.skip(0) =~= values@);
    while i < total
        invariant
            packable(bpv),
            bpv > 0,
            1 <= g <= 64,
            g == group_size(bpv),
            total == values@.len(),
            i <= total,
            out@ + payload(values@.skip(i as int), bpv) == old(out)@ + payload(values@, bpv),
        decreases total - i,
    {
        let n: usize = if total - i < g {
            total - i
        } else {
            g
        };
        proof {
            assert(values@.skip(i as int).take(n as int) =~= values@.subrange(i as int, i + n));
            assert(values@.skip(i as int).skip(n as int) =~= values@.skip(i + n));
            assert(n * bpv <= 64 * 64) by (nonlinear_arith)
                requires
                    n <= 64,
                    bpv <= 64,
            ;
        }
        let word: u64 = word_of(values, i, n, bpv);
        let nb: usize = if bpv % 8 == 0 {
            (bpv / 8) as usize
        } else if bpv < 8 {
            (n * bpv as usize + 7) / 8
        } else {
            2 * bpv as usize / 8
        };
        assert(nb == group_bytes(n as nat, bpv));
        let ghost before = out@;
        push_le(out, word, nb);
        proof {
            let rest = payload(values@.skip(i + n), bpv);
            assert(before + (le_bytes(word as nat, nb as nat) + rest) =~= out@ + rest);
        }
        i = i + n;
    }
    assert(values@.skip(total as int) =~= Seq::<i64>::empty());
    assert(out@ + payload(values@.skip(total as int), bpv) =~= out@);
    let pad: usize = if bpv > 32 {
        (64 - bpv as usize + 7) / 8
    } else if bpv > 16 {
        (32 - bpv as usize + 7) / 8
    } else if bpv > 8 {
        (16 - bpv as usize + 7) / 8
    } else {
        0
    };
    let ghost filled = out@;
    let mut k: usize = 0;
    while k < pad
        invariant
            k <= pad,
            out@ == filled + Seq::new(k as nat, |i: int| 0u8),
        decreases pad - k,
    {
        out.push(0);
        k = k + 1;
        assert(out@ =~= filled + Seq::new(k as nat, |i: int| 0u8));
    }
    assert(out@ =~= old(out)@ + packed(values@, bpv));
}

/// Exact packed byte length `pack` produces for `count` values (payload and
/// padding).
pub fn packed_len(count: usize, bits_per_value: u8) -> (r: usize)
    requires
        bits_per_value <= 64,
        count * 64 + 64 <= usize::MAX,
    ensures
        r == (if bits_per_value == 0 {
            0
        } else {
            payload_len(count as nat, bits_per_value) + padding(bits_per_value)
        }),
{
    let bpv: usize = bits_per_value as usize;
    if bpv == 0 {
        return 0;
    }
    proof {
        assert(count * bpv <= count * 64) by (nonlinear_arith)
            requires
                bpv <= 64,
        ;
    }
    let body: usize = if bpv % 8 == 0 {
        count * bpv / 8
    } else if bpv < 8 {
        let vpl: usize = 64 / bpv;
        assert(1 <= 64int / (bpv as int) <= 64) by (nonlinear_arith)
            requires
                1 <= bpv <= 7,
        ;
        let full: usize = count / vpl;
        let rest: usize = count % vpl;
        assert(full <= count) by (nonlinear_arith)
            requires
                full == count / vpl,
                vpl >= 1,
        ;
        assert(rest * bpv <= 64 * 8) by (nonlinear_arith)
            requires
                rest < vpl,
                vpl <= 64,
                bpv < 8,
        ;
        full * 8 + (rest * bpv + 7) / 8
    } else {
        let pairs: usize = count / 2 + count % 2;
        proof {
            lemma_ceil_div(count as nat, 2);
            assert(pairs * (bpv * 2 / 8) <= pairs * 16) by (nonlinear_arith)
                requires
                    bpv <= 64,
            ;
        }
        pairs * (bpv * 2 / 8)
    };
    let pad: usize = if bpv > 32 {
        (64 - bpv + 7) / 8
    } else if bpv > 16 {
        (32 - bpv + 7) / 8
    } else if bpv > 8 {
        (16 - bpv + 7) / 8
    } else {
        0
    };
    body + pad
}

/// Reading `width` bits at bit `8 * k + s` of a byte string needs only the
/// `m` bytes from byte `k` on that cover them.
pub proof fn lemma_bits_in_window(b: Seq<u8>, k: nat, m: nat, s: nat, width: nat)
    requires
        k + m <= b.len(),
        s + width <= 8 * m,
    ensures
        le_value(b) / pow2(8 * k + s) % pow2(width) == le_value(b.subrange(k as int, (k + m) as int)) / pow2(s)
            % pow2(width),
{
    let head = b.subrange(0, k as int);
    let mid = b.subrange(k as int, (k + m) as int);
    let tail = b.subrange((k + m) as int, b.len() as int);
    assert(b =~= head + (mid + tail));
    lemma_le_value_split(head, mid + tail);
    lemma_le_value_split(mid, tail);
    lemma_le_value_bound(head);
    let pk = pow2(8 * k) as int;
    let ps = pow2(s) as int;
    let h = le_value(head) as int;
    let w = le_value(mid) as int;
    let t = le_value(tail) as int;
    lemma_pow2_pos(8 * k);
    lemma_pow2_pos(s);
    lemma_pow2_pos(width);
    lemma_pow2_adds(8 * k, s);
    let hi = w + pow2(8 * m) * t;
    assert(pk * hi == hi * pk) by (nonlinear_arith);
    lemma_fundamental_div_mod_converse(le_value(b) as int, pk, hi, h);
    lemma_div_denominator(le_value(b) as int, pk, ps);
    // hi / ps, where 2^(8m) == ps * 2^width * c
    let c = pow2((8 * m - s - width) as nat) as int;
    let pw = pow2(width) as int;
    lemma_pow2_adds(s, width);
    lemma_pow2_adds(s + width, (8 * m - s - width) as nat);
    assert(pow2(8 * m) == ps * pw * c);
    let q = w / ps;
    let r = w % ps;
    lemma_fundamental_div_mod(w, ps);
    lemma_mod_bound(w, ps);
    assert(hi == (q + pw * c * t) * ps + r) by (nonlinear_arith)
        requires
            hi == w + (ps * pw * c) * t,
            w == ps * q + r,
    ;
    lemma_fundamental_div_mod_converse(hi, ps, q + pw * c * t, r);
    vstd::arithmetic::div_mod::lemma_mod_multiples_vanish(c * t, q, pw);
    assert(pw * (c * t) + q == q + pw * c * t) by (nonlinear_arith);
}

/// Value `i` of a packed byte string.
fn value_at(bytes: &[u8], bpv: u8, i: u64) -> (r: u64)
    requires
        supported(bpv),
        (i + 1) * bpv <= 8 * bytes@.len(),
    ensures
        r == unpacked(bytes@, bpv, i as nat),
{
    let ghost p = i as nat * bpv as nat;
    proof {
        assert(i as int * bpv as int + bpv == (i + 1) * bpv as int) by (nonlinear_arith);
        assert(i as int * bpv as int <= i as int * 64) by (nonlinear_arith)
            requires
                bpv <= 64,
        ;
    }
    let bit: u128 = i as u128 * bpv as u128;
    let byte: usize = (bit / 8) as usize;
    let shift: u32 = (bit % 8) as u32;
    let avail: usize = bytes.len() - byte;
    let m: usize = if avail < 8 {
        avail
    } else {
        8
    };
    proof {
        if bpv == 64 {
            assert(shift == 0);
        }
        assert(p == 8 * byte as nat + shift as nat);
        lemma_bits_in_window(bytes@, byte as nat, m as nat, shift as nat, bpv as nat);
    }
    let word: u64 = le_uint(slice_subrange(bytes, byte, byte + m));
    proof {
        lemma_u64_shr_is_div(word, shift as u64);
        lemma2_to64();
    }
    let high: u64 = word >> (shift as u64);
    if bpv == 64 {
        proof {
            lemma_small_mod(high as nat, pow2(64));
        }
        high
    } else {
        proof {
            lemma_pow2_pos(bpv as nat);
        }
        high % two_to(bpv as u32)
    }
}

/// Appends the `count` values packed in `bytes`, in order.
///
/// Value `i` occupies bits `[i·bpv, (i+1)·bpv)`, little-endian, for every
/// supported width.
pub fn for_each_unpacked(bytes: &[u8], bits_per_value: u8, count: u64, out: &mut Vec<u64>) -> (r: Result<()>)
    ensures
        match each_unpacked(bytes@, bits_per_value, count as nat) {
            Ok(v) => r is Ok && final(out)@ == old(out)@ + v,
            Err(k) => (r matches Err(e) && e.kind() == k) && final(out)@ == old(out)@,
        },
{
    if !is_supported(bits_per_value) {
        return Err(Error::corrupt("unsupported bits per value"));
    }
    proof {
        assert(count * bits_per_value <= count * 64) by (nonlinear_arith)
            requires
                bits_per_value <= 64,
        ;
        lemma_ceil_div(count as nat * bits_per_value as nat, 8);
    }
    if (count as u128 * bits_per_value as u128 + 7) / 8 > bytes.len() as u128 {
        return Err(Error::corrupt("packed data truncated"));
    }
    append_values(bytes, bits_per_value, count, out);
    Ok(())
}

/// What a reader of `count` values finds in `b`, where only the bits of the
/// values themselves must be there.
pub open spec fn each_unpacked(b: Seq<u8>, bpv: u8, count: nat) -> std::result::Result<Seq<u64>, ErrorKind> {
    if supported(bpv) && ceil_div(count * bpv as nat, 8) <= b.len() {
        Ok(unpacked_values(b, bpv, count))
    } else {
        Err(ErrorKind::Corrupt)
    }
}

fn append_values(bytes: &[u8], bpv: u8, count: u64, out: &mut Vec<u64>)
    requires
        supported(bpv),
        count * bpv <= 8 * bytes@.len(),
    ensures
        final(out)@ == old(out)@ + unpacked_values(bytes@, bpv, count as nat),
{
    let mut i: u64 = 0;
    while i < count
        invariant
            supported(bpv),
            count * bpv <= 8 * bytes@.len(),
            i <= count,
            out@ == old(out)@ + unpacked_values(bytes@, bpv, i as nat),
        decreases count - i,
    {
        assert((i + 1) * bpv <= count * bpv) by (nonlinear_arith)
            requires
                i < count,
        ;
        let v: u64 = value_at(bytes, bpv, i);
        out.push(v);
        i = i + 1;
        assert(out@ =~= old(out)@ + unpacked_values(bytes@, bpv, i as nat));
    }
}

/// What unpacking `count` values from `b` gives: whole groups must be there.
pub open spec fn unpack_result(b: Seq<u8>, bpv: u8, count: nat) -> std::result::Result<Seq<u64>, ErrorKind> {
    if supported(bpv) && payload_len(count, bpv) <= b.len() {
        Ok(unpacked_values(b, bpv, count))
    } else {
        Err(ErrorKind::Corrupt)
    }
}

/// Unpack `count` unsigned values of `bits_per_value` from `bytes`, which
/// may be longer than needed.
pub fn unpack(bytes: &[u8], bits_per_value: u8, count: usize) -> (r: Result<Vec<u64>>)
    ensures
        match unpack_result(bytes@, bits_per_value, count as nat) {
            Ok(v) => r matches Ok(w) && w@ == v,
            Err(k) => r matches Err(e) && e.kind() == k,
        },
{
    if !is_supported(bits_per_value) {
        return Err(Error::corrupt("unsupported bits per value"));
    }
    let ghost need = payload_len(count as nat, bits_per_value);
    proof {
        lemma_payload_len_covers(count as nat, bits_per_value);
        lemma_ceil_div(count as nat, 2);
    }
    // Each value takes a bit at least, so this also bounds what follows.
    if count / 8 > bytes.len() {
        assert(count <= count * bits_per_value) by (nonlinear_arith)
            requires
                bits_per_value >= 1,
        ;
        return Err(Error::corrupt("packed data truncated"));
    }
    let wide: u128 = count as u128;
    let bits: u128 = wide * bits_per_value as u128;
    proof {
        assert(count * bits_per_value <= count * 64) by (nonlinear_arith)
            requires
                bits_per_value <= 64,
        ;
    }
    let need_bytes: u128 = if bits_per_value % 8 == 0 || bits_per_value < 8 {
        (bits + 7) / 8
    } else {
        let pairs: u128 = (wide + 1) / 2;
        proof {
            assert(pairs * (2 * bits_per_value / 8) <= pairs * 16) by (nonlinear_arith)
                requires
                    bits_per_value <= 64,
            ;
        }
        pairs * (2 * bits_per_value / 8) as u128
    };
    assert(need_bytes == need);
    if need_bytes > bytes.len() as u128 {
        return Err(Error::corrupt("packed data truncated"));
    }
    let mut out: Vec<u64> = Vec::new();
    append_values(bytes, bits_per_value, count as u64, &mut out);
    assert(out@ =~= unpacked_values(bytes@, bits_per_value, count as nat));
    Ok(out)
}

/// The payload holds all bits of its values; for widths that divide a byte
/// or a long it holds no byte more.
pub proof fn lemma_payload_len_covers(count: nat, bpv: u8)
    requires
        supported(bpv),
    ensures
        count * bpv <= 8 * payload_len(count, bpv),
        bpv % 8 == 0 || bpv < 8 ==> payload_len(count, bpv) == ceil_div(count * bpv as nat, 8),
{
    let w = bpv as nat;
    lemma_ceil_div(count * w, 8);
    if bpv % 8 == 0 {
        let m = w / 8;
        assert(count * w == 8 * (count * m)) by (nonlinear_arith)
            requires
                w == 8 * m,
        ;
        assert(8 * (count * m) / 8 == count * m);
    } else if bpv < 8 {
        let g = group_size(bpv);
        assert(g * w == 64) by {
            assert(bpv == 1 || bpv == 2 || bpv == 4);
        }
        let q = count / g;
        let r = count % g;
        lemma_fundamental_div_mod(count as int, g as int);
        lemma_ceil_div(r * w, 8);
        assert(count * w == q * 64 + r * w) by (nonlinear_arith)
            requires
                count == g * q + r,
                g * w == 64,
        ;
    } else {
        lemma_ceil_div(count, 2);
        let h = ceil_div(count, 2);
        let m = 2 * w / 8;
        assert(2 * w == 8 * m);
        assert(count * w <= 8 * (h * m)) by (nonlinear_arith)
            requires
                count <= h * 2,
                2 * w == 8 * m,
        ;
    }
}

// Unpacking gives back what was packed.

/// The values fit into `bpv` bits each.
pub open spec fn all_fit(values: Seq<i64>, bpv: u8) -> bool {
    forall|i: int| 0 <= i < values.len() ==> (#[trigger] values[i] as u64) < pow2(bpv as nat)
}

/// The number with the digits `values`, lowest first, in base `2^bpv`.
spec fn digits_value(values: Seq<i64>, bpv: u8) -> nat
    decreases values.len(),
{
    if values.len() == 0 {
        0
    } else {
        (values[0] as u64) as nat + pow2(bpv as nat) * digits_value(values.drop_first(), bpv)
    }
}

proof fn lemma_digits_bound(values: Seq<i64>, bpv: u8)
    requires
        all_fit(values, bpv),
    ensures
        digits_value(values, bpv) < pow2(values.len() * bpv as nat),
    decreases values.len(),
{
    lemma2_to64();
    if values.len() > 0 {
        let rest = values.drop_first();
        lemma_digits_bound(rest, bpv);
        lemma_pow2_adds(bpv as nat, rest.len() * bpv as nat);
        assert(bpv as nat + rest.len() * bpv as nat == values.len() * bpv as nat) by (nonlinear_arith)
            requires
                rest.len() + 1 == values.len(),
        ;
        let p = pow2(bpv as nat);
        let d = digits_value(rest, bpv);
        let q = pow2(rest.len() * bpv as nat);
        assert((values[0] as u64) as nat + p * d < p * q) by (nonlinear_arith)
            requires
                ((values[0] as u64) as nat) < p,
                d + 1 <= q,
        ;
    } else {
        assert(0 * bpv as nat == 0) by (nonlinear_arith);
    }
}

proof fn lemma_digits_split(a: Seq<i64>, b: Seq<i64>, bpv: u8)
    ensures
        digits_value(a + b, bpv) == digits_value(a, bpv) + pow2(a.len() * bpv as nat) * digits_value(b, bpv),
    decreases a.len(),
{
    lemma2_to64();
    if a.len() == 0 {
        assert(a + b =~= b);
        assert(0 * bpv as nat == 0) by (nonlinear_arith);
        assert(1 * digits_value(b, bpv) == digits_value(b, bpv)) by (nonlinear_arith);
    } else {
        let t = a.drop_first();
        assert((a + b).drop_first() =~= t + b);
        lemma_digits_split(t, b, bpv);
        lemma_pow2_adds(bpv as nat, t.len() * bpv as nat);
        assert(bpv as nat + t.len() * bpv as nat == a.len() * bpv as nat) by (nonlinear_arith)
            requires
                t.len() + 1 == a.len(),
        ;
        let p = pow2(bpv as nat);
        let x = digits_value(t, bpv);
        let q = pow2(t.len() * bpv as nat);
        let y = digits_value(b, bpv);
        assert(p * (x + q * y) == p * x + (p * q) * y) by (nonlinear_arith);
    }
}

/// The digits of a number can be read off by dividing.
proof fn lemma_digit_at(values: Seq<i64>, bpv: u8, i: nat)
    requires
        all_fit(values, bpv),
        i < values.len(),
    ensures
        digits_value(values, bpv) / pow2(i * bpv as nat) % pow2(bpv as nat) == values[i as int] as u64,
{
    let a = values.take(i as int);
    let b = values.skip(i as int);
    assert(values =~= a + b);
    lemma_digits_split(a, b, bpv);
    lemma_digits_bound(a, bpv);
    let p = pow2(i * bpv as nat) as int;
    let w = pow2(bpv as nat) as int;
    let y = digits_value(b, bpv) as int;
    let z = digits_value(b.drop_first(), bpv) as int;
    assert(p * y == y * p) by (nonlinear_arith);
    lemma_fundamental_div_mod_converse(digits_value(values, bpv) as int, p, y, digits_value(a, bpv) as int);
    assert(b[0] == values[i as int]);
    assert(w * z == z * w) by (nonlinear_arith);
    lemma_fundamental_div_mod_converse(y, w, z, (values[i as int] as u64) as int);
}

/// Values that fit leave no overlap in a group's word.
proof fn lemma_group_word(values: Seq<i64>, bpv: u8)
    requires
        all_fit(values, bpv),
        values.len() * bpv as nat <= 64,
        values.len() > 1 ==> bpv < 64,
    ensures
        group_word(values, bpv) == digits_value(values, bpv),
    decreases values.len(),
{
    lemma2_to64();
    lemma_digits_bound(values, bpv);
    if values.len() == 1 {
        reveal_with_fuel(digits_value, 2);
        assert(pow2(bpv as nat) * 0 == 0) by (nonlinear_arith);
    } else if values.len() > 1 {
        let t = values.drop_first();
        assert(t.len() * bpv as nat + bpv as nat == values.len() * bpv as nat) by (nonlinear_arith)
            requires
                t.len() + 1 == values.len(),
        ;
        lemma_group_word(t, bpv);
        let w = group_word(t, bpv);
        let p = pow2(bpv as nat);
        lemma_pow2_mono(values.len() * bpv as nat, 64);
        assert(w * p == p * w) by (nonlinear_arith);
        lemma_u64_shl_is_mul(w, bpv as u64);
        let a = values[0] as u64;
        let k = bpv as u64;
        lemma_u64_shr_is_div(a, k);
        vstd::arithmetic::div_mod::lemma_basic_div(a as int, p as int);
        assert(a | (w << k) == (a + (w << k)) as u64) by (bit_vector)
            requires
                a >> k == 0,
                k < 64,
        ;
    }
}

proof fn lemma_group_facts(bpv: u8)
    requires
        supported(bpv),
    ensures
        ({
            let g = group_size(bpv);
            &&& 1 <= g <= 64
            &&& g * bpv as nat == 8 * group_bytes(g, bpv)
            &&& g * bpv as nat <= 64
            &&& g > 1 ==> bpv < 64
        }),
{
    let g = group_size(bpv);
    if bpv % 8 == 0 {
    } else if bpv < 8 {
        assert(bpv == 1 || bpv == 2 || bpv == 4);
        assert(g * bpv as nat == 64);
        lemma_ceil_div(64, 8);
    } else {
        assert(bpv == 12 || bpv == 20 || bpv == 28);
    }
}

proof fn lemma_group_covers(n: nat, bpv: u8)
    requires
        supported(bpv),
        n <= group_size(bpv),
    ensures
        n * bpv as nat <= 8 * group_bytes(n, bpv),
{
    lemma_group_facts(bpv);
    lemma_ceil_div(n * bpv as nat, 8);
    assert(n * bpv as nat <= group_size(bpv) * bpv as nat) by (nonlinear_arith)
        requires
            n <= group_size(bpv),
    ;
}

proof fn lemma_payload_len_zero(bpv: u8)
    requires
        supported(bpv),
    ensures
        payload_len(0, bpv) == 0,
{
    lemma_group_facts(bpv);
    let g = group_size(bpv);
    lemma_fundamental_div_mod_converse(0, g as int, 0, 0);
    assert(0 * bpv as nat == 0) by (nonlinear_arith);
    assert(0 * (2 * bpv as nat / 8) == 0) by (nonlinear_arith);
    lemma_ceil_div(0, 8);
    lemma_ceil_div(0, 2);
}

/// The payload spells the number whose digits are the values.
proof fn lemma_payload_value(values: Seq<i64>, bpv: u8)
    requires
        supported(bpv),
        all_fit(values, bpv),
    ensures
        le_value(payload(values, bpv)) == digits_value(values, bpv),
        payload(values, bpv).len() == payload_len(values.len(), bpv),
    decreases values.len(),
{
    let g = group_size(bpv);
    let w = bpv as nat;
    lemma_group_facts(bpv);
    if values.len() == 0 {
        lemma_payload_len_zero(bpv);
    } else {
        let n = if values.len() < g { values.len() } else { g };
        let a = values.take(n as int);
        let b = values.skip(n as int);
        assert(values =~= a + b);
        assert(n * w <= g * w) by (nonlinear_arith)
            requires
                n <= g,
        ;
        lemma_group_word(a, bpv);
        lemma_digits_bound(a, bpv);
        lemma_digits_split(a, b, bpv);
        let nb = group_bytes(n, bpv);
        lemma_group_covers(n, bpv);
        lemma_pow2_mono(n * w, 8 * nb);
        let head = le_bytes(group_word(a, bpv) as nat, nb);
        lemma_le_round_trip(group_word(a, bpv) as nat, nb);
        lemma_payload_value(b, bpv);
        lemma_le_value_split(head, payload(b, bpv));
        lemma_payload_len_step(values.len(), bpv);
        if n < g {
            assert(b.len() == 0);
            assert(pow2(8 * nb) * 0 == 0) by (nonlinear_arith);
            assert(pow2(n * w) * 0 == 0) by (nonlinear_arith);
        }
    }
}

/// Taking one group off the front takes its bytes off the payload.
proof fn lemma_payload_len_step(count: nat, bpv: u8)
    requires
        supported(bpv),
        count > 0,
    ensures
        ({
            let g = group_size(bpv);
            let n = if count < g { count } else { g };
            payload_len(count, bpv) == group_bytes(n, bpv) + payload_len((count - n) as nat, bpv)
        }),
{
    let g = group_size(bpv);
    let w = bpv as nat;
    let n = if count < g { count } else { g };
    let rest = (count - n) as nat;
    lemma_ceil_div(count, 2);
    lemma_ceil_div(rest, 2);
    if bpv % 8 == 0 {
        let m = w / 8;
        assert(count * w == 8 * (count * m) && rest * w == 8 * (rest * m)) by (nonlinear_arith)
            requires
                w == 8 * m,
        ;
        assert(count * m == m + rest * m) by (nonlinear_arith)
            requires
                count == rest + 1,
        ;
    } else if bpv < 8 {
        assert(bpv == 1 || bpv == 2 || bpv == 4);
        lemma_fundamental_div_mod(count as int, g as int);
        lemma_ceil_div(0, 8);
        assert(0 * w == 0) by (nonlinear_arith);
        if count < g {
            lemma_fundamental_div_mod_converse(count as int, g as int, 0, count as int);
            lemma_fundamental_div_mod_converse(0, g as int, 0, 0);
            assert(rest == 0);
        } else {
            let q = count / g;
            let r = count % g;
            assert(rest == g * (q - 1) + r) by (nonlinear_arith)
                requires
                    count == g * q + r,
                    rest == count - g,
            ;
            assert(g * (q - 1) == (q - 1) * g) by (nonlinear_arith);
            lemma_fundamental_div_mod_converse(rest as int, g as int, q - 1, r as int);
            assert(g * w == 64);
            lemma_ceil_div(64, 8);
        }
    } else {
        let m = 2 * w / 8;
        let h = ceil_div(count, 2) as int;
        assert(ceil_div(rest, 2) == h - 1);
        assert(h * m == m + (h - 1) * m) by (nonlinear_arith);
    }
}

/// Zero bytes behind a number leave it as it is.
proof fn lemma_zeros_value(n: nat)
    ensures
        le_value(Seq::new(n, |i: int| 0u8)) == 0,
    decreases n,
{
    let z = Seq::new(n, |i: int| 0u8);
    if n > 0 {
        lemma_zeros_value((n - 1) as nat);
        assert(z.drop_first() =~= Seq::new((n - 1) as nat, |i: int| 0u8));
    }
}

/// Unpacking what was packed gives the values back, for every supported
/// width and whatever follows; packing takes exactly the predicted bytes.
pub proof fn law_pack_unpack(values: Seq<i64>, bpv: u8, rest: Seq<u8>)
    requires
        supported(bpv),
        all_fit(values, bpv),
    ensures
        packed(values, bpv).len() == payload_len(values.len(), bpv) + padding(bpv),
        unpack_result(packed(values, bpv) + rest, bpv, values.len()) == Ok::<Seq<u64>, ErrorKind>(
            Seq::new(values.len(), |i: int| values[i] as u64),
        ),
        each_unpacked(packed(values, bpv) + rest, bpv, values.len()) == Ok::<Seq<u64>, ErrorKind>(
            Seq::new(values.len(), |i: int| values[i] as u64),
        ),
{
    let w = bpv as nat;
    let body = payload(values, bpv);
    let zeros = Seq::new(padding(bpv), |i: int| 0u8);
    let b = packed(values, bpv) + rest;
    lemma_payload_value(values, bpv);
    lemma_payload_len_covers(values.len(), bpv);
    lemma_ceil_div(values.len() * w, 8);
    assert forall|i: int| 0 <= i < values.len() implies unpacked(b, bpv, i as nat) == values[i] as u64 by {
        let k = i as nat;
        let n = values.len();
        let o = k * w;
        // The payload holds every bit of value i.
        assert(k * w + w <= n * w) by (nonlinear_arith)
            requires
                k + 1 <= n,
        ;
        lemma_prefix_bits(body, zeros + rest, o, w);
        assert(b =~= body + (zeros + rest));
        lemma_digit_at(values, bpv, i as nat);
    }
    assert(unpacked_values(b, bpv, values.len()) =~= Seq::new(values.len(), |i: int| values[i] as u64));
}

/// Bits inside a prefix do not depend on what follows it.
proof fn lemma_prefix_bits(a: Seq<u8>, rest: Seq<u8>, o: nat, width: nat)
    requires
        o + width <= 8 * a.len(),
    ensures
        le_value(a + rest) / pow2(o) % pow2(width) == le_value(a) / pow2(o) % pow2(width),
{
    lemma_bits_in_window(a + rest, 0, a.len(), o, width);
    assert((a + rest).subrange(0, a.len() as int) =~= a);
    assert(8 * 0 + o == o);
}

} // verus!
