//! Fixed-width integers as little-endian and big-endian byte strings.

use vstd::prelude::*;
use vstd::arithmetic::power2::{pow2, lemma_pow2_adds, lemma_pow2_pos, lemma2_to64};

verus! {

/// The low `n` bytes of `v`, least significant first.
pub open spec fn le_bytes(v: nat, n: nat) -> Seq<u8>
    decreases n,
{
    if n == 0 {
        Seq::empty()
    } else {
        seq![(v % 256) as u8] + le_bytes(v / 256, (n - 1) as nat)
    }
}

/// The number that `s` spells, least significant byte first.
pub open spec fn le_value(s: Seq<u8>) -> nat
    decreases s.len(),
{
    if s.len() == 0 {
        0
    } else {
        s[0] as nat + 256 * le_value(s.drop_first())
    }
}

/// The low `n` bytes of `v`, most significant first.
pub open spec fn be_bytes(v: nat, n: nat) -> Seq<u8> {
    le_bytes(v, n).reverse()
}

/// The number that `s` spells, most significant byte first.
pub open spec fn be_value(s: Seq<u8>) -> nat {
    le_value(s.reverse())
}

/// The eight little-endian bytes of `v` in two's complement.
pub open spec fn le_i64(v: i64) -> Seq<u8> {
    le_bytes((v as u64) as nat, 8)
}

/// The four little-endian bytes of `v` in two's complement.
pub open spec fn le_i32(v: i32) -> Seq<u8> {
    le_bytes((v as u32) as nat, 4)
}

/// The two little-endian bytes of `v` in two's complement.
pub open spec fn le_i16(v: i16) -> Seq<u8> {
    le_bytes((v as u16) as nat, 2)
}

/// The four big-endian bytes of `v` in two's complement.
pub open spec fn be_i32(v: i32) -> Seq<u8> {
    be_bytes((v as u32) as nat, 4)
}

pub proof fn lemma_pow2_step(n: nat)
    ensures
        pow2(8 * (n + 1)) == 256 * pow2(8 * n),
        pow2(8 * n) > 0,
{
    lemma2_to64();
    lemma_pow2_adds(8, 8 * n);
    lemma_pow2_pos(8 * n);
    assert(8 + 8 * n == 8 * (n + 1));
}

pub proof fn lemma_le_bytes_len(v: nat, n: nat)
    ensures
        le_bytes(v, n).len() == n,
    decreases n,
{
    if n > 0 {
        lemma_le_bytes_len(v / 256, (n - 1) as nat);
    }
}

/// A byte string of length `n` spells a number below `2^(8n)`.
pub proof fn lemma_le_value_bound(s: Seq<u8>)
    ensures
        le_value(s) < pow2(8 * s.len()),
    decreases s.len(),
{
    lemma2_to64();
    if s.len() > 0 {
        lemma_le_value_bound(s.drop_first());
        lemma_pow2_step((s.len() - 1) as nat);
        assert((s.len() - 1) as nat + 1 == s.len());
    }
}

/// Reading back the low `n` bytes of a number gives the number, reduced to
/// `8n` bits.
pub proof fn lemma_le_value_of_bytes(v: nat, n: nat)
    ensures
        le_value(le_bytes(v, n)) == v % pow2(8 * n),
        le_bytes(v, n).len() == n,
    decreases n,
{
    lemma2_to64();
    lemma_le_bytes_len(v, n);
    if n > 0 {
        let m = (n - 1) as nat;
        lemma_le_value_of_bytes(v / 256, m);
        lemma_pow2_step(m);
        let s = le_bytes(v, n);
        assert(s.drop_first() =~= le_bytes(v / 256, m));
        vstd::arithmetic::div_mod::lemma_mod_breakdown(v as int, 256, pow2(8 * m) as int);
        assert(m + 1 == n);
    } else {
        assert(v % 1 == 0);
    }
}

/// A byte string is the spelling of the number it spells.
pub proof fn lemma_le_bytes_of_value(s: Seq<u8>)
    ensures
        le_bytes(le_value(s), s.len()) == s,
    decreases s.len(),
{
    if s.len() > 0 {
        lemma_le_bytes_of_value(s.drop_first());
        assert(le_value(s) / 256 == le_value(s.drop_first()));
        assert(le_value(s) % 256 == s[0]);
        assert(seq![s[0]] + s.drop_first() =~= s);
    } else {
        assert(le_bytes(le_value(s), 0) =~= s);
    }
}

/// A number below `2^(8n)` survives being written and read back.
pub proof fn lemma_le_round_trip(v: nat, n: nat)
    requires
        v < pow2(8 * n),
    ensures
        le_value(le_bytes(v, n)) == v,
        le_bytes(v, n).len() == n,
{
    lemma_le_value_of_bytes(v, n);
    vstd::arithmetic::div_mod::lemma_small_mod(v, pow2(8 * n));
}

/// As [`lemma_le_round_trip`], most significant byte first.
pub proof fn lemma_be_round_trip(v: nat, n: nat)
    requires
        v < pow2(8 * n),
    ensures
        be_value(be_bytes(v, n)) == v,
        be_bytes(v, n).len() == n,
{
    lemma_le_round_trip(v, n);
    assert(le_bytes(v, n).reverse().reverse() =~= le_bytes(v, n));
}

/// A byte string spells `v` exactly if it is the spelling of `v`.
pub proof fn lemma_be_spelling(s: Seq<u8>, v: nat)
    requires
        v < pow2(8 * s.len()),
    ensures
        be_value(s) == v <==> s == be_bytes(v, s.len()),
{
    lemma_le_bytes_of_value(s.reverse());
    lemma_be_round_trip(v, s.len());
    assert(s.reverse().reverse() =~= s);
}

pub proof fn lemma_le_value_split(a: Seq<u8>, b: Seq<u8>)
    ensures
        le_value(a + b) == le_value(a) + pow2(8 * a.len()) * le_value(b),
    decreases a.len(),
{
    lemma2_to64();
    if a.len() == 0 {
        assert(a + b =~= b);
        assert(pow2(0) * le_value(b) == le_value(b)) by (nonlinear_arith)
            requires
                pow2(0) == 1,
        ;
    } else {
        let t = a.drop_first();
        lemma_le_value_split(t, b);
        assert((a + b).drop_first() =~= t + b);
        lemma_pow2_step(t.len());
        let p = pow2(8 * t.len());
        let w = le_value(b);
        assert(256 * (p * w) == (256 * p) * w) by (nonlinear_arith);
        assert(t.len() + 1 == a.len());
        assert((a + b)[0] == a[0]);
    }
}

/// Two's complement there and back.
pub proof fn lemma_signed_casts()
    ensures
        forall|v: i64| #[trigger] (v as u64) as i64 == v,
        forall|v: i32| #[trigger] (v as u32) as i32 == v,
        forall|v: i16| #[trigger] (v as u16) as i16 == v,
        forall|v: u64| #[trigger] (v as i64) as u64 == v,
        forall|v: u32| #[trigger] (v as i32) as u32 == v,
        forall|v: u16| #[trigger] (v as i16) as u16 == v,
{
    assert(forall|v: i64| #[trigger] (v as u64) as i64 == v) by (bit_vector);
    assert(forall|v: i32| #[trigger] (v as u32) as i32 == v) by (bit_vector);
    assert(forall|v: i16| #[trigger] (v as u16) as i16 == v) by (bit_vector);
    assert(forall|v: u64| #[trigger] (v as i64) as u64 == v) by (bit_vector);
    assert(forall|v: u32| #[trigger] (v as i32) as u32 == v) by (bit_vector);
    assert(forall|v: u16| #[trigger] (v as i16) as u16 == v) by (bit_vector);
}

/// What a cast between signed and unsigned does, as arithmetic.
pub proof fn lemma_cast_values()
    ensures
        forall|v: i64| #[trigger] (v as u64) == (if v < 0 { v + 0x1_0000_0000_0000_0000 } else { v as int }),
        forall|v: u64| #[trigger] (v as i64) == (if v < 0x8000_0000_0000_0000 { v as int } else { v - 0x1_0000_0000_0000_0000 }),
{
    assert(forall|v: i64| #[trigger] (v as u64) == (if v < 0 { v + 0x1_0000_0000_0000_0000 } else { v as int })) by (bit_vector);
    assert(forall|v: u64| #[trigger] (v as i64) == (if v < 0x8000_0000_0000_0000u64 { v as int } else { v - 0x1_0000_0000_0000_0000 })) by (bit_vector);
}

/// The number that up to eight bytes spell, least significant first.
pub fn le_uint(bytes: &[u8]) -> (r: u64)
    requires
        bytes@.len() <= 8,
    ensures
        r == le_value(bytes@),
{
    let mut acc: u64 = 0;
    let mut i: usize = bytes.len();
    assert(bytes@.subrange(i as int, bytes@.len() as int) =~= Seq::<u8>::empty());
    while i > 0
        invariant
            i <= bytes@.len() <= 8,
            acc == le_value(bytes@.subrange(i as int, bytes@.len() as int)),
        decreases i,
    {
        i = i - 1;
        proof {
            let tail = bytes@.subrange(i as int, bytes@.len() as int);
            assert(tail.drop_first() =~= bytes@.subrange(i + 1, bytes@.len() as int));
            lemma_le_value_bound(tail);
            lemma2_to64();
            lemma_pow2_mono(8 * tail.len(), 64);
        }
        acc = acc * 256 + bytes[i] as u64;
    }
    assert(bytes@.subrange(0, bytes@.len() as int) =~= bytes@);
    acc
}

pub proof fn lemma_pow2_mono(a: nat, b: nat)
    requires
        a <= b,
    ensures
        0 < pow2(a) <= pow2(b),
{
    lemma_pow2_pos(a);
    if a < b {
        vstd::arithmetic::power2::lemma_pow2_strictly_increases(a, b);
    }
}

/// The number that up to eight bytes spell, most significant first.
pub fn be_uint(bytes: &[u8]) -> (r: u64)
    requires
        bytes@.len() <= 8,
    ensures
        r == be_value(bytes@),
{
    let mut acc: u64 = 0;
    let mut i: usize = 0;
    let ghost n = bytes@.len();
    assert(bytes@.subrange(0, 0).reverse() =~= Seq::<u8>::empty());
    while i < bytes.len()
        invariant
            n == bytes@.len(),
            i <= n <= 8,
            acc == le_value(bytes@.subrange(0, i as int).reverse()),
        decreases n - i,
    {
        proof {
            let head = bytes@.subrange(0, i + 1).reverse();
            assert(head.drop_first() =~= bytes@.subrange(0, i as int).reverse());
            assert(head[0] == bytes@[i as int]);
            lemma_le_value_bound(head);
            lemma2_to64();
            lemma_pow2_mono(8 * head.len(), 64);
        }
        acc = acc * 256 + bytes[i] as u64;
        i = i + 1;
    }
    assert(bytes@.subrange(0, n as int) =~= bytes@);
    acc
}

/// Appends the low `n` bytes of `v`, least significant first.
pub fn push_le(out: &mut Vec<u8>, v: u64, n: usize)
    ensures
        final(out)@ == old(out)@ + le_bytes(v as nat, n as nat),
{
    let mut rest: u64 = v;
    let mut left: usize = n;
    assert(out@ =~= out@ + Seq::<u8>::empty());
    while left > 0
        invariant
            out@ + le_bytes(rest as nat, left as nat) == old(out)@ + le_bytes(v as nat, n as nat),
        decreases left,
    {
        let ghost before = out@;
        out.push((rest % 256) as u8);
        assert(before + le_bytes(rest as nat, left as nat) =~= out@ + le_bytes((rest / 256) as nat, (left - 1) as nat));
        rest = rest / 256;
        left = left - 1;
    }
    assert(out@ + le_bytes(rest as nat, 0) =~= out@);
}

/// Appends the low `n` bytes of `v`, most significant first.
pub fn push_be(out: &mut Vec<u8>, v: u64, n: usize)
    ensures
        final(out)@ == old(out)@ + be_bytes(v as nat, n as nat),
{
    let mut low: Vec<u8> = Vec::new();
    push_le(&mut low, v, n);
    assert(low@ =~= le_bytes(v as nat, n as nat));
    let mut i: usize = low.len();
    while i > 0
        invariant
            i <= low@.len(),
            out@ == old(out)@ + low@.subrange(i as int, low@.len() as int).reverse(),
        decreases i,
    {
        i = i - 1;
        out.push(low[i]);
        assert(out@ =~= old(out)@ + low@.subrange(i as int, low@.len() as int).reverse()) by {}
    }
    assert(low@.subrange(0, low@.len() as int) =~= low@);
}

pub fn push_le_i64(out: &mut Vec<u8>, v: i64)
    ensures
        final(out)@ == old(out)@ + le_i64(v),
{
    push_le(out, v as u64, 8);
}

pub fn push_le_i32(out: &mut Vec<u8>, v: i32)
    ensures
        final(out)@ == old(out)@ + le_i32(v),
{
    push_le(out, (v as u32) as u64, 4);
}

pub fn push_le_i16(out: &mut Vec<u8>, v: i16)
    ensures
        final(out)@ == old(out)@ + le_i16(v),
{
    push_le(out, (v as u16) as u64, 2);
}

pub fn push_be_i32(out: &mut Vec<u8>, v: i32)
    ensures
        final(out)@ == old(out)@ + be_i32(v),
{
    push_be(out, (v as u32) as u64, 4);
}

/// Only the low `n` bytes of a number matter to its low `n` bytes.
pub proof fn lemma_le_bytes_mod(v: nat, n: nat)
    ensures
        le_bytes(v % pow2(8 * n), n) == le_bytes(v, n),
{
    lemma_le_value_of_bytes(v, n);
    lemma_le_bytes_of_value(le_bytes(v, n));
}

/// Appends the eight low bytes of `a + b`, least significant first.
pub fn push_le_sum(out: &mut Vec<u8>, a: u64, b: u64)
    ensures
        final(out)@ == old(out)@ + le_bytes(a as nat + b as nat, 8),
{
    let sum: u64 = a.wrapping_add(b);
    proof {
        lemma2_to64();
        lemma_le_bytes_mod(a as nat + b as nat, 8);
        if a + b >= 0x1_0000_0000_0000_0000 {
            vstd::arithmetic::div_mod::lemma_fundamental_div_mod_converse(
                a + b,
                0x1_0000_0000_0000_0000,
                1,
                sum as int,
            );
        } else {
            vstd::arithmetic::div_mod::lemma_small_mod((a + b) as nat, 0x1_0000_0000_0000_0000);
        }
    }
    push_le(out, sum, 8);
}

/// A copy of some bytes.
pub fn copy_of(s: &[u8]) -> (r: Vec<u8>)
    ensures
        r@ == s@,
{
    let mut v: Vec<u8> = Vec::new();
    v.extend_from_slice(s);
    assert(v@ =~= s@);
    v
}

/// Byte `i` of a number, least significant first, counts steps of 256^i.
pub proof fn law_le_digits(v: nat, n: nat, i: int)
    requires
        0 <= i < n,
    ensures
        le_bytes(v, n).len() == n,
        le_bytes(v, n)[i] == (v / pow2(8 * i as nat)) % 256,
        be_bytes(v, n)[n - 1 - i] == le_bytes(v, n)[i],
    decreases n,
{
    lemma_le_bytes_len(v, n);
    vstd::arithmetic::power2::lemma2_to64();
    if i > 0 {
        law_le_digits(v / 256, (n - 1) as nat, i - 1);
        let k = (8 * (i - 1)) as nat;
        vstd::arithmetic::power2::lemma_pow2_adds(8, k);
        vstd::arithmetic::power2::lemma_pow2_pos(k);
        vstd::arithmetic::div_mod::lemma_div_denominator(v as int, 256, pow2(k) as int);
        assert(pow2(8 * i as nat) == 256 * pow2(k));
        assert(pow2(8) == 256);
        assert(le_bytes(v, n)[i] == le_bytes(v / 256, (n - 1) as nat)[i - 1]);
    } else {
        assert(pow2(8 * i as nat) == 1);
        assert(v / 1 == v);
    }
}

} // verus!
