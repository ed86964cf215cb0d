//! Sets of small numbers as 64-bit words, lowest bit first.

use vstd::prelude::*;
use vstd::arithmetic::power2::{lemma_pow2_pos, pow2};
use vstd::bits::lemma_u64_shr_is_div;

verus! {

/// Bit `k` of `w`.
pub open spec fn word_bit(w: u64, k: nat) -> bool {
    (w as nat / pow2(k)) % 2 == 1
}

/// Whether `d` is in the set that `words` stand for.
pub open spec fn has_bit(words: Seq<u64>, d: nat) -> bool {
    d / 64 < words.len() && word_bit(words[(d / 64) as int], d % 64)
}

/// `words` stand for the set `s`.
pub open spec fn stands_for(words: Seq<u64>, s: Set<nat>) -> bool {
    forall|d: nat| #[trigger] has_bit(words, d) <==> s.contains(d)
}

proof fn lemma_or_bit(w: u64, k: u64, j: u64)
    requires
        k < 64,
        j < 64,
    ensures
        word_bit(w | (1u64 << k), j as nat) == (j == k || word_bit(w, j as nat)),
{
    assert(((w | (1u64 << k)) >> j) % 2 == if j == k {
        1u64
    } else {
        (w >> j) % 2
    }) by (bit_vector)
        requires
            k < 64,
            j < 64,
    ;
    lemma_u64_shr_is_div(w | (1u64 << k), j);
    lemma_u64_shr_is_div(w, j);
}

pub proof fn lemma_zero_word(k: nat)
    ensures
        !word_bit(0, k),
{
    lemma_pow2_pos(k);
    vstd::arithmetic::div_mod::lemma_div_basics(pow2(k) as int);
}

/// Whether bit `d` is set.
pub fn get_bit(words: &[u64], d: usize) -> (r: bool)
    ensures
        r == has_bit(words@, d as nat),
{
    if d / 64 >= words.len() {
        return false;
    }
    let w: u64 = words[d / 64];
    let k: u64 = (d % 64) as u64;
    proof {
        lemma_u64_shr_is_div(w, k);
    }
    (w >> k) % 2 == 1
}

/// Set bit `d`.
pub fn set_bit(words: &mut Vec<u64>, d: usize)
    requires
        d / 64 < old(words)@.len(),
    ensures
        final(words)@.len() == old(words)@.len(),
        forall|e: nat| #[trigger] has_bit(final(words)@, e) <==> e == d || has_bit(old(words)@, e),
{
    let w: u64 = words[d / 64];
    let k: u64 = (d % 64) as u64;
    let ghost before = words@;
    words[d / 64] = w | (1u64 << k);
    assert forall|e: nat| #[trigger] has_bit(words@, e) <==> e == d || has_bit(before, e) by {
        lemma_or_bit(w, k, (e % 64) as u64);
        if e / 64 == d as nat / 64 && e % 64 == d as nat % 64 {
            assert(e == d);
        }
    }
}

/// `n` words without any bit.
pub fn empty_words(n: usize) -> (r: Vec<u64>)
    ensures
        r@.len() == n,
        forall|d: nat| !#[trigger] has_bit(r@, d),
        forall|i: int| 0 <= i < n ==> r@[i] == 0,
{
    let mut r: Vec<u64> = Vec::new();
    let mut i: usize = 0;
    while i < n
        invariant
            i <= n,
            r@.len() == i,
            forall|k: int| 0 <= k < i ==> r@[k] == 0,
        decreases n - i,
    {
        r.push(0);
        i = i + 1;
    }
    assert forall|d: nat| !#[trigger] has_bit(r@, d) by {
        lemma_zero_word(d % 64);
    }
    r
}

/// How many members of `s` are below `d`.
pub open spec fn rank(s: Set<nat>, d: nat) -> nat
    decreases d,
{
    if d == 0 {
        0
    } else {
        rank(s, (d - 1) as nat) + if s.contains((d - 1) as nat) {
            1nat
        } else {
            0nat
        }
    }
}

/// More numbers have no fewer members below them.
pub proof fn lemma_rank_mono(s: Set<nat>, a: nat, b: nat)
    requires
        a <= b,
    ensures
        rank(s, a) <= rank(s, b),
    decreases b,
{
    if a < b {
        lemma_rank_mono(s, a, (b - 1) as nat);
    }
}

/// Whether any bit from `from` on is set.
pub fn has_bits_from(words: &[u64], from: u32) -> (r: bool)
    ensures
        r == exists|d: nat| from <= d && #[trigger] has_bit(words@, d),
{
    let mut d: u128 = from as u128;
    while d < words.len() as u128 * 64
        invariant
            from <= d,
            forall|e: nat| from <= e < d ==> !#[trigger] has_bit(words@, e),
        decreases words@.len() * 64 - d,
    {
        let i: usize = (d / 64) as usize;
        let k: u64 = (d % 64) as u64;
        let w: u64 = words[i];
        proof {
            vstd::bits::lemma_u64_shr_is_div(w, k);
            assert(has_bit(words@, d as nat) == ((w >> k) % 2 == 1));
        }
        if (w >> k) % 2 == 1 {
            assert(has_bit(words@, d as nat));
            return true;
        }
        d = d + 1;
    }
    false
}

/// How many of the first `n` bits are set.
pub open spec fn bit_count(words: Seq<u64>, n: nat) -> nat
    decreases n,
{
    if n == 0 {
        0
    } else {
        bit_count(words, (n - 1) as nat) + if has_bit(words, (n - 1) as nat) {
            1nat
        } else {
            0nat
        }
    }
}

/// No more bits are set than there are.
pub proof fn lemma_bit_count_bound(words: Seq<u64>, n: nat)
    ensures
        bit_count(words, n) <= n,
    decreases n,
{
    if n > 0 {
        lemma_bit_count_bound(words, (n - 1) as nat);
    }
}

/// The bits of words are the members of the set that they stand for.
pub proof fn lemma_bit_count_rank(words: Seq<u64>, s: Set<nat>, n: nat)
    requires
        stands_for(words, s),
    ensures
        bit_count(words, n) == rank(s, n),
    decreases n,
{
    if n > 0 {
        lemma_bit_count_rank(words, s, (n - 1) as nat);
        assert(has_bit(words, (n - 1) as nat) <==> s.contains((n - 1) as nat));
    }
}

/// How many of the first `n` bits are set.
pub fn count_bits(words: &[u64], n: u32) -> (r: u32)
    ensures
        r == bit_count(words@, n as nat),
        r <= n,
{
    let mut count: u32 = 0;
    let mut d: u32 = 0;
    while d < n
        invariant
            d <= n,
            count <= d,
            count == bit_count(words@, d as nat),
        decreases n - d,
    {
        if get_bit(words, d as usize) {
            count = count + 1;
        }
        d = d + 1;
    }
    count
}

/// The members of `s` below `d`.
pub open spec fn members_below(s: Set<nat>, d: nat) -> Set<nat> {
    Set::new(|x: nat| x < d && s.contains(x))
}

/// The rank of a number is how many members of the set are below it.
pub proof fn law_rank_counts(s: Set<nat>, d: nat)
    ensures
        members_below(s, d).finite(),
        rank(s, d) == members_below(s, d).len(),
    decreases d,
{
    if d == 0 {
        assert(members_below(s, d) =~= Set::<nat>::empty());
    } else {
        let m = (d - 1) as nat;
        law_rank_counts(s, m);
        if s.contains(m) {
            assert(members_below(s, d) =~= members_below(s, m).insert(m));
        } else {
            assert(members_below(s, d) =~= members_below(s, m));
        }
    }
}

/// Counting bits counts the members below the limit of the set that the words
/// stand for.
pub proof fn law_bit_count(words: Seq<u64>, s: Set<nat>, n: nat)
    requires
        stands_for(words, s),
    ensures
        members_below(s, n).finite(),
        bit_count(words, n) == members_below(s, n).len(),
{
    lemma_bit_count_rank(words, s, n);
    law_rank_counts(s, n);
}

} // verus!
