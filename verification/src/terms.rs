//! Terms dictionaries: bulk materialization.
//!
//! Terms are byte-sorted, in blocks of 64. Each block stores its first term
//! raw (length and bytes); the others are prefix-coded against their
//! predecessor into a suffix stream that is LZ4-compressed with the block's
//! first term as dictionary. Block starts are a DirectMonotonic sequence.

use vstd::prelude::*;
use vstd::slice::slice_subrange;
use crate::cursor::{parse_bytes, parse_u8, parse_vint, Cursor, Parsed};
use crate::direct::ceil_div;
use crate::error::{Error, ErrorKind, Result};
use crate::lz4::{decompress_with_dict, lz4_decompressed};
use crate::monotonic;
use crate::monotonic::{decoded, MetaBlock};

verus! {

pub const TERMS_DICT_BLOCK_SHIFT: u32 = 6;

pub const TERMS_DICT_BLOCK_SIZE: u64 = 64;

/// Everything a metadata entry records about one terms dictionary.
#[derive(Debug)]
pub struct TermsDictPlan {
    pub num_terms: u64,
    /// Meta blocks of the block-address sequence (one value per 64 terms,
    /// relative to `terms_offset`).
    pub address_meta: Vec<MetaBlock>,
    pub address_block_shift: u32,
    pub max_term_length: u32,
    pub max_block_length: u32,
    /// Term-block bytes in the data file.
    pub terms_offset: u64,
    pub terms_len: u64,
    /// Packed address payload in the data file.
    pub addresses_offset: u64,
    pub addresses_len: u64,
}

/// A terms plan as mathematical values.
pub struct TermsPlanModel {
    pub num_terms: u64,
    pub address_meta: Seq<MetaBlock>,
    pub address_block_shift: u32,
    pub max_term_length: u32,
    pub max_block_length: u32,
    pub terms_offset: u64,
    pub terms_len: u64,
    pub addresses_offset: u64,
    pub addresses_len: u64,
}

impl View for TermsDictPlan {
    type V = TermsPlanModel;

    open spec fn view(&self) -> TermsPlanModel {
        TermsPlanModel {
            num_terms: self.num_terms,
            address_meta: self.address_meta@,
            address_block_shift: self.address_block_shift,
            max_term_length: self.max_term_length,
            max_block_length: self.max_block_length,
            terms_offset: self.terms_offset,
            terms_len: self.terms_len,
            addresses_offset: self.addresses_offset,
            addresses_len: self.addresses_len,
        }
    }
}

impl TermsDictPlan {
    pub fn num_blocks(&self) -> (r: u64)
        ensures
            r == ceil_div(self.num_terms as nat, TERMS_DICT_BLOCK_SIZE as nat),
    {
        self.num_terms / TERMS_DICT_BLOCK_SIZE + if self.num_terms % TERMS_DICT_BLOCK_SIZE == 0 {
            0
        } else {
            1
        }
    }
}

/// Materialized dictionary: concatenated term bytes and offsets.
#[derive(Debug)]
pub struct TermsDict {
    pub bytes: Vec<u8>,
    /// One more offset into `bytes` than there are terms.
    pub offsets: Vec<i32>,
}

impl TermsDict {
    /// The offsets cut the bytes into terms, without a gap.
    pub open spec fn valid(&self) -> bool {
        &&& self.offsets@.len() > 0
        &&& self.offsets@[0] == 0
        &&& self.offsets@.last() == self.bytes@.len()
        &&& forall|i: int| 0 <= i < self.offsets@.len() - 1 ==> #[trigger] self.offsets@[i] <= self.offsets@[i + 1]
    }

    /// The terms.
    pub open spec fn terms(&self) -> Seq<Seq<u8>> {
        Seq::new(
            (self.offsets@.len() - 1) as nat,
            |i: int| self.bytes@.subrange(self.offsets@[i] as int, self.offsets@[i + 1] as int),
        )
    }

    pub fn term(&self, ord: usize) -> (r: &[u8])
        requires
            self.valid(),
            ord < self.terms().len(),
        ensures
            r@ == self.terms()[ord as int],
    {
        let n: usize = self.offsets.len();
        proof {
            lemma_offset_bounds(self.offsets@, ord as int);
            lemma_offset_bounds(self.offsets@, ord + 1);
        }
        slice_subrange(self.bytes.as_slice(), self.offsets[ord] as usize, self.offsets[ord + 1] as usize)
    }

    pub fn len(&self) -> (r: usize)
        requires
            self.valid(),
        ensures
            r == self.terms().len(),
    {
        self.offsets.len() - 1
    }

    pub fn is_empty(&self) -> (r: bool)
        requires
            self.valid(),
        ensures
            r == (self.terms().len() == 0),
    {
        self.len() == 0
    }
}

/// Offsets that never fall lie between the first and the last.
pub proof fn lemma_offset_bounds(offsets: Seq<i32>, i: int)
    requires
        0 <= i < offsets.len(),
        forall|i: int| 0 <= i < offsets.len() - 1 ==> #[trigger] offsets[i] <= offsets[i + 1],
    ensures
        offsets[0] <= offsets[i] <= offsets.last(),
{
    lemma_offsets_ordered(offsets, 0, i);
    lemma_offsets_ordered(offsets, i, offsets.len() - 1);
}

pub proof fn lemma_offsets_ordered(offsets: Seq<i32>, i: int, j: int)
    requires
        0 <= i <= j < offsets.len(),
        forall|i: int| 0 <= i < offsets.len() - 1 ==> #[trigger] offsets[i] <= offsets[i + 1],
    ensures
        offsets[i] <= offsets[j],
    decreases j - i,
{
    if i < j {
        lemma_offsets_ordered(offsets, i, j - 1);
        assert(offsets[j - 1] <= offsets[j - 1 + 1]);
    }
}

/// A small number, continued in a VInt where it reaches `cap`.
pub open spec fn parse_length(s: Seq<u8>, p: nat, n: nat, cap: nat) -> Parsed<nat> {
    if n < cap {
        Ok((n, p))
    } else {
        match parse_vint(s, p) {
            Err(k) => Err(k),
            Ok((v, q)) => if v < 0 {
                Err(ErrorKind::Corrupt)
            } else {
                Ok(((n + v) as nat, q))
            },
        }
    }
}

/// A prefix-coded term: how much of the previous term it shares, how long
/// the rest is, and the rest.
pub open spec fn parse_suffix_term(s: Seq<u8>, p: nat, prev: Seq<u8>) -> Parsed<Seq<u8>> {
    match parse_u8(s, p) {
        Err(k) => Err(k),
        Ok((token, p1)) => match parse_length(s, p1, token as nat % 16, 15) {
            Err(k) => Err(k),
            Ok((prefix, p2)) => match parse_length(s, p2, token as nat / 16 + 1, 16) {
                Err(k) => Err(k),
                Ok((suffix, p3)) => match parse_bytes(s, p3, suffix) {
                    Err(k) => Err(k),
                    Ok((rest, q)) => if prefix > prev.len() {
                        Err(ErrorKind::Corrupt)
                    } else {
                        Ok((prev.take(prefix as int) + rest, q))
                    },
                },
            },
        },
    }
}

/// `n` prefix-coded terms behind `prev`.
pub open spec fn suffix_terms(s: Seq<u8>, p: nat, prev: Seq<u8>, n: nat) -> std::result::Result<Seq<Seq<u8>>, ErrorKind>
    decreases n,
{
    if n == 0 {
        Ok(Seq::empty())
    } else {
        match parse_suffix_term(s, p, prev) {
            Err(k) => Err(k),
            Ok((term, q)) => match suffix_terms(s, q, term, (n - 1) as nat) {
                Err(k) => Err(k),
                Ok(rest) => Ok(seq![term] + rest),
            },
        }
    }
}

/// The `n` terms behind the first of a block, where decompression gave
/// `stream` for a stream of `len` bytes.
pub open spec fn stream_terms(stream: Option<Seq<u8>>, len: nat, first: Seq<u8>, n: nat) -> std::result::Result<
    Seq<Seq<u8>>,
    ErrorKind,
> {
    match stream {
        None => Err(ErrorKind::Corrupt),
        Some(s) => if s.len() != len {
            Err(ErrorKind::Corrupt)
        } else {
            suffix_terms(s, 0, first, n)
        },
    }
}

/// The first term of the block at `start`.
pub open spec fn parse_first_term(dvd: Seq<u8>, start: nat, max_len: u32) -> Parsed<Seq<u8>> {
    match parse_vint(dvd, start) {
        Err(k) => Err(k),
        Ok((len, p1)) => if len < 0 || len > max_len {
            Err(ErrorKind::Corrupt)
        } else {
            parse_bytes(dvd, p1, len as nat)
        },
    }
}

/// The terms of a block of `n` that stands between `start` and `end`.
pub open spec fn block_terms(dvd: Seq<u8>, start: nat, end: nat, n: nat, max_len: u32) -> std::result::Result<
    Seq<Seq<u8>>,
    ErrorKind,
> {
    match parse_first_term(dvd, start, max_len) {
        Err(k) => Err(k),
        Ok((first, p1)) => if n <= 1 {
            Ok(seq![first])
        } else {
            match parse_vint(dvd, p1) {
                Err(k) => Err(k),
                Ok((len, p2)) => if len < 0 || p2 > end {
                    Err(ErrorKind::Corrupt)
                } else {
                    let stream = lz4_decompressed(dvd.subrange(p2 as int, end as int), len as nat, first);
                    match stream_terms(stream, len as nat, first, (n - 1) as nat) {
                        Err(k) => Err(k),
                        Ok(rest) => Ok(seq![first] + rest),
                    }
                },
            }
        },
    }
}

/// The terms of block `i`, which holds `n`: it ends where the next starts.
pub open spec fn block_at(plan: TermsPlanModel, dvd: Seq<u8>, starts: Seq<i64>, i: int, n: nat) -> std::result::Result<
    Seq<Seq<u8>>,
    ErrorKind,
> {
    let terms_end = plan.terms_offset + plan.terms_len;
    let start = plan.terms_offset + starts[i];
    let end = if i + 1 == starts.len() {
        terms_end
    } else {
        plan.terms_offset + starts[i + 1]
    };
    if starts[i] < 0 || end < start || end > terms_end {
        Err(ErrorKind::Corrupt)
    } else {
        block_terms(dvd, start as nat, end as nat, n, plan.max_term_length)
    }
}

/// The terms of the blocks from `i` on, of which `remaining` are left.
pub open spec fn terms_from(plan: TermsPlanModel, dvd: Seq<u8>, starts: Seq<i64>, i: nat, remaining: nat) -> std::result::Result<
    Seq<Seq<u8>>,
    ErrorKind,
>
    decreases starts.len() - i,
{
    if i >= starts.len() {
        Ok(Seq::empty())
    } else {
        let n = if remaining < TERMS_DICT_BLOCK_SIZE {
            remaining
        } else {
            TERMS_DICT_BLOCK_SIZE as nat
        };
        match block_at(plan, dvd, starts, i as int, n) {
            Err(k) => Err(k),
            Ok(first) => match terms_from(plan, dvd, starts, i + 1, (remaining - n) as nat) {
                Err(k) => Err(k),
                Ok(rest) => Ok(first + rest),
            },
        }
    }
}

/// How many bytes some terms take.
pub open spec fn total_bytes(terms: Seq<Seq<u8>>) -> nat
    decreases terms.len(),
{
    if terms.len() == 0 {
        0
    } else {
        total_bytes(terms.drop_last()) + terms.last().len()
    }
}

/// The terms of a dictionary.
pub open spec fn materialized(plan: TermsPlanModel, dvd: Seq<u8>) -> std::result::Result<Seq<Seq<u8>>, ErrorKind> {
    if plan.terms_offset + plan.terms_len > dvd.len() || plan.addresses_offset + plan.addresses_len > dvd.len() {
        Err(ErrorKind::Corrupt)
    } else {
        let blocks = ceil_div(plan.num_terms as nat, TERMS_DICT_BLOCK_SIZE as nat);
        match decoded(plan.address_meta, dvd.skip(plan.addresses_offset as int), blocks, plan.address_block_shift) {
            Err(k) => Err(k),
            Ok(starts) => match terms_from(plan, dvd, starts, 0, plan.num_terms as nat) {
                Err(k) => Err(k),
                Ok(terms) => if terms.len() != plan.num_terms {
                    Err(ErrorKind::Corrupt)
                } else if total_bytes(terms) > i32::MAX {
                    Err(ErrorKind::Unsupported)
                } else {
                    Ok(terms)
                },
            },
        }
    }
}

/// Terms under construction: bytes, and where each term ends.
struct TermsBuffer {
    bytes: Vec<u8>,
    ends: Vec<usize>,
}

impl TermsBuffer {
    spec fn start_of(&self, i: int) -> int {
        if i == 0 {
            0
        } else {
            self.ends@[i - 1] as int
        }
    }

    spec fn valid(&self) -> bool {
        &&& forall|i: int| 0 <= i < self.ends@.len() ==> self.start_of(i) <= #[trigger] self.ends@[i] <= self.bytes@.len()
        &&& self.ends@.len() > 0 ==> self.ends@.last() == self.bytes@.len()
        &&& self.ends@.len() == 0 ==> self.bytes@.len() == 0
    }

    spec fn terms(&self) -> Seq<Seq<u8>> {
        Seq::new(self.ends@.len(), |i: int| self.bytes@.subrange(self.start_of(i), self.ends@[i] as int))
    }

    fn new() -> (r: TermsBuffer)
        ensures
            r.valid(),
            r.terms() == Seq::<Seq<u8>>::empty(),
    {
        let r: TermsBuffer = TermsBuffer { bytes: Vec::new(), ends: Vec::new() };
        assert(r.terms() =~= Seq::<Seq<u8>>::empty());
        r
    }

    /// Adds the first `prefix` bytes of the last term, followed by `rest`.
    fn add(&mut self, prefix: usize, rest: &[u8])
        requires
            old(self).valid(),
            prefix > 0 ==> old(self).ends@.len() > 0 && prefix <= old(self).terms().last().len(),
        ensures
            final(self).valid(),
            final(self).terms() == old(self).terms().push(
                (if prefix == 0 {
                    Seq::<u8>::empty()
                } else {
                    old(self).terms().last().take(prefix as int)
                }) + rest@,
            ),
    {
        let ghost before = *self;
        let n: usize = self.ends.len();
        let from: usize = if n >= 2 {
            self.ends[n - 2]
        } else {
            0
        };
        let ghost old_len = self.bytes@.len();
        let ghost head = if prefix == 0 {
            Seq::<u8>::empty()
        } else {
            before.terms().last().take(prefix as int)
        };
        assert(before.bytes@ =~= before.bytes@ + head.take(0));
        let mut k: usize = 0;
        while k < prefix
            invariant
                k <= prefix,
                before.valid(),
                n == before.ends@.len(),
                prefix > 0 ==> n > 0 && prefix <= before.terms().last().len(),
                from == (if n >= 2 {
                    before.ends@[n - 2]
                } else {
                    0
                }),
                head == (if prefix == 0 {
                    Seq::<u8>::empty()
                } else {
                    before.terms().last().take(prefix as int)
                }),
                self.ends@ == before.ends@,
                self.bytes@ == before.bytes@ + head.take(k as int),
            decreases prefix - k,
        {
            proof {
                let t = before.terms().last();
                assert(before.start_of(n - 1) == from);
                assert(before.start_of(n - 1) <= before.ends@[n - 1]);
                assert(t == before.bytes@.subrange(from as int, before.ends@[n - 1] as int));
                assert(before.bytes@[from + k] == t[k as int]);
                assert(self.bytes@[from + k] == before.bytes@[from + k]);
            }
            let b: u8 = self.bytes[from + k];
            self.bytes.push(b);
            k = k + 1;
            assert(self.bytes@ =~= before.bytes@ + head.take(k as int));
        }
        assert(head.take(prefix as int) =~= head);
        self.bytes.extend_from_slice(rest);
        let end: usize = self.bytes.len();
        self.ends.push(end);
        proof {
            let term = head + rest@;
            assert(self.bytes@ =~= before.bytes@ + term);
            assert(self.ends@ =~= before.ends@.push(end));
            assert forall|i: int| 0 <= i < self.ends@.len() implies self.start_of(i) <= #[trigger] self.ends@[i]
                <= self.bytes@.len() by {
                if i < n {
                    assert(self.ends@[i] == before.ends@[i]);
                    assert(before.start_of(i) <= before.ends@[i]);
                    assert(self.start_of(i) == before.start_of(i));
                }
            }
            assert forall|i: int| 0 <= i < self.ends@.len() implies self.terms()[i] == before.terms().push(term)[i] by {
                if i < n {
                    assert(before.start_of(i) <= before.ends@[i] <= before.bytes@.len());
                    assert(self.start_of(i) == before.start_of(i));
                    assert(self.terms()[i] =~= before.terms()[i]);
                } else {
                    assert(self.start_of(i) == before.bytes@.len());
                    assert(self.terms()[i] =~= term);
                }
            }
            assert(self.terms() =~= before.terms().push(term));
        }
    }
}

fn read_length(s: &mut Cursor<'_>, n: usize, cap: usize) -> (r: Result<usize>)
    requires
        n <= cap <= 16,
    ensures
        final(s).data() == old(s).data(),
        match parse_length(old(s).data(), old(s).offset(), n as nat, cap as nat) {
            Ok((v, q)) => (r matches Ok(w) && w == v) && final(s).offset() == q,
            Err(k) => r matches Err(e) && e.kind() == k,
        },
{
    if n < cap {
        return Ok(n);
    }
    let v: i32 = s.vint()?;
    if v < 0 {
        return Err(Error::corrupt("negative term length"));
    }
    Ok(n + v as usize)
}

/// Adds the `n` terms behind the first of a block.
fn add_suffix_terms(stream: &[u8], n: u64, out: &mut TermsBuffer) -> (r: Result<()>)
    requires
        old(out).valid(),
        old(out).ends@.len() > 0,
    ensures
        final(out).valid(),
        match suffix_terms(stream@, 0, old(out).terms().last(), n as nat) {
            Ok(v) => r is Ok && final(out).terms() == old(out).terms() + v,
            Err(k) => r matches Err(e) && e.kind() == k,
        },
{
    let mut s: Cursor<'_> = Cursor::new(stream);
    let mut i: u64 = 0;
    let ghost start = out.terms();
    let ghost whole = suffix_terms(stream@, 0, start.last(), n as nat);
    assert(start + Seq::<Seq<u8>>::empty() =~= start);
    while i < n
        invariant
            i <= n,
            s.data() == stream@,
            out.valid(),
            out.ends@.len() > 0,
            start == old(out).terms(),
            out.terms().len() >= start.len(),
            whole == suffix_terms(stream@, 0, start.last(), n as nat),
            match suffix_terms(stream@, s.offset(), out.terms().last(), (n - i) as nat) {
                Ok(rest) => whole matches Ok(all) && start + all == out.terms() + rest,
                Err(k) => whole == Err::<Seq<Seq<u8>>, ErrorKind>(k),
            },
        decreases n - i,
    {
        let ghost before = out.terms();
        let token: u8 = s.u8()?;
        let prefix: usize = read_length(&mut s, (token % 16) as usize, 15)?;
        let suffix: usize = read_length(&mut s, (token / 16) as usize + 1, 16)?;
        let rest: &[u8] = s.take(suffix)?;
        let last: usize = out.ends.len() - 1;
        let prev_len: usize = out.ends[last] - if last == 0 {
            0
        } else {
            out.ends[last - 1]
        };
        assert(prev_len == before.last().len()) by {
            assert(out.start_of(last as int) <= out.ends@[last as int]);
        }
        if prefix > prev_len {
            return Err(Error::corrupt("term prefix longer than previous term"));
        }
        out.add(prefix, rest);
        proof {
            let term = before.last().take(prefix as int) + rest@;
            assert(prefix == 0 ==> before.last().take(0) =~= Seq::<u8>::empty());
            assert(out.terms() == before.push(term));
            let left = suffix_terms(stream@, s.offset(), term, (n - i - 1) as nat);
            if left is Ok {
                assert(before + (seq![term] + left->Ok_0) =~= out.terms() + left->Ok_0);
            }
        }
        i = i + 1;
    }
    proof {
        assert(out.terms() + Seq::<Seq<u8>>::empty() =~= out.terms());
    }
    Ok(())
}

/// The `n` terms behind the first of a block, from its suffix stream.
pub fn decode_suffixes(stream: &[u8], first: &[u8], n: u64) -> (r: Result<TermsDict>)
    ensures
        match stream_terms(Some(stream@), stream@.len(), first@, n as nat) {
            Ok(v) => if total_bytes(seq![first@] + v) > i32::MAX {
                r matches Err(e) && e.kind() == ErrorKind::Unsupported
            } else {
                r matches Ok(d) && d.valid() && d.terms() == seq![first@] + v
            },
            Err(k) => r matches Err(e) && e.kind() == k,
        },
{
    let mut out: TermsBuffer = TermsBuffer::new();
    out.add(0, first);
    assert(Seq::<u8>::empty() + first@ =~= first@);
    assert(out.terms() =~= seq![first@]);
    assert(out.terms().len() == out.ends@.len());
    add_suffix_terms(stream, n, &mut out)?;
    finish_terms(out)
}

/// The finished dictionary, where its bytes can be addressed.
fn finish_terms(buffer: TermsBuffer) -> (r: Result<TermsDict>)
    requires
        buffer.valid(),
    ensures
        total_bytes(buffer.terms()) > i32::MAX ==> (r matches Err(e) && e.kind() == ErrorKind::Unsupported),
        total_bytes(buffer.terms()) <= i32::MAX ==> (r matches Ok(d) && d.valid() && d.terms() == buffer.terms()),
{
    proof {
        lemma_total_bytes(buffer, buffer.ends@.len() as int);
        assert(buffer.terms().take(buffer.ends@.len() as int) =~= buffer.terms());
    }
    if buffer.bytes.len() > 0x7FFF_FFFF {
        return Err(Error::unsupported("terms dictionary > 2 GiB"));
    }
    let mut offsets: Vec<i32> = Vec::new();
    offsets.push(0);
    let mut i: usize = 0;
    while i < buffer.ends.len()
        invariant
            i <= buffer.ends@.len(),
            buffer.valid(),
            buffer.bytes@.len() <= i32::MAX,
            offsets@.len() == i + 1,
            offsets@[0] == 0,
            forall|k: int| 0 <= k < i ==> #[trigger] offsets@[k + 1] == buffer.ends@[k],
        decreases buffer.ends@.len() - i,
    {
        assert(buffer.start_of(i as int) <= buffer.ends@[i as int]);
        offsets.push(buffer.ends[i] as i32);
        i = i + 1;
    }
    let d: TermsDict = TermsDict { bytes: buffer.bytes, offsets };
    proof {
        assert forall|k: int| 0 <= k < d.offsets@.len() - 1 implies #[trigger] d.offsets@[k] <= d.offsets@[k + 1] by {
            assert(buffer.start_of(k) <= buffer.ends@[k]);
            assert(d.offsets@[k + 1] == buffer.ends@[k]);
            if k > 0 {
                assert(d.offsets@[k - 1 + 1] == buffer.ends@[k - 1]);
            }
        }
        if buffer.ends@.len() > 0 {
            let n = buffer.ends@.len() - 1;
            assert(d.offsets@[n + 1] == buffer.ends@[n]);
        }
        assert forall|k: int| 0 <= k < buffer.ends@.len() implies d.terms()[k] == buffer.terms()[k] by {
            assert(d.offsets@[k + 1] == buffer.ends@[k]);
            if k > 0 {
                assert(d.offsets@[k - 1 + 1] == buffer.ends@[k - 1]);
            }
        }
        assert(d.terms() =~= buffer.terms());
    }
    Ok(d)
}

/// The first terms of a buffer take the bytes up to where they end.
proof fn lemma_total_bytes(buffer: TermsBuffer, n: int)
    requires
        buffer.valid(),
        0 <= n <= buffer.ends@.len(),
    ensures
        total_bytes(buffer.terms().take(n)) == buffer.start_of(n),
    decreases n,
{
    if n > 0 {
        lemma_total_bytes(buffer, n - 1);
        let t = buffer.terms().take(n);
        assert(t.drop_last() =~= buffer.terms().take(n - 1));
        assert(t.last() == buffer.terms()[n - 1]);
        assert(buffer.start_of(n - 1) <= buffer.ends@[n - 1] <= buffer.bytes@.len());
    }
}

/// Adds the terms of a block of `n` that stands between `start` and `end`.
fn add_block(dvd: &[u8], start: usize, end: usize, n: u64, max_len: u32, out: &mut TermsBuffer) -> (r: Result<()>)
    requires
        old(out).valid(),
        end <= dvd@.len(),
    ensures
        final(out).valid(),
        match block_terms(dvd@, start as nat, end as nat, n as nat, max_len) {
            Ok(v) => r is Ok && final(out).terms() == old(out).terms() + v,
            Err(k) => r matches Err(e) && e.kind() == k,
        },
{
    let ghost before = out.terms();
    let mut c: Cursor<'_> = Cursor::at(dvd, start);
    let first_len: i32 = c.vint()?;
    if first_len < 0 || first_len as u32 > max_len {
        return Err(Error::corrupt("bad first-term length"));
    }
    let first: &[u8] = c.take(first_len as usize)?;
    out.add(0, first);
    assert(Seq::<u8>::empty() + first@ =~= first@);
    assert(before.push(first@) =~= before + seq![first@]);
    if n <= 1 {
        return Ok(());
    }
    let len: i32 = c.vint()?;
    if len < 0 || c.pos() > end {
        return Err(Error::corrupt("bad suffix stream length"));
    }
    let compressed: &[u8] = slice_subrange(dvd, c.pos(), end);
    let stream: Vec<u8> = match decompress_with_dict(compressed, len as usize, first) {
        Ok(stream) => stream,
        Err(_) => {
            return Err(Error::corrupt("terms LZ4 block does not decompress"));
        },
    };
    if stream.len() != len as usize {
        return Err(Error::corrupt("terms LZ4 length mismatch"));
    }
    add_suffix_terms(stream.as_slice(), n - 1, out)?;
    proof {
        let rest = suffix_terms(stream@, 0, first@, (n - 1) as nat)->Ok_0;
        assert(before.push(first@) + rest =~= before + (seq![first@] + rest));
    }
    Ok(())
}

/// Adds block `i`, of `n` terms.
fn add_block_at(plan: &TermsDictPlan, dvd: &[u8], starts: &[i64], i: usize, n: u64, out: &mut TermsBuffer) -> (r: Result<()>)
    requires
        old(out).valid(),
        i < starts@.len(),
        plan.terms_offset + plan.terms_len <= dvd@.len(),
    ensures
        final(out).valid(),
        match block_at(plan@, dvd@, starts@, i as int, n as nat) {
            Ok(v) => r is Ok && final(out).terms() == old(out).terms() + v,
            Err(k) => r matches Err(e) && e.kind() == k,
        },
{
    let file_len: usize = dvd.len();
    let terms_end: u64 = plan.terms_offset + plan.terms_len;
    if starts[i] < 0 {
        return Err(Error::corrupt("negative terms block offset"));
    }
    let start: u128 = plan.terms_offset as u128 + starts[i] as u128;
    let end: u128 = if i < starts.len() - 1 {
        if starts[i + 1] < 0 {
            return Err(Error::corrupt("negative terms block offset"));
        }
        plan.terms_offset as u128 + starts[i + 1] as u128
    } else {
        terms_end as u128
    };
    if end < start || end > terms_end as u128 {
        return Err(Error::corrupt("terms block bounds out of order"));
    }
    add_block(dvd, start as usize, end as usize, n, plan.max_term_length, out)
}

/// Adds all blocks.
fn add_blocks(plan: &TermsDictPlan, dvd: &[u8], starts: &[i64]) -> (r: Result<TermsBuffer>)
    requires
        plan.terms_offset + plan.terms_len <= dvd@.len(),
    ensures
        match terms_from(plan@, dvd@, starts@, 0, plan.num_terms as nat) {
            Ok(v) => r matches Ok(out) && out.valid() && out.terms() == v,
            Err(k) => r matches Err(e) && e.kind() == k,
        },
{
    let ghost model = plan@;
    let ghost whole = terms_from(model, dvd@, starts@, 0, plan.num_terms as nat);
    let mut out: TermsBuffer = TermsBuffer::new();
    let mut remaining: u64 = plan.num_terms;
    let mut i: usize = 0;
    proof {
        if whole is Ok {
            assert(Seq::<Seq<u8>>::empty() + whole->Ok_0 =~= whole->Ok_0);
        }
    }
    while i < starts.len()
        invariant
            i <= starts@.len(),
            model == plan@,
            plan.terms_offset + plan.terms_len <= dvd@.len(),
            out.valid(),
            whole == terms_from(model, dvd@, starts@, 0, plan.num_terms as nat),
            match terms_from(model, dvd@, starts@, i as nat, remaining as nat) {
                Ok(rest) => whole == Ok::<Seq<Seq<u8>>, ErrorKind>(out.terms() + rest),
                Err(k) => whole == Err::<Seq<Seq<u8>>, ErrorKind>(k),
            },
        decreases starts@.len() - i,
    {
        let ghost before = out.terms();
        let n: u64 = if remaining < TERMS_DICT_BLOCK_SIZE {
            remaining
        } else {
            TERMS_DICT_BLOCK_SIZE
        };
        add_block_at(plan, dvd, starts, i, n, &mut out)?;
        proof {
            let first = block_at(model, dvd@, starts@, i as int, n as nat)->Ok_0;
            let rest = terms_from(model, dvd@, starts@, i as nat + 1, (remaining - n) as nat);
            if rest is Ok {
                assert(before + (first + rest->Ok_0) =~= out.terms() + rest->Ok_0);
            }
        }
        remaining = remaining - n;
        i = i + 1;
    }
    assert(out.terms() + Seq::<Seq<u8>>::empty() =~= out.terms());
    Ok(out)
}

/// Decode every term of the dictionary from the full data-file bytes.
pub fn materialize(plan: &TermsDictPlan, dvd: &[u8]) -> (r: Result<TermsDict>)
    ensures
        match materialized(plan@, dvd@) {
            Ok(v) => r matches Ok(d) && d.valid() && d.terms() == v,
            Err(k) => r matches Err(e) && e.kind() == k,
        },
{
    if plan.terms_offset as u128 + plan.terms_len as u128 > dvd.len() as u128 || plan.addresses_offset as u128
        + plan.addresses_len as u128 > dvd.len() as u128 {
        return Err(Error::corrupt("terms dict region beyond data file"));
    }
    let addr_region: &[u8] = slice_subrange(dvd, plan.addresses_offset as usize, dvd.len());
    assert(addr_region@ =~= dvd@.skip(plan.addresses_offset as int));
    let starts: Vec<i64> = monotonic::decode(
        plan.address_meta.as_slice(),
        addr_region,
        plan.num_blocks(),
        plan.address_block_shift,
    )?;
    let out: TermsBuffer = add_blocks(plan, dvd, starts.as_slice())?;
    assert(out.terms().len() == out.ends@.len());
    if out.ends.len() as u64 != plan.num_terms {
        return Err(Error::corrupt("materialized term count differs from the expected one"));
    }
    finish_terms(out)
}

} // verus!
