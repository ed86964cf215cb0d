//! Fields with dictionaries, lists or byte payloads, encoded.

use vstd::prelude::*;
use vstd::relations::{sorted_by, total_ordering};
use vstd::seq_lib::{group_to_multiset_ensures, lemma_sorted_unique};
use crate::bytes::{le_bytes, le_i32, push_le, push_le_i32, push_le_sum};
use crate::consts;
use crate::cursor::{varint_bytes, write_vint};
use crate::dict::{add_terms_dict, dict_data, dict_fits, dict_meta, no_table, streams_decompress};
use crate::disi::strictly_increasing;
use crate::error::{Error, ErrorKind, Result};
use crate::lexicon::{
    dictionary_of, find_term, is_dictionary, lemma_less_irreflexive, slices, sort_distinct,
    terms_sorted,
};
use crate::monotonic;
use crate::monotonic::{monotonic_data, monotonic_meta, non_decreasing};
use crate::stats::{distinct_sorted, law_distinct_sorted, lemma_insert_at, lower_bound};
use crate::write::{
    entry_data, entry_meta, field_head, presence_data, presence_meta, write_field_head,
    write_presence, write_values, EncodedField, NumericEncoder, ValuesIn,
};

verus! {

/// What the metadata says of a sequence of addresses, whose data starts at
/// `offset`.
pub open spec fn addresses_meta(addresses: Seq<i64>, offset: nat) -> Seq<u8> {
    le_bytes(offset, 8) + (varint_bytes(16) + (monotonic_meta(addresses, 16) + le_bytes(
        monotonic_data(addresses, 16).len(),
        8,
    )))
}

/// Appends a sequence of addresses: offset, block shift, meta blocks and
/// length to the metadata, packed deltas to the data.
fn write_addresses(meta: &mut Vec<u8>, data: &mut Vec<u8>, addresses: &[i64], dvd_base: u64) -> (r: Result<()>)
    ensures
        non_decreasing(addresses@) ==> {
            &&& r is Ok
            &&& final(meta)@ == old(meta)@ + addresses_meta(addresses@, dvd_base as nat + old(data)@.len())
            &&& final(data)@ == old(data)@ + monotonic_data(addresses@, 16)
        },
        !non_decreasing(addresses@) ==> (r matches Err(e) && e.kind() == ErrorKind::InvalidArgument),
{
    let ghost meta0 = meta@;
    let ghost data0 = data@;
    push_le_sum(meta, dvd_base, data.len() as u64);
    write_vint(meta, consts::DIRECT_MONOTONIC_BLOCK_SHIFT);
    let mut buffer: Vec<u8> = Vec::new();
    monotonic::write(addresses, consts::DIRECT_MONOTONIC_BLOCK_SHIFT, meta, &mut buffer)?;
    assert(buffer@ =~= monotonic_data(addresses@, 16));
    data.extend_from_slice(buffer.as_slice());
    push_le(meta, buffer.len() as u64, 8);
    assert(meta@ =~= meta0 + addresses_meta(addresses@, dvd_base as nat + data0.len()));
    Ok(())
}

/// Where each of some lists starts among all items, and where the last ends.
pub open spec fn list_addresses(lens: Seq<nat>, n: nat) -> Seq<i64>
    decreases n,
{
    if n == 0 {
        seq![0i64]
    } else {
        list_addresses(lens, (n - 1) as nat).push(sum_of(lens, n) as i64)
    }
}

/// The sum of the first `n` lengths.
pub open spec fn sum_of(lens: Seq<nat>, n: nat) -> nat
    decreases n,
{
    if n == 0 {
        0
    } else {
        sum_of(lens, (n - 1) as nat) + lens[n - 1]
    }
}

pub proof fn lemma_list_addresses(lens: Seq<nat>, n: nat)
    requires
        sum_of(lens, n) <= i64::MAX,
    ensures
        list_addresses(lens, n).len() == n + 1,
        non_decreasing(list_addresses(lens, n)),
        forall|i: int| 0 <= i <= n ==> #[trigger] list_addresses(lens, n)[i] == sum_of(lens, i as nat),
    decreases n,
{
    if n > 0 {
        lemma_list_addresses(lens, (n - 1) as nat);
    }
}

/// The keys of documents: where their terms stand in the dictionary.
pub open spec fn ordinals(terms: Seq<Seq<u8>>, d: Seq<Seq<u8>>) -> Seq<i64> {
    Seq::new(terms.len(), |i: int| d.index_of(terms[i]) as i64)
}

pub proof fn lemma_term_index(d: Seq<Seq<u8>>, t: Seq<u8>, k: int)
    requires
        terms_sorted(d),
        0 <= k < d.len(),
        d[k] == t,
    ensures
        d.index_of(t) == k,
{
    let i = d.index_of(t);
    assert(d.contains(t));
    assert(0 <= i < d.len() && d[i] == t);
    lemma_less_irreflexive(t);
    if i < k {
        assert(crate::lexicon::term_less(d[i], d[k]));
    } else if k < i {
        assert(crate::lexicon::term_less(d[k], d[i]));
    }
}

/// The place of each term in the dictionary.
fn find_ordinals(terms: &[&[u8]], dict: &[&[u8]]) -> (r: Vec<i64>)
    requires
        is_dictionary(slices(dict@), slices(terms@)),
    ensures
        r@ == ordinals(slices(terms@), slices(dict@)),
{
    let ghost t = slices(terms@);
    let ghost d = slices(dict@);
    let mut out: Vec<i64> = Vec::new();
    let mut i: usize = 0;
    while i < terms.len()
        invariant
            i <= terms@.len(),
            t == slices(terms@),
            d == slices(dict@),
            is_dictionary(d, t),
            out@ == ordinals(t, d).take(i as int),
        decreases terms@.len() - i,
    {
        assert(t[i as int] == terms@[i as int]@);
        assert(t.contains(t[i as int]));
        let k: usize = match find_term(dict, terms[i]) {
            Some(k) => k,
            None => {
                assert(false);
                0
            },
        };
        proof {
            lemma_term_index(d, t[i as int], k as int);
        }
        out.push(k as i64);
        i = i + 1;
        assert(out@ =~= ordinals(t, d).take(i as int));
    }
    assert(ordinals(t, d).take(i as int) =~= ordinals(t, d));
    out
}

/// The data of a SORTED field.
pub open spec fn sorted_data(terms: Seq<Seq<u8>>, docs: Seq<u32>, max_doc: nat) -> Seq<u8> {
    let d = dictionary_of(terms);
    entry_data(ordinals(terms, d), docs, max_doc) + dict_data(d)
}

/// The metadata of a SORTED field whose data starts at `offset`.
pub open spec fn sorted_meta(field_number: i32, terms: Seq<Seq<u8>>, docs: Seq<u32>, max_doc: nat, offset: nat) -> Seq<u8> {
    let d = dictionary_of(terms);
    let ords = ordinals(terms, d);
    (field_head(field_number, consts::TYPE_SORTED) + entry_meta(ords, docs, max_doc, offset)) + dict_meta(
        d,
        offset + entry_data(ords, docs, max_doc).len(),
    )
}

/// Encode one SORTED field: a single term per document with a value. Terms
/// are sorted and kept once in a dictionary; documents refer to them by
/// ordinal.
pub fn encode_sorted_field<E: NumericEncoder>(
    encoder: &E,
    field_number: i32,
    docs: &[u32],
    terms_per_doc: &[&[u8]],
    max_doc: u32,
    dvd_base: u64,
) -> (r: Result<EncodedField>)
    requires
        strictly_increasing(docs@),
        docs@.len() <= u32::MAX,
    ensures
        docs@.len() != terms_per_doc@.len() ==> (r matches Err(e) && e.kind() == ErrorKind::InvalidArgument),
        docs@.len() == terms_per_doc@.len() && !dict_fits(dictionary_of(slices(terms_per_doc@))) ==> (r matches Err(e) && (encoder.reliable() ==> e.kind() == ErrorKind::InvalidArgument)),
        docs@.len() == terms_per_doc@.len() && dict_fits(dictionary_of(slices(terms_per_doc@))) && encoder.reliable()
            ==> r is Ok,
        r matches Ok(f) ==> {
            &&& f.meta@ == sorted_meta(
                field_number,
                slices(terms_per_doc@),
                docs@,
                max_doc as nat,
                dvd_base as nat,
            )
            &&& f.data@ == sorted_data(slices(terms_per_doc@), docs@, max_doc as nat)
            &&& is_dictionary(dictionary_of(slices(terms_per_doc@)), slices(terms_per_doc@))
            &&& streams_decompress(dictionary_of(slices(terms_per_doc@)), 0, no_table())
        },
{
    if docs.len() != terms_per_doc.len() {
        return Err(Error::invalid("docs and terms length mismatch"));
    }
    let sorted: Vec<&[u8]> = sort_distinct(terms_per_doc);
    let ords: Vec<i64> = find_ordinals(terms_per_doc, sorted.as_slice());
    let mut meta: Vec<u8> = Vec::new();
    let mut data: Vec<u8> = Vec::new();
    write_field_head(&mut meta, field_number, consts::TYPE_SORTED);
    write_values(&mut meta, &mut data, &ValuesIn::Flat(ords.as_slice()), docs, max_doc, dvd_base, encoder)?;
    proof {
        assert(data@ =~= entry_data(ords@, docs@, max_doc as nat));
    }
    add_terms_dict(&mut meta, &mut data, sorted.as_slice(), dvd_base)?;
    proof {
        let t = slices(terms_per_doc@);
        assert(data@ =~= sorted_data(t, docs@, max_doc as nat));
        assert(meta@ =~= sorted_meta(field_number, t, docs@, max_doc as nat, dvd_base as nat));
    }
    Ok(EncodedField { meta, data })
}

/// Byte strings, one behind the other.
pub open spec fn joined(values: Seq<Seq<u8>>, n: nat) -> Seq<u8>
    decreases n,
{
    if n == 0 {
        Seq::empty()
    } else {
        joined(values, (n - 1) as nat) + values[n - 1]
    }
}

/// Their lengths.
pub open spec fn lengths(values: Seq<Seq<u8>>) -> Seq<nat> {
    Seq::new(values.len(), |i: int| values[i].len())
}

pub proof fn lemma_joined_len(values: Seq<Seq<u8>>, n: nat)
    requires
        n <= values.len(),
    ensures
        joined(values, n).len() == sum_of(lengths(values), n),
    decreases n,
{
    if n > 0 {
        lemma_joined_len(values, (n - 1) as nat);
    }
}

/// The least length among the first `n` values; the greatest `i32` where
/// there are none.
pub open spec fn least_len(values: Seq<Seq<u8>>, n: nat) -> i32
    decreases n,
{
    if n == 0 {
        i32::MAX
    } else if (values[n - 1].len() as i32) < least_len(values, (n - 1) as nat) {
        values[n - 1].len() as i32
    } else {
        least_len(values, (n - 1) as nat)
    }
}

/// The least length that the metadata records.
pub open spec fn recorded_least(values: Seq<Seq<u8>>) -> i32 {
    if values.len() == 0 {
        0
    } else {
        least_len(values, values.len())
    }
}

/// The greatest length among all values, zero where there are none.
pub open spec fn recorded_greatest(values: Seq<Seq<u8>>) -> i32 {
    crate::dict::max_term_len(values, values.len())
}

/// The lengths differ, so that addresses are needed.
pub open spec fn needs_addresses(values: Seq<Seq<u8>>) -> bool {
    recorded_greatest(values) > recorded_least(values)
}

/// The addresses of a BINARY field.
pub open spec fn binary_addresses(values: Seq<Seq<u8>>) -> Seq<i64> {
    list_addresses(lengths(values), values.len())
}

/// The data of a BINARY field.
pub open spec fn binary_data(values: Seq<Seq<u8>>, docs: Seq<u32>, max_doc: nat) -> Seq<u8> {
    (joined(values, values.len()) + presence_data(docs.len(), docs, max_doc)) + if needs_addresses(values) {
        monotonic_data(binary_addresses(values), 16)
    } else {
        Seq::empty()
    }
}

/// The metadata of a BINARY field whose data starts at `offset`.
pub open spec fn binary_meta(field_number: i32, values: Seq<Seq<u8>>, docs: Seq<u32>, max_doc: nat, offset: nat) -> Seq<u8> {
    let len = joined(values, values.len()).len();
    let presence = presence_data(docs.len(), docs, max_doc).len();
    (field_head(field_number, consts::TYPE_BINARY) + (le_bytes(offset, 8) + (le_bytes(len, 8) + (presence_meta(
        docs.len(),
        docs,
        max_doc,
        offset + len,
    ) + (le_i32(docs.len() as u32 as i32) + (le_i32(recorded_least(values)) + le_i32(recorded_greatest(values))))))))
        + if needs_addresses(values) {
        addresses_meta(binary_addresses(values), offset + len + presence)
    } else {
        Seq::empty()
    }
}

/// Appends all values; says how long the shortest and the longest are.
fn push_values(data: &mut Vec<u8>, values: &[&[u8]]) -> (r: (i32, i32))
    ensures
        final(data)@ == old(data)@ + joined(slices(values@), values@.len()),
        r.0 == recorded_least(slices(values@)),
        r.1 == recorded_greatest(slices(values@)),
{
    let ghost v = slices(values@);
    let mut least: i32 = i32::MAX;
    let mut greatest: i32 = 0;
    let mut i: usize = 0;
    assert(data@ =~= old(data)@ + joined(v, 0));
    while i < values.len()
        invariant
            i <= values@.len(),
            v == slices(values@),
            data@ == old(data)@ + joined(v, i as nat),
            least == least_len(v, i as nat),
            greatest == crate::dict::max_term_len(v, i as nat),
        decreases values@.len() - i,
    {
        let len: i32 = values[i].len() as i32;
        if len < least {
            least = len;
        }
        if len > greatest {
            greatest = len;
        }
        data.extend_from_slice(values[i]);
        i = i + 1;
        assert(data@ =~= old(data)@ + joined(v, i as nat));
    }
    if values.len() == 0 {
        least = 0;
    }
    (least, greatest)
}

/// The addresses of lists of these lengths.
fn make_addresses(lens: &[usize]) -> (r: Vec<i64>)
    requires
        sum_of(Seq::new(lens@.len(), |i: int| lens@[i] as nat), lens@.len()) <= i64::MAX,
    ensures
        r@ == list_addresses(Seq::new(lens@.len(), |i: int| lens@[i] as nat), lens@.len()),
{
    let ghost l = Seq::new(lens@.len(), |i: int| lens@[i] as nat);
    let mut out: Vec<i64> = Vec::new();
    out.push(0);
    let mut sum: i64 = 0;
    let mut i: usize = 0;
    assert(out@ =~= list_addresses(l, 0));
    while i < lens.len()
        invariant
            i <= lens@.len(),
            l == Seq::new(lens@.len(), |i: int| lens@[i] as nat),
            sum_of(l, l.len()) <= i64::MAX,
            sum == sum_of(l, i as nat),
            out@ == list_addresses(l, i as nat),
        decreases lens@.len() - i,
    {
        proof {
            lemma_sum_mono(l, i as nat + 1, l.len());
        }
        sum = sum + lens[i] as i64;
        out.push(sum);
        i = i + 1;
    }
    out
}

pub proof fn lemma_sum_mono(l: Seq<nat>, m: nat, n: nat)
    requires
        m <= n,
    ensures
        sum_of(l, m) <= sum_of(l, n),
    decreases n,
{
    if m < n {
        lemma_sum_mono(l, m, (n - 1) as nat);
    }
}

/// The lengths of byte slices.
fn slice_lengths(values: &[&[u8]]) -> (r: Vec<usize>)
    ensures
        r@.len() == values@.len(),
        Seq::new(r@.len(), |i: int| r@[i] as nat) == lengths(slices(values@)),
{
    let mut out: Vec<usize> = Vec::new();
    let mut i: usize = 0;
    while i < values.len()
        invariant
            i <= values@.len(),
            out@.len() == i,
            forall|k: int| 0 <= k < i ==> #[trigger] out@[k] == values@[k]@.len(),
        decreases values@.len() - i,
    {
        out.push(values[i].len());
        i = i + 1;
    }
    assert(Seq::new(out@.len(), |i: int| out@[i] as nat) =~= lengths(slices(values@)));
    out
}

/// Writes what the metadata says of a BINARY field before its addresses.
fn write_binary_head(
    meta: &mut Vec<u8>,
    data: &mut Vec<u8>,
    field_number: i32,
    docs: &[u32],
    values: &[&[u8]],
    max_doc: u32,
    dvd_base: u64,
) -> (r: (i32, i32))
    requires
        strictly_increasing(docs@),
        docs@.len() <= u32::MAX,
        old(meta)@.len() == 0,
        old(data)@.len() == 0,
    ensures
        ({
            let v = slices(values@);
            let len = joined(v, v.len()).len();
            &&& r.0 == recorded_least(v)
            &&& r.1 == recorded_greatest(v)
            &&& final(data)@ == joined(v, v.len()) + presence_data(docs@.len(), docs@, max_doc as nat)
            &&& final(meta)@ == field_head(field_number, consts::TYPE_BINARY) + (le_bytes(dvd_base as nat, 8) + (
            le_bytes(len, 8) + (presence_meta(docs@.len(), docs@, max_doc as nat, dvd_base as nat + len) + (le_i32(
                docs@.len() as u32 as i32,
            ) + (le_i32(recorded_least(v)) + le_i32(recorded_greatest(v)))))))
        }),
{
    let ghost v = slices(values@);
    write_field_head(meta, field_number, consts::TYPE_BINARY);
    push_le(meta, dvd_base, 8);
    let (least, greatest): (i32, i32) = push_values(data, values);
    assert(data@ =~= joined(v, v.len()));
    push_le(meta, data.len() as u64, 8);
    let n: u32 = docs.len() as u32;
    write_presence(meta, data, n, docs, max_doc, dvd_base);
    push_le_i32(meta, n as i32);
    push_le_i32(meta, least);
    push_le_i32(meta, greatest);
    proof {
        let len = joined(v, v.len()).len();
        assert(meta@ =~= field_head(field_number, consts::TYPE_BINARY) + (le_bytes(dvd_base as nat, 8) + (le_bytes(
            len,
            8,
        ) + (presence_meta(docs@.len(), docs@, max_doc as nat, dvd_base as nat + len) + (le_i32(
            docs@.len() as u32 as i32,
        ) + (le_i32(recorded_least(v)) + le_i32(recorded_greatest(v))))))));
    }
    (least, greatest)
}

/// Encode one BINARY field: a byte payload per document with a value.
#[verifier::rlimit(60)]
#[verifier::spinoff_prover]
pub fn encode_binary_field(field_number: i32, docs: &[u32], values: &[&[u8]], max_doc: u32, dvd_base: u64) -> (r: Result<
    EncodedField,
>)
    requires
        strictly_increasing(docs@),
        docs@.len() <= u32::MAX,
    ensures
        docs@.len() == values@.len() && joined(slices(values@), values@.len()).len() <= i64::MAX ==> (r matches Ok(f)
            && f.meta@ == binary_meta(field_number, slices(values@), docs@, max_doc as nat, dvd_base as nat) && f.data@
            == binary_data(slices(values@), docs@, max_doc as nat)),
        docs@.len() != values@.len() || joined(slices(values@), values@.len()).len() > i64::MAX ==> (r matches Err(e)
            && e.kind() == ErrorKind::InvalidArgument),
{
    if docs.len() != values.len() {
        return Err(Error::invalid("docs and values length mismatch"));
    }
    let ghost v = slices(values@);
    let mut meta: Vec<u8> = Vec::new();
    let mut data: Vec<u8> = Vec::new();
    let lens: Vec<usize> = slice_lengths(values);
    if !sum_fits(lens.as_slice()) {
        proof {
            lemma_joined_len(v, v.len());
        }
        return Err(Error::invalid("binary field too large"));
    }
    let (least, greatest): (i32, i32) = write_binary_head(
        &mut meta,
        &mut data,
        field_number,
        docs,
        values,
        max_doc,
        dvd_base,
    );
    proof {
        lemma_joined_len(v, v.len());
        lemma_list_addresses(lengths(v), v.len());
    }
    if greatest > least {
        let addresses: Vec<i64> = make_addresses(lens.as_slice());
        write_addresses(&mut meta, &mut data, addresses.as_slice(), dvd_base)?;
    }
    assert(data@ =~= binary_data(v, docs@, max_doc as nat));
    assert(meta@ =~= binary_meta(field_number, v, docs@, max_doc as nat, dvd_base as nat));
    Ok(EncodedField { meta, data })
}

/// Whether the sum of some lengths can be addressed.
fn sum_fits(lens: &[usize]) -> (r: bool)
    ensures
        r == (sum_of(Seq::new(lens@.len(), |i: int| lens@[i] as nat), lens@.len()) <= i64::MAX),
{
    let ghost l = Seq::new(lens@.len(), |i: int| lens@[i] as nat);
    let mut sum: u128 = 0;
    let mut i: usize = 0;
    while i < lens.len()
        invariant
            i <= lens@.len(),
            l == Seq::new(lens@.len(), |i: int| lens@[i] as nat),
            sum == sum_of(l, i as nat),
            sum <= i64::MAX,
        decreases lens@.len() - i,
    {
        sum = sum + lens[i] as u128;
        i = i + 1;
        if sum > 0x7FFF_FFFF_FFFF_FFFF {
            proof {
                lemma_sum_mono(l, i as nat, l.len());
            }
            return false;
        }
    }
    true
}

/// The order of numbers.
pub open spec fn at_most() -> spec_fn(i64, i64) -> bool {
    |a: i64, b: i64| a <= b
}

/// The values in non-decreasing order.
pub open spec fn in_order(values: Seq<i64>) -> Seq<i64> {
    values.sort_by(at_most())
}

/// Sorting keeps the values, and puts them in order.
pub proof fn law_in_order(values: Seq<i64>)
    ensures
        in_order(values).len() == values.len(),
        in_order(values).to_multiset() == values.to_multiset(),
        forall|i: int, j: int| 0 <= i < j < in_order(values).len() ==> in_order(values)[i] <= in_order(values)[j],
{
    let leq = at_most();
    values.lemma_sort_by_ensures(leq);
    let s = in_order(values);
    broadcast use vstd::seq_lib::group_to_multiset_ensures;

    assert(s.len() == values.len()) by {
        assert(s.to_multiset().len() == values.to_multiset().len());
    }
    assert forall|i: int, j: int| 0 <= i < j < s.len() implies s[i] <= s[j] by {
        assert(leq(s[i], s[j]));
    }
}

/// Sorts a copy of the values.
fn sort_values(values: &Vec<i64>) -> (r: Vec<i64>)
    ensures
        r@ == in_order(values@),
{
    let mut out: Vec<i64> = Vec::new();
    let mut i: usize = 0;
    proof {
        assert(values@.take(0) =~= Seq::<i64>::empty());
        assert(out@ =~= values@.take(0));
    }
    while i < values.len()
        invariant
            i <= values@.len(),
            out@.len() == i,
            sorted_by(out@, at_most()),
            out@.to_multiset() == values@.take(i as int).to_multiset(),
        decreases values@.len() - i,
    {
        let v: i64 = values[i];
        let mut k: usize = out.len();
        while k > 0 && out[k - 1] > v
            invariant
                k <= out@.len(),
                forall|j: int| k <= j < out@.len() ==> #[trigger] out@[j] > v,
            decreases k,
        {
            k = k - 1;
        }
        let ghost before = out@;
        out.insert(k, v);
        proof {
            broadcast use group_to_multiset_ensures;

            let after = out@;
            assert(after.remove(k as int) =~= before);
            assert(values@.take(i + 1) =~= values@.take(i as int).push(v));
            assert(after.to_multiset() =~= before.to_multiset().insert(v));
            assert forall|a: int, b: int| 0 <= a < b < after.len() implies #[trigger] at_most()(after[a], after[b]) by {
                if a < k && b < k {
                    assert(at_most()(before[a], before[b]));
                } else if a < k && b > k {
                    assert(at_most()(before[a], before[b - 1]));
                } else if a > k {
                    assert(at_most()(before[a - 1], before[b - 1]));
                } else if a < k && b == k {
                    if a < k - 1 {
                        assert(at_most()(before[a], before[k - 1]));
                    }
                }
            }
        }
        i = i + 1;
    }
    proof {
        assert(values@.take(i as int) =~= values@);
        assert(total_ordering(at_most()));
        values@.lemma_sort_by_ensures(at_most());
        lemma_sorted_unique(out@, in_order(values@), at_most());
    }
    out
}

/// Lists of numbers as sequences.
pub open spec fn lists(v: Seq<Vec<i64>>) -> Seq<Seq<i64>> {
    Seq::new(v.len(), |i: int| v[i]@)
}

/// Each list in order.
pub open spec fn ordered_lists(v: Seq<Seq<i64>>) -> Seq<Seq<i64>> {
    Seq::new(v.len(), |i: int| in_order(v[i]))
}

/// The first `n` lists, one behind the other.
pub open spec fn flat(v: Seq<Seq<i64>>, n: nat) -> Seq<i64>
    decreases n,
{
    if n == 0 {
        Seq::empty()
    } else {
        flat(v, (n - 1) as nat) + v[n - 1]
    }
}

/// How long the lists are.
pub open spec fn list_lengths(v: Seq<Seq<i64>>) -> Seq<nat> {
    Seq::new(v.len(), |i: int| v[i].len())
}

pub proof fn lemma_flat_len(v: Seq<Seq<i64>>, n: nat)
    requires
        n <= v.len(),
    ensures
        flat(v, n).len() == sum_of(list_lengths(v), n),
    decreases n,
{
    if n > 0 {
        lemma_flat_len(v, (n - 1) as nat);
    }
}

/// Lists under construction, flattened.
struct FlatLists {
    all: Vec<i64>,
    lens: Vec<usize>,
}

impl FlatLists {
    spec fn holds(&self, v: Seq<Seq<i64>>) -> bool {
        &&& self.all@ == flat(v, v.len())
        &&& self.lens@.len() == v.len()
        &&& forall|i: int| 0 <= i < v.len() ==> #[trigger] self.lens@[i] == v[i].len()
    }

    fn add(&mut self, list: &Vec<i64>, v: Ghost<Seq<Seq<i64>>>)
        requires
            old(self).holds(v@),
        ensures
            final(self).holds(v@.push(list@)),
    {
        self.all.extend_from_slice(list.as_slice());
        self.lens.push(list.len());
        proof {
            let w = v@.push(list@);
            lemma_flat_prefix(v@, w, v@.len());
            assert(w[w.len() - 1] == list@);
            assert(self.all@ =~= old(self).all@ + list@);
            assert(self.lens@ =~= old(self).lens@.push(list.len()));
            assert(flat(w, w.len()) == flat(w, v@.len()) + list@);
            assert forall|i: int| 0 <= i < w.len() implies #[trigger] self.lens@[i] == w[i].len() by {
                if i < v@.len() {
                    assert(old(self).lens@[i] == v@[i].len());
                }
            }
        }
    }
}

proof fn lemma_flat_prefix(v: Seq<Seq<i64>>, w: Seq<Seq<i64>>, n: nat)
    requires
        n <= v.len(),
        n <= w.len(),
        forall|i: int| 0 <= i < n ==> #[trigger] v[i] == w[i],
    ensures
        flat(v, n) == flat(w, n),
    decreases n,
{
    if n > 0 {
        lemma_flat_prefix(v, w, (n - 1) as nat);
        assert(v[n - 1] == w[n - 1]);
    }
}

/// The values of all documents, each document's in order.
fn flatten_ordered(values_per_doc: &[Vec<i64>]) -> (r: FlatLists)
    ensures
        r.holds(ordered_lists(lists(values_per_doc@))),
{
    let ghost v = ordered_lists(lists(values_per_doc@));
    let mut r: FlatLists = FlatLists { all: Vec::new(), lens: Vec::new() };
    let mut i: usize = 0;
    assert(r.holds(v.take(0)));
    while i < values_per_doc.len()
        invariant
            i <= values_per_doc@.len(),
            v == ordered_lists(lists(values_per_doc@)),
            r.holds(v.take(i as int)),
        decreases values_per_doc@.len() - i,
    {
        let list: Vec<i64> = sort_values(&values_per_doc[i]);
        r.add(&list, Ghost(v.take(i as int)));
        assert(v.take(i as int).push(list@) =~= v.take(i + 1));
        i = i + 1;
    }
    assert(v.take(i as int) =~= v);
    r
}

/// More values than documents, so that addresses are needed.
pub open spec fn multi_valued(v: Seq<Seq<i64>>) -> bool {
    flat(v, v.len()).len() > v.len()
}

/// The data of a field with lists of numbers.
pub open spec fn lists_data(v: Seq<Seq<i64>>, docs: Seq<u32>, max_doc: nat, multi: bool) -> Seq<u8> {
    entry_data(flat(v, v.len()), docs, max_doc) + if multi {
        monotonic_data(list_addresses(list_lengths(v), v.len()), 16)
    } else {
        Seq::empty()
    }
}

/// The metadata of a SORTED_NUMERIC field whose data starts at `offset`.
pub open spec fn sorted_numeric_meta(
    field_number: i32,
    v: Seq<Seq<i64>>,
    docs: Seq<u32>,
    max_doc: nat,
    offset: nat,
) -> Seq<u8> {
    let all = flat(v, v.len());
    ((field_head(field_number, consts::TYPE_SORTED_NUMERIC) + entry_meta(all, docs, max_doc, offset)) + le_i32(
        docs.len() as i32,
    )) + if multi_valued(v) {
        addresses_meta(
            list_addresses(list_lengths(v), v.len()),
            offset + entry_data(all, docs, max_doc).len(),
        )
    } else {
        Seq::empty()
    }
}

/// Encode one SORTED_NUMERIC field (values sorted within each document; a
/// single-valued field has the NUMERIC layout).
pub fn encode_sorted_numeric_field<E: NumericEncoder>(
    encoder: &E,
    field_number: i32,
    docs: &[u32],
    values_per_doc: &[Vec<i64>],
    max_doc: u32,
    dvd_base: u64,
) -> (r: Result<EncodedField>)
    requires
        strictly_increasing(docs@),
        docs@.len() <= u32::MAX,
    ensures
        docs@.len() != values_per_doc@.len() ==> (r matches Err(e) && e.kind() == ErrorKind::InvalidArgument),
        ({
            let v = ordered_lists(lists(values_per_doc@));
            let fits = flat(v, v.len()).len() <= i64::MAX;
            &&& docs@.len() == values_per_doc@.len() && !fits ==> (r matches Err(e) && (encoder.reliable() ==> e.kind() == ErrorKind::InvalidArgument))
            &&& docs@.len() == values_per_doc@.len() && fits && encoder.reliable() ==> r is Ok
            &&& r matches Ok(f) ==> {
                &&& f.meta@ == sorted_numeric_meta(field_number, v, docs@, max_doc as nat, dvd_base as nat)
                &&& f.data@ == lists_data(v, docs@, max_doc as nat, multi_valued(v))
            }
        }),
{
    if docs.len() != values_per_doc.len() {
        return Err(Error::invalid("docs and values length mismatch"));
    }
    let ghost v = ordered_lists(lists(values_per_doc@));
    let sorted: FlatLists = flatten_ordered(values_per_doc);
    proof {
        lemma_flat_len(v, v.len());
        assert(Seq::new(sorted.lens@.len(), |i: int| sorted.lens@[i] as nat) =~= list_lengths(v));
    }
    if !sum_fits(sorted.lens.as_slice()) {
        return Err(Error::invalid("field too large"));
    }
    let n: usize = docs.len();
    let total: usize = sorted.all.len();
    let mut meta: Vec<u8> = Vec::new();
    let mut data: Vec<u8> = Vec::new();
    write_field_head(&mut meta, field_number, consts::TYPE_SORTED_NUMERIC);
    write_values(&mut meta, &mut data, &ValuesIn::Flat(sorted.all.as_slice()), docs, max_doc, dvd_base, encoder)?;
    assert(data@ =~= entry_data(sorted.all@, docs@, max_doc as nat));
    push_le_i32(&mut meta, n as i32);
    if total > n {
        proof {
            lemma_list_addresses(list_lengths(v), v.len());
        }
        let addresses: Vec<i64> = make_addresses(sorted.lens.as_slice());
        write_addresses(&mut meta, &mut data, addresses.as_slice(), dvd_base)?;
    }
    assert(data@ =~= lists_data(v, docs@, max_doc as nat, multi_valued(v)));
    assert(meta@ =~= sorted_numeric_meta(field_number, v, docs@, max_doc as nat, dvd_base as nat));
    Ok(EncodedField { meta, data })
}

/// The terms of documents as byte strings.
pub open spec fn term_lists(t: Seq<Vec<Vec<u8>>>) -> Seq<Seq<Seq<u8>>> {
    Seq::new(t.len(), |i: int| doc_terms(t[i]))
}

pub open spec fn doc_terms(t: Vec<Vec<u8>>) -> Seq<Seq<u8>> {
    Seq::new(t@.len(), |j: int| t@[j]@)
}

/// The terms of the first `n` documents, one behind the other.
pub open spec fn flat_terms(t: Seq<Seq<Seq<u8>>>, n: nat) -> Seq<Seq<u8>>
    decreases n,
{
    if n == 0 {
        Seq::empty()
    } else {
        flat_terms(t, (n - 1) as nat) + t[n - 1]
    }
}

/// The dictionary of all documents' terms.
pub open spec fn set_dictionary(t: Seq<Seq<Seq<u8>>>) -> Seq<Seq<u8>> {
    dictionary_of(flat_terms(t, t.len()))
}

/// The ordinals of each document's terms, in order and each once.
pub open spec fn set_ordinals(t: Seq<Seq<Seq<u8>>>) -> Seq<Seq<i64>> {
    Seq::new(t.len(), |i: int| distinct_sorted(ordinals(t[i], set_dictionary(t))))
}

/// Some document has more than one term.
pub open spec fn set_multi(ords: Seq<Seq<i64>>) -> bool {
    exists|i: int| 0 <= i < ords.len() && (#[trigger] ords[i]).len() > 1
}

/// The data of a SORTED_SET field.
pub open spec fn sorted_set_data(t: Seq<Seq<Seq<u8>>>, docs: Seq<u32>, max_doc: nat) -> Seq<u8> {
    let ords = set_ordinals(t);
    lists_data(ords, docs, max_doc, set_multi(ords)) + dict_data(set_dictionary(t))
}

/// The metadata of a SORTED_SET field whose data starts at `offset`.
pub open spec fn sorted_set_meta(
    field_number: i32,
    t: Seq<Seq<Seq<u8>>>,
    docs: Seq<u32>,
    max_doc: nat,
    offset: nat,
) -> Seq<u8> {
    let ords = set_ordinals(t);
    let all = flat(ords, ords.len());
    let multi = set_multi(ords);
    ((set_head(field_number, multi) + entry_meta(all, docs, max_doc, offset)) + set_lists_meta(
        ords,
        docs,
        multi,
        offset + entry_data(all, docs, max_doc).len(),
    )) + dict_meta(set_dictionary(t), offset + lists_data(ords, docs, max_doc, multi).len())
}

/// Borrows the terms of all documents.
fn borrow_terms<'a>(terms_per_doc: &'a [Vec<Vec<u8>>]) -> (r: Vec<&'a [u8]>)
    ensures
        slices(r@) == flat_terms(term_lists(terms_per_doc@), terms_per_doc@.len()),
{
    let ghost t = term_lists(terms_per_doc@);
    let mut out: Vec<&'a [u8]> = Vec::new();
    let mut i: usize = 0;
    assert(slices(out@) =~= flat_terms(t, 0));
    while i < terms_per_doc.len()
        invariant
            i <= terms_per_doc@.len(),
            t == term_lists(terms_per_doc@),
            slices(out@) == flat_terms(t, i as nat),
        decreases terms_per_doc@.len() - i,
    {
        let ghost before = slices(out@);
        let doc: &'a Vec<Vec<u8>> = &terms_per_doc[i];
        let mut j: usize = 0;
        assert(before =~= before + t[i as int].take(0));
        while j < doc.len()
            invariant
                j <= doc@.len(),
                t[i as int] == doc_terms(*doc),
                slices(out@) == before + t[i as int].take(j as int),
            decreases doc@.len() - j,
        {
            let ghost done = slices(out@);
            out.push(doc[j].as_slice());
            j = j + 1;
            assert(slices(out@) =~= done.push(doc@[j - 1]@));
            assert(slices(out@) =~= before + t[i as int].take(j as int));
        }
        assert(t[i as int].take(j as int) =~= t[i as int]);
        i = i + 1;
    }
    out
}

/// A document's terms are among all terms.
proof fn lemma_flat_terms_contains(t: Seq<Seq<Seq<u8>>>, n: nat, i: int, j: int)
    requires
        0 <= i < n <= t.len(),
        0 <= j < t[i].len(),
    ensures
        flat_terms(t, n).contains(t[i][j]),
    decreases n,
{
    let rest = flat_terms(t, (n - 1) as nat);
    crate::lexicon::lemma_concat_contains(rest, t[n - 1], t[i][j]);
    if i < n - 1 {
        lemma_flat_terms_contains(t, (n - 1) as nat, i, j);
    } else {
        assert(t[n - 1].contains(t[i][j]));
    }
}

/// The ordinals of one document's terms, in order and each once.
fn document_ordinals(terms: &Vec<Vec<u8>>, dict: &[&[u8]]) -> (r: Vec<i64>)
    requires
        terms_sorted(slices(dict@)),
        forall|j: int| 0 <= j < terms@.len() ==> slices(dict@).contains(#[trigger] doc_terms(*terms)[j]),
    ensures
        r@ == distinct_sorted(ordinals(doc_terms(*terms), slices(dict@))),
{
    let ghost d = slices(dict@);
    let ghost o = ordinals(doc_terms(*terms), d);
    let mut out: Vec<i64> = Vec::new();
    let mut j: usize = 0;
    assert(o.take(0) =~= Seq::<i64>::empty());
    while j < terms.len()
        invariant
            j <= terms@.len(),
            d == slices(dict@),
            terms_sorted(d),
            forall|j: int| 0 <= j < terms@.len() ==> d.contains(#[trigger] doc_terms(*terms)[j]),
            o == ordinals(doc_terms(*terms), d),
            out@ == distinct_sorted(o.take(j as int)),
        decreases terms@.len() - j,
    {
        assert(d.contains(doc_terms(*terms)[j as int]));
        let k: usize = match find_term(dict, terms[j].as_slice()) {
            Some(k) => k,
            None => {
                assert(false);
                0
            },
        };
        let ord: i64 = k as i64;
        proof {
            lemma_term_index(d, doc_terms(*terms)[j as int], k as int);
            law_distinct_sorted(o.take(j as int));
            assert(o.take(j + 1).drop_last() =~= o.take(j as int));
            assert(o.take(j + 1).last() == ord);
        }
        let at: usize = lower_bound(out.as_slice(), ord);
        proof {
            lemma_insert_at(out@, ord, at as int);
        }
        if !(at < out.len() && out[at] == ord) {
            out.insert(at, ord);
        }
        j = j + 1;
    }
    assert(o.take(j as int) =~= o);
    out
}

/// The ordinals of all documents.
fn flatten_ordinals(terms_per_doc: &[Vec<Vec<u8>>], dict: &[&[u8]]) -> (r: (FlatLists, bool))
    requires
        is_dictionary(slices(dict@), flat_terms(term_lists(terms_per_doc@), terms_per_doc@.len())),
        slices(dict@) == set_dictionary(term_lists(terms_per_doc@)),
    ensures
        r.0.holds(set_ordinals(term_lists(terms_per_doc@))),
        r.1 == set_multi(set_ordinals(term_lists(terms_per_doc@))),
{
    let ghost t = term_lists(terms_per_doc@);
    let ghost v = set_ordinals(t);
    let mut r: FlatLists = FlatLists { all: Vec::new(), lens: Vec::new() };
    let mut multi: bool = false;
    let mut i: usize = 0;
    assert(r.holds(v.take(0)));
    while i < terms_per_doc.len()
        invariant
            i <= terms_per_doc@.len(),
            t == term_lists(terms_per_doc@),
            v == set_ordinals(t),
            is_dictionary(slices(dict@), flat_terms(t, t.len())),
            slices(dict@) == set_dictionary(t),
            r.holds(v.take(i as int)),
            multi == exists|k: int| 0 <= k < i && (#[trigger] v[k]).len() > 1,
        decreases terms_per_doc@.len() - i,
    {
        proof {
            assert forall|j: int| 0 <= j < terms_per_doc@[i as int]@.len() implies slices(dict@).contains(
                #[trigger] doc_terms(terms_per_doc@[i as int])[j],
            ) by {
                lemma_flat_terms_contains(t, t.len(), i as int, j);
                assert(t[i as int][j] == doc_terms(terms_per_doc@[i as int])[j]);
            }
        }
        let list: Vec<i64> = document_ordinals(&terms_per_doc[i], dict);
        assert(list@ == v[i as int]);
        r.add(&list, Ghost(v.take(i as int)));
        assert(v.take(i as int).push(list@) =~= v.take(i + 1));
        if list.len() > 1 {
            assert(v[i as int].len() > 1);
            multi = true;
        }
        i = i + 1;
    }
    assert(v.take(i as int) =~= v);
    (r, multi)
}

/// Appends a count of documents and the addresses of their lists.
fn write_list_addresses(meta: &mut Vec<u8>, data: &mut Vec<u8>, n: usize, lens: &[usize], dvd_base: u64) -> (r: Result<()>)
    requires
        sum_of(Seq::new(lens@.len(), |i: int| lens@[i] as nat), lens@.len()) <= i64::MAX,
    ensures
        r is Ok,
        ({
            let addresses = list_addresses(Seq::new(lens@.len(), |i: int| lens@[i] as nat), lens@.len());
            &&& final(meta)@ == old(meta)@ + (le_i32(n as i32) + addresses_meta(
                addresses,
                dvd_base as nat + old(data)@.len(),
            ))
            &&& final(data)@ == old(data)@ + monotonic_data(addresses, 16)
        }),
{
    let ghost l = Seq::new(lens@.len(), |i: int| lens@[i] as nat);
    let ghost meta0 = meta@;
    let ghost data0 = data@;
    proof {
        lemma_list_addresses(l, l.len());
    }
    push_le_i32(meta, n as i32);
    let addresses: Vec<i64> = make_addresses(lens);
    write_addresses(meta, data, addresses.as_slice(), dvd_base)?;
    assert(meta@ =~= meta0 + (le_i32(n as i32) + addresses_meta(addresses@, dvd_base as nat + data0.len())));
    Ok(())
}

/// The metadata of a SORTED_SET field up to its addresses.
pub open spec fn set_head(field_number: i32, multi: bool) -> Seq<u8> {
    field_head(field_number, consts::TYPE_SORTED_SET) + seq![if multi {
        1u8
    } else {
        0u8
    }]
}

/// What the metadata of a SORTED_SET field says of its lists.
pub open spec fn set_lists_meta(ords: Seq<Seq<i64>>, docs: Seq<u32>, multi: bool, offset: nat) -> Seq<u8> {
    if multi {
        le_i32(docs.len() as i32) + addresses_meta(list_addresses(list_lengths(ords), ords.len()), offset)
    } else {
        Seq::empty()
    }
}

/// Writes everything of a SORTED_SET field that comes before its dictionary.
fn write_set_lists<E: NumericEncoder>(
    meta: &mut Vec<u8>,
    data: &mut Vec<u8>,
    encoder: &E,
    docs: &[u32],
    found: &FlatLists,
    multi: bool,
    max_doc: u32,
    dvd_base: u64,
    v: Ghost<Seq<Seq<i64>>>,
) -> (r: Result<()>)
    requires
        strictly_increasing(docs@),
        docs@.len() <= u32::MAX,
        old(data)@.len() == 0,
        found.holds(v@),
    ensures
        flat(v@, v@.len()).len() > i64::MAX ==> (r matches Err(e) && (encoder.reliable() ==> e.kind() == ErrorKind::InvalidArgument)),
        flat(v@, v@.len()).len() <= i64::MAX && encoder.reliable() ==> r is Ok,
        r is Ok ==> {
            let all = flat(v@, v@.len());
            &&& final(data)@ == lists_data(v@, docs@, max_doc as nat, multi)
            &&& final(meta)@ == (old(meta)@ + entry_meta(all, docs@, max_doc as nat, dvd_base as nat))
                + set_lists_meta(v@, docs@, multi, dvd_base as nat + entry_data(all, docs@, max_doc as nat).len())
        },
{
    let ghost all = flat(v@, v@.len());
    proof {
        lemma_flat_len(v@, v@.len());
        assert(Seq::new(found.lens@.len(), |i: int| found.lens@[i] as nat) =~= list_lengths(v@));
    }
    if !sum_fits(found.lens.as_slice()) {
        return Err(Error::invalid("field too large"));
    }
    let total: usize = found.all.len();
    write_values(meta, data, &ValuesIn::Flat(found.all.as_slice()), docs, max_doc, dvd_base, encoder)?;
    assert(data@ =~= entry_data(all, docs@, max_doc as nat));
    let ghost meta1 = meta@;
    let ghost data1 = data@;
    if multi {
        write_list_addresses(meta, data, docs.len(), found.lens.as_slice(), dvd_base)?;
    } else {
        assert(meta@ =~= meta1 + Seq::<u8>::empty());
        assert(data@ =~= data1 + Seq::<u8>::empty());
    }
    Ok(())
}

/// Encode one SORTED_SET field (terms sorted and kept once within each
/// document; a single-valued field has the SORTED layout behind a flag).
pub fn encode_sorted_set_field<E: NumericEncoder>(
    encoder: &E,
    field_number: i32,
    docs: &[u32],
    terms_per_doc: &[Vec<Vec<u8>>],
    max_doc: u32,
    dvd_base: u64,
) -> (r: Result<EncodedField>)
    requires
        strictly_increasing(docs@),
        docs@.len() <= u32::MAX,
    ensures
        docs@.len() != terms_per_doc@.len() ==> (r matches Err(e) && e.kind() == ErrorKind::InvalidArgument),
        ({
            let t = term_lists(terms_per_doc@);
            let ords = set_ordinals(t);
            let fits = dict_fits(set_dictionary(t)) && flat(ords, ords.len()).len() <= i64::MAX;
            &&& docs@.len() == terms_per_doc@.len() && !fits ==> (r matches Err(e) && (encoder.reliable() ==> e.kind() == ErrorKind::InvalidArgument))
            &&& docs@.len() == terms_per_doc@.len() && fits && encoder.reliable() ==> r is Ok
            &&& r matches Ok(f) ==> {
                &&& f.meta@ == sorted_set_meta(field_number, t, docs@, max_doc as nat, dvd_base as nat)
                &&& f.data@ == sorted_set_data(t, docs@, max_doc as nat)
                &&& is_dictionary(set_dictionary(t), flat_terms(t, t.len()))
                &&& streams_decompress(set_dictionary(t), 0, no_table())
            }
        }),
{
    if docs.len() != terms_per_doc.len() {
        return Err(Error::invalid("docs and terms length mismatch"));
    }
    let ghost t = term_lists(terms_per_doc@);
    let ghost ords = set_ordinals(t);
    let borrowed: Vec<&[u8]> = borrow_terms(terms_per_doc);
    let dict: Vec<&[u8]> = sort_distinct(borrowed.as_slice());
    let (found, multi): (FlatLists, bool) = flatten_ordinals(terms_per_doc, dict.as_slice());
    let mut meta: Vec<u8> = Vec::new();
    let mut data: Vec<u8> = Vec::new();
    write_field_head(&mut meta, field_number, consts::TYPE_SORTED_SET);
    meta.push(if multi {
        1
    } else {
        0
    });
    assert(meta@ =~= set_head(field_number, multi));
    write_set_lists(
        &mut meta,
        &mut data,
        encoder,
        docs,
        &found,
        multi,
        max_doc,
        dvd_base,
        Ghost(ords),
    )?;
    add_terms_dict(&mut meta, &mut data, dict.as_slice(), dvd_base)?;
    Ok(EncodedField { meta, data })
}

/// The lengths that the metadata of a BINARY field records bound those of its
/// values, and are lengths of values. Addresses are there exactly where two
/// values differ in length.
pub proof fn law_recorded_lengths(values: Seq<Seq<u8>>)
    requires
        values.len() > 0,
        forall|i: int| 0 <= i < values.len() ==> (#[trigger] values[i]).len() <= i32::MAX,
    ensures
        forall|i: int|
            0 <= i < values.len() ==> recorded_least(values) <= (#[trigger] values[i]).len() <= recorded_greatest(values),
        exists|i: int| 0 <= i < values.len() && (#[trigger] values[i]).len() == recorded_least(values),
        exists|i: int| 0 <= i < values.len() && (#[trigger] values[i]).len() == recorded_greatest(values),
        needs_addresses(values) <==> exists|i: int, j: int|
            0 <= i < values.len() && 0 <= j < values.len() && (#[trigger] values[i]).len() != (#[trigger] values[j]).len(),
{
    crate::dict::law_max_term_len(values, values.len());
    lemma_least_len(values, values.len());
    let a = choose|i: int| 0 <= i < values.len() && (#[trigger] values[i]).len() == recorded_least(values);
    let b = choose|i: int| 0 <= i < values.len() && (#[trigger] values[i]).len() == recorded_greatest(values);
    if needs_addresses(values) {
        assert(values[a].len() != values[b].len());
    }
}

proof fn lemma_least_len(values: Seq<Seq<u8>>, n: nat)
    requires
        0 < n <= values.len(),
        forall|i: int| 0 <= i < n ==> (#[trigger] values[i]).len() <= i32::MAX,
    ensures
        forall|i: int| 0 <= i < n ==> least_len(values, n) <= (#[trigger] values[i]).len(),
        exists|i: int| 0 <= i < n && (#[trigger] values[i]).len() == least_len(values, n),
    decreases n,
{
    let m = (n - 1) as nat;
    if m > 0 {
        lemma_least_len(values, m);
        if (values[n - 1].len() as i32) < least_len(values, m) {
            assert(values[n - 1].len() == least_len(values, n));
        } else {
            let i = choose|i: int| 0 <= i < m && (#[trigger] values[i]).len() == least_len(values, m);
            assert(values[i].len() == least_len(values, n));
        }
    } else {
        assert(least_len(values, 0) == i32::MAX);
        assert(values[0].len() == least_len(values, n));
    }
}

} // verus!
