//! Fields with dictionaries, lists or byte payloads read back as they were
//! written.

use vstd::prelude::*;
use crate::bytes::{le_bytes, le_i32, lemma_cast_values, lemma_le_bytes_len};
use crate::column::{
    binary_column, coverage_docs, end_index, keys_fit, keys_in_range, keys_of, list_fits, list_offsets,
    list_start, multi_keys, multi_numeric_column, num_docs_of, scattered_keys, single_keys, sorted_column,
    stream_values, value_offsets, BinaryColumnModel, DictColumnModel, ListColumnModel,
};
use crate::bitset::rank;
use crate::consts;
use crate::cursor::{
    i32_at, i64_at, law_vint_round_trip, lemma_parse_i32_at, lemma_stands_split, parse_i32, stands_at,
    varint_bytes,
};
use crate::dict::{dict_data, dict_meta, max_term_len, no_table, streams_decompress};
use crate::disi::{lemma_rank_of, disi_bytes, doc_set, strictly_increasing};
use crate::encode::{
    addresses_meta, binary_addresses, binary_data, binary_meta, flat, flat_terms, joined, least_len,
    lemma_flat_len, lemma_joined_len, lemma_list_addresses, lemma_sum_mono, lemma_term_index, lengths,
    list_addresses, list_lengths, lists_data, multi_valued, needs_addresses, ordinals, recorded_greatest,
    recorded_least, set_dictionary, set_head, set_lists_meta, set_multi, set_ordinals, sorted_data, sorted_meta,
    sorted_numeric_meta, sorted_set_data, sorted_set_meta, sum_of,
};
use crate::error::ErrorKind;
use crate::lexicon::{dictionary_of, is_dictionary, law_dictionary_exists};
use crate::monotonic::{law_monotonic_round_trip, monotonic_data, monotonic_meta};
use crate::ordmap::lemma_sorted_bytes;
use crate::plan::FieldIdModel;
use crate::read::{
    addresses_of, coverage_of, entry_plan, parse_addresses, parse_binary_entry, parse_numeric_entry,
    parse_presence, parse_set_addresses, parse_sorted, parse_sorted_numeric, parse_sorted_set, parse_terms_dict,
    with_doc_count, BinaryModel, FieldPlanModel, MultiNumericModel, PresenceModel,
};
use crate::roundtrip::{
    lemma_all_docs, lemma_byte_at, lemma_i32_at, lemma_len_at, lemma_numeric_entry, lemma_presence,
    lemma_stream, lemma_written_coverage, plan_holds, written_entry, written_presence,
};
use crate::roundtrip_terms::{
    dict_small, law_dictionary_entry, law_dictionary_round_trip, written_terms,
};
use crate::stats::{distinct_sorted, law_distinct_sorted, sorted_strictly};
use crate::terms::{materialized, TermsPlanModel};
use crate::write::{
    docs_with_value, entry_data, entry_meta, field_head, lemma_docs_len, presence_data,
    presence_meta, values_data,
};

verus! {

/// Which documents a column names: none is needed where all have a value.
pub open spec fn docs_named(named: Option<Set<nat>>, docs: Seq<u32>, max_doc: nat) -> bool {
    match named {
        Some(s) => s == doc_set(docs, docs.len()),
        None => forall|d: nat| d < max_doc ==> #[trigger] doc_set(docs, docs.len()).contains(d),
    }
}

/// Sorted documents, all of them before the end.
pub open spec fn docs_valid(docs: Seq<u32>, max_doc: nat) -> bool {
    strictly_increasing(docs) && (docs.len() > 0 ==> docs.last() < max_doc)
}

/// A plan's dictionary holds the distinct members of `terms` in order, and
/// counts them.
pub open spec fn dictionary_read(plan: TermsPlanModel, dvd: Seq<u8>, terms: Seq<Seq<u8>>) -> bool {
    &&& materialized(plan, dvd) == Ok::<Seq<Seq<u8>>, ErrorKind>(dictionary_of(terms))
    &&& is_dictionary(dictionary_of(terms), terms)
    &&& plan.num_terms == dictionary_of(terms).len()
}

/// A dictionary column holds the term `terms[i]` for document `docs[i]`.
pub open spec fn dict_column_holds(c: DictColumnModel, docs: Seq<u32>, terms: Seq<Seq<u8>>, max_doc: nat) -> bool {
    &&& c.keys.len() == max_doc
    &&& c.num_docs == max_doc
    &&& c.offsets is None
    &&& c.terms == dictionary_of(terms)
    &&& docs_named(c.docs, docs, max_doc)
    &&& forall|i: int|
        0 <= i < docs.len() ==> {
            let key = c.keys[#[trigger] docs[i] as int];
            0 <= key < c.terms.len() && c.terms[key as int] == terms[i]
        }
}

/// What the coverage of written documents is.
proof fn lemma_covered(docs: Seq<u32>, max_doc: u32, offset: nat, dvd: Seq<u8>)
    requires
        docs_valid(docs, max_doc as nat),
        offset + disi_bytes(docs, 9).len() <= i64::MAX,
        stands_at(dvd, offset, presence_data(docs.len(), docs, max_doc as nat)),
    ensures
        match coverage_of(written_presence(docs.len(), docs, max_doc as nat, offset), docs.len() as u64, max_doc) {
            Ok(c) => num_docs_of(c) == max_doc && match coverage_docs(c, dvd) {
                Ok(named) => docs_named(named, docs, max_doc as nat) && (named is None ==> docs.len() == max_doc),
                Err(_) => false,
            },
            Err(_) => false,
        },
{
    lemma_written_coverage(docs.len(), docs, max_doc, offset, dvd);
    lemma_docs_len(docs, max_doc as nat);
    let s = doc_set(docs, docs.len());
    if docs.len() == 0 {
        assert(s =~= Set::<nat>::empty());
    } else if docs.len() == max_doc {
        assert forall|d: nat| d < max_doc implies #[trigger] s.contains(d) by {
            lemma_all_docs(docs, d as int);
            assert(docs[d as int] == d);
        }
    }
}

/// How many documents with a value come before document `d`.
pub open spec fn docs_before(named: Option<Set<nat>>, d: nat) -> nat {
    match named {
        None => d,
        Some(s) => rank(s, d),
    }
}

/// Before `docs[i]` come `i` documents with a value, up to it one more.
proof fn lemma_docs_before(named: Option<Set<nat>>, docs: Seq<u32>, max_doc: nat, i: int)
    requires
        docs_valid(docs, max_doc),
        docs_named(named, docs, max_doc),
        named is None ==> docs.len() == max_doc,
        0 <= i < docs.len(),
    ensures
        docs_before(named, docs[i] as nat) == i,
        docs_before(named, docs[i] as nat + 1) == i + 1,
        docs[i] < max_doc,
{
    lemma_docs_len(docs, max_doc);
    match named {
        None => {
            lemma_all_docs(docs, i);
        },
        Some(s) => {
            assert forall|k: int| 0 <= k < i implies #[trigger] docs[k] < docs[i] by {}
            assert forall|k: int| i <= k < docs.len() implies docs[i] <= #[trigger] docs[k] by {}
            lemma_rank_of(docs, docs[i] as nat, i as nat);
            assert(s.contains(docs[i] as nat));
        },
    }
}

/// All documents with a value come before the end, in every case.
proof fn lemma_docs_total(named: Option<Set<nat>>, docs: Seq<u32>, max_doc: nat, d: nat)
    requires
        docs_valid(docs, max_doc),
        docs_named(named, docs, max_doc),
        named is None ==> docs.len() == max_doc,
        d <= max_doc,
    ensures
        docs_before(named, d) <= docs.len(),
        d == max_doc ==> docs_before(named, d) == docs.len(),
        d > 0 ==> docs_before(named, (d - 1) as nat) <= docs_before(named, d) <= docs_before(named, (d - 1) as nat) + 1,
    decreases max_doc - d,
{
    lemma_docs_len(docs, max_doc);
    if d == max_doc {
        if named is Some {
            lemma_rank_of(docs, max_doc, docs.len());
        }
    } else {
        lemma_docs_total(named, docs, max_doc, d + 1);
    }
}

/// A written SORTED entry reads back: it plans, its dictionary materializes
/// to the distinct terms in order, and its plan decodes to a column that
/// gives each document its term.
pub proof fn law_sorted_round_trip(
    dvm: Seq<u8>,
    p: nat,
    dvd: Seq<u8>,
    offset: nat,
    terms: Seq<Seq<u8>>,
    docs: Seq<u32>,
    max_doc: u32,
    number: i32,
    column: FieldIdModel,
    file: Seq<char>,
)
    requires
        docs_valid(docs, max_doc as nat),
        docs.len() == terms.len(),
        streams_decompress(dictionary_of(terms), 0, no_table()),
        ({
            let d = dictionary_of(terms);
            let ords = ordinals(terms, d);
            &&& offset + disi_bytes(docs, 9).len() + values_data(ords).len() <= i64::MAX
            &&& dict_small(d, offset + entry_data(ords, docs, max_doc as nat).len())
        }),
        stands_at(dvm, p, sorted_meta(number, terms, docs, max_doc as nat, offset)),
        stands_at(dvd, offset, sorted_data(terms, docs, max_doc as nat)),
    ensures
        match parse_sorted(dvm, p + 5, dvd, column, max_doc, file) {
            Ok((FieldPlanModel::Sorted(m), q)) => q == p + sorted_meta(number, terms, docs, max_doc as nat, offset).len()
                && m.ords.column == column && !m.set && dictionary_read(m.terms, dvd, terms) && match sorted_column(m, dvd) {
                Ok(c) => dict_column_holds(c, docs, terms, max_doc as nat),
                Err(_) => false,
            },
            _ => false,
        },
{
    law_dictionary_exists(terms);
    let d = dictionary_of(terms);
    let ords = ordinals(terms, d);
    let em = entry_meta(ords, docs, max_doc as nat, offset);
    let ed = entry_data(ords, docs, max_doc as nat);
    let head = field_head(number, consts::TYPE_SORTED);
    lemma_le_bytes_len((number as u32) as nat, 4);
    assert(head.len() == 5);
    lemma_docs_len(docs, max_doc as nat);
    lemma_stands_split(dvm, p, head + em, dict_meta(d, offset + ed.len()));
    lemma_stands_split(dvm, p, head, em);
    lemma_stands_split(dvd, offset, ed, dict_data(d));
    lemma_entry_reads(dvm, p + 5, dvd, offset, ords, docs, max_doc, column, file);
    let (e, q) = parse_numeric_entry(dvm, p + 5)->Ok_0;
    let plan = entry_plan(e, dvd, column, max_doc, file)->Ok_0;
    law_dictionary_entry(dvm, p + 5 + em.len(), d, offset + ed.len());
    law_dictionary_round_trip(d, dvd, offset + ed.len());
    let named = coverage_docs(plan.coverage, dvd)->Ok_0;
    lemma_sorted_bytes(d);
    assert forall|i: int| 0 <= i < terms.len() implies 0 <= #[trigger] ords[i] < d.len() && d[ords[i] as int] == terms[i] by {
        assert(terms.contains(terms[i]));
        assert(d.contains(terms[i]));
        let k = choose|k: int| 0 <= k < d.len() && d[k] == terms[i];
        lemma_term_index(d, terms[i], k);
    }
    lemma_single_keys(ords, named, docs, terms, d, max_doc as nat);
}

/// The keys of a single-valued column, where every ordinal names its term.
proof fn lemma_single_keys(
    ords: Seq<i64>,
    named: Option<Set<nat>>,
    docs: Seq<u32>,
    terms: Seq<Seq<u8>>,
    d: Seq<Seq<u8>>,
    max_doc: nat,
)
    requires
        docs_valid(docs, max_doc),
        docs_named(named, docs, max_doc),
        named is None ==> docs.len() == max_doc,
        ords.len() == docs.len(),
        terms.len() == docs.len(),
        d == dictionary_of(terms),
        d.len() <= 0x8000_0000,
        forall|i: int| 0 <= i < terms.len() ==> 0 <= #[trigger] ords[i] < d.len() && d[ords[i] as int] == terms[i],
    ensures
        single_keys(ords, named, max_doc, d) matches Ok(c) && dict_column_holds(c, docs, terms, max_doc),
{
    lemma_keys_scattered(ords, named, docs, d.len(), max_doc);
    let c = single_keys(ords, named, max_doc, d)->Ok_0;
    assert forall|i: int| 0 <= i < docs.len() implies {
        let key = c.keys[#[trigger] docs[i] as int];
        0 <= key < c.terms.len() && c.terms[key as int] == terms[i]
    } by {
        assert(c.keys[docs[i] as int] == ords[i]);
        assert(0 <= ords[i] < d.len());
    }
}

/// Written addresses read back.
proof fn lemma_addresses(b: Seq<u8>, p: nat, dvd: Seq<u8>, addresses: Seq<i64>, offset: nat)
    requires
        addresses.len() <= u64::MAX,
        offset + monotonic_data(addresses, 16).len() <= i64::MAX,
        stands_at(b, p, addresses_meta(addresses, offset)),
        stands_at(dvd, offset, monotonic_data(addresses, 16)),
    ensures
        match parse_addresses(b, p, addresses.len() as u64) {
            Ok((a, q)) => q == p + addresses_meta(addresses, offset).len() && addresses_of(a, dvd) == Ok::<
                Seq<i64>,
                ErrorKind,
            >(addresses),
            Err(_) => false,
        },
{
    let data = monotonic_data(addresses, 16);
    let mm = monotonic_meta(addresses, 16);
    let s2 = mm + le_bytes(data.len(), 8);
    let s1 = varint_bytes(16) + s2;
    lemma_stands_split(b, p, le_bytes(offset, 8), s1);
    lemma_len_at(b, p, offset);
    lemma_stands_split(b, p + 8, varint_bytes(16), s2);
    law_vint_round_trip(b, p + 8, 16);
    let p2 = p + 8 + varint_bytes(16).len();
    lemma_stands_split(b, p2, mm, le_bytes(data.len(), 8));
    let region = dvd.skip(offset as int);
    assert(region.subrange(0, data.len() as int) =~= dvd.subrange(offset as int, (offset + data.len()) as int));
    law_monotonic_round_trip(b, p2, region, addresses, 16);
    lemma_len_at(b, p2 + mm.len(), data.len());
    lemma_cast_values();
    assert((16u32 as i32) as u32 == 16);
}

/// Where lists start, in terms of how many documents come before.
proof fn lemma_list_start_at(addresses: Seq<i64>, named: Option<Set<nat>>, d: nat)
    requires
        addresses.len() > 0,
        addresses[0] == 0,
        docs_before(named, d) < addresses.len(),
    ensures
        list_start(addresses, named, d) == addresses[docs_before(named, d) as int],
{
    if d > 0 {
        assert(end_index(named, (d - 1) as nat) == docs_before(named, d));
    }
}

/// Lists with these lengths are addressed: document `docs[i]` has list `i`.
proof fn lemma_list_offsets(lens: Seq<nat>, named: Option<Set<nat>>, docs: Seq<u32>, max_doc: nat, every: bool)
    requires
        docs_valid(docs, max_doc),
        docs_named(named, docs, max_doc),
        named is None ==> docs.len() == max_doc,
        lens.len() == docs.len(),
        sum_of(lens, lens.len()) <= i32::MAX,
    ensures
        match list_offsets(max_doc, named, list_addresses(lens, lens.len()), every) {
            Ok(o) => {
                &&& o.len() == max_doc + 1
                &&& o.last() == sum_of(lens, lens.len())
                &&& forall|i: int|
                    0 <= i < docs.len() ==> o[#[trigger] docs[i] as int] == sum_of(lens, i as nat) && o[docs[i] + 1]
                        == sum_of(lens, (i + 1) as nat)
            },
            Err(_) => false,
        },
{
    let n = lens.len();
    let a = list_addresses(lens, n);
    lemma_list_addresses(lens, n);
    assert forall|d: nat| d < max_doc implies #[trigger] list_fits(a, named, d, every) by {
        lemma_docs_total(named, docs, max_doc, d);
        lemma_docs_total(named, docs, max_doc, d + 1);
        lemma_list_start_at(a, named, d);
        let x = docs_before(named, d);
        let y = docs_before(named, d + 1);
        assert(end_index(named, d) == y);
        assert(a[x as int] == sum_of(lens, x));
        assert(a[y as int] == sum_of(lens, y));
        lemma_sum_mono(lens, x, y);
        lemma_sum_mono(lens, y, n);
    }
    let o = list_offsets(max_doc, named, a, every)->Ok_0;
    assert forall|d: nat| d <= max_doc implies #[trigger] o[d as int] == sum_of(lens, docs_before(named, d)) by {
        lemma_docs_total(named, docs, max_doc, d);
        lemma_list_start_at(a, named, d);
        assert(a[docs_before(named, d) as int] == sum_of(lens, docs_before(named, d)));
        lemma_sum_mono(lens, docs_before(named, d), n);
    }
    lemma_docs_total(named, docs, max_doc, max_doc);
    assert(o[max_doc as int] == sum_of(lens, docs_before(named, max_doc)));
    assert forall|i: int| 0 <= i < docs.len() implies o[#[trigger] docs[i] as int] == sum_of(lens, i as nat) && o[docs[i]
        + 1] == sum_of(lens, (i + 1) as nat) by {
        lemma_docs_before(named, docs, max_doc, i);
        assert(o[(docs[i] as nat) as int] == sum_of(lens, docs_before(named, docs[i] as nat)));
        assert(o[(docs[i] as nat + 1) as int] == sum_of(lens, docs_before(named, docs[i] as nat + 1)));
    }
}

/// A list column gives document `docs[i]` the list `v[i]`.
pub open spec fn list_column_holds(c: ListColumnModel, docs: Seq<u32>, v: Seq<Seq<i64>>, max_doc: nat) -> bool {
    &&& c.offsets.len() == max_doc + 1
    &&& docs_named(c.docs, docs, max_doc)
    &&& forall|i: int|
        0 <= i < docs.len() ==> c.values.subrange(c.offsets[#[trigger] docs[i] as int] as int, c.offsets[docs[i] + 1] as int)
            == v[i]
}

proof fn lemma_flat_part(v: Seq<Seq<i64>>, n: nat, i: int)
    requires
        n <= v.len(),
        0 <= i < n,
    ensures
        sum_of(list_lengths(v), i as nat) <= sum_of(list_lengths(v), (i + 1) as nat) <= flat(v, n).len(),
        flat(v, n).subrange(
            sum_of(list_lengths(v), i as nat) as int,
            sum_of(list_lengths(v), (i + 1) as nat) as int,
        ) == v[i],
    decreases n,
{
    let l = list_lengths(v);
    lemma_flat_len(v, n);
    lemma_flat_len(v, (n - 1) as nat);
    lemma_sum_mono(l, i as nat + 1, n);
    let f = flat(v, n);
    let g = flat(v, (n - 1) as nat);
    let a = sum_of(l, i as nat) as int;
    let b = sum_of(l, (i + 1) as nat) as int;
    if i < n - 1 {
        lemma_flat_part(v, (n - 1) as nat, i);
        assert(f.subrange(a, b) =~= g.subrange(a, b));
    } else {
        assert(f.subrange(a, b) =~= v[i]);
    }
}

/// Every list has a value; then as many values as lists means one each.
proof fn lemma_one_each(v: Seq<Seq<i64>>, n: nat)
    requires
        n <= v.len(),
        forall|i: int| 0 <= i < v.len() ==> (#[trigger] v[i]).len() > 0,
    ensures
        flat(v, n).len() >= n,
        flat(v, n).len() == n ==> forall|i: int| 0 <= i < n ==> (#[trigger] v[i]).len() == 1 && flat(v, n)[i] == v[i][0],
    decreases n,
{
    if n > 0 {
        lemma_one_each(v, (n - 1) as nat);
        let g = flat(v, (n - 1) as nat);
        assert(v[n - 1].len() > 0);
        if flat(v, n).len() == n {
            assert forall|i: int| 0 <= i < n implies (#[trigger] v[i]).len() == 1 && flat(v, n)[i] == v[i][0] by {
                if i < n - 1 {
                    assert(v[i].len() == 1 && g[i] == v[i][0]);
                }
            }
        }
    }
}

/// What a SORTED_NUMERIC entry plans to holds the lists: as a plain column
/// where every document has one value, else as a column of lists.
pub open spec fn numeric_lists_hold(m: FieldPlanModel, dvd: Seq<u8>, column: FieldIdModel, docs: Seq<u32>, v: Seq<Seq<i64>>, max_doc: nat) -> bool {
    match m {
        FieldPlanModel::Numeric(plan) => plan_holds(
            Ok(plan),
            dvd,
            column,
            docs,
            Seq::new(v.len(), |i: int| v[i][0]),
            max_doc,
        ) && forall|i: int| 0 <= i < v.len() ==> (#[trigger] v[i]).len() == 1,
        FieldPlanModel::MultiNumeric(plan) => plan.values.column == column && match multi_numeric_column(plan, dvd) {
            Ok(c) => list_column_holds(c, docs, v, max_doc),
            Err(_) => false,
        },
        _ => false,
    }
}

/// A written SORTED_NUMERIC entry reads back: each document gets its values,
/// in order, provided that each document in the list has a value.
pub proof fn law_sorted_numeric_round_trip(
    dvm: Seq<u8>,
    p: nat,
    dvd: Seq<u8>,
    offset: nat,
    v: Seq<Seq<i64>>,
    docs: Seq<u32>,
    max_doc: u32,
    number: i32,
    column: FieldIdModel,
    file: Seq<char>,
)
    requires
        docs_valid(docs, max_doc as nat),
        docs.len() == v.len(),
        docs.len() <= i32::MAX,
        forall|i: int| 0 <= i < v.len() ==> (#[trigger] v[i]).len() > 0,
        flat(v, v.len()).len() <= i32::MAX,
        offset + disi_bytes(docs, 9).len() + values_data(flat(v, v.len())).len() <= i64::MAX,
        offset + lists_data(v, docs, max_doc as nat, multi_valued(v)).len() <= i64::MAX,
        stands_at(dvm, p, sorted_numeric_meta(number, v, docs, max_doc as nat, offset)),
        stands_at(dvd, offset, lists_data(v, docs, max_doc as nat, multi_valued(v))),
    ensures
        match parse_sorted_numeric(dvm, p + 5, dvd, column, max_doc, file) {
            Ok((m, q)) => q == p + sorted_numeric_meta(number, v, docs, max_doc as nat, offset).len()
                && numeric_lists_hold(m, dvd, column, docs, v, max_doc as nat),
            Err(_) => false,
        },
{
    let all = flat(v, v.len());
    let n = docs.len();
    let em = entry_meta(all, docs, max_doc as nat, offset);
    let ed = entry_data(all, docs, max_doc as nat);
    let head = field_head(number, consts::TYPE_SORTED_NUMERIC);
    lemma_le_bytes_len((number as u32) as nat, 4);
    assert(head.len() == 5);
    lemma_one_each(v, v.len());
    let multi = multi_valued(v);
    let addresses = list_addresses(list_lengths(v), v.len());
    let am = if multi {
        addresses_meta(addresses, offset + ed.len())
    } else {
        Seq::<u8>::empty()
    };
    let tail = if multi {
        monotonic_data(addresses, 16)
    } else {
        Seq::<u8>::empty()
    };
    lemma_stands_split(dvm, p, (head + em) + le_i32(n as i32), am);
    lemma_stands_split(dvm, p, head + em, le_i32(n as i32));
    lemma_stands_split(dvm, p, head, em);
    lemma_stands_split(dvd, offset, ed, tail);
    lemma_entry_reads(dvm, p + 5, dvd, offset, all, docs, max_doc, column, file);
    let p1 = p + 5 + em.len();
    lemma_parse_i32_at(dvm, p1, n as i32);
    if multi {
        lemma_multi_column(dvm, p, dvd, offset, v, docs, max_doc, column, file, p1);
    } else {
        let first = Seq::new(v.len(), |i: int| v[i][0]);
        assert(all =~= first);
        crate::roundtrip::law_numeric_entry_round_trip(dvm, p + 5, dvd, offset, all, docs, max_doc, column, file);
    }
}

/// The column of lists behind a written value stream.
#[verifier::rlimit(50)]
#[verifier::spinoff_prover]
proof fn lemma_multi_column(
    dvm: Seq<u8>,
    p: nat,
    dvd: Seq<u8>,
    offset: nat,
    v: Seq<Seq<i64>>,
    docs: Seq<u32>,
    max_doc: u32,
    column: FieldIdModel,
    file: Seq<char>,
    p1: nat,
)
    requires
        docs_valid(docs, max_doc as nat),
        docs.len() == v.len(),
        docs.len() <= i32::MAX,
        flat(v, v.len()).len() <= i32::MAX,
        multi_valued(v),
        entry_reads(dvm, p + 5, p1, dvd, column, max_doc, file, flat(v, v.len()), docs),
        ({
            let at = offset + entry_data(flat(v, v.len()), docs, max_doc as nat).len();
            let addresses = list_addresses(list_lengths(v), v.len());
            &&& at + monotonic_data(addresses, 16).len() <= i64::MAX
            &&& stands_at(dvm, p1 + 4, addresses_meta(addresses, at))
            &&& stands_at(dvd, at, monotonic_data(addresses, 16))
        }),
        parse_i32(dvm, p1) == Ok::<(i32, nat), ErrorKind>((docs.len() as i32, p1 + 4)),
    ensures
        ({
            let at = offset + entry_data(flat(v, v.len()), docs, max_doc as nat).len();
            let addresses = list_addresses(list_lengths(v), v.len());
            match parse_sorted_numeric(dvm, p + 5, dvd, column, max_doc, file) {
                Ok((m, q)) => q == p1 + 4 + addresses_meta(addresses, at).len() && numeric_lists_hold(
                    m,
                    dvd,
                    column,
                    docs,
                    v,
                    max_doc as nat,
                ),
                Err(_) => false,
            }
        }),
{
    let n = docs.len();
    let all = flat(v, v.len());
    let at = offset + entry_data(all, docs, max_doc as nat).len();
    let addresses = list_addresses(list_lengths(v), v.len());
    lemma_flat_len(v, v.len());
    lemma_list_addresses(list_lengths(v), v.len());
    lemma_addresses(dvm, p1 + 4, dvd, addresses, at);
    let (e, q0) = parse_numeric_entry(dvm, p + 5)->Ok_0;
    let plan = entry_plan(e, dvd, column, max_doc, file)->Ok_0;
    let (a, q) = parse_addresses(dvm, p1 + 4, (n + 1) as u64)->Ok_0;
    let fixed = with_doc_count(plan, n as u64);
    let named = coverage_docs(fixed.coverage, dvd)->Ok_0;
    lemma_list_offsets(list_lengths(v), named, docs, max_doc as nat, false);
    let m = MultiNumericModel { values: fixed, addresses: a };
    let c = multi_numeric_column(m, dvd)->Ok_0;
    assert forall|i: int| 0 <= i < docs.len() implies c.values.subrange(
        c.offsets[#[trigger] docs[i] as int] as int,
        c.offsets[docs[i] + 1] as int,
    ) == v[i] by {
        lemma_flat_part(v, v.len(), i);
    }
    assert(list_column_holds(c, docs, v, max_doc as nat));
    assert(e.num_values > n);
}

/// A written value stream and its documents read back: the entry at `p` ends
/// at `q`, its plan streams the values, and with the document count in place
/// its coverage names the documents.
pub open spec fn entry_reads(
    dvm: Seq<u8>,
    p: nat,
    q: nat,
    dvd: Seq<u8>,
    column: FieldIdModel,
    max_doc: u32,
    file: Seq<char>,
    values: Seq<i64>,
    docs: Seq<u32>,
) -> bool {
    match parse_numeric_entry(dvm, p) {
        Ok((e, end)) => end == q && e.num_values == values.len() && match entry_plan(e, dvd, column, max_doc, file) {
            Ok(plan) => {
                let fixed = with_doc_count(plan, docs.len() as u64);
                &&& plan.column == column
                &&& fixed.column == column
                &&& stream_values(fixed, dvd) == Ok::<Seq<i64>, ErrorKind>(values)
                &&& num_docs_of(fixed.coverage) == max_doc
                &&& values.len() == docs.len() ==> fixed == plan
                &&& match coverage_docs(fixed.coverage, dvd) {
                    Ok(named) => docs_named(named, docs, max_doc as nat) && (named is None ==> docs.len() == max_doc),
                    Err(_) => false,
                }
            },
            Err(_) => false,
        },
        Err(_) => false,
    }
}

proof fn lemma_entry_reads(
    dvm: Seq<u8>,
    p: nat,
    dvd: Seq<u8>,
    offset: nat,
    values: Seq<i64>,
    docs: Seq<u32>,
    max_doc: u32,
    column: FieldIdModel,
    file: Seq<char>,
)
    requires
        docs_valid(docs, max_doc as nat),
        docs.len() == 0 ==> values.len() == 0,
        values.len() <= i64::MAX,
        offset + disi_bytes(docs, 9).len() + values_data(values).len() <= i64::MAX,
        stands_at(dvm, p, entry_meta(values, docs, max_doc as nat, offset)),
        stands_at(dvd, offset, entry_data(values, docs, max_doc as nat)),
    ensures
        entry_reads(
            dvm,
            p,
            p + entry_meta(values, docs, max_doc as nat, offset).len(),
            dvd,
            column,
            max_doc,
            file,
            values,
            docs,
        ),
{
    let n = docs.len();
    lemma_docs_len(docs, max_doc as nat);
    assert(docs_with_value(values, docs, max_doc as nat) == n);
    let pd = presence_data(n, docs, max_doc as nat);
    let at = offset + pd.len();
    let pr = written_presence(n, docs, max_doc as nat, offset);
    lemma_stands_split(dvd, offset, pd, values_data(values));
    lemma_numeric_entry(dvm, p, values, docs, max_doc as nat, offset);
    lemma_stream(values, pr, at, dvd);
    lemma_covered(docs, max_doc, offset, dvd);
    lemma_cast_values();
    let e = written_entry(values, pr, at);
    assert(e.num_values as u64 == values.len());
    let plan = entry_plan(e, dvd, column, max_doc, file)->Ok_0;
    let fixed = with_doc_count(plan, n as u64);
    assert(fixed.coverage == coverage_of(pr, n as u64, max_doc)->Ok_0);
    assert(stream_values(plan, dvd) == Ok::<Seq<i64>, ErrorKind>(values));
    assert(stream_values(fixed, dvd) == Ok::<Seq<i64>, ErrorKind>(values));
}

/// The keys of document `d`: its one key, or its list.
pub open spec fn keys_of_doc(c: DictColumnModel, d: int) -> Seq<i32> {
    match c.offsets {
        None => seq![c.keys[d]],
        Some(o) => c.keys.subrange(o[d] as int, o[d + 1] as int),
    }
}

/// Ordinals as keys.
pub open spec fn as_keys(ords: Seq<i64>) -> Seq<i32> {
    Seq::new(ords.len(), |i: int| ords[i] as i32)
}

/// A dictionary column gives document `docs[i]` the keys of its terms, in
/// order and each once.
pub open spec fn set_column_holds(c: DictColumnModel, docs: Seq<u32>, t: Seq<Seq<Seq<u8>>>, max_doc: nat) -> bool {
    &&& c.terms == set_dictionary(t)
    &&& c.num_docs == max_doc
    &&& docs_named(c.docs, docs, max_doc)
    &&& forall|i: int|
        0 <= i < docs.len() ==> keys_of_doc(c, #[trigger] docs[i] as int) == as_keys(set_ordinals(t)[i])
}

proof fn lemma_flat_terms_has(t: Seq<Seq<Seq<u8>>>, n: nat, i: int, j: int)
    requires
        0 <= i < n <= t.len(),
        0 <= j < t[i].len(),
    ensures
        flat_terms(t, n).contains(t[i][j]),
    decreases n,
{
    let rest = flat_terms(t, (n - 1) as nat);
    crate::lexicon::lemma_concat_contains(rest, t[n - 1], t[i][j]);
    if i < n - 1 {
        lemma_flat_terms_has(t, (n - 1) as nat, i, j);
    } else {
        assert(t[n - 1].contains(t[i][j]));
    }
}

/// The ordinals of a document's terms name exactly its terms.
pub proof fn law_set_ordinals(t: Seq<Seq<Seq<u8>>>, i: int)
    requires
        is_dictionary(set_dictionary(t), flat_terms(t, t.len())),
        set_dictionary(t).len() <= i64::MAX,
        0 <= i < t.len(),
    ensures
        sorted_strictly(set_ordinals(t)[i]),
        t[i].len() > 0 ==> set_ordinals(t)[i].len() > 0,
        forall|k: int|
            0 <= k < set_ordinals(t)[i].len() ==> {
                let o = #[trigger] set_ordinals(t)[i][k];
                0 <= o < set_dictionary(t).len() && t[i].contains(set_dictionary(t)[o as int])
            },
        forall|j: int|
            0 <= j < t[i].len() ==> exists|k: int|
                0 <= k < set_ordinals(t)[i].len() && set_dictionary(t)[#[trigger] set_ordinals(t)[i][k] as int]
                    == #[trigger] t[i][j],
{
    let d = set_dictionary(t);
    let raw = ordinals(t[i], d);
    let o = distinct_sorted(raw);
    law_distinct_sorted(raw);
    assert forall|j: int| 0 <= j < t[i].len() implies 0 <= #[trigger] raw[j] < d.len() && d[raw[j] as int] == t[i][j] by {
        lemma_flat_terms_has(t, t.len(), i, j);
        assert(d.contains(t[i][j]));
        let k = choose|k: int| 0 <= k < d.len() && d[k] == t[i][j];
        lemma_term_index(d, t[i][j], k);
    }
    assert forall|k: int| 0 <= k < o.len() implies {
        let x = #[trigger] o[k];
        0 <= x < d.len() && t[i].contains(d[x as int])
    } by {
        assert(o.contains(o[k]));
        assert(raw.contains(o[k]));
        let j = choose|j: int| 0 <= j < raw.len() && raw[j] == o[k];
        assert(0 <= raw[j] < d.len() && d[raw[j] as int] == t[i][j]);
    }
    assert forall|j: int| 0 <= j < t[i].len() implies exists|k: int|
        0 <= k < o.len() && d[#[trigger] o[k] as int] == #[trigger] t[i][j] by {
        assert(raw.contains(raw[j]));
        assert(o.contains(raw[j]));
        let k = choose|k: int| 0 <= k < o.len() && o[k] == raw[j];
        assert(0 <= raw[j] < d.len() && d[raw[j] as int] == t[i][j]);
        assert(d[o[k] as int] == t[i][j]);
    }
    if t[i].len() > 0 {
        assert(raw.contains(raw[0]));
        assert(o.contains(raw[0]));
    }
}

/// Ordinals in range can be keys.
proof fn lemma_flat_in_range(v: Seq<Seq<i64>>, n: nat, bound: nat)
    requires
        n <= v.len(),
        forall|i: int, k: int| 0 <= i < v.len() && 0 <= k < v[i].len() ==> 0 <= #[trigger] v[i][k] < bound,
    ensures
        forall|k: int| 0 <= k < flat(v, n).len() ==> 0 <= #[trigger] flat(v, n)[k] < bound,
    decreases n,
{
    if n > 0 {
        lemma_flat_in_range(v, (n - 1) as nat, bound);
        let g = flat(v, (n - 1) as nat);
        assert forall|k: int| 0 <= k < flat(v, n).len() implies 0 <= #[trigger] flat(v, n)[k] < bound by {
            if k < g.len() {
                assert(flat(v, n)[k] == g[k]);
            } else {
                assert(flat(v, n)[k] == v[n - 1][k - g.len()]);
            }
        }
    }
}

/// The column of a set field, from its ordinals.
proof fn lemma_set_column(
    ords: Seq<Seq<i64>>,
    named: Option<Set<nat>>,
    docs: Seq<u32>,
    t: Seq<Seq<Seq<u8>>>,
    max_doc: nat,
)
    requires
        docs_valid(docs, max_doc),
        docs_named(named, docs, max_doc),
        named is None ==> docs.len() == max_doc,
        docs.len() == t.len(),
        ords == set_ordinals(t),
        flat(ords, ords.len()).len() <= i32::MAX,
        set_dictionary(t).len() <= 0x8000_0000,
        forall|i: int| 0 <= i < ords.len() ==> (#[trigger] ords[i]).len() > 0,
        forall|i: int, k: int|
            0 <= i < ords.len() && 0 <= k < ords[i].len() ==> 0 <= #[trigger] ords[i][k] < set_dictionary(t).len(),
    ensures
        ({
            let all = flat(ords, ords.len());
            let d = set_dictionary(t);
            if set_multi(ords) {
                multi_keys(all, named, max_doc, d, list_addresses(list_lengths(ords), ords.len())) matches Ok(c)
                    && set_column_holds(c, docs, t, max_doc)
            } else {
                &&& all.len() == docs.len()
                &&& single_keys(all, named, max_doc, d) matches Ok(c) && set_column_holds(c, docs, t, max_doc)
            }
        }),
{
    let all = flat(ords, ords.len());
    let d = set_dictionary(t);
    lemma_flat_in_range(ords, ords.len(), d.len());
    lemma_one_each(ords, ords.len());
    lemma_flat_len(ords, ords.len());
    if set_multi(ords) {
        lemma_list_offsets(list_lengths(ords), named, docs, max_doc, false);
        assert(keys_fit(all, all.len()));
        let keys = keys_of(all, all.len());
        assert forall|x: int| 0 <= x < keys.len() implies 0 <= #[trigger] keys[x] < d.len() by {
            assert(0 <= all[x] < d.len());
        }
        assert(keys_in_range(keys, None, d.len()));
        let c = multi_keys(all, named, max_doc, d, list_addresses(list_lengths(ords), ords.len()))->Ok_0;
        assert forall|i: int| 0 <= i < docs.len() implies keys_of_doc(c, #[trigger] docs[i] as int) == as_keys(ords[i]) by {
            lemma_flat_part(ords, ords.len(), i);
            let a = sum_of(list_lengths(ords), i as nat) as int;
            let b = sum_of(list_lengths(ords), (i + 1) as nat) as int;
            assert(all.subrange(a, b) == ords[i]);
            assert(keys.subrange(a, b) =~= as_keys(ords[i])) by {
                assert forall|x: int| 0 <= x < b - a implies keys.subrange(a, b)[x] == as_keys(ords[i])[x] by {
                    assert(all.subrange(a, b)[x] == all[a + x]);
                }
            }
        }
    } else {
        lemma_sum_of_ones(ords, ords.len());
        assert(all.len() == docs.len());
        lemma_keys_scattered(all, named, docs, d.len(), max_doc);
        let c = single_keys(all, named, max_doc, d)->Ok_0;
        assert forall|i: int| 0 <= i < docs.len() implies keys_of_doc(c, #[trigger] docs[i] as int) == as_keys(ords[i]) by {
            assert(c.keys[docs[i] as int] == all[i]);
            assert(ords[i].len() == 1 && all[i] == ords[i][0]);
            assert(keys_of_doc(c, docs[i] as int) =~= as_keys(ords[i]));
        }
    }
}

/// Lists of one value each.
proof fn lemma_sum_of_ones(v: Seq<Seq<i64>>, n: nat)
    requires
        n <= v.len(),
        !set_multi(v),
        forall|i: int| 0 <= i < v.len() ==> (#[trigger] v[i]).len() > 0,
    ensures
        flat(v, n).len() == n,
    decreases n,
{
    if n > 0 {
        lemma_sum_of_ones(v, (n - 1) as nat);
        assert(v[n - 1].len() > 0);
    }
}

/// One key per document, where every ordinal is in range.
proof fn lemma_keys_scattered(ords: Seq<i64>, named: Option<Set<nat>>, docs: Seq<u32>, num_terms: nat, max_doc: nat)
    requires
        docs_valid(docs, max_doc),
        docs_named(named, docs, max_doc),
        named is None ==> docs.len() == max_doc,
        ords.len() == docs.len(),
        num_terms <= 0x8000_0000,
        forall|i: int| 0 <= i < ords.len() ==> 0 <= #[trigger] ords[i] < num_terms,
    ensures
        match scattered_keys(ords, named, max_doc) {
            Ok(keys) => keys.len() == max_doc && keys_in_range(keys, named, num_terms) && forall|i: int|
                0 <= i < docs.len() ==> keys[#[trigger] docs[i] as int] == ords[i],
            Err(_) => false,
        },
{
    lemma_docs_len(docs, max_doc);
    lemma_docs_total(named, docs, max_doc, max_doc);
    assert(keys_fit(ords, docs.len()));
    assert(scattered_keys(ords, named, max_doc) is Ok) by {
        if named is Some {
            let s = named->0;
            assert forall|x: nat| #[trigger] s.contains(x) implies x < max_doc by {
                let k = choose|k: int| 0 <= k < docs.len() && #[trigger] docs[k] == x;
                assert(docs[k] < max_doc);
            }
        }
    }
    let keys = scattered_keys(ords, named, max_doc)->Ok_0;
    assert forall|i: int| 0 <= i < docs.len() implies keys[#[trigger] docs[i] as int] == ords[i] by {
        lemma_docs_before(named, docs, max_doc, i);
        if named is Some {
            assert(named->0.contains(docs[i] as nat));
        }
        assert(0 <= ords[i] < num_terms);
    }
    assert forall|x: int|
        0 <= x < keys.len() && (named matches Some(s) ==> s.contains(x as nat)) implies 0 <= #[trigger] keys[x]
        < num_terms by {
        let s = doc_set(docs, docs.len());
        assert(s.contains(x as nat));
        let k = choose|k: int| 0 <= k < docs.len() && #[trigger] docs[k] == x as nat;
        assert(keys[docs[k] as int] == ords[k]);
        assert(0 <= ords[k] < num_terms);
    }
}

/// A written SORTED_SET entry reads back: each document gets the keys of its
/// terms, in order and each once, provided that each document in the list
/// has a term.
pub proof fn law_sorted_set_round_trip(
    dvm: Seq<u8>,
    p: nat,
    dvd: Seq<u8>,
    offset: nat,
    t: Seq<Seq<Seq<u8>>>,
    docs: Seq<u32>,
    max_doc: u32,
    number: i32,
    column: FieldIdModel,
    file: Seq<char>,
)
    requires
        docs_valid(docs, max_doc as nat),
        docs.len() == t.len(),
        docs.len() <= i32::MAX,
        forall|i: int| 0 <= i < t.len() ==> (#[trigger] t[i]).len() > 0,
        streams_decompress(set_dictionary(t), 0, no_table()),
        ({
            let ords = set_ordinals(t);
            let all = flat(ords, ords.len());
            &&& all.len() <= i32::MAX
            &&& offset + disi_bytes(docs, 9).len() + values_data(all).len() <= i64::MAX
            &&& dict_small(
                set_dictionary(t),
                offset + lists_data(ords, docs, max_doc as nat, set_multi(ords)).len(),
            )
        }),
        stands_at(dvm, p, sorted_set_meta(number, t, docs, max_doc as nat, offset)),
        stands_at(dvd, offset, sorted_set_data(t, docs, max_doc as nat)),
    ensures
        match parse_sorted_set(dvm, p + 5, dvd, column, max_doc, file) {
            Ok((FieldPlanModel::Sorted(m), q)) => q == p + sorted_set_meta(number, t, docs, max_doc as nat, offset).len()
                && m.ords.column == column && m.set && dictionary_read(m.terms, dvd, flat_terms(t, t.len()))
                && match sorted_column(m, dvd) {
                Ok(c) => set_column_holds(c, docs, t, max_doc as nat),
                Err(_) => false,
            },
            _ => false,
        },
{
    let d = set_dictionary(t);
    let ords = set_ordinals(t);
    let all = flat(ords, ords.len());
    let multi = set_multi(ords);
    let em = entry_meta(all, docs, max_doc as nat, offset);
    let ed = entry_data(all, docs, max_doc as nat);
    let ld = lists_data(ords, docs, max_doc as nat, multi);
    let lm = set_lists_meta(ords, docs, multi, offset + ed.len());
    law_dictionary_exists(flat_terms(t, t.len()));
    lemma_set_parts(dvm, p, dvd, offset, t, docs, max_doc, number);
    lemma_sorted_bytes(d);
    assert forall|i: int| 0 <= i < ords.len() implies (#[trigger] ords[i]).len() > 0 by {
        law_set_ordinals(t, i);
        assert(t[i].len() > 0);
    }
    assert forall|i: int, k: int| 0 <= i < ords.len() && 0 <= k < ords[i].len() implies 0 <= #[trigger] ords[i][k]
        < d.len() by {
        law_set_ordinals(t, i);
    }
    lemma_entry_reads(dvm, p + 6, dvd, offset, all, docs, max_doc, column, file);
    let p2 = p + 6 + em.len();
    lemma_set_addresses(dvm, p2, dvd, ords, docs, multi, offset + ed.len());
    law_dictionary_entry(dvm, p2 + lm.len(), d, offset + ld.len());
    law_dictionary_round_trip(d, dvd, offset + ld.len());
    lemma_set_assembled(dvm, p, p2, dvd, ords, docs, t, max_doc, column, file, offset);
}

/// Where the parts of a written SORTED_SET entry stand.
proof fn lemma_set_parts(
    dvm: Seq<u8>,
    p: nat,
    dvd: Seq<u8>,
    offset: nat,
    t: Seq<Seq<Seq<u8>>>,
    docs: Seq<u32>,
    max_doc: u32,
    number: i32,
)
    requires
        stands_at(dvm, p, sorted_set_meta(number, t, docs, max_doc as nat, offset)),
        stands_at(dvd, offset, sorted_set_data(t, docs, max_doc as nat)),
    ensures
        ({
            let d = set_dictionary(t);
            let ords = set_ordinals(t);
            let all = flat(ords, ords.len());
            let multi = set_multi(ords);
            let em = entry_meta(all, docs, max_doc as nat, offset);
            let ed = entry_data(all, docs, max_doc as nat);
            let ld = lists_data(ords, docs, max_doc as nat, multi);
            let lm = set_lists_meta(ords, docs, multi, offset + ed.len());
            let dm = dict_meta(d, offset + ld.len());
            &&& p + 5 < dvm.len()
            &&& dvm[(p + 5) as int] == (if multi {
                1u8
            } else {
                0u8
            })
            &&& stands_at(dvm, p + 6, em)
            &&& stands_at(dvm, p + 6 + em.len(), lm)
            &&& stands_at(dvm, p + 6 + em.len() + lm.len(), dm)
            &&& sorted_set_meta(number, t, docs, max_doc as nat, offset).len() == 6 + em.len() + lm.len() + dm.len()
            &&& stands_at(dvd, offset, ed)
            &&& multi ==> stands_at(
                dvd,
                offset + ed.len(),
                monotonic_data(list_addresses(list_lengths(ords), ords.len()), 16),
            )
            &&& stands_at(dvd, offset + ld.len(), dict_data(d))
            &&& multi ==> ld.len() == ed.len() + monotonic_data(
                list_addresses(list_lengths(ords), ords.len()),
                16,
            ).len()
        }),
{
    let d = set_dictionary(t);
    let ords = set_ordinals(t);
    let all = flat(ords, ords.len());
    let multi = set_multi(ords);
    let em = entry_meta(all, docs, max_doc as nat, offset);
    let ed = entry_data(all, docs, max_doc as nat);
    let ld = lists_data(ords, docs, max_doc as nat, multi);
    let head = set_head(number, multi);
    let flag = if multi {
        1u8
    } else {
        0u8
    };
    let lm = set_lists_meta(ords, docs, multi, offset + ed.len());
    lemma_le_bytes_len((number as u32) as nat, 4);
    assert(field_head(number, consts::TYPE_SORTED_SET).len() == 5);
    lemma_stands_split(dvm, p, (head + em) + lm, dict_meta(d, offset + ld.len()));
    lemma_stands_split(dvm, p, head + em, lm);
    lemma_stands_split(dvm, p, head, em);
    lemma_stands_split(dvm, p, field_head(number, consts::TYPE_SORTED_SET), seq![flag]);
    lemma_byte_at(dvm, p + 5, flag);
    lemma_stands_split(dvd, offset, ld, dict_data(d));
    let tail = if multi {
        monotonic_data(list_addresses(list_lengths(ords), ords.len()), 16)
    } else {
        Seq::<u8>::empty()
    };
    lemma_stands_split(dvd, offset, ed, tail);
}

/// The addresses of a written SORTED_SET entry read back.
proof fn lemma_set_addresses(
    dvm: Seq<u8>,
    p: nat,
    dvd: Seq<u8>,
    ords: Seq<Seq<i64>>,
    docs: Seq<u32>,
    multi: bool,
    at: nat,
)
    requires
        docs.len() == ords.len(),
        docs.len() <= i32::MAX,
        stands_at(dvm, p, set_lists_meta(ords, docs, multi, at)),
        multi ==> stands_at(dvd, at, monotonic_data(list_addresses(list_lengths(ords), ords.len()), 16)),
        multi ==> at + monotonic_data(list_addresses(list_lengths(ords), ords.len()), 16).len() <= i64::MAX,
    ensures
        match parse_set_addresses(
            dvm,
            p,
            if multi {
                1u8
            } else {
                0u8
            },
        ) {
            Ok((Some((a, n)), q)) => multi && n == docs.len() && q == p + set_lists_meta(ords, docs, multi, at).len()
                && addresses_of(a, dvd) == Ok::<Seq<i64>, ErrorKind>(
                list_addresses(list_lengths(ords), ords.len()),
            ),
            Ok((None, q)) => !multi && q == p + set_lists_meta(ords, docs, multi, at).len(),
            Err(_) => false,
        },
{
    if multi {
        let n = docs.len();
        let addresses = list_addresses(list_lengths(ords), ords.len());
        lemma_stands_split(dvm, p, le_i32(n as i32), addresses_meta(addresses, at));
        lemma_parse_i32_at(dvm, p, n as i32);
        lemma_list_addresses_len(list_lengths(ords), ords.len());
        lemma_addresses(dvm, p + 4, dvd, addresses, at);
    }
}

/// A SORTED_SET entry whose parts read back decodes to its column.
#[verifier::rlimit(50)]
#[verifier::spinoff_prover]
proof fn lemma_set_assembled(
    dvm: Seq<u8>,
    p: nat,
    p2: nat,
    dvd: Seq<u8>,
    ords: Seq<Seq<i64>>,
    docs: Seq<u32>,
    t: Seq<Seq<Seq<u8>>>,
    max_doc: u32,
    column: FieldIdModel,
    file: Seq<char>,
    offset: nat,
)
    requires
        docs_valid(docs, max_doc as nat),
        docs.len() == t.len(),
        ords == set_ordinals(t),
        flat(ords, ords.len()).len() <= i32::MAX,
        set_dictionary(t).len() <= 0x8000_0000,
        forall|i: int| 0 <= i < ords.len() ==> (#[trigger] ords[i]).len() > 0,
        forall|i: int, k: int|
            0 <= i < ords.len() && 0 <= k < ords[i].len() ==> 0 <= #[trigger] ords[i][k] < set_dictionary(t).len(),
        p + 5 < dvm.len(),
        dvm[(p + 5) as int] == (if set_multi(ords) {
            1u8
        } else {
            0u8
        }),
        entry_reads(dvm, p + 6, p2, dvd, column, max_doc, file, flat(ords, ords.len()), docs),
        ({
            let at = offset + entry_data(flat(ords, ords.len()), docs, max_doc as nat).len();
            let lm = set_lists_meta(ords, docs, set_multi(ords), at);
            let ld = lists_data(ords, docs, max_doc as nat, set_multi(ords));
            let w = written_terms(set_dictionary(t), offset + ld.len());
            let dm = dict_meta(set_dictionary(t), offset + ld.len());
            &&& match parse_set_addresses(dvm, p2, dvm[(p + 5) as int]) {
                Ok((Some((a, n)), q)) => set_multi(ords) && n == docs.len() && q == p2 + lm.len() && addresses_of(a, dvd)
                    == Ok::<Seq<i64>, ErrorKind>(list_addresses(list_lengths(ords), ords.len())),
                Ok((None, q)) => !set_multi(ords) && q == p2 + lm.len(),
                Err(_) => false,
            }
            &&& parse_terms_dict(dvm, p2 + lm.len()) == Ok::<(TermsPlanModel, nat), ErrorKind>(
                (w, p2 + lm.len() + dm.len()),
            )
            &&& materialized(w, dvd) == Ok::<Seq<Seq<u8>>, ErrorKind>(set_dictionary(t))
        }),
    ensures
        ({
            let at = offset + entry_data(flat(ords, ords.len()), docs, max_doc as nat).len();
            let lm = set_lists_meta(ords, docs, set_multi(ords), at);
            let ld = lists_data(ords, docs, max_doc as nat, set_multi(ords));
            let dm = dict_meta(set_dictionary(t), offset + ld.len());
            match parse_sorted_set(dvm, p + 5, dvd, column, max_doc, file) {
                Ok((FieldPlanModel::Sorted(m), q)) => q == p2 + lm.len() + dm.len() && m.ords.column == column && m.set
                    && m.terms == written_terms(set_dictionary(t), offset + ld.len()) && match sorted_column(m, dvd) {
                    Ok(c) => set_column_holds(c, docs, t, max_doc as nat),
                    Err(_) => false,
                },
                _ => false,
            }
        }),
{
    let (e, q0) = parse_numeric_entry(dvm, p + 6)->Ok_0;
    let plan = entry_plan(e, dvd, column, max_doc, file)->Ok_0;
    let named = coverage_docs(with_doc_count(plan, docs.len() as u64).coverage, dvd)->Ok_0;
    lemma_set_column(ords, named, docs, t, max_doc as nat);
}

proof fn lemma_list_addresses_len(lens: Seq<nat>, n: nat)
    ensures
        list_addresses(lens, n).len() == n + 1,
    decreases n,
{
    if n > 0 {
        lemma_list_addresses_len(lens, (n - 1) as nat);
    }
}

/// A binary column gives document `docs[i]` the bytes `values[i]`.
pub open spec fn binary_column_holds(c: BinaryColumnModel, docs: Seq<u32>, values: Seq<Seq<u8>>, max_doc: nat) -> bool {
    &&& c.offsets.len() == max_doc + 1
    &&& docs_named(c.docs, docs, max_doc)
    &&& forall|i: int|
        0 <= i < docs.len() ==> c.bytes.subrange(c.offsets[#[trigger] docs[i] as int] as int, c.offsets[docs[i] + 1] as int)
            == values[i]
}

proof fn lemma_joined_part(values: Seq<Seq<u8>>, n: nat, i: int)
    requires
        n <= values.len(),
        0 <= i < n,
    ensures
        sum_of(lengths(values), i as nat) <= sum_of(lengths(values), (i + 1) as nat) <= joined(values, n).len(),
        joined(values, n).subrange(
            sum_of(lengths(values), i as nat) as int,
            sum_of(lengths(values), (i + 1) as nat) as int,
        ) == values[i],
    decreases n,
{
    let l = lengths(values);
    lemma_joined_len(values, n);
    lemma_joined_len(values, (n - 1) as nat);
    lemma_sum_mono(l, i as nat + 1, n);
    let f = joined(values, n);
    let g = joined(values, (n - 1) as nat);
    let a = sum_of(l, i as nat) as int;
    let b = sum_of(l, (i + 1) as nat) as int;
    if i < n - 1 {
        lemma_joined_part(values, (n - 1) as nat, i);
        assert(f.subrange(a, b) =~= g.subrange(a, b));
    } else {
        assert(f.subrange(a, b) =~= values[i]);
    }
}

/// The recorded lengths bound all lengths.
proof fn lemma_recorded(values: Seq<Seq<u8>>, n: nat)
    requires
        n <= values.len(),
        forall|i: int| 0 <= i < values.len() ==> (#[trigger] values[i]).len() <= i32::MAX,
    ensures
        0 <= max_term_len(values, n),
        0 <= least_len(values, n),
        forall|i: int| 0 <= i < n ==> least_len(values, n) <= (#[trigger] values[i]).len() <= max_term_len(values, n),
    decreases n,
{
    if n > 0 {
        lemma_recorded(values, (n - 1) as nat);
        assert(values[n - 1].len() <= i32::MAX);
    }
}

/// Lists of one length start at its multiples.
proof fn lemma_equal_lengths(lens: Seq<nat>, n: nat, len: nat)
    requires
        n <= lens.len(),
        forall|i: int| 0 <= i < lens.len() ==> #[trigger] lens[i] == len,
    ensures
        sum_of(lens, n) == n * len,
    decreases n,
{
    if n > 0 {
        lemma_equal_lengths(lens, (n - 1) as nat, len);
        assert(n * len == (n - 1) * len + len) by (nonlinear_arith)
            requires
                n > 0,
        ;
    } else {
        assert(0 * len == 0) by (nonlinear_arith);
    }
}

/// Where the values of a written BINARY entry start.
proof fn lemma_value_offsets(m: BinaryModel, dvd: Seq<u8>, values: Seq<Seq<u8>>)
    requires
        m.num_docs_with_field == values.len(),
        forall|i: int| 0 <= i < values.len() ==> (#[trigger] values[i]).len() <= i32::MAX,
        sum_of(lengths(values), values.len()) <= i32::MAX,
        m.min_length == recorded_least(values),
        needs_addresses(values) ==> (m.addresses matches Some(a) && addresses_of(a, dvd) == Ok::<Seq<i64>, ErrorKind>(
            binary_addresses(values),
        )),
        !needs_addresses(values) ==> m.addresses is None,
    ensures
        value_offsets(m, dvd) == Ok::<Seq<i64>, ErrorKind>(binary_addresses(values)),
{
    let l = lengths(values);
    let n = values.len();
    lemma_list_addresses(l, n);
    if !needs_addresses(values) {
        lemma_recorded(values, n);
        let len = recorded_least(values) as nat;
        assert forall|i: int| 0 <= i < l.len() implies #[trigger] l[i] == len by {
            assert(least_len(values, n) <= values[i].len() <= max_term_len(values, n));
        }
        let fixed = Seq::new(n + 1, |i: int| (i * m.min_length) as i64);
        assert forall|i: int| 0 <= i <= n implies fixed[i] == binary_addresses(values)[i] by {
            lemma_equal_lengths(l, i as nat, len);
            lemma_sum_mono(l, i as nat, n);
        }
        assert(fixed =~= binary_addresses(values));
    }
}

/// A written BINARY entry reads back: each document gets its bytes.
pub proof fn law_binary_round_trip(
    dvm: Seq<u8>,
    p: nat,
    dvd: Seq<u8>,
    offset: nat,
    values: Seq<Seq<u8>>,
    docs: Seq<u32>,
    max_doc: u32,
    number: i32,
    column: FieldIdModel,
)
    requires
        docs_valid(docs, max_doc as nat),
        docs.len() == values.len(),
        docs.len() <= i32::MAX,
        joined(values, values.len()).len() <= i32::MAX,
        offset + joined(values, values.len()).len() + disi_bytes(docs, 9).len() <= i64::MAX,
        offset + binary_data(values, docs, max_doc as nat).len() <= i64::MAX,
        stands_at(dvm, p, binary_meta(number, values, docs, max_doc as nat, offset)),
        stands_at(dvd, offset, binary_data(values, docs, max_doc as nat)),
    ensures
        match parse_binary_entry(dvm, p + 5, column, max_doc) {
            Ok((m, q)) => q == p + binary_meta(number, values, docs, max_doc as nat, offset).len() && m.column == column
                && match binary_column(m, dvd) {
                Ok(c) => binary_column_holds(c, docs, values, max_doc as nat),
                Err(_) => false,
            },
            Err(_) => false,
        },
{
    let n = docs.len();
    let all = joined(values, values.len());
    let pd = presence_data(n, docs, max_doc as nat);
    lemma_joined_len(values, values.len());
    assert forall|i: int| 0 <= i < values.len() implies (#[trigger] values[i]).len() <= i32::MAX by {
        lemma_joined_part(values, values.len(), i);
    }
    lemma_recorded(values, values.len());
    if values.len() > 0 {
        assert(least_len(values, values.len()) <= values[0].len() <= max_term_len(values, values.len()));
    }
    lemma_binary_parts(dvm, p, dvd, offset, values, docs, max_doc, number);
    lemma_cast_values();
    lemma_covered(docs, max_doc, offset + all.len(), dvd);
    let q = p + 5;
    let addresses = binary_addresses(values);
    if needs_addresses(values) {
        lemma_list_addresses_len(lengths(values), values.len());
        lemma_addresses(dvm, q + 47, dvd, addresses, offset + all.len() + pd.len());
    }
    let (m, end) = parse_binary_entry(dvm, q, column, max_doc)->Ok_0;
    lemma_value_offsets(m, dvd, values);
    lemma_list_addresses_len(lengths(values), values.len());
    let named = coverage_docs(m.coverage, dvd)->Ok_0;
    lemma_list_offsets(lengths(values), named, docs, max_doc as nat, true);
    let c = binary_column(m, dvd)->Ok_0;
    assert forall|i: int| 0 <= i < docs.len() implies c.bytes.subrange(
        c.offsets[#[trigger] docs[i] as int] as int,
        c.offsets[docs[i] + 1] as int,
    ) == values[i] by {
        lemma_joined_part(values, values.len(), i);
    }
}

/// Where the parts of a written BINARY entry stand, and what the fixed part
/// says.
proof fn lemma_binary_parts(
    dvm: Seq<u8>,
    p: nat,
    dvd: Seq<u8>,
    offset: nat,
    values: Seq<Seq<u8>>,
    docs: Seq<u32>,
    max_doc: u32,
    number: i32,
)
    requires
        docs.len() <= i32::MAX,
        offset + joined(values, values.len()).len() + disi_bytes(docs, 9).len() <= i64::MAX,
        stands_at(dvm, p, binary_meta(number, values, docs, max_doc as nat, offset)),
        stands_at(dvd, offset, binary_data(values, docs, max_doc as nat)),
    ensures
        ({
            let n = docs.len();
            let all = joined(values, values.len());
            let pd = presence_data(n, docs, max_doc as nat);
            let q = p + 5;
            let at = offset + all.len() + pd.len();
            &&& q + 47 <= dvm.len()
            &&& i64_at(dvm, q) == offset
            &&& i64_at(dvm, q + 8) == all.len()
            &&& parse_presence(dvm, q + 16) == Ok::<(PresenceModel, nat), ErrorKind>(
                (written_presence(n, docs, max_doc as nat, offset + all.len()), q + 35),
            )
            &&& i32_at(dvm, q + 35) == n
            &&& i32_at(dvm, q + 39) == recorded_least(values)
            &&& i32_at(dvm, q + 43) == recorded_greatest(values)
            &&& stands_at(dvd, offset, all)
            &&& stands_at(dvd, offset + all.len(), pd)
            &&& needs_addresses(values) ==> stands_at(dvm, q + 47, addresses_meta(binary_addresses(values), at))
                && stands_at(dvd, at, monotonic_data(binary_addresses(values), 16)) && binary_meta(
                number,
                values,
                docs,
                max_doc as nat,
                offset,
            ).len() == 52 + addresses_meta(binary_addresses(values), at).len()
            &&& !needs_addresses(values) ==> binary_meta(number, values, docs, max_doc as nat, offset).len() == 52
        }),
{
    let n = docs.len();
    let all = joined(values, values.len());
    let pd = presence_data(n, docs, max_doc as nat);
    let pm = presence_meta(n, docs, max_doc as nat, offset + all.len());
    let count = docs.len() as u32 as i32;
    lemma_cast_values();
    assert(count == n);
    let s5 = le_i32(recorded_greatest(values));
    let s4 = le_i32(recorded_least(values)) + s5;
    let s3 = le_i32(count) + s4;
    let s2 = pm + s3;
    let s1 = le_bytes(all.len(), 8) + s2;
    let s0 = le_bytes(offset, 8) + s1;
    let head = field_head(number, consts::TYPE_BINARY);
    lemma_le_bytes_len((number as u32) as nat, 4);
    assert(head.len() == 5);
    let at = offset + all.len() + pd.len();
    let am = if needs_addresses(values) {
        addresses_meta(binary_addresses(values), at)
    } else {
        Seq::<u8>::empty()
    };
    lemma_stands_split(dvm, p, head + s0, am);
    lemma_stands_split(dvm, p, head, s0);
    let q = p + 5;
    lemma_stands_split(dvm, q, le_bytes(offset, 8), s1);
    lemma_len_at(dvm, q, offset);
    lemma_stands_split(dvm, q + 8, le_bytes(all.len(), 8), s2);
    lemma_len_at(dvm, q + 8, all.len());
    lemma_stands_split(dvm, q + 16, pm, s3);
    lemma_presence(dvm, q + 16, n, docs, max_doc as nat, offset + all.len());
    lemma_stands_split(dvm, q + 35, le_i32(count), s4);
    lemma_i32_at(dvm, q + 35, count);
    lemma_stands_split(dvm, q + 39, le_i32(recorded_least(values)), s5);
    lemma_i32_at(dvm, q + 39, recorded_least(values));
    lemma_i32_at(dvm, q + 43, recorded_greatest(values));
    let tail = if needs_addresses(values) {
        monotonic_data(binary_addresses(values), 16)
    } else {
        Seq::<u8>::empty()
    };
    lemma_stands_split(dvd, offset, all + pd, tail);
    lemma_stands_split(dvd, offset, all, pd);
}

} // verus!
