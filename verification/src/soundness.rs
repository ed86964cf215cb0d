//! What decodes is sound: columns have a slot for each document, lists and
//! keys lie within what they point into, and damaged or foreign files are
//! refused rather than read.

use vstd::prelude::*;
use crate::bitset::{law_rank_counts, members_below, rank};
use crate::column::{
    binary_column, coverage_docs, list_fits, list_offsets, list_start, multi_numeric_column, num_docs_of, numeric_column,
    sorted_column, stream_values, vector_column,
};
use crate::cursor::{footer_valid, parse_index_header, stands_at};
use crate::fnm::{parse_field, parse_fnm};
use crate::liv::{law_base36_spells, live_docs_words, spelled36};
use crate::plan::PlanModel;
use crate::read::{doc_values_plans, BinaryModel, FieldModel, MultiNumericModel, SortedModel};
use crate::schema::DataType;
use crate::terms::{materialized, TermsPlanModel};

verus! {

/// A numeric column that decodes has a slot for each document. Where all
/// have a value, the slots are the stream; where some have, the stream has
/// one value for each of them, and the slot of a document holds the value
/// whose place is the number of documents with a value before it.
pub proof fn law_numeric_sound(plan: PlanModel, dvd: Seq<u8>, d: nat)
    requires
        numeric_column(plan, dvd) is Ok,
        d < num_docs_of(plan.coverage),
    ensures
        ({
            let m = numeric_column(plan, dvd)->Ok_0;
            let v = stream_values(plan, dvd)->Ok_0;
            let n = num_docs_of(plan.coverage) as nat;
            &&& m.values.len() == n
            &&& v.len() == plan.num_values
            &&& m.float <==> plan.arrow_type == DataType::Float64
            &&& plan.coverage is Dense ==> m.docs is None && m.values == v
            &&& plan.coverage is Empty ==> m.docs == Some(Set::<nat>::empty())
            &&& plan.coverage is Sparse ==> (m.docs matches Some(s) && members_below(s, n).len() == v.len() && (
            s.contains(d) ==> members_below(s, d).len() < v.len() && m.values[d as int] == v[members_below(
                s,
                d,
            ).len() as int]) && forall|x: nat| #[trigger] s.contains(x) ==> x < n)
        }),
{
    let m = numeric_column(plan, dvd)->Ok_0;
    let n = num_docs_of(plan.coverage) as nat;
    if plan.coverage is Sparse {
        let s = m.docs->0;
        law_rank_counts(s, n);
        law_rank_counts(s, d);
        if s.contains(d) {
            lemma_rank_below(s, d, n);
        }
    }
}

/// A member's rank is below that of everything behind it.
proof fn lemma_rank_below(s: Set<nat>, d: nat, n: nat)
    requires
        s.contains(d),
        d < n,
    ensures
        rank(s, d) < rank(s, n),
    decreases n,
{
    if d + 1 < n {
        lemma_rank_below(s, d, (n - 1) as nat);
    }
}

/// Offsets of lists: one for each document and one behind, from zero on,
/// never falling.
proof fn lemma_offsets(num_docs: nat, docs: Option<Set<nat>>, addresses: Seq<i64>, every: bool, d: nat)
    requires
        list_offsets(num_docs, docs, addresses, every) is Ok,
        d < num_docs,
    ensures
        ({
            let o = list_offsets(num_docs, docs, addresses, every)->Ok_0;
            &&& o.len() == num_docs + 1
            &&& o[0] == 0
            &&& 0 <= o[d as int] <= o[d as int + 1] <= o.last()
        }),
{
    let o = list_offsets(num_docs, docs, addresses, every)->Ok_0;
    lemma_offsets_rise(num_docs, docs, addresses, every, 0, d);
    lemma_offsets_rise(num_docs, docs, addresses, every, d, d + 1);
    lemma_offsets_rise(num_docs, docs, addresses, every, d + 1, num_docs);
}

proof fn lemma_offsets_rise(num_docs: nat, docs: Option<Set<nat>>, addresses: Seq<i64>, every: bool, a: nat, b: nat)
    requires
        list_offsets(num_docs, docs, addresses, every) is Ok,
        a <= b <= num_docs,
    ensures
        ({
            let o = list_offsets(num_docs, docs, addresses, every)->Ok_0;
            &&& o[0] == 0
            &&& 0 <= o[a as int] <= o[b as int]
            &&& o[b as int] == list_start(addresses, docs, b)
            &&& list_start(addresses, docs, b) <= i32::MAX
        }),
    decreases b,
{
    if b > 0 {
        assert(list_fits(addresses, docs, (b - 1) as nat, every));
        if a < b {
            lemma_offsets_rise(num_docs, docs, addresses, every, a, (b - 1) as nat);
        } else {
            lemma_offsets_rise(num_docs, docs, addresses, every, (a - 1) as nat, (b - 1) as nat);
        }
    }
}

/// The lists of a column that decodes lie within its values: that of each
/// document starts where the one before ends, the first at zero.
pub proof fn law_lists_sound(plan: MultiNumericModel, dvd: Seq<u8>, d: nat)
    requires
        multi_numeric_column(plan, dvd) is Ok,
        d < num_docs_of(plan.values.coverage),
    ensures
        ({
            let m = multi_numeric_column(plan, dvd)->Ok_0;
            &&& m.offsets.len() == num_docs_of(plan.values.coverage) + 1
            &&& m.offsets[0] == 0
            &&& 0 <= m.offsets[d as int] <= m.offsets[d as int + 1] <= m.values.len()
            &&& m.values.len() == plan.values.num_values
        }),
{
    let addresses = crate::read::addresses_of(plan.addresses, dvd)->Ok_0;
    let docs = coverage_docs(plan.values.coverage, dvd)->Ok_0;
    lemma_offsets(num_docs_of(plan.values.coverage) as nat, docs, addresses, false, d);
}

/// The byte strings of a column that decodes lie within its bytes, which are
/// those that the plan points to.
pub proof fn law_byte_strings_sound(plan: BinaryModel, dvd: Seq<u8>, d: nat)
    requires
        binary_column(plan, dvd) is Ok,
        d < num_docs_of(plan.coverage),
    ensures
        ({
            let m = binary_column(plan, dvd)->Ok_0;
            &&& m.offsets.len() == num_docs_of(plan.coverage) + 1
            &&& m.offsets[0] == 0
            &&& 0 <= m.offsets[d as int] <= m.offsets[d as int + 1] <= m.bytes.len()
            &&& stands_at(dvd, plan.data_offset as nat, m.bytes)
            &&& m.bytes.len() == plan.data_len
        }),
{
    let starts = crate::column::value_offsets(plan, dvd)->Ok_0;
    let docs = coverage_docs(plan.coverage, dvd)->Ok_0;
    lemma_offsets(num_docs_of(plan.coverage) as nat, docs, starts, true, d);
}

/// Every key of a column of terms that decodes names a term: that of each
/// document with a value, or each key of its lists, which lie within the
/// keys.
pub proof fn law_keys_sound(plan: SortedModel, dvd: Seq<u8>, d: nat, k: int)
    requires
        sorted_column(plan, dvd) is Ok,
        d < num_docs_of(plan.ords.coverage),
    ensures
        ({
            let m = sorted_column(plan, dvd)->Ok_0;
            let n = num_docs_of(plan.ords.coverage) as nat;
            &&& m.terms.len() == plan.terms.num_terms
            &&& plan.addresses is None ==> m.offsets is None && m.keys.len() == n && ((m.docs is None || m.docs->0.contains(
                d,
            )) ==> 0 <= m.keys[d as int] < m.terms.len())
            &&& plan.addresses is Some ==> (m.offsets matches Some(o) && o.len() == n + 1 && o[0] == 0 && 0 <= o[d as int]
                <= o[d as int + 1] <= m.keys.len() && (0 <= k < m.keys.len() ==> 0 <= m.keys[k] < m.terms.len()))
        }),
{
    let n = num_docs_of(plan.ords.coverage) as nat;
    let docs = coverage_docs(plan.ords.coverage, dvd)->Ok_0;
    law_terms_sound(plan.terms, dvd);
    if let Some(a) = plan.addresses {
        let addresses = crate::read::addresses_of(a, dvd)->Ok_0;
        lemma_offsets(n, docs, addresses, false, d);
    }
}

/// A dictionary that decodes has as many terms as its plan says.
pub proof fn law_terms_sound(plan: TermsPlanModel, dvd: Seq<u8>)
    requires
        materialized(plan, dvd) is Ok,
    ensures
        materialized(plan, dvd)->Ok_0.len() == plan.num_terms,
        plan.terms_offset + plan.terms_len <= dvd.len(),
{
}

/// A vector column that decodes has the room of a vector for each document,
/// by the dimension and the item of its type.
pub proof fn law_vectors_sound(plan: PlanModel, data: Seq<u8>)
    requires
        vector_column(plan, data) is Ok,
    ensures
        ({
            let m = vector_column(plan, data)->Ok_0;
            &&& plan.arrow_type matches DataType::FixedSizeList(t, n)
            &&& n == m.dimension
            &&& (*t == DataType::Float32 && m.width == 4 || *t == DataType::Int8 && m.width == 1)
            &&& m.num_docs == num_docs_of(plan.coverage)
            &&& m.bytes.len() == m.num_docs * (m.dimension * m.width)
            &&& m.docs is None ==> plan.num_values == m.num_docs
        }),
{
}

/// Metadata and field infos whose footer is not valid are never read.
pub proof fn law_damage_refused(
    b: Seq<u8>,
    dvd: Seq<u8>,
    fields: Seq<FieldModel>,
    max_doc: u32,
    file: Seq<char>,
)
    requires
        !footer_valid(b),
    ensures
        doc_values_plans(b, dvd, fields, max_doc, file) is Err,
        parse_fnm(b) is Err,
{
}

/// A field record that is accepted is within the format: a number that is
/// not negative, and known options and types.
pub proof fn law_records_sound(b: Seq<u8>, p: nat, version: i32)
    requires
        parse_field(b, p, version) is Ok,
    ensures
        ({
            let f = parse_field(b, p, version)->Ok_0.0;
            f.number <= i32::MAX && f.index_options <= 4 && f.doc_values_type <= 5
        }),
{
}

/// A live-docs file that is accepted is that of the segment and generation,
/// undamaged, and deletes as many documents as the commit says.
pub proof fn law_live_docs_exact(b: Seq<u8>, max_doc: u32, segment_id: Seq<u8>, del_gen: nat, del_count: i32, live: Set<nat>)
    requires
        live_docs_words(b, max_doc, segment_id, del_gen, del_count) is Ok,
        max_doc <= i32::MAX,
        crate::bitset::stands_for(live_docs_words(b, max_doc, segment_id, del_gen, del_count)->Ok_0, live),
    ensures
        footer_valid(b),
        parse_index_header(b, "Lucene90LiveDocs"@, 0, 0) matches Ok(h) && h.segment_id == segment_id && spelled36(h.suffix)
            == del_gen,
        max_doc - members_below(live, max_doc as nat).len() == del_count,
        64 * live_docs_words(b, max_doc, segment_id, del_gen, del_count)->Ok_0.len() >= max_doc,
{
    let w = live_docs_words(b, max_doc, segment_id, del_gen, del_count)->Ok_0;
    law_base36_spells(del_gen);
    crate::bitset::law_bit_count(w, live, max_doc as nat);
    crate::bitset::lemma_bit_count_bound(w, max_doc as nat);
    crate::direct::lemma_ceil_div(max_doc as nat, 64);
}

} // verus!
