//! What was written reads back as it was: laws that tie the encoders to the
//! planner and the executors.

use vstd::prelude::*;
use vstd::arithmetic::div_mod::{lemma_fundamental_div_mod_converse, lemma_small_mod};
use vstd::arithmetic::power2::pow2;
use vstd::utf8::encode_utf8;
use crate::bytes::{le_bytes, le_i16, le_i32, le_i64, lemma_cast_values, lemma_signed_casts};
use crate::column::{
    block_values, coverage_docs, finish_value, finished, matches_docs, numeric_column, scattered,
    stream_from, stream_values, Epilogue, NumericColumnModel,
};
use crate::consts;
use crate::cursor::{
    i16_at, i32_at, i64_at, index_header_bytes, law_footer_round_trip, law_header_round_trip,
    lemma_parse_i16_at, lemma_parse_i32_at, lemma_parse_i64_at, lemma_stands_split, stands_at,
    with_footer, SEGMENT_ID_LENGTH,
};
use crate::direct::{law_bits_required, law_pack_unpack, packed, supported};
use crate::disi::{
    disi_bytes, doc_set, jump_table, law_disi_round_trip, lemma_rank_of, power_byte, strictly_increasing,
};
use crate::error::ErrorKind;
use crate::ieee::magnitude;
use crate::monotonic::minimum;
use crate::plan::{Coverage, FieldIdModel, PlanModel};
use crate::file::lemma_codec_names;
use crate::read::{
    coverage_of, doc_values_plans, entry_blocks, entry_plan, find_field, no_plans, numbers_at, parse_entries,
    parse_field_plan, parse_numeric_entry, parse_presence, plans_with, single_block, DvKind, EntryModel,
    FieldModel, FieldPlanModel, PlansModel, PresenceModel,
};
use crate::stats::{
    common_step, distinct_sorted, in_half_range, lemma_min_max, lemma_step_divides, lemma_step_positive, maximum, stats_of,
};
use crate::write::{
    docs_acceptable, docs_with_value, encoded_value, encoded_values, entry_data, entry_meta,
    field_head, layout_for, le_i64_all, lemma_docs_len, lemma_index_of, lemma_stats_facts,
    numeric_meta, presence_data, presence_meta, quotient, table_meta, uses_table, values_data,
    values_meta, Layout,
};

verus! {

/// Dividing by one changes nothing.
proof fn lemma_quotient_one(a: i64)
    ensures
        quotient(a, 1) == a,
{
    lemma_cast_values();
    assert(magnitude(a) / 1 == magnitude(a));
}

/// A distance that is a whole number of steps.
proof fn lemma_quotient_steps(n: int, g: int, k: int)
    requires
        0 <= n <= i64::MAX,
        0 < g <= i64::MAX,
        n == g * k,
    ensures
        quotient(n as i64, g as i64) == k,
        0 <= k <= n,
{
    lemma_cast_values();
    assert(0 <= k <= n) by (nonlinear_arith)
        requires
            n == g * k,
            0 <= n,
            0 < g,
    ;
    assert(n == k * g) by (nonlinear_arith)
        requires
            n == g * k,
    ;
    lemma_fundamental_div_mod_converse(n, g, k, 0);
}

/// Where all values share a step above one, each lies a whole number of
/// steps above the least.
proof fn lemma_steps_above_min(values: Seq<i64>, i: int) -> (k: int)
    requires
        values.len() > 0,
        0 <= i < values.len(),
        common_step(values) > 1,
    ensures
        values[i] - minimum(values) == common_step(values) * k,
        0 <= values[i] - minimum(values) <= i64::MAX,
{
    lemma_min_max(values);
    let g = common_step(values) as int;
    let m = choose|m: int| 0 <= m < values.len() && values[m] == minimum(values);
    assert(in_half_range(values[i]) && in_half_range(values[m]) && in_half_range(values[0]));
    lemma_step_divides(values, values.len(), i);
    lemma_step_divides(values, values.len(), m);
    let a = choose|a: int| magnitude(values[i].wrapping_sub(values[0])) as int == #[trigger] (common_step(values) * a);
    let b = choose|b: int| magnitude(values[m].wrapping_sub(values[0])) as int == #[trigger] (common_step(values) * b);
    let sa = if values[i] >= values[0] { a } else { -a };
    let sb = if values[m] >= values[0] { b } else { -b };
    assert(g * -a == -(g * a) && g * -b == -(g * b)) by (nonlinear_arith);
    assert(values[i] - values[0] == g * sa);
    assert(values[m] - values[0] == g * sb);
    assert(g * sa - g * sb == g * (sa - sb)) by (nonlinear_arith);
    sa - sb
}

/// What turns the packed numbers of a layout back into values.
pub open spec fn epilogue_of(l: Layout) -> Epilogue {
    match l.table {
        Some(t) => Epilogue::Gather { table: t },
        None => Epilogue::Linear { base: l.base, gcd: l.gcd },
    }
}

/// Each packed number fits its width and stands for its value.
proof fn lemma_encoded(values: Seq<i64>, i: int)
    requires
        values.len() > 0,
        0 <= i < values.len(),
        layout_for(values).bits > 0,
    ensures
        ({
            let l = layout_for(values);
            let x = encoded_value(values[i], l.base, l.gcd, l.table);
            &&& (x as u64) < pow2(l.bits as nat)
            &&& crate::column::finishable(epilogue_of(l), x as u64)
            &&& finish_value(epilogue_of(l), x as u64) == values[i]
            &&& supported(l.bits)
        }),
{
    let st = stats_of(values);
    let l = layout_for(values);
    let v = values[i];
    lemma_cast_values();
    lemma_signed_casts();
    lemma_stats_facts(values);
    lemma_min_max(values);
    lemma_step_positive(values);
    law_bits_required(quotient(st.max.wrapping_sub(st.min), st.gcd) as u64);
    assert(st.min <= v <= st.max);
    if uses_table(st) {
        let t = st.table->0;
        law_bits_required((t.len() - 1) as u64);
        assert(t.contains(v));
        let k = choose|k: int| 0 <= k < t.len() && t[k] == v;
        lemma_index_of(t, v, k);
        assert((k as i64) as u64 == k);
    } else {
        let x = encoded_value(v, l.base, l.gcd, l.table);
        let g = common_step(values);
        if g == 1 {
            lemma_quotient_one(v.wrapping_sub(l.base));
            lemma_quotient_one(st.max.wrapping_sub(st.min));
            law_bits_required(st.max as u64);
            let y = x as u64 as i64;
            assert(y == x);
            assert(1 * (y as int) == y);
            lemma_crop(y);
        } else {
            let k = lemma_steps_above_min(values, i);
            let j = choose|j: int| 0 <= j < values.len() && values[j] == st.max;
            let h = lemma_steps_above_min(values, j);
            lemma_quotient_steps(v - st.min, g as int, k);
            lemma_quotient_steps(st.max - st.min, g as int, h);
            assert(k <= h) by (nonlinear_arith)
                requires
                    g * k <= g * h,
                    g > 0,
            ;
            assert(x == k);
            lemma_crop((v - st.min) as i64);
        }
    }
}

/// A number that fits is not cropped.
pub proof fn lemma_crop(y: i64)
    ensures
        vstd::wrapping::i64_specs::signed_crop(y as int) == y,
{
    if y < 0 {
        lemma_fundamental_div_mod_converse(
            y as int,
            0x1_0000_0000_0000_0000,
            -1,
            y + 0x1_0000_0000_0000_0000,
        );
    } else {
        lemma_small_mod(y as nat, 0x1_0000_0000_0000_0000);
    }
}

/// The entry that stands for some values and a presence record.
pub open spec fn written_entry(values: Seq<i64>, presence: PresenceModel, offset: nat) -> EntryModel {
    let l = layout_for(values);
    EntryModel {
        presence,
        num_values: values.len() as i64,
        table: l.table,
        bits_per_value: l.bits,
        min: l.base,
        gcd: l.gcd,
        values_offset: offset as i64,
        values_length: values_data(values).len() as i64,
    }
}

/// The packed numbers of a written stream decode to its values.
pub proof fn lemma_stream(values: Seq<i64>, presence: PresenceModel, offset: nat, dvd: Seq<u8>)
    requires
        values.len() <= i64::MAX,
        offset + values_data(values).len() <= i64::MAX,
        stands_at(dvd, offset, values_data(values)),
    ensures
        ({
            let e = written_entry(values, presence, offset);
            &&& entry_blocks(e, dvd) matches Ok(blocks) && stream_from(blocks, 0, dvd) == Ok::<Seq<i64>, ErrorKind>(
                values,
            )
        }),
{
    let l = layout_for(values);
    let e = written_entry(values, presence, offset);
    lemma_cast_values();
    reveal_with_fuel(stream_from, 2);
    if values.len() > 0 {
        lemma_stats_facts(values);
        let blocks = entry_blocks(e, dvd)->Ok_0;
        if l.bits == 0 {
            lemma_min_max(values);
            let out = Seq::new(values.len(), |i: int| e.min);
            assert forall|i: int| 0 <= i < values.len() implies out[i] == values[i] by {
                assert(minimum(values) <= values[i] <= maximum(values));
                if stats_of(values).min < stats_of(values).max {
                    law_bits_required(quotient(stats_of(values).max.wrapping_sub(stats_of(values).min), stats_of(values).gcd) as u64);
                    if uses_table(stats_of(values)) {
                        law_bits_required((stats_of(values).table->0.len() - 1) as u64);
                    }
                }
            }
            assert(out =~= values);
            assert(out + Seq::<i64>::empty() =~= values);
        } else {
            let enc = encoded_values(values, l.base, l.gcd, l.table);
            let ep = epilogue_of(l);
            assert forall|i: int| 0 <= i < enc.len() implies (#[trigger] enc[i] as u64) < pow2(l.bits as nat) by {
                lemma_encoded(values, i);
            }
            lemma_encoded(values, 0);
            law_pack_unpack(enc, l.bits, Seq::empty());
            assert(packed(enc, l.bits) + Seq::<u8>::empty() =~= packed(enc, l.bits));
            let xs = Seq::new(enc.len(), |i: int| enc[i] as u64);
            assert forall|i: int| 0 <= i < xs.len() implies crate::column::finishable(ep, #[trigger] xs[i]) by {
                lemma_encoded(values, i);
            }
            let out = Seq::new(xs.len(), |i: int| finish_value(ep, xs[i]));
            assert forall|i: int| 0 <= i < values.len() implies out[i] == values[i] by {
                lemma_encoded(values, i);
            }
            assert(out =~= values);
            assert(finished(ep, Ok(xs)) == Ok::<Seq<i64>, ErrorKind>(values));
            assert(l.bits != consts::MULTI_BLOCK_BPV);
            assert(blocks =~= seq![single_block(e)]);
            assert(block_values(single_block(e), dvd) == Ok::<Seq<i64>, ErrorKind>(values));
            assert(values + Seq::<i64>::empty() =~= values);
        }
    } else {
        assert(Seq::<i64>::empty() =~= values);
    }
}

/// The presence record that stands for a set of documents.
pub open spec fn written_presence(n: nat, docs: Seq<u32>, max_doc: nat, offset: nat) -> PresenceModel {
    if n == 0 {
        PresenceModel { offset: (-2) as i64, len: 0, jump_table_entry_count: (-1) as i16, dense_rank_power: 0xFF }
    } else if n == max_doc {
        PresenceModel { offset: (-1) as i64, len: 0, jump_table_entry_count: (-1) as i16, dense_rank_power: 0xFF }
    } else {
        PresenceModel {
            offset: offset as i64,
            len: disi_bytes(docs, 9).len() as i64,
            jump_table_entry_count: jump_table(docs, 9).len() as u16 as i16,
            dense_rank_power: 9,
        }
    }
}

pub proof fn lemma_i64_at(b: Seq<u8>, p: nat, v: i64)
    requires
        stands_at(b, p, le_i64(v)),
    ensures
        i64_at(b, p) == v,
        le_i64(v).len() == 8,
        p + 8 <= b.len(),
{
    lemma_parse_i64_at(b, p, v);
}

pub proof fn lemma_i32_at(b: Seq<u8>, p: nat, v: i32)
    requires
        stands_at(b, p, le_i32(v)),
    ensures
        i32_at(b, p) == v,
        le_i32(v).len() == 4,
        p + 4 <= b.len(),
{
    lemma_parse_i32_at(b, p, v);
}

proof fn lemma_i16_at(b: Seq<u8>, p: nat, v: i16)
    requires
        stands_at(b, p, le_i16(v)),
    ensures
        i16_at(b, p) == v,
        le_i16(v).len() == 2,
        p + 2 <= b.len(),
{
    lemma_parse_i16_at(b, p, v);
}

/// A length or offset written in eight bytes reads back as an `i64`.
pub proof fn lemma_len_at(b: Seq<u8>, p: nat, v: nat)
    requires
        v <= i64::MAX,
        stands_at(b, p, le_bytes(v, 8)),
    ensures
        i64_at(b, p) == v,
        le_bytes(v, 8).len() == 8,
        p + 8 <= b.len(),
{
    lemma_signed_casts();
    lemma_cast_values();
    assert((v as i64) as u64 == v);
    lemma_parse_i64_at(b, p, v as i64);
}

pub proof fn lemma_byte_at(b: Seq<u8>, p: nat, v: u8)
    requires
        stands_at(b, p, seq![v]),
    ensures
        p < b.len(),
        b[p as int] == v,
{
    assert(b.subrange(p as int, p as int + 1)[0] == v);
}

/// A written presence record reads back.
pub proof fn lemma_presence(b: Seq<u8>, p: nat, n: nat, docs: Seq<u32>, max_doc: nat, offset: nat)
    requires
        offset + disi_bytes(docs, 9).len() <= i64::MAX,
        stands_at(b, p, presence_meta(n, docs, max_doc, offset)),
    ensures
        presence_meta(n, docs, max_doc, offset).len() == 19,
        parse_presence(b, p) == Ok::<(PresenceModel, nat), ErrorKind>(
            (written_presence(n, docs, max_doc, offset), p + 19),
        ),
{
    if n == 0 || n == max_doc {
        let first = if n == 0 { (-2) as i64 } else { (-1) as i64 };
        let s2 = le_i16((-1) as i16) + seq![0xFFu8];
        let s1 = le_i64(0) + s2;
        lemma_stands_split(b, p, le_i64(first), s1);
        lemma_i64_at(b, p, first);
        lemma_stands_split(b, p + 8, le_i64(0), s2);
        lemma_i64_at(b, p + 8, 0);
        lemma_stands_split(b, p + 16, le_i16((-1) as i16), seq![0xFFu8]);
        lemma_i16_at(b, p + 16, (-1) as i16);
        lemma_byte_at(b, p + 18, 0xFF);
    } else {
        let d = disi_bytes(docs, 9).len();
        let j = jump_table(docs, 9).len() as u16 as i16;
        let s2 = le_i16(j) + seq![9u8];
        let s1 = le_bytes(d, 8) + s2;
        lemma_stands_split(b, p, le_bytes(offset, 8), s1);
        lemma_len_at(b, p, offset);
        lemma_stands_split(b, p + 8, le_bytes(d, 8), s2);
        lemma_len_at(b, p + 8, d);
        lemma_stands_split(b, p + 16, le_i16(j), seq![9u8]);
        lemma_i16_at(b, p + 16, j);
        lemma_byte_at(b, p + 18, 9);
    }
}

proof fn lemma_numbers(b: Seq<u8>, p: nat, t: Seq<i64>)
    requires
        stands_at(b, p, le_i64_all(t)),
    ensures
        le_i64_all(t).len() == 8 * t.len(),
        numbers_at(b, p, t.len()) == t,
    decreases t.len(),
{
    if t.len() > 0 {
        let s = t.drop_last();
        lemma_stands_split(b, p, le_i64_all(s), le_i64(t.last()));
        lemma_numbers(b, p, s);
        lemma_i64_at(b, p + 8 * s.len(), t.last());
        assert forall|i: int| 0 <= i < t.len() implies numbers_at(b, p, t.len())[i] == t[i] by {
            if i < s.len() {
                assert(numbers_at(b, p, s.len())[i] == s[i]);
            }
        }
    }
    assert(numbers_at(b, p, t.len()) =~= t);
}

/// A written numeric entry reads back.
pub proof fn lemma_numeric_entry(b: Seq<u8>, p: nat, values: Seq<i64>, docs: Seq<u32>, max_doc: nat, offset: nat)
    requires
        values.len() <= i64::MAX,
        offset + disi_bytes(docs, 9).len() + values_data(values).len() <= i64::MAX,
        stands_at(b, p, entry_meta(values, docs, max_doc, offset)),
    ensures
        ({
            let n = docs_with_value(values, docs, max_doc);
            let at = offset + presence_data(n, docs, max_doc).len();
            parse_numeric_entry(b, p) == Ok::<(EntryModel, nat), ErrorKind>(
                (
                    written_entry(values, written_presence(n, docs, max_doc, offset), at),
                    p + entry_meta(values, docs, max_doc, offset).len(),
                ),
            )
        }),
{
    let n = docs_with_value(values, docs, max_doc);
    let at = offset + presence_data(n, docs, max_doc).len();
    let pm = presence_meta(n, docs, max_doc, offset);
    let vm = values_meta(values, at);
    lemma_stands_split(b, p, pm, vm);
    lemma_presence(b, p, n, docs, max_doc, offset);
    let l = layout_for(values);
    let d = values_data(values).len();
    let s7 = le_i64((-1) as i64);
    let s6 = le_bytes(d, 8) + s7;
    let s5 = le_bytes(at, 8) + s6;
    let s4 = le_i64(l.gcd) + s5;
    let s3 = le_i64(l.base) + s4;
    let s2 = seq![l.bits] + s3;
    let s1 = table_meta(l.table) + s2;
    let q = p + 19;
    lemma_stands_split(b, q, le_bytes(values.len(), 8), s1);
    lemma_len_at(b, q, values.len());
    lemma_stands_split(b, q + 8, table_meta(l.table), s2);
    if values.len() > 0 {
        lemma_stats_facts(values);
    }
    match l.table {
        Some(t) => {
            assert(2 <= t.len() <= 256);
            lemma_stands_split(b, q + 8, le_i32(t.len() as i32), le_i64_all(t));
            lemma_i32_at(b, q + 8, t.len() as i32);
            lemma_numbers(b, q + 12, t);
        },
        None => {
            lemma_i32_at(b, q + 8, (-1) as i32);
        },
    }
    let r = q + 8 + table_meta(l.table).len();
    lemma_stands_split(b, r, seq![l.bits], s3);
    lemma_byte_at(b, r, l.bits);
    lemma_stands_split(b, r + 1, le_i64(l.base), s4);
    lemma_i64_at(b, r + 1, l.base);
    lemma_stands_split(b, r + 9, le_i64(l.gcd), s5);
    lemma_i64_at(b, r + 9, l.gcd);
    lemma_stands_split(b, r + 17, le_bytes(at, 8), s6);
    lemma_len_at(b, r + 17, at);
    lemma_stands_split(b, r + 25, le_bytes(d, 8), s7);
    lemma_len_at(b, r + 25, d);
    lemma_i64_at(b, r + 33, (-1) as i64);
}

/// A column holds `values[i]` for document `docs[i]`, and no other value.
pub open spec fn column_holds(c: NumericColumnModel, docs: Seq<u32>, values: Seq<i64>, max_doc: nat) -> bool {
    &&& c.values.len() == max_doc
    &&& !c.float
    &&& forall|i: int| 0 <= i < docs.len() ==> c.values[#[trigger] docs[i] as int] == values[i]
    &&& match c.docs {
        Some(s) => s == doc_set(docs, docs.len()),
        None => forall|d: nat| d < max_doc ==> #[trigger] doc_set(docs, docs.len()).contains(d),
    }
}

/// A plan decodes to a column that holds `values[i]` for document `docs[i]`.
pub open spec fn plan_holds(
    plan: std::result::Result<PlanModel, ErrorKind>,
    dvd: Seq<u8>,
    column: FieldIdModel,
    docs: Seq<u32>,
    values: Seq<i64>,
    max_doc: nat,
) -> bool {
    match plan {
        Ok(m) => m.column == column && m.num_values == values.len() && match numeric_column(m, dvd) {
            Ok(c) => column_holds(c, docs, values, max_doc),
            Err(_) => false,
        },
        Err(_) => false,
    }
}

/// All of `n` sorted documents below `n` are just those below `n`.
pub proof fn lemma_all_docs(docs: Seq<u32>, i: int)
    requires
        strictly_increasing(docs),
        docs.len() > 0 ==> docs.last() < docs.len(),
        0 <= i < docs.len(),
    ensures
        docs[i] == i,
{
    lemma_doc_low(docs, i);
    lemma_doc_high(docs, i);
}

proof fn lemma_doc_low(docs: Seq<u32>, i: int)
    requires
        strictly_increasing(docs),
        0 <= i < docs.len(),
    ensures
        i <= docs[i],
    decreases i,
{
    if i > 0 {
        lemma_doc_low(docs, i - 1);
        assert(docs[i - 1] < docs[i]);
    }
}

proof fn lemma_doc_high(docs: Seq<u32>, i: int)
    requires
        strictly_increasing(docs),
        0 <= i < docs.len(),
        docs.last() < docs.len(),
    ensures
        docs[i] <= i,
    decreases docs.len() - i,
{
    if i < docs.len() - 1 {
        lemma_doc_high(docs, i + 1);
        assert(docs[i] < docs[i + 1]);
    }
}

/// A set of documents written as part of an entry reads back.
pub proof fn lemma_written_coverage(n: nat, docs: Seq<u32>, max_doc: u32, offset: nat, dvd: Seq<u8>)
    requires
        strictly_increasing(docs),
        docs.len() > 0 ==> docs.last() < max_doc,
        n == docs.len(),
        offset + disi_bytes(docs, 9).len() <= i64::MAX,
        stands_at(dvd, offset, presence_data(n, docs, max_doc as nat)),
    ensures
        ({
            let pr = written_presence(n, docs, max_doc as nat, offset);
            &&& coverage_of(pr, n as u64, max_doc) matches Ok(c) && crate::column::num_docs_of(c) == max_doc && {
                &&& n == 0 ==> c == (Coverage::Empty { num_docs: max_doc })
                &&& n > 0 && n == max_doc ==> c == (Coverage::Dense { num_docs: max_doc })
                &&& n > 0 && n != max_doc ==> c is Sparse && coverage_docs(c, dvd) == Ok::<
                    Option<Set<nat>>,
                    ErrorKind,
                >(Some(doc_set(docs, docs.len())))
            }
        }),
{
    lemma_docs_len(docs, max_doc as nat);
    lemma_cast_values();
    if n > 0 && n != max_doc {
        law_disi_round_trip(docs, max_doc as nat, 9, Seq::empty());
        let region = disi_bytes(docs, 9);
        assert(region + Seq::<u8>::empty() =~= region);
        assert(power_byte(9) == 9);
    }
}

/// A NUMERIC entry reads back as it was written: the entry parses, plans,
/// and decodes to a column that holds each value at its document and nothing
/// else, wherever entry and data stand in their files.
pub proof fn law_numeric_entry_round_trip(
    dvm: Seq<u8>,
    p: nat,
    dvd: Seq<u8>,
    offset: nat,
    values: Seq<i64>,
    docs: Seq<u32>,
    max_doc: u32,
    column: FieldIdModel,
    file: Seq<char>,
)
    requires
        strictly_increasing(docs),
        docs.len() > 0 ==> docs.last() < max_doc,
        docs.len() == values.len(),
        offset + disi_bytes(docs, 9).len() + values_data(values).len() <= i64::MAX,
        stands_at(dvm, p, entry_meta(values, docs, max_doc as nat, offset)),
        stands_at(dvd, offset, entry_data(values, docs, max_doc as nat)),
    ensures
        match parse_numeric_entry(dvm, p) {
            Ok((e, q)) => q == p + entry_meta(values, docs, max_doc as nat, offset).len() && plan_holds(
                entry_plan(e, dvd, column, max_doc, file),
                dvd,
                column,
                docs,
                values,
                max_doc as nat,
            ),
            Err(_) => false,
        },
{
    let n = docs_with_value(values, docs, max_doc as nat);
    lemma_docs_len(docs, max_doc as nat);
    assert(n == docs.len());
    let pd = presence_data(n, docs, max_doc as nat);
    let at = offset + pd.len();
    lemma_numeric_entry(dvm, p, values, docs, max_doc as nat, offset);
    lemma_stands_split(dvd, offset, pd, values_data(values));
    let pr = written_presence(n, docs, max_doc as nat, offset);
    lemma_stream(values, pr, at, dvd);
    lemma_written_coverage(n, docs, max_doc, offset, dvd);
    lemma_cast_values();
    let e = written_entry(values, pr, at);
    assert(e.num_values as u64 == values.len());
    let plan = entry_plan(e, dvd, column, max_doc, file)->Ok_0;
    assert(stream_values(plan, dvd) == Ok::<Seq<i64>, ErrorKind>(values));
    let s = doc_set(docs, docs.len());
    if n == 0 {
        assert(s =~= Set::<nat>::empty());
    } else if n == max_doc {
        assert forall|i: int| 0 <= i < docs.len() implies docs[i] == i by {
            lemma_all_docs(docs, i);
        }
        assert forall|d: nat| d < max_doc implies #[trigger] s.contains(d) by {
            assert(docs[d as int] == d);
        }
    } else {
        lemma_rank_of(docs, max_doc as nat, docs.len());
        assert(matches_docs(values.len(), s, max_doc as nat));
        let out = scattered(values, s, max_doc as nat);
        assert forall|i: int| 0 <= i < docs.len() implies out[#[trigger] docs[i] as int] == values[i] by {
            assert(s.contains(docs[i] as nat));
            assert forall|k: int| 0 <= k < i implies #[trigger] docs[k] < docs[i] by {}
            assert forall|k: int| i <= k < docs.len() implies docs[i] <= #[trigger] docs[k] by {}
            lemma_rank_of(docs, docs[i] as nat, i as nat);
        }
    }
}

/// Behind the head of a field without a skip index, planning takes the entry
/// of its kind and goes on behind it.
pub proof fn lemma_field_planned(
    dvm: Seq<u8>,
    p: nat,
    dvd: Seq<u8>,
    max_doc: u32,
    fields: Seq<FieldModel>,
    i: int,
    kind: u8,
    file: Seq<char>,
    acc: PlansModel,
)
    requires
        0 <= i < fields.len(),
        find_field(fields, fields[i].id.number) == Some(i),
        fields[i].id.number != -1,
        !fields[i].has_skip_index,
        stands_at(dvm, p, field_head(fields[i].id.number, kind)),
    ensures
        field_head(fields[i].id.number, kind).len() == 5,
        match parse_field_plan(dvm, p + 5, dvd, fields[i], kind, max_doc, file) {
            Ok((plan, q)) => parse_entries(dvm, p, dvd, fields, max_doc, file, acc) == parse_entries(
                dvm,
                q,
                dvd,
                fields,
                max_doc,
                file,
                plans_with(acc, plan),
            ),
            Err(_) => true,
        },
{
    let number = fields[i].id.number;
    lemma_stands_split(dvm, p, le_i32(number), seq![kind]);
    lemma_parse_i32_at(dvm, p, number);
    lemma_byte_at(dvm, p + 4, kind);
}

/// A NUMERIC field without a skip index, wherever it stands in the metadata
/// file, is planned, and its plan decodes to what was written; planning goes
/// on behind it.
#[verifier::rlimit(50)]
#[verifier::spinoff_prover]
pub proof fn law_numeric_field_planned(
    dvm: Seq<u8>,
    p: nat,
    dvd: Seq<u8>,
    offset: nat,
    values: Seq<i64>,
    docs: Seq<u32>,
    max_doc: u32,
    fields: Seq<FieldModel>,
    i: int,
    file: Seq<char>,
    acc: PlansModel,
)
    requires
        strictly_increasing(docs),
        docs.len() > 0 ==> docs.last() < max_doc,
        docs.len() == values.len(),
        offset + disi_bytes(docs, 9).len() + values_data(values).len() <= i64::MAX,
        0 <= i < fields.len(),
        find_field(fields, fields[i].id.number) == Some(i),
        fields[i].id.number != -1,
        fields[i].kind == DvKind::Numeric,
        !fields[i].has_skip_index,
        stands_at(dvm, p, numeric_meta(fields[i].id.number, values, docs, max_doc as nat, offset)),
        stands_at(dvd, offset, entry_data(values, docs, max_doc as nat)),
    ensures
        exists|plan: PlanModel|
            {
                &&& #[trigger] plan_holds(Ok(plan), dvd, fields[i].id, docs, values, max_doc as nat)
                &&& parse_entries(dvm, p, dvd, fields, max_doc, file, acc) == parse_entries(
                    dvm,
                    p + numeric_meta(fields[i].id.number, values, docs, max_doc as nat, offset).len(),
                    dvd,
                    fields,
                    max_doc,
                    file,
                    plans_with(acc, FieldPlanModel::Numeric(plan)),
                )
            },
{
    reveal(parse_field_plan);
    let head = field_head(fields[i].id.number, consts::TYPE_NUMERIC);
    let column = fields[i].id;
    lemma_stands_split(dvm, p, head, entry_meta(values, docs, max_doc as nat, offset));
    lemma_field_planned(dvm, p, dvd, max_doc, fields, i, consts::TYPE_NUMERIC, file, acc);
    law_numeric_entry_round_trip(dvm, p + 5, dvd, offset, values, docs, max_doc, column, file);
    let (e, q) = parse_numeric_entry(dvm, p + 5)->Ok_0;
    let plan = entry_plan(e, dvd, column, max_doc, file)->Ok_0;
    assert(plan_holds(Ok(plan), dvd, column, docs, values, max_doc as nat));
}

/// A NUMERIC field with a skip index is planned as one without, whatever the
/// 40 bytes of the skip index say: they stand between the head of the field
/// and its entry, and are stepped over.
#[verifier::rlimit(50)]
#[verifier::spinoff_prover]
pub proof fn law_skip_index_stepped_over(
    dvm: Seq<u8>,
    p: nat,
    skip: Seq<u8>,
    dvd: Seq<u8>,
    offset: nat,
    values: Seq<i64>,
    docs: Seq<u32>,
    max_doc: u32,
    fields: Seq<FieldModel>,
    i: int,
    file: Seq<char>,
    acc: PlansModel,
)
    requires
        strictly_increasing(docs),
        docs.len() > 0 ==> docs.last() < max_doc,
        docs.len() == values.len(),
        offset + disi_bytes(docs, 9).len() + values_data(values).len() <= i64::MAX,
        0 <= i < fields.len(),
        find_field(fields, fields[i].id.number) == Some(i),
        fields[i].id.number != -1,
        fields[i].kind == DvKind::Numeric,
        fields[i].has_skip_index,
        skip.len() == 40,
        stands_at(
            dvm,
            p,
            le_i32(fields[i].id.number) + (seq![0u8] + (skip + entry_meta(values, docs, max_doc as nat, offset))),
        ),
        stands_at(dvd, offset, entry_data(values, docs, max_doc as nat)),
    ensures
        exists|plan: PlanModel|
            {
                &&& #[trigger] plan_holds(Ok(plan), dvd, fields[i].id, docs, values, max_doc as nat)
                &&& parse_entries(dvm, p, dvd, fields, max_doc, file, acc) == parse_entries(
                    dvm,
                    p + 45 + entry_meta(values, docs, max_doc as nat, offset).len(),
                    dvd,
                    fields,
                    max_doc,
                    file,
                    plans_with(acc, FieldPlanModel::Numeric(plan)),
                )
            },
{
    reveal(parse_field_plan);
    let number = fields[i].id.number;
    let column = fields[i].id;
    let entry = entry_meta(values, docs, max_doc as nat, offset);
    lemma_stands_split(dvm, p, le_i32(number), seq![0u8] + (skip + entry));
    lemma_parse_i32_at(dvm, p, number);
    lemma_stands_split(dvm, p + 4, seq![0u8], skip + entry);
    lemma_byte_at(dvm, p + 4, 0);
    lemma_stands_split(dvm, p + 5, skip, entry);
    law_numeric_entry_round_trip(dvm, p + 45, dvd, offset, values, docs, max_doc, column, file);
    let (e, q) = parse_numeric_entry(dvm, p + 45)->Ok_0;
    let plan = entry_plan(e, dvd, column, max_doc, file)->Ok_0;
    assert(plan_holds(Ok(plan), dvd, column, docs, values, max_doc as nat));
    assert(parse_field_plan(dvm, p + 45, dvd, fields[i], 0, max_doc, file) == Ok::<(FieldPlanModel, nat), ErrorKind>(
        (FieldPlanModel::Numeric(plan), q),
    ));
}

/// At the end mark, planning ends with the plans so far.
pub proof fn lemma_end_mark(
    dvm: Seq<u8>,
    p: nat,
    dvd: Seq<u8>,
    fields: Seq<FieldModel>,
    max_doc: u32,
    file: Seq<char>,
    acc: PlansModel,
)
    requires
        stands_at(dvm, p, le_i32((-1) as i32)),
    ensures
        parse_entries(dvm, p, dvd, fields, max_doc, file, acc) == Ok::<PlansModel, ErrorKind>(acc),
{
    lemma_parse_i32_at(dvm, p, (-1) as i32);
}

/// The metadata file that holds `fields_meta` between header and end mark.
pub open spec fn metadata_file(segment_id: Seq<u8>, suffix: Seq<char>, fields_meta: Seq<u8>) -> Seq<u8> {
    with_footer(
        index_header_bytes(encode_utf8(consts::META_CODEC@), consts::VERSION, segment_id, encode_utf8(suffix))
            + fields_meta + le_i32((-1) as i32),
    )
}

/// The data file that holds `fields_data` behind its header.
pub open spec fn data_file(segment_id: Seq<u8>, suffix: Seq<char>, fields_data: Seq<u8>) -> Seq<u8> {
    with_footer(
        index_header_bytes(encode_utf8(consts::DATA_CODEC@), consts::VERSION, segment_id, encode_utf8(suffix))
            + fields_data,
    )
}

/// Where fields start in a data file.
pub open spec fn data_start(segment_id: Seq<u8>, suffix: Seq<char>) -> nat {
    index_header_bytes(encode_utf8(consts::DATA_CODEC@), consts::VERSION, segment_id, encode_utf8(suffix)).len()
}

/// What stands between header and end mark of a metadata file is what the
/// planner walks.
pub proof fn lemma_metadata_file(
    segment_id: Seq<u8>,
    suffix: Seq<char>,
    fields_meta: Seq<u8>,
    dvd: Seq<u8>,
    fields: Seq<FieldModel>,
    max_doc: u32,
    file: Seq<char>,
)
    requires
        segment_id.len() == SEGMENT_ID_LENGTH,
        encode_utf8(suffix).len() < 256,
    ensures
        ({
            let dvm = metadata_file(segment_id, suffix, fields_meta);
            let p = index_header_bytes(
                encode_utf8(consts::META_CODEC@),
                consts::VERSION,
                segment_id,
                encode_utf8(suffix),
            ).len();
            &&& doc_values_plans(dvm, dvd, fields, max_doc, file) == parse_entries(
                dvm,
                p,
                dvd,
                fields,
                max_doc,
                file,
                no_plans(),
            )
            &&& stands_at(dvm, p, fields_meta)
            &&& stands_at(dvm, p + fields_meta.len(), le_i32((-1) as i32))
        }),
{
    let h = index_header_bytes(encode_utf8(consts::META_CODEC@), consts::VERSION, segment_id, encode_utf8(suffix));
    let body = h + fields_meta + le_i32((-1) as i32);
    let dvm = metadata_file(segment_id, suffix, fields_meta);
    lemma_codec_names();
    law_footer_round_trip(body);
    let rest = dvm.subrange(h.len() as int, dvm.len() as int);
    assert(dvm.subrange(0, body.len() as int) == body);
    assert(body.subrange(0, h.len() as int) =~= h);
    assert(dvm =~= h + rest) by {
        assert(dvm.subrange(0, h.len() as int) =~= body.subrange(0, h.len() as int));
    }
    law_header_round_trip(
        consts::META_CODEC@,
        consts::VERSION,
        segment_id,
        suffix,
        rest,
        consts::VERSION,
        consts::VERSION,
    );
    let end = le_i32((-1) as i32);
    let p = h.len();
    assert(dvm.subrange(p as int, (p + fields_meta.len()) as int) =~= body.subrange(
        p as int,
        (p + fields_meta.len()) as int,
    ));
    assert(body.subrange(p as int, (p + fields_meta.len()) as int) =~= fields_meta);
    let q = p + fields_meta.len();
    assert(dvm.subrange(q as int, (q + end.len()) as int) =~= body.subrange(q as int, (q + end.len()) as int));
    assert(body.subrange(q as int, (q + end.len()) as int) =~= end);
}

/// What stands behind the header of a data file stands where fields start.
pub proof fn lemma_data_file(segment_id: Seq<u8>, suffix: Seq<char>, fields_data: Seq<u8>)
    ensures
        stands_at(data_file(segment_id, suffix, fields_data), data_start(segment_id, suffix), fields_data),
{
    let h = index_header_bytes(encode_utf8(consts::DATA_CODEC@), consts::VERSION, segment_id, encode_utf8(suffix));
    let dvd = data_file(segment_id, suffix, fields_data);
    law_footer_round_trip(h + fields_data);
    assert((h + fields_data).subrange(h.len() as int, (h.len() + fields_data.len()) as int) =~= fields_data);
    assert(dvd.subrange(h.len() as int, (h.len() + fields_data.len()) as int) =~= (h + fields_data).subrange(
        h.len() as int,
        (h.len() + fields_data.len()) as int,
    ));
}

/// A file pair with one NUMERIC field plans to one plan, which decodes to a
/// column that holds each value at its document and nothing else.
pub proof fn law_numeric_file_round_trip(
    segment_id: Seq<u8>,
    suffix: Seq<char>,
    values: Seq<i64>,
    docs: Seq<u32>,
    max_doc: u32,
    field: FieldModel,
    file: Seq<char>,
)
    requires
        segment_id.len() == SEGMENT_ID_LENGTH,
        encode_utf8(suffix).len() < 256,
        docs_acceptable(docs, values.len(), max_doc as nat),
        data_start(segment_id, suffix) + disi_bytes(docs, 9).len() + values_data(values).len() <= i64::MAX,
        field.id.number != -1,
        field.kind == DvKind::Numeric,
        !field.has_skip_index,
    ensures
        ({
            let offset = data_start(segment_id, suffix);
            let dvm = metadata_file(
                segment_id,
                suffix,
                numeric_meta(field.id.number, values, docs, max_doc as nat, offset),
            );
            let dvd = data_file(segment_id, suffix, entry_data(values, docs, max_doc as nat));
            match doc_values_plans(dvm, dvd, seq![field], max_doc, file) {
                Ok(plans) => plans.plans.len() == 1 && plan_holds(
                    Ok(plans.plans[0]),
                    dvd,
                    field.id,
                    docs,
                    values,
                    max_doc as nat,
                ),
                Err(_) => false,
            }
        }),
{
    let offset = data_start(segment_id, suffix);
    let meta = numeric_meta(field.id.number, values, docs, max_doc as nat, offset);
    let data = entry_data(values, docs, max_doc as nat);
    let dvm = metadata_file(segment_id, suffix, meta);
    let dvd = data_file(segment_id, suffix, data);
    let fields = seq![field];
    lemma_metadata_file(segment_id, suffix, meta, dvd, fields, max_doc, file);
    lemma_data_file(segment_id, suffix, data);
    let p = index_header_bytes(encode_utf8(consts::META_CODEC@), consts::VERSION, segment_id, encode_utf8(suffix)).len();
    assert(fields[0] == field);
    assert(find_field(fields, field.id.number) == Some(0int));
    law_numeric_field_planned(dvm, p, dvd, offset, values, docs, max_doc, fields, 0, file, no_plans());
    let plan = choose|plan: PlanModel|
        {
            &&& #[trigger] plan_holds(Ok(plan), dvd, field.id, docs, values, max_doc as nat)
            &&& parse_entries(dvm, p, dvd, fields, max_doc, file, no_plans()) == parse_entries(
                dvm,
                p + meta.len(),
                dvd,
                fields,
                max_doc,
                file,
                plans_with(no_plans(), FieldPlanModel::Numeric(plan)),
            )
        };
    lemma_end_mark(
        dvm,
        p + meta.len(),
        dvd,
        fields,
        max_doc,
        file,
        plans_with(no_plans(), FieldPlanModel::Numeric(plan)),
    );
    assert(no_plans().plans.push(plan)[0] == plan);
}

/// The distance from least to greatest, in steps of the common divisor.
proof fn lemma_span_in_steps(values: Seq<i64>)
    requires
        values.len() > 0,
        minimum(values) < maximum(values),
    ensures
        0 < common_step(values),
        quotient(stats_of(values).max.wrapping_sub(stats_of(values).min), stats_of(values).gcd) as u64 == (maximum(values)
            - minimum(values)) / (common_step(values) as int),
{
    let st = stats_of(values);
    let delta = quotient(st.max.wrapping_sub(st.min), st.gcd) as u64;
    let g = common_step(values) as int;
    lemma_min_max(values);
    lemma_cast_values();
    lemma_signed_casts();
    lemma_step_positive(values);
    let b = choose|i: int| 0 <= i < values.len() && values[i] == st.max;
    if g == 1 {
        lemma_quotient_one(st.max.wrapping_sub(st.min));
        assert(delta == st.max - st.min);
        assert((st.max - st.min) / 1 == st.max - st.min);
        assert((st.max - st.min) / g == st.max - st.min);
    } else {
        let h = lemma_steps_above_min(values, b);
        lemma_quotient_steps(st.max - st.min, g, h);
        assert(h * g == g * h) by (nonlinear_arith);
        lemma_fundamental_div_mod_converse(st.max - st.min, g, h, 0);
        assert(delta == h);
        assert(h == (st.max - st.min) / g);
    }
}

/// Values are packed as narrowly as the format can: in no bits where they are
/// all the same, else in the fewest bits that hold the distance from least to
/// greatest in steps of the common divisor, or the places in a table of the
/// distinct values where these are few.
pub proof fn law_layout_narrowest(values: Seq<i64>, s: u8)
    requires
        values.len() > 0,
        supported(s),
    ensures
        layout_for(values).bits == 0 <==> forall|i: int| 0 <= i < values.len() ==> (#[trigger] values[i]) == values[0],
        layout_for(values).bits > 0 ==> supported(layout_for(values).bits),
        common_step(values) > 0 && (maximum(values) - minimum(values)) / (common_step(values) as int) < pow2(s as nat)
            ==> layout_for(values).bits <= s,
        1 < distinct_sorted(values).len() <= 256 && distinct_sorted(values).len() <= pow2(s as nat) ==> layout_for(
            values,
        ).bits <= s,
        layout_for(values).table matches Some(t) ==> t == distinct_sorted(values) && t.len() <= 256,
{
    let st = stats_of(values);
    let delta = quotient(st.max.wrapping_sub(st.min), st.gcd) as u64;
    lemma_min_max(values);
    lemma_cast_values();
    law_bits_required(delta);
    if st.min < st.max {
        let g = common_step(values) as int;
        lemma_span_in_steps(values);
        let a = choose|i: int| 0 <= i < values.len() && values[i] == st.min;
        let b = choose|i: int| 0 <= i < values.len() && values[i] == st.max;
        assert(values[a] != values[b]);
        assert(delta == (st.max - st.min) / g);
        if st.table is Some && st.table->0.len() > 1 {
            law_bits_required((st.table->0.len() - 1) as u64);
        }
    } else {
        assert forall|i: int| 0 <= i < values.len() implies (#[trigger] values[i]) == values[0] by {
            assert(values[0] <= st.max && st.min <= values[0]);
        }
    }
}

/// What the metadata says of a set of documents that is neither empty nor
/// all: how long its region is, how many entries its jump table has, and the
/// rank power of its dense blocks.
pub proof fn law_presence_recorded(b: Seq<u8>, p: nat, docs: Seq<u32>, max_doc: nat, offset: nat)
    requires
        0 < docs.len() < max_doc,
        offset + disi_bytes(docs, 9).len() <= i64::MAX,
        jump_table(docs, 9).len() <= i16::MAX,
        stands_at(b, p, presence_meta(docs.len(), docs, max_doc, offset)),
    ensures
        parse_presence(b, p) matches Ok((pr, q)) && pr.offset == offset && pr.len == disi_bytes(docs, 9).len()
            && pr.jump_table_entry_count == jump_table(docs, 9).len() && pr.dense_rank_power == 9 && q == p + 19,
{
    lemma_presence(b, p, docs.len(), docs, max_doc, offset);
    lemma_cast_values();
    let n = jump_table(docs, 9).len() as u16;
    assert(n <= 0x7FFF ==> n as i16 == n) by (bit_vector);
}

} // verus!
