//! How the layouts of field types relate: which part of one is another, and
//! what they do not depend on.

use vstd::prelude::*;
use vstd::seq_lib::{lemma_sorted_unique, to_multiset_contains};
use crate::bytes::{le_i32, lemma_le_bytes_len};
use crate::consts;
use crate::dict::{dict_data, dict_meta};
use crate::encode::{
    at_most, flat, flat_terms, in_order, law_in_order, lemma_term_index, lists_data, multi_valued,
    ordered_lists, ordinals, set_dictionary, set_head, set_multi, set_ordinals, sorted_data, sorted_meta,
    sorted_numeric_meta, sorted_set_data, sorted_set_meta,
};
use crate::lexicon::{
    dictionary_of, law_dictionary_exists, law_dictionary_of_members, lemma_concat_contains, lemma_less_irreflexive,
    term_less, terms_sorted,
};
use crate::roundtrip_fields::law_set_ordinals;
use crate::stats::{distinct_sorted, law_distinct_sorted, sorted_strictly};
use crate::write::{entry_data, entry_meta, field_head, numeric_meta};

verus! {

/// A field's number and type take five bytes, of which the last is the type.
proof fn lemma_head(field_number: i32, kind: u8)
    ensures
        field_head(field_number, kind).len() == 5,
        field_head(field_number, kind)[4] == kind,
{
    lemma_le_bytes_len((field_number as u32) as nat, 4);
}

/// The value part of a SORTED field is that of the NUMERIC field of its
/// ordinals: behind the head, the metadata starts with the metadata of that
/// field, and the data with its data. An ordinal is the place of the
/// document's term among the distinct terms in order.
pub proof fn law_sorted_starts_as_numeric(
    field_number: i32,
    terms: Seq<Seq<u8>>,
    docs: Seq<u32>,
    max_doc: nat,
    offset: nat,
)
    requires
        dictionary_of(terms).len() <= i64::MAX,
    ensures
        ({
            let ords = ordinals(terms, dictionary_of(terms));
            let m = sorted_meta(field_number, terms, docs, max_doc, offset);
            let n = numeric_meta(field_number, ords, docs, max_doc, offset);
            let data = entry_data(ords, docs, max_doc);
            &&& 5 <= n.len() <= m.len()
            &&& m.take(4) == n.take(4)
            &&& m.subrange(5, n.len() as int) == n.skip(5)
            &&& data.len() <= sorted_data(terms, docs, max_doc).len()
            &&& sorted_data(terms, docs, max_doc).take(data.len() as int) == data
            &&& ords.len() == terms.len()
            &&& forall|i: int|
                0 <= i < terms.len() ==> 0 <= #[trigger] ords[i] < dictionary_of(terms).len()
                    && dictionary_of(terms)[ords[i] as int] == terms[i]
        }),
{
    let d = dictionary_of(terms);
    let ords = ordinals(terms, d);
    let m = sorted_meta(field_number, terms, docs, max_doc, offset);
    let n = numeric_meta(field_number, ords, docs, max_doc, offset);
    let data = entry_data(ords, docs, max_doc);
    lemma_head(field_number, consts::TYPE_SORTED);
    lemma_head(field_number, consts::TYPE_NUMERIC);
    lemma_le_bytes_len((field_number as u32) as nat, 4);
    let em = entry_meta(ords, docs, max_doc, offset);
    assert(n.skip(5) =~= em);
    assert(m.subrange(5, n.len() as int) =~= em);
    assert(m.take(4) =~= le_i32(field_number));
    assert(n.take(4) =~= le_i32(field_number));
    assert(sorted_data(terms, docs, max_doc).take(data.len() as int) =~= data);
    law_dictionary_exists(terms);
    assert forall|i: int| 0 <= i < terms.len() implies 0 <= #[trigger] ords[i] < d.len() && d[ords[i] as int]
        == terms[i] by {
        lemma_ordinal(d, terms, i);
    }
}

proof fn lemma_ordinal(d: Seq<Seq<u8>>, terms: Seq<Seq<u8>>, i: int)
    requires
        terms_sorted(d),
        d.len() <= i64::MAX,
        0 <= i < terms.len(),
        d.contains(terms[i]),
    ensures
        0 <= ordinals(terms, d)[i] < d.len(),
        d[ordinals(terms, d)[i] as int] == terms[i],
{
    let k = choose|k: int| 0 <= k < d.len() && d[k] == terms[i];
    lemma_term_index(d, terms[i], k);
}

/// Two strictly sorted lists with the same members are the same list.
proof fn lemma_strict_unique(a: Seq<i64>, b: Seq<i64>)
    requires
        sorted_strictly(a),
        sorted_strictly(b),
        forall|x: i64| #[trigger] a.contains(x) <==> b.contains(x),
    ensures
        a == b,
    decreases a.len(),
{
    if a.len() == 0 {
        if b.len() > 0 {
            assert(b.contains(b[0]));
            assert(a.contains(b[0]));
        }
        assert(a =~= b);
    } else if b.len() == 0 {
        assert(a.contains(a[0]));
        assert(b.contains(a[0]));
    } else {
        let x = a.last();
        let y = b.last();
        assert(a.contains(x) && b.contains(y));
        assert(b.contains(x) && a.contains(y));
        let i = choose|i: int| 0 <= i < b.len() && b[i] == x;
        let j = choose|j: int| 0 <= j < a.len() && a[j] == y;
        assert(x == y) by {
            if i < b.len() - 1 {
                assert(b[i] < b[b.len() - 1]);
            }
            if j < a.len() - 1 {
                assert(a[j] < a[a.len() - 1]);
            }
        }
        let s = a.drop_last();
        let t = b.drop_last();
        assert forall|z: i64| #[trigger] s.contains(z) <==> t.contains(z) by {
            if s.contains(z) {
                let k = choose|k: int| 0 <= k < s.len() && s[k] == z;
                assert(a[k] == z && a[k] < x);
                assert(a.contains(z));
                let l = choose|l: int| 0 <= l < b.len() && b[l] == z;
                assert(t[l] == z);
            }
            if t.contains(z) {
                let k = choose|k: int| 0 <= k < t.len() && t[k] == z;
                assert(b[k] == z && b[k] < y);
                assert(b.contains(z));
                assert(a.contains(z));
                let l = choose|l: int| 0 <= l < a.len() && a[l] == z;
                assert(s[l] == z);
            }
        }
        lemma_strict_unique(s, t);
        assert(a =~= s.push(x));
        assert(b =~= t.push(y));
    }
}

/// A term is among those of the first `n` documents where one of them has it.
proof fn lemma_flat_terms(t: Seq<Seq<Seq<u8>>>, n: nat, x: Seq<u8>)
    requires
        n <= t.len(),
    ensures
        flat_terms(t, n).contains(x) <==> exists|i: int| 0 <= i < n && (#[trigger] t[i]).contains(x),
    decreases n,
{
    if n > 0 {
        let m = (n - 1) as nat;
        lemma_flat_terms(t, m, x);
        lemma_concat_contains(flat_terms(t, m), t[n - 1], x);
        if flat_terms(t, m).contains(x) {
            let i = choose|i: int| 0 <= i < m && (#[trigger] t[i]).contains(x);
            assert(t[i].contains(x));
        }
    }
}

/// The documents of `a` and `b` have the same terms, but for order and
/// repetition.
pub open spec fn same_term_sets(a: Seq<Seq<Seq<u8>>>, b: Seq<Seq<Seq<u8>>>) -> bool {
    &&& a.len() == b.len()
    &&& forall|i: int, x: Seq<u8>| 0 <= i < a.len() ==> (#[trigger] a[i].contains(x) <==> b[i].contains(x))
}

proof fn lemma_same_dictionary(a: Seq<Seq<Seq<u8>>>, b: Seq<Seq<Seq<u8>>>)
    requires
        same_term_sets(a, b),
    ensures
        set_dictionary(a) == set_dictionary(b),
{
    let fa = flat_terms(a, a.len());
    let fb = flat_terms(b, b.len());
    assert forall|x: Seq<u8>| #[trigger] fa.contains(x) <==> fb.contains(x) by {
        lemma_flat_terms(a, a.len(), x);
        lemma_flat_terms(b, b.len(), x);
        if fa.contains(x) {
            let i = choose|i: int| 0 <= i < a.len() && (#[trigger] a[i]).contains(x);
            assert(b[i].contains(x));
        }
        if fb.contains(x) {
            let i = choose|i: int| 0 <= i < b.len() && (#[trigger] b[i]).contains(x);
            assert(a[i].contains(x));
        }
    }
    law_dictionary_of_members(fa, fb);
}

/// The distinct ordinals of terms depend on which terms there are alone.
proof fn lemma_same_ordinals(a: Seq<Seq<u8>>, b: Seq<Seq<u8>>, d: Seq<Seq<u8>>)
    requires
        forall|x: Seq<u8>| #[trigger] a.contains(x) <==> b.contains(x),
    ensures
        distinct_sorted(ordinals(a, d)) == distinct_sorted(ordinals(b, d)),
{
    let oa = ordinals(a, d);
    let ob = ordinals(b, d);
    law_distinct_sorted(oa);
    law_distinct_sorted(ob);
    assert forall|x: i64| #[trigger] oa.contains(x) <==> ob.contains(x) by {
        if oa.contains(x) {
            let i = choose|i: int| 0 <= i < oa.len() && oa[i] == x;
            assert(a.contains(a[i]));
            let j = choose|j: int| 0 <= j < b.len() && b[j] == a[i];
            assert(ob[j] == x);
        }
        if ob.contains(x) {
            let i = choose|i: int| 0 <= i < ob.len() && ob[i] == x;
            assert(b.contains(b[i]));
            assert(a.contains(b[i]));
            let j = choose|j: int| 0 <= j < a.len() && a[j] == b[i];
            assert(oa[j] == x);
        }
    }
    assert forall|x: i64| #[trigger] distinct_sorted(oa).contains(x) <==> distinct_sorted(ob).contains(x) by {
        assert(oa.contains(x) <==> ob.contains(x));
    }
    lemma_strict_unique(distinct_sorted(oa), distinct_sorted(ob));
}

/// A SORTED_SET field holds sets: neither the order of a document's terms nor
/// their repetition changes a byte of it.
pub proof fn law_sorted_set_holds_sets(
    field_number: i32,
    a: Seq<Seq<Seq<u8>>>,
    b: Seq<Seq<Seq<u8>>>,
    docs: Seq<u32>,
    max_doc: nat,
    offset: nat,
)
    requires
        same_term_sets(a, b),
    ensures
        sorted_set_meta(field_number, a, docs, max_doc, offset) == sorted_set_meta(
            field_number,
            b,
            docs,
            max_doc,
            offset,
        ),
        sorted_set_data(a, docs, max_doc) == sorted_set_data(b, docs, max_doc),
{
    lemma_same_dictionary(a, b);
    let d = set_dictionary(a);
    assert forall|i: int| 0 <= i < a.len() implies #[trigger] set_ordinals(a)[i] == set_ordinals(b)[i] by {
        assert forall|x: Seq<u8>| #[trigger] a[i].contains(x) <==> b[i].contains(x) by {}
        lemma_same_ordinals(a[i], b[i], d);
    }
    assert(set_ordinals(a) =~= set_ordinals(b));
}

/// The flag behind the head of a SORTED_SET field is set where some document
/// has two different terms.
pub proof fn law_sorted_set_flag(
    field_number: i32,
    t: Seq<Seq<Seq<u8>>>,
    docs: Seq<u32>,
    max_doc: nat,
    offset: nat,
)
    requires
        set_dictionary(t).len() <= i64::MAX,
    ensures
        ({
            let m = sorted_set_meta(field_number, t, docs, max_doc, offset);
            &&& m.len() > 5
            &&& m[4] == consts::TYPE_SORTED_SET
            &&& m[5] == (if some_document_has_two(t) {
                1u8
            } else {
                0u8
            })
        }),
{
    lemma_head(field_number, consts::TYPE_SORTED_SET);
    let ords = set_ordinals(t);
    let m = sorted_set_meta(field_number, t, docs, max_doc, offset);
    let head = set_head(field_number, set_multi(ords));
    assert(m.take(6) =~= head);
    assert(m[4] == head[4]);
    assert(m[5] == head[5]);
    lemma_two_terms(t);
}

/// Some document has two different terms.
pub open spec fn some_document_has_two(t: Seq<Seq<Seq<u8>>>) -> bool {
    exists|i: int, j: int, k: int|
        0 <= i < t.len() && 0 <= j < t[i].len() && 0 <= k < t[i].len() && #[trigger] t[i][j] != #[trigger] t[i][k]
}

proof fn lemma_two_terms(t: Seq<Seq<Seq<u8>>>)
    requires
        set_dictionary(t).len() <= i64::MAX,
    ensures
        set_multi(set_ordinals(t)) == some_document_has_two(t),
{
    let d = set_dictionary(t);
    let ords = set_ordinals(t);
    law_dictionary_exists(flat_terms(t, t.len()));
    if set_multi(ords) {
        let i = choose|i: int| 0 <= i < ords.len() && (#[trigger] ords[i]).len() > 1;
        law_set_ordinals(t, i);
        let x = ords[i][0];
        let y = ords[i][1];
        assert(x < y);
        assert(t[i].contains(d[x as int]));
        assert(t[i].contains(d[y as int]));
        assert(term_less(d[x as int], d[y as int]));
        lemma_less_irreflexive(d[x as int]);
        let j = choose|j: int| 0 <= j < t[i].len() && t[i][j] == d[x as int];
        let k = choose|k: int| 0 <= k < t[i].len() && t[i][k] == d[y as int];
        assert(t[i][j] != t[i][k]);
    }
    if some_document_has_two(t) {
        let (i, j, k) = choose|i: int, j: int, k: int|
            0 <= i < t.len() && 0 <= j < t[i].len() && 0 <= k < t[i].len() && #[trigger] t[i][j] != #[trigger] t[i][k];
        law_set_ordinals(t, i);
        let a = choose|a: int| 0 <= a < ords[i].len() && d[#[trigger] ords[i][a] as int] == t[i][j];
        let b = choose|b: int| 0 <= b < ords[i].len() && d[#[trigger] ords[i][b] as int] == t[i][k];
        assert(a != b);
        assert(ords[i].len() > 1);
    }
}

/// The first term of each document.
pub open spec fn first_terms(t: Seq<Seq<Seq<u8>>>) -> Seq<Seq<u8>> {
    Seq::new(t.len(), |i: int| t[i][0])
}

proof fn lemma_single_terms(t: Seq<Seq<Seq<u8>>>)
    requires
        forall|i: int| 0 <= i < t.len() ==> (#[trigger] t[i]).len() > 0,
        !some_document_has_two(t),
        set_dictionary(t).len() <= i64::MAX,
    ensures
        set_dictionary(t) == dictionary_of(first_terms(t)),
        flat(set_ordinals(t), t.len()) == ordinals(first_terms(t), set_dictionary(t)),
{
    let all = flat_terms(t, t.len());
    let first = first_terms(t);
    let d = set_dictionary(t);
    let ords = set_ordinals(t);
    assert forall|x: Seq<u8>| #[trigger] all.contains(x) <==> first.contains(x) by {
        lemma_flat_terms(t, t.len(), x);
        if all.contains(x) {
            let i = choose|i: int| 0 <= i < t.len() && (#[trigger] t[i]).contains(x);
            let j = choose|j: int| 0 <= j < t[i].len() && t[i][j] == x;
            assert(t[i][j] == t[i][0]);
            assert(first[i] == x);
        }
        if first.contains(x) {
            let i = choose|i: int| 0 <= i < first.len() && first[i] == x;
            assert(t[i][0] == x);
            assert(t[i].contains(x));
        }
    }
    law_dictionary_of_members(all, first);
    let wanted = ordinals(first, d);
    assert forall|i: int| 0 <= i < t.len() implies #[trigger] ords[i] == seq![wanted[i]] by {
        let raw = ordinals(t[i], d);
        let one = distinct_sorted(raw);
        law_distinct_sorted(raw);
        assert(raw.contains(raw[0]));
        assert forall|k: int| 0 <= k < one.len() implies #[trigger] one[k] == wanted[i] by {
            assert(one.contains(one[k]));
            assert(raw.contains(one[k]));
            let j = choose|j: int| 0 <= j < raw.len() && raw[j] == one[k];
            assert(t[i][j] == t[i][0]);
        }
        assert(one.contains(raw[0]));
        if one.len() > 1 {
            assert(one[0] < one[1]);
        }
        assert(one =~= seq![wanted[i]]);
    }
    lemma_flat_singles(ords, wanted, t.len());
    assert(wanted.take(t.len() as int) =~= wanted);
}

proof fn lemma_flat_singles(v: Seq<Seq<i64>>, w: Seq<i64>, n: nat)
    requires
        n <= v.len(),
        v.len() == w.len(),
        forall|i: int| 0 <= i < v.len() ==> #[trigger] v[i] == seq![w[i]],
    ensures
        flat(v, n) == w.take(n as int),
    decreases n,
{
    if n > 0 {
        lemma_flat_singles(v, w, (n - 1) as nat);
        assert(w.take(n as int) =~= w.take(n - 1) + seq![w[n - 1]]);
    } else {
        assert(w.take(0) =~= Seq::<i64>::empty());
    }
}

/// A SORTED_SET field in which each document has one term, however often, has
/// the SORTED layout behind its flag.
pub proof fn law_single_sorted_set_is_sorted(
    field_number: i32,
    t: Seq<Seq<Seq<u8>>>,
    docs: Seq<u32>,
    max_doc: nat,
    offset: nat,
)
    requires
        forall|i: int| 0 <= i < t.len() ==> (#[trigger] t[i]).len() > 0,
        !some_document_has_two(t),
        set_dictionary(t).len() <= i64::MAX,
    ensures
        sorted_set_meta(field_number, t, docs, max_doc, offset).skip(6) == sorted_meta(
            field_number,
            first_terms(t),
            docs,
            max_doc,
            offset,
        ).skip(5),
        sorted_set_data(t, docs, max_doc) == sorted_data(first_terms(t), docs, max_doc),
{
    lemma_two_terms(t);
    lemma_single_terms(t);
    lemma_head(field_number, consts::TYPE_SORTED);
    lemma_head(field_number, consts::TYPE_SORTED_SET);
    let d = set_dictionary(t);
    let ords = set_ordinals(t);
    let all = flat(ords, ords.len());
    let em = entry_meta(all, docs, max_doc, offset);
    let ed = entry_data(all, docs, max_doc);
    assert(lists_data(ords, docs, max_doc, false) =~= ed);
    assert(sorted_set_meta(field_number, t, docs, max_doc, offset).skip(6) =~= em + dict_meta(d, offset + ed.len()));
    assert(sorted_meta(field_number, first_terms(t), docs, max_doc, offset).skip(5) =~= em + dict_meta(
        d,
        offset + ed.len(),
    ));
    assert(sorted_set_data(t, docs, max_doc) =~= ed + dict_data(d));
}

/// Each document's values of `b` are those of `a` in some order.
pub open spec fn same_values(a: Seq<Seq<i64>>, b: Seq<Seq<i64>>) -> bool {
    &&& a.len() == b.len()
    &&& forall|i: int| 0 <= i < a.len() ==> (#[trigger] a[i]).to_multiset() == b[i].to_multiset()
}

/// The order of a document's values does not change a byte of a
/// SORTED_NUMERIC field.
pub proof fn law_sorted_numeric_holds_multisets(
    field_number: i32,
    a: Seq<Seq<i64>>,
    b: Seq<Seq<i64>>,
    docs: Seq<u32>,
    max_doc: nat,
    offset: nat,
)
    requires
        same_values(a, b),
    ensures
        ordered_lists(a) == ordered_lists(b),
        sorted_numeric_meta(field_number, ordered_lists(a), docs, max_doc, offset) == sorted_numeric_meta(
            field_number,
            ordered_lists(b),
            docs,
            max_doc,
            offset,
        ),
        lists_data(ordered_lists(a), docs, max_doc, multi_valued(ordered_lists(a))) == lists_data(
            ordered_lists(b),
            docs,
            max_doc,
            multi_valued(ordered_lists(b)),
        ),
{
    assert forall|i: int| 0 <= i < a.len() implies in_order(#[trigger] a[i]) == in_order(b[i]) by {
        a[i].lemma_sort_by_ensures(at_most());
        b[i].lemma_sort_by_ensures(at_most());
        law_in_order(a[i]);
        law_in_order(b[i]);
        lemma_sorted_unique(in_order(a[i]), in_order(b[i]), at_most());
    }
    assert(ordered_lists(a) =~= ordered_lists(b));
}

/// A SORTED_NUMERIC field in which each document has one value has the
/// NUMERIC layout, with the count of documents behind it.
pub proof fn law_single_sorted_numeric_is_numeric(
    field_number: i32,
    values: Seq<i64>,
    docs: Seq<u32>,
    max_doc: nat,
    offset: nat,
)
    ensures
        ({
            let v = ordered_lists(Seq::new(values.len(), |i: int| seq![values[i]]));
            let m = sorted_numeric_meta(field_number, v, docs, max_doc, offset);
            let n = numeric_meta(field_number, values, docs, max_doc, offset);
            &&& m.take(4) == n.take(4)
            &&& m.skip(5) == n.skip(5) + le_i32(docs.len() as i32)
            &&& lists_data(v, docs, max_doc, multi_valued(v)) == entry_data(values, docs, max_doc)
        }),
{
    let raw = Seq::new(values.len(), |i: int| seq![values[i]]);
    let v = ordered_lists(raw);
    assert forall|i: int| 0 <= i < v.len() implies #[trigger] v[i] == seq![values[i]] by {
        law_in_order(raw[i]);
        let s = in_order(raw[i]);
        to_multiset_contains(s, s[0]);
        to_multiset_contains(raw[i], s[0]);
        assert(s.contains(s[0]));
        assert(raw[i].contains(s[0]));
        assert(s =~= seq![values[i]]);
    }
    lemma_flat_singles(v, values, v.len());
    assert(values.take(v.len() as int) =~= values);
    lemma_head(field_number, consts::TYPE_NUMERIC);
    lemma_head(field_number, consts::TYPE_SORTED_NUMERIC);
    lemma_le_bytes_len((field_number as u32) as nat, 4);
    let m = sorted_numeric_meta(field_number, v, docs, max_doc, offset);
    let n = numeric_meta(field_number, values, docs, max_doc, offset);
    assert(m.take(4) =~= le_i32(field_number));
    assert(n.take(4) =~= le_i32(field_number));
    let em = entry_meta(values, docs, max_doc, offset);
    assert(n.skip(5) =~= em);
    assert(m.skip(5) =~= em + le_i32(docs.len() as i32));
    assert(lists_data(v, docs, max_doc, multi_valued(v)) =~= entry_data(values, docs, max_doc));
}

} // verus!
