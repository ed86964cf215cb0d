//! Byte strings in lexicographic order, and sorted lists of distinct ones.

use vstd::prelude::*;
use crate::text::same_bytes;

verus! {

/// `a` comes before `b`.
pub open spec fn term_less(a: Seq<u8>, b: Seq<u8>) -> bool
    decreases a.len(),
{
    if b.len() == 0 {
        false
    } else if a.len() == 0 {
        true
    } else if a[0] != b[0] {
        a[0] < b[0]
    } else {
        term_less(a.drop_first(), b.drop_first())
    }
}

pub proof fn lemma_less_irreflexive(a: Seq<u8>)
    ensures
        !term_less(a, a),
    decreases a.len(),
{
    if a.len() > 0 {
        lemma_less_irreflexive(a.drop_first());
    }
}

pub proof fn lemma_less_transitive(a: Seq<u8>, b: Seq<u8>, c: Seq<u8>)
    requires
        term_less(a, b),
        term_less(b, c),
    ensures
        term_less(a, c),
    decreases a.len(),
{
    if a.len() > 0 && a[0] == b[0] && b[0] == c[0] {
        lemma_less_transitive(a.drop_first(), b.drop_first(), c.drop_first());
    }
}

pub proof fn lemma_less_total(a: Seq<u8>, b: Seq<u8>)
    ensures
        a == b || term_less(a, b) || term_less(b, a),
    decreases a.len(),
{
    if a.len() > 0 && b.len() > 0 && a[0] == b[0] {
        lemma_less_total(a.drop_first(), b.drop_first());
        if a.drop_first() == b.drop_first() {
            assert(a =~= seq![a[0]] + a.drop_first());
            assert(b =~= seq![b[0]] + b.drop_first());
        }
    } else if a.len() == 0 && b.len() == 0 {
        assert(a =~= b);
    }
}

pub proof fn lemma_less_asymmetric(a: Seq<u8>, b: Seq<u8>)
    requires
        term_less(a, b),
    ensures
        !term_less(b, a),
        a != b,
{
    lemma_less_irreflexive(a);
    if term_less(b, a) {
        lemma_less_transitive(a, b, a);
    }
}

/// Each term comes before the next: sorted and without repetition.
pub open spec fn terms_sorted(t: Seq<Seq<u8>>) -> bool {
    forall|i: int, j: int| 0 <= i < j < t.len() ==> term_less(#[trigger] t[i], #[trigger] t[j])
}

/// `d` lists the members of `terms`, sorted and each once.
pub open spec fn is_dictionary(d: Seq<Seq<u8>>, terms: Seq<Seq<u8>>) -> bool {
    &&& terms_sorted(d)
    &&& forall|x: Seq<u8>| #[trigger] d.contains(x) <==> terms.contains(x)
}

/// The sorted list of the distinct members of `terms`.
pub open spec fn dictionary_of(terms: Seq<Seq<u8>>) -> Seq<Seq<u8>> {
    choose|d: Seq<Seq<u8>>| is_dictionary(d, terms)
}

/// Two sorted lists with the same members are the same list.
pub proof fn lemma_dictionary_unique(a: Seq<Seq<u8>>, b: Seq<Seq<u8>>)
    requires
        terms_sorted(a),
        terms_sorted(b),
        forall|x: Seq<u8>| #[trigger] a.contains(x) <==> b.contains(x),
    ensures
        a == b,
    decreases a.len(),
{
    if a.len() == 0 {
        if b.len() > 0 {
            assert(b.contains(b[0]));
            assert(a.contains(b[0]));
        }
        assert(a =~= b);
    } else if b.len() == 0 {
        assert(a.contains(a[0]));
        assert(b.contains(a[0]));
    } else {
        assert(a[0] == b[0]) by {
            assert(a.contains(a[0]));
            assert(b.contains(a[0]));
            assert(b.contains(b[0]));
            assert(a.contains(b[0]));
            let i = choose|i: int| 0 <= i < b.len() && b[i] == a[0];
            let j = choose|j: int| 0 <= j < a.len() && a[j] == b[0];
            if i > 0 && j > 0 {
                assert(term_less(b[0], b[i]));
                assert(term_less(a[0], a[j]));
                lemma_less_asymmetric(a[0], b[0]);
            }
        }
        let s = a.drop_first();
        let t = b.drop_first();
        assert forall|i: int, j: int| 0 <= i < j < s.len() implies term_less(#[trigger] s[i], #[trigger] s[j]) by {
            assert(term_less(a[i + 1], a[j + 1]));
        }
        assert forall|i: int, j: int| 0 <= i < j < t.len() implies term_less(#[trigger] t[i], #[trigger] t[j]) by {
            assert(term_less(b[i + 1], b[j + 1]));
        }
        assert forall|x: Seq<u8>| #[trigger] s.contains(x) <==> t.contains(x) by {
            if s.contains(x) {
                let i = choose|i: int| 0 <= i < s.len() && s[i] == x;
                assert(a[i + 1] == x);
                assert(a.contains(x));
                assert(term_less(a[0], a[i + 1]));
                lemma_less_irreflexive(x);
                let j = choose|j: int| 0 <= j < b.len() && b[j] == x;
                assert(j > 0);
                assert(t[j - 1] == x);
            }
            if t.contains(x) {
                let i = choose|i: int| 0 <= i < t.len() && t[i] == x;
                assert(b[i + 1] == x);
                assert(b.contains(x));
                assert(term_less(b[0], b[i + 1]));
                lemma_less_irreflexive(x);
                assert(a.contains(x));
                let j = choose|j: int| 0 <= j < a.len() && a[j] == x;
                assert(j > 0);
                assert(s[j - 1] == x);
            }
        }
        lemma_dictionary_unique(s, t);
        assert(a =~= seq![a[0]] + s);
        assert(b =~= seq![b[0]] + t);
    }
}

/// A sorted list of the distinct members is the dictionary.
pub proof fn lemma_is_dictionary(d: Seq<Seq<u8>>, terms: Seq<Seq<u8>>)
    requires
        is_dictionary(d, terms),
    ensures
        dictionary_of(terms) == d,
{
    let c = dictionary_of(terms);
    assert(is_dictionary(c, terms));
    assert forall|x: Seq<u8>| #[trigger] c.contains(x) <==> d.contains(x) by {}
    lemma_dictionary_unique(c, d);
}

/// A sorted list with one more term in its place.
spec fn with_term(d: Seq<Seq<u8>>, x: Seq<u8>) -> Seq<Seq<u8>>
    decreases d.len(),
{
    if d.len() == 0 || term_less(x, d[0]) {
        seq![x] + d
    } else {
        seq![d[0]] + with_term(d.drop_first(), x)
    }
}

proof fn lemma_with_term(d: Seq<Seq<u8>>, x: Seq<u8>)
    requires
        terms_sorted(d),
        !d.contains(x),
    ensures
        terms_sorted(with_term(d, x)),
        forall|y: Seq<u8>| #[trigger] with_term(d, x).contains(y) <==> (d.contains(y) || y == x),
    decreases d.len(),
{
    let w = with_term(d, x);
    if d.len() == 0 || term_less(x, d[0]) {
        assert forall|i: int, j: int| 0 <= i < j < w.len() implies term_less(#[trigger] w[i], #[trigger] w[j]) by {
            if i > 0 {
                assert(term_less(d[i - 1], d[j - 1]));
            } else if j > 1 {
                assert(term_less(d[0], d[j - 1]));
                lemma_less_transitive(x, d[0], d[j - 1]);
            }
        }
        assert forall|y: Seq<u8>| #[trigger] w.contains(y) <==> (d.contains(y) || y == x) by {
            lemma_concat_contains(seq![x], d, y);
            assert(seq![x][0] == x);
        }
    } else {
        let rest = d.drop_first();
        assert(d =~= seq![d[0]] + rest);
        assert forall|y: Seq<u8>| #[trigger] d.contains(y) <==> (y == d[0] || rest.contains(y)) by {
            lemma_concat_contains(seq![d[0]], rest, y);
            assert(seq![d[0]][0] == d[0]);
        }
        assert forall|i: int, j: int| 0 <= i < j < rest.len() implies term_less(#[trigger] rest[i], #[trigger] rest[j]) by {
            assert(term_less(d[i + 1], d[j + 1]));
        }
        lemma_with_term(rest, x);
        let tail = with_term(rest, x);
        assert(d.contains(d[0]));
        lemma_less_total(x, d[0]);
        assert forall|i: int, j: int| 0 <= i < j < w.len() implies term_less(#[trigger] w[i], #[trigger] w[j]) by {
            if i > 0 {
                assert(term_less(tail[i - 1], tail[j - 1]));
            } else {
                let y = tail[j - 1];
                assert(tail.contains(y));
                if y != x {
                    let k = choose|k: int| 0 <= k < rest.len() && rest[k] == y;
                    assert(term_less(d[0], d[k + 1]));
                }
            }
        }
        assert forall|y: Seq<u8>| #[trigger] w.contains(y) <==> (d.contains(y) || y == x) by {
            lemma_concat_contains(seq![d[0]], tail, y);
            assert(seq![d[0]][0] == d[0]);
        }
    }
}

proof fn lemma_some_dictionary(terms: Seq<Seq<u8>>) -> (d: Seq<Seq<u8>>)
    ensures
        is_dictionary(d, terms),
    decreases terms.len(),
{
    if terms.len() == 0 {
        terms
    } else {
        let x = terms.last();
        let front = terms.drop_last();
        let d = lemma_some_dictionary(front);
        assert(terms =~= front.push(x));
        assert forall|y: Seq<u8>| #[trigger] terms.contains(y) <==> (front.contains(y) || y == x) by {
            lemma_push_contains(front, x, y);
        }
        if d.contains(x) {
            d
        } else {
            lemma_with_term(d, x);
            with_term(d, x)
        }
    }
}

/// Every list of terms has a dictionary: sorted, each member once, and no
/// other.
pub proof fn law_dictionary_exists(terms: Seq<Seq<u8>>)
    ensures
        is_dictionary(dictionary_of(terms), terms),
{
    let d = lemma_some_dictionary(terms);
    lemma_is_dictionary(d, terms);
}

/// Order and repetition do not matter to a dictionary.
pub proof fn law_dictionary_of_members(a: Seq<Seq<u8>>, b: Seq<Seq<u8>>)
    requires
        forall|x: Seq<u8>| #[trigger] a.contains(x) <==> b.contains(x),
    ensures
        dictionary_of(a) == dictionary_of(b),
{
    law_dictionary_exists(a);
    law_dictionary_exists(b);
    let d = dictionary_of(a);
    assert forall|x: Seq<u8>| #[trigger] d.contains(x) <==> b.contains(x) by {
        assert(a.contains(x) <==> b.contains(x));
    }
    lemma_is_dictionary(d, b);
}

/// Byte slices as byte strings.
pub open spec fn slices(s: Seq<&[u8]>) -> Seq<Seq<u8>> {
    Seq::new(s.len(), |i: int| s[i]@)
}

/// Whether `a` comes before `b`.
pub fn less(a: &[u8], b: &[u8]) -> (r: bool)
    ensures
        r == term_less(a@, b@),
{
    let mut i: usize = 0;
    assert(a@.skip(0) =~= a@);
    assert(b@.skip(0) =~= b@);
    while i < a.len() && i < b.len()
        invariant
            i <= a@.len(),
            i <= b@.len(),
            term_less(a@.skip(i as int), b@.skip(i as int)) == term_less(a@, b@),
        decreases a@.len() - i,
    {
        assert(a@.skip(i as int)[0] == a@[i as int]);
        assert(b@.skip(i as int)[0] == b@[i as int]);
        if a[i] != b[i] {
            return a[i] < b[i];
        }
        assert(a@.skip(i as int).drop_first() =~= a@.skip(i + 1));
        assert(b@.skip(i as int).drop_first() =~= b@.skip(i + 1));
        i = i + 1;
    }
    i < b.len()
}

/// `x` comes before every member of `s` from `from` on.
spec fn before_from(x: Seq<u8>, s: Seq<Seq<u8>>, from: int) -> bool {
    forall|k: int| from <= k < s.len() ==> term_less(x, #[trigger] s[k])
}

/// Merges two sorted lists, keeping one of each.
fn merge_distinct<'a>(a: &[&'a [u8]], b: &[&'a [u8]]) -> (r: Vec<&'a [u8]>)
    requires
        terms_sorted(slices(a@)),
        terms_sorted(slices(b@)),
    ensures
        terms_sorted(slices(r@)),
        forall|x: Seq<u8>| #[trigger]
            slices(r@).contains(x) <==> (slices(a@).contains(x) || slices(b@).contains(x)),
{
    let ghost sa = slices(a@);
    let ghost sb = slices(b@);
    let mut r: Vec<&'a [u8]> = Vec::new();
    let mut i: usize = 0;
    let mut j: usize = 0;
    while i < a.len() || j < b.len()
        invariant
            i <= a@.len(),
            j <= b@.len(),
            sa == slices(a@),
            sb == slices(b@),
            terms_sorted(sa),
            terms_sorted(sb),
            terms_sorted(slices(r@)),
            forall|k: int| 0 <= k < r@.len() ==> before_from(#[trigger] slices(r@)[k], sa, i as int) && before_from(
                slices(r@)[k],
                sb,
                j as int,
            ),
            forall|x: Seq<u8>| #[trigger]
                slices(r@).contains(x) <==> (sa.take(i as int).contains(x) || sb.take(j as int).contains(x)),
        decreases a@.len() - i + b@.len() - j,
    {
        let ghost before = slices(r@);
        let ghost i0 = i as int;
        let ghost j0 = j as int;
        let take_a: bool = i < a.len() && (j >= b.len() || !less(b[j], a[i]));
        let take_b: bool = j < b.len() && (i >= a.len() || !less(a[i], b[j]));
        proof {
            if i < a.len() && j < b.len() {
                lemma_less_total(sa[i0], sb[j0]);
                if term_less(sa[i0], sb[j0]) {
                    lemma_less_asymmetric(sa[i0], sb[j0]);
                }
                if term_less(sb[j0], sa[i0]) {
                    lemma_less_asymmetric(sb[j0], sa[i0]);
                }
            }
        }
        let next: &'a [u8] = if take_a {
            a[i]
        } else {
            b[j]
        };
        if take_a {
            i = i + 1;
        }
        if take_b {
            j = j + 1;
        }
        r.push(next);
        proof {
            let x = next@;
            let after = slices(r@);
            assert(after =~= before.push(x));
            assert forall|k: int| i <= k < sa.len() implies term_less(x, #[trigger] sa[k]) by {
                if take_a {
                    assert(term_less(sa[i0], sa[k]));
                } else {
                    if k > i0 {
                        assert(term_less(sa[i0], sa[k]));
                        lemma_less_transitive(x, sa[i0], sa[k]);
                    }
                }
            }
            assert(before_from(x, sa, i as int));
            assert forall|k: int| j <= k < sb.len() implies term_less(x, #[trigger] sb[k]) by {
                if take_b {
                    assert(term_less(sb[j0], sb[k]));
                } else {
                    if k > j0 {
                        assert(term_less(sb[j0], sb[k]));
                        lemma_less_transitive(x, sb[j0], sb[k]);
                    }
                }
            }
            assert(before_from(x, sb, j as int));
            assert forall|k: int| 0 <= k < r@.len() implies before_from(#[trigger] after[k], sa, i as int) && before_from(
                after[k],
                sb,
                j as int,
            ) by {
                if k < before.len() {
                    assert(before[k] == after[k]);
                    assert(before_from(before[k], sa, i0));
                    assert(before_from(before[k], sb, j0));
                }
            }
            assert forall|p: int, q: int| 0 <= p < q < after.len() implies term_less(
                #[trigger] after[p],
                #[trigger] after[q],
            ) by {
                if q == before.len() {
                    assert(before[p] == after[p]);
                    assert(before_from(before[p], sa, i0));
                    assert(before_from(before[p], sb, j0));
                    if take_a {
                        assert(term_less(before[p], sa[i0]));
                    } else {
                        assert(term_less(before[p], sb[j0]));
                    }
                } else {
                    assert(term_less(before[p], before[q]));
                }
            }
            lemma_take_contains(sa, i0, i as int);
            lemma_take_contains(sb, j0, j as int);
            assert forall|y: Seq<u8>| #[trigger] after.contains(y) <==> (sa.take(i as int).contains(y) || sb.take(
                j as int,
            ).contains(y)) by {
                lemma_push_contains(before, x, y);
                assert(before.contains(y) <==> (sa.take(i0).contains(y) || sb.take(j0).contains(y)));
                assert(sa.take(i as int).contains(y) <==> (sa.take(i0).contains(y) || (i > i0 && y == sa[i0])));
                assert(sb.take(j as int).contains(y) <==> (sb.take(j0).contains(y) || (j > j0 && y == sb[j0])));
            }
        }
    }
    assert(sa.take(i as int) =~= sa);
    assert(sb.take(j as int) =~= sb);
    r
}

pub proof fn lemma_push_contains(s: Seq<Seq<u8>>, x: Seq<u8>, y: Seq<u8>)
    ensures
        s.push(x).contains(y) <==> (s.contains(y) || y == x),
{
    let p = s.push(x);
    if s.contains(y) {
        let i = choose|i: int| 0 <= i < s.len() && s[i] == y;
        assert(p[i] == y);
    }
    if y == x {
        assert(p[s.len() as int] == y);
    }
    if p.contains(y) {
        let i = choose|i: int| 0 <= i < p.len() && p[i] == y;
        if i < s.len() {
            assert(s[i] == y);
        }
    }
}

/// One more member of a prefix.
proof fn lemma_take_contains(s: Seq<Seq<u8>>, m: int, n: int)
    requires
        0 <= m <= n <= s.len(),
        n <= m + 1,
    ensures
        forall|y: Seq<u8>| #[trigger]
            s.take(n).contains(y) <==> (s.take(m).contains(y) || (n > m && y == s[m])),
{
    if n > m {
        assert(s.take(n) =~= s.take(m).push(s[m]));
        assert forall|y: Seq<u8>| #[trigger] s.take(n).contains(y) <==> (s.take(m).contains(y) || (n > m && y == s[m])) by {
            lemma_push_contains(s.take(m), s[m], y);
        }
    }
}

/// The distinct members of `terms[from..to]`, sorted.
fn sort_range<'a>(terms: &[&'a [u8]], from: usize, to: usize) -> (r: Vec<&'a [u8]>)
    requires
        from <= to <= terms@.len(),
    ensures
        is_dictionary(slices(r@), slices(terms@).subrange(from as int, to as int)),
    decreases to - from,
{
    let ghost all = slices(terms@);
    if to - from <= 1 {
        let mut r: Vec<&'a [u8]> = Vec::new();
        if from < to {
            r.push(terms[from]);
        }
        assert(slices(r@) =~= all.subrange(from as int, to as int));
        return r;
    }
    let mid: usize = from + (to - from) / 2;
    let a: Vec<&'a [u8]> = sort_range(terms, from, mid);
    let b: Vec<&'a [u8]> = sort_range(terms, mid, to);
    let r: Vec<&'a [u8]> = merge_distinct(a.as_slice(), b.as_slice());
    proof {
        let x = all.subrange(from as int, mid as int);
        let y = all.subrange(mid as int, to as int);
        let z = all.subrange(from as int, to as int);
        assert(z =~= x + y);
        assert forall|t: Seq<u8>| #[trigger] slices(r@).contains(t) <==> z.contains(t) by {
            lemma_concat_contains(x, y, t);
            assert(slices(a@).contains(t) <==> x.contains(t));
            assert(slices(b@).contains(t) <==> y.contains(t));
        }
    }
    r
}

pub proof fn lemma_concat_contains(x: Seq<Seq<u8>>, y: Seq<Seq<u8>>, t: Seq<u8>)
    ensures
        (x + y).contains(t) <==> (x.contains(t) || y.contains(t)),
{
    if x.contains(t) {
        let i = choose|i: int| 0 <= i < x.len() && x[i] == t;
        assert((x + y)[i] == t);
    }
    if y.contains(t) {
        let i = choose|i: int| 0 <= i < y.len() && y[i] == t;
        assert((x + y)[x.len() + i] == t);
    }
    if (x + y).contains(t) {
        let i = choose|i: int| 0 <= i < (x + y).len() && (x + y)[i] == t;
        if i < x.len() {
            assert(x[i] == t);
        } else {
            assert(y[i - x.len()] == t);
        }
    }
}

/// The distinct members of `terms`, sorted.
pub fn sort_distinct<'a>(terms: &[&'a [u8]]) -> (r: Vec<&'a [u8]>)
    ensures
        is_dictionary(slices(r@), slices(terms@)),
        slices(r@) == dictionary_of(slices(terms@)),
{
    let r: Vec<&'a [u8]> = sort_range(terms, 0, terms.len());
    proof {
        assert(slices(terms@).subrange(0, terms@.len() as int) =~= slices(terms@));
        lemma_is_dictionary(slices(r@), slices(terms@));
    }
    r
}

/// The place of a term in a sorted list.
pub fn find_term(dict: &[&[u8]], term: &[u8]) -> (r: Option<usize>)
    requires
        terms_sorted(slices(dict@)),
    ensures
        r matches Some(k) ==> k < dict@.len() && dict@[k as int]@ == term@,
        r is None ==> !slices(dict@).contains(term@),
{
    let ghost d = slices(dict@);
    let mut lo: usize = 0;
    let mut hi: usize = dict.len();
    while lo < hi
        invariant
            d == slices(dict@),
            terms_sorted(d),
            lo <= hi <= dict@.len(),
            forall|i: int| 0 <= i < lo ==> term_less(#[trigger] d[i], term@),
            forall|i: int| hi <= i < d.len() ==> !term_less(#[trigger] d[i], term@),
        decreases hi - lo,
    {
        let mid: usize = lo + (hi - lo) / 2;
        if less(dict[mid], term) {
            assert forall|i: int| 0 <= i < mid + 1 implies term_less(#[trigger] d[i], term@) by {
                if i < mid {
                    assert(term_less(d[i], d[mid as int]));
                    lemma_less_transitive(d[i], d[mid as int], term@);
                }
            }
            lo = mid + 1;
        } else {
            assert forall|i: int| mid <= i < d.len() implies !term_less(#[trigger] d[i], term@) by {
                if i > mid && term_less(d[i], term@) {
                    assert(term_less(d[mid as int], d[i]));
                    lemma_less_transitive(d[mid as int], d[i], term@);
                }
            }
            hi = mid;
        }
    }
    if lo < dict.len() && same_bytes(dict[lo], term) {
        return Some(lo);
    }
    proof {
        if d.contains(term@) {
            let i = choose|i: int| 0 <= i < d.len() && d[i] == term@;
            lemma_less_irreflexive(term@);
            if i > lo {
                assert(term_less(d[lo as int], d[i]));
            }
        }
    }
    None
}

/// One term comes before another where it ends first, or has the lesser byte,
/// at the first place where they are not the same.
pub proof fn law_term_order(a: Seq<u8>, b: Seq<u8>, k: int)
    requires
        0 <= k <= a.len(),
        k <= b.len(),
        a.take(k) == b.take(k),
        k < a.len() && k < b.len() ==> a[k] != b[k],
    ensures
        term_less(a, b) <==> k < b.len() && (k == a.len() || a[k] < b[k]),
    decreases k,
{
    if k > 0 {
        assert(a[0] == a.take(k)[0]);
        assert(b[0] == b.take(k)[0]);
        assert(a.drop_first().take(k - 1) =~= a.take(k).drop_first());
        assert(b.drop_first().take(k - 1) =~= b.take(k).drop_first());
        law_term_order(a.drop_first(), b.drop_first(), k - 1);
    }
}

} // verus!
