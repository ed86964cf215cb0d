//! One coherent dictionary across a stream's segments.
//!
//! Per-segment dictionaries are byte-sorted, so the global dictionary is a
//! merge that collapses duplicates; each segment gets a table from its own
//! ordinals to global ones.

use vstd::prelude::*;
use crate::column::{
    block_numbers, block_values, finish_value, finishable, finished, stream_from, Epilogue,
};
use crate::error::{Error, ErrorKind, Result};
use crate::lexicon::{
    dictionary_of, is_dictionary, law_dictionary_exists, lemma_concat_contains, lemma_is_dictionary, lemma_less_asymmetric,
    lemma_less_irreflexive, lemma_less_total, lemma_less_transitive, less, term_less, terms_sorted,
};
use crate::plan::{blocks_model, BlockDecode, BlockModel, DecodePlan, PlanModel};
use crate::terms::{lemma_offset_bounds, total_bytes, TermsDict};
use crate::text::same_bytes;

verus! {

/// Global dictionary and per-segment tables.
#[derive(Debug)]
pub struct OrdinalMap {
    /// Global terms, byte-sorted and distinct.
    pub values: TermsDict,
    /// `remap[seg][local_ord]` is the global ordinal.
    pub remap: Vec<Vec<i32>>,
}

/// The terms of all dictionaries, one behind the other.
pub open spec fn all_terms(dicts: Seq<&TermsDict>) -> Seq<Seq<u8>>
    decreases dicts.len(),
{
    if dicts.len() == 0 {
        Seq::empty()
    } else {
        all_terms(dicts.drop_last()) + dicts.last().terms()
    }
}

/// Dictionaries that can be merged: well-formed, and sorted each.
pub open spec fn mergeable(dicts: Seq<&TermsDict>) -> bool {
    forall|s: int| 0 <= s < dicts.len() ==> (#[trigger] dicts[s]).valid() && terms_sorted(dicts[s].terms())
}

/// `map` takes each segment's ordinals to the global ordinals of the same
/// terms.
pub open spec fn remaps(map: &OrdinalMap, dicts: Seq<&TermsDict>) -> bool {
    &&& map.remap@.len() == dicts.len()
    &&& forall|s: int|
        0 <= s < dicts.len() ==> (#[trigger] map.remap@[s])@.len() == dicts[s].terms().len()
    &&& forall|s: int, k: int|
        0 <= s < dicts.len() && 0 <= k < dicts[s].terms().len() ==> {
            let g = #[trigger] map.remap@[s]@[k];
            0 <= g < map.values.terms().len() && map.values.terms()[g as int] == dicts[s].terms()[k]
        }
}

proof fn lemma_all_terms(dicts: Seq<&TermsDict>, x: Seq<u8>)
    ensures
        all_terms(dicts).contains(x) <==> exists|s: int, k: int|
            0 <= s < dicts.len() && 0 <= k < dicts[s].terms().len() && #[trigger] dicts[s].terms()[k] == x,
    decreases dicts.len(),
{
    if dicts.len() > 0 {
        let t = dicts.drop_last();
        lemma_all_terms(t, x);
        lemma_concat_contains(all_terms(t), dicts.last().terms(), x);
        if all_terms(t).contains(x) {
            let (s, k) = choose|s: int, k: int|
                0 <= s < t.len() && 0 <= k < t[s].terms().len() && #[trigger] t[s].terms()[k] == x;
            assert(dicts[s].terms()[k] == x);
        }
        if dicts.last().terms().contains(x) {
            let k = choose|k: int| 0 <= k < dicts.last().terms().len() && dicts.last().terms()[k] == x;
            assert(dicts[dicts.len() - 1].terms()[k] == x);
        }
        if exists|s: int, k: int|
            0 <= s < dicts.len() && 0 <= k < dicts[s].terms().len() && #[trigger] dicts[s].terms()[k] == x {
            let (s, k) = choose|s: int, k: int|
                0 <= s < dicts.len() && 0 <= k < dicts[s].terms().len() && #[trigger] dicts[s].terms()[k] == x;
            if s < t.len() {
                assert(t[s].terms()[k] == x);
            } else {
                assert(dicts.last().terms()[k] == x);
            }
        }
    }
}

/// How many terms are still to come.
spec fn remaining(dicts: Seq<&TermsDict>, pos: Seq<usize>, n: nat) -> int
    decreases n,
{
    if n == 0 {
        0
    } else {
        remaining(dicts, pos, (n - 1) as nat) + dicts[n - 1].terms().len() - pos[n - 1]
    }
}

proof fn lemma_remaining(dicts: Seq<&TermsDict>, pos: Seq<usize>, s: int, p: usize, n: nat)
    requires
        0 <= s < pos.len(),
        n <= pos.len(),
        p == pos[s] + 1,
    ensures
        remaining(dicts, pos.update(s, p), n) == remaining(dicts, pos, n) - if s < n {
            1int
        } else {
            0int
        },
    decreases n,
{
    if n > 0 {
        lemma_remaining(dicts, pos, s, p, (n - 1) as nat);
    }
}

proof fn lemma_remaining_nonneg(dicts: Seq<&TermsDict>, pos: Seq<usize>, n: nat)
    requires
        n <= dicts.len(),
        n <= pos.len(),
        forall|s: int| 0 <= s < dicts.len() ==> #[trigger] pos[s] <= dicts[s].terms().len(),
    ensures
        remaining(dicts, pos, n) >= 0,
    decreases n,
{
    if n > 0 {
        lemma_remaining_nonneg(dicts, pos, (n - 1) as nat);
        assert(pos[n - 1] <= dicts[n - 1].terms().len());
    }
}

/// Sorted terms take a byte each, but for the first.
pub proof fn lemma_sorted_bytes(t: Seq<Seq<u8>>)
    requires
        terms_sorted(t),
    ensures
        t.len() <= total_bytes(t) + 1,
    decreases t.len(),
{
    if t.len() > 1 {
        let s = t.drop_last();
        assert forall|i: int, j: int| 0 <= i < j < s.len() implies term_less(#[trigger] s[i], #[trigger] s[j]) by {
            assert(term_less(t[i], t[j]));
        }
        lemma_sorted_bytes(s);
        assert(term_less(t[0], t[t.len() - 1]));
    }
}

/// The segment whose next term comes first.
fn least_head(dicts: &[&TermsDict], pos: &Vec<usize>) -> (r: Option<usize>)
    requires
        mergeable(dicts@),
        pos@.len() == dicts@.len(),
        forall|s: int| 0 <= s < dicts@.len() ==> #[trigger] pos@[s] <= dicts@[s].terms().len(),
    ensures
        match r {
            Some(m) => m < dicts@.len() && pos@[m as int] < dicts@[m as int].terms().len() && forall|s: int|
                0 <= s < dicts@.len() && pos@[s] < dicts@[s].terms().len() ==> !term_less(
                    #[trigger] dicts@[s].terms()[pos@[s] as int],
                    dicts@[m as int].terms()[pos@[m as int] as int],
                ),
            None => forall|s: int| 0 <= s < dicts@.len() ==> #[trigger] pos@[s] == dicts@[s].terms().len(),
        },
{
    let mut best: Option<usize> = None;
    let mut i: usize = 0;
    while i < dicts.len()
        invariant
            i <= dicts@.len(),
            mergeable(dicts@),
            pos@.len() == dicts@.len(),
            forall|s: int| 0 <= s < dicts@.len() ==> #[trigger] pos@[s] <= dicts@[s].terms().len(),
            match best {
                Some(m) => m < i && pos@[m as int] < dicts@[m as int].terms().len() && forall|s: int|
                    0 <= s < i && pos@[s] < dicts@[s].terms().len() ==> !term_less(
                        #[trigger] dicts@[s].terms()[pos@[s] as int],
                        dicts@[m as int].terms()[pos@[m as int] as int],
                    ),
                None => forall|s: int| 0 <= s < i ==> #[trigger] pos@[s] == dicts@[s].terms().len(),
            },
        decreases dicts@.len() - i,
    {
        assert(dicts@[i as int].valid());
        assert(pos@[i as int] <= dicts@[i as int].terms().len());
        if pos[i] < dicts[i].len() {
            let head: &[u8] = dicts[i].term(pos[i]);
            match best {
                Some(m) => {
                    assert(dicts@[m as int].valid());
                    let lead: &[u8] = dicts[m].term(pos[m]);
                    if less(head, lead) {
                        proof {
                            lemma_less_irreflexive(head@);
                            assert forall|s: int| 0 <= s < i + 1 && pos@[s] < dicts@[s].terms().len() implies !term_less(
                                #[trigger] dicts@[s].terms()[pos@[s] as int],
                                head@,
                            ) by {
                                let t = dicts@[s].terms()[pos@[s] as int];
                                if s < i && term_less(t, head@) {
                                    lemma_less_transitive(t, head@, lead@);
                                }
                            }
                        }
                        best = Some(i);
                    }
                },
                None => {
                    proof {
                        lemma_less_irreflexive(head@);
                    }
                    best = Some(i);
                },
            }
        }
        i = i + 1;
    }
    best
}

/// Adds a term to a dictionary.
fn push_term(d: &mut TermsDict, term: &[u8]) -> (r: Result<()>)
    requires
        old(d).valid(),
    ensures
        total_bytes(old(d).terms().push(term@)) <= i32::MAX ==> r is Ok && final(d).valid() && final(d).terms()
            == old(d).terms().push(term@),
        total_bytes(old(d).terms().push(term@)) > i32::MAX ==> (r matches Err(e) && e.kind() == ErrorKind::Unsupported),
{
    let ghost before = *d;
    let ghost t = before.terms();
    let n: usize = d.offsets.len();
    proof {
        lemma_dict_bytes(before, (n - 1) as int);
        assert(t.take(n - 1) =~= t);
        assert(t.push(term@).drop_last() =~= t);
    }
    if term.len() > 0x7FFF_FFFF || d.bytes.len() > 0x7FFF_FFFF - term.len() {
        return Err(Error::unsupported("global dictionary > 2 GiB"));
    }
    d.bytes.extend_from_slice(term);
    d.offsets.push(d.bytes.len() as i32);
    proof {
        assert(d.bytes@ =~= before.bytes@ + term@);
        assert forall|i: int| 0 <= i < d.offsets@.len() - 1 implies #[trigger] d.offsets@[i] <= d.offsets@[i + 1] by {
            if i < n - 1 {
                assert(before.offsets@[i] <= before.offsets@[i + 1]);
            }
        }
        assert forall|i: int| 0 <= i < d.terms().len() implies d.terms()[i] == t.push(term@)[i] by {
            if i < n - 1 {
                lemma_offset_bounds(before.offsets@, i);
                lemma_offset_bounds(before.offsets@, i + 1);
                assert(before.offsets@[i] <= before.offsets@[i + 1]);
                assert(d.terms()[i] =~= before.terms()[i]);
            } else {
                assert(d.terms()[i] =~= term@);
            }
        }
        assert(d.terms() =~= t.push(term@));
    }
    Ok(())
}

/// The first terms of a dictionary take the bytes up to their last offset.
proof fn lemma_dict_bytes(d: TermsDict, n: int)
    requires
        d.valid(),
        0 <= n < d.offsets@.len(),
    ensures
        total_bytes(d.terms().take(n)) == d.offsets@[n],
    decreases n,
{
    if n > 0 {
        lemma_dict_bytes(d, n - 1);
        let t = d.terms().take(n);
        assert(t.drop_last() =~= d.terms().take(n - 1));
        assert(t.last() == d.terms()[n - 1]);
        lemma_offset_bounds(d.offsets@, n);
        lemma_offset_bounds(d.offsets@, n - 1);
        assert(d.offsets@[n - 1] <= d.offsets@[n - 1 + 1]);
    }
}

/// The merged terms, and for each segment the places of its terms among
/// them.
struct Merged<'a> {
    terms: Vec<&'a [u8]>,
    remap: Vec<Vec<i32>>,
    /// The places, before they are narrowed.
    places: Ghost<Seq<Seq<nat>>>,
}

/// The places of the first `pos[s]` terms of each segment are known.
spec fn places_known(
    g: Seq<Seq<u8>>,
    dicts: Seq<&TermsDict>,
    pos: Seq<usize>,
    places: Seq<Seq<nat>>,
    remap: Seq<Vec<i32>>,
) -> bool {
    &&& places.len() == dicts.len()
    &&& remap.len() == dicts.len()
    &&& forall|s: int| 0 <= s < dicts.len() ==> (#[trigger] places[s]).len() == pos[s]
    &&& forall|s: int| 0 <= s < dicts.len() ==> (#[trigger] remap[s])@.len() == pos[s]
    &&& forall|s: int, k: int|
        0 <= s < dicts.len() && 0 <= k < pos[s] ==> {
            let p = #[trigger] places[s][k];
            p < g.len() && g[p as int] == dicts[s].terms()[k] && remap[s]@[k] == p as i32
        }
}

/// No term still to come is before the last one merged.
spec fn rest_not_before(g: Seq<Seq<u8>>, dicts: Seq<&TermsDict>, pos: Seq<usize>) -> bool {
    g.len() > 0 ==> forall|s: int, k: int|
        0 <= s < dicts.len() && pos[s] <= k < dicts[s].terms().len() ==> !term_less(
            #[trigger] dicts[s].terms()[k],
            g.last(),
        )
}

/// Every merged term comes from some segment.
spec fn from_segments(g: Seq<Seq<u8>>, dicts: Seq<&TermsDict>) -> bool {
    forall|i: int| 0 <= i < g.len() ==> all_terms(dicts).contains(#[trigger] g[i])
}

spec fn term_slices(s: Seq<&[u8]>) -> Seq<Seq<u8>> {
    crate::lexicon::slices(s)
}

/// After the least head is taken, no term still to come is before it.
proof fn lemma_head_least(dicts: Seq<&TermsDict>, pos: Seq<usize>, m: int)
    requires
        mergeable(dicts),
        pos.len() == dicts.len(),
        0 <= m < dicts.len(),
        pos[m] < dicts[m].terms().len(),
        forall|s: int|
            0 <= s < dicts.len() && pos[s] < dicts[s].terms().len() ==> !term_less(
                #[trigger] dicts[s].terms()[pos[s] as int],
                dicts[m].terms()[pos[m] as int],
            ),
    ensures
        forall|s: int, k: int|
            0 <= s < dicts.len() && pos[s] <= k < dicts[s].terms().len() ==> !term_less(
                #[trigger] dicts[s].terms()[k],
                dicts[m].terms()[pos[m] as int],
            ),
{
    let h = dicts[m].terms()[pos[m] as int];
    assert forall|s: int, k: int| 0 <= s < dicts.len() && pos[s] <= k < dicts[s].terms().len() implies !term_less(
        #[trigger] dicts[s].terms()[k],
        h,
    ) by {
        let t = dicts[s].terms();
        assert(dicts[s].valid());
        if k > pos[s] && term_less(t[k], h) {
            assert(term_less(t[pos[s] as int], t[k]));
            lemma_less_transitive(t[pos[s] as int], t[k], h);
        }
    }
}

/// What holds while dictionaries are merged.
spec fn merging(
    g: Seq<Seq<u8>>,
    dicts: Seq<&TermsDict>,
    pos: Seq<usize>,
    places: Seq<Seq<nat>>,
    remap: Seq<Vec<i32>>,
) -> bool {
    &&& mergeable(dicts)
    &&& pos.len() == dicts.len()
    &&& forall|s: int| 0 <= s < dicts.len() ==> #[trigger] pos[s] <= dicts[s].terms().len()
    &&& terms_sorted(g)
    &&& from_segments(g, dicts)
    &&& rest_not_before(g, dicts, pos)
    &&& places_known(g, dicts, pos, places, remap)
}

/// A sorted list stays sorted with a term behind its last.
proof fn lemma_sorted_push(g: Seq<Seq<u8>>, h: Seq<u8>)
    requires
        terms_sorted(g),
        g.len() > 0 ==> term_less(g.last(), h),
    ensures
        terms_sorted(g.push(h)),
{
    let p = g.push(h);
    assert forall|a: int, b: int| 0 <= a < b < p.len() implies term_less(#[trigger] p[a], #[trigger] p[b]) by {
        if b < g.len() {
            assert(term_less(g[a], g[b]));
        } else if a < g.len() - 1 {
            assert(term_less(g[a], g[g.len() - 1]));
            lemma_less_transitive(g[a], g.last(), h);
        }
    }
}

/// Taking a head keeps the places that are known, and adds one.
proof fn lemma_places_step(
    g0: Seq<Seq<u8>>,
    g: Seq<Seq<u8>>,
    dicts: Seq<&TermsDict>,
    pos0: Seq<usize>,
    places0: Seq<Seq<nat>>,
    remap0: Seq<Vec<i32>>,
    m: int,
    next: usize,
    row: Vec<i32>,
)
    requires
        places_known(g0, dicts, pos0, places0, remap0),
        pos0.len() == dicts.len(),
        0 <= m < dicts.len(),
        next == pos0[m] + 1,
        next <= dicts[m].terms().len(),
        g.len() > 0,
        g0.len() <= g.len(),
        forall|i: int| 0 <= i < g0.len() ==> #[trigger] g[i] == g0[i],
        g.last() == dicts[m].terms()[pos0[m] as int],
        row@ == remap0[m]@.push((g.len() - 1) as i32),
    ensures
        places_known(
            g,
            dicts,
            pos0.update(m, next),
            places0.update(m, places0[m].push((g.len() - 1) as nat)),
            remap0.update(m, row),
        ),
{
    let pos = pos0.update(m, next);
    let places = places0.update(m, places0[m].push((g.len() - 1) as nat));
    let remap = remap0.update(m, row);
    assert(places0[m].len() == pos0[m]);
    assert(remap0[m]@.len() == pos0[m]);
    assert forall|s: int| 0 <= s < dicts.len() implies (#[trigger] places[s]).len() == pos[s] by {
        assert(places0[s].len() == pos0[s]);
    }
    assert forall|s: int| 0 <= s < dicts.len() implies (#[trigger] remap[s])@.len() == pos[s] by {
        assert(remap0[s]@.len() == pos0[s]);
    }
    assert forall|s: int, k: int| 0 <= s < dicts.len() && 0 <= k < pos[s] implies {
        let p = #[trigger] places[s][k];
        p < g.len() && g[p as int] == dicts[s].terms()[k] && remap[s]@[k] == p as i32
    } by {
        assert(places0[s].len() == pos0[s]);
        if s != m || k < pos0[m] {
            let p = places0[s][k];
            assert(p < g0.len() && g0[p as int] == dicts[s].terms()[k] && remap0[s]@[k] == p as i32);
            assert(g[p as int] == g0[p as int]);
        }
    }
}

/// Takes the next term of segment `m`, whose head comes first.
fn take_head<'a>(
    dicts: &[&'a TermsDict],
    m: usize,
    pos: &mut Vec<usize>,
    terms: &mut Vec<&'a [u8]>,
    remap: &mut Vec<Vec<i32>>,
    places: Ghost<Seq<Seq<nat>>>,
) -> (r: Ghost<Seq<Seq<nat>>>)
    requires
        merging(term_slices(old(terms)@), dicts@, old(pos)@, places@, old(remap)@),
        m < dicts@.len(),
        old(pos)@[m as int] < dicts@[m as int].terms().len(),
        forall|s: int|
            0 <= s < dicts@.len() && old(pos)@[s] < dicts@[s].terms().len() ==> !term_less(
                #[trigger] dicts@[s].terms()[old(pos)@[s] as int],
                dicts@[m as int].terms()[old(pos)@[m as int] as int],
            ),
    ensures
        merging(term_slices(final(terms)@), dicts@, final(pos)@, r@, final(remap)@),
        remaining(dicts@, final(pos)@, dicts@.len()) == remaining(dicts@, old(pos)@, dicts@.len()) - 1,
        remaining(dicts@, final(pos)@, dicts@.len()) >= 0,
{
    let ghost ds = dicts@;
    let ghost g0 = term_slices(terms@);
    let ghost pos0 = pos@;
    let ghost remap0 = remap@;
    assert(ds[m as int].valid());
    let limit: usize = dicts[m].len();
    let head: &'a [u8] = dicts[m].term(pos[m]);
    let n: usize = terms.len();
    let same: bool = n > 0 && same_bytes(terms[n - 1], head);
    proof {
        lemma_head_least(ds, pos0, m as int);
        lemma_all_terms(ds, head@);
        assert(ds[m as int].terms()[pos0[m as int] as int] == head@);
        if n > 0 {
            assert(g0.last() == terms@[n - 1]@);
            lemma_less_total(g0.last(), head@);
        }
    }
    if !same {
        terms.push(head);
    }
    let ghost g = term_slices(terms@);
    proof {
        if !same {
            assert(g =~= g0.push(head@));
            lemma_sorted_push(g0, head@);
            assert forall|a: int| 0 <= a < g.len() implies all_terms(ds).contains(#[trigger] g[a]) by {
                if a < g0.len() {
                    assert(all_terms(ds).contains(g0[a]));
                }
            }
        }
        assert(g.last() == head@);
    }
    let place: usize = terms.len() - 1;
    remap[m].push(place as i32);
    let next: usize = pos[m] + 1;
    pos[m] = next;
    let ghost known = places@.update(m as int, places@[m as int].push(place as nat));
    proof {
        assert(pos@ =~= pos0.update(m as int, next));
        assert(remap@ =~= remap0.update(m as int, remap@[m as int]));
        lemma_places_step(g0, g, ds, pos0, places@, remap0, m as int, next, remap@[m as int]);
        lemma_remaining(ds, pos0, m as int, next, ds.len());
        assert forall|s: int| 0 <= s < ds.len() implies #[trigger] pos@[s] <= ds[s].terms().len() by {
            assert(pos0[s] <= ds[s].terms().len());
        }
        lemma_remaining_nonneg(ds, pos@, ds.len());
        assert forall|s: int, k: int| 0 <= s < ds.len() && pos@[s] <= k < ds[s].terms().len() implies !term_less(
            #[trigger] ds[s].terms()[k],
            g.last(),
        ) by {
            assert(pos0[s] <= k);
        }
    }
    Ghost(known)
}

/// Merges all dictionaries.
fn merge<'a>(dicts: &[&'a TermsDict]) -> (r: Merged<'a>)
    requires
        mergeable(dicts@),
    ensures
        term_slices(r.terms@) == dictionary_of(all_terms(dicts@)),
        terms_sorted(term_slices(r.terms@)),
        places_known(
            term_slices(r.terms@),
            dicts@,
            Seq::new(dicts@.len(), |s: int| dicts@[s].terms().len() as usize),
            r.places@,
            r.remap@,
        ),
        forall|s: int| 0 <= s < dicts@.len() ==> (#[trigger] dicts@[s]).terms().len() <= usize::MAX,
{
    let ghost ds = dicts@;
    let mut pos: Vec<usize> = Vec::new();
    let mut remap: Vec<Vec<i32>> = Vec::new();
    let ghost mut known: Seq<Seq<nat>> = Seq::empty();
    let mut i: usize = 0;
    while i < dicts.len()
        invariant
            i <= ds.len(),
            ds == dicts@,
            pos@.len() == i,
            remap@.len() == i,
            known.len() == i,
            forall|s: int| 0 <= s < i ==> #[trigger] pos@[s] == 0,
            forall|s: int| 0 <= s < i ==> (#[trigger] remap@[s])@.len() == 0,
            forall|s: int| 0 <= s < i ==> (#[trigger] known[s]).len() == 0,
        decreases ds.len() - i,
    {
        pos.push(0);
        remap.push(Vec::new());
        proof {
            known = known.push(Seq::empty());
        }
        i = i + 1;
    }
    let mut places: Ghost<Seq<Seq<nat>>> = Ghost(known);
    let mut terms: Vec<&'a [u8]> = Vec::new();
    assert(term_slices(terms@) =~= Seq::<Seq<u8>>::empty());
    let mut next: Option<usize> = least_head(dicts, &pos);
    while next.is_some()
        invariant
            ds == dicts@,
            merging(term_slices(terms@), ds, pos@, places@, remap@),
            match next {
                Some(m) => m < ds.len() && pos@[m as int] < ds[m as int].terms().len() && forall|s: int|
                    0 <= s < ds.len() && pos@[s] < ds[s].terms().len() ==> !term_less(
                        #[trigger] ds[s].terms()[pos@[s] as int],
                        ds[m as int].terms()[pos@[m as int] as int],
                    ),
                None => forall|s: int| 0 <= s < ds.len() ==> #[trigger] pos@[s] == ds[s].terms().len(),
            },
        decreases remaining(ds, pos@, ds.len()),
    {
        match next {
            Some(m) => {
                places = take_head(dicts, m, &mut pos, &mut terms, &mut remap, places);
            },
            None => {},
        }
        next = least_head(dicts, &pos);
    }
    proof {
        let g = term_slices(terms@);
        assert forall|x: Seq<u8>| #[trigger] g.contains(x) <==> all_terms(ds).contains(x) by {
            if g.contains(x) {
                let a = choose|a: int| 0 <= a < g.len() && g[a] == x;
                assert(all_terms(ds).contains(g[a]));
            }
            lemma_all_terms(ds, x);
            if all_terms(ds).contains(x) {
                let (s, k) = choose|s: int, k: int|
                    0 <= s < ds.len() && 0 <= k < ds[s].terms().len() && #[trigger] ds[s].terms()[k] == x;
                assert(pos@[s] == ds[s].terms().len());
                let p = places@[s][k];
                assert(g[p as int] == x);
            }
        }
        lemma_is_dictionary(g, all_terms(ds));
        let full = Seq::new(ds.len(), |s: int| ds[s].terms().len() as usize);
        assert forall|s: int| 0 <= s < ds.len() implies (#[trigger] ds[s]).terms().len() <= usize::MAX by {
            assert(pos@[s] == ds[s].terms().len());
        }
        assert(pos@ =~= full);
    }
    Merged { terms, remap, places }
}

proof fn lemma_total_prefix(t: Seq<Seq<u8>>, n: int)
    requires
        0 <= n <= t.len(),
    ensures
        total_bytes(t.take(n)) <= total_bytes(t),
    decreases t.len(),
{
    if n < t.len() {
        lemma_total_prefix(t.drop_last(), n);
        assert(t.drop_last().take(n) =~= t.take(n));
    } else {
        assert(t.take(n) =~= t);
    }
}

/// Merge per-segment dictionaries into a global one. Segments must be
/// sorted each.
pub fn build(dicts: &[&TermsDict]) -> (r: Result<OrdinalMap>)
    requires
        mergeable(dicts@),
    ensures
        total_bytes(dictionary_of(all_terms(dicts@))) <= i32::MAX ==> (r matches Ok(map) && map.values.valid()
            && map.values.terms() == dictionary_of(all_terms(dicts@)) && is_dictionary(
            map.values.terms(),
            all_terms(dicts@),
        ) && remaps(&map, dicts@)),
        total_bytes(dictionary_of(all_terms(dicts@))) > i32::MAX ==> (r matches Err(e) && e.kind()
            == ErrorKind::Unsupported),
{
    let merged: Merged<'_> = merge(dicts);
    let ghost g = term_slices(merged.terms@);
    let mut first: Vec<i32> = Vec::new();
    first.push(0);
    let mut values: TermsDict = TermsDict { bytes: Vec::new(), offsets: first };
    let mut i: usize = 0;
    assert(values.terms() =~= g.take(0));
    while i < merged.terms.len()
        invariant
            i <= merged.terms@.len(),
            g == term_slices(merged.terms@),
            g == dictionary_of(all_terms(dicts@)),
            values.valid(),
            values.terms() == g.take(i as int),
        decreases merged.terms@.len() - i,
    {
        proof {
            assert(g.take(i as int).push(g[i as int]) =~= g.take(i + 1));
            lemma_total_prefix(g, i + 1);
        }
        push_term(&mut values, merged.terms[i])?;
        i = i + 1;
    }
    proof {
        law_dictionary_exists(all_terms(dicts@));
        assert(g.take(i as int) =~= g);
        lemma_sorted_bytes(g);
        lemma_dict_bytes(values, values.terms().len() as int);
        assert(values.terms().take(values.terms().len() as int) =~= values.terms());
    }
    let map: OrdinalMap = OrdinalMap { values, remap: merged.remap };
    proof {
        let places = merged.places@;
        assert forall|s: int| 0 <= s < dicts@.len() implies (#[trigger] map.remap@[s])@.len()
            == dicts@[s].terms().len() by {
            assert(dicts@[s].terms().len() <= usize::MAX);
        }
        assert forall|s: int, k: int| 0 <= s < dicts@.len() && 0 <= k < dicts@[s].terms().len() implies {
            let x = #[trigger] map.remap@[s]@[k];
            0 <= x < map.values.terms().len() && map.values.terms()[x as int] == dicts@[s].terms()[k]
        } by {
            assert(dicts@[s].terms().len() <= usize::MAX);
            let p = places[s][k];
            assert(p < g.len());
        }
    }
    Ok(map)
}

/// One block that emits global ordinals: packed ordinals gather from the
/// table, a constant ordinal is looked up once.
pub open spec fn remapped_block(b: BlockModel, table: Seq<i64>) -> std::result::Result<BlockModel, ErrorKind> {
    match b {
        BlockModel::Direct { offset, len, bit_width, values } => Ok(
            BlockModel::Table { offset, len, bit_width, table, values },
        ),
        BlockModel::DeltaPacked { offset, len, bit_width, base, values } => if bit_width == 0 && 0 <= base
            < table.len() {
            Ok(BlockModel::DeltaPacked { offset, len, bit_width, base: table[base as int], values })
        } else {
            Err(ErrorKind::InvalidArgument)
        },
        _ => Err(ErrorKind::InvalidArgument),
    }
}

/// A table of global ordinals.
pub open spec fn remap_table(remap: Seq<i32>) -> Seq<i64> {
    Seq::new(remap.len(), |i: int| remap[i] as i64)
}

/// All blocks can be remapped.
pub open spec fn remappable(blocks: Seq<BlockModel>, table: Seq<i64>) -> bool {
    forall|i: int| 0 <= i < blocks.len() ==> remapped_block(#[trigger] blocks[i], table) is Ok
}

/// The blocks that emit global ordinals.
pub open spec fn remapped_blocks(blocks: Seq<BlockModel>, table: Seq<i64>) -> Seq<BlockModel> {
    Seq::new(blocks.len(), |i: int| remapped_block(blocks[i], table)->Ok_0)
}

fn remap_block(b: &BlockDecode, table: &Vec<i64>) -> (r: Result<BlockDecode>)
    ensures
        match remapped_block(b@, table@) {
            Ok(m) => r matches Ok(c) && c@ == m,
            Err(k) => r matches Err(e) && e.kind() == k,
        },
{
    match b {
        BlockDecode::Direct { offset, len, bit_width, values } => {
            let copy: Vec<i64> = vstd::slice::slice_to_vec(table.as_slice());
            Ok(BlockDecode::Table { offset: *offset, len: *len, bit_width: *bit_width, table: copy, values: *values })
        },
        BlockDecode::DeltaPacked { offset, len, bit_width, base, values } => {
            if *bit_width != 0 {
                return Err(Error::invalid("ordinal plans are direct or constant"));
            }
            if *base < 0 || *base as u64 >= table.len() as u64 {
                return Err(Error::invalid("constant ord out of remap range"));
            }
            Ok(
                BlockDecode::DeltaPacked {
                    offset: *offset,
                    len: *len,
                    bit_width: 0,
                    base: table[*base as usize],
                    values: *values,
                },
            )
        },
        _ => Err(Error::invalid("ordinal plans are direct or constant")),
    }
}

/// Rewrite an ordinal plan so that executors emit global ordinals: the
/// mapping rides the gathering from a table that they have anyway.
pub fn apply_remap(ords: &DecodePlan, remap: &[i32]) -> (r: Result<DecodePlan>)
    ensures
        remappable(ords@.blocks, remap_table(remap@)) ==> (r matches Ok(plan) && plan@ == (PlanModel {
            blocks: remapped_blocks(ords@.blocks, remap_table(remap@)),
            ..ords@
        })),
        !remappable(ords@.blocks, remap_table(remap@)) ==> (r matches Err(e) && e.kind() == ErrorKind::InvalidArgument),
{
    let mut table: Vec<i64> = Vec::new();
    let mut i: usize = 0;
    while i < remap.len()
        invariant
            i <= remap@.len(),
            table@ == remap_table(remap@).take(i as int),
        decreases remap@.len() - i,
    {
        table.push(remap[i] as i64);
        i = i + 1;
        assert(table@ =~= remap_table(remap@).take(i as int));
    }
    let ghost t = remap_table(remap@);
    assert(t.take(i as int) =~= t);
    let ghost blocks = ords@.blocks;
    let ghost all = remapped_blocks(blocks, t);
    let mut out: Vec<BlockDecode> = Vec::new();
    let mut k: usize = 0;
    assert(blocks_model(out@) =~= all.take(0));
    while k < ords.blocks.len()
        invariant
            k <= ords.blocks@.len(),
            blocks == ords@.blocks,
            blocks.len() == ords.blocks@.len(),
            table@ == t,
            t == remap_table(remap@),
            all == remapped_blocks(blocks, t),
            forall|j: int| 0 <= j < k ==> remapped_block(#[trigger] blocks[j], t) is Ok,
            blocks_model(out@) == all.take(k as int),
        decreases ords.blocks@.len() - k,
    {
        let ghost before = blocks_model(out@);
        assert(blocks[k as int] == ords.blocks@[k as int]@);
        let b: BlockDecode = remap_block(&ords.blocks[k], &table)?;
        out.push(b);
        k = k + 1;
        assert(blocks_model(out@) =~= before.push(b@));
        assert(blocks_model(out@) =~= all.take(k as int));
    }
    assert(all.take(k as int) =~= all);
    Ok(
        DecodePlan {
            plan_version: ords.plan_version,
            column: ords.column.duplicate(),
            file: ords.file.clone(),
            arrow_type: ords.arrow_type.duplicate(),
            blocks: out,
            coverage: ords.coverage,
            num_values: ords.num_values,
        },
    )
}

/// Decoding a remapped block gives what looking the block's own values up in
/// the table gives.
proof fn lemma_remapped_block(b: BlockModel, table: Seq<i64>, dvd: Seq<u8>)
    requires
        remapped_block(b, table) is Ok,
    ensures
        match block_values(b, dvd) {
            Ok(v) => if forall|i: int| 0 <= i < v.len() ==> 0 <= #[trigger] v[i] < table.len() {
                block_values(remapped_block(b, table)->Ok_0, dvd) == Ok::<Seq<i64>, ErrorKind>(
                    Seq::new(v.len(), |i: int| table[v[i] as int]),
                )
            } else {
                true
            },
            Err(_) => true,
        },
{
    match b {
        BlockModel::Direct { offset, len, bit_width, values } => {
            if block_values(b, dvd) is Ok {
                let xs = block_numbers(dvd, offset, len, bit_width, values)->Ok_0;
                let v = block_values(b, dvd)->Ok_0;
                crate::bytes::lemma_cast_values();
                if forall|i: int| 0 <= i < v.len() ==> 0 <= #[trigger] v[i] < table.len() {
                    let ep = Epilogue::Gather { table };
                    assert forall|i: int| 0 <= i < xs.len() implies finishable(ep, #[trigger] xs[i]) && finish_value(
                        ep,
                        xs[i],
                    ) == table[v[i] as int] by {
                        let y = xs[i] as i64;
                        assert(1 * (y as int) == y);
                        crate::roundtrip::lemma_crop(y);
                        assert(v[i] == y);
                    }
                    assert(finished(ep, Ok(xs))->Ok_0 =~= Seq::new(v.len(), |i: int| table[v[i] as int]));
                }
            }
        },
        BlockModel::DeltaPacked { offset, len, bit_width, base, values } => {
            let v = block_values(b, dvd)->Ok_0;
            assert(block_values(remapped_block(b, table)->Ok_0, dvd)->Ok_0 =~= Seq::new(
                v.len(),
                |i: int| table[v[i] as int],
            ));
        },
        _ => {},
    }
}

/// A remapped plan decodes to the global ordinals of what the plan itself
/// decodes to.
pub proof fn law_remap(blocks: Seq<BlockModel>, i: nat, table: Seq<i64>, dvd: Seq<u8>)
    requires
        remappable(blocks, table),
        i <= blocks.len(),
        stream_from(blocks, i, dvd) is Ok,
        forall|k: int|
            0 <= k < stream_from(blocks, i, dvd)->Ok_0.len() ==> 0 <= #[trigger] stream_from(blocks, i, dvd)->Ok_0[k]
                < table.len(),
    ensures
        stream_from(remapped_blocks(blocks, table), i, dvd) == Ok::<Seq<i64>, ErrorKind>(
            Seq::new(
                stream_from(blocks, i, dvd)->Ok_0.len(),
                |k: int| table[stream_from(blocks, i, dvd)->Ok_0[k] as int],
            ),
        ),
    decreases blocks.len() - i,
{
    let v = stream_from(blocks, i, dvd)->Ok_0;
    if i < blocks.len() {
        let first = block_values(blocks[i as int], dvd)->Ok_0;
        let rest = stream_from(blocks, i + 1, dvd)->Ok_0;
        assert(v == first + rest);
        assert forall|k: int| 0 <= k < first.len() implies 0 <= #[trigger] first[k] < table.len() by {
            assert(v[k] == first[k]);
        }
        assert forall|k: int| 0 <= k < rest.len() implies 0 <= #[trigger] rest[k] < table.len() by {
            assert(v[first.len() + k] == rest[k]);
        }
        assert(remapped_block(blocks[i as int], table) is Ok);
        lemma_remapped_block(blocks[i as int], table, dvd);
        law_remap(blocks, i + 1, table, dvd);
        let a = Seq::new(first.len(), |k: int| table[first[k] as int]);
        let b = Seq::new(rest.len(), |k: int| table[rest[k] as int]);
        assert(a + b =~= Seq::new(v.len(), |k: int| table[v[k] as int]));
    } else {
        assert(Seq::<i64>::empty() =~= Seq::new(v.len(), |k: int| table[v[k] as int]));
    }
}

/// Two ordinals get the same global ordinal exactly where they stand for the
/// same term, and global ordinals keep the order of the terms.
pub proof fn law_global_ordinals(map: OrdinalMap, dicts: Seq<&TermsDict>, s: int, k: int, t: int, l: int)
    requires
        terms_sorted(map.values.terms()),
        remaps(&map, dicts),
        0 <= s < dicts.len(),
        0 <= t < dicts.len(),
        0 <= k < dicts[s].terms().len(),
        0 <= l < dicts[t].terms().len(),
    ensures
        map.remap@[s]@[k] == map.remap@[t]@[l] <==> dicts[s].terms()[k] == dicts[t].terms()[l],
        map.remap@[s]@[k] < map.remap@[t]@[l] <==> term_less(dicts[s].terms()[k], dicts[t].terms()[l]),
{
    let g = map.remap@[s]@[k] as int;
    let h = map.remap@[t]@[l] as int;
    let terms = map.values.terms();
    assert(terms[g] == dicts[s].terms()[k]);
    assert(terms[h] == dicts[t].terms()[l]);
    lemma_less_irreflexive(terms[g]);
    if g < h {
        assert(term_less(terms[g], terms[h]));
        lemma_less_asymmetric(terms[g], terms[h]);
    } else if h < g {
        assert(term_less(terms[h], terms[g]));
        lemma_less_asymmetric(terms[h], terms[g]);
    }
}

} // verus!
