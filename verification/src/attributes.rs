//! String-to-string maps in key order.

use vstd::prelude::*;
use vstd::utf8::{encode_utf8, encode_utf8_decode_utf8};
use crate::cursor::{string_bytes, varint_bytes, write_string, write_vint};
use crate::lexicon::{
    lemma_less_asymmetric, lemma_less_irreflexive, lemma_less_total, lemma_less_transitive, less,
    term_less,
};
use crate::text::same_text;

verus! {

/// The order of keys: that of their UTF-8 bytes.
pub open spec fn key_less(a: Seq<char>, b: Seq<char>) -> bool {
    term_less(encode_utf8(a), encode_utf8(b))
}

/// Keys in order, each once.
pub open spec fn keys_sorted(s: Seq<(Seq<char>, Seq<char>)>) -> bool {
    forall|i: int, j: int| 0 <= i < j < s.len() ==> key_less((#[trigger] s[i]).0, (#[trigger] s[j]).0)
}

/// `s` with `v` under the key `k`, in place of what stood under it before.
pub open spec fn inserted(s: Seq<(Seq<char>, Seq<char>)>, k: Seq<char>, v: Seq<char>) -> Seq<(Seq<char>, Seq<char>)>
    decreases s.len(),
{
    if s.len() == 0 || key_less(k, s[0].0) {
        seq![(k, v)] + s
    } else if s[0].0 == k {
        seq![(k, v)] + s.drop_first()
    } else {
        seq![s[0]] + inserted(s.drop_first(), k, v)
    }
}

/// The value under a key.
pub open spec fn looked_up(s: Seq<(Seq<char>, Seq<char>)>, key: Seq<char>) -> Option<Seq<char>>
    decreases s.len(),
{
    if s.len() == 0 {
        None
    } else if s[0].0 == key {
        Some(s[0].1)
    } else {
        looked_up(s.drop_first(), key)
    }
}

/// A map from strings to strings, walked in the order of its keys.
#[derive(Debug)]
pub struct Attributes {
    entries: Vec<(String, String)>,
}

impl View for Attributes {
    type V = Seq<(Seq<char>, Seq<char>)>;

    closed spec fn view(&self) -> Seq<(Seq<char>, Seq<char>)> {
        Seq::new(self.entries@.len(), |i: int| (self.entries@[i].0@, self.entries@[i].1@))
    }
}

impl Attributes {
    pub fn new() -> (r: Attributes)
        ensures
            r@ == Seq::<(Seq<char>, Seq<char>)>::empty(),
    {
        let r: Attributes = Attributes { entries: Vec::new() };
        assert(r@ =~= Seq::<(Seq<char>, Seq<char>)>::empty());
        r
    }

    pub fn len(&self) -> (r: usize)
        ensures
            r == self@.len(),
    {
        self.entries.len()
    }

    /// The key at place `i`.
    pub fn key(&self, i: usize) -> (r: &str)
        requires
            i < self@.len(),
        ensures
            r@ == self@[i as int].0,
    {
        self.entries[i].0.as_str()
    }

    /// The value at place `i`.
    pub fn value(&self, i: usize) -> (r: &str)
        requires
            i < self@.len(),
        ensures
            r@ == self@[i as int].1,
    {
        self.entries[i].1.as_str()
    }

    /// A second map with the same entries.
    pub fn duplicate(&self) -> (r: Attributes)
        ensures
            r@ == self@,
    {
        let mut entries: Vec<(String, String)> = Vec::new();
        let mut i: usize = 0;
        while i < self.entries.len()
            invariant
                i <= self.entries@.len(),
                entries@.len() == i,
                forall|k: int| 0 <= k < i ==> (#[trigger] entries@[k]).0@ == self.entries@[k].0@ && entries@[k].1@
                    == self.entries@[k].1@,
            decreases self.entries@.len() - i,
        {
            entries.push((self.entries[i].0.clone(), self.entries[i].1.clone()));
            i = i + 1;
        }
        let r: Attributes = Attributes { entries };
        assert(r@ =~= self@);
        r
    }

    /// The value under `key`.
    pub fn get(&self, key: &str) -> (r: Option<&str>)
        ensures
            match r {
                Some(v) => looked_up(self@, key@) == Some(v@),
                None => looked_up(self@, key@) is None,
            },
    {
        let mut i: usize = 0;
        assert(self@.skip(0) =~= self@);
        while i < self.entries.len()
            invariant
                i <= self@.len(),
                self@.len() == self.entries@.len(),
                looked_up(self@, key@) == looked_up(self@.skip(i as int), key@),
            decreases self@.len() - i,
        {
            assert(self@.skip(i as int).drop_first() =~= self@.skip(i + 1));
            if same_text(self.key(i), key) {
                return Some(self.value(i));
            }
            i = i + 1;
        }
        None
    }

    /// Puts `value` under `key`.
    pub fn insert(&mut self, key: String, value: String)
        requires
            keys_sorted(old(self)@),
        ensures
            keys_sorted(final(self)@),
            final(self)@ == inserted(old(self)@, key@, value@),
    {
        let ghost s = self@;
        let ghost k = key@;
        let ghost v = value@;
        let mut i: usize = 0;
        assert(s.skip(0) =~= s);
        while i < self.entries.len() && less(self.entries[i].0.as_str().as_bytes(), key.as_str().as_bytes())
            invariant
                self@ == s,
                key@ == k,
                i <= s.len(),
                s.len() == self.entries@.len(),
                forall|j: int| 0 <= j < i ==> key_less((#[trigger] s[j]).0, k),
            decreases s.len() - i,
        {
            assert(s[i as int].0 == self.entries@[i as int].0@);
            i = i + 1;
        }
        let same: bool = i < self.entries.len() && same_text(self.entries[i].0.as_str(), key.as_str());
        proof {
            if i < s.len() {
                assert(s[i as int].0 == self.entries@[i as int].0@);
            }
            lemma_inserted(s, k, v, i as int);
        }
        if same {
            self.entries[i] = (key, value);
            assert(self@ =~= s.update(i as int, (k, v)));
        } else {
            self.entries.insert(i, (key, value));
            assert(self@ =~= s.insert(i as int, (k, v)));
        }
        proof {
            lemma_inserted_sorted(s, k, v);
        }
    }
}

/// Inserting at the place where a search ends.
proof fn lemma_inserted(s: Seq<(Seq<char>, Seq<char>)>, k: Seq<char>, v: Seq<char>, i: int)
    requires
        keys_sorted(s),
        0 <= i <= s.len(),
        forall|j: int| 0 <= j < i ==> key_less((#[trigger] s[j]).0, k),
        i < s.len() ==> !key_less(s[i].0, k),
    ensures
        inserted(s, k, v) == (if i < s.len() && s[i].0 == k {
            s.update(i, (k, v))
        } else {
            s.insert(i, (k, v))
        }),
    decreases s.len(),
{
    if i == 0 {
        if s.len() > 0 {
            encode_utf8_decode_utf8(k);
            encode_utf8_decode_utf8(s[0].0);
            lemma_less_total(encode_utf8(k), encode_utf8(s[0].0));
            if s[0].0 == k {
                lemma_less_irreflexive(encode_utf8(k));
                assert(seq![(k, v)] + s.drop_first() =~= s.update(0, (k, v)));
            } else {
                assert(seq![(k, v)] + s =~= s.insert(0, (k, v)));
            }
        } else {
            assert(seq![(k, v)] + s =~= s.insert(0, (k, v)));
        }
    } else {
        let t = s.drop_first();
        assert(key_less(s[0].0, k));
        lemma_less_asymmetric(encode_utf8(s[0].0), encode_utf8(k));
        assert forall|a: int, b: int| 0 <= a < b < t.len() implies key_less((#[trigger] t[a]).0, (#[trigger] t[b]).0) by {
            assert(key_less(s[a + 1].0, s[b + 1].0));
        }
        assert forall|j: int| 0 <= j < i - 1 implies key_less((#[trigger] t[j]).0, k) by {
            assert(key_less(s[j + 1].0, k));
        }
        lemma_inserted(t, k, v, i - 1);
        if i < s.len() && s[i].0 == k {
            assert(seq![s[0]] + t.update(i - 1, (k, v)) =~= s.update(i, (k, v)));
        } else {
            assert(seq![s[0]] + t.insert(i - 1, (k, v)) =~= s.insert(i, (k, v)));
        }
    }
}

/// Inserting keeps the order, and every key but the inserted one.
pub proof fn lemma_inserted_sorted(s: Seq<(Seq<char>, Seq<char>)>, k: Seq<char>, v: Seq<char>)
    requires
        keys_sorted(s),
    ensures
        keys_sorted(inserted(s, k, v)),
        forall|i: int|
            0 <= i < inserted(s, k, v).len() ==> (#[trigger] inserted(s, k, v)[i]).0 == k || exists|j: int|
                0 <= j < s.len() && (#[trigger] s[j]) == inserted(s, k, v)[i],
    decreases s.len(),
{
    let r = inserted(s, k, v);
    if s.len() == 0 || key_less(k, s[0].0) {
        assert forall|a: int, b: int| 0 <= a < b < r.len() implies key_less((#[trigger] r[a]).0, (#[trigger] r[b]).0) by {
            if a == 0 {
                if b > 1 {
                    assert(key_less(s[0].0, s[b - 1].0));
                    lemma_less_transitive(encode_utf8(k), encode_utf8(s[0].0), encode_utf8(s[b - 1].0));
                }
            } else {
                assert(key_less(s[a - 1].0, s[b - 1].0));
            }
        }
        assert forall|i: int| 0 <= i < r.len() implies (#[trigger] r[i]).0 == k || exists|j: int|
            0 <= j < s.len() && (#[trigger] s[j]) == r[i] by {
            if i > 0 {
                assert(s[i - 1] == r[i]);
            }
        }
    } else if s[0].0 == k {
        assert forall|a: int, b: int| 0 <= a < b < r.len() implies key_less((#[trigger] r[a]).0, (#[trigger] r[b]).0) by {
            assert(key_less(s[a].0, s[b].0));
        }
        assert forall|i: int| 0 <= i < r.len() implies (#[trigger] r[i]).0 == k || exists|j: int|
            0 <= j < s.len() && (#[trigger] s[j]) == r[i] by {
            if i > 0 {
                assert(s[i] == r[i]);
            }
        }
    } else {
        let t = s.drop_first();
        assert forall|a: int, b: int| 0 <= a < b < t.len() implies key_less((#[trigger] t[a]).0, (#[trigger] t[b]).0) by {
            assert(key_less(s[a + 1].0, s[b + 1].0));
        }
        lemma_inserted_sorted(t, k, v);
        let u = inserted(t, k, v);
        encode_utf8_decode_utf8(k);
        encode_utf8_decode_utf8(s[0].0);
        lemma_less_total(encode_utf8(k), encode_utf8(s[0].0));
        assert forall|i: int| 0 <= i < u.len() implies key_less(s[0].0, (#[trigger] u[i]).0) by {
            if u[i].0 != k {
                let j = choose|j: int| 0 <= j < t.len() && (#[trigger] t[j]) == u[i];
                assert(key_less(s[0].0, s[j + 1].0));
            }
        }
        assert forall|a: int, b: int| 0 <= a < b < r.len() implies key_less((#[trigger] r[a]).0, (#[trigger] r[b]).0) by {
            if a == 0 {
                assert(key_less(s[0].0, u[b - 1].0));
            } else {
                assert(key_less(u[a - 1].0, u[b - 1].0));
            }
        }
        assert forall|i: int| 0 <= i < r.len() implies (#[trigger] r[i]).0 == k || exists|j: int|
            0 <= j < s.len() && (#[trigger] s[j]) == r[i] by {
            if i == 0 {
                assert(s[0] == r[0]);
            } else if u[i - 1].0 != k {
                let j = choose|j: int| 0 <= j < t.len() && (#[trigger] t[j]) == u[i - 1];
                assert(s[j + 1] == r[i]);
            }
        }
    }
}

/// A map, written: its size, then keys and values in order.
pub open spec fn pairs_bytes(s: Seq<(Seq<char>, Seq<char>)>, n: nat) -> Seq<u8>
    decreases n,
{
    if n == 0 {
        Seq::empty()
    } else {
        pairs_bytes(s, (n - 1) as nat) + (string_bytes(s[n - 1].0) + string_bytes(s[n - 1].1))
    }
}

pub open spec fn map_bytes(s: Seq<(Seq<char>, Seq<char>)>) -> Seq<u8> {
    varint_bytes((s.len() as u32) as nat) + pairs_bytes(s, s.len())
}

/// Append a map.
pub fn write_map(out: &mut Vec<u8>, m: &Attributes)
    ensures
        final(out)@ == old(out)@ + map_bytes(m@),
{
    let ghost start = out@;
    write_vint(out, m.len() as u32);
    let ghost head = out@;
    let mut i: usize = 0;
    assert(out@ =~= head + pairs_bytes(m@, 0));
    while i < m.len()
        invariant
            i <= m@.len(),
            out@ == head + pairs_bytes(m@, i as nat),
        decreases m@.len() - i,
    {
        let ghost before = out@;
        write_string(out, m.key(i));
        write_string(out, m.value(i));
        i = i + 1;
        assert(out@ =~= head + pairs_bytes(m@, i as nat));
    }
    assert(out@ =~= start + map_bytes(m@));
}

/// A value is found under the key it was inserted under, and every other key
/// finds what it found before.
pub proof fn law_inserted_found(s: Seq<(Seq<char>, Seq<char>)>, k: Seq<char>, v: Seq<char>, other: Seq<char>)
    requires
        keys_sorted(s),
    ensures
        looked_up(inserted(s, k, v), other) == (if other == k {
            Some(v)
        } else {
            looked_up(s, other)
        }),
    decreases s.len(),
{
    let r = inserted(s, k, v);
    if s.len() == 0 || key_less(k, s[0].0) {
        assert(r.drop_first() =~= s);
    } else if s[0].0 == k {
        assert(r.drop_first() =~= s.drop_first());
    } else {
        let t = s.drop_first();
        assert forall|a: int, b: int| 0 <= a < b < t.len() implies key_less((#[trigger] t[a]).0, (#[trigger] t[b]).0) by {
            assert(key_less(s[a + 1].0, s[b + 1].0));
        }
        law_inserted_found(t, k, v, other);
        assert(r.drop_first() =~= inserted(t, k, v));
    }
}

} // verus!
