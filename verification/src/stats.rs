//! Statistics of a numeric field: what the encoding policy goes by.

use vstd::prelude::*;
use vstd::arithmetic::div_mod::{lemma_fundamental_div_mod, lemma_mod_bound, lemma_small_mod};
use crate::ieee::magnitude;
use crate::monotonic::minimum;

verus! {

/// The greatest of some numbers.
pub open spec fn maximum(s: Seq<i64>) -> i64
    decreases s.len(),
{
    if s.len() <= 1 {
        s[0]
    } else if s.last() > maximum(s.drop_last()) {
        s.last()
    } else {
        maximum(s.drop_last())
    }
}

/// The greatest common divisor, by Euclid's rule.
pub open spec fn gcd(a: nat, b: nat) -> nat
    decreases b,
{
    if b == 0 {
        a
    } else {
        gcd(b, a % b)
    }
}

/// `d` divides `n`.
pub open spec fn divides(d: nat, n: int) -> bool {
    exists|k: int| n == #[trigger] (d * k)
}

proof fn lemma_divides_step(d: nat, a: nat, b: nat)
    requires
        b > 0,
        divides(d, b as int),
    ensures
        divides(d, a as int) <==> divides(d, (a % b) as int),
{
    let q = a as int / b as int;
    let r = a as int % b as int;
    lemma_fundamental_div_mod(a as int, b as int);
    let kb = choose|k: int| b as int == #[trigger] (d * k);
    if divides(d, a as int) {
        let ka = choose|k: int| a as int == #[trigger] (d * k);
        assert(r == d * (ka - kb * q)) by (nonlinear_arith)
            requires
                r == d * ka - (d * kb) * q,
        ;
    }
    if divides(d, r) {
        let kr = choose|k: int| r == #[trigger] (d * k);
        assert(a as int == d * (kb * q + kr)) by (nonlinear_arith)
            requires
                a as int == (d * kb) * q + d * kr,
        ;
    }
}

/// The greatest common divisor divides both numbers, and every number that
/// divides both divides it.
pub proof fn law_gcd(a: nat, b: nat)
    ensures
        divides(gcd(a, b), a as int),
        divides(gcd(a, b), b as int),
        forall|d: nat| divides(d, a as int) && divides(d, b as int) ==> #[trigger] divides(d, gcd(a, b) as int),
    decreases b,
{
    if b == 0 {
        assert(a as int == a * 1);
        assert(0 == a * 0);
    } else {
        lemma_mod_bound(a as int, b as int);
        law_gcd(b, a % b);
        lemma_divides_step(gcd(a, b), a, b);
        assert forall|d: nat| divides(d, a as int) && divides(d, b as int) implies #[trigger] divides(
            d,
            gcd(a, b) as int,
        ) by {
            lemma_divides_step(d, a, b);
        }
    }
}

proof fn lemma_gcd_one(d: nat)
    ensures
        gcd(1, d) == 1,
{
    reveal_with_fuel(gcd, 3);
    if d > 1 {
        lemma_small_mod(1, d);
        assert(d % 1 == 0);
    } else if d == 1 {
        assert(1nat % 1 == 0);
    }
}

proof fn lemma_gcd_bound(a: nat, b: nat, m: nat)
    requires
        a <= m,
        b <= m,
    ensures
        gcd(a, b) <= m,
        a > 0 || b > 0 ==> gcd(a, b) > 0,
    decreases b,
{
    if b > 0 {
        lemma_mod_bound(a as int, b as int);
        lemma_gcd_bound(b, a % b, m);
    }
}

/// The distance of `v` from zero.
fn distance(v: i64) -> (r: u64)
    ensures
        r == magnitude(v),
{
    if v < 0 {
        (-(v as i128)) as u64
    } else {
        v as u64
    }
}

/// The greatest common divisor of two distances.
fn gcd_u64(a: u64, b: u64) -> (r: u64)
    ensures
        r == gcd(a as nat, b as nat),
{
    let mut x: u64 = a;
    let mut y: u64 = b;
    while y != 0
        invariant
            gcd(x as nat, y as nat) == gcd(a as nat, b as nat),
        decreases y,
    {
        let t: u64 = x % y;
        x = y;
        y = t;
    }
    x
}

/// Greatest common divisor over absolute values; `2^63` comes out as
/// `i64::MIN`.
pub fn gcd_compute(a: i64, b: i64) -> (r: i64)
    ensures
        r == gcd(magnitude(a), magnitude(b)) as u64 as i64,
{
    gcd_u64(distance(a), distance(b)) as i64
}

/// Far enough from the ends of the range that no difference overflows.
pub open spec fn in_half_range(v: i64) -> bool {
    -0x4000_0000_0000_0000 <= v <= 0x3FFF_FFFF_FFFF_FFFF
}

/// The greatest common divisor of the distances of the first `n` values from
/// the first one.
pub open spec fn gcd_of_first(values: Seq<i64>, n: nat) -> nat
    decreases n,
{
    if n == 0 {
        0
    } else {
        gcd(gcd_of_first(values, (n - 1) as nat), magnitude(values[n - 1].wrapping_sub(values[0])))
    }
}

/// The step that all values share; 1 where some value lies too far out.
pub open spec fn common_step(values: Seq<i64>) -> nat {
    if forall|i: int| 0 <= i < values.len() ==> in_half_range(#[trigger] values[i]) {
        gcd_of_first(values, values.len())
    } else {
        1
    }
}

/// Sorted and without repetition.
pub open spec fn sorted_strictly(s: Seq<i64>) -> bool {
    forall|i: int, j: int| 0 <= i < j < s.len() ==> s[i] < s[j]
}

/// `s` with `v` at its place, where it is not there yet.
pub open spec fn insert_distinct(s: Seq<i64>, v: i64) -> Seq<i64>
    decreases s.len(),
{
    if s.len() == 0 || v < s[0] {
        seq![v] + s
    } else if v == s[0] {
        s
    } else {
        seq![s[0]] + insert_distinct(s.drop_first(), v)
    }
}

/// The values in order, each once.
pub open spec fn distinct_sorted(values: Seq<i64>) -> Seq<i64>
    decreases values.len(),
{
    if values.len() == 0 {
        Seq::empty()
    } else {
        insert_distinct(distinct_sorted(values.drop_last()), values.last())
    }
}

pub proof fn lemma_insert_distinct(s: Seq<i64>, v: i64)
    requires
        sorted_strictly(s),
    ensures
        sorted_strictly(insert_distinct(s, v)),
        forall|x: i64| #[trigger] insert_distinct(s, v).contains(x) <==> (x == v || s.contains(x)),
        s.len() <= insert_distinct(s, v).len() <= s.len() + 1,
    decreases s.len(),
{
    let r = insert_distinct(s, v);
    if s.len() == 0 || v < s[0] {
        assert forall|x: i64| #[trigger] r.contains(x) <==> (x == v || s.contains(x)) by {
            if s.contains(x) {
                let i = choose|i: int| 0 <= i < s.len() && s[i] == x;
                assert(r[i + 1] == x);
            }
            if x == v {
                assert(r[0] == x);
            }
            if r.contains(x) && x != v {
                let i = choose|i: int| 0 <= i < r.len() && r[i] == x;
                assert(s[i - 1] == x);
            }
        }
    } else if v == s[0] {
        assert(s.contains(v));
    } else {
        let t = s.drop_first();
        assert forall|i: int, j: int| 0 <= i < j < t.len() implies t[i] < t[j] by {
            assert(s[i + 1] < s[j + 1]);
        }
        lemma_insert_distinct(t, v);
        let u = insert_distinct(t, v);
        assert forall|x: i64| #[trigger] r.contains(x) <==> (x == v || s.contains(x)) by {
            assert(u.contains(x) <==> (x == v || t.contains(x)));
            if s.contains(x) {
                let i = choose|i: int| 0 <= i < s.len() && s[i] == x;
                if i == 0 {
                    assert(r[0] == x);
                } else {
                    assert(t[i - 1] == x);
                }
            }
            if u.contains(x) {
                let i = choose|i: int| 0 <= i < u.len() && u[i] == x;
                assert(r[i + 1] == x);
            }
            if t.contains(x) {
                let i = choose|i: int| 0 <= i < t.len() && t[i] == x;
                assert(s[i + 1] == x);
            }
            if r.contains(x) {
                let i = choose|i: int| 0 <= i < r.len() && r[i] == x;
                if i == 0 {
                    assert(s[0] == x);
                } else {
                    assert(u[i - 1] == x);
                }
            }
        }
        assert forall|i: int, j: int| 0 <= i < j < r.len() implies r[i] < r[j] by {
            if i == 0 {
                assert(u.contains(u[j - 1]));
                let x = u[j - 1];
                if x != v {
                    assert(t.contains(x));
                    let k = choose|k: int| 0 <= k < t.len() && t[k] == x;
                    assert(s[0] < s[k + 1]);
                }
            } else {
                assert(u[i - 1] < u[j - 1]);
            }
        }
    }
}

/// The distinct values are in order, and they are the values.
pub proof fn law_distinct_sorted(values: Seq<i64>)
    ensures
        sorted_strictly(distinct_sorted(values)),
        forall|x: i64| distinct_sorted(values).contains(x) <==> #[trigger] values.contains(x),
    decreases values.len(),
{
    if values.len() > 0 {
        let t = values.drop_last();
        law_distinct_sorted(t);
        lemma_insert_distinct(distinct_sorted(t), values.last());
        assert forall|x: i64| distinct_sorted(values).contains(x) <==> #[trigger] values.contains(x) by {
            assert(distinct_sorted(t).contains(x) <==> t.contains(x));
            if values.contains(x) {
                let i = choose|i: int| 0 <= i < values.len() && values[i] == x;
                if i < t.len() {
                    assert(t[i] == x);
                }
            }
            if t.contains(x) {
                let i = choose|i: int| 0 <= i < t.len() && t[i] == x;
                assert(values[i] == x);
            }
            if x == values.last() {
                assert(values[values.len() - 1] == x);
            }
        }
    }
}

/// Inserting at the place where a search ends.
pub proof fn lemma_insert_at(s: Seq<i64>, v: i64, k: int)
    requires
        0 <= k <= s.len(),
        forall|i: int| 0 <= i < k ==> #[trigger] s[i] < v,
        k < s.len() ==> v <= s[k],
    ensures
        insert_distinct(s, v) == (if k < s.len() && s[k] == v {
            s
        } else {
            s.insert(k, v)
        }),
    decreases s.len(),
{
    if k == 0 {
        if s.len() == 0 || v < s[0] {
            assert(seq![v] + s =~= s.insert(0, v));
        }
    } else {
        let t = s.drop_first();
        assert(s[0] < v);
        assert forall|i: int| 0 <= i < k - 1 implies #[trigger] t[i] < v by {
            assert(s[i + 1] < v);
        }
        lemma_insert_at(t, v, k - 1);
        if k < s.len() && s[k] == v {
            assert(seq![s[0]] + t =~= s);
        } else {
            assert(seq![s[0]] + t.insert(k - 1, v) =~= s.insert(k, v));
        }
    }
}

/// The first place in `s` whose value is not below `v`.
pub fn lower_bound(s: &[i64], v: i64) -> (k: usize)
    requires
        sorted_strictly(s@),
    ensures
        k <= s@.len(),
        forall|i: int| 0 <= i < k ==> #[trigger] s@[i] < v,
        forall|i: int| k <= i < s@.len() ==> v <= #[trigger] s@[i],
{
    let mut lo: usize = 0;
    let mut hi: usize = s.len();
    while lo < hi
        invariant
            sorted_strictly(s@),
            lo <= hi <= s@.len(),
            forall|i: int| 0 <= i < lo ==> #[trigger] s@[i] < v,
            forall|i: int| hi <= i < s@.len() ==> v <= #[trigger] s@[i],
        decreases hi - lo,
    {
        let mid: usize = lo + (hi - lo) / 2;
        if s[mid] < v {
            assert forall|i: int| 0 <= i < mid + 1 implies #[trigger] s@[i] < v by {
                assert(i == mid || s@[i] < s@[mid as int]);
            }
            lo = mid + 1;
        } else {
            assert forall|i: int| mid <= i < s@.len() implies v <= #[trigger] s@[i] by {
                assert(i == mid || s@[mid as int] < s@[i]);
            }
            hi = mid;
        }
    }
    lo
}

/// The place of `v` in a sorted table.
pub fn find_value(table: &[i64], v: i64) -> (r: Option<usize>)
    requires
        sorted_strictly(table@),
    ensures
        r matches Some(k) ==> k < table@.len() && table@[k as int] == v,
        r is None ==> !table@.contains(v),
{
    let k: usize = lower_bound(table, v);
    if k < table.len() && table[k] == v {
        Some(k)
    } else {
        None
    }
}

/// What the encoding policy knows of a field.
#[derive(Debug)]
pub struct NumericStats {
    pub min: i64,
    pub max: i64,
    /// Common divisor of the distances from the first value (1 when
    /// heterogeneous, or when any value lies outside
    /// `i64::MIN/2..=i64::MAX/2`).
    pub gcd: i64,
    /// Sorted distinct values, present only when there are at most 256.
    pub table: Option<Vec<i64>>,
}

/// The statistics as mathematical values.
pub struct StatsModel {
    pub min: i64,
    pub max: i64,
    pub gcd: i64,
    pub table: Option<Seq<i64>>,
}

pub open spec fn table_model(t: Option<Vec<i64>>) -> Option<Seq<i64>> {
    match t {
        Some(v) => Some(v@),
        None => None,
    }
}

impl View for NumericStats {
    type V = StatsModel;

    open spec fn view(&self) -> StatsModel {
        StatsModel { min: self.min, max: self.max, gcd: self.gcd, table: table_model(self.table) }
    }
}

/// The distinct values, where they are few.
pub open spec fn small_table(values: Seq<i64>) -> Option<Seq<i64>> {
    if distinct_sorted(values).len() <= 256 {
        Some(distinct_sorted(values))
    } else {
        None
    }
}

/// The statistics of some values.
pub open spec fn stats_of(values: Seq<i64>) -> StatsModel {
    StatsModel {
        min: minimum(values),
        max: maximum(values),
        gcd: common_step(values) as u64 as i64,
        table: small_table(values),
    }
}

/// Statistics of the values seen so far.
pub struct StatsFold {
    first: i64,
    min: i64,
    max: i64,
    step: u64,
    table: Option<Vec<i64>>,
    seen: Ghost<Seq<i64>>,
}

impl StatsFold {
    /// The values seen so far.
    pub closed spec fn values(&self) -> Seq<i64> {
        self.seen@
    }

    /// What is held agrees with what was seen.
    pub closed spec fn valid(&self) -> bool {
        let s = self.seen@;
        &&& s.len() > 0
        &&& self.first == s[0]
        &&& self.min == minimum(s)
        &&& self.max == maximum(s)
        &&& self.step == common_step(s)
        &&& table_model(self.table) == small_table(s)
    }

    pub fn start(v: i64) -> (r: StatsFold)
        ensures
            r.valid(),
            r.values() == seq![v],
    {
        let ghost s = seq![v];
        let mut table: Vec<i64> = Vec::new();
        table.push(v);
        proof {
            reveal_with_fuel(distinct_sorted, 2);
            reveal_with_fuel(gcd_of_first, 2);
            assert(s.drop_last() =~= Seq::<i64>::empty());
            assert(distinct_sorted(s) =~= seq![v]);
            assert(table@ =~= seq![v]);
        }
        let step: u64 = if -0x4000_0000_0000_0000 <= v && v <= 0x3FFF_FFFF_FFFF_FFFF {
            0
        } else {
            assert(!in_half_range(s[0]));
            1
        };
        StatsFold { first: v, min: v, max: v, step, table: Some(table), seen: Ghost(s) }
    }

    pub fn add(&mut self, v: i64)
        requires
            old(self).valid(),
        ensures
            final(self).valid(),
            final(self).values() == old(self).values().push(v),
    {
        let ghost s = self.seen@;
        let ghost t = s.push(v);
        proof {
            assert(t.drop_last() =~= s);
            lemma_step_push(s, v);
            law_distinct_sorted(s);
            lemma_insert_distinct(distinct_sorted(s), v);
        }
        if v < self.min {
            self.min = v;
        }
        if v > self.max {
            self.max = v;
        }
        if self.step != 1 {
            if !(-0x4000_0000_0000_0000 <= v && v <= 0x3FFF_FFFF_FFFF_FFFF) {
                self.step = 1;
            } else {
                self.step = gcd_u64(self.step, distance(v.wrapping_sub(self.first)));
            }
        }
        let mut overfull: bool = false;
        match &mut self.table {
            Some(table) => {
                let k: usize = lower_bound(table.as_slice(), v);
                proof {
                    lemma_insert_at(table@, v, k as int);
                }
                if !(k < table.len() && table[k] == v) {
                    table.insert(k, v);
                }
                overfull = table.len() > 256;
            },
            None => {},
        }
        if overfull {
            self.table = None;
        }
        self.seen = Ghost(t);
    }

    pub fn finish(self) -> (r: NumericStats)
        requires
            self.valid(),
        ensures
            r@ == stats_of(self.values()),
    {
        NumericStats { min: self.min, max: self.max, gcd: self.step as i64, table: self.table }
    }
}

/// How one more value changes the common step.
proof fn lemma_step_push(s: Seq<i64>, v: i64)
    requires
        s.len() > 0,
    ensures
        common_step(s) == 1 ==> common_step(s.push(v)) == 1,
        common_step(s) != 1 ==> common_step(s.push(v)) == (if in_half_range(v) {
            gcd(common_step(s), magnitude(v.wrapping_sub(s[0])))
        } else {
            1
        }),
{
    let t = s.push(v);
    lemma_gcd_prefix(s, v, s.len());
    assert(t[s.len() as int] == v);
    lemma_gcd_one(magnitude(v.wrapping_sub(s[0])));
    if forall|i: int| 0 <= i < s.len() ==> in_half_range(#[trigger] s[i]) {
        if in_half_range(v) {
            assert forall|i: int| 0 <= i < t.len() implies in_half_range(#[trigger] t[i]) by {
                if i < s.len() {
                    assert(t[i] == s[i]);
                }
            }
        } else {
            assert(!in_half_range(t[s.len() as int]));
        }
    } else {
        let i = choose|i: int| 0 <= i < s.len() && !in_half_range(#[trigger] s[i]);
        assert(!in_half_range(t[i]));
    }
}

proof fn lemma_gcd_prefix(s: Seq<i64>, v: i64, n: nat)
    requires
        0 < s.len(),
        n <= s.len(),
    ensures
        gcd_of_first(s.push(v), n) == gcd_of_first(s, n),
    decreases n,
{
    if n > 0 {
        lemma_gcd_prefix(s, v, (n - 1) as nat);
        assert(s.push(v)[n - 1] == s[n - 1]);
        assert(s.push(v)[0] == s[0]);
    }
}

/// The least and greatest value are values, and bound the others.
pub proof fn lemma_min_max(values: Seq<i64>)
    requires
        values.len() > 0,
    ensures
        exists|i: int| 0 <= i < values.len() && values[i] == minimum(values),
        exists|i: int| 0 <= i < values.len() && values[i] == maximum(values),
        forall|i: int| 0 <= i < values.len() ==> minimum(values) <= #[trigger] values[i] <= maximum(values),
    decreases values.len(),
{
    if values.len() == 1 {
        assert(values[0] == minimum(values) && values[0] == maximum(values));
    } else {
        let t = values.drop_last();
        lemma_min_max(t);
        let a = choose|i: int| 0 <= i < t.len() && t[i] == minimum(t);
        let b = choose|i: int| 0 <= i < t.len() && t[i] == maximum(t);
        assert(values[a] == t[a] && values[b] == t[b]);
        let last = values.len() - 1;
        assert(values[last] == values.last());
        assert forall|i: int| 0 <= i < values.len() implies minimum(values) <= #[trigger] values[i] <= maximum(values) by {
            if i < last {
                assert(values[i] == t[i]);
            }
        }
    }
}

/// The common step divides the distance of each value from the first.
pub proof fn lemma_step_divides(values: Seq<i64>, n: nat, i: int)
    requires
        n <= values.len(),
        0 <= i < n,
    ensures
        divides(gcd_of_first(values, n), magnitude(values[i].wrapping_sub(values[0])) as int),
    decreases n,
{
    let a = gcd_of_first(values, (n - 1) as nat);
    let b = magnitude(values[n - 1].wrapping_sub(values[0]));
    law_gcd(a, b);
    if i < n - 1 {
        lemma_step_divides(values, (n - 1) as nat, i);
        lemma_divides_trans(gcd(a, b), a, magnitude(values[i].wrapping_sub(values[0])) as int);
    }
}

proof fn lemma_divides_trans(a: nat, b: nat, c: int)
    requires
        divides(a, b as int),
        divides(b, c),
    ensures
        divides(a, c),
{
    let j = choose|k: int| b as int == #[trigger] (a * k);
    let k = choose|k: int| c == #[trigger] (b * k);
    assert(c == a * (j * k)) by (nonlinear_arith)
        requires
            c == (a * j) * k,
    ;
}

/// The step fits, and is not zero where values differ.
pub proof fn lemma_step_positive(values: Seq<i64>)
    requires
        values.len() > 0,
        minimum(values) < maximum(values),
    ensures
        0 < common_step(values) <= i64::MAX,
        common_step(values) as u64 as i64 == common_step(values),
{
    lemma_min_max(values);
    crate::bytes::lemma_cast_values();
    if forall|i: int| 0 <= i < values.len() ==> in_half_range(#[trigger] values[i]) {
        let a = choose|i: int| 0 <= i < values.len() && values[i] == minimum(values);
        let b = choose|i: int| 0 <= i < values.len() && values[i] == maximum(values);
        let g = common_step(values);
        lemma_step_divides(values, values.len(), a);
        lemma_step_divides(values, values.len(), b);
        lemma_gcd_first_bound(values, values.len());
        if g == 0 {
            let ka = choose|k: int| magnitude(values[a].wrapping_sub(values[0])) as int == #[trigger] (g * k);
            let kb = choose|k: int| magnitude(values[b].wrapping_sub(values[0])) as int == #[trigger] (g * k);
            assert(0 * ka == 0 && 0 * kb == 0) by (nonlinear_arith);
            assert(in_half_range(values[a]) && in_half_range(values[b]) && in_half_range(values[0]));
        }
    }
}

proof fn lemma_gcd_first_bound(values: Seq<i64>, n: nat)
    requires
        n <= values.len(),
        values.len() > 0,
        forall|i: int| 0 <= i < values.len() ==> in_half_range(#[trigger] values[i]),
    ensures
        gcd_of_first(values, n) <= i64::MAX,
    decreases n,
{
    if n > 0 {
        lemma_gcd_first_bound(values, (n - 1) as nat);
        assert(in_half_range(values[n - 1]) && in_half_range(values[0]));
        lemma_gcd_bound(
            gcd_of_first(values, (n - 1) as nat),
            magnitude(values[n - 1].wrapping_sub(values[0])),
            i64::MAX as nat,
        );
    }
}

/// The common step of values that lie near enough is the greatest: it
/// divides the distance of each value from the first, and so does nothing
/// that does not divide it. Where some value lies too far out, it is one.
pub proof fn law_step_greatest(values: Seq<i64>, d: nat)
    requires
        values.len() > 0,
    ensures
        (forall|i: int| 0 <= i < values.len() ==> in_half_range(#[trigger] values[i])) ==> {
            &&& forall|i: int| 0 <= i < values.len() ==> divides(common_step(values), #[trigger] values[i] - values[0])
            &&& (forall|i: int| 0 <= i < values.len() ==> divides(d, #[trigger] values[i] - values[0])) ==> divides(
                d,
                common_step(values) as int,
            )
        },
        !(forall|i: int| 0 <= i < values.len() ==> in_half_range(#[trigger] values[i])) ==> common_step(values) == 1,
{
    if forall|i: int| 0 <= i < values.len() ==> in_half_range(#[trigger] values[i]) {
        assert forall|i: int| 0 <= i < values.len() implies divides(
            common_step(values),
            #[trigger] values[i] - values[0],
        ) by {
            assert(in_half_range(values[i]) && in_half_range(values[0]));
            lemma_step_divides(values, values.len(), i);
            lemma_divides_magnitude(common_step(values), values[i], values[0]);
        }
        if forall|i: int| 0 <= i < values.len() ==> divides(d, #[trigger] values[i] - values[0]) {
            lemma_divisor_of_step(values, values.len(), d);
        }
    }
}

/// A difference and its size have the same divisors.
proof fn lemma_divides_magnitude(d: nat, a: i64, b: i64)
    requires
        in_half_range(a),
        in_half_range(b),
    ensures
        divides(d, magnitude(a.wrapping_sub(b)) as int) <==> divides(d, a - b),
{
    let m = magnitude(a.wrapping_sub(b)) as int;
    if divides(d, m) {
        let k = choose|k: int| m == #[trigger] (d * k);
        assert(d * (-k) == -(d * k)) by (nonlinear_arith);
        if a >= b {
            assert(a - b == d * k);
        } else {
            assert(a - b == d * (-k));
        }
    }
    if divides(d, a - b) {
        let k = choose|k: int| a - b == #[trigger] (d * k);
        assert(d * (-k) == -(d * k)) by (nonlinear_arith);
        if a >= b {
            assert(m == d * k);
        } else {
            assert(m == d * (-k));
        }
    }
}

proof fn lemma_divisor_of_step(values: Seq<i64>, n: nat, d: nat)
    requires
        n <= values.len(),
        values.len() > 0,
        forall|i: int| 0 <= i < values.len() ==> in_half_range(#[trigger] values[i]),
        forall|i: int| 0 <= i < values.len() ==> divides(d, #[trigger] values[i] - values[0]),
    ensures
        divides(d, gcd_of_first(values, n) as int),
    decreases n,
{
    if n == 0 {
        assert(0 == d * 0);
    } else {
        lemma_divisor_of_step(values, (n - 1) as nat, d);
        assert(in_half_range(values[n - 1]) && in_half_range(values[0]));
        assert(divides(d, values[n - 1] - values[0]));
        lemma_divides_magnitude(d, values[n - 1], values[0]);
        law_gcd(gcd_of_first(values, (n - 1) as nat), magnitude(values[n - 1].wrapping_sub(values[0])));
    }
}

} // verus!
