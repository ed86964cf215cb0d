//! Extents and coalescing.
//!
//! An extent is a contiguous byte range of one file: one column over one
//! segment, or a slice of it. Extents are the unit of IO.

use vstd::prelude::*;
use crate::plan::FieldId;

verus! {

pub const EXTENT_ALIGN: u64 = 4096;

pub const EXTENT_MIN_BYTES: u64 = 4194304;

pub const EXTENT_MAX_BYTES: u64 = 67108864;

/// A contiguous byte range of one file, tagged with where it belongs.
#[derive(Debug)]
pub struct Extent {
    /// File name relative to the segment directory (for example `_0.dvd`).
    pub file: String,
    pub offset: u64,
    pub len: u64,
    /// Ordinal of the segment within the stream.
    pub seg_ord: u32,
    pub column: FieldId,
}

impl Extent {
    pub fn end(&self) -> (r: u64)
        requires
            self.offset + self.len <= u64::MAX,
        ensures
            r == self.offset + self.len,
    {
        self.offset + self.len
    }
}

/// The range from `cur.0` to `cur.1` can take in the one from `off` to `end`:
/// the gap between them is small, and so is what comes out.
pub open spec fn mergeable(cur: (u64, u64), off: nat, end: nat, max_gap: u64, max_bytes: u64) -> bool {
    off <= cur.1 + max_gap && end <= cur.0 + max_bytes
}

/// The runs (first byte, byte behind the last) of the ranges from `i` on,
/// where `cur` is the run so far.
pub open spec fn runs_from(ranges: Seq<(u64, u64)>, i: nat, cur: Option<(u64, u64)>, max_gap: u64, max_bytes: u64) -> Seq<
    (u64, u64),
>
    decreases ranges.len() - i,
{
    if i >= ranges.len() {
        match cur {
            None => Seq::empty(),
            Some(c) => seq![c],
        }
    } else {
        let off = ranges[i as int].0;
        let end = (off + ranges[i as int].1) as u64;
        match cur {
            None => runs_from(ranges, i + 1, Some((off, end)), max_gap, max_bytes),
            Some(c) => if mergeable(c, off as nat, end as nat, max_gap, max_bytes) {
                runs_from(
                    ranges,
                    i + 1,
                    Some(
                        (
                            c.0,
                            if c.1 < end {
                                end
                            } else {
                                c.1
                            },
                        ),
                    ),
                    max_gap,
                    max_bytes,
                )
            } else {
                seq![c] + runs_from(ranges, i + 1, Some((off, end)), max_gap, max_bytes)
            },
        }
    }
}

/// The last multiple of the alignment up to `off`.
pub open spec fn aligned(off: nat) -> nat {
    (off - off % EXTENT_ALIGN as nat) as nat
}

/// Where a piece of a longer run starts that has the byte at `off` next: at a
/// multiple of the alignment, unless the cap has no room for that.
pub open spec fn piece_start(off: nat, max_bytes: u64) -> nat {
    if max_bytes < EXTENT_ALIGN {
        off
    } else {
        aligned(off)
    }
}

/// The pieces (first byte, byte behind the last) that the bytes of a run are
/// cut into, from `off` on.
pub open spec fn cut_from(off: nat, end: nat, max_bytes: u64) -> Seq<(nat, nat)>
    decreases
        if off < end {
            end - off
        } else {
            0
        },
{
    let start = piece_start(off, max_bytes);
    if max_bytes == 0 || end <= start + max_bytes {
        seq![(start, end)]
    } else {
        seq![(start, start + max_bytes as nat)] + cut_from(start + max_bytes as nat, end, max_bytes)
    }
}

/// Where the one extent of a run that keeps to the cap starts: at the last
/// multiple of the alignment, where the cap has room for the bytes from there
/// on, and where the run does otherwise.
pub open spec fn whole_start(off: nat, end: nat, max_bytes: u64) -> nat {
    if max_bytes == 0 || end <= aligned(off) + max_bytes {
        aligned(off)
    } else {
        off
    }
}

/// The extents (first byte, byte behind the last) of a run: one where the run
/// keeps to the cap, and only otherwise several. A cap of zero, under which
/// nothing could be read, cuts nothing.
pub open spec fn pieces(off: nat, end: nat, max_bytes: u64) -> Seq<(nat, nat)> {
    if max_bytes == 0 || end <= off + max_bytes {
        seq![(whole_start(off, end, max_bytes), end)]
    } else {
        cut_from(off, end, max_bytes)
    }
}

/// The extents of the runs from `i` on.
pub open spec fn pieces_from(runs: Seq<(u64, u64)>, i: nat, max_bytes: u64) -> Seq<(nat, nat)>
    decreases runs.len() - i,
{
    if i >= runs.len() {
        Seq::empty()
    } else {
        pieces(runs[i as int].0 as nat, runs[i as int].1 as nat, max_bytes) + pieces_from(runs, i + 1, max_bytes)
    }
}

/// The extents of ranges.
pub open spec fn coalesced(ranges: Seq<(u64, u64)>, max_gap: u64, max_bytes: u64) -> Seq<(nat, nat)> {
    pieces_from(runs_from(ranges, 0, None, max_gap, max_bytes), 0, max_bytes)
}

/// An extent holds the bytes of a piece.
pub open spec fn extent_of(e: Extent, piece: (nat, nat), file: Seq<char>, seg_ord: u32, column: FieldId) -> bool {
    &&& e.file@ == file
    &&& e.offset == piece.0
    &&& e.offset + e.len == piece.1
    &&& e.seg_ord == seg_ord
    &&& e.column@ == column@
}

/// Extents hold the bytes of pieces.
pub open spec fn extents_are(
    e: Seq<Extent>,
    all: Seq<(nat, nat)>,
    file: Seq<char>,
    seg_ord: u32,
    column: FieldId,
) -> bool {
    &&& e.len() == all.len()
    &&& forall|k: int| 0 <= k < e.len() ==> extent_of(#[trigger] e[k], all[k], file, seg_ord, column)
}

/// All ranges end within the address space.
pub open spec fn ranges_fit(ranges: Seq<(u64, u64)>) -> bool {
    forall|i: int| 0 <= i < ranges.len() ==> (#[trigger] ranges[i]).0 + ranges[i].1 <= u64::MAX
}

/// Appends one extent.
fn push_extent(
    extents: &mut Vec<Extent>,
    file: &str,
    seg_ord: u32,
    column: &FieldId,
    start: u64,
    end: u64,
    Ghost(done): Ghost<Seq<(nat, nat)>>,
)
    requires
        start <= end,
        extents_are(old(extents)@, done, file@, seg_ord, *column),
    ensures
        extents_are(final(extents)@, done.push((start as nat, end as nat)), file@, seg_ord, *column),
{
    extents.push(
        Extent { file: file.to_owned(), offset: start, len: end - start, seg_ord, column: column.duplicate() },
    );
}

/// Appends the pieces of a run that exceeds the cap.
fn push_cut(
    extents: &mut Vec<Extent>,
    file: &str,
    seg_ord: u32,
    column: &FieldId,
    run: (u64, u64),
    max_bytes: u64,
    Ghost(done): Ghost<Seq<(nat, nat)>>,
)
    requires
        run.0 <= run.1,
        max_bytes > 0,
        extents_are(old(extents)@, done, file@, seg_ord, *column),
    ensures
        extents_are(
            final(extents)@,
            done + cut_from(run.0 as nat, run.1 as nat, max_bytes),
            file@,
            seg_ord,
            *column,
        ),
{
    let end: u64 = run.1;
    let mut off: u64 = run.0;
    let ghost all = done + cut_from(run.0 as nat, run.1 as nat, max_bytes);
    let ghost mut cut = done;
    loop
        invariant_except_break
            max_bytes > 0,
            off <= end,
            cut + cut_from(off as nat, end as nat, max_bytes) == all,
            extents_are(extents@, cut, file@, seg_ord, *column),
        ensures
            extents_are(extents@, all, file@, seg_ord, *column),
        decreases end - off,
    {
        let start: u64 = if max_bytes < EXTENT_ALIGN {
            off
        } else {
            off - off % EXTENT_ALIGN
        };
        assert(start == piece_start(off as nat, max_bytes));
        if end - start <= max_bytes {
            push_extent(extents, file, seg_ord, column, start, end, Ghost(cut));
            assert(all =~= cut.push((start as nat, end as nat)));
            break;
        }
        push_extent(extents, file, seg_ord, column, start, start + max_bytes, Ghost(cut));
        proof {
            let rest = cut_from((start + max_bytes) as nat, end as nat, max_bytes);
            let first = (start as nat, (start + max_bytes) as nat);
            assert(cut + (seq![first] + rest) =~= cut.push(first) + rest);
            cut = cut.push(first);
        }
        off = start + max_bytes;
    }
}

/// Appends the extents of a run.
fn push_pieces(
    extents: &mut Vec<Extent>,
    file: &str,
    seg_ord: u32,
    column: &FieldId,
    run: (u64, u64),
    max_bytes: u64,
    Ghost(done): Ghost<Seq<(nat, nat)>>,
)
    requires
        run.0 <= run.1,
        extents_are(old(extents)@, done, file@, seg_ord, *column),
    ensures
        extents_are(
            final(extents)@,
            done + pieces(run.0 as nat, run.1 as nat, max_bytes),
            file@,
            seg_ord,
            *column,
        ),
{
    let (off, end): (u64, u64) = run;
    if max_bytes > 0 && end - off > max_bytes {
        push_cut(extents, file, seg_ord, column, run, max_bytes, Ghost(done));
        return;
    }
    let aligned_off: u64 = off - off % EXTENT_ALIGN;
    let start: u64 = if max_bytes == 0 || end - aligned_off <= max_bytes {
        aligned_off
    } else {
        off
    };
    push_extent(extents, file, seg_ord, column, start, end, Ghost(done));
    assert(done + pieces(off as nat, end as nat, max_bytes) =~= done.push((start as nat, end as nat)));
}

/// Coalesce sorted, per-block byte ranges of one (file, column, segment) into
/// IO-sized extents.
///
/// Adjacent or near-adjacent ranges (gap at most `max_gap`) merge while the
/// merged range stays within `max_bytes`: re-reading a small gap is cheaper
/// than a second read. Output extents are clamped to `max_bytes`: a longer
/// range is cut, and a cap of zero cuts nothing. They start at a multiple of
/// [`EXTENT_ALIGN`] where the cap has room for it. Alignment only widens,
/// never splits: what fits the cap alone starts where its bytes do, and so
/// do the pieces of a longer range under a cap below the alignment.
pub fn coalesce(
    file: &str,
    seg_ord: u32,
    column: &FieldId,
    ranges: &[(u64, u64)],
    max_gap: u64,
    max_bytes: u64,
) -> (r: Vec<Extent>)
    requires
        ranges_fit(ranges@),
    ensures
        extents_are(r@, coalesced(ranges@, max_gap, max_bytes), file@, seg_ord, *column),
        max_bytes > 0 ==> forall|i: int| 0 <= i < r@.len() ==> (#[trigger] r@[i]).len <= max_bytes,
        max_bytes == 0 ==> forall|i: int| 0 <= i < r@.len() ==> (#[trigger] r@[i]).offset % EXTENT_ALIGN == 0,
        max_bytes >= EXTENT_ALIGN ==> forall|i: int|
            0 <= i < r@.len() && (#[trigger] r@[i]).offset % EXTENT_ALIGN != 0 ==> r@[i].len + r@[i].offset
                % EXTENT_ALIGN > max_bytes,
{
    let mut extents: Vec<Extent> = Vec::new();
    let mut cur: Option<(u64, u64)> = None;
    let ghost runs = runs_from(ranges@, 0, None, max_gap, max_bytes);
    let ghost all = coalesced(ranges@, max_gap, max_bytes);
    let ghost mut done: Seq<(u64, u64)> = Seq::empty();
    let ghost mut cut: Seq<(nat, nat)> = Seq::empty();
    proof {
        assert(done + runs =~= runs);
        assert(cut + all =~= all);
        lemma_pieces_capped(runs, 0, max_bytes);
    }
    let mut i: usize = 0;
    while i < ranges.len()
        invariant
            i <= ranges@.len(),
            ranges_fit(ranges@),
            done + runs_from(ranges@, i as nat, cur, max_gap, max_bytes) == runs,
            cur matches Some(c) ==> c.0 <= c.1,
            cut + pieces_from(runs, done.len(), max_bytes) == all,
            extents_are(extents@, cut, file@, seg_ord, *column),
        decreases ranges@.len() - i,
    {
        assert(ranges@[i as int].0 + ranges@[i as int].1 <= u64::MAX);
        let (off, len): (u64, u64) = ranges[i];
        let end: u64 = off + len;
        match cur {
            None => {
                cur = Some((off, end));
            },
            Some((c_off, c_end)) => {
                if off <= c_end.saturating_add(max_gap) && end.saturating_sub(c_off) <= max_bytes {
                    cur = Some(
                        (
                            c_off,
                            if c_end < end {
                                end
                            } else {
                                c_end
                            },
                        ),
                    );
                } else {
                    push_pieces(&mut extents, file, seg_ord, column, (c_off, c_end), max_bytes, Ghost(cut));
                    proof {
                        let run = (c_off, c_end);
                        let rest = runs_from(ranges@, i as nat + 1, Some((off, end)), max_gap, max_bytes);
                        assert(done + (seq![run] + rest) =~= done.push(run) + rest);
                        assert(runs[done.len() as int] == run);
                        let p = pieces(c_off as nat, c_end as nat, max_bytes);
                        assert(cut + (p + pieces_from(runs, done.len() + 1, max_bytes)) =~= (cut + p) + pieces_from(
                            runs,
                            done.len() + 1,
                            max_bytes,
                        ));
                        cut = cut + p;
                        done = done.push(run);
                    }
                    cur = Some((off, end));
                }
            },
        }
        i = i + 1;
    }
    match cur {
        Some(run) => {
            push_pieces(&mut extents, file, seg_ord, column, run, max_bytes, Ghost(cut));
            proof {
                assert(runs[done.len() as int] == run);
                let p = pieces(run.0 as nat, run.1 as nat, max_bytes);
                assert(pieces_from(runs, done.len() + 1, max_bytes) =~= Seq::<(nat, nat)>::empty());
                assert(cut + (p + Seq::<(nat, nat)>::empty()) =~= cut + p);
            }
        },
        None => {
            assert(cut + Seq::<(nat, nat)>::empty() =~= cut);
        },
    }
    proof {
        assert forall|k: int| 0 <= k < extents@.len() && max_bytes > 0 implies (#[trigger] extents@[k]).len <= max_bytes by {
            assert(extent_of(extents@[k], all[k], file@, seg_ord, *column));
            assert(piece_capped(all[k], max_bytes));
        }
        assert forall|k: int| 0 <= k < extents@.len() && max_bytes == 0 implies (#[trigger] extents@[k]).offset
            % EXTENT_ALIGN == 0 by {
            assert(extent_of(extents@[k], all[k], file@, seg_ord, *column));
            assert(piece_capped(all[k], max_bytes));
        }
        assert forall|k: int|
            0 <= k < extents@.len() && max_bytes >= EXTENT_ALIGN && (#[trigger] extents@[k]).offset % EXTENT_ALIGN
                != 0 implies extents@[k].len + extents@[k].offset % EXTENT_ALIGN > max_bytes by {
            assert(extent_of(extents@[k], all[k], file@, seg_ord, *column));
            assert(piece_capped(all[k], max_bytes));
        }
    }
    extents
}

/// A piece keeps to the cap, and to the alignment where the cap has room for
/// it.
pub open spec fn piece_capped(piece: (nat, nat), max_bytes: u64) -> bool {
    &&& max_bytes > 0 ==> piece.1 <= piece.0 + max_bytes
    &&& max_bytes == 0 ==> piece.0 % EXTENT_ALIGN as nat == 0
    &&& max_bytes >= EXTENT_ALIGN && piece.0 % EXTENT_ALIGN as nat != 0 ==> piece.1 > aligned(piece.0) + max_bytes
}

proof fn lemma_cut_capped(off: nat, end: nat, max_bytes: u64)
    requires
        max_bytes > 0,
    ensures
        forall|k: int|
            0 <= k < cut_from(off, end, max_bytes).len() ==> piece_capped(
                #[trigger] cut_from(off, end, max_bytes)[k],
                max_bytes,
            ),
    decreases
        if off < end {
            end - off
        } else {
            0
        },
{
    let start = piece_start(off, max_bytes);
    if end > start + max_bytes {
        let next = start + max_bytes as nat;
        lemma_cut_capped(next, end, max_bytes);
        let rest = cut_from(next, end, max_bytes);
        let all = cut_from(off, end, max_bytes);
        assert forall|k: int| 0 <= k < all.len() implies piece_capped(#[trigger] all[k], max_bytes) by {
            if k > 0 {
                assert(all[k] == rest[k - 1]);
            }
        }
    }
}

proof fn lemma_run_capped(off: nat, end: nat, max_bytes: u64)
    ensures
        forall|k: int|
            0 <= k < pieces(off, end, max_bytes).len() ==> piece_capped(
                #[trigger] pieces(off, end, max_bytes)[k],
                max_bytes,
            ),
{
    if max_bytes > 0 && end > off + max_bytes {
        lemma_cut_capped(off, end, max_bytes);
    }
}

proof fn lemma_pieces_capped(runs: Seq<(u64, u64)>, i: nat, max_bytes: u64)
    ensures
        forall|k: int|
            0 <= k < pieces_from(runs, i, max_bytes).len() ==> piece_capped(
                #[trigger] pieces_from(runs, i, max_bytes)[k],
                max_bytes,
            ),
    decreases runs.len() - i,
{
    if i < runs.len() {
        let (off, end) = (runs[i as int].0 as nat, runs[i as int].1 as nat);
        lemma_run_capped(off, end, max_bytes);
        lemma_pieces_capped(runs, i + 1, max_bytes);
        let first = pieces(off, end, max_bytes);
        let rest = pieces_from(runs, i + 1, max_bytes);
        let all = pieces_from(runs, i, max_bytes);
        assert forall|k: int| 0 <= k < all.len() implies piece_capped(#[trigger] all[k], max_bytes) by {
            if k < first.len() {
                assert(all[k] == first[k]);
            } else {
                assert(all[k] == rest[k - first.len()]);
            }
        }
    }
}

/// Every byte of a run that is cut lies in one of its pieces.
proof fn lemma_cut_covered(off: nat, end: nat, max_bytes: u64, x: nat)
    requires
        max_bytes > 0,
        off <= x < end,
    ensures
        byte_covered(cut_from(off, end, max_bytes), x),
    decreases end - off,
{
    let start = piece_start(off, max_bytes);
    let all = cut_from(off, end, max_bytes);
    if end <= start + max_bytes || x < start + max_bytes {
        assert(all[0].0 <= x < all[0].1);
    } else {
        let next = start + max_bytes as nat;
        lemma_cut_covered(next, end, max_bytes, x);
        let rest = cut_from(next, end, max_bytes);
        let k = choose|k: int| 0 <= k < rest.len() && (#[trigger] rest[k]).0 <= x < rest[k].1;
        assert(all[k + 1] == rest[k]);
    }
}

/// Every byte of a run lies in one of its pieces.
proof fn lemma_run_covered(off: nat, end: nat, max_bytes: u64, x: nat)
    requires
        off <= x < end,
    ensures
        byte_covered(pieces(off, end, max_bytes), x),
{
    let all = pieces(off, end, max_bytes);
    if max_bytes == 0 || end <= off + max_bytes {
        assert(all[0].0 <= x < all[0].1);
    } else {
        lemma_cut_covered(off, end, max_bytes, x);
    }
}

/// Every byte of a run lies in one of the pieces of all runs.
proof fn lemma_pieces_cover(runs: Seq<(u64, u64)>, i: nat, j: int, max_bytes: u64, x: nat)
    requires
        i <= j < runs.len(),
        runs[j].0 <= x < runs[j].1,
    ensures
        byte_covered(pieces_from(runs, i, max_bytes), x),
    decreases runs.len() - i,
{
    let (off, end) = (runs[i as int].0 as nat, runs[i as int].1 as nat);
    let first = pieces(off, end, max_bytes);
    let rest = pieces_from(runs, i + 1, max_bytes);
    let all = pieces_from(runs, i, max_bytes);
    if i == j {
        lemma_run_covered(off, end, max_bytes, x);
        let k = choose|k: int| 0 <= k < first.len() && (#[trigger] first[k]).0 <= x < first[k].1;
        assert(all[k] == first[k]);
    } else {
        lemma_pieces_cover(runs, i + 1, j, max_bytes, x);
        let k = choose|k: int| 0 <= k < rest.len() && (#[trigger] rest[k]).0 <= x < rest[k].1;
        assert(all[first.len() + k] == rest[k]);
    }
}

/// A byte lies in one of the pieces.
pub open spec fn byte_covered(all: Seq<(nat, nat)>, x: nat) -> bool {
    exists|k: int| 0 <= k < all.len() && (#[trigger] all[k]).0 <= x < all[k].1
}

/// Ranges in the order of their first bytes.
pub open spec fn ranges_sorted(ranges: Seq<(u64, u64)>) -> bool {
    forall|i: int, j: int| 0 <= i < j < ranges.len() ==> (#[trigger] ranges[i]).0 <= (#[trigger] ranges[j]).0
}

/// A run covers a byte range.
pub open spec fn run_covers(run: (u64, u64), off: nat, end: nat) -> bool {
    run.0 <= off && end <= run.1
}

/// Some run covers a byte range.
pub open spec fn covered(runs: Seq<(u64, u64)>, off: nat, end: nat) -> bool {
    exists|k: int| 0 <= k < runs.len() && run_covers(#[trigger] runs[k], off, end)
}

proof fn lemma_runs_cover(ranges: Seq<(u64, u64)>, i: nat, cur: Option<(u64, u64)>, max_gap: u64, max_bytes: u64)
    requires
        ranges_fit(ranges),
        ranges_sorted(ranges),
        i <= ranges.len(),
        cur matches Some(c) ==> c.0 <= c.1 && (i < ranges.len() ==> c.0 <= ranges[i as int].0),
    ensures
        cur matches Some(c) ==> covered(runs_from(ranges, i, cur, max_gap, max_bytes), c.0 as nat, c.1 as nat),
        forall|j: int|
            i <= j < ranges.len() ==> covered(
                runs_from(ranges, i, cur, max_gap, max_bytes),
                (#[trigger] ranges[j]).0 as nat,
                (ranges[j].0 + ranges[j].1) as nat,
            ),
    decreases ranges.len() - i,
{
    let runs = runs_from(ranges, i, cur, max_gap, max_bytes);
    if i >= ranges.len() {
        if cur is Some {
            assert(run_covers(runs[0], (cur->0).0 as nat, (cur->0).1 as nat));
        }
    } else {
        let off = ranges[i as int].0;
        let end = (off + ranges[i as int].1) as u64;
        assert(ranges[i as int].0 + ranges[i as int].1 <= u64::MAX);
        if i + 1 < ranges.len() {
            assert(ranges[i as int].0 <= ranges[i as int + 1].0);
        }
        let merge = cur is Some && mergeable(cur->0, off as nat, end as nat, max_gap, max_bytes);
        let next = if merge {
            (
                (cur->0).0,
                if (cur->0).1 < end {
                    end
                } else {
                    (cur->0).1
                },
            )
        } else {
            (off, end)
        };
        lemma_runs_cover(ranges, i + 1, Some(next), max_gap, max_bytes);
        let rest = runs_from(ranges, i + 1, Some(next), max_gap, max_bytes);
        let shift = if cur is Some && !merge {
            1int
        } else {
            0int
        };
        assert(runs.len() == rest.len() + shift);
        assert forall|k: int| 0 <= k < rest.len() implies runs[k + shift] == #[trigger] rest[k] by {}
        let k0 = choose|k: int| 0 <= k < rest.len() && run_covers(#[trigger] rest[k], next.0 as nat, next.1 as nat);
        assert(run_covers(runs[k0 + shift], off as nat, end as nat));
        if cur is Some {
            if merge {
                assert(run_covers(runs[k0 + shift], (cur->0).0 as nat, (cur->0).1 as nat));
            } else {
                assert(run_covers(runs[0], (cur->0).0 as nat, (cur->0).1 as nat));
            }
        }
        assert forall|j: int| i <= j < ranges.len() implies covered(
            runs,
            (#[trigger] ranges[j]).0 as nat,
            (ranges[j].0 + ranges[j].1) as nat,
        ) by {
            if j > i {
                assert(covered(rest, ranges[j].0 as nat, (ranges[j].0 + ranges[j].1) as nat));
                let k = choose|k: int|
                    0 <= k < rest.len() && run_covers(
                        #[trigger] rest[k],
                        ranges[j].0 as nat,
                        (ranges[j].0 + ranges[j].1) as nat,
                    );
                assert(run_covers(runs[k + shift], ranges[j].0 as nat, (ranges[j].0 + ranges[j].1) as nat));
            }
        }
    }
}

/// No byte of a sorted list of ranges is lost: each lies in some extent.
pub proof fn law_coalesce_covers(ranges: Seq<(u64, u64)>, max_gap: u64, max_bytes: u64, j: int, x: nat)
    requires
        ranges_fit(ranges),
        ranges_sorted(ranges),
        0 <= j < ranges.len(),
        ranges[j].0 <= x < ranges[j].0 + ranges[j].1,
    ensures
        byte_covered(coalesced(ranges, max_gap, max_bytes), x),
{
    let runs = runs_from(ranges, 0, None, max_gap, max_bytes);
    lemma_runs_cover(ranges, 0, None, max_gap, max_bytes);
    let (off, end) = (ranges[j].0 as nat, (ranges[j].0 + ranges[j].1) as nat);
    assert(covered(runs, off, end));
    let k = choose|k: int| 0 <= k < runs.len() && run_covers(#[trigger] runs[k], off, end);
    lemma_pieces_cover(runs, 0, k, max_bytes, x);
}

/// No extent exceeds the cap.
pub proof fn law_coalesce_capped(ranges: Seq<(u64, u64)>, max_gap: u64, max_bytes: u64)
    requires
        max_bytes > 0,
    ensures
        forall|k: int|
            0 <= k < coalesced(ranges, max_gap, max_bytes).len() ==> (#[trigger] coalesced(
                ranges,
                max_gap,
                max_bytes,
            )[k]).1 <= coalesced(ranges, max_gap, max_bytes)[k].0 + max_bytes,
{
    lemma_pieces_capped(runs_from(ranges, 0, None, max_gap, max_bytes), 0, max_bytes);
    let all = coalesced(ranges, max_gap, max_bytes);
    assert forall|k: int| 0 <= k < all.len() implies (#[trigger] all[k]).1 <= all[k].0 + max_bytes by {
        assert(piece_capped(all[k], max_bytes));
    }
}

/// No range is longer than the cap; a cap of zero is none.
pub open spec fn ranges_within(ranges: Seq<(u64, u64)>, max_bytes: u64) -> bool {
    max_bytes == 0 || forall|i: int| 0 <= i < ranges.len() ==> (#[trigger] ranges[i]).1 <= max_bytes
}

/// Range `j` starts at `off`.
pub open spec fn starts_at(ranges: Seq<(u64, u64)>, j: int, off: nat) -> bool {
    0 <= j < ranges.len() && ranges[j].0 == off
}

/// Range `j` ends at `end`.
pub open spec fn ends_at(ranges: Seq<(u64, u64)>, j: int, end: nat) -> bool {
    0 <= j < ranges.len() && ranges[j].0 + ranges[j].1 == end
}

/// A run starts where one range does, ends where one does, and keeps to the
/// cap.
spec fn run_made(ranges: Seq<(u64, u64)>, run: (u64, u64), max_bytes: u64) -> bool {
    &&& run.0 <= run.1
    &&& max_bytes > 0 ==> run.1 <= run.0 + max_bytes
    &&& exists|j: int| starts_at(ranges, j, run.0 as nat)
    &&& exists|j: int| ends_at(ranges, j, run.1 as nat)
}

/// A run follows another that could not take it in.
spec fn run_follows(a: (u64, u64), b: (u64, u64), max_bytes: u64) -> bool {
    a.0 <= b.0 && (b.0 > a.1 || b.1 > a.0 + max_bytes)
}

proof fn lemma_runs_made(ranges: Seq<(u64, u64)>, i: nat, cur: Option<(u64, u64)>, max_gap: u64, max_bytes: u64)
    requires
        ranges_fit(ranges),
        ranges_sorted(ranges),
        ranges_within(ranges, max_bytes),
        i <= ranges.len(),
        cur matches Some(c) ==> run_made(ranges, c, max_bytes) && (i < ranges.len() ==> c.0 <= ranges[i as int].0),
    ensures
        ({
            let runs = runs_from(ranges, i, cur, max_gap, max_bytes);
            &&& runs.len() <= ranges.len() - i + if cur is Some {
                1int
            } else {
                0int
            }
            &&& forall|k: int| 0 <= k < runs.len() ==> run_made(ranges, #[trigger] runs[k], max_bytes)
            &&& forall|k: int| 0 < k < runs.len() ==> run_follows(runs[k - 1], #[trigger] runs[k], max_bytes)
            &&& cur is Some || i < ranges.len() ==> runs.len() > 0
            &&& cur matches Some(c) ==> runs[0].0 == c.0 && runs[0].1 >= c.1
            &&& cur is None && i < ranges.len() ==> runs[0].0 == ranges[i as int].0
        }),
    decreases ranges.len() - i,
{
    let runs = runs_from(ranges, i, cur, max_gap, max_bytes);
    if i < ranges.len() {
        let off = ranges[i as int].0;
        let end = (off + ranges[i as int].1) as u64;
        assert(ranges[i as int].0 + ranges[i as int].1 <= u64::MAX);
        assert(starts_at(ranges, i as int, off as nat));
        assert(ends_at(ranges, i as int, end as nat));
        assert(run_made(ranges, (off, end), max_bytes));
        if i + 1 < ranges.len() {
            assert(ranges[i as int].0 <= ranges[i as int + 1].0);
        }
        let merge = cur is Some && mergeable(cur->0, off as nat, end as nat, max_gap, max_bytes);
        let next = if merge {
            (
                (cur->0).0,
                if (cur->0).1 < end {
                    end
                } else {
                    (cur->0).1
                },
            )
        } else {
            (off, end)
        };
        assert(run_made(ranges, next, max_bytes));
        lemma_runs_made(ranges, i + 1, Some(next), max_gap, max_bytes);
        let rest = runs_from(ranges, i + 1, Some(next), max_gap, max_bytes);
        if cur is Some && !merge {
            let c = cur->0;
            assert(runs =~= seq![c] + rest);
            assert forall|k: int| 0 <= k < runs.len() implies run_made(ranges, #[trigger] runs[k], max_bytes) by {
                if k > 0 {
                    assert(runs[k] == rest[k - 1]);
                }
            }
            assert forall|k: int| 0 < k < runs.len() implies run_follows(
                runs[k - 1],
                #[trigger] runs[k],
                max_bytes,
            ) by {
                assert(runs[k] == rest[k - 1]);
                if k > 1 {
                    assert(runs[k - 1] == rest[k - 2]);
                }
            }
        }
    }
}

/// The one extent of a run that keeps to the cap.
spec fn whole_run(run: (u64, u64), max_bytes: u64) -> (nat, nat) {
    (whole_start(run.0 as nat, run.1 as nat, max_bytes), run.1 as nat)
}

proof fn lemma_whole_runs(runs: Seq<(u64, u64)>, i: nat, max_bytes: u64)
    requires
        i <= runs.len(),
        max_bytes == 0 || forall|k: int| 0 <= k < runs.len() ==> (#[trigger] runs[k]).1 <= runs[k].0 + max_bytes,
    ensures
        pieces_from(runs, i, max_bytes).len() == runs.len() - i,
        forall|k: int|
            0 <= k < runs.len() - i ==> (#[trigger] pieces_from(runs, i, max_bytes)[k]) == whole_run(
                runs[i + k],
                max_bytes,
            ),
    decreases runs.len() - i,
{
    if i < runs.len() {
        lemma_whole_runs(runs, i + 1, max_bytes);
        let rest = pieces_from(runs, i + 1, max_bytes);
        let all = pieces_from(runs, i, max_bytes);
        assert(runs[i as int].1 <= runs[i as int].0 + max_bytes || max_bytes == 0);
        assert(all =~= seq![whole_run(runs[i as int], max_bytes)] + rest);
        assert forall|k: int| 0 <= k < runs.len() - i implies (#[trigger] all[k]) == whole_run(
            runs[i + k],
            max_bytes,
        ) by {
            if k > 0 {
                assert(all[k] == rest[k - 1]);
            }
        }
    }
}

proof fn lemma_aligned_below(off: nat)
    ensures
        aligned(off) <= off < aligned(off) + EXTENT_ALIGN,
{
}

proof fn lemma_whole_order(a: (u64, u64), b: (u64, u64), max_bytes: u64)
    requires
        b.0 <= b.1,
        run_follows(a, b, max_bytes),
    ensures
        whole_run(a, max_bytes).0 <= whole_run(b, max_bytes).0,
{
    lemma_aligned_below(a.0 as nat);
    lemma_aligned_below(b.0 as nat);
}

/// One of the extents holds all bytes from `off` to `end`.
pub open spec fn in_one_extent(all: Seq<(nat, nat)>, off: nat, end: nat) -> bool {
    exists|k: int| 0 <= k < all.len() && (#[trigger] all[k]).0 <= off && end <= all[k].1
}

/// Ranges that keep to the cap stay whole: alignment splits none of them.
/// There are at most as many extents as ranges, in their order. Each range
/// lies in one of them.
pub proof fn law_coalesce_keeps_ranges_whole(ranges: Seq<(u64, u64)>, max_gap: u64, max_bytes: u64)
    requires
        ranges_fit(ranges),
        ranges_sorted(ranges),
        ranges_within(ranges, max_bytes),
    ensures
        ({
            let all = coalesced(ranges, max_gap, max_bytes);
            &&& all.len() <= ranges.len()
            &&& forall|k: int| 0 < k < all.len() ==> all[k - 1].0 <= (#[trigger] all[k]).0
            &&& forall|j: int|
                0 <= j < ranges.len() ==> in_one_extent(
                    all,
                    (#[trigger] ranges[j]).0 as nat,
                    (ranges[j].0 + ranges[j].1) as nat,
                )
        }),
{
    let runs = runs_from(ranges, 0, None, max_gap, max_bytes);
    let all = coalesced(ranges, max_gap, max_bytes);
    lemma_runs_made(ranges, 0, None, max_gap, max_bytes);
    lemma_runs_cover(ranges, 0, None, max_gap, max_bytes);
    assert forall|k: int| 0 <= k < runs.len() && max_bytes > 0 implies (#[trigger] runs[k]).1 <= runs[k].0 + max_bytes by {
        assert(run_made(ranges, runs[k], max_bytes));
    }
    lemma_whole_runs(runs, 0, max_bytes);
    assert forall|k: int| 0 < k < all.len() implies all[k - 1].0 <= (#[trigger] all[k]).0 by {
        assert(all[k - 1] == whole_run(runs[k - 1], max_bytes));
        assert(all[k] == whole_run(runs[k], max_bytes));
        assert(run_made(ranges, runs[k], max_bytes));
        assert(run_follows(runs[k - 1], runs[k], max_bytes));
        lemma_whole_order(runs[k - 1], runs[k], max_bytes);
    }
    assert forall|j: int| 0 <= j < ranges.len() implies in_one_extent(
        all,
        (#[trigger] ranges[j]).0 as nat,
        (ranges[j].0 + ranges[j].1) as nat,
    ) by {
        let (off, end) = (ranges[j].0 as nat, (ranges[j].0 + ranges[j].1) as nat);
        assert(covered(runs, off, end));
        let k = choose|k: int| 0 <= k < runs.len() && run_covers(#[trigger] runs[k], off, end);
        assert(all[k] == whole_run(runs[k], max_bytes));
        lemma_aligned_below(runs[k].0 as nat);
        assert(all[k].0 <= off && end <= all[k].1);
    }
}

/// Where ranges keep to the cap, an extent ends where some range does. It
/// starts at the last multiple of the alignment up to where some range does;
/// only where it would then exceed the cap, it starts with that range.
pub proof fn law_coalesce_aligned(ranges: Seq<(u64, u64)>, max_gap: u64, max_bytes: u64, k: int)
    requires
        ranges_fit(ranges),
        ranges_sorted(ranges),
        ranges_within(ranges, max_bytes),
        0 <= k < coalesced(ranges, max_gap, max_bytes).len(),
    ensures
        ({
            let (start, end) = coalesced(ranges, max_gap, max_bytes)[k];
            &&& exists|j: int| ends_at(ranges, j, end)
            &&& exists|j: int|
                0 <= j < ranges.len() && start == whole_start((#[trigger] ranges[j]).0 as nat, end, max_bytes)
        }),
{
    let runs = runs_from(ranges, 0, None, max_gap, max_bytes);
    lemma_runs_made(ranges, 0, None, max_gap, max_bytes);
    assert forall|l: int| 0 <= l < runs.len() && max_bytes > 0 implies (#[trigger] runs[l]).1 <= runs[l].0 + max_bytes by {
        assert(run_made(ranges, runs[l], max_bytes));
    }
    lemma_whole_runs(runs, 0, max_bytes);
    let all = coalesced(ranges, max_gap, max_bytes);
    assert(all[k] == whole_run(runs[k], max_bytes));
    assert(run_made(ranges, runs[k], max_bytes));
    let j = choose|j: int| starts_at(ranges, j, runs[k].0 as nat);
    assert(ranges[j].0 == runs[k].0);
}

/// Two ranges that keep to the cap come in one extent exactly where the gap
/// between them is at most the one allowed and the two together keep to the
/// cap.
pub proof fn law_coalesce_pair(a: (u64, u64), b: (u64, u64), max_gap: u64, max_bytes: u64)
    requires
        a.0 + a.1 <= u64::MAX,
        b.0 + b.1 <= u64::MAX,
        a.0 <= b.0,
        a.1 <= max_bytes,
        b.1 <= max_bytes,
        0 < max_bytes,
    ensures
        coalesced(seq![a, b], max_gap, max_bytes).len() == 1 <==> b.0 <= a.0 + a.1 + max_gap && b.0 + b.1 <= a.0
            + max_bytes,
        coalesced(seq![a, b], max_gap, max_bytes).len() <= 2,
{
    let ranges = seq![a, b];
    let runs = runs_from(ranges, 0, None, max_gap, max_bytes);
    let (x, y) = ((a.0 + a.1) as u64, (b.0 + b.1) as u64);
    let c = Some((a.0, x));
    assert(runs == runs_from(ranges, 1, c, max_gap, max_bytes));
    if b.0 <= x + max_gap && y <= a.0 + max_bytes {
        let z = if x < y {
            y
        } else {
            x
        };
        assert(runs_from(ranges, 2, Some((a.0, z)), max_gap, max_bytes) =~= seq![(a.0, z)]);
        assert(runs =~= seq![(a.0, z)]);
        assert(pieces_from(runs, 1, max_bytes) =~= Seq::empty());
        assert(pieces(a.0 as nat, z as nat, max_bytes).len() == 1);
    } else {
        assert(runs_from(ranges, 2, Some((b.0, y)), max_gap, max_bytes) =~= seq![(b.0, y)]);
        assert(runs =~= seq![(a.0, x), (b.0, y)]);
        assert(pieces_from(runs, 2, max_bytes) =~= Seq::empty());
        assert(pieces_from(runs, 1, max_bytes) =~= pieces(b.0 as nat, y as nat, max_bytes));
        assert(pieces(b.0 as nat, y as nat, max_bytes).len() == 1);
        assert(pieces(a.0 as nat, x as nat, max_bytes).len() == 1);
    }
}

/// The runs of the ranges behind the first `j` are those of these ranges alone.
proof fn lemma_runs_behind(ranges: Seq<(u64, u64)>, j: nat, i: nat, cur: Option<(u64, u64)>, max_gap: u64, max_bytes: u64)
    requires
        j + i <= ranges.len(),
    ensures
        runs_from(ranges, j + i, cur, max_gap, max_bytes) == runs_from(ranges.skip(j as int), i, cur, max_gap, max_bytes),
    decreases ranges.len() - j - i,
{
    if j + i < ranges.len() {
        let rest = ranges.skip(j as int);
        assert(rest[i as int] == ranges[(j + i) as int]);
        let off = ranges[(j + i) as int].0;
        let end = (off + ranges[(j + i) as int].1) as u64;
        lemma_runs_behind(ranges, j, i + 1, Some((off, end)), max_gap, max_bytes);
        if cur is Some {
            let c = cur->0;
            let wider = (
                c.0,
                if c.1 < end {
                    end
                } else {
                    c.1
                },
            );
            lemma_runs_behind(ranges, j, i + 1, Some(wider), max_gap, max_bytes);
        }
    }
}

/// Everything from range `j` on starts behind `end` and the gap allowed.
pub open spec fn far_behind(ranges: Seq<(u64, u64)>, j: nat, end: int, max_gap: u64) -> bool {
    forall|k: int| j <= k < ranges.len() ==> end + max_gap < (#[trigger] ranges[k]).0
}

/// No run goes on over a gap that is too wide.
proof fn lemma_runs_apart(ranges: Seq<(u64, u64)>, j: nat, i: nat, cur: Option<(u64, u64)>, max_gap: u64, max_bytes: u64)
    requires
        ranges_fit(ranges),
        i <= j < ranges.len(),
        forall|l: int| 0 <= l < j ==> far_behind(ranges, j, (#[trigger] ranges[l]).0 + ranges[l].1, max_gap),
        cur matches Some(c) ==> far_behind(ranges, j, c.1 as int, max_gap),
        i == j ==> cur is Some,
    ensures
        runs_from(ranges, i, cur, max_gap, max_bytes) == runs_from(ranges.take(j as int), i, cur, max_gap, max_bytes)
            + runs_from(ranges, j, None, max_gap, max_bytes),
    decreases j - i,
{
    let first = ranges.take(j as int);
    let tail = runs_from(ranges, j, None, max_gap, max_bytes);
    if i == j {
        let c = cur->0;
        assert(c.1 + max_gap < ranges[j as int].0);
        assert(runs_from(first, i, cur, max_gap, max_bytes) =~= seq![c]);
    } else {
        assert(first[i as int] == ranges[i as int]);
        let off = ranges[i as int].0;
        let end = (off + ranges[i as int].1) as u64;
        assert(far_behind(ranges, j, end as int, max_gap));
        lemma_runs_apart(ranges, j, i + 1, Some((off, end)), max_gap, max_bytes);
        if cur is Some {
            let c = cur->0;
            let wider = (
                c.0,
                if c.1 < end {
                    end
                } else {
                    c.1
                },
            );
            lemma_runs_apart(ranges, j, i + 1, Some(wider), max_gap, max_bytes);
            let more = runs_from(first, i + 1, Some((off, end)), max_gap, max_bytes);
            assert(seq![c] + (more + tail) =~= (seq![c] + more) + tail);
        }
    }
}

/// The extents of two lists of runs, one behind the other.
proof fn lemma_pieces_joined(a: Seq<(u64, u64)>, b: Seq<(u64, u64)>, i: nat, max_bytes: u64)
    requires
        i <= a.len() + b.len(),
    ensures
        i <= a.len() ==> pieces_from(a + b, i, max_bytes) == pieces_from(a, i, max_bytes) + pieces_from(b, 0, max_bytes),
        a.len() <= i ==> pieces_from(a + b, i, max_bytes) == pieces_from(b, (i - a.len()) as nat, max_bytes),
    decreases a.len() + b.len() - i,
{
    if i < a.len() + b.len() {
        lemma_pieces_joined(a, b, i + 1, max_bytes);
        if i < a.len() {
            let p = pieces(a[i as int].0 as nat, a[i as int].1 as nat, max_bytes);
            assert((a + b)[i as int] == a[i as int]);
            assert(p + (pieces_from(a, i + 1, max_bytes) + pieces_from(b, 0, max_bytes)) =~= (p + pieces_from(
                a,
                i + 1,
                max_bytes,
            )) + pieces_from(b, 0, max_bytes));
        } else {
            assert((a + b)[i as int] == b[i - a.len()]);
        }
    }
    if i == a.len() {
        assert(pieces_from(a, i, max_bytes) + pieces_from(b, 0, max_bytes) =~= pieces_from(b, 0, max_bytes));
    }
}

/// Over a gap wider than the one allowed nothing is read: the ranges before
/// it and those behind it get the extents that they would get alone.
pub proof fn law_coalesce_apart(ranges: Seq<(u64, u64)>, j: nat, max_gap: u64, max_bytes: u64)
    requires
        ranges_fit(ranges),
        0 < j < ranges.len(),
        forall|l: int| 0 <= l < j ==> far_behind(ranges, j, (#[trigger] ranges[l]).0 + ranges[l].1, max_gap),
    ensures
        coalesced(ranges, max_gap, max_bytes) == coalesced(ranges.take(j as int), max_gap, max_bytes) + coalesced(
            ranges.skip(j as int),
            max_gap,
            max_bytes,
        ),
{
    let a = runs_from(ranges.take(j as int), 0, None, max_gap, max_bytes);
    let b = runs_from(ranges.skip(j as int), 0, None, max_gap, max_bytes);
    lemma_runs_apart(ranges, j, 0, None, max_gap, max_bytes);
    lemma_runs_behind(ranges, j, 0, None, max_gap, max_bytes);
    lemma_pieces_joined(a, b, 0, max_bytes);
}

} // verus!
