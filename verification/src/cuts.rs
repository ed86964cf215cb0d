//! Where a write job's segments are cut: what holds over a run of batches.

use vstd::prelude::*;
use crate::session::{cut_due, segment_added, taken, Batch, SessionModel};
use crate::writer::{FileModel, WrittenSegment};

verus! {

/// A run of pushes: `run[i]` is the session before batch `i`, and the first
/// has collected nothing.
pub open spec fn is_run(run: Seq<SessionModel>, batches: Seq<Batch>) -> bool {
    &&& run.len() == batches.len() + 1
    &&& run[0].docs == 0
    &&& run[0].written.len() == 0
    &&& run[0].segment_max_docs >= 1
    &&& forall|i: int| #![trigger batches[i]] 0 <= i < batches.len() ==> taken(run[i], batches[i], run[i + 1])
}

/// The rows of the first `n` batches.
pub open spec fn rows_of(batches: Seq<Batch>, n: nat) -> nat
    decreases n,
{
    if n == 0 {
        0
    } else {
        rows_of(batches, (n - 1) as nat) + batches[n - 1].rows as nat
    }
}

/// The documents of the first `n` segments.
pub open spec fn docs_of(written: Seq<WrittenSegment>, n: nat) -> nat
    decreases n,
{
    if n == 0 {
        0
    } else {
        docs_of(written, (n - 1) as nat) + written[n - 1].num_docs as nat
    }
}

/// The segment that batch `i` of a run belongs to.
pub open spec fn segment_of(run: Seq<SessionModel>, i: int) -> nat {
    run[i + 1].written.len()
}

/// The document that the first row of batch `i` of a run becomes, within its
/// segment.
pub open spec fn first_doc(run: Seq<SessionModel>, batches: Seq<Batch>, i: int) -> int {
    run[i + 1].docs - batches[i].rows
}

/// How many documents segment `s` of a run's last session has: those it was
/// cut with, or those collected so far.
pub open spec fn segment_docs(last: SessionModel, s: int) -> nat {
    if s < last.written.len() {
        last.written[s].num_docs as nat
    } else {
        last.docs as nat
    }
}

proof fn lemma_docs_prefix(a: Seq<WrittenSegment>, b: Seq<WrittenSegment>, n: nat)
    requires
        n <= a.len(),
        n <= b.len(),
        a.take(n as int) == b.take(n as int),
    ensures
        docs_of(a, n) == docs_of(b, n),
    decreases n,
{
    if n > 0 {
        assert(a.take(n - 1) =~= a.take(n as int).take(n - 1));
        assert(b.take(n - 1) =~= b.take(n as int).take(n - 1));
        lemma_docs_prefix(a, b, (n - 1) as nat);
        assert(a[n - 1] == a.take(n as int)[n - 1]);
        assert(b[n - 1] == b.take(n as int)[n - 1]);
    }
}

/// A cut comes before a batch exactly where the segment being built has
/// reached the limit; it closes that segment with the documents that were
/// collected. Otherwise the batch goes on behind them.
pub proof fn law_cut_where_due(run: Seq<SessionModel>, batches: Seq<Batch>, i: int)
    requires
        is_run(run, batches),
        0 <= i < batches.len(),
    ensures
        run[i].segment_max_docs == run[0].segment_max_docs,
        run[i].docs >= run[0].segment_max_docs ==> segment_of(run, i) == run[i].written.len() + 1 && first_doc(
            run,
            batches,
            i,
        ) == 0 && run[i + 1].written.last().num_docs == run[i].docs,
        run[i].docs < run[0].segment_max_docs ==> segment_of(run, i) == run[i].written.len() && first_doc(
            run,
            batches,
            i,
        ) == run[i].docs,
    decreases i,
{
    assert(taken(run[i], batches[i], run[i + 1]));
    if i > 0 {
        law_cut_where_due(run, batches, i - 1);
        assert(taken(run[i - 1], batches[i - 1], run[i]));
    }
}

/// Every row that arrived is in some segment: the documents of the segments
/// cut so far, and those of the one being built, are as many as the rows.
pub proof fn law_segments_hold_all_rows(run: Seq<SessionModel>, batches: Seq<Batch>, n: nat)
    requires
        is_run(run, batches),
        n <= batches.len(),
    ensures
        docs_of(run[n as int].written, run[n as int].written.len()) + run[n as int].docs == rows_of(batches, n),
    decreases n,
{
    if n > 0 {
        let k = (n - 1) as nat;
        law_segments_hold_all_rows(run, batches, k);
        let m = run[k as int];
        let after = run[n as int];
        assert(taken(m, batches[k as int], after));
        if cut_due(m) {
            let w = after.written;
            assert(w.take(m.written.len() as int) =~= w.drop_last());
            assert(m.written.take(m.written.len() as int) =~= m.written);
            lemma_docs_prefix(w, m.written, m.written.len());
        }
    }
}

/// A job that ends with a flush of what was left has every row in one of its
/// segments.
pub proof fn law_job_holds_all_rows(
    run: Seq<SessionModel>,
    batches: Seq<Batch>,
    end: SessionModel,
    id: [u8; 16],
    extra: Seq<FileModel>,
)
    requires
        is_run(run, batches),
        run.last().docs == 0 ==> end == run.last(),
        run.last().docs > 0 ==> segment_added(run.last(), end, id, extra),
    ensures
        docs_of(end.written, end.written.len()) == rows_of(batches, batches.len()),
{
    let m = run.last();
    law_segments_hold_all_rows(run, batches, batches.len());
    if m.docs > 0 {
        let w = end.written;
        assert(w.take(m.written.len() as int) =~= w.drop_last());
        assert(m.written.take(m.written.len() as int) =~= m.written);
        lemma_docs_prefix(w, m.written, m.written.len());
    }
}

/// Documents are numbered in order of arrival: the rows of a batch become
/// consecutive documents of one segment, behind those of all batches before
/// it.
pub proof fn law_numbers_follow_arrival(run: Seq<SessionModel>, batches: Seq<Batch>, i: int)
    requires
        is_run(run, batches),
        0 <= i < batches.len(),
    ensures
        first_doc(run, batches, i) >= 0,
        docs_of(run[i + 1].written, segment_of(run, i)) + first_doc(run, batches, i) == rows_of(batches, i as nat),
{
    assert(taken(run[i], batches[i], run[i + 1]));
    law_segments_hold_all_rows(run, batches, (i + 1) as nat);
}

/// Segments that were cut stay as they are.
proof fn lemma_segments_stay(run: Seq<SessionModel>, batches: Seq<Batch>, i: int, j: int)
    requires
        is_run(run, batches),
        0 <= i <= j <= batches.len(),
    ensures
        run[i].written.len() <= run[j].written.len(),
        run[j].written.take(run[i].written.len() as int) == run[i].written,
    decreases j - i,
{
    if i < j {
        lemma_segments_stay(run, batches, i, j - 1);
        let m = run[j - 1];
        let after = run[j];
        assert(taken(m, batches[j - 1], after));
        let n = run[i].written.len() as int;
        if cut_due(m) {
            assert(after.written.take(n) =~= after.written.drop_last().take(n));
        }
    } else {
        assert(run[j].written.take(run[j].written.len() as int) =~= run[j].written);
    }
}

/// What was collected of a segment is in it at the end of the run.
proof fn lemma_segment_grows(run: Seq<SessionModel>, batches: Seq<Batch>, i: int, j: int)
    requires
        is_run(run, batches),
        0 <= i <= j <= batches.len(),
    ensures
        run[i].docs <= segment_docs(run[j], run[i].written.len() as int),
    decreases j - i,
{
    if i < j {
        lemma_segment_grows(run, batches, i, j - 1);
        lemma_segments_stay(run, batches, i, j - 1);
        let m = run[j - 1];
        let after = run[j];
        let s = run[i].written.len() as int;
        assert(taken(m, batches[j - 1], after));
        if cut_due(m) {
            if s < m.written.len() {
                assert(after.written.drop_last()[s] == after.written[s]);
            } else {
                assert(after.written.last() == after.written[s]);
            }
        }
    }
}

/// A batch is whole in one segment: at the end of the run, that segment still
/// holds all documents that the batch's rows became.
pub proof fn law_batch_in_one_segment(run: Seq<SessionModel>, batches: Seq<Batch>, i: int)
    requires
        is_run(run, batches),
        0 <= i < batches.len(),
    ensures
        segment_of(run, i) <= run.last().written.len(),
        0 <= first_doc(run, batches, i),
        first_doc(run, batches, i) + batches[i].rows <= segment_docs(run.last(), segment_of(run, i) as int),
{
    assert(taken(run[i], batches[i], run[i + 1]));
    let n = batches.len() as int;
    lemma_segments_stay(run, batches, i + 1, n);
    lemma_segment_grows(run, batches, i + 1, n);
}

/// A segment that was cut has reached the limit, and had not reached it before
/// its last batch.
pub proof fn law_cut_as_soon_as_full(run: Seq<SessionModel>, batches: Seq<Batch>, s: int)
    requires
        is_run(run, batches),
        0 <= s < run.last().written.len(),
    ensures
        run.last().written[s].num_docs >= run[0].segment_max_docs,
        exists|i: int|
            0 <= i < batches.len() && #[trigger] segment_of(run, i) == s && first_doc(run, batches, i)
                + batches[i].rows == run.last().written[s].num_docs && first_doc(run, batches, i)
                < run[0].segment_max_docs,
{
    lemma_cut_found(run, batches, s, batches.len());
}

proof fn lemma_cut_found(run: Seq<SessionModel>, batches: Seq<Batch>, s: int, n: nat)
    requires
        is_run(run, batches),
        n <= batches.len(),
        0 <= s < run[n as int].written.len(),
    ensures
        run[n as int].written[s].num_docs >= run[0].segment_max_docs,
        exists|i: int|
            0 <= i < n && #[trigger] segment_of(run, i) == s && first_doc(run, batches, i) + batches[i].rows
                == run[n as int].written[s].num_docs && first_doc(run, batches, i) < run[0].segment_max_docs,
    decreases n,
{
    let k = n - 1;
    let m = run[k];
    let after = run[n as int];
    assert(taken(m, batches[k], after));
    law_cut_where_due(run, batches, k);
    if s < m.written.len() {
        lemma_cut_found(run, batches, s, k as nat);
        if cut_due(m) {
            assert(after.written.drop_last()[s] == after.written[s]);
        }
    } else {
        assert(cut_due(m));
        assert(after.written.last() == after.written[s]);
        assert(m.docs > 0);
        assert(k > 0);
        let j = k - 1;
        assert(taken(run[j], batches[j], run[k]));
        law_cut_where_due(run, batches, j);
        assert(segment_of(run, j) == s);
        assert(first_doc(run, batches, j) + batches[j].rows == m.docs);
    }
}

} // verus!
