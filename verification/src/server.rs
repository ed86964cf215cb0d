//! The decisions of the service in front of the engine: which status an
//! error becomes, which relation a request reads, which action is asked for,
//! and where the documents of each segment start.

use vstd::prelude::*;
use crate::error::{Error, ErrorKind, Result};
use crate::postings::RELATION;
use crate::request::{text_of, ReadRequest};
use crate::resolve::{places, within};
use crate::segment::SegmentMeta;
use crate::text::same_text;

verus! {

/// Rows per batch of the postings relation where the request does not say.
pub const DEFAULT_POSTINGS_ROWS: u64 = 1048576;

/// The status that a failed call is answered with.
#[derive(Debug, Clone, Copy, PartialEq, Eq, Structural)]
pub enum StatusCode {
    InvalidArgument,
    Unimplemented,
    Internal,
}

/// The status of an error: the caller's own mistakes and unsupported
/// requests are told apart, all else is internal.
pub open spec fn status_of_kind(k: ErrorKind) -> StatusCode {
    match k {
        ErrorKind::InvalidArgument => StatusCode::InvalidArgument,
        ErrorKind::Unsupported => StatusCode::Unimplemented,
        _ => StatusCode::Internal,
    }
}

pub fn status_of(e: &Error) -> (r: StatusCode)
    ensures
        r == status_of_kind(e.kind()),
{
    match e {
        Error::InvalidArgument(_) => StatusCode::InvalidArgument,
        Error::Unsupported(_) => StatusCode::Unimplemented,
        _ => StatusCode::Internal,
    }
}

/// Whether a request reads postings.
pub open spec fn reads_postings(request: ReadRequest) -> bool {
    text_of(request.relation) == Some(RELATION@)
}

/// The field and the rows per batch of a request for postings; none for a
/// request for doc values. A request for postings must name the field.
pub fn postings_request(request: &ReadRequest) -> (r: Result<Option<(&String, u64)>>)
    ensures
        !reads_postings(*request) ==> (r matches Ok(None)),
        reads_postings(*request) ==> match request.postings_field {
            Some(f) => r matches Ok(Some((g, n))) && *g == f && n == (match request.batch_rows {
                Some(rows) => rows,
                None => DEFAULT_POSTINGS_ROWS,
            }),
            None => r matches Err(e) && e.kind() == ErrorKind::InvalidArgument,
        },
{
    let postings: bool = match &request.relation {
        Some(s) => same_text(s.as_str(), RELATION),
        None => false,
    };
    if !postings {
        return Ok(None);
    }
    let rows: u64 = match request.batch_rows {
        Some(n) => n,
        None => DEFAULT_POSTINGS_ROWS,
    };
    match &request.postings_field {
        Some(f) => Ok(Some((f, rows))),
        None => Err(Error::invalid("postings_field required")),
    }
}

/// The actions that the service performs.
#[derive(Debug, Clone, Copy, PartialEq, Eq, Structural)]
pub enum ServiceAction {
    Hydrate,
    Stats,
}

/// How an action is written.
pub open spec fn action_text(a: ServiceAction) -> Seq<char> {
    match a {
        ServiceAction::Hydrate => "hydrate"@,
        ServiceAction::Stats => "stats"@,
    }
}

impl ServiceAction {
    /// The action that a name stands for; any other is unsupported.
    pub fn parse(name: &str) -> (r: Result<ServiceAction>)
        ensures
            r matches Ok(a) ==> name@ == action_text(a),
            r matches Err(e) ==> e.kind() == ErrorKind::Unsupported && name@ != action_text(ServiceAction::Hydrate)
                && name@ != action_text(ServiceAction::Stats),
    {
        if same_text(name, "hydrate") {
            Ok(ServiceAction::Hydrate)
        } else if same_text(name, "stats") {
            Ok(ServiceAction::Stats)
        } else {
            Err(Error::unsupported("unknown action"))
        }
    }

    pub fn as_str(&self) -> (r: &'static str)
        ensures
            r@ == action_text(*self),
    {
        match self {
            ServiceAction::Hydrate => "hydrate",
            ServiceAction::Stats => "stats",
        }
    }
}

/// No two actions are written alike.
pub proof fn law_actions_differ(a: ServiceAction, b: ServiceAction)
    ensures
        action_text(a) == action_text(b) ==> a == b,
{
    reveal_strlit("hydrate");
    reveal_strlit("stats");
    if a != b {
        assert("hydrate"@.len() != "stats"@.len());
    }
}

/// The documents of the first `n` selected segments.
pub open spec fn docs_before(segments: Seq<SegmentMeta>, chosen: Seq<nat>, n: nat) -> int
    decreases n,
{
    if n == 0 {
        0
    } else {
        docs_before(segments, chosen, (n - 1) as nat) + segments[chosen[n - 1] as int].max_doc
    }
}

/// Where each selected segment's documents start among all, and how many
/// there are in all.
pub fn doc_bases(segments: &[SegmentMeta], chosen: &Vec<usize>) -> (r: (Vec<i64>, i64))
    requires
        within(chosen@, segments@.len()),
        chosen@.len() <= u32::MAX,
    ensures
        r.0@ == Seq::new(chosen@.len(), |i: int| docs_before(segments@, places(chosen@), i as nat) as i64),
        r.1 == docs_before(segments@, places(chosen@), chosen@.len()),
        r.0@.len() == chosen@.len(),
        chosen@.len() == 0 ==> r.1 == 0,
        chosen@.len() > 0 ==> r.0@[0] == 0,
        forall|i: int|
            0 <= i < chosen@.len() ==> segments@[(#[trigger] chosen@[i]) as int].max_doc + r.0@[i] == (if i + 1
                < chosen@.len() {
                r.0@[i + 1]
            } else {
                r.1
            }),
{
    let ghost c = places(chosen@);
    let mut bases: Vec<i64> = Vec::new();
    let mut total: i64 = 0;
    let mut i: usize = 0;
    while i < chosen.len()
        invariant
            i <= chosen@.len(),
            chosen@.len() <= u32::MAX,
            within(chosen@, segments@.len()),
            c == places(chosen@),
            total == docs_before(segments@, c, i as nat),
            -0x8000_0000 * i <= total <= 0x7FFF_FFFF * i,
            bases@.len() == i,
            forall|k: int| 0 <= k < i ==> (#[trigger] bases@[k]) == docs_before(segments@, c, k as nat),
        decreases chosen@.len() - i,
    {
        bases.push(total);
        assert(c[i as int] == chosen@[i as int]);
        total = total + segments[chosen[i]].max_doc as i64;
        i = i + 1;
    }
    assert(bases@ =~= Seq::new(chosen@.len(), |i: int| docs_before(segments@, c, i as nat) as i64));
    proof {
        law_global_docs_follow(segments@, c);
        assert forall|i: int| 0 <= i < chosen@.len() implies segments@[(#[trigger] chosen@[i]) as int].max_doc
            + bases@[i] == (if i + 1 < chosen@.len() {
            bases@[i + 1]
        } else {
            total
        }) by {
            assert(c[i] == chosen@[i]);
        }
    }
    (bases, total)
}

/// The documents of the selected segments follow each other without a gap:
/// those of the first start at zero, and each segment's start as many
/// documents behind those of the segment before it as that has, deleted ones
/// with them.
pub proof fn law_global_docs_follow(segments: Seq<SegmentMeta>, chosen: Seq<nat>)
    ensures
        docs_before(segments, chosen, 0) == 0,
        forall|i: int|
            0 <= i < chosen.len() ==> docs_before(segments, chosen, i as nat + 1) - docs_before(
                segments,
                chosen,
                i as nat,
            ) == segments[(#[trigger] chosen[i]) as int].max_doc,
{
}

/// No two documents of a read have the same global number: document `d` of
/// the selected segment `i` and document `e` of the selected segment `j` share
/// one only where they are the same document. All are below the total.
pub proof fn law_global_docs_distinct(segments: Seq<SegmentMeta>, chosen: Seq<nat>, i: int, d: int, j: int, e: int)
    requires
        forall|k: int| 0 <= k < chosen.len() ==> segments[(#[trigger] chosen[k]) as int].max_doc >= 0,
        0 <= i < chosen.len(),
        0 <= j < chosen.len(),
        0 <= d < segments[chosen[i] as int].max_doc,
        0 <= e < segments[chosen[j] as int].max_doc,
    ensures
        docs_before(segments, chosen, i as nat) + d == docs_before(segments, chosen, j as nat) + e ==> i == j && d == e,
        0 <= docs_before(segments, chosen, i as nat) + d < docs_before(segments, chosen, chosen.len()),
{
    lemma_docs_before_mono(segments, chosen, 0, i as nat);
    lemma_docs_before_mono(segments, chosen, i as nat + 1, chosen.len());
    law_global_docs_follow(segments, chosen);
    assert(segments[chosen[i] as int].max_doc >= 0 && segments[chosen[j] as int].max_doc >= 0);
    if i < j {
        lemma_docs_before_mono(segments, chosen, i as nat + 1, j as nat);
    } else if j < i {
        lemma_docs_before_mono(segments, chosen, j as nat + 1, i as nat);
    }
}

proof fn lemma_docs_before_mono(segments: Seq<SegmentMeta>, chosen: Seq<nat>, a: nat, b: nat)
    requires
        forall|k: int| 0 <= k < chosen.len() ==> segments[(#[trigger] chosen[k]) as int].max_doc >= 0,
        a <= b <= chosen.len(),
    ensures
        docs_before(segments, chosen, a) <= docs_before(segments, chosen, b),
    decreases b - a,
{
    if a < b {
        lemma_docs_before_mono(segments, chosen, a, (b - 1) as nat);
        assert(segments[chosen[b - 1] as int].max_doc >= 0);
    }
}

/// A caller can tell from the status whether to change the request, to do
/// without, or that the service failed: no two of these share a status.
pub proof fn law_status_tells(a: ErrorKind, b: ErrorKind)
    ensures
        status_of_kind(a) == status_of_kind(b) ==> a == b || (a != ErrorKind::InvalidArgument && a
            != ErrorKind::Unsupported && b != ErrorKind::InvalidArgument && b != ErrorKind::Unsupported),
        status_of_kind(a) == StatusCode::InvalidArgument <==> a == ErrorKind::InvalidArgument,
        status_of_kind(a) == StatusCode::Unimplemented <==> a == ErrorKind::Unsupported,
{
}

/// A request reads postings where it names that relation, and doc values
/// where it names another or none.
pub proof fn law_relation_asked(request: ReadRequest)
    ensures
        reads_postings(request) <==> (request.relation is Some && request.relation->0@ == "postings"@),
{
}

} // verus!
