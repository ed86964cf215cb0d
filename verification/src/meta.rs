//! The `lucene.*` metadata namespace.
//!
//! All metadata lives under this reserved prefix. Clients must tolerate
//! unknown keys. Key names are contract; many values are defaults.

use vstd::prelude::*;
use crate::text::same_text;

pub mod dict_mode;
pub mod field_type;

verus! {

/// Wire frame version. Bumped only for breaking changes to the frame
/// contract.
pub const FRAME_VERSION: u32 = 1;

// Batch-level keys.

pub const SEGMENT: &'static str = "lucene.segment";

pub const SEGMENT_ORD: &'static str = "lucene.segment_ord";

pub const DOC_LO: &'static str = "lucene.doc_lo";

pub const DOC_HI: &'static str = "lucene.doc_hi";

pub const DOC_BASE: &'static str = "lucene.doc_base";

pub const MAX_DOC: &'static str = "lucene.max_doc";

pub const LIVE_APPLIED: &'static str = "lucene.live_applied";

pub const CODEC: &'static str = "lucene.codec";

pub const FRAME_VERSION_KEY: &'static str = "lucene.frame_version";

// System columns.

pub const COL_SEG: &'static str = "_seg";

pub const COL_DOC: &'static str = "_doc";

pub const COL_GLOBAL_DOC: &'static str = "_global_doc";

pub const COL_LIVE: &'static str = "_live";

// Field-level keys.

pub const FIELD_TYPE: &'static str = "lucene.type";

pub const FIELD_NAME: &'static str = "lucene.field";

pub const DICT_MODE: &'static str = "lucene.dict";

pub const DICT_CARDINALITY: &'static str = "lucene.dict.cardinality";

pub const MULTI: &'static str = "lucene.multi";

pub const SOURCE_TYPE: &'static str = "lucene.source_type";

pub const ALLOW_LOSSY: &'static str = "lucene.allow_lossy";

pub const SCALE_FACTOR: &'static str = "lucene.scale_factor";

pub const VECTOR_SIMILARITY: &'static str = "lucene.vector.similarity";

pub const VECTOR_ENCODING: &'static str = "lucene.vector.encoding";

pub const VECTOR_QUANT: &'static str = "lucene.vector.quant";

pub const POINTS: &'static str = "lucene.points";

/// Row modes: the caller must choose, there is no implicit default.
#[derive(Debug, Clone, Copy, PartialEq, Eq, Structural)]
pub enum RowMode {
    /// Deleted documents dropped.
    Compact,
    /// One row per document, with a liveness column.
    Positional,
}

/// How a row mode is written.
pub open spec fn row_mode_text(mode: RowMode) -> Seq<char> {
    match mode {
        RowMode::Compact => "compact"@,
        RowMode::Positional => "positional"@,
    }
}

impl RowMode {
    pub fn parse(s: &str) -> (r: Option<RowMode>)
        ensures
            r matches Some(m) ==> s@ == row_mode_text(m),
            r is None ==> s@ != row_mode_text(RowMode::Compact) && s@ != row_mode_text(RowMode::Positional),
    {
        if same_text(s, "compact") {
            Some(RowMode::Compact)
        } else if same_text(s, "positional") {
            Some(RowMode::Positional)
        } else {
            None
        }
    }

    pub fn as_str(&self) -> (r: &'static str)
        ensures
            r@ == row_mode_text(*self),
    {
        match self {
            RowMode::Compact => "compact",
            RowMode::Positional => "positional",
        }
    }
}

/// No two row modes are written alike, so that parsing undoes writing.
pub proof fn law_row_modes_differ(a: RowMode, b: RowMode)
    ensures
        row_mode_text(a) == row_mode_text(b) ==> a == b,
{
    reveal_strlit("compact");
    reveal_strlit("positional");
    if a != b {
        assert("compact"@.len() != "positional"@.len());
    }
}

} // verus!
