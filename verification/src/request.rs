//! Read and write job vocabulary: what a caller asks for, and what a write
//! job answers.

use vstd::prelude::*;
use crate::attributes::Attributes;
use crate::error::{Error, ErrorKind, Result};
use crate::text::same_text;

verus! {

/// Which segments of a directory a request covers.
#[derive(Debug)]
pub enum SegmentSelector {
    All,
    Names(Vec<String>),
}

/// How the selection of all segments is written.
pub const SELECT_ALL: &'static str = "all";

impl SegmentSelector {
    /// The selector that a single word stands for: `all`, and no other.
    pub fn from_keyword(k: &str) -> (r: Result<SegmentSelector>)
        ensures
            k@ == SELECT_ALL@ ==> r == Ok::<SegmentSelector, Error>(SegmentSelector::All),
            k@ != SELECT_ALL@ ==> (r matches Err(e) && e.kind() == ErrorKind::InvalidArgument),
    {
        if same_text(k, SELECT_ALL) {
            Ok(SegmentSelector::All)
        } else {
            Err(Error::invalid("invalid segment selector: expected \"all\" or a list"))
        }
    }
}

/// Dictionary mode by column; `*` stands for every other column.
#[derive(Debug)]
pub struct DictModes(pub Attributes);

/// A read request. The row mode is required, there is no implicit default.
#[derive(Debug)]
pub struct ReadRequest {
    pub path: String,
    pub segments: SegmentSelector,
    pub columns: Option<Vec<String>>,
    pub row_mode: String,
    pub dict: Option<DictModes>,
    pub batch_rows: Option<u64>,
    pub executor: Option<String>,
    pub frame_version: u32,
    /// Relation to read: doc values (the default) or `postings`.
    pub relation: Option<String>,
    /// Indexed field for the postings relation.
    pub postings_field: Option<String>,
}

/// A request for stored columns of explicit rows.
#[derive(Debug)]
pub struct HydrateRequest {
    pub path: String,
    /// Segment ordinal and document within the segment.
    pub pairs: Vec<(u32, u32)>,
    pub columns: Vec<String>,
}

/// One entry of an index sort.
#[derive(Debug)]
pub struct SortSpec {
    pub field: String,
    /// `asc` or `desc`.
    pub order: String,
}

/// A write job.
#[derive(Debug)]
pub struct WriteJob {
    pub output_dir: String,
    pub codec: String,
    pub segment_max_docs: Option<u64>,
    pub segment_max_bytes: Option<u64>,
    pub index_sort: Option<Vec<SortSpec>>,
    /// `strict` or `auto`.
    pub coercion: Option<String>,
    pub compound: Option<bool>,
    pub executor: Option<String>,
    pub frame_version: u32,
}

/// One file of a flushed segment.
#[derive(Debug)]
pub struct FileManifest {
    pub name: String,
    pub bytes: u64,
    pub crc32: u32,
}

/// How one field of a flushed segment was written.
#[derive(Debug)]
pub struct FieldStats {
    pub name: String,
    pub lucene_type: &'static str,
    /// The type that the column arrived with, as text.
    pub source_type: String,
    pub encoder: &'static str,
}

/// What was written for one flushed segment.
#[derive(Debug)]
pub struct SegmentManifest {
    pub name: String,
    pub max_doc: i32,
    pub files: Vec<FileManifest>,
    pub field_stats: Vec<FieldStats>,
    pub wall_ms: u64,
}

/// What the machine and the build offer beside the CPU.
#[derive(Debug, Clone, Copy, PartialEq, Eq, Structural)]
pub enum GpuSupport {
    /// Built without.
    NotBuilt,
    /// Built with, no device found.
    NoDevice,
    Device,
}

/// Whether an executor choice ends up on the GPU.
pub open spec fn resolved_executor(requested: Option<Seq<char>>, gpu: GpuSupport) -> std::result::Result<bool, ErrorKind> {
    let name = match requested {
        Some(s) => s,
        None => "auto"@,
    };
    if name == "cpu"@ {
        Ok(false)
    } else if name == "gpu"@ {
        if gpu == GpuSupport::Device {
            Ok(true)
        } else {
            Err(ErrorKind::Unsupported)
        }
    } else if name == "auto"@ {
        Ok(gpu == GpuSupport::Device)
    } else {
        Err(ErrorKind::InvalidArgument)
    }
}

/// The text of an optional string.
pub open spec fn text_of(s: Option<String>) -> Option<Seq<char>> {
    match s {
        Some(t) => Some(t@),
        None => None,
    }
}

/// Resolves an executor choice: whether the work runs on the GPU.
pub fn resolve_executor(requested: &Option<String>, gpu: GpuSupport) -> (r: Result<bool>)
    ensures
        match resolved_executor(text_of(*requested), gpu) {
            Ok(v) => r == Ok::<bool, Error>(v),
            Err(k) => r matches Err(e) && e.kind() == k,
        },
{
    let name: &str = match requested {
        Some(s) => s.as_str(),
        None => "auto",
    };
    let device: bool = match gpu {
        GpuSupport::Device => true,
        _ => false,
    };
    if same_text(name, "cpu") {
        Ok(false)
    } else if same_text(name, "gpu") {
        if device {
            Ok(true)
        } else {
            Err(Error::unsupported("executor \"gpu\": not built in, or no device"))
        }
    } else if same_text(name, "auto") {
        Ok(device)
    } else {
        Err(Error::invalid("unknown executor"))
    }
}

/// The executor follows the machine: on request the CPU always and the GPU
/// only where there is a device, of itself the GPU exactly where asking for
/// it would succeed, and no executor is one of itself.
pub proof fn law_executor_follows(gpu: GpuSupport)
    ensures
        resolved_executor(Some("cpu"@), gpu) == Ok::<bool, ErrorKind>(false),
        resolved_executor(Some("gpu"@), gpu) is Ok <==> gpu == GpuSupport::Device,
        resolved_executor(Some("gpu"@), gpu) matches Ok(g) ==> g,
        resolved_executor(Some("auto"@), gpu) == Ok::<bool, ErrorKind>(resolved_executor(Some("gpu"@), gpu) is Ok),
        resolved_executor(None, gpu) == resolved_executor(Some("auto"@), gpu),
{
    reveal_strlit("cpu");
    reveal_strlit("gpu");
    reveal_strlit("auto");
    assert("cpu"@[0] != "gpu"@[0]);
    assert("cpu"@.len() != "auto"@.len());
    assert("gpu"@.len() != "auto"@.len());
}

} // verus!
