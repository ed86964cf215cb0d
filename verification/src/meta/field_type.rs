//! `lucene.type` values.

use vstd::prelude::*;

verus! {

pub const NUMERIC: &'static str = "numeric";

pub const SORTED: &'static str = "sorted";

pub const SORTED_SET: &'static str = "sorted_set";

pub const SORTED_NUMERIC: &'static str = "sorted_numeric";

pub const BINARY: &'static str = "binary";

pub const VECTOR: &'static str = "vector";

} // verus!
