//! `lucene.dict` values.

use vstd::prelude::*;

verus! {

pub const GLOBAL: &'static str = "global";

pub const SEGMENT: &'static str = "segment";

pub const NONE: &'static str = "none";

} // verus!
