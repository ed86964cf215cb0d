//! Constants of the doc-values format.

use vstd::prelude::*;

verus! {

pub const DATA_CODEC: &'static str = "Lucene90DocValuesData";

pub const DATA_EXTENSION: &'static str = "dvd";

pub const META_CODEC: &'static str = "Lucene90DocValuesMetadata";

pub const META_EXTENSION: &'static str = "dvm";

pub const VERSION: i32 = 0;

pub const TYPE_NUMERIC: u8 = 0;

pub const TYPE_BINARY: u8 = 1;

pub const TYPE_SORTED: u8 = 2;

pub const TYPE_SORTED_SET: u8 = 3;

pub const TYPE_SORTED_NUMERIC: u8 = 4;

pub const DIRECT_MONOTONIC_BLOCK_SHIFT: u32 = 16;

pub const NUMERIC_BLOCK_SHIFT: u32 = 14;

pub const NUMERIC_BLOCK_SIZE: usize = 16384;

/// The table size that marks multi-block numeric mode.
pub const MULTI_BLOCK_TABLE_SIZE: i32 = -16;

/// The number of bits per value that marks multi-block mode.
pub const MULTI_BLOCK_BPV: u8 = 0xFF;

} // verus!
