//! Lucene segment columns as typed column values, and back.

pub mod attributes;
pub mod bitset;
pub mod buffer;
pub mod bytes;
pub mod coercion;
pub mod column;
pub mod commit;
pub mod consts;
pub mod cursor;
pub mod cuts;
pub mod dict;
pub mod direct;
pub mod disi;
pub mod encode;
pub mod engine;
pub mod error;
pub mod extent;
pub mod file;
pub mod fnm;
pub mod framing;
pub mod hydrate;
pub mod ieee;
pub mod intake;
pub mod layouts;
pub mod lexicon;
pub mod liv;
pub mod lz4;
pub mod meta;
pub mod metafiles;
pub mod monotonic;
pub mod multiblock;
pub mod norms;
pub mod ordmap;
pub mod plan;
pub mod postings;
pub mod read;
pub mod records;
pub mod request;
pub mod resolve;
pub mod roundtrip;
pub mod roundtrip_fields;
pub mod roundtrip_files;
pub mod roundtrip_fnm;
pub mod roundtrip_segment;
pub mod roundtrip_session;
pub mod roundtrip_terms;
pub mod scan;
pub mod schema;
pub mod segment;
pub mod server;
pub mod session;
pub mod soundness;
pub mod source;
pub mod stats;
pub mod stored;
pub mod terms;
pub mod text;
pub mod write;
pub mod writer;
