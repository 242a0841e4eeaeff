//! Tableizer: a table engine for delimited text, JSON and Parquet sources.
use vstd::prelude::*;
#[allow(unused_imports)]
use vstd::string::StringSliceAdditionalSpecFns;

pub mod cache;
pub mod cancel;
pub mod codec;
pub mod columnar;
pub mod display;
pub mod encoding;
pub mod error;
pub mod export;
pub mod grid;
pub mod gzip;
pub mod index;
pub mod json;
pub mod json_scan;
pub mod json_value;
pub mod model;
pub mod natural;
pub mod ndjson;
pub mod number;
pub mod panel;
pub mod parquet_file;
pub mod parse;
pub mod path;
pub mod recent;
pub mod records;
pub mod remote;
pub mod search;
pub mod sort;
pub mod table;
pub mod text;
pub mod theme;
pub mod view;
pub mod viewport;

pub use cancel::CancellationToken;
pub use error::Error;
pub use export::ExportScope;
pub use index::Progress;
pub use json::JsonTable;
pub use json_scan::JsonMode;
pub use parquet_file::ParquetTable;
pub use search::FilterSpec;
pub use sort::Direction;
pub use table::CsvTable;
pub use viewport::{
    Cell, Column, ColumnId, DataQuality, InferredType, RowCount, RowRange, Schema, SortKey, ViewSpec,
    ViewStatus, Viewport, ViewportRequest, ViewportSource,
};

verus! {

/// The hash of no bytes.
pub const FNV_OFFSET: u64 = 0xcbf2_9ce4_8422_2325;

/// The factor for each byte.
pub const FNV_PRIME: u64 = 0x0000_0100_0000_01b3;

/// The FNV-1a hash of bytes.
pub open spec fn fnv(bytes: Seq<u8>) -> u64
    decreases bytes.len(),
{
    if bytes.len() == 0 {
        FNV_OFFSET
    } else {
        (fnv(bytes.drop_last()) ^ (bytes.last() as u64)).wrapping_mul(FNV_PRIME)
    }
}

/// A hash of a path that is the same in every version of the program, for naming the files that are
/// derived from a source. The path is given as text.
pub fn stable_hash(path: &str) -> (hash: u64)
    ensures
        hash == fnv(path.spec_bytes()),
{
    let bytes = path.as_bytes();
    let mut hash: u64 = FNV_OFFSET;
    assert(bytes@.take(0) =~= Seq::empty());
    for i in 0..bytes.len()
        invariant
            hash == fnv(bytes@.take(i as int)),
    {
        assert(bytes@.take(i + 1).drop_last() =~= bytes@.take(i as int));
        hash = (hash ^ (bytes[i] as u64)).wrapping_mul(FNV_PRIME);
    }
    assert(bytes@.take(bytes@.len() as int) =~= bytes@);
    hash
}

/// The hash is FNV-1a with 64 bits: it starts from the offset basis, and each byte is mixed in by an
/// exclusive or and a multiplication with the prime.
pub proof fn hashes_are_fnv_1a(bytes: Seq<u8>, b: u8)
    ensures
        fnv(Seq::empty()) == 0xcbf2_9ce4_8422_2325,
        fnv(bytes.push(b)) == (fnv(bytes) ^ (b as u64)).wrapping_mul(0x100_0000_01b3),
{
    assert(bytes.push(b).drop_last() =~= bytes);
}

} // verus!
