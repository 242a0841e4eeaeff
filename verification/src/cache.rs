//! The index as it is kept on disk between sessions, and when it may be used again.
use vstd::prelude::*;
#[allow(unused_imports)]
use vstd::string::StringSliceAdditionalSpecFns;
use crate::codec::{push_u32, push_u64, read_bytes, read_u32, read_u64, read_u8};
use crate::index::{IndexView, OffsetIndex};
use crate::parse::Dialect;
use crate::text::{append, push_hex, same_bytes};

verus! {

/// What identifies a state of a source file: its size, and when it was changed.
#[derive(Clone, Copy, Debug, PartialEq, Eq, Structural)]
pub struct Fingerprint {
    /// The size in bytes.
    pub size: u64,
    /// The seconds of the time of the last change.
    pub mtime_secs: u64,
    /// The rest of that time, in nanoseconds.
    pub mtime_nanos: u32,
}

/// The bytes that a kept index starts with.
pub open spec fn cache_magic() -> Seq<u8> {
    seq![0x54u8, 0x5au8, 0x43u8, 0x31u8]
}

/// The version of the layout.
pub const CACHE_VERSION: u32 = 1;

/// What stands before the index.
pub open spec fn cache_head(fingerprint: Fingerprint, delimiter: u8, quote: u8) -> Seq<u8> {
    cache_magic() + vstd::bytes::spec_u32_to_le_bytes(CACHE_VERSION)
        + vstd::bytes::spec_u64_to_le_bytes(fingerprint.size) + vstd::bytes::spec_u64_to_le_bytes(
        fingerprint.mtime_secs,
    ) + vstd::bytes::spec_u32_to_le_bytes(fingerprint.mtime_nanos) + seq![delimiter, quote]
}

/// A kept index.
pub open spec fn cache_blob(
    fingerprint: Fingerprint,
    delimiter: u8,
    quote: u8,
    index: IndexView,
) -> Seq<u8> {
    cache_head(fingerprint, delimiter, quote) + crate::index::index_blob(index)
}

/// Whether what stands before the index belongs to this source and this dialect.
pub open spec fn head_fits(
    blob: Seq<u8>,
    fingerprint: Fingerprint,
    delimiter: u8,
    quote: u8,
) -> bool {
    &&& blob.len() >= 30
    &&& blob.take(4) == cache_magic()
    &&& crate::codec::u32_at(blob, 4) == CACHE_VERSION
    &&& crate::codec::u64_at(blob, 8) == fingerprint.size
    &&& crate::codec::u64_at(blob, 16) == fingerprint.mtime_secs
    &&& crate::codec::u32_at(blob, 24) == fingerprint.mtime_nanos
    &&& blob[28] == delimiter
    &&& blob[29] == quote
}

/// The index that a file of the cache holds for this source and this dialect.
pub open spec fn cached_index(
    blob: Seq<u8>,
    fingerprint: Fingerprint,
    delimiter: u8,
    quote: u8,
) -> Option<IndexView> {
    if head_fits(blob, fingerprint, delimiter, quote) {
        crate::index::index_in(blob.skip(30))
    } else {
        None
    }
}

/// What was kept for a source and a dialect is what is found for them.
pub proof fn cache_round_trip(
    fingerprint: Fingerprint,
    delimiter: u8,
    quote: u8,
    index: IndexView,
)
    requires
        index.anchors.len() <= u64::MAX,
    ensures
        cached_index(
            cache_blob(fingerprint, delimiter, quote, index),
            fingerprint,
            delimiter,
            quote,
        ) == Some(index),
{
    lemma_head(fingerprint, delimiter, quote, crate::index::index_blob(index));
    let blob = cache_blob(fingerprint, delimiter, quote, index);
    crate::index::index_round_trip(index, Seq::empty());
    assert(blob.skip(30) =~= crate::index::index_blob(index) + Seq::<u8>::empty());
}

/// What was kept for one state of a source and one dialect is found for no other.
pub proof fn cache_is_never_stale(
    fingerprint: Fingerprint,
    delimiter: u8,
    quote: u8,
    index: IndexView,
    other: Fingerprint,
    other_delimiter: u8,
    other_quote: u8,
)
    requires
        fingerprint != other || delimiter != other_delimiter || quote != other_quote,
    ensures
        cached_index(
            cache_blob(fingerprint, delimiter, quote, index),
            other,
            other_delimiter,
            other_quote,
        ) is None,
{
    lemma_head(fingerprint, delimiter, quote, crate::index::index_blob(index));
}

proof fn lemma_head(fingerprint: Fingerprint, delimiter: u8, quote: u8, rest: Seq<u8>)
    ensures
        head_fits(
            cache_head(fingerprint, delimiter, quote) + rest,
            fingerprint,
            delimiter,
            quote,
        ),
        cache_head(fingerprint, delimiter, quote).len() == 30,
{
    vstd::bytes::lemma_auto_spec_u32_to_from_le_bytes();
    vstd::bytes::lemma_auto_spec_u64_to_from_le_bytes();
    let version = vstd::bytes::spec_u32_to_le_bytes(CACHE_VERSION);
    let size = vstd::bytes::spec_u64_to_le_bytes(fingerprint.size);
    let secs = vstd::bytes::spec_u64_to_le_bytes(fingerprint.mtime_secs);
    let nanos = vstd::bytes::spec_u32_to_le_bytes(fingerprint.mtime_nanos);
    assert(version.len() == 4 && size.len() == 8 && secs.len() == 8 && nanos.len() == 4);
    let blob = cache_head(fingerprint, delimiter, quote) + rest;
    assert(blob.take(4) =~= cache_magic());
    assert(blob.subrange(4, 8) =~= version);
    assert(blob.subrange(8, 16) =~= size);
    assert(blob.subrange(16, 24) =~= secs);
    assert(blob.subrange(24, 28) =~= nanos);
}

/// The index that a file of the cache holds, if it belongs to this state of the source and this
/// dialect. On any difference there is none, never a wrong one.
pub fn load(bytes: &[u8], fingerprint: &Fingerprint, dialect: &Dialect) -> (r: Option<OffsetIndex>)
    ensures
        match r {
            Some(index) => cached_index(bytes@, *fingerprint, dialect.delimiter, dialect.quote)
                == Some(index@),
            None => cached_index(bytes@, *fingerprint, dialect.delimiter, dialect.quote) is None,
        },
{
    let mut pos: usize = 0;
    let magic: [u8; 4] = [0x54, 0x5a, 0x43, 0x31];
    assert(magic@ =~= cache_magic());
    let head = match read_bytes(bytes, &mut pos, 4) {
        Some(head) => head,
        None => return None,
    };
    assert(head@ =~= bytes@.take(4));
    if !same_bytes(head, magic.as_slice()) {
        return None;
    }
    match read_u32(bytes, &mut pos) {
        Some(version) => if version != CACHE_VERSION {
            return None;
        },
        None => return None,
    }
    let size: u64 = match read_u64(bytes, &mut pos) {
        Some(x) => x,
        None => return None,
    };
    let mtime_secs: u64 = match read_u64(bytes, &mut pos) {
        Some(x) => x,
        None => return None,
    };
    let mtime_nanos: u32 = match read_u32(bytes, &mut pos) {
        Some(x) => x,
        None => return None,
    };
    let delimiter: u8 = match read_u8(bytes, &mut pos) {
        Some(x) => x,
        None => return None,
    };
    let quote: u8 = match read_u8(bytes, &mut pos) {
        Some(x) => x,
        None => return None,
    };
    if size != fingerprint.size || mtime_secs != fingerprint.mtime_secs || mtime_nanos
        != fingerprint.mtime_nanos || delimiter != dialect.delimiter || quote != dialect.quote {
        return None;
    }
    let rest = vstd::slice::slice_subrange(bytes, pos, bytes.len());
    assert(rest@ =~= bytes@.skip(30));
    OffsetIndex::deserialize(rest)
}

/// An index as it is kept for a state of a source and a dialect.
pub fn save(fingerprint: &Fingerprint, dialect: &Dialect, index: &OffsetIndex) -> (out: Vec<u8>)
    ensures
        out@ == cache_blob(*fingerprint, dialect.delimiter, dialect.quote, index@),
{
    let mut out: Vec<u8> = Vec::new();
    out.push(0x54);
    out.push(0x5a);
    out.push(0x43);
    out.push(0x31);
    assert(out@ =~= cache_magic());
    push_u32(&mut out, CACHE_VERSION);
    push_u64(&mut out, fingerprint.size);
    push_u64(&mut out, fingerprint.mtime_secs);
    push_u32(&mut out, fingerprint.mtime_nanos);
    out.push(dialect.delimiter);
    out.push(dialect.quote);
    assert(out@ =~= cache_head(*fingerprint, dialect.delimiter, dialect.quote));
    let mut blob = index.serialize();
    out.append(&mut blob);
    out
}

/// The name of the file that keeps the index of a source.
pub fn cache_file_name(source: &str) -> (name: String)
    ensures
        name@ == crate::text::hex_text(crate::fnv(source.spec_bytes()) as int, 16) + ".idx"@,
{
    let mut name = String::new();
    push_hex(&mut name, crate::stable_hash(source), 16);
    append(&mut name, ".idx");
    assert(name@ =~= crate::text::hex_text(crate::fnv(source.spec_bytes()) as int, 16) + ".idx"@);
    name
}

} // verus!
