//! Reading little-endian numbers from the front of a blob. A blob that is too short gives nothing.
use vstd::prelude::*;

verus! {

/// The number in four bytes of a blob.
pub open spec fn u32_at(bytes: Seq<u8>, at: int) -> u32 {
    vstd::bytes::spec_u32_from_le_bytes(bytes.subrange(at, at + 4))
}

/// The number in eight bytes of a blob.
pub open spec fn u64_at(bytes: Seq<u8>, at: int) -> u64 {
    vstd::bytes::spec_u64_from_le_bytes(bytes.subrange(at, at + 8))
}

/// The next `n` bytes.
pub fn read_bytes<'a>(bytes: &'a [u8], pos: &mut usize, n: usize) -> (r: Option<&'a [u8]>)
    ensures
        r is Some <==> *old(pos) + n <= bytes@.len(),
        r matches Some(s) ==> s@ == bytes@.subrange(*old(pos) as int, *old(pos) + n) && *final(pos)
            == *old(pos) + n,
        r is None ==> *final(pos) == *old(pos),
{
    if *pos <= bytes.len() && n <= bytes.len() - *pos {
        let end: usize = *pos + n;
        let s = vstd::slice::slice_subrange(bytes, *pos, end);
        *pos = end;
        Some(s)
    } else {
        None
    }
}

/// The next byte.
pub fn read_u8(bytes: &[u8], pos: &mut usize) -> (r: Option<u8>)
    ensures
        r is Some <==> *old(pos) + 1 <= bytes@.len(),
        r matches Some(x) ==> x == bytes@[*old(pos) as int] && *final(pos) == *old(pos) + 1,
        r is None ==> *final(pos) == *old(pos),
{
    match read_bytes(bytes, pos, 1) {
        Some(s) => Some(s[0]),
        None => None,
    }
}

/// The next four bytes, as a number.
pub fn read_u32(bytes: &[u8], pos: &mut usize) -> (r: Option<u32>)
    ensures
        r is Some <==> *old(pos) + 4 <= bytes@.len(),
        r matches Some(x) ==> x == u32_at(bytes@, *old(pos) as int) && *final(pos) == *old(pos) + 4,
        r is None ==> *final(pos) == *old(pos),
{
    match read_bytes(bytes, pos, 4) {
        Some(s) => Some(vstd::bytes::u32_from_le_bytes(s)),
        None => None,
    }
}

/// The next eight bytes, as a number.
pub fn read_u64(bytes: &[u8], pos: &mut usize) -> (r: Option<u64>)
    ensures
        r is Some <==> *old(pos) + 8 <= bytes@.len(),
        r matches Some(x) ==> x == u64_at(bytes@, *old(pos) as int) && *final(pos) == *old(pos) + 8,
        r is None ==> *final(pos) == *old(pos),
{
    match read_bytes(bytes, pos, 8) {
        Some(s) => Some(vstd::bytes::u64_from_le_bytes(s)),
        None => None,
    }
}

/// Appends the bytes of a number.
pub fn push_u32(out: &mut Vec<u8>, x: u32)
    ensures
        final(out)@ == old(out)@ + vstd::bytes::spec_u32_to_le_bytes(x),
{
    let mut s = vstd::bytes::u32_to_le_bytes(x);
    out.append(&mut s);
}

/// Appends the bytes of a number.
pub fn push_u64(out: &mut Vec<u8>, x: u64)
    ensures
        final(out)@ == old(out)@ + vstd::bytes::spec_u64_to_le_bytes(x),
{
    let mut s = vstd::bytes::u64_to_le_bytes(x);
    out.append(&mut s);
}

} // verus!
