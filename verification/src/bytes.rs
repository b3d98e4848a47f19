//! Big-endian field reads from the front of a byte slice.
//!
//! Each reader either takes a whole field off the front of the slice or
//! leaves the slice untouched and reports `TruncatedInput`.
use vstd::prelude::*;
use crate::error::DecodeError;

verus! {

/// The big-endian value of the first two bytes of `s`.
pub open spec fn be_u16(s: Seq<u8>) -> int
    recommends
        s.len() >= 2,
{
    s[0] as int * 256 + s[1] as int
}

/// The big-endian value of the first four bytes of `s`.
pub open spec fn be_u32(s: Seq<u8>) -> int
    recommends
        s.len() >= 4,
{
    s[0] as int * 16777216 + s[1] as int * 65536 + s[2] as int * 256 + s[3] as int
}

/// Takes the first `bytes` bytes off the front of `file`.
pub fn read_bytes<'a>(file: &mut &'a [u8], bytes: usize) -> (r: Result<&'a [u8], DecodeError>)
    ensures
        old(file)@.len() < bytes ==> r == Err::<&[u8], DecodeError>(DecodeError::TruncatedInput)
            && final(file)@ == old(file)@,
        old(file)@.len() >= bytes ==> r is Ok && r->Ok_0@ == old(file)@.take(bytes as int)
            && final(file)@ == old(file)@.skip(bytes as int),
{
    if file.len() < bytes {
        return Err(DecodeError::TruncatedInput);
    }
    let (ret, rest) = file.split_at(bytes);
    *file = rest;
    Ok(ret)
}

/// Takes one byte off the front of `file`.
pub fn read_u8(file: &mut &[u8]) -> (r: Result<u8, DecodeError>)
    ensures
        old(file)@.len() < 1 ==> r == Err::<u8, DecodeError>(DecodeError::TruncatedInput)
            && final(file)@ == old(file)@,
        old(file)@.len() >= 1 ==> r == Ok::<u8, DecodeError>(old(file)@[0])
            && final(file)@ == old(file)@.skip(1),
{
    match read_bytes(file, 1) {
        Ok(b) => Ok(b[0]),
        Err(e) => Err(e),
    }
}

/// Takes a big-endian 16-bit field off the front of `file`.
pub fn read_u16(file: &mut &[u8]) -> (r: Result<u16, DecodeError>)
    ensures
        old(file)@.len() < 2 ==> r == Err::<u16, DecodeError>(DecodeError::TruncatedInput)
            && final(file)@ == old(file)@,
        old(file)@.len() >= 2 ==> r is Ok && r->Ok_0 as int == be_u16(old(file)@)
            && final(file)@ == old(file)@.skip(2),
{
    match read_bytes(file, 2) {
        Ok(b) => {
            let hi: u16 = b[0] as u16;
            let lo: u16 = b[1] as u16;
            Ok(hi * 256 + lo)
        },
        Err(e) => Err(e),
    }
}

/// Takes a big-endian 32-bit field off the front of `file`.
pub fn read_u32(file: &mut &[u8]) -> (r: Result<u32, DecodeError>)
    ensures
        old(file)@.len() < 4 ==> r == Err::<u32, DecodeError>(DecodeError::TruncatedInput)
            && final(file)@ == old(file)@,
        old(file)@.len() >= 4 ==> r is Ok && r->Ok_0 as int == be_u32(old(file)@)
            && final(file)@ == old(file)@.skip(4),
{
    match read_bytes(file, 4) {
        Ok(b) => {
            let b0: u32 = b[0] as u32;
            let b1: u32 = b[1] as u32;
            let b2: u32 = b[2] as u32;
            let b3: u32 = b[3] as u32;
            Ok(b0 * 16777216 + b1 * 65536 + b2 * 256 + b3)
        },
        Err(e) => Err(e),
    }
}

/// Appends the bytes of `src` to `dst`.
pub fn append_bytes(dst: &mut Vec<u8>, src: &[u8])
    ensures
        final(dst)@ == old(dst)@ + src@,
{
    let mut i: usize = 0;
    while i < src.len()
        invariant
            i <= src@.len(),
            dst@ == old(dst)@ + src@.take(i as int),
        decreases src@.len() - i,
    {
        dst.push(src[i]);
        i = i + 1;
    }
    assert(src@.take(i as int) == src@);
}

} // verus!
