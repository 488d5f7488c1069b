//! Compressed blocks: a 32-bit length and a zlib stream of that many bytes.

use libflate::zlib::{Decoder, Encoder};
use std::io::{Read, Write};
use vstd::prelude::*;
use crate::bytes::{agrees, put, put_u32, read_u32, take, u32_le, Input, Parsed};
use crate::error::{Failure, ReadError};

verus! {

/// What a zlib stream unpacks to, or `None` where the bytes are no zlib
/// stream that can be unpacked.
pub uninterp spec fn zlib_unpacked(packed: Seq<u8>) -> Option<Seq<u8>>;

/// The zlib stream that packing gives for `data`.
pub uninterp spec fn zlib_packed(data: Seq<u8>) -> Seq<u8>;

/// `libflate::zlib::Decoder`, made on the bytes and read to its end: the
/// data that the zlib stream at the front of `packed` unpacks to, or the
/// error of a stream that cannot be unpacked.
#[verifier::external_body]
fn inflate(packed: &[u8]) -> (result: Result<Vec<u8>, std::io::Error>)
    ensures
        match result {
            Ok(data) => zlib_unpacked(packed@) == Some(data@),
            Err(_) => zlib_unpacked(packed@) is None,
        },
{
    let mut data = Vec::new();
    Decoder::new(packed)?.read_to_end(&mut data)?;
    Ok(data)
}

/// `libflate::zlib::Encoder`, made on an empty buffer, given all of `data`
/// and finished: the zlib stream for `data`. Unpacking that stream gives
/// `data` back. The call succeeds: the encoder itself raises no error, it
/// only hands on those of the writer beneath it, and that writer is a buffer
/// in memory, which takes every byte.
#[verifier::external_body]
fn deflate(data: &[u8]) -> (result: Result<Vec<u8>, std::io::Error>)
    ensures
        result is Ok,
        result matches Ok(packed) ==> packed@ == zlib_packed(data@) && zlib_unpacked(packed@)
            == Some(data@),
{
    let mut encoder = Encoder::new(Vec::new())?;
    encoder.write_all(data)?;
    encoder.finish().into_result()
}

/// A compressed block: a 32-bit length, that many bytes, and what they
/// unpack to.
pub open spec fn read_compressed(s: Seq<u8>) -> Parsed<Seq<u8>> {
    match read_u32(s) {
        Ok((n, rest)) => match take(rest, n as int) {
            Ok((packed, behind)) => match zlib_unpacked(packed) {
                Some(data) => Ok((data, behind)),
                None => Err(Failure::Io),
            },
            Err(e) => Err(e),
        },
        Err(e) => Err(e),
    }
}

/// The length of a block as its 32-bit length field holds it.
pub open spec fn length_field(len: nat) -> u32 {
    (len % 0x1_0000_0000) as u32
}

/// The length of a block as its 32-bit length field holds it: what the
/// length has beyond 32 bits is dropped.
pub fn length_of(len: usize) -> (field: u32)
    ensures
        field == length_field(len as nat),
{
    ((len as u64) % 0x1_0000_0000u64) as u32
}

/// The compressed block of `data`.
pub open spec fn compressed(data: Seq<u8>) -> Seq<u8> {
    u32_le(length_field(zlib_packed(data).len())) + zlib_packed(data)
}

/// Whether the compressed block of `data` can be read back: its length fits
/// the length field, and the stream unpacks to `data`.
pub open spec fn restorable(data: Seq<u8>) -> bool {
    &&& zlib_packed(data).len() <= u32::MAX
    &&& zlib_unpacked(zlib_packed(data)) == Some(data)
}

/// Reading the compressed block of data that is restorable gives the data
/// and leaves what stood behind the block.
pub proof fn lemma_read_compressed(data: Seq<u8>, behind: Seq<u8>)
    requires
        restorable(data),
    ensures
        read_compressed(compressed(data) + behind) == Ok::<(Seq<u8>, Seq<u8>), Failure>(
            (data, behind),
        ),
{
    let packed = zlib_packed(data);
    let n = length_field(packed.len());
    let s = compressed(data) + behind;
    crate::bytes::lemma_u32_round_trip(n);
    assert(s.take(4) =~= u32_le(n));
    assert(s.skip(4) =~= packed + behind);
    assert((packed + behind).take(n as int) =~= packed);
    assert((packed + behind).skip(n as int) =~= behind);
}

/// Reads a compressed block and unpacks it.
pub fn get_compressed(input: &mut Input) -> (result: Result<Vec<u8>, ReadError>)
    ensures
        agrees(result, final(input).rest(), read_compressed(old(input).rest())),
{
    let n = match input.u32() {
        Ok(n) => n,
        Err(e) => { return Err(e); },
    };
    let packed = match input.take(n as usize) {
        Ok(packed) => packed,
        Err(e) => { return Err(e); },
    };
    match inflate(packed) {
        Ok(data) => Ok(data),
        Err(e) => Err(ReadError::IoError(e)),
    }
}

/// Packs `data` and appends the compressed block. This succeeds for every
/// `data`, and what was appended unpacks to `data` again.
pub fn write_compressed(out: &mut Vec<u8>, data: &[u8]) -> (result: Result<(), std::io::Error>)
    ensures
        result is Ok,
        final(out)@ == old(out)@ + compressed(data@),
        zlib_unpacked(zlib_packed(data@)) == Some(data@),
{
    let result = put_packed(out, deflate(data));
    proof {
        assert(final(out)@ =~= old(out)@ + compressed(data@));
    }
    result
}

/// A packed block behind its length: the frame of a compressed block.
pub open spec fn framed(packed: Seq<u8>) -> Seq<u8> {
    u32_le(length_field(packed.len())) + packed
}

/// Appends the frame of a block that packing gave, or appends nothing and
/// hands on the error where packing failed.
pub fn put_packed(out: &mut Vec<u8>, packed: Result<Vec<u8>, std::io::Error>) -> (result: Result<
    (),
    std::io::Error,
>)
    ensures
        match packed {
            Ok(block) => result is Ok && final(out)@ == old(out)@ + framed(block@),
            Err(error) => result == Err::<(), std::io::Error>(error) && final(out)@ == old(out)@,
        },
{
    match packed {
        Ok(block) => {
            put_u32(out, length_of(block.len()));
            put(out, block.as_slice());
            proof {
                assert(final(out)@ =~= old(out)@ + framed(block@));
            }
            Ok(())
        },
        Err(error) => Err(error),
    }
}

} // verus!
