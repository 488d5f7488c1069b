//! The primitive codec: little-endian integers and length-prefixed strings,
//! as sequences of bytes and as readers and writers of them.

use byteorder::{ByteOrder, LittleEndian};
use vstd::prelude::*;
use vstd::slice::slice_subrange;
use crate::error::{invalid_data, unexpected_end, Failure, ReadError};

verus! {

/// What reading a value from the front of some bytes gives: the value and
/// the bytes behind it, or the reason why there is no value.
pub type Parsed<T> = Result<(T, Seq<u8>), Failure>;

/// The first `n` bytes.
pub open spec fn take(s: Seq<u8>, n: int) -> Parsed<Seq<u8>> {
    if 0 <= n <= s.len() {
        Ok((s.take(n), s.skip(n)))
    } else {
        Err(Failure::Io)
    }
}

/// The 16-bit integer of two bytes, low byte first.
pub open spec fn le_u16(b: Seq<u8>) -> u16 {
    (b[0] + 256 * b[1]) as u16
}

/// The 32-bit integer of four bytes, low byte first.
pub open spec fn le_u32(b: Seq<u8>) -> u32 {
    (b[0] + 256 * b[1] + 65536 * b[2] + 16777216 * b[3]) as u32
}

/// The signed integer with the bits of `v`.
pub open spec fn as_signed(v: u32) -> i32 {
    if v < 0x8000_0000 {
        v as i32
    } else {
        (v - 0x1_0000_0000) as i32
    }
}

/// The unsigned integer with the bits of `v`.
pub open spec fn as_unsigned(v: i32) -> u32 {
    if v >= 0 {
        v as u32
    } else {
        (v + 0x1_0000_0000) as u32
    }
}

/// The two bytes of a 16-bit integer, low byte first.
pub open spec fn u16_le(v: u16) -> Seq<u8> {
    seq![(v % 256) as u8, (v / 256) as u8]
}

/// The four bytes of a 32-bit integer, low byte first.
pub open spec fn u32_le(v: u32) -> Seq<u8> {
    seq![
        (v % 256) as u8,
        ((v / 256) % 256) as u8,
        ((v / 65536) % 256) as u8,
        (v / 16777216) as u8,
    ]
}

/// One byte.
pub open spec fn read_u8(s: Seq<u8>) -> Parsed<u8> {
    match take(s, 1) {
        Ok((b, rest)) => Ok((b[0], rest)),
        Err(e) => Err(e),
    }
}

/// A 16-bit integer, low byte first.
pub open spec fn read_u16(s: Seq<u8>) -> Parsed<u16> {
    match take(s, 2) {
        Ok((b, rest)) => Ok((le_u16(b), rest)),
        Err(e) => Err(e),
    }
}

/// A 32-bit integer, low byte first.
pub open spec fn read_u32(s: Seq<u8>) -> Parsed<u32> {
    match take(s, 4) {
        Ok((b, rest)) => Ok((le_u32(b), rest)),
        Err(e) => Err(e),
    }
}

/// A signed 32-bit integer, low byte first.
pub open spec fn read_i32(s: Seq<u8>) -> Parsed<i32> {
    match take(s, 4) {
        Ok((b, rest)) => Ok((as_signed(le_u32(b)), rest)),
        Err(e) => Err(e),
    }
}

/// A short string: one byte that holds the length less one, then the bytes.
pub open spec fn read_short_string(s: Seq<u8>) -> Parsed<Seq<u8>> {
    match read_u8(s) {
        Ok((n, rest)) => take(rest, n + 1),
        Err(e) => Err(e),
    }
}

/// A long string: a 32-bit integer that holds the length less one, then the
/// bytes.
pub open spec fn read_long_string(s: Seq<u8>) -> Parsed<Seq<u8>> {
    match read_u32(s) {
        Ok((n, rest)) => take(rest, n + 1),
        Err(e) => Err(e),
    }
}

/// The part of a string that a short string holds: its first 256 bytes.
pub open spec fn short_part(s: Seq<u8>) -> Seq<u8> {
    if s.len() > 256 {
        s.take(256)
    } else {
        s
    }
}

/// A string of one byte or more as a short string.
pub open spec fn short_string(s: Seq<u8>) -> Seq<u8> {
    seq![(short_part(s).len() - 1) as u8] + short_part(s)
}

/// A string of one byte or more as a long string.
pub open spec fn long_string(s: Seq<u8>) -> Seq<u8> {
    u32_le((s.len() - 1) as u32) + s
}

/// Reading back the two bytes of a 16-bit integer gives the integer.
pub proof fn lemma_u16_round_trip(v: u16)
    ensures
        u16_le(v).len() == 2,
        le_u16(u16_le(v)) == v,
{
}

/// Reading back the four bytes of a 32-bit integer gives the integer.
pub proof fn lemma_u32_round_trip(v: u32)
    ensures
        u32_le(v).len() == 4,
        le_u32(u32_le(v)) == v,
{
}

/// The bits of a signed integer, read as signed, give the integer.
pub proof fn lemma_signed_round_trip(v: i32)
    ensures
        as_signed(as_unsigned(v)) == v,
{
}

/// `byteorder::LittleEndian::read_u16`: the 16-bit integer of the first two
/// bytes, low byte first.
#[verifier::external_body]
fn get_u16(bytes: &[u8]) -> (v: u16)
    requires
        bytes@.len() >= 2,
    ensures
        v == le_u16(bytes@),
{
    LittleEndian::read_u16(bytes)
}

/// `byteorder::LittleEndian::read_u32`: the 32-bit integer of the first four
/// bytes, low byte first.
#[verifier::external_body]
fn get_u32(bytes: &[u8]) -> (v: u32)
    requires
        bytes@.len() >= 4,
    ensures
        v == le_u32(bytes@),
{
    LittleEndian::read_u32(bytes)
}

/// `byteorder::LittleEndian::read_i32`: the signed integer with the bits of
/// the 32-bit integer of the first four bytes, low byte first.
#[verifier::external_body]
fn get_i32(bytes: &[u8]) -> (v: i32)
    requires
        bytes@.len() >= 4,
    ensures
        v == as_signed(le_u32(bytes@)),
{
    LittleEndian::read_i32(bytes)
}

/// `byteorder::LittleEndian::write_u16`: the two bytes of a 16-bit integer,
/// low byte first.
#[verifier::external_body]
fn u16_bytes(v: u16) -> (bytes: [u8; 2])
    ensures
        bytes@ == u16_le(v),
{
    let mut bytes = [0u8; 2];
    LittleEndian::write_u16(&mut bytes, v);
    bytes
}

/// `byteorder::LittleEndian::write_u32`: the four bytes of a 32-bit integer,
/// low byte first.
#[verifier::external_body]
fn u32_bytes(v: u32) -> (bytes: [u8; 4])
    ensures
        bytes@ == u32_le(v),
{
    let mut bytes = [0u8; 4];
    LittleEndian::write_u32(&mut bytes, v);
    bytes
}

/// `byteorder::LittleEndian::write_i32`: the four bytes of the bits of a
/// signed 32-bit integer, low byte first.
#[verifier::external_body]
fn i32_bytes(v: i32) -> (bytes: [u8; 4])
    ensures
        bytes@ == u32_le(as_unsigned(v)),
{
    let mut bytes = [0u8; 4];
    LittleEndian::write_i32(&mut bytes, v);
    bytes
}

/// The 16-bit integer that stands at `at`, low byte first.
pub fn u16_at(bytes: &[u8], at: usize) -> (v: u16)
    requires
        at + 2 <= bytes@.len(),
    ensures
        v == le_u16(bytes@.subrange(at as int, at + 2)),
{
    assert(bytes@.len() == bytes.len());
    get_u16(slice_subrange(bytes, at, at + 2))
}

/// The 32-bit integer that stands at `at`, low byte first.
pub fn u32_at(bytes: &[u8], at: usize) -> (v: u32)
    requires
        at + 4 <= bytes@.len(),
    ensures
        v == le_u32(bytes@.subrange(at as int, at + 4)),
{
    assert(bytes@.len() == bytes.len());
    get_u32(slice_subrange(bytes, at, at + 4))
}

/// The signed 32-bit integer that stands at `at`, low byte first.
pub fn i32_at(bytes: &[u8], at: usize) -> (v: i32)
    requires
        at + 4 <= bytes@.len(),
    ensures
        v == as_signed(le_u32(bytes@.subrange(at as int, at + 4))),
{
    assert(bytes@.len() == bytes.len());
    get_i32(slice_subrange(bytes, at, at + 4))
}

/// Whether a result of reading agrees with what the bytes hold: the value
/// and the rest on success, the kind of failure else.
pub open spec fn agrees<T: View>(result: Result<T, ReadError>, rest: Seq<u8>, parsed: Parsed<
    T::V,
>) -> bool {
    match parsed {
        Ok((value, behind)) => result matches Ok(v) && v@ == value && rest == behind,
        Err(failure) => result matches Err(e) && e@ == failure,
    }
}

/// Bytes that are read from the front.
pub struct Input<'a> {
    bytes: &'a [u8],
    at: usize,
}

impl<'a> Input<'a> {
    #[verifier::type_invariant]
    spec fn well_formed(self) -> bool {
        self.at <= self.bytes@.len()
    }

    /// The bytes that are not read yet.
    pub closed spec fn rest(&self) -> Seq<u8> {
        self.bytes@.skip(self.at as int)
    }

    /// The input that holds `bytes`.
    pub fn new(bytes: &'a [u8]) -> (input: Input<'a>)
        ensures
            input.rest() == bytes@,
    {
        let input = Input { bytes, at: 0 };
        proof {
            assert(input.rest() =~= bytes@);
        }
        input
    }

    /// Whether all bytes are read.
    pub fn is_at_end(&self) -> (at_end: bool)
        ensures
            at_end == (self.rest().len() == 0),
    {
        proof {
            use_type_invariant(self);
        }
        self.at == self.bytes.len()
    }

    /// Reads `n` bytes.
    pub fn take(&mut self, n: usize) -> (result: Result<&'a [u8], ReadError>)
        ensures
            agrees(result, final(self).rest(), take(old(self).rest(), n as int)),
    {
        proof {
            use_type_invariant(&*self);
        }
        if self.bytes.len() - self.at < n {
            Err(ReadError::IoError(unexpected_end()))
        } else {
            let part = slice_subrange(self.bytes, self.at, self.at + n);
            proof {
                assert(part@ =~= old(self).rest().take(n as int));
                assert(self.bytes@.skip(self.at + n) =~= old(self).rest().skip(n as int));
            }
            self.at = self.at + n;
            Ok(part)
        }
    }

    /// Reads one byte.
    pub fn u8(&mut self) -> (result: Result<u8, ReadError>)
        ensures
            agrees(result, final(self).rest(), read_u8(old(self).rest())),
    {
        match self.take(1) {
            Ok(b) => Ok(b[0]),
            Err(e) => Err(e),
        }
    }

    /// Reads a 16-bit integer.
    pub fn u16(&mut self) -> (result: Result<u16, ReadError>)
        ensures
            agrees(result, final(self).rest(), read_u16(old(self).rest())),
    {
        match self.take(2) {
            Ok(b) => Ok(get_u16(b)),
            Err(e) => Err(e),
        }
    }

    /// Reads a 32-bit integer.
    pub fn u32(&mut self) -> (result: Result<u32, ReadError>)
        ensures
            agrees(result, final(self).rest(), read_u32(old(self).rest())),
    {
        match self.take(4) {
            Ok(b) => Ok(get_u32(b)),
            Err(e) => Err(e),
        }
    }

    /// Reads a signed 32-bit integer.
    pub fn i32(&mut self) -> (result: Result<i32, ReadError>)
        ensures
            agrees(result, final(self).rest(), read_i32(old(self).rest())),
    {
        match self.take(4) {
            Ok(b) => Ok(get_i32(b)),
            Err(e) => Err(e),
        }
    }

    /// Reads a short string.
    pub fn short_string(&mut self) -> (result: Result<&'a [u8], ReadError>)
        ensures
            agrees(result, final(self).rest(), read_short_string(old(self).rest())),
    {
        match self.u8() {
            Ok(n) => self.take(n as usize + 1),
            Err(e) => Err(e),
        }
    }

    /// Reads a long string.
    pub fn long_string(&mut self) -> (result: Result<&'a [u8], ReadError>)
        ensures
            agrees(result, final(self).rest(), read_long_string(old(self).rest())),
    {
        match self.u32() {
            Ok(n) => {
                if n as usize == usize::MAX {
                    proof {
                        use_type_invariant(&*self);
                        assert(self.bytes@.len() == self.bytes.len());
                    }
                    return Err(ReadError::IoError(unexpected_end()));
                }
                self.take(n as usize + 1)
            },
            Err(e) => Err(e),
        }
    }
}

/// Appends the bytes of `part` to `out`.
pub fn put(out: &mut Vec<u8>, part: &[u8])
    ensures
        final(out)@ == old(out)@ + part@,
{
    let mut i: usize = 0;
    while i < part.len()
        invariant
            i <= part@.len(),
            out@ == old(out)@ + part@.take(i as int),
        decreases part@.len() - i,
    {
        out.push(part[i]);
        proof {
            assert(part@.take(i + 1) =~= part@.take(i as int).push(part@[i as int]));
        }
        i = i + 1;
    }
    proof {
        assert(part@.take(part@.len() as int) =~= part@);
    }
}

/// Appends a 16-bit integer, low byte first.
pub fn put_u16(out: &mut Vec<u8>, v: u16)
    ensures
        final(out)@ == old(out)@ + u16_le(v),
{
    let bytes = u16_bytes(v);
    put(out, bytes.as_slice());
}

/// Appends a 32-bit integer, low byte first.
pub fn put_u32(out: &mut Vec<u8>, v: u32)
    ensures
        final(out)@ == old(out)@ + u32_le(v),
{
    let bytes = u32_bytes(v);
    put(out, bytes.as_slice());
}

/// Appends a signed 32-bit integer, low byte first.
pub fn put_i32(out: &mut Vec<u8>, v: i32)
    ensures
        final(out)@ == old(out)@ + u32_le(as_unsigned(v)),
{
    let bytes = i32_bytes(v);
    put(out, bytes.as_slice());
}

/// Appends `string` as a short string: at most its first 256 bytes. A string
/// without bytes is refused, and nothing is appended.
pub fn write_short_string(out: &mut Vec<u8>, string: &[u8]) -> (result: Result<(), std::io::Error>)
    ensures
        match result {
            Ok(_) => string@.len() > 0 && final(out)@ == old(out)@ + short_string(string@),
            Err(_) => string@.len() == 0 && final(out)@ == old(out)@,
        },
{
    if string.len() == 0 {
        return Err(invalid_data("cannot write an empty string"));
    }
    let kept = if string.len() > 256 {
        slice_subrange(string, 0, 256)
    } else {
        string
    };
    out.push((kept.len() - 1) as u8);
    put(out, kept);
    proof {
        assert(final(out)@ =~= old(out)@ + short_string(string@));
    }
    Ok(())
}

/// Appends `string` as a long string. A string without bytes, or with more
/// than a 32-bit integer counts, is refused, and nothing is appended.
pub fn write_long_string(out: &mut Vec<u8>, string: &[u8]) -> (result: Result<(), std::io::Error>)
    ensures
        match result {
            Ok(_) => 0 < string@.len() <= u32::MAX && final(out)@ == old(out)@ + long_string(
                string@,
            ),
            Err(_) => !(0 < string@.len() <= u32::MAX) && final(out)@ == old(out)@,
        },
{
    if string.len() > u32::MAX as usize {
        return Err(invalid_data("string size was too large to fit in the file"));
    }
    if string.len() == 0 {
        return Err(invalid_data("cannot write an empty string"));
    }
    put_u32(out, (string.len() - 1) as u32);
    put(out, string);
    proof {
        assert(final(out)@ =~= old(out)@ + long_string(string@));
    }
    Ok(())
}

} // verus!
