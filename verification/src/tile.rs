//! The two-byte tile cell.

use vstd::prelude::*;

verus! {

/// One cell of a layer: sixteen bits that are read either as an identifier
/// or as a pair of position bytes.
///
/// The bits are held as the identifier. The position bytes are the bytes of
/// that identifier in the order in which the host stores them.
#[derive(Clone, Copy, PartialEq, Eq, Structural, Debug)]
pub struct Tile {
    /// The identifier.
    pub id: u16,
}

/// The low byte of a 16-bit value.
pub open spec fn low_byte(value: u16) -> u8 {
    (value % 256) as u8
}

/// The high byte of a 16-bit value.
pub open spec fn high_byte(value: u16) -> u8 {
    (value / 256) as u8
}

/// The 16-bit value with the given high and low bytes.
pub open spec fn join_bytes(high: u8, low: u8) -> u16 {
    (high * 256 + low) as u16
}

/// `u16::to_ne_bytes`: the two bytes of `value` in the order of the host,
/// which is either low byte first or high byte first.
#[verifier::external_body]
fn host_bytes(value: u16) -> (bytes: [u8; 2])
    ensures
        bytes@ == seq![low_byte(value), high_byte(value)] || bytes@ == seq![
            high_byte(value),
            low_byte(value),
        ],
{
    value.to_ne_bytes()
}

/// `u16::from_ne_bytes`: the value whose bytes in the order of the host
/// are `bytes`, so that the first byte is either its low or its high byte.
#[verifier::external_body]
fn host_value(bytes: [u8; 2]) -> (value: u16)
    ensures
        value == join_bytes(bytes@[1], bytes@[0]) || value == join_bytes(bytes@[0], bytes@[1]),
{
    u16::from_ne_bytes(bytes)
}

impl Tile {
    /// The tile with the given position bytes: the identifier whose bytes
    /// in host order they are.
    pub fn from_position(bytes: [u8; 2]) -> (tile: Tile)
        ensures
            tile.id == join_bytes(bytes@[1], bytes@[0]) || tile.id == join_bytes(
                bytes@[0],
                bytes@[1],
            ),
    {
        Tile { id: host_value(bytes) }
    }

    /// Gives the tile the position bytes `bytes`.
    pub fn set_position(&mut self, bytes: [u8; 2])
        ensures
            final(self).id == join_bytes(bytes@[1], bytes@[0]) || final(self).id == join_bytes(
                bytes@[0],
                bytes@[1],
            ),
    {
        self.id = host_value(bytes);
    }

    /// The identifier.
    pub fn id(&self) -> (id: u16)
        ensures
            id == self.id,
    {
        self.id
    }

    /// The identifier, for writing.
    pub fn id_mut(&mut self) -> (id: &mut u16)
        ensures
            *id == old(self).id,
            final(self).id == *final(id),
    {
        &mut self.id
    }

    /// The position bytes: the identifier's bytes in host order.
    pub fn position(&self) -> (bytes: [u8; 2])
        ensures
            bytes@ == seq![low_byte(self.id), high_byte(self.id)] || bytes@ == seq![
                high_byte(self.id),
                low_byte(self.id),
            ],
    {
        host_bytes(self.id)
    }
}

impl Default for Tile {
    fn default() -> (tile: Tile)
        ensures
            tile.id == 0xFFFF,
    {
        Tile { id: 0xFFFF }
    }
}

} // verus!
