//! The header that each table of services starts with.

use vstd::prelude::*;

verus! {

/// The header of a table of services. The checksum covers `header_size`
/// bytes from the start of the header, with the checksum field itself taken
/// as zero.
#[derive(Clone, Copy, Debug)]
pub struct TableHeader {
    pub signature: [u8; 8],
    pub revision: u32,
    pub header_size: u32,
    pub crc32: u32,
    pub reserved: u32,
}

/// The size in bytes of the next piece that the checksum unit is fed when
/// `remaining` bytes of a header remain: the largest of 8, 4, 2 and 1 that
/// is not larger than what remains, but 8 for any remainder of 8 or more.
pub open spec fn crc_piece(remaining: int) -> int {
    if remaining == 1 {
        1
    } else if 2 <= remaining <= 3 {
        2
    } else if 4 <= remaining <= 7 {
        4
    } else {
        8
    }
}

/// The size of the next piece to checksum: see `crc_piece`.
pub fn crc_step(remaining: usize) -> (piece: usize)
    requires
        remaining > 0,
    ensures
        piece == crc_piece(remaining as int),
        0 < piece <= 8,
        piece <= remaining,
{
    if remaining == 1 {
        1
    } else if remaining <= 3 {
        2
    } else if remaining <= 7 {
        4
    } else {
        8
    }
}

} // verus!
