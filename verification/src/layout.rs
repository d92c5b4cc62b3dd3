//! Where the fields of a volume lie, and how their bytes are read.
//!
//! Volume descriptors are 2048 bytes long and start at multiples of 2048,
//! whatever the volume's logical block size is. Multi-byte fields are read in
//! their little-endian form.

use vstd::prelude::*;

verus! {

/// Length of a volume descriptor, and the spacing of the boundaries at which a
/// directory's records resume after padding.
pub const SECTOR_SIZE: usize = 2048;

/// Index of the primary volume descriptor: as a sector, where the block size
/// is read, and as a logical block, where the descriptor block is read.
pub const DESCRIPTOR_INDEX: u32 = 16;

/// Offset in the image at which the primary volume descriptor starts.
pub const DESCRIPTOR_START: usize = 16 * SECTOR_SIZE;

/// Offset in the image at which the primary volume descriptor ends.
pub const DESCRIPTOR_END: usize = DESCRIPTOR_START + SECTOR_SIZE;

/// Offset of the signature within the descriptor.
pub const SIGNATURE_OFFSET: usize = 1;

/// Offset within the descriptor at which the signature ends.
pub const SIGNATURE_END: usize = 6;

/// Offset of the logical block size within the descriptor (two bytes).
pub const BLOCK_SIZE_OFFSET: usize = 128;

/// Offset of the root directory's record within the descriptor.
pub const ROOT_RECORD_OFFSET: usize = 156;

/// Offset within the descriptor at which the length field of the root
/// directory's record ends; no later byte of the descriptor is read.
pub const ROOT_RECORD_END: usize = ROOT_RECORD_OFFSET + LENGTH_OFFSET + 4;

/// Offset of the extent's block address within a directory record (four bytes).
pub const EXTENT_OFFSET: usize = 2;

/// Offset of the data length within a directory record (four bytes).
pub const LENGTH_OFFSET: usize = 10;

/// Offset of the flag byte within a directory record.
pub const FLAGS_OFFSET: usize = 25;

/// Offset of the identifier's length within a directory record.
pub const NAME_LENGTH_OFFSET: usize = 32;

/// Offset of the identifier within a directory record.
pub const NAME_OFFSET: usize = 33;

/// Bit of the flag byte that marks a directory.
pub const DIRECTORY_FLAG: u8 = 0x02;

/// The 16-bit little-endian value held at `at` and `at + 1`.
pub open spec fn le_u16_at(data: Seq<u8>, at: int) -> u16
    recommends
        0 <= at,
        at + 2 <= data.len(),
{
    (data[at] + data[at + 1] * 0x100) as u16
}

/// The 32-bit little-endian value held at `at` to `at + 3`.
pub open spec fn le_u32_at(data: Seq<u8>, at: int) -> u32
    recommends
        0 <= at,
        at + 4 <= data.len(),
{
    (data[at] + data[at + 1] * 0x100 + data[at + 2] * 0x1_0000 + data[at + 3] * 0x100_0000) as u32
}

/// Reads a 16-bit little-endian field.
pub fn read_le_u16(data: &[u8], at: usize) -> (value: u16)
    requires
        at + 2 <= data@.len(),
    ensures
        value == le_u16_at(data@, at as int),
{
    let low: u16 = data[at] as u16;
    let high: u16 = data[at + 1] as u16;
    low + high * 0x100
}

/// Reads a 32-bit little-endian field.
pub fn read_le_u32(data: &[u8], at: usize) -> (value: u32)
    requires
        at + 4 <= data@.len(),
    ensures
        value == le_u32_at(data@, at as int),
{
    let b0: u32 = data[at] as u32;
    let b1: u32 = data[at + 1] as u32;
    let b2: u32 = data[at + 2] as u32;
    let b3: u32 = data[at + 3] as u32;
    b0 + b1 * 0x100 + b2 * 0x1_0000 + b3 * 0x100_0000
}

} // verus!
