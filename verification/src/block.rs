//! The block store: an image's bytes, read a logical block at a time.

use vstd::prelude::*;
use vstd::slice::{slice_subrange, slice_to_vec};
use crate::error::{Failure, IsoError};
use crate::layout::{
    le_u16_at, read_le_u16, BLOCK_SIZE_OFFSET, DESCRIPTOR_END, DESCRIPTOR_START,
};

verus! {

/// An image together with the logical block size that its descriptor states.
///
/// A read borrows the device exclusively, as a read through a store with a
/// read position would, and leaves it as it was.
pub struct BlockDevice {
    /// The bytes of the image, from its first.
    pub image: Vec<u8>,
    /// Length of a logical block in bytes. The format does not fix it at 2048.
    pub block_size: u16,
}

/// The logical block size that an image states in its descriptor.
pub open spec fn stored_block_size(image: Seq<u8>) -> u16
    recommends
        image.len() >= DESCRIPTOR_END,
{
    le_u16_at(image, DESCRIPTOR_START + BLOCK_SIZE_OFFSET)
}

/// The logical block `lba` of an image, if the image holds all of it.
pub open spec fn block_at(image: Seq<u8>, block_size: int, lba: int) -> Option<Seq<u8>> {
    if (lba + 1) * block_size <= image.len() {
        Some(image.subrange(lba * block_size, (lba + 1) * block_size))
    } else {
        None
    }
}

/// How many logical blocks it takes to hold `size` bytes.
pub open spec fn block_count(size: int, block_size: int) -> int
    recommends
        block_size > 0,
{
    (size + block_size - 1) / block_size
}

/// The first `size` bytes of the extent that starts at block `lba`, if the
/// image holds every block that the extent covers and each of them has a
/// 32-bit address. An extent of no bytes covers no block.
pub open spec fn extent_at(image: Seq<u8>, block_size: int, lba: int, size: int) -> Option<Seq<u8>>
    recommends
        block_size > 0,
{
    let blocks = block_count(size, block_size);
    if blocks <= 0 {
        Some(Seq::empty())
    } else if lba + blocks - 1 > u32::MAX || (lba + blocks) * block_size > image.len() {
        None
    } else {
        Some(image.subrange(lba * block_size, lba * block_size + size))
    }
}

/// The blocks from `lba` on, `count` of them, one after another, if the image
/// holds them all.
pub open spec fn blocks_at(image: Seq<u8>, block_size: int, lba: int, count: nat) -> Option<
    Seq<u8>,
>
    decreases count,
{
    if count == 0 {
        Some(Seq::empty())
    } else {
        match (
            blocks_at(image, block_size, lba, (count - 1) as nat),
            block_at(image, block_size, lba + count - 1),
        ) {
            (Some(before), Some(last)) => Some(before + last),
            _ => None,
        }
    }
}

impl BlockDevice {
    /// Takes an image and reads its logical block size from the two bytes at
    /// offset 128 of the descriptor at `16 * 2048`. Fails with `Io` if and only
    /// if the image ends before that descriptor does.
    pub fn open(image: Vec<u8>) -> (opened: Result<BlockDevice, IsoError>)
        ensures
            match opened {
                Ok(dev) => {
                    &&& image@.len() >= DESCRIPTOR_END
                    &&& dev.image@ == image@
                    &&& dev.block_size == stored_block_size(image@)
                },
                Err(e) => image@.len() < DESCRIPTOR_END && e@ == Failure::Io,
            },
    {
        if image.len() < DESCRIPTOR_END {
            return Err(IsoError::Io);
        }
        let block_size: u16 = read_le_u16(image.as_slice(), DESCRIPTOR_START + BLOCK_SIZE_OFFSET);
        Ok(BlockDevice { image, block_size })
    }

    /// Reads the logical block `lba`: the `block_size` bytes at offset
    /// `lba * block_size`. Fails with `Io` if and only if the image ends before
    /// the block does.
    pub fn read_block(&mut self, lba: u32) -> (block: Result<Vec<u8>, IsoError>)
        ensures
            *final(self) == *old(self),
            match block {
                Ok(bytes) => block_at(old(self).image@, old(self).block_size as int, lba as int)
                    == Some(bytes@),
                Err(e) => {
                    &&& block_at(old(self).image@, old(self).block_size as int, lba as int)
                        is None
                    &&& e@ == Failure::Io
                },
            },
    {
        let size: u64 = self.block_size as u64;
        assert(lba * size <= 0xffff_ffff * 0xffff) by (nonlinear_arith)
            requires
                lba <= 0xffff_ffff,
                size <= 0xffff,
        ;
        let start: u64 = lba as u64 * size;
        let end: u64 = start + size;
        assert(end == (lba + 1) * size) by (nonlinear_arith)
            requires
                end == lba * size + size,
        ;
        if end > self.image.len() as u64 {
            return Err(IsoError::Io);
        }
        Ok(slice_to_vec(slice_subrange(self.image.as_slice(), start as usize, end as usize)))
    }

    /// Reads the extent that starts at block `lba` and holds `size` bytes:
    /// reads the blocks that cover it one after another and drops what the last
    /// of them holds beyond `size`. Fails with `Io` if and only if the image
    /// lacks one of those blocks.
    pub fn read_extent(&mut self, lba: u32, size: u32) -> (extent: Result<Vec<u8>, IsoError>)
        requires
            old(self).block_size > 0,
        ensures
            *final(self) == *old(self),
            match extent {
                Ok(bytes) => extent_at(
                    old(self).image@,
                    old(self).block_size as int,
                    lba as int,
                    size as int,
                ) == Some(bytes@),
                Err(e) => {
                    &&& extent_at(
                        old(self).image@,
                        old(self).block_size as int,
                        lba as int,
                        size as int,
                    ) is None
                    &&& e@ == Failure::Io
                },
            },
    {
        let block_size: u64 = self.block_size as u64;
        let blocks: u64 = (size as u64 + block_size - 1) / block_size;
        let ghost image = self.image@;
        let mut data: Vec<u8> = Vec::new();
        let mut i: u64 = 0;
        while i < blocks
            invariant
                *self == *old(self),
                image == self.image@,
                block_size == self.block_size,
                block_size > 0,
                blocks == block_count(size as int, block_size as int),
                i <= blocks,
                i == 0 ==> data@ == Seq::<u8>::empty(),
                i > 0 ==> {
                    &&& lba + i - 1 <= u32::MAX
                    &&& (lba + i) * block_size <= image.len()
                    &&& data@ == image.subrange(lba * block_size, (lba + i) * block_size)
                },
            decreases blocks - i,
        {
            let index: u64 = lba as u64 + i;
            if index > u32::MAX as u64 {
                return Err(IsoError::Io);
            }
            match self.read_block(index as u32) {
                Ok(mut block) => {
                    proof {
                        lemma_next_block(lba as int, i as int, block_size as int);
                    }
                    data.append(&mut block);
                },
                Err(e) => {
                    proof {
                        lemma_blocks_grow(index + 1, lba + blocks, block_size as int);
                    }
                    return Err(e);
                },
            }
            i = i + 1;
        }
        proof {
            lemma_blocks_cover(size as int, block_size as int);
            lemma_next_block(lba as int, blocks as int, block_size as int);
        }
        data.truncate(size as usize);
        Ok(data)
    }
}

/// Block `lba + i` ends where block `lba + i + 1` starts.
proof fn lemma_next_block(lba: int, i: int, block_size: int)
    ensures
        (lba + i + 1) * block_size == (lba + i) * block_size + block_size,
        (lba + i) * block_size == lba * block_size + i * block_size,
{
    assert((lba + i + 1) * block_size == (lba + i) * block_size + block_size)
        by (nonlinear_arith);
    assert((lba + i) * block_size == lba * block_size + i * block_size) by (nonlinear_arith);
}

/// A later block ends no earlier.
proof fn lemma_blocks_grow(a: int, b: int, block_size: int)
    requires
        a <= b,
        block_size >= 0,
    ensures
        a * block_size <= b * block_size,
{
    assert(a * block_size <= b * block_size) by (nonlinear_arith)
        requires
            a <= b,
            block_size >= 0,
    ;
}

/// Blocks that follow one another are one stretch of the image, which holds
/// them all if and only if it holds the last.
pub proof fn lemma_blocks_at(image: Seq<u8>, block_size: int, lba: int, count: nat)
    requires
        block_size > 0,
        lba >= 0,
        count > 0,
    ensures
        blocks_at(image, block_size, lba, count) is Some <==> (lba + count) * block_size
            <= image.len(),
        blocks_at(image, block_size, lba, count) matches Some(bytes) ==> bytes == image.subrange(
            lba * block_size,
            (lba + count) * block_size,
        ),
    decreases count,
{
    let before = (count - 1) as nat;
    lemma_next_block(lba, before as int, block_size);
    lemma_blocks_grow(lba, lba + before, block_size);
    if before > 0 {
        lemma_blocks_at(image, block_size, lba, before);
    }
}

/// An extent is what its blocks hold, read one after another and cut to the
/// extent's size: nothing of the last block's padding is kept.
pub proof fn lemma_extent_of_blocks(image: Seq<u8>, block_size: int, lba: int, size: int)
    requires
        block_size > 0,
        lba >= 0,
        size >= 0,
        lba + block_count(size, block_size) - 1 <= u32::MAX,
    ensures
        extent_at(image, block_size, lba, size) == match blocks_at(
            image,
            block_size,
            lba,
            block_count(size, block_size) as nat,
        ) {
            Some(bytes) => Some(bytes.subrange(0, size)),
            None => None,
        },
        extent_at(image, block_size, lba, size) matches Some(bytes) ==> bytes.len() == size,
{
    lemma_blocks_cover(size, block_size);
    let count = block_count(size, block_size) as nat;
    if count > 0 {
        lemma_blocks_at(image, block_size, lba, count);
        lemma_next_block(lba, count as int, block_size);
    }
}

/// The blocks counted for `size` bytes hold them, and one block fewer would not.
pub proof fn lemma_blocks_cover(size: int, block_size: int)
    requires
        size >= 0,
        block_size > 0,
    ensures
        block_count(size, block_size) >= 0,
        size <= block_count(size, block_size) * block_size,
        block_count(size, block_size) * block_size < size + block_size,
        size == 0 <==> block_count(size, block_size) == 0,
{
    let n = block_count(size, block_size);
    assert(n * block_size <= size + block_size - 1 < n * block_size + block_size && n >= 0)
        by (nonlinear_arith)
        requires
            n == (size + block_size - 1) / block_size,
            size >= 0,
            block_size > 0,
    ;
    assert(n == 0 ==> n * block_size == 0) by (nonlinear_arith);
    assert(n >= 1 ==> n * block_size >= block_size) by (nonlinear_arith)
        requires
            block_size > 0,
    ;
}

} // verus!
