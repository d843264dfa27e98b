//! The bitmap of free space: one bit for each block, 0 for free and 1 for allocated.

use crate::disk::{group_disk, Disk, DiskView, BLOCK_SIZE, MAX_BLOCKS};
use crate::search::{first_from, lemma_first_from, lemma_first_is};
use crate::superblock::{
    superblock_at, superblock_readable, superblock_written, try_read_superblock, write_superblock,
    SuperBlock, SuperBlockView, BITS_PER_BLOCK,
};
use vstd::prelude::*;

verus! {

/// Bit `k` of `byte`, counted from the least significant one.
#[verifier::opaque]
pub open spec fn bit_of(byte: u8, k: int) -> bool {
    byte & (1u8 << (k as u8)) != 0
}

/// The block of the bitmap that records block `n`.
pub open spec fn bitmap_block(n: int) -> int {
    1 + n / (BITS_PER_BLOCK as int)
}

/// The byte of that block which records block `n`.
pub open spec fn bitmap_byte(n: int) -> int {
    n / 8 % (BLOCK_SIZE as int)
}

/// Block `n` is marked as allocated.
#[verifier::opaque]
pub open spec fn is_set(d: DiskView, n: int) -> bool {
    bit_of(d.block(bitmap_block(n))[bitmap_byte(n)], n % 8)
}

/// All blocks below `n` are marked as allocated.
pub open spec fn full_below(d: DiskView, n: int) -> bool {
    forall|m: int| 0 <= m < n ==> #[trigger] is_set(d, m)
}

/// The byte that marks block `n` as allocated, or as free, and else is `byte`.
pub open spec fn marked_byte(byte: u8, n: int, allocated: bool) -> u8 {
    let mask = 1u8 << ((n % 8) as u8);
    if allocated {
        byte | mask
    } else {
        byte & !mask
    }
}

/// The disk after the bit of block `n` has been set or cleared.
pub open spec fn bit_written(d: DiskView, n: int, allocated: bool) -> DiskView {
    let old_block = d.block(bitmap_block(n));
    d.write(
        bitmap_block(n),
        old_block.update(bitmap_byte(n), marked_byte(old_block[bitmap_byte(n)], n, allocated)),
    )
}

/// The superblock after one block has been allocated.
pub open spec fn one_less_free(sb: SuperBlockView) -> SuperBlockView {
    sb.with_free(sb.free_blocks - 1)
}

/// The superblock after one block has been freed.
pub open spec fn one_more_free(sb: SuperBlockView) -> SuperBlockView {
    sb.with_free(sb.free_blocks + 1)
}

/// The disk after block `n` has been marked as allocated and counted as such in `sb`.
pub open spec fn marked_allocated(d: DiskView, sb: SuperBlockView, n: int) -> DiskView {
    superblock_written(bit_written(d, n, true), one_less_free(sb))
}

/// The disk after block `n` has been marked as free and counted as such in `sb`.
pub open spec fn marked_free(d: DiskView, sb: SuperBlockView, n: int) -> DiskView {
    superblock_written(bit_written(d, n, false), one_more_free(sb))
}

/// The lowest block that the bitmap of `d` marks as free.
pub open spec fn first_free(d: DiskView) -> Option<int> {
    first_from(
        0,
        superblock_at(d).bitmap_blocks * BITS_PER_BLOCK,
        |n: int| !is_set(d, n),
    )
}

/// The disk, the superblock and the block number that an allocation leads to; none if there is
/// no free block.
pub open spec fn allocated(d: DiskView, sb: SuperBlockView) -> Option<
    (DiskView, SuperBlockView, u32),
> {
    if sb.free_blocks == 0 {
        None
    } else {
        match first_free(d) {
            Some(n) => if n < MAX_BLOCKS {
                Some((marked_allocated(d, sb, n), one_less_free(sb), n as u32))
            } else {
                None
            },
            None => None,
        }
    }
}

/// An allocation finds all that it reads: a superblock of this file system, and the blocks of the
/// bitmap up to the first one with a free block.
pub open spec fn allocation_ready(d: DiskView, sb: SuperBlockView) -> bool {
    sb.free_blocks != 0 ==> {
        &&& superblock_readable(d)
        &&& forall|i: int|
            0 <= i < superblock_at(d).bitmap_blocks && full_below(d, i * BITS_PER_BLOCK)
                ==> #[trigger] d.has(1 + i)
    }
}

/// A byte with its lowest `c` bits set.
pub open spec fn low_bits(c: int) -> u8 {
    if c <= 0 {
        0
    } else if c >= 8 {
        255
    } else {
        ((1u8 << (c as u8)) - 1) as u8
    }
}

/// Block `i` of a bitmap that marks exactly the blocks below `data_start` as allocated.
pub open spec fn fresh_bitmap_block(data_start: int, i: int) -> Seq<u8> {
    Seq::new(BLOCK_SIZE as nat, |k: int| low_bits(data_start - 8 * (i * BLOCK_SIZE + k)))
}

/// The disk after the first `count` blocks of such a bitmap have been written.
pub open spec fn bitmap_started(d: DiskView, data_start: int, count: int) -> DiskView
    decreases count,
{
    if count <= 0 {
        d
    } else {
        bitmap_started(d, data_start, count - 1).write(
            count,
            fresh_bitmap_block(data_start, count - 1),
        )
    }
}

/// Setting or clearing a bit changes that bit alone.
pub proof fn lemma_bit_of_marked(byte: u8, n: int, j: int, on: bool)
    requires
        0 <= n,
        0 <= j < 8,
    ensures
        bit_of(marked_byte(byte, n, on), j) == if j == n % 8 { on } else { bit_of(byte, j) },
{
    reveal(bit_of);
    let k = (n % 8) as u8;
    let i = j as u8;
    assert((byte | (1u8 << k)) & (1u8 << i) != 0 <==> i == k || byte & (1u8 << i) != 0)
        by (bit_vector)
        requires
            k < 8,
            i < 8,
    ;
    assert((byte & !(1u8 << k)) & (1u8 << i) != 0 <==> i != k && byte & (1u8 << i) != 0)
        by (bit_vector)
        requires
            k < 8,
            i < 8,
    ;
}

/// Of the bits of `low_bits(c)`, the lowest `c` are set.
pub proof fn lemma_bit_of_low_bits(c: int, j: int)
    requires
        0 <= j < 8,
    ensures
        bit_of(low_bits(c), j) == (j < c),
{
    reveal(bit_of);
    let i = j as u8;
    assert(0u8 & (1u8 << i) == 0) by (bit_vector);
    assert(255u8 & (1u8 << i) != 0) by (bit_vector)
        requires
            i < 8,
    ;
    if 0 < c < 8 {
        let k = c as u8;
        assert(((1u8 << k) - 1) as u8 & (1u8 << i) != 0 <==> i < k) by (bit_vector)
            requires
                i < 8,
                0 < k < 8,
        ;
    }
}

/// Marking a block changes what the bitmap says of that block alone.
pub broadcast proof fn lemma_is_set_after_mark(d: DiskView, n: int, on: bool, m: int)
    requires
        0 <= n,
        0 <= m,
        d.has(bitmap_block(n)),
        d.has(bitmap_block(m)),
    ensures
        #[trigger] is_set(bit_written(d, n, on), m) == if m == n { on } else { is_set(d, m) },
{
    broadcast use group_disk;

    reveal(is_set);
    if bitmap_block(m) == bitmap_block(n) {
        let old_block = d.block(bitmap_block(n));
        lemma_bit_of_marked(old_block[bitmap_byte(n)], n, m % 8, on);
        if bitmap_byte(m) == bitmap_byte(n) && m % 8 == n % 8 {
            assert(m == n);
        }
    }
}

/// Writing the superblock leaves the bitmap as it is.
pub broadcast proof fn lemma_is_set_after_superblock(d: DiskView, sb: SuperBlockView, m: int)
    requires
        0 <= m,
        d.has(bitmap_block(m)),
    ensures
        #[trigger] is_set(superblock_written(d, sb), m) == is_set(d, m),
{
    broadcast use group_disk;

    reveal(is_set);
}

pub broadcast group group_bitmap {
    lemma_is_set_after_mark,
    lemma_is_set_after_superblock,
}

/// An allocation takes a block that was free, loses no block of the disk, and changes nothing of
/// the superblock but the count of free blocks.
pub proof fn lemma_allocated(d: DiskView, sb: SuperBlockView)
    requires
        allocation_ready(d, sb),
        allocated(d, sb) is Some,
    ensures
        ({
            let (d1, sb1, b) = allocated(d, sb)->0;
            &&& b < MAX_BLOCKS
            &&& first_free(d) == Some(b as int)
            &&& d1 == marked_allocated(d, sb, b as int)
            &&& sb1 == one_less_free(sb)
            &&& d.has(bitmap_block(b as int))
            &&& !is_set(d, b as int)
            &&& full_below(d, b as int)
            &&& forall|c: int| #[trigger] d1.has(c) == d.has(c)
        }),
{
    broadcast use group_disk;

    let limit = superblock_at(d).bitmap_blocks * BITS_PER_BLOCK;
    let free = |n: int| !is_set(d, n);
    lemma_first_from(0, limit, free);
    let n = first_free(d)->0;
    assert(free(n));
    assert(full_below(d, n)) by {
        assert forall|m: int| 0 <= m < n implies #[trigger] is_set(d, m) by {
            assert(!free(m));
        }
    }
    let i = n / (BITS_PER_BLOCK as int);
    assert(full_below(d, i * BITS_PER_BLOCK));
    assert(d.has(1 + i));
}

/// The manager of free space.
pub struct Bitmap;

impl Bitmap {
    /// The byte of the bitmap that records block `block_num`, and the mask of its bit.
    fn locate(block_num: u32) -> (r: (usize, u8))
        ensures
            r.0 == block_num as int / 8,
            r.1 == 1u8 << ((block_num as int % 8) as u8),
    {
        let byte_idx: usize = (block_num / 8) as usize;
        let bit_idx: u8 = (block_num % 8) as u8;
        (byte_idx, 1u8 << bit_idx)
    }

    /// Whether block `block_num` is allocated; a block past the end of the disk counts as such.
    pub fn is_allocated(disk: &Disk, _sb: &SuperBlock, block_num: u32) -> (r: bool)
        requires
            block_num < MAX_BLOCKS ==> disk@.has(bitmap_block(block_num as int)),
        ensures
            r == (block_num >= MAX_BLOCKS || is_set(disk@, block_num as int)),
    {
        if block_num >= MAX_BLOCKS {
            return true;
        }
        let (byte_idx, mask) = Self::locate(block_num);
        let block_to_read: u32 = 1 + (byte_idx / BLOCK_SIZE) as u32;
        let byte_offset_in_block: usize = byte_idx % BLOCK_SIZE;
        let block_buf = disk.load(block_to_read);
        proof {
            reveal(bit_of);
            reveal(is_set);
        }
        (block_buf[byte_offset_in_block] & mask) != 0
    }

    /// Marks block `block_num` as allocated and counts it in the superblock.
    pub fn mark_allocated(disk: &mut Disk, sb: &mut SuperBlock, block_num: u32)
        requires
            old(disk)@.has(bitmap_block(block_num as int)),
            old(sb).free_blocks > 0,
        ensures
            final(disk)@ == marked_allocated(old(disk)@, old(sb)@, block_num as int),
            final(sb)@ == one_less_free(old(sb)@),
    {
        let (byte_idx, mask) = Self::locate(block_num);
        let block_to_write: u32 = 1 + (byte_idx / BLOCK_SIZE) as u32;
        let byte_offset_in_block: usize = byte_idx % BLOCK_SIZE;
        let mut block_buf = disk.load(block_to_write);
        let byte: u8 = block_buf[byte_offset_in_block];
        block_buf[byte_offset_in_block] = byte | mask;
        assert(block_buf@.subrange(0, BLOCK_SIZE as int) =~= block_buf@);
        disk.write_block(block_to_write, &block_buf);
        sb.free_blocks = sb.free_blocks - 1;
        write_superblock(disk, sb);
    }

    /// Marks block `block_num` as free and counts it in the superblock, if that can be done.
    pub fn try_mark_free(disk: &mut Disk, sb: &mut SuperBlock, block_num: u32) -> (r: bool)
        ensures
            r == (old(disk)@.has(bitmap_block(block_num as int)) && old(sb).free_blocks < u32::MAX),
            r ==> final(disk)@ == marked_free(old(disk)@, old(sb)@, block_num as int) && final(sb)@
                == one_more_free(old(sb)@),
            !r ==> final(disk)@ == old(disk)@ && final(sb)@ == old(sb)@,
    {
        if disk.has_block(1 + block_num / BITS_PER_BLOCK) && sb.free_blocks < u32::MAX {
            Self::mark_free(disk, sb, block_num);
            true
        } else {
            false
        }
    }

    /// Marks block `block_num` as free and counts it in the superblock.
    pub fn mark_free(disk: &mut Disk, sb: &mut SuperBlock, block_num: u32)
        requires
            old(disk)@.has(bitmap_block(block_num as int)),
            old(sb).free_blocks < u32::MAX,
        ensures
            final(disk)@ == marked_free(old(disk)@, old(sb)@, block_num as int),
            final(sb)@ == one_more_free(old(sb)@),
    {
        let (byte_idx, mask) = Self::locate(block_num);
        let block_to_write: u32 = 1 + (byte_idx / BLOCK_SIZE) as u32;
        let byte_offset_in_block: usize = byte_idx % BLOCK_SIZE;
        let mut block_buf = disk.load(block_to_write);
        let byte: u8 = block_buf[byte_offset_in_block];
        block_buf[byte_offset_in_block] = byte & !mask;
        assert(block_buf@.subrange(0, BLOCK_SIZE as int) =~= block_buf@);
        disk.write_block(block_to_write, &block_buf);
        sb.free_blocks = sb.free_blocks + 1;
        write_superblock(disk, sb);
    }

    /// Allocates the lowest free block; none if there is no free block. Nothing is answered at all
    /// where the disk is not ready for an allocation.
    pub fn try_allocate_block(disk: &mut Disk, sb: &mut SuperBlock) -> (r: Option<Option<u32>>)
        ensures
            r is Some <==> allocation_ready(old(disk)@, old(sb)@),
            r is None ==> final(disk)@ == old(disk)@ && final(sb)@ == old(sb)@,
            r matches Some(n) ==> match allocated(old(disk)@, old(sb)@) {
                Some((d, s, m)) => n == Some(m) && final(disk)@ == d && final(sb)@ == s,
                None => n is None && final(disk)@ == old(disk)@ && final(sb)@ == old(sb)@,
            },
    {
        if sb.free_blocks == 0 {
            return Some(None);
        }
        let sb_local = match try_read_superblock(disk) {
            Some(sb_local) => sb_local,
            None => {
                return None;
            },
        };
        let bitmap_blocks: u32 = sb_local.bitmap_blocks;
        let ghost d = disk@;
        let ghost limit = superblock_at(d).bitmap_blocks * BITS_PER_BLOCK;
        proof {
            lemma_first_from(0, limit, |n: int| !is_set(d, n));
        }
        let mut bitmap_idx: u32 = 0;
        while bitmap_idx < bitmap_blocks
            invariant
                disk@ == d,
                d == old(disk)@,
                *sb == *old(sb),
                sb.free_blocks > 0,
                superblock_readable(d),
                bitmap_blocks == superblock_at(d).bitmap_blocks,
                limit == bitmap_blocks * BITS_PER_BLOCK,
                bitmap_idx <= bitmap_blocks,
                full_below(d, bitmap_idx * BITS_PER_BLOCK),
                forall|i: int| 0 <= i < bitmap_idx ==> #[trigger] d.has(1 + i),
            decreases bitmap_blocks - bitmap_idx,
        {
            let block_buf = match disk.try_load(1 + bitmap_idx) {
                Some(block_buf) => block_buf,
                None => {
                    assert(!d.has(1 + bitmap_idx as int));
                    return None;
                },
            };
            let mut byte_offset: usize = 0;
            while byte_offset < BLOCK_SIZE
                invariant
                    disk@ == d,
                    d == old(disk)@,
                    *sb == *old(sb),
                    sb.free_blocks > 0,
                    superblock_readable(d),
                    block_buf@ == d.block(1 + bitmap_idx as int),
                    block_buf@.len() == BLOCK_SIZE,
                    d.has(1 + bitmap_idx as int),
                    forall|i: int| 0 <= i < bitmap_idx ==> #[trigger] d.has(1 + i),
                    bitmap_idx < bitmap_blocks,
                    bitmap_blocks == superblock_at(d).bitmap_blocks,
                    limit == bitmap_blocks * BITS_PER_BLOCK,
                    byte_offset <= BLOCK_SIZE,
                    full_below(d, bitmap_idx * BITS_PER_BLOCK + 8 * byte_offset),
                decreases BLOCK_SIZE - byte_offset,
            {
                let byte_val: u8 = block_buf[byte_offset];
                let mut bit: u32 = 0;
                while bit < 8
                    invariant
                        disk@ == d,
                        d == old(disk)@,
                        *sb == *old(sb),
                        sb.free_blocks > 0,
                        superblock_readable(d),
                        block_buf@ == d.block(1 + bitmap_idx as int),
                        d.has(1 + bitmap_idx as int),
                        forall|i: int| 0 <= i < bitmap_idx ==> #[trigger] d.has(1 + i),
                        byte_offset < BLOCK_SIZE,
                        byte_val == block_buf@[byte_offset as int],
                        bitmap_idx < bitmap_blocks,
                            bitmap_blocks == superblock_at(d).bitmap_blocks,
                        limit == bitmap_blocks * BITS_PER_BLOCK,
                        bit <= 8,
                        full_below(d, bitmap_idx * BITS_PER_BLOCK + 8 * byte_offset + bit),
                    decreases 8 - bit,
                {
                    let ghost n = bitmap_idx * BITS_PER_BLOCK + 8 * byte_offset + bit;
                    assert(bitmap_block(n) == 1 + bitmap_idx);
                    assert(bitmap_byte(n) == byte_offset);
                    assert(n % 8 == bit);
                    let mask: u8 = 1u8 << (bit as u8);
                    proof {
                        reveal(bit_of);
                        reveal(is_set);
                    }
                    if byte_val & mask == 0 {
                        assert(n < limit);
                        assert(!is_set(d, n));
                        proof {
                            lemma_first_is(0, limit, |n: int| !is_set(d, n), n);
                            assert(allocation_ready(d, sb@)) by {
                                assert forall|i: int|
                                    0 <= i < bitmap_blocks && full_below(
                                        d,
                                        i * BITS_PER_BLOCK,
                                    ) implies #[trigger] d.has(1 + i) by {
                                    if i > bitmap_idx {
                                        assert(is_set(d, n));
                                    }
                                }
                            }
                        }
                        let free_block: u64 = bitmap_idx as u64 * BITS_PER_BLOCK as u64 + 8 * (
                        byte_offset as u64) + bit as u64;
                        if free_block >= MAX_BLOCKS as u64 {
                            return Some(None);
                        }
                        let free_block: u32 = free_block as u32;
                        Self::mark_allocated(disk, sb, free_block);
                        return Some(Some(free_block));
                    }
                    bit = bit + 1;
                }
                byte_offset = byte_offset + 1;
            }
            assert forall|i: int| 0 <= i < bitmap_idx + 1 implies #[trigger] d.has(1 + i) by {
                if i == bitmap_idx {
                    assert(d.has(1 + bitmap_idx as int));
                }
            }
            bitmap_idx = bitmap_idx + 1;
        }
        Some(None)
    }

    /// Allocates the lowest free block.
    pub fn allocate_block(disk: &mut Disk, sb: &mut SuperBlock) -> (r: Option<u32>)
        requires
            allocation_ready(old(disk)@, old(sb)@),
        ensures
            match allocated(old(disk)@, old(sb)@) {
                Some((d, s, n)) => r == Some(n) && final(disk)@ == d && final(sb)@ == s,
                None => r is None && final(disk)@ == old(disk)@ && final(sb)@ == old(sb)@,
            },
    {
        Self::try_allocate_block(disk, sb).unwrap()
    }

    /// Writes the bitmap of a new disk: every block before the data area is allocated, every
    /// other one is free.
    pub fn init_bitmap(disk: &mut Disk, sb: &SuperBlock)
        requires
            (sb.bitmap_blocks + 1) * BLOCK_SIZE <= usize::MAX,
        ensures
            final(disk)@ == bitmap_started(
                old(disk)@,
                sb.data_start as int,
                sb.bitmap_blocks as int,
            ),
    {
        let bitmap_blocks: usize = sb.bitmap_blocks as usize;
        let total_bytes: usize = bitmap_blocks * BLOCK_SIZE;
        let mut bitmap: Vec<u8> = vec![0u8; total_bytes];
        let mut block_num: u32 = 0;
        while block_num < sb.data_start
            invariant
                block_num <= sb.data_start,
                bitmap@.len() == total_bytes,
                forall|j: int|
                    0 <= j < total_bytes ==> #[trigger] bitmap@[j] == low_bits(block_num - 8 * j),
            decreases sb.data_start - block_num,
        {
            let (byte_idx, mask) = Self::locate(block_num);
            if byte_idx < total_bytes {
                let byte: u8 = bitmap[byte_idx];
                bitmap[byte_idx] = byte | mask;
                proof {
                    let c = block_num as int % 8;
                    let k = c as u8;
                    assert(0u8 | (1u8 << 0u8) == (1u8 << 1u8) - 1) by (bit_vector);
                    assert(0 < k < 7 ==> ((1u8 << k) - 1) as u8 | (1u8 << k) == (1u8 << ((k
                        + 1) as u8)) - 1) by (bit_vector);
                    assert(((1u8 << 7u8) - 1) as u8 | (1u8 << 7u8) == 255u8) by (bit_vector);
                    assert(bitmap@[byte_idx as int] == low_bits(block_num + 1 - 8 * byte_idx));
                }
            }
            block_num = block_num + 1;
        }
        let mut i: usize = 0;
        while i < bitmap_blocks
            invariant
                i <= bitmap_blocks,
                bitmap_blocks == sb.bitmap_blocks,
                (bitmap_blocks + 1) * BLOCK_SIZE <= usize::MAX,
                total_bytes == bitmap_blocks * BLOCK_SIZE,
                bitmap@.len() == total_bytes,
                forall|j: int|
                    0 <= j < total_bytes ==> #[trigger] bitmap@[j] == low_bits(
                        sb.data_start - 8 * j,
                    ),
                disk@ == bitmap_started(old(disk)@, sb.data_start as int, i as int),
            decreases bitmap_blocks - i,
        {
            let start: usize = i * BLOCK_SIZE;
            let block_buf = &bitmap[start..start + BLOCK_SIZE];
            assert(block_buf@.subrange(0, BLOCK_SIZE as int) =~= fresh_bitmap_block(
                sb.data_start as int,
                i as int,
            ));
            disk.write_block(1 + i as u32, block_buf);
            i = i + 1;
        }
    }
}

} // verus!
