//! The superblock: block 0, which says where everything else on the disk lies.

use crate::bytes::{
    copy_into, get_u32, lemma_stands_in_front, lemma_u32_read, put_u32, same_bytes, splice,
    stands_at, u32_at, u32_le, zeros,
};
use crate::disk::{Disk, DiskView, BLOCK_SIZE, MAX_BLOCKS};
use vstd::prelude::*;

verus! {

/// Bytes that a superblock takes on the disk.
pub const SUPERBLOCK_SIZE: usize = 44;

/// Blocks whose state one block of the bitmap records, one bit each.
pub const BITS_PER_BLOCK: u32 = 4096;

/// Blocks set aside for the inode table.
pub const INODE_TABLE_BLOCKS: u32 = 25;

/// The magic number that a new superblock carries: `SIMPLEFS-RUST`, then zeros.
pub open spec fn magic_number() -> Seq<u8> {
    seq![83, 73, 77, 80, 76, 69, 70, 83, 45, 82, 85, 83, 84, 0, 0, 0]
}

/// Metadata of the whole file system.
///
/// The disk is laid out as superblock (block 0), bitmap, inode table, data blocks.
#[derive(Debug, Clone, Copy)]
pub struct SuperBlock {
    /// Identifies the file system.
    pub magic: [u8; 16],
    /// Blocks of the disk.
    pub total_blocks: u32,
    /// Blocks that are free.
    pub free_blocks: u32,
    /// Blocks that the bitmap takes.
    pub bitmap_blocks: u32,
    /// First block of the inode table.
    pub inode_table_start: u32,
    /// Blocks of the inode table.
    pub inode_table_blocks: u32,
    /// First data block.
    pub data_start: u32,
    /// Inode number of the root directory.
    pub root_inode: u32,
}

/// The fields of a superblock.
#[verifier::ext_equal]
pub struct SuperBlockView {
    pub magic: Seq<u8>,
    pub total_blocks: u32,
    pub free_blocks: u32,
    pub bitmap_blocks: u32,
    pub inode_table_start: u32,
    pub inode_table_blocks: u32,
    pub data_start: u32,
    pub root_inode: u32,
}

impl View for SuperBlock {
    type V = SuperBlockView;

    open spec fn view(&self) -> SuperBlockView {
        SuperBlockView {
            magic: self.magic@,
            total_blocks: self.total_blocks,
            free_blocks: self.free_blocks,
            bitmap_blocks: self.bitmap_blocks,
            inode_table_start: self.inode_table_start,
            inode_table_blocks: self.inode_table_blocks,
            data_start: self.data_start,
            root_inode: self.root_inode,
        }
    }
}

impl SuperBlockView {
    /// The first thirteen bytes of the magic number are right.
    pub open spec fn valid(self) -> bool {
        self.magic.subrange(0, 13) == magic_number().subrange(0, 13)
    }

    /// The bytes of the superblock on the disk.
    pub open spec fn encoded(self) -> Seq<u8> {
        self.magic + u32_le(self.total_blocks) + u32_le(self.free_blocks) + u32_le(
            self.bitmap_blocks,
        ) + u32_le(self.inode_table_start) + u32_le(self.inode_table_blocks) + u32_le(
            self.data_start,
        ) + u32_le(self.root_inode)
    }

    /// The superblock with `n` free blocks.
    pub open spec fn with_free(self, n: int) -> SuperBlockView {
        SuperBlockView { free_blocks: n as u32, ..self }
    }
}

/// The superblock that `s` begins with.
pub open spec fn decoded_superblock(s: Seq<u8>) -> SuperBlockView {
    SuperBlockView {
        magic: s.subrange(0, 16),
        total_blocks: u32_at(s, 16),
        free_blocks: u32_at(s, 20),
        bitmap_blocks: u32_at(s, 24),
        inode_table_start: u32_at(s, 28),
        inode_table_blocks: u32_at(s, 32),
        data_start: u32_at(s, 36),
        root_inode: u32_at(s, 40),
    }
}

/// The superblock of a disk that has just been laid out, before it has a root directory.
pub open spec fn fresh_superblock() -> SuperBlockView {
    SuperBlockView {
        magic: magic_number(),
        total_blocks: MAX_BLOCKS,
        free_blocks: (MAX_BLOCKS - 31) as u32,
        bitmap_blocks: 5,
        inode_table_start: 6,
        inode_table_blocks: INODE_TABLE_BLOCKS,
        data_start: 31,
        root_inode: 0,
    }
}

/// The superblock on the disk.
#[verifier::opaque]
pub open spec fn superblock_at(d: DiskView) -> SuperBlockView {
    decoded_superblock(d.block(0))
}

/// The block that holds superblock `sb`.
pub open spec fn superblock_block(sb: SuperBlockView) -> Seq<u8> {
    splice(zeros(BLOCK_SIZE as nat), 0, sb.encoded())
}

/// The disk after superblock `sb` has been written to it.
pub open spec fn superblock_written(d: DiskView, sb: SuperBlockView) -> DiskView {
    d.write(0, superblock_block(sb))
}

/// `s` holds the fields of `sb`, each in its place.
spec fn holds_fields(sb: SuperBlockView, s: Seq<u8>) -> bool {
    &&& s.len() >= SUPERBLOCK_SIZE
    &&& stands_at(s, 0, sb.magic)
    &&& stands_at(s, 16, u32_le(sb.total_blocks))
    &&& stands_at(s, 20, u32_le(sb.free_blocks))
    &&& stands_at(s, 24, u32_le(sb.bitmap_blocks))
    &&& stands_at(s, 28, u32_le(sb.inode_table_start))
    &&& stands_at(s, 32, u32_le(sb.inode_table_blocks))
    &&& stands_at(s, 36, u32_le(sb.data_start))
    &&& stands_at(s, 40, u32_le(sb.root_inode))
}

proof fn lemma_superblock_encoded_layout(sb: SuperBlockView)
    requires
        sb.magic.len() == 16,
    ensures
        sb.encoded().len() == SUPERBLOCK_SIZE,
        holds_fields(sb, sb.encoded()),
{
    reveal(stands_at);
}

proof fn lemma_fields_decoded(sb: SuperBlockView, s: Seq<u8>)
    requires
        sb.magic.len() == 16,
        holds_fields(sb, s),
    ensures
        decoded_superblock(s) == sb,
{
    assert(decoded_superblock(s).magic =~= sb.magic) by {
        reveal(stands_at);
        assert forall|i: int| 0 <= i < 16 implies s[i] == #[trigger] sb.magic[i] by {
            assert(s[0 + i] == sb.magic[i]);
        }
    }
    lemma_u32_read(s, 16, sb.total_blocks);
    lemma_u32_read(s, 20, sb.free_blocks);
    lemma_u32_read(s, 24, sb.bitmap_blocks);
    lemma_u32_read(s, 28, sb.inode_table_start);
    lemma_u32_read(s, 32, sb.inode_table_blocks);
    lemma_u32_read(s, 36, sb.data_start);
    lemma_u32_read(s, 40, sb.root_inode);
}

/// A superblock read from bytes that begin with its encoding is the superblock encoded.
pub proof fn lemma_superblock_round_trip(sb: SuperBlockView, s: Seq<u8>)
    requires
        sb.magic.len() == 16,
        s.len() >= SUPERBLOCK_SIZE,
        s.subrange(0, SUPERBLOCK_SIZE as int) == sb.encoded(),
    ensures
        decoded_superblock(s) == sb,
{
    let n = SUPERBLOCK_SIZE as int;
    lemma_superblock_encoded_layout(sb);
    lemma_stands_in_front(s, n, 0, sb.magic);
    lemma_stands_in_front(s, n, 16, u32_le(sb.total_blocks));
    lemma_stands_in_front(s, n, 20, u32_le(sb.free_blocks));
    lemma_stands_in_front(s, n, 24, u32_le(sb.bitmap_blocks));
    lemma_stands_in_front(s, n, 28, u32_le(sb.inode_table_start));
    lemma_stands_in_front(s, n, 32, u32_le(sb.inode_table_blocks));
    lemma_stands_in_front(s, n, 36, u32_le(sb.data_start));
    lemma_stands_in_front(s, n, 40, u32_le(sb.root_inode));
    lemma_fields_decoded(sb, s);
}

impl SuperBlock {
    /// Bytes that a superblock takes on the disk.
    pub const SIZE: usize = SUPERBLOCK_SIZE;

    /// Reads a superblock from the front of `data`.
    pub fn from_bytes(data: &[u8]) -> (r: SuperBlock)
        requires
            data@.len() >= SUPERBLOCK_SIZE,
        ensures
            r@ == decoded_superblock(data@),
    {
        let mut magic: [u8; 16] = [0u8; 16];
        copy_into(&mut magic, 0, &data[0..16]);
        let r = SuperBlock {
            magic,
            total_blocks: get_u32(data, 16),
            free_blocks: get_u32(data, 20),
            bitmap_blocks: get_u32(data, 24),
            inode_table_start: get_u32(data, 28),
            inode_table_blocks: get_u32(data, 32),
            data_start: get_u32(data, 36),
            root_inode: get_u32(data, 40),
        };
        assert(r@ =~= decoded_superblock(data@));
        r
    }

    /// The bytes of the superblock on the disk.
    pub fn to_bytes(&self) -> (r: [u8; SUPERBLOCK_SIZE])
        ensures
            r@ == self@.encoded(),
    {
        let mut buf: [u8; SUPERBLOCK_SIZE] = [0u8; SUPERBLOCK_SIZE];
        copy_into(&mut buf, 0, &self.magic);
        put_u32(&mut buf, 16, self.total_blocks);
        put_u32(&mut buf, 20, self.free_blocks);
        put_u32(&mut buf, 24, self.bitmap_blocks);
        put_u32(&mut buf, 28, self.inode_table_start);
        put_u32(&mut buf, 32, self.inode_table_blocks);
        put_u32(&mut buf, 36, self.data_start);
        put_u32(&mut buf, 40, self.root_inode);
        assert(buf@ =~= self@.encoded());
        buf
    }

    /// Whether the magic number is that of this file system.
    pub fn is_valid(&self) -> (r: bool)
        ensures
            r == self@.valid(),
    {
        let wanted: [u8; 13] = [83u8, 73, 77, 80, 76, 69, 70, 83, 45, 82, 85, 83, 84];
        assert(wanted@ =~= magic_number().subrange(0, 13));
        same_bytes(&self.magic[0..13], &wanted)
    }

    /// Blocks that the bitmap of the disk takes, one bit for each block of the disk.
    pub fn calc_bitmap_blocks() -> (r: u32)
        ensures
            r == 5,
            (r - 1) * BITS_PER_BLOCK < MAX_BLOCKS <= r * BITS_PER_BLOCK,
    {
        (MAX_BLOCKS + BITS_PER_BLOCK - 1) / BITS_PER_BLOCK
    }
}

/// Writes the superblock of a new disk, which has no root directory yet.
pub fn init_superblock(disk: &mut Disk) -> (r: SuperBlock)
    ensures
        r@ == fresh_superblock(),
        final(disk)@ == superblock_written(old(disk)@, fresh_superblock()),
{
    let bitmap_blocks: u32 = SuperBlock::calc_bitmap_blocks();
    let inode_table_start: u32 = 1 + bitmap_blocks;
    let data_start: u32 = inode_table_start + INODE_TABLE_BLOCKS;
    let sb = SuperBlock {
        magic: [83u8, 73, 77, 80, 76, 69, 70, 83, 45, 82, 85, 83, 84, 0, 0, 0],
        total_blocks: MAX_BLOCKS,
        free_blocks: MAX_BLOCKS - data_start,
        bitmap_blocks,
        inode_table_start,
        inode_table_blocks: INODE_TABLE_BLOCKS,
        data_start,
        root_inode: 0,
    };
    assert(sb@ =~= fresh_superblock());
    write_superblock(disk, &sb);
    sb
}

/// The disk has a superblock of this file system.
pub open spec fn superblock_readable(d: DiskView) -> bool {
    d.has(0) && superblock_at(d).valid()
}

/// Reads the superblock from the disk, if there is one of this file system.
pub fn try_read_superblock(disk: &Disk) -> (r: Option<SuperBlock>)
    ensures
        match r {
            Some(sb) => superblock_readable(disk@) && sb@ == superblock_at(disk@),
            None => !superblock_readable(disk@),
        },
{
    proof {
        reveal(superblock_at);
    }
    match disk.try_load(0) {
        Some(block_buf) => {
            let sb = SuperBlock::from_bytes(&block_buf);
            if sb.is_valid() {
                Some(sb)
            } else {
                None
            }
        },
        None => None,
    }
}

/// Reads the superblock from the disk.
pub fn read_superblock(disk: &Disk) -> (r: SuperBlock)
    requires
        superblock_readable(disk@),
    ensures
        r@ == superblock_at(disk@),
{
    try_read_superblock(disk).unwrap()
}

/// Writes superblock `sb` to the disk.
pub fn write_superblock(disk: &mut Disk, sb: &SuperBlock)
    ensures
        final(disk)@ == superblock_written(old(disk)@, sb@),
{
    let mut block_buf: Vec<u8> = vec![0u8; BLOCK_SIZE];
    let sb_bytes = sb.to_bytes();
    copy_into(&mut block_buf, 0, &sb_bytes);
    assert(block_buf@ =~= superblock_block(sb@));
    assert(block_buf@.subrange(0, BLOCK_SIZE as int) =~= block_buf@);
    disk.write_block(0, &block_buf);
}

} // verus!
