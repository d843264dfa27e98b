//! Sound file systems: what the operations rely on, and keep.

use crate::bitmap::{
    allocated, allocation_ready, bit_written, bitmap_block, full_below, group_bitmap, is_set,
    lemma_allocated, marked_free, one_less_free, one_more_free,
};
use crate::disk::{group_disk, DiskView, BLOCK_SIZE, MAX_BLOCKS, PAGE_SIZE};
use crate::file::MAX_FILE_BLOCKS;
use crate::fs::FsView;
use crate::inode::{in_table, inode_block, InodeView, DIRECT_BLOCKS};
use crate::search::lemma_first_from;
use crate::superblock::{
    lemma_superblock_round_trip, superblock_at, superblock_block, superblock_written,
    SuperBlockView, BITS_PER_BLOCK, SUPERBLOCK_SIZE,
};
use vstd::prelude::*;

verus! {

/// The superblock in memory is the one on the disk, and it is one of this file system. Bitmap,
/// inode table and data area follow each other in this order. The bitmap is on the disk, has no
/// bits past the last block number, and marks what lies before the data area as allocated.
pub open spec fn framed(fs: FsView) -> bool {
    &&& fs.sb.magic.len() == 16
    &&& fs.sb.valid()
    &&& superblock_at(fs.disk) == fs.sb
    &&& 1 <= fs.sb.bitmap_blocks < fs.sb.inode_table_start
    &&& fs.sb.inode_table_start + fs.sb.inode_table_blocks <= fs.sb.data_start
    &&& fs.sb.data_start <= fs.sb.bitmap_blocks * BITS_PER_BLOCK <= 0x1_0000_0000
    &&& fs.disk.has(fs.sb.bitmap_blocks as int)
    &&& full_below(fs.disk, fs.sb.data_start as int)
}

/// The frame of the file system is right, and all that lies before the data area is on the disk.
pub open spec fn sound(fs: FsView) -> bool {
    framed(fs) && fs.disk.has(fs.sb.data_start - 1)
}

/// Block `b` lies in the data area, is on the disk, and is marked as allocated.
pub open spec fn owned(fs: FsView, b: int) -> bool {
    &&& fs.sb.data_start <= b < fs.sb.bitmap_blocks * BITS_PER_BLOCK
    &&& fs.disk.has(b)
    &&& is_set(fs.disk, b)
}

/// The data blocks of `inode`, and its indirect block where it needs one, are there, are marked as
/// allocated, and are all different.
pub open spec fn inode_sound(fs: FsView, inode: InodeView) -> bool {
    &&& inode.well_formed()
    &&& inode.block_count <= MAX_FILE_BLOCKS
    &&& inode.size <= inode.block_count * PAGE_SIZE
    &&& forall|i: int|
        0 <= i < inode.block_count ==> (#[trigger] inode.pointer(fs.disk, i)) is Some && owned(
            fs,
            inode.pointer(fs.disk, i)->0 as int,
        )
    &&& forall|i: int, j: int|
        0 <= i < j < inode.block_count ==> (#[trigger] inode.pointer(fs.disk, i)) != (
        #[trigger] inode.pointer(fs.disk, j))
    &&& inode.block_count > DIRECT_BLOCKS ==> {
        &&& inode.indirect_block != 0
        &&& owned(fs, inode.indirect_block as int)
        &&& forall|i: int|
            0 <= i < inode.block_count ==> (#[trigger] inode.pointer(fs.disk, i)) != Some(
                inode.indirect_block,
            )
    }
    &&& inode.block_count <= DIRECT_BLOCKS ==> inode.indirect_block == 0
}

/// Blocks that a sound inode has: its data blocks, and the indirect one.
pub open spec fn blocks_held(inode: InodeView) -> int {
    if inode.block_count > DIRECT_BLOCKS {
        inode.block_count + 1
    } else {
        inode.block_count as int
    }
}

/// Block `b` is none of the blocks of `inode`.
pub open spec fn apart(fs: FsView, inode: InodeView, b: int) -> bool {
    &&& forall|i: int|
        0 <= i < inode.block_count ==> (#[trigger] inode.pointer(fs.disk, i)) != Some(b as u32)
    &&& inode.block_count > DIRECT_BLOCKS ==> inode.indirect_block != b
}

/// The file system with other contents of block `b`.
pub open spec fn with_write(fs: FsView, b: int, bytes: Seq<u8>) -> FsView {
    FsView { disk: fs.disk.write(b, bytes), sb: fs.sb }
}

/// On a sound disk the whole inode table is there, and no block of a sound inode lies in it.
pub proof fn lemma_table(fs: FsView, inode: InodeView, n: u32)
    requires
        sound(fs),
        in_table(fs.sb, n),
    ensures
        fs.has_inode(n),
        inode_sound(fs, inode) ==> apart(fs, inode, inode_block(fs.sb, n)),
{
    let c = inode_block(fs.sb, n);
    if inode_sound(fs, inode) {
        assert forall|i: int| 0 <= i < inode.block_count implies (#[trigger] inode.pointer(
            fs.disk,
            i,
        )) != Some(c as u32) by {
            assert(owned(fs, inode.pointer(fs.disk, i)->0 as int));
        }
    }
}

/// The superblock written is the superblock read back.
pub proof fn lemma_superblock_read_back(d: DiskView, sb: SuperBlockView)
    requires
        sb.magic.len() == 16,
    ensures
        superblock_at(superblock_written(d, sb)) == sb,
        superblock_block(sb).len() == BLOCK_SIZE,
{
    broadcast use group_disk;

    reveal(superblock_at);
    assert(superblock_block(sb).subrange(0, SUPERBLOCK_SIZE as int) =~= sb.encoded());
    lemma_superblock_round_trip(sb, superblock_block(sb));
}

/// Writing to a block behind the bitmap keeps a file system sound and changes no block's state.
pub proof fn lemma_write_keeps_sound(fs: FsView, b: int, bytes: Seq<u8>)
    requires
        framed(fs),
        fs.sb.bitmap_blocks < b,
        bytes.len() == BLOCK_SIZE,
    ensures
        framed(with_write(fs, b, bytes)),
        sound(fs) ==> sound(with_write(fs, b, bytes)),
        forall|c: int| owned(fs, c) ==> #[trigger] owned(with_write(fs, b, bytes), c),
        forall|c: int|
            0 <= c < fs.sb.bitmap_blocks * BITS_PER_BLOCK ==> #[trigger] is_set(
                with_write(fs, b, bytes).disk,
                c,
            ) == is_set(fs.disk, c),
{
    broadcast use group_disk;

    reveal(is_set);
    reveal(superblock_at);
    let after = with_write(fs, b, bytes);
    assert forall|c: int| 0 <= c < fs.sb.bitmap_blocks * BITS_PER_BLOCK implies #[trigger] is_set(
        after.disk,
        c,
    ) == is_set(fs.disk, c) by {
        assert(fs.disk.has(bitmap_block(c)));
    }
    assert(fs.disk.has(0));
}

/// Writing to a block that is not one of the blocks of an inode leaves its blocks as they are.
pub proof fn lemma_write_keeps_inode(fs: FsView, b: int, bytes: Seq<u8>, inode: InodeView)
    requires
        sound(fs),
        inode_sound(fs, inode),
        fs.sb.bitmap_blocks < b,
        bytes.len() == BLOCK_SIZE,
        inode.block_count > DIRECT_BLOCKS ==> inode.indirect_block != b,
    ensures
        inode_sound(with_write(fs, b, bytes), inode),
        forall|i: int|
            0 <= i < inode.block_count ==> #[trigger] inode.pointer(
                with_write(fs, b, bytes).disk,
                i,
            ) == inode.pointer(fs.disk, i),
{
    broadcast use group_disk;

    lemma_write_keeps_sound(fs, b, bytes);
    let after = with_write(fs, b, bytes);
    assert forall|i: int| 0 <= i < inode.block_count implies #[trigger] inode.pointer(after.disk, i)
        == inode.pointer(fs.disk, i) by {
        if i >= DIRECT_BLOCKS {
            assert(owned(fs, inode.indirect_block as int));
        }
    }
    assert forall|i: int| 0 <= i < inode.block_count implies (#[trigger] inode.pointer(
        after.disk,
        i,
    )) is Some && owned(after, inode.pointer(after.disk, i)->0 as int) by {
        assert(owned(fs, inode.pointer(fs.disk, i)->0 as int));
    }
}

/// Setting or clearing the bit of block `b` and then writing superblock `sb` touches the superblock
/// and one block of the bitmap, and changes the state of no block but `b`.
pub proof fn lemma_marked(d: DiskView, b: int, on: bool, sb: SuperBlockView)
    requires
        0 <= b,
        d.has(0),
        d.has(bitmap_block(b)),
        sb.magic.len() == 16,
    ensures
        ({
            let after = superblock_written(bit_written(d, b, on), sb);
            &&& superblock_at(after) == sb
            &&& forall|c: int| #[trigger] after.has(c) == d.has(c)
            &&& forall|c: int|
                0 <= c && d.has(bitmap_block(c)) ==> #[trigger] is_set(after, c) == if c == b {
                    on
                } else {
                    is_set(d, c)
                }
            &&& forall|c: int|
                c != 0 && c != bitmap_block(b) && d.has(c) ==> #[trigger] after.block(c) == d.block(
                    c,
                )
        }),
{
    broadcast use {group_disk, group_bitmap};

    let mid = bit_written(d, b, on);
    let after = superblock_written(mid, sb);
    lemma_superblock_read_back(mid, sb);
    assert(mid.has(0));
    assert forall|c: int| #[trigger] after.has(c) == d.has(c) by {
        assert(mid.has(c) == d.has(c));
    }
    assert forall|c: int| 0 <= c && d.has(bitmap_block(c)) implies #[trigger] is_set(after, c)
        == if c == b {
        on
    } else {
        is_set(d, c)
    } by {
        assert(mid.has(bitmap_block(c)));
        assert(is_set(mid, c) == if c == b { on } else { is_set(d, c) });
    }
    assert forall|c: int|
        c != 0 && c != bitmap_block(b) && d.has(c) implies #[trigger] after.block(c) == d.block(
        c,
    ) by {
        assert(mid.has(c));
        assert(mid.block(c) == d.block(c));
    }
}

/// The file system after one allocation.
pub open spec fn after_allocation(fs: FsView) -> FsView {
    let (d, sb, b) = allocated(fs.disk, fs.sb)->0;
    FsView { disk: d, sb }
}

/// The block that the next allocation takes.
pub open spec fn next_block(fs: FsView) -> u32 {
    let (d, sb, b) = allocated(fs.disk, fs.sb)->0;
    b
}

/// A sound file system is ready to allocate. What it allocates was free before, it stays sound,
/// and the blocks behind the bitmap keep their contents.
pub proof fn lemma_allocation_keeps_sound(fs: FsView)
    requires
        framed(fs),
    ensures
        allocation_ready(fs.disk, fs.sb),
        allocated(fs.disk, fs.sb) is Some ==> {
            let (d, sb, b) = allocated(fs.disk, fs.sb)->0;
            let after = after_allocation(fs);
            &&& framed(after)
            &&& sound(fs) ==> sound(after)
            &&& fs.sb.data_start <= b < MAX_BLOCKS
            &&& b < fs.sb.bitmap_blocks * BITS_PER_BLOCK
            &&& !is_set(fs.disk, b as int)
            &&& full_below(fs.disk, b as int)
            &&& after.sb == one_less_free(fs.sb)
            &&& fs.sb.free_blocks > 0
            &&& forall|c: int|
                0 <= c < fs.sb.bitmap_blocks * BITS_PER_BLOCK ==> #[trigger] is_set(after.disk, c)
                    == (c == b || is_set(fs.disk, c))
            &&& forall|c: int| #[trigger] after.disk.has(c) == fs.disk.has(c)
            &&& forall|c: int|
                fs.sb.bitmap_blocks < c && fs.disk.has(c) ==> #[trigger] after.disk.block(c)
                    == fs.disk.block(c)
            &&& forall|c: int| owned(fs, c) ==> #[trigger] owned(after, c)
        },
{
    assert forall|i: int|
        0 <= i < fs.sb.bitmap_blocks && full_below(
            fs.disk,
            i * BITS_PER_BLOCK,
        ) implies #[trigger] fs.disk.has(1 + i) by {}
    assert(fs.disk.has(0));
    if allocated(fs.disk, fs.sb) is Some {
        lemma_allocated(fs.disk, fs.sb);
        let (d, sb, b) = allocated(fs.disk, fs.sb)->0;
        let after = after_allocation(fs);
        lemma_first_from(
            0,
            fs.sb.bitmap_blocks * BITS_PER_BLOCK,
            |n: int| !is_set(fs.disk, n),
        );
        assert(fs.sb.data_start <= b) by {
            if b < fs.sb.data_start {
                assert(is_set(fs.disk, b as int));
            }
        }
        lemma_marked(fs.disk, b as int, true, one_less_free(fs.sb));
        lemma_state_of_marked(fs, after, b as int, true);
    }
}

/// Marking a block of the data area keeps a file system sound.
proof fn lemma_state_of_marked(fs: FsView, after: FsView, b: int, on: bool)
    requires
        framed(fs),
        fs.sb.data_start <= b < fs.sb.bitmap_blocks * BITS_PER_BLOCK,
        after.sb == fs.sb.with_free(after.sb.free_blocks as int),
        superblock_at(after.disk) == after.sb,
        forall|c: int| #[trigger] after.disk.has(c) == fs.disk.has(c),
        forall|c: int|
            0 <= c && fs.disk.has(bitmap_block(c)) ==> #[trigger] is_set(after.disk, c) == if c
                == b {
                on
            } else {
                is_set(fs.disk, c)
            },
        forall|c: int|
            c != 0 && c != bitmap_block(b) && fs.disk.has(c) ==> #[trigger] after.disk.block(c)
                == fs.disk.block(c),
    ensures
        framed(after),
        sound(fs) ==> sound(after),
        forall|c: int|
            0 <= c < fs.sb.bitmap_blocks * BITS_PER_BLOCK ==> #[trigger] is_set(after.disk, c)
                == if c == b {
                on
            } else {
                is_set(fs.disk, c)
            },
        forall|c: int|
            fs.sb.bitmap_blocks < c && fs.disk.has(c) ==> #[trigger] after.disk.block(c)
                == fs.disk.block(c),
        forall|c: int| owned(fs, c) && (c != b || on) ==> #[trigger] owned(after, c),
{
    assert forall|c: int| 0 <= c < fs.sb.bitmap_blocks * BITS_PER_BLOCK implies #[trigger] is_set(
        after.disk,
        c,
    ) == if c == b {
        on
    } else {
        is_set(fs.disk, c)
    } by {
        assert(fs.disk.has(bitmap_block(c)));
    }
    assert(full_below(after.disk, after.sb.data_start as int)) by {
        assert forall|m: int| 0 <= m < after.sb.data_start implies #[trigger] is_set(
            after.disk,
            m,
        ) by {
            assert(is_set(fs.disk, m));
        }
    }
}

/// The file system after block `b` has been marked as free.
pub open spec fn after_free(fs: FsView, b: int) -> FsView {
    FsView { disk: marked_free(fs.disk, fs.sb, b), sb: one_more_free(fs.sb) }
}

/// Freeing a block keeps a file system sound, changes the state of no other block, and leaves the
/// blocks behind the bitmap as they are.
pub proof fn lemma_free_keeps_sound(fs: FsView, b: int)
    requires
        sound(fs),
        fs.sb.data_start <= b < fs.sb.bitmap_blocks * BITS_PER_BLOCK,
        fs.sb.free_blocks < u32::MAX,
    ensures
        fs.disk.has(bitmap_block(b)),
        ({
            let after = after_free(fs, b);
            &&& sound(after)
            &&& forall|c: int|
                0 <= c < fs.sb.bitmap_blocks * BITS_PER_BLOCK ==> #[trigger] is_set(after.disk, c)
                    == (c != b && is_set(fs.disk, c))
            &&& forall|c: int| #[trigger] after.disk.has(c) == fs.disk.has(c)
            &&& forall|c: int|
                fs.sb.bitmap_blocks < c && fs.disk.has(c) ==> #[trigger] after.disk.block(c)
                    == fs.disk.block(c)
            &&& forall|c: int| owned(fs, c) && c != b ==> #[trigger] owned(after, c)
        }),
{
    assert(fs.disk.has(0));
    assert(fs.disk.has(bitmap_block(b)));
    let after = after_free(fs, b);
    lemma_marked(fs.disk, b, false, one_more_free(fs.sb));
    lemma_state_of_marked(fs, after, b, false);
}

} // verus!
