//! What reading gives back of what was written.

use crate::bitmap::{allocated, is_set};
use crate::bytes::{splice, u16_at, u16_le, zeros};
use crate::disk::{group_disk, DiskView, BLOCK_SIZE, PAGE_SIZE};
use crate::file::{
    block_readable, blocks_wanted, bytes_read, chunk, chunk_stored, file_byte, file_bytes,
    file_written, first_indirect, group_offsets, growable, grown, grown_once, inode_after_write,
    lemma_file_bytes, lemma_position, lemma_small_offset, lemma_storable_fits, position, read_len,
    readable, storable, stored, too_big, unsigned, writable, Growth, MAX_FILE_BLOCKS, MAX_FILE_SIZE,
};
use crate::fs::{FsError, FsView};
use crate::inode::{
    in_table, inode_block, inode_offset, inode_written, lemma_inode_read_back,
    lemma_inode_round_trip, lemma_inode_same_block, new_file_inode, InodeView, DIRECT_BLOCKS,
    INDIRECT_BLOCKS,
};
use crate::progress::law_sound_file_readable;
use crate::sound::{
    after_allocation, apart, blocks_held, inode_sound, lemma_allocation_keeps_sound, lemma_table,
    lemma_write_keeps_inode, lemma_write_keeps_sound, next_block, owned, sound, with_write,
};
use crate::space::{
    counted, law_allocation_succeeds, lemma_free_count_same, lemma_write_keeps_count, recorded,
};
use crate::superblock::BITS_PER_BLOCK;
use vstd::prelude::*;

verus! {

broadcast use {crate::inode::lemma_inode_at, group_offsets};

/// The file system that growing a file leads to.
pub open spec fn grown_fs(g: Growth) -> FsView {
    FsView { disk: g.disk, sb: g.sb }
}

/// The growth of a file, from `inode` on `fs` to `g`, keeps everything sound, adds blocks that
/// were free and now hold zeros, and changes no block but its own indirect one.
pub open spec fn grows_well(fs: FsView, inode: InodeView, g: Growth) -> bool {
    let after = grown_fs(g);
    &&& sound(after)
    &&& inode_sound(after, g.inode)
    &&& after.sb == fs.sb.with_free(after.sb.free_blocks as int)
    &&& inode.block_count <= g.inode.block_count
    &&& g.inode == (InodeView {
        direct_blocks: g.inode.direct_blocks,
        indirect_block: g.inode.indirect_block,
        block_count: g.inode.block_count,
        ..inode
    })
    &&& inode.block_count > DIRECT_BLOCKS ==> g.inode.indirect_block == inode.indirect_block
    &&& g.inode.indirect_block != inode.indirect_block ==> !is_set(
        fs.disk,
        g.inode.indirect_block as int,
    )
    &&& forall|i: int|
        0 <= i < inode.block_count ==> #[trigger] g.inode.pointer(after.disk, i) == inode.pointer(
            fs.disk,
            i,
        )
    &&& forall|i: int|
        0 <= i < inode.block_count ==> after.disk.block(
            (#[trigger] inode.pointer(fs.disk, i))->0 as int,
        ) == fs.disk.block(inode.pointer(fs.disk, i)->0 as int)
    &&& forall|i: int|
        inode.block_count <= i < g.inode.block_count ==> {
            let b = (#[trigger] g.inode.pointer(after.disk, i))->0 as int;
            !is_set(fs.disk, b) && after.disk.block(b) == zeros(BLOCK_SIZE as nat)
        }
    &&& forall|c: int| fs.disk.has(c) ==> #[trigger] after.disk.has(c)
    &&& forall|c: int| owned(fs, c) ==> #[trigger] owned(after, c)
    &&& forall|c: int|
        0 <= c < fs.sb.bitmap_blocks * BITS_PER_BLOCK && is_set(fs.disk, c) ==> #[trigger] is_set(
            after.disk,
            c,
        )
    &&& forall|c: int|
        0 <= c < fs.sb.bitmap_blocks * BITS_PER_BLOCK && #[trigger] is_set(after.disk, c)
            ==> is_set(fs.disk, c) || !apart(after, g.inode, c)
    &&& forall|c: int|
        fs.sb.bitmap_blocks < c <= u32::MAX && fs.disk.has(c) && apart(after, g.inode, c)
            ==> #[trigger] after.disk.block(c) == fs.disk.block(c)
}

proof fn lemma_indirect_pointer(block: Seq<u8>, k: int, b: u32, j: int)
    requires
        block.len() == BLOCK_SIZE,
        0 <= k < INDIRECT_BLOCKS,
        0 <= j < INDIRECT_BLOCKS,
        b < 65536,
    ensures
        u16_at(splice(block, 2 * k, u16_le(b as u16)), 2 * j) as u32 == if j == k {
            b
        } else {
            u16_at(block, 2 * j) as u32
        },
{
}

/// Giving a file its next block, below the first ten, goes well.
proof fn lemma_grow_direct(fs: FsView, inode: InodeView)
    requires
        sound(fs),
        inode_sound(fs, inode),
        inode.block_count < DIRECT_BLOCKS,
        allocated(fs.disk, fs.sb) is Some,
    ensures
        grows_well(fs, inode, grown_once(fs.disk, fs.sb, inode)),
        grown_once(fs.disk, fs.sb, inode).inode.block_count == inode.block_count + 1,
{
    broadcast use group_disk;

    lemma_allocation_keeps_sound(fs);
    let (d1, sb1, b) = allocated(fs.disk, fs.sb)->0;
    let mid = after_allocation(fs);
    let g = grown_once(fs.disk, fs.sb, inode);
    let after = grown_fs(g);
    let z = zeros(BLOCK_SIZE as nat);
    lemma_write_keeps_sound(mid, b as int, z);
    assert(after == with_write(mid, b as int, z));
    assert(owned(after, b as int)) by {
        assert(is_set(mid.disk, b as int));
        assert(after.disk.has(b as int));
    }
    assert forall|i: int| 0 <= i < inode.block_count implies #[trigger] g.inode.pointer(
        after.disk,
        i,
    ) == inode.pointer(fs.disk, i) by {}
    assert(g.inode.pointer(after.disk, inode.block_count as int) == Some(b));
    assert forall|c: int| owned(fs, c) implies #[trigger] owned(after, c) by {
        assert(owned(mid, c));
    }
    assert forall|i: int| 0 <= i < inode.block_count implies owned(
        fs,
        (#[trigger] inode.pointer(fs.disk, i))->0 as int,
    ) && inode.pointer(fs.disk, i) != Some(b) by {}
    assert forall|i: int| 0 <= i < inode.block_count implies after.disk.block(
        (#[trigger] inode.pointer(fs.disk, i))->0 as int,
    ) == fs.disk.block(inode.pointer(fs.disk, i)->0 as int) by {
        let c = inode.pointer(fs.disk, i)->0 as int;
        assert(mid.disk.has(c));
        assert(mid.disk.block(c) == fs.disk.block(c));
    }
    assert forall|c: int|
        fs.sb.bitmap_blocks < c <= u32::MAX && fs.disk.has(c) && apart(
            after,
            g.inode,
            c,
        ) implies #[trigger] after.disk.block(c) == fs.disk.block(c) by {
        assert(g.inode.pointer(after.disk, inode.block_count as int) != Some(c as u32));
        assert(mid.disk.has(c));
        assert(mid.disk.block(c) == fs.disk.block(c));
    }
    assert forall|i: int| 0 <= i < g.inode.block_count implies (#[trigger] g.inode.pointer(
        after.disk,
        i,
    )) is Some && owned(after, g.inode.pointer(after.disk, i)->0 as int) by {
        if i < inode.block_count {
            assert(owned(fs, inode.pointer(fs.disk, i)->0 as int));
        }
    }
    assert forall|i: int, j: int| 0 <= i < j < g.inode.block_count implies (
    #[trigger] g.inode.pointer(after.disk, i)) != (#[trigger] g.inode.pointer(after.disk, j)) by {
        assert(inode.pointer(fs.disk, i) != Some(b));
    }
    assert forall|c: int| fs.disk.has(c) implies #[trigger] after.disk.has(c) by {
        assert(mid.disk.has(c));
    }
    assert forall|c: int| 0 <= c < fs.sb.bitmap_blocks * BITS_PER_BLOCK implies #[trigger] is_set(
        after.disk,
        c,
    ) == (c == b || is_set(fs.disk, c)) by {
        assert(is_set(mid.disk, c) == (c == b || is_set(fs.disk, c)));
    }
    assert(!apart(after, g.inode, b as int)) by {
        assert(g.inode.pointer(after.disk, inode.block_count as int) == Some(b));
    }
}

/// Giving a file its eleventh block, and with it the indirect block, goes well.
proof fn lemma_grow_first_indirect(fs: FsView, inode: InodeView)
    requires
        sound(fs),
        inode_sound(fs, inode),
        inode.block_count == DIRECT_BLOCKS,
        allocated(fs.disk, fs.sb) is Some,
        allocated(after_allocation(fs).disk, after_allocation(fs).sb) is Some,
    ensures
        grows_well(fs, inode, grown_once(fs.disk, fs.sb, inode)),
        grown_once(fs.disk, fs.sb, inode).inode.block_count == inode.block_count + 1,
{
    broadcast use group_disk;

    lemma_allocation_keeps_sound(fs);
    let (d1, sb1, b) = allocated(fs.disk, fs.sb)->0;
    let one = after_allocation(fs);
    lemma_allocation_keeps_sound(one);
    let (d2, sb2, x) = allocated(d1, sb1)->0;
    let two = after_allocation(one);
    let list = first_indirect(b);
    lemma_write_keeps_sound(two, x as int, list);
    let three = with_write(two, x as int, list);
    let z = zeros(BLOCK_SIZE as nat);
    lemma_write_keeps_sound(three, b as int, z);
    let g = grown_once(fs.disk, fs.sb, inode);
    let after = grown_fs(g);
    assert(after == with_write(three, b as int, z));
    assert(is_set(one.disk, b as int));
    assert(x != b);
    assert(!is_set(fs.disk, x as int)) by {
        assert(is_set(one.disk, x as int) == (x == b || is_set(fs.disk, x as int)));
    }
    assert(owned(after, b as int)) by {
        assert(is_set(two.disk, b as int));
        assert(is_set(three.disk, b as int));
        assert(after.disk.has(b as int));
    }
    assert(owned(after, x as int)) by {
        assert(is_set(two.disk, x as int));
        assert(is_set(three.disk, x as int));
        assert(three.disk.has(x as int));
        assert(after.disk.has(x as int));
    }
    assert(after.disk.block(x as int) == list) by {
        assert(three.disk.has(x as int));
        assert(three.disk.block(x as int) == list);
    }
    assert(zeros(BLOCK_SIZE as nat).len() == BLOCK_SIZE);
    lemma_indirect_pointer(z, 0, b, 0);
    assert(g.inode.pointer(after.disk, 10) == Some(b)) by {
        assert(u16_at(list, 0) as u32 == b);
    }
    assert forall|i: int| 0 <= i < inode.block_count implies #[trigger] g.inode.pointer(
        after.disk,
        i,
    ) == inode.pointer(fs.disk, i) by {}
    assert forall|c: int| owned(fs, c) implies #[trigger] owned(after, c) by {
        assert(owned(one, c));
        assert(owned(two, c));
        assert(owned(three, c));
    }
    assert forall|i: int| 0 <= i < inode.block_count implies owned(
        fs,
        (#[trigger] inode.pointer(fs.disk, i))->0 as int,
    ) && inode.pointer(fs.disk, i) != Some(b) && inode.pointer(fs.disk, i) != Some(x) by {}
    assert forall|c: int| fs.disk.has(c) implies #[trigger] after.disk.has(c) by {
        assert(one.disk.has(c));
        assert(two.disk.has(c));
        assert(three.disk.has(c));
    }
    assert forall|c: int|
        fs.sb.bitmap_blocks < c && fs.disk.has(c) && c != b && c
            != x implies #[trigger] after.disk.block(c) == fs.disk.block(c) by {
        assert(one.disk.has(c));
        assert(one.disk.block(c) == fs.disk.block(c));
        assert(two.disk.has(c));
        assert(two.disk.block(c) == one.disk.block(c));
        assert(three.disk.has(c));
        assert(three.disk.block(c) == two.disk.block(c));
    }
    assert forall|i: int| 0 <= i < inode.block_count implies after.disk.block(
        (#[trigger] inode.pointer(fs.disk, i))->0 as int,
    ) == fs.disk.block(inode.pointer(fs.disk, i)->0 as int) by {}
    assert forall|c: int|
        fs.sb.bitmap_blocks < c <= u32::MAX && fs.disk.has(c) && apart(
            after,
            g.inode,
            c,
        ) implies #[trigger] after.disk.block(c) == fs.disk.block(c) by {
        assert(g.inode.pointer(after.disk, 10) != Some(c as u32));
    }
    assert forall|i: int| 0 <= i < g.inode.block_count implies (#[trigger] g.inode.pointer(
        after.disk,
        i,
    )) is Some && owned(after, g.inode.pointer(after.disk, i)->0 as int) by {
        if i < inode.block_count {
            assert(owned(fs, inode.pointer(fs.disk, i)->0 as int));
        }
    }
    assert forall|i: int, j: int| 0 <= i < j < g.inode.block_count implies (
    #[trigger] g.inode.pointer(after.disk, i)) != (#[trigger] g.inode.pointer(after.disk, j)) by {
        assert(inode.pointer(fs.disk, i) != Some(b));
    }
    assert forall|i: int| 0 <= i < g.inode.block_count implies (#[trigger] g.inode.pointer(
        after.disk,
        i,
    )) != Some(g.inode.indirect_block) by {
        if i < inode.block_count {
            assert(inode.pointer(fs.disk, i) != Some(x));
        }
    }
    assert forall|c: int| 0 <= c < fs.sb.bitmap_blocks * BITS_PER_BLOCK implies #[trigger] is_set(
        after.disk,
        c,
    ) == (c == b || c == x || is_set(fs.disk, c)) by {
        assert(is_set(one.disk, c) == (c == b || is_set(fs.disk, c)));
        assert(is_set(two.disk, c) == (c == x || is_set(one.disk, c)));
        assert(is_set(three.disk, c) == is_set(two.disk, c));
    }
    assert(!apart(after, g.inode, b as int)) by {
        assert(g.inode.pointer(after.disk, 10) == Some(b));
    }
}

/// Giving a file a further block, listed in the indirect block, goes well.
proof fn lemma_grow_indirect(fs: FsView, inode: InodeView)
    requires
        sound(fs),
        inode_sound(fs, inode),
        DIRECT_BLOCKS < inode.block_count < MAX_FILE_BLOCKS,
        allocated(fs.disk, fs.sb) is Some,
    ensures
        grows_well(fs, inode, grown_once(fs.disk, fs.sb, inode)),
        grown_once(fs.disk, fs.sb, inode).inode.block_count == inode.block_count + 1,
{
    broadcast use group_disk;

    lemma_allocation_keeps_sound(fs);
    let (d1, sb1, b) = allocated(fs.disk, fs.sb)->0;
    let one = after_allocation(fs);
    let x = inode.indirect_block;
    let k = inode.block_count - DIRECT_BLOCKS;
    assert(owned(fs, x as int));
    assert(one.disk.has(x as int));
    assert(one.disk.block(x as int) == fs.disk.block(x as int));
    let list = splice(fs.disk.block(x as int), 2 * k, u16_le(b as u16));
    let two = with_write(one, x as int, list);
    lemma_write_keeps_sound(one, x as int, list);
    let z = zeros(BLOCK_SIZE as nat);
    lemma_write_keeps_sound(two, b as int, z);
    let g = grown_once(fs.disk, fs.sb, inode);
    let after = grown_fs(g);
    assert(after == with_write(two, b as int, z));
    assert(b != x);
    assert(owned(after, b as int)) by {
        assert(is_set(one.disk, b as int));
        assert(is_set(two.disk, b as int));
        assert(after.disk.has(b as int));
    }
    assert forall|c: int| owned(fs, c) implies #[trigger] owned(after, c) by {
        assert(owned(one, c));
        assert(owned(two, c));
    }
    assert(after.disk.block(x as int) == list) by {
        assert(two.disk.has(x as int));
        assert(two.disk.block(x as int) == list);
    }
    assert forall|i: int| 0 <= i <= inode.block_count implies #[trigger] g.inode.pointer(
        after.disk,
        i,
    ) == if i == inode.block_count {
        Some(b)
    } else {
        inode.pointer(fs.disk, i)
    } by {
        if i >= DIRECT_BLOCKS {
            lemma_indirect_pointer(fs.disk.block(x as int), k, b, i - DIRECT_BLOCKS);
        }
    }
    assert forall|i: int| 0 <= i < inode.block_count implies owned(
        fs,
        (#[trigger] inode.pointer(fs.disk, i))->0 as int,
    ) && inode.pointer(fs.disk, i) != Some(b) && inode.pointer(fs.disk, i) != Some(x) by {}
    assert forall|c: int| fs.disk.has(c) implies #[trigger] after.disk.has(c) by {
        assert(one.disk.has(c));
        assert(two.disk.has(c));
    }
    assert forall|c: int|
        fs.sb.bitmap_blocks < c && fs.disk.has(c) && c != b && c
            != x implies #[trigger] after.disk.block(c) == fs.disk.block(c) by {
        assert(one.disk.has(c));
        assert(one.disk.block(c) == fs.disk.block(c));
        assert(two.disk.has(c));
        assert(two.disk.block(c) == one.disk.block(c));
    }
    assert forall|i: int| 0 <= i < inode.block_count implies after.disk.block(
        (#[trigger] inode.pointer(fs.disk, i))->0 as int,
    ) == fs.disk.block(inode.pointer(fs.disk, i)->0 as int) by {}
    assert forall|c: int|
        fs.sb.bitmap_blocks < c <= u32::MAX && fs.disk.has(c) && apart(
            after,
            g.inode,
            c,
        ) implies #[trigger] after.disk.block(c) == fs.disk.block(c) by {
        assert(g.inode.pointer(after.disk, inode.block_count as int) != Some(c as u32));
    }
    assert forall|i: int| 0 <= i < g.inode.block_count implies (#[trigger] g.inode.pointer(
        after.disk,
        i,
    )) is Some && owned(after, g.inode.pointer(after.disk, i)->0 as int) by {
        if i < inode.block_count {
            assert(owned(fs, inode.pointer(fs.disk, i)->0 as int));
        }
    }
    assert forall|i: int, j: int| 0 <= i < j < g.inode.block_count implies (
    #[trigger] g.inode.pointer(after.disk, i)) != (#[trigger] g.inode.pointer(after.disk, j)) by {
        assert(inode.pointer(fs.disk, i) != Some(b));
        if j < inode.block_count {
            assert(inode.pointer(fs.disk, i) != inode.pointer(fs.disk, j));
        }
    }
    assert forall|i: int| 0 <= i < g.inode.block_count implies (#[trigger] g.inode.pointer(
        after.disk,
        i,
    )) != Some(g.inode.indirect_block) by {
        if i < inode.block_count {
            assert(inode.pointer(fs.disk, i) != Some(x));
        }
    }
    assert forall|c: int| 0 <= c < fs.sb.bitmap_blocks * BITS_PER_BLOCK implies #[trigger] is_set(
        after.disk,
        c,
    ) == (c == b || is_set(fs.disk, c)) by {
        assert(is_set(one.disk, c) == (c == b || is_set(fs.disk, c)));
        assert(is_set(two.disk, c) == is_set(one.disk, c));
    }
    assert(!apart(after, g.inode, b as int)) by {
        assert(g.inode.pointer(after.disk, inode.block_count as int) == Some(b));
    }
}

/// Two growths, one after the other, are a growth.
proof fn lemma_grows_well_twice(fs: FsView, inode: InodeView, g1: Growth, g2: Growth)
    requires
        sound(fs),
        inode_sound(fs, inode),
        grows_well(fs, inode, g1),
        grows_well(grown_fs(g1), g1.inode, g2),
    ensures
        grows_well(fs, inode, g2),
{
    let one = grown_fs(g1);
    let two = grown_fs(g2);
    assert forall|i: int| 0 <= i < inode.block_count implies #[trigger] g2.inode.pointer(
        two.disk,
        i,
    ) == inode.pointer(fs.disk, i) by {
        assert(g1.inode.pointer(one.disk, i) == inode.pointer(fs.disk, i));
    }
    assert forall|i: int| 0 <= i < inode.block_count implies two.disk.block(
        (#[trigger] inode.pointer(fs.disk, i))->0 as int,
    ) == fs.disk.block(inode.pointer(fs.disk, i)->0 as int) by {
        assert(g1.inode.pointer(one.disk, i) == inode.pointer(fs.disk, i));
    }
    assert forall|i: int| inode.block_count <= i < g2.inode.block_count implies {
        let b = (#[trigger] g2.inode.pointer(two.disk, i))->0 as int;
        !is_set(fs.disk, b) && two.disk.block(b) == zeros(BLOCK_SIZE as nat)
    } by {
        let b = g2.inode.pointer(two.disk, i)->0 as int;
        assert(owned(two, b));
        if i < g1.inode.block_count {
            assert(g1.inode.pointer(one.disk, i) == g2.inode.pointer(two.disk, i));
        } else if is_set(fs.disk, b) {
            assert(is_set(one.disk, b));
        }
    }
    assert forall|c: int| apart(two, g2.inode, c) implies apart(one, g1.inode, c) by {
        assert forall|i: int| 0 <= i < g1.inode.block_count implies (#[trigger] g1.inode.pointer(
            one.disk,
            i,
        )) != Some(c as u32) by {
            assert(g2.inode.pointer(two.disk, i) == g1.inode.pointer(one.disk, i));
        }
    }
    assert forall|c: int|
        fs.sb.bitmap_blocks < c <= u32::MAX && fs.disk.has(c) && apart(
            two,
            g2.inode,
            c,
        ) implies #[trigger] two.disk.block(c) == fs.disk.block(c) by {
        assert(one.disk.has(c));
        assert(one.disk.block(c) == fs.disk.block(c));
    }
    assert forall|c: int| fs.disk.has(c) implies #[trigger] two.disk.has(c) by {
        assert(one.disk.has(c));
    }
    assert forall|c: int| owned(fs, c) implies #[trigger] owned(two, c) by {
        assert(owned(one, c));
    }
    assert forall|c: int|
        0 <= c < fs.sb.bitmap_blocks * BITS_PER_BLOCK && is_set(
            fs.disk,
            c,
        ) implies #[trigger] is_set(two.disk, c) by {
        assert(is_set(one.disk, c));
    }
    assert forall|c: int|
        0 <= c < fs.sb.bitmap_blocks * BITS_PER_BLOCK && #[trigger] is_set(
            two.disk,
            c,
        ) implies is_set(fs.disk, c) || !apart(two, g2.inode, c) by {
        if !(is_set(one.disk, c)) {
            assert(!apart(two, g2.inode, c));
        } else if !is_set(fs.disk, c) {
            assert(!apart(one, g1.inode, c));
        }
    }
    if g2.inode.indirect_block != inode.indirect_block {
        let x = g2.inode.indirect_block as int;
        assert(g2.inode.block_count > DIRECT_BLOCKS);
        assert(owned(two, x));
        if g2.inode.indirect_block != g1.inode.indirect_block && is_set(fs.disk, x) {
            assert(is_set(one.disk, x));
        }
    }
}

/// Growing a file by any number of blocks goes well, whether or not the blocks run out.
pub proof fn lemma_grown(fs: FsView, inode: InodeView, n: u16)
    requires
        sound(fs),
        inode_sound(fs, inode),
        n <= MAX_FILE_BLOCKS,
        growable(fs.disk, fs.sb, inode, n),
    ensures
        grows_well(fs, inode, grown(fs.disk, fs.sb, inode, n)),
        grown(fs.disk, fs.sb, inode, n).done ==> grown(fs.disk, fs.sb, inode, n).inode.block_count
            == if inode.block_count >= n {
            inode.block_count
        } else {
            n
        },
    decreases n - inode.block_count,
{
    if inode.block_count < n && allocated(fs.disk, fs.sb) is Some {
        let g1 = grown_once(fs.disk, fs.sb, inode);
        if inode.block_count < DIRECT_BLOCKS {
            lemma_grow_direct(fs, inode);
        } else if inode.block_count == DIRECT_BLOCKS {
            lemma_grow_first_indirect(fs, inode);
        } else {
            lemma_grow_indirect(fs, inode);
        }
        lemma_grown(grown_fs(g1), g1.inode, n);
        lemma_grows_well_twice(fs, inode, g1, grown(fs.disk, fs.sb, inode, n));
    }
}

/// Writing `data` at position `p` of the file of `inode`, from `fs` to `after`, keeps everything
/// sound, changes the bytes of the file from `p` on to `data` and no others, and changes no block
/// but those of the file.
pub open spec fn stores_well(
    fs: FsView,
    inode: InodeView,
    p: int,
    data: Seq<u8>,
    after: FsView,
) -> bool {
    &&& sound(after)
    &&& inode_sound(after, inode)
    &&& after.sb == fs.sb
    &&& forall|i: int|
        0 <= i < inode.block_count ==> #[trigger] inode.pointer(after.disk, i) == inode.pointer(
            fs.disk,
            i,
        )
    &&& forall|q: int|
        0 <= q < inode.block_count * PAGE_SIZE ==> #[trigger] file_byte(after.disk, inode, q)
            == if p <= q < p + data.len() {
            Some(data[q - p])
        } else {
            file_byte(fs.disk, inode, q)
        }
    &&& forall|c: int| fs.disk.has(c) ==> #[trigger] after.disk.has(c)
    &&& forall|c: int| owned(fs, c) ==> #[trigger] owned(after, c)
    &&& forall|c: int|
        0 <= c < fs.sb.bitmap_blocks * BITS_PER_BLOCK ==> #[trigger] is_set(after.disk, c)
            == is_set(fs.disk, c)
    &&& forall|c: int|
        fs.sb.bitmap_blocks < c <= u32::MAX && fs.disk.has(c) && apart(fs, inode, c)
            ==> #[trigger] after.disk.block(c) == fs.disk.block(c)
}

proof fn lemma_chunk_stored(fs: FsView, inode: InodeView, p: int, data: Seq<u8>)
    requires
        sound(fs),
        inode_sound(fs, inode),
        0 <= p,
        data.len() > 0,
        p + data.len() <= inode.block_count * PAGE_SIZE,
    ensures
        ({
            let n = chunk(p, data.len() as int);
            &&& 0 < n <= data.len()
            &&& block_readable(fs.disk, inode, p / (PAGE_SIZE as int))
            &&& inode.pointer(fs.disk, p / (PAGE_SIZE as int)) is Some
            &&& stores_well(
                fs,
                inode,
                p,
                data.subrange(0, n),
                FsView { disk: chunk_stored(fs.disk, inode, p, data), sb: fs.sb },
            )
        }),
{
    broadcast use group_disk;

    let n = chunk(p, data.len() as int);
    let part = data.subrange(0, n);
    let i0 = p / (PAGE_SIZE as int);
    let o = p % (PAGE_SIZE as int);
    assert(0 <= i0 < inode.block_count);
    assert(inode.pointer(fs.disk, i0) is Some);
    let b = inode.pointer(fs.disk, i0)->0 as int;
    assert(owned(fs, b));
    let bytes = splice(fs.disk.block(b), o, part);
    let after = with_write(fs, b, bytes);
    assert(after.disk == chunk_stored(fs.disk, inode, p, data));
    if inode.block_count > DIRECT_BLOCKS {
        assert(owned(fs, inode.indirect_block as int));
    }
    lemma_write_keeps_sound(fs, b, bytes);
    lemma_write_keeps_inode(fs, b, bytes, inode);
    assert forall|q: int| 0 <= q < inode.block_count * PAGE_SIZE implies #[trigger] file_byte(
        after.disk,
        inode,
        q,
    ) == if p <= q < p + part.len() {
        Some(part[q - p])
    } else {
        file_byte(fs.disk, inode, q)
    } by {
        let i = q / (PAGE_SIZE as int);
        let k = q % (PAGE_SIZE as int);
        assert(0 <= i < inode.block_count);
        assert(inode.pointer(after.disk, i) == inode.pointer(fs.disk, i));
        let c = inode.pointer(fs.disk, i)->0 as int;
        assert(owned(fs, c));
        if i == i0 {
            assert(after.disk.block(c)[k] == bytes[k]);
        } else {
            assert(inode.pointer(fs.disk, i) != inode.pointer(fs.disk, i0));
            assert(after.disk.block(c) == fs.disk.block(c));
        }
    }
}

/// Writing data at a position of a file that has the blocks for it goes well, and every block that
/// it goes to is there.
pub proof fn lemma_stored(fs: FsView, inode: InodeView, p: int, data: Seq<u8>)
    requires
        sound(fs),
        inode_sound(fs, inode),
        0 <= p,
        p + data.len() <= inode.block_count * PAGE_SIZE,
    ensures
        storable(fs.disk, inode, p, data),
        stores_well(
            fs,
            inode,
            p,
            data,
            FsView { disk: stored(fs.disk, inode, p, data), sb: fs.sb },
        ),
    decreases data.len(),
{
    if data.len() > 0 {
        lemma_chunk_stored(fs, inode, p, data);
        let n = chunk(p, data.len() as int);
        let part = data.subrange(0, n);
        let rest = data.subrange(n, data.len() as int);
        let one = FsView { disk: chunk_stored(fs.disk, inode, p, data), sb: fs.sb };
        lemma_stored(one, inode, p + n, rest);
        let two = FsView { disk: stored(fs.disk, inode, p, data), sb: fs.sb };
        assert forall|q: int| 0 <= q < inode.block_count * PAGE_SIZE implies #[trigger] file_byte(
            two.disk,
            inode,
            q,
        ) == if p <= q < p + data.len() {
            Some(data[q - p])
        } else {
            file_byte(fs.disk, inode, q)
        } by {
            assert(file_byte(one.disk, inode, q) == if p <= q < p + part.len() {
                Some(part[q - p])
            } else {
                file_byte(fs.disk, inode, q)
            });
        }
        assert forall|i: int| 0 <= i < inode.block_count implies #[trigger] inode.pointer(
            two.disk,
            i,
        ) == inode.pointer(fs.disk, i) by {
            assert(inode.pointer(one.disk, i) == inode.pointer(fs.disk, i));
        }
        assert forall|c: int| fs.disk.has(c) implies #[trigger] two.disk.has(c) by {
            assert(one.disk.has(c));
        }
        assert forall|c: int| owned(fs, c) implies #[trigger] owned(two, c) by {
            assert(owned(one, c));
        }
        assert forall|c: int|
            0 <= c < fs.sb.bitmap_blocks * BITS_PER_BLOCK implies #[trigger] is_set(two.disk, c)
            == is_set(fs.disk, c) by {
            assert(is_set(one.disk, c) == is_set(fs.disk, c));
        }
        assert forall|c: int|
            fs.sb.bitmap_blocks < c <= u32::MAX && fs.disk.has(c) && apart(
                fs,
                inode,
                c,
            ) implies #[trigger] two.disk.block(c) == fs.disk.block(c) by {
            assert(apart(one, inode, c)) by {
                assert forall|i: int| 0 <= i < inode.block_count implies (
                #[trigger] inode.pointer(one.disk, i)) != Some(c as u32) by {
                    assert(inode.pointer(one.disk, i) == inode.pointer(fs.disk, i));
                }
            }
            assert(one.disk.has(c));
            assert(one.disk.block(c) == fs.disk.block(c));
        }
    }
}

/// The growth that a write of `data` at `offset` of inode `ino` needs.
pub open spec fn growth_for(fs: FsView, ino: u32, offset: int, data: Seq<u8>) -> Growth {
    grown(fs.disk, fs.sb, fs.inode(ino), blocks_wanted(offset, data.len() as int) as u16)
}

/// A write that can be carried out, and for which there are enough blocks, goes no further than the
/// blocks that the file then has.
proof fn lemma_write_fits(fs: FsView, ino: u32, offset: int, data: Seq<u8>)
    requires
        sound(fs),
        inode_sound(fs, fs.inode(ino)),
        writable(fs, ino, offset, data),
        data.len() > 0,
        !too_big(offset, data.len() as int),
        growth_for(fs, ino, offset, data).done,
    ensures
        ({
            let g = growth_for(fs, ino, offset, data);
            let p = position(offset);
            let end = (unsigned(offset) + data.len()) % 0x1_0000_0000_0000_0000;
            &&& 0 <= p
            &&& p + data.len() <= MAX_FILE_SIZE
            &&& p + data.len() <= g.inode.block_count * PAGE_SIZE
            &&& end == unsigned(offset) + data.len()
            &&& end >= p + data.len()
            &&& end % 0x1_0000_0000 == p + data.len()
        }),
{
    let g = growth_for(fs, ino, offset, data);
    let n = blocks_wanted(offset, data.len() as int);
    lemma_grown(fs, fs.inode(ino), n as u16);
    lemma_storable_fits(g.disk, g.inode, position(offset), data);
    lemma_position(offset, data.len() as int);
    assert(n <= g.inode.block_count);
}

/// A read of what a write has put into a file gives the data written; every other byte of the
/// blocks that the file had is as it was, and every other byte of its new blocks is zero. The file
/// gets longer if the data goes past its end, and stays sound.
///
/// The data goes to the byte that the offset stands for. That is the offset itself, unless it is
/// negative or so large that its lower bits alone count; the file then ends with the data.
pub proof fn law_write_then_read(fs: FsView, ino: u32, offset: int, data: Seq<u8>, now: i64)
    requires
        sound(fs),
        inode_sound(fs, fs.inode(ino)),
        writable(fs, ino, offset, data),
        data.len() > 0,
        file_written(fs, ino, offset, data, now).1 is Ok,
        in_table(fs.sb, ino),
    ensures
        ({
            let after = file_written(fs, ino, offset, data, now).0;
            let old_inode = fs.inode(ino);
            let new_inode = after.inode(ino);
            let p = position(offset);
            &&& sound(after)
            &&& inode_sound(after, new_inode)
            &&& 0 <= offset <= u32::MAX ==> p == offset
            &&& new_inode.size == if unsigned(offset) + data.len() > old_inode.size {
                p + data.len()
            } else {
                old_inode.size as int
            }
            &&& new_inode.mtime == now
            &&& new_inode.mode == old_inode.mode
            &&& new_inode.nlink == old_inode.nlink
            &&& readable(after, ino, p, data.len() as int)
            &&& bytes_read(after, ino, p, data.len() as int) == data
            &&& forall|q: int|
                0 <= q < new_inode.block_count * PAGE_SIZE ==> #[trigger] file_byte(
                    after.disk,
                    new_inode,
                    q,
                ) == if p <= q < p + data.len() {
                    Some(data[q - p])
                } else if q < old_inode.block_count * PAGE_SIZE {
                    file_byte(fs.disk, old_inode, q)
                } else {
                    Some(0u8)
                }
        }),
{
    broadcast use group_disk;

    let n = blocks_wanted(offset, data.len() as int) as u16;
    let p = position(offset);
    let old_inode = fs.inode(ino);
    let g = growth_for(fs, ino, offset, data);
    let mid = grown_fs(g);
    let b = inode_block(fs.sb, ino);
    lemma_grown(fs, old_inode, n);
    lemma_write_fits(fs, ino, offset, data);
    lemma_stored(mid, g.inode, position(offset), data);
    let late = FsView { disk: stored(mid.disk, g.inode, position(offset), data), sb: mid.sb };
    let new_inode = inode_after_write(g.inode, offset, data.len() as int, now);
    let after = file_written(fs, ino, offset, data, now).0;
    assert(after.disk == inode_written(late.disk, late.sb, new_inode));
    assert(fs.disk.has(b));
    assert(mid.disk.has(b));
    assert(late.disk.has(b));
    lemma_inode_round_trip(new_inode);
    let bytes = splice(late.disk.block(b), inode_offset(ino), new_inode.encoded());
    assert(after == with_write(late, b, bytes));
    lemma_inode_read_back(late.disk, late.sb, new_inode, ino);
    assert(after.inode(ino) == new_inode);
    if 0 <= offset <= u32::MAX {
        lemma_small_offset(offset);
    }
    assert(inode_sound(late, new_inode)) by {
        lemma_same_blocks_sound(late, g.inode, new_inode);
    }
    lemma_table(late, new_inode, ino);
    lemma_write_keeps_sound(late, b, bytes);
    lemma_write_keeps_inode(late, b, bytes, new_inode);
    assert forall|q: int| 0 <= q < new_inode.block_count * PAGE_SIZE implies #[trigger] file_byte(
        after.disk,
        new_inode,
        q,
    ) == if p <= q < p + data.len() {
        Some(data[q - p])
    } else if q < old_inode.block_count * PAGE_SIZE {
        file_byte(fs.disk, old_inode, q)
    } else {
        Some(0u8)
    } by {
        let i = q / (PAGE_SIZE as int);
        assert(0 <= i < new_inode.block_count);
        assert(new_inode.pointer(after.disk, i) == new_inode.pointer(late.disk, i));
        assert(new_inode.pointer(late.disk, i) == g.inode.pointer(late.disk, i));
        let c = new_inode.pointer(late.disk, i)->0 as int;
        assert(owned(late, c));
        assert(c != b);
        assert(after.disk.block(c) == late.disk.block(c));
        assert(file_byte(after.disk, new_inode, q) == file_byte(late.disk, g.inode, q));
        if !(p <= q < p + data.len()) {
            assert(file_byte(late.disk, g.inode, q) == file_byte(mid.disk, g.inode, q));
            assert(g.inode.pointer(mid.disk, i) is Some);
            if i < old_inode.block_count {
                assert(old_inode.pointer(fs.disk, i) == g.inode.pointer(mid.disk, i));
            }
        }
    }
    assert(after.disk.has(b));
    assert(bytes_at(after, new_inode, p, data)) by {
        assert forall|k: int| 0 <= k < data.len() implies file_byte(after.disk, new_inode, p + k)
            == Some(#[trigger] data[k]) by {}
    }
    lemma_data_read_back(after, ino, p, data);
}

/// The bytes of the file of `inode` from `p` on are those of `data`.
spec fn bytes_at(fs: FsView, inode: InodeView, p: int, data: Seq<u8>) -> bool {
    forall|k: int|
        0 <= k < data.len() ==> file_byte(fs.disk, inode, p + k) == Some(#[trigger] data[k])
}

/// A read of a sound file gives its bytes.
proof fn lemma_data_read_back(fs: FsView, ino: u32, p: int, data: Seq<u8>)
    requires
        fs.has_inode(ino),
        inode_sound(fs, fs.inode(ino)),
        0 <= p,
        p + data.len() <= fs.inode(ino).size,
        bytes_at(fs, fs.inode(ino), p, data),
    ensures
        readable(fs, ino, p, data.len() as int),
        bytes_read(fs, ino, p, data.len() as int) == data,
{
    let inode = fs.inode(ino);
    law_sound_file_readable(fs, ino, p, data.len() as int);
    lemma_small_offset(p);
    if data.len() > 0 {
        assert(read_len(inode, p, data.len() as int) == data.len());
    }
    lemma_file_bytes(fs.disk, inode, p, p + data.len(), data);
}

/// Whether the blocks of an inode are sound depends on its block index and its size alone.
proof fn lemma_same_blocks_sound(fs: FsView, a: InodeView, b: InodeView)
    requires
        inode_sound(fs, a),
        b == (InodeView { size: b.size, mtime: b.mtime, atime: b.atime, ..a }),
        b.size <= b.block_count * PAGE_SIZE,
    ensures
        inode_sound(fs, b),
{
    assert forall|i: int| #[trigger] b.pointer(fs.disk, i) == a.pointer(fs.disk, i) by {}
    assert forall|i: int| 0 <= i < b.block_count implies (#[trigger] b.pointer(fs.disk, i)) is Some
        && owned(fs, b.pointer(fs.disk, i)->0 as int) by {
        assert(a.pointer(fs.disk, i) is Some);
    }
    assert forall|i: int, j: int| 0 <= i < j < b.block_count implies (#[trigger] b.pointer(
        fs.disk,
        i,
    )) != (#[trigger] b.pointer(fs.disk, j)) by {
        assert(a.pointer(fs.disk, i) != a.pointer(fs.disk, j));
    }
    assert forall|i: int|
        0 <= i < b.block_count && b.block_count > DIRECT_BLOCKS implies (#[trigger] b.pointer(
        fs.disk,
        i,
    )) != Some(b.indirect_block) by {
        assert(a.pointer(fs.disk, i) != Some(a.indirect_block));
    }
}

/// The bytes that lie between the end of the file and the end of its last block are zero.
pub open spec fn zero_tail(fs: FsView, inode: InodeView) -> bool {
    forall|q: int|
        inode.size <= q < inode.block_count * PAGE_SIZE ==> #[trigger] file_byte(
            fs.disk,
            inode,
            q,
        ) == Some(0u8)
}

/// A gap that a write leaves behind the old end of the file is filled with zeros, if there were
/// only zeros behind that end. There are then only zeros behind the new end. A new file has nothing
/// there.
///
/// This holds for offsets that a file can reach.
pub proof fn law_gap_is_zero(fs: FsView, ino: u32, offset: int, data: Seq<u8>, now: i64)
    requires
        sound(fs),
        inode_sound(fs, fs.inode(ino)),
        zero_tail(fs, fs.inode(ino)),
        writable(fs, ino, offset, data),
        data.len() > 0,
        file_written(fs, ino, offset, data, now).1 is Ok,
        0 <= offset <= MAX_FILE_SIZE,
        in_table(fs.sb, ino),
    ensures
        zero_tail(fs, new_file_inode(ino, now)),
        ({
            let after = file_written(fs, ino, offset, data, now).0;
            &&& zero_tail(after, after.inode(ino))
            &&& forall|q: int|
                fs.inode(ino).size <= q < offset ==> #[trigger] file_byte(
                    after.disk,
                    after.inode(ino),
                    q,
                ) == Some(0u8)
        }),
{
    law_write_then_read(fs, ino, offset, data, now);
    lemma_small_offset(offset);
    let after = file_written(fs, ino, offset, data, now).0;
    let old_inode = fs.inode(ino);
    let new_inode = after.inode(ino);
    assert forall|q: int|
        old_inode.size <= q < new_inode.block_count * PAGE_SIZE && !(offset <= q < offset
            + data.len()) implies #[trigger] file_byte(after.disk, new_inode, q) == Some(0u8) by {
        if q < old_inode.block_count * PAGE_SIZE {
            assert(file_byte(fs.disk, old_inode, q) == Some(0u8));
        }
    }
}

/// No block of `b` is a block of `a`.
pub open spec fn disjoint(fs: FsView, a: InodeView, b: InodeView) -> bool {
    &&& forall|i: int|
        0 <= i < b.block_count ==> apart(fs, a, (#[trigger] b.pointer(fs.disk, i))->0 as int)
    &&& b.block_count > DIRECT_BLOCKS ==> apart(fs, a, b.indirect_block as int)
}

/// A write changes no block behind the bitmap but those that the file has afterwards and the one
/// that holds its inode, and takes no block away from the disk or from whoever has it.
pub proof fn lemma_write_leaves_blocks(fs: FsView, ino: u32, offset: int, data: Seq<u8>, now: i64)
    requires
        sound(fs),
        inode_sound(fs, fs.inode(ino)),
        writable(fs, ino, offset, data),
    ensures
        ({
            let after = file_written(fs, ino, offset, data, now).0;
            let g = growth_for(fs, ino, offset, data);
            &&& sound(after)
            &&& after.sb == fs.sb.with_free(after.sb.free_blocks as int)
            &&& forall|c: int| fs.disk.has(c) ==> #[trigger] after.disk.has(c)
            &&& forall|c: int| owned(fs, c) ==> #[trigger] owned(after, c)
            &&& forall|c: int|
                fs.sb.bitmap_blocks < c <= u32::MAX && fs.disk.has(c) && apart(
                    grown_fs(g),
                    g.inode,
                    c,
                ) && c != inode_block(fs.sb, ino) ==> #[trigger] after.disk.block(c)
                    == fs.disk.block(c)
            &&& data.len() > 0 && !too_big(offset, data.len() as int) ==> forall|c: int|
                0 <= c < fs.sb.bitmap_blocks * BITS_PER_BLOCK ==> #[trigger] is_set(after.disk, c)
                    == is_set(grown_fs(g).disk, c)
        }),
{
    broadcast use group_disk;

    let after = file_written(fs, ino, offset, data, now).0;
    let g = growth_for(fs, ino, offset, data);
    let mid = grown_fs(g);
    if data.len() > 0 && !too_big(offset, data.len() as int) {
        lemma_grown(fs, fs.inode(ino), blocks_wanted(offset, data.len() as int) as u16);
        if g.done {
            lemma_write_fits(fs, ino, offset, data);
            lemma_stored(mid, g.inode, position(offset), data);
            let late = FsView { disk: stored(mid.disk, g.inode, position(offset), data), sb: mid.sb };
            let new_inode = inode_after_write(g.inode, offset, data.len() as int, now);
            let b = inode_block(fs.sb, ino);
            let bytes = splice(late.disk.block(b), inode_offset(ino), new_inode.encoded());
            assert(mid.disk.has(b));
            assert(late.disk.has(b));
            lemma_inode_round_trip(new_inode);
            assert(after == with_write(late, b, bytes));
            lemma_write_keeps_sound(late, b, bytes);
            assert forall|c: int|
                0 <= c < fs.sb.bitmap_blocks * BITS_PER_BLOCK implies #[trigger] is_set(
                after.disk,
                c,
            ) == is_set(mid.disk, c) by {
                assert(is_set(late.disk, c) == is_set(mid.disk, c));
            }
            assert forall|c: int| fs.disk.has(c) implies #[trigger] after.disk.has(c) by {
                assert(mid.disk.has(c));
                assert(late.disk.has(c));
            }
            assert forall|c: int| owned(fs, c) implies #[trigger] owned(after, c) by {
                assert(owned(mid, c));
                assert(owned(late, c));
            }
            assert forall|c: int|
                fs.sb.bitmap_blocks < c <= u32::MAX && fs.disk.has(c) && apart(mid, g.inode, c) && c
                    != b implies #[trigger] after.disk.block(c) == fs.disk.block(c) by {
                assert(mid.disk.has(c));
                assert(mid.disk.block(c) == fs.disk.block(c));
                assert(late.disk.has(c));
                assert(late.disk.block(c) == mid.disk.block(c));
            }
        }
    }
}

/// A block that is marked as allocated and is none of the blocks of a file is none of them after
/// the file has grown either.
proof fn lemma_grown_stays_apart(fs: FsView, inode: InodeView, g: Growth, c: int)
    requires
        inode_sound(fs, inode),
        grows_well(fs, inode, g),
        apart(fs, inode, c),
        owned(fs, c),
    ensures
        apart(grown_fs(g), g.inode, c),
{
    let after = grown_fs(g);
    assert forall|i: int| 0 <= i < g.inode.block_count implies (#[trigger] g.inode.pointer(
        after.disk,
        i,
    )) != Some(c as u32) by {
        if i < inode.block_count {
            assert(inode.pointer(fs.disk, i) != Some(c as u32));
        } else {
            assert(!is_set(fs.disk, g.inode.pointer(after.disk, i)->0 as int));
        }
    }
}

/// Bytes of a file that have not changed read the same.
pub proof fn lemma_same_file_bytes(
    d1: DiskView,
    inode1: InodeView,
    d2: DiskView,
    inode2: InodeView,
    p: int,
    end: int,
)
    requires
        forall|q: int|
            p <= q < end ==> #[trigger] file_byte(d1, inode1, q) == file_byte(d2, inode2, q),
    ensures
        file_bytes(d1, inode1, p, end) == file_bytes(d2, inode2, p, end),
    decreases end - p,
{
    if p < end {
        assert(file_byte(d1, inode1, p) == file_byte(d2, inode2, p));
        lemma_same_file_bytes(d1, inode1, d2, inode2, p + 1, end);
    }
}

/// A file whose growth came to nothing is as sound as before, with the blocks that it had.
proof fn lemma_growth_given_up(fs: FsView, inode: InodeView, g: Growth)
    requires
        inode_sound(fs, inode),
        grows_well(fs, inode, g),
    ensures
        inode_sound(grown_fs(g), inode),
        forall|i: int|
            0 <= i < inode.block_count ==> #[trigger] inode.pointer(g.disk, i) == inode.pointer(
                fs.disk,
                i,
            ),
{
    let after = grown_fs(g);
    assert forall|i: int| 0 <= i < inode.block_count implies #[trigger] inode.pointer(
        after.disk,
        i,
    ) == inode.pointer(fs.disk, i) by {
        assert(g.inode.pointer(after.disk, i) == inode.pointer(fs.disk, i));
    }
    assert forall|i: int| 0 <= i < inode.block_count implies (#[trigger] inode.pointer(
        after.disk,
        i,
    )) is Some && owned(after, inode.pointer(after.disk, i)->0 as int) by {
        assert(inode.pointer(fs.disk, i) is Some);
        assert(owned(fs, inode.pointer(fs.disk, i)->0 as int));
    }
    assert forall|i: int, j: int| 0 <= i < j < inode.block_count implies (#[trigger] inode.pointer(
        after.disk,
        i,
    )) != (#[trigger] inode.pointer(after.disk, j)) by {
        assert(inode.pointer(fs.disk, i) != inode.pointer(fs.disk, j));
    }
    if inode.block_count > DIRECT_BLOCKS {
        assert(owned(fs, inode.indirect_block as int));
        assert forall|i: int| 0 <= i < inode.block_count implies (#[trigger] inode.pointer(
            after.disk,
            i,
        )) != Some(inode.indirect_block) by {
            assert(inode.pointer(fs.disk, i) != Some(inode.indirect_block));
        }
    }
}

/// A write, whether it succeeds or not, leaves a sound file under the inode. The file has no blocks
/// but those that it had and blocks that were free. No other block in use, and no other inode of
/// the table, changes.
pub proof fn lemma_write_effect(fs: FsView, ino: u32, offset: int, data: Seq<u8>, now: i64)
    requires
        sound(fs),
        in_table(fs.sb, ino),
        inode_sound(fs, fs.inode(ino)),
        writable(fs, ino, offset, data),
    ensures
        ({
            let after = file_written(fs, ino, offset, data, now).0;
            &&& sound(after)
            &&& after.sb == fs.sb.with_free(after.sb.free_blocks as int)
            &&& inode_sound(after, after.inode(ino))
            &&& after.inode(ino).mode == fs.inode(ino).mode
            &&& after.inode(ino).nlink == fs.inode(ino).nlink
            &&& forall|c: int|
                0 <= c <= u32::MAX && !(#[trigger] apart(after, after.inode(ino), c)) ==> !apart(
                    fs,
                    fs.inode(ino),
                    c,
                ) || !is_set(fs.disk, c)
            &&& forall|c: int| owned(fs, c) ==> #[trigger] owned(after, c)
            &&& forall|c: int|
                owned(fs, c) && apart(fs, fs.inode(ino), c) ==> #[trigger] after.disk.block(c)
                    == fs.disk.block(c)
            &&& forall|m: u32|
                m != ino && in_table(fs.sb, m) ==> #[trigger] after.inode(m) == fs.inode(m)
            &&& forall|c: int|
                0 <= c < fs.sb.bitmap_blocks * BITS_PER_BLOCK && is_set(fs.disk, c)
                    ==> #[trigger] is_set(after.disk, c)
            &&& file_written(fs, ino, offset, data, now).1 is Ok ==> forall|c: int|
                0 <= c < fs.sb.bitmap_blocks * BITS_PER_BLOCK && #[trigger] is_set(after.disk, c)
                    ==> is_set(fs.disk, c) || !apart(after, after.inode(ino), c)
        }),
{
    let after = file_written(fs, ino, offset, data, now).0;
    let inode = fs.inode(ino);
    let g = growth_for(fs, ino, offset, data);
    let mid = grown_fs(g);
    lemma_table(fs, inode, ino);
    lemma_write_leaves_blocks(fs, ino, offset, data, now);
    assert forall|m: u32| m != ino && in_table(fs.sb, m) implies #[trigger] after.inode(m)
        == fs.inode(m) by {
        lemma_other_inode_kept(fs, ino, offset, data, now, m);
    }
    if data.len() > 0 && !too_big(offset, data.len() as int) {
        lemma_grown(fs, inode, blocks_wanted(offset, data.len() as int) as u16);
        assert forall|c: int| owned(fs, c) && apart(fs, inode, c) implies #[trigger] after.disk.block(
            c,
        ) == fs.disk.block(c) by {
            lemma_grown_stays_apart(fs, inode, g, c);
        }
        if g.done {
            law_write_then_read(fs, ino, offset, data, now);
            lemma_written_pointers(fs, ino, offset, data, now);
            let new_inode = after.inode(ino);
            assert forall|c: int|
                0 <= c <= u32::MAX && !(#[trigger] apart(after, new_inode, c)) implies !apart(
                fs,
                inode,
                c,
            ) || !is_set(fs.disk, c) by {
                lemma_grown_uses(fs, inode, g, c);
            }
        } else {
            assert(after == mid);
            law_failed_write_leaves_file(fs, ino, offset, data, now);
            lemma_growth_given_up(fs, inode, g);
            assert forall|c: int|
                0 <= c <= u32::MAX && !(#[trigger] apart(after, inode, c)) implies !apart(
                fs,
                inode,
                c,
            ) by {
                if apart(fs, inode, c) {
                    assert forall|i: int| 0 <= i < inode.block_count implies (
                    #[trigger] inode.pointer(after.disk, i)) != Some(c as u32) by {
                        assert(inode.pointer(fs.disk, i) != Some(c as u32));
                    }
                }
            }
        }
    }
}

/// A block of a file that has grown is one that it had, or was free.
proof fn lemma_grown_uses(fs: FsView, inode: InodeView, g: Growth, c: int)
    requires
        inode_sound(fs, inode),
        grows_well(fs, inode, g),
        0 <= c <= u32::MAX,
        !apart(grown_fs(g), g.inode, c),
    ensures
        !apart(fs, inode, c) || !is_set(fs.disk, c),
{
    let after = grown_fs(g);
    if apart(fs, inode, c) {
        if g.inode.block_count > DIRECT_BLOCKS && g.inode.indirect_block == c {
            assert(g.inode.indirect_block != inode.indirect_block || inode.block_count
                <= DIRECT_BLOCKS);
        } else {
            let i = choose|i: int|
                0 <= i < g.inode.block_count && (#[trigger] g.inode.pointer(after.disk, i))
                    == Some(c as u32);
            if i < inode.block_count {
                assert(inode.pointer(fs.disk, i) == Some(c as u32));
            }
        }
    }
}

/// After a write that succeeds the file has the blocks that it has grown to.
pub proof fn lemma_written_pointers(fs: FsView, ino: u32, offset: int, data: Seq<u8>, now: i64)
    requires
        sound(fs),
        inode_sound(fs, fs.inode(ino)),
        writable(fs, ino, offset, data),
        data.len() > 0,
        file_written(fs, ino, offset, data, now).1 is Ok,
        in_table(fs.sb, ino),
    ensures
        ({
            let after = file_written(fs, ino, offset, data, now).0;
            let g = growth_for(fs, ino, offset, data);
            &&& after.inode(ino).block_count == g.inode.block_count
            &&& after.inode(ino) == inode_after_write(g.inode, offset, data.len() as int, now)
            &&& after.inode(ino).indirect_block == g.inode.indirect_block
            &&& forall|c: int| #[trigger]
                apart(after, after.inode(ino), c) == apart(grown_fs(g), g.inode, c)
        }),
{
    broadcast use group_disk;

    let g = growth_for(fs, ino, offset, data);
    let mid = grown_fs(g);
    let b = inode_block(fs.sb, ino);
    lemma_grown(fs, fs.inode(ino), blocks_wanted(offset, data.len() as int) as u16);
    lemma_write_fits(fs, ino, offset, data);
    lemma_stored(mid, g.inode, position(offset), data);
    let late = FsView { disk: stored(mid.disk, g.inode, position(offset), data), sb: mid.sb };
    let new_inode = inode_after_write(g.inode, offset, data.len() as int, now);
    let after = file_written(fs, ino, offset, data, now).0;
    assert(mid.disk.has(b));
    assert(late.disk.has(b));
    lemma_inode_round_trip(new_inode);
    let bytes = splice(late.disk.block(b), inode_offset(ino), new_inode.encoded());
    assert(after == with_write(late, b, bytes));
    lemma_inode_read_back(late.disk, late.sb, new_inode, ino);
    lemma_same_blocks_sound(late, g.inode, new_inode);
    lemma_table(late, new_inode, ino);
    lemma_write_keeps_inode(late, b, bytes, new_inode);
    assert forall|i: int| 0 <= i < new_inode.block_count implies #[trigger] new_inode.pointer(
        after.disk,
        i,
    ) == g.inode.pointer(mid.disk, i) by {
        assert(new_inode.pointer(late.disk, i) == g.inode.pointer(late.disk, i));
    }
    assert forall|c: int| #[trigger] apart(after, new_inode, c) == apart(mid, g.inode, c) by {
        if apart(mid, g.inode, c) {
            assert forall|i: int| 0 <= i < new_inode.block_count implies (
            #[trigger] new_inode.pointer(after.disk, i)) != Some(c as u32) by {
                assert(g.inode.pointer(mid.disk, i) != Some(c as u32));
            }
        }
        if apart(after, new_inode, c) {
            assert forall|i: int| 0 <= i < g.inode.block_count implies (#[trigger] g.inode.pointer(
                mid.disk,
                i,
            )) != Some(c as u32) by {
                assert(new_inode.pointer(after.disk, i) != Some(c as u32));
            }
        }
    }
}

/// A write to one file, whether it succeeds or not, changes neither the inode nor the contents of
/// another.
///
/// This holds as long as the files share no blocks.
pub proof fn law_write_leaves_other_files(
    fs: FsView,
    ino: u32,
    offset: int,
    data: Seq<u8>,
    now: i64,
    other: u32,
)
    requires
        sound(fs),
        inode_sound(fs, fs.inode(ino)),
        inode_sound(fs, fs.inode(other)),
        writable(fs, ino, offset, data),
        in_table(fs.sb, ino),
        in_table(fs.sb, other),
        other != ino,
        disjoint(fs, fs.inode(ino), fs.inode(other)),
    ensures
        ({
            let after = file_written(fs, ino, offset, data, now).0;
            let inode = fs.inode(other);
            &&& after.inode(other) == inode
            &&& inode_sound(after, inode)
            &&& forall|p: int, end: int|
                0 <= p && end <= inode.block_count * PAGE_SIZE ==> #[trigger] file_bytes(
                    after.disk,
                    inode,
                    p,
                    end,
                ) == file_bytes(fs.disk, inode, p, end)
        }),
{
    let after = file_written(fs, ino, offset, data, now).0;
    let inode = fs.inode(other);
    let g = growth_for(fs, ino, offset, data);
    lemma_write_leaves_blocks(fs, ino, offset, data, now);
    lemma_table(fs, inode, ino);
    if data.len() > 0 && !too_big(offset, data.len() as int) {
        let n = blocks_wanted(offset, data.len() as int) as u16;
        lemma_grown(fs, fs.inode(ino), n);
        assert forall|c: int|
            owned(fs, c) && apart(fs, fs.inode(ino), c) && c != inode_block(
                fs.sb,
                ino,
            ) implies #[trigger] after.disk.block(c) == fs.disk.block(c) by {
            lemma_grown_stays_apart(fs, fs.inode(ino), g, c);
        }
    }
    assert forall|i: int| 0 <= i < inode.block_count implies after.disk.block(
        (#[trigger] inode.pointer(fs.disk, i))->0 as int,
    ) == fs.disk.block(inode.pointer(fs.disk, i)->0 as int) by {
        assert(owned(fs, inode.pointer(fs.disk, i)->0 as int));
    }
    if inode.block_count > DIRECT_BLOCKS {
        assert(owned(fs, inode.indirect_block as int));
        assert(after.disk.block(inode.indirect_block as int) == fs.disk.block(
            inode.indirect_block as int,
        ));
    }
    lemma_same_blocks_same_file(fs, after, inode);
    lemma_other_inode_kept(fs, ino, offset, data, now, other);
}

/// Where the blocks of an inode have not changed, it is as sound as before and has the same
/// contents.
pub proof fn lemma_same_blocks_same_file(fs: FsView, after: FsView, inode: InodeView)
    requires
        inode_sound(fs, inode),
        after.sb.bitmap_blocks == fs.sb.bitmap_blocks,
        forall|i: int|
            0 <= i < inode.block_count ==> owned(
                after,
                (#[trigger] inode.pointer(fs.disk, i))->0 as int,
            ),
        inode.block_count > DIRECT_BLOCKS ==> owned(after, inode.indirect_block as int)
            && after.disk.block(inode.indirect_block as int) == fs.disk.block(
            inode.indirect_block as int,
        ),
        forall|i: int|
            0 <= i < inode.block_count ==> after.disk.block(
                (#[trigger] inode.pointer(fs.disk, i))->0 as int,
            ) == fs.disk.block(inode.pointer(fs.disk, i)->0 as int),
    ensures
        inode_sound(after, inode),
        forall|i: int|
            0 <= i < inode.block_count ==> #[trigger] inode.pointer(after.disk, i)
                == inode.pointer(fs.disk, i),
        forall|p: int, end: int|
            0 <= p && end <= inode.block_count * PAGE_SIZE ==> #[trigger] file_bytes(
                after.disk,
                inode,
                p,
                end,
            ) == file_bytes(fs.disk, inode, p, end),
{
    assert forall|i: int| 0 <= i < inode.block_count implies #[trigger] inode.pointer(after.disk, i)
        == inode.pointer(fs.disk, i) by {}
    assert forall|i: int| 0 <= i < inode.block_count implies (#[trigger] inode.pointer(
        after.disk,
        i,
    )) is Some && owned(after, inode.pointer(after.disk, i)->0 as int) by {
        assert(inode.pointer(fs.disk, i) is Some);
    }
    assert forall|p: int, end: int|
        0 <= p && end <= inode.block_count * PAGE_SIZE implies #[trigger] file_bytes(
        after.disk,
        inode,
        p,
        end,
    ) == file_bytes(fs.disk, inode, p, end) by {
        assert forall|q: int| p <= q < end implies #[trigger] file_byte(after.disk, inode, q)
            == file_byte(fs.disk, inode, q) by {
            let i = q / (PAGE_SIZE as int);
            assert(0 <= i < inode.block_count);
            assert(inode.pointer(after.disk, i) == inode.pointer(fs.disk, i));
        }
        lemma_same_file_bytes(after.disk, inode, fs.disk, inode, p, end);
    }
}

/// A write to one file leaves the inode of another as it is.
proof fn lemma_other_inode_kept(
    fs: FsView,
    ino: u32,
    offset: int,
    data: Seq<u8>,
    now: i64,
    other: u32,
)
    requires
        sound(fs),
        inode_sound(fs, fs.inode(ino)),
        writable(fs, ino, offset, data),
        in_table(fs.sb, other),
        other != ino,
    ensures
        file_written(fs, ino, offset, data, now).0.inode(other) == fs.inode(other),
{
    let after = file_written(fs, ino, offset, data, now).0;
    let g = growth_for(fs, ino, offset, data);
    let mid = grown_fs(g);
    let b = inode_block(fs.sb, other);
    if data.len() > 0 && !too_big(offset, data.len() as int) {
        lemma_grown(fs, fs.inode(ino), blocks_wanted(offset, data.len() as int) as u16);
        lemma_table(fs, fs.inode(ino), other);
        lemma_table(mid, g.inode, other);
        assert(mid.disk.has(b));
        assert(mid.disk.block(b) == fs.disk.block(b));
        lemma_inode_same_block(fs.disk, fs.sb, mid.disk, mid.sb, other);
        if g.done {
            lemma_write_fits(fs, ino, offset, data);
            lemma_stored(mid, g.inode, position(offset), data);
            let late = FsView { disk: stored(mid.disk, g.inode, position(offset), data), sb: mid.sb };
            let new_inode = inode_after_write(g.inode, offset, data.len() as int, now);
            assert(late.disk.block(b) == mid.disk.block(b));
            lemma_inode_same_block(mid.disk, mid.sb, late.disk, late.sb, other);
            assert(mid.disk.has(inode_block(fs.sb, ino)));
            assert(late.disk.has(inode_block(fs.sb, ino)));
            assert(late.disk.has(b));
            lemma_inode_read_back(late.disk, late.sb, new_inode, other);
        }
    }
}

/// Free blocks that it takes to give a file of `count` blocks as many as to have `n`: one for each
/// block, and one for the indirect block with the eleventh.
pub open spec fn blocks_needed(count: int, n: int) -> int {
    if count >= n {
        0
    } else if count <= DIRECT_BLOCKS < n {
        n - count + 1
    } else {
        n - count
    }
}

/// The blocks run out between the eleventh block of the file and the indirect block that goes with
/// it.
pub open spec fn stuck_at_indirect(count: int, n: int, free: int) -> bool {
    count <= DIRECT_BLOCKS < n && free == DIRECT_BLOCKS + 1 - count
}

proof fn lemma_grown_once_counted(fs: FsView, inode: InodeView)
    requires
        sound(fs),
        counted(fs),
        inode_sound(fs, inode),
        inode.block_count < MAX_FILE_BLOCKS,
        allocated(fs.disk, fs.sb) is Some,
        inode.block_count == DIRECT_BLOCKS ==> allocated(
            after_allocation(fs).disk,
            after_allocation(fs).sb,
        ) is Some,
    ensures
        counted(grown_fs(grown_once(fs.disk, fs.sb, inode))),
        grown_fs(grown_once(fs.disk, fs.sb, inode)).sb.free_blocks == fs.sb.free_blocks - (
        if inode.block_count == DIRECT_BLOCKS {
            2int
        } else {
            1int
        }),
{
    broadcast use group_disk;

    law_allocation_succeeds(fs);
    lemma_allocation_keeps_sound(fs);
    let one = after_allocation(fs);
    let (d1, sb1, b) = allocated(fs.disk, fs.sb)->0;
    let z = zeros(BLOCK_SIZE as nat);
    if inode.block_count < DIRECT_BLOCKS {
        lemma_write_keeps_count(one, b as int, z);
    } else if inode.block_count == DIRECT_BLOCKS {
        law_allocation_succeeds(one);
        lemma_allocation_keeps_sound(one);
        let two = after_allocation(one);
        let x = next_block(one) as int;
        lemma_write_keeps_sound(two, x, first_indirect(b));
        lemma_write_keeps_count(two, x, first_indirect(b));
        lemma_write_keeps_count(with_write(two, x, first_indirect(b)), b as int, z);
    } else {
        let x = inode.indirect_block as int;
        assert(owned(fs, x));
        assert(one.disk.has(x));
        let list = splice(
            one.disk.block(x),
            2 * (inode.block_count - DIRECT_BLOCKS),
            u16_le(b as u16),
        );
        lemma_write_keeps_sound(one, x, list);
        lemma_write_keeps_count(one, x, list);
        lemma_write_keeps_count(with_write(one, x, list), b as int, z);
    }
}

/// Where the count of free blocks is right, a file can be grown unless the blocks run out just
/// before the indirect block, and it gets all blocks if and only if there are enough.
pub proof fn law_growth_succeeds(fs: FsView, inode: InodeView, n: u16)
    requires
        sound(fs),
        counted(fs),
        inode_sound(fs, inode),
        n <= MAX_FILE_BLOCKS,
    ensures
        ({
            let count = inode.block_count as int;
            let free = fs.sb.free_blocks as int;
            let g = grown(fs.disk, fs.sb, inode, n);
            &&& growable(fs.disk, fs.sb, inode, n) <==> !stuck_at_indirect(count, n as int, free)
            &&& !stuck_at_indirect(count, n as int, free) ==> {
                &&& g.done <==> free >= blocks_needed(count, n as int)
                &&& counted(grown_fs(g))
                &&& g.done ==> g.sb.free_blocks == free - blocks_needed(count, n as int)
                &&& !g.done ==> g.sb.free_blocks == 0
            }
        }),
    decreases n - inode.block_count,
{
    if inode.block_count < n {
        law_allocation_succeeds(fs);
        lemma_allocation_keeps_sound(fs);
        if fs.sb.free_blocks > 0 {
            let one = after_allocation(fs);
            let g1 = grown_once(fs.disk, fs.sb, inode);
            if inode.block_count == DIRECT_BLOCKS {
                law_allocation_succeeds(one);
                lemma_allocation_keeps_sound(one);
            }
            if inode.block_count != DIRECT_BLOCKS || fs.sb.free_blocks > 1 {
                if inode.block_count < DIRECT_BLOCKS {
                    lemma_grow_direct(fs, inode);
                } else if inode.block_count == DIRECT_BLOCKS {
                    lemma_grow_first_indirect(fs, inode);
                } else {
                    lemma_grow_indirect(fs, inode);
                    assert(owned(fs, inode.indirect_block as int));
                    assert(one.disk.has(inode.indirect_block as int));
                }
                lemma_grown_once_counted(fs, inode);
                law_growth_succeeds(grown_fs(g1), g1.inode, n);
            }
        }
    }
}

/// Where the count of free blocks is right, a write that is not too large succeeds if and only if
/// there are enough free blocks, and otherwise finds no space. It cannot be carried out where the
/// blocks run out just before the indirect block, and can otherwise if its data goes no further
/// than a file can reach. The count stays right, and goes down by as many blocks as the file gets.
pub proof fn law_write_succeeds(fs: FsView, ino: u32, offset: int, data: Seq<u8>, now: i64)
    requires
        sound(fs),
        counted(fs),
        fs.has_inode(ino),
        inode_sound(fs, fs.inode(ino)),
        data.len() > 0,
        !too_big(offset, data.len() as int),
    ensures
        ({
            let n = blocks_wanted(offset, data.len() as int);
            let count = fs.inode(ino).block_count as int;
            let free = fs.sb.free_blocks as int;
            let (after, r) = file_written(fs, ino, offset, data, now);
            &&& writable(fs, ino, offset, data) ==> !stuck_at_indirect(count, n, free)
            &&& !stuck_at_indirect(count, n, free) && position(offset) + data.len()
                <= MAX_FILE_SIZE ==> writable(fs, ino, offset, data)
            &&& writable(fs, ino, offset, data) ==> {
                &&& counted(after)
                &&& r is Ok ==> after.sb.free_blocks == free - blocks_needed(count, n)
                &&& r is Err ==> after.sb.free_blocks == 0
                &&& r == if free >= blocks_needed(count, n) {
                    Ok::<u32, FsError>(data.len() as u32)
                } else {
                    Err(FsError::NoSpace)
                }
            }
        }),
{
    broadcast use group_disk;

    let n = blocks_wanted(offset, data.len() as int) as u16;
    let inode = fs.inode(ino);
    law_growth_succeeds(fs, inode, n);
    let g = growth_for(fs, ino, offset, data);
    let mid = grown_fs(g);
    if growable(fs.disk, fs.sb, inode, n) {
        lemma_grown(fs, inode, n);
        if g.done && position(offset) + data.len() <= MAX_FILE_SIZE {
            lemma_position(offset, data.len() as int);
            lemma_stored(mid, g.inode, position(offset), data);
        }
        if g.done && writable(fs, ino, offset, data) {
            lemma_write_fits(fs, ino, offset, data);
            lemma_stored(mid, g.inode, position(offset), data);
            let late = FsView { disk: stored(mid.disk, g.inode, position(offset), data), sb: mid.sb };
            lemma_free_count_same(late.disk, mid.disk, recorded(mid));
            let b = inode_block(fs.sb, ino);
            let new_inode = inode_after_write(g.inode, offset, data.len() as int, now);
            let bytes = splice(late.disk.block(b), inode_offset(ino), new_inode.encoded());
            assert(mid.disk.has(b));
            assert(late.disk.has(b));
            lemma_inode_round_trip(new_inode);
            lemma_write_keeps_count(late, b, bytes);
        }
    }
}

/// A write that is empty or too large changes nothing.
pub proof fn law_refused_write_changes_nothing(
    fs: FsView,
    ino: u32,
    offset: int,
    data: Seq<u8>,
    now: i64,
)
    requires
        data.len() == 0 || too_big(offset, data.len() as int),
    ensures
        file_written(fs, ino, offset, data, now).0 == fs,
{
}

/// The blocks that growing a file takes are the blocks that it then has more.
pub proof fn law_blocks_needed_are_held(inode: InodeView, grown_inode: InodeView)
    requires
        inode.block_count <= grown_inode.block_count,
    ensures
        blocks_held(grown_inode) == blocks_held(inode) + blocks_needed(
            inode.block_count as int,
            grown_inode.block_count as int,
        ),
{
}

/// A write for which there is no space leaves the file as it is, though the blocks that were
/// allocated for it stay allocated.
pub proof fn law_failed_write_leaves_file(
    fs: FsView,
    ino: u32,
    offset: int,
    data: Seq<u8>,
    now: i64,
)
    requires
        sound(fs),
        inode_sound(fs, fs.inode(ino)),
        writable(fs, ino, offset, data),
        file_written(fs, ino, offset, data, now).1 is Err,
        in_table(fs.sb, ino),
    ensures
        ({
            let after = file_written(fs, ino, offset, data, now).0;
            let inode = fs.inode(ino);
            &&& sound(after)
            &&& after.inode(ino) == inode
            &&& forall|p: int, end: int|
                0 <= p && end <= inode.block_count * PAGE_SIZE ==> #[trigger] file_bytes(
                    after.disk,
                    inode,
                    p,
                    end,
                ) == file_bytes(fs.disk, inode, p, end)
        }),
{
    let after = file_written(fs, ino, offset, data, now).0;
    let inode = fs.inode(ino);
    let g = growth_for(fs, ino, offset, data);
    lemma_write_leaves_blocks(fs, ino, offset, data, now);
    if !too_big(offset, data.len() as int) {
        lemma_grown(fs, inode, blocks_wanted(offset, data.len() as int) as u16);
        assert(after == grown_fs(g));
        lemma_table(fs, inode, ino);
        lemma_table(after, g.inode, ino);
        assert(after.disk.block(inode_block(fs.sb, ino)) == fs.disk.block(
            inode_block(fs.sb, ino),
        ));
        lemma_inode_same_block(fs.disk, fs.sb, after.disk, after.sb, ino);
        assert forall|i: int| 0 <= i < inode.block_count implies #[trigger] inode.pointer(
            after.disk,
            i,
        ) == inode.pointer(fs.disk, i) by {
            assert(g.inode.pointer(after.disk, i) == inode.pointer(fs.disk, i));
            if i >= DIRECT_BLOCKS {
                assert(g.inode.indirect_block == inode.indirect_block);
            }
        }
        assert forall|p: int, end: int|
            0 <= p && end <= inode.block_count * PAGE_SIZE implies #[trigger] file_bytes(
            after.disk,
            inode,
            p,
            end,
        ) == file_bytes(fs.disk, inode, p, end) by {
            assert forall|q: int| p <= q < end implies #[trigger] file_byte(after.disk, inode, q)
                == file_byte(fs.disk, inode, q) by {
                let i = q / (PAGE_SIZE as int);
                assert(0 <= i < inode.block_count);
                assert(inode.pointer(after.disk, i) == inode.pointer(fs.disk, i));
            }
            lemma_same_file_bytes(after.disk, inode, fs.disk, inode, p, end);
        }
    }
}

/// A block set in the index of a file is the block looked up, and no other changes. The indirect
/// block keeps numbers of two bytes.
pub proof fn law_block_set(inode: InodeView, d: DiskView, index: int, b: u32, other: int)
    requires
        inode.well_formed(),
        0 <= index < MAX_FILE_BLOCKS,
        0 <= other < MAX_FILE_BLOCKS,
        b != 0,
        index >= DIRECT_BLOCKS ==> b < 65536 && inode.indirect_block != 0 && d.has(
            inode.indirect_block as int,
        ),
    ensures
        inode.with_pointer(index, b).pointer(inode.pointer_written(d, index, b), other) == if other
            == index {
            Some(b)
        } else {
            inode.pointer(d, other)
        },
{
    broadcast use group_disk;

    if index >= DIRECT_BLOCKS && other >= DIRECT_BLOCKS {
        lemma_indirect_pointer(
            d.block(inode.indirect_block as int),
            index - DIRECT_BLOCKS,
            b,
            other - DIRECT_BLOCKS,
        );
    }
}

} // verus!
