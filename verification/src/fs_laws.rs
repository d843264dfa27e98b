//! Formatting, mounting again, permissions, and listings in parts.

use crate::bitmap::{
    allocated, bitmap_block, bitmap_started, first_free, is_set, lemma_is_set_after_superblock,
    marked_allocated, one_less_free,
};
use crate::directory::{entries, Slot};
use crate::directory_laws::{dir_sound, names_unique};
use crate::disk::{group_disk, Command, DiskView, DISK_SIZE, MAX_BLOCKS};
use crate::fs::{
    attr_of, attr_set, attributes, dir_block, dir_with_block, formatted, formatted_superblock,
    inode_with_mode, lemma_bitmap_started, listing, mounted, opened, wants_write, FileAttr, FsError,
    FsView, ROOT_BLOCK, ROOT_INODE,
};
use crate::inode::{
    in_table, inode_at, inode_block, inode_offset, lemma_inode_same_block, InodeView,
};
use crate::search::lemma_first_is;
use crate::sound::{
    after_allocation, framed, lemma_allocation_keeps_sound, lemma_superblock_read_back,
    lemma_write_keeps_sound, next_block, owned, sound, with_write,
};
use crate::space::{
    counted, free_count, law_allocation_succeeds, lemma_free_count_same, lemma_write_keeps_count,
    recorded,
};
use crate::superblock::{fresh_superblock, superblock_at, superblock_written, SuperBlockView};
use crate::tree_laws::{first_entries, lemma_inode_stored, lemma_new_dir_sound, with_inode};
use vstd::prelude::*;

verus! {

broadcast use crate::inode::lemma_inode_at;

/// The count of a bitmap that marks exactly the blocks below `k`.
proof fn lemma_free_count_above(d: DiskView, n: int, k: int)
    requires
        0 <= k <= n,
        forall|m: int| 0 <= m < n ==> #[trigger] is_set(d, m) == (m < k),
    ensures
        free_count(d, n) == n - k,
    decreases n,
{
    if n > 0 {
        assert(is_set(d, n - 1) == (n - 1 < k));
        if n - 1 >= k {
            lemma_free_count_above(d, n - 1, k);
        } else {
            assert(k == n);
            lemma_all_set(d, n);
        }
    }
}

proof fn lemma_all_set(d: DiskView, n: int)
    requires
        0 <= n,
        forall|m: int| 0 <= m < n ==> #[trigger] is_set(d, m),
    ensures
        free_count(d, n) == 0,
    decreases n,
{
    if n > 0 {
        assert(is_set(d, n - 1));
        lemma_all_set(d, n - 1);
    }
}

/// The file system with another superblock.
pub open spec fn with_superblock(fs: FsView, sb: SuperBlockView) -> FsView {
    FsView { disk: superblock_written(fs.disk, sb), sb }
}

/// Naming another root directory keeps a file system sound and changes no block but the superblock.
proof fn lemma_root_named(fs: FsView, root: u32)
    requires
        sound(fs),
    ensures
        ({
            let after = with_superblock(fs, SuperBlockView { root_inode: root, ..fs.sb });
            &&& sound(after)
            &&& counted(fs) ==> counted(after)
            &&& forall|c: int| #[trigger] after.disk.has(c) == fs.disk.has(c)
            &&& forall|c: int| owned(fs, c) ==> #[trigger] owned(after, c)
            &&& forall|c: int|
                0 <= c < recorded(fs) ==> #[trigger] is_set(after.disk, c) == is_set(fs.disk, c)
            &&& forall|c: int|
                0 < c && fs.disk.has(c) ==> #[trigger] after.disk.block(c) == fs.disk.block(c)
        }),
{
    broadcast use group_disk;

    let sb = SuperBlockView { root_inode: root, ..fs.sb };
    let after = with_superblock(fs, sb);
    lemma_superblock_read_back(fs.disk, sb);
    assert(fs.disk.has(0));
    assert forall|c: int| 0 <= c < recorded(fs) implies #[trigger] is_set(after.disk, c) == is_set(
        fs.disk,
        c,
    ) by {
        assert(fs.disk.has(bitmap_block(c)));
        lemma_is_set_after_superblock(fs.disk, sb, c);
    }
    lemma_free_count_same(after.disk, fs.disk, recorded(fs));
    assert forall|c: int| owned(fs, c) implies #[trigger] owned(after, c) by {
        assert(is_set(fs.disk, c));
    }
}

/// The disk of a new file system before it has a root directory.
spec fn laid_out(d: DiskView) -> FsView {
    FsView {
        disk: bitmap_started(superblock_written(d, fresh_superblock()), 31, 5),
        sb: fresh_superblock(),
    }
}

/// The frame of a new file system without a root directory is right, and its first free block is
/// the first of the data area.
proof fn lemma_laid_out(d: DiskView)
    ensures
        ({
            let fs = laid_out(d);
            &&& framed(fs)
            &&& counted(fs)
            &&& forall|m: int| 0 <= m < MAX_BLOCKS ==> #[trigger] is_set(fs.disk, m) == (m < 31)
            &&& allocated(fs.disk, fs.sb) is Some
            &&& next_block(fs) == ROOT_BLOCK
            &&& after_allocation(fs) == (FsView {
                disk: marked_allocated(fs.disk, fs.sb, ROOT_BLOCK as int),
                sb: one_less_free(fs.sb),
            })
        }),
{
    broadcast use group_disk;

    let d1 = superblock_written(d, fresh_superblock());
    let fs = laid_out(d);
    lemma_superblock_read_back(d, fresh_superblock());
    assert(d1.has(0));
    lemma_bitmap_started(d1, 31, 5, 0);
    assert(superblock_at(fs.disk) == superblock_at(d1)) by {
        reveal(superblock_at);
    }
    assert forall|m: int| 0 <= m < MAX_BLOCKS implies #[trigger] is_set(fs.disk, m) == (m < 31) by {
        lemma_bitmap_started(d1, 31, 5, m);
    }
    assert(fs.disk.has(5));
    lemma_free_count_above(fs.disk, MAX_BLOCKS as int, 31);
    assert(fresh_superblock().valid());
    lemma_first_is(0, MAX_BLOCKS as int, |n: int| !is_set(fs.disk, n), 31);
    assert(first_free(fs.disk) == Some(31int));
}

/// A disk that has just been formatted is sound: exactly the superblock, the bitmap, the inode
/// table and the block of the root directory are marked as allocated, and all others are counted as
/// free. The root directory lists `.` and `..`, which are both itself.
pub proof fn law_formatted_disk(d: DiskView, now: i64)
    ensures
        ({
            let fs = formatted(d, now);
            let root = dir_with_block(ROOT_INODE, ROOT_BLOCK, now);
            &&& sound(fs)
            &&& counted(fs)
            &&& fs.sb == formatted_superblock()
            &&& fs.sb.free_blocks == 20448
            &&& forall|m: int| 0 <= m < MAX_BLOCKS ==> #[trigger] is_set(fs.disk, m) == (m < 32)
            &&& in_table(fs.sb, ROOT_INODE)
            &&& fs.inode(ROOT_INODE) == root
            &&& dir_sound(fs, root)
            &&& names_unique(fs.disk, root)
            &&& entries(fs.disk, root) == first_entries(ROOT_INODE, ROOT_INODE, ROOT_BLOCK)
        }),
{
    let start = laid_out(d);
    let one = after_allocation(start);
    let bytes = dir_block(ROOT_INODE, ROOT_INODE);
    let root = dir_with_block(ROOT_INODE, ROOT_BLOCK, now);
    let two = with_write(one, ROOT_BLOCK as int, bytes);
    let three = with_inode(two, root);
    let fs = formatted(d, now);
    lemma_laid_out(d);
    lemma_root_block_written(start);
    lemma_inode_stored(two, root);
    lemma_root_named(three, ROOT_INODE);
    assert(formatted_superblock() =~= SuperBlockView { root_inode: ROOT_INODE, ..three.sb });
    assert(fs == with_superblock(three, formatted_superblock()));
    assert forall|m: int| 0 <= m < MAX_BLOCKS implies #[trigger] is_set(fs.disk, m) == (m < 32) by {
        assert(is_set(three.disk, m) == is_set(two.disk, m));
        assert(is_set(two.disk, m) == (m == 31 || is_set(start.disk, m)));
    }
    assert(fs.disk.block(6) == three.disk.block(6));
    lemma_inode_same_block(three.disk, three.sb, fs.disk, fs.sb, ROOT_INODE);
    assert(owned(three, 31));
    assert(owned(fs, 31));
    assert(fs.disk.block(31) == bytes) by {
        assert(two.disk.has(31));
        assert(three.disk.block(31) == two.disk.block(31));
        assert(three.disk.has(31));
    }
    lemma_new_dir_sound(fs, ROOT_INODE, ROOT_INODE, ROOT_BLOCK, now);
    assert(root.pointer(fs.disk, 0) == Some(ROOT_BLOCK));
}

/// The state of a new file system after the root directory has got its block.
proof fn lemma_root_block_written(start: FsView)
    requires
        framed(start),
        counted(start),
        start.sb == fresh_superblock(),
        allocated(start.disk, start.sb) is Some,
        next_block(start) == ROOT_BLOCK,
    ensures
        ({
            let bytes = dir_block(ROOT_INODE, ROOT_INODE);
            let two = with_write(after_allocation(start), ROOT_BLOCK as int, bytes);
            &&& sound(two)
            &&& counted(two)
            &&& two.sb == one_less_free(fresh_superblock())
            &&& owned(two, 31)
            &&& two.disk.block(31) == bytes
            &&& two.disk.has(6)
            &&& forall|m: int|
                0 <= m < MAX_BLOCKS ==> #[trigger] is_set(two.disk, m) == (m == 31 || is_set(
                    start.disk,
                    m,
                ))
        }),
{
    broadcast use group_disk;

    let bytes = dir_block(ROOT_INODE, ROOT_INODE);
    let one = after_allocation(start);
    let two = with_write(one, ROOT_BLOCK as int, bytes);
    lemma_allocation_keeps_sound(start);
    law_allocation_succeeds(start);
    lemma_write_keeps_sound(one, 31, bytes);
    lemma_write_keeps_count(one, 31, bytes);
    assert(two.disk.has(31));
    assert(is_set(one.disk, 31));
    assert(is_set(two.disk, 31));
    assert forall|m: int| 0 <= m < MAX_BLOCKS implies #[trigger] is_set(two.disk, m) == (m == 31
        || is_set(start.disk, m)) by {
        assert(is_set(one.disk, m) == (m == 31 || is_set(start.disk, m)));
    }
}

/// A file system that is mounted again is the one that was left: the superblock in memory is the
/// one that the image holds, whatever commands have been handed out in between.
pub proof fn law_mounted_again(fs: FsView, log: Seq<Command>, now: i64)
    requires
        sound(fs),
    ensures
        ({
            let saved = DiskView { image: fs.disk.image, log };
            &&& mounted(saved, now) == (FsView { disk: saved, sb: fs.sb })
            &&& forall|c: int| #[trigger] saved.block(c) == fs.disk.block(c)
            &&& forall|n: u32| #[trigger] mounted(saved, now).inode(n) == fs.inode(n)
        }),
{
    let saved = DiskView { image: fs.disk.image, log };
    assert forall|c: int| #[trigger] saved.block(c) == fs.disk.block(c) by {
        reveal(DiskView::block);
    }
    assert(superblock_at(saved) == superblock_at(fs.disk)) by {
        reveal(superblock_at);
        assert(saved.block(0) == fs.disk.block(0));
    }
    assert(fs.disk.has(0));
    assert forall|n: u32| #[trigger] mounted(saved, now).inode(n) == fs.inode(n) by {
        assert(saved.block(inode_block(fs.sb, n)) == fs.disk.block(inode_block(fs.sb, n)));
        lemma_inode_same_block(fs.disk, fs.sb, saved, fs.sb, n);
    }
}

/// The blocks behind a new bitmap are as they were.
proof fn lemma_bitmap_started_leaves_block(d: DiskView, data_start: int, count: int, c: int)
    requires
        0 <= count < c,
        d.has(c),
    ensures
        bitmap_started(d, data_start, count).has(c),
        bitmap_started(d, data_start, count).block(c) == d.block(c),
    decreases count,
{
    broadcast use group_disk;

    if count > 0 {
        lemma_bitmap_started_leaves_block(d, data_start, count - 1, c);
    }
}

/// Formatting leaves every inode of the table as it was on the disk, but that of the root
/// directory.
proof fn lemma_formatted_leaves_inode(d: DiskView, now: i64, n: u32)
    requires
        n != ROOT_INODE,
        in_table(formatted_superblock(), n),
        d.has(30),
    ensures
        formatted(d, now).inode(n) == inode_at(d, formatted_superblock(), n),
{
    broadcast use group_disk;

    let c = inode_block(formatted_superblock(), n);
    let d1 = superblock_written(d, fresh_superblock());
    let start = laid_out(d);
    let one = after_allocation(start);
    let bytes = dir_block(ROOT_INODE, ROOT_INODE);
    let root = dir_with_block(ROOT_INODE, ROOT_BLOCK, now);
    let two = with_write(one, ROOT_BLOCK as int, bytes);
    let three = with_inode(two, root);
    lemma_superblock_read_back(d, fresh_superblock());
    lemma_bitmap_started_leaves_block(d1, 31, 5, c);
    lemma_laid_out(d);
    lemma_allocation_keeps_sound(start);
    lemma_root_block_written(start);
    assert(one.disk.has(c));
    assert(one.disk.block(c) == start.disk.block(c));
    assert(two.disk.has(c));
    assert(two.disk.block(c) == d.block(c));
    lemma_inode_same_block(d, formatted_superblock(), two.disk, two.sb, n);
    lemma_inode_stored(two, root);
    assert(two.has_inode(n));
    assert(three.inode(n) == two.inode(n));
    lemma_root_named(three, ROOT_INODE);
    assert(formatted_superblock() =~= SuperBlockView { root_inode: ROOT_INODE, ..three.sb });
    assert(three.disk.has(c));
    lemma_inode_same_block(
        three.disk,
        three.sb,
        formatted(d, now).disk,
        formatted_superblock(),
        n,
    );
}

/// Mounting an empty disk makes it as large as a disk should be and formats it. No inode of the
/// table is in use but that of the root directory.
pub proof fn law_mounted_empty_disk(d: DiskView, now: i64, n: u32)
    requires
        d.image.len() == 0,
        n != ROOT_INODE,
        in_table(formatted_superblock(), n),
    ensures
        ({
            let fs = mounted(d, now);
            &&& fs == formatted(d.truncate(DISK_SIZE as int), now)
            &&& fs.has_inode(n)
            &&& fs.inode(n).nlink == 0
            &&& attributes(fs, n) == Err::<FileAttr, FsError>(FsError::NotFound)
        }),
{
    broadcast use group_disk;

    let d0 = d.truncate(DISK_SIZE as int);
    let fs = mounted(d, now);
    let c = inode_block(formatted_superblock(), n);
    assert(d0.has(c));
    lemma_formatted_leaves_inode(d0, now, n);
    assert(inode_at(d0, formatted_superblock(), n).nlink == 0) by {
        reveal(inode_at);
        reveal(DiskView::block);
        let bytes = d0.block(c).subrange(inode_offset(n), inode_offset(n) + 84);
        assert(bytes[10] == 0 && bytes[11] == 0);
    }
    lemma_formatted_keeps_blocks(d0, now, c);
}

/// Formatting takes no block away from the disk.
proof fn lemma_formatted_keeps_blocks(d: DiskView, now: i64, c: int)
    requires
        d.has(c),
        d.has(6),
    ensures
        formatted(d, now).disk.has(c),
{
    broadcast use group_disk;

    let d1 = superblock_written(d, fresh_superblock());
    let start = laid_out(d);
    let one = after_allocation(start);
    let bytes = dir_block(ROOT_INODE, ROOT_INODE);
    let root = dir_with_block(ROOT_INODE, ROOT_BLOCK, now);
    let two = with_write(one, ROOT_BLOCK as int, bytes);
    let three = with_inode(two, root);
    lemma_superblock_read_back(d, fresh_superblock());
    lemma_bitmap_started(d1, 31, 5, 0);
    lemma_laid_out(d);
    lemma_allocation_keeps_sound(start);
    lemma_root_block_written(start);
    assert(d1.has(c));
    assert(start.disk.has(c));
    assert(one.disk.has(c));
    assert(two.disk.has(c));
    lemma_inode_stored(two, root);
    assert(three.disk.has(c));
    lemma_root_named(three, ROOT_INODE);
    assert(formatted_superblock() =~= SuperBlockView { root_inode: ROOT_INODE, ..three.sb });
}

/// Setting the permissions of an inode sets the permission bits and the time of the last change,
/// keeps the type and all else, and leaves every other inode alone. The file can then be opened for
/// writing exactly if a permission to write was given, and for reading exactly if one to read was.
pub proof fn law_permissions_set(
    fs: FsView,
    ino: u32,
    mode: u32,
    now: i64,
    flags: i32,
    other: u32,
)
    requires
        sound(fs),
        fs.has_inode(ino),
        fs.has_inode(other),
        other != ino,
    ensures
        ({
            let after = attr_set(fs, ino, Some(mode), now);
            let old_inode = fs.inode(ino);
            let inode = after.inode(ino);
            &&& sound(after)
            &&& counted(fs) ==> counted(after)
            &&& inode == (InodeView { mode: inode.mode, mtime: now, ..old_inode })
            &&& inode.mode & 0xF000 == old_inode.mode & 0xF000
            &&& inode.mode & 0o777 == (mode & 0o777) as u16
            &&& inode.is_dir() == old_inode.is_dir()
            &&& old_inode.nlink != 0 ==> attributes(after, ino) == Ok::<FileAttr, FsError>(
                attr_of(inode),
            )
            &&& opened(after, ino as u64, flags) == if wants_write(flags) && mode & 0o222 == 0
                || !wants_write(flags) && mode & 0o444 == 0 {
                Err::<u64, FsError>(FsError::AccessDenied)
            } else {
                Ok(ino as u64)
            }
            &&& after.inode(other) == fs.inode(other)
        }),
{
    let old_mode = fs.inode(ino).mode;
    let inode = inode_with_mode(fs.inode(ino), Some(mode), now);
    assert(attr_set(fs, ino, Some(mode), now) == with_inode(fs, inode));
    lemma_inode_stored(fs, inode);
    assert(((old_mode & 0xF000) | ((mode & 0o777) as u16)) & 0xF000 == old_mode & 0xF000
        && ((old_mode & 0xF000) | ((mode & 0o777) as u16)) & 0o777 == (mode & 0o777) as u16
        && ((old_mode & 0xF000) | ((mode & 0o777) as u16)) & 0x4000 == old_mode & 0x4000 && (((
    old_mode & 0xF000) | ((mode & 0o777) as u16)) & 0o222 == 0 <==> mode & 0o222 == 0) && (((
    old_mode & 0xF000) | ((mode & 0o777) as u16)) & 0o444 == 0 <==> mode & 0o444 == 0))
        by (bit_vector);
}

/// Without a mode, setting attributes changes nothing but the time of the last change of that
/// inode.
pub proof fn law_time_of_change_set(fs: FsView, ino: u32, now: i64, other: u32)
    requires
        sound(fs),
        fs.has_inode(ino),
        fs.has_inode(other),
        other != ino,
    ensures
        ({
            let after = attr_set(fs, ino, None, now);
            &&& sound(after)
            &&& counted(fs) ==> counted(after)
            &&& after.sb == fs.sb
            &&& after.inode(ino) == (InodeView { mtime: now, ..fs.inode(ino) })
            &&& after.inode(other) == fs.inode(other)
        }),
{
    let inode = inode_with_mode(fs.inode(ino), None, now);
    assert(attr_set(fs, ino, None, now) == with_inode(fs, inode));
    lemma_inode_stored(fs, inode);
}

/// A file can be opened for writing exactly if some class of users may write it, and for reading
/// exactly if some class of users may read it.
pub proof fn law_open_heeds_permissions(fs: FsView, ino: u64, flags: i32)
    ensures
        wants_write(flags) ==> (opened(fs, ino, flags) == Ok::<u64, FsError>(ino) <==> fs.inode(
            ino as u32,
        ).mode & 0o222 != 0),
        !wants_write(flags) ==> (opened(fs, ino, flags) == Ok::<u64, FsError>(ino) <==> fs.inode(
            ino as u32,
        ).mode & 0o444 != 0),
        opened(fs, ino, flags) is Err ==> opened(fs, ino, flags) == Err::<u64, FsError>(
            FsError::AccessDenied,
        ),
{
}

/// A listing that is asked for in parts, each from the offset that the last entry seen carries, is
/// the listing as a whole.
pub proof fn law_listing_goes_on(all: Seq<Slot>, k: int)
    requires
        0 <= k <= all.len(),
    ensures
        listing(all, 0).len() == all.len(),
        listing(all, 0) == listing(all, 0).subrange(0, k) + listing(all, k),
        0 < k ==> listing(all, 0)[k - 1].offset == k,
{
    assert(listing(all, 0) =~= listing(all, 0).subrange(0, k) + listing(all, k));
}

} // verus!
