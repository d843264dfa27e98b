//! On a sound disk every request can be carried out.

use crate::bitmap::bitmap_block;
use crate::directory::{
    block_on_disk, blocks_on_disk, entries, entry_added, entry_named, extendable, free_place,
    lemma_entries_fit, lemma_searchable, no_hole_before_free_place, searchable,
};
use crate::directory_laws::dir_sound;
use crate::disk::PAGE_SIZE;
use crate::file::{block_readable, lemma_small_offset, position, read_len, readable};
use crate::file_laws::disjoint;
use crate::fs::{dir_readable, listable, lookup_ready, FsView};
use crate::inode::{in_table, inode_block, inode_count, new_file_inode, InodeView, DIRECT_BLOCKS};
use crate::removal_laws::{
    lemma_all_freed, lemma_file_freed, lemma_first_blocks_freed, lemma_released_keeps_dir,
};
use crate::sound::{inode_sound, lemma_allocation_keeps_sound, lemma_table, owned, sound};
use crate::space::{counted, law_allocation_succeeds, lemma_free_count, recorded};
use crate::tree::{
    all_freed, blocks_freed, can_free, creatable, dir_creatable, dir_created, dir_prepared,
    dir_removable, file_created, free_inode, freeable, inodes_scannable, link_dropped,
    next_freeable, one_link_less, unlinkable, FIRST_INODE,
};
use crate::tree_laws::{
    lemma_dir_kept, lemma_dir_prepared, lemma_free_inode, lemma_inode_stored,
    lemma_inode_stored_keeps_dir, new_number, with_inode,
};
use vstd::prelude::*;

verus! {

broadcast use crate::inode::lemma_inode_at;

/// The blocks of a sound directory are all there.
proof fn lemma_dir_sound_blocks(fs: FsView, dir: InodeView)
    requires
        dir_sound(fs, dir),
    ensures
        blocks_on_disk(fs.disk, dir),
        no_hole_before_free_place(fs.disk, dir),
{
    assert forall|i: int| 0 <= i < dir.block_count implies #[trigger] block_on_disk(
        fs.disk,
        dir,
        i,
    ) by {
        assert(dir.pointer(fs.disk, i) is Some);
        assert(owned(fs, dir.pointer(fs.disk, i)->0 as int));
    }
}

/// A sound directory can be searched for any name, and listed from any offset on.
pub proof fn law_sound_directory_readable(fs: FsView, dir: InodeView, name: Seq<char>, offset: int)
    requires
        dir_sound(fs, dir),
    ensures
        searchable(fs.disk, dir, name),
        listable(fs.disk, dir, offset),
{
    lemma_dir_sound_blocks(fs, dir);
    lemma_searchable(fs.disk, dir, name);
    lemma_entries_fit(fs.disk, dir);
}

/// Every part of a sound file can be read, from any offset that is not negative.
pub proof fn law_sound_file_readable(fs: FsView, ino: u32, offset: int, size: int)
    requires
        fs.has_inode(ino),
        inode_sound(fs, fs.inode(ino)),
        0 <= offset,
    ensures
        readable(fs, ino, offset, size),
{
    let inode = fs.inode(ino);
    let p = position(offset);
    let end = p + read_len(inode, offset, size);
    if offset < inode.size {
        lemma_small_offset(offset);
    }
    assert forall|i: int|
        p < end && p / (PAGE_SIZE as int) <= i && i * PAGE_SIZE
            < end implies #[trigger] block_readable(fs.disk, inode, i) by {
        assert(0 <= i < inode.block_count);
        assert(inode.pointer(fs.disk, i) is Some);
        assert(owned(fs, inode.pointer(fs.disk, i)->0 as int));
        if inode.block_count > DIRECT_BLOCKS {
            assert(owned(fs, inode.indirect_block as int));
        }
    }
}

/// On a sound disk the inode table can be searched for a free inode.
pub proof fn lemma_scannable(fs: FsView)
    requires
        sound(fs),
    ensures
        inodes_scannable(fs),
{
    assert forall|n: int| FIRST_INODE <= n < inode_count(fs.sb) implies #[trigger] fs.has_inode(
        n as u32,
    ) by {
        lemma_table(fs, fs.inode(n as u32), n as u32);
    }
}

/// On a sound disk a file can be made in a sound directory. It is made if and only if the name is
/// free, the directory may be written, an inode is free, and the directory has a place for the
/// entry or can get one.
pub proof fn law_file_can_be_made(fs: FsView, parent: u32, name: Seq<char>, made: i64, added: i64)
    requires
        sound(fs),
        counted(fs),
        in_table(fs.sb, parent),
        dir_sound(fs, fs.inode(parent)),
    ensures
        creatable(fs, parent, name, made),
        ({
            let dir = fs.inode(parent);
            file_created(fs, parent, name, made, added).result is Ok <==> {
                &&& entry_named(fs.disk, dir, name) is None
                &&& dir.permits(true)
                &&& free_inode(fs) is Some
                &&& free_place(fs.disk, dir) is Some || (dir.block_count < DIRECT_BLOCKS
                    && fs.sb.free_blocks > 0)
            }
        }),
{
    let dir = fs.inode(parent);
    lemma_table(fs, dir, parent);
    law_sound_directory_readable(fs, dir, name, 0);
    lemma_scannable(fs);
    if free_inode(fs) is Some {
        let n = new_number(fs);
        let inode = new_file_inode(n, made);
        let mid = with_inode(fs, inode);
        lemma_free_inode(fs);
        lemma_inode_stored(fs, inode);
        lemma_inode_stored_keeps_dir(fs, inode, dir);
        lemma_room_for_entry(mid, dir, name, n, false, added);
        assert(entry_named(mid.disk, dir, name) == entry_named(fs.disk, dir, name));
        assert(mid.has_inode(parent));
    }
}

/// On a sound disk an entry can be looked for in a sound directory and, if it is not there, added.
pub proof fn lemma_room_for_entry(
    fs: FsView,
    dir: InodeView,
    name: Seq<char>,
    child: u32,
    is_dir: bool,
    now: i64,
)
    requires
        sound(fs),
        counted(fs),
        dir_sound(fs, dir),
        fs.has_inode(dir.inode_no),
    ensures
        extendable(fs.disk, fs.sb, dir, name),
        entry_added(fs.disk, fs.sb, dir, name, child, is_dir, now).result is Ok
            <==> {
            &&& entry_named(fs.disk, dir, name) is None
            &&& free_place(fs.disk, dir) is Some || (dir.block_count < DIRECT_BLOCKS
                && fs.sb.free_blocks > 0)
        },
{
    reveal(entry_added);
    law_sound_directory_readable(fs, dir, name, 0);
    lemma_dir_sound_blocks(fs, dir);
    lemma_allocation_keeps_sound(fs);
    law_allocation_succeeds(fs);
}

/// On a sound disk a directory can be made in a sound directory that has a place for the entry, or
/// can get one. It is made if and only if the name is free, an inode is free, and a block is free.
pub proof fn law_directory_can_be_made(
    fs: FsView,
    parent: u32,
    name: Seq<char>,
    made: i64,
    added: i64,
)
    requires
        sound(fs),
        counted(fs),
        in_table(fs.sb, parent),
        dir_sound(fs, fs.inode(parent)),
        free_place(fs.disk, fs.inode(parent)) is Some || (fs.inode(parent).block_count
            < DIRECT_BLOCKS && fs.sb.free_blocks != 1),
    ensures
        dir_creatable(fs, parent, name, made),
        dir_created(fs, parent, name, made, added).result is Ok <==> {
            &&& entry_named(fs.disk, fs.inode(parent), name) is None
            &&& free_inode(fs) is Some
            &&& fs.sb.free_blocks > 0
        },
{
    let dir = fs.inode(parent);
    lemma_table(fs, dir, parent);
    law_sound_directory_readable(fs, dir, name, 0);
    lemma_scannable(fs);
    lemma_allocation_keeps_sound(fs);
    law_allocation_succeeds(fs);
    if free_inode(fs) is Some && fs.sb.free_blocks > 0 {
        let n = new_number(fs);
        let mid = dir_prepared(fs, n, parent, made);
        lemma_free_inode(fs);
        lemma_dir_prepared(fs, n, parent, made);
        lemma_table(fs, dir, n);
        assert forall|i: int| 0 <= i < dir.block_count implies owned(
            mid,
            (#[trigger] dir.pointer(fs.disk, i))->0 as int,
        ) && mid.disk.block(dir.pointer(fs.disk, i)->0 as int) == fs.disk.block(
            dir.pointer(fs.disk, i)->0 as int,
        ) by {
            assert(owned(fs, dir.pointer(fs.disk, i)->0 as int));
        }
        lemma_dir_kept(fs, mid, dir);
        assert(mid.disk.has(inode_block(fs.sb, parent)));
        lemma_room_for_entry(mid, dir, name, n, true, made);
        assert(entry_named(mid.disk, dir, name) == entry_named(fs.disk, dir, name));
        assert(mid.sb.free_blocks == fs.sb.free_blocks - 1);
    }
}

/// The blocks of a sound inode can be freed one after the other.
proof fn lemma_freeable(fs: FsView, inode: InodeView, n: int)
    requires
        sound(fs),
        inode_sound(fs, inode),
        counted(fs),
        0 <= n <= inode.block_count,
    ensures
        forall|k: int| 0 <= k < n ==> #[trigger] next_freeable(fs, inode, k),
    decreases n,
{
    if n > 0 {
        lemma_freeable(fs, inode, n - 1);
        lemma_first_blocks_freed(fs, inode, n - 1);
        let before = blocks_freed(fs, inode, n - 1);
        let b = inode.pointer(fs.disk, n - 1)->0 as int;
        assert(inode.pointer(before.disk, n - 1) == inode.pointer(fs.disk, n - 1));
        assert(owned(fs, b));
        lemma_free_count(before.disk, recorded(before));
        assert(before.disk.has(bitmap_block(b)));
        if inode.block_count > DIRECT_BLOCKS {
            assert(owned(fs, inode.indirect_block as int));
            assert(before.disk.has(inode.indirect_block as int));
        }
        assert(next_freeable(fs, inode, n - 1));
        assert forall|k: int| 0 <= k < n implies #[trigger] next_freeable(fs, inode, k) by {
            if k < n - 1 {
            }
        }
    }
}

/// All blocks of a sound inode can be freed.
pub proof fn lemma_all_freeable(fs: FsView, inode: InodeView)
    requires
        sound(fs),
        inode_sound(fs, inode),
        counted(fs),
    ensures
        freeable(fs, inode),
        inode.indirect_block != 0 ==> can_free(
            blocks_freed(fs, inode, inode.block_count as int),
            inode.indirect_block as int,
        ),
{
    let n = inode.block_count as int;
    lemma_freeable(fs, inode, n);
    lemma_first_blocks_freed(fs, inode, n);
    let data = blocks_freed(fs, inode, n);
    lemma_free_count(data.disk, recorded(data));
    if inode.indirect_block != 0 {
        assert(owned(fs, inode.indirect_block as int));
        assert(data.disk.has(bitmap_block(inode.indirect_block as int)));
    }
}

/// On a sound disk a name of a sound file can be removed from a sound directory with which it
/// shares no blocks.
pub proof fn law_file_can_be_removed(fs: FsView, parent: u32, name: Seq<char>)
    requires
        sound(fs),
        counted(fs),
        in_table(fs.sb, parent),
        dir_sound(fs, fs.inode(parent)),
        entry_named(fs.disk, fs.inode(parent), name) matches Some(x) ==> {
            let inode = fs.inode(x.entry.inode);
            &&& in_table(fs.sb, x.entry.inode)
            &&& !inode.is_dir() ==> {
                &&& inode_sound(fs, inode)
                &&& disjoint(fs, inode, fs.inode(parent))
            }
        },
    ensures
        unlinkable(fs, parent, name),
{
    let dir = fs.inode(parent);
    lemma_table(fs, dir, parent);
    law_sound_directory_readable(fs, dir, name, 0);
    if entry_named(fs.disk, dir, name) is Some {
        let n = entry_named(fs.disk, dir, name)->0.entry.inode;
        let inode = fs.inode(n);
        let dropped = link_dropped(fs, inode);
        lemma_table(fs, inode, n);
        if !inode.is_dir() {
            if inode.nlink > 1 {
                assert(dropped == with_inode(fs, one_link_less(inode)));
                lemma_inode_stored_keeps_dir(fs, one_link_less(inode), dir);
            } else {
                lemma_all_freeable(fs, inode);
                lemma_all_freed(fs, inode);
                lemma_file_freed(fs, inode, dir);
            }
            law_sound_directory_readable(dropped, dir, name, 0);
            assert(entry_named(dropped.disk, dir, name) == entry_named(fs.disk, dir, name));
        }
    }
}

/// On a sound disk a sound directory can be removed from another with which it shares no blocks.
pub proof fn law_directory_can_be_removed(fs: FsView, parent: u32, name: Seq<char>)
    requires
        sound(fs),
        counted(fs),
        fs.has_inode(parent),
        dir_sound(fs, fs.inode(parent)),
        entry_named(fs.disk, fs.inode(parent), name) matches Some(x) ==> {
            let inode = fs.inode(x.entry.inode);
            &&& fs.has_inode(x.entry.inode)
            &&& inode.is_dir() ==> {
                &&& dir_sound(fs, inode)
                &&& disjoint(fs, inode, fs.inode(parent))
            }
        },
    ensures
        dir_removable(fs, parent, name),
{
    let dir = fs.inode(parent);
    law_sound_directory_readable(fs, dir, name, 0);
    if entry_named(fs.disk, dir, name) is Some {
        let n = entry_named(fs.disk, dir, name)->0.entry.inode;
        let inode = fs.inode(n);
        if inode.is_dir() && entries(fs.disk, inode).len() <= 2 {
            lemma_dir_sound_blocks(fs, inode);
            let freed = blocks_freed(fs, inode, inode.block_count as int);
            lemma_all_freeable(fs, inode);
            lemma_all_freed(fs, inode);
            assert(freed == all_freed(fs, inode));
            lemma_released_keeps_dir(fs, inode, freed, dir);
            law_sound_directory_readable(freed, dir, name, 0);
            assert(entry_named(freed.disk, dir, name) == entry_named(fs.disk, dir, name));
        } else if inode.is_dir() {
            lemma_dir_sound_blocks(fs, inode);
        }
    }
}

/// On a sound disk a name can be looked up in a sound directory, if the inode that it stands for is
/// on the disk.
pub proof fn law_name_can_be_looked_up(fs: FsView, parent: u32, name: Seq<char>, offset: int)
    requires
        fs.has_inode(parent),
        dir_sound(fs, fs.inode(parent)),
        entry_named(fs.disk, fs.inode(parent), name) matches Some(x) ==> fs.has_inode(
            x.entry.inode,
        ),
    ensures
        lookup_ready(fs, parent, name),
        dir_readable(fs, parent, offset),
{
    law_sound_directory_readable(fs, fs.inode(parent), name, offset);
}

} // verus!
