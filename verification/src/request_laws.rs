//! When requests are granted, which error they get otherwise, and what a new file or directory is
//! like.

use crate::answer_laws::shows;
use crate::bitmap::{
    allocated, allocation_ready, bitmap_block, bitmap_started, is_set, marked_allocated,
    marked_free, one_less_free, one_more_free,
};
use crate::consistent::{consistent, lemma_new_dir_consistent, live, node_sound, undisturbed};
use crate::directory::{
    entries, entry_added, entry_named, entry_removed, extendable, free_place, new_entry, place_of,
    reducible, searchable, slot, slot_count, slot_is_free, slot_is_named, Slot,
};
use crate::directory_laws::{dir_sound, lemma_added_entry, lemma_first_same};
use crate::disk::{group_disk, DiskView};
use crate::fs::{
    dir_block, dir_with_block, formatted, formatted_superblock, mountable, mounted, FileAttr,
    FsError, FsView,
};
use crate::fs_laws::law_formatted_disk;
use crate::inode::{
    in_table, inode_block, inode_count, inode_written, lemma_inode_round_trip, new_dir_inode,
    new_file_inode, InodeView,
};
use crate::links::{
    lemma_directory_gone_places, lemma_file_gone_places, lemma_named_place, linked, live_dir, plain,
};
use crate::progress::{
    law_directory_can_be_made, law_file_can_be_made, law_sound_directory_readable,
    lemma_room_for_entry, lemma_scannable,
};
use crate::search::lemma_first_from;
use crate::sound::{
    lemma_allocation_keeps_sound, lemma_marked, lemma_superblock_read_back, lemma_table, owned,
    sound,
};
use crate::space::{counted, law_allocation_succeeds};
use crate::superblock::{
    fresh_superblock, superblock_at, superblock_readable, superblock_written, SuperBlockView,
    BITS_PER_BLOCK,
};
use crate::tree::{
    add_error, can_free, creatable, dir_creatable, dir_created, dir_prepared, dir_removed,
    file_created, file_unlinked, free_inode, inode_used, lemma_result_without_time, one_link_less,
    unlinked,
};
use crate::tree_laws::{
    law_made_directory_found, lemma_dir_prepared, lemma_free_inode, lemma_inode_stored,
    lemma_inode_stored_keeps_dir, new_number, with_inode,
};
use vstd::prelude::*;
use vstd::utf8::encode_utf8;

verus! {

broadcast use crate::inode::lemma_inode_at;

/// Some class of users may read a file if one of the three read bits is set, and write it if one of
/// the three write bits is.
pub proof fn law_permission_bits(inode: InodeView)
    ensures
        inode.permits(false) <==> inode.mode & 0o444 != 0,
        inode.permits(true) <==> inode.mode & 0o222 != 0,
        inode.is_dir() <==> inode.mode & 0x4000 != 0,
{
}

/// A new file is empty, has one link, belongs to user and group 1000, and may be read by all and
/// written by its owner. A new directory has two links, and may be searched by all. All times are
/// that of the making.
pub proof fn law_new_inodes(n: u32, now: i64, i: int)
    requires
        0 <= i < 10,
    ensures
        ({
            let f = new_file_inode(n, now);
            &&& f.inode_no == n && f.mode == 0o100644 && f.uid == 1000 && f.gid == 1000
            &&& f.size == 0 && f.nlink == 1 && f.block_count == 0 && f.indirect_block == 0
            &&& f.mtime == now && f.atime == now && f.ctime == now
            &&& f.direct_blocks.len() == 10 && f.direct_blocks[i] == 0
        }),
        ({
            let f = new_dir_inode(n, now);
            &&& f.inode_no == n && f.mode == 0o040755 && f.uid == 1000 && f.gid == 1000
            &&& f.size == 0 && f.nlink == 2 && f.block_count == 0 && f.indirect_block == 0
            &&& f.mtime == now && f.atime == now && f.ctime == now
            &&& f.direct_blocks.len() == 10 && f.direct_blocks[i] == 0
        }),
{
}

/// Inode `n` is the lowest one of the table, from 2 on, that is not in use.
pub open spec fn is_lowest_free(fs: FsView, n: int) -> bool {
    &&& 2 <= n < 6 * fs.sb.inode_table_blocks
    &&& n <= u32::MAX
    &&& fs.inode(n as u32).nlink == 0
    &&& forall|m: int| 2 <= m < n ==> (#[trigger] fs.inode(m as u32)).nlink != 0
}

/// All inodes of the table from 2 on are in use.
pub open spec fn all_in_use(fs: FsView) -> bool {
    forall|m: int|
        2 <= m < 6 * fs.sb.inode_table_blocks && m <= u32::MAX ==> (#[trigger] fs.inode(
            m as u32,
        )).nlink != 0
}

/// A new file or directory gets the lowest inode of the table that is free, from 2 on, and none if
/// there is none.
pub proof fn law_lowest_inode_taken(fs: FsView)
    ensures
        free_inode(fs) matches Some(n) ==> is_lowest_free(fs, n) && new_number(fs) == n,
        free_inode(fs) is None <==> all_in_use(fs),
{
    let free = |m: int| !inode_used(fs, m);
    lemma_first_from(2, inode_count(fs.sb), free);
    if free_inode(fs) is Some {
        let n = free_inode(fs)->0;
        assert(free(n));
        assert forall|m: int| 2 <= m < n implies (#[trigger] fs.inode(m as u32)).nlink != 0 by {
            assert(!free(m));
        }
    } else {
        assert forall|m: int|
            2 <= m < 6 * fs.sb.inode_table_blocks && m <= u32::MAX implies (#[trigger] fs.inode(
            m as u32,
        )).nlink != 0 by {
            assert(!free(m));
        }
    }
}

/// Directory `dir` has a place for another entry, or can get one.
pub open spec fn has_room(fs: FsView, dir: InodeView) -> bool {
    free_place(fs.disk, dir) is Some || (dir.block_count < 10 && fs.sb.free_blocks > 0)
}

/// A request to make a file is granted if its name is not taken, the directory may be written, an
/// inode is free and the directory has room. Otherwise it gets the error that says what was wrong,
/// and no name is added. The answer shows an empty file with the lowest free inode.
pub proof fn law_file_creation_answered(
    fs: FsView,
    parent: u32,
    name: Seq<char>,
    made: i64,
    added: i64,
)
    requires
        consistent(fs),
        live_dir(fs, parent),
    ensures
        creatable(fs, parent, name, made),
        ({
            let dir = fs.inode(parent);
            let taken = entry_named(fs.disk, dir, name) is Some;
            let a = file_created(fs, parent, name, made, added);
            &&& a.result == Err::<FileAttr, FsError>(FsError::Exists) <==> taken
            &&& a.result == Err::<FileAttr, FsError>(FsError::AccessDenied) <==> !taken && dir.mode
                & 0o222 == 0
            &&& a.result == Err::<FileAttr, FsError>(FsError::NoSpace) <==> !taken && dir.mode
                & 0o222 != 0 && (all_in_use(fs) || !has_room(fs, dir))
            &&& a.result is Ok <==> !taken && dir.mode & 0o222 != 0 && !all_in_use(fs) && has_room(
                fs,
                dir,
            )
            &&& taken || dir.mode & 0o222 == 0 || all_in_use(fs) ==> a.fs == fs
            &&& a.result matches Ok(attr) ==> {
                &&& is_lowest_free(fs, attr.ino as int)
                &&& shows(attr, new_file_inode(attr.ino as u32, made))
            }
        }),
{
    let dir = fs.inode(parent);
    assert(node_sound(fs, dir));
    law_lowest_inode_taken(fs);
    law_file_can_be_made(fs, parent, name, made, added);
    if entry_named(fs.disk, dir, name) is None && dir.permits(true) && free_inode(fs) is Some {
        let n = new_number(fs);
        let mid = with_inode(fs, new_file_inode(n, made));
        lemma_scannable(fs);
        lemma_free_inode(fs);
        lemma_inode_stored_keeps_dir(fs, new_file_inode(n, made), dir);
        assert(entry_named(mid.disk, dir, name) is None) by {
            assert(entry_named(mid.disk, dir, name) == entry_named(fs.disk, dir, name));
        }
        lemma_refusal_means_no_space(mid, dir, name, n, false, added);
    }
}

/// An entry whose name is not taken is refused for want of space only.
proof fn lemma_refusal_means_no_space(
    fs: FsView,
    dir: InodeView,
    name: Seq<char>,
    child: u32,
    is_dir: bool,
    now: i64,
)
    requires
        entry_named(fs.disk, dir, name) is None,
    ensures
        entry_added(fs.disk, fs.sb, dir, name, child, is_dir, now).result matches Err(e)
            ==> add_error(e) == FsError::NoSpace,
{
    reveal(entry_added);
    reveal_strlit("entry already exists");
    reveal_strlit("no free blocks for directory expansion");
    reveal_strlit("directory too large");
    assert("entry already exists"@.len() == 20);
    assert("directory too large"@.len() == 19);
    assert("no free blocks for directory expansion"@.len() == 38);
}

/// A request to make a directory is granted if its name is not taken, an inode is free and a block
/// is free. Otherwise it gets the error that says what was wrong, and nothing changes. The answer
/// shows a directory of one block with the lowest free inode.
pub proof fn law_directory_creation_answered(
    fs: FsView,
    parent: u32,
    name: Seq<char>,
    made: i64,
    added: i64,
)
    requires
        consistent(fs),
        live_dir(fs, parent),
    ensures
        ({
            let dir = fs.inode(parent);
            let taken = entry_named(fs.disk, dir, name) is Some;
            let a = dir_created(fs, parent, name, made, added);
            &&& a.result == Err::<FileAttr, FsError>(FsError::Exists) <==> taken
            &&& a.result == Err::<FileAttr, FsError>(FsError::NoSpace) <==> !taken && (all_in_use(
                fs,
            ) || fs.sb.free_blocks == 0)
            &&& a.result is Ok <==> !taken && !all_in_use(fs) && fs.sb.free_blocks > 0
            &&& a.result is Err ==> a.fs == fs
            &&& a.result matches Ok(attr) ==> {
                &&& is_lowest_free(fs, attr.ino as int)
                &&& attr.size == 510 && attr.blocks == 1
                &&& shows(
                    attr,
                    InodeView {
                        size: 510,
                        block_count: 1,
                        ..new_dir_inode(attr.ino as u32, made)
                    },
                )
            }
            &&& (taken || free_place(fs.disk, dir) is Some || dir.block_count < 10
                && fs.sb.free_blocks != 1) ==> dir_creatable(fs, parent, name, made)
        }),
{
    let dir = fs.inode(parent);
    assert(node_sound(fs, dir));
    law_lowest_inode_taken(fs);
    law_allocation_succeeds(fs);
    if entry_named(fs.disk, dir, name) is Some {
        lemma_table(fs, dir, parent);
        law_sound_directory_readable(fs, dir, name, 0);
    } else if free_place(fs.disk, dir) is Some || dir.block_count < 10 && fs.sb.free_blocks != 1 {
        law_directory_can_be_made(fs, parent, name, made, added);
    }
}

/// Whatever state the disk is in, a name that is taken is refused as such, a file in a directory that
/// may not be written is denied, and nothing is made without a free inode; nothing changes then.
/// Otherwise a file is made if and only if its entry, with the lowest free inode, can be added.
pub proof fn law_creation_in_any_state(
    fs: FsView,
    parent: u32,
    name: Seq<char>,
    made: i64,
    added: i64,
    n: u32,
)
    ensures
        ({
            let dir = fs.inode(parent);
            let taken = entry_named(fs.disk, dir, name) is Some;
            let denied = dir.mode & 0o222 == 0;
            let a = file_created(fs, parent, name, made, added);
            let b = dir_created(fs, parent, name, made, added);
            let new_disk = inode_written(fs.disk, fs.sb, new_file_inode(n, made));
            let o = entry_added(new_disk, fs.sb, dir, name, n, false, added);
            &&& taken ==> a.fs == fs && a.result == Err::<FileAttr, FsError>(FsError::Exists)
            &&& taken ==> b.fs == fs && b.result == Err::<FileAttr, FsError>(FsError::Exists)
            &&& !taken && denied ==> a.fs == fs && a.result == Err::<FileAttr, FsError>(
                FsError::AccessDenied,
            )
            &&& !taken && !denied && all_in_use(fs) ==> a.fs == fs && a.result == Err::<
                FileAttr,
                FsError,
            >(FsError::NoSpace)
            &&& !taken && all_in_use(fs) ==> b.fs == fs && b.result == Err::<FileAttr, FsError>(
                FsError::NoSpace,
            )
            &&& !taken && !denied && is_lowest_free(fs, n as int) ==> {
                &&& a.fs.disk == o.disk && a.fs.sb == o.sb
                &&& a.result is Ok <==> o.result is Ok
                &&& a.result matches Ok(attr) ==> shows(attr, new_file_inode(n, made))
            }
        }),
{
    law_lowest_inode_taken(fs);
    if is_lowest_free(fs, n as int) {
        assert(fs.inode(n).nlink == 0);
        assert(free_inode(fs) is Some);
        let m = free_inode(fs)->0;
        if m < n {
            assert(fs.inode(m as u32).nlink != 0);
        } else if n < m {
            assert(fs.inode(n as int as u32).nlink != 0);
        }
    }
}

/// A request to remove a file is granted if the name is found and does not stand for a directory. A
/// request to remove a directory is granted if the name is found, stands for a directory, and that
/// has no more than two entries. Otherwise each gets the error that says what was wrong, and
/// nothing changes.
pub proof fn law_removal_answered(fs: FsView, parent: u32, name: Seq<char>, now: i64)
    ensures
        ({
            let x = entry_named(fs.disk, fs.inode(parent), name);
            let inode = fs.inode(x->0.entry.inode);
            let a = file_unlinked(fs, parent, name, now);
            let b = dir_removed(fs, parent, name, now);
            &&& a.result == Err::<(), FsError>(FsError::NotFound) <==> x is None
            &&& a.result == Err::<(), FsError>(FsError::IsADirectory) <==> x is Some && inode.mode
                & 0x4000 != 0
            &&& a.result is Ok <==> x is Some && inode.mode & 0x4000 == 0
            &&& a.result is Err ==> a.fs == fs
            &&& b.result == Err::<(), FsError>(FsError::NotFound) <==> x is None
            &&& b.result == Err::<(), FsError>(FsError::NotADirectory) <==> x is Some && inode.mode
                & 0x4000 == 0
            &&& b.result == Err::<(), FsError>(FsError::NotEmpty) <==> x is Some && inode.mode
                & 0x4000 != 0 && entries(fs.disk, inode).len() > 2
            &&& b.result is Ok <==> x is Some && inode.mode & 0x4000 != 0 && entries(
                fs.disk,
                inode,
            ).len() <= 2
            &&& b.result is Err ==> b.fs == fs
        }),
{
}

/// An inode that is freed, or has one link less, keeps all else.
pub proof fn law_links_taken_away(inode: InodeView)
    ensures
        unlinked(inode) == (InodeView { nlink: 0, ..inode }),
        inode.nlink > 0 ==> one_link_less(inode) == (InodeView {
            nlink: (inode.nlink - 1) as u16,
            ..inode
        }),
{
}

/// A directory that has just been made in another lists `.`, which stands for itself, and `..`,
/// which stands for the other; its block is the lowest that was free.
///
/// This holds for a name that fits into an entry.
pub proof fn law_new_directory_lists_two(
    fs: FsView,
    parent: u32,
    name: Seq<char>,
    made: i64,
    added: i64,
)
    requires
        consistent(fs),
        live_dir(fs, parent),
        1 <= encode_utf8(name).len() <= 28,
        dir_creatable(fs, parent, name, made),
        dir_created(fs, parent, name, made, added).result is Ok,
    ensures
        ({
            let a = dir_created(fs, parent, name, made, added);
            let n = a.result->Ok_0.ino as u32;
            let b = a.fs.inode(n).direct_blocks[0];
            &&& !is_set(fs.disk, b as int)
            &&& forall|m: int| 0 <= m < b ==> #[trigger] is_set(fs.disk, m)
            &&& a.fs.inode(n) == (InodeView {
                size: 510,
                block_count: 1,
                direct_blocks: new_dir_inode(n, made).direct_blocks.update(0, b),
                ..new_dir_inode(n, made)
            })
            &&& entries(a.fs.disk, a.fs.inode(n)) == seq![
                Slot { entry: new_entry(n, "."@, true), block: b, offset: 0 },
                Slot { entry: new_entry(parent, ".."@, true), block: b, offset: 34 },
            ]
        }),
{
    assert(node_sound(fs, fs.inode(parent)));
    law_made_directory_found(fs, parent, name, made, added);
    law_lowest_block_taken(fs);
}

/// The directory in which a name is made or removed keeps all of its inode but the time of its last
/// change, and its size and blocks where it gets another block.
pub proof fn law_directory_of_a_change(
    fs: FsView,
    parent: u32,
    name: Seq<char>,
    made: i64,
    added: i64,
)
    requires
        consistent(fs),
        linked(fs),
        live_dir(fs, parent),
        plain(name),
    ensures
        file_created(fs, parent, name, made, added).result is Ok ==> grown_by_entry(
            fs.inode(parent),
            free_place(fs.disk, fs.inode(parent)) is Some,
            file_created(fs, parent, name, made, added).fs.inode(parent),
            added,
        ),
        file_unlinked(fs, parent, name, made).result is Ok ==> file_unlinked(
            fs,
            parent,
            name,
            made,
        ).fs.inode(parent) == (InodeView { mtime: made, ..fs.inode(parent) }),
        dir_removed(fs, parent, name, made).result is Ok ==> dir_removed(
            fs,
            parent,
            name,
            made,
        ).fs.inode(parent) == (InodeView { mtime: made, ..fs.inode(parent) }),
{
    let dir = fs.inode(parent);
    assert(node_sound(fs, dir));
    if file_created(fs, parent, name, made, added).result is Ok {
        let n = new_number(fs);
        let mid = with_inode(fs, new_file_inode(n, made));
        lemma_scannable(fs);
        lemma_free_inode(fs);
        lemma_inode_stored(fs, new_file_inode(n, made));
        lemma_inode_stored_keeps_dir(fs, new_file_inode(n, made), dir);
        lemma_added_entry(mid, dir, name, n, false, added);
        lemma_dir_after_adding(mid, dir, name, n, false, added);
    }
    if entry_named(fs.disk, dir, name) is Some {
        let n = entry_named(fs.disk, dir, name)->0.entry.inode;
        lemma_named_place(fs, parent, name);
        if file_unlinked(fs, parent, name, made).result is Ok {
            lemma_file_gone_places(fs, parent, name, n, made);
        }
        if dir_removed(fs, parent, name, made).result is Ok {
            lemma_directory_gone_places(fs, parent, name, n, made);
        }
    }
}

/// The directory in which a directory is made keeps all of its inode but the time of its last change,
/// and its size and blocks where it gets another block.
pub proof fn law_directory_of_a_new_directory(
    fs: FsView,
    parent: u32,
    name: Seq<char>,
    made: i64,
    added: i64,
)
    requires
        consistent(fs),
        live_dir(fs, parent),
        dir_creatable(fs, parent, name, made),
        dir_created(fs, parent, name, made, added).result is Ok,
    ensures
        grown_by_entry(
            fs.inode(parent),
            free_place(fs.disk, fs.inode(parent)) is Some,
            dir_created(fs, parent, name, made, added).fs.inode(parent),
            added,
        ),
{
    let dir = fs.inode(parent);
    let n = new_number(fs);
    let mid = dir_prepared(fs, n, parent, made);
    assert(node_sound(fs, dir));
    assert(entry_named(fs.disk, dir, name) is None);
    lemma_scannable(fs);
    lemma_free_inode(fs);
    lemma_dir_prepared(fs, n, parent, made);
    lemma_new_dir_consistent(fs, n, parent, made);
    assert(undisturbed(fs, mid, parent));
    assert(live(mid, parent));
    assert(node_sound(mid, dir));
    lemma_result_without_time(mid, dir, name, n, true, made, added);
    lemma_added_entry(mid, dir, name, n, true, added);
    lemma_dir_after_adding(mid, dir, name, n, true, added);
    lemma_same_free_place(fs.disk, mid.disk, dir);
}

/// A directory that holds the same entries in the same places has the same first free place.
proof fn lemma_same_free_place(d1: DiskView, d2: DiskView, dir: InodeView)
    requires
        forall|s: int| 0 <= s < slot_count(dir) ==> #[trigger] slot(d2, dir, s) == slot(d1, dir, s),
    ensures
        free_place(d2, dir) == free_place(d1, dir),
{
    let free1 = |s: int| slot_is_free(d1, dir, s);
    let free2 = |s: int| slot_is_free(d2, dir, s);
    assert forall|s: int| 0 <= s < slot_count(dir) implies #[trigger] free1(s) == free2(s) by {
        assert(slot(d2, dir, s) == slot(d1, dir, s));
    }
    lemma_first_same(0, slot_count(dir), slot_count(dir), free1, free2);
}

/// `dir2` is directory `dir` with one more entry, added at time `now`: with another block unless it
/// had `room`.
pub open spec fn grown_by_entry(dir: InodeView, room: bool, dir2: InodeView, now: i64) -> bool {
    &&& dir2 == (InodeView {
        mtime: now,
        size: dir2.size,
        block_count: dir2.block_count,
        direct_blocks: dir2.direct_blocks,
        ..dir
    })
    &&& room ==> dir2 == (InodeView { mtime: now, ..dir })
    &&& !room ==> dir2.block_count == dir.block_count + 1 && dir2.size == 510 * dir2.block_count
}

proof fn lemma_dir_after_adding(
    fs: FsView,
    dir: InodeView,
    name: Seq<char>,
    child: u32,
    is_dir: bool,
    now: i64,
)
    requires
        dir.block_count <= 10,
        entry_added(fs.disk, fs.sb, dir, name, child, is_dir, now).result is Ok,
    ensures
        grown_by_entry(
            dir,
            free_place(fs.disk, dir) is Some,
            entry_added(fs.disk, fs.sb, dir, name, child, is_dir, now).dir,
            now,
        ),
{
    reveal(entry_added);
}

/// An entry is added unless its name is taken, the directory has ten blocks without a free place,
/// or it needs a block and there is none. A refusal says which, and changes nothing.
pub proof fn law_entry_addition_answered(
    d: DiskView,
    sb: SuperBlockView,
    dir: InodeView,
    name: Seq<char>,
    child: u32,
    is_dir: bool,
    now: i64,
)
    ensures
        ({
            let o = entry_added(d, sb, dir, name, child, is_dir, now);
            let taken = entry_named(d, dir, name) is Some;
            let full = free_place(d, dir) is None;
            &&& taken ==> o.result == Err::<(), Seq<char>>("entry already exists"@)
            &&& !taken && full && dir.block_count >= 10 ==> o.result == Err::<(), Seq<char>>(
                "directory too large"@,
            )
            &&& !taken && full && dir.block_count < 10 && allocated(d, sb) is None ==> o.result
                == Err::<(), Seq<char>>("no free blocks for directory expansion"@)
            &&& o.result is Ok <==> !taken && (!full || dir.block_count < 10 && allocated(
                d,
                sb,
            ) is Some)
            &&& o.result is Err ==> o.disk == d && o.sb == sb && o.dir == dir
        }),
{
    reveal(entry_added);
}

/// A new entry goes to the first free place of a directory.
pub proof fn law_first_free_place(d: DiskView, dir: InodeView)
    ensures
        match free_place(d, dir) {
            Some(s) => {
                &&& 0 <= s < 15 * dir.block_count
                &&& slot(d, dir, s) is Some && slot(d, dir, s)->0.entry.name_len == 0
                &&& forall|t: int|
                    0 <= t < s && (#[trigger] slot(d, dir, t)) is Some ==> slot(
                        d,
                        dir,
                        t,
                    )->0.entry.name_len != 0
            },
            None => forall|t: int|
                0 <= t < 15 * dir.block_count && (#[trigger] slot(d, dir, t)) is Some ==> slot(
                    d,
                    dir,
                    t,
                )->0.entry.name_len != 0,
        },
{
    let free = |s: int| slot_is_free(d, dir, s);
    lemma_first_from(0, slot_count(dir), free);
    let n = match free_place(d, dir) {
        Some(s) => s,
        None => slot_count(dir),
    };
    if free_place(d, dir) is Some {
        assert(free(n));
    }
    assert forall|t: int| 0 <= t < n && (#[trigger] slot(d, dir, t)) is Some implies slot(
        d,
        dir,
        t,
    )->0.entry.name_len != 0 by {
        assert(!free(t));
    }
}

/// Removing an entry sets the length of its name to 0, on the disk, and no other byte of its block.
/// A name that is not there is answered as such, and nothing changes.
pub proof fn law_removal_clears_one_byte(
    fs: FsView,
    dir: InodeView,
    name: Seq<char>,
    now: i64,
    k: int,
)
    requires
        sound(fs),
        dir_sound(fs, dir),
        in_table(fs.sb, dir.inode_no),
        0 <= k < 512,
    ensures
        ({
            let o = entry_removed(fs.disk, fs.sb, dir, name, now);
            match entry_named(fs.disk, dir, name) {
                Some(x) => {
                    &&& o.result is Ok
                    &&& o.sb == fs.sb
                    &&& o.dir == (InodeView { mtime: now, ..dir })
                    &&& o.disk.block(x.block as int)[k] == if k == x.offset + 5 {
                        0u8
                    } else {
                        fs.disk.block(x.block as int)[k]
                    }
                },
                None => o.result == Err::<(), Seq<char>>("entry not found"@) && o.disk == fs.disk
                    && o.sb == fs.sb && o.dir == dir,
            }
        }),
{
    broadcast use group_disk;

    reveal(entry_removed);
    if entry_named(fs.disk, dir, name) is Some {
        let x = entry_named(fs.disk, dir, name)->0;
        let named = |s: int| slot_is_named(fs.disk, dir, name, s);
        lemma_first_from(0, slot_count(dir), named);
        let s = place_of(fs.disk, dir, name)->0;
        assert(named(s));
        let i = s / 15;
        assert(0 <= i < dir.block_count);
        assert(dir.pointer(fs.disk, i) == Some(x.block));
        assert(owned(fs, x.block as int));
        lemma_table(fs, dir, dir.inode_no);
        let cleared = fs.disk.block(x.block as int).update(x.offset + 5, 0u8);
        let mid = fs.disk.write(x.block as int, cleared);
        assert(mid.block(x.block as int) == cleared);
        assert(mid.has(x.block as int));
        let touched = InodeView { mtime: now, ..dir };
        lemma_inode_round_trip(touched);
        assert(mid.has(inode_block(fs.sb, dir.inode_no)));
    }
}

/// An allocation takes the lowest block that is free, marks it, and counts one less. There is none
/// if none is counted as free, or none of the blocks of the disk is marked as free.
pub proof fn law_lowest_block_taken(fs: FsView)
    requires
        sound(fs),
    ensures
        match allocated(fs.disk, fs.sb) {
            Some((d, sb, b)) => {
                &&& fs.sb.free_blocks > 0
                &&& b < 20480
                &&& !is_set(fs.disk, b as int)
                &&& forall|m: int| 0 <= m < b ==> #[trigger] is_set(fs.disk, m)
                &&& sb == (SuperBlockView { free_blocks: (fs.sb.free_blocks - 1) as u32, ..fs.sb })
                &&& superblock_at(d) == sb
                &&& forall|m: int|
                    0 <= m < 4096 * fs.sb.bitmap_blocks ==> #[trigger] is_set(d, m) == (m == b
                        || is_set(fs.disk, m))
                &&& forall|c: int|
                    fs.sb.bitmap_blocks < c && fs.disk.has(c) ==> #[trigger] d.block(c)
                        == fs.disk.block(c)
            },
            None => fs.sb.free_blocks == 0 || forall|m: int|
                0 <= m < 4096 * fs.sb.bitmap_blocks && m < 20480 ==> #[trigger] is_set(fs.disk, m),
        },
{
    let free = |m: int| !is_set(fs.disk, m);
    lemma_first_from(0, fs.sb.bitmap_blocks * BITS_PER_BLOCK, free);
    lemma_allocation_keeps_sound(fs);
    assert forall|m: int|
        allocated(fs.disk, fs.sb) is None && fs.sb.free_blocks != 0 && 0 <= m < 4096
            * fs.sb.bitmap_blocks && m < 20480 implies #[trigger] is_set(fs.disk, m) by {
        assert(superblock_at(fs.disk) == fs.sb);
        if !is_set(fs.disk, m) {
            assert(free(m));
        }
    }
}

/// Marking a block as allocated or as free sets its bit and no other, counts one less or one more,
/// and writes the superblock.
pub proof fn law_mark_sets_one_bit(d: DiskView, sb: SuperBlockView, b: int, c: int)
    requires
        0 <= b,
        0 <= c,
        d.has(0),
        d.has(1 + b / 4096),
        d.has(1 + c / 4096),
        sb.magic.len() == 16,
        0 < sb.free_blocks < u32::MAX,
    ensures
        is_set(marked_allocated(d, sb, b), c) == (c == b || is_set(d, c)),
        is_set(marked_free(d, sb, b), c) == (c != b && is_set(d, c)),
        superblock_at(marked_allocated(d, sb, b)) == (SuperBlockView {
            free_blocks: (sb.free_blocks - 1) as u32,
            ..sb
        }),
        superblock_at(marked_free(d, sb, b)) == (SuperBlockView {
            free_blocks: (sb.free_blocks + 1) as u32,
            ..sb
        }),
{
    lemma_marked(d, b, true, one_less_free(sb));
    lemma_marked(d, b, false, one_more_free(sb));
    assert(d.has(bitmap_block(c)));
}

/// A block can be freed if the part of the bitmap that records it is on the disk, and the count of
/// free blocks has room for one more.
pub proof fn law_block_can_be_freed(fs: FsView, b: int)
    ensures
        can_free(fs, b) <==> fs.disk.has(1 + b / 4096) && fs.sb.free_blocks < u32::MAX,
{
}

/// On a sound disk an entry can be looked for in a sound directory, and added or removed.
pub proof fn law_entries_can_be_changed(fs: FsView, dir: InodeView, name: Seq<char>)
    requires
        sound(fs),
        counted(fs),
        dir_sound(fs, dir),
        fs.has_inode(dir.inode_no),
    ensures
        extendable(fs.disk, fs.sb, dir, name),
        reducible(fs.disk, fs.sb, dir, name),
        searchable(fs.disk, dir, name),
        allocation_ready(fs.disk, fs.sb),
{
    law_sound_directory_readable(fs, dir, name, 0);
    lemma_room_for_entry(fs, dir, name, 0, false, 0);
    lemma_allocation_keeps_sound(fs);
}

/// A disk that was empty has 20480 blocks when it is mounted: the superblock, five of bitmap, 25 of
/// inodes, and the rest for data, of which the root directory has the first.
pub proof fn law_new_disk_in_numbers(d: DiskView, now: i64, c: int)
    requires
        d.image.len() == 0,
    ensures
        ({
            let fs = mounted(d, now);
            let root = fs.inode(1);
            &&& mountable(d)
            &&& fs.sb.magic == seq![
                83u8, 73, 77, 80, 76, 69, 70, 83, 45, 82, 85, 83, 84, 0, 0, 0,
            ]
            &&& fs.sb.total_blocks == 20480
            &&& fs.sb.free_blocks == 20448
            &&& fs.sb.bitmap_blocks == 5
            &&& fs.sb.inode_table_start == 6
            &&& fs.sb.inode_table_blocks == 25
            &&& fs.sb.data_start == 31
            &&& fs.sb.root_inode == 1
            &&& superblock_at(fs.disk) == fs.sb
            &&& fs.disk.has(c) <==> 0 <= c < 20480
            &&& 0 <= c < 20480 ==> is_set(fs.disk, c) == (c < 32)
            &&& root == (InodeView {
                size: 510,
                block_count: 1,
                direct_blocks: new_dir_inode(1, now).direct_blocks.update(0, 31u32),
                ..new_dir_inode(1, now)
            })
            &&& entries(fs.disk, root) == seq![
                Slot { entry: new_entry(1, "."@, true), block: 31, offset: 0 },
                Slot { entry: new_entry(1, ".."@, true), block: 31, offset: 34 },
            ]
        }),
{
    broadcast use group_disk;

    let e = d.truncate(10485760);
    law_formatted_disk(e, now);
    assert(mounted(d, now) == formatted(e, now));
    lemma_formatted_size(e, now, c);
}

/// Formatting a disk does not change its size.
proof fn lemma_formatted_size(e: DiskView, now: i64, c: int)
    requires
        e.image.len() == 10485760,
    ensures
        formatted(e, now).disk.has(c) == e.has(c),
{
    broadcast use group_disk;

    let d1 = superblock_written(e, fresh_superblock());
    let d2 = bitmap_started(d1, 31, 5);
    let d3 = marked_allocated(d2, fresh_superblock(), 31);
    let d4 = d3.write(31, dir_block(1, 1));
    let sb4 = one_less_free(fresh_superblock());
    let root = dir_with_block(1, 31, now);
    let d5 = inode_written(d4, sb4, root);
    lemma_superblock_read_back(e, fresh_superblock());
    assert(e.has(0) && d1.has(39));
    lemma_started_size(d1, 5, c);
    lemma_started_size(d1, 5, 0);
    lemma_started_size(d1, 5, 1);
    lemma_started_size(d1, 5, 6);
    lemma_started_size(d1, 5, 31);
    lemma_marked(d2, 31, true, sb4);
    lemma_inode_round_trip(root);
    lemma_dir_block_size();
    assert(d1.has(c) == e.has(c));
    assert(d3.has(c) == d2.has(c));
    assert(d4.has(c) == d3.has(c));
    assert(d4.has(6));
    assert(d5.has(c) == d4.has(c));
    assert(d5.has(0));
    lemma_superblock_read_back(d5, formatted_superblock());
}

proof fn lemma_dir_block_size()
    ensures
        dir_block(1, 1).len() == 512,
{
}

proof fn lemma_started_size(d: DiskView, count: int, c: int)
    requires
        0 <= count <= 5,
        d.has(39),
    ensures
        bitmap_started(d, 31, count).has(c) == d.has(c),
    decreases count,
{
    broadcast use group_disk;

    if count > 0 {
        lemma_started_size(d, count - 1, c);
        lemma_started_size(d, count - 1, count);
    }
}

/// A disk that holds something is mounted as it is, with the superblock that it holds.
pub proof fn law_mount_leaves_disk(d: DiskView, now: i64)
    requires
        d.image.len() > 0,
    ensures
        mounted(d, now).disk == d,
        mounted(d, now).sb == superblock_at(d),
        mountable(d) <==> superblock_readable(d),
{
}

} // verus!
