//! Requests one after the other, from an empty disk to the next mount.

use crate::bitmap::allocated;
use crate::consistent::{
    consistent, lemma_create_consistent, lemma_live_disjoint, lemma_mkdir_consistent,
    lemma_rmdir_consistent, lemma_setattr_consistent, lemma_unlink_consistent,
    lemma_write_consistent, live, node_sound,
};
use crate::directory::{entry_added, entry_named, free_place};
use crate::directory_laws::{
    dir_sound, law_refused_change_leaves_directory, lemma_added_entry, outcome_fs,
};
use crate::disk::{replayed, Command, DiskView, DISK_SIZE};
use crate::file::{blocks_wanted, file_written, position, too_big, writable, MAX_FILE_SIZE};
use crate::file_laws::{disjoint, law_write_succeeds, lemma_write_effect, stuck_at_indirect};
use crate::flush::{flushed, law_mount_flushed, law_tree_change_flushed, law_write_flushed};
use crate::fs::{
    attr_set, formatted_superblock, inode_with_mode, mounted, FsView, ROOT_BLOCK, ROOT_INODE,
};
use crate::fs_laws::{law_formatted_disk, law_mounted_again, law_mounted_empty_disk};
use crate::inode::{in_table, new_file_inode, InodeView, DIRECT_BLOCKS};
use crate::links::{
    leads_to, lemma_create_linked, lemma_mkdir_linked, lemma_named_place,
    lemma_new_dir_leads_nowhere, lemma_rmdir_linked, lemma_setattr_linked, lemma_unlink_linked,
    lemma_write_linked, linked, live_dir, plain,
};
use crate::progress::{
    law_directory_can_be_made, law_directory_can_be_removed, law_file_can_be_made,
    law_file_can_be_removed, law_sound_directory_readable, lemma_scannable,
};
use crate::removal_laws::{
    law_removed_directory_gone, law_unlinked_file_gone, law_unlinked_name_gone,
};
use crate::sound::{inode_sound, lemma_table, owned, sound};
use crate::superblock::superblock_at;
use crate::tree::{
    creatable, dir_creatable, dir_created, dir_prepared, dir_removable, dir_removed, file_created,
    file_unlinked, free_inode, unlinkable,
};
use crate::tree_laws::{
    lemma_dir_kept, lemma_dir_prepared, lemma_free_inode, lemma_inode_stored,
    lemma_inode_stored_keeps_dir, new_number, with_inode,
};
use vstd::prelude::*;

verus! {

broadcast use crate::inode::lemma_inode_at;

/// A request that can change the disk, with the times at which it is carried out.
pub enum Request {
    Write { ino: u32, offset: int, data: Seq<u8>, now: i64 },
    Create { parent: u32, name: Seq<char>, made: i64, added: i64 },
    Mkdir { parent: u32, name: Seq<char>, made: i64, added: i64 },
    Unlink { parent: u32, name: Seq<char>, now: i64 },
    Rmdir { parent: u32, name: Seq<char>, now: i64 },
    Setattr { ino: u32, mode: Option<u32>, now: i64 },
}

/// The file system after request `q`, whether it was refused or not.
pub open spec fn served(fs: FsView, q: Request) -> FsView {
    match q {
        Request::Write { ino, offset, data, now } => file_written(fs, ino, offset, data, now).0,
        Request::Create { parent, name, made, added } => file_created(
            fs,
            parent,
            name,
            made,
            added,
        ).fs,
        Request::Mkdir { parent, name, made, added } => dir_created(
            fs,
            parent,
            name,
            made,
            added,
        ).fs,
        Request::Unlink { parent, name, now } => file_unlinked(fs, parent, name, now).fs,
        Request::Rmdir { parent, name, now } => dir_removed(fs, parent, name, now).fs,
        Request::Setattr { ino, mode, now } => attr_set(fs, ino, mode, now),
    }
}

/// Request `q` is answered.
pub open spec fn answered(fs: FsView, q: Request) -> bool {
    match q {
        Request::Write { ino, offset, data, now } => writable(fs, ino, offset, data),
        Request::Create { parent, name, made, added } => creatable(fs, parent, name, made),
        Request::Mkdir { parent, name, made, added } => dir_creatable(fs, parent, name, made),
        Request::Unlink { parent, name, now } => unlinkable(fs, parent, name),
        Request::Rmdir { parent, name, now } => dir_removable(fs, parent, name),
        Request::Setattr { ino, mode, now } => fs.has_inode(ino),
    }
}

/// Request `q` is about inodes in use: a write is one to a file, and a name is one in a directory.
/// A name to be removed is neither `.` nor `..`, unless the request is refused.
pub open spec fn proper(fs: FsView, q: Request) -> bool {
    match q {
        Request::Write { ino, offset, data, now } => live(fs, ino) && !fs.inode(ino).is_dir(),
        Request::Create { parent, name, made, added } => live_dir(fs, parent),
        Request::Mkdir { parent, name, made, added } => live_dir(fs, parent),
        Request::Unlink { parent, name, now } => live_dir(fs, parent) && (plain(name)
            || file_unlinked(fs, parent, name, now).result is Err),
        Request::Rmdir { parent, name, now } => live_dir(fs, parent) && (plain(name)
            || dir_removed(fs, parent, name, now).result is Err),
        Request::Setattr { ino, mode, now } => in_table(fs.sb, ino),
    }
}

/// The file system after the requests `qs`, one after the other.
pub open spec fn all_served(fs: FsView, qs: Seq<Request>) -> FsView
    decreases qs.len(),
{
    if qs.len() == 0 {
        fs
    } else {
        served(all_served(fs, qs.drop_last()), qs.last())
    }
}

/// Each of the requests `qs` is answered and is about inodes in use when its turn comes.
pub open spec fn all_proper(fs: FsView, qs: Seq<Request>) -> bool
    decreases qs.len(),
{
    qs.len() > 0 ==> {
        let before = all_served(fs, qs.drop_last());
        &&& all_proper(fs, qs.drop_last())
        &&& answered(before, qs.last())
        &&& proper(before, qs.last())
    }
}

/// The entry `name` of directory `parent`, if there is one, stands for an inode of the table; if
/// that is a directory, or is not, as `is_dir` says, it is sound and shares no block with the
/// directory.
pub open spec fn sound_entry(fs: FsView, parent: u32, name: Seq<char>, is_dir: bool) -> bool {
    entry_named(fs.disk, fs.inode(parent), name) matches Some(x) ==> {
        let inode = fs.inode(x.entry.inode);
        &&& in_table(fs.sb, x.entry.inode)
        &&& inode.is_dir() == is_dir ==> {
            &&& x.entry.inode != parent
            &&& node_sound(fs, inode)
            &&& disjoint(fs, inode, fs.inode(parent))
        }
    }
}

/// The inodes that request `q` is about are sound, whatever the others are.
pub open spec fn about_sound(fs: FsView, q: Request) -> bool {
    match q {
        Request::Write { ino, offset, data, now } => in_table(fs.sb, ino) && inode_sound(
            fs,
            fs.inode(ino),
        ),
        Request::Create { parent, name, made, added } => in_table(fs.sb, parent) && dir_sound(
            fs,
            fs.inode(parent),
        ),
        Request::Mkdir { parent, name, made, added } => in_table(fs.sb, parent) && dir_sound(
            fs,
            fs.inode(parent),
        ),
        Request::Unlink { parent, name, now } => in_table(fs.sb, parent) && dir_sound(
            fs,
            fs.inode(parent),
        ) && sound_entry(fs, parent, name, false),
        Request::Rmdir { parent, name, now } => in_table(fs.sb, parent) && dir_sound(
            fs,
            fs.inode(parent),
        ) && sound_entry(fs, parent, name, true),
        Request::Setattr { ino, mode, now } => in_table(fs.sb, ino),
    }
}

/// Each of the requests `qs` is answered and is about sound inodes when its turn comes.
pub open spec fn all_about_sound(fs: FsView, qs: Seq<Request>) -> bool
    decreases qs.len(),
{
    qs.len() > 0 ==> {
        let before = all_served(fs, qs.drop_last());
        &&& all_about_sound(fs, qs.drop_last())
        &&& answered(before, qs.last())
        &&& about_sound(before, qs.last())
    }
}

/// A request keeps the superblock on the disk that of the file system, whether it is refused or
/// not, and the file system sound.
pub proof fn law_superblock_kept(fs: FsView, q: Request)
    requires
        sound(fs),
        answered(fs, q),
        about_sound(fs, q),
    ensures
        superblock_at(served(fs, q).disk) == served(fs, q).sb,
        sound(served(fs, q)),
{
    match q {
        Request::Write { ino, offset, data, now } => {
            lemma_write_effect(fs, ino, offset, data, now);
        },
        Request::Create { parent, name, made, added } => {
            lemma_create_sound(fs, parent, name, made, added);
        },
        Request::Mkdir { parent, name, made, added } => {
            lemma_mkdir_sound(fs, parent, name, made, added);
        },
        Request::Unlink { parent, name, now } => {
            if file_unlinked(fs, parent, name, now).result is Ok {
                let n = entry_named(fs.disk, fs.inode(parent), name)->0.entry.inode;
                if fs.inode(n).nlink > 1 {
                    law_unlinked_name_gone(fs, parent, name, now);
                } else {
                    law_unlinked_file_gone(fs, parent, name, now);
                }
            }
        },
        Request::Rmdir { parent, name, now } => {
            if dir_removed(fs, parent, name, now).result is Ok {
                law_removed_directory_gone(fs, parent, name, now);
            }
        },
        Request::Setattr { ino, mode, now } => {
            lemma_table(fs, fs.inode(ino), ino);
            lemma_inode_stored(fs, inode_with_mode(fs.inode(ino), mode, now));
        },
    }
}

proof fn lemma_create_sound(fs: FsView, parent: u32, name: Seq<char>, made: i64, added: i64)
    requires
        sound(fs),
        in_table(fs.sb, parent),
        dir_sound(fs, fs.inode(parent)),
    ensures
        sound(file_created(fs, parent, name, made, added).fs),
{
    let dir = fs.inode(parent);
    if entry_named(fs.disk, dir, name) is None && dir.permits(true) && free_inode(fs) is Some {
        let n = new_number(fs);
        let inode = new_file_inode(n, made);
        let mid = with_inode(fs, inode);
        lemma_scannable(fs);
        lemma_free_inode(fs);
        lemma_inode_stored(fs, inode);
        lemma_inode_stored_keeps_dir(fs, inode, dir);
        lemma_adding_keeps_sound(mid, dir, name, n, false, added);
    }
}

proof fn lemma_mkdir_sound(fs: FsView, parent: u32, name: Seq<char>, made: i64, added: i64)
    requires
        sound(fs),
        in_table(fs.sb, parent),
        dir_sound(fs, fs.inode(parent)),
    ensures
        sound(dir_created(fs, parent, name, made, added).fs),
{
    let dir = fs.inode(parent);
    if entry_named(fs.disk, dir, name) is None && free_inode(fs) is Some && allocated(
        fs.disk,
        fs.sb,
    ) is Some {
        let n = new_number(fs);
        let mid = dir_prepared(fs, n, parent, made);
        lemma_scannable(fs);
        lemma_free_inode(fs);
        lemma_dir_prepared(fs, n, parent, made);
        lemma_table(fs, dir, n);
        assert forall|i: int| 0 <= i < dir.block_count implies owned(
            mid,
            (#[trigger] dir.pointer(fs.disk, i))->0 as int,
        ) && mid.disk.block(dir.pointer(fs.disk, i)->0 as int) == fs.disk.block(
            dir.pointer(fs.disk, i)->0 as int,
        ) by {
            assert(owned(fs, dir.pointer(fs.disk, i)->0 as int));
        }
        lemma_dir_kept(fs, mid, dir);
        lemma_adding_keeps_sound(mid, dir, name, n, true, added);
    }
}

proof fn lemma_adding_keeps_sound(
    fs: FsView,
    dir: InodeView,
    name: Seq<char>,
    child: u32,
    is_dir: bool,
    now: i64,
)
    requires
        sound(fs),
        in_table(fs.sb, dir.inode_no),
        dir_sound(fs, dir),
    ensures
        sound(outcome_fs(entry_added(fs.disk, fs.sb, dir, name, child, is_dir, now))),
{
    if entry_added(fs.disk, fs.sb, dir, name, child, is_dir, now).result is Err {
        law_refused_change_leaves_directory(fs, dir, name, child, is_dir, now);
    } else {
        lemma_added_entry(fs, dir, name, child, is_dir, now);
    }
}

/// A request that is answered keeps the backing file one replay behind the disk.
proof fn lemma_request_flushed(base: Seq<u8>, fs: FsView, q: Request)
    requires
        answered(fs, q),
        flushed(base, fs.disk),
    ensures
        flushed(base, served(fs, q).disk),
{
    match q {
        Request::Write { ino, offset, data, now } => {
            law_write_flushed(base, fs, ino, offset, data, now);
        },
        Request::Create { parent, name, made, added } => {
            law_tree_change_flushed(base, fs, parent, name, made, added);
        },
        Request::Mkdir { parent, name, made, added } => {
            law_tree_change_flushed(base, fs, parent, name, made, added);
        },
        Request::Unlink { parent, name, now } => {
            law_tree_change_flushed(base, fs, parent, name, now, now);
        },
        Request::Rmdir { parent, name, now } => {
            law_tree_change_flushed(base, fs, parent, name, now, now);
        },
        Request::Setattr { ino, mode, now } => {
            law_mount_flushed(base, fs.disk, fs, ino, mode, now);
        },
    }
}

/// Any number of requests about sound inodes keep the superblock on the disk that of the file
/// system, the file system sound, and the backing file one replay behind the disk. Nothing is asked
/// of the inodes that no request is about.
pub proof fn law_requests_keep_superblock(base: Seq<u8>, fs: FsView, qs: Seq<Request>)
    requires
        sound(fs),
        all_about_sound(fs, qs),
    ensures
        sound(all_served(fs, qs)),
        superblock_at(all_served(fs, qs).disk) == all_served(fs, qs).sb,
        flushed(base, fs.disk) ==> flushed(base, all_served(fs, qs).disk),
    decreases qs.len(),
{
    if qs.len() > 0 {
        let before = all_served(fs, qs.drop_last());
        law_requests_keep_superblock(base, fs, qs.drop_last());
        law_superblock_kept(before, qs.last());
        if flushed(base, before.disk) {
            lemma_request_flushed(base, before, qs.last());
        }
    }
}

/// A request keeps a file system consistent, every name one for an inode in use, the superblock on
/// the disk that of the file system, and the backing file one replay behind the disk.
pub proof fn law_request_keeps_consistency(base: Seq<u8>, fs: FsView, q: Request)
    requires
        consistent(fs),
        linked(fs),
        answered(fs, q),
        proper(fs, q),
    ensures
        consistent(served(fs, q)),
        linked(served(fs, q)),
        superblock_at(served(fs, q).disk) == served(fs, q).sb,
        flushed(base, fs.disk) ==> flushed(base, served(fs, q).disk),
{
    if flushed(base, fs.disk) {
        lemma_request_flushed(base, fs, q);
    }
    match q {
        Request::Write { ino, offset, data, now } => {
            lemma_write_consistent(fs, ino, offset, data, now);
            lemma_write_linked(fs, ino, offset, data, now);
        },
        Request::Create { parent, name, made, added } => {
            lemma_create_consistent(fs, parent, name, made, added);
            lemma_create_linked(fs, parent, name, made, added);
        },
        Request::Mkdir { parent, name, made, added } => {
            lemma_mkdir_consistent(fs, parent, name, made, added);
            lemma_mkdir_linked(fs, parent, name, made, added);
        },
        Request::Unlink { parent, name, now } => {
            if plain(name) {
                lemma_leads_on(fs, parent, name);
                lemma_unlink_consistent(fs, parent, name, now);
                lemma_unlink_linked(fs, parent, name, now);
            }
        },
        Request::Rmdir { parent, name, now } => {
            if plain(name) {
                lemma_leads_on(fs, parent, name);
                lemma_rmdir_consistent(fs, parent, name, now);
                lemma_rmdir_linked(fs, parent, name, now);
            }
        },
        Request::Setattr { ino, mode, now } => {
            lemma_setattr_consistent(fs, ino, mode, now);
            lemma_setattr_linked(fs, ino, mode, now);
        },
    }
}

/// A name found in a directory in use, other than `.` and `..`, stands for an inode in use that is
/// not the directory.
proof fn lemma_leads_on(fs: FsView, parent: u32, name: Seq<char>)
    requires
        linked(fs),
        live_dir(fs, parent),
        plain(name),
    ensures
        entry_named(fs.disk, fs.inode(parent), name) matches Some(x) ==> live(fs, x.entry.inode)
            && x.entry.inode != parent,
{
    if entry_named(fs.disk, fs.inode(parent), name) is Some {
        lemma_named_place(fs, parent, name);
    }
}

/// The free space is not such that request `q` stops half-way: the blocks do not run out just
/// before the indirect block of a file that is written, and a directory in which one is made has a
/// place for the name or can get one. No write runs from the last byte that an offset can stand for
/// on to the first, and what is removed is neither `.` nor `..`.
pub open spec fn unhindered(fs: FsView, q: Request) -> bool {
    match q {
        Request::Write { ino, offset, data, now } => data.len() > 0 ==> {
            let n = blocks_wanted(offset, data.len() as int);
            !too_big(offset, data.len() as int) ==> {
                &&& position(offset) + data.len() <= MAX_FILE_SIZE
                &&& !stuck_at_indirect(
                    fs.inode(ino).block_count as int,
                    n,
                    fs.sb.free_blocks as int,
                )
            }
        },
        Request::Mkdir { parent, name, made, added } => {
            ||| entry_named(fs.disk, fs.inode(parent), name) is Some
            ||| free_place(fs.disk, fs.inode(parent)) is Some
            ||| fs.inode(parent).block_count < DIRECT_BLOCKS && fs.sb.free_blocks != 1
        },
        Request::Unlink { parent, name, now } => plain(name),
        Request::Rmdir { parent, name, now } => plain(name),
        _ => true,
    }
}

/// On a consistent file system every request about inodes in use is answered, unless the free space
/// runs out half-way.
pub proof fn law_request_is_answered(fs: FsView, q: Request)
    requires
        consistent(fs),
        linked(fs),
        proper(fs, q),
        unhindered(fs, q),
    ensures
        answered(fs, q),
{
    match q {
        Request::Write { ino, offset, data, now } => {
            assert(node_sound(fs, fs.inode(ino)));
            lemma_table(fs, fs.inode(ino), ino);
            if data.len() > 0 && !too_big(offset, data.len() as int) {
                law_write_succeeds(fs, ino, offset, data, now);
            }
        },
        Request::Create { parent, name, made, added } => {
            assert(node_sound(fs, fs.inode(parent)));
            law_file_can_be_made(fs, parent, name, made, added);
        },
        Request::Mkdir { parent, name, made, added } => {
            let dir = fs.inode(parent);
            assert(node_sound(fs, dir));
            if entry_named(fs.disk, dir, name) is Some {
                lemma_table(fs, dir, parent);
                law_sound_directory_readable(fs, dir, name, 0);
            } else {
                law_directory_can_be_made(fs, parent, name, made, added);
            }
        },
        Request::Unlink { parent, name, now } => {
            lemma_entry_apart(fs, parent, name);
            law_file_can_be_removed(fs, parent, name);
        },
        Request::Rmdir { parent, name, now } => {
            lemma_entry_apart(fs, parent, name);
            lemma_table(fs, fs.inode(parent), parent);
            law_directory_can_be_removed(fs, parent, name);
        },
        Request::Setattr { ino, mode, now } => {
            lemma_table(fs, fs.inode(ino), ino);
        },
    }
}

/// What a name in a directory in use stands for is sound, and shares no block with the directory.
pub proof fn lemma_entry_apart(fs: FsView, parent: u32, name: Seq<char>)
    requires
        consistent(fs),
        linked(fs),
        live_dir(fs, parent),
        plain(name),
    ensures
        dir_sound(fs, fs.inode(parent)),
        entry_named(fs.disk, fs.inode(parent), name) matches Some(x) ==> {
            &&& in_table(fs.sb, x.entry.inode)
            &&& fs.has_inode(x.entry.inode)
            &&& node_sound(fs, fs.inode(x.entry.inode))
            &&& disjoint(fs, fs.inode(x.entry.inode), fs.inode(parent))
        },
{
    assert(node_sound(fs, fs.inode(parent)));
    lemma_leads_on(fs, parent, name);
    if entry_named(fs.disk, fs.inode(parent), name) is Some {
        let n = entry_named(fs.disk, fs.inode(parent), name)->0.entry.inode;
        lemma_table(fs, fs.inode(n), n);
        lemma_live_disjoint(fs, n, parent);
    }
}

/// Any number of requests keep a file system consistent, every name one for an inode in use, and
/// the backing file one replay behind the disk.
pub proof fn law_requests_keep_consistency(base: Seq<u8>, fs: FsView, qs: Seq<Request>)
    requires
        consistent(fs),
        linked(fs),
        all_proper(fs, qs),
    ensures
        consistent(all_served(fs, qs)),
        linked(all_served(fs, qs)),
        flushed(base, fs.disk) ==> flushed(base, all_served(fs, qs).disk),
    decreases qs.len(),
{
    if qs.len() > 0 {
        law_requests_keep_consistency(base, fs, qs.drop_last());
        law_request_keeps_consistency(base, all_served(fs, qs.drop_last()), qs.last());
    }
}

/// A disk that was empty when it was mounted holds a consistent file system, with its root in use.
pub proof fn law_new_disk_consistent(d: DiskView, now: i64)
    requires
        d.image.len() == 0,
    ensures
        consistent(mounted(d, now)),
        linked(mounted(d, now)),
        live_dir(mounted(d, now), ROOT_INODE),
{
    let fs = mounted(d, now);
    law_formatted_disk(d.truncate(DISK_SIZE as int), now);
    assert(0o040755u16 & 0x4000 != 0) by (bit_vector);
    assert forall|n: u32| #[trigger] live(fs, n) implies n == ROOT_INODE by {
        if n != ROOT_INODE {
            assert(in_table(formatted_superblock(), n));
            law_mounted_empty_disk(d, now, n);
        }
    }
    lemma_new_dir_leads_nowhere(fs, ROOT_INODE, ROOT_INODE, ROOT_BLOCK);
    assert forall|n: u32, s: int, m: u32| !#[trigger] leads_to(fs, n, s, m) by {
        assert(live(fs, n) ==> n == ROOT_INODE);
    }
}

/// Whatever was done since an empty disk was first mounted, the backing file holds the image of the
/// disk once the commands have been carried out on it, and mounting that file gives back the file
/// system that was left: its superblock, its blocks and its inodes. Nothing is formatted anew.
///
/// This holds for requests about inodes in use.
pub proof fn law_remount_gives_back(
    d: DiskView,
    now: i64,
    qs: Seq<Request>,
    log: Seq<Command>,
    later: i64,
)
    requires
        d.image.len() == 0,
        d.log.len() == 0,
        all_proper(mounted(d, now), qs),
    ensures
        ({
            let fs = all_served(mounted(d, now), qs);
            let saved = DiskView { image: replayed(d.image, fs.disk.log), log };
            &&& consistent(fs)
            &&& linked(fs)
            &&& saved.image == fs.disk.image
            &&& mounted(saved, later) == (FsView { disk: saved, sb: fs.sb })
            &&& forall|c: int| #[trigger] saved.block(c) == fs.disk.block(c)
            &&& forall|n: u32| #[trigger] mounted(saved, later).inode(n) == fs.inode(n)
        }),
{
    let start = mounted(d, now);
    law_new_disk_consistent(d, now);
    assert(flushed(d.image, d));
    law_mount_flushed(d.image, d, FsView { disk: d, sb: start.sb }, 0, None, now);
    law_requests_keep_consistency(d.image, start, qs);
    law_mounted_again(all_served(start, qs), log, later);
}

/// Whatever was done since an empty disk was first mounted, mounting the backing file, once the
/// commands have been carried out on it, gives back the superblock, the blocks and the inodes that
/// were left. Nothing is formatted anew.
///
/// This holds for requests about sound inodes of the table, in use or not, whatever the others have
/// become.
pub proof fn law_remount_keeps_blocks(
    d: DiskView,
    now: i64,
    qs: Seq<Request>,
    log: Seq<Command>,
    later: i64,
)
    requires
        d.image.len() == 0,
        d.log.len() == 0,
        all_about_sound(mounted(d, now), qs),
    ensures
        ({
            let fs = all_served(mounted(d, now), qs);
            let saved = DiskView { image: replayed(d.image, fs.disk.log), log };
            &&& sound(fs)
            &&& saved.image == fs.disk.image
            &&& mounted(saved, later) == (FsView { disk: saved, sb: fs.sb })
            &&& forall|c: int| #[trigger] saved.block(c) == fs.disk.block(c)
            &&& forall|n: u32| #[trigger] mounted(saved, later).inode(n) == fs.inode(n)
        }),
{
    let start = mounted(d, now);
    law_new_disk_consistent(d, now);
    assert(flushed(d.image, d));
    law_mount_flushed(d.image, d, FsView { disk: d, sb: start.sb }, 0, None, now);
    law_requests_keep_superblock(d.image, start, qs);
    law_mounted_again(all_served(start, qs), log, later);
}

} // verus!
