//! Round trips: what is the same after a remount, and after a file has come and gone.

use crate::bitmap::is_set;
use crate::consistent::{
    consistent, lemma_create_consistent, lemma_write_consistent, live, node_sound, undisturbed,
};
use crate::directory::{
    entries, entry_added, entry_named, free_place, place_of, slot, slot_count, slot_is_named,
};
use crate::directory_laws::{
    in_use, lemma_added_entry, lemma_same_entries_upto, name_fits, outcome_fs,
};
use crate::disk::{Command, DiskView};
use crate::file::{bytes_read, file_byte, file_written, position, read_len, writable};
use crate::file_laws::{lemma_same_file_bytes, lemma_write_effect};
use crate::fs::{attributes, dir_listing, looked_up, mounted, FsView};
use crate::fs_laws::law_mounted_again;
use crate::inode::{new_file_inode, InodeView};
use crate::links::{
    lemma_create_linked, lemma_same_place, lemma_write_linked, linked, live_dir, plain,
};
use crate::progress::{law_file_can_be_made, law_file_can_be_removed, lemma_scannable};
use crate::removal_laws::law_unlinked_file_gone;
use crate::search::lemma_first_from;
use crate::session::lemma_entry_apart;
use crate::sound::{apart, sound};
use crate::space::{counted, lemma_free_count_same, recorded};
use crate::superblock::BITS_PER_BLOCK;
use crate::tree::{file_created, file_unlinked};
use crate::tree_laws::{
    law_created_file_found, lemma_free_inode, lemma_inode_stored, lemma_inode_stored_keeps_dir,
    new_number, with_inode,
};
use vstd::prelude::*;

verus! {

broadcast use crate::inode::lemma_inode_at;

/// Disks with the same blocks show the same in a directory.
proof fn lemma_same_blocks_same_entries(
    d1: DiskView,
    d2: DiskView,
    dir: InodeView,
    name: Seq<char>,
)
    requires
        forall|c: int| #[trigger] d2.block(c) == d1.block(c),
    ensures
        entry_named(d2, dir, name) == entry_named(d1, dir, name),
        entries(d2, dir) == entries(d1, dir),
{
    assert forall|s: int| #[trigger] slot(d2, dir, s) == slot(d1, dir, s) by {}
    lemma_same_place(d1, d2, dir, name);
    assert forall|s: int| #[trigger] in_use(d2, dir, s) == in_use(d1, dir, s) by {
        assert(slot(d2, dir, s) == slot(d1, dir, s));
    }
    lemma_same_entries_upto(d2, dir, d1, dir, slot_count(dir));
}

/// A file system that is mounted again answers as the one that was left: every name is found, every
/// directory lists the same, and every file reads the same.
pub proof fn law_mounted_again_answers_alike(
    fs: FsView,
    log: Seq<Command>,
    now: i64,
    ino: u32,
    name: Seq<char>,
    offset: int,
    size: int,
)
    requires
        sound(fs),
    ensures
        ({
            let again = mounted(DiskView { image: fs.disk.image, log }, now);
            &&& attributes(again, ino) == attributes(fs, ino)
            &&& looked_up(again, ino, name) == looked_up(fs, ino, name)
            &&& dir_listing(again, ino, offset) == dir_listing(fs, ino, offset)
            &&& bytes_read(again, ino, offset, size) == bytes_read(fs, ino, offset, size)
        }),
{
    let saved = DiskView { image: fs.disk.image, log };
    let again = mounted(saved, now);
    let inode = fs.inode(ino);
    let p = position(offset);
    law_mounted_again(fs, log, now);
    assert(again.inode(ino) == inode);
    lemma_same_blocks_same_entries(fs.disk, saved, inode, name);
    if entry_named(fs.disk, inode, name) is Some {
        let n = entry_named(fs.disk, inode, name)->0.entry.inode;
        assert(again.inode(n) == fs.inode(n));
    }
    assert forall|q: int| #[trigger] file_byte(saved, inode, q) == file_byte(
        fs.disk,
        inode,
        q,
    ) by {}
    lemma_same_file_bytes(saved, inode, fs.disk, inode, p, p + read_len(inode, offset, size));
}

/// A block is marked as allocated on one disk as on the other.
pub open spec fn same_marks(fs: FsView, after: FsView) -> bool {
    forall|c: int|
        0 <= c < fs.sb.bitmap_blocks * BITS_PER_BLOCK ==> #[trigger] is_set(after.disk, c)
            == is_set(fs.disk, c)
}

/// A file that is made, written and removed again gives back every block that it took: the same
/// blocks are marked as free as before it was written, and as many are counted. Where its directory
/// had a place for its name, that is so from before it was made.
///
/// This holds for a name that fits into an entry, and for a write that succeeds.
pub proof fn law_space_given_back(
    fs: FsView,
    parent: u32,
    name: Seq<char>,
    made: i64,
    added: i64,
    offset: int,
    data: Seq<u8>,
    written: i64,
    removed: i64,
)
    requires
        consistent(fs),
        linked(fs),
        live_dir(fs, parent),
        plain(name),
        name_fits(name),
        ({
            let new = file_created(fs, parent, name, made, added);
            &&& new.result is Ok
            &&& writable(new.fs, new_number(fs), offset, data)
            &&& file_written(new.fs, new_number(fs), offset, data, written).1 is Ok
        }),
    ensures
        ({
            let new = file_created(fs, parent, name, made, added).fs;
            let full = file_written(new, new_number(fs), offset, data, written).0;
            let end = file_unlinked(full, parent, name, removed);
            &&& end.result is Ok
            &&& end.fs.inode(new_number(fs)).nlink == 0
            &&& same_marks(new, end.fs)
            &&& end.fs.sb == new.sb
            &&& free_place(fs.disk, fs.inode(parent)) is Some ==> same_marks(fs, end.fs)
                && end.fs.sb == fs.sb
        }),
{
    let n = new_number(fs);
    let new = file_created(fs, parent, name, made, added).fs;
    lemma_new_file(fs, parent, name, made, added);
    lemma_new_marks(fs, parent, name, made, added);
    lemma_blocks_given_back(new, parent, name, n, offset, data, written, removed);
}

/// A new file is in use and empty, and its name leads to it.
proof fn lemma_new_file(fs: FsView, parent: u32, name: Seq<char>, made: i64, added: i64)
    requires
        consistent(fs),
        linked(fs),
        live_dir(fs, parent),
        name_fits(name),
        file_created(fs, parent, name, made, added).result is Ok,
    ensures
        ({
            let new = file_created(fs, parent, name, made, added).fs;
            let n = new_number(fs);
            let x = entry_named(new.disk, new.inode(parent), name);
            &&& consistent(new)
            &&& linked(new)
            &&& live_dir(new, parent)
            &&& x is Some && x->0.entry.inode == n
            &&& live(new, n)
            &&& new.inode(n) == new_file_inode(n, made)
            &&& !new.inode(n).is_dir()
        }),
{
    assert(node_sound(fs, fs.inode(parent)));
    law_file_can_be_made(fs, parent, name, made, added);
    law_created_file_found(fs, parent, name, made, added);
    lemma_new_marks(fs, parent, name, made, added);
    assert(0o100644u16 & 0x4000 == 0) by (bit_vector);
    lemma_create_consistent(fs, parent, name, made, added);
    lemma_create_linked(fs, parent, name, made, added);
}

/// A directory that is left alone has each name at its place.
proof fn lemma_same_named(fs: FsView, after: FsView, parent: u32, name: Seq<char>)
    requires
        live_dir(fs, parent),
        undisturbed(fs, after, parent),
    ensures
        entry_named(after.disk, after.inode(parent), name) == entry_named(
            fs.disk,
            fs.inode(parent),
            name,
        ),
{
    let dir = fs.inode(parent);
    lemma_same_place(fs.disk, after.disk, dir, name);
    let named = |s: int| slot_is_named(fs.disk, dir, name, s);
    lemma_first_from(0, slot_count(dir), named);
    if place_of(fs.disk, dir, name) is Some {
        let s = place_of(fs.disk, dir, name)->0;
        assert(slot(after.disk, dir, s) == slot(fs.disk, dir, s));
    }
}

/// An empty file that is written and removed gives back every block that it took.
proof fn lemma_blocks_given_back(
    new: FsView,
    parent: u32,
    name: Seq<char>,
    n: u32,
    offset: int,
    data: Seq<u8>,
    written: i64,
    removed: i64,
)
    requires
        consistent(new),
        linked(new),
        live_dir(new, parent),
        plain(name),
        entry_named(new.disk, new.inode(parent), name) is Some,
        entry_named(new.disk, new.inode(parent), name)->0.entry.inode == n,
        live(new, n),
        !new.inode(n).is_dir(),
        new.inode(n).nlink == 1,
        new.inode(n).block_count == 0,
        writable(new, n, offset, data),
        file_written(new, n, offset, data, written).1 is Ok,
    ensures
        ({
            let full = file_written(new, n, offset, data, written).0;
            let end = file_unlinked(full, parent, name, removed);
            &&& end.result is Ok
            &&& end.fs.inode(n).nlink == 0
            &&& same_marks(new, end.fs)
            &&& end.fs.sb == new.sb
        }),
{
    let full = file_written(new, n, offset, data, written).0;
    let end = file_unlinked(full, parent, name, removed).fs;
    assert(node_sound(new, new.inode(n)));
    lemma_write_effect(new, n, offset, data, written);
    lemma_write_consistent(new, n, offset, data, written);
    lemma_write_linked(new, n, offset, data, written);
    assert(n != parent);
    assert(undisturbed(new, full, parent));
    lemma_same_named(new, full, parent, name);
    lemma_entry_apart(full, parent, name);
    law_file_can_be_removed(full, parent, name);
    law_unlinked_file_gone(full, parent, name, removed);
    assert forall|c: int| 0 <= c < new.sb.bitmap_blocks * BITS_PER_BLOCK implies #[trigger] is_set(
        end.disk,
        c,
    ) == is_set(new.disk, c) by {
        assert(is_set(end.disk, c) == (is_set(full.disk, c) && apart(full, full.inode(n), c)));
        assert(apart(new, new.inode(n), c));
    }
    lemma_free_count_same(end.disk, new.disk, recorded(new));
    assert(end.sb =~= new.sb);
}

/// Making a file takes no block, if its directory has a place for the name.
proof fn lemma_new_marks(fs: FsView, parent: u32, name: Seq<char>, made: i64, added: i64)
    requires
        consistent(fs),
        live_dir(fs, parent),
        file_created(fs, parent, name, made, added).result is Ok,
    ensures
        free_place(fs.disk, fs.inode(parent)) is Some ==> same_marks(
            fs,
            file_created(fs, parent, name, made, added).fs,
        ) && file_created(fs, parent, name, made, added).fs.sb == fs.sb,
        ({
            let sb = file_created(fs, parent, name, made, added).fs.sb;
            sb == fs.sb.with_free(sb.free_blocks as int)
        }),
{
    let dir = fs.inode(parent);
    let n = new_number(fs);
    let inode = new_file_inode(n, made);
    let mid = with_inode(fs, inode);
    let o = entry_added(mid.disk, mid.sb, dir, name, n, false, added);
    assert(node_sound(fs, dir));
    lemma_scannable(fs);
    lemma_free_inode(fs);
    lemma_inode_stored(fs, inode);
    lemma_inode_stored_keeps_dir(fs, inode, dir);
    assert(outcome_fs(o) == file_created(fs, parent, name, made, added).fs);
    lemma_added_entry(mid, dir, name, n, false, added);
    if free_place(fs.disk, dir) is Some {
        assert forall|c: int|
            0 <= c < fs.sb.bitmap_blocks * BITS_PER_BLOCK implies #[trigger] is_set(
            outcome_fs(o).disk,
            c,
        ) == is_set(fs.disk, c) by {
            assert(is_set(mid.disk, c) == is_set(fs.disk, c));
        }
    }
}

} // verus!
