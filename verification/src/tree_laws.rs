//! What making and removing files and directories leads to.

use crate::bitmap::{allocated, is_set};
use crate::bytes::splice;
use crate::directory::{
    decoded_entry, entries, entries_upto, entry_added, entry_at, entry_named, free_place, names_fit,
    new_entry, place_of, slot, slot_count, slot_is_free, slot_is_named, EntryView, Slot,
    DIR_ENTRY_SIZE, ENTRIES_PER_BLOCK, MAX_NAME_LEN,
};
use crate::directory_laws::{
    dir_sound, in_use, law_added_entry_found, law_refused_change_leaves_directory,
    lemma_added_entry, lemma_entry_round_trip, lemma_first_same, lemma_free_places_list_nothing,
    lemma_new_block_written, lemma_new_entry, lemma_other_inode_kept, lemma_same_entries_upto,
    lemma_slots_kept, name_fits, names_unique, outcome_fs, place_for_new, with_new_block,
};
use crate::disk::{group_disk, DiskView, BLOCK_SIZE};
use crate::fs::{dir_block, dir_with_block, looked_up, FsView};
use crate::inode::{
    in_table, inode_block, inode_count, inode_offset, inode_written, lemma_inode_read_back,
    lemma_inode_round_trip, new_file_inode, InodeView,
};
use crate::search::lemma_first_from;
use crate::sound::{
    after_allocation, apart, lemma_allocation_keeps_sound, lemma_table, lemma_write_keeps_sound,
    next_block, owned, sound, with_write,
};
use crate::space::{counted, lemma_write_keeps_count};
use crate::superblock::BITS_PER_BLOCK;
use crate::tree::{
    creatable, dir_creatable, dir_created, dir_prepared, file_created, free_inode, inode_used,
    inodes_scannable, inodes_used, lemma_result_without_time, FIRST_INODE,
};
use vstd::prelude::*;
use vstd::utf8::is_ascii_chars_encode_utf8;

verus! {

broadcast use crate::inode::lemma_inode_at;

/// A directory whose blocks have not changed is as sound as before, and shows the same.
pub proof fn lemma_dir_kept(fs: FsView, after: FsView, dir: InodeView)
    requires
        dir_sound(fs, dir),
        after.sb.bitmap_blocks == fs.sb.bitmap_blocks,
        forall|i: int|
            0 <= i < dir.block_count ==> owned(
                after,
                (#[trigger] dir.pointer(fs.disk, i))->0 as int,
            ) && after.disk.block(dir.pointer(fs.disk, i)->0 as int) == fs.disk.block(
                dir.pointer(fs.disk, i)->0 as int,
            ),
    ensures
        dir_sound(after, dir),
        forall|i: int|
            0 <= i < dir.block_count ==> #[trigger] dir.pointer(after.disk, i) == dir.pointer(
                fs.disk,
                i,
            ),
        forall|s: int|
            0 <= s < slot_count(dir) ==> #[trigger] slot(after.disk, dir, s) == slot(
                fs.disk,
                dir,
                s,
            ),
        forall|name: Seq<char>| #[trigger]
            entry_named(after.disk, dir, name) == entry_named(fs.disk, dir, name),
        forall|name: Seq<char>| #[trigger]
            place_of(after.disk, dir, name) == place_of(fs.disk, dir, name),
        free_place(after.disk, dir) == free_place(fs.disk, dir),
        entries(after.disk, dir) == entries(fs.disk, dir),
        names_unique(after.disk, dir) == names_unique(fs.disk, dir),
{
    let n = slot_count(dir);
    assert forall|i: int| 0 <= i < dir.block_count implies #[trigger] dir.pointer(after.disk, i)
        == dir.pointer(fs.disk, i) by {}
    assert forall|i: int| 0 <= i < dir.block_count implies (#[trigger] dir.pointer(after.disk, i))
        is Some && owned(after, dir.pointer(after.disk, i)->0 as int) by {
        assert(dir.pointer(fs.disk, i) is Some);
    }
    lemma_slots_kept(fs.disk, dir, after.disk, dir);
    assert forall|name: Seq<char>| #[trigger] place_of(after.disk, dir, name) == place_of(
        fs.disk,
        dir,
        name,
    ) by {
        let p = |s: int| slot_is_named(fs.disk, dir, name, s);
        let q = |s: int| slot_is_named(after.disk, dir, name, s);
        assert forall|s: int| 0 <= s < n implies #[trigger] p(s) == q(s) by {
            assert(slot(after.disk, dir, s) == slot(fs.disk, dir, s));
        }
        lemma_first_same(0, n, n, p, q);
    }
    assert forall|name: Seq<char>| #[trigger] entry_named(after.disk, dir, name) == entry_named(
        fs.disk,
        dir,
        name,
    ) by {
        assert(place_of(after.disk, dir, name) == place_of(fs.disk, dir, name));
        lemma_first_from(0, n, |s: int| slot_is_named(fs.disk, dir, name, s));
    }
    assert(free_place(after.disk, dir) == free_place(fs.disk, dir)) by {
        let p = |s: int| slot_is_free(fs.disk, dir, s);
        let q = |s: int| slot_is_free(after.disk, dir, s);
        assert forall|s: int| 0 <= s < n implies #[trigger] p(s) == q(s) by {
            assert(slot(after.disk, dir, s) == slot(fs.disk, dir, s));
        }
        lemma_first_same(0, n, n, p, q);
    }
    assert forall|s: int| 0 <= s < n implies #[trigger] in_use(after.disk, dir, s) == in_use(
        fs.disk,
        dir,
        s,
    ) by {
        assert(slot(after.disk, dir, s) == slot(fs.disk, dir, s));
    }
    lemma_same_entries_upto(after.disk, dir, fs.disk, dir, n);
    lemma_names_still_unique(fs.disk, after.disk, dir);
    lemma_names_still_unique(after.disk, fs.disk, dir);
}

/// Names that are unique stay so where all places hold what they held.
proof fn lemma_names_still_unique(d1: DiskView, d2: DiskView, dir: InodeView)
    requires
        forall|s: int|
            0 <= s < slot_count(dir) ==> #[trigger] slot(d2, dir, s) == slot(d1, dir, s),
    ensures
        names_unique(d1, dir) ==> names_unique(d2, dir),
{
    if names_unique(d1, dir) {
        assert forall|s: int, t: int|
            #![trigger in_use(d2, dir, s), in_use(d2, dir, t)]
            0 <= s < t < slot_count(dir) && in_use(d2, dir, s) is Some && in_use(d2, dir, t)
                is Some implies in_use(d2, dir, s)->0.entry.text() != in_use(
            d2,
            dir,
            t,
        )->0.entry.text() by {
            assert(slot(d2, dir, s) == slot(d1, dir, s));
            assert(slot(d2, dir, t) == slot(d1, dir, t));
            assert(in_use(d1, dir, s) == in_use(d2, dir, s));
            assert(in_use(d1, dir, t) == in_use(d2, dir, t));
        }
    }
}

/// The file system after inode `inode` has been written.
pub open spec fn with_inode(fs: FsView, inode: InodeView) -> FsView {
    FsView { disk: inode_written(fs.disk, fs.sb, inode), sb: fs.sb }
}

/// Writing an inode keeps a file system sound, changes no block but the one that holds it, and no
/// other inode.
pub proof fn lemma_inode_stored(fs: FsView, inode: InodeView)
    requires
        sound(fs),
        inode.well_formed(),
        fs.has_inode(inode.inode_no),
    ensures
        ({
            let after = with_inode(fs, inode);
            &&& sound(after)
            &&& counted(fs) ==> counted(after)
            &&& after.inode(inode.inode_no) == inode
            &&& forall|n: u32|
                n != inode.inode_no && fs.has_inode(n) ==> #[trigger] after.inode(n) == fs.inode(n)
            &&& forall|c: int| #[trigger] after.disk.has(c) == fs.disk.has(c)
            &&& forall|c: int| owned(fs, c) ==> #[trigger] owned(after, c)
            &&& forall|c: int|
                0 <= c < fs.sb.bitmap_blocks * BITS_PER_BLOCK ==> #[trigger] is_set(after.disk, c)
                    == is_set(fs.disk, c)
            &&& forall|c: int|
                fs.disk.has(c) && c != inode_block(fs.sb, inode.inode_no)
                    ==> #[trigger] after.disk.block(c) == fs.disk.block(c)
        }),
{
    broadcast use group_disk;

    let b = inode_block(fs.sb, inode.inode_no);
    let bytes = splice(fs.disk.block(b), inode_offset(inode.inode_no), inode.encoded());
    lemma_inode_round_trip(inode);
    lemma_write_keeps_sound(fs, b, bytes);
    if counted(fs) {
        lemma_write_keeps_count(fs, b, bytes);
    }
    assert(with_inode(fs, inode) == with_write(fs, b, bytes));
    lemma_inode_read_back(fs.disk, fs.sb, inode, inode.inode_no);
    assert forall|n: u32| n != inode.inode_no && fs.has_inode(n) implies #[trigger] with_inode(
        fs,
        inode,
    ).inode(n) == fs.inode(n) by {
        lemma_inode_read_back(fs.disk, fs.sb, inode, n);
    }
}

/// A directory shows the same after an inode has been written.
pub proof fn lemma_inode_stored_keeps_dir(fs: FsView, inode: InodeView, dir: InodeView)
    requires
        sound(fs),
        inode.well_formed(),
        in_table(fs.sb, inode.inode_no),
        dir_sound(fs, dir),
    ensures
        dir_sound(with_inode(fs, inode), dir),
        forall|i: int|
            0 <= i < dir.block_count ==> #[trigger] dir.pointer(with_inode(fs, inode).disk, i)
                == dir.pointer(fs.disk, i),
        forall|s: int|
            0 <= s < slot_count(dir) ==> #[trigger] slot(with_inode(fs, inode).disk, dir, s)
                == slot(fs.disk, dir, s),
        forall|name: Seq<char>| #[trigger]
            entry_named(with_inode(fs, inode).disk, dir, name) == entry_named(fs.disk, dir, name),
        free_place(with_inode(fs, inode).disk, dir) == free_place(fs.disk, dir),
        entries(with_inode(fs, inode).disk, dir) == entries(fs.disk, dir),
        names_unique(with_inode(fs, inode).disk, dir) == names_unique(fs.disk, dir),
{
    lemma_table(fs, dir, inode.inode_no);
    lemma_inode_stored(fs, inode);
    let after = with_inode(fs, inode);
    assert forall|i: int| 0 <= i < dir.block_count implies owned(
        after,
        (#[trigger] dir.pointer(fs.disk, i))->0 as int,
    ) && after.disk.block(dir.pointer(fs.disk, i)->0 as int) == fs.disk.block(
        dir.pointer(fs.disk, i)->0 as int,
    ) by {
        assert(owned(fs, dir.pointer(fs.disk, i)->0 as int));
    }
    lemma_dir_kept(fs, after, dir);
}

/// What the making of something named `name`, with inode `n`, in directory `parent` leads to, from
/// `fs` to `after`: it is found under its name, every other name is found where it was, and no
/// other inode of the table changes.
pub open spec fn entered(
    fs: FsView,
    after: FsView,
    parent: u32,
    name: Seq<char>,
    n: u32,
    is_dir: bool,
) -> bool {
    let dir = fs.inode(parent);
    let dir2 = after.inode(parent);
    let x = entry_named(after.disk, dir2, name);
    &&& sound(after)
    &&& counted(fs) ==> counted(after)
    &&& dir_sound(after, dir2)
    &&& dir2.nlink == dir.nlink
    &&& dir2.mode == dir.mode
    &&& x is Some
    &&& x->0.entry.inode == n
    &&& x->0.entry.entry_type == if is_dir {
        2int
    } else {
        1int
    }
    &&& x->0.entry.text() == name
    &&& forall|other: Seq<char>|
        other != name ==> #[trigger] entry_named(after.disk, dir2, other) == entry_named(
            fs.disk,
            dir,
            other,
        )
    &&& exists|k: int|
        0 <= k <= entries(fs.disk, dir).len() && entries(after.disk, dir2)
            == #[trigger] entries(fs.disk, dir).insert(k, x->0)
    &&& names_unique(fs.disk, dir) ==> names_unique(after.disk, dir2)
    &&& forall|m: u32|
        m != n && m != parent && in_table(fs.sb, m) ==> #[trigger] after.inode(m) == fs.inode(m)
}

/// Something that has been made, with inode `n`, but not entered in directory `parent` yet is
/// entered there.
proof fn lemma_entered(
    fs: FsView,
    mid: FsView,
    parent: u32,
    name: Seq<char>,
    n: u32,
    is_dir: bool,
    added: i64,
)
    requires
        sound(mid),
        counted(fs) ==> counted(mid),
        mid.sb.inode_table_start == fs.sb.inode_table_start,
        mid.sb.inode_table_blocks == fs.sb.inode_table_blocks,
        in_table(fs.sb, parent),
        in_table(fs.sb, n),
        n != parent,
        name_fits(name),
        dir_sound(mid, fs.inode(parent)),
        entries(mid.disk, fs.inode(parent)) == entries(fs.disk, fs.inode(parent)),
        names_unique(mid.disk, fs.inode(parent)) == names_unique(fs.disk, fs.inode(parent)),
        forall|other: Seq<char>| #[trigger]
            entry_named(mid.disk, fs.inode(parent), other) == entry_named(
                fs.disk,
                fs.inode(parent),
                other,
            ),
        forall|m: u32| m != n && in_table(fs.sb, m) ==> #[trigger] mid.inode(m) == fs.inode(m),
        entry_added(mid.disk, mid.sb, fs.inode(parent), name, n, is_dir, added).result is Ok,
    ensures
        ({
            let o = entry_added(mid.disk, mid.sb, fs.inode(parent), name, n, is_dir, added);
            let after = outcome_fs(o);
            &&& entered(fs, after, parent, name, n, is_dir)
            &&& after.inode(n) == mid.inode(n)
        }),
{
    let dir = fs.inode(parent);
    let o = entry_added(mid.disk, mid.sb, dir, name, n, is_dir, added);
    let after = outcome_fs(o);
    law_added_entry_found(mid, dir, name, n, is_dir, added);
    let s0 = place_for_new(mid.disk, dir);
    let x = slot(after.disk, o.dir, s0)->0;
    let k = entries_upto(mid.disk, dir, s0).len() as int;
    assert(after.inode(parent) == o.dir);
    assert(after.inode(n) == mid.inode(n));
    lemma_new_entry(n, name, is_dir);
    assert(entries(after.disk, o.dir) == entries(fs.disk, dir).insert(k, x));
    assert forall|other: Seq<char>| other != name implies #[trigger] entry_named(
        after.disk,
        o.dir,
        other,
    ) == entry_named(fs.disk, dir, other) by {
        assert(entry_named(mid.disk, dir, other) == entry_named(fs.disk, dir, other));
    }
    assert forall|m: u32|
        m != n && m != parent && in_table(fs.sb, m) implies #[trigger] after.inode(m) == fs.inode(
        m,
    ) by {
        assert(mid.inode(m) == fs.inode(m));
        assert(after.inode(m) == mid.inode(m));
    }
}

/// The inode number that a new file or directory gets.
pub open spec fn new_number(fs: FsView) -> u32 {
    free_inode(fs)->0 as u32
}

/// A file made in a directory is found there under its name, with the attributes that were
/// answered. Its inode was free before and is the inode of an empty file now; every other name of
/// the directory is found where it was.
///
/// This holds for a name that fits into an entry.
pub proof fn law_created_file_found(
    fs: FsView,
    parent: u32,
    name: Seq<char>,
    made: i64,
    added: i64,
)
    requires
        sound(fs),
        creatable(fs, parent, name, made),
        in_table(fs.sb, parent),
        dir_sound(fs, fs.inode(parent)),
        fs.inode(parent).nlink != 0,
        name_fits(name),
        file_created(fs, parent, name, made, added).result is Ok,
    ensures
        ({
            let r = file_created(fs, parent, name, made, added);
            let n = new_number(fs);
            &&& in_table(fs.sb, n)
            &&& entered(fs, r.fs, parent, name, n, false)
            &&& r.fs.inode(n) == new_file_inode(n, made)
            &&& looked_up(r.fs, parent, name) == r.result
            &&& !inode_used(fs, n as int) && inode_used(r.fs, n as int)
        }),
{
    let dir = fs.inode(parent);
    let n = new_number(fs);
    let inode = new_file_inode(n, made);
    let mid = with_inode(fs, inode);
    let o = entry_added(mid.disk, mid.sb, dir, name, n, false, added);
    let after = outcome_fs(o);
    assert(entry_named(fs.disk, dir, name) is None);
    lemma_free_inode(fs);
    assert(after == file_created(fs, parent, name, made, added).fs);
    assert(o.result is Ok);
    lemma_inode_stored(fs, inode);
    lemma_inode_stored_keeps_dir(fs, inode, dir);
    assert forall|m: u32| m != n && in_table(fs.sb, m) implies #[trigger] mid.inode(m) == fs.inode(
        m,
    ) by {
        lemma_table(fs, dir, m);
    }
    lemma_entered(fs, mid, parent, name, n, false, added);
}

/// An inode found to be free is one of the table, is on the disk and is not in use.
pub proof fn lemma_free_inode(fs: FsView)
    requires
        inodes_scannable(fs),
        free_inode(fs) is Some,
    ensures
        ({
            let n = free_inode(fs)->0;
            &&& FIRST_INODE <= n <= u32::MAX
            &&& in_table(fs.sb, n as u32)
            &&& fs.has_inode(n as u32)
            &&& !inode_used(fs, n)
            &&& fs.inode(n as u32).nlink == 0
        }),
{
    let free = |m: int| !inode_used(fs, m);
    lemma_first_from(FIRST_INODE as int, inode_count(fs.sb), free);
    let n = free_inode(fs)->0;
    assert(free(n));
    assert(inodes_used(fs, n)) by {
        assert forall|m: int| FIRST_INODE <= m < n implies #[trigger] inode_used(fs, m) by {
            assert(!free(m));
        }
    }
}

/// Where a file gets an inode but its directory has no place for the entry, the inode stays and
/// nothing else changes.
pub proof fn law_unentered_file_leaves_inode(
    fs: FsView,
    parent: u32,
    name: Seq<char>,
    made: i64,
    added: i64,
)
    requires
        entry_named(fs.disk, fs.inode(parent), name) is None,
        fs.inode(parent).permits(true),
        free_inode(fs) is Some,
        file_created(fs, parent, name, made, added).result is Err,
    ensures
        file_created(fs, parent, name, made, added).fs == with_inode(
            fs,
            new_file_inode(new_number(fs), made),
        ),
{
    law_refused_change_leaves_directory(
        with_inode(fs, new_file_inode(new_number(fs), made)),
        fs.inode(parent),
        name,
        new_number(fs),
        false,
        added,
    );
}

/// The entries of a directory with inode `own` that has just been made in directory `parent`, with
/// block `b`.
pub open spec fn first_entries(own: u32, parent: u32, b: u32) -> Seq<Slot> {
    seq![
        Slot { entry: new_entry(own, "."@, true), block: b, offset: 0 },
        Slot { entry: new_entry(parent, ".."@, true), block: b, offset: DIR_ENTRY_SIZE as int },
    ]
}

/// The names `.` and `..` fit into entries, and differ.
pub proof fn lemma_dot_names()
    ensures
        name_fits("."@),
        name_fits(".."@),
        "."@ != ".."@,
{
    reveal_strlit(".");
    reveal_strlit("..");
    is_ascii_chars_encode_utf8("."@);
    is_ascii_chars_encode_utf8(".."@);
    assert("."@.len() == 1);
    assert(".."@.len() == 2);
}

/// The places of the first block of a new directory: `.`, `..`, then free places.
proof fn lemma_dir_block(own: u32, parent: u32, j: int)
    requires
        0 <= j < ENTRIES_PER_BLOCK,
    ensures
        dir_block(own, parent).len() == BLOCK_SIZE,
        ({
            let e = decoded_entry(
                dir_block(own, parent).subrange(
                    j * DIR_ENTRY_SIZE,
                    j * DIR_ENTRY_SIZE + DIR_ENTRY_SIZE,
                ),
            );
            if j == 0 {
                e == new_entry(own, "."@, true)
            } else if j == 1 {
                e == new_entry(parent, ".."@, true)
            } else {
                e.is_empty()
            }
        }),
{
    let dot = new_entry(own, "."@, true);
    let dotdot = new_entry(parent, ".."@, true);
    lemma_new_entry(own, "."@, true);
    lemma_new_entry(parent, ".."@, true);
    lemma_entry_round_trip(dot);
    lemma_entry_round_trip(dotdot);
    let bytes = dir_block(own, parent);
    if j == 0 {
        assert(bytes.subrange(0, DIR_ENTRY_SIZE as int) =~= dot.encoded());
    } else if j == 1 {
        assert(bytes.subrange(DIR_ENTRY_SIZE as int, 2 * DIR_ENTRY_SIZE) =~= dotdot.encoded());
    }
}

/// The entry at place `j` of block `b`.
spec fn place_entry(d: DiskView, b: u32, j: int) -> EntryView {
    entry_at(d, b, j * DIR_ENTRY_SIZE)
}

/// A directory of one block, whose first two places hold entries of different names and whose
/// other places are free, lists these two.
proof fn lemma_two_entries(d: DiskView, dir: InodeView, b: u32, e0: EntryView, e1: EntryView)
    requires
        dir.block_count == 1,
        dir.pointer(d, 0) == Some(b),
        place_entry(d, b, 0) == e0,
        place_entry(d, b, 1) == e1,
        forall|j: int| 2 <= j < ENTRIES_PER_BLOCK ==> #[trigger] place_entry(d, b, j).is_empty(),
        !e0.is_empty(),
        !e1.is_empty(),
        e0.name_len <= MAX_NAME_LEN,
        e1.name_len <= MAX_NAME_LEN,
        e0.text() != e1.text(),
    ensures
        names_fit(d, dir),
        names_unique(d, dir),
        entries(d, dir) == seq![
            Slot { entry: e0, block: b, offset: 0 },
            Slot { entry: e1, block: b, offset: DIR_ENTRY_SIZE as int },
        ],
{
    let x0 = Slot { entry: e0, block: b, offset: 0 };
    let x1 = Slot { entry: e1, block: b, offset: DIR_ENTRY_SIZE as int };
    assert forall|s: int| 0 <= s < slot_count(dir) implies #[trigger] slot(d, dir, s) == Some(
        Slot { entry: place_entry(d, b, s), block: b, offset: s * DIR_ENTRY_SIZE },
    ) by {
        assert(s / (ENTRIES_PER_BLOCK as int) == 0);
    }
    assert(slot(d, dir, 0) == Some(x0));
    assert(slot(d, dir, 1) == Some(x1));
    assert forall|s: int| 2 <= s < slot_count(dir) implies #[trigger] in_use(d, dir, s) is None by {
        assert(slot(d, dir, s)->0.entry == place_entry(d, b, s));
    }
    assert(names_fit(d, dir)) by {
        assert forall|s: int|
            0 <= s < slot_count(dir) && (#[trigger] slot(d, dir, s)) is Some implies slot(
            d,
            dir,
            s,
        )->0.entry.name_len <= MAX_NAME_LEN by {
            if s >= 2 {
                assert(place_entry(d, b, s).is_empty());
            }
        }
    }
    assert(in_use(d, dir, 0) == Some(x0));
    assert(in_use(d, dir, 1) == Some(x1));
    assert(entries_upto(d, dir, 0) =~= Seq::empty());
    assert(entries_upto(d, dir, 1) =~= seq![x0]);
    assert(entries_upto(d, dir, 2) =~= seq![x0, x1]);
    lemma_free_places_list_nothing(d, dir, 2, slot_count(dir));
}

/// A directory that has just been made lists `.` and `..`, and nothing else.
pub proof fn lemma_new_dir_listing(d: DiskView, dir: InodeView, own: u32, parent: u32, b: u32)
    requires
        dir.block_count == 1,
        dir.pointer(d, 0) == Some(b),
        d.block(b as int) == dir_block(own, parent),
    ensures
        names_fit(d, dir),
        names_unique(d, dir),
        entries(d, dir) == first_entries(own, parent, b),
{
    assert forall|j: int| 2 <= j < ENTRIES_PER_BLOCK implies #[trigger] place_entry(
        d,
        b,
        j,
    ).is_empty() by {
        lemma_dir_block(own, parent, j);
    }
    lemma_dir_block(own, parent, 0);
    lemma_dir_block(own, parent, 1);
    lemma_dot_names();
    lemma_new_entry(own, "."@, true);
    lemma_new_entry(parent, ".."@, true);
    lemma_two_entries(
        d,
        dir,
        b,
        new_entry(own, "."@, true),
        new_entry(parent, ".."@, true),
    );
}

/// A directory that has been prepared but not entered yet: everything is sound, its inode and its
/// entries are in place, and nothing else has changed but what its block overwrites.
pub proof fn lemma_dir_prepared(fs: FsView, n: u32, parent: u32, made: i64)
    requires
        sound(fs),
        allocated(fs.disk, fs.sb) is Some,
        in_table(fs.sb, n),
    ensures
        ({
            let b = next_block(fs);
            let mid = dir_prepared(fs, n, parent, made);
            &&& sound(mid)
            &&& counted(fs) ==> counted(mid)
            &&& mid.sb == fs.sb.with_free(mid.sb.free_blocks as int)
            &&& !is_set(fs.disk, b as int)
            &&& owned(mid, b as int)
            &&& mid.disk.block(b as int) == dir_block(n, parent)
            &&& mid.inode(n) == dir_with_block(n, b, made)
            &&& forall|x: int| fs.disk.has(x) ==> #[trigger] mid.disk.has(x)
            &&& forall|x: int| owned(fs, x) ==> #[trigger] owned(mid, x)
            &&& forall|x: int|
                fs.sb.bitmap_blocks < x && fs.disk.has(x) && x != b && x != inode_block(fs.sb, n)
                    ==> #[trigger] mid.disk.block(x) == fs.disk.block(x)
            &&& forall|m: u32|
                m != n && in_table(fs.sb, m) ==> #[trigger] mid.inode(m) == fs.inode(m)
        }),
{
    let b = next_block(fs);
    let one = after_allocation(fs);
    let inode = dir_with_block(n, b, made);
    let bytes = dir_block(n, parent);
    let two = with_write(one, b as int, bytes);
    let ib = inode_block(fs.sb, n);
    let inode_bytes = splice(two.disk.block(ib), inode_offset(n), inode.encoded());
    let mid = dir_prepared(fs, n, parent, made);
    lemma_dir_block(n, parent, 0);
    lemma_inode_round_trip(inode);
    lemma_allocation_keeps_sound(fs);
    lemma_table(fs, inode, n);
    assert forall|x: int| fs.disk.has(x) implies #[trigger] two.disk.has(x) by {
        broadcast use group_disk;

        assert(one.disk.has(x));
    }
    assert(two.disk.has(ib));
    assert(inode_bytes.len() == BLOCK_SIZE) by {
        broadcast use group_disk;

    }
    assert(mid == with_new_block(fs, bytes, ib, inode_bytes));
    lemma_new_block_written(fs, bytes, ib, inode_bytes);
    lemma_inode_read_back(two.disk, two.sb, inode, n);
    assert forall|m: u32|
        m != n && in_table(fs.sb, m) implies #[trigger] mid.inode(m) == fs.inode(m) by {
        let c = inode_block(fs.sb, m);
        lemma_table(fs, inode, m);
        assert(two.disk.has(c));
        assert(two.disk.block(c) == fs.disk.block(c)) by {
            broadcast use group_disk;

            assert(one.disk.has(c));
            assert(one.disk.block(c) == fs.disk.block(c));
        }
        lemma_other_inode_kept(fs, two, inode, m);
    }
}

/// A directory made in a directory is found there under its name, with the attributes that were
/// answered, and lists `.`, which is itself, and `..`, which is the directory that it was made in.
/// Its inode was free before; every other name of the parent is found where it was.
///
/// This holds for a name that fits into an entry.
pub proof fn law_made_directory_found(
    fs: FsView,
    parent: u32,
    name: Seq<char>,
    made: i64,
    added: i64,
)
    requires
        sound(fs),
        dir_creatable(fs, parent, name, made),
        in_table(fs.sb, parent),
        dir_sound(fs, fs.inode(parent)),
        fs.inode(parent).nlink != 0,
        name_fits(name),
        dir_created(fs, parent, name, made, added).result is Ok,
    ensures
        ({
            let r = dir_created(fs, parent, name, made, added);
            let n = new_number(fs);
            let b = next_block(fs);
            let dir = dir_with_block(n, b, made);
            &&& in_table(fs.sb, n)
            &&& entered(fs, r.fs, parent, name, n, true)
            &&& r.fs.inode(n) == dir
            &&& looked_up(r.fs, parent, name) == r.result
            &&& !inode_used(fs, n as int) && inode_used(r.fs, n as int)
            &&& dir_sound(r.fs, dir)
            &&& names_unique(r.fs.disk, dir)
            &&& entries(r.fs.disk, dir) == first_entries(n, parent, b)
        }),
{
    let n = new_number(fs);
    let mid = dir_prepared(fs, n, parent, made);
    assert(entry_named(fs.disk, fs.inode(parent), name) is None);
    lemma_free_inode(fs);
    assert(entry_added(mid.disk, mid.sb, fs.inode(parent), name, n, true, made).result is Ok);
    lemma_result_without_time(mid, fs.inode(parent), name, n, true, made, added);
    lemma_made_directory(fs, parent, name, n, made, added);
}

proof fn lemma_made_directory(
    fs: FsView,
    parent: u32,
    name: Seq<char>,
    n: u32,
    made: i64,
    added: i64,
)
    requires
        sound(fs),
        in_table(fs.sb, parent),
        in_table(fs.sb, n),
        n != parent,
        dir_sound(fs, fs.inode(parent)),
        name_fits(name),
        allocated(fs.disk, fs.sb) is Some,
        ({
            let mid = dir_prepared(fs, n, parent, made);
            entry_added(mid.disk, mid.sb, fs.inode(parent), name, n, true, added).result is Ok
        }),
    ensures
        ({
            let b = next_block(fs);
            let mid = dir_prepared(fs, n, parent, made);
            let o = entry_added(mid.disk, mid.sb, fs.inode(parent), name, n, true, added);
            let after = outcome_fs(o);
            let dir = dir_with_block(n, b, made);
            &&& entered(fs, after, parent, name, n, true)
            &&& after.inode(n) == dir
            &&& dir_sound(after, dir)
            &&& names_unique(after.disk, dir)
            &&& entries(after.disk, dir) == first_entries(n, parent, b)
        }),
{
    let dir = fs.inode(parent);
    let b = next_block(fs);
    let inode = dir_with_block(n, b, made);
    let mid = dir_prepared(fs, n, parent, made);
    let o = entry_added(mid.disk, mid.sb, dir, name, n, true, added);
    let after = outcome_fs(o);
    lemma_dir_prepared(fs, n, parent, made);
    lemma_table(fs, dir, n);
    assert forall|i: int| 0 <= i < dir.block_count implies owned(
        mid,
        (#[trigger] dir.pointer(fs.disk, i))->0 as int,
    ) && mid.disk.block(dir.pointer(fs.disk, i)->0 as int) == fs.disk.block(
        dir.pointer(fs.disk, i)->0 as int,
    ) && dir.pointer(fs.disk, i) != Some(b) by {
        assert(owned(fs, dir.pointer(fs.disk, i)->0 as int));
    }
    assert(entered(fs, after, parent, name, n, true) && after.inode(n) == inode) by {
        lemma_dir_kept(fs, mid, dir);
        lemma_entered(fs, mid, parent, name, n, true, added);
    }
    assert(owned(after, b as int) && after.disk.block(b as int) == dir_block(n, parent)) by {
        lemma_dir_kept(fs, mid, dir);
        assert(apart(mid, dir, b as int)) by {
            assert forall|i: int| 0 <= i < dir.block_count implies (#[trigger] dir.pointer(
                mid.disk,
                i,
            )) != Some(b) by {
                assert(dir.pointer(fs.disk, i) != Some(b));
            }
        }
        lemma_added_leaves_block(mid, dir, name, n, true, added, b);
    }
    lemma_new_dir_sound(after, n, parent, b, made);
}

/// A directory whose only block is in use, and holds what the block of a new directory holds, is
/// sound and lists `.` and `..`.
pub proof fn lemma_new_dir_sound(fs: FsView, own: u32, parent: u32, b: u32, made: i64)
    requires
        sound(fs),
        owned(fs, b as int),
        fs.disk.block(b as int) == dir_block(own, parent),
    ensures
        dir_sound(fs, dir_with_block(own, b, made)),
        names_unique(fs.disk, dir_with_block(own, b, made)),
        entries(fs.disk, dir_with_block(own, b, made)) == first_entries(own, parent, b),
{
    let dir = dir_with_block(own, b, made);
    assert(dir.pointer(fs.disk, 0) == Some(b));
    lemma_new_dir_listing(fs.disk, dir, own, parent, b);
}

/// Adding an entry to a directory leaves a block alone that is in use and is none of the
/// directory.
pub proof fn lemma_added_leaves_block(
    fs: FsView,
    dir: InodeView,
    name: Seq<char>,
    child: u32,
    is_dir: bool,
    now: i64,
    b: u32,
)
    requires
        sound(fs),
        dir_sound(fs, dir),
        in_table(fs.sb, dir.inode_no),
        entry_added(fs.disk, fs.sb, dir, name, child, is_dir, now).result is Ok,
        owned(fs, b as int),
        apart(fs, dir, b as int),
    ensures
        ({
            let after = outcome_fs(entry_added(fs.disk, fs.sb, dir, name, child, is_dir, now));
            owned(after, b as int) && after.disk.block(b as int) == fs.disk.block(b as int)
        }),
{
    let o = entry_added(fs.disk, fs.sb, dir, name, child, is_dir, now);
    let after = outcome_fs(o);
    lemma_added_entry(fs, dir, name, child, is_dir, now);
    assert(apart(after, o.dir, b as int)) by {
        assert forall|i: int| 0 <= i < o.dir.block_count implies (#[trigger] o.dir.pointer(
            after.disk,
            i,
        )) != Some(b) by {
            if i < dir.block_count {
                assert(dir.pointer(fs.disk, i) != Some(b));
            } else {
                assert(!is_set(fs.disk, o.dir.pointer(after.disk, i)->0 as int));
            }
        }
    }
}

} // verus!
