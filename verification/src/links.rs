//! Names and what they stand for: every name in a directory stands for an inode in use, each inode
//! has at most one name, and every request keeps it so.

use crate::bitmap::allocated;
use crate::consistent::{
    consistent, keeps_places, lemma_entry_added_consistent, lemma_entry_removed_consistent,
    lemma_link_dropped_consistent, lemma_live_disjoint, lemma_new_dir_consistent,
    lemma_new_file_consistent, lemma_rmdir_consistent, lemma_setattr_consistent,
    lemma_write_consistent, live, node_sound, undisturbed,
};
use crate::directory::{
    entries, entries_upto, entry_added, entry_named, entry_removed, place_of, slot, slot_count,
    slot_is_free, slot_is_named,
};
use crate::directory_laws::{
    dir_sound, in_use, law_refused_change_leaves_directory, law_removed_entry_gone,
    lemma_added_entry, lemma_first_same, lemma_new_entry, outcome_fs, place_for_new,
};
use crate::disk::DiskView;
use crate::file::{file_written, writable};
use crate::file_laws::lemma_write_effect;
use crate::fs::{attr_set, FsView};
use crate::inode::{in_table, new_file_inode, InodeView};
use crate::progress::{lemma_all_freeable, lemma_scannable};
use crate::removal_laws::{
    lemma_all_freed, lemma_released_keeps_dir, lemma_released_keeps_inode, lemma_removed_entry,
};
use crate::search::lemma_first_from;
use crate::sound::{lemma_table, next_block, sound};
use crate::tree::{
    all_freed, blocks_freed, dir_created, dir_prepared, dir_removed, file_created, file_unlinked,
    free_inode, link_dropped, unlinked,
};
use crate::tree_laws::{
    first_entries, lemma_dir_prepared, lemma_dot_names, lemma_free_inode, lemma_inode_stored,
    lemma_inode_stored_keeps_dir, lemma_new_dir_sound, new_number, with_inode,
};
use vstd::prelude::*;

verus! {

broadcast use crate::inode::lemma_inode_at;

/// Inode `n` is a directory in use.
pub open spec fn live_dir(fs: FsView, n: u32) -> bool {
    live(fs, n) && fs.inode(n).is_dir()
}

/// `name` is neither `.` nor `..`.
pub open spec fn plain(name: Seq<char>) -> bool {
    name != "."@ && name != ".."@
}

/// Place `s` of directory `n`, which is in use, holds a name other than `.` and `..` that stands
/// for inode `m`.
pub open spec fn leads_to(fs: FsView, n: u32, s: int, m: u32) -> bool {
    &&& live_dir(fs, n)
    &&& 0 <= s < slot_count(fs.inode(n))
    &&& in_use(fs.disk, fs.inode(n), s) matches Some(x) && plain(x.entry.text()) && x.entry.inode
        == m
}

/// Every name but `.` and `..` stands for an inode in use other than the directory that it is in,
/// and no two of them stand for the same inode.
pub open spec fn linked(fs: FsView) -> bool {
    &&& forall|n: u32, s: int, m: u32| #[trigger] leads_to(fs, n, s, m) ==> live(fs, m) && m != n
    &&& forall|n1: u32, s1: int, n2: u32, s2: int, m: u32|
        #![trigger leads_to(fs, n1, s1, m), leads_to(fs, n2, s2, m)]
        leads_to(fs, n1, s1, m) && leads_to(fs, n2, s2, m) ==> n1 == n2 && s1 == s2
}

/// An entry that is found by its name stands at the place of that name.
proof fn lemma_named_slot(d: DiskView, dir: InodeView, name: Seq<char>)
    requires
        entry_named(d, dir, name) is Some,
    ensures
        0 <= place_of(d, dir, name)->0 < slot_count(dir),
        slot_is_named(d, dir, name, place_of(d, dir, name)->0),
{
    let named = |s: int| slot_is_named(d, dir, name, s);
    lemma_first_from(0, slot_count(dir), named);
    assert(named(place_of(d, dir, name)->0));
}

/// A name that is found in a directory in use leads to the inode that it stands for.
pub proof fn lemma_named_place(fs: FsView, parent: u32, name: Seq<char>)
    requires
        live_dir(fs, parent),
        plain(name),
        entry_named(fs.disk, fs.inode(parent), name) is Some,
    ensures
        leads_to(
            fs,
            parent,
            place_of(fs.disk, fs.inode(parent), name)->0,
            entry_named(fs.disk, fs.inode(parent), name)->0.entry.inode,
        ),
{
    lemma_named_slot(fs.disk, fs.inode(parent), name);
}

/// A directory that holds the same entries in the same places leads to the same inodes.
proof fn lemma_leads_as_before(fs: FsView, after: FsView, n: u32, s: int, m: u32)
    requires
        live(fs, n),
        keeps_places(fs, after, n),
        leads_to(after, n, s, m),
    ensures
        leads_to(fs, n, s, m),
{
    assert(slot(after.disk, after.inode(n), s) == slot(fs.disk, fs.inode(n), s));
}

/// Where every name that is left was there before and stands for an inode still in use, names and
/// inodes go together as before.
proof fn lemma_fewer_links(fs: FsView, after: FsView)
    requires
        linked(fs),
        forall|n: u32, s: int, m: u32| #[trigger]
            leads_to(after, n, s, m) ==> leads_to(fs, n, s, m) && live(after, m),
    ensures
        linked(after),
{
    assert forall|n1: u32, s1: int, n2: u32, s2: int, m: u32|
        #![trigger leads_to(after, n1, s1, m), leads_to(after, n2, s2, m)]
        leads_to(after, n1, s1, m) && leads_to(after, n2, s2, m) implies n1 == n2 && s1 == s2 by {
        assert(leads_to(fs, n1, s1, m));
        assert(leads_to(fs, n2, s2, m));
    }
}

/// A write to a file in use leaves every name as it is.
pub proof fn lemma_write_linked(fs: FsView, ino: u32, offset: int, data: Seq<u8>, now: i64)
    requires
        consistent(fs),
        linked(fs),
        live(fs, ino),
        !fs.inode(ino).is_dir(),
        writable(fs, ino, offset, data),
    ensures
        linked(file_written(fs, ino, offset, data, now).0),
{
    let after = file_written(fs, ino, offset, data, now).0;
    assert(node_sound(fs, fs.inode(ino)));
    lemma_write_effect(fs, ino, offset, data, now);
    lemma_write_consistent(fs, ino, offset, data, now);
    assert forall|n: u32, s: int, m: u32| #[trigger] leads_to(after, n, s, m) implies leads_to(
        fs,
        n,
        s,
        m,
    ) && live(after, m) by {
        assert(live(fs, n));
        assert(undisturbed(fs, after, n));
        lemma_leads_as_before(fs, after, n, s, m);
        assert(live(fs, m));
        assert(m == ino || undisturbed(fs, after, m));
    }
    lemma_fewer_links(fs, after);
}

/// Setting permissions leaves every name as it is.
pub proof fn lemma_setattr_linked(fs: FsView, ino: u32, mode: Option<u32>, now: i64)
    requires
        consistent(fs),
        linked(fs),
        in_table(fs.sb, ino),
    ensures
        linked(attr_set(fs, ino, mode, now)),
{
    let after = attr_set(fs, ino, mode, now);
    lemma_setattr_consistent(fs, ino, mode, now);
    assert forall|n: u32| #[trigger] live(after, n) == live(fs, n) by {
        if n != ino && in_table(fs.sb, n) {
            assert(after.inode(n) == fs.inode(n));
        }
    }
    assert forall|n: u32, s: int, m: u32| #[trigger] leads_to(after, n, s, m) implies leads_to(
        fs,
        n,
        s,
        m,
    ) && live(after, m) by {
        assert(live(fs, n));
        lemma_leads_as_before(fs, after, n, s, m);
        assert(live(fs, m));
    }
    lemma_fewer_links(fs, after);
}

/// An entry for an inode that no name stands for yet gives that inode its name.
proof fn lemma_entry_added_linked(
    fs: FsView,
    parent: u32,
    name: Seq<char>,
    child: u32,
    is_dir: bool,
    now: i64,
)
    requires
        consistent(fs),
        linked(fs),
        live_dir(fs, parent),
        live(fs, child),
        child != parent,
        forall|n: u32, s: int| !#[trigger] leads_to(fs, n, s, child),
    ensures
        linked(
            outcome_fs(entry_added(fs.disk, fs.sb, fs.inode(parent), name, child, is_dir, now)),
        ),
{
    let dir = fs.inode(parent);
    let o = entry_added(fs.disk, fs.sb, dir, name, child, is_dir, now);
    let after = outcome_fs(o);
    assert(node_sound(fs, dir));
    if o.result is Err {
        law_refused_change_leaves_directory(fs, dir, name, child, is_dir, now);
    } else {
        lemma_added_entry(fs, dir, name, child, is_dir, now);
        lemma_entry_added_consistent(fs, parent, name, child, is_dir, now);
        let s0 = place_for_new(fs.disk, dir);
        assert forall|n: u32| live(fs, n) implies #[trigger] live(after, n) by {
            assert(n == parent || undisturbed(fs, after, n));
        }
        assert forall|n: u32, s: int, m: u32| #[trigger] leads_to(after, n, s, m) implies leads_to(
            fs,
            n,
            s,
            m,
        ) || (n == parent && s == s0 && m == child) by {
            if n == parent {
                if s >= slot_count(dir) && s != s0 {
                    assert(slot_is_free(after.disk, o.dir, s));
                } else if s != s0 {
                    assert(slot(after.disk, o.dir, s) == slot(fs.disk, dir, s));
                }
            } else {
                assert(live(fs, n));
                assert(undisturbed(fs, after, n));
                lemma_leads_as_before(fs, after, n, s, m);
            }
        }
        assert forall|n1: u32, s1: int, n2: u32, s2: int, m: u32|
            #![trigger leads_to(after, n1, s1, m), leads_to(after, n2, s2, m)]
            leads_to(after, n1, s1, m) && leads_to(after, n2, s2, m) implies n1 == n2 && s1
            == s2 by {
            assert(m != child ==> leads_to(fs, n1, s1, m) && leads_to(fs, n2, s2, m));
        }
    }
}

/// Making a file gives a name to a new inode, and leaves every other name as it is.
pub proof fn lemma_create_linked(
    fs: FsView,
    parent: u32,
    name: Seq<char>,
    made: i64,
    added: i64,
)
    requires
        consistent(fs),
        linked(fs),
        live_dir(fs, parent),
    ensures
        linked(file_created(fs, parent, name, made, added).fs),
{
    let dir = fs.inode(parent);
    if entry_named(fs.disk, dir, name) is None && dir.permits(true) && free_inode(fs) is Some {
        let n = new_number(fs);
        let mid = with_inode(fs, new_file_inode(n, made));
        lemma_scannable(fs);
        lemma_free_inode(fs);
        lemma_new_file_consistent(fs, n, made);
        assert(0o100644u16 & 0x4000 == 0) by (bit_vector);
        lemma_new_inode_linked(fs, mid, n);
        assert(undisturbed(fs, mid, parent));
        lemma_entry_added_linked(mid, parent, name, n, false, added);
    }
}

/// An inode taken into use, which leads nowhere yet, leaves every name as it is.
proof fn lemma_new_inode_linked(fs: FsView, mid: FsView, n: u32)
    requires
        linked(fs),
        mid.sb == fs.sb.with_free(mid.sb.free_blocks as int),
        !live(fs, n),
        forall|m: u32| m != n && in_table(fs.sb, m) ==> #[trigger] mid.inode(m) == fs.inode(m),
        forall|m: u32| live(fs, m) ==> #[trigger] undisturbed(fs, mid, m),
        forall|s: int, m: u32| !#[trigger] leads_to(mid, n, s, m),
    ensures
        linked(mid),
        forall|m: u32, s: int| !#[trigger] leads_to(mid, m, s, n),
{
    assert forall|k: u32, s: int, m: u32| #[trigger] leads_to(mid, k, s, m) implies leads_to(
        fs,
        k,
        s,
        m,
    ) && live(mid, m) && m != n by {
        assert(k != n);
        assert(mid.inode(k) == fs.inode(k));
        assert(live(fs, k));
        assert(undisturbed(fs, mid, k));
        lemma_leads_as_before(fs, mid, k, s, m);
        assert(live(fs, m));
        assert(undisturbed(fs, mid, m));
    }
    lemma_fewer_links(fs, mid);
}

/// An entry in use is among the entries of its directory.
pub proof fn lemma_entry_listed(d: DiskView, dir: InodeView, s: int, n: int)
    requires
        0 <= s < n,
        in_use(d, dir, s) is Some,
    ensures
        entries_upto(d, dir, n).contains(in_use(d, dir, s)->0),
    decreases n,
{
    let all = entries_upto(d, dir, n);
    let before = entries_upto(d, dir, n - 1);
    let x = in_use(d, dir, s)->0;
    if s == n - 1 {
        assert(all.last() == x);
    } else {
        lemma_entry_listed(d, dir, s, n - 1);
        let i = choose|i: int| 0 <= i < before.len() && before[i] == x;
        assert(all[i] == x);
    }
}

/// A directory that lists `.` and `..` alone leads to no inode.
pub proof fn lemma_new_dir_leads_nowhere(fs: FsView, n: u32, parent: u32, b: u32)
    requires
        entries(fs.disk, fs.inode(n)) == first_entries(n, parent, b),
    ensures
        forall|s: int, m: u32| !#[trigger] leads_to(fs, n, s, m),
{
    let dir = fs.inode(n);
    lemma_dot_names();
    lemma_new_entry(n, "."@, true);
    lemma_new_entry(parent, ".."@, true);
    assert forall|s: int, m: u32| !#[trigger] leads_to(fs, n, s, m) by {
        if leads_to(fs, n, s, m) {
            lemma_entry_listed(fs.disk, dir, s, slot_count(dir));
        }
    }
}

/// Making a directory gives a name to a new inode, and leaves every other name as it is.
pub proof fn lemma_mkdir_linked(
    fs: FsView,
    parent: u32,
    name: Seq<char>,
    made: i64,
    added: i64,
)
    requires
        consistent(fs),
        linked(fs),
        live_dir(fs, parent),
    ensures
        linked(dir_created(fs, parent, name, made, added).fs),
{
    let dir = fs.inode(parent);
    if entry_named(fs.disk, dir, name) is None && free_inode(fs) is Some && allocated(
        fs.disk,
        fs.sb,
    ) is Some {
        let n = new_number(fs);
        let b = next_block(fs);
        let mid = dir_prepared(fs, n, parent, made);
        lemma_scannable(fs);
        lemma_free_inode(fs);
        lemma_dir_prepared(fs, n, parent, made);
        lemma_new_dir_sound(mid, n, parent, b, made);
        lemma_new_dir_consistent(fs, n, parent, made);
        lemma_new_dir_leads_nowhere(mid, n, parent, b);
        lemma_new_inode_linked(fs, mid, n);
        assert(undisturbed(fs, mid, parent));
        lemma_entry_added_linked(mid, parent, name, n, true, added);
    }
}

/// The names that are left after the entry of inode `n` at place `s0` of directory `parent` has
/// gone, and with it perhaps the inode, go together with the inodes in use.
proof fn lemma_link_removed(fs: FsView, after: FsView, parent: u32, s0: int, n: u32)
    requires
        linked(fs),
        leads_to(fs, parent, s0, n),
        after.sb == fs.sb.with_free(after.sb.free_blocks as int),
        after.inode(parent).nlink == fs.inode(parent).nlink,
        after.inode(parent).is_dir(),
        slot_count(after.inode(parent)) == slot_count(fs.inode(parent)),
        in_use(after.disk, after.inode(parent), s0) is None,
        forall|s: int|
            0 <= s < slot_count(fs.inode(parent)) && s != s0 ==> #[trigger] slot(
                after.disk,
                after.inode(parent),
                s,
            ) == slot(fs.disk, fs.inode(parent), s),
        forall|m: u32|
            m != parent && m != n && in_table(fs.sb, m) ==> #[trigger] after.inode(m) == fs.inode(
                m,
            ),
        forall|m: u32|
            m != parent && m != n && live(fs, m) ==> #[trigger] undisturbed(fs, after, m),
        !live_dir(after, n),
    ensures
        linked(after),
{
    assert forall|k: u32, s: int, m: u32| #[trigger] leads_to(after, k, s, m) implies leads_to(
        fs,
        k,
        s,
        m,
    ) && live(after, m) by {
        if k == parent {
            assert(slot(after.disk, after.inode(parent), s) == slot(
                fs.disk,
                fs.inode(parent),
                s,
            ));
        } else {
            assert(after.inode(k) == fs.inode(k));
            assert(live(fs, k));
            assert(undisturbed(fs, after, k));
            lemma_leads_as_before(fs, after, k, s, m);
        }
        assert(leads_to(fs, k, s, m));
        if m == n {
            assert(leads_to(fs, parent, s0, m));
        }
        assert(live(fs, m));
        assert(m == parent || undisturbed(fs, after, m));
    }
    lemma_fewer_links(fs, after);
}

/// The places of a directory after an entry of it has been removed: that of the entry is free, and
/// the others hold what they held.
proof fn lemma_places_after_removal(fs: FsView, dir: InodeView, name: Seq<char>, now: i64)
    requires
        sound(fs),
        dir_sound(fs, dir),
        in_table(fs.sb, dir.inode_no),
        entry_named(fs.disk, dir, name) is Some,
    ensures
        ({
            let after = outcome_fs(entry_removed(fs.disk, fs.sb, dir, name, now));
            let dir2 = after.inode(dir.inode_no);
            let s0 = place_of(fs.disk, dir, name)->0;
            &&& sound(after)
            &&& dir_sound(after, dir2)
            &&& after.sb == fs.sb
            &&& dir2 == (InodeView { mtime: now, ..dir })
            &&& in_use(after.disk, dir2, s0) is None
            &&& forall|s: int|
                0 <= s < slot_count(dir) && s != s0 ==> #[trigger] slot(after.disk, dir2, s)
                    == slot(fs.disk, dir, s)
            &&& forall|m: u32|
                m != dir.inode_no && in_table(fs.sb, m) ==> #[trigger] after.inode(m) == fs.inode(m)
        }),
{
    law_removed_entry_gone(fs, dir, name, now);
    lemma_removed_entry(fs, dir, name, now);
}

/// A directory that holds the same entries in the same places has each name at its place.
pub proof fn lemma_same_place(d1: DiskView, d2: DiskView, dir: InodeView, name: Seq<char>)
    requires
        forall|s: int| 0 <= s < slot_count(dir) ==> #[trigger] slot(d2, dir, s) == slot(d1, dir, s),
    ensures
        place_of(d2, dir, name) == place_of(d1, dir, name),
{
    let named1 = |s: int| slot_is_named(d1, dir, name, s);
    let named2 = |s: int| slot_is_named(d2, dir, name, s);
    assert forall|s: int| 0 <= s < slot_count(dir) implies #[trigger] named1(s) == named2(s) by {
        assert(slot(d2, dir, s) == slot(d1, dir, s));
    }
    lemma_first_same(0, slot_count(dir), slot_count(dir), named1, named2);
}

/// Removing a name of a file leaves every other name as it is.
pub proof fn lemma_unlink_linked(fs: FsView, parent: u32, name: Seq<char>, now: i64)
    requires
        consistent(fs),
        linked(fs),
        live_dir(fs, parent),
        plain(name),
    ensures
        linked(file_unlinked(fs, parent, name, now).fs),
{
    let dir = fs.inode(parent);
    if entry_named(fs.disk, dir, name) is Some {
        let n = entry_named(fs.disk, dir, name)->0.entry.inode;
        let s0 = place_of(fs.disk, dir, name)->0;
        lemma_named_place(fs, parent, name);
        assert(live(fs, n) && n != parent);
        if !fs.inode(n).is_dir() {
            let after = file_unlinked(fs, parent, name, now).fs;
            lemma_file_gone_places(fs, parent, name, n, now);
            lemma_link_removed(fs, after, parent, s0, n);
        }
    }
}

/// The removal of a name of a file frees its place in the directory; no other inode, and no other
/// place of the directory, changes.
pub proof fn lemma_file_gone_places(fs: FsView, parent: u32, name: Seq<char>, n: u32, now: i64)
    requires
        consistent(fs),
        live_dir(fs, parent),
        live(fs, n),
        n != parent,
        !fs.inode(n).is_dir(),
        entry_named(fs.disk, fs.inode(parent), name) is Some,
        entry_named(fs.disk, fs.inode(parent), name)->0.entry.inode == n,
    ensures
        ({
            let dir = fs.inode(parent);
            let after = file_unlinked(fs, parent, name, now).fs;
            let dir2 = after.inode(parent);
            let s0 = place_of(fs.disk, dir, name)->0;
            &&& after.sb == fs.sb.with_free(after.sb.free_blocks as int)
            &&& !after.inode(n).is_dir()
            &&& dir2 == (InodeView { mtime: now, ..dir })
            &&& in_use(after.disk, dir2, s0) is None
            &&& forall|s: int|
                0 <= s < slot_count(dir) && s != s0 ==> #[trigger] slot(after.disk, dir2, s)
                    == slot(fs.disk, dir, s)
            &&& forall|m: u32|
                m != parent && m != n && live(fs, m) ==> #[trigger] undisturbed(fs, after, m)
            &&& forall|m: u32|
                m != parent && m != n && in_table(fs.sb, m) ==> #[trigger] after.inode(m)
                    == fs.inode(m)
        }),
{
    let dir = fs.inode(parent);
    let dropped = link_dropped(fs, fs.inode(n));
    let after = file_unlinked(fs, parent, name, now).fs;
    lemma_link_dropped_consistent(fs, n, parent);
    assert(entry_named(dropped.disk, dir, name) == entry_named(fs.disk, dir, name));
    assert(undisturbed(fs, dropped, parent));
    assert(live(dropped, parent));
    assert(node_sound(dropped, dir));
    assert(after == outcome_fs(entry_removed(dropped.disk, dropped.sb, dir, name, now)));
    assert forall|m: u32| m != parent && m != n && live(fs, m) implies #[trigger] undisturbed(
        fs,
        after,
        m,
    ) by {
        lemma_entry_removed_consistent(dropped, parent, name, now);
        assert(undisturbed(fs, dropped, m));
        assert(live(dropped, m));
        assert(undisturbed(dropped, after, m));
        lemma_undisturbed_twice(fs, dropped, after, m);
    }
    lemma_entry_gone_places(fs, dropped, dir, name, now);
}

/// An entry removed from a directory that a step has left alone leaves the other places as they
/// were before the step.
proof fn lemma_entry_gone_places(
    fs: FsView,
    mid: FsView,
    dir: InodeView,
    name: Seq<char>,
    now: i64,
)
    requires
        sound(mid),
        dir_sound(mid, dir),
        in_table(mid.sb, dir.inode_no),
        entry_named(mid.disk, dir, name) is Some,
        forall|s: int|
            0 <= s < slot_count(dir) ==> #[trigger] slot(mid.disk, dir, s) == slot(fs.disk, dir, s),
    ensures
        ({
            let after = outcome_fs(entry_removed(mid.disk, mid.sb, dir, name, now));
            let dir2 = after.inode(dir.inode_no);
            let s0 = place_of(fs.disk, dir, name)->0;
            &&& after.sb == mid.sb
            &&& dir2 == (InodeView { mtime: now, ..dir })
            &&& in_use(after.disk, dir2, s0) is None
            &&& forall|s: int|
                0 <= s < slot_count(dir) && s != s0 ==> #[trigger] slot(after.disk, dir2, s)
                    == slot(fs.disk, dir, s)
            &&& forall|m: u32|
                m != dir.inode_no && in_table(mid.sb, m) ==> #[trigger] after.inode(m)
                    == mid.inode(m)
        }),
{
    let after = outcome_fs(entry_removed(mid.disk, mid.sb, dir, name, now));
    lemma_same_place(fs.disk, mid.disk, dir, name);
    lemma_places_after_removal(mid, dir, name, now);
    assert forall|s: int|
        0 <= s < slot_count(dir) && s != place_of(
            fs.disk,
            dir,
            name,
        )->0 implies #[trigger] slot(after.disk, after.inode(dir.inode_no), s) == slot(
        fs.disk,
        dir,
        s,
    ) by {
        assert(slot(mid.disk, dir, s) == slot(fs.disk, dir, s));
    }
}

/// An inode that two steps in turn leave alone is as it was.
proof fn lemma_undisturbed_twice(fs: FsView, mid: FsView, after: FsView, m: u32)
    requires
        undisturbed(fs, mid, m),
        undisturbed(mid, after, m),
    ensures
        undisturbed(fs, after, m),
{
    let dir = fs.inode(m);
    assert forall|s: int| dir.is_dir() && 0 <= s < slot_count(dir) implies #[trigger] slot(
        after.disk,
        dir,
        s,
    ) == slot(fs.disk, dir, s) by {
        assert(slot(mid.disk, dir, s) == slot(fs.disk, dir, s));
    }
}

/// Removing a directory leaves every other name as it is.
pub proof fn lemma_rmdir_linked(fs: FsView, parent: u32, name: Seq<char>, now: i64)
    requires
        consistent(fs),
        linked(fs),
        live_dir(fs, parent),
        plain(name),
    ensures
        linked(dir_removed(fs, parent, name, now).fs),
{
    let dir = fs.inode(parent);
    if entry_named(fs.disk, dir, name) is Some {
        let n = entry_named(fs.disk, dir, name)->0.entry.inode;
        let s0 = place_of(fs.disk, dir, name)->0;
        lemma_named_place(fs, parent, name);
        assert(live(fs, n) && n != parent);
        if dir_removed(fs, parent, name, now).result is Ok {
            let after = dir_removed(fs, parent, name, now).fs;
            lemma_rmdir_consistent(fs, parent, name, now);
            lemma_directory_gone_places(fs, parent, name, n, now);
            lemma_link_removed(fs, after, parent, s0, n);
        }
    }
}

/// The removal of a directory frees its inode and its place in the parent, and changes no other
/// inode and no other place of the parent.
pub proof fn lemma_directory_gone_places(
    fs: FsView,
    parent: u32,
    name: Seq<char>,
    n: u32,
    now: i64,
)
    requires
        consistent(fs),
        live_dir(fs, parent),
        live(fs, n),
        n != parent,
        dir_removed(fs, parent, name, now).result is Ok,
        entry_named(fs.disk, fs.inode(parent), name) is Some,
        entry_named(fs.disk, fs.inode(parent), name)->0.entry.inode == n,
    ensures
        ({
            let dir = fs.inode(parent);
            let after = dir_removed(fs, parent, name, now).fs;
            let dir2 = after.inode(parent);
            let s0 = place_of(fs.disk, dir, name)->0;
            &&& after.sb == fs.sb.with_free(after.sb.free_blocks as int)
            &&& after.inode(n).nlink == 0
            &&& dir2 == (InodeView { mtime: now, ..dir })
            &&& in_use(after.disk, dir2, s0) is None
            &&& forall|s: int|
                0 <= s < slot_count(dir) && s != s0 ==> #[trigger] slot(after.disk, dir2, s)
                    == slot(fs.disk, dir, s)
            &&& forall|m: u32|
                m != parent && m != n && in_table(fs.sb, m) ==> #[trigger] after.inode(m)
                    == fs.inode(m)
        }),
{
    let dir = fs.inode(parent);
    let inode = fs.inode(n);
    let freed = blocks_freed(fs, inode, inode.block_count as int);
    let gone = outcome_fs(entry_removed(freed.disk, freed.sb, dir, name, now));
    let after = dir_removed(fs, parent, name, now).fs;
    let s0 = place_of(fs.disk, dir, name)->0;
    assert(node_sound(fs, dir));
    assert(node_sound(fs, inode));
    lemma_live_disjoint(fs, n, parent);
    lemma_all_freeable(fs, inode);
    lemma_all_freed(fs, inode);
    assert(freed == all_freed(fs, inode));
    lemma_released_keeps_dir(fs, inode, freed, dir);
    assert(entry_named(freed.disk, dir, name) == entry_named(fs.disk, dir, name));
    assert(place_of(freed.disk, dir, name) == Some(s0));
    lemma_places_after_removal(freed, dir, name, now);
    let dir2 = gone.inode(parent);
    assert(after == with_inode(gone, unlinked(inode)));
    lemma_inode_stored_keeps_dir(gone, unlinked(inode), dir2);
    lemma_table(gone, inode, n);
    lemma_inode_stored(gone, unlinked(inode));
    assert forall|m: u32| m != n && in_table(fs.sb, m) implies #[trigger] after.inode(m)
        == gone.inode(m) && freed.inode(m) == fs.inode(m) by {
        lemma_table(gone, inode, m);
        lemma_table(fs, inode, m);
        lemma_released_keeps_inode(fs, inode, freed, m);
    }
    assert(in_use(after.disk, dir2, s0) is None) by {
        lemma_named_slot(fs.disk, dir, name);
        assert(slot(after.disk, dir2, s0) == slot(gone.disk, dir2, s0));
    }
    assert forall|s: int| 0 <= s < slot_count(dir) && s != s0 implies #[trigger] slot(
        after.disk,
        dir2,
        s,
    ) == slot(fs.disk, dir, s) by {
        assert(slot(gone.disk, dir2, s) == slot(freed.disk, dir, s));
    }
}

} // verus!
