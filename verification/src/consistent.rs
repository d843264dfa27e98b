//! Consistent file systems: everything in use is sound and shares no blocks, and every request
//! keeps it so.

use crate::bitmap::{allocated, is_set};
use crate::directory::{entries, entry_added, entry_named, entry_removed, slot, slot_count, Slot};
use crate::directory_laws::{
    dir_changed, dir_sound, law_refused_change_leaves_directory, law_removed_entry_gone,
    lemma_added_entry, lemma_slots_kept, outcome_fs,
};
use crate::file::{file_written, too_big, writable};
use crate::file_laws::{disjoint, law_write_succeeds, lemma_write_effect};
use crate::fs::{attr_set, dir_with_block, inode_with_mode, FsView};
use crate::inode::{in_table, new_file_inode, InodeView, DIRECT_BLOCKS};
use crate::progress::{law_directory_can_be_removed, lemma_all_freeable, lemma_scannable};
use crate::removal_laws::{
    law_removed_directory_gone, lemma_all_freed, lemma_file_freed, lemma_file_kept,
    lemma_released_keeps_dir, lemma_removed_entry,
};
use crate::sound::{apart, inode_sound, lemma_table, next_block, owned, sound};
use crate::space::counted;
use crate::tree::{
    all_freed, blocks_freed, dir_created, dir_prepared, dir_removed, file_created, file_unlinked,
    free_inode, link_dropped, one_link_less, unlinked,
};
use crate::tree_laws::{
    lemma_dir_prepared, lemma_free_inode, lemma_inode_stored, lemma_inode_stored_keeps_dir,
    lemma_new_dir_sound, new_number, with_inode,
};
use vstd::prelude::*;

verus! {

broadcast use crate::inode::lemma_inode_at;

/// Inode `n` is one of the table and in use.
pub open spec fn live(fs: FsView, n: u32) -> bool {
    in_table(fs.sb, n) && fs.inode(n).nlink != 0
}

/// `inode` is sound, as a directory if it is one.
pub open spec fn node_sound(fs: FsView, inode: InodeView) -> bool {
    inode_sound(fs, inode) && (inode.is_dir() ==> dir_sound(fs, inode))
}

/// Block `c` is one of the blocks of inode `n`.
pub open spec fn uses(fs: FsView, n: u32, c: int) -> bool {
    0 <= c <= u32::MAX && !apart(fs, fs.inode(n), c)
}

/// The file system is sound, its count of free blocks is right, and every inode in use is sound and
/// shares no block with another.
pub open spec fn consistent(fs: FsView) -> bool {
    &&& sound(fs)
    &&& counted(fs)
    &&& forall|n: u32| #[trigger] live(fs, n) ==> node_sound(fs, fs.inode(n))
    &&& forall|n: u32, m: u32, c: int|
        #![trigger uses(fs, n, c), uses(fs, m, c)]
        live(fs, n) && live(fs, m) && n != m ==> !(uses(fs, n, c) && uses(fs, m, c))
}

/// A block of a sound inode is in use.
proof fn lemma_used_is_owned(fs: FsView, inode: InodeView, c: int)
    requires
        inode_sound(fs, inode),
        0 <= c <= u32::MAX,
        !apart(fs, inode, c),
    ensures
        owned(fs, c),
{
    if inode.block_count > DIRECT_BLOCKS && inode.indirect_block == c {
    } else {
        let i = choose|i: int|
            0 <= i < inode.block_count && (#[trigger] inode.pointer(fs.disk, i)) == Some(c as u32);
        assert(owned(fs, inode.pointer(fs.disk, i)->0 as int));
    }
}

/// Two inodes in use of a consistent file system share no blocks.
pub proof fn lemma_live_disjoint(fs: FsView, n: u32, m: u32)
    requires
        consistent(fs),
        live(fs, n),
        live(fs, m),
        n != m,
    ensures
        disjoint(fs, fs.inode(n), fs.inode(m)),
{
    let b = fs.inode(m);
    assert(node_sound(fs, b));
    assert forall|i: int| 0 <= i < b.block_count implies apart(
        fs,
        fs.inode(n),
        (#[trigger] b.pointer(fs.disk, i))->0 as int,
    ) by {
        let c = b.pointer(fs.disk, i)->0 as int;
        assert(b.pointer(fs.disk, i) is Some);
        assert(uses(fs, m, c));
        assert(!(uses(fs, n, c) && uses(fs, m, c)));
    }
    if b.block_count > DIRECT_BLOCKS {
        let c = b.indirect_block as int;
        assert(uses(fs, m, c));
        assert(!(uses(fs, n, c) && uses(fs, m, c)));
    }
}

/// An inode whose blocks have not changed is as sound as before, under a new inode with the same
/// blocks and of the same type.
proof fn lemma_node_kept(fs: FsView, after: FsView, inode: InodeView, inode2: InodeView)
    requires
        node_sound(fs, inode),
        after.sb.bitmap_blocks == fs.sb.bitmap_blocks,
        inode2.direct_blocks == inode.direct_blocks,
        inode2.indirect_block == inode.indirect_block,
        inode2.block_count == inode.block_count,
        inode2.size == inode.size,
        inode2.is_dir() == inode.is_dir(),
        forall|c: int| owned(fs, c) && !apart(fs, inode, c) ==> #[trigger] owned(after, c),
        forall|c: int|
            owned(fs, c) && !apart(fs, inode, c) ==> #[trigger] after.disk.block(c)
                == fs.disk.block(c),
    ensures
        node_sound(after, inode2),
        forall|c: int| #[trigger] apart(after, inode2, c) == apart(fs, inode, c),
        inode.is_dir() ==> forall|s: int|
            0 <= s < slot_count(inode) ==> #[trigger] slot(after.disk, inode2, s) == slot(
                fs.disk,
                inode,
                s,
            ),
{
    lemma_file_kept(fs, after, inode, inode2);
    assert forall|c: int| #[trigger] apart(after, inode2, c) == apart(fs, inode, c) by {
        if apart(fs, inode, c) {
            assert forall|i: int| 0 <= i < inode2.block_count implies (#[trigger] inode2.pointer(
                after.disk,
                i,
            )) != Some(c as u32) by {
                assert(inode.pointer(fs.disk, i) != Some(c as u32));
            }
        }
        if apart(after, inode2, c) {
            assert forall|i: int| 0 <= i < inode.block_count implies (#[trigger] inode.pointer(
                fs.disk,
                i,
            )) != Some(c as u32) by {
                assert(inode2.pointer(after.disk, i) != Some(c as u32));
            }
        }
    }
    if inode.is_dir() {
        assert forall|i: int|
            0 <= i < inode.block_count && (#[trigger] inode.pointer(fs.disk, i))
                is Some implies after.disk.block(inode.pointer(fs.disk, i)->0 as int)
            == fs.disk.block(inode.pointer(fs.disk, i)->0 as int) by {
            let c = inode.pointer(fs.disk, i)->0 as int;
            assert(owned(fs, c));
            assert(!apart(fs, inode, c));
        }
        lemma_slots_kept(fs.disk, inode, after.disk, inode2);
        assert(dir_sound(after, inode2));
    }
}

/// Inode `n` is a directory after a step if it was one before, and then holds the same entries in
/// the same places.
pub open spec fn keeps_places(fs: FsView, after: FsView, n: u32) -> bool {
    let dir = fs.inode(n);
    let dir2 = after.inode(n);
    &&& dir2.is_dir() == dir.is_dir()
    &&& dir.is_dir() ==> slot_count(dir2) == slot_count(dir) && forall|s: int|
        0 <= s < slot_count(dir) ==> #[trigger] slot(after.disk, dir2, s) == slot(fs.disk, dir, s)
}

/// Inode `n` is as it was, with its entries if it is a directory.
pub open spec fn undisturbed(fs: FsView, after: FsView, n: u32) -> bool {
    after.inode(n) == fs.inode(n) && keeps_places(fs, after, n)
}

/// The blocks of inode `k` of `after` are blocks that it had in `fs`, or blocks that were free.
pub open spec fn takes_free_blocks(fs: FsView, after: FsView, k: u32) -> bool {
    forall|c: int| #[trigger]
        uses(after, k, c) ==> (live(fs, k) && uses(fs, k, c)) || !is_set(fs.disk, c)
}

/// A step that touches the inodes `t` and `u` alone, and of the blocks in use only theirs, keeps a
/// file system consistent.
proof fn lemma_step(fs: FsView, after: FsView, t: u32, u: u32)
    requires
        consistent(fs),
        sound(after),
        counted(after),
        after.sb == fs.sb.with_free(after.sb.free_blocks as int),
        forall|m: u32|
            m != t && m != u && in_table(fs.sb, m) ==> #[trigger] after.inode(m) == fs.inode(m),
        forall|m: u32, c: int|
            m != t && m != u && live(fs, m) && owned(fs, c) && #[trigger] uses(fs, m, c) ==> owned(
                after,
                c,
            ) && after.disk.block(c) == fs.disk.block(c),
        live(after, t) ==> node_sound(after, after.inode(t)) && takes_free_blocks(fs, after, t),
        live(after, u) ==> node_sound(after, after.inode(u)) && takes_free_blocks(fs, after, u),
        t != u && live(after, t) && live(after, u) ==> forall|c: int|
            !(#[trigger] uses(after, t, c) && #[trigger] uses(after, u, c)),
    ensures
        consistent(after),
        forall|m: u32|
            m != t && m != u && live(fs, m) ==> #[trigger] undisturbed(fs, after, m),
{
    assert forall|m: u32| m != t && m != u && live(fs, m) implies node_sound(
        after,
        #[trigger] after.inode(m),
    ) && undisturbed(fs, after, m) && forall|c: int| #[trigger]
        uses(after, m, c) == uses(fs, m, c) by {
        let inode = fs.inode(m);
        assert forall|c: int| owned(fs, c) && !apart(fs, inode, c) implies #[trigger] owned(
            after,
            c,
        ) by {
            assert(uses(fs, m, c));
        }
        assert forall|c: int|
            owned(fs, c) && !apart(fs, inode, c) implies #[trigger] after.disk.block(c)
            == fs.disk.block(c) by {
            assert(uses(fs, m, c));
        }
        lemma_node_kept(fs, after, inode, inode);
    }
    assert forall|n: u32| #[trigger] live(after, n) implies node_sound(after, after.inode(n)) by {
        if n != t && n != u {
            assert(live(fs, n));
        }
    }
    assert forall|n: u32, m: u32, c: int|
        #![trigger uses(after, n, c), uses(after, m, c)]
        live(after, n) && live(after, m) && n != m implies !(uses(after, n, c) && uses(
        after,
        m,
        c,
    )) by {
        lemma_no_shared_block(fs, after, t, u, n, m, c);
    }
}

/// Of two inodes in use after a step, one that the step has not touched shares no block with the
/// other.
proof fn lemma_no_shared_block(
    fs: FsView,
    after: FsView,
    t: u32,
    u: u32,
    n: u32,
    m: u32,
    c: int,
)
    requires
        consistent(fs),
        after.sb == fs.sb.with_free(after.sb.free_blocks as int),
        forall|k: u32|
            k != t && k != u && in_table(fs.sb, k) ==> #[trigger] after.inode(k) == fs.inode(k),
        forall|k: u32|
            k != t && k != u && live(fs, k) ==> forall|x: int| #[trigger]
                uses(after, k, x) == uses(fs, k, x),
        live(after, t) ==> takes_free_blocks(fs, after, t),
        live(after, u) ==> takes_free_blocks(fs, after, u),
        t != u && live(after, t) && live(after, u) ==> forall|x: int|
            !(#[trigger] uses(after, t, x) && #[trigger] uses(after, u, x)),
        live(after, n),
        live(after, m),
        n != m,
    ensures
        !(uses(after, n, c) && uses(after, m, c)),
{
    if uses(after, n, c) && n != t && n != u {
        assert(live(fs, n));
        assert(uses(fs, n, c));
        assert(node_sound(fs, fs.inode(n)));
        lemma_used_is_owned(fs, fs.inode(n), c);
    }
    if uses(after, m, c) && m != t && m != u {
        assert(live(fs, m));
        assert(uses(fs, m, c));
        assert(node_sound(fs, fs.inode(m)));
        lemma_used_is_owned(fs, fs.inode(m), c);
    }
    assert(!(live(fs, n) && live(fs, m) && uses(fs, n, c) && uses(fs, m, c)));
}

/// A write to a file in use keeps a file system consistent.
pub proof fn lemma_write_consistent(fs: FsView, ino: u32, offset: int, data: Seq<u8>, now: i64)
    requires
        consistent(fs),
        live(fs, ino),
        !fs.inode(ino).is_dir(),
        writable(fs, ino, offset, data),
    ensures
        consistent(file_written(fs, ino, offset, data, now).0),
        forall|m: u32|
            m != ino && live(fs, m) ==> #[trigger] undisturbed(
                fs,
                file_written(fs, ino, offset, data, now).0,
                m,
            ),
{
    let after = file_written(fs, ino, offset, data, now).0;
    let inode = fs.inode(ino);
    assert(node_sound(fs, inode));
    lemma_write_effect(fs, ino, offset, data, now);
    assert(counted(after)) by {
        if data.len() > 0 && !too_big(offset, data.len() as int) {
            law_write_succeeds(fs, ino, offset, data, now);
        }
    }
    assert forall|m: u32, c: int|
        m != ino && live(fs, m) && owned(fs, c) && #[trigger] uses(fs, m, c) implies owned(after, c)
        && after.disk.block(c) == fs.disk.block(c) by {
        assert(!(uses(fs, ino, c) && uses(fs, m, c)));
    }
    assert(takes_free_blocks(fs, after, ino)) by {
        assert forall|c: int| #[trigger] uses(after, ino, c) implies (live(fs, ino) && uses(
            fs,
            ino,
            c,
        )) || !is_set(fs.disk, c) by {
            assert(!apart(after, after.inode(ino), c));
        }
    }
    lemma_step(fs, after, ino, ino);
}

/// Writing an inode anew, with the blocks and the type that it had, keeps a file system consistent.
proof fn lemma_inode_rewritten(fs: FsView, inode2: InodeView)
    requires
        consistent(fs),
        in_table(fs.sb, inode2.inode_no),
        inode2.well_formed(),
        ({
            let inode = fs.inode(inode2.inode_no);
            &&& inode2.direct_blocks == inode.direct_blocks
            &&& inode2.indirect_block == inode.indirect_block
            &&& inode2.block_count == inode.block_count
            &&& inode2.size == inode.size
            &&& inode2.is_dir() == inode.is_dir()
            &&& inode.nlink == 0 ==> inode2.nlink == 0
        }),
    ensures
        consistent(with_inode(fs, inode2)),
        with_inode(fs, inode2).inode(inode2.inode_no) == inode2,
        forall|m: u32|
            m != inode2.inode_no && in_table(fs.sb, m) ==> #[trigger] with_inode(
                fs,
                inode2,
            ).inode(m) == fs.inode(m),
        forall|m: u32| live(fs, m) ==> #[trigger] keeps_places(fs, with_inode(fs, inode2), m),
{
    let n = inode2.inode_no;
    let inode = fs.inode(n);
    let after = with_inode(fs, inode2);
    lemma_table(fs, inode, n);
    lemma_inode_stored(fs, inode2);
    assert(after.sb =~= fs.sb.with_free(after.sb.free_blocks as int));
    assert forall|m: u32| m != n && in_table(fs.sb, m) implies #[trigger] after.inode(m)
        == fs.inode(m) by {
        lemma_table(fs, inode, m);
    }
    assert forall|c: int| owned(fs, c) implies #[trigger] after.disk.block(c) == fs.disk.block(
        c,
    ) by {}
    if live(fs, n) {
        lemma_node_kept(fs, after, inode, inode2);
    }
    if live(after, n) {
        assert(takes_free_blocks(fs, after, n)) by {
            assert forall|c: int| #[trigger] uses(after, n, c) implies uses(fs, n, c) by {
                assert(apart(after, inode2, c) == apart(fs, inode, c));
            }
        }
    }
    lemma_step(fs, after, n, n);
    assert forall|m: u32| live(fs, m) implies #[trigger] keeps_places(fs, after, m) by {
        if m != n {
            assert(undisturbed(fs, after, m));
        }
    }
}

/// Setting permissions keeps a file system consistent.
pub proof fn lemma_setattr_consistent(fs: FsView, ino: u32, mode: Option<u32>, now: i64)
    requires
        consistent(fs),
        in_table(fs.sb, ino),
    ensures
        consistent(attr_set(fs, ino, mode, now)),
        attr_set(fs, ino, mode, now).inode(ino).nlink == fs.inode(ino).nlink,
        forall|m: u32|
            m != ino && in_table(fs.sb, m) ==> #[trigger] attr_set(fs, ino, mode, now).inode(m)
                == fs.inode(m),
        forall|m: u32|
            live(fs, m) ==> #[trigger] keeps_places(fs, attr_set(fs, ino, mode, now), m),
{
    let inode2 = inode_with_mode(fs.inode(ino), mode, now);
    assert(inode2.is_dir() == fs.inode(ino).is_dir()) by {
        let old_mode = fs.inode(ino).mode;
        if let Some(m) = mode {
            assert(((old_mode & 0xF000) | ((m & 0o777) as u16)) & 0x4000 == old_mode & 0x4000)
                by (bit_vector);
        }
    }
    assert(attr_set(fs, ino, mode, now) == with_inode(fs, inode2));
    lemma_inode_rewritten(fs, inode2);
}

/// Adding an entry to a directory in use keeps a file system consistent.
pub proof fn lemma_entry_added_consistent(
    fs: FsView,
    parent: u32,
    name: Seq<char>,
    child: u32,
    is_dir: bool,
    now: i64,
)
    requires
        consistent(fs),
        live(fs, parent),
        fs.inode(parent).is_dir(),
    ensures
        consistent(
            outcome_fs(
                entry_added(fs.disk, fs.sb, fs.inode(parent), name, child, is_dir, now),
            ),
        ),
        forall|m: u32|
            m != parent && live(fs, m) ==> #[trigger] undisturbed(
                fs,
                outcome_fs(
                    entry_added(fs.disk, fs.sb, fs.inode(parent), name, child, is_dir, now),
                ),
                m,
            ),
{
    let dir = fs.inode(parent);
    let o = entry_added(fs.disk, fs.sb, dir, name, child, is_dir, now);
    let after = outcome_fs(o);
    assert(node_sound(fs, dir));
    if o.result is Err {
        law_refused_change_leaves_directory(fs, dir, name, child, is_dir, now);
    } else {
        lemma_added_entry(fs, dir, name, child, is_dir, now);
        lemma_dir_changed_consistent(fs, parent, after);
    }
}

/// A directory that has changed in one place, and has got new blocks if any from those that were
/// free, leaves a file system consistent.
proof fn lemma_dir_changed_consistent(fs: FsView, parent: u32, after: FsView)
    requires
        consistent(fs),
        live(fs, parent),
        fs.inode(parent).is_dir(),
        exists|s0: int, x: Slot| #[trigger]
            dir_changed(fs, fs.inode(parent), after, after.inode(parent), s0, x),
    ensures
        consistent(after),
        forall|m: u32| m != parent && live(fs, m) ==> #[trigger] undisturbed(fs, after, m),
{
    let dir = fs.inode(parent);
    let dir2 = after.inode(parent);
    let (s0, x) = choose|s0: int, x: Slot| #[trigger] dir_changed(fs, dir, after, dir2, s0, x);
    assert(node_sound(fs, dir));
    assert(dir2.mode == dir.mode);
    lemma_table(fs, dir, parent);
    assert(takes_free_blocks(fs, after, parent)) by {
        assert forall|c: int| #[trigger] uses(after, parent, c) implies uses(fs, parent, c)
            || !is_set(fs.disk, c) by {
            let i = choose|i: int|
                0 <= i < dir2.block_count && (#[trigger] dir2.pointer(after.disk, i)) == Some(
                    c as u32,
                );
            if i < dir.block_count {
                assert(dir.pointer(fs.disk, i) == Some(c as u32));
            }
        }
    }
    assert forall|m: u32, c: int|
        m != parent && live(fs, m) && owned(fs, c) && #[trigger] uses(fs, m, c) implies owned(
        after,
        c,
    ) && after.disk.block(c) == fs.disk.block(c) by {
        assert(!(uses(fs, parent, c) && uses(fs, m, c)));
        if !apart(after, dir2, c) {
            assert(uses(after, parent, c));
        }
    }
    lemma_step(fs, after, parent, parent);
}

/// Making a file keeps a file system consistent.
pub proof fn lemma_create_consistent(
    fs: FsView,
    parent: u32,
    name: Seq<char>,
    made: i64,
    added: i64,
)
    requires
        consistent(fs),
        live(fs, parent),
        fs.inode(parent).is_dir(),
    ensures
        consistent(file_created(fs, parent, name, made, added).fs),
{
    let dir = fs.inode(parent);
    if entry_named(fs.disk, dir, name) is None && dir.permits(true) && free_inode(fs) is Some {
        let n = new_number(fs);
        let inode = new_file_inode(n, made);
        let mid = with_inode(fs, inode);
        lemma_scannable(fs);
        lemma_free_inode(fs);
        lemma_new_file_consistent(fs, n, made);
        assert(mid.inode(parent) == dir);
        lemma_entry_added_consistent(mid, parent, name, n, false, added);
    }
}

/// The inode of a new file, written where a free one was, keeps a file system consistent.
pub proof fn lemma_new_file_consistent(fs: FsView, n: u32, made: i64)
    requires
        consistent(fs),
        in_table(fs.sb, n),
        fs.inode(n).nlink == 0,
    ensures
        consistent(with_inode(fs, new_file_inode(n, made))),
        forall|m: u32|
            m != n && in_table(fs.sb, m) ==> #[trigger] with_inode(
                fs,
                new_file_inode(n, made),
            ).inode(m) == fs.inode(m),
        with_inode(fs, new_file_inode(n, made)).inode(n) == new_file_inode(n, made),
        forall|m: u32|
            live(fs, m) ==> #[trigger] undisturbed(fs, with_inode(fs, new_file_inode(n, made)), m),
{
    let inode = new_file_inode(n, made);
    let after = with_inode(fs, inode);
    lemma_table(fs, inode, n);
    lemma_inode_stored(fs, inode);
    assert(after.sb =~= fs.sb.with_free(after.sb.free_blocks as int));
    assert forall|m: u32| m != n && in_table(fs.sb, m) implies #[trigger] after.inode(m)
        == fs.inode(m) by {
        lemma_table(fs, inode, m);
    }
    assert(0o100644u16 & 0x4000 == 0) by (bit_vector);
    assert(node_sound(after, inode));
    assert forall|c: int| !#[trigger] uses(after, n, c) by {}
    lemma_step(fs, after, n, n);
}

/// Making a directory keeps a file system consistent.
pub proof fn lemma_mkdir_consistent(
    fs: FsView,
    parent: u32,
    name: Seq<char>,
    made: i64,
    added: i64,
)
    requires
        consistent(fs),
        live(fs, parent),
        fs.inode(parent).is_dir(),
    ensures
        consistent(dir_created(fs, parent, name, made, added).fs),
{
    let dir = fs.inode(parent);
    if entry_named(fs.disk, dir, name) is None && free_inode(fs) is Some && allocated(
        fs.disk,
        fs.sb,
    ) is Some {
        let n = new_number(fs);
        let mid = dir_prepared(fs, n, parent, made);
        lemma_scannable(fs);
        lemma_free_inode(fs);
        lemma_dir_prepared(fs, n, parent, made);
        lemma_new_dir_consistent(fs, n, parent, made);
        assert(mid.inode(parent) == dir);
        lemma_entry_added_consistent(mid, parent, name, n, true, added);
    }
}

/// A new directory that is not entered yet keeps a file system consistent.
pub proof fn lemma_new_dir_consistent(fs: FsView, n: u32, parent: u32, made: i64)
    requires
        consistent(fs),
        in_table(fs.sb, n),
        fs.inode(n).nlink == 0,
        allocated(fs.disk, fs.sb) is Some,
    ensures
        consistent(dir_prepared(fs, n, parent, made)),
        forall|m: u32|
            live(fs, m) ==> #[trigger] undisturbed(fs, dir_prepared(fs, n, parent, made), m),
{
    let b = next_block(fs);
    let inode = dir_with_block(n, b, made);
    let after = dir_prepared(fs, n, parent, made);
    lemma_table(fs, inode, n);
    lemma_dir_prepared(fs, n, parent, made);
    lemma_new_dir_sound(after, n, parent, b, made);
    assert(takes_free_blocks(fs, after, n)) by {
        assert(inode.pointer(after.disk, 0) == Some(b));
        assert forall|c: int| #[trigger] uses(after, n, c) implies !is_set(fs.disk, c) by {}
    }
    lemma_step(fs, after, n, n);
}

/// Removing an entry from a directory in use keeps a file system consistent.
pub proof fn lemma_entry_removed_consistent(fs: FsView, parent: u32, name: Seq<char>, now: i64)
    requires
        consistent(fs),
        live(fs, parent),
        fs.inode(parent).is_dir(),
        entry_named(fs.disk, fs.inode(parent), name) is Some,
    ensures
        consistent(outcome_fs(entry_removed(fs.disk, fs.sb, fs.inode(parent), name, now))),
        forall|m: u32|
            m != parent && live(fs, m) ==> #[trigger] undisturbed(
                fs,
                outcome_fs(entry_removed(fs.disk, fs.sb, fs.inode(parent), name, now)),
                m,
            ),
{
    let dir = fs.inode(parent);
    assert(node_sound(fs, dir));
    law_removed_entry_gone(fs, dir, name, now);
    lemma_dir_changed_consistent(
        fs,
        parent,
        outcome_fs(entry_removed(fs.disk, fs.sb, dir, name, now)),
    );
}

/// Removing a name of a file keeps a file system consistent, if the name stands for an inode in
/// use.
pub proof fn lemma_unlink_consistent(fs: FsView, parent: u32, name: Seq<char>, now: i64)
    requires
        consistent(fs),
        live(fs, parent),
        fs.inode(parent).is_dir(),
        entry_named(fs.disk, fs.inode(parent), name) matches Some(x) ==> live(fs, x.entry.inode)
            && x.entry.inode != parent,
    ensures
        consistent(file_unlinked(fs, parent, name, now).fs),
{
    let dir = fs.inode(parent);
    assert(node_sound(fs, dir));
    if entry_named(fs.disk, dir, name) is Some {
        let n = entry_named(fs.disk, dir, name)->0.entry.inode;
        let inode = fs.inode(n);
        assert(node_sound(fs, inode));
        if !inode.is_dir() {
            let dropped = link_dropped(fs, inode);
            lemma_link_dropped_consistent(fs, n, parent);
            assert(entry_named(dropped.disk, dir, name) is Some) by {
                assert(entry_named(dropped.disk, dir, name) == entry_named(fs.disk, dir, name));
            }
            lemma_entry_removed_consistent(dropped, parent, name, now);
        }
    }
}

/// Dropping a link of a file in use keeps a file system consistent, and leaves a directory as it
/// is.
pub proof fn lemma_link_dropped_consistent(fs: FsView, n: u32, parent: u32)
    requires
        consistent(fs),
        live(fs, n),
        live(fs, parent),
        n != parent,
        fs.inode(parent).is_dir(),
        !fs.inode(n).is_dir(),
    ensures
        consistent(link_dropped(fs, fs.inode(n))),
        link_dropped(fs, fs.inode(n)).inode(parent) == fs.inode(parent),
        link_dropped(fs, fs.inode(n)).sb == fs.sb.with_free(
            link_dropped(fs, fs.inode(n)).sb.free_blocks as int,
        ),
        forall|name: Seq<char>| #[trigger]
            entry_named(link_dropped(fs, fs.inode(n)).disk, fs.inode(parent), name) == entry_named(
                fs.disk,
                fs.inode(parent),
                name,
            ),
        forall|m: u32|
            m != n && live(fs, m) ==> #[trigger] undisturbed(
                fs,
                link_dropped(fs, fs.inode(n)),
                m,
            ),
        link_dropped(fs, fs.inode(n)).inode(n).is_dir() == fs.inode(n).is_dir(),
        forall|m: u32|
            m != n && in_table(fs.sb, m) ==> #[trigger] link_dropped(fs, fs.inode(n)).inode(m)
                == fs.inode(m),
{
    let dir = fs.inode(parent);
    let inode = fs.inode(n);
    let dropped = link_dropped(fs, inode);
    assert(node_sound(fs, dir));
    assert(node_sound(fs, inode));
    if inode.nlink > 1 {
        let less = one_link_less(inode);
        assert(dropped == with_inode(fs, less));
        assert(dropped.sb =~= fs.sb.with_free(dropped.sb.free_blocks as int));
        lemma_inode_rewritten(fs, less);
        lemma_inode_stored_keeps_dir(fs, less, dir);
        assert forall|m: u32| m != n && live(fs, m) implies #[trigger] undisturbed(
            fs,
            dropped,
            m,
        ) by {
            assert(keeps_places(fs, with_inode(fs, less), m));
        }
    } else {
        lemma_live_disjoint(fs, n, parent);
        lemma_all_freeable(fs, inode);
        lemma_all_freed(fs, inode);
        lemma_file_freed(fs, inode, dir);
        assert forall|m: u32, c: int|
            m != n && live(fs, m) && owned(fs, c) && #[trigger] uses(fs, m, c) implies owned(
            dropped,
            c,
        ) && dropped.disk.block(c) == fs.disk.block(c) by {
            assert(!(uses(fs, n, c) && uses(fs, m, c)));
            assert(is_set(dropped.disk, c));
        }
        lemma_step(fs, dropped, n, n);
    }
}

/// Removing a directory keeps a file system consistent, if the name stands for an inode in use
/// other than the directory that it is removed from.
pub proof fn lemma_rmdir_consistent(fs: FsView, parent: u32, name: Seq<char>, now: i64)
    requires
        consistent(fs),
        live(fs, parent),
        fs.inode(parent).is_dir(),
        entry_named(fs.disk, fs.inode(parent), name) matches Some(x) ==> live(fs, x.entry.inode)
            && x.entry.inode != parent,
    ensures
        consistent(dir_removed(fs, parent, name, now).fs),
        dir_removed(fs, parent, name, now).result is Ok ==> forall|m: u32|
            m != parent && m != entry_named(fs.disk, fs.inode(parent), name)->0.entry.inode && live(
                fs,
                m,
            ) ==> #[trigger] undisturbed(fs, dir_removed(fs, parent, name, now).fs, m),
{
    let dir = fs.inode(parent);
    assert(node_sound(fs, dir));
    if entry_named(fs.disk, dir, name) is Some {
        let n = entry_named(fs.disk, dir, name)->0.entry.inode;
        let inode = fs.inode(n);
        assert(node_sound(fs, inode));
        if inode.is_dir() && entries(fs.disk, inode).len() <= 2 {
            lemma_live_disjoint(fs, n, parent);
            lemma_table(fs, dir, n);
            lemma_table(fs, dir, parent);
            law_directory_can_be_removed(fs, parent, name);
            law_removed_directory_gone(fs, parent, name, now);
            lemma_directory_gone_blocks(fs, parent, name, n, now);
            let after = dir_removed(fs, parent, name, now).fs;
            assert forall|m: u32, c: int|
                m != n && m != parent && live(fs, m) && owned(fs, c) && #[trigger] uses(
                    fs,
                    m,
                    c,
                ) implies owned(after, c) && after.disk.block(c) == fs.disk.block(c) by {
                assert(!(uses(fs, n, c) && uses(fs, m, c)));
                assert(!(uses(fs, parent, c) && uses(fs, m, c)));
            }
            assert(takes_free_blocks(fs, after, parent)) by {
                let dir2 = after.inode(parent);
                assert forall|c: int| #[trigger] uses(after, parent, c) implies uses(
                    fs,
                    parent,
                    c,
                ) by {
                    let i = choose|i: int|
                        0 <= i < dir2.block_count && (#[trigger] dir2.pointer(after.disk, i))
                            == Some(c as u32);
                    assert(dir.pointer(fs.disk, i) == Some(c as u32));
                }
            }
            lemma_step(fs, after, n, parent);
        }
    }
}

/// The removal of a directory leaves alone every block in use that is none of it and none of its
/// parent; the parent keeps its blocks.
proof fn lemma_directory_gone_blocks(
    fs: FsView,
    parent: u32,
    name: Seq<char>,
    n: u32,
    now: i64,
)
    requires
        sound(fs),
        counted(fs),
        in_table(fs.sb, parent),
        in_table(fs.sb, n),
        n != parent,
        dir_sound(fs, fs.inode(parent)),
        dir_sound(fs, fs.inode(n)),
        disjoint(fs, fs.inode(n), fs.inode(parent)),
        fs.inode(n).is_dir(),
        entries(fs.disk, fs.inode(n)).len() <= 2,
        entry_named(fs.disk, fs.inode(parent), name) is Some,
        entry_named(fs.disk, fs.inode(parent), name)->0.entry.inode == n,
    ensures
        ({
            let after = dir_removed(fs, parent, name, now).fs;
            &&& after.inode(parent) == (InodeView { mtime: now, ..fs.inode(parent) })
            &&& forall|c: int|
                owned(fs, c) && apart(fs, fs.inode(n), c) && apart(fs, fs.inode(parent), c)
                    ==> #[trigger] owned(after, c)
            &&& forall|c: int|
                owned(fs, c) && apart(fs, fs.inode(n), c) && apart(fs, fs.inode(parent), c)
                    ==> #[trigger] after.disk.block(c) == fs.disk.block(c)
        }),
{
    let dir = fs.inode(parent);
    let inode = fs.inode(n);
    let freed = blocks_freed(fs, inode, inode.block_count as int);
    let gone = outcome_fs(entry_removed(freed.disk, freed.sb, dir, name, now));
    let after = dir_removed(fs, parent, name, now).fs;
    lemma_all_freeable(fs, inode);
    lemma_all_freed(fs, inode);
    assert(freed == all_freed(fs, inode));
    lemma_released_keeps_dir(fs, inode, freed, dir);
    assert(entry_named(freed.disk, dir, name) == entry_named(fs.disk, dir, name));
    lemma_removed_entry(freed, dir, name, now);
    lemma_table(gone, inode, n);
    lemma_table(gone, inode, parent);
    lemma_inode_stored(gone, unlinked(inode));
    assert(after == with_inode(gone, unlinked(inode)));
    assert forall|c: int|
        owned(fs, c) && apart(fs, inode, c) && apart(fs, dir, c) implies owned(after, c)
        && #[trigger] after.disk.block(c) == fs.disk.block(c) by {
        assert(is_set(freed.disk, c));
        assert(freed.disk.has(c));
        assert(owned(freed, c));
        assert(apart(freed, dir, c)) by {
            assert forall|i: int| 0 <= i < dir.block_count implies (#[trigger] dir.pointer(
                freed.disk,
                i,
            )) != Some(c as u32) by {
                assert(dir.pointer(fs.disk, i) != Some(c as u32));
            }
        }
        assert(gone.disk.block(c) == freed.disk.block(c));
        assert(owned(gone, c));
        assert(freed.disk.block(c) == fs.disk.block(c));
    }
    assert forall|c: int|
        owned(fs, c) && apart(fs, inode, c) && apart(fs, dir, c) implies #[trigger] owned(
        after,
        c,
    ) by {
        assert(after.disk.block(c) == fs.disk.block(c));
    }
}

} // verus!
