//! What removing files and directories leads to.

use crate::bitmap::is_set;
use crate::directory::{entries, entry_named, entry_removed, place_of, slot, slot_count};
use crate::directory_laws::{dir_sound, law_removed_entry_gone, names_unique, outcome_fs};
use crate::disk::PAGE_SIZE;
use crate::file::{bytes_read, file_byte, lemma_small_offset, position, read_len};
use crate::file_laws::{disjoint, lemma_same_file_bytes};
use crate::fs::{attributes, looked_up, FileAttr, FsError, FsView};
use crate::inode::{in_table, inode_block, lemma_inode_same_block, InodeView, DIRECT_BLOCKS};
use crate::sound::{
    after_free, apart, blocks_held, inode_sound, lemma_free_keeps_sound, lemma_table, owned, sound,
};
use crate::space::{counted, law_free_keeps_count};
use crate::superblock::BITS_PER_BLOCK;
use crate::tree::{
    all_freed, blocks_freed, can_free, dir_created, dir_removable, dir_removed, file_created,
    file_freed, file_unlinked, free_inode, freeable, next_freeable, one_link_less, unlinkable,
    unlinked,
};
use crate::tree_laws::{
    lemma_dir_kept, lemma_inode_stored, lemma_inode_stored_keeps_dir, with_inode,
};
use vstd::prelude::*;

verus! {

broadcast use crate::inode::lemma_inode_at;

/// Block `c` is one of the first `n` data blocks of `inode`.
pub open spec fn among_first(fs: FsView, inode: InodeView, n: int, c: int) -> bool {
    exists|i: int| 0 <= i < n && #[trigger] inode.pointer(fs.disk, i) == Some(c as u32)
}

/// Freeing the first `n` data blocks of a sound inode clears exactly their bits, counts them, and
/// leaves the contents of all blocks behind the bitmap.
pub proof fn lemma_first_blocks_freed(fs: FsView, inode: InodeView, n: int)
    requires
        sound(fs),
        inode_sound(fs, inode),
        0 <= n <= inode.block_count,
        forall|k: int| 0 <= k < n ==> #[trigger] next_freeable(fs, inode, k),
    ensures
        ({
            let after = blocks_freed(fs, inode, n);
            &&& sound(after)
            &&& after.sb == fs.sb.with_free(fs.sb.free_blocks + n)
            &&& after.sb.free_blocks == fs.sb.free_blocks + n
            &&& counted(fs) ==> counted(after)
            &&& forall|i: int|
                0 <= i < inode.block_count ==> #[trigger] inode.pointer(after.disk, i)
                    == inode.pointer(fs.disk, i)
            &&& forall|c: int|
                0 <= c < fs.sb.bitmap_blocks * BITS_PER_BLOCK ==> #[trigger] is_set(after.disk, c)
                    == (is_set(fs.disk, c) && !among_first(fs, inode, n, c))
            &&& forall|c: int| #[trigger] after.disk.has(c) == fs.disk.has(c)
            &&& forall|c: int|
                fs.sb.bitmap_blocks < c && fs.disk.has(c) ==> #[trigger] after.disk.block(c)
                    == fs.disk.block(c)
        }),
    decreases n,
{
    if n == 0 {
        assert(blocks_freed(fs, inode, 0) == fs);
        assert(fs.sb =~= fs.sb.with_free(fs.sb.free_blocks as int));
        assert forall|c: int| !among_first(fs, inode, 0, c) by {}
    } else {
        lemma_first_blocks_freed(fs, inode, n - 1);
        let before = blocks_freed(fs, inode, n - 1);
        let after = blocks_freed(fs, inode, n);
        let p = inode.pointer(fs.disk, n - 1);
        assert(inode.pointer(before.disk, n - 1) == p);
        assert(p is Some);
        let b = p->0 as int;
        assert(owned(fs, b));
        assert(next_freeable(fs, inode, n - 1));
        assert(after == after_free(before, b));
        lemma_free_keeps_sound(before, b);
        assert(!among_first(fs, inode, n - 1, b)) by {
            if among_first(fs, inode, n - 1, b) {
                let i = choose|i: int|
                    0 <= i < n - 1 && #[trigger] inode.pointer(fs.disk, i) == Some(b as u32);
                assert(inode.pointer(fs.disk, i) != inode.pointer(fs.disk, n - 1));
            }
        }
        assert(is_set(before.disk, b));
        assert(before.disk.has(b));
        if counted(fs) {
            law_free_keeps_count(before, b);
        }
        assert forall|c: int|
            fs.sb.bitmap_blocks < c && fs.disk.has(c) implies #[trigger] after.disk.block(c)
            == fs.disk.block(c) by {
            assert(before.disk.has(c));
            assert(before.disk.block(c) == fs.disk.block(c));
        }
        assert forall|i: int| 0 <= i < inode.block_count implies #[trigger] inode.pointer(
            after.disk,
            i,
        ) == inode.pointer(fs.disk, i) by {
            if i >= DIRECT_BLOCKS {
                assert(owned(fs, inode.indirect_block as int));
            }
        }
        assert forall|c: int|
            0 <= c < fs.sb.bitmap_blocks * BITS_PER_BLOCK implies #[trigger] is_set(after.disk, c)
            == (is_set(fs.disk, c) && !among_first(fs, inode, n, c)) by {
            assert(is_set(after.disk, c) == (c != b && is_set(before.disk, c)));
            assert(is_set(before.disk, c) == (is_set(fs.disk, c) && !among_first(
                fs,
                inode,
                n - 1,
                c,
            )));
            assert(among_first(fs, inode, n, c) == (c == b || among_first(fs, inode, n - 1, c))) by {
                if among_first(fs, inode, n, c) {
                    let i = choose|i: int|
                        0 <= i < n && #[trigger] inode.pointer(fs.disk, i) == Some(c as u32);
                    if i < n - 1 {
                        assert(among_first(fs, inode, n - 1, c));
                    }
                }
                if among_first(fs, inode, n - 1, c) {
                    let i = choose|i: int|
                        0 <= i < n - 1 && #[trigger] inode.pointer(fs.disk, i) == Some(c as u32);
                    assert(among_first(fs, inode, n, c));
                }
                if c == b {
                    assert(inode.pointer(fs.disk, n - 1) == Some(c as u32));
                }
            }
        }
        assert(after.sb =~= fs.sb.with_free(fs.sb.free_blocks + n));
    }
}

/// All blocks of `inode` have been freed, from `fs` to `after`: exactly their bits are cleared,
/// they are counted, and the contents of all blocks behind the bitmap are as they were.
pub open spec fn released(fs: FsView, inode: InodeView, after: FsView) -> bool {
    &&& sound(after)
    &&& after.sb == fs.sb.with_free(fs.sb.free_blocks + blocks_held(inode))
    &&& after.sb.free_blocks == fs.sb.free_blocks + blocks_held(inode)
    &&& counted(fs) ==> counted(after)
    &&& forall|c: int|
        0 <= c < fs.sb.bitmap_blocks * BITS_PER_BLOCK ==> #[trigger] is_set(after.disk, c) == (
        is_set(fs.disk, c) && apart(fs, inode, c))
    &&& forall|c: int| #[trigger] after.disk.has(c) == fs.disk.has(c)
    &&& forall|c: int|
        fs.sb.bitmap_blocks < c && fs.disk.has(c) ==> #[trigger] after.disk.block(c)
            == fs.disk.block(c)
}

/// Freeing all blocks of a sound inode gives back exactly its blocks.
pub proof fn lemma_all_freed(fs: FsView, inode: InodeView)
    requires
        sound(fs),
        inode_sound(fs, inode),
        freeable(fs, inode),
        inode.indirect_block != 0 ==> can_free(
            blocks_freed(fs, inode, inode.block_count as int),
            inode.indirect_block as int,
        ),
    ensures
        released(fs, inode, all_freed(fs, inode)),
{
    let n = inode.block_count as int;
    let data = blocks_freed(fs, inode, n);
    let after = all_freed(fs, inode);
    lemma_first_blocks_freed(fs, inode, n);
    assert forall|c: int|
        0 <= c < fs.sb.bitmap_blocks * BITS_PER_BLOCK implies !among_first(fs, inode, n, c) == (
    forall|i: int|
        0 <= i < n ==> (#[trigger] inode.pointer(fs.disk, i)) != Some(c as u32)) by {}
    if inode.indirect_block != 0 {
        let x = inode.indirect_block as int;
        assert(owned(fs, x));
        assert(inode.block_count > DIRECT_BLOCKS);
        lemma_free_keeps_sound(data, x);
        assert(after == after_free(data, x));
        assert(!among_first(fs, inode, n, x)) by {
            if among_first(fs, inode, n, x) {
                let i = choose|i: int|
                    0 <= i < n && #[trigger] inode.pointer(fs.disk, i) == Some(x as u32);
                assert(inode.pointer(fs.disk, i) != Some(inode.indirect_block));
            }
        }
        assert(is_set(data.disk, x));
        assert(data.disk.has(x));
        if counted(fs) {
            law_free_keeps_count(data, x);
        }
        assert forall|c: int|
            0 <= c < fs.sb.bitmap_blocks * BITS_PER_BLOCK implies #[trigger] is_set(after.disk, c)
            == (is_set(fs.disk, c) && apart(fs, inode, c)) by {
            assert(is_set(after.disk, c) == (c != x && is_set(data.disk, c)));
            assert(is_set(data.disk, c) == (is_set(fs.disk, c) && !among_first(fs, inode, n, c)));
        }
        assert forall|c: int|
            fs.sb.bitmap_blocks < c && fs.disk.has(c) implies #[trigger] after.disk.block(c)
            == fs.disk.block(c) by {
            assert(data.disk.has(c));
            assert(data.disk.block(c) == fs.disk.block(c));
        }
        assert(after.sb =~= fs.sb.with_free(fs.sb.free_blocks + blocks_held(inode)));
    }
}

/// Freeing the blocks of one inode changes no inode.
pub proof fn lemma_released_keeps_inode(fs: FsView, inode: InodeView, after: FsView, m: u32)
    requires
        sound(fs),
        released(fs, inode, after),
        fs.has_inode(m),
    ensures
        after.has_inode(m),
        after.inode(m) == fs.inode(m),
{
    assert(after.disk.block(inode_block(fs.sb, m)) == fs.disk.block(inode_block(fs.sb, m)));
    lemma_inode_same_block(fs.disk, fs.sb, after.disk, after.sb, m);
}

/// Freeing the blocks of one inode changes no directory that shares no block with it.
pub proof fn lemma_released_keeps_dir(fs: FsView, inode: InodeView, after: FsView, dir: InodeView)
    requires
        sound(fs),
        released(fs, inode, after),
        dir_sound(fs, dir),
        disjoint(fs, inode, dir),
    ensures
        dir_sound(after, dir),
        forall|i: int|
            0 <= i < dir.block_count ==> #[trigger] dir.pointer(after.disk, i) == dir.pointer(
                fs.disk,
                i,
            ),
        forall|s: int|
            0 <= s < slot_count(dir) ==> #[trigger] slot(after.disk, dir, s) == slot(
                fs.disk,
                dir,
                s,
            ),
        forall|name: Seq<char>| #[trigger]
            place_of(after.disk, dir, name) == place_of(fs.disk, dir, name),
        forall|name: Seq<char>| #[trigger]
            entry_named(after.disk, dir, name) == entry_named(fs.disk, dir, name),
        entries(after.disk, dir) == entries(fs.disk, dir),
        names_unique(after.disk, dir) == names_unique(fs.disk, dir),
{
    assert forall|i: int| 0 <= i < dir.block_count implies owned(
        after,
        (#[trigger] dir.pointer(fs.disk, i))->0 as int,
    ) && after.disk.block(dir.pointer(fs.disk, i)->0 as int) == fs.disk.block(
        dir.pointer(fs.disk, i)->0 as int,
    ) by {
        let c = dir.pointer(fs.disk, i)->0 as int;
        assert(owned(fs, c));
        assert(apart(fs, inode, c));
        assert(is_set(after.disk, c));
        assert(after.disk.has(c));
    }
    lemma_dir_kept(fs, after, dir);
}

/// What the removal of `name`, which stands for inode `n`, from directory `parent` leads to, from
/// `fs` to `after`, but for the inode itself: the name is not found any more, every other name is
/// found where it was, and no other inode of the table changes.
pub open spec fn name_withdrawn(
    fs: FsView,
    after: FsView,
    parent: u32,
    name: Seq<char>,
    n: u32,
) -> bool {
    let dir = fs.inode(parent);
    let dir2 = after.inode(parent);
    &&& sound(after)
    &&& counted(fs) ==> counted(after)
    &&& dir_sound(after, dir2)
    &&& dir2.nlink == dir.nlink
    &&& dir2.mode == dir.mode
    &&& forall|other: Seq<char>|
        other != name ==> #[trigger] entry_named(after.disk, dir2, other) == entry_named(
            fs.disk,
            dir,
            other,
        )
    &&& exists|k: int|
        0 <= k <= entries(after.disk, dir2).len() && entries(fs.disk, dir) == #[trigger] entries(
            after.disk,
            dir2,
        ).insert(k, entry_named(fs.disk, dir, name)->0)
    &&& names_unique(fs.disk, dir) ==> names_unique(after.disk, dir2) && looked_up(
        after,
        parent,
        name,
    ) == Err::<FileAttr, FsError>(FsError::NotFound)
    &&& forall|m: u32|
        m != n && m != parent && in_table(fs.sb, m) ==> #[trigger] after.inode(m) == fs.inode(m)
}

/// What the removal of `name`, the last name of inode `inode`, from directory `parent` leads to,
/// from `fs` to `after`: the inode is free, exactly its blocks are free, and they are counted.
pub open spec fn withdrawn(
    fs: FsView,
    after: FsView,
    parent: u32,
    name: Seq<char>,
    inode: InodeView,
) -> bool {
    &&& name_withdrawn(fs, after, parent, name, inode.inode_no)
    &&& after.inode(inode.inode_no) == unlinked(inode)
    &&& attributes(after, inode.inode_no) == Err::<FileAttr, FsError>(FsError::NotFound)
    &&& after.sb == fs.sb.with_free(fs.sb.free_blocks + blocks_held(inode))
    &&& after.sb.free_blocks == fs.sb.free_blocks + blocks_held(inode)
    &&& forall|c: int|
        0 <= c < fs.sb.bitmap_blocks * BITS_PER_BLOCK ==> #[trigger] is_set(after.disk, c) == (
        is_set(fs.disk, c) && apart(fs, inode, c))
}

/// A block of a directory is none of an inode with which it shares no blocks, and the other way
/// round.
proof fn lemma_disjoint_apart(fs: FsView, inode: InodeView, dir: InodeView, c: int)
    requires
        disjoint(fs, inode, dir),
        inode_sound(fs, inode),
        dir_sound(fs, dir),
        !apart(fs, inode, c),
        0 <= c <= u32::MAX,
    ensures
        apart(fs, dir, c),
{
    assert forall|i: int| 0 <= i < dir.block_count implies (#[trigger] dir.pointer(fs.disk, i))
        != Some(c as u32) by {
        assert(apart(fs, inode, dir.pointer(fs.disk, i)->0 as int));
        assert(dir.pointer(fs.disk, i) is Some);
    }
}

/// A directory whose inode has changed, but not its blocks, is apart from the same blocks.
proof fn lemma_touched_dir_apart(
    fs: FsView,
    dir: InodeView,
    after: FsView,
    dir2: InodeView,
    b: int,
)
    requires
        apart(fs, dir, b),
        dir.block_count <= DIRECT_BLOCKS,
        dir2.block_count == dir.block_count,
        forall|i: int|
            0 <= i < dir.block_count ==> #[trigger] dir2.pointer(after.disk, i) == dir.pointer(
                fs.disk,
                i,
            ),
    ensures
        apart(after, dir2, b),
{
    assert forall|i: int| 0 <= i < dir2.block_count implies (#[trigger] dir2.pointer(
        after.disk,
        i,
    )) != Some(b as u32) by {
        assert(dir.pointer(fs.disk, i) != Some(b as u32));
    }
}

/// An entry removed from a directory changes one place of it and nothing else.
pub proof fn lemma_removed_entry(fs: FsView, dir: InodeView, name: Seq<char>, now: i64)
    requires
        sound(fs),
        dir_sound(fs, dir),
        in_table(fs.sb, dir.inode_no),
        entry_named(fs.disk, dir, name) is Some,
    ensures
        ({
            let o = entry_removed(fs.disk, fs.sb, dir, name, now);
            let after = outcome_fs(o);
            &&& o.result is Ok
            &&& sound(after)
            &&& counted(fs) ==> counted(after)
            &&& after.sb == fs.sb
            &&& dir_sound(after, o.dir)
            &&& after.inode(dir.inode_no) == o.dir
            &&& o.dir == (InodeView { mtime: now, ..dir })
            &&& forall|i: int|
                0 <= i < dir.block_count ==> #[trigger] o.dir.pointer(after.disk, i)
                    == dir.pointer(fs.disk, i)
            &&& forall|c: int| fs.disk.has(c) ==> #[trigger] after.disk.has(c)
            &&& forall|c: int| owned(fs, c) ==> #[trigger] owned(after, c)
            &&& forall|c: int|
                0 <= c < fs.sb.bitmap_blocks * BITS_PER_BLOCK ==> #[trigger] is_set(after.disk, c)
                    == is_set(fs.disk, c)
            &&& forall|c: int|
                owned(fs, c) && apart(fs, dir, c) ==> #[trigger] after.disk.block(c)
                    == fs.disk.block(c)
            &&& forall|m: u32|
                m != dir.inode_no && in_table(fs.sb, m) ==> #[trigger] after.inode(m) == fs.inode(m)
        }),
{
    let o = entry_removed(fs.disk, fs.sb, dir, name, now);
    let after = outcome_fs(o);
    law_removed_entry_gone(fs, dir, name, now);
    assert(o.dir == (InodeView { mtime: now, ..dir })) by {
        reveal(entry_removed);
    }
    lemma_table(fs, dir, dir.inode_no);
    assert forall|c: int| owned(fs, c) && apart(fs, dir, c) implies #[trigger] after.disk.block(c)
        == fs.disk.block(c) by {
        lemma_touched_dir_apart(fs, dir, after, o.dir, c);
    }
}

/// A step of a removal: the entry goes.
proof fn lemma_name_withdrawn(
    fs: FsView,
    freed: FsView,
    parent: u32,
    name: Seq<char>,
    n: u32,
    now: i64,
)
    requires
        sound(freed),
        counted(fs) ==> counted(freed),
        freed.sb == fs.sb.with_free(freed.sb.free_blocks as int),
        in_table(fs.sb, parent),
        in_table(fs.sb, n),
        n != parent,
        dir_sound(freed, fs.inode(parent)),
        entry_named(fs.disk, fs.inode(parent), name) is Some,
        forall|other: Seq<char>| #[trigger]
            entry_named(freed.disk, fs.inode(parent), other) == entry_named(
                fs.disk,
                fs.inode(parent),
                other,
            ),
        entries(freed.disk, fs.inode(parent)) == entries(fs.disk, fs.inode(parent)),
        names_unique(freed.disk, fs.inode(parent)) == names_unique(fs.disk, fs.inode(parent)),
        forall|m: u32| m != n && in_table(fs.sb, m) ==> #[trigger] freed.inode(m) == fs.inode(m),
    ensures
        ({
            let o = entry_removed(freed.disk, freed.sb, fs.inode(parent), name, now);
            let after = outcome_fs(o);
            &&& name_withdrawn(fs, after, parent, name, n)
            &&& after.inode(n) == freed.inode(n)
        }),
{
    let dir = fs.inode(parent);
    let o = entry_removed(freed.disk, freed.sb, dir, name, now);
    let after = outcome_fs(o);
    assert(entry_named(freed.disk, dir, name) == entry_named(fs.disk, dir, name));
    law_removed_entry_gone(freed, dir, name, now);
    lemma_removed_entry(freed, dir, name, now);
    assert(after.inode(parent) == o.dir);
    assert forall|other: Seq<char>| other != name implies #[trigger] entry_named(
        after.disk,
        o.dir,
        other,
    ) == entry_named(fs.disk, dir, other) by {
        assert(entry_named(freed.disk, dir, other) == entry_named(fs.disk, dir, other));
    }
    assert forall|m: u32|
        m != n && m != parent && in_table(fs.sb, m) implies #[trigger] after.inode(m) == fs.inode(
        m,
    ) by {
        assert(freed.inode(m) == fs.inode(m));
    }
}

/// After the last name of a file has been removed from a directory, the file is not found there any
/// more; its inode and exactly its blocks are free, the count of free blocks has grown by as many,
/// and every other name is found where it was.
///
/// This holds as long as file and directory share no blocks.
pub proof fn law_unlinked_file_gone(fs: FsView, parent: u32, name: Seq<char>, now: i64)
    requires
        sound(fs),
        unlinkable(fs, parent, name),
        in_table(fs.sb, parent),
        dir_sound(fs, fs.inode(parent)),
        file_unlinked(fs, parent, name, now).result is Ok,
        ({
            let n = entry_named(fs.disk, fs.inode(parent), name)->0.entry.inode;
            &&& n != parent
            &&& in_table(fs.sb, n)
            &&& fs.inode(n).nlink <= 1
            &&& inode_sound(fs, fs.inode(n))
            &&& disjoint(fs, fs.inode(n), fs.inode(parent))
        }),
    ensures
        ({
            let n = entry_named(fs.disk, fs.inode(parent), name)->0.entry.inode;
            withdrawn(fs, file_unlinked(fs, parent, name, now).fs, parent, name, fs.inode(n))
        }),
{
    let dir = fs.inode(parent);
    let n = entry_named(fs.disk, dir, name)->0.entry.inode;
    let inode = fs.inode(n);
    let data = all_freed(fs, inode);
    let freed = file_freed(fs, inode);
    let after = outcome_fs(entry_removed(freed.disk, freed.sb, dir, name, now));
    lemma_all_freed(fs, inode);
    lemma_file_freed(fs, inode, dir);
    lemma_name_withdrawn(fs, freed, parent, name, n, now);
    lemma_removed_entry(freed, dir, name, now);
    assert(after == file_unlinked(fs, parent, name, now).fs);
    assert forall|c: int| 0 <= c < fs.sb.bitmap_blocks * BITS_PER_BLOCK implies #[trigger] is_set(
        after.disk,
        c,
    ) == (is_set(fs.disk, c) && apart(fs, inode, c)) by {
        assert(is_set(after.disk, c) == is_set(freed.disk, c));
    }
}

/// Freeing a file frees exactly its blocks and its inode, and leaves a directory that shares no
/// block with it, and all other inodes of the table, as they are.
pub proof fn lemma_file_freed(fs: FsView, inode: InodeView, dir: InodeView)
    requires
        sound(fs),
        in_table(fs.sb, inode.inode_no),
        inode.well_formed(),
        released(fs, inode, all_freed(fs, inode)),
        dir_sound(fs, dir),
        disjoint(fs, inode, dir),
    ensures
        ({
            let freed = file_freed(fs, inode);
            &&& sound(freed)
            &&& counted(fs) ==> counted(freed)
            &&& freed.sb == fs.sb.with_free(fs.sb.free_blocks + blocks_held(inode))
            &&& freed.sb.free_blocks == fs.sb.free_blocks + blocks_held(inode)
            &&& dir_sound(freed, dir)
            &&& entries(freed.disk, dir) == entries(fs.disk, dir)
            &&& names_unique(freed.disk, dir) == names_unique(fs.disk, dir)
            &&& forall|name: Seq<char>| #[trigger]
                entry_named(freed.disk, dir, name) == entry_named(fs.disk, dir, name)
            &&& freed.inode(inode.inode_no) == unlinked(inode)
            &&& forall|m: u32|
                m != inode.inode_no && in_table(fs.sb, m) ==> #[trigger] freed.inode(m)
                    == fs.inode(m)
            &&& forall|c: int|
                0 <= c < fs.sb.bitmap_blocks * BITS_PER_BLOCK ==> #[trigger] is_set(freed.disk, c)
                    == (is_set(fs.disk, c) && apart(fs, inode, c))
            &&& forall|c: int| #[trigger] freed.disk.has(c) == fs.disk.has(c)
            &&& forall|c: int| owned(fs, c) ==> #[trigger] freed.disk.block(c) == fs.disk.block(c)
        }),
{
    let data = all_freed(fs, inode);
    let freed = file_freed(fs, inode);
    lemma_table(fs, inode, inode.inode_no);
    lemma_table(data, inode, inode.inode_no);
    lemma_released_keeps_dir(fs, inode, data, dir);
    assert(freed == with_inode(data, unlinked(inode)));
    lemma_inode_stored(data, unlinked(inode));
    lemma_inode_stored_keeps_dir(data, unlinked(inode), dir);
    assert forall|m: u32|
        m != inode.inode_no && in_table(fs.sb, m) implies #[trigger] freed.inode(m) == fs.inode(
        m,
    ) by {
        lemma_table(fs, inode, m);
        lemma_released_keeps_inode(fs, inode, data, m);
    }
    assert forall|name: Seq<char>| #[trigger]
        entry_named(freed.disk, dir, name) == entry_named(fs.disk, dir, name) by {
        assert(entry_named(data.disk, dir, name) == entry_named(fs.disk, dir, name));
    }
    assert forall|c: int| 0 <= c < fs.sb.bitmap_blocks * BITS_PER_BLOCK implies #[trigger] is_set(
        freed.disk,
        c,
    ) == (is_set(fs.disk, c) && apart(fs, inode, c)) by {
        assert(is_set(data.disk, c) == (is_set(fs.disk, c) && apart(fs, inode, c)));
    }
    assert forall|c: int| owned(fs, c) implies #[trigger] freed.disk.block(c) == fs.disk.block(
        c,
    ) by {
        assert(data.disk.has(c));
        assert(data.disk.block(c) == fs.disk.block(c));
    }
}

/// After one of several names of a file has been removed from a directory, it is not found there
/// any more; the inode counts one link less, no block is freed, the file reads as it did, and every
/// other name is found where it was.
///
/// This holds as long as file and directory share no blocks.
#[verifier::rlimit(40)]
pub proof fn law_unlinked_name_gone(fs: FsView, parent: u32, name: Seq<char>, now: i64)
    requires
        sound(fs),
        in_table(fs.sb, parent),
        dir_sound(fs, fs.inode(parent)),
        file_unlinked(fs, parent, name, now).result is Ok,
        ({
            let n = entry_named(fs.disk, fs.inode(parent), name)->0.entry.inode;
            &&& n != parent
            &&& in_table(fs.sb, n)
            &&& fs.inode(n).nlink > 1
            &&& inode_sound(fs, fs.inode(n))
            &&& disjoint(fs, fs.inode(n), fs.inode(parent))
        }),
    ensures
        ({
            let n = entry_named(fs.disk, fs.inode(parent), name)->0.entry.inode;
            let inode = fs.inode(n);
            let after = file_unlinked(fs, parent, name, now).fs;
            &&& name_withdrawn(fs, after, parent, name, n)
            &&& after.inode(n) == one_link_less(inode)
            &&& after.sb == fs.sb
            &&& forall|c: int|
                0 <= c < fs.sb.bitmap_blocks * BITS_PER_BLOCK ==> #[trigger] is_set(after.disk, c)
                    == is_set(fs.disk, c)
            &&& inode_sound(after, after.inode(n))
            &&& forall|offset: int, size: int|
                0 <= offset ==> #[trigger] bytes_read(after, n, offset, size) == bytes_read(
                    fs,
                    n,
                    offset,
                    size,
                )
        }),
{
    let dir = fs.inode(parent);
    let n = entry_named(fs.disk, dir, name)->0.entry.inode;
    let inode = fs.inode(n);
    let less = one_link_less(inode);
    let mid = with_inode(fs, less);
    let after = file_unlinked(fs, parent, name, now).fs;
    assert(after == outcome_fs(entry_removed(mid.disk, mid.sb, dir, name, now)));
    lemma_name_dropped(fs, parent, name, n, now);
    lemma_file_kept(fs, after, inode, less);
    assert forall|offset: int, size: int| 0 <= offset implies #[trigger] bytes_read(
        after,
        n,
        offset,
        size,
    ) == bytes_read(fs, n, offset, size) by {
        let p = position(offset);
        if offset < inode.size {
            lemma_small_offset(offset);
        }
        lemma_same_file_bytes(
            after.disk,
            less,
            fs.disk,
            inode,
            p,
            p + read_len(inode, offset, size),
        );
    }
}

/// A step of a removal: the inode counts one link less, then the entry goes.
proof fn lemma_name_dropped(fs: FsView, parent: u32, name: Seq<char>, n: u32, now: i64)
    requires
        sound(fs),
        in_table(fs.sb, parent),
        in_table(fs.sb, n),
        n != parent,
        dir_sound(fs, fs.inode(parent)),
        inode_sound(fs, fs.inode(n)),
        disjoint(fs, fs.inode(n), fs.inode(parent)),
        entry_named(fs.disk, fs.inode(parent), name) is Some,
    ensures
        ({
            let inode = fs.inode(n);
            let mid = with_inode(fs, one_link_less(inode));
            let o = entry_removed(mid.disk, mid.sb, fs.inode(parent), name, now);
            let after = outcome_fs(o);
            &&& name_withdrawn(fs, after, parent, name, n)
            &&& after.inode(n) == one_link_less(inode)
            &&& after.sb == fs.sb
            &&& forall|c: int|
                0 <= c < fs.sb.bitmap_blocks * BITS_PER_BLOCK ==> #[trigger] is_set(after.disk, c)
                    == is_set(fs.disk, c)
            &&& forall|c: int| owned(fs, c) ==> #[trigger] owned(after, c)
            &&& forall|c: int|
                owned(fs, c) && apart(fs, fs.inode(parent), c) ==> #[trigger] after.disk.block(c)
                    == fs.disk.block(c)
            &&& forall|c: int|
                owned(fs, c) && !apart(fs, inode, c) ==> #[trigger] after.disk.block(c)
                    == fs.disk.block(c)
        }),
{
    let dir = fs.inode(parent);
    let inode = fs.inode(n);
    let less = one_link_less(inode);
    let mid = with_inode(fs, less);
    let after = outcome_fs(entry_removed(mid.disk, mid.sb, dir, name, now));
    lemma_table(fs, dir, n);
    lemma_inode_stored(fs, less);
    lemma_inode_stored_keeps_dir(fs, less, dir);
    assert(entry_named(mid.disk, dir, name) == entry_named(fs.disk, dir, name));
    lemma_removed_entry(mid, dir, name, now);
    assert(name_withdrawn(fs, after, parent, name, n) && after.inode(n) == less) by {
        assert forall|m: u32| m != n && in_table(fs.sb, m) implies #[trigger] mid.inode(m)
            == fs.inode(m) by {
            lemma_table(fs, dir, m);
        }
        assert(mid.sb =~= fs.sb.with_free(mid.sb.free_blocks as int));
        lemma_name_withdrawn(fs, mid, parent, name, n, now);
    }
    assert forall|c: int| 0 <= c < fs.sb.bitmap_blocks * BITS_PER_BLOCK implies #[trigger] is_set(
        after.disk,
        c,
    ) == is_set(fs.disk, c) by {
        assert(is_set(mid.disk, c) == is_set(fs.disk, c));
    }
    assert forall|c: int| owned(fs, c) implies #[trigger] owned(after, c) by {
        assert(owned(mid, c));
    }
    assert forall|c: int| owned(fs, c) && apart(fs, dir, c) implies #[trigger] after.disk.block(c)
        == fs.disk.block(c) by {
        lemma_touched_dir_apart(fs, dir, mid, dir, c);
        assert(owned(mid, c));
        assert(mid.disk.block(c) == fs.disk.block(c));
    }
    assert forall|c: int| owned(fs, c) && !apart(fs, inode, c) implies #[trigger] after.disk.block(
        c,
    ) == fs.disk.block(c) by {
        lemma_disjoint_apart(fs, inode, dir, c);
    }
}

/// A file whose blocks have not changed is as sound as before and holds the same bytes, under an
/// inode that has the same blocks.
pub proof fn lemma_file_kept(fs: FsView, after: FsView, inode: InodeView, inode2: InodeView)
    requires
        inode_sound(fs, inode),
        after.sb.bitmap_blocks == fs.sb.bitmap_blocks,
        inode2.direct_blocks == inode.direct_blocks,
        inode2.indirect_block == inode.indirect_block,
        inode2.block_count == inode.block_count,
        inode2.size == inode.size,
        forall|c: int| owned(fs, c) && !apart(fs, inode, c) ==> #[trigger] owned(after, c),
        forall|c: int|
            owned(fs, c) && !apart(fs, inode, c) ==> #[trigger] after.disk.block(c)
                == fs.disk.block(c),
    ensures
        inode_sound(after, inode2),
        forall|i: int|
            0 <= i < inode.block_count ==> #[trigger] inode2.pointer(after.disk, i)
                == inode.pointer(fs.disk, i),
        forall|q: int|
            0 <= q < inode.block_count * PAGE_SIZE ==> #[trigger] file_byte(after.disk, inode2, q)
                == file_byte(fs.disk, inode, q),
{
    if inode.block_count > DIRECT_BLOCKS {
        assert(owned(fs, inode.indirect_block as int));
        assert(!apart(fs, inode, inode.indirect_block as int));
        assert(owned(after, inode.indirect_block as int));
        assert(after.disk.block(inode.indirect_block as int) == fs.disk.block(
            inode.indirect_block as int,
        ));
    }
    assert forall|i: int| 0 <= i < inode.block_count implies #[trigger] inode2.pointer(
        after.disk,
        i,
    ) == inode.pointer(fs.disk, i) by {}
    assert forall|i: int| 0 <= i < inode2.block_count implies (#[trigger] inode2.pointer(
        after.disk,
        i,
    )) is Some && owned(after, inode2.pointer(after.disk, i)->0 as int) by {
        assert(inode.pointer(fs.disk, i) is Some);
        assert(!apart(fs, inode, inode.pointer(fs.disk, i)->0 as int));
    }
    assert forall|i: int, j: int| 0 <= i < j < inode2.block_count implies (
    #[trigger] inode2.pointer(after.disk, i)) != (#[trigger] inode2.pointer(after.disk, j)) by {
        assert(inode.pointer(fs.disk, i) != inode.pointer(fs.disk, j));
    }
    assert forall|i: int| inode2.block_count > DIRECT_BLOCKS && 0 <= i < inode2.block_count implies (
    #[trigger] inode2.pointer(after.disk, i)) != Some(inode2.indirect_block) by {
        assert(inode.pointer(fs.disk, i) != Some(inode.indirect_block));
    }
    assert forall|q: int| 0 <= q < inode.block_count * PAGE_SIZE implies #[trigger] file_byte(
        after.disk,
        inode2,
        q,
    ) == file_byte(fs.disk, inode, q) by {
        let i = q / (PAGE_SIZE as int);
        assert(0 <= i < inode.block_count);
        assert(inode2.pointer(after.disk, i) == inode.pointer(fs.disk, i));
        let c = inode.pointer(fs.disk, i)->0 as int;
        assert(inode.pointer(fs.disk, i) is Some);
        assert(owned(fs, c));
        assert(!apart(fs, inode, c));
    }
}

/// The last step of the removal of a directory: its inode is marked as free.
proof fn lemma_inode_withdrawn(
    fs: FsView,
    gone: FsView,
    parent: u32,
    name: Seq<char>,
    inode: InodeView,
)
    requires
        sound(fs),
        name_withdrawn(fs, gone, parent, name, inode.inode_no),
        gone.sb == fs.sb.with_free(gone.sb.free_blocks as int),
        inode.well_formed(),
        inode.inode_no != parent,
        in_table(fs.sb, inode.inode_no),
        in_table(fs.sb, parent),
    ensures
        name_withdrawn(fs, with_inode(gone, unlinked(inode)), parent, name, inode.inode_no),
{
    let after = with_inode(gone, unlinked(inode));
    let dir = fs.inode(parent);
    let dir2 = gone.inode(parent);
    lemma_table(gone, dir2, inode.inode_no);
    lemma_table(gone, dir2, parent);
    lemma_inode_stored(gone, unlinked(inode));
    lemma_inode_stored_keeps_dir(gone, unlinked(inode), dir2);
    assert(after.inode(parent) == dir2);
    assert forall|other: Seq<char>| other != name implies #[trigger] entry_named(
        after.disk,
        dir2,
        other,
    ) == entry_named(fs.disk, dir, other) by {
        assert(entry_named(gone.disk, dir2, other) == entry_named(fs.disk, dir, other));
    }
    let k = choose|k: int|
        0 <= k <= entries(gone.disk, dir2).len() && entries(fs.disk, dir) == #[trigger] entries(
            gone.disk,
            dir2,
        ).insert(k, entry_named(fs.disk, dir, name)->0);
    assert(entries(fs.disk, dir) == entries(after.disk, dir2).insert(
        k,
        entry_named(fs.disk, dir, name)->0,
    ));
    assert(entry_named(after.disk, dir2, name) == entry_named(gone.disk, dir2, name));
    assert forall|m: u32|
        m != inode.inode_no && m != parent && in_table(fs.sb, m) implies #[trigger] after.inode(m)
        == fs.inode(m) by {
        assert(gone.inode(m) == fs.inode(m));
        lemma_table(gone, dir2, m);
    }
}

/// After a directory has been removed from its parent, it is not found there any more; its inode
/// and exactly its blocks are free, the count of free blocks has grown by as many, and every other
/// name is found where it was.
///
/// This holds as long as the two directories share no blocks.
pub proof fn law_removed_directory_gone(fs: FsView, parent: u32, name: Seq<char>, now: i64)
    requires
        sound(fs),
        dir_removable(fs, parent, name),
        in_table(fs.sb, parent),
        dir_sound(fs, fs.inode(parent)),
        dir_removed(fs, parent, name, now).result is Ok,
        ({
            let n = entry_named(fs.disk, fs.inode(parent), name)->0.entry.inode;
            &&& n != parent
            &&& in_table(fs.sb, n)
            &&& dir_sound(fs, fs.inode(n))
            &&& disjoint(fs, fs.inode(n), fs.inode(parent))
        }),
    ensures
        ({
            let n = entry_named(fs.disk, fs.inode(parent), name)->0.entry.inode;
            withdrawn(fs, dir_removed(fs, parent, name, now).fs, parent, name, fs.inode(n))
        }),
{
    let dir = fs.inode(parent);
    let n = entry_named(fs.disk, dir, name)->0.entry.inode;
    let inode = fs.inode(n);
    let freed = blocks_freed(fs, inode, inode.block_count as int);
    let gone = outcome_fs(entry_removed(freed.disk, freed.sb, dir, name, now));
    let after = with_inode(gone, unlinked(inode));
    lemma_all_freed(fs, inode);
    assert(freed == all_freed(fs, inode));
    lemma_released_keeps_dir(fs, inode, freed, dir);
    assert forall|m: u32| in_table(fs.sb, m) implies #[trigger] freed.inode(m) == fs.inode(m) by {
        lemma_table(fs, inode, m);
        lemma_released_keeps_inode(fs, inode, freed, m);
    }
    lemma_name_withdrawn(fs, freed, parent, name, n, now);
    lemma_removed_entry(freed, dir, name, now);
    lemma_inode_withdrawn(fs, gone, parent, name, inode);
    lemma_table(gone, inode, n);
    lemma_inode_stored(gone, unlinked(inode));
    assert(after == dir_removed(fs, parent, name, now).fs);
    assert forall|c: int| 0 <= c < fs.sb.bitmap_blocks * BITS_PER_BLOCK implies #[trigger] is_set(
        after.disk,
        c,
    ) == (is_set(fs.disk, c) && apart(fs, inode, c)) by {
        assert(is_set(gone.disk, c) == is_set(freed.disk, c));
    }
}

/// A request to make or remove something that is refused changes nothing: a name that is taken, a
/// directory that may not be written, a lack of inodes or of a block for a new directory, a name
/// that is not found, something of the wrong type, a directory that is not empty.
pub proof fn law_refused_request_changes_nothing(
    fs: FsView,
    parent: u32,
    name: Seq<char>,
    made: i64,
    added: i64,
)
    ensures
        entry_named(fs.disk, fs.inode(parent), name) is Some || !fs.inode(parent).permits(true)
            || free_inode(fs) is None ==> file_created(
            fs,
            parent,
            name,
            made,
            added,
        ).result is Err && file_created(fs, parent, name, made, added).fs == fs,
        dir_created(fs, parent, name, made, added).result is Err ==> dir_created(
            fs,
            parent,
            name,
            made,
            added,
        ).fs == fs,
        file_unlinked(fs, parent, name, added).result is Err ==> file_unlinked(
            fs,
            parent,
            name,
            added,
        ).fs == fs,
        dir_removed(fs, parent, name, added).result is Err ==> dir_removed(
            fs,
            parent,
            name,
            added,
        ).fs == fs,
{
}

} // verus!
