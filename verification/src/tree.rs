//! The tree of directories: making and removing files and directories.

use crate::bitmap::{
    allocated, allocation_ready, bit_written, bitmap_block, lemma_allocated, marked_free,
    one_more_free, Bitmap,
};
use crate::bytes::{same_bytes, splice};
use crate::directory::{
    blocks_on_disk, entries, entry_added, entry_named, entry_removed, extendable,
    lemma_named_entry_place, searchable, slot_of, try_dir_add_entry_at, try_dir_find,
    try_dir_lookup, try_dir_remove_entry_at, DirEntry,
};
use crate::disk::{group_disk, lemma_block_len, lemma_has_after_write, Disk, BLOCK_SIZE, PAGE_SIZE};
use crate::fs::{
    attr_of, dir_block, dir_with_block, new_dir_block, FileAttr, FsError, FsView, SimpleFS,
};
use crate::inode::{
    current_timestamp, in_table, inode_block, inode_count, inode_offset, inode_on_disk,
    inode_written, lemma_inode_round_trip, new_file_inode, try_read_inode, write_inode, Inode,
    InodeView, S_IFDIR,
};
use crate::search::{first_from, lemma_first_from, lemma_first_is};
use crate::superblock::SuperBlock;
use vstd::prelude::*;
use vstd::utf8::encode_utf8_decode_utf8;

verus! {

broadcast use crate::inode::lemma_inode_at;

/// First inode number that a new file or directory can get: 0 stands for no inode, 1 for the root
/// directory.
pub const FIRST_INODE: u32 = 2;

/// Inode `n` is in use.
pub open spec fn inode_used(fs: FsView, n: int) -> bool {
    fs.inode(n as u32).nlink != 0
}

/// The lowest number of the inode table that is free.
pub open spec fn free_inode(fs: FsView) -> Option<int> {
    first_from(FIRST_INODE as int, inode_count(fs.sb), |n: int| !inode_used(fs, n))
}

/// All inodes below `n` that a file or directory can get are in use.
pub open spec fn inodes_used(fs: FsView, n: int) -> bool {
    forall|m: int| FIRST_INODE <= m < n ==> #[trigger] inode_used(fs, m)
}

/// The inode table is on the disk, up to the first free inode.
pub open spec fn inodes_scannable(fs: FsView) -> bool {
    forall|n: int|
        FIRST_INODE <= n < inode_count(fs.sb) && inodes_used(fs, n) ==> #[trigger] fs.has_inode(
            n as u32,
        )
}

/// A file system and the answer to a request.
pub struct Answer<T> {
    pub fs: FsView,
    pub result: Result<T, FsError>,
}

/// The error that stands for a refusal to add an entry.
pub open spec fn add_error(message: Seq<char>) -> FsError {
    if message == "entry already exists"@ {
        FsError::Exists
    } else {
        FsError::NoSpace
    }
}

/// File `name` is made in directory `parent`: its inode at time `made`, its entry at time `added`.
/// The directory has to be writable. Where the entry cannot be added, the new inode stays.
pub open spec fn file_created(
    fs: FsView,
    parent: u32,
    name: Seq<char>,
    made: i64,
    added: i64,
) -> Answer<FileAttr> {
    let dir = fs.inode(parent);
    if entry_named(fs.disk, dir, name) is Some {
        Answer { fs, result: Err(FsError::Exists) }
    } else if !dir.permits(true) {
        Answer { fs, result: Err(FsError::AccessDenied) }
    } else {
        match free_inode(fs) {
            Some(n) => {
                let inode = new_file_inode(n as u32, made);
                let o = entry_added(
                    inode_written(fs.disk, fs.sb, inode),
                    fs.sb,
                    dir,
                    name,
                    n as u32,
                    false,
                    added,
                );
                Answer {
                    fs: FsView { disk: o.disk, sb: o.sb },
                    result: match o.result {
                        Ok(_) => Ok(attr_of(inode)),
                        Err(message) => Err(add_error(message)),
                    },
                }
            },
            None => Answer { fs, result: Err(FsError::NoSpace) },
        }
    }
}

/// A file can be made in directory `parent`, with an inode made at time `made`.
pub open spec fn creatable(fs: FsView, parent: u32, name: Seq<char>, made: i64) -> bool {
    let dir = fs.inode(parent);
    &&& fs.has_inode(parent)
    &&& searchable(fs.disk, dir, name)
    &&& entry_named(fs.disk, dir, name) is None && dir.permits(true) ==> {
        &&& inodes_scannable(fs)
        &&& match free_inode(fs) {
            Some(n) => extendable(
                inode_written(fs.disk, fs.sb, new_file_inode(n as u32, made)),
                fs.sb,
                dir,
                name,
            ),
            None => true,
        }
    }
}

/// The disk and the superblock after directory `own` has been made in `parent`, but not entered
/// there.
pub open spec fn dir_prepared(fs: FsView, own: u32, parent: u32, made: i64) -> FsView {
    let (d1, sb1, b) = allocated(fs.disk, fs.sb)->0;
    FsView {
        disk: inode_written(
            d1.write(b as int, dir_block(own, parent)),
            sb1,
            dir_with_block(own, b, made),
        ),
        sb: sb1,
    }
}

/// Directory `name` is made in directory `parent`: its inode at time `made`, its entry at time
/// `added`.
pub open spec fn dir_created(
    fs: FsView,
    parent: u32,
    name: Seq<char>,
    made: i64,
    added: i64,
) -> Answer<FileAttr> {
    let dir = fs.inode(parent);
    if entry_named(fs.disk, dir, name) is Some {
        Answer { fs, result: Err(FsError::Exists) }
    } else {
        match free_inode(fs) {
            Some(n) => match allocated(fs.disk, fs.sb) {
                Some((d1, sb1, b)) => {
                    let prepared = dir_prepared(fs, n as u32, parent, made);
                    let o = entry_added(
                        prepared.disk,
                        prepared.sb,
                        dir,
                        name,
                        n as u32,
                        true,
                        added,
                    );
                    Answer {
                        fs: FsView { disk: o.disk, sb: o.sb },
                        result: Ok(attr_of(dir_with_block(n as u32, b, made))),
                    }
                },
                None => Answer { fs, result: Err(FsError::NoSpace) },
            },
            None => Answer { fs, result: Err(FsError::NoSpace) },
        }
    }
}

/// A directory can be made in directory `parent`, with an inode made at time `made`: the parent
/// has a place for it, or can get one.
pub open spec fn dir_creatable(fs: FsView, parent: u32, name: Seq<char>, made: i64) -> bool {
    let dir = fs.inode(parent);
    &&& fs.has_inode(parent)
    &&& searchable(fs.disk, dir, name)
    &&& entry_named(fs.disk, dir, name) is None ==> {
        &&& inodes_scannable(fs)
        &&& match free_inode(fs) {
            Some(n) => {
                &&& allocation_ready(fs.disk, fs.sb)
                &&& allocated(fs.disk, fs.sb) is Some ==> {
                    let prepared = dir_prepared(fs, n as u32, parent, made);
                    &&& extendable(prepared.disk, prepared.sb, dir, name)
                    &&& entry_added(
                        prepared.disk,
                        prepared.sb,
                        dir,
                        name,
                        n as u32,
                        true,
                        made,
                    ).result is Ok
                }
            },
            None => true,
        }
    }
}

/// The disk and the superblock after the first `n` data blocks of `inode` have been freed.
pub open spec fn blocks_freed(fs: FsView, inode: InodeView, n: int) -> FsView
    decreases n,
{
    if n <= 0 {
        fs
    } else {
        let before = blocks_freed(fs, inode, n - 1);
        match inode.pointer(before.disk, n - 1) {
            Some(b) => FsView {
                disk: marked_free(before.disk, before.sb, b as int),
                sb: one_more_free(before.sb),
            },
            None => before,
        }
    }
}

/// Block `b` can be marked as free.
pub open spec fn can_free(fs: FsView, b: int) -> bool {
    fs.disk.has(bitmap_block(b)) && fs.sb.free_blocks < u32::MAX
}

/// After the first `n` data blocks of `inode` have been freed, the next one can be looked up and
/// freed.
pub open spec fn next_freeable(fs: FsView, inode: InodeView, n: int) -> bool {
    let before = blocks_freed(fs, inode, n);
    &&& inode.pointer_readable(before.disk, n)
    &&& inode.pointer(before.disk, n) is Some ==> can_free(
        before,
        inode.pointer(before.disk, n)->0 as int,
    )
}

/// Each of the data blocks of `inode` can be looked up and freed in its turn.
pub open spec fn freeable(fs: FsView, inode: InodeView) -> bool {
    forall|n: int| 0 <= n < inode.block_count ==> #[trigger] next_freeable(fs, inode, n)
}

/// The file system after all blocks of `inode`, the indirect one too, have been freed.
pub open spec fn all_freed(fs: FsView, inode: InodeView) -> FsView {
    let data = blocks_freed(fs, inode, inode.block_count as int);
    if inode.indirect_block != 0 {
        FsView {
            disk: marked_free(data.disk, data.sb, inode.indirect_block as int),
            sb: one_more_free(data.sb),
        }
    } else {
        data
    }
}

/// `inode`, no longer in use.
pub open spec fn unlinked(inode: InodeView) -> InodeView {
    InodeView { nlink: 0, ..inode }
}

/// `inode` with one link less.
pub open spec fn one_link_less(inode: InodeView) -> InodeView {
    InodeView { nlink: (inode.nlink - 1) as u16, ..inode }
}

/// The file system after the blocks and the inode `inode` of a file have been freed.
pub open spec fn file_freed(fs: FsView, inode: InodeView) -> FsView {
    let freed = all_freed(fs, inode);
    FsView { disk: inode_written(freed.disk, freed.sb, unlinked(inode)), sb: freed.sb }
}

/// The file system after one of the names of a file with inode `inode` has been taken away: one
/// link is counted less or, with the last one, the blocks and the inode are freed.
pub open spec fn link_dropped(fs: FsView, inode: InodeView) -> FsView {
    if inode.nlink > 1 {
        FsView { disk: inode_written(fs.disk, fs.sb, one_link_less(inode)), sb: fs.sb }
    } else {
        file_freed(fs, inode)
    }
}

/// File `name` is removed from directory `parent` at time `now`: its link is dropped, then its
/// entry goes.
pub open spec fn file_unlinked(fs: FsView, parent: u32, name: Seq<char>, now: i64) -> Answer<()> {
    let dir = fs.inode(parent);
    match entry_named(fs.disk, dir, name) {
        Some(x) => {
            let inode = fs.inode(x.entry.inode);
            if inode.is_dir() {
                Answer { fs, result: Err(FsError::IsADirectory) }
            } else {
                let dropped = link_dropped(fs, inode);
                let o = entry_removed(dropped.disk, dropped.sb, dir, name, now);
                Answer { fs: FsView { disk: o.disk, sb: o.sb }, result: Ok(()) }
            }
        },
        None => Answer { fs, result: Err(FsError::NotFound) },
    }
}

/// The entry of file `name` can be followed, its blocks can be freed if it has no other name, and
/// the entry is still there then.
pub open spec fn unlinkable(fs: FsView, parent: u32, name: Seq<char>) -> bool {
    let dir = fs.inode(parent);
    &&& fs.has_inode(parent)
    &&& searchable(fs.disk, dir, name)
    &&& match entry_named(fs.disk, dir, name) {
        Some(x) => {
            let inode = fs.inode(x.entry.inode);
            let data = blocks_freed(fs, inode, inode.block_count as int);
            let dropped = link_dropped(fs, inode);
            &&& fs.has_inode(x.entry.inode)
            &&& !inode.is_dir() ==> {
                &&& inode.nlink <= 1 ==> freeable(fs, inode) && (inode.indirect_block != 0
                    ==> can_free(data, inode.indirect_block as int))
                &&& searchable(dropped.disk, dir, name)
                &&& entry_named(dropped.disk, dir, name) is Some
            }
        },
        None => true,
    }
}

/// Directory `name` is removed from directory `parent` at time `now`: its blocks are freed, its
/// entry goes, then its inode is freed. It must hold no entries but `.` and `..`.
pub open spec fn dir_removed(fs: FsView, parent: u32, name: Seq<char>, now: i64) -> Answer<()> {
    let dir = fs.inode(parent);
    match entry_named(fs.disk, dir, name) {
        Some(x) => {
            let inode = fs.inode(x.entry.inode);
            if !inode.is_dir() {
                Answer { fs, result: Err(FsError::NotADirectory) }
            } else if entries(fs.disk, inode).len() > 2 {
                Answer { fs, result: Err(FsError::NotEmpty) }
            } else {
                let freed = blocks_freed(fs, inode, inode.block_count as int);
                let o = entry_removed(freed.disk, freed.sb, dir, name, now);
                Answer {
                    fs: FsView {
                        disk: inode_written(o.disk, o.sb, unlinked(inode)),
                        sb: o.sb,
                    },
                    result: Ok(()),
                }
            }
        },
        None => Answer { fs, result: Err(FsError::NotFound) },
    }
}

/// The entry of directory `name` can be followed, its blocks can be freed, and the entry is still
/// there then.
pub open spec fn dir_removable(fs: FsView, parent: u32, name: Seq<char>) -> bool {
    let dir = fs.inode(parent);
    &&& fs.has_inode(parent)
    &&& searchable(fs.disk, dir, name)
    &&& match entry_named(fs.disk, dir, name) {
        Some(x) => {
            let inode = fs.inode(x.entry.inode);
            let freed = blocks_freed(fs, inode, inode.block_count as int);
            &&& fs.has_inode(x.entry.inode)
            &&& inode.is_dir() ==> {
                &&& blocks_on_disk(fs.disk, inode)
                &&& entries(fs.disk, inode).len() <= 2 ==> {
                    &&& freeable(fs, inode)
                    &&& searchable(freed.disk, dir, name)
                    &&& entry_named(freed.disk, dir, name) is Some
                }
            }
        },
        None => true,
    }
}

/// Freeing the blocks of an inode leaves the disk as large as it was, and all of the superblock
/// but the count of free blocks.
pub proof fn lemma_blocks_freed(fs: FsView, inode: InodeView, n: int)
    requires
        freeable(fs, inode),
        0 <= n <= inode.block_count,
    ensures
        forall|c: int| fs.disk.has(c) ==> #[trigger] blocks_freed(fs, inode, n).disk.has(c),
        blocks_freed(fs, inode, n).sb == fs.sb.with_free(
            blocks_freed(fs, inode, n).sb.free_blocks as int,
        ),
    decreases n,
{
    broadcast use group_disk;

    if n > 0 {
        lemma_blocks_freed(fs, inode, n - 1);
        let before = blocks_freed(fs, inode, n - 1);
        let after = blocks_freed(fs, inode, n);
        if inode.pointer(before.disk, n - 1) is Some {
            let b = inode.pointer(before.disk, n - 1)->0 as int;
            assert(next_freeable(fs, inode, n - 1));
            assert forall|c: int| fs.disk.has(c) implies #[trigger] after.disk.has(c) by {
                assert(before.disk.has(c));
                assert(bit_written(before.disk, b, false).has(c));
            }
        }
    }
}

/// The lowest number of the inode table that is free. Nothing is answered where an inode before it
/// is not on the disk.
fn find_free_inode(disk: &Disk, sb: &SuperBlock) -> (r: Option<Option<u32>>)
    ensures
        r is Some <==> inodes_scannable((FsView { disk: disk@, sb: sb@ })),
        r matches Some(found) ==> match found {
            Some(n) => {
                &&& free_inode((FsView { disk: disk@, sb: sb@ })) == Some(n as int)
                &&& inode_on_disk(disk@, sb@, n)
                &&& in_table(sb@, n)
                &&& n >= FIRST_INODE
            },
            None => free_inode((FsView { disk: disk@, sb: sb@ })) is None,
        },
{
    let ghost fs = FsView { disk: disk@, sb: sb@ };
    let ghost free = |n: int| !inode_used(fs, n);
    let in_blocks: u64 = sb.inode_table_blocks as u64 * 6;
    let count: u64 = if in_blocks <= 0x1_0000_0000 { in_blocks } else { 0x1_0000_0000 };
    assert(count == inode_count(sb@));
    let mut candidate: u64 = FIRST_INODE as u64;
    while candidate < count
        invariant
            fs == (FsView { disk: disk@, sb: sb@ }),
            free == (|n: int| !inode_used(fs, n)),
            count == inode_count(sb@),
            count <= 0x1_0000_0000,
            FIRST_INODE <= candidate,
            candidate <= count || candidate == FIRST_INODE,
            forall|n: int| FIRST_INODE <= n < candidate ==> #[trigger] fs.has_inode(n as u32),
            inodes_used(fs, candidate as int),
        decreases count - candidate,
    {
        let number: u32 = candidate as u32;
        let test_inode = match try_read_inode(disk, sb, number) {
            Some(test_inode) => test_inode,
            None => {
                assert(!fs.has_inode(candidate as int as u32));
                return None;
            },
        };
        if test_inode.nlink == 0 {
            proof {
                assert forall|m: int| FIRST_INODE <= m < candidate implies !#[trigger] free(m) by {
                    assert(inode_used(fs, m));
                }
                assert(free(candidate as int));
                lemma_first_is(FIRST_INODE as int, count as int, free, candidate as int);
                assert forall|n: int|
                    FIRST_INODE <= n < count && inodes_used(
                        fs,
                        n,
                    ) implies #[trigger] fs.has_inode(n as u32) by {
                    if n > candidate {
                        assert(inode_used(fs, candidate as int));
                    }
                }
            }
            return Some(Some(number));
        }
        assert(inode_used(fs, candidate as int));
        candidate = candidate + 1;
    }
    proof {
        lemma_first_from(FIRST_INODE as int, count as int, free);
        if first_from(FIRST_INODE as int, count as int, free) is Some {
            let n = first_from(FIRST_INODE as int, count as int, free)->0;
            assert(free(n));
            assert(inode_used(fs, n));
        }
    }
    Some(None)
}

/// Whether an entry can be added does not depend on the time.
pub proof fn lemma_result_without_time(
    fs: FsView,
    dir: InodeView,
    name: Seq<char>,
    child: u32,
    is_dir: bool,
    now: i64,
    later: i64,
)
    ensures
        entry_added(fs.disk, fs.sb, dir, name, child, is_dir, now).result == entry_added(
            fs.disk,
            fs.sb,
            dir,
            name,
            child,
            is_dir,
            later,
        ).result,
{
    reveal(entry_added);
}

impl SimpleFS {
    /// Makes file `name` in directory `parent`: its inode at time `made`, its entry at time
    /// `added`. Nothing is answered where the disk does not let that be done.
    pub fn try_create_at(
        &mut self,
        uid: u32,
        gid: u32,
        parent: u64,
        name: &str,
        made: i64,
        added: i64,
    ) -> (r: Option<Result<FileAttr, FsError>>)
        ensures
            r is Some <==> creatable(old(self)@, parent as u32, name@, made),
            r matches Some(result) ==> (Answer { fs: final(self)@, result }) == file_created(
                old(self)@,
                parent as u32,
                name@,
                made,
                added,
            ),
            r matches Some(Ok(attr)) ==> in_table(old(self)@.sb, attr.ino as u32),
            final(self).disk_path == old(self).disk_path,
    {
        let mut parent_inode = match try_read_inode(&self.disk, &self.sb, parent as u32) {
            Some(parent_inode) => parent_inode,
            None => {
                return None;
            },
        };
        match try_dir_find(&self.disk, &parent_inode, name) {
            Some(Some(_)) => {
                return Some(Err(FsError::Exists));
            },
            Some(None) => {},
            None => {
                return None;
            },
        }
        if !parent_inode.check_permission(true, uid, gid) {
            return Some(Err(FsError::AccessDenied));
        }
        match find_free_inode(&self.disk, &self.sb) {
            Some(Some(new_inode_no)) => {
                let new_inode = Inode::new_file_at(new_inode_no, made);
                write_inode(&mut self.disk, &self.sb, &new_inode);
                match try_dir_add_entry_at(
                    &mut self.disk,
                    &mut self.sb,
                    &mut parent_inode,
                    name,
                    new_inode_no,
                    false,
                    added,
                ) {
                    Some(Ok(_)) => Some(Ok(self.inode_to_attr(&new_inode))),
                    Some(Err(e)) => {
                        proof {
                            encode_utf8_decode_utf8(e@);
                            encode_utf8_decode_utf8("entry already exists"@);
                        }
                        if same_bytes(e.as_bytes(), "entry already exists".as_bytes()) {
                            Some(Err(FsError::Exists))
                        } else {
                            Some(Err(FsError::NoSpace))
                        }
                    },
                    None => None,
                }
            },
            Some(None) => Some(Err(FsError::NoSpace)),
            None => None,
        }
    }

    /// Makes file `name` in directory `parent`: its inode at time `made`, its entry at time
    /// `added`.
    pub fn create_at(
        &mut self,
        uid: u32,
        gid: u32,
        parent: u64,
        name: &str,
        made: i64,
        added: i64,
    ) -> (r: Result<FileAttr, FsError>)
        requires
            creatable(old(self)@, parent as u32, name@, made),
        ensures
            (Answer { fs: final(self)@, result: r }) == file_created(
                old(self)@,
                parent as u32,
                name@,
                made,
                added,
            ),
            r matches Ok(attr) ==> in_table(old(self)@.sb, attr.ino as u32),
            final(self).disk_path == old(self).disk_path,
    {
        self.try_create_at(uid, gid, parent, name, made, added).unwrap()
    }

    /// Makes file `name` in directory `parent`. The directory has to be writable. Nothing is
    /// answered where the disk does not let that be done.
    pub fn try_create(&mut self, uid: u32, gid: u32, parent: u64, name: &str) -> (r: Option<
        Result<FileAttr, FsError>,
    >)
        ensures
            match r {
                Some(result) => exists|made: i64, added: i64|
                    {
                        &&& creatable(old(self)@, parent as u32, name@, made)
                        &&& (Answer { fs: final(self)@, result }) == #[trigger] file_created(
                            old(self)@,
                            parent as u32,
                            name@,
                            made,
                            added,
                        )
                    },
                None => exists|made: i64| !#[trigger] creatable(
                    old(self)@,
                    parent as u32,
                    name@,
                    made,
                ),
            },
            r matches Some(Ok(attr)) ==> in_table(old(self)@.sb, attr.ino as u32),
            final(self).disk_path == old(self).disk_path,
    {
        let made: i64 = current_timestamp();
        let added: i64 = current_timestamp();
        self.try_create_at(uid, gid, parent, name, made, added)
    }

    /// Makes file `name` in directory `parent`. The directory has to be writable.
    pub fn create(&mut self, uid: u32, gid: u32, parent: u64, name: &str) -> (r: Result<
        FileAttr,
        FsError,
    >)
        requires
            forall|made: i64| #[trigger] creatable(old(self)@, parent as u32, name@, made),
        ensures
            exists|made: i64, added: i64|
                (Answer { fs: final(self)@, result: r }) == #[trigger] file_created(
                    old(self)@,
                    parent as u32,
                    name@,
                    made,
                    added,
                ),
            r matches Ok(attr) ==> in_table(old(self)@.sb, attr.ino as u32),
            final(self).disk_path == old(self).disk_path,
    {
        let made: i64 = current_timestamp();
        let added: i64 = current_timestamp();
        self.create_at(uid, gid, parent, name, made, added)
    }

    /// Makes directory `name` in directory `parent`: its inode at time `made`, its entry at time
    /// `added`. Nothing is answered where the disk does not let that be done, or where the parent
    /// has no place for the entry.
    pub fn try_mkdir_at(&mut self, parent: u64, name: &str, made: i64, added: i64) -> (r: Option<
        Result<FileAttr, FsError>,
    >)
        ensures
            r is Some <==> dir_creatable(old(self)@, parent as u32, name@, made),
            r matches Some(result) ==> (Answer { fs: final(self)@, result }) == dir_created(
                old(self)@,
                parent as u32,
                name@,
                made,
                added,
            ),
            r matches Some(Ok(attr)) ==> in_table(old(self)@.sb, attr.ino as u32),
            final(self).disk_path == old(self).disk_path,
    {
        broadcast use group_disk;

        let mut parent_inode = match try_read_inode(&self.disk, &self.sb, parent as u32) {
            Some(parent_inode) => parent_inode,
            None => {
                return None;
            },
        };
        match try_dir_find(&self.disk, &parent_inode, name) {
            Some(Some(_)) => {
                return Some(Err(FsError::Exists));
            },
            Some(None) => {},
            None => {
                return None;
            },
        }
        match find_free_inode(&self.disk, &self.sb) {
            Some(Some(new_inode_no)) => {
                proof {
                    if allocation_ready(self@.disk, self@.sb) && allocated(
                        self@.disk,
                        self@.sb,
                    ) is Some {
                        lemma_allocated(self@.disk, self@.sb);
                    }
                }
                match Bitmap::try_allocate_block(&mut self.disk, &mut self.sb) {
                    Some(Some(data_block)) => {
                        let ghost d1 = self.disk@;
                        let block_buf = new_dir_block(new_inode_no, parent as u32);
                        assert(block_buf@.subrange(0, BLOCK_SIZE as int) =~= block_buf@);
                        self.disk.write_block(data_block, &block_buf);
                        assert(d1.has(inode_block(self.sb@, new_inode_no)));
                        let mut new_inode = Inode::new_dir_at(new_inode_no, made);
                        new_inode.direct_blocks[0] = data_block;
                        new_inode.block_count = 1;
                        new_inode.size = PAGE_SIZE as u32;
                        assert(new_inode@ =~= dir_with_block(new_inode_no, data_block, made));
                        write_inode(&mut self.disk, &self.sb, &new_inode);
                        proof {
                            lemma_result_without_time(
                                self@,
                                parent_inode@,
                                name@,
                                new_inode_no,
                                true,
                                made,
                                added,
                            );
                        }
                        match try_dir_add_entry_at(
                            &mut self.disk,
                            &mut self.sb,
                            &mut parent_inode,
                            name,
                            new_inode_no,
                            true,
                            added,
                        ) {
                            Some(Ok(_)) => Some(Ok(self.inode_to_attr(&new_inode))),
                            _ => None,
                        }
                    },
                    Some(None) => Some(Err(FsError::NoSpace)),
                    None => None,
                }
            },
            Some(None) => Some(Err(FsError::NoSpace)),
            None => None,
        }
    }

    /// Makes directory `name` in directory `parent`: its inode at time `made`, its entry at time
    /// `added`.
    pub fn mkdir_at(&mut self, parent: u64, name: &str, made: i64, added: i64) -> (r: Result<
        FileAttr,
        FsError,
    >)
        requires
            dir_creatable(old(self)@, parent as u32, name@, made),
        ensures
            (Answer { fs: final(self)@, result: r }) == dir_created(
                old(self)@,
                parent as u32,
                name@,
                made,
                added,
            ),
            r matches Ok(attr) ==> in_table(old(self)@.sb, attr.ino as u32),
            final(self).disk_path == old(self).disk_path,
    {
        self.try_mkdir_at(parent, name, made, added).unwrap()
    }

    /// Makes directory `name` in directory `parent`. Nothing is answered where the disk does not
    /// let that be done, or where the parent has no place for the entry.
    pub fn try_mkdir(&mut self, parent: u64, name: &str) -> (r: Option<Result<FileAttr, FsError>>)
        ensures
            match r {
                Some(result) => exists|made: i64, added: i64|
                    {
                        &&& dir_creatable(old(self)@, parent as u32, name@, made)
                        &&& (Answer { fs: final(self)@, result }) == #[trigger] dir_created(
                            old(self)@,
                            parent as u32,
                            name@,
                            made,
                            added,
                        )
                    },
                None => exists|made: i64| !#[trigger] dir_creatable(
                    old(self)@,
                    parent as u32,
                    name@,
                    made,
                ),
            },
            r matches Some(Ok(attr)) ==> in_table(old(self)@.sb, attr.ino as u32),
            final(self).disk_path == old(self).disk_path,
    {
        let made: i64 = current_timestamp();
        let added: i64 = current_timestamp();
        self.try_mkdir_at(parent, name, made, added)
    }

    /// Makes directory `name` in directory `parent`.
    pub fn mkdir(&mut self, parent: u64, name: &str) -> (r: Result<FileAttr, FsError>)
        requires
            forall|made: i64| #[trigger] dir_creatable(old(self)@, parent as u32, name@, made),
        ensures
            exists|made: i64, added: i64|
                (Answer { fs: final(self)@, result: r }) == #[trigger] dir_created(
                    old(self)@,
                    parent as u32,
                    name@,
                    made,
                    added,
                ),
            r matches Ok(attr) ==> in_table(old(self)@.sb, attr.ino as u32),
            final(self).disk_path == old(self).disk_path,
    {
        let made: i64 = current_timestamp();
        let added: i64 = current_timestamp();
        self.mkdir_at(parent, name, made, added)
    }

    /// Frees the data blocks of `inode`; false if one of them cannot be freed.
    fn free_blocks(&mut self, inode: &Inode) -> (r: bool)
        ensures
            r == freeable(old(self)@, inode@),
            r ==> final(self)@ == blocks_freed(old(self)@, inode@, inode.block_count as int),
            final(self).disk_path == old(self).disk_path,
    {
        let mut i: u16 = 0;
        while i < inode.block_count
            invariant
                i <= inode.block_count,
                forall|n: int| 0 <= n < i ==> #[trigger] next_freeable(old(self)@, inode@, n),
                self@ == blocks_freed(old(self)@, inode@, i as int),
                self.disk_path == old(self).disk_path,
            decreases inode.block_count - i,
        {
            match inode.try_get_block(&self.disk, i as u32) {
                Some(Some(block_num)) => {
                    if !Bitmap::try_mark_free(&mut self.disk, &mut self.sb, block_num) {
                        assert(!next_freeable(old(self)@, inode@, i as int));
                        return false;
                    }
                },
                Some(None) => {},
                None => {
                    assert(!next_freeable(old(self)@, inode@, i as int));
                    return false;
                },
            }
            i = i + 1;
        }
        true
    }

    /// Frees the blocks of file `inode`, the indirect one too, and then the inode itself; false if
    /// a block cannot be freed.
    fn free_file(&mut self, inode: &Inode) -> (r: bool)
        requires
            old(self)@.has_inode(inode.inode_no),
        ensures
            r == (freeable(old(self)@, inode@) && (inode.indirect_block != 0 ==> can_free(
                blocks_freed(old(self)@, inode@, inode.block_count as int),
                inode.indirect_block as int,
            ))),
            r ==> {
                &&& final(self)@ == file_freed(old(self)@, inode@)
                &&& forall|c: int| old(self)@.disk.has(c) ==> #[trigger] final(self)@.disk.has(c)
                &&& final(self)@.sb.inode_table_start == old(self)@.sb.inode_table_start
            },
            final(self).disk_path == old(self).disk_path,
    {
        broadcast use group_disk;

        if !self.free_blocks(inode) {
            return false;
        }
        proof {
            lemma_blocks_freed(old(self)@, inode@, inode.block_count as int);
        }
        let ghost data = self@;
        if inode.indirect_block != 0 {
            if !Bitmap::try_mark_free(&mut self.disk, &mut self.sb, inode.indirect_block) {
                return false;
            }
        }
        let ghost freed = self@;
        assert forall|c: int| old(self)@.disk.has(c) implies #[trigger] freed.disk.has(c) by {
            assert(data.disk.has(c));
            if inode.indirect_block != 0 {
                assert(bit_written(data.disk, inode.indirect_block as int, false).has(c));
            }
        }
        assert(freed.disk.has(inode_block(freed.sb, inode.inode_no)));
        let mut freed_inode = *inode;
        freed_inode.nlink = 0;
        assert(freed_inode@ =~= unlinked(inode@));
        proof {
            lemma_inode_round_trip(freed_inode@);
        }
        write_inode(&mut self.disk, &self.sb, &freed_inode);
        assert forall|c: int| old(self)@.disk.has(c) implies #[trigger] self@.disk.has(c) by {
            assert(freed.disk.has(c));
        }
        true
    }

    /// Drops one link of file `inode`; with the last one its blocks and the inode are freed. False
    /// if a block cannot be freed.
    fn drop_link(&mut self, inode: &Inode) -> (r: bool)
        requires
            old(self)@.has_inode(inode.inode_no),
        ensures
            r == (inode.nlink <= 1 ==> freeable(old(self)@, inode@) && (inode.indirect_block != 0
                ==> can_free(
                blocks_freed(old(self)@, inode@, inode.block_count as int),
                inode.indirect_block as int,
            ))),
            r ==> {
                &&& final(self)@ == link_dropped(old(self)@, inode@)
                &&& forall|c: int| old(self)@.disk.has(c) ==> #[trigger] final(self)@.disk.has(c)
                &&& final(self)@.sb.inode_table_start == old(self)@.sb.inode_table_start
            },
            final(self).disk_path == old(self).disk_path,
    {
        if inode.nlink > 1 {
            let mut kept_inode = *inode;
            kept_inode.nlink = inode.nlink - 1;
            assert(kept_inode@ =~= one_link_less(inode@));
            proof {
                lemma_inode_round_trip(kept_inode@);
            }
            write_inode(&mut self.disk, &self.sb, &kept_inode);
            assert forall|c: int| old(self)@.disk.has(c) implies #[trigger] self@.disk.has(c) by {
                broadcast use group_disk;

            }
            true
        } else {
            self.free_file(inode)
        }
    }

    /// Removes directory `name`, which must hold no entries but `.` and `..`, from directory
    /// `parent` at time `now`. Nothing is answered where the disk does not let that be done.
    pub fn try_rmdir_at(&mut self, parent: u64, name: &str, now: i64) -> (r: Option<
        Result<(), FsError>,
    >)
        ensures
            r is Some <==> dir_removable(old(self)@, parent as u32, name@),
            r matches Some(result) ==> (Answer { fs: final(self)@, result }) == dir_removed(
                old(self)@,
                parent as u32,
                name@,
                now,
            ),
            final(self).disk_path == old(self).disk_path,
    {
        broadcast use group_disk;

        let mut parent_inode = match try_read_inode(&self.disk, &self.sb, parent as u32) {
            Some(parent_inode) => parent_inode,
            None => {
                return None;
            },
        };
        let entry = match try_dir_find(&self.disk, &parent_inode, name) {
            Some(Some((entry, _, _))) => entry,
            Some(None) => {
                return Some(Err(FsError::NotFound));
            },
            None => {
                return None;
            },
        };
        let child_inode = match try_read_inode(&self.disk, &self.sb, entry.inode) {
            Some(child_inode) => child_inode,
            None => {
                return None;
            },
        };
        if child_inode.mode & S_IFDIR == 0 {
            return Some(Err(FsError::NotADirectory));
        }
        match try_dir_lookup(&self.disk, &child_inode) {
            Some(child_entries) => {
                assert(child_entries@.len() == entries(self@.disk, child_inode@).len()) by {
                    assert(child_entries@.map_values(
                        |t: (DirEntry, u32, usize)| slot_of(t),
                    ) == entries(self@.disk, child_inode@));
                }
                if child_entries.len() > 2 {
                    return Some(Err(FsError::NotEmpty));
                }
            },
            None => {
                return None;
            },
        }
        if !self.free_blocks(&child_inode) {
            return None;
        }
        proof {
            lemma_blocks_freed(old(self)@, child_inode@, child_inode.block_count as int);
        }
        let ghost freed = self@;
        assert(freed.disk.has(inode_block(freed.sb, parent as u32)));
        proof {
            lemma_removal_result(self@, parent_inode@, name@, now);
        }
        match try_dir_remove_entry_at(
            &mut self.disk,
            &mut self.sb,
            &mut parent_inode,
            name,
            now,
        ) {
            Some(Ok(_)) => {},
            _ => {
                return None;
            },
        }
        proof {
            lemma_removal_keeps_blocks(freed, old(self)@.inode(parent as u32), name@, now);
        }
        let mut freed_inode = child_inode;
        freed_inode.nlink = 0;
        assert(freed_inode@ =~= unlinked(child_inode@));
        assert(freed.disk.has(inode_block(freed.sb, entry.inode)));
        write_inode(&mut self.disk, &self.sb, &freed_inode);
        Some(Ok(()))
    }

    /// Removes directory `name`, which must hold no entries but `.` and `..`, from directory
    /// `parent` at time `now`.
    pub fn rmdir_at(&mut self, parent: u64, name: &str, now: i64) -> (r: Result<(), FsError>)
        requires
            dir_removable(old(self)@, parent as u32, name@),
        ensures
            (Answer { fs: final(self)@, result: r }) == dir_removed(
                old(self)@,
                parent as u32,
                name@,
                now,
            ),
            final(self).disk_path == old(self).disk_path,
    {
        self.try_rmdir_at(parent, name, now).unwrap()
    }

    /// Removes directory `name`, which must hold no entries but `.` and `..`, from directory
    /// `parent`. Nothing is answered where the disk does not let that be done.
    pub fn try_rmdir(&mut self, parent: u64, name: &str) -> (r: Option<Result<(), FsError>>)
        ensures
            r is Some <==> dir_removable(old(self)@, parent as u32, name@),
            r matches Some(result) ==> exists|now: i64|
                (Answer { fs: final(self)@, result }) == #[trigger] dir_removed(
                    old(self)@,
                    parent as u32,
                    name@,
                    now,
                ),
            final(self).disk_path == old(self).disk_path,
    {
        let now: i64 = current_timestamp();
        self.try_rmdir_at(parent, name, now)
    }

    /// Removes directory `name`, which must hold no entries but `.` and `..`, from directory
    /// `parent`.
    pub fn rmdir(&mut self, parent: u64, name: &str) -> (r: Result<(), FsError>)
        requires
            dir_removable(old(self)@, parent as u32, name@),
        ensures
            exists|now: i64|
                (Answer { fs: final(self)@, result: r }) == #[trigger] dir_removed(
                    old(self)@,
                    parent as u32,
                    name@,
                    now,
                ),
            final(self).disk_path == old(self).disk_path,
    {
        self.try_rmdir(parent, name).unwrap()
    }

    /// Removes file `name` from directory `parent` at time `now`; with its last name its blocks are
    /// freed. Nothing is answered where the disk does not let that be done.
    pub fn try_unlink_at(&mut self, parent: u64, name: &str, now: i64) -> (r: Option<
        Result<(), FsError>,
    >)
        ensures
            r is Some <==> unlinkable(old(self)@, parent as u32, name@),
            r matches Some(result) ==> (Answer { fs: final(self)@, result }) == file_unlinked(
                old(self)@,
                parent as u32,
                name@,
                now,
            ),
            final(self).disk_path == old(self).disk_path,
    {
        let mut parent_inode = match try_read_inode(&self.disk, &self.sb, parent as u32) {
            Some(parent_inode) => parent_inode,
            None => {
                return None;
            },
        };
        let entry = match try_dir_find(&self.disk, &parent_inode, name) {
            Some(Some((entry, _, _))) => entry,
            Some(None) => {
                return Some(Err(FsError::NotFound));
            },
            None => {
                return None;
            },
        };
        let inode = match try_read_inode(&self.disk, &self.sb, entry.inode) {
            Some(inode) => inode,
            None => {
                return None;
            },
        };
        if inode.mode & S_IFDIR != 0 {
            return Some(Err(FsError::IsADirectory));
        }
        if !self.drop_link(&inode) {
            return None;
        }
        assert(self@.disk.has(inode_block(self@.sb, parent as u32)));
        proof {
            lemma_removal_result(self@, parent_inode@, name@, now);
        }
        match try_dir_remove_entry_at(
            &mut self.disk,
            &mut self.sb,
            &mut parent_inode,
            name,
            now,
        ) {
            Some(Ok(_)) => Some(Ok(())),
            _ => None,
        }
    }

    /// Removes file `name` from directory `parent` at time `now`; with its last name its blocks are
    /// freed.
    pub fn unlink_at(&mut self, parent: u64, name: &str, now: i64) -> (r: Result<(), FsError>)
        requires
            unlinkable(old(self)@, parent as u32, name@),
        ensures
            (Answer { fs: final(self)@, result: r }) == file_unlinked(
                old(self)@,
                parent as u32,
                name@,
                now,
            ),
            final(self).disk_path == old(self).disk_path,
    {
        self.try_unlink_at(parent, name, now).unwrap()
    }

    /// Removes file `name` from directory `parent`; with its last name its blocks are freed.
    /// Nothing is answered where the disk does not let that be done.
    pub fn try_unlink(&mut self, parent: u64, name: &str) -> (r: Option<Result<(), FsError>>)
        ensures
            r is Some <==> unlinkable(old(self)@, parent as u32, name@),
            r matches Some(result) ==> exists|now: i64|
                (Answer { fs: final(self)@, result }) == #[trigger] file_unlinked(
                    old(self)@,
                    parent as u32,
                    name@,
                    now,
                ),
            final(self).disk_path == old(self).disk_path,
    {
        let now: i64 = current_timestamp();
        self.try_unlink_at(parent, name, now)
    }

    /// Removes file `name` from directory `parent`; with its last name its blocks are freed.
    pub fn unlink(&mut self, parent: u64, name: &str) -> (r: Result<(), FsError>)
        requires
            unlinkable(old(self)@, parent as u32, name@),
        ensures
            exists|now: i64|
                (Answer { fs: final(self)@, result: r }) == #[trigger] file_unlinked(
                    old(self)@,
                    parent as u32,
                    name@,
                    now,
                ),
            final(self).disk_path == old(self).disk_path,
    {
        self.try_unlink(parent, name).unwrap()
    }
}

/// An entry is removed if it is found.
proof fn lemma_removal_result(fs: FsView, dir: InodeView, name: Seq<char>, now: i64)
    ensures
        entry_removed(fs.disk, fs.sb, dir, name, now).result is Ok <==> entry_named(
            fs.disk,
            dir,
            name,
        ) is Some,
{
    reveal(entry_removed);
}

/// Removing an entry loses no block of the disk.
proof fn lemma_removal_keeps_blocks(fs: FsView, dir: InodeView, name: Seq<char>, now: i64)
    requires
        searchable(fs.disk, dir, name),
        fs.has_inode(dir.inode_no),
        dir.well_formed(),
    ensures
        forall|c: int|
            fs.disk.has(c) ==> #[trigger] entry_removed(fs.disk, fs.sb, dir, name, now).disk.has(c),
        entry_removed(fs.disk, fs.sb, dir, name, now).sb == fs.sb,
{
    let o = entry_removed(fs.disk, fs.sb, dir, name, now);
    if entry_named(fs.disk, dir, name) is Some {
        lemma_named_entry_place(fs.disk, dir, name);
        let x = entry_named(fs.disk, dir, name)->0;
        let touched = InodeView { mtime: now, ..dir };
        let cleared = fs.disk.block(x.block as int).update(x.offset + 5, 0u8);
        let d1 = fs.disk.write(x.block as int, cleared);
        let b = inode_block(fs.sb, dir.inode_no);
        let bytes = splice(d1.block(b), inode_offset(dir.inode_no), touched.encoded());
        assert(o.disk == d1.write(b, bytes) && o.sb == fs.sb) by {
            reveal(entry_removed);
        }
        lemma_block_len(fs.disk, x.block as int);
        lemma_has_after_write(fs.disk, x.block as int, cleared, b);
        lemma_block_len(d1, b);
        assert forall|c: int| fs.disk.has(c) implies #[trigger] o.disk.has(c) by {
            lemma_has_after_write(fs.disk, x.block as int, cleared, c);
            lemma_has_after_write(d1, b, bytes, c);
        }
    } else {
        reveal(entry_removed);
    }
}

} // verus!
