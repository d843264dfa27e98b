//! The file system: mounting, formatting, and the operations that read or set metadata.

use crate::bitmap::{
    bitmap_block, bitmap_byte, bitmap_started, first_free, fresh_bitmap_block, is_set,
    lemma_bit_of_low_bits, marked_allocated, one_less_free, Bitmap,
};
use crate::bytes::{copy_into, splice, zeros};
use crate::directory::{
    blocks_on_disk, entries, entry_named, lemma_entries_upto, new_entry, searchable, slot_count,
    slot_of, try_dir_find, try_dir_lookup, DirEntry, Slot, DIR_ENTRY_SIZE, MAX_NAME_LEN,
};
use crate::disk::{group_disk, Disk, DiskView, BLOCK_SIZE, DISK_SIZE, PAGE_SIZE};
use crate::inode::{
    current_timestamp, inode_at, inode_on_disk, inode_written, new_dir_inode, try_read_inode,
    write_inode, Inode, InodeView, S_IFDIR,
};
use crate::search::lemma_first_is;
use crate::superblock::{
    fresh_superblock, init_superblock, lemma_superblock_round_trip, superblock_at, superblock_block,
    superblock_readable, superblock_written, try_read_superblock, write_superblock, SuperBlock,
    SuperBlockView, BITS_PER_BLOCK,
};
use vstd::prelude::*;

verus! {

broadcast use crate::inode::lemma_inode_at;

/// Inode number of the root directory.
pub const ROOT_INODE: u32 = 1;

/// First data block, which the root directory gets.
pub const ROOT_BLOCK: u32 = 31;

/// Flag of `open` that asks to write.
pub const O_WRONLY: i32 = 1;

/// Flag of `open` that asks to read and write.
pub const O_RDWR: i32 = 2;

/// Why a request is refused.
#[derive(Debug, Clone, Copy, PartialEq, Eq, Structural)]
pub enum FsError {
    /// The permission bits do not allow it.
    AccessDenied,
    /// The name is taken.
    Exists,
    /// There is no such entry or inode.
    NotFound,
    /// There is no free block, inode or place in the directory.
    NoSpace,
    /// Something other than a directory was named where a directory is needed.
    NotADirectory,
    /// A directory was named where a file is needed.
    IsADirectory,
    /// The directory still has entries.
    NotEmpty,
    /// The file would get too long.
    FileTooBig,
}

/// What an inode or an entry stands for.
#[derive(Debug, Clone, Copy, PartialEq, Eq, Structural)]
pub enum FileKind {
    Directory,
    RegularFile,
}

/// Attributes of a file or directory; times are in seconds since 1970.
#[derive(Debug, Clone, Copy, PartialEq, Eq, Structural)]
pub struct FileAttr {
    pub ino: u64,
    pub size: u64,
    pub blocks: u64,
    pub atime: u64,
    pub mtime: u64,
    pub ctime: u64,
    pub crtime: u64,
    pub kind: FileKind,
    pub perm: u16,
    pub nlink: u32,
    pub uid: u32,
    pub gid: u32,
    pub rdev: u32,
    pub flags: u32,
    pub blksize: u32,
}

/// An entry as a listing shows it; `offset` is where a listing that goes on after it begins.
pub struct ListedEntry {
    pub ino: u64,
    pub offset: i64,
    pub kind: FileKind,
    pub name: String,
}

/// The fields of a listed entry.
#[verifier::ext_equal]
pub struct ListedView {
    pub ino: u64,
    pub offset: int,
    pub kind: FileKind,
    pub name: Seq<char>,
}

impl View for ListedEntry {
    type V = ListedView;

    open spec fn view(&self) -> ListedView {
        ListedView {
            ino: self.ino,
            offset: self.offset as int,
            kind: self.kind,
            name: self.name@,
        }
    }
}

/// The file system: its disk, and the superblock as it stands in memory.
pub struct SimpleFS {
    pub disk: Disk,
    pub sb: SuperBlock,
    pub disk_path: String,
}

/// A disk and a superblock.
#[verifier::ext_equal]
pub struct FsView {
    pub disk: DiskView,
    pub sb: SuperBlockView,
}

impl View for SimpleFS {
    type V = FsView;

    open spec fn view(&self) -> FsView {
        FsView { disk: self.disk@, sb: self.sb@ }
    }
}

impl FsView {
    /// Inode `ino`.
    pub open spec fn inode(self, ino: u32) -> InodeView {
        inode_at(self.disk, self.sb, ino)
    }

    /// Inode `ino` is on the disk.
    pub open spec fn has_inode(self, ino: u32) -> bool {
        inode_on_disk(self.disk, self.sb, ino)
    }
}

/// Seconds since 1970 of a time stamp; a time before 1970 counts as 1970.
pub open spec fn seconds(ts: i64) -> u64 {
    if ts >= 0 {
        ts as u64
    } else {
        0
    }
}

/// The attributes that inode `inode` has.
pub open spec fn attr_of(inode: InodeView) -> FileAttr {
    FileAttr {
        ino: inode.inode_no as u64,
        size: inode.size as u64,
        blocks: inode.block_count as u64,
        atime: seconds(inode.atime),
        mtime: seconds(inode.mtime),
        ctime: seconds(inode.ctime),
        crtime: seconds(inode.ctime),
        kind: if inode.is_dir() { FileKind::Directory } else { FileKind::RegularFile },
        perm: inode.mode,
        nlink: inode.nlink as u32,
        uid: inode.uid as u32,
        gid: inode.gid as u32,
        rdev: 0,
        flags: 0,
        blksize: 512,
    }
}

/// How a listing shows the entry `x` that is the `i`th of its directory.
pub open spec fn listed(x: Slot, i: int) -> ListedView {
    ListedView {
        ino: x.entry.inode as u64,
        offset: i + 1,
        kind: if x.entry.entry_type == 2 { FileKind::Directory } else { FileKind::RegularFile },
        name: x.entry.text(),
    }
}

/// The listing of the entries `all` from the `offset`th on.
pub open spec fn listing(all: Seq<Slot>, offset: int) -> Seq<ListedView> {
    let start = if offset < 0 { 0 } else if offset > all.len() { all.len() as int } else { offset };
    Seq::new((all.len() - start) as nat, |k: int| listed(all[start + k], start + k))
}

/// The answer to a request for the attributes of inode `ino`; an inode without links does not
/// exist.
pub open spec fn attributes(fs: FsView, ino: u32) -> Result<FileAttr, FsError> {
    if fs.inode(ino).nlink == 0 {
        Err(FsError::NotFound)
    } else {
        Ok(attr_of(fs.inode(ino)))
    }
}

/// The answer to a request for the entries of directory `ino` from the `offset`th on.
pub open spec fn dir_listing(fs: FsView, ino: u32, offset: int) -> Result<
    Seq<ListedView>,
    FsError,
> {
    if fs.inode(ino).is_dir() {
        Ok(listing(entries(fs.disk, fs.inode(ino)), offset))
    } else {
        Err(FsError::NotADirectory)
    }
}

/// The entries of directory `dir` from the `offset`th on can be listed: its blocks are on the disk,
/// and no name that is listed is longer than an entry can hold.
pub open spec fn listable(d: DiskView, dir: InodeView, offset: int) -> bool {
    &&& blocks_on_disk(d, dir)
    &&& forall|k: int|
        offset <= k && 0 <= k < entries(d, dir).len() ==> (#[trigger] entries(
            d,
            dir,
        )[k]).entry.name_len <= MAX_NAME_LEN
}

/// A request for the entries of directory `ino` can be answered.
pub open spec fn dir_readable(fs: FsView, ino: u32, offset: int) -> bool {
    fs.has_inode(ino) && (fs.inode(ino).is_dir() ==> listable(fs.disk, fs.inode(ino), offset))
}

/// The answer to a request for what `name` stands for in directory `parent`.
pub open spec fn looked_up(fs: FsView, parent: u32, name: Seq<char>) -> Result<FileAttr, FsError> {
    match entry_named(fs.disk, fs.inode(parent), name) {
        Some(x) => Ok(attr_of(fs.inode(x.entry.inode))),
        None => Err(FsError::NotFound),
    }
}

/// A request for what `name` stands for in directory `parent` can be answered: the directory can be
/// searched, and the inode that the name stands for is on the disk.
pub open spec fn lookup_ready(fs: FsView, parent: u32, name: Seq<char>) -> bool {
    &&& fs.has_inode(parent)
    &&& searchable(fs.disk, fs.inode(parent), name)
    &&& entry_named(fs.disk, fs.inode(parent), name) matches Some(x) ==> fs.has_inode(x.entry.inode)
}

/// Flags `flags` of a request to open a file ask to write.
pub open spec fn wants_write(flags: i32) -> bool {
    flags & O_WRONLY != 0 || flags & O_RDWR != 0
}

/// The answer to a request to open inode `ino`: its number as a handle. Opening for writing needs
/// a permission to write, opening for reading one to read.
pub open spec fn opened(fs: FsView, ino: u64, flags: i32) -> Result<u64, FsError> {
    if fs.inode(ino as u32).permits(wants_write(flags)) {
        Ok(ino)
    } else {
        Err(FsError::AccessDenied)
    }
}

/// The first block of a directory with inode `own` that stands in directory `parent`.
pub open spec fn dir_block(own: u32, parent: u32) -> Seq<u8> {
    splice(
        splice(zeros(BLOCK_SIZE as nat), 0, new_entry(own, "."@, true).encoded()),
        DIR_ENTRY_SIZE as int,
        new_entry(parent, ".."@, true).encoded(),
    )
}

/// The inode of a new directory whose only block is `b`.
pub open spec fn dir_with_block(inode_no: u32, b: u32, now: i64) -> InodeView {
    let empty = new_dir_inode(inode_no, now);
    InodeView {
        direct_blocks: empty.direct_blocks.update(0, b),
        block_count: 1,
        size: PAGE_SIZE as u32,
        ..empty
    }
}

/// The superblock of a disk that has just been formatted.
pub open spec fn formatted_superblock() -> SuperBlockView {
    SuperBlockView { root_inode: ROOT_INODE, ..one_less_free(fresh_superblock()) }
}

/// A file system laid out on disk `d` at time `now`: superblock, bitmap, and a root directory
/// whose only entries are `.` and `..`.
pub open spec fn formatted(d: DiskView, now: i64) -> FsView {
    let d1 = superblock_written(d, fresh_superblock());
    let d2 = bitmap_started(d1, 31, 5);
    let d3 = marked_allocated(d2, fresh_superblock(), ROOT_BLOCK as int);
    let d4 = d3.write(ROOT_BLOCK as int, dir_block(ROOT_INODE, ROOT_INODE));
    let d5 = inode_written(
        d4,
        one_less_free(fresh_superblock()),
        dir_with_block(ROOT_INODE, ROOT_BLOCK, now),
    );
    FsView { disk: superblock_written(d5, formatted_superblock()), sb: formatted_superblock() }
}

/// The file system on disk `d`, which is laid out first if it is empty.
pub open spec fn mounted(d: DiskView, now: i64) -> FsView {
    if d.image.len() == 0 {
        formatted(d.truncate(DISK_SIZE as int), now)
    } else {
        FsView { disk: d, sb: superblock_at(d) }
    }
}

/// Disk `d` can be mounted: it is empty, or has a superblock of this file system.
pub open spec fn mountable(d: DiskView) -> bool {
    d.image.len() > 0 ==> superblock_readable(d)
}

/// The mode of an inode after its permissions have been set to those of `mode`.
pub open spec fn mode_with(old_mode: u16, mode: Option<u32>) -> u16 {
    match mode {
        Some(m) => (old_mode & 0xF000) | ((m & 0o777) as u16),
        None => old_mode,
    }
}

/// Inode `ino` after its permissions have been set at time `now`.
pub open spec fn inode_with_mode(inode: InodeView, mode: Option<u32>, now: i64) -> InodeView {
    InodeView { mode: mode_with(inode.mode, mode), mtime: now, ..inode }
}

/// The file system after the permissions of inode `ino` have been set at time `now`.
pub open spec fn attr_set(fs: FsView, ino: u32, mode: Option<u32>, now: i64) -> FsView {
    FsView {
        disk: inode_written(fs.disk, fs.sb, inode_with_mode(fs.inode(ino), mode, now)),
        sb: fs.sb,
    }
}

/// The first blocks of a new bitmap mark exactly the blocks below `data_start`.
pub proof fn lemma_bitmap_started(d: DiskView, data_start: int, count: int, m: int)
    requires
        0 <= count,
    ensures
        forall|c: int| d.has(c) || 1 <= c <= count ==> #[trigger] bitmap_started(
            d,
            data_start,
            count,
        ).has(c),
        d.has(0) ==> bitmap_started(d, data_start, count).block(0) == d.block(0),
        0 <= m < count * BITS_PER_BLOCK ==> is_set(bitmap_started(d, data_start, count), m) == (m
            < data_start),
    decreases count,
{
    broadcast use group_disk;

    reveal(is_set);
    if count > 0 {
        lemma_bitmap_started(d, data_start, count - 1, m);
        if 0 <= m < count * BITS_PER_BLOCK {
            let before = bitmap_started(d, data_start, count - 1);
            let after = bitmap_started(d, data_start, count);
            if bitmap_block(m) == count {
                let k = bitmap_byte(m);
                let c = data_start - 8 * ((count - 1) * BLOCK_SIZE + k);
                assert(after.block(count) == fresh_bitmap_block(data_start, count - 1));
                lemma_bit_of_low_bits(c, m % 8);
                assert(m == 8 * ((count - 1) * BLOCK_SIZE + k) + m % 8);
            } else {
                assert(before.has(bitmap_block(m)));
            }
        }
    }
}

/// The first block of a directory with inode `own` that stands in directory `parent`.
pub(crate) fn new_dir_block(own: u32, parent: u32) -> (r: Vec<u8>)
    ensures
        r@ == dir_block(own, parent),
        r@.len() == BLOCK_SIZE,
{
    let mut block_buf: Vec<u8> = vec![0u8; BLOCK_SIZE];
    assert(block_buf@ =~= zeros(BLOCK_SIZE as nat));
    let dot = DirEntry::new(own, ".", true);
    copy_into(&mut block_buf, 0, &dot.to_bytes());
    let dotdot = DirEntry::new(parent, "..", true);
    copy_into(&mut block_buf, DIR_ENTRY_SIZE, &dotdot.to_bytes());
    block_buf
}

/// Lays a new file system out on `disk` at time `now`.
pub fn format_new_fs_at(disk: &mut Disk, now: i64) -> (r: SuperBlock)
    ensures
        final(disk)@ == formatted(old(disk)@, now).disk,
        r@ == formatted_superblock(),
{
    broadcast use group_disk;

    let mut sb = init_superblock(disk);
    let ghost d1 = disk@;
    Bitmap::init_bitmap(disk, &sb);
    let ghost d2 = disk@;
    proof {
        assert(d1.has(0));
        lemma_bitmap_started(d1, 31, 5, 0);
        assert(superblock_at(d2) == fresh_superblock()) by {
            reveal(superblock_at);
            assert(d2.block(0) == superblock_block(fresh_superblock()));
            assert(superblock_block(fresh_superblock()).subrange(0, 44)
                =~= fresh_superblock().encoded());
            lemma_superblock_round_trip(fresh_superblock(), d2.block(0));
        }
        assert(first_free(d2) == Some(31int)) by {
            assert forall|m: int| 0 <= m < 20480 implies is_set(d2, m) == (m < 31) by {
                lemma_bitmap_started(d1, 31, 5, m);
            }
            lemma_first_is(0, 20480, |n: int| !is_set(d2, n), 31);
        }
    }
    let root_block: u32 = Bitmap::allocate_block(disk, &mut sb).unwrap();
    disk.write_block(root_block, &new_dir_block(ROOT_INODE, ROOT_INODE));
    assert(dir_block(ROOT_INODE, ROOT_INODE).subrange(0, BLOCK_SIZE as int) =~= dir_block(
        ROOT_INODE,
        ROOT_INODE,
    ));
    assert(disk@.has(ROOT_BLOCK as int));
    let mut root_inode = Inode::new_dir_at(ROOT_INODE, now);
    root_inode.direct_blocks[0] = root_block;
    root_inode.block_count = 1;
    root_inode.size = PAGE_SIZE as u32;
    assert(root_inode@ =~= dir_with_block(ROOT_INODE, ROOT_BLOCK, now));
    write_inode(disk, &sb, &root_inode);
    sb.root_inode = ROOT_INODE;
    write_superblock(disk, &sb);
    sb
}

/// Lays a new file system out on `disk` now.
pub fn format_new_fs(disk: &mut Disk) -> (r: SuperBlock)
    ensures
        exists|now: i64| final(disk)@ == (#[trigger] formatted(old(disk)@, now)).disk,
        r@ == formatted_superblock(),
{
    let now: i64 = current_timestamp();
    format_new_fs_at(disk, now)
}

impl SimpleFS {
    /// The file system on `disk`, which is laid out at time `now` if it is empty; none if the disk
    /// holds something else.
    pub fn try_mount_at(disk: Disk, disk_path: &str, now: i64) -> (r: Option<SimpleFS>)
        ensures
            match r {
                Some(fs) => {
                    &&& mountable(disk@)
                    &&& fs@ == mounted(disk@, now)
                    &&& fs.disk_path@ == disk_path@
                },
                None => !mountable(disk@),
            },
    {
        let mut disk = disk;
        let sb = if disk.size() == 0 {
            disk.truncate(DISK_SIZE);
            format_new_fs_at(&mut disk, now)
        } else {
            match try_read_superblock(&disk) {
                Some(sb) => sb,
                None => {
                    return None;
                },
            }
        };
        Some(SimpleFS { disk, sb, disk_path: disk_path.to_string() })
    }

    /// The file system on `disk`, which is laid out at time `now` if it is empty.
    pub fn mount_at(disk: Disk, disk_path: &str, now: i64) -> (r: SimpleFS)
        requires
            mountable(disk@),
        ensures
            r@ == mounted(disk@, now),
            r.disk_path@ == disk_path@,
    {
        SimpleFS::try_mount_at(disk, disk_path, now).unwrap()
    }

    /// The file system on `disk`, which is laid out first if it is empty; none if the disk holds
    /// something else.
    pub fn try_mount(disk: Disk, disk_path: &str) -> (r: Option<SimpleFS>)
        ensures
            match r {
                Some(fs) => {
                    &&& mountable(disk@)
                    &&& exists|now: i64| fs@ == #[trigger] mounted(disk@, now)
                    &&& fs.disk_path@ == disk_path@
                },
                None => !mountable(disk@),
            },
    {
        let now: i64 = current_timestamp();
        SimpleFS::try_mount_at(disk, disk_path, now)
    }

    /// The file system on `disk`, which is laid out first if it is empty.
    pub fn mount(disk: Disk, disk_path: &str) -> (r: SimpleFS)
        requires
            mountable(disk@),
        ensures
            exists|now: i64| r@ == #[trigger] mounted(disk@, now),
            r.disk_path@ == disk_path@,
    {
        SimpleFS::try_mount(disk, disk_path).unwrap()
    }

    /// Seconds since 1970 of a time stamp; a time before 1970 counts as 1970.
    pub fn seconds_of(ts: i64) -> (r: u64)
        ensures
            r == seconds(ts),
    {
        if ts >= 0 {
            ts as u64
        } else {
            0
        }
    }

    /// The attributes that `inode` has.
    pub fn inode_to_attr(&self, inode: &Inode) -> (r: FileAttr)
        ensures
            r == attr_of(inode@),
    {
        let kind = if inode.mode & S_IFDIR != 0 {
            FileKind::Directory
        } else {
            FileKind::RegularFile
        };
        FileAttr {
            ino: inode.inode_no as u64,
            size: inode.size as u64,
            blocks: inode.block_count as u64,
            atime: SimpleFS::seconds_of(inode.atime),
            mtime: SimpleFS::seconds_of(inode.mtime),
            ctime: SimpleFS::seconds_of(inode.ctime),
            crtime: SimpleFS::seconds_of(inode.ctime),
            kind,
            perm: inode.mode,
            nlink: inode.nlink as u32,
            uid: inode.uid as u32,
            gid: inode.gid as u32,
            rdev: 0,
            flags: 0,
            blksize: BLOCK_SIZE as u32,
        }
    }

    /// The attributes of inode `ino`; an inode without links does not exist. Nothing is answered
    /// where the inode is not on the disk.
    pub fn try_getattr(&self, ino: u64) -> (r: Option<Result<FileAttr, FsError>>)
        ensures
            r == if self@.has_inode(ino as u32) {
                Some(attributes(self@, ino as u32))
            } else {
                None
            },
    {
        match try_read_inode(&self.disk, &self.sb, ino as u32) {
            Some(inode) => if inode.nlink == 0 {
                Some(Err(FsError::NotFound))
            } else {
                Some(Ok(self.inode_to_attr(&inode)))
            },
            None => None,
        }
    }

    /// The attributes of inode `ino`; an inode without links does not exist.
    pub fn getattr(&self, ino: u64) -> (r: Result<FileAttr, FsError>)
        requires
            self@.has_inode(ino as u32),
        ensures
            r == attributes(self@, ino as u32),
    {
        self.try_getattr(ino).unwrap()
    }

    /// The entries of directory `ino`, `.` and `..` among them, from the `offset`th on. Nothing is
    /// answered where the disk does not let them be read.
    pub fn try_readdir(&self, ino: u64, offset: i64) -> (r: Option<
        Result<Vec<ListedEntry>, FsError>,
    >)
        ensures
            r is Some <==> dir_readable(self@, ino as u32, offset as int),
            r matches Some(result) ==> match result {
                Ok(v) => dir_listing(self@, ino as u32, offset as int) == Ok::<
                    Seq<ListedView>,
                    FsError,
                >(v@.map_values(|e: ListedEntry| e@)),
                Err(e) => dir_listing(self@, ino as u32, offset as int) == Err::<
                    Seq<ListedView>,
                    FsError,
                >(e),
            },
    {
        let dir_inode = match try_read_inode(&self.disk, &self.sb, ino as u32) {
            Some(dir_inode) => dir_inode,
            None => {
                return None;
            },
        };
        if dir_inode.mode & S_IFDIR == 0 {
            return Some(Err(FsError::NotADirectory));
        }
        let found = match try_dir_lookup(&self.disk, &dir_inode) {
            Some(found) => found,
            None => {
                return None;
            },
        };
        let ghost all = entries(self@.disk, dir_inode@);
        let ghost slots = |t: (DirEntry, u32, usize)| slot_of(t);
        let ghost view = |e: ListedEntry| e@;
        proof {
            lemma_entries_upto(self@.disk, dir_inode@, slot_count(dir_inode@));
            assert(found@.map_values(slots) == all);
        }
        let mut out: Vec<ListedEntry> = Vec::new();
        let n: usize = found.len();
        let mut i: usize = 0;
        assert(out@.map_values(view) =~= listing(all.subrange(0, 0), offset as int));
        while i < n
            invariant
                i <= n,
                n == found@.len(),
                n == all.len(),
                n <= 65535 * 15,
                self@.has_inode(ino as u32),
                dir_inode@ == self@.inode(ino as u32),
                dir_inode@.is_dir(),
                all == entries(self@.disk, dir_inode@),
                slots == (|t: (DirEntry, u32, usize)| slot_of(t)),
                view == (|e: ListedEntry| e@),
                found@.map_values(slots) == all,
                forall|k: int|
                    offset <= k && 0 <= k < i ==> (#[trigger] all[k]).entry.name_len
                        <= MAX_NAME_LEN,
                out@.map_values(view) == listing(all.subrange(0, i as int), offset as int),
            decreases n - i,
        {
            let entry = found[i].0;
            assert(found@.map_values(slots)[i as int] == all[i as int]);
            assert(entry@ == all[i as int].entry);
            assert(all.subrange(0, i + 1) =~= all.subrange(0, i as int).push(all[i as int]));
            if i as i64 >= offset {
                if entry.name_len as usize > MAX_NAME_LEN {
                    assert(!listable(self@.disk, dir_inode@, offset as int)) by {
                        assert(entries(self@.disk, dir_inode@)[i as int].entry.name_len
                            > MAX_NAME_LEN);
                    }
                    return None;
                }
                let kind = if entry.entry_type == 2 {
                    FileKind::Directory
                } else {
                    FileKind::RegularFile
                };
                let ghost before = out@;
                let e = ListedEntry {
                    ino: entry.inode as u64,
                    offset: i as i64 + 1,
                    kind,
                    name: entry.name_str().to_string(),
                };
                out.push(e);
                assert(e@ =~= listed(all[i as int], i as int));
                assert(out@.map_values(view) =~= before.map_values(view).push(e@));
                assert(out@.map_values(view) =~= listing(all.subrange(0, i + 1), offset as int));
            } else {
                assert(out@.map_values(view) =~= listing(all.subrange(0, i + 1), offset as int));
            }
            i = i + 1;
        }
        assert(all.subrange(0, n as int) =~= all);
        Some(Ok(out))
    }

    /// The entries of directory `ino`, `.` and `..` among them, from the `offset`th on.
    pub fn readdir(&self, ino: u64, offset: i64) -> (r: Result<Vec<ListedEntry>, FsError>)
        requires
            dir_readable(self@, ino as u32, offset as int),
        ensures
            match r {
                Ok(v) => dir_listing(self@, ino as u32, offset as int) == Ok::<
                    Seq<ListedView>,
                    FsError,
                >(v@.map_values(|e: ListedEntry| e@)),
                Err(e) => dir_listing(self@, ino as u32, offset as int) == Err::<
                    Seq<ListedView>,
                    FsError,
                >(e),
            },
    {
        self.try_readdir(ino, offset).unwrap()
    }

    /// The attributes of the inode that `name` stands for in directory `parent`. Nothing is
    /// answered where the disk does not let the name be looked for.
    pub fn try_lookup(&self, parent: u64, name: &str) -> (r: Option<Result<FileAttr, FsError>>)
        ensures
            r == if lookup_ready(self@, parent as u32, name@) {
                Some(looked_up(self@, parent as u32, name@))
            } else {
                None
            },
    {
        let parent_inode = match try_read_inode(&self.disk, &self.sb, parent as u32) {
            Some(parent_inode) => parent_inode,
            None => {
                return None;
            },
        };
        match try_dir_find(&self.disk, &parent_inode, name) {
            Some(Some((entry, _, _))) => match try_read_inode(&self.disk, &self.sb, entry.inode) {
                Some(child_inode) => Some(Ok(self.inode_to_attr(&child_inode))),
                None => None,
            },
            Some(None) => Some(Err(FsError::NotFound)),
            None => None,
        }
    }

    /// The attributes of the inode that `name` stands for in directory `parent`.
    pub fn lookup(&self, parent: u64, name: &str) -> (r: Result<FileAttr, FsError>)
        requires
            lookup_ready(self@, parent as u32, name@),
        ensures
            r == looked_up(self@, parent as u32, name@),
    {
        self.try_lookup(parent, name).unwrap()
    }

    /// Opens inode `ino`. The handle is the inode number. Opening for writing needs a permission
    /// to write, opening for reading one to read. Nothing is answered where the inode is not on the
    /// disk.
    pub fn try_open(&self, uid: u32, gid: u32, ino: u64, flags: i32) -> (r: Option<
        Result<u64, FsError>,
    >)
        ensures
            r == if self@.has_inode(ino as u32) {
                Some(opened(self@, ino, flags))
            } else {
                None
            },
    {
        match try_read_inode(&self.disk, &self.sb, ino as u32) {
            Some(inode) => {
                let want_write: bool = flags & O_WRONLY != 0 || flags & O_RDWR != 0;
                if inode.check_permission(want_write, uid, gid) {
                    Some(Ok(ino))
                } else {
                    Some(Err(FsError::AccessDenied))
                }
            },
            None => None,
        }
    }

    /// Opens inode `ino`. The handle is the inode number. Opening for writing needs a permission
    /// to write, opening for reading one to read.
    pub fn open(&self, uid: u32, gid: u32, ino: u64, flags: i32) -> (r: Result<u64, FsError>)
        requires
            self@.has_inode(ino as u32),
        ensures
            r == opened(self@, ino, flags),
    {
        self.try_open(uid, gid, ino, flags).unwrap()
    }

    /// Sets the permission bits of inode `ino` to those of `mode`, if it is given, and the time
    /// of the last change to `now`. Nothing is done where the inode is not on the disk.
    pub fn try_setattr_at(&mut self, ino: u64, mode: Option<u32>, now: i64) -> (r: Option<FileAttr>)
        ensures
            match r {
                Some(attr) => {
                    &&& old(self)@.has_inode(ino as u32)
                    &&& final(self)@ == attr_set(old(self)@, ino as u32, mode, now)
                    &&& attr == attr_of(inode_with_mode(old(self)@.inode(ino as u32), mode, now))
                },
                None => !old(self)@.has_inode(ino as u32) && final(self)@ == old(self)@,
            },
            final(self).disk_path == old(self).disk_path,
    {
        let mut inode = match try_read_inode(&self.disk, &self.sb, ino as u32) {
            Some(inode) => inode,
            None => {
                return None;
            },
        };
        if let Some(new_mode) = mode {
            let file_type: u16 = inode.mode & 0xF000;
            inode.mode = file_type | ((new_mode & 0o777) as u16);
        }
        inode.mtime = now;
        assert(inode@ =~= inode_with_mode(old(self)@.inode(ino as u32), mode, now));
        write_inode(&mut self.disk, &self.sb, &inode);
        Some(self.inode_to_attr(&inode))
    }

    /// Sets the permission bits of inode `ino` to those of `mode`, if it is given, and the time
    /// of the last change to `now`.
    pub fn setattr_at(&mut self, ino: u64, mode: Option<u32>, now: i64) -> (r: FileAttr)
        requires
            old(self)@.has_inode(ino as u32),
        ensures
            final(self)@ == attr_set(old(self)@, ino as u32, mode, now),
            r == attr_of(inode_with_mode(old(self)@.inode(ino as u32), mode, now)),
            final(self).disk_path == old(self).disk_path,
    {
        self.try_setattr_at(ino, mode, now).unwrap()
    }

    /// Sets the permission bits of inode `ino` to those of `mode`, if it is given. Nothing is done
    /// where the inode is not on the disk.
    pub fn try_setattr(&mut self, ino: u64, mode: Option<u32>) -> (r: Option<FileAttr>)
        ensures
            match r {
                Some(attr) => {
                    &&& old(self)@.has_inode(ino as u32)
                    &&& exists|now: i64|
                        final(self)@ == (#[trigger] attr_set(old(self)@, ino as u32, mode, now))
                            && attr == attr_of(
                            inode_with_mode(old(self)@.inode(ino as u32), mode, now),
                        )
                },
                None => !old(self)@.has_inode(ino as u32) && final(self)@ == old(self)@,
            },
            final(self).disk_path == old(self).disk_path,
    {
        let now: i64 = current_timestamp();
        self.try_setattr_at(ino, mode, now)
    }

    /// Sets the permission bits of inode `ino` to those of `mode`, if it is given.
    pub fn setattr(&mut self, ino: u64, mode: Option<u32>) -> (r: FileAttr)
        requires
            old(self)@.has_inode(ino as u32),
        ensures
            exists|now: i64|
                final(self)@ == (#[trigger] attr_set(old(self)@, ino as u32, mode, now)) && r
                    == attr_of(inode_with_mode(old(self)@.inode(ino as u32), mode, now)),
            final(self).disk_path == old(self).disk_path,
    {
        self.try_setattr(ino, mode).unwrap()
    }
}

} // verus!
