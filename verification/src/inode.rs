//! Inodes: the metadata of a file or directory, and the index of its data blocks.

use crate::bytes::{
    copy_into, get_i64, get_u16, get_u32, i64_at, i64_le, lemma_i64_read, lemma_u16_read,
    lemma_u32_read, put_i64, put_u16, put_u32, splice, stands_at, u16_at, u16_le, u32_at, u32_le,
    zeros,
};
use crate::disk::{group_disk, Disk, DiskView, BLOCK_SIZE};
use crate::superblock::{SuperBlock, SuperBlockView};
use vstd::prelude::*;

verus! {

/// Direct block pointers of an inode.
pub const DIRECT_BLOCKS: usize = 10;

/// Block pointers that an indirect block holds, two bytes each.
pub const INDIRECT_BLOCKS: usize = 255;

/// Bytes that an inode takes on the disk: 82 of fields, then two of padding.
pub const INODE_SIZE: usize = 84;

/// Inodes that one block of the inode table holds.
pub const INODES_PER_BLOCK: usize = 6;

/// File type of a directory, in `Inode::mode`.
pub const S_IFDIR: u16 = 0x4000;

/// File type of a regular file, in `Inode::mode`.
pub const S_IFREG: u16 = 0x8000;

/// Metadata and block index of a file or directory.
#[derive(Debug, Clone, Copy)]
pub struct Inode {
    /// Number of the inode.
    pub inode_no: u32,
    /// File type and permission bits.
    pub mode: u16,
    /// User that owns the file.
    pub uid: u16,
    /// Group that owns the file.
    pub gid: u16,
    /// Size of the file in bytes.
    pub size: u32,
    /// Hard links to the inode; none marks a free inode.
    pub nlink: u16,
    /// Data blocks of the file.
    pub block_count: u16,
    /// Time of the last change.
    pub mtime: i64,
    /// Time of the last access.
    pub atime: i64,
    /// Time of creation.
    pub ctime: i64,
    /// The first data blocks.
    pub direct_blocks: [u32; DIRECT_BLOCKS],
    /// The block that lists the further data blocks.
    pub indirect_block: u32,
}

/// The fields of an inode.
#[verifier::ext_equal]
pub struct InodeView {
    pub inode_no: u32,
    pub mode: u16,
    pub uid: u16,
    pub gid: u16,
    pub size: u32,
    pub nlink: u16,
    pub block_count: u16,
    pub mtime: i64,
    pub atime: i64,
    pub ctime: i64,
    pub direct_blocks: Seq<u32>,
    pub indirect_block: u32,
}

impl View for Inode {
    type V = InodeView;

    open spec fn view(&self) -> InodeView {
        InodeView {
            inode_no: self.inode_no,
            mode: self.mode,
            uid: self.uid,
            gid: self.gid,
            size: self.size,
            nlink: self.nlink,
            block_count: self.block_count,
            mtime: self.mtime,
            atime: self.atime,
            ctime: self.ctime,
            direct_blocks: self.direct_blocks@,
            indirect_block: self.indirect_block,
        }
    }
}

/// The bytes of ten block pointers, one after the other.
pub open spec fn pointers_encoded(pointers: Seq<u32>) -> Seq<u8> {
    Seq::new(40, |k: int| u32_le(pointers[k / 4])[k % 4])
}

impl InodeView {
    /// The inode has as many direct pointers as it should.
    pub open spec fn well_formed(self) -> bool {
        self.direct_blocks.len() == DIRECT_BLOCKS
    }

    /// The bytes of the inode on the disk.
    pub open spec fn encoded(self) -> Seq<u8> {
        u16_le(self.mode) + u16_le(self.uid) + u16_le(self.gid) + u32_le(self.size) + u16_le(
            self.nlink,
        ) + u16_le(self.block_count) + i64_le(self.mtime) + i64_le(self.atime) + i64_le(self.ctime)
            + pointers_encoded(self.direct_blocks) + u32_le(self.indirect_block) + zeros(2)
    }

    /// The inode is that of a directory.
    pub open spec fn is_dir(self) -> bool {
        self.mode & S_IFDIR != 0
    }

    /// Some class of users may read the file or, if `want_write`, write it.
    pub open spec fn permits(self, want_write: bool) -> bool {
        if want_write {
            self.mode & 0o222 != 0
        } else {
            self.mode & 0o444 != 0
        }
    }

    /// Looking up block `index` reads nothing that is not on the disk.
    pub open spec fn pointer_readable(self, d: DiskView, index: int) -> bool {
        index >= DIRECT_BLOCKS && self.indirect_block != 0 ==> d.has(self.indirect_block as int)
    }

    /// The number of data block `index` of the file, if it has one.
    pub open spec fn pointer(self, d: DiskView, index: int) -> Option<u32> {
        let b = if index < DIRECT_BLOCKS {
            self.direct_blocks[index]
        } else if self.indirect_block != 0 && index < DIRECT_BLOCKS + INDIRECT_BLOCKS {
            u16_at(d.block(self.indirect_block as int), 2 * (index - DIRECT_BLOCKS)) as u32
        } else {
            0
        };
        if b == 0 {
            None
        } else {
            Some(b)
        }
    }

    /// The inode after data block `index` has been set to `b`.
    pub open spec fn with_pointer(self, index: int, b: u32) -> InodeView {
        if index < DIRECT_BLOCKS {
            InodeView { direct_blocks: self.direct_blocks.update(index, b), ..self }
        } else {
            self
        }
    }

    /// The disk after data block `index` of the file has been set to `b`.
    pub open spec fn pointer_written(self, d: DiskView, index: int, b: u32) -> DiskView {
        if index < DIRECT_BLOCKS {
            d
        } else {
            d.write(
                self.indirect_block as int,
                splice(
                    d.block(self.indirect_block as int),
                    2 * (index - DIRECT_BLOCKS),
                    u16_le(b as u16),
                ),
            )
        }
    }
}

/// A new inode of the given type, made at time `now`.
pub open spec fn new_inode(inode_no: u32, mode: u16, nlink: u16, now: i64) -> InodeView {
    InodeView {
        inode_no,
        mode,
        uid: 1000,
        gid: 1000,
        size: 0,
        nlink,
        block_count: 0,
        mtime: now,
        atime: now,
        ctime: now,
        direct_blocks: Seq::new(DIRECT_BLOCKS as nat, |i: int| 0u32),
        indirect_block: 0,
    }
}

/// The inode of a new file: `rw-r--r--`, one link, no data.
pub open spec fn new_file_inode(inode_no: u32, now: i64) -> InodeView {
    new_inode(inode_no, 0o100644, 1, now)
}

/// The inode of a new directory: `rwxr-xr-x`, two links, no data.
pub open spec fn new_dir_inode(inode_no: u32, now: i64) -> InodeView {
    new_inode(inode_no, 0o040755, 2, now)
}

/// The inode numbered `inode_no` that `s` begins with.
pub open spec fn decoded_inode(inode_no: u32, s: Seq<u8>) -> InodeView {
    InodeView {
        inode_no,
        mode: u16_at(s, 0),
        uid: u16_at(s, 2),
        gid: u16_at(s, 4),
        size: u32_at(s, 6),
        nlink: u16_at(s, 10),
        block_count: u16_at(s, 12),
        mtime: i64_at(s, 14),
        atime: i64_at(s, 22),
        ctime: i64_at(s, 30),
        direct_blocks: Seq::new(DIRECT_BLOCKS as nat, |i: int| u32_at(s, 38 + 4 * i)),
        indirect_block: u32_at(s, 78),
    }
}

/// The block that holds inode `inode_no`.
pub open spec fn inode_block(sb: SuperBlockView, inode_no: u32) -> int {
    sb.inode_table_start + inode_no as int / (INODES_PER_BLOCK as int)
}

/// The position of inode `inode_no` in its block.
pub open spec fn inode_offset(inode_no: u32) -> int {
    inode_no as int % (INODES_PER_BLOCK as int) * INODE_SIZE
}

/// The block of inode `inode_no` has a number and is on the disk.
pub open spec fn inode_on_disk(d: DiskView, sb: SuperBlockView, inode_no: u32) -> bool {
    inode_block(sb, inode_no) <= u32::MAX && d.has(inode_block(sb, inode_no))
}

/// Inode `inode_no` has its place in the inode table.
pub open spec fn in_table(sb: SuperBlockView, inode_no: u32) -> bool {
    sb.inode_table_start <= inode_block(sb, inode_no) < sb.inode_table_start
        + sb.inode_table_blocks
}

/// Number of inodes in the inode table, as far as there are numbers for them.
pub open spec fn inode_count(sb: SuperBlockView) -> int {
    if sb.inode_table_blocks * INODES_PER_BLOCK <= 0x1_0000_0000 {
        sb.inode_table_blocks * INODES_PER_BLOCK
    } else {
        0x1_0000_0000
    }
}

/// Inode `inode_no` of the disk.
#[verifier::opaque]
pub open spec fn inode_at(d: DiskView, sb: SuperBlockView, inode_no: u32) -> InodeView {
    decoded_inode(
        inode_no,
        d.block(inode_block(sb, inode_no)).subrange(
            inode_offset(inode_no),
            inode_offset(inode_no) + INODE_SIZE,
        ),
    )
}

/// An inode read from the disk carries its number, and has all its direct pointers.
pub broadcast proof fn lemma_inode_at(d: DiskView, sb: SuperBlockView, inode_no: u32)
    ensures
        (#[trigger] inode_at(d, sb, inode_no)).inode_no == inode_no,
        inode_at(d, sb, inode_no).well_formed(),
{
    reveal(inode_at);
}

/// The disk after inode `inode` has been written to its place.
pub open spec fn inode_written(d: DiskView, sb: SuperBlockView, inode: InodeView) -> DiskView {
    let b = inode_block(sb, inode.inode_no);
    d.write(b, splice(d.block(b), inode_offset(inode.inode_no), inode.encoded()))
}

/// The time stamp of a reading of the clock, in seconds since 1970; a clock that stands before
/// 1970 counts as 0.
pub open spec fn timestamp_of(reading: Option<u64>) -> i64 {
    match reading {
        Some(secs) => secs as i64,
        None => 0,
    }
}

/// `s` holds the fields of `v`, each in its place.
spec fn holds_fields(v: InodeView, s: Seq<u8>) -> bool {
    &&& s.len() == INODE_SIZE
    &&& stands_at(s, 0, u16_le(v.mode))
    &&& stands_at(s, 2, u16_le(v.uid))
    &&& stands_at(s, 4, u16_le(v.gid))
    &&& stands_at(s, 6, u32_le(v.size))
    &&& stands_at(s, 10, u16_le(v.nlink))
    &&& stands_at(s, 12, u16_le(v.block_count))
    &&& stands_at(s, 14, i64_le(v.mtime))
    &&& stands_at(s, 22, i64_le(v.atime))
    &&& stands_at(s, 30, i64_le(v.ctime))
    &&& forall|i: int|
        0 <= i < DIRECT_BLOCKS ==> stands_at(s, 38 + 4 * i, #[trigger] u32_le(v.direct_blocks[i]))
    &&& stands_at(s, 78, u32_le(v.indirect_block))
    &&& stands_at(s, 82, zeros(2))
}

proof fn lemma_inode_encoded_layout(v: InodeView)
    requires
        v.well_formed(),
    ensures
        holds_fields(v, v.encoded()),
{
    reveal(stands_at);
    let e = v.encoded();
    let p = pointers_encoded(v.direct_blocks);
    assert forall|i: int| 0 <= i < DIRECT_BLOCKS implies stands_at(
        e,
        38 + 4 * i,
        #[trigger] u32_le(v.direct_blocks[i]),
    ) by {
        assert forall|k: int| 0 <= k < 4 implies e[38 + 4 * i + k] == #[trigger] u32_le(
            v.direct_blocks[i],
        )[k] by {
            assert(e[38 + 4 * i + k] == p[4 * i + k]);
        }
    }
}

proof fn lemma_fields_decoded(v: InodeView, s: Seq<u8>)
    requires
        v.well_formed(),
        holds_fields(v, s),
    ensures
        decoded_inode(v.inode_no, s) == v,
{
    lemma_u16_read(s, 0, v.mode);
    lemma_u16_read(s, 2, v.uid);
    lemma_u16_read(s, 4, v.gid);
    lemma_u32_read(s, 6, v.size);
    lemma_u16_read(s, 10, v.nlink);
    lemma_u16_read(s, 12, v.block_count);
    lemma_i64_read(s, 14, v.mtime);
    lemma_i64_read(s, 22, v.atime);
    lemma_i64_read(s, 30, v.ctime);
    lemma_u32_read(s, 78, v.indirect_block);
    assert forall|i: int| 0 <= i < DIRECT_BLOCKS implies u32_at(s, 38 + 4 * i)
        == v.direct_blocks[i] by {
        assert(stands_at(s, 38 + 4 * i, u32_le(v.direct_blocks[i])));
        lemma_u32_read(s, 38 + 4 * i, v.direct_blocks[i]);
    }
    assert(decoded_inode(v.inode_no, s).direct_blocks =~= v.direct_blocks);
}

/// An inode read from its encoding is the inode encoded.
pub proof fn lemma_inode_round_trip(v: InodeView)
    requires
        v.well_formed(),
    ensures
        v.encoded().len() == INODE_SIZE,
        decoded_inode(v.inode_no, v.encoded()) == v,
{
    lemma_inode_encoded_layout(v);
    lemma_fields_decoded(v, v.encoded());
}

/// An inode written is the inode read back, and no other inode changes.
pub proof fn lemma_inode_read_back(d: DiskView, sb: SuperBlockView, inode: InodeView, n: u32)
    requires
        inode.well_formed(),
        inode_on_disk(d, sb, inode.inode_no),
        inode_on_disk(d, sb, n),
    ensures
        inode_at(inode_written(d, sb, inode), sb, n) == if n == inode.inode_no {
            inode
        } else {
            inode_at(d, sb, n)
        },
{
    broadcast use group_disk;

    reveal(inode_at);
    lemma_inode_round_trip(inode);
    let b = inode_block(sb, inode.inode_no);
    let old_block = d.block(b);
    let new_block = splice(old_block, inode_offset(inode.inode_no), inode.encoded());
    let at = inode_offset(n);
    if inode_block(sb, n) == b {
        if n == inode.inode_no {
            assert(new_block.subrange(at, at + INODE_SIZE) =~= inode.encoded());
        } else {
            let i = n as int % (INODES_PER_BLOCK as int);
            let j = inode.inode_no as int % (INODES_PER_BLOCK as int);
            assert(i != j);
            assert(new_block.subrange(at, at + INODE_SIZE) =~= old_block.subrange(
                at,
                at + INODE_SIZE,
            ));
        }
    }
}

/// An inode depends on nothing but the block that holds it.
pub proof fn lemma_inode_same_block(
    d1: DiskView,
    sb1: SuperBlockView,
    d2: DiskView,
    sb2: SuperBlockView,
    n: u32,
)
    requires
        sb1.inode_table_start == sb2.inode_table_start,
        d1.block(inode_block(sb1, n)) == d2.block(inode_block(sb1, n)),
    ensures
        inode_at(d1, sb1, n) == inode_at(d2, sb2, n),
{
    reveal(inode_at);
}

impl Inode {
    /// The inode of a file made at time `now`.
    pub fn new_file_at(inode_no: u32, now: i64) -> (r: Inode)
        ensures
            r@ == new_file_inode(inode_no, now),
    {
        let r = Inode {
            inode_no,
            mode: S_IFREG | 0o644,
            uid: 1000,
            gid: 1000,
            size: 0,
            nlink: 1,
            block_count: 0,
            mtime: now,
            atime: now,
            ctime: now,
            direct_blocks: [0u32; DIRECT_BLOCKS],
            indirect_block: 0,
        };
        assert(0x8000u16 | 0o644 == 0o100644) by (bit_vector);
        assert(r@ =~= new_file_inode(inode_no, now));
        r
    }

    /// The inode of a file made now.
    pub fn new_file(inode_no: u32) -> (r: Inode)
        ensures
            exists|now: i64| r@ == #[trigger] new_file_inode(inode_no, now),
    {
        let now: i64 = current_timestamp();
        Inode::new_file_at(inode_no, now)
    }

    /// The inode of a directory made at time `now`.
    pub fn new_dir_at(inode_no: u32, now: i64) -> (r: Inode)
        ensures
            r@ == new_dir_inode(inode_no, now),
    {
        let r = Inode {
            inode_no,
            mode: S_IFDIR | 0o755,
            uid: 1000,
            gid: 1000,
            size: 0,
            nlink: 2,
            block_count: 0,
            mtime: now,
            atime: now,
            ctime: now,
            direct_blocks: [0u32; DIRECT_BLOCKS],
            indirect_block: 0,
        };
        assert(0x4000u16 | 0o755 == 0o040755) by (bit_vector);
        assert(r@ =~= new_dir_inode(inode_no, now));
        r
    }

    /// The inode of a directory made now.
    pub fn new_dir(inode_no: u32) -> (r: Inode)
        ensures
            exists|now: i64| r@ == #[trigger] new_dir_inode(inode_no, now),
    {
        let now: i64 = current_timestamp();
        Inode::new_dir_at(inode_no, now)
    }

    /// Reads the inode numbered `inode_no` from the front of `data`.
    pub fn from_bytes(inode_no: u32, data: &[u8]) -> (r: Inode)
        requires
            data@.len() >= 82,
        ensures
            r@ == decoded_inode(inode_no, data@),
    {
        let mut direct_blocks: [u32; DIRECT_BLOCKS] = [0u32; DIRECT_BLOCKS];
        let mut i: usize = 0;
        while i < DIRECT_BLOCKS
            invariant
                i <= DIRECT_BLOCKS,
                data@.len() >= 82,
                forall|k: int|
                    0 <= k < i ==> #[trigger] direct_blocks@[k] == u32_at(data@, 38 + 4 * k),
            decreases DIRECT_BLOCKS - i,
        {
            direct_blocks[i] = get_u32(data, 38 + i * 4);
            i = i + 1;
        }
        let r = Inode {
            inode_no,
            mode: get_u16(data, 0),
            uid: get_u16(data, 2),
            gid: get_u16(data, 4),
            size: get_u32(data, 6),
            nlink: get_u16(data, 10),
            block_count: get_u16(data, 12),
            mtime: get_i64(data, 14),
            atime: get_i64(data, 22),
            ctime: get_i64(data, 30),
            direct_blocks,
            indirect_block: get_u32(data, 78),
        };
        assert(r@ =~= decoded_inode(inode_no, data@));
        r
    }

    /// The bytes of the inode on the disk.
    pub fn to_bytes(&self) -> (r: [u8; INODE_SIZE])
        ensures
            r@ == self@.encoded(),
    {
        let mut buf: [u8; INODE_SIZE] = [0u8; INODE_SIZE];
        put_u16(&mut buf, 0, self.mode);
        put_u16(&mut buf, 2, self.uid);
        put_u16(&mut buf, 4, self.gid);
        put_u32(&mut buf, 6, self.size);
        put_u16(&mut buf, 10, self.nlink);
        put_u16(&mut buf, 12, self.block_count);
        put_i64(&mut buf, 14, self.mtime);
        put_i64(&mut buf, 22, self.atime);
        put_i64(&mut buf, 30, self.ctime);
        let mut i: usize = 0;
        let ghost head = buf@;
        while i < DIRECT_BLOCKS
            invariant
                i <= DIRECT_BLOCKS,
                forall|k: int| 0 <= k < 38 ==> #[trigger] buf@[k] == head[k],
                forall|k: int|
                    38 <= k < 38 + 4 * i ==> #[trigger] buf@[k] == pointers_encoded(
                        self.direct_blocks@,
                    )[k - 38],
                forall|k: int| 38 + 4 * i <= k < INODE_SIZE ==> #[trigger] buf@[k] == 0,
            decreases DIRECT_BLOCKS - i,
        {
            let ghost before = buf@;
            put_u32(&mut buf, 38 + i * 4, self.direct_blocks[i]);
            proof {
                let p = pointers_encoded(self.direct_blocks@);
                assert forall|k: int| 38 <= k < 38 + 4 * (i + 1) implies #[trigger] buf@[k] == p[k
                    - 38] by {
                    if k < 38 + 4 * i {
                        assert(buf@[k] == before[k]);
                    } else {
                        assert((k - 38) / 4 == i && (k - 38) % 4 == k - (38 + 4 * i));
                    }
                }
            }
            i = i + 1;
        }
        put_u32(&mut buf, 78, self.indirect_block);
        assert(buf@ =~= self@.encoded());
        buf
    }

    /// Whether the permission bits let anyone write the file or, if not `want_write`, read it.
    pub fn check_permission(&self, want_write: bool, _uid: u32, _gid: u32) -> (r: bool)
        ensures
            r == self@.permits(want_write),
    {
        let mode: u16 = self.mode;
        let perm: u16 = mode & 0o777;
        assert((mode & 0o777) & 0o222 == mode & 0o222 && (mode & 0o777) & 0o444 == mode & 0o444)
            by (bit_vector);
        if want_write {
            (perm & 0o222) != 0
        } else {
            (perm & 0o444) != 0
        }
    }

    /// The number of data block `index` of the file, if it has one: a direct pointer, or one in the
    /// indirect block. Nothing is answered where the indirect block is not on the disk.
    pub fn try_get_block(&self, disk: &Disk, index: u32) -> (r: Option<Option<u32>>)
        ensures
            r == if self@.pointer_readable(disk@, index as int) {
                Some(self@.pointer(disk@, index as int))
            } else {
                None
            },
    {
        let block: u32 = if index < DIRECT_BLOCKS as u32 {
            self.direct_blocks[index as usize]
        } else if self.indirect_block != 0 {
            let indirect_idx: u32 = index - DIRECT_BLOCKS as u32;
            match disk.try_load(self.indirect_block) {
                Some(indirect_buf) => if indirect_idx >= INDIRECT_BLOCKS as u32 {
                    0
                } else {
                    get_u16(&indirect_buf, indirect_idx as usize * 2) as u32
                },
                None => {
                    return None;
                },
            }
        } else {
            0
        };
        if block == 0 {
            Some(None)
        } else {
            Some(Some(block))
        }
    }

    /// The number of data block `index` of the file: a direct pointer, or one in the indirect
    /// block.
    pub fn get_block(&self, disk: &Disk, index: u32) -> (r: Option<u32>)
        requires
            self@.pointer_readable(disk@, index as int),
        ensures
            r == self@.pointer(disk@, index as int),
    {
        self.try_get_block(disk, index).unwrap()
    }

    /// Sets data block `index` of the file to `block_num`. A pointer that is not direct goes to
    /// the indirect block, which keeps the low sixteen bits.
    pub fn set_block(&mut self, disk: &mut Disk, index: u32, block_num: u32)
        requires
            index >= DIRECT_BLOCKS ==> old(disk)@.has(old(self)@.indirect_block as int) && index
                - DIRECT_BLOCKS < 256,
        ensures
            final(self)@ == old(self)@.with_pointer(index as int, block_num),
            final(disk)@ == old(self)@.pointer_written(old(disk)@, index as int, block_num),
    {
        if index < DIRECT_BLOCKS as u32 {
            self.direct_blocks[index as usize] = block_num;
            assert(self@ =~= old(self)@.with_pointer(index as int, block_num));
        } else {
            let indirect_idx: u32 = index - DIRECT_BLOCKS as u32;
            let mut indirect_buf = disk.load(self.indirect_block);
            put_u16(&mut indirect_buf, indirect_idx as usize * 2, block_num as u16);
            assert(indirect_buf@.subrange(0, BLOCK_SIZE as int) =~= indirect_buf@);
            disk.write_block(self.indirect_block, &indirect_buf);
        }
    }
}

/// The block that holds inode `inode_no`, and its position there.
pub fn inode_block_location(sb: &SuperBlock, inode_no: u32) -> (r: (u32, usize))
    requires
        inode_block(sb@, inode_no) <= u32::MAX,
    ensures
        r.0 == inode_block(sb@, inode_no),
        r.1 == inode_offset(inode_no),
        r.1 + INODE_SIZE <= BLOCK_SIZE,
{
    let block_offset: u32 = inode_no / 6;
    let byte_offset: usize = (inode_no % 6) as usize * INODE_SIZE;
    (sb.inode_table_start + block_offset, byte_offset)
}

/// Whether inode `inode_no` is on the disk.
pub fn inode_is_on_disk(disk: &Disk, sb: &SuperBlock, inode_no: u32) -> (r: bool)
    ensures
        r == inode_on_disk(disk@, sb@, inode_no),
{
    let block_offset: u32 = inode_no / 6;
    block_offset <= u32::MAX - sb.inode_table_start && disk.has_block(
        sb.inode_table_start + block_offset,
    )
}

/// Reads inode `inode_no` from the disk, if it is there.
pub fn try_read_inode(disk: &Disk, sb: &SuperBlock, inode_no: u32) -> (r: Option<Inode>)
    ensures
        match r {
            Some(inode) => {
                &&& inode_on_disk(disk@, sb@, inode_no)
                &&& inode@ == inode_at(disk@, sb@, inode_no)
            },
            None => !inode_on_disk(disk@, sb@, inode_no),
        },
{
    if inode_is_on_disk(disk, sb, inode_no) {
        Some(read_inode(disk, sb, inode_no))
    } else {
        None
    }
}

/// Writes `inode` to its place, if that is on the disk.
pub fn try_write_inode(disk: &mut Disk, sb: &SuperBlock, inode: &Inode) -> (r: bool)
    ensures
        r == inode_on_disk(old(disk)@, sb@, inode.inode_no),
        r ==> final(disk)@ == inode_written(old(disk)@, sb@, inode@),
        !r ==> final(disk)@ == old(disk)@,
{
    if inode_is_on_disk(disk, sb, inode.inode_no) {
        write_inode(disk, sb, inode);
        true
    } else {
        false
    }
}

/// Reads inode `inode_no` from the disk.
pub fn read_inode(disk: &Disk, sb: &SuperBlock, inode_no: u32) -> (r: Inode)
    requires
        inode_on_disk(disk@, sb@, inode_no),
    ensures
        r@ == inode_at(disk@, sb@, inode_no),
{
    proof {
        reveal(inode_at);
    }
    let (block_num, offset) = inode_block_location(sb, inode_no);
    let block_buf = disk.load(block_num);
    Inode::from_bytes(inode_no, &block_buf[offset..offset + INODE_SIZE])
}

/// Writes `inode` to its place on the disk.
pub fn write_inode(disk: &mut Disk, sb: &SuperBlock, inode: &Inode)
    requires
        inode_on_disk(old(disk)@, sb@, inode.inode_no),
    ensures
        final(disk)@ == inode_written(old(disk)@, sb@, inode@),
{
    let (block_num, offset) = inode_block_location(sb, inode.inode_no);
    let mut block_buf = disk.load(block_num);
    let data = inode.to_bytes();
    proof {
        lemma_inode_encoded_layout(inode@);
    }
    copy_into(&mut block_buf, offset, &data);
    assert(block_buf@.subrange(0, BLOCK_SIZE as int) =~= block_buf@);
    disk.write_block(block_num, &block_buf);
}

/// The seconds that have passed since 1970 by the clock of the machine.
///
/// Calls `std::time::SystemTime::elapsed`. Nothing is claimed of the result: it is whatever the
/// clock says, or nothing if the clock stands before 1970.
#[verifier::external_body]
fn clock_seconds() -> (r: Option<u64>) {
    std::time::UNIX_EPOCH.elapsed().ok().map(|d| d.as_secs())
}

/// The time stamp of a reading of the clock.
pub fn timestamp(reading: Option<u64>) -> (r: i64)
    ensures
        r == timestamp_of(reading),
{
    match reading {
        Some(secs) => secs as i64,
        None => 0,
    }
}

/// The current time in seconds since 1970.
pub fn current_timestamp() -> (r: i64)
    ensures
        exists|reading: Option<u64>| r == #[trigger] timestamp_of(reading),
{
    timestamp(clock_seconds())
}

} // verus!
