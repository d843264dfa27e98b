//! The contents of files: reading, growing, writing.

use crate::bitmap::{allocated, allocation_ready, lemma_allocated, Bitmap};
use crate::bytes::{copy_into, put_u16, splice, u16_le, zeros};
use crate::disk::{group_disk, Disk, DiskView, BLOCK_SIZE, PAGE_SIZE};
use crate::fs::{FsError, FsView, SimpleFS};
use crate::inode::{
    current_timestamp, inode_written, try_read_inode, write_inode, Inode, InodeView, DIRECT_BLOCKS,
};
use crate::superblock::{SuperBlock, SuperBlockView};
use vstd::prelude::*;

verus! {

broadcast use crate::inode::lemma_inode_at;

/// Data blocks that a file can have: ten direct ones, and those that one indirect block lists.
pub const MAX_FILE_BLOCKS: u32 = 265;

/// Bytes that a file can have.
pub const MAX_FILE_SIZE: u64 = 135150;

/// Looking up data block `i` of `inode` reads nothing that is not on the disk, and the block is on
/// the disk if there is one.
pub open spec fn block_readable(d: DiskView, inode: InodeView, i: int) -> bool {
    inode.pointer_readable(d, i) && (inode.pointer(d, i) is Some ==> d.has(
        inode.pointer(d, i)->0 as int,
    ))
}

/// Byte `p` of the file, if the block that it lies in is there.
pub open spec fn file_byte(d: DiskView, inode: InodeView, p: int) -> Option<u8> {
    match inode.pointer(d, p / (PAGE_SIZE as int)) {
        Some(b) => Some(d.block(b as int)[p % (PAGE_SIZE as int)]),
        None => None,
    }
}

/// The bytes of the file from `p` up to `end`, or up to the first block that is missing.
pub open spec fn file_bytes(d: DiskView, inode: InodeView, p: int, end: int) -> Seq<u8>
    decreases end - p,
{
    if p >= end {
        Seq::empty()
    } else {
        match file_byte(d, inode, p) {
            Some(x) => seq![x] + file_bytes(d, inode, p + 1, end),
            None => Seq::empty(),
        }
    }
}

/// `offset` as an unsigned word of 64 bits.
pub open spec fn unsigned(offset: int) -> int {
    offset % 0x1_0000_0000_0000_0000
}

/// The byte of a file that `offset` stands for. Its block is reckoned from the lower 32 bits of the
/// offset, its place in the block from all 64: an offset below the largest size of a file stands
/// for itself.
#[verifier::opaque]
pub open spec fn position(offset: int) -> int {
    let u = unsigned(offset);
    u % 0x1_0000_0000 / (PAGE_SIZE as int) * PAGE_SIZE + u % (PAGE_SIZE as int)
}

/// How many of `size` bytes from `offset` on a read asks for: no more than the lower 32 bits of the
/// distance to the end of the file.
pub open spec fn read_len(inode: InodeView, offset: int, size: int) -> int {
    if offset >= inode.size {
        0
    } else if size <= (inode.size - offset) % 0x1_0000_0000 {
        size
    } else {
        (inode.size - offset) % 0x1_0000_0000
    }
}

/// The data blocks of `inode` from `from` up to `to` are all there.
pub open spec fn blocks_present(d: DiskView, inode: InodeView, from: int, to: int) -> bool {
    forall|j: int| from <= j < to ==> (#[trigger] inode.pointer(d, j)) is Some
}

/// All blocks that a read of the bytes from `p` up to `end` comes to can be read.
pub open spec fn range_readable(d: DiskView, inode: InodeView, p: int, end: int) -> bool {
    p < end ==> forall|i: int|
        p / (PAGE_SIZE as int) <= i && i * PAGE_SIZE < end && blocks_present(
            d,
            inode,
            p / (PAGE_SIZE as int),
            i,
        ) ==> #[trigger] block_readable(d, inode, i)
}

/// What a read of `size` bytes at `offset` of the file of inode `ino` gives.
pub open spec fn bytes_read(fs: FsView, ino: u32, offset: int, size: int) -> Seq<u8> {
    let p = position(offset);
    file_bytes(fs.disk, fs.inode(ino), p, p + read_len(fs.inode(ino), offset, size))
}

/// A read can be carried out: the inode and all blocks that the read comes to are on the disk.
pub open spec fn readable(fs: FsView, ino: u32, offset: int, size: int) -> bool {
    let p = position(offset);
    &&& fs.has_inode(ino)
    &&& range_readable(fs.disk, fs.inode(ino), p, p + read_len(fs.inode(ino), offset, size))
}

/// What growing a file leads to; `done` is false if the blocks ran out.
#[verifier::ext_equal]
pub struct Growth {
    pub disk: DiskView,
    pub sb: SuperBlockView,
    pub inode: InodeView,
    pub done: bool,
}

/// An indirect block that lists block `b` alone.
pub open spec fn first_indirect(b: u32) -> Seq<u8> {
    splice(zeros(BLOCK_SIZE as nat), 0, u16_le(b as u16))
}

/// The file after it has got one more block, filled with zeros. The eleventh block brings the
/// indirect block with it.
pub open spec fn grown_once(d: DiskView, sb: SuperBlockView, inode: InodeView) -> Growth {
    let (d1, sb1, b) = allocated(d, sb)->0;
    let idx = inode.block_count as int;
    let (d2, sb2, inode2) = if idx < DIRECT_BLOCKS {
        (d1, sb1, inode.with_pointer(idx, b))
    } else if idx == DIRECT_BLOCKS {
        let (e, sb2, indirect) = allocated(d1, sb1)->0;
        (
            e.write(indirect as int, first_indirect(b)),
            sb2,
            InodeView { indirect_block: indirect, ..inode },
        )
    } else {
        (inode.pointer_written(d1, idx, b), sb1, inode)
    };
    Growth {
        disk: d2.write(b as int, zeros(BLOCK_SIZE as nat)),
        sb: sb2,
        inode: InodeView { block_count: (idx + 1) as u16, ..inode2 },
        done: false,
    }
}

/// The file after it has got as many blocks as it takes to have `n`.
pub open spec fn grown(d: DiskView, sb: SuperBlockView, inode: InodeView, n: u16) -> Growth
    decreases n - inode.block_count,
{
    if inode.block_count >= n {
        Growth { disk: d, sb, inode, done: true }
    } else if allocated(d, sb) is None {
        Growth { disk: d, sb, inode, done: false }
    } else {
        let g = grown_once(d, sb, inode);
        grown(g.disk, g.sb, g.inode, n)
    }
}

/// The file can be given one more block if there is one: every allocation finds what it reads, the
/// indirect block is on the disk, and it is not the one that cannot be had.
pub open spec fn growth_ready(d: DiskView, sb: SuperBlockView, inode: InodeView) -> bool {
    &&& allocation_ready(d, sb)
    &&& allocated(d, sb) is Some ==> {
        let (d1, sb1, b) = allocated(d, sb)->0;
        &&& inode.block_count == DIRECT_BLOCKS ==> allocation_ready(d1, sb1) && allocated(
            d1,
            sb1,
        ) is Some
        &&& inode.block_count > DIRECT_BLOCKS ==> d1.has(inode.indirect_block as int)
    }
}

/// The file can be grown to `n` blocks, or until the blocks run out.
pub open spec fn growable(d: DiskView, sb: SuperBlockView, inode: InodeView, n: u16) -> bool
    decreases n - inode.block_count,
{
    inode.block_count < n ==> {
        &&& growth_ready(d, sb, inode)
        &&& allocated(d, sb) is Some ==> {
            let g = grown_once(d, sb, inode);
            growable(g.disk, g.sb, g.inode, n)
        }
    }
}

/// How many of `len` bytes at position `p` of a file go to the block of the first one.
pub open spec fn chunk(p: int, len: int) -> int {
    let room = PAGE_SIZE - p % (PAGE_SIZE as int);
    if len <= room {
        len
    } else {
        room
    }
}

/// The disk after the first bytes of `data`, as many as lie in one block, have been written at
/// position `p` of the file.
pub open spec fn chunk_stored(d: DiskView, inode: InodeView, p: int, data: Seq<u8>) -> DiskView {
    let b = inode.pointer(d, p / (PAGE_SIZE as int))->0 as int;
    d.write(
        b,
        splice(
            d.block(b),
            p % (PAGE_SIZE as int),
            data.subrange(0, chunk(p, data.len() as int)),
        ),
    )
}

/// The disk after `data` has been written at position `p` of the file, block by block.
pub open spec fn stored(d: DiskView, inode: InodeView, p: int, data: Seq<u8>) -> DiskView
    decreases data.len(),
{
    let n = chunk(p, data.len() as int);
    if n <= 0 {
        d
    } else {
        stored(
            chunk_stored(d, inode, p, data),
            inode,
            p + n,
            data.subrange(n, data.len() as int),
        )
    }
}

/// Every block that `data` at position `p` of the file goes to is there when it is written.
pub open spec fn storable(d: DiskView, inode: InodeView, p: int, data: Seq<u8>) -> bool
    decreases data.len(),
{
    let n = chunk(p, data.len() as int);
    n > 0 ==> {
        let i = p / (PAGE_SIZE as int);
        &&& block_readable(d, inode, i)
        &&& inode.pointer(d, i) is Some
        &&& storable(
            chunk_stored(d, inode, p, data),
            inode,
            p + n,
            data.subrange(n, data.len() as int),
        )
    }
}

/// Data blocks that a file of `len` bytes takes.
pub open spec fn blocks_for(len: int) -> int {
    (len + PAGE_SIZE - 1) / (PAGE_SIZE as int)
}

/// Data blocks that a write of `len` bytes at `offset` asks for, reckoned in 64 bits and cut to 32.
#[verifier::opaque]
pub open spec fn blocks_wanted(offset: int, len: int) -> int {
    (unsigned(offset) + len + PAGE_SIZE - 1) % 0x1_0000_0000_0000_0000 / (PAGE_SIZE as int)
        % 0x1_0000_0000
}

/// `len` bytes at `offset` ask for more blocks than a file can have.
pub open spec fn too_big(offset: int, len: int) -> bool {
    blocks_wanted(offset, len) > MAX_FILE_BLOCKS
}

/// The inode after `len` bytes have been written at `offset` at time `now`. The new end of the file
/// is reckoned in 64 bits; of one that lies behind the old end the lower 32 bits are kept.
pub open spec fn inode_after_write(inode: InodeView, offset: int, len: int, now: i64) -> InodeView {
    let end = (unsigned(offset) + len) % 0x1_0000_0000_0000_0000;
    InodeView {
        size: if end > inode.size { (end % 0x1_0000_0000) as u32 } else { inode.size },
        mtime: now,
        atime: now,
        ..inode
    }
}

/// The file system after `data` has been written at `offset` of inode `ino` at time `now`, and the
/// number of bytes written or the error. Blocks that were allocated before they ran out stay
/// allocated.
pub open spec fn file_written(
    fs: FsView,
    ino: u32,
    offset: int,
    data: Seq<u8>,
    now: i64,
) -> (FsView, Result<u32, FsError>) {
    if data.len() == 0 {
        (fs, Ok(0))
    } else if too_big(offset, data.len() as int) {
        (fs, Err(FsError::FileTooBig))
    } else {
        let n = blocks_wanted(offset, data.len() as int) as u16;
        let g = grown(fs.disk, fs.sb, fs.inode(ino), n);
        if !g.done {
            (FsView { disk: g.disk, sb: g.sb }, Err(FsError::NoSpace))
        } else {
            (
                FsView {
                    disk: inode_written(
                        stored(g.disk, g.inode, position(offset), data),
                        g.sb,
                        inode_after_write(g.inode, offset, data.len() as int, now),
                    ),
                    sb: g.sb,
                },
                Ok(data.len() as u32),
            )
        }
    }
}

/// A write can be carried out: the inode is on the disk, the file can be grown, and every block
/// that the data goes to is there.
pub open spec fn writable(fs: FsView, ino: u32, offset: int, data: Seq<u8>) -> bool {
    &&& fs.has_inode(ino)
    &&& data.len() > 0 && !too_big(offset, data.len() as int) ==> {
        let n = blocks_wanted(offset, data.len() as int) as u16;
        let g = grown(fs.disk, fs.sb, fs.inode(ino), n);
        &&& growable(fs.disk, fs.sb, fs.inode(ino), n)
        &&& g.done ==> storable(g.disk, g.inode, position(offset), data)
    }
}

/// The number of blocks that a write asks for is not negative.
pub broadcast proof fn lemma_blocks_wanted(offset: int, len: int)
    ensures
        0 <= #[trigger] blocks_wanted(offset, len) < 0x1_0000_0000,
{
    reveal(blocks_wanted);
}

/// The byte that an offset stands for is not before the start of the file.
pub broadcast proof fn lemma_position_bounds(offset: int)
    ensures
        0 <= #[trigger] position(offset) <= 0x1_0000_0200,
{
    reveal(position);
}

pub broadcast group group_offsets {
    lemma_blocks_wanted,
    lemma_position_bounds,
}

/// An offset of 32 bits stands for itself.
pub proof fn lemma_small_offset(offset: int)
    requires
        0 <= offset <= u32::MAX,
    ensures
        position(offset) == offset,
        unsigned(offset) == offset,
{
    reveal(position);
}

/// A write that ends at an offset whose block number has 32 bits asks for the blocks up to its end.
pub proof fn lemma_small_write(offset: int, len: int)
    requires
        0 <= offset,
        0 <= len,
        offset + len <= 510 * 0xffff_ffff,
    ensures
        unsigned(offset) == offset,
        blocks_wanted(offset, len) == (offset + len + 509) / 510,
        !too_big(offset, len) <==> offset + len <= 135150,
{
    reveal(blocks_wanted);
}

/// A negative offset is the word that lies 2^64 above it.
pub proof fn lemma_unsigned(offset: int)
    requires
        i64::MIN <= offset <= i64::MAX,
    ensures
        unsigned(offset) == if offset < 0 {
            offset + 0x1_0000_0000_0000_0000
        } else {
            offset
        },
{
}

/// Data whose blocks are all there goes no further than a file can reach.
pub proof fn lemma_storable_fits(d: DiskView, inode: InodeView, p: int, data: Seq<u8>)
    requires
        0 <= p,
        data.len() > 0,
        storable(d, inode, p, data),
    ensures
        p + data.len() <= MAX_FILE_SIZE,
    decreases data.len(),
{
    let n = chunk(p, data.len() as int);
    assert(0 <= p / (PAGE_SIZE as int) < MAX_FILE_BLOCKS);
    if n < data.len() {
        lemma_storable_fits(
            chunk_stored(d, inode, p, data),
            inode,
            p + n,
            data.subrange(n, data.len() as int),
        );
    }
}

/// Where a write is not too big and its data goes no further than a file can reach, nothing is lost
/// when its blocks and the new end of the file are cut to 32 bits.
pub proof fn lemma_position(offset: int, len: int)
    requires
        0 < len,
        !too_big(offset, len),
        position(offset) + len <= MAX_FILE_SIZE,
    ensures
        0 <= position(offset),
        blocks_wanted(offset, len) == blocks_for(position(offset) + len),
        unsigned(offset) + len < 0x1_0000_0000_0000_0000,
        (unsigned(offset) + len) % 0x1_0000_0000 == position(offset) + len,
        unsigned(offset) >= position(offset),
{
    reveal(position);
    reveal(blocks_wanted);
    let u = unsigned(offset);
    let low = u % 0x1_0000_0000;
    assert(0 <= low < 510 * 265 + 510);
    let total = u + len + 509;
    assert(total < 0x1_0000_0000_0000_0000) by {
        // The lower 32 bits of a word that close to the end would be large.
        if total >= 0x1_0000_0000_0000_0000 {
            assert(u / 0x1_0000_0000 == 0xffff_ffff);
            assert(low == u - 0xffff_ffff_0000_0000);
        }
    }
    let k = total / 510 / 0x1_0000_0000;
    let w = total / 510 % 0x1_0000_0000;
    assert(w <= 265);
    assert(total / 510 == k * 0x1_0000_0000 + w);
    let r = u - k * 0x1fe_0000_0000;
    assert(r + len + 509 == (total - 510 * (k * 0x1_0000_0000)));
    assert(0 <= r + len + 509 < 510 * 266);
    assert(u == k * 510 * 0x1_0000_0000 + r);
    assert(low == r % 0x1_0000_0000) by (nonlinear_arith)
        requires
            u == k * 510 * 0x1_0000_0000 + r,
            low == u % 0x1_0000_0000,
    ;
    assert(r >= 0);
    assert(low == r);
    assert(u % 510 == r % 510) by (nonlinear_arith)
        requires
            u == k * 510 * 0x1_0000_0000 + r,
    ;
    assert(position(offset) == r);
}

/// Bytes that are those of the file, as many as there are up to `end`, are what a read gives.
pub proof fn lemma_file_bytes(d: DiskView, inode: InodeView, p: int, end: int, r: Seq<u8>)
    requires
        0 <= p,
        r.len() <= end - p || r.len() == 0,
        forall|k: int| 0 <= k < r.len() ==> file_byte(d, inode, p + k) == Some(#[trigger] r[k]),
        p + r.len() >= end || file_byte(d, inode, (p + r.len()) as int) is None,
    ensures
        file_bytes(d, inode, p, end) == r,
    decreases end - p,
{
    if r.len() == 0 {
        assert(r =~= Seq::empty());
    } else {
        let rest = r.subrange(1, r.len() as int);
        assert(file_byte(d, inode, p + 0) == Some(r[0]));
        assert forall|k: int| 0 <= k < rest.len() implies file_byte(d, inode, p + 1 + k) == Some(
            #[trigger] rest[k],
        ) by {
            assert(rest[k] == r[k + 1]);
        }
        lemma_file_bytes(d, inode, p + 1, end, rest);
        assert(r =~= seq![r[0]] + rest);
    }
}

/// Growing a file loses no block of the disk and leaves all of the superblock but the count of
/// free blocks.
pub proof fn lemma_grown_once(d: DiskView, sb: SuperBlockView, inode: InodeView)
    requires
        inode.block_count < MAX_FILE_BLOCKS,
        growth_ready(d, sb, inode),
        allocated(d, sb) is Some,
    ensures
        ({
            let g = grown_once(d, sb, inode);
            &&& forall|c: int| d.has(c) ==> #[trigger] g.disk.has(c)
            &&& g.sb.inode_table_start == sb.inode_table_start
            &&& g.inode.inode_no == inode.inode_no
        }),
{
    broadcast use group_disk;

    lemma_allocated(d, sb);
    let (d1, sb1, b) = allocated(d, sb)->0;
    if inode.block_count == DIRECT_BLOCKS {
        lemma_allocated(d1, sb1);
        let (e, sb2, indirect) = allocated(d1, sb1)->0;
        assert(first_indirect(b).len() == BLOCK_SIZE);
        assert forall|c: int| d.has(c) implies #[trigger] grown_once(d, sb, inode).disk.has(c) by {
            assert(d1.has(c));
            assert(e.has(c));
            assert(e.write(indirect as int, first_indirect(b)).has(c));
        }
    } else if inode.block_count > DIRECT_BLOCKS {
        let d2 = inode.pointer_written(d1, inode.block_count as int, b);
        assert(d1.block(inode.indirect_block as int).len() == BLOCK_SIZE);
        assert forall|c: int| d.has(c) implies #[trigger] grown_once(d, sb, inode).disk.has(c) by {
            assert(d1.has(c));
            assert(d2.has(c));
        }
    } else {
        assert forall|c: int| d.has(c) implies #[trigger] grown_once(d, sb, inode).disk.has(c) by {
            assert(d1.has(c));
        }
    }
}

/// Gives the file of `inode` one more block, filled with zeros; false if there is none. Nothing is
/// answered where the disk is not ready for that.
fn grow_once(disk: &mut Disk, sb: &mut SuperBlock, inode: &mut Inode) -> (r: Option<bool>)
    requires
        old(inode)@.block_count < MAX_FILE_BLOCKS,
    ensures
        r is Some <==> growth_ready(old(disk)@, old(sb)@, old(inode)@),
        r matches Some(done) ==> done == (allocated(old(disk)@, old(sb)@) is Some),
        r == Some(true) ==> {
            let g = grown_once(old(disk)@, old(sb)@, old(inode)@);
            &&& final(disk)@ == g.disk
            &&& final(sb)@ == g.sb
            &&& final(inode)@ == g.inode
        },
        r == Some(false) ==> {
            &&& final(disk)@ == old(disk)@
            &&& final(sb)@ == old(sb)@
            &&& final(inode)@ == old(inode)@
        },
{
    broadcast use group_disk;

    proof {
        if allocation_ready(disk@, sb@) && allocated(disk@, sb@) is Some {
            lemma_allocated(disk@, sb@);
            let (d1, sb1, b) = allocated(disk@, sb@)->0;
            if allocation_ready(d1, sb1) && allocated(d1, sb1) is Some {
                lemma_allocated(d1, sb1);
            }
        }
    }
    match Bitmap::try_allocate_block(disk, sb) {
        Some(Some(new_block)) => {
            let idx: usize = inode.block_count as usize;
            if idx < DIRECT_BLOCKS {
                inode.direct_blocks[idx] = new_block;
                assert(inode@ =~= old(inode)@.with_pointer(idx as int, new_block));
            } else if idx == DIRECT_BLOCKS {
                let indirect: u32 = match Bitmap::try_allocate_block(disk, sb) {
                    Some(Some(indirect)) => indirect,
                    _ => {
                        return None;
                    },
                };
                inode.indirect_block = indirect;
                let mut indirect_buf: Vec<u8> = vec![0u8; BLOCK_SIZE];
                assert(indirect_buf@ =~= zeros(BLOCK_SIZE as nat));
                put_u16(&mut indirect_buf, 0, new_block as u16);
                assert(indirect_buf@.subrange(0, BLOCK_SIZE as int) =~= first_indirect(new_block));
                disk.write_block(indirect, &indirect_buf);
            } else {
                if !disk.has_block(inode.indirect_block) {
                    return None;
                }
                inode.set_block(disk, idx as u32, new_block);
            }
            let block_buf: Vec<u8> = vec![0u8; BLOCK_SIZE];
            assert(block_buf@.subrange(0, BLOCK_SIZE as int) =~= zeros(BLOCK_SIZE as nat));
            disk.write_block(new_block, &block_buf);
            inode.block_count = inode.block_count + 1;
            assert(inode@ =~= grown_once(old(disk)@, old(sb)@, old(inode)@).inode);
            Some(true)
        },
        Some(None) => Some(false),
        None => None,
    }
}

/// Gives the file of `inode` as many blocks as it takes to have `required`; false if they run out.
/// Nothing is answered where the disk is not ready for that.
fn grow(disk: &mut Disk, sb: &mut SuperBlock, inode: &mut Inode, required: u16) -> (r: Option<bool>)
    requires
        required <= MAX_FILE_BLOCKS,
    ensures
        r is Some <==> growable(old(disk)@, old(sb)@, old(inode)@, required),
        r matches Some(done) ==> {
            let g = grown(old(disk)@, old(sb)@, old(inode)@, required);
            &&& final(disk)@ == g.disk
            &&& final(sb)@ == g.sb
            &&& final(inode)@ == g.inode
            &&& done == g.done
            &&& forall|c: int| old(disk)@.has(c) ==> #[trigger] final(disk)@.has(c)
            &&& final(sb).inode_table_start == old(sb).inode_table_start
            &&& final(inode).inode_no == old(inode).inode_no
        },
{
    while inode.block_count < required
        invariant
            required <= MAX_FILE_BLOCKS,
            growable(disk@, sb@, inode@, required) == growable(
                old(disk)@,
                old(sb)@,
                old(inode)@,
                required,
            ),
            grown(disk@, sb@, inode@, required) == grown(
                old(disk)@,
                old(sb)@,
                old(inode)@,
                required,
            ),
            forall|c: int| old(disk)@.has(c) ==> #[trigger] disk@.has(c),
            sb.inode_table_start == old(sb).inode_table_start,
            inode.inode_no == old(inode).inode_no,
        decreases required - inode.block_count,
    {
        proof {
            if growth_ready(disk@, sb@, inode@) && allocated(disk@, sb@) is Some {
                lemma_grown_once(disk@, sb@, inode@);
            }
        }
        let ghost before = disk@;
        match grow_once(disk, sb, inode) {
            Some(true) => {},
            Some(false) => {
                return Some(false);
            },
            None => {
                return None;
            },
        }
        assert forall|c: int| old(disk)@.has(c) implies #[trigger] disk@.has(c) by {
            assert(before.has(c));
        }
    }
    Some(true)
}

/// Writes `data` at position `offset` of the file of `inode`, block by block; false if a block is
/// not there.
fn store(disk: &mut Disk, inode: &Inode, offset: u64, data: &[u8]) -> (r: bool)
    requires
        offset <= 0x1_0000_0200,
    ensures
        r == storable(old(disk)@, inode@, offset as int, data@),
        r ==> final(disk)@ == stored(old(disk)@, inode@, offset as int, data@),
        forall|c: int| old(disk)@.has(c) ==> #[trigger] final(disk)@.has(c),
{
    broadcast use group_disk;

    let total: usize = data.len();
    let mut done: usize = 0;
    assert(data@.subrange(0, total as int) =~= data@);
    while done < total
        invariant
            done <= total,
            total == data@.len(),
            offset <= 0x1_0000_0200,
            done == 0 || offset + done <= MAX_FILE_SIZE,
            storable(disk@, inode@, offset + done, data@.subrange(done as int, total as int))
                == storable(old(disk)@, inode@, offset as int, data@),
            stored(disk@, inode@, offset + done, data@.subrange(done as int, total as int))
                == stored(old(disk)@, inode@, offset as int, data@),
            forall|c: int| old(disk)@.has(c) ==> #[trigger] disk@.has(c),
        decreases total - done,
    {
        let position: u64 = offset + done as u64;
        let ghost rest = data@.subrange(done as int, total as int);
        let ghost before = disk@;
        let block_index: u32 = (position / 510) as u32;
        let block_offset: usize = (position % 510) as usize;
        assert(block_index == position as int / (PAGE_SIZE as int));
        assert(block_offset == position as int % (PAGE_SIZE as int));
        let block_num: u32 = match inode.try_get_block(disk, block_index) {
            Some(Some(block_num)) => block_num,
            _ => {
                return false;
            },
        };
        let mut block_buf = match disk.try_load(block_num) {
            Some(block_buf) => block_buf,
            None => {
                return false;
            },
        };
        let room: usize = PAGE_SIZE - block_offset;
        let to_write: usize = if total - done <= room { total - done } else { room };
        copy_into(&mut block_buf, block_offset, &data[done..done + to_write]);
        assert(data@.subrange(done as int, done + to_write) =~= rest.subrange(0, to_write as int));
        assert(block_buf@.subrange(0, BLOCK_SIZE as int) =~= block_buf@);
        disk.write_block(block_num, &block_buf);
        assert(disk@ == before.write(block_num as int, block_buf@));
        assert(disk@ == chunk_stored(before, inode@, position as int, rest));
        assert(rest.subrange(to_write as int, rest.len() as int) =~= data@.subrange(
            done + to_write,
            total as int,
        ));
        assert forall|c: int| old(disk)@.has(c) implies #[trigger] disk@.has(c) by {
            broadcast use group_disk;

            assert(before.has(c));
        }
        done = done + to_write;
    }
    true
}

/// `offset` as an unsigned word of 64 bits.
fn unsigned_word(offset: i64) -> (r: u64)
    ensures
        r == unsigned(offset as int),
{
    if offset < 0 {
        (offset as i128 + 0x1_0000_0000_0000_0000) as u64
    } else {
        offset as u64
    }
}

/// The byte of a file that `offset` stands for.
fn file_position(offset: i64) -> (r: u64)
    ensures
        r == position(offset as int),
        r <= 0x1_0000_0200,
{
    reveal(position);
    let word: u64 = unsigned_word(offset);
    word % 0x1_0000_0000 / 510 * 510 + word % 510
}

impl SimpleFS {
    /// Up to `size` bytes of the file of inode `ino`, from `offset` on: less at the end of the
    /// file, or where a block is missing. Nothing is answered where the disk does not let them be
    /// read.
    pub fn try_read(&self, ino: u64, offset: i64, size: u32) -> (r: Option<Vec<u8>>)
        ensures
            match r {
                Some(bytes) => {
                    &&& readable(self@, ino as u32, offset as int, size as int)
                    &&& bytes@ == bytes_read(self@, ino as u32, offset as int, size as int)
                },
                None => !readable(self@, ino as u32, offset as int, size as int),
            },
    {
        let inode = match try_read_inode(&self.disk, &self.sb, ino as u32) {
            Some(inode) => inode,
            None => {
                return None;
            },
        };
        let mut result: Vec<u8> = Vec::new();
        if offset >= inode.size as i64 {
            return Some(result);
        }
        let start: u64 = file_position(offset);
        let available: u64 = ((inode.size as i128 - offset as i128) % 0x1_0000_0000) as u64;
        let actual_size: usize = if size as u64 <= available {
            size as usize
        } else {
            available as usize
        };
        assert(actual_size == read_len(inode@, offset as int, size as int));
        let ghost d = self@.disk;
        let ghost end = start + actual_size;
        let ghost first = start as int / (PAGE_SIZE as int);
        let mut copied: usize = 0;
        while copied < actual_size
            invariant
                copied <= actual_size,
                start + actual_size == end,
                actual_size <= u32::MAX,
                start <= 0x1_0000_0200,
                start == position(offset as int),
                first == start as int / (PAGE_SIZE as int),
                inode@ == self@.inode(ino as u32),
                self@.has_inode(ino as u32),
                actual_size == read_len(inode@, offset as int, size as int),
                d == self.disk@,
                forall|i: int|
                    copied > 0 && first <= i && i * PAGE_SIZE < start + copied
                        ==> #[trigger] block_readable(d, inode@, i) && inode@.pointer(d, i) is Some,
                copied == 0 || copied == actual_size || (start + copied) % (PAGE_SIZE as int) == 0,
                result@.len() == copied,
                forall|k: int|
                    0 <= k < copied ==> file_byte(d, inode@, start + k) == Some(
                        #[trigger] result@[k],
                    ),
            decreases actual_size - copied,
        {
            let position: u64 = start + copied as u64;
            let block_index: u32 = (position / 510) as u32;
            let block_offset: usize = (position % 510) as usize;
            let ghost i0 = block_index as int;
            assert(block_index == position as int / (PAGE_SIZE as int) && block_offset
                == position as int % (PAGE_SIZE as int));
            assert(blocks_present(d, inode@, first, i0)) by {
                assert forall|j: int| first <= j < i0 implies (#[trigger] inode@.pointer(d, j))
                    is Some by {
                    assert(block_readable(d, inode@, j));
                }
            }
            let block = match inode.try_get_block(&self.disk, block_index) {
                Some(block) => block,
                None => {
                    assert(!block_readable(d, inode@, i0));
                    return None;
                },
            };
            match block {
                Some(block_num) => {
                    let block_buf = match self.disk.try_load(block_num) {
                        Some(block_buf) => block_buf,
                        None => {
                            assert(!block_readable(d, inode@, i0));
                            return None;
                        },
                    };
                    let room: usize = PAGE_SIZE - block_offset;
                    let remaining: usize = actual_size - copied;
                    let to_copy: usize = if remaining <= room { remaining } else { room };
                    let ghost before = result@;
                    result.extend_from_slice(&block_buf[block_offset..block_offset + to_copy]);
                    proof {
                        assert(result@.len() == copied + to_copy);
                        assert forall|k: int| 0 <= k < copied + to_copy implies file_byte(
                            d,
                            inode@,
                            start + k,
                        ) == Some(#[trigger] result@[k]) by {
                            if k < copied {
                                assert(result@[k] == before[k]);
                            } else {
                                let q = start + k;
                                assert(q / (PAGE_SIZE as int) == block_index);
                                assert(q % (PAGE_SIZE as int) == block_offset + (k - copied));
                            }
                        }
                        assert forall|i: int|
                            first <= i && i * PAGE_SIZE < start + copied
                                + to_copy implies #[trigger] block_readable(d, inode@, i)
                            && inode@.pointer(d, i) is Some by {
                            if i * PAGE_SIZE >= start + copied {
                                assert(i == i0);
                            }
                        }
                    }
                    copied = copied + to_copy;
                },
                None => {
                    proof {
                        lemma_file_bytes(d, inode@, start as int, end, result@);
                        assert(readable(self@, ino as u32, offset as int, size as int)) by {
                            assert forall|i: int|
                                first <= i && i * PAGE_SIZE < end && blocks_present(
                                    d,
                                    inode@,
                                    first,
                                    i,
                                ) implies #[trigger] block_readable(d, inode@, i) by {
                                if i > i0 {
                                    assert(inode@.pointer(d, i0) is Some);
                                }
                            }
                        }
                    }
                    return Some(result);
                },
            }
        }
        proof {
            lemma_file_bytes(d, inode@, start as int, end, result@);
        }
        Some(result)
    }

    /// Up to `size` bytes of the file of inode `ino`, from `offset` on: less at the end of the
    /// file, or where a block is missing.
    pub fn read(&self, ino: u64, offset: i64, size: u32) -> (r: Vec<u8>)
        requires
            readable(self@, ino as u32, offset as int, size as int),
        ensures
            r@ == bytes_read(self@, ino as u32, offset as int, size as int),
    {
        self.try_read(ino, offset, size).unwrap()
    }

    /// Writes `data` at `offset` of the file of inode `ino`, which grows as needed, at time `now`.
    /// Nothing is answered where the disk does not let the write be carried out.
    pub fn try_write_at(&mut self, ino: u64, offset: i64, data: &[u8], now: i64) -> (r: Option<
        Result<u32, FsError>,
    >)
        ensures
            r is Some <==> writable(old(self)@, ino as u32, offset as int, data@),
            r matches Some(result) ==> (final(self)@, result) == file_written(
                old(self)@,
                ino as u32,
                offset as int,
                data@,
                now,
            ),
            final(self).disk_path == old(self).disk_path,
    {
        let mut inode = match try_read_inode(&self.disk, &self.sb, ino as u32) {
            Some(inode) => inode,
            None => {
                return None;
            },
        };
        let write_size: usize = data.len();
        if write_size == 0 {
            return Some(Ok(0));
        }
        let word: u128 = unsigned_word(offset) as u128;
        let required_blocks: u128 = (word + write_size as u128 + 509) % 0x1_0000_0000_0000_0000
            / 510 % 0x1_0000_0000;
        assert(required_blocks == blocks_wanted(offset as int, data@.len() as int)) by {
            reveal(blocks_wanted);
        }
        if required_blocks > MAX_FILE_BLOCKS as u128 {
            return Some(Err(FsError::FileTooBig));
        }
        match grow(&mut self.disk, &mut self.sb, &mut inode, required_blocks as u16) {
            Some(true) => {},
            Some(false) => {
                return Some(Err(FsError::NoSpace));
            },
            None => {
                return None;
            },
        }
        let ghost grown_inode = inode@;
        if !store(&mut self.disk, &inode, file_position(offset), data) {
            return None;
        }
        let new_size: u128 = (word + write_size as u128) % 0x1_0000_0000_0000_0000;
        if new_size > inode.size as u128 {
            inode.size = (new_size % 0x1_0000_0000) as u32;
        }
        inode.mtime = now;
        inode.atime = now;
        assert(inode@ =~= inode_after_write(grown_inode, offset as int, write_size as int, now));
        write_inode(&mut self.disk, &self.sb, &inode);
        Some(Ok(write_size as u32))
    }

    /// Writes `data` at `offset` of the file of inode `ino`, which grows as needed, at time `now`.
    pub fn write_at(&mut self, ino: u64, offset: i64, data: &[u8], now: i64) -> (r: Result<
        u32,
        FsError,
    >)
        requires
            writable(old(self)@, ino as u32, offset as int, data@),
        ensures
            (final(self)@, r) == file_written(old(self)@, ino as u32, offset as int, data@, now),
            final(self).disk_path == old(self).disk_path,
    {
        self.try_write_at(ino, offset, data, now).unwrap()
    }

    /// Writes `data` at `offset` of the file of inode `ino`, which grows as needed. Nothing is
    /// answered where the disk does not let the write be carried out.
    pub fn try_write(&mut self, ino: u64, offset: i64, data: &[u8]) -> (r: Option<
        Result<u32, FsError>,
    >)
        ensures
            r is Some <==> writable(old(self)@, ino as u32, offset as int, data@),
            r matches Some(result) ==> exists|now: i64|
                (final(self)@, result) == #[trigger] file_written(
                    old(self)@,
                    ino as u32,
                    offset as int,
                    data@,
                    now,
                ),
            final(self).disk_path == old(self).disk_path,
    {
        let now: i64 = current_timestamp();
        self.try_write_at(ino, offset, data, now)
    }

    /// Writes `data` at `offset` of the file of inode `ino`, which grows as needed.
    pub fn write(&mut self, ino: u64, offset: i64, data: &[u8]) -> (r: Result<u32, FsError>)
        requires
            writable(old(self)@, ino as u32, offset as int, data@),
        ensures
            exists|now: i64|
                (final(self)@, r) == #[trigger] file_written(
                    old(self)@,
                    ino as u32,
                    offset as int,
                    data@,
                    now,
                ),
            final(self).disk_path == old(self).disk_path,
    {
        self.try_write(ino, offset, data).unwrap()
    }
}

} // verus!
