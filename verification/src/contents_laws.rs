//! Reading and writing in numbers: how many bytes, which ones, and what is refused.

use crate::disk::DiskView;
use crate::file::{
    block_readable, blocks_wanted, bytes_read, file_byte, file_bytes, file_written, group_offsets,
    lemma_small_offset, lemma_small_write, lemma_unsigned, position, read_len, readable, too_big,
    writable,
};
use crate::file_laws::{
    law_write_succeeds, law_write_then_read, lemma_grown, lemma_write_effect,
    lemma_written_pointers,
};
use crate::fs::{FsError, FsView};
use crate::inode::{in_table, InodeView};
use crate::progress::law_sound_file_readable;
use crate::sound::{inode_sound, lemma_table, sound};
use crate::space::counted;
use vstd::prelude::*;

verus! {

broadcast use {crate::inode::lemma_inode_at, group_offsets};

/// Byte `p` of a file is byte `p % 510` of its block `p / 510`, if it has that block.
pub proof fn law_byte_lies_in_its_block(d: DiskView, inode: InodeView, p: int)
    requires
        0 <= p,
    ensures
        file_byte(d, inode, p) == match inode.pointer(d, p / 510) {
            Some(b) => Some(d.block(b as int)[p % 510]),
            None => None,
        },
{
}

/// The bytes from `p` up to `end` are those of the file, one by one; there are as many as that,
/// unless a block is missing behind the last of them.
pub proof fn law_bytes_in_order(d: DiskView, inode: InodeView, p: int, end: int)
    requires
        0 <= p,
    ensures
        ({
            let r = file_bytes(d, inode, p, end);
            &&& r.len() <= end - p || r.len() == 0
            &&& forall|k: int|
                0 <= k < r.len() ==> file_byte(d, inode, p + k) == Some(#[trigger] r[k])
            &&& p + r.len() < end ==> file_byte(d, inode, (p + r.len()) as int) is None
        }),
    decreases end - p,
{
    if p < end && file_byte(d, inode, p) is Some {
        let rest = file_bytes(d, inode, p + 1, end);
        let r = file_bytes(d, inode, p, end);
        law_bytes_in_order(d, inode, p + 1, end);
        assert(r =~= seq![file_byte(d, inode, p)->0] + rest);
        assert forall|k: int| 0 <= k < r.len() implies file_byte(d, inode, p + k) == Some(
            #[trigger] r[k],
        ) by {
            if k > 0 {
                assert(r[k] == rest[k - 1]);
                assert(file_byte(d, inode, p + 1 + (k - 1)) == Some(rest[k - 1]));
            }
        }
    }
}

/// A read of a sound file gives as many bytes as are asked for, or as many as there are up to the
/// end of the file, and each is the byte of the file at its place. From the end of the file on
/// there is nothing to read.
pub proof fn law_read_gives_the_file(fs: FsView, ino: u32, offset: int, size: int, k: int)
    requires
        fs.has_inode(ino),
        inode_sound(fs, fs.inode(ino)),
        0 <= offset,
        0 <= size,
    ensures
        ({
            let inode = fs.inode(ino);
            let r = bytes_read(fs, ino, offset, size);
            &&& readable(fs, ino, offset, size)
            &&& r.len() == if offset >= inode.size {
                0
            } else if size < inode.size - offset {
                size
            } else {
                inode.size - offset
            }
            &&& 0 <= k < r.len() ==> {
                let b = inode.pointer(fs.disk, (offset + k) / 510);
                b is Some && r[k] == fs.disk.block(b->0 as int)[(offset + k) % 510]
            }
        }),
{
    let inode = fs.inode(ino);
    law_sound_file_readable(fs, ino, offset, size);
    let p = position(offset);
    let n = read_len(inode, offset, size);
    if offset < inode.size {
        lemma_small_offset(offset);
        law_bytes_in_order(fs.disk, inode, p, p + n);
        let r = bytes_read(fs, ino, offset, size);
        if r.len() < n {
            let i = (p + r.len()) as int / 510;
            assert(0 <= i < inode.block_count);
            assert(inode.pointer(fs.disk, i) is Some);
        }
        if 0 <= k < r.len() {
            assert(file_byte(fs.disk, inode, p + k) == Some(r[k]));
        }
    }
}

/// Two reads that follow on each other give what one read of both parts gives.
pub proof fn law_reads_join(fs: FsView, ino: u32, offset: int, a: int, b: int)
    requires
        fs.has_inode(ino),
        inode_sound(fs, fs.inode(ino)),
        0 <= offset,
        0 <= a,
        0 <= b,
    ensures
        bytes_read(fs, ino, offset, a + b) == bytes_read(fs, ino, offset, a) + bytes_read(
            fs,
            ino,
            offset + a,
            b,
        ),
{
    let whole = bytes_read(fs, ino, offset, a + b);
    let first = bytes_read(fs, ino, offset, a);
    let second = bytes_read(fs, ino, offset + a, b);
    law_read_gives_the_file(fs, ino, offset, a + b, 0);
    law_read_gives_the_file(fs, ino, offset, a, 0);
    law_read_gives_the_file(fs, ino, offset + a, b, 0);
    assert(whole.len() == (first + second).len());
    assert forall|k: int| 0 <= k < whole.len() implies whole[k] == (first + second)[k] by {
        law_read_gives_the_file(fs, ino, offset, a + b, k);
        if k < first.len() {
            law_read_gives_the_file(fs, ino, offset, a, k);
        } else {
            law_read_gives_the_file(fs, ino, offset + a, b, k - first.len());
        }
    }
    assert(whole =~= first + second);
}

/// A read from any offset gives, for each byte, the one of the block that the lower 32 bits of the
/// offset lead to, and stops where a block is missing. It asks for no more than the lower 32 bits
/// of the distance to the end of the file.
pub proof fn law_read_from_any_offset(fs: FsView, ino: u32, offset: int, size: int, k: int)
    requires
        i64::MIN <= offset <= i64::MAX,
        0 <= size,
    ensures
        ({
            let inode = fs.inode(ino);
            let u = if offset < 0 { offset + 0x1_0000_0000_0000_0000 } else { offset };
            let p = u % 0x1_0000_0000 / 510 * 510 + u % 510;
            let far = (inode.size - offset) % 0x1_0000_0000;
            let n = if offset >= inode.size { 0 } else if size < far { size } else { far };
            let r = bytes_read(fs, ino, offset, size);
            &&& r.len() <= n
            &&& 0 <= k < r.len() ==> file_byte(fs.disk, inode, p + k) == Some(r[k])
            &&& r.len() < n ==> file_byte(fs.disk, inode, (p + r.len()) as int) is None
        }),
{
    let inode = fs.inode(ino);
    reveal(position);
    lemma_unsigned(offset);
    let p = position(offset);
    law_bytes_in_order(fs.disk, inode, p, p + read_len(inode, offset, size));
}

/// A read can be carried out from any offset, if every block that the file names is on the disk;
/// from the end of the file on, if its inode is.
pub proof fn law_read_can_be_carried_out(fs: FsView, ino: u32, offset: int, size: int)
    requires
        fs.has_inode(ino),
        offset >= fs.inode(ino).size || forall|i: int|
            0 <= i ==> {
                &&& fs.inode(ino).pointer_readable(fs.disk, i)
                &&& (#[trigger] fs.inode(ino).pointer(fs.disk, i)) matches Some(b) ==> fs.disk.has(
                    b as int,
                )
            },
    ensures
        readable(fs, ino, offset, size),
{
    let p = position(offset);
    let end = p + read_len(fs.inode(ino), offset, size);
    if p < end {
        assert forall|i: int|
            p / 510 <= i && i * 510 < end implies #[trigger] block_readable(
            fs.disk,
            fs.inode(ino),
            i,
        ) by {
            assert(0 <= i);
            let b = fs.inode(ino).pointer(fs.disk, i);
        }
    }
}

/// A write is refused as too large if and only if it would end behind the largest size of a file,
/// 265 blocks of 510 bytes. Nothing is written then. A write of nothing is none.
///
/// This holds for offsets up to the one whose block number takes more than 32 bits; behind it the
/// number of blocks is cut to 32 bits.
pub proof fn law_write_too_large(fs: FsView, ino: u32, offset: int, data: Seq<u8>, now: i64)
    requires
        0 <= offset,
        offset + data.len() <= 510 * 0xffff_ffff,
    ensures
        file_written(fs, ino, offset, data, now).1 == Err::<u32, FsError>(FsError::FileTooBig)
            <==> data.len() > 0 && offset + data.len() > 135150,
        offset + data.len() > 135150 && data.len() > 0 ==> file_written(
            fs,
            ino,
            offset,
            data,
            now,
        ).0 == fs,
        data.len() == 0 ==> file_written(fs, ino, offset, data, now) == (
            fs,
            Ok::<u32, FsError>(0),
        ),
{
    lemma_small_write(offset, data.len() as int);
}

/// A write at any offset is refused as too large if and only if the blocks up to its end, reckoned
/// in 64 bits and cut to 32, are more than 265.
pub proof fn law_far_write_too_large(fs: FsView, ino: u32, offset: int, data: Seq<u8>, now: i64)
    requires
        i64::MIN <= offset <= i64::MAX,
        data.len() > 0,
    ensures
        ({
            let u = if offset < 0 { offset + 0x1_0000_0000_0000_0000 } else { offset };
            let n = (u + data.len() + 509) % 0x1_0000_0000_0000_0000 / 510 % 0x1_0000_0000;
            &&& file_written(fs, ino, offset, data, now).1 == Err::<u32, FsError>(
                FsError::FileTooBig,
            ) <==> n > 265
            &&& n > 265 ==> file_written(fs, ino, offset, data, now).0 == fs
        }),
{
    reveal(blocks_wanted);
    lemma_unsigned(offset);
    let n = blocks_wanted(offset, data.len() as int);
    assert(too_big(offset, data.len() as int) == (n > 265));
}

/// A write that a file can take succeeds, with all its bytes, if there are enough free blocks: one
/// for each block that the file does not have yet, and one for the indirect block with the
/// eleventh. Otherwise it finds no space. It gets no answer only where all blocks but the indirect
/// one are there.
pub proof fn law_write_answered(fs: FsView, ino: u32, offset: int, data: Seq<u8>, now: i64)
    requires
        sound(fs),
        counted(fs),
        in_table(fs.sb, ino),
        inode_sound(fs, fs.inode(ino)),
        0 <= offset,
        data.len() > 0,
        offset + data.len() <= 135150,
    ensures
        ({
            let n = (offset + data.len() + 509) / 510;
            let count = fs.inode(ino).block_count as int;
            let free = fs.sb.free_blocks as int;
            let need = if n <= count {
                0
            } else if count <= 10 && n > 10 {
                n - count + 1
            } else {
                n - count
            };
            let (after, r) = file_written(fs, ino, offset, data, now);
            &&& writable(fs, ino, offset, data) <==> !(count <= 10 && n > 10 && free == 11 - count)
            &&& writable(fs, ino, offset, data) ==> {
                &&& free >= need <==> r == Ok::<u32, FsError>(data.len() as u32)
                &&& free < need <==> r == Err::<u32, FsError>(FsError::NoSpace)
                &&& free >= need ==> after.sb.free_blocks == free - need
                &&& free < need ==> after.sb.free_blocks == 0
            }
        }),
{
    lemma_small_offset(offset);
    lemma_small_write(offset, data.len() as int);
    lemma_table(fs, fs.inode(ino), ino);
    law_write_succeeds(fs, ino, offset, data, now);
}

/// A write that succeeds changes the inode in its size, if the data goes past the end of the file,
/// its blocks, and the times of the last change and the last access, and in nothing else. Every
/// byte of the data is then in its place in the file, and every byte of the file outside is as it
/// was.
pub proof fn law_write_changes_the_file(
    fs: FsView,
    ino: u32,
    offset: int,
    data: Seq<u8>,
    now: i64,
    q: int,
)
    requires
        sound(fs),
        in_table(fs.sb, ino),
        inode_sound(fs, fs.inode(ino)),
        0 <= offset,
        offset + data.len() <= 135150,
        data.len() > 0,
        writable(fs, ino, offset, data),
        file_written(fs, ino, offset, data, now).1 is Ok,
        0 <= q,
    ensures
        ({
            let old_inode = fs.inode(ino);
            let after = file_written(fs, ino, offset, data, now).0;
            let inode = after.inode(ino);
            let n = (offset + data.len() + 509) / 510;
            &&& inode == (InodeView {
                size: inode.size,
                block_count: inode.block_count,
                direct_blocks: inode.direct_blocks,
                indirect_block: inode.indirect_block,
                mtime: now,
                atime: now,
                ..old_inode
            })
            &&& inode.size == if offset + data.len() > old_inode.size {
                offset + data.len()
            } else {
                old_inode.size as int
            }
            &&& inode.block_count == if n > old_inode.block_count {
                n
            } else {
                old_inode.block_count as int
            }
            &&& offset <= q < offset + data.len() ==> file_byte(after.disk, inode, q) == Some(
                data[q - offset],
            )
            &&& !(offset <= q < offset + data.len()) && q < 510 * old_inode.block_count
                ==> file_byte(after.disk, inode, q) == file_byte(fs.disk, old_inode, q)
            &&& !(offset <= q < offset + data.len()) && 510 * old_inode.block_count <= q < 510
                * inode.block_count ==> file_byte(after.disk, inode, q) == Some(0u8)
        }),
{
    lemma_small_offset(offset);
    lemma_small_write(offset, data.len() as int);
    law_write_then_read(fs, ino, offset, data, now);
    lemma_written_pointers(fs, ino, offset, data, now);
    lemma_grown(fs, fs.inode(ino), blocks_wanted(offset, data.len() as int) as u16);
}

/// A file that is written and then read from the start gives the old bytes before the data, the
/// data, and the old bytes behind it.
pub proof fn law_written_file_reads(
    fs: FsView,
    ino: u32,
    offset: int,
    data: Seq<u8>,
    now: i64,
    k: int,
)
    requires
        sound(fs),
        in_table(fs.sb, ino),
        inode_sound(fs, fs.inode(ino)),
        0 <= offset <= fs.inode(ino).size,
        offset + data.len() <= 135150,
        data.len() > 0,
        writable(fs, ino, offset, data),
        file_written(fs, ino, offset, data, now).1 is Ok,
        0 <= k,
    ensures
        ({
            let after = file_written(fs, ino, offset, data, now).0;
            let before = bytes_read(fs, ino, 0, 135150);
            let r = bytes_read(after, ino, 0, 135150);
            &&& r.len() == if offset + data.len() > before.len() {
                offset + data.len()
            } else {
                before.len() as int
            }
            &&& k < r.len() ==> r[k] == if offset <= k < offset + data.len() {
                data[k - offset]
            } else {
                before[k]
            }
        }),
{
    let after = file_written(fs, ino, offset, data, now).0;
    assert(fs.has_inode(ino));
    assert(after.has_inode(ino) && inode_sound(after, after.inode(ino))) by {
        lemma_write_effect(fs, ino, offset, data, now);
        lemma_table(after, after.inode(ino), ino);
    }
    law_write_changes_the_file(fs, ino, offset, data, now, k);
    lemma_whole_file(fs, ino, k);
    lemma_whole_file(after, ino, k);
}

/// A read of as many bytes as a file can have gives the whole file.
proof fn lemma_whole_file(fs: FsView, ino: u32, k: int)
    requires
        fs.has_inode(ino),
        inode_sound(fs, fs.inode(ino)),
        0 <= k,
    ensures
        ({
            let r = bytes_read(fs, ino, 0, 135150);
            &&& r.len() == fs.inode(ino).size
            &&& k < r.len() ==> k < 510 * fs.inode(ino).block_count && file_byte(
                fs.disk,
                fs.inode(ino),
                k,
            ) == Some(r[k])
        }),
{
    law_read_gives_the_file(fs, ino, 0, 135150, k);
}

} // verus!
