//! How everything lies on the disk, byte by byte.

use crate::bitmap::{bit_of, is_set};
use crate::bytes::{
    i64_at, i64_le, lemma_u32_read, splice, stands_at, u16_at, u16_le, u32_at, u32_le, zeros,
};
use crate::directory::{decoded_entry, new_entry, slot, slot_count, EntryView};
use crate::directory_laws::lemma_entry_round_trip;
use crate::disk::{group_disk, replayed, Command, DiskView};
use crate::fs::FsView;
use crate::inode::{
    in_table, inode_at, inode_block, inode_count, inode_written, lemma_inode_read_back,
    lemma_inode_round_trip, timestamp_of, InodeView,
};
use crate::sound::lemma_superblock_read_back;
use crate::superblock::{
    magic_number, superblock_at, superblock_readable, superblock_written, SuperBlockView,
};
use vstd::prelude::*;
use vstd::utf8::{
    decode_utf8_encode_utf8, encode_utf8, encode_utf8_decode_utf8, encode_utf8_valid_utf8,
    valid_utf8,
};

verus! {

broadcast use crate::inode::lemma_inode_at;

/// Numbers are kept with the least significant byte first, and read back as they were written.
pub proof fn law_numbers_little_endian(x: u16, y: u32, s: Seq<u8>, at: int)
    ensures
        u16_le(x).len() == 2,
        u16_le(x)[0] + 256 * u16_le(x)[1] == x,
        u32_le(y).len() == 4,
        u32_le(y)[0] + 256 * u32_le(y)[1] + 65536 * u32_le(y)[2] + 16777216 * u32_le(y)[3] == y,
        u16_at(s, at) == s[at] + 256 * s[at + 1],
        u32_at(s, at) == s[at] + 256 * s[at + 1] + 65536 * s[at + 2] + 16777216 * s[at + 3],
{
}

/// A signed number of eight bytes is kept as its lower half, then its upper half, in two's
/// complement: a negative one as the unsigned number that lies 2^64 above it.
pub proof fn law_signed_numbers_little_endian(x: i64)
    ensures
        i64_le(x).len() == 8,
        u32_at(i64_le(x), 0) + 0x1_0000_0000 * u32_at(i64_le(x), 4) == if x >= 0 {
            x as int
        } else {
            x + 0x1_0000_0000_0000_0000
        },
{
    let t = i64_le(x);
    let u: u64 = x as u64;
    assert(x >= 0 ==> u == x) by (bit_vector)
        requires
            u == x as u64,
    ;
    assert(x < 0 ==> u == x + 0x1_0000_0000_0000_0000) by (bit_vector)
        requires
            u == x as u64,
    ;
    let lo: u32 = (u % 0x1_0000_0000) as u32;
    let hi: u32 = (u / 0x1_0000_0000) as u32;
    lemma_u32_in_two(t, lo, hi);
    assert(lo + 0x1_0000_0000 * hi == u);
}

proof fn lemma_u32_in_two(t: Seq<u8>, lo: u32, hi: u32)
    requires
        t == u32_le(lo) + u32_le(hi),
    ensures
        u32_at(t, 0) == lo,
        u32_at(t, 4) == hi,
{
    assert(stands_at(t, 0, u32_le(lo)) && stands_at(t, 4, u32_le(hi))) by {
        reveal(stands_at);
    }
    lemma_u32_read(t, 0, lo);
    lemma_u32_read(t, 4, hi);
}

/// Eight bytes are read as the signed number whose two's complement form they are.
pub proof fn law_signed_numbers_read(s: Seq<u8>, at: int)
    ensures
        i64_at(s, at) == if u32_at(s, at + 4) < 0x8000_0000 {
            u32_at(s, at) + 0x1_0000_0000 * u32_at(s, at + 4)
        } else {
            u32_at(s, at) + 0x1_0000_0000 * u32_at(s, at + 4) - 0x1_0000_0000_0000_0000
        },
{
    let a = u32_at(s, at);
    let b = u32_at(s, at + 4);
    let v: u64 = (a + 0x1_0000_0000 * b) as u64;
    let r: i64 = v as i64;
    assert(v < 0x8000_0000_0000_0000 ==> r == v) by (bit_vector)
        requires
            r == v as i64,
    ;
    assert(v >= 0x8000_0000_0000_0000 ==> r == v - 0x1_0000_0000_0000_0000) by (bit_vector)
        requires
            r == v as i64,
    ;
}

/// Bytes put into others take the place of as many, and leave the rest and the length alone.
pub proof fn law_bytes_put(s: Seq<u8>, at: int, t: Seq<u8>, i: int, n: nat)
    requires
        0 <= i < s.len(),
    ensures
        splice(s, at, t).len() == s.len(),
        at <= i < at + t.len() ==> splice(s, at, t)[i] == t[i - at],
        i < at || at + t.len() <= i ==> splice(s, at, t)[i] == s[i],
        zeros(n).len() == n,
        i < n ==> zeros(n)[i] == 0,
{
}

/// Block `b` is the 512 bytes of the disk from byte `512 * b` on, and is there if they all are.
pub proof fn law_block_is_its_bytes(d: DiskView, b: int, k: int)
    requires
        d.has(b),
        0 <= k < 512,
    ensures
        d.block(b).len() == 512,
        d.block(b)[k] == d.image[512 * b + k],
        forall|c: int| #[trigger] d.has(c) <==> 0 <= c && 512 * c + 512 <= d.image.len(),
{
    reveal(DiskView::block);
}

/// Writing a block replaces its bytes and no others. A block behind the end makes the disk just
/// long enough for it, with zeros before it. The write is the next command for the backing file.
pub proof fn law_write_replaces_bytes(d: DiskView, b: int, bytes: Seq<u8>, i: int)
    requires
        0 <= b,
        bytes.len() == 512,
        0 <= i < d.write(b, bytes).image.len(),
    ensures
        d.write(b, bytes).image.len() == if d.image.len() >= 512 * b + 512 {
            d.image.len() as int
        } else {
            512 * b + 512
        },
        d.write(b, bytes).image[i] == if 512 * b <= i < 512 * b + 512 {
            bytes[i - 512 * b]
        } else if i < d.image.len() {
            d.image[i]
        } else {
            0u8
        },
        d.write(b, bytes).log == d.log.push(Command::WriteBlock { block_num: b, bytes }),
{
    reveal(DiskView::write);
}

/// Making a disk a certain number of bytes long keeps the bytes that it has, as far as there is
/// room, and adds zeros. The change is the next command for the backing file.
pub proof fn law_truncate_keeps_bytes(d: DiskView, size: int, i: int)
    requires
        0 <= i < size,
    ensures
        d.truncate(size).image.len() == size,
        d.truncate(size).image[i] == if i < d.image.len() {
            d.image[i]
        } else {
            0u8
        },
        d.truncate(size).log == d.log.push(Command::Truncate { size }),
{
}

/// A backing file on which commands are carried out one after the other goes through the same
/// changes as the disk.
pub proof fn law_commands_replayed(
    d: DiskView,
    log: Seq<Command>,
    b: int,
    bytes: Seq<u8>,
    size: int,
)
    ensures
        replayed(d.image, Seq::empty()) == d.image,
        replayed(d.image, log.push(Command::WriteBlock { block_num: b, bytes })) == (DiskView {
            image: replayed(d.image, log),
            log,
        }).write(b, bytes).image,
        replayed(d.image, log.push(Command::Truncate { size })) == (DiskView {
            image: replayed(d.image, log),
            log,
        }).truncate(size).image,
{
    reveal(DiskView::write);
    assert(log.push(Command::WriteBlock { block_num: b, bytes }).drop_last() =~= log);
    assert(log.push(Command::Truncate { size }).drop_last() =~= log);
}

/// The superblock stands at the front of block 0: a magic number of sixteen bytes, then seven
/// numbers of four.
pub proof fn law_superblock_layout(d: DiskView)
    requires
        d.has(0),
    ensures
        ({
            let sb = superblock_at(d);
            &&& sb.magic == d.image.subrange(0, 16)
            &&& sb.total_blocks == u32_at(d.image, 16)
            &&& sb.free_blocks == u32_at(d.image, 20)
            &&& sb.bitmap_blocks == u32_at(d.image, 24)
            &&& sb.inode_table_start == u32_at(d.image, 28)
            &&& sb.inode_table_blocks == u32_at(d.image, 32)
            &&& sb.data_start == u32_at(d.image, 36)
            &&& sb.root_inode == u32_at(d.image, 40)
        }),
{
    reveal(superblock_at);
    reveal(DiskView::block);
    assert(d.block(0) =~= d.image.subrange(0, 512));
    assert(d.block(0).subrange(0, 16) =~= d.image.subrange(0, 16));
}

/// A superblock written to the disk is the one read, and takes block 0 alone, which holds zeros
/// behind it.
pub proof fn law_superblock_read_back(d: DiskView, sb: SuperBlockView, c: int, k: int)
    requires
        sb.magic.len() == 16,
        d.has(0),
        d.has(c),
        c != 0,
        44 <= k < 512,
    ensures
        superblock_at(superblock_written(d, sb)) == sb,
        superblock_written(d, sb).block(0)[k] == 0,
        superblock_written(d, sb).block(c) == d.block(c),
        superblock_written(d, sb).image.len() == d.image.len(),
{
    broadcast use group_disk;

    lemma_superblock_read_back(d, sb);
    assert(superblock_written(d, sb).block(0)[k] == 0) by {
        assert(sb.encoded().len() == 44);
    }
    reveal(DiskView::write);
}

/// A disk is one of this file system if its first block begins with `SIMPLEFS-RUST`.
pub proof fn law_superblock_told_by_magic(d: DiskView)
    ensures
        superblock_readable(d) <==> d.image.len() >= 512 && d.image.subrange(0, 13) == seq![
            83u8, 73, 77, 80, 76, 69, 70, 83, 45, 82, 85, 83, 84,
        ],
{
    if d.has(0) {
        law_superblock_layout(d);
        assert(superblock_at(d).magic.subrange(0, 13) =~= d.image.subrange(0, 13));
    }
    assert(magic_number().subrange(0, 13) =~= seq![
        83u8, 73, 77, 80, 76, 69, 70, 83, 45, 82, 85, 83, 84,
    ]);
}

/// Bit `n % 8` of byte `n / 8` of the bitmap, which begins with block 1, is set if and only if
/// block `n` is marked as allocated.
pub proof fn law_bitmap_layout(d: DiskView, n: int)
    requires
        0 <= n,
        d.has(1 + n / 4096),
    ensures
        is_set(d, n) <==> d.image[512 + n / 8] & (1u8 << ((n % 8) as u8)) != 0,
{
    reveal(is_set);
    reveal(bit_of);
    reveal(DiskView::block);
    assert(512 * (1 + n / 4096) + n / 8 % 512 == 512 + n / 8);
}

/// Inode `n` takes 84 bytes of block `n / 6` of the inode table: four numbers of two bytes, with
/// the size between them, three times of eight bytes, ten block numbers, and the number of the
/// indirect block.
pub proof fn law_inode_layout(fs: FsView, n: u32, i: int)
    requires
        fs.has_inode(n),
        0 <= i < 10,
    ensures
        ({
            let b = fs.disk.block(fs.sb.inode_table_start + n as int / 6);
            let at = 84 * (n as int % 6);
            let inode = fs.inode(n);
            &&& inode.inode_no == n
            &&& inode.mode == u16_at(b, at)
            &&& inode.uid == u16_at(b, at + 2)
            &&& inode.gid == u16_at(b, at + 4)
            &&& inode.size == u32_at(b, at + 6)
            &&& inode.nlink == u16_at(b, at + 10)
            &&& inode.block_count == u16_at(b, at + 12)
            &&& inode.mtime == i64_at(b, at + 14)
            &&& inode.atime == i64_at(b, at + 22)
            &&& inode.ctime == i64_at(b, at + 30)
            &&& inode.direct_blocks.len() == 10
            &&& inode.direct_blocks[i] == u32_at(b, at + 38 + 4 * i)
            &&& inode.indirect_block == u32_at(b, at + 78)
        }),
{
    broadcast use group_disk;

    reveal(inode_at);
    let b = fs.disk.block(fs.sb.inode_table_start + n as int / 6);
    let at = 84 * (n as int % 6);
    let s = b.subrange(at, at + 84);
    assert(fs.disk.has(inode_block(fs.sb, n)));
    assert forall|k: int| 0 <= k < 84 implies #[trigger] s[k] == b[at + k] by {}
}

/// An inode written to the disk is the one read, under its number; no other inode changes, nor any
/// byte of the disk but the 84 of the inode.
pub proof fn law_inode_read_back(fs: FsView, inode: InodeView, other: u32, c: int, k: int)
    requires
        inode.well_formed(),
        fs.has_inode(inode.inode_no),
        fs.has_inode(other),
        other != inode.inode_no,
        fs.disk.has(c),
        0 <= k < 512,
    ensures
        ({
            let b = fs.sb.inode_table_start + inode.inode_no as int / 6;
            let at = 84 * (inode.inode_no as int % 6);
            let after = FsView { disk: inode_written(fs.disk, fs.sb, inode), sb: fs.sb };
            &&& after.inode(inode.inode_no) == inode
            &&& after.inode(other) == fs.inode(other)
            &&& c != b || k < at || at + 84 <= k ==> after.disk.block(c)[k] == fs.disk.block(c)[k]
        }),
{
    broadcast use group_disk;

    lemma_inode_round_trip(inode);
    lemma_inode_read_back(fs.disk, fs.sb, inode, inode.inode_no);
    lemma_inode_read_back(fs.disk, fs.sb, inode, other);
}

/// An inode is on the disk if its block has a number and lies wholly on the disk.
pub proof fn law_inode_is_on_disk(fs: FsView, n: u32)
    ensures
        fs.has_inode(n) <==> {
            let b = fs.sb.inode_table_start + n as int / 6;
            b <= 0xffff_ffff && 512 * b + 512 <= fs.disk.image.len()
        },
{
}

/// An inode number belongs to the inode table if one of the blocks of the table, with six inodes
/// each, has a place for it; there are as many as that, but no more than a number of four bytes can
/// tell apart.
pub proof fn law_table_holds_six_to_a_block(sb: SuperBlockView, n: u32)
    ensures
        in_table(sb, n) <==> n < 6 * sb.inode_table_blocks,
        inode_count(sb) == if 6 * sb.inode_table_blocks < 0x1_0000_0000 {
            6 * sb.inode_table_blocks
        } else {
            0x1_0000_0000
        },
{
}

/// The first ten blocks of a file are those that its inode names; the next 255 are named by its
/// indirect block, two bytes each. A block numbered 0 is none, and a file has no block past these.
pub proof fn law_block_index_layout(inode: InodeView, d: DiskView, i: int)
    requires
        0 <= i,
    ensures
        i < 10 ==> inode.pointer(d, i) == if inode.direct_blocks[i] == 0 {
            None
        } else {
            Some(inode.direct_blocks[i])
        },
        10 <= i < 265 && inode.indirect_block != 0 ==> {
            let b = u16_at(d.block(inode.indirect_block as int), 2 * (i - 10));
            inode.pointer(d, i) == if b == 0 {
                None
            } else {
                Some(b as u32)
            }
        },
        10 <= i && inode.indirect_block == 0 ==> inode.pointer(d, i) is None,
        265 <= i ==> inode.pointer(d, i) is None,
        inode.pointer_readable(d, i) <==> (i < 10 || inode.indirect_block == 0 || d.has(
            inode.indirect_block as int,
        )),
{
}

/// Place `s` of a directory is the 34 bytes of its block `s / 15` from byte `34 * (s % 15)` on: the
/// inode number, one byte that tells directories, the length of the name, and the name.
pub proof fn law_entry_layout(d: DiskView, dir: InodeView, s: int)
    requires
        0 <= s,
        dir.pointer(d, s / 15) is Some,
        d.has(dir.pointer(d, s / 15)->0 as int),
    ensures
        ({
            let b = d.block(dir.pointer(d, s / 15)->0 as int);
            let at = 34 * (s % 15);
            let x = slot(d, dir, s)->0;
            &&& slot(d, dir, s) is Some
            &&& x.block == dir.pointer(d, s / 15)->0
            &&& x.offset == at
            &&& x.entry.inode == u32_at(b, at)
            &&& x.entry.entry_type == b[at + 4]
            &&& x.entry.name_len == b[at + 5]
            &&& x.entry.name == b.subrange(at + 6, at + 34)
        }),
        slot_count(dir) == 15 * dir.block_count,
{
    broadcast use group_disk;

    let b = d.block(dir.pointer(d, s / 15)->0 as int);
    let at = 34 * (s % 15);
    let e = b.subrange(at, at + 34);
    assert(e.subrange(6, 34) =~= b.subrange(at + 6, at + 34));
    assert forall|k: int| 0 <= k < 34 implies #[trigger] e[k] == b[at + k] by {}
}

/// Where a block of a directory is missing, its places hold nothing.
pub proof fn law_no_entry_without_block(d: DiskView, dir: InodeView, s: int)
    requires
        dir.pointer(d, s / 15) is None,
    ensures
        slot(d, dir, s) is None,
{
}

/// An entry is written as it lies on the disk, and read as it was written.
pub proof fn law_entry_read_back(e: EntryView)
    requires
        e.name.len() == 28,
    ensures
        e.encoded().len() == 34,
        u32_at(e.encoded(), 0) == e.inode,
        e.encoded()[4] == e.entry_type,
        e.encoded()[5] == e.name_len,
        e.encoded().subrange(6, 34) == e.name,
        decoded_entry(e.encoded()) == e,
{
    lemma_entry_round_trip(e);
    assert(e.encoded().subrange(6, 34) =~= e.name);
}

/// A new entry carries the inode number and the kind that it is given, and the bytes of the name,
/// as many as there is room for, then zeros. An entry is free if its name has no bytes.
pub proof fn law_new_entry(inode: u32, name: Seq<char>, is_dir: bool, k: int)
    requires
        0 <= k < 28,
    ensures
        ({
            let bytes = encode_utf8(name);
            let e = new_entry(inode, name, is_dir);
            &&& e.inode == inode
            &&& e.entry_type == if is_dir {
                2u8
            } else {
                1u8
            }
            &&& e.name.len() == 28
            &&& e.name_len == if bytes.len() < 28 {
                bytes.len() as int
            } else {
                28
            }
            &&& e.name[k] == if k < bytes.len() {
                bytes[k]
            } else {
                0u8
            }
            &&& e.is_empty() <==> bytes.len() == 0
        }),
{
}

/// The name of an entry is the text whose bytes it holds. Bytes that are no text show as three
/// question marks.
pub proof fn law_name_is_its_bytes(e: EntryView, name: Seq<char>)
    requires
        e.name.len() == 28,
        e.name_len <= 28,
    ensures
        e.is_empty() <==> e.name_len == 0,
        e.name_bytes() == e.name.subrange(0, e.name_len as int),
        valid_utf8(e.name_bytes()) ==> encode_utf8(e.text()) == e.name_bytes(),
        !valid_utf8(e.name_bytes()) ==> e.text() == "???"@,
        e.is_named(name) <==> e.name_len != 0 && e.text() == name,
        e.is_named(name) && valid_utf8(e.name_bytes()) ==> encode_utf8(name) == e.name_bytes(),
        e.name_len != 0 && encode_utf8(name) == e.name_bytes() ==> e.is_named(name),
{
    encode_utf8_valid_utf8(name);
    encode_utf8_decode_utf8(name);
    if valid_utf8(e.name_bytes()) {
        decode_utf8_encode_utf8(e.name_bytes());
    }
}

/// A time stamp is what the clock reads, in seconds; a clock that stands before 1970 reads 0.
pub proof fn law_time_is_the_reading(secs: u64)
    requires
        secs <= i64::MAX,
    ensures
        timestamp_of(Some(secs)) == secs,
        timestamp_of(None) == 0,
{
}

} // verus!
