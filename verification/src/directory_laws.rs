//! What looking into a directory shows of the entries that were added and removed.

use crate::bitmap::{allocated, is_set};
use crate::bytes::{lemma_u32_read, splice, stands_at, u32_le};
use crate::directory::{
    block_of_entry, decoded_entry, dir_extended, entries, entries_upto, entry_added, entry_named,
    entry_removed, free_place, names_fit, new_entry, place_of, slot, slot_count, slot_is_free,
    slot_is_named, DirOutcome, EntryView, Slot, DIR_ENTRY_SIZE, ENTRIES_PER_BLOCK, MAX_NAME_LEN,
};
use crate::disk::{group_disk, DiskView, BLOCK_SIZE};
use crate::fs::FsView;
use crate::inode::{
    in_table, inode_at, inode_block, inode_offset, inode_written, lemma_inode_read_back,
    lemma_inode_round_trip, lemma_inode_same_block, InodeView, DIRECT_BLOCKS,
};
use crate::search::{first_from, lemma_first_from, lemma_first_is};
use crate::sound::{
    after_allocation, apart, inode_sound, lemma_allocation_keeps_sound, lemma_table,
    lemma_write_keeps_inode, lemma_write_keeps_sound, next_block, owned, sound, with_write,
};
use crate::space::{
    counted, law_allocation_succeeds, lemma_free_count_same, lemma_write_keeps_count, recorded,
};
use crate::superblock::BITS_PER_BLOCK;
use vstd::prelude::*;
use vstd::utf8::{encode_utf8, encode_utf8_decode_utf8, encode_utf8_valid_utf8};

verus! {

broadcast use crate::inode::lemma_inode_at;

/// The blocks of directory `dir` are sound, it needs no indirect block, and no entry claims a name
/// longer than an entry can hold.
pub open spec fn dir_sound(fs: FsView, dir: InodeView) -> bool {
    &&& inode_sound(fs, dir)
    &&& dir.block_count <= DIRECT_BLOCKS
    &&& names_fit(fs.disk, dir)
}

/// `name` can be kept whole in an entry.
pub open spec fn name_fits(name: Seq<char>) -> bool {
    1 <= encode_utf8(name).len() <= MAX_NAME_LEN
}

/// The entry at place `s`, if it is in use.
pub open spec fn in_use(d: DiskView, dir: InodeView, s: int) -> Option<Slot> {
    match slot(d, dir, s) {
        Some(x) => if x.entry.is_empty() {
            None
        } else {
            Some(x)
        },
        None => None,
    }
}

/// No two entries of directory `dir` have the same name.
pub open spec fn names_unique(d: DiskView, dir: InodeView) -> bool {
    forall|s: int, t: int|
        #![trigger in_use(d, dir, s), in_use(d, dir, t)]
        0 <= s < t < slot_count(dir) && in_use(d, dir, s) is Some && in_use(d, dir, t) is Some
            ==> in_use(d, dir, s)->0.entry.text() != in_use(d, dir, t)->0.entry.text()
}

/// Directory `dir2` on disk `d2` holds what `dir1` on `d1` does but for place `s0`, which holds
/// `x`; further places that `dir2` has are free.
pub open spec fn differs_at(
    d1: DiskView,
    dir1: InodeView,
    d2: DiskView,
    dir2: InodeView,
    s0: int,
    x: Slot,
) -> bool {
    &&& 0 <= s0 <= slot_count(dir1) <= slot_count(dir2)
    &&& s0 < slot_count(dir2)
    &&& slot(d2, dir2, s0) == Some(x)
    &&& forall|s: int|
        0 <= s < slot_count(dir1) && s != s0 ==> #[trigger] slot(d2, dir2, s) == slot(d1, dir1, s)
    &&& forall|s: int|
        slot_count(dir1) <= s < slot_count(dir2) && s != s0 ==> #[trigger] slot_is_free(d2, dir2, s)
}

/// Two conditions that agree on a range are first met at the same place.
pub proof fn lemma_first_same(
    lo: int,
    hi1: int,
    hi2: int,
    p: spec_fn(int) -> bool,
    q: spec_fn(int) -> bool,
)
    requires
        hi1 <= hi2,
        forall|m: int| lo <= m < hi1 ==> #[trigger] p(m) == q(m),
        forall|m: int| lo <= m && hi1 <= m < hi2 ==> !#[trigger] q(m),
    ensures
        first_from(lo, hi1, p) == first_from(lo, hi2, q),
{
    lemma_first_from(lo, hi1, p);
    lemma_first_from(lo, hi2, q);
    match first_from(lo, hi1, p) {
        Some(n) => {
            assert(q(n));
            assert forall|m: int| lo <= m < n implies !#[trigger] q(m) by {
                assert(p(m) == q(m));
            }
            lemma_first_is(lo, hi2, q, n);
        },
        None => {
            if first_from(lo, hi2, q) is Some {
                let n = first_from(lo, hi2, q)->0;
                assert(q(n));
                assert(p(n) == q(n));
            }
        },
    }
}

/// A name that neither the entry that a place has lost nor the one that it has got carries is found
/// where it was found before.
proof fn lemma_other_name_found(
    d1: DiskView,
    dir1: InodeView,
    d2: DiskView,
    dir2: InodeView,
    s0: int,
    x: Slot,
    name: Seq<char>,
)
    requires
        differs_at(d1, dir1, d2, dir2, s0, x),
        s0 < slot_count(dir1) ==> !slot_is_named(d1, dir1, name, s0),
        !x.entry.is_named(name),
    ensures
        entry_named(d2, dir2, name) == entry_named(d1, dir1, name),
{
    let p = |s: int| slot_is_named(d1, dir1, name, s);
    let q = |s: int| slot_is_named(d2, dir2, name, s);
    assert forall|s: int| 0 <= s < slot_count(dir1) implies #[trigger] p(s) == q(s) by {
        if s != s0 {
            assert(slot(d2, dir2, s) == slot(d1, dir1, s));
        }
    }
    assert forall|s: int| slot_count(dir1) <= s < slot_count(dir2) implies !#[trigger] q(s) by {
        if s != s0 {
            assert(slot_is_free(d2, dir2, s));
        }
    }
    lemma_first_same(0, slot_count(dir1), slot_count(dir2), p, q);
    lemma_first_from(0, slot_count(dir1), p);
    if place_of(d1, dir1, name) is Some {
        let s = place_of(d1, dir1, name)->0;
        assert(p(s));
        assert(s != s0);
        assert(slot(d2, dir2, s) == slot(d1, dir1, s));
    }
}

/// The entry put into a place is the one found by its name, if there was none of that name.
proof fn lemma_new_name_found(
    d1: DiskView,
    dir1: InodeView,
    d2: DiskView,
    dir2: InodeView,
    s0: int,
    x: Slot,
    name: Seq<char>,
)
    requires
        differs_at(d1, dir1, d2, dir2, s0, x),
        entry_named(d1, dir1, name) is None,
        x.entry.is_named(name),
    ensures
        place_of(d2, dir2, name) == Some(s0),
        entry_named(d2, dir2, name) == Some(x),
        forall|s: int|
            0 <= s < slot_count(dir2) && s != s0 ==> !#[trigger] slot_is_named(d2, dir2, name, s),
{
    let p = |s: int| slot_is_named(d1, dir1, name, s);
    let q = |s: int| slot_is_named(d2, dir2, name, s);
    lemma_first_from(0, slot_count(dir1), p);
    if place_of(d1, dir1, name) is Some {
        assert(p(place_of(d1, dir1, name)->0));
    }
    assert forall|s: int| 0 <= s < slot_count(dir2) && s != s0 implies !#[trigger] slot_is_named(
        d2,
        dir2,
        name,
        s,
    ) by {
        if s < slot_count(dir1) {
            assert(!p(s));
            assert(slot(d2, dir2, s) == slot(d1, dir1, s));
        } else {
            assert(slot_is_free(d2, dir2, s));
        }
    }
    assert(q(s0));
    lemma_first_is(0, slot_count(dir2), q, s0);
}

/// The entry of a name that occurs once is not found any more after its place has been freed.
proof fn lemma_removed_name_not_found(
    d1: DiskView,
    dir1: InodeView,
    d2: DiskView,
    dir2: InodeView,
    s0: int,
    x: Slot,
    name: Seq<char>,
)
    requires
        differs_at(d1, dir1, d2, dir2, s0, x),
        forall|s: int|
            0 <= s < slot_count(dir1) && s != s0 ==> !#[trigger] slot_is_named(d1, dir1, name, s),
        x.entry.is_empty(),
    ensures
        entry_named(d2, dir2, name) is None,
{
    let q = |s: int| slot_is_named(d2, dir2, name, s);
    lemma_first_from(0, slot_count(dir2), q);
    if place_of(d2, dir2, name) is Some {
        let s = place_of(d2, dir2, name)->0;
        assert(q(s));
        if s >= slot_count(dir1) {
            assert(slot_is_free(d2, dir2, s));
        } else {
            assert(!slot_is_named(d1, dir1, name, s));
            assert(slot(d2, dir2, s) == slot(d1, dir1, s));
        }
    }
}

/// Names stay unique when a place is freed, or gets an entry of a name that there was not.
proof fn lemma_names_stay_unique(
    d1: DiskView,
    dir1: InodeView,
    d2: DiskView,
    dir2: InodeView,
    s0: int,
    x: Slot,
)
    requires
        differs_at(d1, dir1, d2, dir2, s0, x),
        names_unique(d1, dir1),
        x.entry.is_empty() || entry_named(d1, dir1, x.entry.text()) is None,
    ensures
        names_unique(d2, dir2),
{
    let p = |s: int| slot_is_named(d1, dir1, x.entry.text(), s);
    lemma_first_from(0, slot_count(dir1), p);
    if !x.entry.is_empty() && place_of(d1, dir1, x.entry.text()) is Some {
        assert(p(place_of(d1, dir1, x.entry.text())->0));
    }
    assert forall|s: int|
        0 <= s < slot_count(dir2) && s != s0 && #[trigger] in_use(d2, dir2, s) is Some implies s
        < slot_count(dir1) && in_use(d1, dir1, s) == in_use(d2, dir2, s) && (x.entry.is_empty()
        || in_use(d2, dir2, s)->0.entry.text() != x.entry.text()) by {
        if s >= slot_count(dir1) {
            assert(slot_is_free(d2, dir2, s));
        } else {
            assert(slot(d2, dir2, s) == slot(d1, dir1, s));
            if !x.entry.is_empty() {
                assert(!p(s));
            }
        }
    }
    assert forall|s: int, t: int|
        #![trigger in_use(d2, dir2, s), in_use(d2, dir2, t)]
        0 <= s < t < slot_count(dir2) && in_use(d2, dir2, s) is Some && in_use(d2, dir2, t)
            is Some implies in_use(d2, dir2, s)->0.entry.text() != in_use(
        d2,
        dir2,
        t,
    )->0.entry.text() by {
        if s != s0 && t != s0 {
            assert(in_use(d1, dir1, s) == in_use(d2, dir2, s));
            assert(in_use(d1, dir1, t) == in_use(d2, dir2, t));
        }
    }
}

/// Two directories whose places hold the same entries list the same.
pub proof fn lemma_same_entries_upto(
    d1: DiskView,
    dir1: InodeView,
    d2: DiskView,
    dir2: InodeView,
    n: int,
)
    requires
        forall|s: int| 0 <= s < n ==> #[trigger] in_use(d1, dir1, s) == in_use(d2, dir2, s),
    ensures
        entries_upto(d1, dir1, n) == entries_upto(d2, dir2, n),
    decreases n,
{
    if n > 0 {
        lemma_same_entries_upto(d1, dir1, d2, dir2, n - 1);
        assert(in_use(d1, dir1, n - 1) == in_use(d2, dir2, n - 1));
    }
}

/// Free places at the end of a directory list nothing.
pub proof fn lemma_free_places_list_nothing(d: DiskView, dir: InodeView, n: int, m: int)
    requires
        n <= m,
        forall|s: int| n <= s < m ==> #[trigger] in_use(d, dir, s) is None,
    ensures
        entries_upto(d, dir, m) == entries_upto(d, dir, n),
    decreases m - n,
{
    if n < m && m > 0 {
        lemma_free_places_list_nothing(d, dir, n, m - 1);
        assert(in_use(d, dir, m - 1) is None);
    }
}

/// A place that was free and gets an entry has it listed between what was listed before it and
/// after it.
proof fn lemma_entry_inserted(
    d1: DiskView,
    dir1: InodeView,
    d2: DiskView,
    dir2: InodeView,
    s0: int,
    x: Slot,
    n: int,
)
    requires
        0 <= s0 < n,
        in_use(d1, dir1, s0) is None,
        in_use(d2, dir2, s0) == Some(x),
        forall|s: int|
            0 <= s < n && s != s0 ==> #[trigger] in_use(d2, dir2, s) == in_use(d1, dir1, s),
    ensures
        entries_upto(d1, dir1, s0).len() <= entries_upto(d1, dir1, n).len(),
        entries_upto(d2, dir2, n) == entries_upto(d1, dir1, n).insert(
            entries_upto(d1, dir1, s0).len() as int,
            x,
        ),
    decreases n,
{
    let k = entries_upto(d1, dir1, s0).len() as int;
    if n == s0 + 1 {
        lemma_same_entries_upto(d1, dir1, d2, dir2, s0);
        assert(entries_upto(d2, dir2, n) =~= entries_upto(d1, dir1, n).insert(k, x));
    } else {
        lemma_entry_inserted(d1, dir1, d2, dir2, s0, x, n - 1);
        assert(in_use(d2, dir2, n - 1) == in_use(d1, dir1, n - 1));
        assert(entries_upto(d2, dir2, n) =~= entries_upto(d1, dir1, n).insert(k, x));
    }
}

/// An entry read from its encoding is the entry encoded.
pub proof fn lemma_entry_round_trip(e: EntryView)
    requires
        e.name.len() == MAX_NAME_LEN,
    ensures
        e.encoded().len() == DIR_ENTRY_SIZE,
        decoded_entry(e.encoded()) == e,
{
    let s = e.encoded();
    assert(stands_at(s, 0, u32_le(e.inode))) by {
        reveal(stands_at);
    }
    lemma_u32_read(s, 0, e.inode);
    assert(decoded_entry(s) =~= e);
}

/// A new entry carries its name, if the name fits.
pub proof fn lemma_new_entry(inode: u32, name: Seq<char>, is_dir: bool)
    ensures
        new_entry(inode, name, is_dir).name.len() == MAX_NAME_LEN,
        new_entry(inode, name, is_dir).name_len <= MAX_NAME_LEN,
        name_fits(name) ==> new_entry(inode, name, is_dir).is_named(name),
{
    let e = new_entry(inode, name, is_dir);
    if name_fits(name) {
        assert(e.name_bytes() =~= encode_utf8(name));
        encode_utf8_valid_utf8(name);
        encode_utf8_decode_utf8(name);
    }
}

/// The places of a directory whose blocks have not changed hold what they held.
pub proof fn lemma_slots_kept(d1: DiskView, dir1: InodeView, d2: DiskView, dir2: InodeView)
    requires
        dir1.block_count <= DIRECT_BLOCKS,
        dir2.block_count == dir1.block_count,
        dir2.direct_blocks == dir1.direct_blocks,
        forall|i: int|
            0 <= i < dir1.block_count && (#[trigger] dir1.pointer(d1, i)) is Some ==> d2.block(
                dir1.pointer(d1, i)->0 as int,
            ) == d1.block(dir1.pointer(d1, i)->0 as int),
    ensures
        forall|s: int|
            0 <= s < slot_count(dir1) ==> #[trigger] slot(d2, dir2, s) == slot(d1, dir1, s),
{
    assert forall|s: int| 0 <= s < slot_count(dir1) implies #[trigger] slot(d2, dir2, s) == slot(
        d1,
        dir1,
        s,
    ) by {
        let i = s / (ENTRIES_PER_BLOCK as int);
        assert(0 <= i < dir1.block_count);
        assert(dir2.pointer(d2, i) == dir1.pointer(d1, i));
    }
}

/// Rewriting the bytes of one place of a directory changes that place alone.
proof fn lemma_place_rewritten(fs: FsView, dir: InodeView, s0: int, bytes: Seq<u8>)
    requires
        dir_sound(fs, dir),
        0 <= s0 < slot_count(dir),
        bytes.len() == BLOCK_SIZE,
        ({
            let x = slot(fs.disk, dir, s0)->0;
            let old_block = fs.disk.block(x.block as int);
            forall|k: int|
                0 <= k < BLOCK_SIZE && !(x.offset <= k < x.offset + DIR_ENTRY_SIZE)
                    ==> #[trigger] bytes[k] == old_block[k]
        }),
    ensures
        ({
            let x = slot(fs.disk, dir, s0)->0;
            &&& slot(fs.disk, dir, s0) is Some
            &&& owned(fs, x.block as int)
            &&& !apart(fs, dir, x.block as int)
            &&& 0 <= x.offset <= 14 * DIR_ENTRY_SIZE
            &&& differs_at(
                fs.disk,
                dir,
                with_write(fs, x.block as int, bytes).disk,
                dir,
                s0,
                Slot {
                    entry: decoded_entry(bytes.subrange(x.offset, x.offset + DIR_ENTRY_SIZE)),
                    block: x.block,
                    offset: x.offset,
                },
            )
        }),
{
    broadcast use group_disk;

    let i0 = s0 / (ENTRIES_PER_BLOCK as int);
    assert(0 <= i0 < dir.block_count);
    assert(dir.pointer(fs.disk, i0) is Some);
    let x = slot(fs.disk, dir, s0)->0;
    let b = x.block as int;
    assert(owned(fs, b));
    assert(!apart(fs, dir, b)) by {
        assert(dir.pointer(fs.disk, i0) == Some(x.block));
    }
    let after = with_write(fs, b, bytes).disk;
    let o0 = x.offset;
    assert(after.block(b) == bytes);
    assert forall|s: int| 0 <= s < slot_count(dir) && s != s0 implies #[trigger] slot(after, dir, s)
        == slot(fs.disk, dir, s) by {
        let i = s / (ENTRIES_PER_BLOCK as int);
        let o = s % (ENTRIES_PER_BLOCK as int) * DIR_ENTRY_SIZE;
        assert(0 <= i < dir.block_count);
        assert(dir.pointer(after, i) == dir.pointer(fs.disk, i));
        let c = dir.pointer(fs.disk, i)->0 as int;
        assert(owned(fs, c));
        if i == i0 {
            assert(s % (ENTRIES_PER_BLOCK as int) != s0 % (ENTRIES_PER_BLOCK as int));
            assert(bytes.subrange(o, o + DIR_ENTRY_SIZE) =~= fs.disk.block(c).subrange(
                o,
                o + DIR_ENTRY_SIZE,
            ));
        } else {
            assert(dir.pointer(fs.disk, i) != dir.pointer(fs.disk, i0));
            assert(after.block(c) == fs.disk.block(c));
        }
    }
}

/// Directory `dir` of `fs` has become `dir2` of `after`: everything is still sound, only place `s0`
/// holds something else, and no block has changed but those of the directory and the one that
/// holds its inode.
pub open spec fn dir_changed(
    fs: FsView,
    dir: InodeView,
    after: FsView,
    dir2: InodeView,
    s0: int,
    x: Slot,
) -> bool {
    &&& sound(after)
    &&& dir_sound(after, dir2)
    &&& counted(fs) ==> counted(after)
    &&& after.sb == fs.sb.with_free(after.sb.free_blocks as int)
    &&& dir2 == (InodeView {
        mtime: dir2.mtime,
        size: dir2.size,
        block_count: dir2.block_count,
        direct_blocks: dir2.direct_blocks,
        ..dir
    })
    &&& after.inode(dir.inode_no) == dir2
    &&& dir.block_count <= dir2.block_count
    &&& differs_at(fs.disk, dir, after.disk, dir2, s0, x)
    &&& forall|i: int|
        0 <= i < dir.block_count ==> #[trigger] dir2.pointer(after.disk, i) == dir.pointer(
            fs.disk,
            i,
        )
    &&& forall|i: int|
        dir.block_count <= i < dir2.block_count ==> !is_set(
            fs.disk,
            (#[trigger] dir2.pointer(after.disk, i))->0 as int,
        )
    &&& forall|c: int| fs.disk.has(c) ==> #[trigger] after.disk.has(c)
    &&& forall|c: int| owned(fs, c) ==> #[trigger] owned(after, c)
    &&& forall|c: int|
        0 <= c < fs.sb.bitmap_blocks * BITS_PER_BLOCK && #[trigger] is_set(after.disk, c)
            ==> is_set(fs.disk, c) || !apart(after, dir2, c)
    &&& forall|c: int|
        fs.sb.bitmap_blocks < c <= u32::MAX && fs.disk.has(c) && apart(after, dir2, c) && c
            != inode_block(fs.sb, dir.inode_no) ==> #[trigger] after.disk.block(c)
            == fs.disk.block(c)
    &&& forall|n: u32|
        n != dir.inode_no && in_table(fs.sb, n) ==> #[trigger] after.inode(n) == fs.inode(n)
}

/// Writing one inode leaves another as it is, if the block that holds it has not changed before.
pub proof fn lemma_other_inode_kept(fs: FsView, mid: FsView, inode: InodeView, n: u32)
    requires
        inode.well_formed(),
        mid.sb.inode_table_start == fs.sb.inode_table_start,
        mid.has_inode(inode.inode_no),
        mid.has_inode(n),
        n != inode.inode_no,
        mid.disk.block(inode_block(fs.sb, n)) == fs.disk.block(inode_block(fs.sb, n)),
    ensures
        inode_at(inode_written(mid.disk, mid.sb, inode), mid.sb, n) == fs.inode(n),
{
    lemma_inode_same_block(fs.disk, fs.sb, mid.disk, mid.sb, n);
    lemma_inode_read_back(mid.disk, mid.sb, inode, n);
}

/// Rewriting one place of a directory and then its inode changes that place alone.
proof fn lemma_place_changed(fs: FsView, dir: InodeView, s0: int, bytes: Seq<u8>, now: i64)
    requires
        sound(fs),
        dir_sound(fs, dir),
        in_table(fs.sb, dir.inode_no),
        0 <= s0 < slot_count(dir),
        bytes.len() == BLOCK_SIZE,
        ({
            let x = slot(fs.disk, dir, s0)->0;
            let old_block = fs.disk.block(x.block as int);
            &&& forall|k: int|
                0 <= k < BLOCK_SIZE && !(x.offset <= k < x.offset + DIR_ENTRY_SIZE)
                    ==> #[trigger] bytes[k] == old_block[k]
            &&& decoded_entry(bytes.subrange(x.offset, x.offset + DIR_ENTRY_SIZE)).name_len
                <= MAX_NAME_LEN
        }),
    ensures
        ({
            let x = slot(fs.disk, dir, s0)->0;
            let touched = InodeView { mtime: now, ..dir };
            let after = FsView {
                disk: inode_written(fs.disk.write(x.block as int, bytes), fs.sb, touched),
                sb: fs.sb,
            };
            &&& slot(fs.disk, dir, s0) is Some
            &&& after.sb == fs.sb
            &&& forall|c: int|
                0 <= c < fs.sb.bitmap_blocks * BITS_PER_BLOCK ==> #[trigger] is_set(after.disk, c)
                    == is_set(fs.disk, c)
            &&& dir_changed(
                fs,
                dir,
                after,
                touched,
                s0,
                Slot {
                    entry: decoded_entry(bytes.subrange(x.offset, x.offset + DIR_ENTRY_SIZE)),
                    block: x.block,
                    offset: x.offset,
                },
            )
        }),
{
    broadcast use group_disk;

    lemma_table(fs, dir, dir.inode_no);
    lemma_place_rewritten(fs, dir, s0, bytes);
    let x = slot(fs.disk, dir, s0)->0;
    let b = x.block as int;
    let y = Slot {
        entry: decoded_entry(bytes.subrange(x.offset, x.offset + DIR_ENTRY_SIZE)),
        block: x.block,
        offset: x.offset,
    };
    let touched = InodeView { mtime: now, ..dir };
    let mid = with_write(fs, b, bytes);
    let ib = inode_block(fs.sb, dir.inode_no);
    let inode_bytes = splice(mid.disk.block(ib), inode_offset(dir.inode_no), touched.encoded());
    let after = with_write(mid, ib, inode_bytes);
    assert(mid.disk.has(ib));
    lemma_inode_round_trip(touched);
    lemma_write_keeps_sound(fs, b, bytes);
    lemma_write_keeps_inode(fs, b, bytes, dir);
    lemma_write_keeps_sound(mid, ib, inode_bytes);
    lemma_write_keeps_inode(mid, ib, inode_bytes, dir);
    lemma_inode_read_back(mid.disk, mid.sb, touched, dir.inode_no);
    assert(after.inode(dir.inode_no) == touched);
    assert forall|i: int| 0 <= i < dir.block_count implies after.disk.block(
        (#[trigger] dir.pointer(mid.disk, i))->0 as int,
    ) == mid.disk.block(dir.pointer(mid.disk, i)->0 as int) by {
        assert(dir.pointer(mid.disk, i) == dir.pointer(fs.disk, i));
        assert(owned(fs, dir.pointer(fs.disk, i)->0 as int));
    }
    lemma_slots_kept(mid.disk, dir, after.disk, touched);
    assert forall|i: int| #[trigger] touched.pointer(after.disk, i) == dir.pointer(
        after.disk,
        i,
    ) by {}
    assert(inode_sound(after, touched)) by {
        assert forall|i: int| 0 <= i < touched.block_count implies (#[trigger] touched.pointer(
            after.disk,
            i,
        )) is Some && owned(after, touched.pointer(after.disk, i)->0 as int) by {
            assert(dir.pointer(after.disk, i) is Some);
        }
        assert forall|i: int, j: int| 0 <= i < j < touched.block_count implies (
        #[trigger] touched.pointer(after.disk, i)) != (#[trigger] touched.pointer(after.disk, j)) by {
            assert(dir.pointer(after.disk, i) != dir.pointer(after.disk, j));
        }
    }
    assert forall|s: int| 0 <= s < slot_count(dir) && s != s0 implies #[trigger] slot(
        after.disk,
        touched,
        s,
    ) == slot(fs.disk, dir, s) by {
        assert(slot(mid.disk, dir, s) == slot(fs.disk, dir, s));
    }
    assert(slot(after.disk, touched, s0) == Some(y)) by {
        assert(slot(mid.disk, dir, s0) == Some(y));
    }
    assert(differs_at(fs.disk, dir, after.disk, touched, s0, y));
    assert(names_fit(after.disk, touched)) by {
        assert forall|s: int|
            0 <= s < slot_count(touched) && (#[trigger] slot(after.disk, touched, s))
                is Some implies slot(after.disk, touched, s)->0.entry.name_len <= MAX_NAME_LEN by {
            if s != s0 {
                assert(slot(after.disk, touched, s) == slot(fs.disk, dir, s));
            }
        }
    }
    assert forall|i: int| 0 <= i < dir.block_count implies #[trigger] touched.pointer(
        after.disk,
        i,
    ) == dir.pointer(fs.disk, i) by {
        assert(dir.pointer(after.disk, i) == dir.pointer(mid.disk, i));
    }
    assert forall|c: int| fs.disk.has(c) implies #[trigger] after.disk.has(c) by {
        assert(mid.disk.has(c));
    }
    assert forall|c: int| owned(fs, c) implies #[trigger] owned(after, c) by {
        assert(owned(mid, c));
    }
    assert forall|c: int| 0 <= c < fs.sb.bitmap_blocks * BITS_PER_BLOCK implies #[trigger] is_set(
        after.disk,
        c,
    ) == is_set(fs.disk, c) by {
        assert(is_set(mid.disk, c) == is_set(fs.disk, c));
    }
    lemma_free_count_same(after.disk, fs.disk, recorded(fs));
    assert forall|c: int|
        fs.sb.bitmap_blocks < c <= u32::MAX && fs.disk.has(c) && apart(after, touched, c) && c
            != ib implies #[trigger] after.disk.block(c) == fs.disk.block(c) by {
        assert(c != b) by {
            let i0 = s0 / (ENTRIES_PER_BLOCK as int);
            assert(touched.pointer(after.disk, i0) == dir.pointer(fs.disk, i0));
        }
        assert(mid.disk.has(c));
        assert(mid.disk.block(c) == fs.disk.block(c));
    }
    assert forall|n: u32|
        n != dir.inode_no && in_table(fs.sb, n) implies #[trigger] after.inode(n) == fs.inode(
        n,
    ) by {
        lemma_table(fs, dir, n);
        assert(mid.disk.has(inode_block(fs.sb, n)));
        lemma_other_inode_kept(fs, mid, touched, n);
    }
}

/// A block that holds one entry has it at its first place, and its other places are free.
proof fn lemma_block_of_entry(entry: EntryView, j: int)
    requires
        entry.name.len() == MAX_NAME_LEN,
        0 <= j < ENTRIES_PER_BLOCK,
    ensures
        block_of_entry(entry).len() == BLOCK_SIZE,
        ({
            let e = decoded_entry(
                block_of_entry(entry).subrange(
                    j * DIR_ENTRY_SIZE,
                    j * DIR_ENTRY_SIZE + DIR_ENTRY_SIZE,
                ),
            );
            if j == 0 {
                e == entry
            } else {
                e.is_empty()
            }
        }),
{
    lemma_entry_round_trip(entry);
    if j == 0 {
        assert(block_of_entry(entry).subrange(0, DIR_ENTRY_SIZE as int) =~= entry.encoded());
    }
}

/// The file system after `bytes` have been written to a newly allocated block, and `more` to block
/// `c`.
pub open spec fn with_new_block(fs: FsView, bytes: Seq<u8>, c: int, more: Seq<u8>) -> FsView {
    with_write(with_write(after_allocation(fs), next_block(fs) as int, bytes), c, more)
}

/// Writing to a newly allocated block and to block `c` keeps a file system sound, adds the new
/// block to those in use, and changes no other block behind the bitmap.
pub proof fn lemma_new_block_written(fs: FsView, bytes: Seq<u8>, c: int, more: Seq<u8>)
    requires
        sound(fs),
        allocated(fs.disk, fs.sb) is Some,
        bytes.len() == BLOCK_SIZE,
        more.len() == BLOCK_SIZE,
        fs.sb.bitmap_blocks < c,
        fs.disk.has(c),
        next_block(fs) != c,
    ensures
        ({
            let b = next_block(fs) as int;
            let after = with_new_block(fs, bytes, c, more);
            &&& sound(after)
            &&& counted(fs) ==> counted(after)
            &&& after.sb == fs.sb.with_free(after.sb.free_blocks as int)
            &&& !is_set(fs.disk, b)
            &&& owned(after, b)
            &&& after.disk.block(b) == bytes
            &&& after.disk.block(c) == more
            &&& forall|x: int| fs.disk.has(x) ==> #[trigger] after.disk.has(x)
            &&& forall|x: int| owned(fs, x) ==> #[trigger] owned(after, x)
            &&& forall|x: int|
                0 <= x < fs.sb.bitmap_blocks * BITS_PER_BLOCK ==> #[trigger] is_set(after.disk, x)
                    == (x == b || is_set(fs.disk, x))
            &&& forall|x: int|
                fs.sb.bitmap_blocks < x && fs.disk.has(x) && x != b && x != c
                    ==> #[trigger] after.disk.block(x) == fs.disk.block(x)
        }),
{
    broadcast use group_disk;

    let b = next_block(fs) as int;
    let one = after_allocation(fs);
    let two = with_write(one, b, bytes);
    let after = with_new_block(fs, bytes, c, more);
    lemma_allocation_keeps_sound(fs);
    lemma_write_keeps_sound(one, b, bytes);
    lemma_write_keeps_sound(two, c, more);
    if counted(fs) {
        law_allocation_succeeds(fs);
        lemma_write_keeps_count(one, b, bytes);
        lemma_write_keeps_count(two, c, more);
    }
    assert(two.disk.has(b));
    assert(owned(after, b)) by {
        assert(is_set(one.disk, b));
        assert(is_set(two.disk, b));
    }
    assert forall|x: int| fs.disk.has(x) implies #[trigger] after.disk.has(x) by {
        assert(one.disk.has(x));
        assert(two.disk.has(x));
    }
    assert forall|x: int| owned(fs, x) implies #[trigger] owned(after, x) by {
        assert(owned(one, x));
        assert(owned(two, x));
    }
    assert forall|x: int| 0 <= x < fs.sb.bitmap_blocks * BITS_PER_BLOCK implies #[trigger] is_set(
        after.disk,
        x,
    ) == (x == b || is_set(fs.disk, x)) by {
        assert(is_set(two.disk, x) == is_set(one.disk, x));
        assert(is_set(one.disk, x) == (x == b || is_set(fs.disk, x)));
    }
    assert forall|x: int|
        fs.sb.bitmap_blocks < x && fs.disk.has(x) && x != b && x
            != c implies #[trigger] after.disk.block(x) == fs.disk.block(x) by {
        assert(one.disk.has(x));
        assert(one.disk.block(x) == fs.disk.block(x));
        assert(two.disk.has(x));
        assert(two.disk.block(x) == one.disk.block(x));
    }
}

/// Giving a directory a new block with one entry changes nothing of what it held before.
proof fn lemma_dir_extended(fs: FsView, dir: InodeView, entry: EntryView, now: i64)
    requires
        sound(fs),
        dir_sound(fs, dir),
        in_table(fs.sb, dir.inode_no),
        dir.block_count < DIRECT_BLOCKS,
        allocated(fs.disk, fs.sb) is Some,
        entry.name.len() == MAX_NAME_LEN,
        entry.name_len <= MAX_NAME_LEN,
    ensures
        ({
            let b = next_block(fs);
            let one = after_allocation(fs);
            let extended = dir_extended(dir, b, now);
            let after = FsView {
                disk: inode_written(
                    one.disk.write(b as int, block_of_entry(entry)),
                    one.sb,
                    extended,
                ),
                sb: one.sb,
            };
            dir_changed(
                fs,
                dir,
                after,
                extended,
                slot_count(dir),
                Slot { entry, block: b, offset: 0 },
            )
        }),
{
    let b = next_block(fs);
    let one = after_allocation(fs);
    let extended = dir_extended(dir, b, now);
    let bytes = block_of_entry(entry);
    let two = with_write(one, b as int, bytes);
    let ib = inode_block(fs.sb, dir.inode_no);
    let inode_bytes = splice(two.disk.block(ib), inode_offset(dir.inode_no), extended.encoded());
    let after = with_new_block(fs, bytes, ib, inode_bytes);
    lemma_table(fs, dir, dir.inode_no);
    lemma_block_of_entry(entry, 0);
    assert(b >= fs.sb.data_start) by {
        lemma_allocation_keeps_sound(fs);
    }
    assert(inode_bytes.len() == BLOCK_SIZE && two.disk.has(ib)) by {
        broadcast use group_disk;

        lemma_allocation_keeps_sound(fs);
        assert(one.disk.has(ib));
    }
    lemma_new_block_written(fs, bytes, ib, inode_bytes);
    assert(after.inode(dir.inode_no) == extended) by {
        lemma_inode_read_back(two.disk, two.sb, extended, dir.inode_no);
    }
    let last = dir.block_count as int;
    assert forall|i: int| 0 <= i <= last implies #[trigger] extended.pointer(after.disk, i)
        == if i == last {
        Some(b)
    } else {
        dir.pointer(fs.disk, i)
    } by {}
    assert forall|i: int| 0 <= i < last implies owned(
        fs,
        (#[trigger] dir.pointer(fs.disk, i))->0 as int,
    ) && dir.pointer(fs.disk, i) != Some(b) by {}
    assert(inode_sound(after, extended)) by {
        assert forall|i: int| 0 <= i < extended.block_count implies (#[trigger] extended.pointer(
            after.disk,
            i,
        )) is Some && owned(after, extended.pointer(after.disk, i)->0 as int) by {
            if i < last {
                assert(owned(fs, dir.pointer(fs.disk, i)->0 as int));
            }
        }
        assert forall|i: int, j: int| 0 <= i < j < extended.block_count implies (
        #[trigger] extended.pointer(after.disk, i)) != (#[trigger] extended.pointer(
            after.disk,
            j,
        )) by {
            assert(dir.pointer(fs.disk, i) != Some(b));
            if j < last {
                assert(dir.pointer(fs.disk, i) != dir.pointer(fs.disk, j));
            }
        }
    }
    assert forall|s: int| 0 <= s < slot_count(dir) implies #[trigger] slot(after.disk, extended, s)
        == slot(fs.disk, dir, s) by {
        let i = s / (ENTRIES_PER_BLOCK as int);
        assert(0 <= i < last);
        assert(extended.pointer(after.disk, i) == dir.pointer(fs.disk, i));
        let c = dir.pointer(fs.disk, i)->0 as int;
        assert(owned(fs, c));
        assert(dir.pointer(fs.disk, i) != Some(b));
        assert(dir.pointer(fs.disk, i) != Some(ib as u32));
        assert(after.disk.block(c) == fs.disk.block(c));
    }
    assert forall|s: int|
        slot_count(dir) <= s < slot_count(extended) implies #[trigger] slot(
        after.disk,
        extended,
        s,
    ) is Some && slot(after.disk, extended, s)->0.block == b && (if s == slot_count(dir) {
        slot(after.disk, extended, s)->0.entry == entry && slot(after.disk, extended, s)->0.offset
            == 0
    } else {
        slot(after.disk, extended, s)->0.entry.is_empty()
    }) by {
        assert(s / (ENTRIES_PER_BLOCK as int) == last);
        assert(extended.pointer(after.disk, last) == Some(b));
        lemma_block_of_entry(entry, s % (ENTRIES_PER_BLOCK as int));
    }
    let x = Slot { entry, block: b, offset: 0 };
    assert(slot(after.disk, extended, slot_count(dir)) == Some(x));
    assert(differs_at(fs.disk, dir, after.disk, extended, slot_count(dir), x)) by {
        assert forall|s: int|
            slot_count(dir) <= s < slot_count(extended) && s != slot_count(
                dir,
            ) implies #[trigger] slot_is_free(after.disk, extended, s) by {
            assert(slot(after.disk, extended, s) is Some);
        }
    }
    assert(names_fit(after.disk, extended)) by {
        assert forall|s: int|
            0 <= s < slot_count(extended) && (#[trigger] slot(after.disk, extended, s))
                is Some implies slot(after.disk, extended, s)->0.entry.name_len <= MAX_NAME_LEN by {
            if s < slot_count(dir) {
                assert(slot(after.disk, extended, s) == slot(fs.disk, dir, s));
            }
        }
    }
    assert forall|c: int|
        0 <= c < fs.sb.bitmap_blocks * BITS_PER_BLOCK && #[trigger] is_set(
            after.disk,
            c,
        ) implies is_set(fs.disk, c) || !apart(after, extended, c) by {
        if c == b {
            assert(extended.pointer(after.disk, last) == Some(b));
        }
    }
    assert forall|c: int|
        fs.sb.bitmap_blocks < c <= u32::MAX && fs.disk.has(c) && apart(after, extended, c) && c
            != ib implies #[trigger] after.disk.block(c) == fs.disk.block(c) by {
        assert(extended.pointer(after.disk, last) != Some(c as u32));
    }
    assert forall|n: u32|
        n != dir.inode_no && in_table(fs.sb, n) implies #[trigger] after.inode(n) == fs.inode(
        n,
    ) by {
        let c = inode_block(fs.sb, n);
        lemma_table(fs, dir, n);
        assert(two.disk.has(c) && two.disk.block(c) == fs.disk.block(c)) by {
            broadcast use group_disk;

            lemma_allocation_keeps_sound(fs);
            assert(one.disk.has(c));
            assert(one.disk.block(c) == fs.disk.block(c));
        }
        lemma_other_inode_kept(fs, two, extended, n);
    }
}

/// The file system that a change of a directory leads to.
pub open spec fn outcome_fs(o: DirOutcome) -> FsView {
    FsView { disk: o.disk, sb: o.sb }
}

/// The place that an entry added to directory `dir` gets: the first free one or, where there is
/// none, the first of a new block.
pub open spec fn place_for_new(d: DiskView, dir: InodeView) -> int {
    match free_place(d, dir) {
        Some(s) => s,
        None => slot_count(dir),
    }
}

/// An entry added to a directory, whatever its name, changes one place of it and nothing else.
pub proof fn lemma_added_entry(
    fs: FsView,
    dir: InodeView,
    name: Seq<char>,
    child: u32,
    is_dir: bool,
    now: i64,
)
    requires
        sound(fs),
        dir_sound(fs, dir),
        in_table(fs.sb, dir.inode_no),
        entry_added(fs.disk, fs.sb, dir, name, child, is_dir, now).result is Ok,
    ensures
        ({
            let o = entry_added(fs.disk, fs.sb, dir, name, child, is_dir, now);
            let after = outcome_fs(o);
            let s0 = place_for_new(fs.disk, dir);
            let x = slot(after.disk, o.dir, s0)->0;
            &&& dir_changed(fs, dir, after, o.dir, s0, x)
            &&& x.entry == new_entry(child, name, is_dir)
            &&& entry_named(fs.disk, dir, name) is None
            &&& free_place(fs.disk, dir) is Some ==> after.sb == fs.sb && forall|c: int|
                0 <= c < fs.sb.bitmap_blocks * BITS_PER_BLOCK ==> #[trigger] is_set(after.disk, c)
                    == is_set(fs.disk, c)
            &&& s0 < slot_count(dir) ==> slot_is_free(fs.disk, dir, s0)
        }),
{
    broadcast use group_disk;

    reveal(entry_added);
    let entry = new_entry(child, name, is_dir);
    let s0 = place_for_new(fs.disk, dir);
    lemma_new_entry(child, name, is_dir);
    lemma_entry_round_trip(entry);
    let is_free = |s: int| slot_is_free(fs.disk, dir, s);
    lemma_first_from(0, slot_count(dir), is_free);
    if free_place(fs.disk, dir) is Some {
        assert(is_free(s0));
        let y = slot(fs.disk, dir, s0)->0;
        let i0 = s0 / (ENTRIES_PER_BLOCK as int);
        assert(0 <= i0 < dir.block_count);
        assert(dir.pointer(fs.disk, i0) is Some);
        assert(owned(fs, y.block as int));
        let bytes = splice(fs.disk.block(y.block as int), y.offset, entry.encoded());
        assert(bytes.subrange(y.offset, y.offset + DIR_ENTRY_SIZE) =~= entry.encoded());
        lemma_place_changed(fs, dir, s0, bytes, now);
    } else {
        lemma_dir_extended(fs, dir, entry, now);
    }
}

/// An entry added to a directory is found under its name, and every other name is found where it
/// was. The listing is the old one with the new entry put in, names stay unique, and nothing but
/// the directory changes.
pub proof fn law_added_entry_found(
    fs: FsView,
    dir: InodeView,
    name: Seq<char>,
    child: u32,
    is_dir: bool,
    now: i64,
)
    requires
        sound(fs),
        dir_sound(fs, dir),
        in_table(fs.sb, dir.inode_no),
        name_fits(name),
        entry_added(fs.disk, fs.sb, dir, name, child, is_dir, now).result is Ok,
    ensures
        ({
            let o = entry_added(fs.disk, fs.sb, dir, name, child, is_dir, now);
            let after = outcome_fs(o);
            let s0 = place_for_new(fs.disk, dir);
            let x = slot(after.disk, o.dir, s0)->0;
            let k = entries_upto(fs.disk, dir, s0).len() as int;
            &&& dir_changed(fs, dir, after, o.dir, s0, x)
            &&& x.entry == new_entry(child, name, is_dir)
            &&& entry_named(after.disk, o.dir, name) == Some(x)
            &&& forall|other: Seq<char>|
                other != name ==> #[trigger] entry_named(after.disk, o.dir, other) == entry_named(
                    fs.disk,
                    dir,
                    other,
                )
            &&& 0 <= k <= entries(fs.disk, dir).len()
            &&& entries(after.disk, o.dir) == entries(fs.disk, dir).insert(k, x)
            &&& names_unique(fs.disk, dir) ==> names_unique(after.disk, o.dir)
        }),
{
    let o = entry_added(fs.disk, fs.sb, dir, name, child, is_dir, now);
    let after = outcome_fs(o);
    let s0 = place_for_new(fs.disk, dir);
    lemma_added_entry(fs, dir, name, child, is_dir, now);
    lemma_new_entry(child, name, is_dir);
    let x = slot(after.disk, o.dir, s0)->0;
    lemma_new_name_found(fs.disk, dir, after.disk, o.dir, s0, x, name);
    assert forall|other: Seq<char>| other != name implies #[trigger] entry_named(
        after.disk,
        o.dir,
        other,
    ) == entry_named(fs.disk, dir, other) by {
        lemma_other_name_found(fs.disk, dir, after.disk, o.dir, s0, x, other);
    }
    if names_unique(fs.disk, dir) {
        lemma_names_stay_unique(fs.disk, dir, after.disk, o.dir, s0, x);
    }
    lemma_listing_with_entry(fs.disk, dir, after.disk, o.dir, s0, x);
}

/// The listing of a directory one of whose free places has got an entry is the old one with that
/// entry put in.
proof fn lemma_listing_with_entry(
    d1: DiskView,
    dir1: InodeView,
    d2: DiskView,
    dir2: InodeView,
    s0: int,
    x: Slot,
)
    requires
        differs_at(d1, dir1, d2, dir2, s0, x),
        s0 < slot_count(dir1) ==> slot_is_free(d1, dir1, s0),
        !x.entry.is_empty(),
    ensures
        entries_upto(d1, dir1, s0).len() <= entries(d1, dir1).len(),
        entries(d2, dir2) == entries(d1, dir1).insert(
            entries_upto(d1, dir1, s0).len() as int,
            x,
        ),
{
    let n1 = slot_count(dir1);
    let n2 = slot_count(dir2);
    let k = entries_upto(d1, dir1, s0).len() as int;
    assert forall|s: int| 0 <= s < n1 && s != s0 implies #[trigger] in_use(d2, dir2, s) == in_use(
        d1,
        dir1,
        s,
    ) by {
        assert(slot(d2, dir2, s) == slot(d1, dir1, s));
    }
    assert forall|s: int| n1 <= s < n2 && s != s0 implies #[trigger] in_use(d2, dir2, s)
        is None by {
        assert(slot_is_free(d2, dir2, s));
    }
    if s0 < n1 {
        lemma_entry_inserted(d1, dir1, d2, dir2, s0, x, n1);
        lemma_free_places_list_nothing(d2, dir2, n1, n2);
    } else {
        assert(s0 == n1);
        lemma_same_entries_upto(d1, dir1, d2, dir2, n1);
        assert(entries_upto(d2, dir2, n1 + 1) == entries_upto(d1, dir1, n1).push(x));
        lemma_free_places_list_nothing(d2, dir2, n1 + 1, n2);
        assert(entries(d2, dir2) =~= entries(d1, dir1).insert(k, x));
    }
}

/// A name that is carried by one entry of a directory whose names are unique is carried by no
/// other.
proof fn lemma_unique_name(d: DiskView, dir: InodeView, name: Seq<char>, s0: int)
    requires
        names_unique(d, dir),
        0 <= s0 < slot_count(dir),
        slot_is_named(d, dir, name, s0),
    ensures
        forall|s: int|
            0 <= s < slot_count(dir) && s != s0 ==> !#[trigger] slot_is_named(d, dir, name, s),
{
    assert forall|s: int| 0 <= s < slot_count(dir) && s != s0 implies !#[trigger] slot_is_named(
        d,
        dir,
        name,
        s,
    ) by {
        if slot_is_named(d, dir, name, s) {
            assert(in_use(d, dir, s) is Some && in_use(d, dir, s0) is Some);
        }
    }
}

/// Removing an entry frees its place; every other name is found where it was, and nothing but the
/// directory changes. Where names are unique, the name is not found any more. The old listing is
/// the new one with the entry put in.
pub proof fn law_removed_entry_gone(fs: FsView, dir: InodeView, name: Seq<char>, now: i64)
    requires
        sound(fs),
        dir_sound(fs, dir),
        in_table(fs.sb, dir.inode_no),
        entry_named(fs.disk, dir, name) is Some,
    ensures
        ({
            let o = entry_removed(fs.disk, fs.sb, dir, name, now);
            let after = outcome_fs(o);
            let s0 = place_of(fs.disk, dir, name)->0;
            let x = slot(after.disk, o.dir, s0)->0;
            let k = entries_upto(fs.disk, dir, s0).len() as int;
            &&& o.result is Ok
            &&& after.sb == fs.sb
            &&& forall|c: int|
                0 <= c < fs.sb.bitmap_blocks * BITS_PER_BLOCK ==> #[trigger] is_set(after.disk, c)
                    == is_set(fs.disk, c)
            &&& dir_changed(fs, dir, after, o.dir, s0, x)
            &&& x.entry.is_empty()
            &&& forall|other: Seq<char>|
                other != name ==> #[trigger] entry_named(after.disk, o.dir, other) == entry_named(
                    fs.disk,
                    dir,
                    other,
                )
            &&& 0 <= k <= entries(after.disk, o.dir).len()
            &&& entries(fs.disk, dir) == entries(after.disk, o.dir).insert(
                k,
                entry_named(fs.disk, dir, name)->0,
            )
            &&& names_unique(fs.disk, dir) ==> names_unique(after.disk, o.dir) && entry_named(
                after.disk,
                o.dir,
                name,
            ) is None
        }),
{
    broadcast use group_disk;

    reveal(entry_removed);
    let o = entry_removed(fs.disk, fs.sb, dir, name, now);
    let after = outcome_fs(o);
    let named = |s: int| slot_is_named(fs.disk, dir, name, s);
    lemma_first_from(0, slot_count(dir), named);
    let s0 = place_of(fs.disk, dir, name)->0;
    assert(named(s0));
    let y = slot(fs.disk, dir, s0)->0;
    let i0 = s0 / (ENTRIES_PER_BLOCK as int);
    assert(0 <= i0 < dir.block_count);
    assert(dir.pointer(fs.disk, i0) is Some);
    assert(owned(fs, y.block as int));
    let old_block = fs.disk.block(y.block as int);
    let bytes = old_block.update(y.offset + 5, 0u8);
    let here = bytes.subrange(y.offset, y.offset + DIR_ENTRY_SIZE);
    assert(here[5] == 0);
    assert(decoded_entry(here).is_empty());
    lemma_place_changed(fs, dir, s0, bytes, now);
    let x = slot(after.disk, o.dir, s0)->0;
    assert forall|other: Seq<char>| other != name implies #[trigger] entry_named(
        after.disk,
        o.dir,
        other,
    ) == entry_named(fs.disk, dir, other) by {
        lemma_other_name_found(fs.disk, dir, after.disk, o.dir, s0, x, other);
    }
    if names_unique(fs.disk, dir) {
        lemma_names_stay_unique(fs.disk, dir, after.disk, o.dir, s0, x);
        lemma_unique_name(fs.disk, dir, name, s0);
        lemma_removed_name_not_found(fs.disk, dir, after.disk, o.dir, s0, x, name);
    }
    lemma_listing_without_entry(fs.disk, dir, after.disk, o.dir, s0, x);
}

/// The listing of a directory one of whose entries has been removed is the old one without it.
proof fn lemma_listing_without_entry(
    d1: DiskView,
    dir1: InodeView,
    d2: DiskView,
    dir2: InodeView,
    s0: int,
    x: Slot,
)
    requires
        differs_at(d1, dir1, d2, dir2, s0, x),
        s0 < slot_count(dir1),
        in_use(d1, dir1, s0) is Some,
        x.entry.is_empty(),
    ensures
        entries_upto(d1, dir1, s0).len() <= entries(d2, dir2).len(),
        entries(d1, dir1) == entries(d2, dir2).insert(
            entries_upto(d1, dir1, s0).len() as int,
            in_use(d1, dir1, s0)->0,
        ),
{
    let n1 = slot_count(dir1);
    let n2 = slot_count(dir2);
    assert forall|s: int| 0 <= s < n1 && s != s0 implies #[trigger] in_use(d1, dir1, s) == in_use(
        d2,
        dir2,
        s,
    ) by {
        assert(slot(d2, dir2, s) == slot(d1, dir1, s));
    }
    assert forall|s: int| n1 <= s < n2 implies #[trigger] in_use(d2, dir2, s) is None by {
        assert(slot_is_free(d2, dir2, s));
    }
    lemma_entry_inserted(d2, dir2, d1, dir1, s0, in_use(d1, dir1, s0)->0, n1);
    lemma_same_entries_upto(d2, dir2, d1, dir1, s0);
    lemma_free_places_list_nothing(d2, dir2, n1, n2);
}

/// Removing the entry that has just been added leaves the directory with the listing that it had,
/// and every name is found where it was.
pub proof fn law_remove_undoes_add(
    fs: FsView,
    dir: InodeView,
    name: Seq<char>,
    child: u32,
    is_dir: bool,
    added: i64,
    removed: i64,
)
    requires
        sound(fs),
        dir_sound(fs, dir),
        in_table(fs.sb, dir.inode_no),
        name_fits(name),
        entry_added(fs.disk, fs.sb, dir, name, child, is_dir, added).result is Ok,
    ensures
        ({
            let o = entry_added(fs.disk, fs.sb, dir, name, child, is_dir, added);
            let back = entry_removed(o.disk, o.sb, o.dir, name, removed);
            &&& back.result is Ok
            &&& entries(back.disk, back.dir) == entries(fs.disk, dir)
            &&& forall|n: Seq<char>| #[trigger]
                entry_named(back.disk, back.dir, n) == entry_named(fs.disk, dir, n)
        }),
{
    reveal(entry_added);
    let o = entry_added(fs.disk, fs.sb, dir, name, child, is_dir, added);
    let mid = outcome_fs(o);
    let back = entry_removed(o.disk, o.sb, o.dir, name, removed);
    let after = outcome_fs(back);
    let s0 = place_for_new(fs.disk, dir);
    let is_free = |s: int| slot_is_free(fs.disk, dir, s);
    lemma_first_from(0, slot_count(dir), is_free);
    if s0 < slot_count(dir) {
        assert(is_free(s0));
    }
    let x = slot(mid.disk, o.dir, s0)->0;
    let y = slot(after.disk, back.dir, s0)->0;
    assert(sound(mid) && dir_sound(mid, o.dir) && in_table(mid.sb, o.dir.inode_no) && differs_at(
        fs.disk,
        dir,
        mid.disk,
        o.dir,
        s0,
        x,
    ) && x.entry.is_named(name)) by {
        law_added_entry_found(fs, dir, name, child, is_dir, added);
        lemma_new_entry(child, name, is_dir);
    }
    lemma_new_name_found(fs.disk, dir, mid.disk, o.dir, s0, x, name);
    assert(differs_at(mid.disk, o.dir, after.disk, back.dir, s0, y) && y.entry.is_empty()
        && back.result is Ok) by {
        law_removed_entry_gone(mid, o.dir, name, removed);
    }
    lemma_place_refreed(fs.disk, dir, mid.disk, o.dir, after.disk, back.dir, s0, x, y, name);
}

/// A place that was free, has got an entry and is free again leaves the directory with the listing
/// and the names that it had.
proof fn lemma_place_refreed(
    d1: DiskView,
    dir1: InodeView,
    d2: DiskView,
    dir2: InodeView,
    d3: DiskView,
    dir3: InodeView,
    s0: int,
    x: Slot,
    y: Slot,
    name: Seq<char>,
)
    requires
        differs_at(d1, dir1, d2, dir2, s0, x),
        differs_at(d2, dir2, d3, dir3, s0, y),
        s0 < slot_count(dir1) ==> slot_is_free(d1, dir1, s0),
        entry_named(d1, dir1, name) is None,
        x.entry.is_named(name),
        y.entry.is_empty(),
    ensures
        entries(d3, dir3) == entries(d1, dir1),
        forall|n: Seq<char>| #[trigger]
            entry_named(d3, dir3, n) == entry_named(d1, dir1, n),
{
    lemma_new_name_found(d1, dir1, d2, dir2, s0, x, name);
    lemma_removed_name_not_found(d2, dir2, d3, dir3, s0, y, name);
    assert forall|n: Seq<char>| #[trigger] entry_named(d3, dir3, n) == entry_named(
        d1,
        dir1,
        n,
    ) by {
        if n != name {
            lemma_other_name_found(d1, dir1, d2, dir2, s0, x, n);
            lemma_other_name_found(d2, dir2, d3, dir3, s0, y, n);
        }
    }
    let n1 = slot_count(dir1);
    let n3 = slot_count(dir3);
    assert forall|s: int| 0 <= s < n1 implies #[trigger] in_use(d3, dir3, s) == in_use(
        d1,
        dir1,
        s,
    ) by {
        if s != s0 {
            assert(slot(d2, dir2, s) == slot(d1, dir1, s));
            assert(slot(d3, dir3, s) == slot(d2, dir2, s));
        }
    }
    assert forall|s: int| n1 <= s < n3 implies #[trigger] in_use(d3, dir3, s) is None by {
        if s != s0 {
            if s < slot_count(dir2) {
                assert(slot_is_free(d2, dir2, s));
                assert(slot(d3, dir3, s) == slot(d2, dir2, s));
            } else {
                assert(slot_is_free(d3, dir3, s));
            }
        }
    }
    lemma_same_entries_upto(d3, dir3, d1, dir1, n1);
    lemma_free_places_list_nothing(d3, dir3, n1, n3);
}

/// A request that is refused leaves the directory and the disk as they are.
pub proof fn law_refused_change_leaves_directory(
    fs: FsView,
    dir: InodeView,
    name: Seq<char>,
    child: u32,
    is_dir: bool,
    now: i64,
)
    ensures
        ({
            let o = entry_added(fs.disk, fs.sb, dir, name, child, is_dir, now);
            o.result is Err ==> outcome_fs(o) == fs && o.dir == dir
        }),
        ({
            let o = entry_removed(fs.disk, fs.sb, dir, name, now);
            o.result is Err ==> outcome_fs(o) == fs && o.dir == dir
        }),
{
    reveal(entry_added);
    reveal(entry_removed);
}

} // verus!
