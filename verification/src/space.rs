//! Free space: the count in the superblock and the bits of the bitmap.

use crate::bitmap::{allocated, first_free, is_set};
use crate::disk::{DiskView, BLOCK_SIZE, MAX_BLOCKS};
use crate::fs::FsView;
use crate::search::lemma_first_from;
use crate::sound::{
    after_allocation, after_free, framed, lemma_allocation_keeps_sound, lemma_free_keeps_sound,
    lemma_write_keeps_sound, next_block, owned, sound, with_write,
};
use crate::superblock::BITS_PER_BLOCK;
use vstd::prelude::*;

verus! {

/// Blocks below `n` that the bitmap marks as free.
pub open spec fn free_count(d: DiskView, n: int) -> int
    decreases n,
{
    if n <= 0 {
        0
    } else {
        free_count(d, n - 1) + if is_set(d, n - 1) {
            0int
        } else {
            1int
        }
    }
}

/// Blocks whose state the bitmap of `fs` records.
pub open spec fn recorded(fs: FsView) -> int {
    fs.sb.bitmap_blocks * BITS_PER_BLOCK
}

/// The count of free blocks in the superblock is the number of blocks marked as free, and the
/// bitmap records no blocks past the end of the disk.
pub open spec fn counted(fs: FsView) -> bool {
    &&& recorded(fs) <= MAX_BLOCKS
    &&& fs.sb.free_blocks == free_count(fs.disk, recorded(fs))
}

/// A count is never negative and no larger than the number of blocks; it is 0 only if no block is
/// free.
pub proof fn lemma_free_count(d: DiskView, n: int)
    requires
        0 <= n,
    ensures
        0 <= free_count(d, n) <= n,
        free_count(d, n) == 0 <==> forall|m: int| 0 <= m < n ==> #[trigger] is_set(d, m),
    decreases n,
{
    if n > 0 {
        lemma_free_count(d, n - 1);
        if free_count(d, n) == 0 {
            assert forall|m: int| 0 <= m < n implies #[trigger] is_set(d, m) by {
                if m == n - 1 {
                    assert(is_set(d, n - 1));
                }
            }
        } else if forall|m: int| 0 <= m < n ==> #[trigger] is_set(d, m) {
            assert(is_set(d, n - 1));
        }
    }
}

/// The count depends on the bits alone.
pub proof fn lemma_free_count_same(d1: DiskView, d2: DiskView, n: int)
    requires
        forall|m: int| 0 <= m < n ==> #[trigger] is_set(d1, m) == is_set(d2, m),
    ensures
        free_count(d1, n) == free_count(d2, n),
    decreases n,
{
    if n > 0 {
        lemma_free_count_same(d1, d2, n - 1);
        assert(is_set(d1, n - 1) == is_set(d2, n - 1));
    }
}

/// Marking one free block as allocated takes one off the count.
pub proof fn lemma_free_count_less(d1: DiskView, d2: DiskView, n: int, b: int)
    requires
        0 <= b < n,
        !is_set(d1, b),
        forall|m: int| 0 <= m < n ==> #[trigger] is_set(d2, m) == (m == b || is_set(d1, m)),
    ensures
        free_count(d2, n) == free_count(d1, n) - 1,
    decreases n,
{
    assert(is_set(d2, n - 1) == (n - 1 == b || is_set(d1, n - 1)));
    if b == n - 1 {
        lemma_free_count_same(d2, d1, n - 1);
    } else {
        lemma_free_count_less(d1, d2, n - 1, b);
    }
}

/// Where the count is right, an allocation succeeds exactly if the count is not 0, and the count
/// stays right.
pub proof fn law_allocation_succeeds(fs: FsView)
    requires
        framed(fs),
        counted(fs),
    ensures
        allocated(fs.disk, fs.sb) is Some <==> fs.sb.free_blocks > 0,
        fs.sb.free_blocks > 0 ==> counted(after_allocation(fs)) && after_allocation(fs).sb.free_blocks
            == fs.sb.free_blocks - 1,
{
    let n = recorded(fs);
    lemma_free_count(fs.disk, n);
    lemma_first_from(0, n, |m: int| !is_set(fs.disk, m));
    if fs.sb.free_blocks > 0 {
        let m = choose|m: int| 0 <= m < n && !#[trigger] is_set(fs.disk, m);
        assert((|m: int| !is_set(fs.disk, m))(m));
        assert(first_free(fs.disk) is Some);
        lemma_allocation_keeps_sound(fs);
        let b = next_block(fs);
        lemma_free_count_less(fs.disk, after_allocation(fs).disk, n, b as int);
    }
}

/// Freeing an allocated block keeps the count right.
pub proof fn law_free_keeps_count(fs: FsView, b: int)
    requires
        sound(fs),
        counted(fs),
        owned(fs, b),
    ensures
        sound(after_free(fs, b)),
        counted(after_free(fs, b)),
        after_free(fs, b).sb.free_blocks == fs.sb.free_blocks + 1,
{
    let n = recorded(fs);
    let after = after_free(fs, b);
    lemma_free_count(fs.disk, n);
    lemma_free_keeps_sound(fs, b);
    assert(!is_set(after.disk, b));
    assert forall|m: int| 0 <= m < n implies #[trigger] is_set(fs.disk, m) == (m == b || is_set(
        after.disk,
        m,
    )) by {
        assert(is_set(after.disk, m) == (m != b && is_set(fs.disk, m)));
    }
    lemma_free_count_less(after.disk, fs.disk, n, b);
}

/// Freeing the block that has just been allocated undoes the allocation: the superblock, the state
/// of every block and the contents of all blocks behind the bitmap are as they were.
pub proof fn law_free_undoes_allocation(fs: FsView)
    requires
        sound(fs),
        allocated(fs.disk, fs.sb) is Some,
    ensures
        ({
            let b = next_block(fs) as int;
            let back = after_free(after_allocation(fs), b);
            &&& sound(back)
            &&& back.sb == fs.sb
            &&& forall|c: int|
                0 <= c < recorded(fs) ==> #[trigger] is_set(back.disk, c) == is_set(fs.disk, c)
            &&& forall|c: int|
                fs.sb.bitmap_blocks < c && fs.disk.has(c) ==> #[trigger] back.disk.block(c)
                    == fs.disk.block(c)
        }),
{
    let b = next_block(fs) as int;
    let one = after_allocation(fs);
    let back = after_free(one, b);
    lemma_allocation_keeps_sound(fs);
    lemma_free_keeps_sound(one, b);
    assert(back.sb =~= fs.sb);
    assert forall|c: int| 0 <= c < recorded(fs) implies #[trigger] is_set(back.disk, c) == is_set(
        fs.disk,
        c,
    ) by {
        assert(is_set(one.disk, c) == (c == b || is_set(fs.disk, c)));
    }
    assert forall|c: int|
        fs.sb.bitmap_blocks < c && fs.disk.has(c) implies #[trigger] back.disk.block(c)
        == fs.disk.block(c) by {
        assert(one.disk.has(c));
        assert(one.disk.block(c) == fs.disk.block(c));
    }
}

/// Writing to a block behind the bitmap keeps the count right.
pub proof fn lemma_write_keeps_count(fs: FsView, b: int, bytes: Seq<u8>)
    requires
        framed(fs),
        counted(fs),
        fs.sb.bitmap_blocks < b,
        bytes.len() == BLOCK_SIZE,
    ensures
        counted(with_write(fs, b, bytes)),
{
    lemma_write_keeps_sound(fs, b, bytes);
    lemma_free_count_same(with_write(fs, b, bytes).disk, fs.disk, recorded(fs));
}

} // verus!
