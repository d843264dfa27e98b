//! The backing file: carrying out the commands handed out brings it up to date.

use crate::bitmap::{allocated, bitmap_started};
use crate::directory::{entry_added, entry_named, entry_removed};
use crate::disk::{replayed, Command, DiskView, DISK_SIZE};
use crate::file::{
    blocks_wanted, chunk, chunk_stored, file_written, growable, grown, grown_once, position, stored,
    too_big, writable,
};
use crate::fs::{attr_set, formatted, mounted, FsView};
use crate::inode::{inode_written, new_file_inode, InodeView};
use crate::superblock::{fresh_superblock, superblock_written, SuperBlockView};
use crate::tree::{
    blocks_freed, dir_created, dir_prepared, dir_removed, file_created, file_unlinked, link_dropped,
};
use crate::tree_laws::new_number;
use vstd::prelude::*;

verus! {

/// Carrying out the commands that disk `d` has yet to hand out on a file of contents `base` gives
/// the contents of the disk.
pub open spec fn flushed(base: Seq<u8>, d: DiskView) -> bool {
    d.image == replayed(base, d.log)
}

/// A command keeps the file of a disk one replay behind it.
pub proof fn law_command_flushed(base: Seq<u8>, d: DiskView, c: Command)
    requires
        flushed(base, d),
    ensures
        flushed(base, d.run(c)),
{
    assert(d.log.push(c).drop_last() =~= d.log);
}

broadcast proof fn lemma_write_flushed(base: Seq<u8>, d: DiskView, b: int, bytes: Seq<u8>)
    requires
        flushed(base, d),
    ensures
        #[trigger] flushed(base, d.write(b, bytes)),
{
    reveal(DiskView::write);
    law_command_flushed(base, d, Command::WriteBlock { block_num: b, bytes });
}

/// After the commands have been handed out and carried out, the file is up to date.
pub proof fn law_nothing_to_flush(d: DiskView)
    requires
        d.log.len() == 0,
    ensures
        flushed(d.image, d),
{
}

/// An allocation keeps the file one replay behind the disk.
proof fn lemma_allocated_flushed(base: Seq<u8>, d: DiskView, sb: SuperBlockView)
    requires
        flushed(base, d),
        allocated(d, sb) is Some,
    ensures
        ({
            let (d1, sb1, b) = allocated(d, sb)->0;
            flushed(base, d1)
        }),
{
    broadcast use lemma_write_flushed;

}

proof fn lemma_bitmap_flushed(base: Seq<u8>, d: DiskView, data_start: int, count: int)
    requires
        flushed(base, d),
    ensures
        flushed(base, bitmap_started(d, data_start, count)),
    decreases count,
{
    broadcast use lemma_write_flushed;

    if count > 0 {
        lemma_bitmap_flushed(base, d, data_start, count - 1);
    }
}

/// Adding an entry to a directory, or removing one, keeps the file one replay behind the disk.
pub proof fn law_directory_change_flushed(
    base: Seq<u8>,
    d: DiskView,
    sb: SuperBlockView,
    dir: InodeView,
    name: Seq<char>,
    child: u32,
    is_dir: bool,
    now: i64,
)
    requires
        flushed(base, d),
    ensures
        flushed(base, entry_added(d, sb, dir, name, child, is_dir, now).disk),
        flushed(base, entry_removed(d, sb, dir, name, now).disk),
{
    broadcast use lemma_write_flushed;

    reveal(entry_added);
    reveal(entry_removed);
    if allocated(d, sb) is Some {
        lemma_allocated_flushed(base, d, sb);
    }
}

proof fn lemma_grown_once_flushed(base: Seq<u8>, d: DiskView, sb: SuperBlockView, inode: InodeView)
    requires
        flushed(base, d),
        allocated(d, sb) is Some,
        inode.block_count == 10 ==> {
            let (d1, sb1, b) = allocated(d, sb)->0;
            allocated(d1, sb1) is Some
        },
    ensures
        flushed(base, grown_once(d, sb, inode).disk),
{
    broadcast use lemma_write_flushed;

    lemma_allocated_flushed(base, d, sb);
    let (d1, sb1, b) = allocated(d, sb)->0;
    if inode.block_count == 10 {
        lemma_allocated_flushed(base, d1, sb1);
    }
}

proof fn lemma_grown_flushed(
    base: Seq<u8>,
    d: DiskView,
    sb: SuperBlockView,
    inode: InodeView,
    n: u16,
)
    requires
        flushed(base, d),
        growable(d, sb, inode, n),
    ensures
        flushed(base, grown(d, sb, inode, n).disk),
    decreases n - inode.block_count,
{
    if inode.block_count < n && allocated(d, sb) is Some {
        let g = grown_once(d, sb, inode);
        lemma_grown_once_flushed(base, d, sb, inode);
        lemma_grown_flushed(base, g.disk, g.sb, g.inode, n);
    }
}

proof fn lemma_stored_flushed(base: Seq<u8>, d: DiskView, inode: InodeView, p: int, data: Seq<u8>)
    requires
        flushed(base, d),
    ensures
        flushed(base, stored(d, inode, p, data)),
    decreases data.len(),
{
    broadcast use lemma_write_flushed;

    let n = chunk(p, data.len() as int);
    if n > 0 {
        lemma_stored_flushed(
            base,
            chunk_stored(d, inode, p, data),
            inode,
            p + n,
            data.subrange(n, data.len() as int),
        );
    }
}

/// A write to a file keeps the backing file one replay behind the disk.
pub proof fn law_write_flushed(
    base: Seq<u8>,
    fs: FsView,
    ino: u32,
    offset: int,
    data: Seq<u8>,
    now: i64,
)
    requires
        flushed(base, fs.disk),
        writable(fs, ino, offset, data),
    ensures
        flushed(base, file_written(fs, ino, offset, data, now).0.disk),
{
    broadcast use lemma_write_flushed;

    if data.len() > 0 && !too_big(offset, data.len() as int) {
        let n = blocks_wanted(offset, data.len() as int) as u16;
        let g = grown(fs.disk, fs.sb, fs.inode(ino), n);
        lemma_grown_flushed(base, fs.disk, fs.sb, fs.inode(ino), n);
        lemma_stored_flushed(base, g.disk, g.inode, position(offset), data);
    }
}

proof fn lemma_blocks_freed_flushed(base: Seq<u8>, fs: FsView, inode: InodeView, n: int)
    requires
        flushed(base, fs.disk),
    ensures
        flushed(base, blocks_freed(fs, inode, n).disk),
    decreases n,
{
    broadcast use lemma_write_flushed;

    if n > 0 {
        lemma_blocks_freed_flushed(base, fs, inode, n - 1);
    }
}

/// Making and removing files and directories keeps the backing file one replay behind the disk.
pub proof fn law_tree_change_flushed(
    base: Seq<u8>,
    fs: FsView,
    parent: u32,
    name: Seq<char>,
    made: i64,
    added: i64,
)
    requires
        flushed(base, fs.disk),
    ensures
        flushed(base, file_created(fs, parent, name, made, added).fs.disk),
        flushed(base, dir_created(fs, parent, name, made, added).fs.disk),
        flushed(base, file_unlinked(fs, parent, name, added).fs.disk),
        flushed(base, dir_removed(fs, parent, name, added).fs.disk),
{
    lemma_created_flushed(base, fs, parent, name, made, added);
    lemma_dir_created_flushed(base, fs, parent, name, made, added);
    lemma_unlinked_flushed(base, fs, parent, name, added);
    lemma_dir_removed_flushed(base, fs, parent, name, added);
}

proof fn lemma_created_flushed(
    base: Seq<u8>,
    fs: FsView,
    parent: u32,
    name: Seq<char>,
    made: i64,
    added: i64,
)
    requires
        flushed(base, fs.disk),
    ensures
        flushed(base, file_created(fs, parent, name, made, added).fs.disk),
{
    broadcast use lemma_write_flushed;

    let n = new_number(fs);
    let d1 = inode_written(
        fs.disk,
        fs.sb,
        new_file_inode(n, made),
    );
    law_directory_change_flushed(base, d1, fs.sb, fs.inode(parent), name, n, false, added);
}

proof fn lemma_dir_created_flushed(
    base: Seq<u8>,
    fs: FsView,
    parent: u32,
    name: Seq<char>,
    made: i64,
    added: i64,
)
    requires
        flushed(base, fs.disk),
    ensures
        flushed(base, dir_created(fs, parent, name, made, added).fs.disk),
{
    broadcast use lemma_write_flushed;

    if allocated(fs.disk, fs.sb) is Some {
        lemma_allocated_flushed(base, fs.disk, fs.sb);
        let n = new_number(fs);
        let mid = dir_prepared(fs, n, parent, made);
        law_directory_change_flushed(
            base,
            mid.disk,
            mid.sb,
            fs.inode(parent),
            name,
            n,
            true,
            added,
        );
    }
}

proof fn lemma_unlinked_flushed(
    base: Seq<u8>,
    fs: FsView,
    parent: u32,
    name: Seq<char>,
    now: i64,
)
    requires
        flushed(base, fs.disk),
    ensures
        flushed(base, file_unlinked(fs, parent, name, now).fs.disk),
{
    broadcast use lemma_write_flushed;

    let dir = fs.inode(parent);
    if entry_named(fs.disk, dir, name) is Some {
        let inode = fs.inode(entry_named(fs.disk, dir, name)->0.entry.inode);
        lemma_blocks_freed_flushed(base, fs, inode, inode.block_count as int);
        let dropped = link_dropped(fs, inode);
        assert(flushed(base, dropped.disk));
        law_directory_change_flushed(base, dropped.disk, dropped.sb, dir, name, 0, false, now);
    }
}

proof fn lemma_dir_removed_flushed(
    base: Seq<u8>,
    fs: FsView,
    parent: u32,
    name: Seq<char>,
    now: i64,
)
    requires
        flushed(base, fs.disk),
    ensures
        flushed(base, dir_removed(fs, parent, name, now).fs.disk),
{
    broadcast use lemma_write_flushed;

    let dir = fs.inode(parent);
    if entry_named(fs.disk, dir, name) is Some {
        let inode = fs.inode(entry_named(fs.disk, dir, name)->0.entry.inode);
        let freed = blocks_freed(fs, inode, inode.block_count as int);
        lemma_blocks_freed_flushed(base, fs, inode, inode.block_count as int);
        law_directory_change_flushed(base, freed.disk, freed.sb, dir, name, 0, false, now);
    }
}

/// Mounting a disk, formatting it and setting permissions keep the backing file one replay behind
/// the disk.
pub proof fn law_mount_flushed(
    base: Seq<u8>,
    d: DiskView,
    fs: FsView,
    ino: u32,
    mode: Option<u32>,
    now: i64,
)
    requires
        flushed(base, d),
        flushed(base, fs.disk),
    ensures
        flushed(base, formatted(d, now).disk),
        flushed(base, mounted(d, now).disk),
        flushed(base, attr_set(fs, ino, mode, now).disk),
{
    broadcast use lemma_write_flushed;

    lemma_formatted_flushed(base, d, now);
    let size = DISK_SIZE as int;
    law_command_flushed(base, d, Command::Truncate { size });
    lemma_formatted_flushed(base, d.truncate(size), now);
}

proof fn lemma_formatted_flushed(base: Seq<u8>, d: DiskView, now: i64)
    requires
        flushed(base, d),
    ensures
        flushed(base, formatted(d, now).disk),
{
    broadcast use lemma_write_flushed;

    let d1 = superblock_written(d, fresh_superblock());
    lemma_bitmap_flushed(base, d1, 31, 5);
}

} // verus!
