//! Directories: files whose contents are entries that map names to inode numbers.

use crate::bitmap::{allocated, allocation_ready, lemma_allocated, Bitmap};
use crate::bytes::{copy_into, get_u32, put_u32, same_bytes, splice, u32_at, u32_le, zeros};
use crate::disk::{group_disk, Disk, DiskView, BLOCK_SIZE, PAGE_SIZE};
use crate::inode::{
    current_timestamp, inode_block, inode_is_on_disk, inode_on_disk, inode_written, write_inode,
    Inode, InodeView, DIRECT_BLOCKS,
};
use crate::search::{first_from, lemma_first_from, lemma_first_is};
use crate::superblock::{SuperBlock, SuperBlockView};
use vstd::prelude::*;
use vstd::utf8::{decode_utf8, encode_utf8, encode_utf8_decode_utf8, valid_utf8};

verus! {

/// Bytes of an entry before the name: inode number, type, length of the name.
pub const DIR_ENTRY_HEADER_SIZE: usize = 6;

/// Bytes that a name can have.
pub const MAX_NAME_LEN: usize = 28;

/// Bytes that an entry takes.
pub const DIR_ENTRY_SIZE: usize = 34;

/// Entries that a block holds.
pub const ENTRIES_PER_BLOCK: usize = 15;

/// One entry of a directory. A removed entry keeps its place, with a name of length 0.
#[derive(Debug, Clone, Copy)]
pub struct DirEntry {
    /// The inode that the entry names.
    pub inode: u32,
    /// 0 for a free place, 1 for a file, 2 for a directory.
    pub entry_type: u8,
    /// Length of the name in bytes.
    pub name_len: u8,
    /// The name in UTF-8, then zeros.
    pub name: [u8; MAX_NAME_LEN],
}

/// The fields of an entry.
#[verifier::ext_equal]
pub struct EntryView {
    pub inode: u32,
    pub entry_type: u8,
    pub name_len: u8,
    pub name: Seq<u8>,
}

impl View for DirEntry {
    type V = EntryView;

    open spec fn view(&self) -> EntryView {
        EntryView {
            inode: self.inode,
            entry_type: self.entry_type,
            name_len: self.name_len,
            name: self.name@,
        }
    }
}

impl EntryView {
    /// The place of the entry is free.
    pub open spec fn is_empty(self) -> bool {
        self.name_len == 0
    }

    /// The bytes of the name.
    pub open spec fn name_bytes(self) -> Seq<u8> {
        self.name.subrange(0, self.name_len as int)
    }

    /// The name; bytes that are no UTF-8 read as `???`.
    pub open spec fn text(self) -> Seq<char> {
        if valid_utf8(self.name_bytes()) {
            decode_utf8(self.name_bytes())
        } else {
            "???"@
        }
    }

    /// The entry is in use and its name is `name`.
    pub open spec fn is_named(self, name: Seq<char>) -> bool {
        !self.is_empty() && self.text() == name
    }

    /// The bytes of the entry on the disk.
    pub open spec fn encoded(self) -> Seq<u8> {
        u32_le(self.inode) + seq![self.entry_type, self.name_len] + self.name
    }
}

/// A new entry; of a name that is too long only the first bytes are kept.
pub open spec fn new_entry(inode: u32, name: Seq<char>, is_dir: bool) -> EntryView {
    let bytes = encode_utf8(name);
    let len = if bytes.len() <= MAX_NAME_LEN { bytes.len() as int } else { MAX_NAME_LEN as int };
    EntryView {
        inode,
        entry_type: if is_dir { 2 } else { 1 },
        name_len: len as u8,
        name: splice(zeros(MAX_NAME_LEN as nat), 0, bytes.subrange(0, len)),
    }
}

/// The entry that `s` begins with.
pub open spec fn decoded_entry(s: Seq<u8>) -> EntryView {
    EntryView {
        inode: u32_at(s, 0),
        entry_type: s[4],
        name_len: s[5],
        name: s.subrange(6, 6 + MAX_NAME_LEN),
    }
}

/// An entry of a directory, with the block that it stands in and its position there.
#[verifier::ext_equal]
pub struct Slot {
    pub entry: EntryView,
    pub block: u32,
    pub offset: int,
}

/// The entry at position `offset` of block `b`.
pub open spec fn entry_at(d: DiskView, b: u32, offset: int) -> EntryView {
    decoded_entry(d.block(b as int).subrange(offset, offset + DIR_ENTRY_SIZE))
}

/// Place `s` of directory `dir`, counted over all its blocks; none if the block is missing.
pub open spec fn slot(d: DiskView, dir: InodeView, s: int) -> Option<Slot> {
    match dir.pointer(d, s / (ENTRIES_PER_BLOCK as int)) {
        Some(block) => {
            let offset = s % (ENTRIES_PER_BLOCK as int) * DIR_ENTRY_SIZE;
            Some(Slot { entry: entry_at(d, block, offset), block, offset })
        },
        None => None,
    }
}

/// Number of places of directory `dir`.
pub open spec fn slot_count(dir: InodeView) -> int {
    dir.block_count * ENTRIES_PER_BLOCK
}

/// The entry at place `s` is in use and named `name`.
pub open spec fn slot_is_named(d: DiskView, dir: InodeView, name: Seq<char>, s: int) -> bool {
    slot(d, dir, s) is Some && slot(d, dir, s)->0.entry.is_named(name)
}

/// Place `s` exists and is free.
pub open spec fn slot_is_free(d: DiskView, dir: InodeView, s: int) -> bool {
    slot(d, dir, s) is Some && slot(d, dir, s)->0.entry.is_empty()
}

/// The first place whose entry is named `name`.
pub open spec fn place_of(d: DiskView, dir: InodeView, name: Seq<char>) -> Option<int> {
    first_from(0, slot_count(dir), |s: int| slot_is_named(d, dir, name, s))
}

/// The first free place.
pub open spec fn free_place(d: DiskView, dir: InodeView) -> Option<int> {
    first_from(0, slot_count(dir), |s: int| slot_is_free(d, dir, s))
}

/// The first entry named `name`.
pub open spec fn entry_named(d: DiskView, dir: InodeView, name: Seq<char>) -> Option<Slot> {
    match place_of(d, dir, name) {
        Some(s) => slot(d, dir, s),
        None => None,
    }
}

/// The entries in use among the first `n` places, in order.
pub open spec fn entries_upto(d: DiskView, dir: InodeView, n: int) -> Seq<Slot>
    decreases n,
{
    if n <= 0 {
        Seq::empty()
    } else {
        let before = entries_upto(d, dir, n - 1);
        match slot(d, dir, n - 1) {
            Some(x) => if x.entry.is_empty() {
                before
            } else {
                before.push(x)
            },
            None => before,
        }
    }
}

/// All entries of directory `dir`, in order.
pub open spec fn entries(d: DiskView, dir: InodeView) -> Seq<Slot> {
    entries_upto(d, dir, slot_count(dir))
}

/// Data block `i` of `inode` can be looked up, and lies on the disk if there is one.
pub open spec fn block_on_disk(d: DiskView, inode: InodeView, i: int) -> bool {
    inode.pointer_readable(d, i) && (inode.pointer(d, i) is Some ==> d.has(
        inode.pointer(d, i)->0 as int,
    ))
}

/// Every data block of `inode` can be looked up, and lies on the disk.
pub open spec fn blocks_on_disk(d: DiskView, inode: InodeView) -> bool {
    forall|i: int| 0 <= i < inode.block_count ==> #[trigger] block_on_disk(d, inode, i)
}

/// No entry of directory `dir` claims a name longer than an entry can hold.
pub open spec fn names_fit(d: DiskView, dir: InodeView) -> bool {
    forall|s: int|
        0 <= s < slot_count(dir) && (#[trigger] slot(d, dir, s)) is Some ==> slot(
            d,
            dir,
            s,
        )->0.entry.name_len <= MAX_NAME_LEN
}

/// No place of directory `dir` before `s` holds an entry named `name`.
pub open spec fn none_named_before(d: DiskView, dir: InodeView, name: Seq<char>, s: int) -> bool {
    forall|t: int| 0 <= t < s ==> !#[trigger] slot_is_named(d, dir, name, t)
}

/// Place `s` of directory `dir` can be read, and its entry claims no name longer than an entry can
/// hold.
pub open spec fn place_readable(d: DiskView, dir: InodeView, s: int) -> bool {
    &&& block_on_disk(d, dir, s / (ENTRIES_PER_BLOCK as int))
    &&& slot(d, dir, s) is Some ==> slot(d, dir, s)->0.entry.name_len <= MAX_NAME_LEN
}

/// Directory `dir` can be searched for `name`: every place up to the first entry of that name can
/// be read.
pub open spec fn searchable(d: DiskView, dir: InodeView, name: Seq<char>) -> bool {
    forall|s: int|
        0 <= s < slot_count(dir) && none_named_before(d, dir, name, s)
            ==> #[trigger] place_readable(d, dir, s)
}

/// A directory all of whose places can be read can be searched for any name.
pub proof fn lemma_searchable(d: DiskView, dir: InodeView, name: Seq<char>)
    requires
        blocks_on_disk(d, dir),
        names_fit(d, dir),
    ensures
        searchable(d, dir, name),
{
    assert forall|s: int| 0 <= s < slot_count(dir) implies #[trigger] place_readable(d, dir, s) by {
        let i = s / (ENTRIES_PER_BLOCK as int);
        assert(0 <= i < dir.block_count);
        assert(block_on_disk(d, dir, i));
    }
}

/// The blocks of a directory that was searched for a name in vain are all on the disk.
pub proof fn lemma_searched_in_vain(d: DiskView, dir: InodeView, name: Seq<char>)
    requires
        searchable(d, dir, name),
        entry_named(d, dir, name) is None,
    ensures
        blocks_on_disk(d, dir),
        names_fit(d, dir),
{
    let named = |s: int| slot_is_named(d, dir, name, s);
    lemma_first_from(0, slot_count(dir), named);
    if place_of(d, dir, name) is Some {
        assert(named(place_of(d, dir, name)->0));
    }
    assert forall|s: int| 0 <= s < slot_count(dir) implies #[trigger] place_readable(d, dir, s) by {
        assert forall|t: int| 0 <= t < s implies !#[trigger] slot_is_named(d, dir, name, t) by {
            assert(!named(t));
        }
        assert(none_named_before(d, dir, name, s));
    }
    assert forall|i: int| 0 <= i < dir.block_count implies #[trigger] block_on_disk(d, dir, i) by {
        let s = i * ENTRIES_PER_BLOCK;
        assert(s / (ENTRIES_PER_BLOCK as int) == i);
        assert(place_readable(d, dir, s));
    }
    assert forall|s: int|
        0 <= s < slot_count(dir) && (#[trigger] slot(d, dir, s)) is Some implies slot(
        d,
        dir,
        s,
    )->0.entry.name_len <= MAX_NAME_LEN by {
        assert(place_readable(d, dir, s));
    }
}

/// What a tuple handed out by `dir_lookup` and `dir_find` stands for.
pub open spec fn slot_of(t: (DirEntry, u32, usize)) -> Slot {
    Slot { entry: t.0@, block: t.1, offset: t.2 as int }
}

/// What a change of a directory leads to: the disk, the superblock, the inode of the directory,
/// and an error message if there was an error.
#[verifier::ext_equal]
pub struct DirOutcome {
    pub disk: DiskView,
    pub sb: SuperBlockView,
    pub dir: InodeView,
    pub result: Result<(), Seq<char>>,
}

/// A result and the message that it should carry agree.
pub open spec fn agrees(r: Result<(), &'static str>, wanted: Result<(), Seq<char>>) -> bool {
    match r {
        Ok(_) => wanted is Ok,
        Err(e) => wanted == Err::<(), Seq<char>>(e@),
    }
}

/// The disk after `entry` has been written to position `offset` of block `b`.
pub open spec fn entry_written(d: DiskView, b: u32, offset: int, entry: EntryView) -> DiskView {
    d.write(b as int, splice(d.block(b as int), offset, entry.encoded()))
}

/// The block of a directory whose only entry is `entry`.
pub open spec fn block_of_entry(entry: EntryView) -> Seq<u8> {
    splice(zeros(BLOCK_SIZE as nat), 0, entry.encoded())
}

/// Directory `dir` after it has got `b` as its next block at time `now`.
pub open spec fn dir_extended(dir: InodeView, b: u32, now: i64) -> InodeView {
    InodeView {
        direct_blocks: dir.direct_blocks.update(dir.block_count as int, b),
        block_count: (dir.block_count + 1) as u16,
        size: ((dir.block_count + 1) * PAGE_SIZE) as u32,
        mtime: now,
        ..dir
    }
}

/// An entry for `child` named `name` is added to directory `dir` at time `now`: to the first free
/// place or, where there is none, to a new block.
#[verifier::opaque]
pub open spec fn entry_added(
    d: DiskView,
    sb: SuperBlockView,
    dir: InodeView,
    name: Seq<char>,
    child: u32,
    is_dir: bool,
    now: i64,
) -> DirOutcome {
    let entry = new_entry(child, name, is_dir);
    if entry_named(d, dir, name) is Some {
        DirOutcome { disk: d, sb, dir, result: Err("entry already exists"@) }
    } else if free_place(d, dir) is Some {
        let x = slot(d, dir, free_place(d, dir)->0)->0;
        let touched = InodeView { mtime: now, ..dir };
        DirOutcome {
            disk: inode_written(entry_written(d, x.block, x.offset, entry), sb, touched),
            sb,
            dir: touched,
            result: Ok(()),
        }
    } else if dir.block_count < DIRECT_BLOCKS {
        match allocated(d, sb) {
            Some((d1, sb1, b)) => {
                let extended = dir_extended(dir, b, now);
                DirOutcome {
                    disk: inode_written(d1.write(b as int, block_of_entry(entry)), sb1, extended),
                    sb: sb1,
                    dir: extended,
                    result: Ok(()),
                }
            },
            None => DirOutcome {
                disk: d,
                sb,
                dir,
                result: Err("no free blocks for directory expansion"@),
            },
        }
    } else {
        DirOutcome { disk: d, sb, dir, result: Err("directory too large"@) }
    }
}

/// No block of directory `dir` is missing before its first free place.
pub open spec fn no_hole_before_free_place(d: DiskView, dir: InodeView) -> bool {
    forall|i: int|
        0 <= i < dir.block_count && (#[trigger] dir.pointer(d, i)) is None ==> free_place(
            d,
            dir,
        ) is Some && free_place(d, dir)->0 < i * ENTRIES_PER_BLOCK
}

/// An entry can be looked for in directory `dir` and, if it is not there, added: no block is
/// missing before the first free place, a new block can be asked for where there is no such place,
/// and the inode of the directory is on the disk if it comes to be written.
pub open spec fn extendable(
    d: DiskView,
    sb: SuperBlockView,
    dir: InodeView,
    name: Seq<char>,
) -> bool {
    &&& searchable(d, dir, name)
    &&& entry_named(d, dir, name) is None ==> {
        &&& no_hole_before_free_place(d, dir)
        &&& if free_place(d, dir) is Some {
            inode_on_disk(d, sb, dir.inode_no)
        } else {
            dir.block_count < DIRECT_BLOCKS ==> {
                &&& allocation_ready(d, sb)
                &&& allocated(d, sb) is Some ==> inode_on_disk(d, sb, dir.inode_no)
            }
        }
    }
}

/// An entry can be looked for in directory `dir` and removed.
pub open spec fn reducible(
    d: DiskView,
    sb: SuperBlockView,
    dir: InodeView,
    name: Seq<char>,
) -> bool {
    &&& searchable(d, dir, name)
    &&& entry_named(d, dir, name) is Some ==> inode_on_disk(d, sb, dir.inode_no)
}

/// The first entry named `name` is removed from directory `dir` at time `now`: the length of its
/// name is set to 0.
#[verifier::opaque]
pub open spec fn entry_removed(
    d: DiskView,
    sb: SuperBlockView,
    dir: InodeView,
    name: Seq<char>,
    now: i64,
) -> DirOutcome {
    match entry_named(d, dir, name) {
        Some(x) => {
            let touched = InodeView { mtime: now, ..dir };
            let cleared = d.block(x.block as int).update(x.offset + 5, 0u8);
            DirOutcome {
                disk: inode_written(d.write(x.block as int, cleared), sb, touched),
                sb,
                dir: touched,
                result: Ok(()),
            }
        },
        None => DirOutcome { disk: d, sb, dir, result: Err("entry not found"@) },
    }
}

/// The text of `bytes`, if they are UTF-8.
///
/// Calls `std::str::from_utf8`, which succeeds exactly on valid UTF-8 and then hands out a string
/// of the same bytes.
#[verifier::external_body]
fn utf8_text(bytes: &[u8]) -> (r: Option<&str>)
    ensures
        r is Some <==> valid_utf8(bytes@),
        r is Some ==> encode_utf8(r->0@) == bytes@,
{
    std::str::from_utf8(bytes).ok()
}

impl DirEntry {
    /// A new entry; of a name that is too long only the first bytes are kept.
    pub fn new(inode: u32, name: &str, is_dir: bool) -> (r: DirEntry)
        ensures
            r@ == new_entry(inode, name@, is_dir),
    {
        let name_bytes = name.as_bytes();
        let n: usize = name_bytes.len();
        let len: usize = if n <= MAX_NAME_LEN { n } else { MAX_NAME_LEN };
        let mut name_arr: [u8; MAX_NAME_LEN] = [0u8; MAX_NAME_LEN];
        copy_into(&mut name_arr, 0, &name_bytes[0..len]);
        let r = DirEntry {
            inode,
            entry_type: if is_dir { 2 } else { 1 },
            name_len: len as u8,
            name: name_arr,
        };
        assert(r@ =~= new_entry(inode, name@, is_dir));
        r
    }

    /// Whether the place of the entry is free.
    pub fn is_empty(&self) -> (r: bool)
        ensures
            r == self@.is_empty(),
    {
        self.name_len == 0
    }

    /// The name; bytes that are no UTF-8 read as `???`.
    pub fn name_str(&self) -> (r: &str)
        requires
            self.name_len <= MAX_NAME_LEN,
        ensures
            r@ == self@.text(),
    {
        let bytes = &self.name[0..self.name_len as usize];
        match utf8_text(bytes) {
            Some(text) => {
                proof {
                    encode_utf8_decode_utf8(text@);
                }
                text
            },
            None => "???",
        }
    }

    /// Reads an entry from the front of `data`.
    pub fn from_bytes(data: &[u8]) -> (r: DirEntry)
        requires
            data@.len() >= DIR_ENTRY_SIZE,
        ensures
            r@ == decoded_entry(data@),
    {
        let mut name: [u8; MAX_NAME_LEN] = [0u8; MAX_NAME_LEN];
        copy_into(&mut name, 0, &data[6..34]);
        let r = DirEntry { inode: get_u32(data, 0), entry_type: data[4], name_len: data[5], name };
        assert(r@ =~= decoded_entry(data@));
        r
    }

    /// The bytes of the entry on the disk.
    pub fn to_bytes(&self) -> (r: [u8; DIR_ENTRY_SIZE])
        ensures
            r@ == self@.encoded(),
    {
        let mut buf: [u8; DIR_ENTRY_SIZE] = [0u8; DIR_ENTRY_SIZE];
        put_u32(&mut buf, 0, self.inode);
        buf[4] = self.entry_type;
        buf[5] = self.name_len;
        copy_into(&mut buf, 6, &self.name);
        assert(buf@ =~= self@.encoded());
        buf
    }

    /// Whether the entry is in use and its name is `name`.
    fn has_name(&self, name: &str) -> (r: bool)
        requires
            self.name_len <= MAX_NAME_LEN,
        ensures
            r == self@.is_named(name@),
    {
        proof {
            encode_utf8_decode_utf8(self@.text());
            encode_utf8_decode_utf8(name@);
        }
        !self.is_empty() && same_bytes(self.name_str().as_bytes(), name.as_bytes())
    }
}

/// All entries of directory `dir_inode`, each with its block and its position there. Nothing is
/// answered where a block of the directory is not on the disk.
pub fn try_dir_lookup(disk: &Disk, dir_inode: &Inode) -> (r: Option<Vec<(DirEntry, u32, usize)>>)
    ensures
        match r {
            Some(found) => {
                &&& blocks_on_disk(disk@, dir_inode@)
                &&& found@.map_values(|t: (DirEntry, u32, usize)| slot_of(t)) == entries(
                    disk@,
                    dir_inode@,
                )
            },
            None => !blocks_on_disk(disk@, dir_inode@),
        },
{
    broadcast use group_disk;

    let ghost view = |t: (DirEntry, u32, usize)| slot_of(t);
    let mut found: Vec<(DirEntry, u32, usize)> = Vec::new();
    let count: u32 = dir_inode.block_count as u32;
    let mut i: u32 = 0;
    assert(found@.map_values(view) =~= Seq::empty());
    while i < count
        invariant
            i <= count,
            count == dir_inode@.block_count,
            forall|k: int| 0 <= k < i ==> #[trigger] block_on_disk(disk@, dir_inode@, k),
            view == (|t: (DirEntry, u32, usize)| slot_of(t)),
            found@.map_values(view) == entries_upto(disk@, dir_inode@, i * ENTRIES_PER_BLOCK),
        decreases count - i,
    {
        let block = match dir_inode.try_get_block(disk, i) {
            Some(block) => block,
            None => {
                assert(!block_on_disk(disk@, dir_inode@, i as int));
                return None;
            },
        };
        match block {
            Some(block_num) => {
                let block_buf = match disk.try_load(block_num) {
                    Some(block_buf) => block_buf,
                    None => {
                        assert(!block_on_disk(disk@, dir_inode@, i as int));
                        return None;
                    },
                };
                let mut j: usize = 0;
                while j < ENTRIES_PER_BLOCK
                    invariant
                        i < count,
                        count == dir_inode@.block_count,
                        dir_inode@.pointer(disk@, i as int) == Some(block_num),
                        block_buf@ == disk@.block(block_num as int),
                        block_buf@.len() == BLOCK_SIZE,
                        j <= ENTRIES_PER_BLOCK,
                        view == (|t: (DirEntry, u32, usize)| slot_of(t)),
                        found@.map_values(view) == entries_upto(
                            disk@,
                            dir_inode@,
                            i * ENTRIES_PER_BLOCK + j,
                        ),
                    decreases ENTRIES_PER_BLOCK - j,
                {
                    let ghost s = i * ENTRIES_PER_BLOCK + j;
                    let offset: usize = j * DIR_ENTRY_SIZE;
                    let entry = DirEntry::from_bytes(&block_buf[offset..offset + DIR_ENTRY_SIZE]);
                    assert(s / (ENTRIES_PER_BLOCK as int) == i && s % (ENTRIES_PER_BLOCK as int)
                        == j);
                    assert(slot(disk@, dir_inode@, s) == Some(slot_of((entry, block_num, offset))));
                    if !entry.is_empty() {
                        let ghost before = found@;
                        found.push((entry, block_num, offset));
                        assert(found@.map_values(view) =~= before.map_values(view).push(
                            slot_of((entry, block_num, offset)),
                        ));
                    }
                    j = j + 1;
                }
            },
            None => {
                proof {
                    lemma_no_entries_in_hole(disk@, dir_inode@, i as int, ENTRIES_PER_BLOCK as int);
                }
            },
        }
        i = i + 1;
    }
    Some(found)
}

/// All entries of directory `dir_inode`, each with its block and its position there.
pub fn dir_lookup(disk: &Disk, dir_inode: &Inode) -> (r: Vec<(DirEntry, u32, usize)>)
    requires
        blocks_on_disk(disk@, dir_inode@),
    ensures
        r@.map_values(|t: (DirEntry, u32, usize)| slot_of(t)) == entries(disk@, dir_inode@),
{
    try_dir_lookup(disk, dir_inode).unwrap()
}

/// The places of a block that is missing hold no entries.
proof fn lemma_no_entries_in_hole(d: DiskView, dir: InodeView, i: int, j: int)
    requires
        0 <= i,
        0 <= j <= ENTRIES_PER_BLOCK,
        dir.pointer(d, i) is None,
    ensures
        entries_upto(d, dir, i * ENTRIES_PER_BLOCK + j) == entries_upto(
            d,
            dir,
            i * ENTRIES_PER_BLOCK,
        ),
    decreases j,
{
    if j > 0 {
        lemma_no_entries_in_hole(d, dir, i, j - 1);
        let s = i * ENTRIES_PER_BLOCK + j - 1;
        assert(s / (ENTRIES_PER_BLOCK as int) == i);
    }
}

/// The first entry of directory `dir_inode` that is named `name`, with its block and its position
/// there. Nothing is answered where the directory cannot be searched.
pub fn try_dir_find(disk: &Disk, dir_inode: &Inode, name: &str) -> (r: Option<
    Option<(DirEntry, u32, usize)>,
>)
    ensures
        r is Some <==> searchable(disk@, dir_inode@, name@),
        r matches Some(found) ==> match found {
            Some(t) => entry_named(disk@, dir_inode@, name@) == Some(slot_of(t)),
            None => entry_named(disk@, dir_inode@, name@) is None,
        },
{
    let count: u32 = dir_inode.block_count as u32;
    let ghost d = disk@;
    let ghost dir = dir_inode@;
    let ghost named = |s: int| slot_is_named(d, dir, name@, s);
    proof {
        lemma_first_from(0, slot_count(dir), named);
    }
    let mut i: u32 = 0;
    while i < count
        invariant
            i <= count,
            d == disk@,
            dir == dir_inode@,
            count == dir.block_count,
            named == (|s: int| slot_is_named(d, dir, name@, s)),
            none_named_before(d, dir, name@, i * ENTRIES_PER_BLOCK),
            forall|s: int| 0 <= s < i * ENTRIES_PER_BLOCK ==> #[trigger] place_readable(d, dir, s),
        decreases count - i,
    {
        let ghost first = i * ENTRIES_PER_BLOCK;
        assert(first / (ENTRIES_PER_BLOCK as int) == i);
        let block = match dir_inode.try_get_block(disk, i) {
            Some(block) => block,
            None => {
                assert(!place_readable(d, dir, first));
                return None;
            },
        };
        match block {
            Some(block_num) => {
                let block_buf = match disk.try_load(block_num) {
                    Some(block_buf) => block_buf,
                    None => {
                        assert(!place_readable(d, dir, first));
                        return None;
                    },
                };
                let mut j: usize = 0;
                while j < ENTRIES_PER_BLOCK
                    invariant
                        i < count,
                        d == disk@,
                        dir == dir_inode@,
                        count == dir.block_count,
                        dir.pointer_readable(d, i as int),
                        dir.pointer(d, i as int) == Some(block_num),
                        d.has(block_num as int),
                        block_buf@ == d.block(block_num as int),
                        block_buf@.len() == BLOCK_SIZE,
                        j <= ENTRIES_PER_BLOCK,
                        named == (|s: int| slot_is_named(d, dir, name@, s)),
                        none_named_before(d, dir, name@, i * ENTRIES_PER_BLOCK + j),
                        forall|s: int|
                            0 <= s < i * ENTRIES_PER_BLOCK + j ==> #[trigger] place_readable(
                                d,
                                dir,
                                s,
                            ),
                    decreases ENTRIES_PER_BLOCK - j,
                {
                    let ghost s = i * ENTRIES_PER_BLOCK + j;
                    let offset: usize = j * DIR_ENTRY_SIZE;
                    let entry = DirEntry::from_bytes(&block_buf[offset..offset + DIR_ENTRY_SIZE]);
                    assert(s / (ENTRIES_PER_BLOCK as int) == i && s % (ENTRIES_PER_BLOCK as int)
                        == j);
                    assert(slot(d, dir, s) == Some(slot_of((entry, block_num, offset))));
                    if entry.name_len as usize > MAX_NAME_LEN {
                        assert(!place_readable(d, dir, s));
                        return None;
                    }
                    assert(place_readable(d, dir, s));
                    assert(named(s) == entry@.is_named(name@));
                    if entry.has_name(name) {
                        proof {
                            assert forall|t: int| 0 <= t < s implies !#[trigger] named(t) by {
                                assert(!slot_is_named(d, dir, name@, t));
                            }
                            lemma_first_is(0, slot_count(dir), named, s);
                            assert(slot_is_named(d, dir, name@, s));
                            assert forall|t: int|
                                0 <= t < slot_count(dir) && none_named_before(
                                    d,
                                    dir,
                                    name@,
                                    t,
                                ) implies #[trigger] place_readable(d, dir, t) by {
                                if t > s {
                                    assert(slot_is_named(d, dir, name@, s));
                                }
                            }
                        }
                        return Some(Some((entry, block_num, offset)));
                    }
                    j = j + 1;
                }
            },
            None => {
                assert forall|s: int|
                    0 <= s < (i + 1) * ENTRIES_PER_BLOCK implies !#[trigger] slot_is_named(
                    d,
                    dir,
                    name@,
                    s,
                ) && place_readable(d, dir, s) by {
                    if s >= i * ENTRIES_PER_BLOCK {
                        assert(s / (ENTRIES_PER_BLOCK as int) == i);
                    } else {
                        assert(place_readable(d, dir, s));
                    }
                }
                assert forall|s: int|
                    0 <= s < (i + 1) * ENTRIES_PER_BLOCK implies #[trigger] place_readable(
                    d,
                    dir,
                    s,
                ) by {
                    assert(!slot_is_named(d, dir, name@, s));
                }
            },
        }
        i = i + 1;
    }
    proof {
        if place_of(d, dir, name@) is Some {
            let s = place_of(d, dir, name@)->0;
            assert(named(s));
            assert(!slot_is_named(d, dir, name@, s));
        }
    }
    Some(None)
}

/// The first entry of directory `dir_inode` that is named `name`, with its block and its position
/// there.
pub fn dir_find(disk: &Disk, dir_inode: &Inode, name: &str) -> (r: Option<(DirEntry, u32, usize)>)
    requires
        searchable(disk@, dir_inode@, name@),
    ensures
        match r {
            Some(t) => entry_named(disk@, dir_inode@, name@) == Some(slot_of(t)),
            None => entry_named(disk@, dir_inode@, name@) is None,
        },
{
    try_dir_find(disk, dir_inode, name).unwrap()
}

/// The block and the position of the first free place of directory `dir_inode`. Nothing is answered
/// where a block is missing before it.
fn find_free_place(disk: &Disk, dir_inode: &Inode) -> (r: Option<Option<(u32, usize)>>)
    requires
        blocks_on_disk(disk@, dir_inode@),
    ensures
        r is Some <==> no_hole_before_free_place(disk@, dir_inode@),
        r matches Some(found) ==> match found {
            Some((block, offset)) => {
                &&& free_place(disk@, dir_inode@) is Some
                &&& slot(disk@, dir_inode@, free_place(disk@, dir_inode@)->0) is Some
                &&& slot(disk@, dir_inode@, free_place(disk@, dir_inode@)->0)->0.block == block
                &&& slot(disk@, dir_inode@, free_place(disk@, dir_inode@)->0)->0.offset == offset
                &&& disk@.has(block as int)
                &&& offset + DIR_ENTRY_SIZE <= BLOCK_SIZE
            },
            None => free_place(disk@, dir_inode@) is None,
        },
{
    let count: u32 = dir_inode.block_count as u32;
    let ghost d = disk@;
    let ghost dir = dir_inode@;
    let ghost is_free = |s: int| slot_is_free(d, dir, s);
    let mut i: u32 = 0;
    while i < count
        invariant
            i <= count,
            d == disk@,
            dir == dir_inode@,
            count == dir.block_count,
            blocks_on_disk(d, dir),
            is_free == (|s: int| slot_is_free(d, dir, s)),
            forall|k: int| 0 <= k < i ==> (#[trigger] dir.pointer(d, k)) is Some,
            forall|s: int| 0 <= s < i * ENTRIES_PER_BLOCK ==> !#[trigger] is_free(s),
        decreases count - i,
    {
        assert(block_on_disk(d, dir, i as int));
        let block_num: u32 = match dir_inode.get_block(disk, i) {
            Some(block_num) => block_num,
            None => {
                proof {
                    lemma_first_from(0, slot_count(dir), is_free);
                    if free_place(d, dir) is Some {
                        assert(is_free(free_place(d, dir)->0));
                    }
                    assert(dir.pointer(d, i as int) is None);
                }
                return None;
            },
        };
        let block_buf = disk.load(block_num);
        let mut j: usize = 0;
        while j < ENTRIES_PER_BLOCK
            invariant
                i < count,
                d == disk@,
                dir == dir_inode@,
                count == dir.block_count,
                dir.pointer(d, i as int) == Some(block_num),
                d.has(block_num as int),
                block_buf@ == d.block(block_num as int),
                block_buf@.len() == BLOCK_SIZE,
                j <= ENTRIES_PER_BLOCK,
                is_free == (|s: int| slot_is_free(d, dir, s)),
                forall|k: int| 0 <= k < i ==> (#[trigger] dir.pointer(d, k)) is Some,
                forall|s: int| 0 <= s < i * ENTRIES_PER_BLOCK + j ==> !#[trigger] is_free(s),
            decreases ENTRIES_PER_BLOCK - j,
        {
            let ghost s = i * ENTRIES_PER_BLOCK + j;
            let offset: usize = j * DIR_ENTRY_SIZE;
            let entry = DirEntry::from_bytes(&block_buf[offset..offset + DIR_ENTRY_SIZE]);
            assert(s / (ENTRIES_PER_BLOCK as int) == i && s % (ENTRIES_PER_BLOCK as int) == j);
            assert(slot(d, dir, s) == Some(slot_of((entry, block_num, offset))));
            assert(is_free(s) == entry@.is_empty());
            if entry.is_empty() {
                proof {
                    lemma_first_is(0, slot_count(dir), is_free, s);
                    assert(no_hole_before_free_place(d, dir)) by {
                        assert forall|k: int|
                            0 <= k < dir.block_count && (#[trigger] dir.pointer(d, k))
                                is None implies free_place(d, dir) is Some && free_place(
                            d,
                            dir,
                        )->0 < k * ENTRIES_PER_BLOCK by {
                            assert(k > i);
                        }
                    }
                }
                return Some(Some((block_num, offset)));
            }
            j = j + 1;
        }
        i = i + 1;
    }
    proof {
        lemma_first_from(0, slot_count(dir), is_free);
        if free_place(d, dir) is Some {
            assert(is_free(free_place(d, dir)->0));
        }
    }
    Some(None)
}

/// Gives directory `dir_inode` a new block whose first bytes are `entry_bytes`, if there is a free
/// block. Nothing is answered where the disk is not ready for that.
fn extend_directory(
    disk: &mut Disk,
    sb: &mut SuperBlock,
    dir_inode: &mut Inode,
    entry_bytes: &[u8],
    now: i64,
) -> (r: Option<bool>)
    requires
        old(dir_inode)@.block_count < DIRECT_BLOCKS,
        entry_bytes@.len() == DIR_ENTRY_SIZE,
    ensures
        r is Some <==> allocation_ready(old(disk)@, old(sb)@) && (allocated(
            old(disk)@,
            old(sb)@,
        ) is Some ==> inode_on_disk(old(disk)@, old(sb)@, old(dir_inode).inode_no)),
        r matches Some(done) ==> done == (allocated(old(disk)@, old(sb)@) is Some),
        r is Some ==> match allocated(old(disk)@, old(sb)@) {
            Some((d1, sb1, b)) => {
                let extended = dir_extended(old(dir_inode)@, b, now);
                &&& final(disk)@ == inode_written(
                    d1.write(b as int, splice(zeros(BLOCK_SIZE as nat), 0, entry_bytes@)),
                    sb1,
                    extended,
                )
                &&& final(sb)@ == sb1
                &&& final(dir_inode)@ == extended
            },
            None => {
                &&& final(disk)@ == old(disk)@
                &&& final(sb)@ == old(sb)@
                &&& final(dir_inode)@ == old(dir_inode)@
            },
        },
{
    broadcast use group_disk;

    let count: usize = dir_inode.block_count as usize;
    proof {
        if allocation_ready(disk@, sb@) && allocated(disk@, sb@) is Some {
            lemma_allocated(disk@, sb@);
        }
    }
    match Bitmap::try_allocate_block(disk, sb) {
        Some(Some(new_block)) => {
            let ghost d1 = disk@;
            let mut block_buf: Vec<u8> = vec![0u8; BLOCK_SIZE];
            copy_into(&mut block_buf, 0, entry_bytes);
            assert(block_buf@ =~= splice(zeros(BLOCK_SIZE as nat), 0, entry_bytes@));
            assert(block_buf@.subrange(0, BLOCK_SIZE as int) =~= block_buf@);
            if !inode_is_on_disk(disk, sb, dir_inode.inode_no) {
                assert(d1.has(inode_block(sb@, dir_inode.inode_no)) == old(disk)@.has(
                    inode_block(sb@, dir_inode.inode_no),
                ));
                return None;
            }
            assert(d1.has(inode_block(sb@, dir_inode.inode_no)) == old(disk)@.has(
                inode_block(sb@, dir_inode.inode_no),
            ));
            disk.write_block(new_block, &block_buf);
            dir_inode.direct_blocks[count] = new_block;
            dir_inode.block_count = dir_inode.block_count + 1;
            dir_inode.size = dir_inode.block_count as u32 * PAGE_SIZE as u32;
            dir_inode.mtime = now;
            assert(dir_inode@ =~= dir_extended(old(dir_inode)@, new_block, now));
            write_inode(disk, sb, dir_inode);
            Some(true)
        },
        Some(None) => Some(false),
        None => None,
    }
}

/// Adds an entry for inode `child_inode` to directory `dir_inode` at time `now`. Nothing is
/// answered where the disk does not let the entry be looked for or added.
pub fn try_dir_add_entry_at(
    disk: &mut Disk,
    sb: &mut SuperBlock,
    dir_inode: &mut Inode,
    name: &str,
    child_inode: u32,
    is_dir: bool,
    now: i64,
) -> (r: Option<Result<(), &'static str>>)
    ensures
        r is Some <==> extendable(old(disk)@, old(sb)@, old(dir_inode)@, name@),
        r matches Some(result) ==> {
            let o = entry_added(
                old(disk)@,
                old(sb)@,
                old(dir_inode)@,
                name@,
                child_inode,
                is_dir,
                now,
            );
            &&& final(disk)@ == o.disk
            &&& final(sb)@ == o.sb
            &&& final(dir_inode)@ == o.dir
            &&& agrees(result, o.result)
        },
{
    broadcast use group_disk;

    proof {
        reveal(entry_added);
    }
    match try_dir_find(disk, dir_inode, name) {
        Some(Some(_)) => {
            return Some(Err("entry already exists"));
        },
        Some(None) => {},
        None => {
            return None;
        },
    }
    proof {
        lemma_searched_in_vain(disk@, dir_inode@, name@);
    }
    let entry_bytes = DirEntry::new(child_inode, name, is_dir).to_bytes();
    match find_free_place(disk, dir_inode) {
        Some(Some((block_num, offset))) => {
            if !inode_is_on_disk(disk, sb, dir_inode.inode_no) {
                return None;
            }
            let mut block_buf = disk.load(block_num);
            copy_into(&mut block_buf, offset, &entry_bytes);
            assert(block_buf@.subrange(0, BLOCK_SIZE as int) =~= block_buf@);
            disk.write_block(block_num, &block_buf);
            dir_inode.mtime = now;
            write_inode(disk, sb, dir_inode);
            return Some(Ok(()));
        },
        Some(None) => {},
        None => {
            return None;
        },
    }
    if (dir_inode.block_count as usize) < DIRECT_BLOCKS {
        match extend_directory(disk, sb, dir_inode, &entry_bytes, now) {
            Some(true) => Some(Ok(())),
            Some(false) => Some(Err("no free blocks for directory expansion")),
            None => None,
        }
    } else {
        Some(Err("directory too large"))
    }
}

/// Adds an entry for inode `child_inode` to directory `dir_inode` at time `now`.
pub fn dir_add_entry_at(
    disk: &mut Disk,
    sb: &mut SuperBlock,
    dir_inode: &mut Inode,
    name: &str,
    child_inode: u32,
    is_dir: bool,
    now: i64,
) -> (r: Result<(), &'static str>)
    requires
        extendable(old(disk)@, old(sb)@, old(dir_inode)@, name@),
    ensures
        ({
            let o = entry_added(
                old(disk)@,
                old(sb)@,
                old(dir_inode)@,
                name@,
                child_inode,
                is_dir,
                now,
            );
            &&& final(disk)@ == o.disk
            &&& final(sb)@ == o.sb
            &&& final(dir_inode)@ == o.dir
            &&& agrees(r, o.result)
        }),
{
    try_dir_add_entry_at(disk, sb, dir_inode, name, child_inode, is_dir, now).unwrap()
}

/// Adds an entry for inode `child_inode` to directory `dir_inode` now.
pub fn dir_add_entry(
    disk: &mut Disk,
    sb: &mut SuperBlock,
    dir_inode: &mut Inode,
    name: &str,
    child_inode: u32,
    is_dir: bool,
) -> (r: Result<(), &'static str>)
    requires
        extendable(old(disk)@, old(sb)@, old(dir_inode)@, name@),
    ensures
        exists|now: i64|
            {
                let o = #[trigger] entry_added(
                    old(disk)@,
                    old(sb)@,
                    old(dir_inode)@,
                    name@,
                    child_inode,
                    is_dir,
                    now,
                );
                &&& final(disk)@ == o.disk
                &&& final(sb)@ == o.sb
                &&& final(dir_inode)@ == o.dir
                &&& agrees(r, o.result)
            },
{
    let now: i64 = current_timestamp();
    dir_add_entry_at(disk, sb, dir_inode, name, child_inode, is_dir, now)
}

/// Removes the first entry named `name` from directory `dir_inode` at time `now`. Nothing is
/// answered where the disk does not let the entry be looked for or removed.
pub fn try_dir_remove_entry_at(
    disk: &mut Disk,
    sb: &mut SuperBlock,
    dir_inode: &mut Inode,
    name: &str,
    now: i64,
) -> (r: Option<Result<(), &'static str>>)
    ensures
        r is Some <==> reducible(old(disk)@, old(sb)@, old(dir_inode)@, name@),
        r is None ==> final(disk)@ == old(disk)@ && final(sb)@ == old(sb)@ && final(dir_inode)@
            == old(dir_inode)@,
        r matches Some(result) ==> {
            let o = entry_removed(old(disk)@, old(sb)@, old(dir_inode)@, name@, now);
            &&& final(disk)@ == o.disk
            &&& final(sb)@ == o.sb
            &&& final(dir_inode)@ == o.dir
            &&& agrees(result, o.result)
        },
{
    broadcast use group_disk;

    proof {
        reveal(entry_removed);
    }
    match try_dir_find(disk, dir_inode, name) {
        Some(Some((_entry, block_num, offset))) => {
            proof {
                lemma_named_entry_place(disk@, dir_inode@, name@);
            }
            if !inode_is_on_disk(disk, sb, dir_inode.inode_no) {
                return None;
            }
            let mut block_buf = disk.load(block_num);
            block_buf[offset + 5] = 0u8;
            assert(block_buf@.subrange(0, BLOCK_SIZE as int) =~= block_buf@);
            disk.write_block(block_num, &block_buf);
            dir_inode.mtime = now;
            write_inode(disk, sb, dir_inode);
            Some(Ok(()))
        },
        Some(None) => Some(Err("entry not found")),
        None => None,
    }
}

/// Removes the first entry named `name` from directory `dir_inode` at time `now`.
pub fn dir_remove_entry_at(
    disk: &mut Disk,
    sb: &mut SuperBlock,
    dir_inode: &mut Inode,
    name: &str,
    now: i64,
) -> (r: Result<(), &'static str>)
    requires
        reducible(old(disk)@, old(sb)@, old(dir_inode)@, name@),
    ensures
        ({
            let o = entry_removed(old(disk)@, old(sb)@, old(dir_inode)@, name@, now);
            &&& final(disk)@ == o.disk
            &&& final(sb)@ == o.sb
            &&& final(dir_inode)@ == o.dir
            &&& agrees(r, o.result)
        }),
{
    try_dir_remove_entry_at(disk, sb, dir_inode, name, now).unwrap()
}

/// Removes the first entry named `name` from directory `dir_inode` now.
pub fn dir_remove_entry(
    disk: &mut Disk,
    sb: &mut SuperBlock,
    dir_inode: &mut Inode,
    name: &str,
) -> (r: Result<(), &'static str>)
    requires
        reducible(old(disk)@, old(sb)@, old(dir_inode)@, name@),
    ensures
        exists|now: i64|
            {
                let o = #[trigger] entry_removed(old(disk)@, old(sb)@, old(dir_inode)@, name@, now);
                &&& final(disk)@ == o.disk
                &&& final(sb)@ == o.sb
                &&& final(dir_inode)@ == o.dir
                &&& agrees(r, o.result)
            },
{
    let now: i64 = current_timestamp();
    dir_remove_entry_at(disk, sb, dir_inode, name, now)
}

/// An entry that is found stands wholly in a block of the disk.
pub proof fn lemma_named_entry_place(d: DiskView, dir: InodeView, name: Seq<char>)
    requires
        searchable(d, dir, name),
        entry_named(d, dir, name) is Some,
    ensures
        ({
            let x = entry_named(d, dir, name)->0;
            &&& d.has(x.block as int)
            &&& 0 <= x.offset <= 14 * DIR_ENTRY_SIZE
            &&& x.entry == entry_at(d, x.block, x.offset)
            &&& x.entry.is_named(name)
        }),
{
    let named = |s: int| slot_is_named(d, dir, name, s);
    lemma_first_from(0, slot_count(dir), named);
    let s = place_of(d, dir, name)->0;
    assert(named(s));
    assert(none_named_before(d, dir, name, s)) by {
        assert forall|t: int| 0 <= t < s implies !#[trigger] slot_is_named(d, dir, name, t) by {
            assert(!named(t));
        }
    }
    assert(place_readable(d, dir, s));
}

/// Every entry of a directory stands at one of its places and is in use; there are no more entries
/// than places.
pub proof fn lemma_entries_upto(d: DiskView, dir: InodeView, n: int)
    requires
        0 <= n,
    ensures
        entries_upto(d, dir, n).len() <= n,
        forall|k: int|
            0 <= k < entries_upto(d, dir, n).len() ==> !(#[trigger] entries_upto(
                d,
                dir,
                n,
            )[k]).entry.is_empty() && exists|s: int|
                0 <= s < n && #[trigger] slot(d, dir, s) == Some(entries_upto(d, dir, n)[k]),
    decreases n,
{
    if n > 0 {
        lemma_entries_upto(d, dir, n - 1);
        let before = entries_upto(d, dir, n - 1);
        let all = entries_upto(d, dir, n);
        assert forall|k: int| 0 <= k < all.len() implies !(#[trigger] all[k]).entry.is_empty()
            && exists|s: int| 0 <= s < n && #[trigger] slot(d, dir, s) == Some(all[k]) by {
            if k < before.len() {
                assert(all[k] == before[k]);
                let s = choose|s: int|
                    0 <= s < n - 1 && #[trigger] slot(d, dir, s) == Some(before[k]);
                assert(slot(d, dir, s) == Some(all[k]));
            } else {
                assert(slot(d, dir, n - 1) == Some(all[k]));
            }
        }
    }
}

/// Where names fit, only names that fit are listed.
pub proof fn lemma_entries_fit(d: DiskView, dir: InodeView)
    requires
        names_fit(d, dir),
    ensures
        forall|k: int|
            0 <= k < entries(d, dir).len() ==> (#[trigger] entries(d, dir)[k]).entry.name_len
                <= MAX_NAME_LEN,
{
    lemma_entries_upto(d, dir, slot_count(dir));
    assert forall|k: int| 0 <= k < entries(d, dir).len() implies (#[trigger] entries(
        d,
        dir,
    )[k]).entry.name_len <= MAX_NAME_LEN by {
        let s = choose|s: int|
            0 <= s < slot_count(dir) && #[trigger] slot(d, dir, s) == Some(entries(d, dir)[k]);
        assert(slot(d, dir, s) is Some);
    }
}

} // verus!
