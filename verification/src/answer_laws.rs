//! What requests are answered, in terms of what is on the disk.

use crate::consistent::{consistent, node_sound};
use crate::directory::{
    entries, entries_upto, entry_named, place_of, slot, slot_count, slot_is_named, Slot,
};
use crate::directory_laws::{dir_sound, in_use, names_unique};
use crate::disk::DiskView;
use crate::fs::{
    attr_of, attr_set, attributes, dir_listing, inode_with_mode, looked_up, opened, FileAttr,
    FileKind, FsError, FsView, ListedView,
};
use crate::inode::InodeView;
use crate::links::live_dir;
use crate::progress::law_file_can_be_made;
use crate::search::lemma_first_from;
use crate::sound::sound;
use crate::tree::{dir_creatable, dir_created, file_created};
use crate::tree_laws::{
    entered, law_created_file_found, law_made_directory_found, lemma_inode_stored, new_number,
    with_inode,
};
use vstd::prelude::*;
use vstd::utf8::encode_utf8;

verus! {

broadcast use crate::inode::lemma_inode_at;

/// The attributes answered are the fields of the inode. Times before 1970 show as 1970, and the
/// time of creation shows twice.
pub proof fn law_attributes_show_inode(fs: FsView, ino: u32)
    ensures
        fs.inode(ino).nlink == 0 <==> attributes(fs, ino) == Err::<FileAttr, FsError>(
            FsError::NotFound,
        ),
        fs.inode(ino).nlink != 0 ==> attributes(fs, ino) is Ok,
        attributes(fs, ino) matches Ok(attr) ==> shows(attr, fs.inode(ino)),
{
}

/// `attr` carries the fields of `inode`.
pub open spec fn shows(attr: FileAttr, inode: InodeView) -> bool {
    &&& attr.ino == inode.inode_no
    &&& attr.size == inode.size
    &&& attr.blocks == inode.block_count
    &&& attr.perm == inode.mode
    &&& attr.nlink == inode.nlink
    &&& attr.uid == inode.uid
    &&& attr.gid == inode.gid
    &&& attr.kind is Directory <==> inode.mode & 0x4000 != 0
    &&& attr.atime == if inode.atime < 0 { 0 } else { inode.atime as int }
    &&& attr.mtime == if inode.mtime < 0 { 0 } else { inode.mtime as int }
    &&& attr.ctime == if inode.ctime < 0 { 0 } else { inode.ctime as int }
    &&& attr.crtime == attr.ctime
    &&& attr.rdev == 0
    &&& attr.flags == 0
    &&& attr.blksize == 512
}

/// An inode has no other attributes than those that show its fields.
pub proof fn law_attributes_of_inode(inode: InodeView)
    ensures
        shows(attr_of(inode), inode),
{
}

/// Permissions that are set are the permissions shown; the kind and all else but the time of the
/// last change show as before. Without permissions to set, the old ones show.
pub proof fn law_permissions_shown(fs: FsView, ino: u32, mode: Option<u32>, now: i64)
    requires
        sound(fs),
        fs.has_inode(ino),
        fs.inode(ino).nlink != 0,
    ensures
        ({
            let old_attr = attributes(fs, ino)->Ok_0;
            let answer = attributes(attr_set(fs, ino, mode, now), ino);
            let attr = answer->Ok_0;
            &&& answer is Ok
            &&& mode matches Some(m) ==> attr.perm & 0o777 == (m & 0o777) as u16 && attr.perm
                & 0xFE00 == old_attr.perm & 0xF000
            &&& mode is None ==> attr.perm == old_attr.perm
            &&& attr.mtime == if now < 0 { 0 } else { now as int }
            &&& attr == (FileAttr { perm: attr.perm, mtime: attr.mtime, ..old_attr })
            &&& attr == attr_of(inode_with_mode(fs.inode(ino), mode, now))
        }),
{
    let old_mode = fs.inode(ino).mode;
    let inode = inode_with_mode(fs.inode(ino), mode, now);
    assert(attr_set(fs, ino, mode, now) == with_inode(fs, inode));
    lemma_inode_stored(fs, inode);
    if let Some(m) = mode {
        assert(((old_mode & 0xF000) | ((m & 0o777) as u16)) & 0xFE00 == old_mode & 0xF000 && ((
        old_mode & 0xF000) | ((m & 0o777) as u16)) & 0o777 == (m & 0o777) as u16 && ((old_mode
            & 0xF000) | ((m & 0o777) as u16)) & 0x4000 == old_mode & 0x4000) by (bit_vector);
    }
}

/// Whether a file can be opened depends on the two lowest bits of the flags alone: with neither, it
/// takes a permission to read, and with one of them or both, one to write. The handle is the inode
/// number.
pub proof fn law_open_goes_by_two_bits(fs: FsView, ino: u64, flags: i32)
    ensures
        opened(fs, ino, flags) == opened(fs, ino, flags & 3),
        opened(fs, ino, flags) == if flags & 3 == 0 && fs.inode(ino as u32).mode & 0o444 == 0
            || flags & 3 != 0 && fs.inode(ino as u32).mode & 0o222 == 0 {
            Err::<u64, FsError>(FsError::AccessDenied)
        } else {
            Ok(ino)
        },
{
    assert((flags & 3 == 0) == (flags & 1 == 0 && flags & 2 == 0)) by (bit_vector);
    assert((flags & 3) & 1 == flags & 1 && (flags & 3) & 2 == flags & 2) by (bit_vector);
}

/// The entries of a directory are what its places in use hold, in the order of the places. `places`
/// tells where they stand.
pub open spec fn stand_at(d: DiskView, dir: InodeView, all: Seq<Slot>, places: Seq<int>) -> bool {
    &&& places.len() == all.len()
    &&& forall|i: int, j: int| 0 <= i < j < places.len() ==> places[i] < places[j]
    &&& forall|i: int|
        0 <= i < places.len() ==> {
            &&& 0 <= #[trigger] places[i] < 15 * dir.block_count
            &&& slot(d, dir, places[i]) == Some(all[i])
            &&& all[i].entry.name_len != 0
        }
    &&& forall|s: int|
        0 <= s < 15 * dir.block_count && (#[trigger] slot(d, dir, s)) is Some && slot(
            d,
            dir,
            s,
        )->0.entry.name_len != 0 ==> places.contains(s)
}

proof fn lemma_places(d: DiskView, dir: InodeView, n: int) -> (places: Seq<int>)
    requires
        0 <= n,
    ensures
        places.len() == entries_upto(d, dir, n).len(),
        forall|i: int, j: int| 0 <= i < j < places.len() ==> places[i] < places[j],
        forall|i: int|
            0 <= i < places.len() ==> {
                &&& 0 <= #[trigger] places[i] < n
                &&& slot(d, dir, places[i]) == Some(entries_upto(d, dir, n)[i])
                &&& entries_upto(d, dir, n)[i].entry.name_len != 0
            },
        forall|s: int|
            0 <= s < n && (#[trigger] slot(d, dir, s)) is Some && slot(
                d,
                dir,
                s,
            )->0.entry.name_len != 0 ==> places.contains(s),
    decreases n,
{
    if n == 0 {
        Seq::empty()
    } else {
        let before = lemma_places(d, dir, n - 1);
        if slot(d, dir, n - 1) is Some && slot(d, dir, n - 1)->0.entry.name_len != 0 {
            let places = before.push(n - 1);
            assert forall|s: int|
                0 <= s < n && (#[trigger] slot(d, dir, s)) is Some && slot(
                    d,
                    dir,
                    s,
                )->0.entry.name_len != 0 implies places.contains(s) by {
                if s < n - 1 {
                    let i = choose|i: int| 0 <= i < before.len() && before[i] == s;
                    assert(places[i] == s);
                } else {
                    assert(places[before.len() as int] == s);
                }
            }
            places
        } else {
            before
        }
    }
}

/// The entries of a directory are what its places in use hold, all of them, in the order of the
/// places.
pub proof fn law_entries_are_places_in_use(d: DiskView, dir: InodeView) -> (places: Seq<int>)
    ensures
        stand_at(d, dir, entries(d, dir), places),
{
    lemma_places(d, dir, slot_count(dir))
}

/// A listing shows the entries of a directory from the offset on, each with its name, its inode and
/// its kind as the entry has them, and with the offset to go on from. Only a directory is listed.
pub proof fn law_listing_shows_entries(fs: FsView, ino: u32, offset: int, k: int)
    requires
        0 <= k,
    ensures
        fs.inode(ino).mode & 0x4000 == 0 <==> dir_listing(fs, ino, offset) == Err::<
            Seq<ListedView>,
            FsError,
        >(FsError::NotADirectory),
        fs.inode(ino).mode & 0x4000 != 0 ==> dir_listing(fs, ino, offset) is Ok,
        dir_listing(fs, ino, offset) matches Ok(l) ==> {
            let all = entries(fs.disk, fs.inode(ino));
            let start = if offset <= 0 { 0 } else { offset };
            &&& l.len() == if start < all.len() {
                all.len() - start
            } else {
                0
            }
            &&& k < l.len() ==> {
                &&& l[k].name == all[start + k].entry.text()
                &&& l[k].ino == all[start + k].entry.inode
                &&& l[k].kind is Directory <==> all[start + k].entry.entry_type == 2
                &&& l[k].offset == start + k + 1
            }
        },
{
}

/// A name in a listing, looked up in the directory, is found to stand for the inode that is listed
/// with it.
///
/// This holds where names are unique.
pub proof fn law_listed_name_is_found(fs: FsView, ino: u32, k: int)
    requires
        dir_sound(fs, fs.inode(ino)),
        names_unique(fs.disk, fs.inode(ino)),
        dir_listing(fs, ino, 0) matches Ok(l) && 0 <= k < l.len(),
    ensures
        ({
            let item = dir_listing(fs, ino, 0)->Ok_0[k];
            let x = entry_named(fs.disk, fs.inode(ino), item.name);
            &&& x is Some
            &&& x->0.entry.inode == item.ino
            &&& looked_up(fs, ino, item.name) matches Ok(attr) && attr.ino == item.ino
        }),
{
    let dir = fs.inode(ino);
    let all = entries(fs.disk, dir);
    let places = law_entries_are_places_in_use(fs.disk, dir);
    let s = places[k];
    let name = all[k].entry.text();
    let named = |t: int| slot_is_named(fs.disk, dir, name, t);
    assert(named(s));
    lemma_first_from(0, slot_count(dir), named);
    let t = place_of(fs.disk, dir, name)->0;
    assert(named(t));
    assert(in_use(fs.disk, dir, s) is Some);
    assert(in_use(fs.disk, dir, t) is Some);
}

/// A file that has been made is listed in its directory, once more than what was listed before,
/// under its whole name and with its inode; so is a directory.
///
/// This holds for a name that fits into an entry.
pub proof fn law_new_names_are_listed(
    fs: FsView,
    parent: u32,
    name: Seq<char>,
    made: i64,
    added: i64,
)
    requires
        consistent(fs),
        live_dir(fs, parent),
        1 <= encode_utf8(name).len() <= 28,
    ensures
        file_created(fs, parent, name, made, added).result matches Ok(attr) ==> lists(
            file_created(fs, parent, name, made, added).fs,
            parent,
            entries(fs.disk, fs.inode(parent)).len() as int + 1,
            name,
            attr.ino,
            FileKind::RegularFile,
        ),
        dir_creatable(fs, parent, name, made) ==> (dir_created(fs, parent, name, made, added).result
            matches Ok(attr) ==> lists(
            dir_created(fs, parent, name, made, added).fs,
            parent,
            entries(fs.disk, fs.inode(parent)).len() as int + 1,
            name,
            attr.ino,
            FileKind::Directory,
        )),
{
    assert(node_sound(fs, fs.inode(parent)));
    if file_created(fs, parent, name, made, added).result is Ok {
        let after = file_created(fs, parent, name, made, added).fs;
        law_file_can_be_made(fs, parent, name, made, added);
        law_created_file_found(fs, parent, name, made, added);
        lemma_entered_is_listed(fs, after, parent, name, new_number(fs), false);
    }
    if dir_creatable(fs, parent, name, made) && dir_created(
        fs,
        parent,
        name,
        made,
        added,
    ).result is Ok {
        let after = dir_created(fs, parent, name, made, added).fs;
        law_made_directory_found(fs, parent, name, made, added);
        lemma_entered_is_listed(fs, after, parent, name, new_number(fs), true);
    }
}

/// The listing of directory `ino` has `len` items, one of which is `name`, with inode number `n`
/// and of kind `kind`.
pub open spec fn lists(
    fs: FsView,
    ino: u32,
    len: int,
    name: Seq<char>,
    n: u64,
    kind: FileKind,
) -> bool {
    dir_listing(fs, ino, 0) matches Ok(l) && l.len() == len && exists|k: int|
        0 <= k < l.len() && (#[trigger] l[k]).name == name && l[k].ino == n && l[k].kind == kind
}

proof fn lemma_entered_is_listed(
    fs: FsView,
    after: FsView,
    parent: u32,
    name: Seq<char>,
    n: u32,
    is_dir: bool,
)
    requires
        fs.inode(parent).is_dir(),
        entered(fs, after, parent, name, n, is_dir),
    ensures
        lists(
            after,
            parent,
            entries(fs.disk, fs.inode(parent)).len() as int + 1,
            name,
            n as u64,
            if is_dir { FileKind::Directory } else { FileKind::RegularFile },
        ),
{
    let dir = fs.inode(parent);
    let dir2 = after.inode(parent);
    let x = entry_named(after.disk, dir2, name)->0;
    let k = choose|k: int|
        0 <= k <= entries(fs.disk, dir).len() && entries(after.disk, dir2) == #[trigger] entries(
            fs.disk,
            dir,
        ).insert(k, x);
    let l = dir_listing(after, parent, 0)->Ok_0;
    assert(entries(after.disk, dir2)[k] == x);
    assert(l[k].name == name);
}

/// A name is looked up in the places of a directory, from the first on: it stands for what the
/// first place in use with that name holds, and is not found if no place has it. The answer shows
/// the inode that the place names.
pub proof fn law_lookup_finds_first_place(fs: FsView, parent: u32, name: Seq<char>)
    ensures
        match entry_named(fs.disk, fs.inode(parent), name) {
            Some(x) => exists|s: int|
                0 <= s < 15 * fs.inode(parent).block_count && (#[trigger] slot(
                    fs.disk,
                    fs.inode(parent),
                    s,
                )) == Some(x) && x.entry.is_named(name) && not_named_before(fs, parent, name, s),
            None => not_named_before(fs, parent, name, 15 * fs.inode(parent).block_count),
        },
        entry_named(fs.disk, fs.inode(parent), name) is None <==> looked_up(fs, parent, name)
            == Err::<FileAttr, FsError>(FsError::NotFound),
        entry_named(fs.disk, fs.inode(parent), name) matches Some(x) ==> (looked_up(
            fs,
            parent,
            name,
        ) matches Ok(attr) && shows(attr, fs.inode(x.entry.inode))),
{
    let dir = fs.inode(parent);
    let named = |s: int| slot_is_named(fs.disk, dir, name, s);
    lemma_first_from(0, slot_count(dir), named);
    if place_of(fs.disk, dir, name) is Some {
        let s = place_of(fs.disk, dir, name)->0;
        assert(named(s));
        assert forall|t: int| 0 <= t < s && (#[trigger] slot(fs.disk, dir, t)) is Some implies !slot(
            fs.disk,
            dir,
            t,
        )->0.entry.is_named(name) by {
            assert(!named(t));
        }
        assert(slot(fs.disk, dir, s) == entry_named(fs.disk, dir, name));
    } else {
        assert forall|t: int|
            0 <= t < slot_count(dir) && (#[trigger] slot(fs.disk, dir, t)) is Some implies !slot(
            fs.disk,
            dir,
            t,
        )->0.entry.is_named(name) by {
            assert(!named(t));
        }
    }
}

/// No place of directory `parent` before `n` holds the name `name`.
pub open spec fn not_named_before(fs: FsView, parent: u32, name: Seq<char>, n: int) -> bool {
    forall|t: int|
        0 <= t < n && (#[trigger] slot(fs.disk, fs.inode(parent), t)) is Some ==> !slot(
            fs.disk,
            fs.inode(parent),
            t,
        )->0.entry.is_named(name)
}

} // verus!
