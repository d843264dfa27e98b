//! How paths are read, and where they lead.

use crate::directory::{entry_named, MAX_NAME_LEN};
use crate::directory_laws::dir_sound;
use crate::disk::DiskView;
use crate::fs::{attr_of, looked_up, FileAttr, FsError, FsView};
use crate::inode::{inode_at, InodeView};
use crate::path::{piece_len, pieces, resolvable, resolvable_from, resolved, resolved_from};
use crate::progress::law_sound_directory_readable;
use crate::search::{lemma_first_from, lemma_first_is};
use crate::superblock::SuperBlockView;
use vstd::prelude::*;
use vstd::utf8::encode_utf8;

verus! {

broadcast use crate::inode::lemma_inode_at;

/// No character of `s` is a slash.
pub open spec fn no_slash(s: Seq<char>) -> bool {
    forall|i: int| 0 <= i < s.len() ==> #[trigger] s[i] != '/'
}

/// The first piece of a path ends where it ends, whatever follows after a slash.
proof fn lemma_piece_len(a: Seq<char>, b: Seq<char>)
    ensures
        0 <= piece_len(a) <= a.len(),
        no_slash(a.subrange(0, piece_len(a))),
        piece_len(a) < a.len() ==> a[piece_len(a)] == '/',
        piece_len(a + seq!['/'] + b) == piece_len(a),
{
    let whole = a + seq!['/'] + b;
    let p = |i: int| a[i] == '/';
    let q = |i: int| whole[i] == '/';
    lemma_first_from(0, a.len() as int, p);
    let n = piece_len(a);
    if n < a.len() {
        assert(p(n));
    }
    assert forall|i: int| 0 <= i < n implies !#[trigger] q(i) by {
        assert(!p(i));
    }
    assert(q(n));
    lemma_first_is(0, whole.len() as int, q, n);
    assert forall|i: int| 0 <= i < n implies #[trigger] a.subrange(0, n)[i] != '/' by {
        assert(!p(i));
    }
}

/// A slash separates: the pieces of a path are those before any of its slashes, then those after
/// it. So a slash at the front or at the end, or a second one in a row, makes no difference.
pub proof fn law_slash_separates(a: Seq<char>, b: Seq<char>)
    ensures
        pieces(a + seq!['/'] + b) == pieces(a) + pieces(b),
    decreases a.len(),
{
    let whole = a + seq!['/'] + b;
    let n = piece_len(a);
    lemma_piece_len(a, b);
    if a.len() == 0 {
        assert(whole.subrange(1, whole.len() as int) =~= b);
        assert(pieces(a) + pieces(b) =~= pieces(b));
    } else if n == 0 {
        let rest = a.subrange(1, a.len() as int);
        assert(whole.subrange(1, whole.len() as int) =~= rest + seq!['/'] + b);
        law_slash_separates(rest, b);
    } else {
        let rest = a.subrange(n, a.len() as int);
        assert(whole.subrange(0, n) =~= a.subrange(0, n));
        assert(whole.subrange(n, whole.len() as int) =~= rest + seq!['/'] + b);
        law_slash_separates(rest, b);
        if n >= a.len() {
            assert(rest =~= Seq::empty());
            assert(a.subrange(0, n) =~= a);
            assert(pieces(whole) =~= pieces(a) + pieces(b));
        } else {
            assert(pieces(whole) =~= pieces(a) + pieces(b));
        }
    }
}

/// No piece of a path is empty or holds a slash.
pub proof fn law_pieces_are_names(path: Seq<char>, k: int)
    requires
        0 <= k < pieces(path).len(),
    ensures
        pieces(path)[k].len() > 0,
        no_slash(pieces(path)[k]),
    decreases path.len(),
{
    let n = piece_len(path);
    lemma_piece_len(path, Seq::empty());
    if n == 0 {
        law_pieces_are_names(path.subrange(1, path.len() as int), k);
    } else if n >= path.len() {
        assert(path.subrange(0, n) =~= path);
    } else if k > 0 {
        law_pieces_are_names(path.subrange(n, path.len() as int), k - 1);
    }
}

/// A path of slashes alone, or of nothing, leads to the root directory.
pub proof fn law_root_path(fs: FsView, path: Seq<char>)
    requires
        forall|i: int| 0 <= i < path.len() ==> #[trigger] path[i] == '/',
    ensures
        resolved(fs.disk, fs.sb, path) == Ok::<(InodeView, InodeView, Seq<char>), Seq<char>>(
            (fs.inode(fs.sb.root_inode), fs.inode(fs.sb.root_inode), Seq::empty()),
        ),
{
    lemma_only_slashes(path);
}

proof fn lemma_only_slashes(path: Seq<char>)
    requires
        forall|i: int| 0 <= i < path.len() ==> #[trigger] path[i] == '/',
    ensures
        pieces(path) == Seq::<Seq<char>>::empty(),
    decreases path.len(),
{
    if path.len() > 0 {
        lemma_piece_len(path, Seq::empty());
        assert(path[0] == '/');
        if piece_len(path) > 0 {
            assert(path.subrange(0, piece_len(path))[0] != '/');
        }
        lemma_only_slashes(path.subrange(1, path.len() as int));
    }
}

/// A path of one name has that name as its only piece. A path of nothing has none.
pub proof fn law_one_name_is_one_piece(name: Seq<char>)
    requires
        name.len() > 0,
        no_slash(name),
    ensures
        pieces(name) == seq![name],
        pieces(Seq::<char>::empty()) == Seq::<Seq<char>>::empty(),
{
    lemma_piece_len(name, Seq::empty());
    if piece_len(name) < name.len() {
        assert(name[piece_len(name)] == '/');
    }
}

/// A path of a slash and one name leads to what the name stands for in the root directory.
pub proof fn law_path_of_one_name(fs: FsView, name: Seq<char>)
    requires
        name.len() > 0,
        no_slash(name),
        encode_utf8(name).len() <= MAX_NAME_LEN,
    ensures
        match resolved(fs.disk, fs.sb, seq!['/'] + name) {
            Ok(t) => t.1 == fs.inode(fs.sb.root_inode) && t.2 == name && looked_up(
                fs,
                fs.sb.root_inode,
                name,
            ) == Ok::<FileAttr, FsError>(attr_of(t.0)),
            Err(e) => e == "no such entry"@ && looked_up(fs, fs.sb.root_inode, name) == Err::<
                FileAttr,
                FsError,
            >(FsError::NotFound),
        },
{
    law_slash_separates(Seq::empty(), name);
    assert(Seq::<char>::empty() + seq!['/'] + name =~= seq!['/'] + name);
    law_one_name_is_one_piece(name);
    assert(pieces(Seq::<char>::empty()) + pieces(name) =~= seq![name]);
}

/// Names lead on from where the names before them lead.
proof fn lemma_names_lead_on(
    d: DiskView,
    sb: SuperBlockView,
    from: InodeView,
    a: Seq<Seq<char>>,
    b: Seq<Seq<char>>,
)
    requires
        a.len() > 0,
        b.len() > 0,
        resolved_from(d, sb, from, a) is Ok,
    ensures
        ({
            let (inode, dir, name) = resolved_from(d, sb, from, a)->Ok_0;
            resolved_from(d, sb, from, a + b) == if inode.is_dir() {
                resolved_from(d, sb, inode, b)
            } else {
                Err("not a directory"@)
            }
        }),
    decreases a.len(),
{
    let whole = a + b;
    assert(whole[0] == a[0]);
    let rest = a.subrange(1, a.len() as int);
    assert(whole.subrange(1, whole.len() as int) =~= rest + b);
    if a.len() == 1 {
        assert(rest + b =~= b);
    } else {
        let child = inode_at(d, sb, entry_named(d, from, a[0])->0.entry.inode);
        lemma_names_lead_on(d, sb, child, rest, b);
    }
}

/// A path goes on from where its first part leads: to what the rest leads to from there, or to an
/// error if there is no directory.
pub proof fn law_path_leads_on(fs: FsView, a: Seq<char>, b: Seq<char>)
    requires
        pieces(a).len() > 0,
        pieces(b).len() > 0,
        resolved(fs.disk, fs.sb, a) is Ok,
    ensures
        ({
            let (inode, dir, name) = resolved(fs.disk, fs.sb, a)->Ok_0;
            resolved(fs.disk, fs.sb, a + seq!['/'] + b) == if inode.is_dir() {
                resolved_from(fs.disk, fs.sb, inode, pieces(b))
            } else {
                Err("not a directory"@)
            }
        }),
{
    law_slash_separates(a, b);
    lemma_names_lead_on(
        fs.disk,
        fs.sb,
        fs.inode(fs.sb.root_inode),
        pieces(a),
        pieces(b),
    );
}

/// A path is followed name by name. It ends with an error at the first name that is longer than 28
/// bytes, is not found, or is not the last one and stands for something other than a directory; the
/// error says which. Otherwise it leads to what the last name stands for, in the directory that the
/// names before it lead to.
pub proof fn law_names_are_followed(
    d: DiskView,
    sb: SuperBlockView,
    from: InodeView,
    name: Seq<char>,
    rest: Seq<Seq<char>>,
)
    ensures
        ({
            let r = resolved_from(d, sb, from, seq![name] + rest);
            let x = entry_named(d, from, name);
            let child = inode_at(d, sb, x->0.entry.inode);
            let long = encode_utf8(name).len() > 28;
            &&& long ==> r == Err::<(InodeView, InodeView, Seq<char>), Seq<char>>(
                "invalid path component"@,
            )
            &&& !long && x is None && rest.len() == 0 ==> r == Err::<
                (InodeView, InodeView, Seq<char>),
                Seq<char>,
            >("no such entry"@)
            &&& !long && x is None && rest.len() > 0 ==> r == Err::<
                (InodeView, InodeView, Seq<char>),
                Seq<char>,
            >("no such directory"@)
            &&& !long && x is Some && rest.len() == 0 ==> r == Ok::<
                (InodeView, InodeView, Seq<char>),
                Seq<char>,
            >((child, from, name))
            &&& !long && x is Some && rest.len() > 0 && child.mode & 0x4000 == 0 ==> r == Err::<
                (InodeView, InodeView, Seq<char>),
                Seq<char>,
            >("not a directory"@)
            &&& !long && x is Some && rest.len() > 0 && child.mode & 0x4000 != 0 ==> r
                == resolved_from(d, sb, child, rest)
        }),
{
    let names = seq![name] + rest;
    assert(names[0] == name);
    assert(names.subrange(1, names.len() as int) =~= rest);
}

/// A path with a name in it is followed from the root directory on.
pub proof fn law_paths_begin_at_root(fs: FsView, path: Seq<char>)
    requires
        pieces(path).len() > 0,
    ensures
        resolved(fs.disk, fs.sb, path) == resolved_from(
            fs.disk,
            fs.sb,
            fs.inode(fs.sb.root_inode),
            pieces(path),
        ),
        resolvable(fs.disk, fs.sb, path) <==> fs.has_inode(fs.sb.root_inode) && resolvable_from(
            fs.disk,
            fs.sb,
            fs.inode(fs.sb.root_inode),
            pieces(path),
        ),
{
}

/// On a sound disk a path can be followed: as far as its names lead through sound directories to
/// inodes that are on the disk.
pub proof fn law_path_can_be_followed(
    fs: FsView,
    from: InodeView,
    name: Seq<char>,
    rest: Seq<Seq<char>>,
)
    requires
        dir_sound(fs, from),
        entry_named(fs.disk, from, name) matches Some(x) ==> {
            &&& fs.has_inode(x.entry.inode)
            &&& fs.inode(x.entry.inode).mode & 0x4000 != 0 && rest.len() > 0 ==> resolvable_from(
                fs.disk,
                fs.sb,
                fs.inode(x.entry.inode),
                rest,
            )
        },
    ensures
        resolvable_from(fs.disk, fs.sb, from, seq![name] + rest),
        resolvable_from(fs.disk, fs.sb, from, Seq::empty()),
{
    let names = seq![name] + rest;
    assert(names[0] == name);
    assert(names.subrange(1, names.len() as int) =~= rest);
    law_sound_directory_readable(fs, from, name, 0);
}

} // verus!
