//! Paths: names of directories from the root on, each followed by `/`, then the name of a file.

use crate::directory::{entry_named, searchable, try_dir_find, MAX_NAME_LEN};
use crate::disk::{Disk, DiskView};
use crate::inode::{inode_at, inode_on_disk, try_read_inode, Inode, InodeView, S_IFDIR};
use crate::search::{first_from, lemma_first_from, lemma_first_is};
use crate::superblock::{SuperBlock, SuperBlockView};
use vstd::prelude::*;
use vstd::string::StrSliceExecFns;
use vstd::utf8::encode_utf8;

verus! {

broadcast use crate::inode::lemma_inode_at;

/// The position of the first `/` of `path`, or its length.
pub open spec fn piece_len(path: Seq<char>) -> int {
    match first_from(0, path.len() as int, |i: int| path[i] == '/') {
        Some(n) => n,
        None => path.len() as int,
    }
}

/// The pieces of `path` between slashes, without the empty ones.
pub open spec fn pieces(path: Seq<char>) -> Seq<Seq<char>>
    decreases path.len(),
{
    let n = piece_len(path);
    if path.len() == 0 {
        Seq::empty()
    } else if n <= 0 {
        pieces(path.subrange(1, path.len() as int))
    } else if n >= path.len() {
        seq![path]
    } else {
        seq![path.subrange(0, n)] + pieces(path.subrange(n, path.len() as int))
    }
}

/// What the names `names` lead to from directory `from`: the inode of the last one, the inode of
/// the directory that it stands in, and the name; or an error message.
pub open spec fn resolved_from(
    d: DiskView,
    sb: SuperBlockView,
    from: InodeView,
    names: Seq<Seq<char>>,
) -> Result<(InodeView, InodeView, Seq<char>), Seq<char>>
    decreases names.len(),
{
    if names.len() == 0 {
        Err("path resolution failed"@)
    } else if encode_utf8(names[0]).len() > MAX_NAME_LEN {
        Err("invalid path component"@)
    } else {
        match entry_named(d, from, names[0]) {
            Some(x) => {
                let child = inode_at(d, sb, x.entry.inode);
                if names.len() == 1 {
                    Ok((child, from, names[0]))
                } else if !child.is_dir() {
                    Err("not a directory"@)
                } else {
                    resolved_from(d, sb, child, names.subrange(1, names.len() as int))
                }
            },
            None => if names.len() == 1 {
                Err("no such entry"@)
            } else {
                Err("no such directory"@)
            },
        }
    }
}

/// Every directory on the way can be searched, and every inode on the way is on the disk.
pub open spec fn resolvable_from(
    d: DiskView,
    sb: SuperBlockView,
    from: InodeView,
    names: Seq<Seq<char>>,
) -> bool
    decreases names.len(),
{
    if names.len() == 0 || encode_utf8(names[0]).len() > MAX_NAME_LEN {
        true
    } else {
        &&& searchable(d, from, names[0])
        &&& match entry_named(d, from, names[0]) {
            Some(x) => {
                let child = inode_at(d, sb, x.entry.inode);
                &&& inode_on_disk(d, sb, x.entry.inode)
                &&& names.len() > 1 && child.is_dir() ==> resolvable_from(
                    d,
                    sb,
                    child,
                    names.subrange(1, names.len() as int),
                )
            },
            None => true,
        }
    }
}

/// What path `path` leads to. The root directory is its own parent, and has no name.
pub open spec fn resolved(d: DiskView, sb: SuperBlockView, path: Seq<char>) -> Result<
    (InodeView, InodeView, Seq<char>),
    Seq<char>,
> {
    let root = inode_at(d, sb, sb.root_inode);
    if pieces(path).len() == 0 {
        Ok((root, root, Seq::empty()))
    } else {
        resolved_from(d, sb, root, pieces(path))
    }
}

/// The root directory is on the disk, and so is all that lies on the way of path `path`.
pub open spec fn resolvable(d: DiskView, sb: SuperBlockView, path: Seq<char>) -> bool {
    &&& inode_on_disk(d, sb, sb.root_inode)
    &&& resolvable_from(d, sb, inode_at(d, sb, sb.root_inode), pieces(path))
}

/// The pieces of `path` between slashes, without the empty ones.
pub fn path_components(path: &str) -> (r: Vec<&str>)
    ensures
        r@.map_values(|s: &str| s@) == pieces(path@),
{
    let ghost view = |s: &str| s@;
    let n: usize = path.unicode_len();
    let mut out: Vec<&str> = Vec::new();
    let mut pos: usize = 0;
    assert(out@.map_values(view) =~= Seq::empty());
    assert(path@.subrange(0, n as int) =~= path@);
    while pos < n
        invariant
            pos <= n,
            n == path@.len(),
            view == (|s: &str| s@),
            out@.map_values(view) + pieces(path@.subrange(pos as int, n as int)) =~= pieces(path@),
        decreases n - pos,
    {
        let ghost rest = path@.subrange(pos as int, n as int);
        let ghost slash = |i: int| rest[i] == '/';
        let mut end: usize = pos;
        while end < n && path.get_char(end) != '/'
            invariant
                pos <= end <= n,
                n == path@.len(),
                rest == path@.subrange(pos as int, n as int),
                slash == (|i: int| rest[i] == '/'),
                forall|i: int| 0 <= i < end - pos ==> !#[trigger] slash(i),
            decreases n - end,
        {
            end = end + 1;
        }
        proof {
            if end < n {
                assert(slash(end - pos));
                lemma_first_is(0, rest.len() as int, slash, end - pos);
            } else {
                lemma_first_from(0, rest.len() as int, slash);
                assert(piece_len(rest) == rest.len());
            }
            assert(piece_len(rest) == end - pos);
        }
        if end == pos {
            pos = pos + 1;
            assert(rest.subrange(1, rest.len() as int) =~= path@.subrange(pos as int, n as int));
        } else {
            let ghost before = out@;
            let piece = path.substring_char(pos, end);
            out.push(piece);
            assert(out@.map_values(view) =~= before.map_values(view).push(piece@));
            assert(rest.subrange(0, end - pos) =~= piece@);
            assert(rest.subrange(end - pos, rest.len() as int) =~= path@.subrange(
                end as int,
                n as int,
            ));
            proof {
                if end == n {
                    assert(rest =~= piece@);
                    assert(path@.subrange(end as int, n as int) =~= Seq::empty());
                }
                assert(pieces(rest) =~= seq![piece@] + pieces(
                    path@.subrange(end as int, n as int),
                ));
            }
            pos = end;
        }
    }
    assert(path@.subrange(n as int, n as int) =~= Seq::empty());
    assert(out@.map_values(view) =~= pieces(path@));
    out
}

/// The inode that `path` leads to, the inode of the directory that it stands in, and its name
/// there. Nothing is answered where the disk does not let the path be followed.
pub fn try_path_resolve(disk: &Disk, sb: &SuperBlock, path: &str) -> (r: Option<
    Result<(Inode, Inode, String), &'static str>,
>)
    ensures
        r is Some <==> resolvable(disk@, sb@, path@),
        r matches Some(result) ==> match result {
            Ok(t) => resolved(disk@, sb@, path@) == Ok::<
                (InodeView, InodeView, Seq<char>),
                Seq<char>,
            >((t.0@, t.1@, t.2@)),
            Err(e) => resolved(disk@, sb@, path@) == Err::<
                (InodeView, InodeView, Seq<char>),
                Seq<char>,
            >(e@),
        },
{
    let components = path_components(path);
    let ghost view = |s: &str| s@;
    let ghost names = pieces(path@);
    let root = match try_read_inode(disk, sb, sb.root_inode) {
        Some(root) => root,
        None => {
            return None;
        },
    };
    let n: usize = components.len();
    assert(names.len() == n) by {
        assert(components@.map_values(view) == names);
    }
    if n == 0 {
        return Some(Ok((root, root, String::new())));
    }
    let mut current = root;
    let mut idx: usize = 0;
    assert(names.subrange(0, n as int) =~= names);
    while idx < n
        invariant
            idx <= n,
            n == components@.len(),
            n == names.len(),
            n > 0,
            names == pieces(path@),
            view == (|s: &str| s@),
            components@.map_values(view) == names,
            resolvable(disk@, sb@, path@) == resolvable_from(
                disk@,
                sb@,
                current@,
                names.subrange(idx as int, n as int),
            ),
            resolved(disk@, sb@, path@) == resolved_from(
                disk@,
                sb@,
                current@,
                names.subrange(idx as int, n as int),
            ),
        decreases n - idx,
    {
        let component: &str = components[idx];
        let ghost rest = names.subrange(idx as int, n as int);
        assert(component@ == rest[0]) by {
            assert(components@.map_values(view)[idx as int] == component@);
        }
        assert(rest.subrange(1, rest.len() as int) =~= names.subrange(idx + 1, n as int));
        if component.as_bytes().len() > MAX_NAME_LEN {
            return Some(Err("invalid path component"));
        }
        match try_dir_find(disk, &current, component) {
            Some(Some((de, _, _))) => {
                let child = match try_read_inode(disk, sb, de.inode) {
                    Some(child) => child,
                    None => {
                        return None;
                    },
                };
                if idx == n - 1 {
                    return Some(Ok((child, current, component.to_string())));
                }
                if child.mode & S_IFDIR == 0 {
                    return Some(Err("not a directory"));
                }
                current = child;
            },
            Some(None) => {
                if idx == n - 1 {
                    return Some(Err("no such entry"));
                }
                return Some(Err("no such directory"));
            },
            None => {
                return None;
            },
        }
        idx = idx + 1;
    }
    Some(Err("path resolution failed"))
}

/// The inode that `path` leads to, the inode of the directory that it stands in, and its name
/// there.
pub fn path_resolve(disk: &Disk, sb: &SuperBlock, path: &str) -> (r: Result<
    (Inode, Inode, String),
    &'static str,
>)
    requires
        resolvable(disk@, sb@, path@),
    ensures
        match r {
            Ok(t) => resolved(disk@, sb@, path@) == Ok::<
                (InodeView, InodeView, Seq<char>),
                Seq<char>,
            >((t.0@, t.1@, t.2@)),
            Err(e) => resolved(disk@, sb@, path@) == Err::<
                (InodeView, InodeView, Seq<char>),
                Seq<char>,
            >(e@),
        },
{
    try_path_resolve(disk, sb, path).unwrap()
}

} // verus!
