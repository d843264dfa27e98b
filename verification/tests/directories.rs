use simplefs::directory::{
    dir_add_entry, dir_add_entry_at, dir_find, dir_lookup, dir_remove_entry, dir_remove_entry_at,
    try_dir_find, try_dir_lookup, DirEntry, DIR_ENTRY_SIZE, ENTRIES_PER_BLOCK, MAX_NAME_LEN,
};
use simplefs::disk::{Disk, DISK_SIZE};
use simplefs::fs::{format_new_fs_at, FsError, FileKind, SimpleFS};
use simplefs::inode::{read_inode, Inode};
use simplefs::path::{path_components, path_resolve, try_path_resolve};
use simplefs::superblock::SuperBlock;

fn start() -> (Disk, SuperBlock, Inode) {
    let mut disk = Disk::open(vec![0u8; DISK_SIZE as usize]);
    let sb = format_new_fs_at(&mut disk, 10);
    let root = read_inode(&disk, &sb, 1);
    (disk, sb, root)
}

fn names(disk: &Disk, dir: &Inode) -> Vec<String> {
    dir_lookup(disk, dir).iter().map(|t| t.0.name_str().to_string()).collect()
}

#[test]
fn sizes_of_entries() {
    assert_eq!(DIR_ENTRY_SIZE, 34);
    assert_eq!(MAX_NAME_LEN, 28);
    assert_eq!(ENTRIES_PER_BLOCK, 15);
}

#[test]
fn entry_bytes() {
    let entry = DirEntry::new(0x01020304, "hello", false);
    let bytes = entry.to_bytes();
    assert_eq!(&bytes[..11], &[4, 3, 2, 1, 1, 5, b'h', b'e', b'l', b'l', b'o']);
    assert_eq!(&bytes[11..], &[0u8; 23][..]);
    let again = DirEntry::from_bytes(&bytes);
    assert_eq!(again.to_bytes(), bytes);
    assert_eq!(again.name_str(), "hello");
    assert!(!again.is_empty());
    assert_eq!(DirEntry::new(7, "d", true).entry_type, 2);
    assert!(DirEntry::new(7, "", true).is_empty());
}

#[test]
fn long_names_are_cut_off() {
    let name = "abcdefghijklmnopqrstuvwxyz0123456789";
    let entry = DirEntry::new(7, name, false);
    assert_eq!(entry.name_len, 28);
    assert_eq!(entry.name_str(), "abcdefghijklmnopqrstuvwxyz01");
}

#[test]
fn names_are_text() {
    assert_eq!(DirEntry::new(7, "né", false).name_str(), "né");
    let mut entry = DirEntry::new(7, "abc", false);
    entry.name[1] = 0xFF;
    assert_eq!(entry.name_str(), "???");
    let cut = DirEntry::new(7, "aaaaaaaaaaaaaaaaaaaaaaaaaaaé", false);
    assert_eq!(cut.name_str(), "???");
}

#[test]
fn the_root_directory_lists_itself_twice() {
    let (disk, _, root) = start();
    let all = dir_lookup(&disk, &root);
    assert_eq!(all.len(), 2);
    assert_eq!((all[0].0.name_str(), all[0].0.inode, all[0].1, all[0].2), (".", 1, 31, 0));
    assert_eq!((all[1].0.name_str(), all[1].0.inode, all[1].1, all[1].2), ("..", 1, 31, 34));
}

#[test]
fn an_entry_added_is_found() {
    let (mut disk, mut sb, mut root) = start();
    assert_eq!(
        dir_add_entry_at(&mut disk, &mut sb, &mut root, "file", 1000, false, 50),
        Ok(())
    );
    assert_eq!(root.mtime, 50);
    assert_eq!(read_inode(&disk, &sb, 1).mtime, 50);
    let found = dir_find(&disk, &root, "file").unwrap();
    assert_eq!((found.0.inode, found.0.entry_type, found.1, found.2), (1000, 1, 31, 68));
    assert_eq!(dir_find(&disk, &root, ".").unwrap().2, 0);
    assert!(dir_find(&disk, &root, "fil").is_none());
    assert_eq!(names(&disk, &root), vec![".", "..", "file"]);
}

#[test]
fn a_name_is_taken_once() {
    let (mut disk, mut sb, mut root) = start();
    dir_add_entry(&mut disk, &mut sb, &mut root, "file", 1000, false).unwrap();
    let before = disk.load(31);
    assert_eq!(
        dir_add_entry(&mut disk, &mut sb, &mut root, "file", 1001, false),
        Err("entry already exists")
    );
    assert_eq!(disk.load(31), before);
}

#[test]
fn removing_undoes_adding() {
    let (mut disk, mut sb, mut root) = start();
    dir_add_entry_at(&mut disk, &mut sb, &mut root, "a", 1000, false, 1).unwrap();
    dir_add_entry_at(&mut disk, &mut sb, &mut root, "b", 1001, false, 2).unwrap();
    dir_add_entry_at(&mut disk, &mut sb, &mut root, "c", 1002, true, 3).unwrap();
    let before = names(&disk, &root);
    dir_add_entry_at(&mut disk, &mut sb, &mut root, "d", 1003, false, 4).unwrap();
    assert_eq!(dir_remove_entry_at(&mut disk, &mut sb, &mut root, "d", 5), Ok(()));
    assert_eq!(names(&disk, &root), before);
    assert_eq!(dir_remove_entry(&mut disk, &mut sb, &mut root, "a"), Ok(()));
    assert_eq!(names(&disk, &root), vec![".", "..", "b", "c"]);
    assert_eq!(
        dir_remove_entry(&mut disk, &mut sb, &mut root, "a"),
        Err("entry not found")
    );
    dir_add_entry_at(&mut disk, &mut sb, &mut root, "e", 1004, false, 6).unwrap();
    assert_eq!(names(&disk, &root), vec![".", "..", "e", "b", "c"]);
}

#[test]
fn a_full_directory_gets_more_blocks_up_to_ten() {
    let (mut disk, mut sb, mut root) = start();
    for i in 0..13u32 {
        let name = format!("n{}", i);
        dir_add_entry_at(&mut disk, &mut sb, &mut root, &name, 1000 + i, false, 1).unwrap();
    }
    assert_eq!(root.block_count, 1);
    dir_add_entry_at(&mut disk, &mut sb, &mut root, "n13", 1013, false, 2).unwrap();
    assert_eq!((root.block_count, root.size), (2, 1020));
    assert_eq!(&root.direct_blocks[..3], &[31, 32, 0]);
    assert_eq!(sb.free_blocks, 20447);
    let found = dir_find(&disk, &root, "n13").unwrap();
    assert_eq!((found.1, found.2), (32, 0));
    for i in 14..148u32 {
        let name = format!("n{}", i);
        dir_add_entry_at(&mut disk, &mut sb, &mut root, &name, 1000 + i, false, 3).unwrap();
    }
    assert_eq!(root.block_count, 10);
    assert_eq!(
        dir_add_entry_at(&mut disk, &mut sb, &mut root, "more", 1, false, 4),
        Err("directory too large")
    );
    assert_eq!(dir_lookup(&disk, &root).len(), 150);
    assert_eq!(dir_find(&disk, &root, "n100").unwrap().0.inode, 1100);
}

#[test]
fn a_directory_without_a_free_block_stays() {
    let (mut disk, mut sb, mut root) = start();
    for i in 0..13u32 {
        let name = format!("n{}", i);
        dir_add_entry_at(&mut disk, &mut sb, &mut root, &name, 1000 + i, false, 1).unwrap();
    }
    sb.free_blocks = 0;
    assert_eq!(
        dir_add_entry_at(&mut disk, &mut sb, &mut root, "n13", 1013, false, 2),
        Err("no free blocks for directory expansion")
    );
    assert_eq!(root.block_count, 1);
}

#[test]
fn damaged_directories_are_told() {
    let (mut disk, _, root) = start();
    let mut block = disk.load(31);
    block[34 + 5] = 29;
    disk.write_block(31, &block);
    assert!(try_dir_find(&disk, &root, ".").unwrap().is_some());
    assert!(try_dir_find(&disk, &root, "..").is_none());
    assert!(try_dir_find(&disk, &root, "x").is_none());
    assert_eq!(try_dir_lookup(&disk, &root).unwrap().len(), 2);
    let mut far = root;
    far.block_count = 2;
    far.direct_blocks[1] = 20480;
    assert!(try_dir_lookup(&disk, &far).is_none());
}

#[test]
fn pieces_of_paths() {
    assert_eq!(path_components("/home/user/file.txt"), vec!["home", "user", "file.txt"]);
    assert_eq!(path_components("a//b/"), vec!["a", "b"]);
    assert_eq!(path_components("//"), Vec::<&str>::new());
    assert_eq!(path_components(""), Vec::<&str>::new());
    assert_eq!(path_components("/é/ü"), vec!["é", "ü"]);
}

fn tree() -> SimpleFS {
    let mut fs = SimpleFS::mount_at(Disk::open(Vec::new()), "disk.img", 1);
    let home = fs.mkdir_at(1, "home", 2, 2).unwrap();
    let user = fs.mkdir_at(home.ino, "user", 3, 3).unwrap();
    fs.create_at(0, 0, user.ino, "file.txt", 4, 4).unwrap();
    fs.create_at(0, 0, 1, "top", 5, 5).unwrap();
    fs
}

#[test]
fn paths_lead_through_directories() {
    let fs = tree();
    let (inode, parent, name) = path_resolve(&fs.disk, &fs.sb, "/home/user/file.txt").unwrap();
    assert_eq!((inode.inode_no, parent.inode_no, name.as_str()), (4, 3, "file.txt"));
    let (inode, parent, name) = path_resolve(&fs.disk, &fs.sb, "home//user/").unwrap();
    assert_eq!((inode.inode_no, parent.inode_no, name.as_str()), (3, 2, "user"));
    let (inode, parent, name) = path_resolve(&fs.disk, &fs.sb, "/").unwrap();
    assert_eq!((inode.inode_no, parent.inode_no, name.as_str()), (1, 1, ""));
    let (inode, _, _) = path_resolve(&fs.disk, &fs.sb, "/home/user/../..").unwrap();
    assert_eq!(inode.inode_no, 1);
}

#[test]
fn a_path_of_one_name_is_a_lookup() {
    let fs = tree();
    let (inode, _, _) = path_resolve(&fs.disk, &fs.sb, "/top").unwrap();
    assert_eq!(fs.lookup(1, "top"), Ok(fs.inode_to_attr(&inode)));
    assert_eq!(fs.lookup(1, "nowhere"), Err(FsError::NotFound));
}

#[test]
fn paths_that_lead_nowhere() {
    let fs = tree();
    assert_eq!(path_resolve(&fs.disk, &fs.sb, "/nowhere").err(), Some("no such entry"));
    assert_eq!(path_resolve(&fs.disk, &fs.sb, "/nowhere/x").err(), Some("no such directory"));
    assert_eq!(path_resolve(&fs.disk, &fs.sb, "/top/x").err(), Some("not a directory"));
    assert_eq!(
        path_resolve(&fs.disk, &fs.sb, "/aaaaaaaaaaaaaaaaaaaaaaaaaaaaa").err(),
        Some("invalid path component")
    );
    assert!(try_path_resolve(&Disk::open(Vec::new()), &fs.sb, "/").is_none());
}

#[test]
fn a_listing_can_be_taken_in_parts() {
    let fs = tree();
    let all = fs.readdir(1, 0).unwrap();
    let shown: Vec<(u64, i64, FileKind, &str)> =
        all.iter().map(|e| (e.ino, e.offset, e.kind, e.name.as_str())).collect();
    assert_eq!(
        shown,
        vec![
            (1, 1, FileKind::Directory, "."),
            (1, 2, FileKind::Directory, ".."),
            (2, 3, FileKind::Directory, "home"),
            (5, 4, FileKind::RegularFile, "top"),
        ]
    );
    let rest = fs.readdir(1, all[1].offset).unwrap();
    assert_eq!(rest.len(), 2);
    assert_eq!((rest[0].offset, rest[0].name.as_str()), (3, "home"));
    assert_eq!(fs.readdir(1, 4).unwrap().len(), 0);
    assert_eq!(fs.readdir(1, 99).unwrap().len(), 0);
    assert_eq!(fs.readdir(1, -3).unwrap().len(), 4);
    assert_eq!(fs.readdir(5, 0).err(), Some(FsError::NotADirectory));
    assert_eq!(fs.readdir(3, 0).unwrap()[1].ino, 2);
}
