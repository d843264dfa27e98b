use simplefs::bitmap::Bitmap;
use simplefs::directory::dir_add_entry_at;
use simplefs::disk::{Disk, DiskCommand};
use simplefs::fs::{FileKind, FsError, SimpleFS, O_RDWR, O_WRONLY};
use simplefs::inode::{inode_block_location, read_inode, write_inode};

fn start() -> SimpleFS {
    SimpleFS::mount_at(Disk::open(Vec::new()), "disk.img", 1)
}

fn names(fs: &SimpleFS, ino: u64) -> Vec<String> {
    fs.readdir(ino, 0).unwrap().iter().map(|e| e.name.clone()).collect()
}

fn commands_of(fs: &mut SimpleFS) -> usize {
    fs.disk.take_commands().len()
}

fn carry_out(file: &mut Vec<u8>, commands: &[DiskCommand]) {
    for command in commands {
        match command {
            DiskCommand::Truncate { size } => file.resize(*size as usize, 0),
            DiskCommand::WriteBlock { block_num, bytes } => {
                let at = *block_num as usize * 512;
                if file.len() < at + 512 {
                    file.resize(at + 512, 0);
                }
                file[at..at + 512].copy_from_slice(bytes);
            },
        }
    }
}

#[test]
fn an_empty_disk_is_laid_out() {
    let fs = start();
    assert_eq!(fs.disk.size(), 10485760);
    assert_eq!(fs.sb.free_blocks, 20448);
    assert_eq!(fs.disk_path, "disk.img");
    let root = fs.getattr(1).unwrap();
    assert_eq!((root.ino, root.kind, root.perm), (1, FileKind::Directory, 0o040755));
    assert_eq!((root.size, root.blocks, root.nlink), (510, 1, 2));
    assert_eq!((root.uid, root.gid, root.blksize), (1000, 1000, 512));
    assert_eq!((root.rdev, root.flags, root.crtime), (0, 0, 1));
    assert_eq!(names(&fs, 1), vec![".", ".."]);
}

#[test]
fn unused_inodes_do_not_exist() {
    let fs = start();
    assert_eq!(fs.getattr(2), Err(FsError::NotFound));
    assert_eq!(fs.getattr(149), Err(FsError::NotFound));
    assert_eq!(fs.try_getattr(122844), None);
    assert_eq!(fs.getattr((1u64 << 32) + 1).unwrap().ino, 1);
}

#[test]
fn a_file_made_is_found() {
    let mut fs = start();
    let attr = fs.create_at(0, 0, 1, "test.txt", 7, 8).unwrap();
    assert_eq!((attr.ino, attr.kind, attr.perm), (2, FileKind::RegularFile, 0o100644));
    assert_eq!((attr.size, attr.nlink, attr.ctime), (0, 1, 7));
    assert_eq!(fs.lookup(1, "test.txt"), Ok(attr));
    assert_eq!(fs.getattr(2), Ok(attr));
    assert_eq!(fs.getattr(1).unwrap().mtime, 8);
    assert_eq!(fs.read(2, 0, 100), Vec::<u8>::new());
    assert_eq!(names(&fs, 1), vec![".", "..", "test.txt"]);
    assert_eq!(fs.create_at(0, 0, 1, "other", 9, 9).unwrap().ino, 3);
    assert_eq!(fs.lookup(1, "test.txt"), Ok(attr));
    assert_eq!(fs.lookup(1, "test"), Err(FsError::NotFound));
}

#[test]
fn a_directory_made_is_found_and_lists_its_parent() {
    let mut fs = start();
    let sub = fs.mkdir_at(1, "subdir", 7, 8).unwrap();
    assert_eq!((sub.ino, sub.kind, sub.perm), (2, FileKind::Directory, 0o040755));
    assert_eq!((sub.size, sub.blocks, sub.nlink), (510, 1, 2));
    assert_eq!(fs.lookup(1, "subdir"), Ok(sub));
    let deep = fs.mkdir_at(2, "deep", 9, 9).unwrap();
    let all = fs.readdir(deep.ino, 0).unwrap();
    assert_eq!((all[0].ino, all[0].name.as_str()), (3, "."));
    assert_eq!((all[1].ino, all[1].name.as_str()), (2, ".."));
    assert_eq!(all.len(), 2);
    let nested = fs.create_at(0, 0, deep.ino, "nested.txt", 9, 9).unwrap();
    fs.write_at(nested.ino, 0, b"Nested file\n", 10).unwrap();
    assert_eq!(fs.read(nested.ino, 0, 100), b"Nested file\n".to_vec());
    assert_eq!(names(&fs, 1), vec![".", "..", "subdir"]);
    assert_eq!(names(&fs, 2), vec![".", "..", "deep"]);
    assert_eq!(fs.sb.free_blocks, 20448 - 3);
}

#[test]
fn a_name_that_is_taken_is_refused() {
    let mut fs = start();
    fs.create_at(0, 0, 1, "x", 2, 2).unwrap();
    fs.mkdir_at(1, "d", 2, 2).unwrap();
    commands_of(&mut fs);
    assert_eq!(fs.create_at(0, 0, 1, "x", 3, 3), Err(FsError::Exists));
    assert_eq!(fs.create_at(0, 0, 1, "d", 3, 3), Err(FsError::Exists));
    assert_eq!(fs.mkdir_at(1, "x", 3, 3), Err(FsError::Exists));
    assert_eq!(fs.mkdir_at(1, ".", 3, 3), Err(FsError::Exists));
    assert_eq!(commands_of(&mut fs), 0);
}

#[test]
fn a_directory_that_may_not_be_written_takes_no_file() {
    let mut fs = start();
    fs.create_at(0, 0, 1, "old", 2, 2).unwrap();
    fs.setattr_at(1, Some(0o555), 3);
    commands_of(&mut fs);
    assert_eq!(fs.create_at(0, 0, 1, "new", 4, 4), Err(FsError::AccessDenied));
    assert_eq!(fs.create_at(0, 0, 1, "old", 4, 4), Err(FsError::Exists));
    assert_eq!(commands_of(&mut fs), 0);
    fs.setattr_at(1, Some(0o755), 5);
    assert!(fs.create_at(0, 0, 1, "new", 6, 6).is_ok());
}

#[test]
fn removing_a_file_gives_its_space_back() {
    let mut fs = start();
    fs.create_at(0, 0, 1, "keep", 2, 2).unwrap();
    fs.create_at(0, 0, 1, "big", 2, 2).unwrap();
    fs.write_at(2, 0, &[1u8; 700], 3).unwrap();
    let free = fs.sb.free_blocks;
    fs.write_at(3, 0, &[2u8; 8000], 3).unwrap();
    assert_eq!(fs.sb.free_blocks, free - 17);
    assert_eq!(fs.unlink_at(1, "big", 9), Ok(()));
    assert_eq!(fs.sb.free_blocks, free);
    for block in 34..51u32 {
        assert!(!Bitmap::is_allocated(&fs.disk, &fs.sb, block));
    }
    assert!(Bitmap::is_allocated(&fs.disk, &fs.sb, 33));
    assert_eq!(fs.lookup(1, "big"), Err(FsError::NotFound));
    assert_eq!(fs.getattr(3), Err(FsError::NotFound));
    assert_eq!(fs.read(2, 0, 1000), vec![1u8; 700]);
    assert_eq!(fs.getattr(1).unwrap().mtime, 9);
    assert_eq!(fs.create_at(0, 0, 1, "again", 10, 10).unwrap().ino, 3);
}

#[test]
fn many_files_come_and_go() {
    let mut fs = start();
    for i in 0..100u32 {
        fs.create_at(0, 0, 1, &format!("f{}", i), 2, 2).unwrap();
    }
    let free = fs.sb.free_blocks;
    assert_eq!(free, 20448 - 6);
    for i in 0..100u64 {
        fs.write_at(2 + i, 0, &[i as u8; 100], 3).unwrap();
    }
    assert_eq!(fs.sb.free_blocks, free - 100);
    for i in 0..100u64 {
        assert_eq!(fs.read(2 + i, 0, 200), vec![i as u8; 100]);
    }
    for i in 0..100u32 {
        assert_eq!(fs.unlink_at(1, &format!("f{}", i), 4), Ok(()));
    }
    assert_eq!(fs.sb.free_blocks, free);
    assert_eq!(names(&fs, 1), vec![".", ".."]);
}

#[test]
fn removing_directories() {
    let mut fs = start();
    let sub = fs.mkdir_at(1, "subdir", 2, 2).unwrap();
    fs.create_at(0, 0, sub.ino, "nested.txt", 3, 3).unwrap();
    commands_of(&mut fs);
    assert_eq!(fs.rmdir_at(1, "subdir", 4), Err(FsError::NotEmpty));
    assert_eq!(fs.unlink_at(1, "subdir", 4), Err(FsError::IsADirectory));
    assert_eq!(fs.rmdir_at(sub.ino, "nested.txt", 4), Err(FsError::NotADirectory));
    assert_eq!(fs.rmdir_at(1, "nowhere", 4), Err(FsError::NotFound));
    assert_eq!(fs.unlink_at(1, "nowhere", 4), Err(FsError::NotFound));
    assert_eq!(commands_of(&mut fs), 0);
    assert_eq!(fs.unlink_at(sub.ino, "nested.txt", 5), Ok(()));
    assert_eq!(fs.rmdir_at(1, "subdir", 6), Ok(()));
    assert_eq!(fs.sb.free_blocks, 20448);
    assert_eq!(fs.getattr(sub.ino), Err(FsError::NotFound));
    assert_eq!(fs.lookup(1, "subdir"), Err(FsError::NotFound));
    assert_eq!(names(&fs, 1), vec![".", ".."]);
    assert!(!Bitmap::is_allocated(&fs.disk, &fs.sb, 32));
}

#[test]
fn making_a_directory_needs_a_block_and_an_inode() {
    let mut fs = start();
    fs.sb.free_blocks = 0;
    commands_of(&mut fs);
    assert_eq!(fs.mkdir_at(1, "d", 2, 2), Err(FsError::NoSpace));
    assert_eq!(commands_of(&mut fs), 0);
    fs.sb.free_blocks = 20448;
    for i in 2..150u32 {
        simplefs::inode::write_inode(
            &mut fs.disk,
            &fs.sb,
            &simplefs::inode::Inode::new_dir_at(i, 0),
        );
    }
    assert_eq!(fs.mkdir_at(1, "d", 2, 2), Err(FsError::NoSpace));
}

#[test]
fn a_file_without_room_for_its_entry_leaves_its_inode() {
    let mut fs = start();
    for i in 0..13u32 {
        fs.create_at(0, 0, 1, &format!("f{}", i), 2, 2).unwrap();
    }
    fs.sb.free_blocks = 0;
    assert_eq!(fs.create_at(0, 0, 1, "f13", 3, 3), Err(FsError::NoSpace));
    assert_eq!(read_inode(&fs.disk, &fs.sb, 15).nlink, 1);
    assert_eq!(fs.lookup(1, "f13"), Err(FsError::NotFound));
    assert_eq!(fs.try_mkdir_at(1, "d", 3, 3), Some(Err(FsError::NoSpace)));
    fs.sb.free_blocks = 1;
    assert_eq!(fs.try_mkdir_at(1, "d", 3, 3), None);
}

#[test]
fn permissions_are_set_and_heeded() {
    let mut fs = start();
    fs.create_at(0, 0, 1, "test.txt", 2, 2).unwrap();
    let attr = fs.setattr_at(2, Some(0o107600), 9);
    assert_eq!((attr.perm, attr.mtime, attr.ctime), (0o100600, 9, 2));
    assert_eq!(fs.getattr(2), Ok(attr));
    assert_eq!(fs.open(5, 5, 2, O_RDWR), Ok(2));
    fs.setattr_at(2, Some(0o444), 10);
    assert_eq!(fs.open(5, 5, 2, O_WRONLY), Err(FsError::AccessDenied));
    assert_eq!(fs.open(5, 5, 2, O_RDWR), Err(FsError::AccessDenied));
    assert_eq!(fs.open(5, 5, 2, 0), Ok(2));
    fs.setattr_at(2, Some(0o222), 10);
    assert_eq!(fs.open(5, 5, 2, 0), Err(FsError::AccessDenied));
    assert_eq!(fs.open(5, 5, 2, O_WRONLY), Ok(2));
    assert_eq!(fs.open(5, 5, 2, O_RDWR), Ok(2));
    fs.setattr_at(2, Some(0), 10);
    assert_eq!(fs.open(5, 5, 2, 0), Err(FsError::AccessDenied));
    fs.setattr_at(2, Some(0o444), 10);
    let kept = fs.setattr_at(2, None, 11);
    assert_eq!((kept.perm, kept.mtime), (0o100444, 11));
    assert_eq!(fs.setattr_at(1, Some(0), 12).kind, FileKind::Directory);
    assert_eq!(fs.try_open(5, 5, 122844, 0), None);
    assert_eq!(fs.try_setattr_at(122844, None, 1), None);
}

#[test]
fn requests_read_the_clock() {
    let mut fs = start();
    assert!(fs.create(0, 0, 1, "a").unwrap().ctime > 1_600_000_000);
    assert!(fs.mkdir(1, "d").unwrap().ctime > 1_600_000_000);
    assert!(fs.setattr(2, Some(0o600)).mtime > 1_600_000_000);
    assert_eq!(fs.unlink(1, "a"), Ok(()));
    assert_eq!(fs.rmdir(1, "d"), Ok(()));
    assert!(fs.getattr(1).unwrap().mtime > 1_600_000_000);
    assert!(fs.try_create(0, 0, 1, "a").unwrap().is_ok());
    assert!(fs.try_mkdir(1, "d").unwrap().is_ok());
    assert!(fs.try_setattr(2, None).is_some());
    assert_eq!(fs.try_unlink(1, "a"), Some(Ok(())));
    assert_eq!(fs.try_rmdir(1, "d"), Some(Ok(())));
    assert!(SimpleFS::try_mount(Disk::open(vec![0u8; 4096]), "x").is_none());
}

#[test]
fn requests_on_a_disk_that_ends_early_are_told() {
    let mut fs = start();
    fs.mkdir_at(1, "d", 2, 2).unwrap();
    fs.create_at(0, 0, 1, "f", 2, 2).unwrap();
    fs.disk.truncate(512 * 32);
    assert_eq!(fs.try_lookup(1, "d").unwrap().unwrap().ino, 2);
    assert_eq!(fs.try_lookup(1, "x"), Some(Err(FsError::NotFound)));
    assert!(fs.try_readdir(2, 0).is_none());
    assert_eq!(fs.try_lookup(2, "x"), None);
    assert_eq!(fs.try_rmdir_at(1, "d", 3), None);
    fs.disk.truncate(512 * 31);
    assert!(fs.try_getattr(2).unwrap().is_ok());
    assert_eq!(fs.try_lookup(1, "d"), None);
    assert_eq!(fs.try_unlink_at(1, "f", 3), None);
    fs.disk.truncate(512 * 6);
    assert_eq!(fs.try_getattr(2), None);
    assert_eq!(fs.try_create_at(0, 0, 1, "x", 3, 3), None);
    assert_eq!(fs.try_mkdir_at(1, "x", 3, 3), None);
}

#[test]
fn the_file_behind_the_disk_keeps_up() {
    let mut fs = start();
    let mut file: Vec<u8> = Vec::new();
    carry_out(&mut file, &fs.disk.take_commands());
    fs.create_at(0, 0, 1, "test.txt", 2, 2).unwrap();
    fs.write_at(2, 0, &[9u8; 6000], 3).unwrap();
    fs.mkdir_at(1, "subdir", 4, 4).unwrap();
    fs.create_at(0, 0, 3, "nested.txt", 5, 5).unwrap();
    fs.setattr_at(2, Some(0o600), 6);
    fs.unlink_at(3, "nested.txt", 7).unwrap();
    carry_out(&mut file, &fs.disk.take_commands());
    assert_eq!(file.len() as u64, fs.disk.size());
    for block in 0..400u32 {
        assert_eq!(&file[block as usize * 512..][..512], &fs.disk.load(block)[..]);
    }
    let again = SimpleFS::mount_at(Disk::open(file), "disk.img", 99);
    assert_eq!(again.sb.free_blocks, fs.sb.free_blocks);
    assert_eq!(names(&again, 1), vec![".", "..", "test.txt", "subdir"]);
    assert_eq!(again.read(2, 0, 9999), vec![9u8; 6000]);
    assert_eq!(again.getattr(2), fs.getattr(2));
    assert_eq!(again.lookup(3, "nested.txt"), Err(FsError::NotFound));
}

#[test]
fn a_file_with_two_names_goes_with_the_last() {
    let mut fs = start();
    fs.create_at(0, 0, 1, "p", 2, 2).unwrap();
    fs.write_at(2, 0, &[5u8; 1500], 3).unwrap();
    let mut root = read_inode(&fs.disk, &fs.sb, 1);
    dir_add_entry_at(&mut fs.disk, &mut fs.sb, &mut root, "q", 2, false, 4).unwrap();
    let mut inode = read_inode(&fs.disk, &fs.sb, 2);
    inode.nlink = 2;
    write_inode(&mut fs.disk, &fs.sb, &inode);
    let free = fs.sb.free_blocks;
    assert_eq!(fs.unlink_at(1, "p", 5), Ok(()));
    assert_eq!(fs.lookup(1, "p"), Err(FsError::NotFound));
    let attr = fs.lookup(1, "q").unwrap();
    assert_eq!((attr.ino, attr.nlink, attr.size, attr.blocks), (2, 1, 1500, 3));
    assert_eq!(fs.read(2, 0, 2000), vec![5u8; 1500]);
    assert_eq!(fs.sb.free_blocks, free);
    assert_eq!(fs.unlink_at(1, "q", 6), Ok(()));
    assert_eq!(fs.sb.free_blocks, free + 3);
    assert_eq!(fs.getattr(2), Err(FsError::NotFound));
}

#[test]
fn inodes_stay_in_their_table() {
    let mut fs = start();
    for i in 0..148u32 {
        let name = format!("n{}", i);
        let attr = if i % 4 == 0 {
            fs.mkdir_at(1, &name, 2, 2).unwrap()
        } else {
            fs.create_at(0, 0, 1, &name, 2, 2).unwrap()
        };
        assert_eq!(attr.ino, 2 + i as u64);
        let (block, _) = inode_block_location(&fs.sb, attr.ino as u32);
        assert!(fs.sb.inode_table_start <= block && block < fs.sb.data_start);
        if i % 4 != 0 {
            fs.write_at(attr.ino, 0, &[i as u8; 2000], 3).unwrap();
        }
        if i == 146 {
            break;
        }
    }
    assert_eq!(fs.create_at(0, 0, 1, "last", 4, 4).unwrap().ino, 149);
    assert_eq!(fs.create_at(0, 0, 1, "none", 4, 4), Err(FsError::NoSpace));
    assert_eq!(fs.mkdir_at(1, "none", 4, 4), Err(FsError::NoSpace));
    for i in 0..147u32 {
        let attr = fs.lookup(1, &format!("n{}", i)).unwrap();
        if i % 4 != 0 {
            assert_eq!(fs.read(attr.ino, 0, 3000), vec![i as u8; 2000]);
        } else {
            assert_eq!(names(&fs, attr.ino), vec![".", ".."]);
        }
    }
}

#[test]
fn a_long_session_survives_a_remount() {
    let mut fs = start();
    let mut file: Vec<u8> = Vec::new();
    let mut dirs: Vec<u64> = vec![1];
    let mut x: u32 = 7;
    for step in 0..900u32 {
        x = x.wrapping_mul(1664525).wrapping_add(1013904223);
        let parent = dirs[(x >> 8) as usize % dirs.len()];
        let name = format!("n{}", (x >> 16) % 9);
        let now = 10 + step as i64;
        match (x >> 24) % 6 {
            0 => {
                let _ = fs.create_at(0, 0, parent, &name, now, now);
            }
            1 => {
                if let Some(Ok(attr)) = fs.try_mkdir_at(parent, &name, now, now) {
                    dirs.push(attr.ino);
                }
            }
            2 => {
                let _ = fs.unlink_at(parent, &name, now);
            }
            3 => {
                if let Ok(attr) = fs.lookup(parent, &name) {
                    if fs.rmdir_at(parent, &name, now).is_ok() {
                        dirs.retain(|d| *d != attr.ino);
                    }
                }
            }
            4 => {
                if let Ok(attr) = fs.lookup(parent, &name) {
                    if attr.kind == FileKind::RegularFile {
                        let data = vec![step as u8; (x % 9000) as usize];
                        fs.write_at(attr.ino, 0, &data, now).unwrap();
                    }
                }
            }
            _ => {
                if let Ok(attr) = fs.lookup(parent, &name) {
                    fs.setattr_at(attr.ino, Some(0o700 | x & 0o077), now);
                }
            }
        }
        let mut found: Vec<u64> = Vec::new();
        for d in dirs.iter() {
            for entry in fs.readdir(*d, 0).unwrap().iter().skip(2) {
                assert!(fs.getattr(entry.ino).is_ok());
                assert!(!found.contains(&entry.ino));
                found.push(entry.ino);
            }
        }
    }
    assert!(dirs.len() > 3);
    carry_out(&mut file, &fs.disk.take_commands());
    let again = SimpleFS::mount_at(Disk::open(file), "disk.img", 5000);
    assert_eq!(again.sb.free_blocks, fs.sb.free_blocks);
    assert_eq!(again.sb.root_inode, fs.sb.root_inode);
    for ino in 1..150u64 {
        assert_eq!(again.getattr(ino), fs.getattr(ino));
    }
    for block in 0..20480u32 {
        assert_eq!(again.disk.load(block), fs.disk.load(block));
    }
}

#[test]
fn a_file_that_comes_and_goes_takes_no_space() {
    let mut fs = start();
    fs.create_at(0, 0, 1, "kept", 2, 2).unwrap();
    fs.write_at(2, 0, &[1u8; 4000], 2).unwrap();
    let free = fs.sb.free_blocks;
    let marks = fs.disk.load(1);
    for i in 0..5u8 {
        let attr = fs.create_at(0, 0, 1, "guest", 3, 3).unwrap();
        fs.write_at(attr.ino, 700 * i as i64, &vec![i; 20000], 4).unwrap();
        assert_eq!(fs.unlink_at(1, "guest", 5), Ok(()));
        assert_eq!(fs.sb.free_blocks, free);
        assert_eq!(fs.disk.load(1), marks);
    }
    assert_eq!(fs.read(2, 0, 5000), vec![1u8; 4000]);
}

#[test]
fn a_remount_keeps_what_was_written_over_a_directory() {
    let mut fs = start();
    let mut file: Vec<u8> = Vec::new();
    fs.mkdir_at(1, "d", 2, 2).unwrap();
    fs.write_at(2, 0, &[0u8; 510], 3).unwrap();
    fs.setattr_at(77, Some(0o640), 4);
    fs.create_at(0, 0, 1, "f", 5, 5).unwrap();
    carry_out(&mut file, &fs.disk.take_commands());
    let again = SimpleFS::mount_at(Disk::open(file), "disk.img", 9);
    assert_eq!(again.sb.free_blocks, fs.sb.free_blocks);
    assert_eq!(names(&again, 1), vec![".", "..", "d", "f"]);
    assert_eq!(names(&again, 2), Vec::<String>::new());
    for block in 0..100u32 {
        assert_eq!(again.disk.load(block), fs.disk.load(block));
    }
}
