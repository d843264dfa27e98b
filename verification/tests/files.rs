use simplefs::bitmap::Bitmap;
use simplefs::disk::Disk;
use simplefs::file::{MAX_FILE_BLOCKS, MAX_FILE_SIZE};
use simplefs::fs::{FsError, SimpleFS};
use simplefs::inode::{read_inode, write_inode};
use simplefs::superblock::read_superblock;

fn start() -> SimpleFS {
    let mut fs = SimpleFS::mount_at(Disk::open(Vec::new()), "disk.img", 1);
    fs.create_at(0, 0, 1, "a", 2, 2).unwrap();
    fs.create_at(0, 0, 1, "b", 3, 3).unwrap();
    fs
}

fn pattern(len: usize, seed: u32) -> Vec<u8> {
    (0..len as u32).map(|i| ((i * 7 + seed) % 253) as u8).collect()
}

#[test]
fn what_was_written_is_read() {
    let mut fs = start();
    assert_eq!(fs.write_at(2, 0, b"Hello, SimpleFS!\n", 40), Ok(17));
    assert_eq!(fs.read(2, 0, 4096), b"Hello, SimpleFS!\n".to_vec());
    assert_eq!(fs.read(2, 7, 8), b"SimpleFS".to_vec());
    assert_eq!(fs.read(2, 17, 10), Vec::<u8>::new());
    assert_eq!(fs.read(2, 99, 10), Vec::<u8>::new());
    assert_eq!(fs.read(2, 3, 0), Vec::<u8>::new());
    assert_eq!(fs.read(2, -1, 10), Vec::<u8>::new());
    let attr = fs.getattr(2).unwrap();
    assert_eq!((attr.size, attr.blocks, attr.mtime, attr.atime, attr.ctime), (17, 1, 40, 40, 2));
    assert_eq!(fs.sb.free_blocks, 20447);
}

#[test]
fn overwriting_changes_only_what_is_overwritten() {
    let mut fs = start();
    let data = pattern(2000, 1);
    fs.write_at(2, 0, &data, 4).unwrap();
    let patch = pattern(600, 77);
    assert_eq!(fs.write_at(2, 500, &patch, 5), Ok(600));
    let mut wanted = data.clone();
    wanted[500..1100].copy_from_slice(&patch);
    assert_eq!(fs.read(2, 0, 2000), wanted);
    assert_eq!(fs.getattr(2).unwrap().size, 2000);
    assert_eq!(fs.read(2, 505, 20), wanted[505..525].to_vec());
}

#[test]
fn a_gap_reads_as_zeros() {
    let mut fs = start();
    fs.write_at(2, 0, b"abc", 4).unwrap();
    fs.write_at(2, 1200, b"xyz", 5).unwrap();
    let all = fs.read(2, 0, 5000);
    assert_eq!(all.len(), 1203);
    assert_eq!(&all[..3], b"abc");
    assert!(all[3..1200].iter().all(|b| *b == 0));
    assert_eq!(&all[1200..], b"xyz");
    assert_eq!(fs.getattr(2).unwrap().blocks, 3);
}

#[test]
fn the_eleventh_block_brings_the_indirect_block() {
    let mut fs = start();
    let data = pattern(5100, 3);
    fs.write_at(2, 0, &data, 4).unwrap();
    assert_eq!(fs.sb.free_blocks, 20448 - 10);
    assert_eq!(read_inode(&fs.disk, &fs.sb, 2).indirect_block, 0);
    fs.write_at(2, 5100, b"!", 5).unwrap();
    assert_eq!(fs.sb.free_blocks, 20448 - 12);
    let inode = read_inode(&fs.disk, &fs.sb, 2);
    assert_eq!((inode.block_count, inode.indirect_block), (11, 43));
    assert_eq!(inode.get_block(&fs.disk, 10), Some(42));
    assert_eq!(fs.read(2, 5098, 10), vec![data[5098], data[5099], b'!']);
    assert_eq!(read_superblock(&fs.disk).free_blocks, fs.sb.free_blocks);
}

#[test]
fn a_file_can_be_as_large_as_its_index() {
    let mut fs = start();
    assert_eq!(MAX_FILE_BLOCKS, 10 + 255);
    assert_eq!(MAX_FILE_SIZE, 265 * 510);
    let data = pattern(60000, 9);
    assert_eq!(fs.write_at(2, 0, &data, 4), Ok(60000));
    assert_eq!(fs.read(2, 0, 60000), data);
    assert_eq!(
        fs.write_at(2, MAX_FILE_SIZE as i64 - 1, b"xy", 5),
        Err(FsError::FileTooBig)
    );
    assert_eq!(fs.write_at(2, i64::MAX, b"x", 5), Err(FsError::FileTooBig));
    assert_eq!(fs.write_at(2, i64::MIN, b"x", 5), Err(FsError::FileTooBig));
    assert_eq!(fs.write_at(2, -511, b"x", 5), Err(FsError::FileTooBig));
    assert_eq!(fs.try_write_at(2, -510, b"x", 5), None);
    assert_eq!(fs.getattr(2).unwrap().size, 60000);
    assert_eq!(fs.read(2, 0, 60000), data);
}

#[test]
fn the_last_byte_of_the_largest_file() {
    let mut fs = SimpleFS::mount_at(Disk::open(Vec::new()), "disk.img", 1);
    for n in 2..149u32 {
        write_inode(&mut fs.disk, &fs.sb, &simplefs::inode::Inode::new_file_at(n, 0));
    }
    let attr = fs.create_at(0, 0, 1, "big", 2, 2).unwrap();
    assert_eq!(attr.ino, 149);
    assert_eq!(fs.create_at(0, 0, 1, "more", 2, 2), Err(FsError::NoSpace));
    assert_eq!(fs.write_at(149, MAX_FILE_SIZE as i64 - 1, b"z", 4), Ok(1));
    assert_eq!(fs.getattr(149).unwrap().size, MAX_FILE_SIZE);
    assert_eq!(fs.getattr(149).unwrap().blocks, 265);
    assert_eq!(fs.read(149, MAX_FILE_SIZE as i64 - 2, 10), vec![0, b'z']);
    assert_eq!(fs.sb.free_blocks, 20448 - 266);
}

#[test]
fn nothing_written_changes_nothing() {
    let mut fs = start();
    fs.disk.take_commands();
    assert_eq!(fs.write_at(2, 0, b"", 9), Ok(0));
    assert_eq!(fs.write_at(2, -5, b"", 9), Ok(0));
    assert_eq!(fs.disk.take_commands().len(), 0);
    assert_eq!(fs.try_write_at(2, -5, b"x", 9), None);
    assert_eq!(fs.getattr(2).unwrap().mtime, 2);
}

#[test]
fn files_do_not_touch_each_other() {
    let mut fs = start();
    let a = pattern(3000, 5);
    let b = pattern(4000, 6);
    fs.write_at(2, 0, &a[..1000], 4).unwrap();
    fs.write_at(3, 0, &b[..2000], 5).unwrap();
    fs.write_at(2, 1000, &a[1000..], 6).unwrap();
    fs.write_at(3, 2000, &b[2000..], 7).unwrap();
    assert_eq!(fs.read(2, 0, 9999), a);
    assert_eq!(fs.read(3, 0, 9999), b);
    assert_eq!(fs.getattr(2).unwrap().mtime, 6);
}

#[test]
fn no_space_for_a_write() {
    let mut fs = start();
    fs.write_at(2, 0, b"keep", 4).unwrap();
    fs.sb.free_blocks = 2;
    simplefs::superblock::write_superblock(&mut fs.disk, &fs.sb);
    assert_eq!(fs.write_at(2, 0, &pattern(5000, 1), 5), Err(FsError::NoSpace));
    assert_eq!(fs.sb.free_blocks, 0);
    assert_eq!(fs.getattr(2).unwrap().size, 4);
    assert_eq!(fs.read(2, 0, 10), b"keep".to_vec());
    assert!(Bitmap::is_allocated(&fs.disk, &fs.sb, 33));
    assert!(Bitmap::is_allocated(&fs.disk, &fs.sb, 34));
    assert_eq!(fs.write_at(2, 0, &pattern(510, 2), 6), Ok(510));
}

#[test]
fn no_space_for_the_indirect_block() {
    let mut fs = start();
    fs.write_at(2, 0, &pattern(5100, 1), 4).unwrap();
    fs.sb.free_blocks = 1;
    simplefs::superblock::write_superblock(&mut fs.disk, &fs.sb);
    assert_eq!(fs.try_write_at(2, 5100, b"x", 5), None);
}

#[test]
fn a_missing_block_ends_a_read() {
    let mut fs = start();
    fs.write_at(2, 0, &pattern(1500, 1), 4).unwrap();
    let mut inode = read_inode(&fs.disk, &fs.sb, 2);
    inode.direct_blocks[1] = 0;
    write_inode(&mut fs.disk, &fs.sb, &inode);
    assert_eq!(fs.read(2, 0, 1500), pattern(1500, 1)[..510].to_vec());
    assert_eq!(fs.read(2, 600, 100), Vec::<u8>::new());
    inode.direct_blocks[1] = 20480;
    write_inode(&mut fs.disk, &fs.sb, &inode);
    assert_eq!(fs.try_read(2, 0, 1500), None);
    assert_eq!(fs.try_read(2, 0, 510).unwrap().len(), 510);
    assert_eq!(fs.try_read(2, 600, 0), Some(Vec::new()));
    assert_eq!(fs.try_read(200000, 0, 1), None);
}

#[test]
fn writing_uses_the_clock() {
    let mut fs = SimpleFS::mount(Disk::open(Vec::new()), "disk.img");
    let attr = fs.create(0, 0, 1, "now").unwrap();
    assert!(attr.mtime > 1_600_000_000);
    fs.setattr_at(attr.ino, None, 5);
    assert_eq!(fs.getattr(attr.ino).unwrap().mtime, 5);
    assert_eq!(fs.write(attr.ino, 0, b"x"), Ok(1));
    assert!(fs.getattr(attr.ino).unwrap().mtime >= attr.mtime);
    assert_eq!(fs.try_write(attr.ino, 1, b"y"), Some(Ok(1)));
    assert_eq!(fs.read(attr.ino, 0, 5), b"xy".to_vec());
}

#[test]
fn of_a_far_offset_the_lower_bits_count() {
    let mut fs = start();
    fs.create_at(0, 0, 1, "f", 2, 2).unwrap();
    fs.write_at(2, 0, &[7u8; 1500], 3).unwrap();
    let far = 510i64 << 32;
    assert_eq!(fs.write_at(2, far + 600, b"abc", 4), Ok(3));
    assert_eq!(fs.getattr(2).unwrap().size, 603);
    assert_eq!(fs.getattr(2).unwrap().blocks, 3);
    assert_eq!(fs.read(2, 598, 100), b"\x07\x07abc".to_vec());
    assert_eq!(fs.read(2, far + 600, 3), Vec::<u8>::new());
    assert_eq!(fs.write_at(2, far, &[1u8; 510], 5), Ok(510));
    assert_eq!(fs.getattr(2).unwrap().size, 510);
    assert_eq!(fs.write_at(2, far + 135149, b"z", 6), Ok(1));
    assert_eq!(fs.getattr(2).unwrap().size, 135150);
    assert_eq!(fs.write_at(2, far + 135150, b"z", 7), Err(FsError::FileTooBig));
    assert_eq!(fs.write_at(2, far - 511, b"z", 7), Err(FsError::FileTooBig));
    assert_eq!(fs.try_write_at(2, far - 510, b"z", 7), None);
    assert_eq!(fs.try_write_at(2, far - 1, b"zz", 7), None);
    assert_eq!(fs.write_at(2, 1i64 << 32, b"z", 7), Err(FsError::FileTooBig));
}

#[test]
fn of_a_negative_offset_the_lower_bits_count() {
    let mut fs = start();
    fs.create_at(0, 0, 1, "f", 2, 2).unwrap();
    fs.write_at(2, 0, &[9u8; 700], 3).unwrap();
    fs.write_at(2, 0, b"head", 3).unwrap();
    assert_eq!(fs.read(2, -(1i64 << 32), 4), b"head".to_vec());
    assert_eq!(fs.read(2, -(1i64 << 32), 5000).len(), 700);
    assert_eq!(fs.read(2, -(1i64 << 32) + 1, 3), b"ead".to_vec());
    let shifted = fs.read(2, i64::MIN, 5000);
    assert_eq!(shifted[..572], [9u8; 572]);
    assert_eq!(shifted[572..], [0u8; 128]);
    assert_eq!(fs.read(2, -1, 5), Vec::<u8>::new());
    assert_eq!(fs.read(2, -510, 5), Vec::<u8>::new());
}
