use simplefs::bitmap::Bitmap;
use simplefs::disk::{Disk, DiskCommand, BLOCK_SIZE, DISK_SIZE, MAX_BLOCKS, PAGE_SIZE};
use simplefs::fs::{format_new_fs, format_new_fs_at, SimpleFS};
use simplefs::inode::{
    current_timestamp, inode_block_location, read_inode, timestamp, try_read_inode,
    try_write_inode, write_inode, Inode, DIRECT_BLOCKS, INODE_SIZE, S_IFDIR, S_IFREG,
};
use simplefs::superblock::{
    init_superblock, read_superblock, try_read_superblock, write_superblock, SuperBlock,
    SUPERBLOCK_SIZE,
};

fn blank() -> Disk {
    Disk::open(vec![0u8; DISK_SIZE as usize])
}

fn formatted() -> (Disk, SuperBlock) {
    let mut disk = blank();
    let sb = format_new_fs_at(&mut disk, 1000);
    (disk, sb)
}

#[test]
fn sizes_of_the_disk() {
    assert_eq!(DISK_SIZE, 10 * 1024 * 1024);
    assert_eq!(BLOCK_SIZE, 512);
    assert_eq!(PAGE_SIZE, 510);
    assert_eq!(MAX_BLOCKS, 20480);
    assert_eq!(SuperBlock::calc_bitmap_blocks(), 5);
}

#[test]
fn file_types_are_those_of_the_system() {
    assert_eq!(S_IFDIR as u32, libc::S_IFDIR as u32);
    assert_eq!(S_IFREG as u32, libc::S_IFREG as u32);
    assert_eq!(simplefs::fs::O_WRONLY, libc::O_WRONLY);
    assert_eq!(simplefs::fs::O_RDWR, libc::O_RDWR);
}

#[test]
fn a_block_written_is_the_block_read() {
    let mut disk = blank();
    let bytes: Vec<u8> = (0..512u32).map(|i| (i % 251) as u8).collect();
    disk.write_block(7, &bytes);
    let mut buf = vec![9u8; 600];
    disk.read_block(7, &mut buf);
    assert_eq!(&buf[..512], &bytes[..]);
    assert_eq!(&buf[512..], &[9u8; 88][..]);
    assert_eq!(disk.load(6), vec![0u8; 512]);
    assert_eq!(disk.load(8), vec![0u8; 512]);
}

#[test]
fn a_write_past_the_end_makes_the_disk_longer() {
    let mut disk = Disk::open(vec![1u8; 100]);
    assert_eq!(disk.size(), 100);
    assert!(!disk.has_block(0));
    assert_eq!(disk.try_load(0), None);
    disk.write_block(1, &[5u8; 512]);
    assert_eq!(disk.size(), 1024);
    let first = disk.load(0);
    assert_eq!(&first[..100], &[1u8; 100][..]);
    assert_eq!(&first[100..], &[0u8; 412][..]);
    assert_eq!(disk.try_load(1), Some(vec![5u8; 512]));
    assert_eq!(disk.try_load(2), None);
}

#[test]
fn truncate_cuts_off_and_fills_up() {
    let mut disk = Disk::open(vec![3u8; 1024]);
    disk.truncate(512);
    assert_eq!(disk.size(), 512);
    disk.truncate(1536);
    assert_eq!(disk.load(0), vec![3u8; 512]);
    assert_eq!(disk.load(1), vec![0u8; 512]);
    assert_eq!(disk.load(2), vec![0u8; 512]);
}

#[test]
fn parts_of_blocks() {
    let mut disk = blank();
    disk.write_partial(3, 500, &[7u8; 20]);
    let block = disk.load(3);
    assert_eq!(&block[499..510], &[0, 7, 7, 7, 7, 7, 7, 7, 7, 7, 7]);
    assert_eq!(&block[510..], &[0, 0]);
    let mut buf = [1u8; 8];
    disk.read_partial(3, 498, 4, &mut buf);
    assert_eq!(buf, [0, 0, 7, 7, 1, 1, 1, 1]);
    let mut tail = [1u8; 8];
    disk.read_partial(3, 508, 100, &mut tail);
    assert_eq!(tail, [7, 7, 0, 0, 1, 1, 1, 1]);
}

#[test]
fn commands_are_handed_out_once_and_in_order() {
    let mut disk = Disk::open(Vec::new());
    disk.truncate(2048);
    disk.write_block(2, &[6u8; 512]);
    let commands = disk.take_commands();
    assert_eq!(commands.len(), 2);
    assert!(matches!(&commands[0], DiskCommand::Truncate { size: 2048 }));
    match &commands[1] {
        DiskCommand::WriteBlock { block_num, bytes } => {
            assert_eq!(*block_num, 2);
            assert_eq!(bytes, &vec![6u8; 512]);
        },
        _ => panic!("a write was expected"),
    }
    assert_eq!(disk.take_commands().len(), 0);
}

#[test]
fn superblock_bytes() {
    assert_eq!(SuperBlock::SIZE, 44);
    let mut disk = blank();
    let sb = init_superblock(&mut disk);
    let bytes = sb.to_bytes();
    assert_eq!(SUPERBLOCK_SIZE, 44);
    assert_eq!(&bytes[0..16], b"SIMPLEFS-RUST\0\0\0");
    assert_eq!(&bytes[16..20], &20480u32.to_le_bytes());
    assert_eq!(&bytes[20..24], &20449u32.to_le_bytes());
    assert_eq!(&bytes[24..28], &5u32.to_le_bytes());
    assert_eq!(&bytes[28..32], &6u32.to_le_bytes());
    assert_eq!(&bytes[32..36], &25u32.to_le_bytes());
    assert_eq!(&bytes[36..40], &31u32.to_le_bytes());
    assert_eq!(&bytes[40..44], &0u32.to_le_bytes());
    assert_eq!(&disk.load(0)[..44], &bytes[..]);
    assert_eq!(SuperBlock::from_bytes(&bytes).to_bytes(), bytes);
}

#[test]
fn superblock_read_back() {
    let mut disk = blank();
    let mut sb = init_superblock(&mut disk);
    sb.free_blocks = 77;
    sb.root_inode = 0x01020304;
    write_superblock(&mut disk, &sb);
    let again = read_superblock(&disk);
    assert_eq!(again.to_bytes(), sb.to_bytes());
    assert_eq!(again.free_blocks, 77);
    assert_eq!(again.root_inode, 0x01020304);
}

#[test]
fn thirteen_bytes_of_the_magic_number_count() {
    let mut disk = blank();
    let mut sb = init_superblock(&mut disk);
    assert!(sb.is_valid());
    sb.magic[15] = 9;
    assert!(sb.is_valid());
    sb.magic[12] = b'X';
    assert!(!sb.is_valid());
    write_superblock(&mut disk, &sb);
    assert!(try_read_superblock(&disk).is_none());
    assert!(try_read_superblock(&Disk::open(vec![0u8; 511])).is_none());
    assert!(SimpleFS::try_mount_at(disk, "disk.img", 0).is_none());
}

#[test]
fn a_formatted_disk() {
    let (disk, sb) = formatted();
    assert_eq!(sb.free_blocks, 20448);
    assert_eq!(sb.root_inode, 1);
    assert_eq!(read_superblock(&disk).to_bytes(), sb.to_bytes());
    for block in 0..32u32 {
        assert!(Bitmap::is_allocated(&disk, &sb, block));
    }
    for block in 32..MAX_BLOCKS {
        assert!(!Bitmap::is_allocated(&disk, &sb, block));
    }
    assert!(Bitmap::is_allocated(&disk, &sb, MAX_BLOCKS));
    let root = read_inode(&disk, &sb, 1);
    assert_eq!(root.mode, 0o040755);
    assert_eq!(root.nlink, 2);
    assert_eq!(root.size, 510);
    assert_eq!(root.block_count, 1);
    assert_eq!(root.direct_blocks, [31, 0, 0, 0, 0, 0, 0, 0, 0, 0]);
    assert_eq!((root.mtime, root.atime, root.ctime), (1000, 1000, 1000));
    let mut other = blank();
    assert_eq!(format_new_fs(&mut other).to_bytes(), sb.to_bytes());
}

#[test]
fn blocks_are_allocated_from_the_lowest_on() {
    let (mut disk, mut sb) = formatted();
    assert_eq!(Bitmap::allocate_block(&mut disk, &mut sb), Some(32));
    assert_eq!(Bitmap::allocate_block(&mut disk, &mut sb), Some(33));
    assert_eq!(sb.free_blocks, 20446);
    Bitmap::mark_free(&mut disk, &mut sb, 32);
    assert_eq!(sb.free_blocks, 20447);
    assert!(!Bitmap::is_allocated(&disk, &sb, 32));
    assert!(Bitmap::is_allocated(&disk, &sb, 33));
    assert_eq!(Bitmap::allocate_block(&mut disk, &mut sb), Some(32));
    assert_eq!(read_superblock(&disk).free_blocks, 20446);
}

#[test]
fn freeing_undoes_an_allocation() {
    let (mut disk, mut sb) = formatted();
    let before: Vec<Vec<u8>> = (0..6).map(|i| disk.load(i)).collect();
    let block = Bitmap::allocate_block(&mut disk, &mut sb).unwrap();
    assert_ne!(disk.load(1), before[1]);
    Bitmap::mark_free(&mut disk, &mut sb, block);
    for i in 0..6u32 {
        assert_eq!(disk.load(i), before[i as usize]);
    }
}

#[test]
fn a_full_disk_has_no_block_to_give() {
    let (mut disk, mut sb) = formatted();
    sb.free_blocks = 0;
    assert_eq!(Bitmap::allocate_block(&mut disk, &mut sb), None);
    sb.free_blocks = 1;
    for i in 1..6u32 {
        disk.write_block(i, &[0xFFu8; 512]);
    }
    assert_eq!(Bitmap::try_allocate_block(&mut disk, &mut sb), Some(None));
    assert_eq!(sb.free_blocks, 1);
}

#[test]
fn an_allocation_needs_the_bitmap_on_the_disk() {
    let (mut disk, mut sb) = formatted();
    disk.write_block(1, &[0xFFu8; 512]);
    disk.truncate(1024);
    assert_eq!(Bitmap::try_allocate_block(&mut disk, &mut sb), None);
    assert!(!Bitmap::try_mark_free(&mut disk, &mut sb, 4096));
    assert!(Bitmap::try_mark_free(&mut disk, &mut sb, 4095));
    assert_eq!(Bitmap::try_allocate_block(&mut disk, &mut sb), Some(Some(4095)));
}

#[test]
fn marking_one_block() {
    let (mut disk, mut sb) = formatted();
    Bitmap::mark_allocated(&mut disk, &mut sb, 5000);
    assert_eq!(sb.free_blocks, 20447);
    assert!(Bitmap::is_allocated(&disk, &sb, 5000));
    assert!(!Bitmap::is_allocated(&disk, &sb, 4999));
    assert!(!Bitmap::is_allocated(&disk, &sb, 5001));
    assert_eq!(disk.load(2)[(5000 - 4096) / 8], 1 << (5000 % 8));
}

#[test]
fn new_inodes() {
    let file = Inode::new_file_at(1234, 99);
    assert_eq!(file.mode, S_IFREG | 0o644);
    assert_eq!((file.uid, file.gid, file.size), (1000, 1000, 0));
    assert_eq!((file.nlink, file.block_count), (1, 0));
    assert_eq!((file.mtime, file.atime, file.ctime), (99, 99, 99));
    assert_eq!(file.direct_blocks, [0; DIRECT_BLOCKS]);
    assert_eq!(file.indirect_block, 0);
    let dir = Inode::new_dir_at(567, 98);
    assert_eq!(dir.mode, S_IFDIR | 0o755);
    assert_eq!(dir.nlink, 2);
    assert_eq!(dir.inode_no, 567);
}

#[test]
fn inode_bytes() {
    let mut inode = Inode::new_file_at(8, -2);
    inode.mode = 0x1234;
    inode.uid = 0x0506;
    inode.gid = 0x0708;
    inode.size = 0x090A0B0C;
    inode.nlink = 3;
    inode.block_count = 0x0D0E;
    inode.atime = i64::MAX;
    inode.ctime = i64::MIN;
    inode.direct_blocks = [1, 2, 3, 4, 5, 6, 7, 8, 9, 0xFFFF_FFFE];
    inode.indirect_block = 0xDEAD_BEEF;
    let bytes = inode.to_bytes();
    assert_eq!(INODE_SIZE, 84);
    assert_eq!(&bytes[0..2], &[0x34, 0x12]);
    assert_eq!(&bytes[6..10], &0x090A0B0Cu32.to_le_bytes());
    assert_eq!(&bytes[14..22], &(-2i64).to_le_bytes());
    assert_eq!(&bytes[22..30], &i64::MAX.to_le_bytes());
    assert_eq!(&bytes[30..38], &i64::MIN.to_le_bytes());
    assert_eq!(&bytes[74..78], &0xFFFF_FFFEu32.to_le_bytes());
    assert_eq!(&bytes[78..82], &0xDEAD_BEEFu32.to_le_bytes());
    assert_eq!(&bytes[82..84], &[0, 0]);
    let again = Inode::from_bytes(8, &bytes);
    assert_eq!(again.to_bytes(), bytes);
    assert_eq!(again.ctime, i64::MIN);
    assert_eq!(again.inode_no, 8);
}

#[test]
fn inode_places() {
    let (_, sb) = formatted();
    assert_eq!(inode_block_location(&sb, 0), (6, 0));
    assert_eq!(inode_block_location(&sb, 5), (6, 420));
    assert_eq!(inode_block_location(&sb, 6), (7, 0));
    assert_eq!(inode_block_location(&sb, 1000), (172, 336));
}

#[test]
fn an_inode_written_is_the_inode_read_and_no_other_changes() {
    let (mut disk, sb) = formatted();
    let root = read_inode(&disk, &sb, 1).to_bytes();
    let inode = Inode::new_file_at(2, 5);
    write_inode(&mut disk, &sb, &inode);
    assert_eq!(read_inode(&disk, &sb, 2).to_bytes(), inode.to_bytes());
    assert_eq!(read_inode(&disk, &sb, 1).to_bytes(), root);
    assert_eq!(read_inode(&disk, &sb, 3).nlink, 0);
}

#[test]
fn inodes_past_the_end_of_the_disk() {
    let (mut disk, sb) = formatted();
    assert!(try_read_inode(&disk, &sb, 122843).is_some());
    assert!(try_read_inode(&disk, &sb, 122844).is_none());
    assert!(try_read_inode(&disk, &sb, u32::MAX).is_none());
    assert!(!try_write_inode(&mut disk, &sb, &Inode::new_file_at(122844, 0)));
    assert!(try_write_inode(&mut disk, &sb, &Inode::new_file_at(122843, 0)));
}

#[test]
fn permissions() {
    let mut inode = Inode::new_file_at(9, 0);
    inode.mode = S_IFREG | 0o444;
    assert!(inode.check_permission(false, 0, 0));
    assert!(!inode.check_permission(true, 0, 0));
    inode.mode = S_IFREG | 0o002;
    assert!(!inode.check_permission(false, 1, 1));
    assert!(inode.check_permission(true, 1, 1));
    inode.mode = S_IFREG | 0o111;
    assert!(!inode.check_permission(false, 1, 1));
    assert!(!inode.check_permission(true, 1, 1));
}

#[test]
fn direct_and_indirect_blocks_of_an_inode() {
    let (mut disk, _) = formatted();
    let mut inode = Inode::new_file_at(9, 0);
    assert_eq!(inode.get_block(&disk, 0), None);
    assert_eq!(inode.get_block(&disk, 10), None);
    inode.set_block(&mut disk, 9, 70000);
    assert_eq!(inode.get_block(&disk, 9), Some(70000));
    assert_eq!(inode.get_block(&disk, 8), None);
    inode.indirect_block = 100;
    inode.set_block(&mut disk, 10, 300);
    inode.set_block(&mut disk, 264, 0x4142);
    assert_eq!(inode.get_block(&disk, 10), Some(300));
    assert_eq!(inode.get_block(&disk, 11), None);
    assert_eq!(inode.get_block(&disk, 264), Some(0x4142));
    assert_eq!(inode.get_block(&disk, 265), None);
    assert_eq!(&disk.load(100)[508..510], &[0x42, 0x41]);
    inode.indirect_block = 20480;
    assert_eq!(inode.try_get_block(&disk, 9), Some(Some(70000)));
    assert_eq!(inode.try_get_block(&disk, 10), None);
}

#[test]
fn the_clock_is_read() {
    let now = std::time::SystemTime::now()
        .duration_since(std::time::UNIX_EPOCH)
        .unwrap()
        .as_secs() as i64;
    let stamp = current_timestamp();
    assert!(stamp >= now && stamp <= now + 20);
    let inode = Inode::new_file(3);
    assert!(inode.mtime >= now && inode.mtime <= now + 20);
    assert_eq!(inode.mtime, inode.ctime);
    assert!(Inode::new_dir(3).ctime >= now);
}

#[test]
fn time_stamps_of_readings() {
    assert_eq!(timestamp(Some(1700000000)), 1700000000);
    assert_eq!(timestamp(Some(0)), 0);
    assert_eq!(timestamp(None), 0);
    assert_eq!(SimpleFS::seconds_of(5), 5);
    assert_eq!(SimpleFS::seconds_of(-5), 0);
}
