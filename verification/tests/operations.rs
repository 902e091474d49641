//! The operations on a small image with two groups.

use std::cell::RefCell;
use std::rc::Rc;

use ext2_fuse::allocation::Resource;
use ext2_fuse::device::{Device, DeviceData, Storage};
use ext2_fuse::errno::Errno;
use ext2_fuse::filesystem::{AttrChanges, Timespec};
use ext2_fuse::fs::HelloFS;
use ext2_fuse::group::BlockGroupDescTable;
use ext2_fuse::indirect::InodeBlockIterator;
use ext2_fuse::inode::{FileType, Inode};
use ext2_fuse::superblock::Superblock;

const BLOCK: usize = 1024;

/// A medium in memory that can be told to fail.
struct Memory {
    bytes: Rc<RefCell<Vec<u8>>>,
    requests_left: Rc<RefCell<usize>>,
}

impl Memory {
    fn works(&self) -> bool {
        let mut left = self.requests_left.borrow_mut();
        if *left == 0 {
            return false;
        }
        *left -= 1;
        true
    }
}

impl Storage for Memory {
    fn read_exact_at(&mut self, addr: u64, len: usize) -> Option<Vec<u8>> {
        let at = addr as usize;
        let bytes = self.bytes.borrow();
        if !self.works() || at + len > bytes.len() {
            return None;
        }
        Some(bytes[at..at + len].to_vec())
    }

    fn write_all_at(&mut self, addr: u64, data: &Vec<u8>) -> bool {
        let at = addr as usize;
        let mut bytes = self.bytes.borrow_mut();
        if !self.works() || at + data.len() > bytes.len() {
            return false;
        }
        bytes[at..at + data.len()].copy_from_slice(data);
        true
    }
}

/// The image, the number of requests that will still be answered, and the
/// file system on it.
struct Setup {
    bytes: Rc<RefCell<Vec<u8>>>,
    requests_left: Rc<RefCell<usize>>,
    fs: HelloFS<Memory>,
}

impl Setup {
    fn image(&self) -> Vec<u8> {
        self.bytes.borrow().clone()
    }

    fn put(&self, at: usize, data: &[u8]) {
        self.bytes.borrow_mut()[at..at + data.len()].copy_from_slice(data);
    }

    fn superblock(&self) -> Superblock {
        Superblock::from_bytes(&self.image()[1024..1288].to_vec())
    }

    fn group(&self, g: usize) -> BlockGroupDescTable {
        let at = 2 * BLOCK + 32 * g;
        BlockGroupDescTable::from_bytes(&self.image()[at..at + 32].to_vec())
    }

    fn set_group(&self, g: usize, group: &BlockGroupDescTable) {
        self.put(2 * BLOCK + 32 * g, &group.to_bytes());
    }

    fn set_inode(&self, ino: usize, inode: &Inode) {
        self.put(inode_at(ino), &inode.to_bytes());
    }

    fn fail_after(&self, requests: usize) {
        *self.requests_left.borrow_mut() = requests;
    }
}

/// Where an inode of the image stands.
fn inode_at(ino: usize) -> usize {
    if ino <= 16 {
        5 * BLOCK + 128 * (ino - 1)
    } else {
        11 * BLOCK + 128 * (ino - 17)
    }
}

fn entry(inode: u32, rec_len: u16, file_type: u8, name: &[u8]) -> Vec<u8> {
    let mut b = Vec::new();
    b.extend_from_slice(&inode.to_le_bytes());
    b.extend_from_slice(&rec_len.to_le_bytes());
    b.push(name.len() as u8);
    b.push(file_type);
    b.extend_from_slice(name);
    b.resize(rec_len as usize, 0);
    b
}

/// What block `b` of the image holds where it holds file data.
fn data_block(b: usize) -> Vec<u8> {
    (0..BLOCK).map(|i| (i * 7 + b * 13) as u8).collect()
}

/// 64 blocks in two groups. The root directory, in block 7, holds "hello" with
/// inode 12, of 1500 bytes in blocks 20 and 21. Inode 11 has 12 direct blocks
/// and two behind a page in block 22.
fn setup() -> Setup {
    let mut image = vec![0u8; 65 * BLOCK];

    let mut sb = Superblock::default();
    sb.inode_count = 32;
    sb.blocks_count = 64;
    sb.free_blocks_count = 36;
    sb.free_inodes_count = 20;
    sb.first_data_block = 1;
    sb.blocks_per_group = 32;
    sb.inodes_per_group = 16;
    sb.magic = 0xef53;
    image[1024..1288].copy_from_slice(&sb.to_bytes());

    let group = |block_bitmap: u32, blocks: u16, inodes: u16| BlockGroupDescTable {
        block_bitmap,
        inode_bitmap: block_bitmap + 1,
        inode_table: block_bitmap + 2,
        free_blocks_count: blocks,
        free_inodes_count: inodes,
        used_dir_count: 0,
        pad: 0,
        reserved: [0; 12],
    };
    image[2048..2080].copy_from_slice(&group(3, 8, 4).to_bytes());
    image[2080..2112].copy_from_slice(&group(9, 28, 16).to_bytes());

    let bitmap = |start: [u8; 4]| {
        let mut b = vec![0xff; BLOCK];
        b[..4].copy_from_slice(&start);
        b
    };
    image[3 * BLOCK..4 * BLOCK].copy_from_slice(&bitmap([0xff, 0xff, 0xff, 0x00]));
    image[4 * BLOCK..5 * BLOCK].copy_from_slice(&bitmap([0xff, 0x0f, 0xff, 0xff]));
    image[9 * BLOCK..10 * BLOCK].copy_from_slice(&bitmap([0x0f, 0x00, 0x00, 0x00]));
    image[10 * BLOCK..11 * BLOCK].copy_from_slice(&bitmap([0x00, 0x00, 0xff, 0xff]));

    let mut root = Inode::default();
    root.mode = 0x41ed;
    root.size = 1024;
    root.links_count = 2;
    root.block[0] = 7;
    image[inode_at(2)..inode_at(2) + 128].copy_from_slice(&root.to_bytes());

    let mut hello = Inode::default();
    hello.mode = 0x81a4;
    hello.size = 1500;
    hello.blocks = 4;
    hello.links_count = 1;
    hello.block[0] = 20;
    hello.block[1] = 21;
    image[inode_at(12)..inode_at(12) + 128].copy_from_slice(&hello.to_bytes());

    let mut big = Inode::default();
    big.mode = 0x81a4;
    big.size = 14 * 1024 - 24;
    for i in 0..12 {
        big.block[i] = 20;
    }
    big.block[12] = 22;
    image[inode_at(11)..inode_at(11) + 128].copy_from_slice(&big.to_bytes());
    image[22 * BLOCK..22 * BLOCK + 4].copy_from_slice(&21u32.to_le_bytes());
    image[22 * BLOCK + 4..22 * BLOCK + 8].copy_from_slice(&20u32.to_le_bytes());

    let mut dir = entry(2, 12, 2, b".");
    dir.extend_from_slice(&entry(2, 12, 2, b".."));
    dir.extend_from_slice(&entry(12, 1000, 1, b"hello"));
    image[7 * BLOCK..8 * BLOCK].copy_from_slice(&dir);
    for b in [20, 21] {
        image[b * BLOCK..(b + 1) * BLOCK].copy_from_slice(&data_block(b));
    }

    let bytes = Rc::new(RefCell::new(image));
    let requests_left = Rc::new(RefCell::new(1_000_000));
    let memory = Memory { bytes: bytes.clone(), requests_left: requests_left.clone() };
    let mut fs = HelloFS::new(Device::new(memory));
    assert!(fs.init().is_ok());
    Setup { bytes, requests_left, fs }
}

fn text(s: &str) -> Option<String> {
    Some(String::from(s))
}

fn no_changes() -> AttrChanges {
    AttrChanges { mode: None, uid: None, gid: None, size: None, atime: None, mtime: None }
}

#[test]
fn a_new_file_system_has_an_empty_superblock() {
    let memory = Memory {
        bytes: Rc::new(RefCell::new(vec![])),
        requests_left: Rc::new(RefCell::new(9)),
    };
    let mut fs = HelloFS::new(Device::new(memory));
    assert_eq!(fs.superblock.to_bytes(), vec![0u8; 264]);
    assert!(!fs.superblock.is_readable());
    assert_eq!(fs.init().err(), Some(Errno::EIO));
    assert_eq!(fs.superblock.to_bytes(), vec![0u8; 264]);
}

#[test]
fn init_loads_the_superblock() {
    let s = setup();
    assert_eq!(s.fs.superblock.magic, 0xef53);
    assert_eq!(s.fs.superblock.to_bytes(), s.image()[1024..1288].to_vec());
    assert!(s.fs.superblock.is_readable());
    assert!(s.fs.superblock.is_allocatable());
}

#[test]
fn a_stored_superblock_is_loaded() {
    let mut s = setup();
    s.fs.superblock.mnt_count = 9;
    assert!(s.fs.store_superblock().is_ok());
    assert_eq!(s.superblock().mnt_count, 9);
    s.fs.superblock.mnt_count = 0;
    assert!(s.fs.load_superblock().is_ok());
    assert_eq!(s.fs.superblock.mnt_count, 9);
}

#[test]
fn blocks_and_inodes_are_found_by_arithmetic() {
    let mut s = setup();
    assert_eq!(s.fs.block_size(), 1024);
    assert_eq!(s.fs.block2addr(7), 7168);
    assert_eq!(s.fs.get_inode_group_info(1), (0, 0));
    assert_eq!(s.fs.get_inode_group_info(16), (0, 15));
    assert_eq!(s.fs.get_inode_group_info(17), (1, 0));
    s.fs.superblock.log_block_size = 2;
    assert_eq!(s.fs.block_size(), 4096);
    assert_eq!(s.fs.block2addr(u32::MAX), 0xffff_ffff_000);
}

#[test]
fn blocks_are_loaded_and_stored() {
    let mut s = setup();
    assert_eq!(s.fs.load_block(20).ok(), Some(data_block(20)));
    let mut page = s.fs.load_pointers(22).unwrap();
    assert_eq!(page.len(), 256);
    assert_eq!((page[0], page[1], page[2]), (21, 20, 0));
    page[255] = 0x01020304;
    assert!(s.fs.store_block(30, &page).is_ok());
    assert_eq!(s.image()[31 * BLOCK - 4..31 * BLOCK], [4, 3, 2, 1]);
    assert_eq!(s.fs.load_pointers(30).ok(), Some(page));
    assert_eq!(s.fs.load_block(65).err(), Some(Errno::EIO));
}

#[test]
fn group_descriptors_are_loaded_and_stored() {
    let mut s = setup();
    let mut group = s.fs.load_bgdt(1).unwrap();
    assert_eq!((group.block_bitmap, group.free_inodes_count), (9, 16));
    group.used_dir_count = 3;
    assert!(s.fs.store_bgdt(1, &group).is_ok());
    assert_eq!(s.group(1).to_bytes(), group.to_bytes());
    assert_eq!(s.group(0).used_dir_count, 0);
}

#[test]
fn a_bitmap_bit_keeps_its_place() {
    let mut s = setup();
    assert_eq!(s.fs.load_bitmap_bit(4, 3).ok(), Some(0b1000));
    assert_eq!(s.fs.load_bitmap_bit(4, 11).ok(), Some(0b1000));
    assert_eq!(s.fs.load_bitmap_bit(4, 12).ok(), Some(0));
    assert_eq!(s.fs.load_bitmap_bit(65, 0).err(), Some(Errno::EIO));
}

#[test]
fn a_stored_inode_is_loaded_and_others_stay() {
    let mut s = setup();
    let root = s.fs.load_inode(2).unwrap().to_bytes();
    let mut inode = s.fs.load_inode(12).unwrap();
    assert_eq!(inode.size, 1500);
    inode.size = 99;
    inode.block[14] = 7;
    assert!(s.fs.store_inode(12, &inode).is_ok());
    assert_eq!(s.fs.load_inode(12).unwrap().to_bytes(), inode.to_bytes());
    assert_eq!(s.fs.load_inode(2).unwrap().to_bytes(), root);
}

#[test]
fn storing_what_was_loaded_changes_nothing() {
    let mut s = setup();
    let before = s.image();
    let inode = s.fs.load_inode(12).unwrap();
    assert!(s.fs.store_inode(12, &inode).is_ok());
    assert_eq!(s.image(), before);
}

#[test]
fn an_inode_that_is_not_in_use_is_not_there() {
    let mut s = setup();
    assert_eq!(s.fs.load_inode(13).err(), Some(Errno::ENOENT));
    assert_eq!(s.fs.getattr(17).err(), Some(Errno::ENOENT));
    assert_eq!(s.fs.read(13, 0, 1).err(), Some(Errno::ENOENT));
    assert_eq!(s.fs.readdir(13, 0).err(), Some(Errno::ENOENT));
    assert_eq!(s.fs.setattr(13, no_changes()).err(), Some(Errno::ENOENT));
}

#[test]
fn lookup_finds_an_entry_by_name() {
    let mut s = setup();
    let before = s.image();
    let attr = s.fs.lookup(1, text("hello")).unwrap();
    assert_eq!((attr.ino, attr.size, attr.blocks, attr.nlink), (12, 1500, 4, 1));
    assert_eq!((attr.kind, attr.perm), (FileType::RegularFile, 0x1a4));
    assert_eq!(s.fs.lookup(1, text("..")).unwrap().ino, 1);
    assert_eq!(s.fs.lookup(1, text("hell")).err(), Some(Errno::ENOENT));
    assert_eq!(s.fs.lookup(1, None).err(), Some(Errno::ENOENT));
    assert_eq!(s.fs.lookup(12, text("x")).err(), Some(Errno::ENOTDIR));
    assert_eq!(s.image(), before);
}

#[test]
fn getattr_tells_of_the_root_directory() {
    let mut s = setup();
    let attr = s.fs.getattr(1).unwrap();
    assert_eq!((attr.ino, attr.kind, attr.nlink), (1, FileType::Directory, 2));
    assert_eq!(s.fs.getattr(2).unwrap().ino, 1);
}

#[test]
fn read_gives_the_bytes_of_the_file() {
    let mut s = setup();
    let mut file = data_block(20);
    file.extend_from_slice(&data_block(21));
    assert_eq!(s.fs.read(12, 0, 4096).unwrap(), file[..1500].to_vec());
    assert_eq!(s.fs.read(12, 0, 10).unwrap(), file[..10].to_vec());
    assert_eq!(s.fs.read(12, 1000, 100).unwrap(), file[1000..1100].to_vec());
    assert_eq!(s.fs.read(12, 1024, 476).unwrap(), file[1024..1500].to_vec());
    assert_eq!(s.fs.read(12, 0, 1024).unwrap(), file[..1024].to_vec());
    assert_eq!(s.fs.read(12, 0, 0).unwrap(), vec![]);
}

#[test]
fn read_goes_through_a_page_of_block_numbers() {
    let mut s = setup();
    let mut tail = data_block(20);
    tail.extend_from_slice(&data_block(21));
    tail.extend_from_slice(&data_block(20));
    assert_eq!(s.fs.read(11, 11 * 1024, 3 * 1024 - 24).unwrap(), tail[..3048].to_vec());
    assert_eq!(s.fs.read(11, 12 * 1024 + 5, 6).unwrap(), data_block(21)[5..11].to_vec());
}

#[test]
fn a_block_that_is_missing_reads_as_zero() {
    let mut s = setup();
    let mut inode = s.fs.load_inode(12).unwrap();
    inode.block[1] = 0;
    s.set_inode(12, &inode);
    let mut expected = data_block(20);
    expected.resize(1500, 0);
    assert_eq!(s.fs.read(12, 0, 1500).unwrap(), expected);
}

#[test]
fn an_offset_that_cannot_be_is_refused() {
    let mut s = setup();
    assert_eq!(s.fs.read(12, -1, 10).err(), Some(Errno::EIO));
}

#[test]
fn readdir_hands_out_the_entries() {
    let mut s = setup();
    let items = s.fs.readdir(1, 0).unwrap();
    let names: Vec<&str> = items.iter().map(|i| i.name.as_str()).collect();
    assert_eq!(names, vec![".", "..", "hello"]);
    assert_eq!((items[2].ino, items[2].offset, items[2].kind), (12, 3, FileType::RegularFile));
    let rest = s.fs.readdir(1, items[1].offset).unwrap();
    assert_eq!(rest.len(), 1);
    assert_eq!(rest[0].name, "hello");
    assert_eq!(s.fs.readdir(1, 3).unwrap().len(), 0);
    assert_eq!(s.fs.readdir(12, 0).err(), Some(Errno::ENOTDIR));
}

#[test]
fn a_malformed_directory_is_an_error() {
    let mut s = setup();
    s.put(7 * BLOCK + 24 + 4, &996u16.to_le_bytes());
    assert_eq!(s.fs.readdir(1, 0).err(), Some(Errno::EIO));
    assert_eq!(s.fs.lookup(1, text("hello")).err(), Some(Errno::EIO));
    assert_eq!(s.fs.create(1, text("new"), 0x81a4, Some(1)).err(), Some(Errno::EIO));
}

#[test]
fn a_name_that_is_not_text_is_listed_with_a_stand_in() {
    let mut s = setup();
    s.put(7 * BLOCK + 24 + 8, &[b'h', 0xfe]);
    assert_eq!(s.fs.readdir(1, 2).unwrap()[0].name, "h\u{fffd}llo");
    assert_eq!(s.fs.lookup(1, text("h\u{fffd}llo")).unwrap().ino, 12);
}

#[test]
fn a_created_file_is_found_and_opened_again() {
    let mut s = setup();
    let attr = s.fs.create(1, text("new file"), 0x81b6, Some(1234)).unwrap();
    assert_eq!((attr.ino, attr.size, attr.nlink), (13, 0, 1));
    assert_eq!((attr.kind, attr.perm), (FileType::RegularFile, 0x1b6));
    assert_eq!(attr.ctime, Timespec { sec: 1234, nsec: 0 });
    assert_eq!(s.fs.lookup(1, text("new file")).ok(), Some(attr));
    assert_eq!(s.fs.getattr(13).ok(), Some(attr));
    assert_eq!(s.fs.lookup(1, text("hello")).unwrap().ino, 12);

    let after = s.image();
    assert_eq!(after[4 * BLOCK + 1], 0x1f);
    assert_eq!((s.group(0).free_inodes_count, s.group(1).free_inodes_count), (3, 16));
    assert_eq!(s.superblock().free_inodes_count, 19);
    assert_eq!(s.fs.superblock.free_inodes_count, 19);
    let mut dir = entry(12, 16, 1, b"hello");
    dir.extend_from_slice(&entry(13, 984, 1, b"new file"));
    assert_eq!(after[7 * BLOCK + 24..8 * BLOCK].to_vec(), dir);

    assert_eq!(s.fs.create(1, text("new file"), 0x4000, Some(9)).ok(), Some(attr));
    assert_eq!(s.image(), after);
}

#[test]
fn an_existing_file_is_opened_without_a_change() {
    let mut s = setup();
    let before = s.image();
    assert_eq!(s.fs.create(1, text("hello"), 0x8000, None).unwrap().ino, 12);
    assert_eq!(s.image(), before);
}

#[test]
fn a_deleted_entry_is_used_again() {
    let mut s = setup();
    s.put(7 * BLOCK + 24, &[0, 0, 0, 0]);
    assert_eq!(s.fs.lookup(1, text("hello")).err(), Some(Errno::ENOENT));
    let attr = s.fs.create(1, text("hello"), 0x41ed, Some(5)).unwrap();
    assert_eq!((attr.ino, attr.kind), (13, FileType::Directory));
    assert_eq!(s.fs.lookup(1, text("hello")).ok(), Some(attr));
    assert_eq!(s.image()[7 * BLOCK + 24..8 * BLOCK].to_vec(), entry(13, 1000, 2, b"hello"));
}

#[test]
fn files_are_created_until_the_directory_is_full() {
    let mut s = setup();
    let mut inodes = vec![];
    for i in 0..3 {
        let name = format!("{}", i).repeat(240);
        inodes.push(s.fs.create(1, Some(name), 0x81a4, Some(0)).unwrap().ino);
    }
    assert_eq!(inodes, vec![13, 14, 15]);
    let before = s.image();
    let r = s.fs.create(1, Some("z".repeat(240)), 0x81a4, Some(0));
    assert_eq!(r.err(), Some(Errno::ENOSPC));
    assert_eq!(s.image(), before);
    assert_eq!(s.fs.superblock.free_inodes_count, 17);
    assert_eq!(s.fs.lookup(1, Some("z".repeat(240))).err(), Some(Errno::ENOENT));
    assert_eq!(s.fs.readdir(1, 0).unwrap().len(), 6);
}

#[test]
fn inodes_of_the_next_group_follow() {
    let mut s = setup();
    let mut inodes = vec![];
    for i in 0..6 {
        inodes.push(s.fs.create(1, Some(format!("f{}", i)), 0x81a4, Some(0)).unwrap().ino);
    }
    assert_eq!(inodes, vec![13, 14, 15, 16, 17, 18]);
    assert_eq!((s.group(0).free_inodes_count, s.group(1).free_inodes_count), (0, 14));
    assert_eq!(s.fs.lookup(1, text("f5")).unwrap().ino, 18);
}

#[test]
fn a_name_that_is_no_text_or_too_long_is_refused() {
    let mut s = setup();
    let before = s.image();
    assert_eq!(s.fs.create(1, None, 0x81a4, Some(0)).err(), Some(Errno::EINVAL));
    assert_eq!(s.image(), before);
    let r = s.fs.create(1, Some("n".repeat(256)), 0x81a4, Some(0));
    assert_eq!(r.err(), Some(Errno::EINVAL));
    assert_eq!(s.image(), before);
}

#[test]
fn an_entry_without_a_place_still_needs_an_inode() {
    let long = || Some("n".repeat(256));
    let mut s = setup();
    let before = s.image();
    s.fs.superblock.free_inodes_count = 0;
    assert_eq!(s.fs.create(1, long(), 0x81a4, Some(0)).err(), Some(Errno::ENOSPC));
    s.fs.superblock.blocks_per_group = 0;
    assert_eq!(s.fs.create(1, long(), 0x81a4, Some(0)).err(), Some(Errno::ENOSPC));
    assert_eq!(s.fs.create(1, text("new"), 0x81a4, Some(0)).err(), Some(Errno::ENOSPC));
    assert_eq!(s.image(), before);

    let mut s = setup();
    let mut group = s.group(0);
    group.inode_bitmap = 65;
    s.set_group(0, &group);
    let before = s.image();
    assert_eq!(s.fs.create(1, long(), 0x81a4, Some(0)).err(), Some(Errno::EIO));
    assert_eq!(s.image(), before);

    let mut s = setup();
    for g in 0..2 {
        let mut group = s.group(g);
        group.free_inodes_count = 0;
        s.set_group(g, &group);
    }
    let before = s.image();
    assert_eq!(s.fs.create(1, long(), 0x81a4, Some(0)).err(), Some(Errno::ENOSPC));
    assert_eq!(s.image(), before);
    assert_eq!(s.fs.superblock.free_inodes_count, 20);
}

#[test]
fn a_full_directory_whose_bitmap_cannot_be_read_is_an_error() {
    let mut s = setup();
    for i in 0..3 {
        let name = format!("{}", i).repeat(240);
        assert!(s.fs.create(1, Some(name), 0x81a4, Some(0)).is_ok());
    }
    let mut group = s.group(0);
    group.inode_bitmap = 65;
    s.set_group(0, &group);
    let before = s.image();
    let r = s.fs.create(1, Some("z".repeat(240)), 0x81a4, Some(0));
    assert_eq!(r.err(), Some(Errno::EIO));
    assert_eq!(s.image(), before);
}

#[test]
fn without_a_time_an_inode_is_taken_for_nothing() {
    let mut s = setup();
    let r = s.fs.create(1, Some("n".repeat(256)), 0x81a4, None);
    assert_eq!(r.err(), Some(Errno::EIO));
    assert_eq!(s.fs.superblock.free_inodes_count, 19);
    assert_eq!(s.fs.readdir(1, 0).unwrap().len(), 3);
}

#[test]
fn a_file_needs_a_kind_and_a_time() {
    let mut s = setup();
    assert_eq!(s.fs.create(1, text("odd"), 0x01a4, Some(0)).err(), Some(Errno::EIO));
    assert_eq!(s.fs.create(1, text("odd"), 0x81a4, None).err(), Some(Errno::EIO));
    assert_eq!(s.fs.lookup(1, text("odd")).err(), Some(Errno::ENOENT));
    assert_eq!(s.fs.create(12, text("odd"), 0x81a4, Some(0)).err(), Some(Errno::ENOTDIR));
}

#[test]
fn a_device_number_is_kept_in_the_inode() {
    let mut s = setup();
    let r = s.fs.find_create_dir_ent(2, String::from("tty"), 0x21b6, 0x0501, Some(3));
    let (ino, inode) = r.unwrap();
    assert_eq!((ino, inode.block[0], inode.get_rdev()), (13, 0x0501, 0x0501));
    assert_eq!((inode.atime, inode.ctime, inode.mtime), (3, 3, 3));
    assert_eq!(s.fs.getattr(13).unwrap().rdev, 0x0501);
}

#[test]
fn no_inode_is_left_where_the_count_is_zero() {
    let mut s = setup();
    s.fs.superblock.free_inodes_count = 0;
    let before = s.image();
    assert_eq!(s.fs.alloc_inode(2).err(), Some(Errno::ENOSPC));
    assert_eq!(s.fs.create(1, text("x"), 0x81a4, Some(0)).err(), Some(Errno::ENOSPC));
    assert_eq!(s.image(), before);
}

#[test]
fn nothing_is_left_before_the_superblock_is_loaded() {
    let memory = Memory {
        bytes: Rc::new(RefCell::new(vec![])),
        requests_left: Rc::new(RefCell::new(0)),
    };
    let mut fs = HelloFS::new(Device::new(memory));
    assert_eq!(fs.alloc_block(2).err(), Some(Errno::ENOSPC));
    assert_eq!(fs.alloc_inode(2).err(), Some(Errno::ENOSPC));
}

#[test]
fn no_group_is_found_where_all_are_full() {
    let mut s = setup();
    for g in 0..2 {
        let mut group = s.group(g);
        group.free_blocks_count = 0;
        s.set_group(g, &group);
    }
    assert_eq!(s.fs.alloc_block(2).err(), Some(Errno::ENOSPC));
    assert_eq!(s.fs.find_free_bgdt(1, Resource::Block).err(), Some(Errno::ENOSPC));
    let (g, group) = s.fs.find_free_bgdt(1, Resource::Inode).unwrap();
    assert_eq!((g, group.inode_bitmap), (1, 10));
}

#[test]
fn the_search_for_a_group_wraps_around() {
    let mut s = setup();
    let mut group = s.group(1);
    group.free_inodes_count = 0;
    s.set_group(1, &group);
    assert_eq!(s.fs.find_free_bgdt(1, Resource::Inode).unwrap().0, 0);
    assert_eq!(s.fs.alloc_inode(17).ok(), Some(13));
}

#[test]
fn blocks_are_allocated_once() {
    let mut s = setup();
    assert_eq!(s.fs.alloc_block(2).ok(), Some(25));
    assert_eq!(s.fs.alloc_block(2).ok(), Some(26));
    assert_eq!(s.fs.alloc_block(17).ok(), Some(37));
    assert_eq!(s.image()[3 * BLOCK + 3], 0x03);
    assert_eq!(s.image()[9 * BLOCK], 0x1f);
    assert_eq!((s.group(0).free_blocks_count, s.group(1).free_blocks_count), (6, 27));
    assert_eq!(s.superblock().free_blocks_count, 33);
    assert_eq!(s.fs.superblock.to_bytes(), s.superblock().to_bytes());
}

#[test]
fn the_first_free_bit_of_a_bitmap_is_taken() {
    let mut s = setup();
    assert_eq!(s.fs.alloc_free_bit(4).ok(), Some(12));
    assert_eq!(s.image()[4 * BLOCK + 1], 0x1f);
    s.put(4 * BLOCK, &[0xff; 4]);
    assert_eq!(s.fs.alloc_free_bit(4).ok(), Some(8 * 1024));
    assert_eq!(s.fs.alloc_free_bit(70).err(), Some(Errno::EIO));
}

#[test]
fn attributes_that_were_set_are_seen() {
    let mut s = setup();
    let root = s.fs.getattr(1).unwrap();
    let changes = AttrChanges {
        mode: Some(0x8180),
        uid: Some(1000),
        size: Some(3),
        mtime: Some(Timespec { sec: 50, nsec: 7 }),
        ..no_changes()
    };
    let attr = s.fs.setattr(12, changes).unwrap();
    assert_eq!((attr.perm, attr.uid, attr.gid, attr.size), (0x180, 1000, 0, 3));
    assert_eq!(attr.mtime, Timespec { sec: 50, nsec: 0 });
    assert_eq!(s.fs.getattr(12).ok(), Some(attr));
    assert_eq!(s.fs.lookup(1, text("hello")).ok(), Some(attr));
    assert_eq!(s.fs.getattr(1).ok(), Some(root));
}

#[test]
fn setting_nothing_changes_nothing() {
    let mut s = setup();
    let before = s.image();
    let attr = s.fs.getattr(12).unwrap();
    assert_eq!(s.fs.setattr(12, no_changes()).ok(), Some(attr));
    assert_eq!(s.image(), before);
}

#[test]
fn attributes_of_an_inode_that_is_not_there_cannot_be_set() {
    let mut s = setup();
    let before = s.image();
    let changes = AttrChanges { uid: Some(70000), ..no_changes() };
    assert_eq!(s.fs.getattr(13).err(), Some(Errno::ENOENT));
    assert_eq!(s.fs.setattr(13, changes).err(), Some(Errno::ENOENT));
    assert_eq!(s.image(), before);
}

#[test]
fn a_new_file_system_has_the_smallest_blocks() {
    let memory = Memory {
        bytes: Rc::new(RefCell::new(vec![])),
        requests_left: Rc::new(RefCell::new(0)),
    };
    let mut fs = HelloFS::new(Device::new(memory));
    assert_eq!(fs.block_size(), 1024);
    let mut inode = Inode::default();
    inode.mode = 0x81a4;
    inode.size = 2048;
    for i in 0..4 {
        inode.block[i] = 7 + i as u32;
    }
    let mut it = InodeBlockIterator::new(&inode, &fs);
    for expected in [Some(7), Some(8), Some(9), None, None] {
        assert_eq!(it.next(&mut fs).ok(), Some(expected));
    }
}

#[test]
fn a_device_reads_back_what_was_written() {
    let memory = Memory {
        bytes: Rc::new(RefCell::new((0..16).collect())),
        requests_left: Rc::new(RefCell::new(8)),
    };
    let mut device = Device::new(memory);
    assert!(device.write_at(&vec![0xa, 0xb, 0xc], 4).is_ok());
    assert_eq!(device.read_at(6, 2).ok(), Some(vec![2, 3, 0xa, 0xb, 0xc, 7]));
    assert_eq!(device.read_at(16, 0).unwrap().len(), 16);
    assert_eq!(device.read_at(2, 15).err(), Some(Errno::EIO));
    assert!(device.write_at(&vec![1], 16).is_err());
    device.checkpoint();
    assert_eq!(device.read_at(1, 15).ok(), Some(vec![15]));
    assert_eq!(device.read_at(0, 3).ok(), Some(vec![]));
    assert!(device.write_at(&vec![], 3).is_ok());
    assert_eq!(device.read_at(1, 0).err(), Some(Errno::EIO));
}

#[test]
fn as_many_inodes_are_allocated_as_are_counted() {
    let mut s = setup();
    let mut numbers = vec![];
    for _ in 0..20 {
        numbers.push(s.fs.alloc_inode(2).unwrap());
    }
    assert_eq!(numbers, (13..33).collect::<Vec<u32>>());
    assert_eq!((s.group(0).free_inodes_count, s.group(1).free_inodes_count), (0, 0));
    assert_eq!(s.superblock().free_inodes_count, 0);
    assert_eq!(s.fs.alloc_inode(2).err(), Some(Errno::ENOSPC));
    assert_eq!(s.fs.alloc_inode(17).err(), Some(Errno::ENOSPC));
}

#[test]
fn a_creation_lists_one_more_in_the_same_order() {
    let mut s = setup();
    s.fs.create(1, text("one"), 0x81a4, Some(1)).unwrap();
    s.fs.create(1, text("two"), 0x41ed, Some(1)).unwrap();
    let items = s.fs.readdir(1, 0).unwrap();
    let names: Vec<&str> = items.iter().map(|i| i.name.as_str()).collect();
    assert_eq!(names, vec![".", "..", "hello", "one", "two"]);
    assert_eq!((items[4].ino, items[4].kind), (14, FileType::Directory));
}

#[test]
fn a_file_is_opened_where_nothing_can_be_allocated() {
    let mut s = setup();
    s.fs.superblock.blocks_per_group = 0;
    let before = s.image();
    assert_eq!(s.fs.create(1, text("hello"), 0x81a4, Some(1)).unwrap().ino, 12);
    assert_eq!(s.fs.create(1, text("new"), 0x81a4, Some(1)).err(), Some(Errno::EIO));
    assert_eq!(s.image(), before);
}

#[test]
fn the_blocks_of_an_inode_come_in_order() {
    let mut s = setup();
    let inode = s.fs.load_inode(11).unwrap();
    let mut it = s.fs.get_inode_blocks(&inode);
    for _ in 0..12 {
        assert_eq!(it.next(&mut s.fs).ok(), Some(Some(20)));
    }
    assert_eq!(it.next(&mut s.fs).ok(), Some(Some(21)));
    assert_eq!(it.next(&mut s.fs).ok(), Some(Some(20)));
    assert_eq!(it.next(&mut s.fs).ok(), Some(None));
    let mut it = InodeBlockIterator::new(&inode, &s.fs);
    assert_eq!(it.nth(&mut s.fs, 12).ok(), Some(Some(21)));
    assert_eq!(it.nth(&mut s.fs, 0).ok(), Some(Some(20)));
    assert_eq!(it.nth(&mut s.fs, 5).ok(), Some(None));
}

#[test]
fn blocks_behind_two_and_three_pages_are_found() {
    let mut s = setup();
    let mut inode = Inode::default();
    inode.mode = 0x81a4;
    inode.dir_acl = 1;
    inode.block[13] = 30;
    inode.block[14] = 31;
    let number = |b: u32| b.to_le_bytes();
    s.put(30 * BLOCK + 4, &number(32));
    s.put(32 * BLOCK + 8, &number(40));
    s.put(31 * BLOCK, &number(33));
    s.put(33 * BLOCK + 4, &number(34));
    s.put(34 * BLOCK + 12, &number(41));
    let mut it = s.fs.get_inode_blocks(&inode);
    assert_eq!(it.nth(&mut s.fs, 12 + 256 + 256 + 2).ok(), Some(Some(40)));
    assert_eq!(it.next(&mut s.fs).ok(), Some(Some(0)));
    let mut it = s.fs.get_inode_blocks(&inode);
    assert_eq!(it.nth(&mut s.fs, 12 + 256 + 65536 + 256 + 3).ok(), Some(Some(41)));
    assert_eq!(it.next(&mut s.fs).ok(), Some(Some(0)));
}

/// A page with some entries.
fn page_with(entries: &[(usize, u32)]) -> Vec<u32> {
    let mut page = vec![0u32; 256];
    for (i, b) in entries {
        page[*i] = *b;
    }
    page
}

#[test]
fn pages_are_made_for_an_added_block() {
    let mut s = setup();
    let mut inode = s.fs.load_inode(12).unwrap();
    inode.size = 13 * 1024;
    let before = s.image();
    let mut expected = s.fs.load_inode(12).unwrap();
    expected.size = inode.size;
    expected.block[13] = 25;
    assert!(s.fs.append_block_to_inode(12, &mut inode, 55, 99).is_ok());
    assert_eq!(inode.to_bytes(), expected.to_bytes());
    assert_eq!(s.fs.load_inode(12).unwrap().to_bytes(), inode.to_bytes());
    assert_eq!(s.fs.load_pointers(25).ok(), Some(page_with(&[(2, 26)])));
    assert_eq!(s.fs.load_pointers(26).ok(), Some(page_with(&[(245, 55)])));
    assert_eq!(s.fs.superblock.free_blocks_count, 34);
    let after = s.image();
    for b in (0..65).filter(|b| ![1, 2, 3, 6, 25, 26].contains(b)) {
        assert_eq!(after[b * BLOCK..(b + 1) * BLOCK], before[b * BLOCK..(b + 1) * BLOCK]);
    }
    inode.size = 2000 * 1024;
    let mut it = s.fs.get_inode_blocks(&inode);
    assert_eq!(it.nth(&mut s.fs, 1025).ok(), Some(Some(55)));
}

#[test]
fn pages_that_are_there_are_used_for_an_added_block() {
    let mut s = setup();
    let mut inode = s.fs.load_inode(12).unwrap();
    inode.size = 13 * 1024;
    inode.block[13] = 30;
    s.put(30 * BLOCK + 8, &32u32.to_le_bytes());
    s.put(32 * BLOCK, &9u32.to_le_bytes());
    assert!(s.fs.append_block_to_inode(12, &mut inode, 55, 0).is_ok());
    assert_eq!(s.fs.superblock.free_blocks_count, 36);
    assert_eq!(s.fs.load_pointers(30).ok(), Some(page_with(&[(2, 32)])));
    assert_eq!(s.fs.load_pointers(32).ok(), Some(page_with(&[(0, 9), (245, 55)])));
}

#[test]
fn three_pages_are_made_for_a_block_far_behind() {
    let mut s = setup();
    let mut inode = s.fs.load_inode(12).unwrap();
    inode.size = 0x0404_0000;
    // 65792 blocks round up to 66560, and 66561 - 12 - 256 - 65536 is 757
    assert!(s.fs.append_block_to_inode(12, &mut inode, 55, 0).is_ok());
    assert_eq!(inode.block[14], 25);
    assert_eq!(s.fs.load_pointers(25).ok(), Some(page_with(&[(0, 26)])));
    assert_eq!(s.fs.load_pointers(26).ok(), Some(page_with(&[(2, 27)])));
    assert_eq!(s.fs.load_pointers(27).ok(), Some(page_with(&[(245, 55)])));
}

#[test]
fn no_page_can_be_made_without_a_free_block() {
    let mut s = setup();
    s.fs.superblock.free_blocks_count = 0;
    let mut inode = s.fs.load_inode(12).unwrap();
    inode.size = 13 * 1024;
    let before = s.image();
    let r = s.fs.append_block_to_inode(12, &mut inode, 55, 0);
    assert_eq!(r.err(), Some(Errno::ENOSPC));
    assert_eq!(s.image(), before);
}

#[test]
fn a_block_beyond_three_pages_is_an_error() {
    let mut s = setup();
    let mut inode = s.fs.load_inode(12).unwrap();
    // 8 << 32 bytes are 0x200_0000 blocks, and three pages reach 0x101_010c
    inode.size = 0;
    inode.dir_acl = 8;
    let unchanged = inode.to_bytes();
    let before = s.image();
    s.fs.superblock.free_blocks_count = 0;
    let r = s.fs.append_block_to_inode(12, &mut inode, 55, 0);
    assert_eq!(r.err(), Some(Errno::ENOSPC));
    assert_eq!(inode.to_bytes(), unchanged);
    assert_eq!(s.image(), before);

    s.fs.superblock.free_blocks_count = 36;
    let r = s.fs.append_block_to_inode(12, &mut inode, 55, 0);
    assert_eq!(r.err(), Some(Errno::EIO));
    assert_eq!(inode.block[14], 25);
    assert_eq!(s.fs.load_inode(12).unwrap().to_bytes(), inode.to_bytes());
    assert_eq!(s.fs.superblock.free_blocks_count, 35);
}

#[test]
fn failures_of_the_device_are_reported() {
    let mut s = setup();
    s.fail_after(0);
    assert_eq!(s.fs.init().err(), Some(Errno::EIO));
    assert_eq!(s.fs.lookup(1, text("hello")).err(), Some(Errno::EIO));
    assert_eq!(s.fs.getattr(1).err(), Some(Errno::EIO));
    assert_eq!(s.fs.read(12, 0, 5).err(), Some(Errno::EIO));
    assert_eq!(s.fs.readdir(1, 0).err(), Some(Errno::EIO));
    assert_eq!(s.fs.create(1, text("x"), 0x81a4, Some(0)).err(), Some(Errno::EIO));
    assert_eq!(s.fs.setattr(12, no_changes()).err(), Some(Errno::EIO));
    let before = s.image();
    for requests in 0..13 {
        s.put(0, &before);
        s.fail_after(requests);
        assert_eq!(s.fs.create(1, text("x"), 0x81a4, Some(0)).err(), Some(Errno::EIO));
    }
    s.put(0, &before);
    s.fail_after(100);
    assert_eq!(s.fs.getattr(12).unwrap().size, 1500);
}

#[test]
fn a_block_outside_the_device_is_an_error() {
    let mut s = setup();
    let mut inode = s.fs.load_inode(12).unwrap();
    inode.block[0] = 65;
    s.set_inode(12, &inode);
    assert_eq!(s.fs.read(12, 0, 5).err(), Some(Errno::EIO));
    let mut it = s.fs.get_inode_blocks(&inode);
    assert_eq!(it.next(&mut s.fs).ok(), Some(Some(65)));
}
