//! The layouts on the device, and the functions that need no device.

use ext2_fuse::allocation::take_free_bit;
use ext2_fuse::device::DeviceData;
use ext2_fuse::directory::{put_record, EntryCollector, FuseDirEntry};
use ext2_fuse::dirent::{ext2_dirent_filetype, get_ext2_dirent_ft_from_kind, walk_block, Walk};
use ext2_fuse::errno::Errno;
use ext2_fuse::filesystem::{
    apply_changes, find_entry, inode2fuse, items_from, map_inode, AttrChanges, InodeMapDir,
    Timespec,
};
use ext2_fuse::group::BlockGroupDescTable;
use ext2_fuse::indirect::get_indirect_offsets_for_block_offset;
use ext2_fuse::inode::{FileType, Inode};
use ext2_fuse::superblock::Superblock;

/// Bytes that differ from their neighbours.
fn pattern(len: usize) -> Vec<u8> {
    (0..len).map(|i| (i * 37 + 11) as u8).collect()
}

fn u16_in(b: &[u8], at: usize) -> u16 {
    u16::from_le_bytes([b[at], b[at + 1]])
}

fn u32_in(b: &[u8], at: usize) -> u32 {
    u32::from_le_bytes([b[at], b[at + 1], b[at + 2], b[at + 3]])
}

fn no_changes() -> AttrChanges {
    AttrChanges { mode: None, uid: None, gid: None, size: None, atime: None, mtime: None }
}

#[test]
fn superblock_keeps_its_layout() {
    let bytes = pattern(264);
    assert_eq!(Superblock::size(), 264);
    let sb = Superblock::from_bytes(&bytes);
    assert_eq!(sb.inode_count, u32_in(&bytes, 0));
    assert_eq!(sb.free_inodes_count, u32_in(&bytes, 16));
    assert_eq!(sb.log_block_size, u32_in(&bytes, 24));
    assert_eq!(sb.inodes_per_group, u32_in(&bytes, 40));
    assert_eq!(sb.magic, u16_in(&bytes, 56));
    assert_eq!(sb.uuid[..], bytes[104..120]);
    assert_eq!(sb.last_mounted[..], bytes[136..200]);
    assert_eq!(sb.prealloc_dir_blocks, bytes[205]);
    assert_eq!(sb.hash_seed[3], u32_in(&bytes, 248));
    assert_eq!(sb._padding1[..], bytes[253..256]);
    assert_eq!(sb.first_meta_bg, u32_in(&bytes, 260));
    assert_eq!(sb.to_bytes(), bytes);
}

#[test]
fn inode_keeps_its_layout() {
    let bytes = pattern(128);
    assert_eq!(Inode::size(), 128);
    let inode = Inode::from_bytes(&bytes);
    assert_eq!(inode.mode, u16_in(&bytes, 0));
    assert_eq!(inode.size, u32_in(&bytes, 4));
    assert_eq!(inode.links_count, u16_in(&bytes, 26));
    assert_eq!(inode.block[0], u32_in(&bytes, 40));
    assert_eq!(inode.block[14], u32_in(&bytes, 96));
    assert_eq!(inode.dir_acl, u32_in(&bytes, 108));
    assert_eq!(inode.osd2[..], bytes[116..128]);
    assert_eq!(inode.to_bytes(), bytes);
}

#[test]
fn group_descriptor_keeps_its_layout() {
    let bytes = pattern(32);
    assert_eq!(BlockGroupDescTable::size(), 32);
    let group = BlockGroupDescTable::from_bytes(&bytes);
    assert_eq!(group.block_bitmap, u32_in(&bytes, 0));
    assert_eq!(group.inode_bitmap, u32_in(&bytes, 4));
    assert_eq!(group.inode_table, u32_in(&bytes, 8));
    assert_eq!(group.free_blocks_count, u16_in(&bytes, 12));
    assert_eq!(group.free_inodes_count, u16_in(&bytes, 14));
    assert_eq!(group.reserved[..], bytes[20..32]);
    assert_eq!(group.to_bytes(), bytes);
}

#[test]
fn defaults_are_all_zero() {
    assert_eq!(Superblock::default().to_bytes(), vec![0u8; 264]);
    assert_eq!(Inode::default().to_bytes(), vec![0u8; 128]);
}

#[test]
fn kind_comes_from_the_mode() {
    let kind = |mode: u16| {
        let mut inode = Inode::default();
        inode.mode = mode;
        inode.get_kind()
    };
    assert_eq!(kind(0xc1ff), Some(FileType::Socket));
    assert_eq!(kind(0xa1ff), Some(FileType::Symlink));
    assert_eq!(kind(0x81a4), Some(FileType::RegularFile));
    assert_eq!(kind(0x6000), Some(FileType::BlockDevice));
    assert_eq!(kind(0x41ed), Some(FileType::Directory));
    assert_eq!(kind(0x2fff), Some(FileType::CharDevice));
    assert_eq!(kind(0x1000), Some(FileType::NamedPipe));
    assert_eq!(kind(0x0fff), None);
    assert_eq!(kind(0x3000), None);
    assert_eq!(kind(0xf000), None);
}

#[test]
fn size_has_an_upper_half_for_regular_files() {
    let mut inode = Inode::default();
    inode.size = 7;
    inode.dir_acl = 3;
    inode.mode = 0x8000;
    assert_eq!(inode.get_size(), 3 * 0x1_0000_0000 + 7);
    inode.mode = 0x4000;
    assert_eq!(inode.get_size(), 7);
    inode.mode = 0;
    assert_eq!(inode.get_size(), 7);
}

#[test]
fn only_devices_have_a_device_number() {
    let mut inode = Inode::default();
    inode.block[0] = 0x0801;
    inode.mode = 0x6000;
    assert_eq!(inode.get_rdev(), 0x0801);
    inode.mode = 0x2000;
    assert_eq!(inode.get_rdev(), 0x0801);
    inode.mode = 0x8000;
    assert_eq!(inode.get_rdev(), 0);
    inode.mode = 0x0000;
    assert_eq!(inode.get_rdev(), 0);
}

#[test]
fn type_bytes_name_kinds() {
    let kinds = [
        (1, FileType::RegularFile),
        (2, FileType::Directory),
        (3, FileType::CharDevice),
        (4, FileType::BlockDevice),
        (5, FileType::NamedPipe),
        (6, FileType::Socket),
        (7, FileType::Symlink),
    ];
    for (byte, kind) in kinds {
        assert_eq!(ext2_dirent_filetype(byte), Some(kind));
        assert_eq!(get_ext2_dirent_ft_from_kind(kind), byte);
    }
    assert_eq!(ext2_dirent_filetype(0), None);
    assert_eq!(ext2_dirent_filetype(8), None);
    assert_eq!(ext2_dirent_filetype(255), None);
}

#[test]
fn offsets_lead_to_the_block() {
    let path = |n: u32| get_indirect_offsets_for_block_offset(1024, n);
    assert_eq!(path(12), vec![0]);
    assert_eq!(path(12 + 255), vec![255]);
    assert_eq!(path(12 + 256), vec![0, 0]);
    assert_eq!(path(12 + 256 + 255), vec![255, 0]);
    assert_eq!(path(12 + 256 + 256), vec![0, 1]);
    assert_eq!(path(12 + 256 + 65535), vec![255, 255]);
    assert_eq!(path(12 + 256 + 65536), vec![0, 0, 0]);
    assert_eq!(path(12 + 256 + 65536 + 1), vec![1, 0, 0]);
    assert_eq!(path(12 + 256 + 65536 + 256), vec![0, 1, 0]);
    assert_eq!(path(12 + 256 + 65536 + 65536 + 257), vec![1, 1, 1]);
    assert_eq!(get_indirect_offsets_for_block_offset(4096, 12 + 1024), vec![0, 0]);
}

#[test]
fn inode_numbers_are_mapped_and_mapped_back() {
    assert_eq!(map_inode(InodeMapDir::EXT2FUSE, 2), 1);
    assert_eq!(map_inode(InodeMapDir::FUSE2EXT, 1), 2);
    assert_eq!(map_inode(InodeMapDir::EXT2FUSE, 1), 1);
    assert_eq!(map_inode(InodeMapDir::FUSE2EXT, 2), 2);
    assert_eq!(map_inode(InodeMapDir::EXT2FUSE, 11), 11);
    for num in [0u64, 2, 3, 17, u64::MAX] {
        let there = map_inode(InodeMapDir::EXT2FUSE, num);
        assert_eq!(map_inode(InodeMapDir::FUSE2EXT, there), num);
    }
}

#[test]
fn attributes_come_from_the_inode() {
    let mut inode = Inode::default();
    inode.mode = 0x41ed;
    inode.uid = 1000;
    inode.gid = 100;
    inode.size = 1024;
    inode.blocks = 2;
    inode.links_count = 3;
    inode.atime = 10;
    inode.ctime = 20;
    inode.mtime = u32::MAX;
    let attr = inode2fuse(2, inode);
    assert_eq!(attr.ino, 1);
    assert_eq!(attr.kind, FileType::Directory);
    assert_eq!(attr.perm, 0x1ed);
    assert_eq!((attr.uid, attr.gid, attr.nlink), (1000, 100, 3));
    assert_eq!((attr.size, attr.blocks, attr.rdev, attr.flags), (1024, 2, 0, 0));
    assert_eq!(attr.atime, Timespec { sec: 10, nsec: 0 });
    assert_eq!(attr.ctime, Timespec { sec: 20, nsec: 0 });
    assert_eq!(attr.mtime, Timespec { sec: 4294967295, nsec: 0 });
    assert_eq!(attr.crtime, Timespec { sec: 0, nsec: 0 });
}

#[test]
fn an_inode_of_no_known_kind_passes_for_a_regular_file() {
    let mut inode = Inode::default();
    inode.mode = 0x0fff;
    inode.block[0] = 9;
    let attr = inode2fuse(5, inode);
    assert_eq!(attr.kind, FileType::RegularFile);
    assert_eq!(attr.perm, 0xfff);
    assert_eq!(attr.rdev, 0);
}

#[test]
fn first_clear_bit_is_taken() {
    let mut bitmap = vec![0xff, 0b0000_0111, 0];
    assert_eq!(take_free_bit(&mut bitmap), 11);
    assert_eq!(bitmap, vec![0xff, 0b0000_1111, 0]);
    let mut bitmap = vec![0b1111_1101];
    assert_eq!(take_free_bit(&mut bitmap), 1);
    assert_eq!(bitmap, vec![0xff]);
    assert_eq!(take_free_bit(&mut bitmap), 8);
    assert_eq!(bitmap, vec![0xff]);
    let mut bitmap = vec![0x7f];
    assert_eq!(take_free_bit(&mut bitmap), 7);
    let mut bitmap = vec![];
    assert_eq!(take_free_bit(&mut bitmap), 0);
}

#[test]
fn changes_are_made_where_asked_for() {
    let mut inode = Inode::default();
    inode.mode = 0x81a4;
    inode.uid = 1;
    inode.ctime = 5;
    let changes = AttrChanges {
        mode: Some(0x8180),
        uid: None,
        gid: Some(65535),
        size: Some(4294967295),
        atime: Some(Timespec { sec: 77, nsec: 1 }),
        mtime: Some(Timespec { sec: -1, nsec: 0 }),
    };
    assert!(changes.fit());
    apply_changes(&mut inode, &changes);
    assert_eq!((inode.mode, inode.uid, inode.gid), (0x8180, 1, 65535));
    assert_eq!((inode.size, inode.atime, inode.mtime, inode.ctime), (u32::MAX, 77, u32::MAX, 5));
}

#[test]
fn values_that_are_too_big_do_not_fit() {
    let too_big = [
        AttrChanges { mode: Some(0x1_0000), ..no_changes() },
        AttrChanges { uid: Some(0x1_0000), mode: Some(1), ..no_changes() },
        AttrChanges { gid: Some(u32::MAX), ..no_changes() },
        AttrChanges { size: Some(0x1_0000_0000), ..no_changes() },
    ];
    for changes in too_big {
        assert!(!changes.fit());
    }
    assert!(no_changes().fit());
    let most = AttrChanges {
        mode: Some(0xffff),
        uid: Some(0xffff),
        gid: Some(0xffff),
        size: Some(0xffff_ffff),
        ..no_changes()
    };
    assert!(most.fit());
}

fn three_entries() -> Vec<FuseDirEntry> {
    let entry = |inode: u32, filetype: FileType, name: &str| FuseDirEntry {
        inode,
        filetype,
        name: String::from(name),
    };
    vec![
        entry(2, FileType::Directory, "."),
        entry(12, FileType::RegularFile, "a"),
        entry(13, FileType::Symlink, "a"),
    ]
}

#[test]
fn the_first_entry_with_a_name_is_found() {
    let entries = three_entries();
    assert_eq!(find_entry(&entries, &String::from("a")), Some(12));
    assert_eq!(find_entry(&entries, &String::from(".")), Some(2));
    assert_eq!(find_entry(&entries, &String::from("b")), None);
    assert_eq!(find_entry(&vec![], &String::from("a")), None);
}

#[test]
fn entries_are_handed_out_in_parts() {
    let entries = three_entries();
    let all = items_from(&entries, 0);
    assert_eq!(all.len(), 3);
    assert_eq!((all[0].ino, all[0].offset, all[0].kind), (1, 1, FileType::Directory));
    assert_eq!((all[2].ino, all[2].offset, all[2].kind), (13, 3, FileType::Symlink));
    assert_eq!(all[2].name, "a");
    let rest = items_from(&entries, all[0].offset);
    assert_eq!(rest.len(), 2);
    assert_eq!((rest[0].ino, rest[0].offset), (12, 2));
    assert_eq!(items_from(&entries, 3).len(), 0);
    assert_eq!(items_from(&entries, 400).len(), 0);
    assert_eq!(items_from(&entries, -1).len(), 0);
}

/// An entry of a directory in `rec_len` bytes.
fn entry(inode: u32, rec_len: u16, file_type: u8, name: &[u8]) -> Vec<u8> {
    let mut b = Vec::new();
    b.extend_from_slice(&inode.to_le_bytes());
    b.extend_from_slice(&rec_len.to_le_bytes());
    b.push(name.len() as u8);
    b.push(file_type);
    b.extend_from_slice(name);
    b.resize(rec_len as usize, 0);
    b
}

#[test]
fn a_record_is_put_behind_the_name_of_the_last_one() {
    let mut buf = entry(12, 40, 1, b"abcde");
    let r = put_record(&mut buf, false, 13, Some(FileType::Directory), &String::from("xyz"));
    assert!(r.is_ok());
    let mut expected = entry(12, 16, 1, b"abcde");
    expected.extend_from_slice(&entry(13, 24, 2, b"xyz"));
    assert_eq!(buf, expected);
}

#[test]
fn a_deleted_record_gets_a_new_inode() {
    let mut buf = entry(0, 20, 1, b"abc");
    let r = put_record(&mut buf, true, 0x01020304, Some(FileType::Symlink), &String::from("abc"));
    assert!(r.is_ok());
    assert_eq!(buf, entry(0x01020304, 20, 7, b"abc"));
}

#[test]
fn a_record_without_a_place_is_refused() {
    let file = Some(FileType::RegularFile);
    let name = String::from("abc");
    let mut none = vec![];
    assert_eq!(put_record(&mut none, false, 1, file, &name).err(), Some(Errno::ENOSPC));
    let mut wide = entry(12, 600, 1, b"a");
    let before = wide.clone();
    let long = "x".repeat(256);
    assert_eq!(put_record(&mut wide, false, 1, file, &long).err(), Some(Errno::EINVAL));
    assert_eq!(put_record(&mut wide, false, 1, None, &name).err(), Some(Errno::EIO));
    assert_eq!(put_record(&mut wide, true, 1, None, &name).err(), Some(Errno::EIO));
    assert_eq!(wide, before);
    assert!(put_record(&mut wide, false, 1, file, &"x".repeat(255)).is_ok());
    let mut narrow = entry(12, 20, 1, b"a");
    assert_eq!(put_record(&mut narrow, false, 1, file, &name).err(), Some(Errno::EIO));
    let mut stub = vec![1, 2, 3];
    assert_eq!(put_record(&mut stub, true, 1, file, &name).err(), Some(Errno::EIO));
    assert_eq!(stub, vec![1, 2, 3]);
}

#[test]
fn a_walk_lists_what_is_in_use() {
    let mut block = entry(2, 12, 2, b".");
    block.extend_from_slice(&entry(0, 12, 1, b"gone"));
    block.extend_from_slice(&entry(14, 12, 9, b"odd"));
    block.extend_from_slice(&entry(12, 28, 1, b"file"));
    let mut list = EntryCollector { entries: Vec::new() };
    assert_eq!(walk_block(&block, 0, &mut list), Walk::Ended);
    let names: Vec<&str> = list.entries.iter().map(|e| e.name.as_str()).collect();
    assert_eq!(names, vec![".", "file"]);
    assert_eq!(list.entries[1].inode, 12);
    assert_eq!(list.entries[1].filetype, FileType::RegularFile);
}

#[test]
fn a_walk_ends_at_an_entry_without_a_length() {
    let mut block = entry(2, 12, 2, b".");
    block.resize(64, 0);
    let mut list = EntryCollector { entries: Vec::new() };
    assert_eq!(walk_block(&block, 0, &mut list), Walk::Ended);
    assert_eq!(list.entries.len(), 1);
}

#[test]
fn a_walk_notices_an_entry_that_does_not_fit() {
    let mut list = EntryCollector { entries: Vec::new() };
    let mut block = entry(2, 12, 2, b".");
    block.extend_from_slice(&[1, 0, 0, 0]);
    assert_eq!(walk_block(&block, 0, &mut list), Walk::Malformed);
    let mut block = entry(2, 12, 2, b".");
    block[6] = 200;
    assert_eq!(walk_block(&block, 0, &mut list), Walk::Malformed);
}

#[test]
fn bytes_that_are_not_text_are_replaced() {
    let mut list = EntryCollector { entries: Vec::new() };
    let mut block = entry(5, 16, 1, &[b'a', 0xff, b'b']);
    block.extend_from_slice(&entry(6, 16, 1, "gr\u{fc}n".as_bytes()));
    assert_eq!(walk_block(&block, 0, &mut list), Walk::Ended);
    assert_eq!(list.entries[0].name, "a\u{fffd}b");
    assert_eq!(list.entries[1].name, "gr\u{fc}n");
}
