//! The operations that FUSE asks for.

use vstd::prelude::*;
use crate::allocation::same_but_counts;
use crate::device::{decoded, fetch, Device, Storage};
use crate::directory::{listed, listing, opened_or_created, FuseDirEntry, Listed};
use crate::errno::Errno;
use crate::file::{file_read, read_result};
use crate::fs::HelloFS;
use crate::inode::{kind_of_mode, FileType, Inode};
use crate::layout::{inode_at, with_inode, SUPERBLOCK_ADDR};
use crate::superblock::Superblock;

verus! {

/// A point in time.
#[derive(Clone, Copy, Debug, PartialEq, Eq, Structural)]
pub struct Timespec {
    pub sec: i64,
    pub nsec: i32,
}

/// What FUSE is told of a file.
#[derive(Clone, Copy, Debug, PartialEq, Eq, Structural)]
pub struct FileAttr {
    pub ino: u64,
    pub size: u64,
    pub blocks: u64,
    pub atime: Timespec,
    pub mtime: Timespec,
    pub ctime: Timespec,
    pub crtime: Timespec,
    pub kind: FileType,
    pub perm: u16,
    pub nlink: u32,
    pub uid: u32,
    pub gid: u32,
    pub rdev: u32,
    pub flags: u32,
}

/// The two ways to map inode numbers.
#[derive(Clone, Copy, Debug, PartialEq, Eq, Structural)]
pub enum InodeMapDir {
    EXT2FUSE,
    FUSE2EXT,
}

/// FUSE uses inode 1 for the root directory, ext2 uses inode 2; inode 1 of
/// ext2 holds the bad blocks.
pub open spec fn mapped(dir: InodeMapDir, num: u64) -> u64 {
    match dir {
        InodeMapDir::EXT2FUSE => if num == 2 {
            1
        } else {
            num
        },
        InodeMapDir::FUSE2EXT => if num == 1 {
            2
        } else {
            num
        },
    }
}

/// Maps an inode number.
pub fn map_inode(dir: InodeMapDir, num: u64) -> (r: u64)
    ensures
        r == mapped(dir, num),
{
    match dir {
        InodeMapDir::EXT2FUSE => match num {
            2 => 1,
            x => x,
        },
        InodeMapDir::FUSE2EXT => match num {
            1 => 2,
            x => x,
        },
    }
}

/// What FUSE is told of inode `num`. A file of no known kind passes for a
/// regular one.
pub open spec fn attributes(num: u64, i: Inode) -> FileAttr {
    FileAttr {
        ino: mapped(InodeMapDir::EXT2FUSE, num),
        size: i.size as u64,
        blocks: i.blocks as u64,
        atime: Timespec { sec: i.atime as i64, nsec: 0 },
        mtime: Timespec { sec: i.mtime as i64, nsec: 0 },
        ctime: Timespec { sec: i.ctime as i64, nsec: 0 },
        crtime: Timespec { sec: 0, nsec: 0 },
        kind: match kind_of_mode(i.mode) {
            Some(kind) => kind,
            None => FileType::RegularFile,
        },
        perm: (i.mode % 0x1000) as u16,
        nlink: i.links_count as u32,
        uid: i.uid as u32,
        gid: i.gid as u32,
        rdev: i.device_number(),
        flags: 0,
    }
}

/// What FUSE is told of inode `num`.
pub fn inode2fuse(num: u64, i: Inode) -> (attr: FileAttr)
    ensures
        attr == attributes(num, i),
{
    let kind = match i.get_kind() {
        Some(kind) => kind,
        None => FileType::RegularFile,
    };
    let rdev: u32 = i.get_rdev();
    let mode: u16 = i.mode;
    assert(mode & 0xfff == mode % 0x1000) by (bit_vector);
    FileAttr {
        ino: map_inode(InodeMapDir::EXT2FUSE, num),
        size: i.size as u64,
        blocks: i.blocks as u64,
        atime: Timespec { sec: i.atime as i64, nsec: 0 },
        mtime: Timespec { sec: i.mtime as i64, nsec: 0 },
        ctime: Timespec { sec: i.ctime as i64, nsec: 0 },
        crtime: Timespec { sec: 0, nsec: 0 },
        kind,
        perm: mode & 0xfff,
        nlink: i.links_count as u32,
        uid: i.uid as u32,
        gid: i.gid as u32,
        rdev,
        flags: 0,
    }
}

/// The inode of the first entry from number `i` on that has the name.
pub open spec fn named_from(entries: Seq<Listed>, name: Seq<char>, i: int) -> Option<u32>
    decreases entries.len() - i,
{
    if i >= entries.len() {
        None
    } else if entries[i].name == name {
        Some(entries[i].inode)
    } else {
        named_from(entries, name, i + 1)
    }
}

/// The inode of the first entry that has the name.
pub fn find_entry(entries: &Vec<FuseDirEntry>, name: &String) -> (r: Option<u32>)
    ensures
        r == named_from(listed(entries@), name@, 0),
        r matches Some(n) ==> exists|i: int|
            0 <= i < entries@.len() && (#[trigger] entries@[i]).inode == n,
{
    let mut i: usize = 0;
    while i < entries.len()
        invariant
            i <= entries@.len(),
            named_from(listed(entries@), name@, 0) == named_from(
                listed(entries@),
                name@,
                i as int,
            ),
        decreases entries@.len() - i,
    {
        assert(listed(entries@)[i as int] == entries@[i as int]@);
        if entries[i].name == *name {
            return Some(entries[i].inode);
        }
        i = i + 1;
    }
    None
}

/// An entry of a directory as it is handed to FUSE; `offset` is where the next
/// one is to be asked for.
#[derive(Debug)]
pub struct DirItem {
    pub ino: u64,
    pub offset: i64,
    pub kind: FileType,
    pub name: String,
}

/// Entry number `i` of a directory as it is handed to FUSE.
pub open spec fn is_item(item: DirItem, entry: Listed, i: int) -> bool {
    &&& item.ino == mapped(InodeMapDir::EXT2FUSE, entry.inode as u64)
    &&& item.offset == (i + 1) as i64
    &&& item.kind == entry.filetype
    &&& item.name@ == entry.name
}

/// The entries from `offset` on as they are handed to FUSE.
pub open spec fn are_items(items: Seq<DirItem>, entries: Seq<Listed>, offset: i64) -> bool {
    if 0 <= offset < entries.len() {
        &&& items.len() == entries.len() - offset
        &&& forall|k: int|
            0 <= k < items.len() ==> is_item(#[trigger] items[k], entries[offset + k], offset + k)
    } else {
        items.len() == 0
    }
}

/// Hands out the entries from `offset` on.
pub fn items_from(entries: &Vec<FuseDirEntry>, offset: i64) -> (items: Vec<DirItem>)
    ensures
        are_items(items@, listed(entries@), offset),
{
    let mut items: Vec<DirItem> = Vec::new();
    if offset < 0 || offset as u64 >= entries.len() as u64 {
        return items;
    }
    let mut i: usize = offset as usize;
    while i < entries.len()
        invariant
            0 <= offset <= i <= entries@.len(),
            items@.len() == i - offset,
            forall|k: int|
                0 <= k < items@.len() ==> is_item(
                    #[trigger] items@[k],
                    listed(entries@)[offset + k],
                    offset + k,
                ),
        decreases entries@.len() - i,
    {
        let item = DirItem {
            ino: map_inode(InodeMapDir::EXT2FUSE, entries[i].inode as u64),
            offset: (i + 1) as i64,
            kind: entries[i].filetype,
            name: entries[i].name.clone(),
        };
        assert(is_item(item, listed(entries@)[i as int], i as int));
        items.push(item);
        i = i + 1;
    }
    items
}

/// The attributes that are to be changed.
#[derive(Clone, Copy, Debug, PartialEq, Eq, Structural)]
pub struct AttrChanges {
    pub mode: Option<u32>,
    pub uid: Option<u32>,
    pub gid: Option<u32>,
    pub size: Option<u64>,
    pub atime: Option<Timespec>,
    pub mtime: Option<Timespec>,
}

/// The new values fit in an inode.
pub open spec fn changes_fit(ch: AttrChanges) -> bool {
    &&& ch.mode matches Some(mode) ==> mode <= u16::MAX
    &&& ch.uid matches Some(uid) ==> uid <= u16::MAX
    &&& ch.gid matches Some(gid) ==> gid <= u16::MAX
    &&& ch.size matches Some(size) ==> size <= u32::MAX
}

/// The inode with the changes made.
pub open spec fn changed(i: Inode, ch: AttrChanges) -> Inode {
    Inode {
        mode: match ch.mode {
            Some(mode) => mode as u16,
            None => i.mode,
        },
        uid: match ch.uid {
            Some(uid) => uid as u16,
            None => i.uid,
        },
        gid: match ch.gid {
            Some(gid) => gid as u16,
            None => i.gid,
        },
        size: match ch.size {
            Some(size) => size as u32,
            None => i.size,
        },
        atime: match ch.atime {
            Some(ts) => ts.sec as u32,
            None => i.atime,
        },
        mtime: match ch.mtime {
            Some(ts) => ts.sec as u32,
            None => i.mtime,
        },
        ..i
    }
}

impl AttrChanges {
    /// Whether the new values fit in an inode.
    pub fn fit(&self) -> (b: bool)
        ensures
            b == changes_fit(*self),
    {
        let mode_fits: bool = match self.mode {
            Some(mode) => mode <= u16::MAX as u32,
            None => true,
        };
        let uid_fits: bool = match self.uid {
            Some(uid) => uid <= u16::MAX as u32,
            None => true,
        };
        let gid_fits: bool = match self.gid {
            Some(gid) => gid <= u16::MAX as u32,
            None => true,
        };
        let size_fits: bool = match self.size {
            Some(size) => size <= u32::MAX as u64,
            None => true,
        };
        mode_fits && uid_fits && gid_fits && size_fits
    }
}

/// Makes the changes.
pub fn apply_changes(inode: &mut Inode, ch: &AttrChanges)
    requires
        changes_fit(*ch),
    ensures
        *final(inode) == changed(*old(inode), *ch),
{
    match ch.mode {
        Some(mode) => {
            inode.mode = mode as u16;
        },
        None => {},
    }
    match ch.uid {
        Some(uid) => {
            inode.uid = uid as u16;
        },
        None => {},
    }
    match ch.gid {
        Some(gid) => {
            inode.gid = gid as u16;
        },
        None => {},
    }
    match ch.size {
        Some(size) => {
            inode.size = size as u32;
        },
        None => {},
    }
    match ch.atime {
        Some(ts) => {
            inode.atime = ts.sec as u32;
        },
        None => {},
    }
    match ch.mtime {
        Some(ts) => {
            inode.mtime = ts.sec as u32;
        },
        None => {},
    }
}

/// It is known of the device that loading inode `ino` fails.
pub open spec fn no_inode<S: Storage>(device: Device<S>, sb: Superblock, ino: u64) -> bool {
    forall|d: Seq<u8>| #[trigger] device.now(d) matches Some(c) ==> inode_at(c, sb, ino) is Err
}

/// The answer to a lookup.
pub open spec fn looked_up(
    d: Seq<u8>,
    sb: Superblock,
    parent: u64,
    name: Option<Seq<char>>,
) -> Result<FileAttr, Errno> {
    match name {
        Some(name) => match listing(d, sb, mapped(InodeMapDir::FUSE2EXT, parent)) {
            Ok(entries) => match named_from(entries, name, 0) {
                Some(ino) => match inode_at(d, sb, ino as u64) {
                    Ok(inode) => Ok(attributes(ino as u64, inode)),
                    Err(e) => Err(e),
                },
                None => Err(Errno::ENOENT),
            },
            Err(e) => Err(e),
        },
        None => Err(Errno::ENOENT),
    }
}

/// The answer to a request for attributes.
pub open spec fn attributes_at(d: Seq<u8>, sb: Superblock, ino: u64) -> Result<FileAttr, Errno> {
    let num = mapped(InodeMapDir::FUSE2EXT, ino);
    match inode_at(d, sb, num) {
        Ok(inode) => Ok(attributes(num, inode)),
        Err(e) => Err(e),
    }
}

/// The answer to a request to change attributes, and the device that it
/// leaves.
pub open spec fn attributes_set(
    d: Seq<u8>,
    sb: Superblock,
    ino: u64,
    ch: AttrChanges,
) -> (Result<FileAttr, Errno>, Seq<u8>) {
    let num = mapped(InodeMapDir::FUSE2EXT, ino);
    match inode_at(d, sb, num) {
        Ok(inode) => {
            let inode2 = changed(inode, ch);
            match with_inode(d, sb, num, inode2) {
                Ok(d2) => (Ok(attributes(num, inode2)), d2),
                Err(e) => (Err(e), d),
            }
        },
        Err(e) => (Err(e), d),
    }
}

/// The answer to a request to create a file, and the device and the superblock
/// that it leaves.
pub open spec fn create_answer(
    d: Seq<u8>,
    sb: Superblock,
    parent: u64,
    name: Option<Seq<char>>,
    mode: u32,
    now: Option<u64>,
) -> (Result<FileAttr, Errno>, Seq<u8>, Superblock) {
    match name {
        Some(name) => {
            let (r, d2, sb2) = opened_or_created(
                d,
                sb,
                mapped(InodeMapDir::FUSE2EXT, parent),
                name,
                mode,
                0,
                now,
            );
            match r {
                Ok((ino, inode)) => (Ok(attributes(ino as u64, inode)), d2, sb2),
                Err(e) => (Err(e), d2, sb2),
            }
        },
        None => (Err(Errno::EINVAL), d, sb),
    }
}

/// The characters of a name, if it has any that are known.
pub open spec fn name_view(name: Option<String>) -> Option<Seq<char>> {
    match name {
        Some(name) => Some(name@),
        None => None,
    }
}

impl<S: Storage> HelloFS<S> {
    /// Gets the file system ready: from here on the superblock is the one on
    /// the device.
    pub fn init(&mut self) -> (r: Result<(), Errno>)
        ensures
            r matches Err(e) ==> e == Errno::EIO && final(self).superblock == old(self).superblock,
            final(self).device.faults() != old(self).device.faults() ==> r is Err,
            forall|d: Seq<u8>| #[trigger]
                final(self).device.now(d) matches Some(c) ==> {
                    &&& old(self).device.now(d) == Some(c)
                    &&& match r {
                        Ok(_) => Ok(final(self).superblock),
                        Err(e) => Err(e),
                    } == decoded::<Superblock>(fetch(c, SUPERBLOCK_ADDR as int, 264))
                },
    {
        self.load_superblock()
    }

    /// The attributes of the entry `name` of directory `parent`. There is no
    /// name where it is not text.
    pub fn lookup(&mut self, parent: u64, name: Option<String>) -> (r: Result<FileAttr, Errno>)
        requires
            name is Some ==> parent >= 1 && old(self).superblock.readable(),
        ensures
            final(self).superblock == old(self).superblock,
            name is None ==> {
                &&& r == Err::<FileAttr, Errno>(Errno::ENOENT)
                &&& final(self).device == old(self).device
            },
            final(self).device.faults() != old(self).device.faults() ==> r
                == Err::<FileAttr, Errno>(Errno::EIO),
            forall|d: Seq<u8>| #[trigger]
                final(self).device.now(d) matches Some(c) ==> {
                    &&& old(self).device.now(d) == Some(c)
                    &&& r == looked_up(c, old(self).superblock, parent, name_view(name))
                },
    {
        let parent: u64 = map_inode(InodeMapDir::FUSE2EXT, parent);
        let name = match name {
            Some(name) => name,
            None => return Err(Errno::ENOENT),
        };
        let entries = match self.load_dir_entries(parent) {
            Ok(entries) => entries,
            Err(e) => return Err(e),
        };
        let ino: u64 = match find_entry(&entries, &name) {
            Some(inode) => inode as u64,
            None => return Err(Errno::ENOENT),
        };
        match self.load_inode(ino) {
            Ok(inode) => Ok(inode2fuse(ino, inode)),
            Err(e) => Err(e),
        }
    }

    /// The attributes of inode `ino`.
    pub fn getattr(&mut self, ino: u64) -> (r: Result<FileAttr, Errno>)
        requires
            ino >= 1,
            old(self).superblock.readable(),
        ensures
            final(self).superblock == old(self).superblock,
            final(self).device.faults() != old(self).device.faults() ==> r
                == Err::<FileAttr, Errno>(Errno::EIO),
            forall|d: Seq<u8>| #[trigger]
                final(self).device.now(d) matches Some(c) ==> {
                    &&& old(self).device.now(d) == Some(c)
                    &&& r == attributes_at(c, old(self).superblock, ino)
                },
    {
        let ino: u64 = map_inode(InodeMapDir::FUSE2EXT, ino);
        match self.load_inode(ino) {
            Ok(inode) => Ok(inode2fuse(ino, inode)),
            Err(e) => Err(e),
        }
    }

    /// At most `size` bytes of inode `ino` from `offset` on.
    pub fn read(&mut self, ino: u64, offset: i64, size: u32) -> (r: Result<Vec<u8>, Errno>)
        requires
            ino >= 1,
            old(self).superblock.readable(),
        ensures
            final(self).superblock == old(self).superblock,
            final(self).device.faults() != old(self).device.faults() ==> r
                == Err::<Vec<u8>, Errno>(Errno::EIO),
            forall|d: Seq<u8>| #[trigger]
                final(self).device.now(d) matches Some(c) ==> {
                    &&& old(self).device.now(d) == Some(c)
                    &&& read_result(r) == file_read(
                        c,
                        old(self).superblock,
                        mapped(InodeMapDir::FUSE2EXT, ino),
                        offset as u64,
                        size,
                    )
                },
    {
        let ino: u64 = map_inode(InodeMapDir::FUSE2EXT, ino);
        self.load_from_blocks(ino, offset as u64, size)
    }

    /// The entries of directory `ino` from number `offset` on.
    pub fn readdir(&mut self, ino: u64, offset: i64) -> (r: Result<Vec<DirItem>, Errno>)
        requires
            ino >= 1,
            old(self).superblock.readable(),
        ensures
            final(self).superblock == old(self).superblock,
            final(self).device.faults() != old(self).device.faults() ==> r
                == Err::<Vec<DirItem>, Errno>(Errno::EIO),
            forall|d: Seq<u8>| #[trigger]
                final(self).device.now(d) matches Some(c) ==> {
                    &&& old(self).device.now(d) == Some(c)
                    &&& match listing(
                        c,
                        old(self).superblock,
                        mapped(InodeMapDir::FUSE2EXT, ino),
                    ) {
                        Ok(entries) => r matches Ok(items) && are_items(items@, entries, offset),
                        Err(e) => r == Err::<Vec<DirItem>, Errno>(e),
                    }
                },
    {
        let ino: u64 = map_inode(InodeMapDir::FUSE2EXT, ino);
        match self.load_dir_entries(ino) {
            Ok(entries) => Ok(items_from(&entries, offset)),
            Err(e) => Err(e),
        }
    }

    /// Opens the entry `name` of directory `parent`, and creates it if it is
    /// not there. `now` is the time in seconds, if it is known.
    pub fn create(&mut self, parent: u64, name: Option<String>, mode: u32, now: Option<u64>) -> (r:
        Result<FileAttr, Errno>)
        requires
            name is Some ==> parent >= 1 && old(self).superblock.readable(),
        ensures
            same_but_counts(old(self).superblock, final(self).superblock),
            name is None ==> {
                &&& r == Err::<FileAttr, Errno>(Errno::EINVAL)
                &&& final(self).device == old(self).device
                &&& final(self).superblock == old(self).superblock
            },
            final(self).device.faults() != old(self).device.faults() ==> r
                == Err::<FileAttr, Errno>(Errno::EIO),
            forall|d: Seq<u8>| #[trigger]
                final(self).device.now(d) matches Some(c) ==> {
                    &&& old(self).device.now(d) matches Some(c0)
                    &&& create_answer(
                        c0,
                        old(self).superblock,
                        parent,
                        name_view(name),
                        mode,
                        now,
                    ) == (r, c, final(self).superblock)
                },
    {
        let parent: u64 = map_inode(InodeMapDir::FUSE2EXT, parent);
        let name = match name {
            Some(name) => name,
            None => return Err(Errno::EINVAL),
        };
        match self.find_create_dir_ent(parent, name, mode, 0, now) {
            Ok((ino, inode)) => Ok(inode2fuse(ino as u64, inode)),
            Err(e) => Err(e),
        }
    }

    /// Changes attributes of inode `ino`, and tells what they are then.
    pub fn setattr(&mut self, ino: u64, changes: AttrChanges) -> (r: Result<FileAttr, Errno>)
        requires
            ino >= 1,
            old(self).superblock.readable(),
            changes_fit(changes) || no_inode(
                old(self).device,
                old(self).superblock,
                mapped(InodeMapDir::FUSE2EXT, ino),
            ),
        ensures
            final(self).superblock == old(self).superblock,
            final(self).device.faults() != old(self).device.faults() ==> r
                == Err::<FileAttr, Errno>(Errno::EIO),
            forall|d: Seq<u8>| #[trigger]
                final(self).device.now(d) matches Some(c) ==> {
                    &&& old(self).device.now(d) matches Some(c0)
                    &&& attributes_set(c0, old(self).superblock, ino, changes) == (r, c)
                },
    {
        let ino: u64 = map_inode(InodeMapDir::FUSE2EXT, ino);
        let mut inode = match self.load_inode(ino) {
            Ok(inode) => inode,
            Err(e) => return Err(e),
        };
        if !changes.fit() {
            // the inode cannot be there: the replies contradict one another
            return Err(Errno::EIO);
        }
        apply_changes(&mut inode, &changes);
        match self.store_inode(ino, &inode) {
            Ok(_) => {},
            Err(e) => return Err(e),
        }
        Ok(inode2fuse(ino, inode))
    }
}

} // verus!
