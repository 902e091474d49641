//! Listing a directory, and finding or creating an entry in it.

use vstd::prelude::*;
use vstd::array::spec_array_update;
use vstd::utf8::encode_utf8;
use crate::allocation::{allocated, same_but_counts, Resource};
use crate::bytes::{
    overwrite, push_byte, push_bytes, push_u16, push_u32, put_bytes, u16_bytes, u32_bytes,
};
use crate::device::{decode, fetch, lemma_decode, Storage};
use crate::dirent::{
    ext2_dirent_filetype, filetype_of, get_ext2_dirent_ft_from_kind, lossy_text, text_of, type_byte,
    walk_directory, DirEnt, DirVisitor, ExtDirEnt, DIRENT_HEADER_LEN,
};
use crate::errno::Errno;
use crate::fs::HelloFS;
use crate::inode::{kind_of_mode, FileType, Inode};
use crate::layout::{inode_at, with_inode, written};
use crate::superblock::Superblock;

verus! {

/// `n`, rounded up to a multiple of 4.
pub open spec fn align4(n: int) -> int {
    (n + 3) / 4 * 4
}

/// An entry as it is listed.
#[derive(Debug)]
pub struct FuseDirEntry {
    pub inode: u32,
    pub filetype: FileType,
    pub name: String,
}

/// What a listed entry says.
pub struct Listed {
    pub inode: u32,
    pub filetype: FileType,
    pub name: Seq<char>,
}

impl View for FuseDirEntry {
    type V = Listed;

    open spec fn view(&self) -> Listed {
        Listed { inode: self.inode, filetype: self.filetype, name: self.name@ }
    }
}

/// What listed entries say.
pub open spec fn listed(entries: Seq<FuseDirEntry>) -> Seq<Listed> {
    Seq::new(entries.len(), |i: int| entries[i]@)
}

/// Collects the entries that are in use and name a kind of file.
pub struct EntryCollector {
    pub entries: Vec<FuseDirEntry>,
}

impl DirVisitor for EntryCollector {
    type State = Seq<Listed>;

    open spec fn state(&self) -> Seq<Listed> {
        listed(self.entries@)
    }

    /// Every entry has an inode.
    open spec fn valid(s: Seq<Listed>) -> bool {
        forall|i: int| 0 <= i < s.len() ==> (#[trigger] s[i]).inode != 0
    }

    open spec fn step(s: Seq<Listed>, block_addr: int, block_offset: int, ent: DirEnt) -> (
        Seq<Listed>,
        Result<bool, Errno>,
    ) {
        match filetype_of(ent.file_type) {
            Some(filetype) => if ent.inode != 0 {
                (s.push(Listed { inode: ent.inode, filetype, name: text_of(ent.name) }), Ok(false))
            } else {
                (s, Ok(false))
            },
            None => (s, Ok(false)),
        }
    }

    fn visit(&mut self, block_addr: u64, block_offset: usize, ent: &ExtDirEnt) -> (stop: Result<
        bool,
        Errno,
    >) {
        if ent.inode != 0 {
            match ext2_dirent_filetype(ent.file_type) {
                Some(filetype) => {
                    let entry = FuseDirEntry {
                        inode: ent.inode,
                        filetype,
                        name: lossy_text(&ent.name),
                    };
                    self.entries.push(entry);
                    assert(listed(self.entries@) =~= listed(old(self).entries@).push(entry@));
                },
                None => {},
            }
        }
        Ok(false)
    }
}

/// The entries of the directory with inode `ino`.
pub open spec fn listing(d: Seq<u8>, sb: Superblock, ino: u64) -> Result<Seq<Listed>, Errno> {
    match inode_at(d, sb, ino) {
        Ok(inode) => {
            let (entries, r) = walk_directory::<EntryCollector>(Seq::empty(), d, sb, inode);
            match r {
                Ok(_) => Ok(entries),
                Err(e) => Err(e),
            }
        },
        Err(e) => Err(e),
    }
}

/// The entries that were listed, or the error.
pub open spec fn listing_result(r: Result<Vec<FuseDirEntry>, Errno>) -> Result<
    Seq<Listed>,
    Errno,
> {
    match r {
        Ok(entries) => Ok(listed(entries@)),
        Err(e) => Err(e),
    }
}

/// What the search for a name has found: the inode of the entry with that name
/// (0 if it was deleted), and the place of an entry that a new one can be put
/// into.
pub struct Search {
    pub target: Seq<char>,
    pub target_rec_len: int,
    pub alloc_len: int,
    pub alloc_addr: int,
    pub opened: Option<u32>,
}

/// Searches for a name, and for room for an entry with that name.
pub struct SlotFinder {
    pub target_name: String,
    pub target_rec_len: u128,
    pub alloc_buf_len: usize,
    pub alloc_buf_addr: u64,
    pub opened_inode: Option<u32>,
}

impl DirVisitor for SlotFinder {
    type State = Search;

    open spec fn state(&self) -> Search {
        Search {
            target: self.target_name@,
            target_rec_len: self.target_rec_len as int,
            alloc_len: self.alloc_buf_len as int,
            alloc_addr: self.alloc_buf_addr as int,
            opened: self.opened_inode,
        }
    }

    open spec fn valid(s: Search) -> bool {
        true
    }

    open spec fn step(s: Search, block_addr: int, block_offset: int, ent: DirEnt) -> (
        Search,
        Result<bool, Errno>,
    ) {
        let here = Search {
            alloc_len: ent.rec_len,
            alloc_addr: block_addr + block_offset,
            ..s
        };
        if text_of(ent.name) == s.target {
            if ent.inode == 0 {
                (Search { opened: Some(0u32), ..here }, Ok(true))
            } else {
                (Search { opened: Some(ent.inode), ..s }, Ok(true))
            }
        } else if s.alloc_len == 0 && align4(DIRENT_HEADER_LEN + ent.name_len) + s.target_rec_len
            <= ent.rec_len {
            (here, Ok(false))
        } else {
            (s, Ok(false))
        }
    }

    fn visit(&mut self, block_addr: u64, block_offset: usize, ent: &ExtDirEnt) -> (stop: Result<
        bool,
        Errno,
    >) {
        let dirent_name = lossy_text(&ent.name);
        if dirent_name == self.target_name {
            self.opened_inode = Some(ent.inode);
            if ent.inode == 0 {
                self.alloc_buf_len = ent.rec_len;
                self.alloc_buf_addr = block_addr + block_offset as u64;
            }
            return Ok(true);
        }
        let min_rec_len: usize = (DIRENT_HEADER_LEN as usize + ent.name_len as usize + 3) / 4 * 4;
        if self.alloc_buf_len == 0 && ent.rec_len >= min_rec_len && self.target_rec_len <= (
        ent.rec_len - min_rec_len) as u128 {
            self.alloc_buf_len = ent.rec_len;
            self.alloc_buf_addr = block_addr + block_offset as u64;
        }
        Ok(false)
    }
}

/// The inode of a file that is created at second `now`.
pub open spec fn new_inode(mode: u32, rdev: u32, now: u64) -> Inode {
    let blank = decode::<Inode>(Seq::new(128, |i: int| 0u8));
    Inode {
        mode: mode as u16,
        atime: now as u32,
        ctime: now as u32,
        mtime: now as u32,
        links_count: 1,
        block: spec_array_update(blank.block, 0, rdev),
        ..blank
    }
}

fn inode_for(mode: u32, rdev: u32, now: u64) -> (inode: Inode)
    ensures
        inode == new_inode(mode, rdev, now),
{
    let blank = Inode::default();
    proof {
        lemma_decode(blank);
    }
    let ghost start = blank.block;
    let mut inode = Inode {
        mode: mode as u16,
        atime: now as u32,
        ctime: now as u32,
        mtime: now as u32,
        links_count: 1,
        ..blank
    };
    inode.block[0] = rdev;
    proof {
        let goal = spec_array_update(start, 0, rdev);
        assert(inode.block =~= goal) by {
            assert forall|i: int| 0 <= i < 15 implies inode.block[i] == goal[i] by {
                assert(inode.block@[i] == start@.update(0, rdev)[i]);
                assert(goal@[i] == start@.update(0, rdev)[i]);
            }
        }
    }
    inode
}

/// The bytes of an entry.
pub open spec fn record(ino: u32, rec_len: int, ft: FileType, name: Seq<u8>) -> Seq<u8> {
    u32_bytes(ino) + u16_bytes(rec_len as u16) + seq![name.len() as u8] + seq![type_byte(ft)] + name
}

/// `buf`, which holds one entry, with an entry for inode `ino` put into it. If
/// `reuse` is set, the entry is one that was deleted and gets a new inode.
/// Otherwise it is cut short behind its name and what it gives up becomes the
/// new entry: without an entry there is no room for one, and a name has at
/// most 255 bytes. An inode of no known kind has no entry.
#[verifier::opaque]
pub open spec fn with_record(
    buf: Seq<u8>,
    reuse: bool,
    ino: u32,
    kind: Option<FileType>,
    name: Seq<u8>,
) -> Result<Seq<u8>, Errno> {
    if reuse {
        match kind {
            Some(ft) => if buf.len() < DIRENT_HEADER_LEN {
                Err(Errno::EIO)
            } else {
                Ok(overwrite(overwrite(buf, 0, u32_bytes(ino)), 7, seq![type_byte(ft)]))
            },
            None => Err(Errno::EIO),
        }
    } else if buf.len() == 0 {
        Err(Errno::ENOSPC)
    } else if name.len() > 255 {
        Err(Errno::EINVAL)
    } else if buf.len() < DIRENT_HEADER_LEN {
        Err(Errno::EIO)
    } else {
        let kept = align4(DIRENT_HEADER_LEN + buf[6]);
        match kind {
            Some(ft) => if kept + DIRENT_HEADER_LEN + name.len() > buf.len() {
                Err(Errno::EIO)
            } else {
                Ok(
                    overwrite(
                        overwrite(buf, 4, u16_bytes(kept as u16)),
                        kept,
                        record(ino, buf.len() - kept, ft, name),
                    ),
                )
            },
            None => Err(Errno::EIO),
        }
    }
}

/// Puts an entry for inode `ino` into `buf`, which holds one entry.
pub fn put_record(
    buf: &mut Vec<u8>,
    reuse: bool,
    ino: u32,
    kind: Option<FileType>,
    name: &String,
) -> (r: Result<(), Errno>)
    ensures
        match with_record(old(buf)@, reuse, ino, kind, encode_utf8(name@)) {
            Ok(b) => r is Ok && final(buf)@ == b,
            Err(e) => r == Err::<(), Errno>(e) && final(buf)@ == old(buf)@,
        },
{
    proof {
        reveal(with_record);
    }
    let bytes = name.as_str().as_bytes();
    if reuse {
        let ft = match kind {
            Some(ft) => ft,
            None => return Err(Errno::EIO),
        };
        if buf.len() < DIRENT_HEADER_LEN as usize {
            return Err(Errno::EIO);
        }
        let mut number: Vec<u8> = Vec::new();
        push_u32(&mut number, ino);
        assert(number@ =~= u32_bytes(ino));
        put_bytes(buf, 0, &number);
        let code: Vec<u8> = vec![get_ext2_dirent_ft_from_kind(ft)];
        assert(code@ =~= seq![type_byte(ft)]);
        put_bytes(buf, 7, &code);
        return Ok(());
    }
    if buf.len() == 0 {
        return Err(Errno::ENOSPC);
    }
    if bytes.len() > 255 {
        return Err(Errno::EINVAL);
    }
    if buf.len() < DIRENT_HEADER_LEN as usize {
        return Err(Errno::EIO);
    }
    let ft = match kind {
        Some(ft) => ft,
        None => return Err(Errno::EIO),
    };
    let min_rec_len: usize = (DIRENT_HEADER_LEN as usize + buf[6] as usize + 3) / 4 * 4;
    if min_rec_len + DIRENT_HEADER_LEN as usize + bytes.len() > buf.len() {
        return Err(Errno::EIO);
    }
    let new_rec_len: usize = buf.len() - min_rec_len;
    let mut short: Vec<u8> = Vec::new();
    push_u16(&mut short, min_rec_len as u16);
    assert(short@ =~= u16_bytes(min_rec_len as u16));
    let mut entry: Vec<u8> = Vec::new();
    push_u32(&mut entry, ino);
    assert(entry@ =~= u32_bytes(ino));
    push_u16(&mut entry, new_rec_len as u16);
    push_byte(&mut entry, bytes.len() as u8);
    push_byte(&mut entry, get_ext2_dirent_ft_from_kind(ft));
    push_bytes(&mut entry, bytes);
    put_bytes(buf, 4, &short);
    put_bytes(buf, min_rec_len, &entry);
    Ok(())
}

/// What making a file returns where `s` is what the search has found, and the
/// device and the superblock that it leaves: an inode is allocated and stored,
/// and its entry is put into the place that was found. `now` is the time, if it
/// is known.
#[verifier::opaque]
pub open spec fn made(
    d: Seq<u8>,
    sb: Superblock,
    parent: u64,
    s: Search,
    mode: u32,
    rdev: u32,
    now: Option<u64>,
) -> (Result<(u32, Inode), Errno>, Seq<u8>, Superblock) {
    let (r, d1, sb1) = allocated(d, sb, Resource::Inode, parent);
    match (r, now) {
        (Ok(ino), Some(now)) => {
            let inode = new_inode(mode, rdev, now);
            match with_inode(d1, sb1, ino as u64, inode) {
                Ok(d2) => match fetch(d2, s.alloc_addr, s.alloc_len) {
                    Some(buf) => match with_record(
                        buf,
                        s.opened is Some,
                        ino,
                        kind_of_mode(inode.mode),
                        encode_utf8(s.target),
                    ) {
                        Ok(buf2) => match written(d2, s.alloc_addr, buf2) {
                            Ok(d3) => (Ok((ino, inode)), d3, sb1),
                            Err(e) => (Err(e), d2, sb1),
                        },
                        Err(e) => (Err(e), d2, sb1),
                    },
                    None => (Err(Errno::EIO), d2, sb1),
                },
                Err(e) => (Err(e), d1, sb1),
            }
        },
        (Ok(_), None) => (Err(Errno::EIO), d1, sb1),
        (Err(e), _) => (Err(e), d1, sb1),
    }
}

/// Why a new entry cannot be put where `s` is what the search has found: there
/// is no room for it, or its name has more than 255 bytes.
pub open spec fn no_place(s: Search) -> Option<Errno> {
    if s.opened is Some {
        None
    } else if s.alloc_len == 0 {
        Some(Errno::ENOSPC)
    } else if encode_utf8(s.target).len() > 255 {
        Some(Errno::EINVAL)
    } else {
        None
    }
}

/// What refusing to create a file because of `why` returns, and the device and
/// the superblock that it leaves: nothing is changed. Where no inode can be
/// allocated for it, the attempt fails for that.
pub open spec fn refused(d: Seq<u8>, sb: Superblock, parent: u64, why: Errno) -> (
    Result<(u32, Inode), Errno>,
    Seq<u8>,
    Superblock,
) {
    let (r, d1, sb1) = allocated(d, sb, Resource::Inode, parent);
    match r {
        Ok(_) => (Err(why), d, sb),
        Err(e) => (Err(e), d1, sb1),
    }
}

/// What creating a file returns, and the device and the superblock that it
/// leaves. Nothing is changed where no inode is free, where the superblock does
/// not allow to allocate, or where the entry has no place. Without the time the
/// file is not made, though an inode is taken for it.
pub open spec fn created(
    d: Seq<u8>,
    sb: Superblock,
    parent: u64,
    s: Search,
    mode: u32,
    rdev: u32,
    now: Option<u64>,
) -> (Result<(u32, Inode), Errno>, Seq<u8>, Superblock) {
    if Resource::Inode.left(sb) == 0 {
        (Err(Errno::ENOSPC), d, sb)
    } else if !sb.allocatable() {
        (Err(Errno::EIO), d, sb)
    } else {
        match (no_place(s), now) {
            (Some(why), Some(_)) => refused(d, sb, parent, why),
            _ => made(d, sb, parent, s, mode, rdev, now),
        }
    }
}

/// Where the search for `name` begins.
pub open spec fn search_for(name: Seq<char>) -> Search {
    Search {
        target: name,
        target_rec_len: align4(DIRENT_HEADER_LEN + encode_utf8(name).len()),
        alloc_len: 0,
        alloc_addr: 0,
        opened: None,
    }
}

/// What opening the entry `name` of directory `parent` returns, where it is
/// created if it is not there, and the device and the superblock that it
/// leaves.
pub open spec fn opened_or_created(
    d: Seq<u8>,
    sb: Superblock,
    parent: u64,
    name: Seq<char>,
    mode: u32,
    rdev: u32,
    now: Option<u64>,
) -> (Result<(u32, Inode), Errno>, Seq<u8>, Superblock) {
    match inode_at(d, sb, parent) {
        Ok(dir) => {
            let (s, r) = walk_directory::<SlotFinder>(search_for(name), d, sb, dir);
            match r {
                Ok(_) => match s.opened {
                    Some(ino) => if ino == 0 {
                        created(d, sb, parent, s, mode, rdev, now)
                    } else {
                        match inode_at(d, sb, ino as u64) {
                            Ok(inode) => (Ok((ino, inode)), d, sb),
                            Err(e) => (Err(e), d, sb),
                        }
                    },
                    None => created(d, sb, parent, s, mode, rdev, now),
                },
                Err(e) => (Err(e), d, sb),
            }
        },
        Err(e) => (Err(e), d, sb),
    }
}

impl<S: Storage> HelloFS<S> {
    /// Lists the directory with inode `ino`.
    pub fn load_dir_entries(&mut self, ino: u64) -> (r: Result<Vec<FuseDirEntry>, Errno>)
        requires
            ino >= 1,
            old(self).superblock.readable(),
        ensures
            final(self).superblock == old(self).superblock,
            r matches Ok(entries) ==> forall|i: int|
                0 <= i < entries@.len() ==> (#[trigger] entries@[i]).inode != 0,
            final(self).device.faults() != old(self).device.faults() ==> r
                == Err::<Vec<FuseDirEntry>, Errno>(Errno::EIO),
            forall|d: Seq<u8>| #[trigger]
                final(self).device.now(d) matches Some(c) ==> {
                    &&& old(self).device.now(d) == Some(c)
                    &&& listing_result(r) == listing(c, old(self).superblock, ino)
                },
    {
        let inode = match self.load_inode(ino) {
            Ok(inode) => inode,
            Err(e) => return Err(e),
        };
        let mut collector = EntryCollector { entries: Vec::new() };
        assert(collector.state() =~= Seq::<Listed>::empty());
        match self.walk_dir_entries(&inode, &mut collector) {
            Ok(_) => {
                assert forall|i: int| 0 <= i < collector.entries@.len() implies (
                #[trigger] collector.entries@[i]).inode != 0 by {
                    assert(listed(collector.entries@)[i].inode != 0);
                }
                Ok(collector.entries)
            },
            Err(e) => Err(e),
        }
    }

    /// Makes a file in the place that was found.
    fn make_dir_ent(
        &mut self,
        parent: u64,
        slot: &SlotFinder,
        mode: u32,
        rdev: u32,
        now: Option<u64>,
    ) -> (r: Result<(u32, Inode), Errno>)
        requires
            parent >= 1,
            old(self).superblock.allocatable(),
        ensures
            same_but_counts(old(self).superblock, final(self).superblock),
            r matches Ok((n, _)) ==> n >= 1,
            final(self).device.faults() != old(self).device.faults() ==> r
                == Err::<(u32, Inode), Errno>(Errno::EIO),
            forall|d: Seq<u8>| #[trigger]
                final(self).device.now(d) matches Some(c) ==> {
                    &&& old(self).device.now(d) matches Some(c0)
                    &&& made(
                        c0,
                        old(self).superblock,
                        parent,
                        slot.state(),
                        mode,
                        rdev,
                        now,
                    ) == (r, c, final(self).superblock)
                },
    {
        proof {
            reveal(made);
        }
        let new_inode_num: u32 = match self.alloc_inode(parent) {
            Ok(n) => n,
            Err(e) => return Err(e),
        };
        let seconds: u64 = match now {
            Some(seconds) => seconds,
            None => return Err(Errno::EIO),
        };
        let new = inode_for(mode, rdev, seconds);
        match self.store_inode(new_inode_num as u64, &new) {
            Ok(_) => {},
            Err(e) => return Err(e),
        }
        let mut buf = match self.device.read_at(slot.alloc_buf_len, slot.alloc_buf_addr) {
            Ok(buf) => buf,
            Err(e) => return Err(e),
        };
        match put_record(
            &mut buf,
            slot.opened_inode.is_some(),
            new_inode_num,
            new.get_kind(),
            &slot.target_name,
        ) {
            Ok(_) => {},
            Err(e) => return Err(e),
        }
        match self.device.write_at(&buf, slot.alloc_buf_addr) {
            Ok(_) => Ok((new_inode_num, new)),
            Err(e) => Err(e),
        }
    }

    /// Refuses to create a file in directory `parent` because of `why`, unless no
    /// inode could be allocated for it.
    fn refuse_dir_ent(&mut self, parent: u64, why: Errno) -> (r: Result<(u32, Inode), Errno>)
        requires
            parent >= 1,
            old(self).superblock.allocatable(),
            old(self).superblock.free_inodes_count != 0,
        ensures
            r is Err,
            same_but_counts(old(self).superblock, final(self).superblock),
            final(self).device.faults() != old(self).device.faults() ==> r
                == Err::<(u32, Inode), Errno>(Errno::EIO),
            forall|d: Seq<u8>| #[trigger]
                final(self).device.now(d) matches Some(c) ==> {
                    &&& old(self).device.now(d) matches Some(c0)
                    &&& refused(c0, old(self).superblock, parent, why) == (
                        r,
                        c,
                        final(self).superblock,
                    )
                },
    {
        match self.could_allocate_inode(parent) {
            Ok(true) => Err(why),
            Ok(false) => {
                let _ = self.alloc_inode(parent);
                Err(Errno::EIO)
            },
            Err(e) => Err(e),
        }
    }

    /// Creates a file where `slot` is what the search has found.
    fn create_dir_ent(
        &mut self,
        parent: u64,
        slot: &SlotFinder,
        mode: u32,
        rdev: u32,
        now: Option<u64>,
    ) -> (r: Result<(u32, Inode), Errno>)
        requires
            parent >= 1,
            old(self).superblock.readable(),
        ensures
            same_but_counts(old(self).superblock, final(self).superblock),
            r matches Ok((n, _)) ==> n >= 1,
            final(self).device.faults() != old(self).device.faults() ==> r
                == Err::<(u32, Inode), Errno>(Errno::EIO),
            forall|d: Seq<u8>| #[trigger]
                final(self).device.now(d) matches Some(c) ==> {
                    &&& old(self).device.now(d) matches Some(c0)
                    &&& created(
                        c0,
                        old(self).superblock,
                        parent,
                        slot.state(),
                        mode,
                        rdev,
                        now,
                    ) == (r, c, final(self).superblock)
                },
    {
        if self.superblock.free_inodes_count == 0 {
            return Err(Errno::ENOSPC);
        }
        if !self.superblock.is_allocatable() {
            return Err(Errno::EIO);
        }
        if slot.opened_inode.is_none() && now.is_some() {
            if slot.alloc_buf_len == 0 {
                return self.refuse_dir_ent(parent, Errno::ENOSPC);
            }
            if slot.target_name.as_str().as_bytes().len() > 255 {
                return self.refuse_dir_ent(parent, Errno::EINVAL);
            }
        }
        self.make_dir_ent(parent, slot, mode, rdev, now)
    }

    /// Opens the entry `target_name` of directory `parent`, and creates it if
    /// it is not there. `now` is the time in seconds, if it is known.
    pub fn find_create_dir_ent(
        &mut self,
        parent: u64,
        target_name: String,
        mode: u32,
        rdev: u32,
        now: Option<u64>,
    ) -> (r: Result<(u32, Inode), Errno>)
        requires
            parent >= 1,
            old(self).superblock.readable(),
        ensures
            same_but_counts(old(self).superblock, final(self).superblock),
            r matches Ok((n, _)) ==> n >= 1,
            final(self).device.faults() != old(self).device.faults() ==> r
                == Err::<(u32, Inode), Errno>(Errno::EIO),
            forall|d: Seq<u8>| #[trigger]
                final(self).device.now(d) matches Some(c) ==> {
                    &&& old(self).device.now(d) matches Some(c0)
                    &&& opened_or_created(
                        c0,
                        old(self).superblock,
                        parent,
                        target_name@,
                        mode,
                        rdev,
                        now,
                    ) == (r, c, final(self).superblock)
                },
    {
        let name_len: usize = target_name.as_str().as_bytes().len();
        let target_rec_len: u128 = (DIRENT_HEADER_LEN as u128 + name_len as u128 + 3) / 4 * 4;
        let parent_inode = match self.load_inode(parent) {
            Ok(inode) => inode,
            Err(e) => return Err(e),
        };
        let mut slot = SlotFinder {
            target_name,
            target_rec_len,
            alloc_buf_len: 0,
            alloc_buf_addr: 0,
            opened_inode: None,
        };
        assert(slot.state() == search_for(target_name@));
        match self.walk_dir_entries(&parent_inode, &mut slot) {
            Ok(_) => {},
            Err(e) => return Err(e),
        }
        match slot.opened_inode {
            Some(inode_num) => {
                if inode_num != 0 {
                    return match self.load_inode(inode_num as u64) {
                        Ok(inode) => Ok((inode_num, inode)),
                        Err(e) => Err(e),
                    };
                }
            },
            None => {},
        }
        self.create_dir_ent(parent, &slot, mode, rdev, now)
    }
}

} // verus!
