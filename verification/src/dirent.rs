//! Directory entries as they stand in a block, and the walk over them.

use vstd::prelude::*;
use vstd::utf8::{decode_utf8, valid_utf8};
use crate::bytes::{get_u16, get_u32, take_bytes, u16_at, u32_at};
use crate::device::Storage;
use crate::errno::Errno;
use crate::fs::{lemma_block_addr, lemma_block_len, HelloFS};
use crate::inode::{kind_of_mode, FileType, Inode};
use crate::layout::block_at;
use crate::superblock::Superblock;

verus! {

/// How many bytes of an entry come before its name.
pub const DIRENT_HEADER_LEN: u8 = 8;

/// The kind of file that the type byte of an entry names.
pub open spec fn filetype_of(file_type: u8) -> Option<FileType> {
    if file_type == 1 {
        Some(FileType::RegularFile)
    } else if file_type == 2 {
        Some(FileType::Directory)
    } else if file_type == 3 {
        Some(FileType::CharDevice)
    } else if file_type == 4 {
        Some(FileType::BlockDevice)
    } else if file_type == 5 {
        Some(FileType::NamedPipe)
    } else if file_type == 6 {
        Some(FileType::Socket)
    } else if file_type == 7 {
        Some(FileType::Symlink)
    } else {
        None
    }
}

/// The type byte that names a kind of file.
pub open spec fn type_byte(ft: FileType) -> u8 {
    match ft {
        FileType::RegularFile => 1,
        FileType::Directory => 2,
        FileType::CharDevice => 3,
        FileType::BlockDevice => 4,
        FileType::NamedPipe => 5,
        FileType::Socket => 6,
        FileType::Symlink => 7,
    }
}

/// Each kind of file has a type byte of its own, and every type byte that
/// names a kind is the one of that kind.
pub proof fn lemma_type_bytes(ft: FileType, file_type: u8)
    ensures
        filetype_of(type_byte(ft)) == Some(ft),
        filetype_of(file_type) matches Some(named) ==> type_byte(named) == file_type,
{
}

/// The kind of file that a type byte names.
pub fn ext2_dirent_filetype(file_type: u8) -> (ft: Option<FileType>)
    ensures
        ft == filetype_of(file_type),
{
    match file_type {
        1 => Some(FileType::RegularFile),
        2 => Some(FileType::Directory),
        3 => Some(FileType::CharDevice),
        4 => Some(FileType::BlockDevice),
        5 => Some(FileType::NamedPipe),
        6 => Some(FileType::Socket),
        7 => Some(FileType::Symlink),
        _ => None,
    }
}

/// The type byte that names a kind of file.
pub fn get_ext2_dirent_ft_from_kind(ft: FileType) -> (file_type: u8)
    ensures
        file_type == type_byte(ft),
{
    match ft {
        FileType::RegularFile => 1,
        FileType::Directory => 2,
        FileType::CharDevice => 3,
        FileType::BlockDevice => 4,
        FileType::NamedPipe => 5,
        FileType::Socket => 6,
        FileType::Symlink => 7,
    }
}

/// What `String::from_utf8_lossy` makes of bytes that are not UTF-8.
pub uninterp spec fn utf8_lossy(bytes: Seq<u8>) -> Seq<char>;

/// The text that a name stands for: what its bytes encode, or a stand-in for
/// it where they are not UTF-8.
pub open spec fn text_of(name: Seq<u8>) -> Seq<char> {
    if valid_utf8(name) {
        decode_utf8(name)
    } else {
        utf8_lossy(name)
    }
}

/// Calls `String::from_utf8_lossy`: bytes that are UTF-8 give the text they
/// encode. Of others it is claimed only that the text depends on the bytes
/// alone; which characters stand in for the bytes at fault is left unsaid.
#[verifier::external_body]
pub(crate) fn lossy_text(bytes: &Vec<u8>) -> (text: String)
    ensures
        text@ == (if valid_utf8(bytes@) {
            decode_utf8(bytes@)
        } else {
            utf8_lossy(bytes@)
        }),
{
    String::from_utf8_lossy(bytes).into_owned()
}

/// An entry of a directory.
pub struct ExtDirEnt {
    pub inode: u32,
    pub rec_len: usize,
    pub name_len: u8,
    pub file_type: u8,
    pub name: Vec<u8>,
}

/// What an entry says.
pub struct DirEnt {
    pub inode: u32,
    pub rec_len: int,
    pub name_len: u8,
    pub file_type: u8,
    pub name: Seq<u8>,
}

impl View for ExtDirEnt {
    type V = DirEnt;

    open spec fn view(&self) -> DirEnt {
        DirEnt {
            inode: self.inode,
            rec_len: self.rec_len as int,
            name_len: self.name_len,
            file_type: self.file_type,
            name: self.name@,
        }
    }
}

/// The entry that stands at `at`.
pub open spec fn dirent_at(b: Seq<u8>, at: int) -> DirEnt {
    DirEnt {
        inode: u32_at(b, at),
        rec_len: u16_at(b, at + 4) as int,
        name_len: b[at + 6],
        file_type: b[at + 7],
        name: b.subrange(at + 8, at + 8 + b[at + 6]),
    }
}

/// What is done with the entries of a directory, one after the other.
pub trait DirVisitor: Sized {
    /// What has been found out so far.
    type State;

    spec fn state(&self) -> Self::State;

    /// What holds of everything that is found out.
    spec fn valid(s: Self::State) -> bool;

    /// What is found out from one more entry, and whether to stop there; an
    /// error ends the walk. The entry stands at `block_offset` in the block
    /// that begins at `block_addr`.
    spec fn step(s: Self::State, block_addr: int, block_offset: int, ent: DirEnt) -> (
        Self::State,
        Result<bool, Errno>,
    );

    fn visit(&mut self, block_addr: u64, block_offset: usize, ent: &ExtDirEnt) -> (stop: Result<
        bool,
        Errno,
    >)
        requires
            Self::valid(old(self).state()),
            block_addr + block_offset <= u64::MAX,
        ensures
            Self::valid(final(self).state()),
            (final(self).state(), stop) == Self::step(
                old(self).state(),
                block_addr as int,
                block_offset as int,
                ent@,
            ),
    ;
}

/// How the walk over a block came to its end: it was stopped, it reached the
/// end, an entry did not fit in the block, or the visitor failed.
#[derive(Clone, Copy, Debug, PartialEq, Eq, Structural)]
pub enum Walk {
    Stopped,
    Ended,
    Malformed,
    Failed(Errno),
}

/// The walk over the entries of block `b`, which begins at `addr`, from
/// `offset` on. It ends with the block or at an entry without a length. A
/// block is malformed where an entry does not fit in it.
pub open spec fn walk_from<V: DirVisitor>(
    s: V::State,
    addr: int,
    b: Seq<u8>,
    offset: int,
) -> (V::State, Walk)
    decreases (if offset < b.len() {
            b.len() - offset
        } else {
            0
        }),
{
    if offset >= b.len() {
        (s, Walk::Ended)
    } else if offset + DIRENT_HEADER_LEN > b.len() {
        (s, Walk::Malformed)
    } else {
        let ent = dirent_at(b, offset);
        if ent.rec_len <= 0 {
            (s, Walk::Ended)
        } else if offset + DIRENT_HEADER_LEN + ent.name_len > b.len() {
            (s, Walk::Malformed)
        } else {
            let (s2, stop) = V::step(s, addr, offset, ent);
            match stop {
                Ok(true) => (s2, Walk::Stopped),
                Ok(false) => walk_from::<V>(s2, addr, b, offset + ent.rec_len),
                Err(e) => (s2, Walk::Failed(e)),
            }
        }
    }
}

/// The walk over the blocks from number `i` on; blocks without a number are
/// passed over. `Ok(true)` means that it was stopped.
pub open spec fn walk_blocks<V: DirVisitor>(
    s: V::State,
    d: Seq<u8>,
    sb: Superblock,
    blocks: Seq<u32>,
    i: int,
) -> (V::State, Result<bool, Errno>)
    decreases blocks.len() - i,
{
    if i >= blocks.len() {
        (s, Ok(false))
    } else if blocks[i] == 0 {
        walk_blocks::<V>(s, d, sb, blocks, i + 1)
    } else {
        match block_at(d, sb, blocks[i]) {
            Some(b) => {
                let (s2, walk) = walk_from::<V>(s, sb.block_addr(blocks[i]), b, 0);
                match walk {
                    Walk::Stopped => (s2, Ok(true)),
                    Walk::Malformed => (s2, Err(Errno::EIO)),
                    Walk::Failed(e) => (s2, Err(e)),
                    Walk::Ended => walk_blocks::<V>(s2, d, sb, blocks, i + 1),
                }
            },
            None => (s, Err(Errno::EIO)),
        }
    }
}

/// The walk over the entries of the directory that an inode stands for.
pub open spec fn walk_directory<V: DirVisitor>(
    s: V::State,
    d: Seq<u8>,
    sb: Superblock,
    inode: Inode,
) -> (V::State, Result<bool, Errno>) {
    if kind_of_mode(inode.mode) != Some(FileType::Directory) {
        (s, Err(Errno::ENOTDIR))
    } else {
        walk_blocks::<V>(s, d, sb, inode.block@, 0)
    }
}

/// Walks over the entries of one block, which begins at `addr`.
pub fn walk_block<V: DirVisitor>(block: &Vec<u8>, addr: u64, visitor: &mut V) -> (walk: Walk)
    requires
        V::valid(old(visitor).state()),
        addr + block@.len() <= u64::MAX,
    ensures
        V::valid(final(visitor).state()),
        (final(visitor).state(), walk) == walk_from::<V>(
            old(visitor).state(),
            addr as int,
            block@,
            0,
        ),
{
    let size: usize = block.len();
    let mut block_offset: usize = 0;
    while block_offset < size
        invariant
            size == block@.len(),
            addr + size <= u64::MAX,
            block_offset <= size,
            V::valid(visitor.state()),
            walk_from::<V>(old(visitor).state(), addr as int, block@, 0) == walk_from::<V>(
                visitor.state(),
                addr as int,
                block@,
                block_offset as int,
            ),
        decreases size - block_offset,
    {
        if size - block_offset < DIRENT_HEADER_LEN as usize {
            return Walk::Malformed;
        }
        let rec_len: usize = get_u16(block, block_offset + 4) as usize;
        if rec_len == 0 {
            return Walk::Ended;
        }
        let name_len: u8 = block[block_offset + 6];
        if size - block_offset - (DIRENT_HEADER_LEN as usize) < name_len as usize {
            return Walk::Malformed;
        }
        let dirent = ExtDirEnt {
            inode: get_u32(block, block_offset),
            rec_len,
            name_len,
            file_type: block[block_offset + 7],
            name: take_bytes(block, block_offset + 8, name_len as usize),
        };
        match visitor.visit(addr, block_offset, &dirent) {
            Ok(true) => return Walk::Stopped,
            Ok(false) => {},
            Err(e) => return Walk::Failed(e),
        }
        assert(walk_from::<V>(old(visitor).state(), addr as int, block@, 0) == walk_from::<V>(
            visitor.state(),
            addr as int,
            block@,
            block_offset + rec_len,
        ));
        if rec_len >= size - block_offset {
            return Walk::Ended;
        }
        block_offset = block_offset + rec_len;
    }
    Walk::Ended
}

impl<S: Storage> HelloFS<S> {
    /// Walks over the entries of the directory that `inode` stands for.
    pub fn walk_dir_entries<V: DirVisitor>(&mut self, inode: &Inode, visitor: &mut V) -> (r: Result<
        bool,
        Errno,
    >)
        requires
            old(self).superblock.addressable(),
            V::valid(old(visitor).state()),
        ensures
            final(self).superblock == old(self).superblock,
            V::valid(final(visitor).state()),
            kind_of_mode(inode.mode) != Some(FileType::Directory) ==> {
                &&& r == Err::<bool, Errno>(Errno::ENOTDIR)
                &&& final(self).device == old(self).device
                &&& final(visitor).state() == old(visitor).state()
            },
            final(self).device.faults() != old(self).device.faults() ==> r
                == Err::<bool, Errno>(Errno::EIO),
            forall|d: Seq<u8>| #[trigger]
                final(self).device.now(d) matches Some(c) ==> {
                    &&& old(self).device.now(d) == Some(c)
                    &&& (final(visitor).state(), r) == walk_directory::<V>(
                        old(visitor).state(),
                        c,
                        old(self).superblock,
                        *inode,
                    )
                },
    {
        if inode.get_kind() != Some(FileType::Directory) {
            return Err(Errno::ENOTDIR);
        }
        let ghost sb = self.superblock;
        let ghost start = visitor.state();
        let mut i: usize = 0;
        while i < 15
            invariant
                self.superblock == sb,
                sb == old(self).superblock,
                sb.addressable(),
                start == old(visitor).state(),
                kind_of_mode(inode.mode) == Some(FileType::Directory),
                self.device.faults() == old(self).device.faults(),
                i <= 15,
                V::valid(visitor.state()),
                forall|d: Seq<u8>| #[trigger]
                    self.device.now(d) matches Some(c) ==> {
                        &&& old(self).device.now(d) == Some(c)
                        &&& walk_blocks::<V>(start, c, sb, inode.block@, 0) == walk_blocks::<V>(
                            visitor.state(),
                            c,
                            sb,
                            inode.block@,
                            i as int,
                        )
                    },
            decreases 15 - i,
        {
            let block_num: u32 = inode.block[i];
            i = i + 1;
            if block_num == 0 {
                continue ;
            }
            let block_addr: u64 = self.block2addr(block_num);
            let buf = match self.load_block(block_num) {
                Ok(buf) => buf,
                Err(e) => return Err(e),
            };
            proof {
                lemma_block_len(sb);
                lemma_block_addr(sb, block_num);
            }
            match walk_block(&buf, block_addr, visitor) {
                Walk::Stopped => return Ok(true),
                Walk::Malformed => return Err(Errno::EIO),
                Walk::Failed(e) => return Err(e),
                Walk::Ended => {},
            }
        }
        Ok(false)
    }
}

} // verus!
