//! Inodes.

use vstd::prelude::*;
use crate::bytes::{
    fill_bytes, fill_words, get_u16, get_u32, lemma_array_of, lemma_bytes_round_trip,
    lemma_first_u16, lemma_join_bytes, lemma_join_u16, lemma_join_u32, lemma_last_bytes,
    lemma_last_u16, lemma_last_u32, lemma_u16_at_bytes, lemma_u32s_round_trip, push_bytes, push_u16,
    push_u32, push_words, u16_at, u16_bytes, u32_at, u32_bytes, u32s_bytes, u32s_of,
};
use crate::device::DeviceData;

verus! {

/// What kind of file an inode or a directory entry stands for.
#[derive(Clone, Copy, Debug, PartialEq, Eq, Structural)]
pub enum FileType {
    NamedPipe,
    CharDevice,
    BlockDevice,
    Directory,
    RegularFile,
    Symlink,
    Socket,
}

/// An inode.
#[derive(Debug)]
pub struct Inode {
    pub mode: u16,
    pub uid: u16,
    pub size: u32,
    pub atime: u32,
    pub ctime: u32,
    pub mtime: u32,
    pub dtime: u32,
    pub gid: u16,
    pub links_count: u16,
    pub blocks: u32,
    pub flags: u32,
    pub osd1: u32,
    pub block: [u32; 15],
    pub generation: u32,
    pub file_acl: u32,
    pub dir_acl: u32,
    pub faddr: u32,
    pub osd2: [u8; 12],
}

impl Inode {
    /// The inode, field by field, at its offsets in `e`.
    pub open spec fn laid_out(self, e: Seq<u8>) -> bool {
        &&& e.len() == 128
        &&& self.mode == u16_at(e, 0)
        &&& self.uid == u16_at(e, 2)
        &&& self.size == u32_at(e, 4)
        &&& self.atime == u32_at(e, 8)
        &&& self.ctime == u32_at(e, 12)
        &&& self.mtime == u32_at(e, 16)
        &&& self.dtime == u32_at(e, 20)
        &&& self.gid == u16_at(e, 24)
        &&& self.links_count == u16_at(e, 26)
        &&& self.blocks == u32_at(e, 28)
        &&& self.flags == u32_at(e, 32)
        &&& self.osd1 == u32_at(e, 36)
        &&& self.block@ == u32s_of(e.subrange(40, 100))
        &&& self.generation == u32_at(e, 100)
        &&& self.file_acl == u32_at(e, 104)
        &&& self.dir_acl == u32_at(e, 108)
        &&& self.faddr == u32_at(e, 112)
        &&& self.osd2@ == e.subrange(116, 128)
    }

    /// Each field stands at its offset in the encoding.
    pub proof fn lemma_layout(self)
        ensures
            self.laid_out(self.encode()),
    {
        let e = self.encode();
        assert(e.subrange(0, 128) =~= e);
        self.lemma_fields(e);
    }

    proof fn lemma_fields(self, e: Seq<u8>)
        requires
            e.len() == 128,
            e.subrange(0, 128) == self.encode(),
        ensures
            self.laid_out(e),
    {
        lemma_u32s_round_trip(self.block@);
        let p0 = u16_bytes(self.mode);
        let p1 = p0 + u16_bytes(self.uid);
        let p2 = p1 + u32_bytes(self.size);
        let p3 = p2 + u32_bytes(self.atime);
        let p4 = p3 + u32_bytes(self.ctime);
        let p5 = p4 + u32_bytes(self.mtime);
        let p6 = p5 + u32_bytes(self.dtime);
        let p7 = p6 + u16_bytes(self.gid);
        let p8 = p7 + u16_bytes(self.links_count);
        let p9 = p8 + u32_bytes(self.blocks);
        let p10 = p9 + u32_bytes(self.flags);
        let p11 = p10 + u32_bytes(self.osd1);
        let p12 = p11 + u32s_bytes(self.block@);
        let p13 = p12 + u32_bytes(self.generation);
        let p14 = p13 + u32_bytes(self.file_acl);
        let p15 = p14 + u32_bytes(self.dir_acl);
        let p16 = p15 + u32_bytes(self.faddr);
        lemma_last_bytes(e, 0, p16, self.osd2@);
        lemma_last_u32(e, 0, p15, self.faddr);
        lemma_last_u32(e, 0, p14, self.dir_acl);
        lemma_last_u32(e, 0, p13, self.file_acl);
        lemma_last_u32(e, 0, p12, self.generation);
        lemma_last_bytes(e, 0, p11, u32s_bytes(self.block@));
        lemma_last_u32(e, 0, p10, self.osd1);
        lemma_last_u32(e, 0, p9, self.flags);
        lemma_last_u32(e, 0, p8, self.blocks);
        lemma_last_u16(e, 0, p7, self.links_count);
        lemma_last_u16(e, 0, p6, self.gid);
        lemma_last_u32(e, 0, p5, self.dtime);
        lemma_last_u32(e, 0, p4, self.mtime);
        lemma_last_u32(e, 0, p3, self.ctime);
        lemma_last_u32(e, 0, p2, self.atime);
        lemma_last_u32(e, 0, p1, self.size);
        lemma_last_u16(e, 0, p0, self.uid);
        lemma_first_u16(e, 0, self.mode);
    }

    proof fn lemma_from_fields(self, e: Seq<u8>)
        requires
            self.laid_out(e),
        ensures
            self.encode() == e,
    {
        lemma_u16_at_bytes(e, 0);
        lemma_join_u16(e, 0, 2);
        lemma_join_u32(e, 0, 4);
        lemma_join_u32(e, 0, 8);
        lemma_join_u32(e, 0, 12);
        lemma_join_u32(e, 0, 16);
        lemma_join_u32(e, 0, 20);
        lemma_join_u16(e, 0, 24);
        lemma_join_u16(e, 0, 26);
        lemma_join_u32(e, 0, 28);
        lemma_join_u32(e, 0, 32);
        lemma_join_u32(e, 0, 36);
        lemma_bytes_round_trip(e.subrange(40, 100));
        lemma_join_bytes(e, 0, 40, 100);
        lemma_join_u32(e, 0, 100);
        lemma_join_u32(e, 0, 104);
        lemma_join_u32(e, 0, 108);
        lemma_join_u32(e, 0, 112);
        lemma_join_bytes(e, 0, 116, 128);
        assert(e.subrange(0, 128) =~= e);
    }

    /// The bytes at the offsets fix the fields.
    proof fn lemma_laid_out_once(a: Self, b: Self, e: Seq<u8>)
        requires
            a.laid_out(e),
            b.laid_out(e),
        ensures
            a == b,
    {
        assert(a.block =~= b.block) by {
            assert forall|i: int| 0 <= i < 15 implies a.block[i] == b.block[i] by {
                assert(a.block@[i] == b.block@[i]);
            }
        }
        assert(a.osd2 =~= b.osd2) by {
            assert forall|i: int| 0 <= i < 12 implies a.osd2[i] == b.osd2[i] by {
                assert(a.osd2@[i] == b.osd2@[i]);
            }
        }
    }
}

/// The kind of file that the upper bits of a mode name.
pub open spec fn kind_of_mode(mode: u16) -> Option<FileType> {
    let kind = mode / 0x1000;
    if kind == 0xc {
        Some(FileType::Socket)
    } else if kind == 0xa {
        Some(FileType::Symlink)
    } else if kind == 0x8 {
        Some(FileType::RegularFile)
    } else if kind == 0x6 {
        Some(FileType::BlockDevice)
    } else if kind == 0x4 {
        Some(FileType::Directory)
    } else if kind == 0x2 {
        Some(FileType::CharDevice)
    } else if kind == 0x1 {
        Some(FileType::NamedPipe)
    } else {
        None
    }
}

impl Inode {
    /// How many bytes the file has: for a regular file the size has an upper
    /// half.
    pub open spec fn file_size(self) -> int {
        if kind_of_mode(self.mode) == Some(FileType::RegularFile) {
            0x1_0000_0000 * self.dir_acl + self.size
        } else {
            self.size as int
        }
    }

    /// The device that the inode stands for.
    pub open spec fn device_number(self) -> u32 {
        match kind_of_mode(self.mode) {
            Some(FileType::BlockDevice) | Some(FileType::CharDevice) => self.block@[0],
            _ => 0,
        }
    }

    /// The kind of file, if the mode names one.
    pub fn get_kind(&self) -> (kind: Option<FileType>)
        ensures
            kind == kind_of_mode(self.mode),
    {
        let mode: u16 = self.mode;
        assert(mode & 0xf000 == 0x1000 * (mode / 0x1000)) by (bit_vector);
        match mode & 0xf000 {
            0xc000 => Some(FileType::Socket),
            0xa000 => Some(FileType::Symlink),
            0x8000 => Some(FileType::RegularFile),
            0x6000 => Some(FileType::BlockDevice),
            0x4000 => Some(FileType::Directory),
            0x2000 => Some(FileType::CharDevice),
            0x1000 => Some(FileType::NamedPipe),
            _ => None,
        }
    }

    /// How many bytes the file has.
    pub fn get_size(&self) -> (size: u64)
        ensures
            size == self.file_size(),
    {
        if self.get_kind() == Some(FileType::RegularFile) {
            let high: u64 = self.dir_acl as u64;
            let low: u64 = self.size as u64;
            assert(high << 32 | low == 0x1_0000_0000 * high + low) by (bit_vector)
                requires
                    high <= 0xffff_ffff,
                    low <= 0xffff_ffff,
            ;
            high << 32 | low
        } else {
            self.size as u64
        }
    }

    /// The device that the inode stands for; 0 where it stands for none.
    pub fn get_rdev(&self) -> (rdev: u32)
        ensures
            rdev == self.device_number(),
    {
        match self.get_kind() {
            Some(FileType::BlockDevice) | Some(FileType::CharDevice) => self.block[0],
            _ => 0,
        }
    }
}

impl Default for Inode {
    /// The inode of which every byte is zero.
    fn default() -> (inode: Inode)
        ensures
            inode.encode() == Seq::new(128, |i: int| 0u8),
    {
        let zeros: Vec<u8> = vec![0u8; 128];
        assert(zeros@ =~= Seq::new(128, |i: int| 0u8));
        Inode::from_bytes(&zeros)
    }
}

impl DeviceData for Inode {
    /// The fields in order, without gaps.
    open spec fn encode(self) -> Seq<u8> {
        u16_bytes(self.mode) + u16_bytes(self.uid) + u32_bytes(self.size) + u32_bytes(self.atime)
            + u32_bytes(self.ctime) + u32_bytes(self.mtime) + u32_bytes(self.dtime)
            + u16_bytes(self.gid) + u16_bytes(self.links_count) + u32_bytes(self.blocks)
            + u32_bytes(self.flags) + u32_bytes(self.osd1) + u32s_bytes(self.block@)
            + u32_bytes(self.generation) + u32_bytes(self.file_acl) + u32_bytes(self.dir_acl)
            + u32_bytes(self.faddr) + self.osd2@
    }

    open spec fn encoded_size() -> nat {
        128
    }

    proof fn encoding_has_size(self) {
        self.lemma_layout();
    }

    proof fn encoding_is_injective(a: Self, b: Self) {
        a.lemma_layout();
        b.lemma_layout();
        Self::lemma_laid_out_once(a, b, a.encode());
    }

    proof fn every_encoding(bytes: Seq<u8>) -> (value: Self) {
        let block = lemma_array_of::<u32, 15>(u32s_of(bytes.subrange(40, 100)));
        let osd2 = lemma_array_of::<u8, 12>(bytes.subrange(116, 128));
        let value = Inode {
            mode: u16_at(bytes, 0),
            uid: u16_at(bytes, 2),
            size: u32_at(bytes, 4),
            atime: u32_at(bytes, 8),
            ctime: u32_at(bytes, 12),
            mtime: u32_at(bytes, 16),
            dtime: u32_at(bytes, 20),
            gid: u16_at(bytes, 24),
            links_count: u16_at(bytes, 26),
            blocks: u32_at(bytes, 28),
            flags: u32_at(bytes, 32),
            osd1: u32_at(bytes, 36),
            block,
            generation: u32_at(bytes, 100),
            file_acl: u32_at(bytes, 104),
            dir_acl: u32_at(bytes, 108),
            faddr: u32_at(bytes, 112),
            osd2,
        };
        value.lemma_from_fields(bytes);
        value
    }

    fn size() -> (n: usize) {
        128
    }

    fn from_bytes(bytes: &Vec<u8>) -> (value: Self) {
        let mut block: [u32; 15] = [0u32; 15];
        fill_words(&mut block, bytes, 40);
        let mut osd2: [u8; 12] = [0u8; 12];
        fill_bytes(&mut osd2, bytes, 116);
        let value = Inode {
            mode: get_u16(bytes, 0),
            uid: get_u16(bytes, 2),
            size: get_u32(bytes, 4),
            atime: get_u32(bytes, 8),
            ctime: get_u32(bytes, 12),
            mtime: get_u32(bytes, 16),
            dtime: get_u32(bytes, 20),
            gid: get_u16(bytes, 24),
            links_count: get_u16(bytes, 26),
            blocks: get_u32(bytes, 28),
            flags: get_u32(bytes, 32),
            osd1: get_u32(bytes, 36),
            block,
            generation: get_u32(bytes, 100),
            file_acl: get_u32(bytes, 104),
            dir_acl: get_u32(bytes, 108),
            faddr: get_u32(bytes, 112),
            osd2,
        };
        proof {
            value.lemma_from_fields(bytes@);
        }
        value
    }

    fn to_bytes(&self) -> (bytes: Vec<u8>) {
        let mut b: Vec<u8> = Vec::new();
        push_u16(&mut b, self.mode);
        assert(b@ =~= u16_bytes(self.mode));
        push_u16(&mut b, self.uid);
        push_u32(&mut b, self.size);
        push_u32(&mut b, self.atime);
        push_u32(&mut b, self.ctime);
        push_u32(&mut b, self.mtime);
        push_u32(&mut b, self.dtime);
        push_u16(&mut b, self.gid);
        push_u16(&mut b, self.links_count);
        push_u32(&mut b, self.blocks);
        push_u32(&mut b, self.flags);
        push_u32(&mut b, self.osd1);
        push_words(&mut b, &self.block);
        push_u32(&mut b, self.generation);
        push_u32(&mut b, self.file_acl);
        push_u32(&mut b, self.dir_acl);
        push_u32(&mut b, self.faddr);
        push_bytes(&mut b, &self.osd2);
        b
    }
}

} // verus!
