//! The file system: its blocks, its group descriptors and its inodes.

use vstd::prelude::*;
use vstd::arithmetic::power2::{
    lemma2_to64, lemma_pow2_adds, lemma_pow2_pos, lemma_pow2_strictly_increases, pow2,
};
use vstd::bits::lemma_u64_shl_is_mul;
use crate::bytes::{u32s_bytes, words_from_bytes, words_to_bytes};
use crate::device::{bytes_of, decoded, fetch, Device, DeviceData, Storage};
use crate::errno::Errno;
use crate::group::BlockGroupDescTable;
use crate::inode::Inode;
use crate::layout::{
    bitmap_bit, block_at, group_at, inode_addr, inode_at, pointers_at, turns, with_block,
    with_group, with_inode, with_superblock, BGDT_OFFSET, SUPERBLOCK_ADDR,
};
use crate::superblock::Superblock;

verus! {

/// A file system on a device, with its superblock in memory.
pub struct HelloFS<S> {
    pub device: Device<S>,
    pub superblock: Superblock,
}

/// The size of a block, and with it every address, keeps within bounds.
pub proof fn lemma_block_len(sb: Superblock)
    requires
        sb.log_block_size <= 21,
    ensures
        1024 <= sb.block_len() <= 0x8000_0000,
        sb.block_len() % 4 == 0,
        sb.block_len() == pow2((sb.log_block_size + 10) as nat),
{
    let l = sb.log_block_size as nat;
    lemma2_to64();
    lemma_pow2_pos(l);
    if l < 21 {
        lemma_pow2_strictly_increases(l, 21);
    }
    lemma_pow2_adds(l, 10);
}

/// Every block begins within the first 2^63 bytes.
pub proof fn lemma_block_addr(sb: Superblock, b: u32)
    requires
        sb.log_block_size <= 21,
    ensures
        0 <= sb.block_addr(b) <= 0x7fff_ffff_8000_0000,
{
    lemma_block_len(sb);
    let len = sb.block_len();
    assert(0 <= b * len <= 0xffff_ffff * 0x8000_0000) by (nonlinear_arith)
        requires
            0 <= b <= 0xffff_ffff,
            0 <= len <= 0x8000_0000,
    ;
}

impl<S: Storage> HelloFS<S> {
    /// A file system whose superblock has not been loaded yet.
    pub fn new(device: Device<S>) -> (fs: Self)
        ensures
            fs.device == device,
            fs.superblock.encode() == Seq::new(264, |i: int| 0u8),
            fs.superblock.addressable(),
            fs.superblock.block_len() == 1024,
    {
        let superblock = Superblock::default();
        proof {
            superblock.lemma_layout();
            assert(superblock.log_block_size == 0);
            lemma2_to64();
        }
        HelloFS { device, superblock }
    }

    /// Loads the superblock from the device.
    pub fn load_superblock(&mut self) -> (r: Result<(), Errno>)
        ensures
            r matches Err(e) ==> e == Errno::EIO && final(self).superblock == old(self).superblock,
            final(self).device.faults() != old(self).device.faults() ==> r is Err,
            forall|d: Seq<u8>| #[trigger]
                final(self).device.now(d) matches Some(c) ==> {
                    &&& old(self).device.now(d) == Some(c)
                    &&& match r {
                        Ok(_) => Ok(final(self).superblock),
                        Err(e) => Err(e),
                    } == decoded::<Superblock>(fetch(c, SUPERBLOCK_ADDR as int, 264))
                },
    {
        self.device.load_in(&mut self.superblock, SUPERBLOCK_ADDR)
    }

    /// Stores the superblock on the device.
    pub fn store_superblock(&mut self) -> (r: Result<(), Errno>)
        ensures
            final(self).superblock == old(self).superblock,
            r matches Err(e) ==> e == Errno::EIO,
            final(self).device.faults() != old(self).device.faults() ==> r is Err,
            forall|d: Seq<u8>| #[trigger]
                final(self).device.now(d) matches Some(c) ==> {
                    &&& old(self).device.now(d) matches Some(c0)
                    &&& turns(c0, with_superblock(c0, old(self).superblock), r, c)
                },
    {
        proof {
            self.superblock.encoding_has_size();
        }
        self.device.store(&self.superblock, SUPERBLOCK_ADDR)
    }

    /// How many bytes a block has.
    pub fn block_size(&self) -> (n: usize)
        requires
            self.superblock.log_block_size <= 21,
        ensures
            n == self.superblock.block_len(),
    {
        let log: u32 = self.superblock.log_block_size;
        proof {
            lemma_block_len(self.superblock);
            lemma_u64_shl_is_mul(1024u64, log as u64);
            assert((1024u64 << (log as u64)) == (1024usize << log)) by (bit_vector)
                requires
                    log <= 21,
            ;
        }
        1024usize << log
    }

    /// Where a block begins.
    pub fn block2addr(&self, block_num: u32) -> (addr: u64)
        requires
            self.superblock.log_block_size <= 21,
        ensures
            addr == self.superblock.block_addr(block_num),
            addr <= 0x7fff_ffff_8000_0000,
    {
        let shift: u64 = self.superblock.log_block_size as u64 + 10;
        proof {
            lemma_block_len(self.superblock);
            lemma_block_addr(self.superblock, block_num);
            lemma_u64_shl_is_mul(block_num as u64, shift);
        }
        (block_num as u64) << shift
    }

    /// The bytes of block `block_no`.
    pub fn load_block(&mut self, block_no: u32) -> (r: Result<Vec<u8>, Errno>)
        requires
            old(self).superblock.addressable(),
        ensures
            final(self).superblock == old(self).superblock,
            r matches Ok(b) ==> b@.len() == old(self).superblock.block_len(),
            r matches Err(e) ==> e == Errno::EIO,
            final(self).device.faults() != old(self).device.faults() ==> r is Err,
            forall|d: Seq<u8>| #[trigger]
                final(self).device.now(d) matches Some(c) ==> {
                    &&& old(self).device.now(d) == Some(c)
                    &&& bytes_of(r) == block_at(c, old(self).superblock, block_no)
                },
    {
        let len: usize = self.block_size();
        let addr: u64 = self.block2addr(block_no);
        self.device.read_at(len, addr)
    }

    /// The block numbers that block `block_no` holds.
    pub fn load_pointers(&mut self, block_no: u32) -> (r: Result<Vec<u32>, Errno>)
        requires
            old(self).superblock.addressable(),
        ensures
            final(self).superblock == old(self).superblock,
            r matches Ok(p) ==> p@.len() == old(self).superblock.block_len() / 4,
            r matches Err(e) ==> e == Errno::EIO,
            final(self).device.faults() != old(self).device.faults() ==> r is Err,
            forall|d: Seq<u8>| #[trigger]
                final(self).device.now(d) matches Some(c) ==> {
                    &&& old(self).device.now(d) == Some(c)
                    &&& match r {
                        Ok(p) => Some(p@),
                        Err(_) => None,
                    } == pointers_at(c, old(self).superblock, block_no)
                },
    {
        match self.load_block(block_no) {
            Ok(bytes) => Ok(words_from_bytes(&bytes)),
            Err(e) => Err(e),
        }
    }

    /// Stores `pointers` in block `block_no`.
    pub fn store_block(&mut self, block_no: u32, pointers: &Vec<u32>) -> (r: Result<(), Errno>)
        requires
            old(self).superblock.addressable(),
        ensures
            final(self).superblock == old(self).superblock,
            r matches Err(e) ==> e == Errno::EIO,
            final(self).device.faults() != old(self).device.faults() ==> r is Err,
            forall|d: Seq<u8>| #[trigger]
                final(self).device.now(d) matches Some(c) ==> {
                    &&& old(self).device.now(d) matches Some(c0)
                    &&& turns(
                        c0,
                        with_block(c0, old(self).superblock, block_no, u32s_bytes(pointers@)),
                        r,
                        c,
                    )
                },
    {
        let addr: u64 = self.block2addr(block_no);
        let bytes = words_to_bytes(pointers);
        self.device.write_at(&bytes, addr)
    }

    /// The group of an inode, and its place in the group.
    pub fn get_inode_group_info(&self, ino: u64) -> (r: (u64, u64))
        requires
            ino >= 1,
            self.superblock.inodes_per_group > 0,
        ensures
            r.0 == (ino - 1) / self.superblock.inodes_per_group as int,
            r.1 == self.superblock.index_of(ino),
            r.0 as u32 == self.superblock.group_of(ino),
            r.1 < self.superblock.inodes_per_group,
    {
        let group_num: u64 = (ino - 1) / (self.superblock.inodes_per_group as u64);
        let inode_table_num: u64 = (ino - 1) % (self.superblock.inodes_per_group as u64);
        (group_num, inode_table_num)
    }

    /// Where the descriptor of a group stands.
    fn bgdt_addr(&self, group_num: u32) -> (addr: u64)
        requires
            self.superblock.grouped(),
        ensures
            addr == self.superblock.group_addr(group_num),
    {
        self.block2addr(self.superblock.first_data_block + BGDT_OFFSET) + (group_num as u64) * 32
    }

    /// Loads the descriptor of a group.
    pub fn load_bgdt(&mut self, group_num: u32) -> (r: Result<BlockGroupDescTable, Errno>)
        requires
            old(self).superblock.grouped(),
        ensures
            final(self).superblock == old(self).superblock,
            r matches Err(e) ==> e == Errno::EIO,
            final(self).device.faults() != old(self).device.faults() ==> r is Err,
            forall|d: Seq<u8>| #[trigger]
                final(self).device.now(d) matches Some(c) ==> {
                    &&& old(self).device.now(d) == Some(c)
                    &&& r == group_at(c, old(self).superblock, group_num)
                },
    {
        let addr: u64 = self.bgdt_addr(group_num);
        match self.device.load::<BlockGroupDescTable>(addr) {
            Ok(bgdt) => Ok(*bgdt),
            Err(e) => Err(e),
        }
    }

    /// Stores the descriptor of a group.
    pub fn store_bgdt(&mut self, group_num: u32, bgdt: &BlockGroupDescTable) -> (r: Result<
        (),
        Errno,
    >)
        requires
            old(self).superblock.grouped(),
        ensures
            final(self).superblock == old(self).superblock,
            r matches Err(e) ==> e == Errno::EIO,
            final(self).device.faults() != old(self).device.faults() ==> r is Err,
            forall|d: Seq<u8>| #[trigger]
                final(self).device.now(d) matches Some(c) ==> {
                    &&& old(self).device.now(d) matches Some(c0)
                    &&& turns(c0, with_group(c0, old(self).superblock, group_num, *bgdt), r, c)
                },
    {
        let addr: u64 = self.bgdt_addr(group_num);
        self.device.store(bgdt, addr)
    }

    /// Bit `offset` of a bitmap, kept in its place within its byte.
    pub fn load_bitmap_bit(&mut self, bitmap_blk: u32, offset: u32) -> (r: Result<u8, Errno>)
        requires
            old(self).superblock.addressable(),
        ensures
            final(self).superblock == old(self).superblock,
            r matches Err(e) ==> e == Errno::EIO,
            final(self).device.faults() != old(self).device.faults() ==> r is Err,
            forall|d: Seq<u8>| #[trigger]
                final(self).device.now(d) matches Some(c) ==> {
                    &&& old(self).device.now(d) == Some(c)
                    &&& r == bitmap_bit(c, old(self).superblock, bitmap_blk, offset as int)
                },
    {
        let offset_byte: u32 = offset / 8;
        let offset_bit: u8 = (offset % 8) as u8;
        let addr: u64 = self.block2addr(bitmap_blk) + offset_byte as u64;
        match self.device.read_at(1, addr) {
            Ok(buf) => Ok(buf[0] & (1u8 << offset_bit)),
            Err(e) => Err(e),
        }
    }

    /// Loads inode `ino`, if it is in use.
    pub fn load_inode(&mut self, ino: u64) -> (r: Result<Inode, Errno>)
        requires
            ino >= 1,
            old(self).superblock.readable(),
        ensures
            final(self).superblock == old(self).superblock,
            final(self).device.faults() != old(self).device.faults() ==> r
                == Err::<Inode, Errno>(Errno::EIO),
            forall|d: Seq<u8>| #[trigger]
                final(self).device.now(d) matches Some(c) ==> {
                    &&& old(self).device.now(d) == Some(c)
                    &&& r == inode_at(c, old(self).superblock, ino)
                },
    {
        let (group_num, inode_table_num) = self.get_inode_group_info(ino);
        let bgdt = match self.load_bgdt(group_num as u32) {
            Ok(bgdt) => bgdt,
            Err(e) => return Err(e),
        };
        let bit: u8 = match self.load_bitmap_bit(bgdt.inode_bitmap, inode_table_num as u32) {
            Ok(bit) => bit,
            Err(e) => return Err(e),
        };
        if bit == 0 {
            return Err(Errno::ENOENT);
        }
        let inode_addr: u64 = self.block2addr(bgdt.inode_table) + inode_table_num * 128;
        match self.device.load::<Inode>(inode_addr) {
            Ok(inode) => Ok(*inode),
            Err(e) => Err(e),
        }
    }

    /// Stores `inode` in the place of inode `ino`.
    pub fn store_inode(&mut self, ino: u64, inode: &Inode) -> (r: Result<(), Errno>)
        requires
            ino >= 1,
            old(self).superblock.readable(),
        ensures
            final(self).superblock == old(self).superblock,
            r matches Err(e) ==> e == Errno::EIO,
            final(self).device.faults() != old(self).device.faults() ==> r is Err,
            forall|d: Seq<u8>| #[trigger]
                final(self).device.now(d) matches Some(c) ==> {
                    &&& old(self).device.now(d) matches Some(c0)
                    &&& turns(c0, with_inode(c0, old(self).superblock, ino, *inode), r, c)
                },
    {
        let (group_num, inode_table_num) = self.get_inode_group_info(ino);
        let bgdt = match self.load_bgdt(group_num as u32) {
            Ok(bgdt) => bgdt,
            Err(e) => return Err(e),
        };
        let inode_addr: u64 = self.block2addr(bgdt.inode_table) + inode_table_num * 128;
        self.device.store(inode, inode_addr)
    }
}

} // verus!
