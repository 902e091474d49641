//! Where the parts of a file system stand on its device.

use vstd::prelude::*;
use vstd::arithmetic::power2::pow2;
use crate::bytes::u32s_of;
use crate::device::{decoded, fetch, put, DeviceData};
use crate::errno::Errno;
use crate::group::BlockGroupDescTable;
use crate::inode::Inode;
use crate::superblock::Superblock;

verus! {

/// The block group descriptors begin this many blocks behind the first data
/// block.
pub const BGDT_OFFSET: u32 = 1;

/// The superblock stands at this address.
pub const SUPERBLOCK_ADDR: u64 = 1024;

impl Superblock {
    /// The address of every block fits in 64 bits.
    pub open spec fn addressable(self) -> bool {
        self.log_block_size <= 21
    }

    /// Besides, the descriptors of the groups can be found.
    pub open spec fn grouped(self) -> bool {
        &&& self.addressable()
        &&& self.first_data_block < u32::MAX
    }

    /// Besides, inodes can be found.
    pub open spec fn readable(self) -> bool {
        &&& self.grouped()
        &&& self.inodes_per_group > 0
    }

    /// Besides, groups can be counted.
    pub open spec fn allocatable(self) -> bool {
        &&& self.readable()
        &&& self.blocks_per_group > 0
    }

    /// How many bytes a block has.
    pub open spec fn block_len(self) -> int {
        (1024 * pow2(self.log_block_size as nat)) as int
    }

    /// Where block `b` begins.
    pub open spec fn block_addr(self, b: u32) -> int {
        b * self.block_len()
    }

    /// Where the descriptor of group `g` stands.
    pub open spec fn group_addr(self, g: u32) -> int {
        self.block_addr((self.first_data_block + BGDT_OFFSET) as u32) + 32 * g
    }

    /// The group that inode `ino` belongs to.
    pub open spec fn group_of(self, ino: u64) -> u32 {
        ((ino - 1) / self.inodes_per_group as int) as u32
    }

    /// The place of inode `ino` in its group.
    pub open spec fn index_of(self, ino: u64) -> int {
        (ino - 1) % self.inodes_per_group as int
    }

    /// Whether inodes can be found on the device.
    pub fn is_readable(&self) -> (b: bool)
        ensures
            b == self.readable(),
    {
        self.inodes_per_group > 0 && self.first_data_block < u32::MAX && self.log_block_size <= 21
    }

    /// Whether blocks and inodes can be allocated.
    pub fn is_allocatable(&self) -> (b: bool)
        ensures
            b == self.allocatable(),
    {
        self.is_readable() && self.blocks_per_group > 0
    }
}

/// The contents of block `b`.
pub open spec fn block_at(d: Seq<u8>, sb: Superblock, b: u32) -> Option<Seq<u8>> {
    fetch(d, sb.block_addr(b), sb.block_len())
}

/// The block numbers that block `b` holds.
pub open spec fn pointers_at(d: Seq<u8>, sb: Superblock, b: u32) -> Option<Seq<u32>> {
    match block_at(d, sb, b) {
        Some(bytes) => Some(u32s_of(bytes)),
        None => None,
    }
}

/// The descriptor of group `g`.
pub open spec fn group_at(d: Seq<u8>, sb: Superblock, g: u32) -> Result<
    BlockGroupDescTable,
    Errno,
> {
    decoded::<BlockGroupDescTable>(fetch(d, sb.group_addr(g), 32))
}

/// Bit `n` of a byte, kept in its place.
pub open spec fn bit_of(byte: u8, n: int) -> u8 {
    byte & (1u8 << (n as u8))
}

/// Bit `n` of the bitmap in block `b`, kept in its place within its byte.
pub open spec fn bitmap_bit(d: Seq<u8>, sb: Superblock, b: u32, n: int) -> Result<u8, Errno> {
    match fetch(d, sb.block_addr(b) + n / 8, 1) {
        Some(bytes) => Ok(bit_of(bytes[0], n % 8)),
        None => Err(Errno::EIO),
    }
}

/// Where inode `ino` stands, if `group` describes its group.
pub open spec fn inode_addr(sb: Superblock, group: BlockGroupDescTable, ino: u64) -> int {
    sb.block_addr(group.inode_table) + 128 * sb.index_of(ino)
}

/// Inode `ino`. There is none where its bit is clear in the bitmap of its
/// group.
pub open spec fn inode_at(d: Seq<u8>, sb: Superblock, ino: u64) -> Result<Inode, Errno> {
    match group_at(d, sb, sb.group_of(ino)) {
        Ok(group) => match bitmap_bit(d, sb, group.inode_bitmap, sb.index_of(ino)) {
            Ok(bit) => if bit == 0 {
                Err(Errno::ENOENT)
            } else {
                decoded::<Inode>(fetch(d, inode_addr(sb, group, ino), 128))
            },
            Err(e) => Err(e),
        },
        Err(e) => Err(e),
    }
}

/// The device after `data` was written, if there is room for it.
pub open spec fn written(d: Seq<u8>, addr: int, data: Seq<u8>) -> Result<Seq<u8>, Errno> {
    match put(d, addr, data) {
        Some(d2) => Ok(d2),
        None => Err(Errno::EIO),
    }
}

/// The device with `inode` in the place of inode `ino`.
pub open spec fn with_inode(d: Seq<u8>, sb: Superblock, ino: u64, inode: Inode) -> Result<
    Seq<u8>,
    Errno,
> {
    match group_at(d, sb, sb.group_of(ino)) {
        Ok(group) => written(d, inode_addr(sb, group, ino), inode.encode()),
        Err(e) => Err(e),
    }
}

/// The device with `group` as the descriptor of group `g`.
pub open spec fn with_group(
    d: Seq<u8>,
    sb: Superblock,
    g: u32,
    group: BlockGroupDescTable,
) -> Result<Seq<u8>, Errno> {
    written(d, sb.group_addr(g), group.encode())
}

/// The device with `sb` as its superblock.
pub open spec fn with_superblock(d: Seq<u8>, sb: Superblock) -> Result<Seq<u8>, Errno> {
    written(d, SUPERBLOCK_ADDR as int, sb.encode())
}

/// The device with `bytes` in block `b`.
pub open spec fn with_block(d: Seq<u8>, sb: Superblock, b: u32, bytes: Seq<u8>) -> Result<
    Seq<u8>,
    Errno,
> {
    written(d, sb.block_addr(b), bytes)
}

/// An operation that turns `d` into `goal`, or leaves it alone and fails as
/// `goal` says: `r` is what it returns, and `d2` is what it leaves.
pub open spec fn turns(
    d: Seq<u8>,
    goal: Result<Seq<u8>, Errno>,
    r: Result<(), Errno>,
    d2: Seq<u8>,
) -> bool {
    match goal {
        Ok(g) => r is Ok && d2 == g,
        Err(e) => r == Err::<(), Errno>(e) && d2 == d,
    }
}

} // verus!
