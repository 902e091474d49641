//! Allocation of blocks and inodes.

use vstd::prelude::*;
use crate::device::{fetch, DeviceData, Storage};
use crate::errno::Errno;
use crate::fs::{lemma_block_len, HelloFS};
use crate::group::BlockGroupDescTable;
use crate::layout::{
    bit_of, block_at, group_at, with_block, with_group, with_superblock, SUPERBLOCK_ADDR,
};
use crate::superblock::Superblock;

verus! {

/// Whether bit `n` is set in a bitmap.
pub open spec fn bit_is_set(bitmap: Seq<u8>, n: int) -> bool {
    bit_of(bitmap[n / 8], n % 8) != 0
}

/// The first bit at or after `from` that is clear; the number of bits, where
/// all are set.
pub open spec fn first_clear(bitmap: Seq<u8>, from: int) -> int
    decreases 8 * bitmap.len() - from,
{
    if from >= 8 * bitmap.len() || !bit_is_set(bitmap, from) {
        from
    } else {
        first_clear(bitmap, from + 1)
    }
}

/// The bitmap with bit `n` set, if it has such a bit.
pub open spec fn with_bit(bitmap: Seq<u8>, n: int) -> Seq<u8> {
    if 0 <= n < 8 * bitmap.len() {
        bitmap.update(n / 8, bitmap[n / 8] | (1u8 << ((n % 8) as u8)))
    } else {
        bitmap
    }
}

/// Bits that are set are passed over.
proof fn lemma_first_clear_skips(bitmap: Seq<u8>, from: int, to: int)
    requires
        0 <= from <= to <= 8 * bitmap.len(),
        forall|n: int| from <= n < to ==> bit_is_set(bitmap, n),
    ensures
        first_clear(bitmap, from) == first_clear(bitmap, to),
    decreases to - from,
{
    if from < to {
        assert(bit_is_set(bitmap, from));
        lemma_first_clear_skips(bitmap, from + 1, to);
    }
}

/// Every bit before the first clear one is set, and it is clear itself.
pub proof fn lemma_first_clear(bitmap: Seq<u8>, from: int)
    requires
        0 <= from <= 8 * bitmap.len(),
    ensures
        from <= first_clear(bitmap, from) <= 8 * bitmap.len(),
        forall|n: int| from <= n < first_clear(bitmap, from) ==> bit_is_set(bitmap, n),
        first_clear(bitmap, from) < 8 * bitmap.len() ==> !bit_is_set(
            bitmap,
            first_clear(bitmap, from),
        ),
    decreases 8 * bitmap.len() - from,
{
    if from < 8 * bitmap.len() && bit_is_set(bitmap, from) {
        lemma_first_clear(bitmap, from + 1);
    }
}

/// Setting a bit sets that bit and no other.
pub proof fn lemma_with_bit(bitmap: Seq<u8>, n: int)
    requires
        0 <= n < 8 * bitmap.len(),
    ensures
        with_bit(bitmap, n).len() == bitmap.len(),
        forall|m: int|
            0 <= m < 8 * bitmap.len() ==> bit_is_set(with_bit(bitmap, n), m) == (m == n
                || bit_is_set(bitmap, m)),
{
    let after = with_bit(bitmap, n);
    assert forall|m: int| 0 <= m < 8 * bitmap.len() implies bit_is_set(after, m) == (m == n
        || bit_is_set(bitmap, m)) by {
        if m / 8 == n / 8 {
            let byte = bitmap[n / 8];
            let i = (n % 8) as u8;
            let j = (m % 8) as u8;
            assert(((byte | (1u8 << i)) & (1u8 << j) != 0) == (i == j || byte & (1u8 << j) != 0))
                by (bit_vector)
                requires
                    i < 8,
                    j < 8,
            ;
        }
    }
}

/// Takes the first clear bit of a bitmap and says which one it was. Where all
/// bits are set, the number of bits is returned and nothing is changed.
pub fn take_free_bit(bitmap: &mut Vec<u8>) -> (n: u64)
    requires
        8 * old(bitmap)@.len() <= u64::MAX,
    ensures
        n == first_clear(old(bitmap)@, 0),
        final(bitmap)@ == with_bit(old(bitmap)@, n as int),
{
    let ghost before = bitmap@;
    let mut table_num: u64 = 0;
    let mut i: usize = 0;
    while i < bitmap.len()
        invariant
            bitmap@ == before,
            before == old(bitmap)@,
            8 * before.len() <= u64::MAX,
            i <= before.len(),
            table_num == 8 * i,
            first_clear(before, 0) == first_clear(before, table_num as int),
        decreases before.len() - i,
    {
        let byte: u8 = bitmap[i];
        if byte == 0xff {
            proof {
                assert forall|n: int| 8 * i <= n < 8 * i + 8 implies bit_is_set(before, n) by {
                    let j = (n % 8) as u8;
                    assert(n / 8 == i);
                    assert(byte & (1u8 << j) != 0) by (bit_vector)
                        requires
                            byte == 0xff,
                            j < 8,
                    ;
                }
                lemma_first_clear_skips(before, 8 * i, 8 * i + 8);
            }
            table_num = table_num + 8;
            i = i + 1;
            continue ;
        }
        let mut shift: u8 = 0;
        while byte & (1u8 << shift) != 0
            invariant
                shift < 8,
                byte != 0xff,
                forall|j: u8| j < shift ==> #[trigger] (byte & (1u8 << j)) != 0,
            decreases 8 - shift,
        {
            proof {
                assert(byte & (1u8 << 7u8) != 0 && byte & (1u8 << 6u8) != 0 && byte & (1u8 << 5u8)
                    != 0 && byte & (1u8 << 4u8) != 0 && byte & (1u8 << 3u8) != 0 && byte & (1u8
                    << 2u8) != 0 && byte & (1u8 << 1u8) != 0 && byte & (1u8 << 0u8) != 0 ==> byte
                    == 0xff) by (bit_vector);
            }
            shift = shift + 1;
        }
        proof {
            let n = 8 * i + shift;
            assert(n / 8 == i && n % 8 == shift);
            assert(!bit_is_set(before, n));
            assert forall|m: int| 8 * i <= m < n implies bit_is_set(before, m) by {
                let j = (m % 8) as u8;
                assert(m / 8 == i && j < shift);
                assert(byte & (1u8 << j) != 0);
            }
            lemma_first_clear_skips(before, 8 * i, n);
        }
        bitmap[i] = byte | (1u8 << shift);
        return table_num + shift as u64;
    }
    table_num
}

/// The two things that are allocated.
#[derive(Clone, Copy, Debug, PartialEq, Eq, Structural)]
pub enum Resource {
    Block,
    Inode,
}

impl Resource {
    /// How many are free in the file system.
    pub open spec fn left(self, sb: Superblock) -> u32 {
        match self {
            Resource::Block => sb.free_blocks_count,
            Resource::Inode => sb.free_inodes_count,
        }
    }

    /// How many are free in a group.
    pub open spec fn left_in(self, group: BlockGroupDescTable) -> u16 {
        match self {
            Resource::Block => group.free_blocks_count,
            Resource::Inode => group.free_inodes_count,
        }
    }

    /// The superblock once one less is free.
    pub open spec fn one_less(self, sb: Superblock) -> Superblock {
        match self {
            Resource::Block => Superblock {
                free_blocks_count: (sb.free_blocks_count - 1) as u32,
                ..sb
            },
            Resource::Inode => Superblock {
                free_inodes_count: (sb.free_inodes_count - 1) as u32,
                ..sb
            },
        }
    }

    /// The descriptor of a group once one less is free in it.
    pub open spec fn one_less_in(self, group: BlockGroupDescTable) -> BlockGroupDescTable {
        match self {
            Resource::Block => BlockGroupDescTable {
                free_blocks_count: (group.free_blocks_count - 1) as u16,
                ..group
            },
            Resource::Inode => BlockGroupDescTable {
                free_inodes_count: (group.free_inodes_count - 1) as u16,
                ..group
            },
        }
    }

    /// The block that holds the bitmap of a group.
    pub open spec fn bitmap_of(self, group: BlockGroupDescTable) -> u32 {
        match self {
            Resource::Block => group.block_bitmap,
            Resource::Inode => group.inode_bitmap,
        }
    }

    /// How many a group has in all.
    pub open spec fn per_group(self, sb: Superblock) -> u32 {
        match self {
            Resource::Block => sb.blocks_per_group,
            Resource::Inode => sb.inodes_per_group,
        }
    }

    /// The number of the one that has bit `n` in the bitmap of group `g`: they
    /// are counted from 1. It has to fit in 32 bits.
    pub open spec fn number(self, sb: Superblock, g: u32, n: int) -> Result<u32, Errno> {
        let number = g * self.per_group(sb) + n + 1;
        if number <= u32::MAX {
            Ok(number as u32)
        } else {
            Err(Errno::EIO)
        }
    }

    fn count_left_in(self, bgdt: &BlockGroupDescTable) -> (n: u16)
        ensures
            n == self.left_in(*bgdt),
    {
        match self {
            Resource::Block => bgdt.free_blocks_count,
            Resource::Inode => bgdt.free_inodes_count,
        }
    }
}

/// How many whole groups there are.
pub open spec fn group_count(sb: Superblock) -> int {
    sb.blocks_count as int / sb.blocks_per_group as int
}

/// The group that is tried at step `i`, when `init` is tried first.
pub open spec fn probe(sb: Superblock, init: u32, i: int) -> u32 {
    if i == 0 {
        init
    } else {
        ((init + i) % group_count(sb)) as u32
    }
}

/// The first group from step `i` on with something free. The steps end where
/// every group has been tried or it is the turn of `init` again.
pub open spec fn find_from(
    d: Seq<u8>,
    sb: Superblock,
    what: Resource,
    init: u32,
    i: int,
) -> Result<(u32, BlockGroupDescTable), Errno>
    decreases group_count(sb) - i,
{
    let g = probe(sb, init, i);
    match group_at(d, sb, g) {
        Ok(group) => if what.left_in(group) != 0 {
            Ok((g, group))
        } else if i >= group_count(sb) || probe(sb, init, i + 1) == init {
            Err(Errno::ENOSPC)
        } else {
            find_from(d, sb, what, init, i + 1)
        },
        Err(e) => Err(e),
    }
}

/// The first free bit of the bitmap in block `b`, and the device once it is
/// taken. Its number has to fit in 32 bits.
pub open spec fn bit_taken(d: Seq<u8>, sb: Superblock, b: u32) -> Result<(u32, Seq<u8>), Errno> {
    match block_at(d, sb, b) {
        Some(bitmap) => {
            let n = first_clear(bitmap, 0);
            if n > u32::MAX {
                Err(Errno::EIO)
            } else {
                match with_block(d, sb, b, with_bit(bitmap, n)) {
                    Ok(d2) => Ok((n as u32, d2)),
                    Err(e) => Err(e),
                }
            }
        },
        None => Err(Errno::EIO),
    }
}

/// What allocating something close to inode `ino` returns, and the device and
/// the superblock that it leaves: a bit is taken in a group, and the counts of
/// the group and of the file system go down by one.
#[verifier::opaque]
pub open spec fn allocated(d: Seq<u8>, sb: Superblock, what: Resource, ino: u64) -> (
    Result<u32, Errno>,
    Seq<u8>,
    Superblock,
) {
    if what.left(sb) == 0 {
        (Err(Errno::ENOSPC), d, sb)
    } else {
        match find_from(d, sb, what, sb.group_of(ino), 0) {
            Ok((g, group)) => match bit_taken(d, sb, what.bitmap_of(group)) {
                Ok((n, d1)) => match with_group(d1, sb, g, what.one_less_in(group)) {
                    Ok(d2) => {
                        let sb2 = what.one_less(sb);
                        match with_superblock(d2, sb2) {
                            Ok(d3) => (what.number(sb, g, n as int), d3, sb2),
                            Err(e) => (Err(e), d2, sb2),
                        }
                    },
                    Err(e) => (Err(e), d1, sb),
                },
                Err(e) => (Err(e), d, sb),
            },
            Err(e) => (Err(e), d, sb),
        }
    }
}

/// What is known in advance of an allocation that returns and leaves `outcome`,
/// where `d` and `sb` are there before it.
pub open spec fn would_allocate(
    outcome: (Result<u32, Errno>, Seq<u8>, Superblock),
    d: Seq<u8>,
    sb: Superblock,
    known: Result<bool, Errno>,
) -> bool {
    match known {
        Ok(true) => outcome.0 is Ok,
        Ok(false) => outcome.0 == Err::<u32, Errno>(Errno::EIO),
        Err(e) => outcome == (Err::<u32, Errno>(e), d, sb),
    }
}

/// What an allocation returns once the bitmap of a group has been read: it can
/// still fail where the superblock has no place on the device, or the number
/// does not fit.
proof fn lemma_allocation_ends(d: Seq<u8>, sb: Superblock, what: Resource, ino: u64)
    requires
        sb.addressable(),
        what.left(sb) != 0,
        ({
            let found = find_from(d, sb, what, sb.group_of(ino), 0);
            let bitmap = block_at(d, sb, what.bitmap_of(found->Ok_0.1));
            found is Ok && bitmap is Some && first_clear(bitmap->Some_0, 0) <= u32::MAX
        }),
    ensures
        ({
            let (g, group) = find_from(d, sb, what, sb.group_of(ino), 0)->Ok_0;
            let n = first_clear(block_at(d, sb, what.bitmap_of(group))->Some_0, 0);
            let (r, _, _) = allocated(d, sb, what, ino);
            r == if fetch(d, SUPERBLOCK_ADDR as int, 264) is Some {
                what.number(sb, g, n)
            } else {
                Err(Errno::EIO)
            }
        }),
{
    reveal(allocated);
    lemma_block_len(sb);
    let init = sb.group_of(ino);
    let (g, group) = find_from(d, sb, what, init, 0)->Ok_0;
    lemma_found_is_read(d, sb, what, init, 0);
    let bitmap = block_at(d, sb, what.bitmap_of(group))->Some_0;
    lemma_first_clear(bitmap, 0);
    what.one_less_in(group).encoding_has_size();
    what.one_less(sb).encoding_has_size();
}

/// A group that is found has been read.
pub(crate) proof fn lemma_found_is_read(
    d: Seq<u8>,
    sb: Superblock,
    what: Resource,
    init: u32,
    i: int,
)
    ensures
        find_from(d, sb, what, init, i) matches Ok((g, group)) ==> group_at(d, sb, g) == Ok::<
            BlockGroupDescTable,
            Errno,
        >(group),
    decreases group_count(sb) - i,
{
    if i < group_count(sb) {
        lemma_found_is_read(d, sb, what, init, i + 1);
    }
}

/// The superblocks differ in their counts of what is free alone.
pub open spec fn same_but_counts(a: Superblock, b: Superblock) -> bool {
    b == (Superblock {
        free_blocks_count: b.free_blocks_count,
        free_inodes_count: b.free_inodes_count,
        ..a
    })
}

impl<S: Storage> HelloFS<S> {
    /// The first group with something free, `init_group_num` first.
    pub fn find_free_bgdt(&mut self, init_group_num: u32, what: Resource) -> (r: Result<
        (u32, BlockGroupDescTable),
        Errno,
    >)
        requires
            old(self).superblock.grouped(),
            old(self).superblock.blocks_per_group > 0,
        ensures
            final(self).superblock == old(self).superblock,
            r matches Ok((_, bgdt)) ==> what.left_in(bgdt) != 0,
            final(self).device.faults() != old(self).device.faults() ==> r
                == Err::<(u32, BlockGroupDescTable), Errno>(Errno::EIO),
            forall|d: Seq<u8>| #[trigger]
                final(self).device.now(d) matches Some(c) ==> {
                    &&& old(self).device.now(d) == Some(c)
                    &&& r == find_from(c, old(self).superblock, what, init_group_num, 0)
                },
    {
        let total_group_count: u32 = self.superblock.blocks_count
            / self.superblock.blocks_per_group;
        let ghost sb = self.superblock;
        let mut group_idx: u32 = init_group_num;
        let mut bgdt = match self.load_bgdt(init_group_num) {
            Ok(bgdt) => bgdt,
            Err(e) => return Err(e),
        };
        let mut i: u32 = 0;
        while what.count_left_in(&bgdt) == 0
            invariant
                self.superblock == sb,
                sb == old(self).superblock,
                sb.grouped(),
                total_group_count == group_count(sb),
                i <= total_group_count,
                group_idx == probe(sb, init_group_num, i as int),
                self.device.faults() == old(self).device.faults(),
                forall|d: Seq<u8>| #[trigger]
                    self.device.now(d) matches Some(c) ==> {
                        &&& old(self).device.now(d) == Some(c)
                        &&& group_at(c, sb, group_idx) == Ok::<BlockGroupDescTable, Errno>(bgdt)
                        &&& find_from(c, sb, what, init_group_num, 0) == find_from(
                            c,
                            sb,
                            what,
                            init_group_num,
                            i as int,
                        )
                    },
            decreases total_group_count - i,
        {
            if i >= total_group_count {
                return Err(Errno::ENOSPC);
            }
            let next: u64 = init_group_num as u64 + i as u64 + 1;
            group_idx = (next % (total_group_count as u64)) as u32;
            if group_idx == init_group_num {
                return Err(Errno::ENOSPC);
            }
            i = i + 1;
            assert(forall|d: Seq<u8>| #[trigger]
                self.device.now(d) matches Some(c) ==> find_from(c, sb, what, init_group_num, 0)
                    == find_from(c, sb, what, init_group_num, i as int));
            bgdt = match self.load_bgdt(group_idx) {
                Ok(bgdt) => bgdt,
                Err(e) => return Err(e),
            };
        }
        Ok((group_idx, bgdt))
    }

    /// Takes the first free bit of the bitmap in block `bitmap_block_num`.
    pub fn alloc_free_bit(&mut self, bitmap_block_num: u32) -> (r: Result<u32, Errno>)
        requires
            old(self).superblock.addressable(),
        ensures
            final(self).superblock == old(self).superblock,
            r matches Err(e) ==> e == Errno::EIO,
            final(self).device.faults() != old(self).device.faults() ==> r is Err,
            forall|d: Seq<u8>| #[trigger]
                final(self).device.now(d) matches Some(c) ==> {
                    &&& old(self).device.now(d) matches Some(c0)
                    &&& match bit_taken(c0, old(self).superblock, bitmap_block_num) {
                        Ok((n, c1)) => r == Ok::<u32, Errno>(n) && c == c1,
                        Err(e) => r == Err::<u32, Errno>(e) && c == c0,
                    }
                },
    {
        let mut buf = match self.load_block(bitmap_block_num) {
            Ok(buf) => buf,
            Err(e) => return Err(e),
        };
        proof {
            lemma_block_len(self.superblock);
        }
        let table_num: u64 = take_free_bit(&mut buf);
        if table_num > u32::MAX as u64 {
            return Err(Errno::EIO);
        }
        let bitmap_addr: u64 = self.block2addr(bitmap_block_num);
        match self.device.write_at(&buf, bitmap_addr) {
            Ok(_) => Ok(table_num as u32),
            Err(e) => Err(e),
        }
    }

    /// Whether allocating an inode close to inode `ino` would succeed. `Ok(false)`
    /// means that it would fail after it has begun; where it would fail before
    /// that, the error is returned.
    pub(crate) fn could_allocate_inode(&mut self, ino: u64) -> (r: Result<bool, Errno>)
        requires
            ino >= 1,
            old(self).superblock.allocatable(),
            old(self).superblock.free_inodes_count != 0,
        ensures
            final(self).superblock == old(self).superblock,
            final(self).device.faults() != old(self).device.faults() ==> r == Err::<bool, Errno>(
                Errno::EIO,
            ) || r == Ok::<bool, Errno>(false),
            forall|d: Seq<u8>| #[trigger]
                final(self).device.now(d) matches Some(c) ==> {
                    &&& old(self).device.now(d) == Some(c)
                    &&& would_allocate(
                        allocated(c, old(self).superblock, Resource::Inode, ino),
                        c,
                        old(self).superblock,
                        r,
                    )
                },
    {
        proof {
            reveal(allocated);
            lemma_block_len(self.superblock);
        }
        let ghost sb = self.superblock;
        let (group_num, _) = self.get_inode_group_info(ino);
        let (group_idx, bgdt) = match self.find_free_bgdt(group_num as u32, Resource::Inode) {
            Ok(found) => found,
            Err(e) => return Err(e),
        };
        let mut buf = match self.load_block(bgdt.inode_bitmap) {
            Ok(buf) => buf,
            Err(e) => return Err(e),
        };
        let table_num: u64 = take_free_bit(&mut buf);
        if table_num > u32::MAX as u64 {
            return Err(Errno::EIO);
        }
        proof {
            assert forall|d: Seq<u8>| #[trigger] self.device.now(d) is Some implies {
                let c = self.device.now(d)->Some_0;
                let n = first_clear(block_at(c, sb, bgdt.inode_bitmap)->Some_0, 0);
                let (r, _, _) = allocated(c, sb, Resource::Inode, ino);
                r == if fetch(c, SUPERBLOCK_ADDR as int, 264) is Some {
                    Resource::Inode.number(sb, group_idx, n)
                } else {
                    Err(Errno::EIO)
                }
            } by {
                let c = self.device.now(d)->Some_0;
                lemma_allocation_ends(c, sb, Resource::Inode, ino);
            }
        }
        let ghost g = group_idx as int;
        let ghost p = sb.inodes_per_group as int;
        assert(0 <= g * p <= 0xffff_ffff * 0xffff_ffff) by (nonlinear_arith)
            requires
                0 <= g <= 0xffff_ffff,
                0 <= p <= 0xffff_ffff,
        ;
        let number: u64 = group_idx as u64 * self.superblock.inodes_per_group as u64 + table_num
            + 1;
        if number > u32::MAX as u64 {
            return Ok(false);
        }
        match self.device.read_at(264, SUPERBLOCK_ADDR) {
            Ok(_) => Ok(true),
            Err(_) => Ok(false),
        }
    }

    /// Allocates something close to inode `ino`.
    fn allocate(&mut self, what: Resource, ino: u64) -> (r: Result<u32, Errno>)
        requires
            what.left(old(self).superblock) != 0 ==> ino >= 1 && old(
                self,
            ).superblock.allocatable(),
        ensures
            same_but_counts(old(self).superblock, final(self).superblock),
            what.left(old(self).superblock) == 0 ==> {
                &&& r == Err::<u32, Errno>(Errno::ENOSPC)
                &&& final(self).device == old(self).device
                &&& final(self).superblock == old(self).superblock
            },
            r matches Ok(n) ==> n >= 1,
            final(self).device.faults() != old(self).device.faults() ==> r
                == Err::<u32, Errno>(Errno::EIO),
            forall|d: Seq<u8>| #[trigger]
                final(self).device.now(d) matches Some(c) ==> {
                    &&& old(self).device.now(d) matches Some(c0)
                    &&& allocated(c0, old(self).superblock, what, ino) == (
                        r,
                        c,
                        final(self).superblock,
                    )
                },
    {
        proof {
            reveal(allocated);
        }
        let left: u32 = match what {
            Resource::Block => self.superblock.free_blocks_count,
            Resource::Inode => self.superblock.free_inodes_count,
        };
        if left == 0 {
            return Err(Errno::ENOSPC);
        }
        let (group_num, _) = self.get_inode_group_info(ino);
        let (group_idx, mut bgdt) = match self.find_free_bgdt(group_num as u32, what) {
            Ok(found) => found,
            Err(e) => return Err(e),
        };
        let bitmap: u32 = match what {
            Resource::Block => bgdt.block_bitmap,
            Resource::Inode => bgdt.inode_bitmap,
        };
        let table_num: u32 = match self.alloc_free_bit(bitmap) {
            Ok(n) => n,
            Err(e) => return Err(e),
        };
        match what {
            Resource::Block => {
                bgdt.free_blocks_count = bgdt.free_blocks_count - 1;
            },
            Resource::Inode => {
                bgdt.free_inodes_count = bgdt.free_inodes_count - 1;
            },
        }
        match self.store_bgdt(group_idx, &bgdt) {
            Ok(_) => {},
            Err(e) => return Err(e),
        }
        match what {
            Resource::Block => {
                self.superblock.free_blocks_count = self.superblock.free_blocks_count - 1;
            },
            Resource::Inode => {
                self.superblock.free_inodes_count = self.superblock.free_inodes_count - 1;
            },
        }
        match self.store_superblock() {
            Ok(_) => {},
            Err(e) => return Err(e),
        }
        let per_group: u32 = match what {
            Resource::Block => self.superblock.blocks_per_group,
            Resource::Inode => self.superblock.inodes_per_group,
        };
        let ghost g = group_idx as int;
        let ghost p = per_group as int;
        assert(0 <= g * p <= 0xffff_ffff * 0xffff_ffff) by (nonlinear_arith)
            requires
                0 <= g <= 0xffff_ffff,
                0 <= p <= 0xffff_ffff,
        ;
        let number: u64 = group_idx as u64 * per_group as u64 + table_num as u64 + 1;
        if number <= u32::MAX as u64 {
            Ok(number as u32)
        } else {
            Err(Errno::EIO)
        }
    }

    /// Allocates a block, if it can be close to inode `ino`.
    pub fn alloc_block(&mut self, ino: u64) -> (r: Result<u32, Errno>)
        requires
            Resource::Block.left(old(self).superblock) != 0 ==> ino >= 1 && old(
                self,
            ).superblock.allocatable(),
        ensures
            same_but_counts(old(self).superblock, final(self).superblock),
            Resource::Block.left(old(self).superblock) == 0 ==> {
                &&& r == Err::<u32, Errno>(Errno::ENOSPC)
                &&& final(self).device == old(self).device
                &&& final(self).superblock == old(self).superblock
            },
            r matches Ok(n) ==> n >= 1,
            final(self).device.faults() != old(self).device.faults() ==> r
                == Err::<u32, Errno>(Errno::EIO),
            forall|d: Seq<u8>| #[trigger]
                final(self).device.now(d) matches Some(c) ==> {
                    &&& old(self).device.now(d) matches Some(c0)
                    &&& allocated(c0, old(self).superblock, Resource::Block, ino) == (
                        r,
                        c,
                        final(self).superblock,
                    )
                },
    {
        self.allocate(Resource::Block, ino)
    }

    /// Allocates an inode, if it can be close to inode `parent_ino`.
    pub fn alloc_inode(&mut self, parent_ino: u64) -> (r: Result<u32, Errno>)
        requires
            Resource::Inode.left(old(self).superblock) != 0 ==> parent_ino >= 1 && old(
                self,
            ).superblock.allocatable(),
        ensures
            same_but_counts(old(self).superblock, final(self).superblock),
            Resource::Inode.left(old(self).superblock) == 0 ==> {
                &&& r == Err::<u32, Errno>(Errno::ENOSPC)
                &&& final(self).device == old(self).device
                &&& final(self).superblock == old(self).superblock
            },
            r matches Ok(n) ==> n >= 1,
            final(self).device.faults() != old(self).device.faults() ==> r
                == Err::<u32, Errno>(Errno::EIO),
            forall|d: Seq<u8>| #[trigger]
                final(self).device.now(d) matches Some(c) ==> {
                    &&& old(self).device.now(d) matches Some(c0)
                    &&& allocated(c0, old(self).superblock, Resource::Inode, parent_ino) == (
                        r,
                        c,
                        final(self).superblock,
                    )
                },
    {
        self.allocate(Resource::Inode, parent_ino)
    }
}

} // verus!
