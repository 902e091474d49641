//! Adding a block to an inode.

use vstd::prelude::*;
use vstd::array::spec_array_update;
use crate::allocation::{allocated, same_but_counts, Resource};
use crate::bytes::u32s_bytes;
use crate::device::Storage;
use crate::errno::Errno;
use crate::fs::{lemma_block_len, HelloFS};
use crate::indirect::{
    get_indirect_offsets_for_block_offset, ints, lemma_path, path_to, DOUBLE_INDIRECT_BLOCK_INDEX,
    INDIRECT_BLOCK_INDEX, TRIPLE_INDIRECT_BLOCK_INDEX,
};
use crate::inode::Inode;
use crate::layout::{pointers_at, with_block, with_inode};
use crate::superblock::Superblock;

verus! {

/// A page of block numbers, and the block that it is stored in.
pub type PageAt = (u32, Seq<u32>);

/// A page without block numbers.
pub open spec fn empty_page(sb: Superblock) -> Seq<u32> {
    Seq::new((sb.block_len() / 4) as nat, |i: int| 0u32)
}

/// The inode with block number `b` at `slot`.
pub open spec fn with_pointer(inode: Inode, slot: int, b: u32) -> Inode {
    Inode { block: spec_array_update(inode.block, slot, b), ..inode }
}

/// A block can be allocated close to inode `ino`, or none is left.
pub open spec fn may_allocate(sb: Superblock, ino: u64) -> bool {
    Resource::Block.left(sb) != 0 ==> ino >= 1 && sb.allocatable()
}

/// The inode is as it was, but that it may name a page at `slot` where it named
/// none.
pub open spec fn page_named(inode: Inode, inode2: Inode, slot: int) -> bool {
    ||| inode2 == inode
    ||| {
        &&& inode.block@[slot] == 0
        &&& inode2.block@[slot] != 0
        &&& inode2 == with_pointer(inode, slot, inode2.block@[slot])
    }
}

/// The page that `slot` of the inode names, and the device, the superblock and
/// the inode once it is there: where the inode names none, a block is
/// allocated for it.
#[verifier::opaque]
pub open spec fn root_page_of(
    d: Seq<u8>,
    sb: Superblock,
    ino: u64,
    inode: Inode,
    slot: int,
) -> (Result<PageAt, Errno>, Seq<u8>, Superblock, Inode) {
    let b = inode.block@[slot];
    if b == 0 {
        let (r, d1, sb1) = allocated(d, sb, Resource::Block, ino);
        match r {
            Ok(b) => {
                let inode1 = with_pointer(inode, slot, b);
                match with_inode(d1, sb1, ino, inode1) {
                    Ok(d2) => (Ok((b, empty_page(sb))), d2, sb1, inode1),
                    Err(e) => (Err(e), d1, sb1, inode1),
                }
            },
            Err(e) => (Err(e), d1, sb1, inode),
        }
    } else {
        match pointers_at(d, sb, b) {
            Some(page) => (Ok((b, page)), d, sb, inode),
            None => (Err(Errno::EIO), d, sb, inode),
        }
    }
}

/// The page that entry `i` of page `r` names, and the device and the superblock
/// once it is there: where the entry names none, a block is allocated for it
/// and the page that names it is stored. An entry that the page does not have
/// is an error.
#[verifier::opaque]
pub open spec fn child_page_of(
    r: Result<PageAt, Errno>,
    d: Seq<u8>,
    sb: Superblock,
    ino: u64,
    i: int,
) -> (Result<PageAt, Errno>, Seq<u8>, Superblock) {
    match r {
        Ok((home, page)) => if i >= page.len() {
            (Err(Errno::EIO), d, sb)
        } else if page[i] == 0 {
            let (r, d1, sb1) = allocated(d, sb, Resource::Block, ino);
            match r {
                Ok(b) => match with_entry(d1, sb1, home, page, i, b) {
                    Ok(d2) => (Ok((b, empty_page(sb))), d2, sb1),
                    Err(e) => (Err(e), d1, sb1),
                },
                Err(e) => (Err(e), d1, sb1),
            }
        } else {
            match pointers_at(d, sb, page[i]) {
                Some(next) => (Ok((page[i], next)), d, sb),
                None => (Err(Errno::EIO), d, sb),
            }
        },
        Err(e) => (Err(e), d, sb),
    }
}

/// The device with `page` stored in block `home` once its entry `i` is `b`.
pub open spec fn with_entry(
    d: Seq<u8>,
    sb: Superblock,
    home: u32,
    page: Seq<u32>,
    i: int,
    b: u32,
) -> Result<Seq<u8>, Errno> {
    with_block(d, sb, home, u32s_bytes(page.update(i, b)))
}

/// Which block of the file an added block becomes: the number of whole blocks
/// of the file is rounded up to a multiple of the size of a block, and the
/// block comes one behind that.
pub open spec fn append_index(sb: Superblock, inode: Inode) -> int {
    let bs = sb.block_len();
    ((((inode.file_size() / bs + bs - 1) / bs) * bs) as u32) + 1
}

/// The added block lies behind the direct ones.
pub open spec fn appendable(sb: Superblock, inode: Inode) -> bool {
    append_index(sb, inode) >= INDIRECT_BLOCK_INDEX
}

/// Where the inode names the first page on the way to the added block.
pub open spec fn append_slot(sb: Superblock, inode: Inode) -> int {
    INDIRECT_BLOCK_INDEX + path_to(sb.block_len() / 4, append_index(sb, inode)).len() - 1
}

/// What remains to be done once page `r`, the last one of a path, is there and
/// `i` is the place in it.
#[verifier::opaque]
pub open spec fn ended(
    r: Result<PageAt, Errno>,
    d: Seq<u8>,
    sb: Superblock,
    i: int,
    block_num: u32,
) -> (Result<(), Errno>, Seq<u8>) {
    match r {
        Ok((home, page)) => match with_entry(d, sb, home, page, i, block_num) {
            Ok(d2) => (Ok(()), d2),
            Err(e) => (Err(e), d),
        },
        Err(e) => (Err(e), d),
    }
}

/// What adding block `block_num` to inode `ino` returns, and the device, the
/// superblock and the inode that it leaves. The pages on the way are made
/// where they are missing, and each is stored in the block that names it.
pub open spec fn appended(
    d: Seq<u8>,
    sb: Superblock,
    ino: u64,
    inode: Inode,
    block_num: u32,
) -> (Result<(), Errno>, Seq<u8>, Superblock, Inode) {
    let path = path_to(sb.block_len() / 4, append_index(sb, inode));
    let (r1, d1, sb1, inode1) = root_page_of(d, sb, ino, inode, append_slot(sb, inode));
    if path.len() == 1 {
        let (done, d2) = ended(r1, d1, sb1, path[0], block_num);
        (done, d2, sb1, inode1)
    } else if path.len() == 2 {
        let (r2, d2, sb2) = child_page_of(r1, d1, sb1, ino, path[1]);
        let (done, d3) = ended(r2, d2, sb2, path[0], block_num);
        (done, d3, sb2, inode1)
    } else {
        let (r2, d2, sb2) = child_page_of(r1, d1, sb1, ino, path[2]);
        let (r3, d3, sb3) = child_page_of(r2, d2, sb2, ino, path[1]);
        let (done, d4) = ended(r3, d3, sb3, path[0], block_num);
        (done, d4, sb3, inode1)
    }
}

/// The page that was brought, or the error.
pub open spec fn page_result(r: Result<(u32, Vec<u32>), Errno>) -> Result<PageAt, Errno> {
    match r {
        Ok((home, page)) => Ok((home, page@)),
        Err(e) => Err(e),
    }
}

impl<S: Storage> HelloFS<S> {
    /// The page that `slot` of the inode names; it is made if there is none.
    fn root_page(&mut self, ino: u64, inode: &mut Inode, slot: usize) -> (r: Result<
        (u32, Vec<u32>),
        Errno,
    >)
        requires
            slot < 15,
            old(self).superblock.addressable(),
            may_allocate(old(self).superblock, ino),
        ensures
            same_but_counts(old(self).superblock, final(self).superblock),
            may_allocate(final(self).superblock, ino),
            page_named(*old(inode), *final(inode), slot as int),
            old(inode).block@[slot as int] == 0 && Resource::Block.left(old(self).superblock) == 0
                ==> {
                &&& r == Err::<(u32, Vec<u32>), Errno>(Errno::ENOSPC)
                &&& *final(inode) == *old(inode)
                &&& final(self).device == old(self).device
                &&& final(self).superblock == old(self).superblock
            },
            r matches Ok((_, page)) ==> page@.len() == old(self).superblock.block_len() / 4,
            final(self).device.faults() != old(self).device.faults() ==> r
                == Err::<(u32, Vec<u32>), Errno>(Errno::EIO),
            forall|d: Seq<u8>| #[trigger]
                final(self).device.now(d) matches Some(c) ==> {
                    &&& old(self).device.now(d) matches Some(c0)
                    &&& root_page_of(c0, old(self).superblock, ino, *old(inode), slot as int) == (
                        page_result(r),
                        c,
                        final(self).superblock,
                        *final(inode),
                    )
                },
    {
        proof {
            reveal(root_page_of);
            lemma_block_len(self.superblock);
        }
        let named: u32 = inode.block[slot];
        if named == 0 {
            let b: u32 = match self.alloc_block(ino) {
                Ok(b) => b,
                Err(e) => return Err(e),
            };
            inode.block[slot] = b;
            proof {
                let goal = with_pointer(*old(inode), slot as int, b);
                assert(inode.block =~= goal.block) by {
                    assert forall|i: int| 0 <= i < 15 implies inode.block[i] == goal.block[i] by {
                        assert(inode.block@[i] == old(inode).block@.update(slot as int, b)[i]);
                    }
                }
                assert(*inode == goal);
            }
            match self.store_inode(ino, inode) {
                Ok(_) => {},
                Err(e) => return Err(e),
            }
            let page: Vec<u32> = vec![0u32; self.block_size() / 4];
            assert(page@ =~= empty_page(old(self).superblock));
            Ok((b, page))
        } else {
            match self.load_pointers(named) {
                Ok(page) => Ok((named, page)),
                Err(e) => Err(e),
            }
        }
    }

    /// The page that entry `i` of the page that was brought names; it is made if
    /// there is none.
    fn child_page(&mut self, brought: Result<(u32, Vec<u32>), Errno>, ino: u64, i: usize) -> (r:
        Result<(u32, Vec<u32>), Errno>)
        requires
            old(self).superblock.addressable(),
            may_allocate(old(self).superblock, ino),
        ensures
            same_but_counts(old(self).superblock, final(self).superblock),
            may_allocate(final(self).superblock, ino),
            r matches Ok((_, next)) ==> next@.len() == old(self).superblock.block_len() / 4,
            brought matches Err(e) ==> {
                &&& r == Err::<(u32, Vec<u32>), Errno>(e)
                &&& final(self).device == old(self).device
                &&& final(self).superblock == old(self).superblock
            },
            final(self).device.faults() != old(self).device.faults() ==> r
                == Err::<(u32, Vec<u32>), Errno>(Errno::EIO),
            forall|d: Seq<u8>| #[trigger]
                final(self).device.now(d) matches Some(c) ==> {
                    &&& old(self).device.now(d) matches Some(c0)
                    &&& child_page_of(
                        page_result(brought),
                        c0,
                        old(self).superblock,
                        ino,
                        i as int,
                    ) == (page_result(r), c, final(self).superblock)
                },
    {
        proof {
            reveal(child_page_of);
            lemma_block_len(self.superblock);
        }
        let (home, page) = match brought {
            Ok(brought) => brought,
            Err(e) => return Err(e),
        };
        if i >= page.len() {
            return Err(Errno::EIO);
        }
        let named: u32 = page[i];
        if named == 0 {
            let b: u32 = match self.alloc_block(ino) {
                Ok(b) => b,
                Err(e) => return Err(e),
            };
            let mut page1 = page;
            page1[i] = b;
            match self.store_block(home, &page1) {
                Ok(_) => {},
                Err(e) => return Err(e),
            }
            let next: Vec<u32> = vec![0u32; self.block_size() / 4];
            assert(next@ =~= empty_page(old(self).superblock));
            Ok((b, next))
        } else {
            match self.load_pointers(named) {
                Ok(next) => Ok((named, next)),
                Err(e) => Err(e),
            }
        }
    }

    /// Puts `block_num` at `i` into the page that was brought, and stores it.
    fn end_page(
        &mut self,
        brought: Result<(u32, Vec<u32>), Errno>,
        i: usize,
        block_num: u32,
    ) -> (done: Result<(), Errno>)
        requires
            old(self).superblock.addressable(),
            brought matches Ok((_, page)) ==> i < page@.len(),
        ensures
            final(self).superblock == old(self).superblock,
            brought matches Err(e) ==> {
                &&& done == Err::<(), Errno>(e)
                &&& final(self).device == old(self).device
            },
            final(self).device.faults() != old(self).device.faults() ==> done
                == Err::<(), Errno>(Errno::EIO),
            forall|d: Seq<u8>| #[trigger]
                final(self).device.now(d) matches Some(c) ==> {
                    &&& old(self).device.now(d) matches Some(c0)
                    &&& ended(
                        page_result(brought),
                        c0,
                        old(self).superblock,
                        i as int,
                        block_num,
                    ) == (done, c)
                },
    {
        proof {
            reveal(ended);
        }
        match brought {
            Ok((home, page)) => {
                let mut page1 = page;
                page1[i] = block_num;
                match self.store_block(home, &page1) {
                    Ok(_) => Ok(()),
                    Err(e) => Err(e),
                }
            },
            Err(e) => Err(e),
        }
    }

    /// Which block of the file an added block becomes.
    fn append_block_index(&self, inode: &Inode) -> (index: u32)
        requires
            self.superblock.addressable(),
        ensures
            index == append_index(self.superblock, *inode),
    {
        proof {
            lemma_block_len(self.superblock);
        }
        let block_size: u64 = self.block_size() as u64;
        let size: u64 = inode.get_size();
        let blocks: u64 = size / block_size;
        assert(blocks <= 0x40_0000_0000_0000) by (nonlinear_arith)
            requires
                blocks == size / block_size,
                size <= 0xffff_ffff_ffff_ffff,
                block_size >= 1024,
        ;
        let units: u64 = (blocks + block_size - 1) / block_size;
        assert(units * block_size <= blocks + block_size - 1) by (nonlinear_arith)
            requires
                units == (blocks + block_size - 1) / block_size as int,
                block_size >= 1024,
        ;
        let end_block_offset: u64 = units * block_size;
        proof {
            let quarter = block_size / 4;
            assert(units * block_size == 4 * (units * quarter)) by (nonlinear_arith)
                requires
                    block_size == 4 * quarter,
            ;
            assert(end_block_offset % 4 == 0);
            assert(end_block_offset % 4 == 0 ==> (end_block_offset as u32) < 0xffff_ffff)
                by (bit_vector);
        }
        end_block_offset as u32 + 1
    }

    /// Adds block `block_num` to inode `ino`, as the block of the file that
    /// [`append_index`] says.
    pub fn append_block_to_inode(
        &mut self,
        ino: u64,
        inode: &mut Inode,
        block_num: u32,
        _new_size: u64,
    ) -> (r: Result<(), Errno>)
        requires
            old(self).superblock.addressable(),
            may_allocate(old(self).superblock, ino),
            appendable(old(self).superblock, *old(inode)),
        ensures
            same_but_counts(old(self).superblock, final(self).superblock),
            old(inode).block@[append_slot(old(self).superblock, *old(inode))] == 0
                && Resource::Block.left(old(self).superblock) == 0 ==> {
                &&& r == Err::<(), Errno>(Errno::ENOSPC)
                &&& *final(inode) == *old(inode)
                &&& final(self).device == old(self).device
                &&& final(self).superblock == old(self).superblock
            },
            page_named(
                *old(inode),
                *final(inode),
                append_slot(old(self).superblock, *old(inode)),
            ),
            final(self).device.faults() != old(self).device.faults() ==> r
                == Err::<(), Errno>(Errno::EIO),
            forall|d: Seq<u8>| #[trigger]
                final(self).device.now(d) matches Some(c) ==> {
                    &&& old(self).device.now(d) matches Some(c0)
                    &&& appended(c0, old(self).superblock, ino, *old(inode), block_num) == (
                        r,
                        c,
                        final(self).superblock,
                        *final(inode),
                    )
                },
    {
        let ghost bs = self.superblock.block_len();
        proof {
            lemma_block_len(self.superblock);
        }
        let index: u32 = self.append_block_index(inode);
        let block_size: usize = self.block_size();
        let offsets = get_indirect_offsets_for_block_offset(block_size, index);
        proof {
            let path = path_to(bs / 4, index as int);
            lemma_path(bs / 4, index as int);
            assert(forall|i: int| 0 <= i < path.len() ==> offsets@[i] == ints(offsets@)[i]);
        }
        let slot: usize = if offsets.len() == 1 {
            INDIRECT_BLOCK_INDEX
        } else if offsets.len() == 2 {
            DOUBLE_INDIRECT_BLOCK_INDEX
        } else {
            TRIPLE_INDIRECT_BLOCK_INDEX
        };
        let page = self.root_page(ino, inode, slot);
        if offsets.len() == 1 {
            self.end_page(page, offsets[0], block_num)
        } else if offsets.len() == 2 {
            let page2 = self.child_page(page, ino, offsets[1]);
            self.end_page(page2, offsets[0], block_num)
        } else {
            let page2 = self.child_page(page, ino, offsets[2]);
            let page3 = self.child_page(page2, ino, offsets[1]);
            self.end_page(page3, offsets[0], block_num)
        }
    }
}

} // verus!
