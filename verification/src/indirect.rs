//! The blocks of an inode, direct and indirect.

use vstd::prelude::*;
use vstd::arithmetic::div_mod::{
    lemma_breakdown, lemma_div_denominator, lemma_fundamental_div_mod,
    lemma_fundamental_div_mod_converse,
};
use crate::device::Storage;
use crate::errno::Errno;
use crate::fs::{lemma_block_len, HelloFS};
use crate::inode::Inode;
use crate::layout::pointers_at;
use crate::superblock::Superblock;

verus! {

/// Where an inode names its page of block numbers; the direct ones come before.
pub const INDIRECT_BLOCK_INDEX: usize = 12;

/// Where an inode names its page of pages.
pub const DOUBLE_INDIRECT_BLOCK_INDEX: usize = 13;

/// Where an inode names its page of pages of pages.
pub const TRIPLE_INDIRECT_BLOCK_INDEX: usize = 14;

/// The way to block `n` of a file behind the direct ones, with `p` block
/// numbers to a page: where to look in the last page, then in the page that
/// names that page, and so on. The first `p` blocks take one page, the next
/// `p * p` blocks two, and the rest three.
pub open spec fn path_to(p: int, n: int) -> Seq<int> {
    let m = n - INDIRECT_BLOCK_INDEX;
    if m < p {
        seq![m]
    } else if m - p < p * p {
        seq![(m - p) % p, (m - p) / p]
    } else {
        let q = m - p - p * p;
        seq![q % p, q / p % p, q / p / p]
    }
}

/// The values of a sequence of machine integers.
pub open spec fn ints(s: Seq<usize>) -> Seq<int> {
    Seq::new(s.len(), |i: int| s[i] as int)
}

/// The block that a path leads to.
pub open spec fn block_on(p: int, path: Seq<int>) -> int {
    if path.len() == 1 {
        INDIRECT_BLOCK_INDEX + path[0]
    } else if path.len() == 2 {
        INDIRECT_BLOCK_INDEX + p + p * path[1] + path[0]
    } else {
        INDIRECT_BLOCK_INDEX + p + p * p + p * (p * path[2] + path[1]) + path[0]
    }
}

/// A path leads to the block that it was made for, and keeps within the pages
/// (all but the first one of a path of three).
pub proof fn lemma_path(p: int, n: int)
    requires
        p >= 1,
        n >= INDIRECT_BLOCK_INDEX,
    ensures
        block_on(p, path_to(p, n)) == n,
        1 <= path_to(p, n).len() <= 3,
        0 <= path_to(p, n)[0] < p,
        path_to(p, n).len() >= 2 ==> 0 <= path_to(p, n)[1] < p,
        path_to(p, n).len() == 3 ==> 0 <= path_to(p, n)[2] <= n,
{
    let m = n - INDIRECT_BLOCK_INDEX;
    if m >= p {
        if m - p < p * p {
            let x = m - p;
            lemma_fundamental_div_mod(x, p);
            assert(0 <= x % p < p && 0 <= x / p < p) by (nonlinear_arith)
                requires
                    0 <= x < p * p,
                    p >= 1,
            ;
        } else {
            let q = m - p - p * p;
            let y = q / p;
            lemma_fundamental_div_mod(q, p);
            lemma_fundamental_div_mod(y, p);
            assert(0 <= q % p < p && 0 <= y % p < p && 0 <= y <= q && 0 <= y / p <= y)
                by (nonlinear_arith)
                requires
                    0 <= q,
                    p >= 1,
                    y == q / p,
            ;
            assert(p * p >= 0) by (nonlinear_arith);
        }
    }
}

/// Different blocks have different paths.
pub proof fn law_paths_differ(p: int, n: int, m: int)
    requires
        p >= 1,
        n >= INDIRECT_BLOCK_INDEX,
        m >= INDIRECT_BLOCK_INDEX,
        path_to(p, n) == path_to(p, m),
    ensures
        n == m,
{
    lemma_path(p, n);
    lemma_path(p, m);
}

/// The quotient changes at multiples only.
proof fn lemma_quotient_stays(x: int, p: int)
    requires
        p >= 1,
        x >= 1,
        x % p != 0,
    ensures
        (x - 1) / p == x / p,
        (x - 1) % p == x % p - 1,
{
    lemma_fundamental_div_mod(x, p);
    assert(0 <= x % p < p) by (nonlinear_arith)
        requires
            p >= 1,
    ;
    assert(x - 1 == (x / p) * p + (x % p - 1)) by (nonlinear_arith)
        requires
            x == p * (x / p) + x % p,
    ;
    lemma_fundamental_div_mod_converse(x - 1, p, x / p, x % p - 1);
}

/// How the path of a block differs from that of the block before it: a page
/// changes only where the place in it starts again from 0.
proof fn lemma_path_step(p: int, n: int)
    requires
        p >= 1,
        n > INDIRECT_BLOCK_INDEX,
    ensures
        ({
            let old_path = path_to(p, n - 1);
            let path = path_to(p, n);
            &&& path.len() == 1 ==> old_path.len() == 1
            &&& path.len() == 2 ==> old_path.len() <= 2
            &&& path.len() == 2 && path[0] != 0 ==> old_path.len() == 2 && old_path[1] == path[1]
            &&& path.len() == 3 && path[0] != 0 ==> old_path.len() == 3 && old_path[1] == path[1]
                && old_path[2] == path[2]
            &&& path.len() == 3 && path[1] != 0 ==> old_path.len() == 3 && old_path[2] == path[2]
        }),
{
    let m = n - INDIRECT_BLOCK_INDEX;
    if m >= p {
        if m - p < p * p {
            let x = m - p;
            if x == 0 {
                assert(0int % p == 0) by (nonlinear_arith)
                    requires
                        p >= 1,
                ;
            } else if x % p != 0 {
                lemma_quotient_stays(x, p);
            }
        } else {
            let q = m - p - p * p;
            if q == 0 {
                assert(0int % p == 0 && 0int / p == 0) by (nonlinear_arith)
                    requires
                        p >= 1,
                ;
            } else {
                if q % p != 0 {
                    lemma_quotient_stays(q, p);
                }
                if q / p % p != 0 {
                    lemma_breakdown(q, p, p);
                    lemma_div_denominator(q, p, p);
                    lemma_div_denominator(q - 1, p, p);
                    assert(q % (p * p) != 0) by (nonlinear_arith)
                        requires
                            q % (p * p) == p * (q / p % p) + q % p,
                            q / p % p != 0,
                            p >= 1,
                    ;
                    assert(p * p >= 1) by (nonlinear_arith)
                        requires
                            p >= 1,
                    ;
                    lemma_quotient_stays(q, p * p);
                }
            }
        }
    }
}

/// Where to look for a block behind the direct ones, last page first.
pub fn get_indirect_offsets_for_block_offset(block_size: usize, block_offset: u32) -> (offsets: Vec<
    usize,
>)
    requires
        block_size >= 4,
        block_offset >= INDIRECT_BLOCK_INDEX,
    ensures
        ints(offsets@) == path_to(block_size as int / 4, block_offset as int),
{
    let ghost p = block_size as int / 4;
    let page_blocks: u64 = (block_size / 4) as u64;
    let mut indirect_offset: u64 = block_offset as u64 - INDIRECT_BLOCK_INDEX as u64;
    let mut offsets: Vec<usize> = Vec::new();
    if indirect_offset < page_blocks {
        offsets.push(indirect_offset as usize);
        assert(ints(offsets@) =~= path_to(p, block_offset as int));
        return offsets;
    }
    indirect_offset = indirect_offset - page_blocks;

    assert(1 <= p * p <= 0xffff_ffff * 0xffff_ffff) by (nonlinear_arith)
        requires
            1 <= p <= 0xffff_ffff,
    ;
    let double_page_blocks: u64 = page_blocks * page_blocks;
    if indirect_offset < double_page_blocks {
        let single_indirect_offset: u64 = indirect_offset % page_blocks;
        let double_indirect_offset: u64 = indirect_offset / page_blocks;
        proof {
            lemma_path(p, block_offset as int);
        }
        offsets.push(single_indirect_offset as usize);
        offsets.push(double_indirect_offset as usize);
        assert(ints(offsets@) =~= path_to(p, block_offset as int));
        return offsets;
    }
    indirect_offset = indirect_offset - double_page_blocks;

    // each triple indirect record points to this many blocks
    let triple_indirect_offset: u64 = indirect_offset / double_page_blocks;

    // how far the block is into them
    let dpb_offset: u64 = indirect_offset % double_page_blocks;

    // each double indirect record points to a page of blocks
    let double_indirect_offset: u64 = dpb_offset / page_blocks;
    let single_indirect_offset: u64 = dpb_offset % page_blocks;
    proof {
        let q = indirect_offset as int;
        lemma_path(p, block_offset as int);
        lemma_breakdown(q, p, p);
        lemma_div_denominator(q, p, p);
        lemma_fundamental_div_mod_converse(
            dpb_offset as int,
            p,
            q / p % p,
            q % p,
        );
        assert((q / p % p) * p == p * (q / p % p)) by (nonlinear_arith);
    }
    offsets.push(single_indirect_offset as usize);
    offsets.push(double_indirect_offset as usize);
    offsets.push(triple_indirect_offset as usize);
    assert(ints(offsets@) =~= path_to(p, block_offset as int));
    offsets
}

/// Entry `i` of the page in block `b`.
pub open spec fn entry_of(d: Seq<u8>, sb: Superblock, b: Result<u32, Errno>, i: int) -> Result<
    u32,
    Errno,
> {
    match b {
        Ok(b) => match pointers_at(d, sb, b) {
            Some(page) => if 0 <= i < page.len() {
                Ok(page[i])
            } else {
                Err(Errno::EIO)
            },
            None => Err(Errno::EIO),
        },
        Err(e) => Err(e),
    }
}

/// The number of block `n` of a file, `block` being the block numbers of its
/// inode. A number that no page has room for is an error.
#[verifier::opaque]
pub open spec fn pointer_to(d: Seq<u8>, sb: Superblock, block: Seq<u32>, n: int) -> Result<
    u32,
    Errno,
> {
    if n < INDIRECT_BLOCK_INDEX {
        Ok(block[n])
    } else {
        let path = path_to(sb.block_len() / 4, n);
        if path.len() == 1 {
            entry_of(d, sb, Ok(block[12]), path[0])
        } else if path.len() == 2 {
            entry_of(d, sb, entry_of(d, sb, Ok(block[13]), path[1]), path[0])
        } else {
            entry_of(
                d,
                sb,
                entry_of(d, sb, entry_of(d, sb, Ok(block[14]), path[2]), path[1]),
                path[0],
            )
        }
    }
}

/// What comes next where block `n` of a file is due and `limit` is the last
/// one. Block 2^32 - 1 cannot be passed and is an error.
pub open spec fn next_pointer(
    d: Seq<u8>,
    sb: Superblock,
    block: Seq<u32>,
    limit: u32,
    n: u32,
) -> Result<Option<u32>, Errno> {
    if n > limit {
        Ok(None)
    } else if n == u32::MAX {
        Err(Errno::EIO)
    } else {
        match pointer_to(d, sb, block, n as int) {
            Ok(b) => Ok(Some(b)),
            Err(e) => Err(e),
        }
    }
}

/// Goes through the block numbers of an inode. The pages on the way to the
/// last one are kept.
pub struct InodeBlockIterator<'a> {
    pub block: &'a [u32; 15],
    pub block_offset: u32,
    pub block_limit: u32,
    pub indirect_block_page: Vec<u32>,
    pub double_indirect_block_page: Vec<u32>,
    pub triple_indirect_block_page: Vec<u32>,
}

impl<'a> InodeBlockIterator<'a> {
    /// No pages are kept.
    pub open spec fn is_fresh(self) -> bool {
        &&& self.indirect_block_page@.len() == 0
        &&& self.double_indirect_block_page@.len() == 0
        &&& self.triple_indirect_block_page@.len() == 0
    }

    /// The pages that are kept are those on the way to block `n`.
    #[verifier::opaque]
    pub open spec fn keeps_way_to(self, d: Seq<u8>, sb: Superblock, n: int) -> bool {
        let path = path_to(sb.block_len() / 4, n);
        let single = self.indirect_block_page@;
        let double = self.double_indirect_block_page@;
        let triple = self.triple_indirect_block_page@;
        if path.len() == 1 {
            &&& pointers_at(d, sb, self.block@[12]) == Some(single)
            &&& double.len() == 0
            &&& triple.len() == 0
        } else if path.len() == 2 {
            &&& pointers_at(d, sb, self.block@[13]) == Some(double)
            &&& path[1] < double.len()
            &&& pointers_at(d, sb, double[path[1]]) == Some(single)
            &&& triple.len() == 0
        } else {
            &&& pointers_at(d, sb, self.block@[14]) == Some(triple)
            &&& path[2] < triple.len()
            &&& pointers_at(d, sb, triple[path[2]]) == Some(double)
            &&& path[1] < double.len()
            &&& pointers_at(d, sb, double[path[1]]) == Some(single)
        }
    }

    /// What is kept agrees with a device that holds `d`.
    pub open spec fn agrees_with(self, d: Seq<u8>, sb: Superblock) -> bool {
        self.is_fresh() || (self.block_offset > INDIRECT_BLOCK_INDEX && self.keeps_way_to(
            d,
            sb,
            self.block_offset - 1,
        ))
    }

    /// Begins with the first block of the inode.
    pub fn new<S: Storage>(inode: &'a Inode, fs: &HelloFS<S>) -> (it: Self)
        requires
            fs.superblock.addressable(),
        ensures
            it.block@ == inode.block@,
            it.block_offset == 0,
            it.block_limit == (inode.file_size() / fs.superblock.block_len()) as u32,
            it.is_fresh(),
    {
        proof {
            lemma_block_len(fs.superblock);
        }
        InodeBlockIterator {
            block: &inode.block,
            block_limit: (inode.get_size() / fs.block_size() as u64) as u32,
            block_offset: 0,
            indirect_block_page: Vec::new(),
            double_indirect_block_page: Vec::new(),
            triple_indirect_block_page: Vec::new(),
        }
    }

    /// Brings the pages on the way to the block that is due, as far as they
    /// are not kept already.
    fn load_caches<S: Storage>(&mut self, fs: &mut HelloFS<S>, offsets: &Vec<usize>) -> (r: Result<
        (),
        Errno,
    >)
        requires
            old(fs).superblock.addressable(),
            old(self).block_offset >= INDIRECT_BLOCK_INDEX,
            ints(offsets@) == path_to(
                old(fs).superblock.block_len() / 4,
                old(self).block_offset as int,
            ),
            forall|d: Seq<u8>| #[trigger]
                old(fs).device.now(d) matches Some(c) ==> old(self).agrees_with(
                    c,
                    old(fs).superblock,
                ),
        ensures
            final(fs).superblock == old(fs).superblock,
            final(self).block == old(self).block,
            final(self).block_offset == old(self).block_offset,
            final(self).block_limit == old(self).block_limit,
            r matches Err(e) ==> e == Errno::EIO,
            final(fs).device.faults() != old(fs).device.faults() ==> r is Err,
            forall|d: Seq<u8>| #[trigger]
                final(fs).device.now(d) matches Some(c) ==> {
                    &&& old(fs).device.now(d) == Some(c)
                    &&& r is Ok ==> final(self).keeps_way_to(
                        c,
                        old(fs).superblock,
                        old(self).block_offset as int,
                    )
                    &&& r is Err ==> pointer_to(
                        c,
                        old(fs).superblock,
                        old(self).block@,
                        old(self).block_offset as int,
                    ) is Err
                },
    {
        let ghost sb = fs.superblock;
        let ghost p = sb.block_len() / 4;
        let ghost n = self.block_offset as int;
        let ghost path = path_to(p, n);
        proof {
            reveal(pointer_to);
            reveal(InodeBlockIterator::keeps_way_to);
            lemma_block_len(sb);
            lemma_path(p, n);
            if n > INDIRECT_BLOCK_INDEX {
                lemma_path_step(p, n);
            }
            assert(forall|i: int| 0 <= i < path.len() ==> offsets@[i] == ints(offsets@)[i]);
        }
        if offsets.len() == 1 {
            if self.indirect_block_page.len() == 0 {
                match fs.load_pointers(self.block[INDIRECT_BLOCK_INDEX]) {
                    Ok(page) => {
                        self.indirect_block_page = page;
                    },
                    Err(e) => return Err(e),
                }
            }
        } else if offsets.len() == 2 {
            if self.double_indirect_block_page.len() == 0 {
                match fs.load_pointers(self.block[DOUBLE_INDIRECT_BLOCK_INDEX]) {
                    Ok(page) => {
                        self.double_indirect_block_page = page;
                    },
                    Err(e) => return Err(e),
                }
            }
            if offsets[0] == 0 || self.indirect_block_page.len() == 0 {
                if offsets[1] >= self.double_indirect_block_page.len() {
                    return Err(Errno::EIO);
                }
                match fs.load_pointers(self.double_indirect_block_page[offsets[1]]) {
                    Ok(page) => {
                        self.indirect_block_page = page;
                    },
                    Err(e) => return Err(e),
                }
            }
        } else {
            if self.triple_indirect_block_page.len() == 0 {
                match fs.load_pointers(self.block[TRIPLE_INDIRECT_BLOCK_INDEX]) {
                    Ok(page) => {
                        self.triple_indirect_block_page = page;
                    },
                    Err(e) => return Err(e),
                }
            }
            if offsets[1] == 0 || self.double_indirect_block_page.len() == 0 {
                if offsets[2] >= self.triple_indirect_block_page.len() {
                    return Err(Errno::EIO);
                }
                match fs.load_pointers(self.triple_indirect_block_page[offsets[2]]) {
                    Ok(page) => {
                        self.double_indirect_block_page = page;
                    },
                    Err(e) => return Err(e),
                }
            }
            if offsets[0] == 0 || self.indirect_block_page.len() == 0 {
                if offsets[1] >= self.double_indirect_block_page.len() {
                    return Err(Errno::EIO);
                }
                match fs.load_pointers(self.double_indirect_block_page[offsets[1]]) {
                    Ok(page) => {
                        self.indirect_block_page = page;
                    },
                    Err(e) => return Err(e),
                }
            }
        }
        Ok(())
    }

    /// The number of the block that is due, if there is one.
    pub fn next<S: Storage>(&mut self, fs: &mut HelloFS<S>) -> (r: Result<Option<u32>, Errno>)
        requires
            old(fs).superblock.addressable(),
            forall|d: Seq<u8>| #[trigger]
                old(fs).device.now(d) matches Some(c) ==> old(self).agrees_with(
                    c,
                    old(fs).superblock,
                ),
        ensures
            final(fs).superblock == old(fs).superblock,
            final(self).block == old(self).block,
            final(self).block_limit == old(self).block_limit,
            r matches Ok(Some(_)) ==> final(self).block_offset == old(self).block_offset + 1,
            r matches Ok(None) ==> final(self).block_offset == old(self).block_offset,
            r matches Ok(None) <==> old(self).block_offset > old(self).block_limit,
            old(self).block_offset <= old(self).block_limit && old(self).block_offset
                < INDIRECT_BLOCK_INDEX ==> {
                &&& r == Ok::<Option<u32>, Errno>(
                    Some(old(self).block@[old(self).block_offset as int]),
                )
                &&& final(fs).device == old(fs).device
            },
            r matches Ok(None) ==> final(fs).device == old(fs).device,
            r matches Err(e) ==> e == Errno::EIO,
            final(fs).device.faults() != old(fs).device.faults() ==> r is Err,
            forall|d: Seq<u8>| #[trigger]
                final(fs).device.now(d) matches Some(c) ==> {
                    &&& old(fs).device.now(d) == Some(c)
                    &&& r == next_pointer(
                        c,
                        old(fs).superblock,
                        old(self).block@,
                        old(self).block_limit,
                        old(self).block_offset,
                    )
                    &&& r is Ok ==> final(self).agrees_with(c, old(fs).superblock)
                },
    {
        proof {
            reveal(pointer_to);
            reveal(InodeBlockIterator::keeps_way_to);
        }
        if self.block_offset > self.block_limit {
            return Ok(None);
        }
        if self.block_offset == u32::MAX {
            return Err(Errno::EIO);
        }
        let number: u32 = if self.block_offset < INDIRECT_BLOCK_INDEX as u32 {
            self.block[self.block_offset as usize]
        } else {
            proof {
                lemma_block_len(fs.superblock);
                lemma_path(fs.superblock.block_len() / 4, self.block_offset as int);
            }
            let offsets = get_indirect_offsets_for_block_offset(fs.block_size(), self.block_offset);
            match self.load_caches(fs, &offsets) {
                Ok(_) => {},
                Err(e) => return Err(e),
            }
            let indirect_offset: usize = offsets[0];
            assert(ints(offsets@)[0] == indirect_offset);
            if indirect_offset >= self.indirect_block_page.len() {
                return Err(Errno::EIO);
            }
            self.indirect_block_page[indirect_offset]
        };
        self.block_offset = self.block_offset + 1;
        Ok(Some(number))
    }

    /// The number of the block that comes `n` blocks behind the one that is
    /// due, if there is one. No pages are kept.
    pub fn nth<S: Storage>(&mut self, fs: &mut HelloFS<S>, n: u64) -> (r: Result<
        Option<u32>,
        Errno,
    >)
        requires
            old(fs).superblock.addressable(),
            old(self).block_offset + (n as u32) <= u32::MAX,
        ensures
            final(fs).superblock == old(fs).superblock,
            final(self).block == old(self).block,
            final(self).block_limit == old(self).block_limit,
            r matches Ok(Some(_)) ==> final(self).block_offset == old(self).block_offset + (
            n as u32) + 1,
            r matches Ok(None) ==> final(self).block_offset == old(self).block_offset + (n as u32),
            r matches Ok(None) <==> old(self).block_offset + (n as u32) > old(self).block_limit,
            ({
                let n = old(self).block_offset + (n as u32);
                n <= old(self).block_limit && n < INDIRECT_BLOCK_INDEX ==> {
                    &&& r == Ok::<Option<u32>, Errno>(Some(old(self).block@[n]))
                    &&& final(fs).device == old(fs).device
                }
            }),
            r matches Ok(None) ==> final(fs).device == old(fs).device,
            r matches Err(e) ==> e == Errno::EIO,
            final(fs).device.faults() != old(fs).device.faults() ==> r is Err,
            forall|d: Seq<u8>| #[trigger]
                final(fs).device.now(d) matches Some(c) ==> {
                    &&& old(fs).device.now(d) == Some(c)
                    &&& r == next_pointer(
                        c,
                        old(fs).superblock,
                        old(self).block@,
                        old(self).block_limit,
                        (old(self).block_offset + (n as u32)) as u32,
                    )
                    &&& r is Ok ==> final(self).agrees_with(c, old(fs).superblock)
                },
    {
        self.block_offset = self.block_offset + n as u32;
        self.indirect_block_page = Vec::new();
        self.double_indirect_block_page = Vec::new();
        self.triple_indirect_block_page = Vec::new();
        self.next(fs)
    }
}

} // verus!
