//! Reading the contents of files.

use vstd::prelude::*;
use vstd::arithmetic::div_mod::lemma_fundamental_div_mod;
use crate::bytes::{overwrite, put_bytes};
use crate::device::{fetch, Storage};
use crate::errno::Errno;
use crate::fs::{lemma_block_len, HelloFS};
use crate::indirect::{next_pointer, InodeBlockIterator};
use crate::inode::Inode;
use crate::layout::inode_at;
use crate::superblock::Superblock;

verus! {

pub open spec fn min(a: int, b: int) -> int {
    if a < b {
        a
    } else {
        b
    }
}

pub open spec fn max(a: int, b: int) -> int {
    if a > b {
        a
    } else {
        b
    }
}

/// `buf`, which is for the bytes of a file from `offset` to `end`, once the
/// blocks from block `n` on have been read into it. Block `n` holds the bytes
/// of the file from `cursor` on. Reading ends at `end`, behind block `limit`,
/// or at the first block that the file does not have.
pub open spec fn filled(
    d: Seq<u8>,
    sb: Superblock,
    block: Seq<u32>,
    limit: u32,
    offset: int,
    end: int,
    n: u32,
    cursor: int,
    buf: Seq<u8>,
) -> Result<Seq<u8>, Errno>
    decreases end - cursor,
    when sb.block_len() > 0
{
    match next_pointer(d, sb, block, limit, n) {
        Ok(Some(b)) => if b == 0 {
            Ok(buf)
        } else {
            let from = max(offset, cursor);
            let to = min(end, cursor + sb.block_len());
            match fetch(d, sb.block_addr(b) + (from - cursor), to - from) {
                Some(bytes) => {
                    let buf2 = overwrite(buf, from - offset, bytes);
                    if end - cursor < sb.block_len() {
                        Ok(buf2)
                    } else {
                        filled(
                            d,
                            sb,
                            block,
                            limit,
                            offset,
                            end,
                            (n + 1) as u32,
                            cursor + sb.block_len(),
                            buf2,
                        )
                    }
                },
                None => Err(Errno::EIO),
            }
        },
        Ok(None) => Ok(buf),
        Err(e) => Err(e),
    }
}

/// What reading at most `load_size` bytes of inode `ino` from `offset` on
/// returns: as many bytes as were asked for, but no more than the file has.
/// Bytes that no block of the file was read for are zero.
pub open spec fn file_read(
    d: Seq<u8>,
    sb: Superblock,
    ino: u64,
    offset: u64,
    load_size: u32,
) -> Result<Seq<u8>, Errno> {
    match inode_at(d, sb, ino) {
        Ok(inode) => {
            let len = min(load_size as int, inode.file_size());
            let skip = offset as int / sb.block_len();
            if offset + len > u64::MAX {
                Err(Errno::EIO)
            } else {
                filled(
                    d,
                    sb,
                    inode.block@,
                    (inode.file_size() / sb.block_len()) as u32,
                    offset as int,
                    offset + len,
                    skip as u32,
                    skip * sb.block_len(),
                    Seq::new(len as nat, |i: int| 0u8),
                )
            }
        },
        Err(e) => Err(e),
    }
}

/// The bytes that were read, or the error.
pub open spec fn read_result(r: Result<Vec<u8>, Errno>) -> Result<Seq<u8>, Errno> {
    match r {
        Ok(buf) => Ok(buf@),
        Err(e) => Err(e),
    }
}

impl<S: Storage> HelloFS<S> {
    /// Goes through the block numbers of an inode.
    pub fn get_inode_blocks<'a>(&self, inode: &'a Inode) -> (it: InodeBlockIterator<'a>)
        requires
            self.superblock.addressable(),
        ensures
            it.block@ == inode.block@,
            it.block_offset == 0,
            it.block_limit == (inode.file_size() / self.superblock.block_len()) as u32,
            it.is_fresh(),
    {
        InodeBlockIterator::new(inode, self)
    }

    /// Reads at most `load_size` bytes of inode `ino` from `offset` on.
    #[verifier::rlimit(30)]
    pub fn load_from_blocks(&mut self, ino: u64, offset: u64, load_size: u32) -> (r: Result<
        Vec<u8>,
        Errno,
    >)
        requires
            ino >= 1,
            old(self).superblock.readable(),
        ensures
            final(self).superblock == old(self).superblock,
            final(self).device.faults() != old(self).device.faults() ==> r
                == Err::<Vec<u8>, Errno>(Errno::EIO),
            forall|d: Seq<u8>| #[trigger]
                final(self).device.now(d) matches Some(c) ==> {
                    &&& old(self).device.now(d) == Some(c)
                    &&& read_result(r) == file_read(
                        c,
                        old(self).superblock,
                        ino,
                        offset,
                        load_size,
                    )
                },
    {
        let ghost sb = self.superblock;
        let ghost bs = sb.block_len();
        proof {
            lemma_block_len(sb);
            lemma_fundamental_div_mod(offset as int, bs);
        }
        let inode = match self.load_inode(ino) {
            Ok(inode) => inode,
            Err(e) => return Err(e),
        };
        let size: u64 = inode.get_size();
        let len: usize = if (load_size as u64) < size {
            load_size as usize
        } else {
            size as usize
        };
        if offset > u64::MAX - len as u64 {
            return Err(Errno::EIO);
        }
        let read_end: u64 = offset + len as u64;
        let mut buf: Vec<u8> = vec![0u8; len];
        assert(buf@ =~= Seq::new(len as nat, |i: int| 0u8));
        let block_size: u64 = self.block_size() as u64;
        let block_skip: u64 = offset / block_size;
        assert(block_skip * bs == bs * block_skip && block_skip * bs <= offset) by (nonlinear_arith)
            requires
                offset == bs * block_skip + offset as int % bs,
                offset as int % bs >= 0,
        ;
        let mut cursor: u64 = block_skip * block_size;
        let mut iter = self.get_inode_blocks(&inode);
        let ghost limit = iter.block_limit;
        let ghost mut n = block_skip as u32;
        let mut due: Option<u32> = match iter.nth(self, block_skip) {
            Ok(due) => due,
            Err(e) => return Err(e),
        };
        assert(offset - cursor < bs);
        loop
            invariant
                self.superblock == sb,
                sb == old(self).superblock,
                sb.readable(),
                bs == sb.block_len(),
                block_size == bs,
                1024 <= bs <= 0x8000_0000,
                self.device.faults() == old(self).device.faults(),
                cursor <= read_end,
                offset - cursor < bs,
                offset + len == read_end,
                buf@.len() == len,
                iter.block@ == inode.block@,
                iter.block_limit == limit,
                due is Some ==> iter.block_offset == n + 1,
                forall|d: Seq<u8>| #[trigger]
                    self.device.now(d) matches Some(c) ==> {
                        &&& old(self).device.now(d) == Some(c)
                        &&& iter.agrees_with(c, sb)
                        &&& next_pointer(c, sb, inode.block@, limit, n) == Ok::<
                            Option<u32>,
                            Errno,
                        >(due)
                        &&& file_read(c, sb, ino, offset, load_size) == filled(
                            c,
                            sb,
                            inode.block@,
                            limit,
                            offset as int,
                            read_end as int,
                            n,
                            cursor as int,
                            buf@,
                        )
                    },
            decreases read_end - cursor,
        {
            let block_num: u32 = match due {
                Some(block_num) => block_num,
                None => return Ok(buf),
            };
            if block_num == 0 {
                return Ok(buf);
            }
            let amt_left: u64 = read_end - cursor;
            let mut read_size: u64 = if amt_left < block_size {
                amt_left
            } else {
                block_size
            };
            let blk_offset: u64 = if offset > cursor {
                offset - cursor
            } else {
                0
            };
            read_size = read_size - blk_offset;
            let block_addr: u64 = self.block2addr(block_num) + blk_offset;
            let bytes = match self.device.read_at(read_size as usize, block_addr) {
                Ok(bytes) => bytes,
                Err(e) => return Err(e),
            };
            put_bytes(&mut buf, (cursor + blk_offset - offset) as usize, &bytes);
            if amt_left < block_size {
                return Ok(buf);
            }
            cursor = cursor + block_size;
            proof {
                n = (n + 1) as u32;
                assert(forall|d: Seq<u8>| #[trigger]
                    self.device.now(d) matches Some(c) ==> file_read(c, sb, ino, offset, load_size)
                        == filled(
                        c,
                        sb,
                        inode.block@,
                        limit,
                        offset as int,
                        read_end as int,
                        n,
                        cursor as int,
                        buf@,
                    ));
            }
            due =
            match iter.next(self) {
                Ok(due) => due,
                Err(e) => return Err(e),
            };
        }
    }
}

} // verus!
