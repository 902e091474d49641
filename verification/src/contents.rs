//! The contents of files, read off the bytes of the device, and that reading a
//! file gives just those.

use vstd::prelude::*;
use vstd::arithmetic::div_mod::{lemma_fundamental_div_mod, lemma_fundamental_div_mod_converse};
use crate::answers::ext2_number;
use crate::bytes::{overwrite, u32s_of};
use crate::device::{fetch, Storage};
use crate::errno::Errno;
use crate::file::{file_read, filled};
use crate::fs::{lemma_block_len, HelloFS};
use crate::indirect::{entry_of, next_pointer, pointer_to};
use crate::inode::Inode;
use crate::layout::{inode_at, pointers_at};
use crate::plain::{bytes_per_block, law_size_is_put_together, le32, within};
use crate::superblock::Superblock;

verus! {

/// Entry `i` of the page of block numbers in block `b`.
pub open spec fn number_in(d: Seq<u8>, sb: Superblock, b: int, i: int) -> int {
    le32(d, b * bytes_per_block(sb) + 4 * i)
}

/// The device has block `b`.
pub open spec fn has_block(d: Seq<u8>, sb: Superblock, b: int) -> bool {
    within(d, b * bytes_per_block(sb), bytes_per_block(sb))
}

/// The number of block `n` of a file, where `block` is what its inode says of
/// its blocks: the first 12 are named there, the next ones in a page, the next
/// ones in pages that are named in a page, and the rest one page further off. A
/// page has a number for every 4 bytes.
pub open spec fn number_of(d: Seq<u8>, sb: Superblock, block: Seq<u32>, n: int) -> int {
    let p = bytes_per_block(sb) / 4;
    if n < 12 {
        block[n] as int
    } else if n < 12 + p {
        number_in(d, sb, block[12] as int, n - 12)
    } else if n < 12 + p + p * p {
        let m = n - 12 - p;
        number_in(d, sb, number_in(d, sb, block[13] as int, m / p), m % p)
    } else {
        let m = n - 12 - p - p * p;
        number_in(
            d,
            sb,
            number_in(d, sb, number_in(d, sb, block[14] as int, m / p / p), m / p % p),
            m % p,
        )
    }
}

/// The device has the pages on the way to block `n` of a file, and there is a
/// place for its number in them.
pub open spec fn number_known(d: Seq<u8>, sb: Superblock, block: Seq<u32>, n: int) -> bool {
    let p = bytes_per_block(sb) / 4;
    if n < 12 {
        true
    } else if n < 12 + p {
        has_block(d, sb, block[12] as int)
    } else if n < 12 + p + p * p {
        let m = n - 12 - p;
        has_block(d, sb, block[13] as int) && has_block(
            d,
            sb,
            number_in(d, sb, block[13] as int, m / p),
        )
    } else {
        let m = n - 12 - p - p * p;
        let second = number_in(d, sb, block[14] as int, m / p / p);
        &&& m / p / p < p
        &&& has_block(d, sb, block[14] as int)
        &&& has_block(d, sb, second)
        &&& has_block(d, sb, number_in(d, sb, second, m / p % p))
    }
}

/// An entry of a page is what its bytes say.
proof fn lemma_entry_of(d: Seq<u8>, sb: Superblock, b: u32, i: int)
    requires
        sb.addressable(),
        0 <= i,
    ensures
        entry_of(d, sb, Ok(b), i) == if has_block(d, sb, b as int) && i < bytes_per_block(sb) / 4 {
            Ok::<u32, Errno>(number_in(d, sb, b as int, i) as u32)
        } else {
            Err::<u32, Errno>(Errno::EIO)
        },
        has_block(d, sb, b as int) && i < bytes_per_block(sb) / 4 ==> 0 <= number_in(
            d,
            sb,
            b as int,
            i,
        ) <= u32::MAX,
{
    lemma_block_len(sb);
    let len = bytes_per_block(sb);
    let base = b * len;
    assert(base == sb.block_addr(b));
    if has_block(d, sb, b as int) && i < len / 4 {
        let bytes = d.subrange(base, base + len);
        assert(pointers_at(d, sb, b) == Some(u32s_of(bytes)));
        assert(u32s_of(bytes)[i] == le32(bytes, 4 * i));
        assert(bytes[4 * i] == d[base + 4 * i]);
        assert(bytes[4 * i + 1] == d[base + 4 * i + 1]);
        assert(bytes[4 * i + 2] == d[base + 4 * i + 2]);
        assert(bytes[4 * i + 3] == d[base + 4 * i + 3]);
    }
}

/// A block of a file has the number that the bytes of its inode and of its
/// pages say; where the device does not reach that far it cannot be told.
pub proof fn law_block_number_is_what_the_bytes_say(
    d: Seq<u8>,
    sb: Superblock,
    block: Seq<u32>,
    n: int,
)
    requires
        sb.addressable(),
        block.len() == 15,
        0 <= n,
    ensures
        number_known(d, sb, block, n) ==> pointer_to(d, sb, block, n) is Ok && pointer_to(
            d,
            sb,
            block,
            n,
        )->Ok_0 == number_of(d, sb, block, n),
        !number_known(d, sb, block, n) ==> pointer_to(d, sb, block, n) == Err::<u32, Errno>(
            Errno::EIO,
        ),
{
    reveal(pointer_to);
    lemma_block_len(sb);
    let p = bytes_per_block(sb) / 4;
    assert(p == sb.block_len() / 4);
    if 12 <= n < 12 + p {
        lemma_entry_of(d, sb, block[12], n - 12);
    } else if 12 + p <= n && n < 12 + p + p * p {
        let m = n - 12 - p;
        assert(0 <= m / p < p && 0 <= m % p < p) by (nonlinear_arith)
            requires
                0 <= m < p * p,
                p >= 1,
        ;
        lemma_entry_of(d, sb, block[13], m / p);
        lemma_entry_of(d, sb, number_in(d, sb, block[13] as int, m / p) as u32, m % p);
    } else if 12 + p + p * p <= n {
        let m = n - 12 - p - p * p;
        let q = m / p;
        assert(0 <= m % p < p && 0 <= q && 0 <= q % p < p && 0 <= q / p) by (nonlinear_arith)
            requires
                0 <= m,
                p >= 1,
                q == m / p,
        ;
        assert(p * p >= p) by (nonlinear_arith)
            requires
                p >= 1,
        ;
        lemma_entry_of(d, sb, block[14], q / p);
        let second = number_in(d, sb, block[14] as int, q / p);
        lemma_entry_of(d, sb, second as u32, q % p);
        lemma_entry_of(d, sb, number_in(d, sb, second, q % p) as u32, m % p);
    }
}

/// Which block comes next: the one that is due, up to the last one of the file.
pub proof fn law_blocks_come_up_to_the_last(
    d: Seq<u8>,
    sb: Superblock,
    block: Seq<u32>,
    limit: u32,
    n: u32,
)
    requires
        sb.addressable(),
        block.len() == 15,
        n < u32::MAX,
    ensures
        n > limit ==> next_pointer(d, sb, block, limit, n) == Ok::<Option<u32>, Errno>(None),
        n <= limit && number_known(d, sb, block, n as int) ==> next_pointer(d, sb, block, limit, n)
            == Ok::<Option<u32>, Errno>(Some(number_of(d, sb, block, n as int) as u32)),
        n <= limit && number_known(d, sb, block, n as int) ==> 0 <= number_of(
            d,
            sb,
            block,
            n as int,
        ) <= u32::MAX,
        n <= limit && !number_known(d, sb, block, n as int) ==> next_pointer(
            d,
            sb,
            block,
            limit,
            n,
        ) == Err::<Option<u32>, Errno>(Errno::EIO),
{
    law_block_number_is_what_the_bytes_say(d, sb, block, n as int);
}

/// The file has block `n`: it is not behind the last one, and it has a number.
pub open spec fn file_has(
    d: Seq<u8>,
    sb: Superblock,
    block: Seq<u32>,
    size: int,
    n: int,
) -> bool {
    n <= size / bytes_per_block(sb) && number_of(d, sb, block, n) != 0
}

/// The byte of the device that is byte `x` of the file.
pub open spec fn content_at(d: Seq<u8>, sb: Superblock, block: Seq<u32>, x: int) -> u8 {
    let len = bytes_per_block(sb);
    d[number_of(d, sb, block, x / len) * len + x % len]
}

/// What is read in the place of byte `x`, where reading began in block `first`:
/// what stands there, if the file has all blocks from `first` on up to that of
/// the byte, and otherwise 0.
pub open spec fn read_byte(
    v: u8,
    d: Seq<u8>,
    sb: Superblock,
    block: Seq<u32>,
    size: int,
    first: int,
    x: int,
) -> bool {
    let last = x / bytes_per_block(sb);
    &&& (forall|n: int| first <= n <= last ==> #[trigger] file_has(d, sb, block, size, n)) ==> v
        == content_at(d, sb, block, x)
    &&& (exists|n: int| first <= n <= last && !(#[trigger] file_has(d, sb, block, size, n))) ==> v
        == 0
}

/// Which side of a block a byte is on.
proof fn lemma_side(x: int, n: int, len: int)
    requires
        len > 0,
    ensures
        n * len <= x ==> n <= x / len,
        x < n * len ==> x / len < n,
        n * len <= x < n * len + len ==> x / len == n && x % len == x - n * len,
{
    lemma_fundamental_div_mod(x, len);
    let q = x / len;
    assert(0 <= x % len < len) by (nonlinear_arith)
        requires
            len > 0,
    ;
    if n * len <= x {
        assert(n <= q) by (nonlinear_arith)
            requires
                n * len <= x,
                x == len * q + x % len,
                x % len < len,
                len > 0,
        ;
    } else {
        assert(q < n) by (nonlinear_arith)
            requires
                x < n * len,
                x == len * q + x % len,
                x % len >= 0,
                len > 0,
        ;
    }
    if n * len <= x < n * len + len {
        lemma_fundamental_div_mod_converse(x, len, n, x - n * len);
    }
}

/// What has been read when reading ends before block `n`.
proof fn lemma_read_up_to(
    v: u8,
    d: Seq<u8>,
    sb: Superblock,
    block: Seq<u32>,
    size: int,
    first: int,
    n: int,
    x: int,
)
    requires
        sb.addressable(),
        first <= n,
        forall|m: int| first <= m < n ==> #[trigger] file_has(d, sb, block, size, m),
        x < n * bytes_per_block(sb) ==> v == content_at(d, sb, block, x),
        x >= n * bytes_per_block(sb) ==> v == 0 && !file_has(d, sb, block, size, n),
    ensures
        read_byte(v, d, sb, block, size, first, x),
{
    lemma_block_len(sb);
    lemma_side(x, n, bytes_per_block(sb));
}

/// The pages and the blocks that reading from block `n` up to `end` needs are
/// there.
pub open spec fn can_be_read(
    d: Seq<u8>,
    sb: Superblock,
    block: Seq<u32>,
    size: int,
    n: int,
    end: int,
) -> bool {
    forall|m: int|
        n <= m <= size / bytes_per_block(sb) && m * bytes_per_block(sb) <= end ==> {
            &&& #[trigger] number_known(d, sb, block, m)
            &&& number_of(d, sb, block, m) != 0 ==> has_block(d, sb, number_of(d, sb, block, m))
        }
}

/// What is read from block `n` on.
proof fn lemma_filled(
    d: Seq<u8>,
    sb: Superblock,
    block: Seq<u32>,
    size: int,
    offset: int,
    end: int,
    first: int,
    n: u32,
    buf: Seq<u8>,
)
    requires
        sb.addressable(),
        block.len() == 15,
        0 <= size / bytes_per_block(sb) < u32::MAX,
        0 <= offset <= end,
        offset < n * bytes_per_block(sb) + bytes_per_block(sb),
        n * bytes_per_block(sb) <= end,
        0 <= first <= n,
        buf.len() == end - offset,
        forall|m: int| first <= m < n ==> #[trigger] file_has(d, sb, block, size, m),
        forall|i: int|
            0 <= i < buf.len() && offset + i < n * bytes_per_block(sb) ==> #[trigger] buf[i]
                == content_at(d, sb, block, offset + i),
        forall|i: int|
            0 <= i < buf.len() && offset + i >= n * bytes_per_block(sb) ==> #[trigger] buf[i] == 0,
    ensures
        ({
            let r = filled(
                d,
                sb,
                block,
                (size / bytes_per_block(sb)) as u32,
                offset,
                end,
                n,
                n * bytes_per_block(sb),
                buf,
            );
            &&& can_be_read(d, sb, block, size, n as int, end) ==> r is Ok
            &&& r matches Err(e) ==> e == Errno::EIO
            &&& r matches Ok(out) ==> {
                &&& out.len() == end - offset
                &&& forall|i: int|
                    0 <= i < out.len() ==> read_byte(
                        #[trigger] out[i],
                        d,
                        sb,
                        block,
                        size,
                        first,
                        offset + i,
                    )
            }
        }),
    decreases end - n * bytes_per_block(sb), 1int,
{
    let len = bytes_per_block(sb);
    lemma_block_len(sb);
    let limit = (size / len) as u32;
    let cursor = n * len;
    let r = filled(d, sb, block, limit, offset, end, n, cursor, buf);
    assert((n + 1) * len == cursor + len) by (nonlinear_arith)
        requires
            cursor == n * len,
    ;
    if n > limit {
        assert(r == Ok::<Seq<u8>, Errno>(buf));
        assert forall|i: int| 0 <= i < buf.len() implies read_byte(
            #[trigger] buf[i],
            d,
            sb,
            block,
            size,
            first,
            offset + i,
        ) by {
            lemma_read_up_to(buf[i], d, sb, block, size, first, n as int, offset + i);
        }
    } else {
        law_blocks_come_up_to_the_last(d, sb, block, limit, n);
        if number_known(d, sb, block, n as int) {
            let b = number_of(d, sb, block, n as int) as u32;
            if b == 0 {
                assert(r == Ok::<Seq<u8>, Errno>(buf));
                assert forall|i: int| 0 <= i < buf.len() implies read_byte(
                    #[trigger] buf[i],
                    d,
                    sb,
                    block,
                    size,
                    first,
                    offset + i,
                ) by {
                    lemma_read_up_to(buf[i], d, sb, block, size, first, n as int, offset + i);
                }
            } else {
                lemma_block_read(d, sb, block, size, offset, end, first, n, buf);
            }
        }
    }
}

/// What is read from block `n` on, where the file has that block.
proof fn lemma_block_read(
    d: Seq<u8>,
    sb: Superblock,
    block: Seq<u32>,
    size: int,
    offset: int,
    end: int,
    first: int,
    n: u32,
    buf: Seq<u8>,
)
    requires
        sb.addressable(),
        block.len() == 15,
        0 <= size / bytes_per_block(sb) < u32::MAX,
        0 <= offset <= end,
        offset < n * bytes_per_block(sb) + bytes_per_block(sb),
        n * bytes_per_block(sb) <= end,
        0 <= first <= n,
        buf.len() == end - offset,
        forall|m: int| first <= m < n ==> #[trigger] file_has(d, sb, block, size, m),
        forall|i: int|
            0 <= i < buf.len() && offset + i < n * bytes_per_block(sb) ==> #[trigger] buf[i]
                == content_at(d, sb, block, offset + i),
        forall|i: int|
            0 <= i < buf.len() && offset + i >= n * bytes_per_block(sb) ==> #[trigger] buf[i] == 0,
        number_known(d, sb, block, n as int),
        file_has(d, sb, block, size, n as int),
    ensures
        ({
            let r = filled(
                d,
                sb,
                block,
                (size / bytes_per_block(sb)) as u32,
                offset,
                end,
                n,
                n * bytes_per_block(sb),
                buf,
            );
            &&& can_be_read(d, sb, block, size, n as int, end) ==> r is Ok
            &&& r matches Err(e) ==> e == Errno::EIO
            &&& r matches Ok(out) ==> {
                &&& out.len() == end - offset
                &&& forall|i: int|
                    0 <= i < out.len() ==> read_byte(
                        #[trigger] out[i],
                        d,
                        sb,
                        block,
                        size,
                        first,
                        offset + i,
                    )
            }
        }),
    decreases end - n * bytes_per_block(sb), 0int,
{
    let len = bytes_per_block(sb);
    lemma_block_len(sb);
    let limit = (size / len) as u32;
    let cursor = n * len;
    let b = number_of(d, sb, block, n as int) as u32;
    law_blocks_come_up_to_the_last(d, sb, block, limit, n);
    assert((n + 1) * len == cursor + len) by (nonlinear_arith)
        requires
            cursor == n * len,
    ;
    let at = b * len;
    assert(at >= 0) by (nonlinear_arith)
        requires
            at == b * len,
            b >= 0,
            len >= 0,
    ;
    assert(at == sb.block_addr(b));
    let from = if offset > cursor {
        offset
    } else {
        cursor
    };
    let to = if end < cursor + len {
        end
    } else {
        cursor + len
    };
    let got = fetch(d, at + (from - cursor), to - from);
    let r = filled(d, sb, block, limit, offset, end, n, cursor, buf);
    if got is Some {
        let part = got->Some_0;
        let buf2 = overwrite(buf, from - offset, part);
        assert(part.len() == to - from);
        assert forall|i: int| 0 <= i < buf2.len() implies #[trigger] buf2[i] == if offset + i
            < cursor + len {
            content_at(d, sb, block, offset + i)
        } else {
            0
        } by {
            let x = offset + i;
            if x < cursor {
                assert(buf2[i] == buf[i]);
            } else if x < cursor + len {
                lemma_side(x, n as int, len);
                assert(buf2[i] == part[x - from]);
                assert(part[x - from] == d[at + (x - cursor)]);
            } else {
                assert(buf2[i] == buf[i]);
            }
        }
        if end - cursor < len {
            assert(r == Ok::<Seq<u8>, Errno>(buf2));
            assert forall|i: int| 0 <= i < buf2.len() implies read_byte(
                #[trigger] buf2[i],
                d,
                sb,
                block,
                size,
                first,
                offset + i,
            ) by {
                lemma_read_up_to(buf2[i], d, sb, block, size, first, n + 1, offset + i);
            }
        } else {
            lemma_filled(d, sb, block, size, offset, end, first, (n + 1) as u32, buf2);
        }
    }
}

/// Reading a file gives as many bytes as were asked for, but no more than the
/// file has: a regular file has as many as the two halves of its size say, put
/// together. Each byte is the one that stands in its place, up to the first
/// block that the file does not have; from there on the bytes are 0. It fails
/// only where the pages or the blocks of the file cannot be read.
pub proof fn law_read_gives_what_the_bytes_say(
    d: Seq<u8>,
    sb: Superblock,
    num: u64,
    inode: Inode,
    size: int,
    offset: u64,
    wanted: u32,
)
    requires
        sb.readable(),
        inode_at(d, sb, num) == Ok::<Inode, Errno>(inode),
        size == if inode.mode as int / 4096 == 8 {
            4294967296 * inode.dir_acl + inode.size
        } else {
            inode.size as int
        },
        size / bytes_per_block(sb) < u32::MAX,
        offset as int / bytes_per_block(sb) <= u32::MAX,
        offset + wanted <= u64::MAX,
    ensures
        ({
            let len = if wanted < size {
                wanted as int
            } else {
                size
            };
            let first = offset as int / bytes_per_block(sb);
            let r = file_read(d, sb, num, offset, wanted);
            &&& can_be_read(d, sb, inode.block@, size, first, offset + len) ==> r is Ok
            &&& r matches Err(e) ==> e == Errno::EIO
            &&& r matches Ok(buf) ==> {
                &&& buf.len() == len
                &&& forall|i: int|
                    0 <= i < len ==> read_byte(
                        #[trigger] buf[i],
                        d,
                        sb,
                        inode.block@,
                        size,
                        first,
                        offset + i,
                    )
            }
        }),
{
    let bs = bytes_per_block(sb);
    lemma_block_len(sb);
    law_size_is_put_together(inode);
    assert(size >= 0);
    let len = if wanted < size {
        wanted as int
    } else {
        size
    };
    let first = offset as int / bs;
    lemma_fundamental_div_mod(offset as int, bs);
    assert(0 <= first && first * bs == bs * first && 0 <= offset as int % bs < bs && 0 <= size / bs)
        by (nonlinear_arith)
        requires
            first == offset as int / bs,
            bs > 0,
            size >= 0,
            offset >= 0,
    ;
    let zeros = Seq::new(len as nat, |i: int| 0u8);
    lemma_filled(
        d,
        sb,
        inode.block@,
        size,
        offset as int,
        offset + len,
        first,
        first as u32,
        zeros,
    );
}

/// What has no inode cannot be read.
pub proof fn law_only_files_are_read(
    d: Seq<u8>,
    sb: Superblock,
    num: u64,
    offset: u64,
    wanted: u32,
)
    ensures
        inode_at(d, sb, num) matches Err(e) ==> file_read(d, sb, num, offset, wanted) == Err::<
            Seq<u8>,
            Errno,
        >(e),
{
}

/// What `read` answers is what the bytes of the device say.
pub proof fn law_reading_tells_what_the_bytes_say<S: Storage>(
    before: HelloFS<S>,
    after: HelloFS<S>,
    ino: u64,
    offset: i64,
    wanted: u32,
    r: Result<Vec<u8>, Errno>,
    d: Seq<u8>,
    c: Seq<u8>,
    inode: Inode,
    size: int,
)
    requires
        before.superblock.readable(),
        ino >= 1,
        exists|fs: &mut HelloFS<S>|
            *fs == before && *final(fs) == after && #[trigger] call_ensures(
                HelloFS::<S>::read,
                (fs, ino, offset, wanted),
                r,
            ),
        after.device.now(d) == Some(c),
        inode_at(c, before.superblock, ext2_number(ino) as u64) == Ok::<Inode, Errno>(inode),
        size == if inode.mode as int / 4096 == 8 {
            4294967296 * inode.dir_acl + inode.size
        } else {
            inode.size as int
        },
        size / bytes_per_block(before.superblock) < u32::MAX,
        0 <= offset,
        offset as int / bytes_per_block(before.superblock) <= u32::MAX,
    ensures
        before.device.now(d) == Some(c),
        after.superblock == before.superblock,
        ({
            let sb = before.superblock;
            let len = if wanted < size {
                wanted as int
            } else {
                size
            };
            let first = offset as int / bytes_per_block(sb);
            &&& can_be_read(c, sb, inode.block@, size, first, offset + len) ==> r is Ok
            &&& r matches Err(e) ==> e == Errno::EIO
            &&& r matches Ok(buf) ==> {
                &&& buf@.len() == len
                &&& forall|i: int|
                    0 <= i < len ==> read_byte(
                        #[trigger] buf@[i],
                        c,
                        sb,
                        inode.block@,
                        size,
                        first,
                        offset + i,
                    )
            }
        }),
{
    let num = ext2_number(ino) as u64;
    let sb = before.superblock;
    law_read_gives_what_the_bytes_say(c, sb, num, inode, size, offset as u64, wanted);
}

} // verus!
