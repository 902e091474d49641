//! Well-formed file systems, and what keeps them well-formed.

use vstd::prelude::*;
use vstd::arithmetic::div_mod::{lemma_fundamental_div_mod, lemma_fundamental_div_mod_converse};
use crate::allocation::{
    allocated, bit_is_set, find_from, first_clear, group_count, lemma_first_clear, lemma_with_bit,
    with_bit, Resource,
};
use crate::bytes::overwrite;
use crate::device::{fetch, lemma_decode, DeviceData};
use crate::errno::Errno;
use crate::fs::lemma_block_len;
use crate::group::BlockGroupDescTable;
use crate::inode::Inode;
use crate::layout::{
    bitmap_bit, block_at, group_at, inode_addr, inode_at, with_inode, written, SUPERBLOCK_ADDR,
};
use crate::superblock::Superblock;

verus! {

/// What a byte of the device belongs to.
pub enum Zone {
    Super,
    Groups,
    Bitmaps,
    Inodes,
    Data,
}

/// All `len` bytes from `addr` on belong to `z`, and the device has them.
pub open spec fn lies_in(
    zone: spec_fn(int) -> Zone,
    d: Seq<u8>,
    z: Zone,
    addr: int,
    len: int,
) -> bool {
    &&& 0 <= addr
    &&& addr + len <= d.len()
    &&& forall|i: int| addr <= i < addr + len ==> #[trigger] zone(i) == z
}

/// Two ranges have no byte in common.
pub open spec fn apart(a: int, a_len: int, b: int, b_len: int) -> bool {
    a + a_len <= b || b + b_len <= a
}

/// How many of the first `n` bits are clear.
pub open spec fn clear_below(bitmap: Seq<u8>, n: int) -> int
    decreases n,
{
    if n <= 0 {
        0
    } else {
        clear_below(bitmap, n - 1) + (if bit_is_set(bitmap, n - 1) {
            0int
        } else {
            1int
        })
    }
}

/// The parts of a group stand in their zones, and its counts are the numbers
/// of clear bits in its bitmaps.
pub open spec fn group_well_formed(
    zone: spec_fn(int) -> Zone,
    d: Seq<u8>,
    sb: Superblock,
    g: u32,
) -> bool {
    &&& lies_in(zone, d, Zone::Groups, sb.group_addr(g), 32)
    &&& group_at(d, sb, g) matches Ok(group) && {
        &&& lies_in(zone, d, Zone::Bitmaps, sb.block_addr(group.block_bitmap), sb.block_len())
        &&& lies_in(zone, d, Zone::Bitmaps, sb.block_addr(group.inode_bitmap), sb.block_len())
        &&& lies_in(
            zone,
            d,
            Zone::Inodes,
            sb.block_addr(group.inode_table),
            128 * sb.inodes_per_group,
        )
        &&& group.block_bitmap != group.inode_bitmap
        &&& block_at(d, sb, group.block_bitmap) matches Some(bitmap)
            && group.free_blocks_count == clear_below(bitmap, sb.blocks_per_group as int)
        &&& block_at(d, sb, group.inode_bitmap) matches Some(bitmap)
            && group.free_inodes_count == clear_below(bitmap, sb.inodes_per_group as int)
    }
}

/// Two groups share no bitmap and no part of their inode tables.
pub open spec fn groups_apart(d: Seq<u8>, sb: Superblock, g: u32, h: u32) -> bool {
    match (group_at(d, sb, g), group_at(d, sb, h)) {
        (Ok(a), Ok(b)) => {
            &&& a.block_bitmap != b.block_bitmap
            &&& a.block_bitmap != b.inode_bitmap
            &&& a.inode_bitmap != b.block_bitmap
            &&& a.inode_bitmap != b.inode_bitmap
            &&& apart(
                sb.block_addr(a.inode_table),
                128 * sb.inodes_per_group,
                sb.block_addr(b.inode_table),
                128 * sb.inodes_per_group,
            )
        },
        _ => true,
    }
}

/// A file system of `groups` groups: each part of it stands in its zone, and
/// no two parts overlap.
pub open spec fn well_formed(
    zone: spec_fn(int) -> Zone,
    groups: u32,
    d: Seq<u8>,
    sb: Superblock,
) -> bool {
    &&& sb.allocatable()
    &&& sb.inodes_per_group <= 8 * sb.block_len()
    &&& sb.blocks_per_group <= 8 * sb.block_len()
    &&& group_count(sb) <= groups
    &&& lies_in(zone, d, Zone::Super, SUPERBLOCK_ADDR as int, 264)
    &&& forall|g: u32| g < groups ==> #[trigger] group_well_formed(zone, d, sb, g)
    &&& forall|g: u32, h: u32|
        g < groups && h < groups && g != h ==> #[trigger] groups_apart(d, sb, g, h)
}

/// Inode `ino` belongs to one of the groups.
pub open spec fn has_inode(groups: u32, sb: Superblock, ino: u64) -> bool {
    &&& ino >= 1
    &&& (ino - 1) / (sb.inodes_per_group as int) < groups
}

/// Ranges in different zones are apart.
pub proof fn lemma_zones_apart(
    zone: spec_fn(int) -> Zone,
    d: Seq<u8>,
    y: Zone,
    a: int,
    a_len: int,
    z: Zone,
    b: int,
    b_len: int,
)
    requires
        lies_in(zone, d, y, a, a_len),
        lies_in(zone, d, z, b, b_len),
        y != z,
        a_len > 0,
        b_len > 0,
    ensures
        apart(a, a_len, b, b_len),
{
    if !apart(a, a_len, b, b_len) {
        let i = if a < b {
            b
        } else {
            a
        };
        assert(zone(i) == y);
        assert(zone(i) == z);
    }
}

/// What was written can be read back, and what is apart from it is as before.
pub proof fn lemma_written(d: Seq<u8>, addr: int, data: Seq<u8>, at: int, len: int)
    requires
        data.len() > 0,
        written(d, addr, data) is Ok,
        len >= 0,
    ensures
        ({
            let d2 = written(d, addr, data)->Ok_0;
            &&& d2.len() == d.len()
            &&& d2 == overwrite(d, addr, data)
            &&& 0 <= addr && addr + data.len() <= d.len()
            &&& fetch(d2, addr, data.len() as int) == Some(data)
            &&& apart(addr, data.len() as int, at, len) ==> fetch(d2, at, len) == fetch(d, at, len)
        }),
{
    let d2 = written(d, addr, data)->Ok_0;
    assert(d2.subrange(addr, addr + data.len()) =~= data);
    if apart(addr, data.len() as int, at, len) && 0 <= at && 0 < len && at + len <= d.len() {
        assert(d2.subrange(at, at + len) =~= d.subrange(at, at + len));
    }
}

/// Different blocks are apart.
pub proof fn lemma_blocks_apart(sb: Superblock, a: u32, b: u32)
    requires
        a != b,
        sb.log_block_size <= 21,
    ensures
        apart(sb.block_addr(a), sb.block_len(), sb.block_addr(b), sb.block_len()),
{
    lemma_block_len(sb);
    let n = sb.block_len();
    if a < b {
        assert(a * n + n <= b * n) by (nonlinear_arith)
            requires
                a + 1 <= b,
                n >= 0,
        ;
    } else {
        assert(b * n + n <= a * n) by (nonlinear_arith)
            requires
                b + 1 <= a,
                n >= 0,
        ;
    }
}

/// The group and the place of an inode fix its number.
pub proof fn lemma_inode_place(groups: u32, sb: Superblock, ino: u64)
    requires
        has_inode(groups, sb, ino),
        sb.inodes_per_group > 0,
    ensures
        sb.group_of(ino) < groups,
        sb.group_of(ino) == (ino - 1) / sb.inodes_per_group as int,
        0 <= sb.index_of(ino) < sb.inodes_per_group,
        ino == sb.group_of(ino) * sb.inodes_per_group + sb.index_of(ino) + 1,
{
    let n = ino - 1;
    let p = sb.inodes_per_group as int;
    lemma_fundamental_div_mod(n, p);
    assert(0 <= n / p && 0 <= n % p < p) by (nonlinear_arith)
        requires
            n >= 0,
            p > 0,
    ;
    assert(p * (n / p) == (n / p) * p) by (nonlinear_arith);
}

/// Two devices hold the same in zone `z`.
pub open spec fn agree_in(zone: spec_fn(int) -> Zone, z: Zone, d: Seq<u8>, d2: Seq<u8>) -> bool {
    &&& d.len() == d2.len()
    &&& forall|i: int| 0 <= i < d.len() && zone(i) == z ==> #[trigger] d2[i] == d[i]
}

/// A write to one zone leaves the others as they were.
pub(crate) proof fn lemma_write_in_zone(
    zone: spec_fn(int) -> Zone,
    d: Seq<u8>,
    z: Zone,
    addr: int,
    data: Seq<u8>,
)
    requires
        lies_in(zone, d, z, addr, data.len() as int),
    ensures
        written(d, addr, data) matches Ok(d2) && forall|y: Zone|
            y != z ==> #[trigger] agree_in(zone, y, d, d2),
{
    let d2 = written(d, addr, data)->Ok_0;
    assert forall|y: Zone| y != z implies #[trigger] agree_in(zone, y, d, d2) by {
        assert forall|i: int| 0 <= i < d.len() && zone(i) == y implies #[trigger] d2[i] == d[i] by {
            assert(!(addr <= i < addr + data.len()));
        }
    }
}

/// What lies in a zone is the same where the zone is.
pub(crate) proof fn lemma_same_in_zone(
    zone: spec_fn(int) -> Zone,
    z: Zone,
    d: Seq<u8>,
    d2: Seq<u8>,
    addr: int,
    len: int,
)
    requires
        agree_in(zone, z, d, d2),
        lies_in(zone, d, z, addr, len),
        len > 0,
    ensures
        fetch(d2, addr, len) == fetch(d, addr, len),
{
    assert(d2.subrange(addr, addr + len) =~= d.subrange(addr, addr + len)) by {
        assert forall|i: int| addr <= i < addr + len implies d2[i] == d[i] by {
            assert(zone(i) == z);
        }
    }
}

/// A file system stays well-formed where its descriptors and bitmaps stay the
/// same.
pub(crate) proof fn lemma_stays_well_formed(
    zone: spec_fn(int) -> Zone,
    groups: u32,
    d: Seq<u8>,
    sb: Superblock,
    d2: Seq<u8>,
)
    requires
        well_formed(zone, groups, d, sb),
        agree_in(zone, Zone::Groups, d, d2),
        agree_in(zone, Zone::Bitmaps, d, d2),
    ensures
        well_formed(zone, groups, d2, sb),
        forall|g: u32| g < groups ==> #[trigger] group_at(d2, sb, g) == group_at(d, sb, g),
{
    lemma_block_len(sb);
    let len = sb.block_len();
    assert forall|g: u32| g < groups implies #[trigger] group_at(d2, sb, g) == group_at(
        d,
        sb,
        g,
    ) by {
        assert(group_well_formed(zone, d, sb, g));
        lemma_same_in_zone(zone, Zone::Groups, d, d2, sb.group_addr(g), 32);
    }
    assert forall|g: u32| g < groups implies #[trigger] group_well_formed(zone, d2, sb, g) by {
        assert(group_well_formed(zone, d, sb, g));
        assert(group_at(d2, sb, g) == group_at(d, sb, g));
        let group = group_at(d, sb, g)->Ok_0;
        let b_at = sb.block_addr(group.block_bitmap);
        let i_at = sb.block_addr(group.inode_bitmap);
        lemma_same_in_zone(zone, Zone::Bitmaps, d, d2, b_at, len);
        lemma_same_in_zone(zone, Zone::Bitmaps, d, d2, i_at, len);
    }
    assert forall|g: u32, h: u32|
        g < groups && h < groups && g != h implies #[trigger] groups_apart(d2, sb, g, h) by {
        assert(groups_apart(d, sb, g, h));
        assert(group_at(d2, sb, g) == group_at(d, sb, g));
        assert(group_at(d2, sb, h) == group_at(d, sb, h));
    }
}

/// Where inode `ino` stands, and that it stands apart from every other inode.
proof fn lemma_inode_slot(
    zone: spec_fn(int) -> Zone,
    groups: u32,
    d: Seq<u8>,
    sb: Superblock,
    ino: u64,
    x: u64,
)
    requires
        well_formed(zone, groups, d, sb),
        has_inode(groups, sb, ino),
        has_inode(groups, sb, x),
    ensures
        ({
            let group = group_at(d, sb, sb.group_of(ino))->Ok_0;
            let other = group_at(d, sb, sb.group_of(x))->Ok_0;
            &&& group_well_formed(zone, d, sb, sb.group_of(ino))
            &&& lies_in(zone, d, Zone::Inodes, inode_addr(sb, group, ino), 128)
            &&& lies_in(
                zone,
                d,
                Zone::Bitmaps,
                sb.block_addr(group.inode_bitmap) + sb.index_of(ino) / 8,
                1,
            )
            &&& x != ino ==> apart(
                inode_addr(sb, group, ino),
                128,
                inode_addr(sb, other, x),
                128,
            )
        }),
{
    lemma_inode_place(groups, sb, ino);
    lemma_inode_place(groups, sb, x);
    let g = sb.group_of(ino);
    let h = sb.group_of(x);
    assert(group_well_formed(zone, d, sb, g));
    assert(group_well_formed(zone, d, sb, h));
    if g != h {
        assert(groups_apart(d, sb, g, h));
    }
}

/// Storing an inode writes to its place alone.
pub(crate) proof fn lemma_inode_stored(
    zone: spec_fn(int) -> Zone,
    groups: u32,
    d: Seq<u8>,
    sb: Superblock,
    ino: u64,
    inode: Inode,
)
    requires
        well_formed(zone, groups, d, sb),
        has_inode(groups, sb, ino),
    ensures
        with_inode(d, sb, ino, inode) matches Ok(d2) && {
            &&& well_formed(zone, groups, d2, sb)
            &&& forall|g: u32| g < groups ==> #[trigger] group_at(d2, sb, g) == group_at(d, sb, g)
            &&& forall|z: Zone| z != Zone::Inodes ==> #[trigger] agree_in(zone, z, d, d2)
        },
{
    lemma_inode_slot(zone, groups, d, sb, ino, ino);
    inode.encoding_has_size();
    let group = group_at(d, sb, sb.group_of(ino))->Ok_0;
    let addr = inode_addr(sb, group, ino);
    lemma_write_in_zone(zone, d, Zone::Inodes, addr, inode.encode());
    let d2 = written(d, addr, inode.encode())->Ok_0;
    assert(agree_in(zone, Zone::Groups, d, d2));
    assert(agree_in(zone, Zone::Bitmaps, d, d2));
    lemma_stays_well_formed(zone, groups, d, sb, d2);
}

/// Storing an inode succeeds and keeps a file system well-formed.
pub proof fn law_storing_keeps_well_formed(
    zone: spec_fn(int) -> Zone,
    groups: u32,
    d: Seq<u8>,
    sb: Superblock,
    ino: u64,
    inode: Inode,
)
    requires
        well_formed(zone, groups, d, sb),
        has_inode(groups, sb, ino),
    ensures
        with_inode(d, sb, ino, inode) matches Ok(d2) && well_formed(zone, groups, d2, sb),
{
    lemma_inode_stored(zone, groups, d, sb, ino, inode);
}

/// An inode that was stored in the place of another is the one that is loaded.
pub proof fn law_stored_inode_is_loaded(
    zone: spec_fn(int) -> Zone,
    groups: u32,
    d: Seq<u8>,
    sb: Superblock,
    ino: u64,
    inode: Inode,
)
    requires
        well_formed(zone, groups, d, sb),
        has_inode(groups, sb, ino),
        inode_at(d, sb, ino) is Ok,
    ensures
        with_inode(d, sb, ino, inode) matches Ok(d2) && inode_at(d2, sb, ino) == Ok::<Inode, Errno>(
            inode,
        ),
{
    lemma_inode_slot(zone, groups, d, sb, ino, ino);
    inode.encoding_has_size();
    lemma_decode(inode);
    let g = sb.group_of(ino);
    let group = group_at(d, sb, g)->Ok_0;
    let addr = inode_addr(sb, group, ino);
    let data = inode.encode();
    let at = sb.block_addr(group.inode_bitmap) + sb.index_of(ino) / 8;
    lemma_zones_apart(zone, d, Zone::Inodes, addr, 128, Zone::Groups, sb.group_addr(g), 32);
    lemma_written(d, addr, data, sb.group_addr(g), 32);
    lemma_zones_apart(zone, d, Zone::Inodes, addr, 128, Zone::Bitmaps, at, 1);
    lemma_written(d, addr, data, at, 1);
}

/// Storing an inode leaves every other inode as it was.
pub proof fn law_storing_leaves_other_inodes(
    zone: spec_fn(int) -> Zone,
    groups: u32,
    d: Seq<u8>,
    sb: Superblock,
    ino: u64,
    inode: Inode,
    x: u64,
)
    requires
        well_formed(zone, groups, d, sb),
        has_inode(groups, sb, ino),
        has_inode(groups, sb, x),
        x != ino,
    ensures
        with_inode(d, sb, ino, inode) matches Ok(d2) && inode_at(d2, sb, x) == inode_at(d, sb, x),
{
    lemma_inode_slot(zone, groups, d, sb, ino, x);
    lemma_inode_slot(zone, groups, d, sb, x, ino);
    inode.encoding_has_size();
    let group = group_at(d, sb, sb.group_of(ino))->Ok_0;
    let addr = inode_addr(sb, group, ino);
    let data = inode.encode();
    let h = sb.group_of(x);
    let other = group_at(d, sb, h)->Ok_0;
    let at = sb.block_addr(other.inode_bitmap) + sb.index_of(x) / 8;
    lemma_zones_apart(zone, d, Zone::Inodes, addr, 128, Zone::Groups, sb.group_addr(h), 32);
    lemma_written(d, addr, data, sb.group_addr(h), 32);
    lemma_zones_apart(zone, d, Zone::Inodes, addr, 128, Zone::Bitmaps, at, 1);
    lemma_written(d, addr, data, at, 1);
    lemma_written(d, addr, data, inode_addr(sb, other, x), 128);
}

/// Setting a clear bit leaves one clear bit less.
proof fn lemma_clear_below(bitmap: Seq<u8>, k: int, n: int)
    requires
        0 <= k < 8 * bitmap.len(),
        n <= 8 * bitmap.len(),
        !bit_is_set(bitmap, k),
    ensures
        clear_below(with_bit(bitmap, k), n) == clear_below(bitmap, n) - (if k < n {
            1int
        } else {
            0int
        }),
    decreases n,
{
    lemma_with_bit(bitmap, k);
    if n > 0 {
        lemma_clear_below(bitmap, k, n - 1);
    }
}

/// Where all bits are set, none is clear.
proof fn lemma_none_clear(bitmap: Seq<u8>, n: int)
    requires
        forall|m: int| 0 <= m < n ==> bit_is_set(bitmap, m),
    ensures
        clear_below(bitmap, n) == 0,
    decreases n,
{
    if n > 0 {
        lemma_none_clear(bitmap, n - 1);
    }
}

/// Where something is free among the first `n` bits, the first clear bit is one
/// of them.
proof fn lemma_first_clear_below(bitmap: Seq<u8>, n: int)
    requires
        clear_below(bitmap, n) != 0,
        0 <= n <= 8 * bitmap.len(),
    ensures
        0 <= first_clear(bitmap, 0) < n,
        !bit_is_set(bitmap, first_clear(bitmap, 0)),
{
    lemma_first_clear(bitmap, 0);
    if first_clear(bitmap, 0) >= n {
        lemma_none_clear(bitmap, n);
    }
}

/// A group that is found is one of the file system, and has something free.
proof fn lemma_found(groups: u32, d: Seq<u8>, sb: Superblock, what: Resource, init: u32, i: int)
    requires
        init < groups,
        0 <= group_count(sb) <= groups,
        i == 0 || 0 < i <= group_count(sb),
    ensures
        find_from(d, sb, what, init, i) matches Ok((g, group)) ==> {
            &&& g < groups
            &&& group_at(d, sb, g) == Ok::<BlockGroupDescTable, Errno>(group)
            &&& what.left_in(group) != 0
        },
    decreases group_count(sb) - i,
{
    let n = group_count(sb);
    if i > 0 {
        assert(0 <= (init + i) % n < n) by (nonlinear_arith)
            requires
                n > 0,
        ;
    }
    if i < n {
        lemma_found(groups, d, sb, what, init, i + 1);
    }
}

/// `d2` and `sb2` are what `d` and `sb` become where bit `n` of group `g` is
/// taken: the bit was clear and is set, one less is free, and all else is as it
/// was.
pub open spec fn one_taken(
    zone: spec_fn(int) -> Zone,
    groups: u32,
    d: Seq<u8>,
    sb: Superblock,
    what: Resource,
    g: u32,
    n: int,
    d2: Seq<u8>,
    sb2: Superblock,
) -> bool {
    let group = group_at(d, sb, g)->Ok_0;
    let bitmap = block_at(d, sb, what.bitmap_of(group))->Some_0;
    &&& g < groups
    &&& 0 <= n < what.per_group(sb)
    &&& !bit_is_set(bitmap, n)
    &&& what.left(sb) > 0
    &&& what.left_in(group) > 0
    &&& sb2 == what.one_less(sb)
    &&& d2.len() == d.len()
    &&& fetch(d2, SUPERBLOCK_ADDR as int, 264) == Some(sb2.encode())
    &&& forall|h: u32|
        h < groups ==> #[trigger] group_at(d2, sb, h) == if h == g {
            Ok(what.one_less_in(group))
        } else {
            group_at(d, sb, h)
        }
    &&& forall|b: u32|
        lies_in(zone, d, Zone::Bitmaps, sb.block_addr(b), sb.block_len())
            ==> #[trigger] block_at(d2, sb, b) == if b == what.bitmap_of(group) {
            Some(with_bit(bitmap, n))
        } else {
            block_at(d, sb, b)
        }
    &&& forall|i: int|
        0 <= i < d.len() && (zone(i) == Zone::Inodes || zone(i) == Zone::Data) ==> #[trigger] d2[i]
            == d[i]
}

/// Descriptors of different groups are apart.
proof fn lemma_groups_apart(sb: Superblock, g: u32, h: u32)
    requires
        g != h,
    ensures
        apart(sb.group_addr(g), 32, sb.group_addr(h), 32),
{
}

/// Allocation takes the first free bit of the first group with something free
/// and nothing else, or fails and changes nothing.
pub proof fn law_allocation_takes_one(
    zone: spec_fn(int) -> Zone,
    groups: u32,
    d: Seq<u8>,
    sb: Superblock,
    what: Resource,
    ino: u64,
)
    requires
        well_formed(zone, groups, d, sb),
        has_inode(groups, sb, ino),
    ensures
        ({
            let (r, d2, sb2) = allocated(d, sb, what, ino);
            match find_from(d, sb, what, sb.group_of(ino), 0) {
                Ok((g, group)) if what.left(sb) != 0 => {
                    let n = first_clear(block_at(d, sb, what.bitmap_of(group))->Some_0, 0);
                    &&& r == what.number(sb, g, n)
                    &&& one_taken(zone, groups, d, sb, what, g, n, d2, sb2)
                },
                Ok(_) => r == Err::<u32, Errno>(Errno::ENOSPC) && d2 == d && sb2 == sb,
                Err(e) => r is Err && d2 == d && sb2 == sb,
            }
        }),
{
    reveal(allocated);
    lemma_inode_place(groups, sb, ino);
    lemma_block_len(sb);
    let init = sb.group_of(ino);
    assert(group_count(sb) >= 0) by (nonlinear_arith)
        requires
            group_count(sb) == sb.blocks_count as int / sb.blocks_per_group as int,
            sb.blocks_per_group > 0,
    ;
    lemma_found(groups, d, sb, what, init, 0);
    if what.left(sb) != 0 && find_from(d, sb, what, init, 0) is Ok {
        let (g, group) = find_from(d, sb, what, init, 0)->Ok_0;
        assert(group_well_formed(zone, d, sb, g));
        let b = what.bitmap_of(group);
        let bitmap = block_at(d, sb, b)->Some_0;
        lemma_first_clear_below(bitmap, what.per_group(sb) as int);
        let n = first_clear(bitmap, 0);
        lemma_with_bit(bitmap, n);
        let bits = with_bit(bitmap, n);
        let group2 = what.one_less_in(group);
        let sb2 = what.one_less(sb);
        group2.encoding_has_size();
        sb2.encoding_has_size();
        let b_at = sb.block_addr(b);
        let g_at = sb.group_addr(g);
        let s_at = SUPERBLOCK_ADDR as int;
        lemma_written(d, b_at, bits, 0, 0);
        let d1 = written(d, b_at, bits)->Ok_0;
        lemma_written(d1, g_at, group2.encode(), 0, 0);
        let d2 = written(d1, g_at, group2.encode())->Ok_0;
        lemma_written(d2, s_at, sb2.encode(), 0, 0);
        let d3 = written(d2, s_at, sb2.encode())->Ok_0;
        assert(allocated(d, sb, what, ino) == (what.number(sb, g, n), d3, sb2));
        assert forall|h: u32| h < groups implies #[trigger] group_at(d3, sb, h) == if h == g {
            Ok(group2)
        } else {
            group_at(d, sb, h)
        } by {
            assert(group_well_formed(zone, d, sb, h));
            let h_at = sb.group_addr(h);
            lemma_zones_apart(zone, d, Zone::Bitmaps, b_at, sb.block_len(), Zone::Groups, h_at, 32);
            lemma_zones_apart(zone, d, Zone::Super, s_at, 264, Zone::Groups, h_at, 32);
            lemma_written(d, b_at, bits, h_at, 32);
            lemma_written(d2, s_at, sb2.encode(), h_at, 32);
            if h != g {
                lemma_groups_apart(sb, g, h);
                lemma_written(d1, g_at, group2.encode(), h_at, 32);
            } else {
                lemma_decode(group2);
            }
        }
        assert forall|c: u32|
            lies_in(
                zone,
                d,
                Zone::Bitmaps,
                sb.block_addr(c),
                sb.block_len(),
            ) implies #[trigger] block_at(d3, sb, c) == if c == b {
            Some(bits)
        } else {
            block_at(d, sb, c)
        } by {
            let c_at = sb.block_addr(c);
            let len = sb.block_len();
            lemma_zones_apart(zone, d, Zone::Groups, g_at, 32, Zone::Bitmaps, c_at, len);
            lemma_zones_apart(zone, d, Zone::Super, s_at, 264, Zone::Bitmaps, c_at, len);
            lemma_written(d1, g_at, group2.encode(), c_at, len);
            lemma_written(d2, s_at, sb2.encode(), c_at, len);
            if c != b {
                lemma_blocks_apart(sb, b, c);
                lemma_written(d, b_at, bits, c_at, len);
            }
        }
        assert forall|i: int|
            0 <= i < d.len() && (zone(i) == Zone::Inodes || zone(i)
                == Zone::Data) implies #[trigger] d3[i] == d[i] by {
            assert(!(b_at <= i < b_at + sb.block_len()));
            assert(!(g_at <= i < g_at + 32));
            assert(!(s_at <= i < s_at + 264));
        }
    }
}

/// Taking one keeps a file system well-formed.
pub(crate) proof fn lemma_one_taken(
    zone: spec_fn(int) -> Zone,
    groups: u32,
    d: Seq<u8>,
    sb: Superblock,
    what: Resource,
    g: u32,
    n: int,
    d2: Seq<u8>,
    sb2: Superblock,
)
    requires
        well_formed(zone, groups, d, sb),
        one_taken(zone, groups, d, sb, what, g, n, d2, sb2),
    ensures
        well_formed(zone, groups, d2, sb2),
{
    lemma_block_len(sb);
    assert(group_well_formed(zone, d, sb, g));
    let group = group_at(d, sb, g)->Ok_0;
    let bitmap = block_at(d, sb, what.bitmap_of(group))->Some_0;
    assert forall|h: u32| h < groups implies #[trigger] group_well_formed(zone, d2, sb2, h) by {
        assert(group_well_formed(zone, d, sb, h));
        let other = group_at(d, sb, h)->Ok_0;
        assert(group_at(d2, sb2, h) == group_at(d2, sb, h));
        assert(block_at(d2, sb2, other.block_bitmap) == block_at(d2, sb, other.block_bitmap));
        assert(block_at(d2, sb2, other.inode_bitmap) == block_at(d2, sb, other.inode_bitmap));
        if h == g {
            lemma_clear_below(bitmap, n, what.per_group(sb) as int);
        } else {
            assert(groups_apart(d, sb, g, h));
        }
    }
    assert forall|h: u32, k: u32|
        h < groups && k < groups && h != k implies #[trigger] groups_apart(d2, sb2, h, k) by {
        assert(groups_apart(d, sb, h, k));
        assert(group_at(d2, sb2, h) == group_at(d2, sb, h));
        assert(group_at(d2, sb2, k) == group_at(d2, sb, k));
    }
}

/// Allocation keeps a file system well-formed, whatever it returns.
pub proof fn law_allocation_keeps_well_formed(
    zone: spec_fn(int) -> Zone,
    groups: u32,
    d: Seq<u8>,
    sb: Superblock,
    what: Resource,
    ino: u64,
)
    requires
        well_formed(zone, groups, d, sb),
        has_inode(groups, sb, ino),
    ensures
        ({
            let (_, d2, sb2) = allocated(d, sb, what, ino);
            well_formed(zone, groups, d2, sb2)
        }),
{
    law_allocation_takes_one(zone, groups, d, sb, what, ino);
    let (r, d2, sb2) = allocated(d, sb, what, ino);
    match find_from(d, sb, what, sb.group_of(ino), 0) {
        Ok((g, group)) => {
            if what.left(sb) != 0 {
                let n = first_clear(block_at(d, sb, what.bitmap_of(group))->Some_0, 0);
                lemma_one_taken(zone, groups, d, sb, what, g, n, d2, sb2);
            }
        },
        Err(_) => {},
    }
}

/// Where bit `i` of a bitmap is looked up by itself, it is set as it is in the
/// whole bitmap.
proof fn lemma_bitmap_bit(d: Seq<u8>, sb: Superblock, b: u32, i: int)
    requires
        block_at(d, sb, b) is Some,
        0 <= i < 8 * sb.block_len(),
        sb.log_block_size <= 21,
    ensures
        bitmap_bit(d, sb, b, i) is Ok,
        bitmap_bit(d, sb, b, i)->Ok_0 != 0 <==> bit_is_set(block_at(d, sb, b)->Some_0, i),
{
    lemma_block_len(sb);
    let at = sb.block_addr(b) + i / 8;
    assert(d.subrange(at, at + 1)[0] == block_at(d, sb, b)->Some_0[i / 8]);
}

/// Allocation leaves every inode that was in use as it was.
proof fn lemma_one_taken_leaves_inodes(
    zone: spec_fn(int) -> Zone,
    groups: u32,
    d: Seq<u8>,
    sb: Superblock,
    what: Resource,
    g: u32,
    n: int,
    d2: Seq<u8>,
    sb2: Superblock,
    x: u64,
)
    requires
        well_formed(zone, groups, d, sb),
        one_taken(zone, groups, d, sb, what, g, n, d2, sb2),
        has_inode(groups, sb, x),
        inode_at(d, sb, x) is Ok,
    ensures
        inode_at(d2, sb2, x) == inode_at(d, sb, x),
{
    lemma_block_len(sb);
    lemma_inode_slot(zone, groups, d, sb, x, x);
    lemma_inode_place(groups, sb, x);
    assert(group_well_formed(zone, d, sb, g));
    let taken = group_at(d, sb, g)->Ok_0;
    let bitmap = block_at(d, sb, what.bitmap_of(taken))->Some_0;
    let h = sb.group_of(x);
    let group = group_at(d, sb, h)->Ok_0;
    let b = group.inode_bitmap;
    let i = sb.index_of(x);
    assert(group_at(d2, sb2, h) == group_at(d2, sb, h));
    assert(block_at(d2, sb2, b) == block_at(d2, sb, b));
    lemma_with_bit(bitmap, n);
    lemma_bitmap_bit(d, sb, b, i);
    lemma_bitmap_bit(d2, sb2, b, i);
    let at = inode_addr(sb, group, x);
    assert(d2.subrange(at, at + 128) =~= d.subrange(at, at + 128)) by {
        assert forall|j: int| at <= j < at + 128 implies d2[j] == d[j] by {
            assert(zone(j) == Zone::Inodes);
        }
    }
}

/// Allocation leaves every inode that was in use as it was.
pub proof fn law_allocation_leaves_inodes(
    zone: spec_fn(int) -> Zone,
    groups: u32,
    d: Seq<u8>,
    sb: Superblock,
    what: Resource,
    ino: u64,
    x: u64,
)
    requires
        well_formed(zone, groups, d, sb),
        has_inode(groups, sb, ino),
        has_inode(groups, sb, x),
        inode_at(d, sb, x) is Ok,
    ensures
        ({
            let (_, d2, sb2) = allocated(d, sb, what, ino);
            inode_at(d2, sb2, x) == inode_at(d, sb, x)
        }),
{
    law_allocation_takes_one(zone, groups, d, sb, what, ino);
    let (r, d2, sb2) = allocated(d, sb, what, ino);
    match find_from(d, sb, what, sb.group_of(ino), 0) {
        Ok((g, group)) => {
            if what.left(sb) != 0 {
                let n = first_clear(block_at(d, sb, what.bitmap_of(group))->Some_0, 0);
                lemma_one_taken_leaves_inodes(zone, groups, d, sb, what, g, n, d2, sb2, x);
            }
        },
        Err(_) => {},
    }
}

/// Bit `n` of group `g` is set.
pub open spec fn in_use(d: Seq<u8>, sb: Superblock, what: Resource, g: u32, n: int) -> bool {
    match group_at(d, sb, g) {
        Ok(group) => match block_at(d, sb, what.bitmap_of(group)) {
            Some(bitmap) => bit_is_set(bitmap, n),
            None => false,
        },
        Err(_) => false,
    }
}

/// The bit that is taken comes into use.
proof fn lemma_taken_is_in_use(
    zone: spec_fn(int) -> Zone,
    groups: u32,
    d: Seq<u8>,
    sb: Superblock,
    what: Resource,
    g: u32,
    n: int,
    d2: Seq<u8>,
    sb2: Superblock,
)
    requires
        well_formed(zone, groups, d, sb),
        one_taken(zone, groups, d, sb, what, g, n, d2, sb2),
    ensures
        !in_use(d, sb, what, g, n),
        in_use(d2, sb2, what, g, n),
{
    lemma_block_len(sb);
    assert(group_well_formed(zone, d, sb, g));
    let group = group_at(d, sb, g)->Ok_0;
    let b = what.bitmap_of(group);
    assert(group_at(d2, sb2, g) == group_at(d2, sb, g));
    assert(block_at(d2, sb2, b) == block_at(d2, sb, b));
    lemma_with_bit(block_at(d, sb, b)->Some_0, n);
}

/// What is in use stays in use when one is taken.
pub(crate) proof fn lemma_in_use_stays(
    zone: spec_fn(int) -> Zone,
    groups: u32,
    d: Seq<u8>,
    sb: Superblock,
    what: Resource,
    g: u32,
    n: int,
    d2: Seq<u8>,
    sb2: Superblock,
    h: u32,
    m: int,
)
    requires
        well_formed(zone, groups, d, sb),
        one_taken(zone, groups, d, sb, what, g, n, d2, sb2),
        h < groups,
        0 <= m < what.per_group(sb),
    ensures
        in_use(d2, sb2, what, h, m) == (in_use(d, sb, what, h, m) || (h == g && m == n)),
{
    lemma_block_len(sb);
    assert(group_well_formed(zone, d, sb, g));
    assert(group_well_formed(zone, d, sb, h));
    let group = group_at(d, sb, g)->Ok_0;
    let other = group_at(d, sb, h)->Ok_0;
    let b = what.bitmap_of(other);
    assert(group_at(d2, sb2, h) == group_at(d2, sb, h));
    assert(block_at(d2, sb2, b) == block_at(d2, sb, b));
    lemma_with_bit(block_at(d, sb, what.bitmap_of(group))->Some_0, n);
    if h != g {
        assert(groups_apart(d, sb, g, h));
    }
}

/// What is in use is the same where descriptors and bitmaps are the same.
pub(crate) proof fn lemma_in_use_same(
    zone: spec_fn(int) -> Zone,
    groups: u32,
    d: Seq<u8>,
    sb: Superblock,
    d2: Seq<u8>,
    what: Resource,
    h: u32,
    m: int,
)
    requires
        well_formed(zone, groups, d, sb),
        agree_in(zone, Zone::Groups, d, d2),
        agree_in(zone, Zone::Bitmaps, d, d2),
        h < groups,
    ensures
        in_use(d2, sb, what, h, m) == in_use(d, sb, what, h, m),
{
    lemma_block_len(sb);
    assert(group_well_formed(zone, d, sb, h));
    let group = group_at(d, sb, h)->Ok_0;
    let at = sb.block_addr(what.bitmap_of(group));
    lemma_same_in_zone(zone, Zone::Groups, d, d2, sb.group_addr(h), 32);
    lemma_same_in_zone(zone, Zone::Bitmaps, d, d2, at, sb.block_len());
}

/// Which bit an allocation took.
pub(crate) proof fn lemma_allocated(
    zone: spec_fn(int) -> Zone,
    groups: u32,
    d: Seq<u8>,
    sb: Superblock,
    what: Resource,
    ino: u64,
) -> (taken: (u32, int))
    requires
        well_formed(zone, groups, d, sb),
        has_inode(groups, sb, ino),
        allocated(d, sb, what, ino).0 is Ok,
    ensures
        ({
            let (r, d2, sb2) = allocated(d, sb, what, ino);
            let (g, n) = taken;
            &&& one_taken(zone, groups, d, sb, what, g, n, d2, sb2)
            &&& r->Ok_0 == g * what.per_group(sb) + n + 1
            &&& !in_use(d, sb, what, g, n)
            &&& in_use(d2, sb2, what, g, n)
        }),
{
    law_allocation_takes_one(zone, groups, d, sb, what, ino);
    let (r, d2, sb2) = allocated(d, sb, what, ino);
    let (g, group) = find_from(d, sb, what, sb.group_of(ino), 0)->Ok_0;
    let n = first_clear(block_at(d, sb, what.bitmap_of(group))->Some_0, 0);
    lemma_taken_is_in_use(zone, groups, d, sb, what, g, n, d2, sb2);
    (g, n)
}

/// An inode is there exactly if its bit is in use.
proof fn lemma_inode_in_use(
    zone: spec_fn(int) -> Zone,
    groups: u32,
    d: Seq<u8>,
    sb: Superblock,
    ino: u64,
)
    requires
        well_formed(zone, groups, d, sb),
        has_inode(groups, sb, ino),
    ensures
        if in_use(d, sb, Resource::Inode, sb.group_of(ino), sb.index_of(ino)) {
            inode_at(d, sb, ino) is Ok
        } else {
            inode_at(d, sb, ino) == Err::<Inode, Errno>(Errno::ENOENT)
        },
{
    lemma_block_len(sb);
    lemma_inode_slot(zone, groups, d, sb, ino, ino);
    lemma_inode_place(groups, sb, ino);
    let group = group_at(d, sb, sb.group_of(ino))->Ok_0;
    lemma_bitmap_bit(d, sb, group.inode_bitmap, sb.index_of(ino));
}

/// The number of an inode tells its group and its place.
proof fn lemma_inode_number(groups: u32, sb: Superblock, g: u32, i: int, ino: u64)
    requires
        g < groups,
        0 <= i < sb.inodes_per_group,
        ino == g * sb.inodes_per_group + i + 1,
    ensures
        has_inode(groups, sb, ino),
        sb.group_of(ino) == g,
        sb.index_of(ino) == i,
{
    let p = sb.inodes_per_group as int;
    assert(g * p >= 0) by (nonlinear_arith)
        requires
            p > 0,
    ;
    lemma_fundamental_div_mod_converse(ino - 1, p, g as int, i);
}

/// An inode that is allocated was not in use, and is then.
pub proof fn law_allocated_inode_was_free(
    zone: spec_fn(int) -> Zone,
    groups: u32,
    d: Seq<u8>,
    sb: Superblock,
    ino: u64,
)
    requires
        well_formed(zone, groups, d, sb),
        has_inode(groups, sb, ino),
    ensures
        ({
            let (r, d2, sb2) = allocated(d, sb, Resource::Inode, ino);
            r matches Ok(n) ==> {
                &&& has_inode(groups, sb, n as u64)
                &&& inode_at(d, sb, n as u64) == Err::<Inode, Errno>(Errno::ENOENT)
                &&& inode_at(d2, sb2, n as u64) is Ok
            }
        }),
{
    let (r, d2, sb2) = allocated(d, sb, Resource::Inode, ino);
    if r is Ok {
        let (g, i) = lemma_allocated(zone, groups, d, sb, Resource::Inode, ino);
        let n = r->Ok_0 as u64;
        lemma_inode_number(groups, sb, g, i, n);
        law_allocation_keeps_well_formed(zone, groups, d, sb, Resource::Inode, ino);
        lemma_inode_in_use(zone, groups, d, sb, n);
        lemma_inode_in_use(zone, groups, d2, sb2, n);
    }
}

/// Writing to the data of files keeps a file system well-formed, and leaves
/// every inode as it was.
pub proof fn law_writing_data_keeps_well_formed(
    zone: spec_fn(int) -> Zone,
    groups: u32,
    d: Seq<u8>,
    sb: Superblock,
    addr: int,
    data: Seq<u8>,
)
    requires
        well_formed(zone, groups, d, sb),
        lies_in(zone, d, Zone::Data, addr, data.len() as int),
    ensures
        written(d, addr, data) matches Ok(d2) && {
            &&& well_formed(zone, groups, d2, sb)
            &&& forall|x: u64|
                has_inode(groups, sb, x) ==> #[trigger] inode_at(d2, sb, x) == inode_at(d, sb, x)
        },
{
    lemma_write_in_zone(zone, d, Zone::Data, addr, data);
    let d2 = written(d, addr, data)->Ok_0;
    assert(agree_in(zone, Zone::Groups, d, d2));
    assert(agree_in(zone, Zone::Bitmaps, d, d2));
    assert(agree_in(zone, Zone::Inodes, d, d2));
    lemma_stays_well_formed(zone, groups, d, sb, d2);
    assert forall|x: u64| has_inode(groups, sb, x) implies #[trigger] inode_at(d2, sb, x)
        == inode_at(d, sb, x) by {
        lemma_inode_slot(zone, groups, d, sb, x, x);
        lemma_inode_place(groups, sb, x);
        let group = group_at(d, sb, sb.group_of(x))->Ok_0;
        assert(group_at(d2, sb, sb.group_of(x)) == group_at(d, sb, sb.group_of(x)));
        let bit_at = sb.block_addr(group.inode_bitmap) + sb.index_of(x) / 8;
        lemma_same_in_zone(zone, Zone::Bitmaps, d, d2, bit_at, 1);
        lemma_same_in_zone(zone, Zone::Inodes, d, d2, inode_addr(sb, group, x), 128);
    }
}

} // verus!
