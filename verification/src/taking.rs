//! What allocating a block or an inode does to the bytes of the device.

use vstd::prelude::*;
use crate::allocation::{
    allocated, bit_is_set, bit_taken, find_from, first_clear, group_count, lemma_first_clear,
    lemma_found_is_read, lemma_with_bit, probe, with_bit, Resource,
};
use crate::device::{fetch, lemma_decode, DeviceData, Storage};
use crate::errno::Errno;
use crate::fs::{lemma_block_len, HelloFS};
use crate::group::BlockGroupDescTable;
use crate::layout::{block_at, group_at};
use crate::plain::{
    bit_on, bytes_per_block, descriptor_place, law_descriptor_is_what_its_bytes_say,
    law_superblock_is_what_its_bytes_say, le16, le32, lemma_bit, within,
};
use crate::superblock::Superblock;
use crate::wellformed::{
    group_well_formed, has_inode, law_allocation_takes_one, lemma_inode_place, one_taken,
    well_formed, Zone,
};

verus! {

/// Where the bitmap of group `g` begins.
pub open spec fn bitmap_place(d: Seq<u8>, sb: Superblock, what: Resource, g: int) -> int {
    le32(
        d,
        descriptor_place(sb, g) + match what {
            Resource::Block => 0int,
            Resource::Inode => 4int,
        },
    ) * bytes_per_block(sb)
}

/// How many are free in group `g`, as its descriptor says.
pub open spec fn free_in(d: Seq<u8>, sb: Superblock, what: Resource, g: int) -> int {
    le16(
        d,
        descriptor_place(sb, g) + match what {
            Resource::Block => 12int,
            Resource::Inode => 14int,
        },
    )
}

/// How many a group has in all.
pub open spec fn share(sb: Superblock, what: Resource) -> int {
    match what {
        Resource::Block => sb.blocks_per_group as int,
        Resource::Inode => sb.inodes_per_group as int,
    }
}

/// A bit of a bitmap is set exactly if the byte of the device says so.
proof fn lemma_same_bit(d: Seq<u8>, sb: Superblock, b: u32, n: int)
    requires
        sb.addressable(),
        block_at(d, sb, b) is Some,
        0 <= n < 8 * bytes_per_block(sb),
    ensures
        bit_is_set(block_at(d, sb, b)->Some_0, n) == bit_on(d, b * bytes_per_block(sb), n),
{
    lemma_block_len(sb);
    let bitmap = block_at(d, sb, b)->Some_0;
    let at = b * bytes_per_block(sb);
    assert(at == sb.block_addr(b));
    assert(bitmap[n / 8] == d[at + n / 8]);
    lemma_bit(bitmap[n / 8], n % 8);
}

/// The group that is tried at step `i`, when `init` is tried first; behind the
/// last whole group comes the first one.
pub open spec fn turn_of(sb: Superblock, init: int, i: int) -> int {
    if i == 0 {
        init
    } else {
        (init + i) % (sb.blocks_count as int / sb.blocks_per_group as int)
    }
}

/// The search for a group finds the first with something free, in the order in
/// which the groups are tried, and passes over the ones that are full. `steps`
/// is how many were passed over.
pub proof fn law_search_finds_the_first_with_something_free(
    d: Seq<u8>,
    sb: Superblock,
    what: Resource,
    init: u32,
) -> (steps: int)
    requires
        sb.allocatable(),
        sb.blocks_count >= sb.blocks_per_group,
    ensures
        find_from(d, sb, what, init, 0) matches Ok((g, group)) ==> {
            &&& 0 <= steps
            &&& g == turn_of(sb, init as int, steps)
            &&& group_at(d, sb, g) == Ok::<BlockGroupDescTable, Errno>(group)
            &&& free_in(d, sb, what, g as int) > 0
            &&& forall|i: int|
                0 <= i < steps ==> free_in(
                    d,
                    sb,
                    what,
                    #[trigger] turn_of(sb, init as int, i),
                ) == 0
        },
{
    let steps = lemma_steps(d, sb, what, init, 0);
    lemma_found_is_read(d, sb, what, init, 0);
    if find_from(d, sb, what, init, 0) is Ok {
        let (g, group) = find_from(d, sb, what, init, 0)->Ok_0;
        lemma_turns(sb, init, steps);
        law_descriptor_is_what_its_bytes_say(d, sb, g);
        assert forall|i: int| 0 <= i < steps implies free_in(
            d,
            sb,
            what,
            #[trigger] turn_of(sb, init as int, i),
        ) == 0 by {
            lemma_turns(sb, init, i);
            let h = probe(sb, init, i);
            assert(group_at(d, sb, h) is Ok);
            law_descriptor_is_what_its_bytes_say(d, sb, h);
        }
    }
    steps
}

/// The groups are tried in turn.
proof fn lemma_turns(sb: Superblock, init: u32, i: int)
    requires
        sb.blocks_per_group > 0,
        sb.blocks_count >= sb.blocks_per_group,
        0 <= i,
    ensures
        probe(sb, init, i) == turn_of(sb, init as int, i),
{
    let n = group_count(sb);
    let x = init + i;
    assert(1 <= n <= u32::MAX && 0 <= x % n < n) by (nonlinear_arith)
        requires
            n == sb.blocks_count as int / sb.blocks_per_group as int,
            sb.blocks_per_group > 0,
            sb.blocks_count >= sb.blocks_per_group,
            sb.blocks_count <= u32::MAX,
    ;
}

/// How far behind the first group the one stands that is found.
proof fn lemma_steps(d: Seq<u8>, sb: Superblock, what: Resource, init: u32, i: int) -> (s: int)
    requires
        sb.readable(),
        0 <= i,
    ensures
        find_from(d, sb, what, init, i) matches Ok((g, group)) ==> {
            &&& i <= s
            &&& g == probe(sb, init, s)
            &&& what.left_in(group) != 0
            &&& forall|j: int|
                i <= j < s ==> group_at(d, sb, #[trigger] probe(sb, init, j)) is Ok && what.left_in(
                    group_at(d, sb, probe(sb, init, j))->Ok_0,
                ) == 0
        },
    decreases group_count(sb) - i,
{
    let g = probe(sb, init, i);
    match group_at(d, sb, g) {
        Ok(group) => if what.left_in(group) != 0 || i >= group_count(sb) {
            i
        } else {
            lemma_steps(d, sb, what, init, i + 1)
        },
        Err(_) => i,
    }
}

/// Bit `k` was the lowest that was clear in the bitmap at `at`; it is set then,
/// and the others are as they were.
pub open spec fn lowest_taken(d: Seq<u8>, d2: Seq<u8>, sb: Superblock, at: int, k: int) -> bool {
    &&& !bit_on(d, at, k)
    &&& bit_on(d2, at, k)
    &&& forall|j: int| 0 <= j < k ==> #[trigger] bit_on(d, at, j)
    &&& forall|j: int|
        0 <= j < 8 * bytes_per_block(sb) && j != k ==> #[trigger] bit_on(d2, at, j) == bit_on(
            d,
            at,
            j,
        )
}

/// One less is free, in group `g` and in the file system.
pub open spec fn counted_down(
    d: Seq<u8>,
    d2: Seq<u8>,
    sb: Superblock,
    sb2: Superblock,
    groups: u32,
    what: Resource,
    g: int,
) -> bool {
    &&& free_in(d, sb, what, g) > 0
    &&& free_in(d2, sb, what, g) == free_in(d, sb, what, g) - 1
    &&& bitmap_place(d2, sb, what, g) == bitmap_place(d, sb, what, g)
    &&& match what {
        Resource::Block => {
            &&& free_in(d2, sb, Resource::Inode, g) == free_in(d, sb, Resource::Inode, g)
            &&& sb.free_blocks_count > 0
            &&& sb2.free_blocks_count == sb.free_blocks_count - 1
            &&& sb2.free_inodes_count == sb.free_inodes_count
        },
        Resource::Inode => {
            &&& free_in(d2, sb, Resource::Block, g) == free_in(d, sb, Resource::Block, g)
            &&& sb.free_inodes_count > 0
            &&& sb2.free_inodes_count == sb.free_inodes_count - 1
            &&& sb2.free_blocks_count == sb.free_blocks_count
        },
    }
    &&& le32(d2, 1036) == sb2.free_blocks_count
    &&& le32(d2, 1040) == sb2.free_inodes_count
    &&& forall|h: int|
        0 <= h < groups && h != g ==> #[trigger] free_in(d2, sb, what, h) == free_in(d, sb, what, h)
}

/// The lowest bit is taken.
proof fn lemma_lowest_taken(
    zone: spec_fn(int) -> Zone,
    groups: u32,
    d: Seq<u8>,
    sb: Superblock,
    what: Resource,
    g: u32,
    k: int,
    d2: Seq<u8>,
    sb2: Superblock,
)
    requires
        well_formed(zone, groups, d, sb),
        one_taken(zone, groups, d, sb, what, g, k, d2, sb2),
        k == first_clear(
            block_at(d, sb, what.bitmap_of(group_at(d, sb, g)->Ok_0))->Some_0,
            0,
        ),
    ensures
        lowest_taken(d, d2, sb, bitmap_place(d, sb, what, g as int), k),
{
    lemma_block_len(sb);
    assert(group_well_formed(zone, d, sb, g));
    let b = what.bitmap_of(group_at(d, sb, g)->Ok_0);
    let bitmap = block_at(d, sb, b)->Some_0;
    let at = b * bytes_per_block(sb);
    assert(at == bitmap_place(d, sb, what, g as int)) by {
        law_descriptor_is_what_its_bytes_say(d, sb, g);
    }
    assert(block_at(d2, sb, b) == Some(with_bit(bitmap, k)));
    lemma_first_clear(bitmap, 0);
    lemma_with_bit(bitmap, k);
    assert forall|j: int| 0 <= j < 8 * bytes_per_block(sb) implies #[trigger] bit_on(d, at, j)
        == bit_is_set(bitmap, j) by {
        lemma_same_bit(d, sb, b, j);
    }
    assert forall|j: int| 0 <= j < 8 * bytes_per_block(sb) implies #[trigger] bit_on(d2, at, j)
        == bit_is_set(with_bit(bitmap, k), j) by {
        lemma_same_bit(d2, sb, b, j);
    }
}

/// The counts go down.
proof fn lemma_counted_down(
    zone: spec_fn(int) -> Zone,
    groups: u32,
    d: Seq<u8>,
    sb: Superblock,
    what: Resource,
    g: u32,
    k: int,
    d2: Seq<u8>,
    sb2: Superblock,
)
    requires
        well_formed(zone, groups, d, sb),
        one_taken(zone, groups, d, sb, what, g, k, d2, sb2),
    ensures
        counted_down(d, d2, sb, sb2, groups, what, g as int),
{
    assert(group_well_formed(zone, d, sb, g));
    let group = group_at(d, sb, g)->Ok_0;
    assert(group_at(d2, sb, g) == Ok::<BlockGroupDescTable, Errno>(what.one_less_in(group)));
    law_descriptor_is_what_its_bytes_say(d, sb, g);
    law_descriptor_is_what_its_bytes_say(d2, sb, g);
    assert forall|h: int| 0 <= h < groups && h != g implies #[trigger] free_in(d2, sb, what, h)
        == free_in(d, sb, what, h) by {
        assert(group_well_formed(zone, d, sb, h as u32));
        law_descriptor_is_what_its_bytes_say(d, sb, h as u32);
        law_descriptor_is_what_its_bytes_say(d2, sb, h as u32);
        assert(group_at(d2, sb, h as u32) == group_at(d, sb, h as u32));
    }
    lemma_superblock_counts(d2, sb2);
}

/// An allocation takes the lowest bit that is clear in the bitmap of the first
/// group with something free, from the group of the inode on that it is to be
/// close to, and sets that bit and no other. The number of what was allocated is
/// that of the bit, counted from 1 over all groups. One less is free then, in
/// the group and in the file system, and inodes and data are as they were. `w.0`
/// is how many groups were passed over, and `w.1` the bit.
pub proof fn law_allocation_takes_the_lowest_bit(
    zone: spec_fn(int) -> Zone,
    groups: u32,
    d: Seq<u8>,
    sb: Superblock,
    what: Resource,
    ino: u64,
) -> (w: (int, int))
    requires
        well_formed(zone, groups, d, sb),
        has_inode(groups, sb, ino),
        sb.blocks_count >= sb.blocks_per_group,
        allocated(d, sb, what, ino).0 is Ok,
    ensures
        ({
            let (r, d2, sb2) = allocated(d, sb, what, ino);
            let home = (ino - 1) / (sb.inodes_per_group as int);
            let g = turn_of(sb, home, w.0);
            &&& 0 <= w.0
            &&& 0 <= g < groups
            &&& forall|i: int|
                0 <= i < w.0 ==> free_in(d, sb, what, #[trigger] turn_of(sb, home, i)) == 0
            &&& 0 <= w.1 < share(sb, what)
            &&& r->Ok_0 == g * share(sb, what) + w.1 + 1
            &&& d2.len() == d.len()
            &&& lowest_taken(d, d2, sb, bitmap_place(d, sb, what, g), w.1)
            &&& counted_down(d, d2, sb, sb2, groups, what, g)
            &&& forall|i: int|
                0 <= i < d.len() && (zone(i) == Zone::Inodes || zone(i) == Zone::Data)
                    ==> #[trigger] d2[i] == d[i]
        }),
{
    let (r, d2, sb2) = allocated(d, sb, what, ino);
    law_allocation_takes_one(zone, groups, d, sb, what, ino);
    let (g, group) = find_from(d, sb, what, sb.group_of(ino), 0)->Ok_0;
    lemma_inode_place(groups, sb, ino);
    let steps = law_search_finds_the_first_with_something_free(d, sb, what, sb.group_of(ino));
    lemma_found_is_read(d, sb, what, sb.group_of(ino), 0);
    let k = first_clear(block_at(d, sb, what.bitmap_of(group))->Some_0, 0);
    lemma_lowest_taken(zone, groups, d, sb, what, g, k, d2, sb2);
    lemma_counted_down(zone, groups, d, sb, what, g, k, d2, sb2);
    (steps, k)
}

/// What `alloc_inode` does: it takes an inode.
pub proof fn law_alloc_inode_takes_the_lowest_bit<S: Storage>(
    zone: spec_fn(int) -> Zone,
    groups: u32,
    before: HelloFS<S>,
    after: HelloFS<S>,
    ino: u64,
    r: Result<u32, Errno>,
    d: Seq<u8>,
    c0: Seq<u8>,
    c: Seq<u8>,
) -> (w: (int, int))
    requires
        exists|fs: &mut HelloFS<S>|
            *fs == before && *final(fs) == after && #[trigger] call_ensures(
                HelloFS::<S>::alloc_inode,
                (fs, ino),
                r,
            ),
        before.device.now(d) == Some(c0),
        after.device.now(d) == Some(c),
        well_formed(zone, groups, c0, before.superblock),
        has_inode(groups, before.superblock, ino),
        before.superblock.blocks_count >= before.superblock.blocks_per_group,
    ensures
        r matches Ok(number) ==> {
            let sb = before.superblock;
            let g = turn_of(sb, (ino - 1) / (sb.inodes_per_group as int), w.0);
            &&& number == g * share(sb, Resource::Inode) + w.1 + 1
            &&& 0 <= w.1 < share(sb, Resource::Inode)
            &&& lowest_taken(c0, c, sb, bitmap_place(c0, sb, Resource::Inode, g), w.1)
            &&& counted_down(c0, c, sb, after.superblock, groups, Resource::Inode, g)
        },
{
    if r is Ok {
        law_allocation_takes_the_lowest_bit(
            zone,
            groups,
            c0,
            before.superblock,
            Resource::Inode,
            ino,
        )
    } else {
        (0, 0)
    }
}

/// What `alloc_block` does: it takes a block.
pub proof fn law_alloc_block_takes_the_lowest_bit<S: Storage>(
    zone: spec_fn(int) -> Zone,
    groups: u32,
    before: HelloFS<S>,
    after: HelloFS<S>,
    ino: u64,
    r: Result<u32, Errno>,
    d: Seq<u8>,
    c0: Seq<u8>,
    c: Seq<u8>,
) -> (w: (int, int))
    requires
        exists|fs: &mut HelloFS<S>|
            *fs == before && *final(fs) == after && #[trigger] call_ensures(
                HelloFS::<S>::alloc_block,
                (fs, ino),
                r,
            ),
        before.device.now(d) == Some(c0),
        after.device.now(d) == Some(c),
        well_formed(zone, groups, c0, before.superblock),
        has_inode(groups, before.superblock, ino),
        before.superblock.blocks_count >= before.superblock.blocks_per_group,
    ensures
        r matches Ok(number) ==> {
            let sb = before.superblock;
            let g = turn_of(sb, (ino - 1) / (sb.inodes_per_group as int), w.0);
            &&& number == g * share(sb, Resource::Block) + w.1 + 1
            &&& 0 <= w.1 < share(sb, Resource::Block)
            &&& lowest_taken(c0, c, sb, bitmap_place(c0, sb, Resource::Block, g), w.1)
            &&& counted_down(c0, c, sb, after.superblock, groups, Resource::Block, g)
        },
{
    if r is Ok {
        law_allocation_takes_the_lowest_bit(
            zone,
            groups,
            c0,
            before.superblock,
            Resource::Block,
            ino,
        )
    } else {
        (0, 0)
    }
}

/// Taking a bit of the bitmap in block `b` takes the lowest that is clear, and
/// changes nothing else. Where all are set, nothing is changed.
pub proof fn law_lowest_bit_is_taken(d: Seq<u8>, sb: Superblock, b: u32)
    requires
        sb.addressable(),
    ensures
        ({
            let len = bytes_per_block(sb);
            let at = b * len;
            &&& !within(d, at, len) ==> bit_taken(d, sb, b) == Err::<(u32, Seq<u8>), Errno>(
                Errno::EIO,
            )
            &&& bit_taken(d, sb, b) matches Ok((n, d2)) ==> {
                &&& within(d, at, len)
                &&& d2.len() == d.len()
                &&& n <= 8 * len
                &&& n < 8 * len ==> lowest_taken(d, d2, sb, at, n as int) && forall|i: int|
                    0 <= i < d.len() && i != at + n as int / 8 ==> #[trigger] d2[i] == d[i]
                &&& n == 8 * len ==> d2 == d && forall|j: int|
                    0 <= j < n ==> #[trigger] bit_on(d, at, j)
            }
        }),
{
    lemma_block_len(sb);
    let len = bytes_per_block(sb);
    let at = b * len;
    assert(at == sb.block_addr(b));
    if bit_taken(d, sb, b) is Ok {
        let (n, d2) = bit_taken(d, sb, b)->Ok_0;
        let bitmap = block_at(d, sb, b)->Some_0;
        lemma_first_clear(bitmap, 0);
        assert forall|j: int| 0 <= j < 8 * len implies #[trigger] bit_on(d, at, j) == bit_is_set(
            bitmap,
            j,
        ) by {
            lemma_same_bit(d, sb, b, j);
        }
        if n < 8 * len {
            lemma_with_bit(bitmap, n as int);
            assert(block_at(d2, sb, b)->Some_0 =~= with_bit(bitmap, n as int));
            assert forall|j: int| 0 <= j < 8 * len implies #[trigger] bit_on(d2, at, j)
                == bit_is_set(with_bit(bitmap, n as int), j) by {
                lemma_same_bit(d2, sb, b, j);
            }
            assert forall|i: int|
                0 <= i < d.len() && i != at + n as int / 8 implies #[trigger] d2[i] == d[i] by {
                if at <= i < at + len {
                    assert(d2[i] == with_bit(bitmap, n as int)[i - at]);
                    assert(bitmap[i - at] == d[i]);
                }
            }
        } else {
            assert(d2 =~= d);
        }
    }
}

/// The counts of a superblock that was stored.
proof fn lemma_superblock_counts(d: Seq<u8>, sb: Superblock)
    requires
        fetch(d, 1024, 264) == Some(sb.encode()),
    ensures
        le32(d, 1036) == sb.free_blocks_count,
        le32(d, 1040) == sb.free_inodes_count,
{
    lemma_decode(sb);
    sb.encoding_has_size();
    law_superblock_is_what_its_bytes_say(d);
}

} // verus!
