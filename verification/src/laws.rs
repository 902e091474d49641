//! What holds of the operations together.

use vstd::prelude::*;
use vstd::arithmetic::div_mod::{lemma_fundamental_div_mod, lemma_fundamental_div_mod_converse};
use crate::allocation::{allocated, find_from, first_clear, group_count, probe, Resource};
use crate::bytes::overwrite;
use crate::creation::{directory_well_formed, law_created_file_is_found};
use crate::device::{decoded, fetch, lemma_decode, lemma_encode, DeviceData};
use crate::directory::{opened_or_created, Listed};
use crate::errno::Errno;
use crate::file::{file_read, filled, max, min};
use crate::filesystem::{
    are_items, attributes_at, attributes_set, changed, create_answer, is_item, looked_up, mapped,
    AttrChanges, DirItem, FileAttr, InodeMapDir,
};
use crate::fs::{lemma_block_addr, lemma_block_len};
use crate::group::BlockGroupDescTable;
use crate::indirect::{next_pointer, pointer_to};
use crate::inode::Inode;
use crate::layout::{
    block_at, group_at, inode_addr, inode_at, with_inode, with_superblock, SUPERBLOCK_ADDR,
};
use crate::superblock::Superblock;
use crate::wellformed::{
    group_well_formed, has_inode, in_use, law_allocation_keeps_well_formed,
    law_allocation_takes_one, law_stored_inode_is_loaded, law_storing_keeps_well_formed,
    law_storing_leaves_other_inodes, lemma_allocated, lemma_in_use_stays, lemma_inode_place,
    lemma_written, one_taken, well_formed, Zone,
};

verus! {

/// The two ways to map inode numbers undo each other, but for the inode of
/// ext2 that FUSE has no number for and the number of FUSE that ext2 has no
/// inode for.
pub proof fn law_mapping_is_undone(num: u64)
    ensures
        num != 1 ==> mapped(InodeMapDir::FUSE2EXT, mapped(InodeMapDir::EXT2FUSE, num)) == num,
        num != 2 ==> mapped(InodeMapDir::EXT2FUSE, mapped(InodeMapDir::FUSE2EXT, num)) == num,
{
}

/// A superblock that was stored is the one that is loaded.
pub proof fn law_stored_superblock_is_loaded(d: Seq<u8>, sb: Superblock)
    ensures
        with_superblock(d, sb) matches Ok(d2) ==> decoded::<Superblock>(
            fetch(d2, SUPERBLOCK_ADDR as int, 264),
        ) == Ok::<Superblock, Errno>(sb),
{
    sb.encoding_has_size();
    if with_superblock(d, sb) is Ok {
        lemma_written(d, SUPERBLOCK_ADDR as int, sb.encode(), 0, 0);
        lemma_decode(sb);
    }
}

/// After an allocation the superblock on the device is the one in memory.
pub proof fn law_allocation_stores_the_superblock(
    zone: spec_fn(int) -> Zone,
    groups: u32,
    d: Seq<u8>,
    sb: Superblock,
    what: Resource,
    ino: u64,
)
    requires
        well_formed(zone, groups, d, sb),
        has_inode(groups, sb, ino),
    ensures
        ({
            let (r, d2, sb2) = allocated(d, sb, what, ino);
            r is Ok ==> decoded::<Superblock>(fetch(d2, SUPERBLOCK_ADDR as int, 264)) == Ok::<
                Superblock,
                Errno,
            >(sb2)
        }),
{
    let (r, d2, sb2) = allocated(d, sb, what, ino);
    if r is Ok {
        let taken = lemma_allocated(zone, groups, d, sb, what, ino);
        lemma_decode(sb2);
    }
}

/// Storing an inode that was loaded changes nothing.
pub proof fn law_storing_what_was_loaded_changes_nothing(d: Seq<u8>, sb: Superblock, ino: u64)
    ensures
        inode_at(d, sb, ino) matches Ok(inode) ==> with_inode(d, sb, ino, inode) == Ok::<
            Seq<u8>,
            Errno,
        >(d),
{
    if inode_at(d, sb, ino) is Ok {
        let inode = inode_at(d, sb, ino)->Ok_0;
        let group = group_at(d, sb, sb.group_of(ino))->Ok_0;
        let addr = inode_addr(sb, group, ino);
        let bytes = fetch(d, addr, 128)->Some_0;
        lemma_encode::<Inode>(bytes);
        assert(overwrite(d, addr, bytes) =~= d);
    }
}

/// The attributes that were set are the ones that are asked for then.
pub proof fn law_attributes_set_are_seen(
    zone: spec_fn(int) -> Zone,
    groups: u32,
    d: Seq<u8>,
    sb: Superblock,
    ino: u64,
    ch: AttrChanges,
)
    requires
        well_formed(zone, groups, d, sb),
        has_inode(groups, sb, mapped(InodeMapDir::FUSE2EXT, ino)),
    ensures
        ({
            let (r, d2) = attributes_set(d, sb, ino, ch);
            &&& well_formed(zone, groups, d2, sb)
            &&& r matches Ok(attr) ==> attributes_at(d2, sb, ino) == Ok::<FileAttr, Errno>(attr)
            &&& r is Err ==> d2 == d
        }),
{
    let num = mapped(InodeMapDir::FUSE2EXT, ino);
    if inode_at(d, sb, num) is Ok {
        let inode = changed(inode_at(d, sb, num)->Ok_0, ch);
        law_storing_keeps_well_formed(zone, groups, d, sb, num, inode);
        law_stored_inode_is_loaded(zone, groups, d, sb, num, inode);
    }
}

/// Setting the attributes of a file leaves those of every other file.
pub proof fn law_setting_leaves_other_attributes(
    zone: spec_fn(int) -> Zone,
    groups: u32,
    d: Seq<u8>,
    sb: Superblock,
    ino: u64,
    ch: AttrChanges,
    other: u64,
)
    requires
        well_formed(zone, groups, d, sb),
        has_inode(groups, sb, mapped(InodeMapDir::FUSE2EXT, ino)),
        has_inode(groups, sb, mapped(InodeMapDir::FUSE2EXT, other)),
        mapped(InodeMapDir::FUSE2EXT, ino) != mapped(InodeMapDir::FUSE2EXT, other),
    ensures
        attributes_at(attributes_set(d, sb, ino, ch).1, sb, other) == attributes_at(d, sb, other),
{
    let num = mapped(InodeMapDir::FUSE2EXT, ino);
    let num2 = mapped(InodeMapDir::FUSE2EXT, other);
    if inode_at(d, sb, num) is Ok {
        let inode = changed(inode_at(d, sb, num)->Ok_0, ch);
        law_storing_leaves_other_inodes(zone, groups, d, sb, num, inode, num2);
    }
}

/// A request to set no attribute is answered like one to see them, and changes
/// nothing.
pub proof fn law_setting_nothing_changes_nothing(d: Seq<u8>, sb: Superblock, ino: u64)
    ensures
        ({
            let none = AttrChanges {
                mode: None,
                uid: None,
                gid: None,
                size: None,
                atime: None,
                mtime: None,
            };
            attributes_set(d, sb, ino, none) == (attributes_at(d, sb, ino), d)
        }),
{
    law_storing_what_was_loaded_changes_nothing(d, sb, mapped(InodeMapDir::FUSE2EXT, ino));
}

/// A file that is created is there when it is looked up, with the attributes
/// that were answered.
pub proof fn law_created_file_is_looked_up(
    zone: spec_fn(int) -> Zone,
    groups: u32,
    d: Seq<u8>,
    sb: Superblock,
    parent: u64,
    dir: Inode,
    name: Seq<char>,
    mode: u32,
    now: Option<u64>,
)
    requires
        well_formed(zone, groups, d, sb),
        has_inode(groups, sb, mapped(InodeMapDir::FUSE2EXT, parent)),
        inode_at(d, sb, mapped(InodeMapDir::FUSE2EXT, parent)) == Ok::<Inode, Errno>(dir),
        directory_well_formed(zone, d, sb, dir),
    ensures
        ({
            let num = mapped(InodeMapDir::FUSE2EXT, parent);
            let (answer, d2, sb2) = create_answer(d, sb, parent, Some(name), mode, now);
            let (r, _, _) = opened_or_created(d, sb, num, name, mode, 0, now);
            &&& r matches Ok((ino, _)) ==> inode_at(d, sb, ino as u64) is Err ==> looked_up(
                d2,
                sb2,
                parent,
                Some(name),
            ) == answer
        }),
{
    let num = mapped(InodeMapDir::FUSE2EXT, parent);
    law_created_file_is_found(zone, groups, d, sb, num, dir, name, mode, 0, now);
}

/// Where a listing is asked for in parts, each part goes on where the one
/// before ended.
pub proof fn law_listing_goes_on(
    entries: Seq<Listed>,
    first: Seq<DirItem>,
    offset: i64,
    k: int,
    rest: Seq<DirItem>,
)
    requires
        entries.len() <= i64::MAX,
        are_items(first, entries, offset),
        0 <= k < first.len(),
        are_items(rest, entries, first[k].offset),
    ensures
        rest.len() == first.len() - k - 1,
        forall|i: int|
            0 <= i < rest.len() ==> {
                let a = #[trigger] rest[i];
                let b = first[k + 1 + i];
                a.ino == b.ino && a.offset == b.offset && a.kind == b.kind && a.name@ == b.name@
            },
{
    assert(is_item(first[k], entries[offset + k], offset + k));
    assert forall|i: int| 0 <= i < rest.len() implies {
        let a = #[trigger] rest[i];
        let b = first[k + 1 + i];
        a.ino == b.ino && a.offset == b.offset && a.kind == b.kind && a.name@ == b.name@
    } by {
        let at = first[k].offset;
        assert(is_item(rest[i], entries[at + i], at + i));
        assert(is_item(first[k + 1 + i], entries[offset + (k + 1 + i)], offset + (k + 1 + i)));
    }
}

/// Nothing is free in group `g`.
pub open spec fn is_full(d: Seq<u8>, sb: Superblock, what: Resource, g: u32) -> bool {
    group_at(d, sb, g) matches Ok(group) && what.left_in(group) == 0
}

/// The remainder of a number that is less than twice the divisor.
proof fn lemma_wrap(x: int, n: int)
    requires
        0 <= x < 2 * n,
    ensures
        x % n == if x < n {
            x
        } else {
            x - n
        },
{
    if x < n {
        lemma_fundamental_div_mod_converse(x, n, 0, x);
    } else {
        lemma_fundamental_div_mod_converse(x, n, 1, x - n);
    }
}

/// The groups that were tried are all the groups when the search gives up.
proof fn lemma_all_tried(d: Seq<u8>, sb: Superblock, what: Resource, init: u32, i: int)
    requires
        0 <= init < group_count(sb),
        group_count(sb) <= u32::MAX,
        0 <= i <= group_count(sb),
        forall|j: int| 0 <= j < i ==> is_full(d, sb, what, #[trigger] probe(sb, init, j)),
    ensures
        find_from(d, sb, what, init, i) == Err::<(u32, BlockGroupDescTable), Errno>(Errno::ENOSPC)
            ==> forall|g: u32| g < group_count(sb) ==> #[trigger] is_full(d, sb, what, g),
    decreases group_count(sb) - i,
{
    let n = group_count(sb);
    let g = probe(sb, init, i);
    if is_full(d, sb, what, g) {
        if i >= n || probe(sb, init, i + 1) == init {
            if i < n {
                lemma_wrap(init + i + 1, n);
            }
            assert forall|h: u32| h < n implies #[trigger] is_full(d, sb, what, h) by {
                let j = if h >= init {
                    h - init
                } else {
                    h - init + n
                };
                lemma_wrap(init + j, n);
                assert(probe(sb, init, j) == h);
                assert(j < i || j == i);
            }
        } else {
            lemma_all_tried(d, sb, what, init, i + 1);
        }
    }
}

/// The search gives up where every group is full.
proof fn lemma_gives_up(d: Seq<u8>, sb: Superblock, what: Resource, init: u32, i: int)
    requires
        0 <= init < group_count(sb),
        group_count(sb) <= u32::MAX,
        0 <= i <= group_count(sb),
        forall|g: u32| g < group_count(sb) ==> #[trigger] is_full(d, sb, what, g),
    ensures
        find_from(d, sb, what, init, i) == Err::<(u32, BlockGroupDescTable), Errno>(Errno::ENOSPC),
    decreases group_count(sb) - i,
{
    let n = group_count(sb);
    let g = probe(sb, init, i);
    lemma_wrap(init + i, n);
    assert(is_full(d, sb, what, g));
    if i < n && probe(sb, init, i + 1) != init {
        lemma_gives_up(d, sb, what, init, i + 1);
    }
}

/// The search for a group fails for want of room exactly if every group is
/// full.
pub proof fn law_no_room_only_where_all_is_full(
    d: Seq<u8>,
    sb: Superblock,
    what: Resource,
    init: u32,
)
    requires
        sb.blocks_per_group > 0,
        init < group_count(sb),
    ensures
        find_from(d, sb, what, init, 0) == Err::<(u32, BlockGroupDescTable), Errno>(Errno::ENOSPC)
            <==> forall|g: u32| g < group_count(sb) ==> #[trigger] is_full(d, sb, what, g),
{
    assert(group_count(sb) <= sb.blocks_count) by (nonlinear_arith)
        requires
            group_count(sb) == sb.blocks_count as int / sb.blocks_per_group as int,
            sb.blocks_per_group > 0,
    ;
    lemma_all_tried(d, sb, what, init, 0);
    if forall|g: u32| g < group_count(sb) ==> #[trigger] is_full(d, sb, what, g) {
        lemma_gives_up(d, sb, what, init, 0);
    }
}

/// How many are free in the first `k` groups.
pub open spec fn total_left(d: Seq<u8>, sb: Superblock, what: Resource, k: int) -> int
    decreases k,
{
    if k <= 0 {
        0
    } else {
        total_left(d, sb, what, k - 1) + what.left_in(group_at(d, sb, (k - 1) as u32)->Ok_0)
    }
}

/// The superblock counts what is free in all groups. All groups are whole, and
/// every number fits in 32 bits.
pub open spec fn counts_agree(
    zone: spec_fn(int) -> Zone,
    groups: u32,
    d: Seq<u8>,
    sb: Superblock,
    what: Resource,
) -> bool {
    &&& well_formed(zone, groups, d, sb)
    &&& groups == group_count(sb)
    &&& groups * what.per_group(sb) <= u32::MAX
    &&& what.left(sb) == total_left(d, sb, what, groups as int)
}

/// One less in one group is one less in all groups together.
proof fn lemma_total_left(
    d: Seq<u8>,
    sb: Superblock,
    what: Resource,
    g: u32,
    d2: Seq<u8>,
    sb2: Superblock,
    k: int,
)
    requires
        0 <= k <= u32::MAX,
        forall|h: u32|
            h < k ==> what.left_in((#[trigger] group_at(d2, sb2, h))->Ok_0) == what.left_in(
                group_at(d, sb, h)->Ok_0,
            ) - (if h == g {
                1int
            } else {
                0int
            }),
    ensures
        total_left(d2, sb2, what, k) == total_left(d, sb, what, k) - (if g < k {
            1int
        } else {
            0int
        }),
    decreases k,
{
    if k > 0 {
        lemma_total_left(d, sb, what, g, d2, sb2, k - 1);
        let last = group_at(d2, sb2, (k - 1) as u32);
    }
}

/// Taking one leaves one less in its group, and as many as before in others.
proof fn lemma_left_in(
    zone: spec_fn(int) -> Zone,
    groups: u32,
    d: Seq<u8>,
    sb: Superblock,
    what: Resource,
    g: u32,
    n: int,
    d2: Seq<u8>,
    sb2: Superblock,
    h: u32,
)
    requires
        well_formed(zone, groups, d, sb),
        one_taken(zone, groups, d, sb, what, g, n, d2, sb2),
        h < groups,
    ensures
        what.left_in(group_at(d2, sb2, h)->Ok_0) == what.left_in(group_at(d, sb, h)->Ok_0) - (if h
            == g {
            1int
        } else {
            0int
        }),
{
    assert(group_at(d2, sb2, h) == group_at(d2, sb, h));
}

/// Where all groups are full, nothing is left.
proof fn lemma_nothing_left(d: Seq<u8>, sb: Superblock, what: Resource, k: int)
    requires
        0 <= k <= u32::MAX,
        forall|g: u32| g < k ==> #[trigger] is_full(d, sb, what, g),
    ensures
        total_left(d, sb, what, k) == 0,
    decreases k,
{
    if k > 0 {
        lemma_nothing_left(d, sb, what, k - 1);
        assert(is_full(d, sb, what, (k - 1) as u32));
    }
}

/// In a well-formed file system the search for a group fails for want of room
/// alone.
proof fn lemma_search_can_read(
    zone: spec_fn(int) -> Zone,
    groups: u32,
    d: Seq<u8>,
    sb: Superblock,
    what: Resource,
    init: u32,
    i: int,
)
    requires
        well_formed(zone, groups, d, sb),
        init < groups,
        0 < group_count(sb) <= groups,
        0 <= i <= group_count(sb),
    ensures
        find_from(d, sb, what, init, i) matches Err(e) ==> e == Errno::ENOSPC,
    decreases group_count(sb) - i,
{
    let n = group_count(sb);
    assert(0 <= (init + i) % n < n) by (nonlinear_arith)
        requires
            n > 0,
    ;
    assert(group_well_formed(zone, d, sb, probe(sb, init, i)));
    if i < n {
        lemma_search_can_read(zone, groups, d, sb, what, init, i + 1);
    }
}

/// Where the counts agree, allocation succeeds exactly if something is left,
/// and the counts still agree after it.
pub proof fn law_allocation_succeeds_while_something_is_left(
    zone: spec_fn(int) -> Zone,
    groups: u32,
    d: Seq<u8>,
    sb: Superblock,
    what: Resource,
    ino: u64,
)
    requires
        counts_agree(zone, groups, d, sb, what),
        has_inode(groups, sb, ino),
    ensures
        ({
            let (r, d2, sb2) = allocated(d, sb, what, ino);
            &&& counts_agree(zone, groups, d2, sb2, what)
            &&& has_inode(groups, sb2, ino)
            &&& sb2.inodes_per_group == sb.inodes_per_group
            &&& if what.left(sb) > 0 {
                r is Ok && what.left(sb2) == what.left(sb) - 1
            } else {
                r == Err::<u32, Errno>(Errno::ENOSPC) && d2 == d && sb2 == sb
            }
        }),
{
    let (r, d2, sb2) = allocated(d, sb, what, ino);
    let init = sb.group_of(ino);
    law_allocation_takes_one(zone, groups, d, sb, what, ino);
    law_allocation_keeps_well_formed(zone, groups, d, sb, what, ino);
    lemma_inode_place(groups, sb, ino);
    if what.left(sb) > 0 {
        law_no_room_only_where_all_is_full(d, sb, what, init);
        lemma_search_can_read(zone, groups, d, sb, what, init, 0);
        if find_from(d, sb, what, init, 0) is Err {
            lemma_nothing_left(d, sb, what, groups as int);
        }
        let (g, group) = find_from(d, sb, what, init, 0)->Ok_0;
        let n = first_clear(block_at(d, sb, what.bitmap_of(group))->Some_0, 0);
        let p = what.per_group(sb) as int;
        assert forall|h: u32| h < groups implies what.left_in(
            (#[trigger] group_at(d2, sb2, h))->Ok_0,
        ) == what.left_in(group_at(d, sb, h)->Ok_0) - (if h == g {
            1int
        } else {
            0int
        }) by {
            lemma_left_in(zone, groups, d, sb, what, g, n, d2, sb2, h);
        }
        lemma_total_left(d, sb, what, g, d2, sb2, groups as int);
        assert(g * p + p <= groups * p) by (nonlinear_arith)
            requires
                g + 1 <= groups,
                p >= 0,
        ;
    } else {
        reveal(allocated);
    }
}

/// The device and the superblock after one allocation close to each of the
/// inodes.
pub open spec fn after_allocations(
    d: Seq<u8>,
    sb: Superblock,
    what: Resource,
    inos: Seq<u64>,
    n: int,
) -> (Seq<u8>, Superblock)
    decreases n,
{
    if n <= 0 {
        (d, sb)
    } else {
        let (d1, sb1) = after_allocations(d, sb, what, inos, n - 1);
        let (_, d2, sb2) = allocated(d1, sb1, what, inos[n - 1]);
        (d2, sb2)
    }
}

/// What allocation number `n` returns.
pub open spec fn allocation(
    d: Seq<u8>,
    sb: Superblock,
    what: Resource,
    inos: Seq<u64>,
    n: int,
) -> Result<u32, Errno> {
    let (d1, sb1) = after_allocations(d, sb, what, inos, n);
    allocated(d1, sb1, what, inos[n]).0
}

/// Allocations keep a file system well-formed.
proof fn lemma_after_allocations(
    zone: spec_fn(int) -> Zone,
    groups: u32,
    d: Seq<u8>,
    sb: Superblock,
    what: Resource,
    inos: Seq<u64>,
    n: int,
)
    requires
        well_formed(zone, groups, d, sb),
        forall|i: int| 0 <= i < inos.len() ==> has_inode(groups, sb, #[trigger] inos[i]),
        0 <= n <= inos.len(),
    ensures
        ({
            let (d1, sb1) = after_allocations(d, sb, what, inos, n);
            &&& well_formed(zone, groups, d1, sb1)
            &&& sb1.inodes_per_group == sb.inodes_per_group
            &&& sb1.blocks_per_group == sb.blocks_per_group
            &&& n < inos.len() ==> has_inode(groups, sb1, inos[n])
        }),
    decreases n,
{
    if n > 0 {
        lemma_after_allocations(zone, groups, d, sb, what, inos, n - 1);
        let (d1, sb1) = after_allocations(d, sb, what, inos, n - 1);
        law_allocation_keeps_well_formed(zone, groups, d1, sb1, what, inos[n - 1]);
        law_allocation_takes_one(zone, groups, d1, sb1, what, inos[n - 1]);
    }
    if n < inos.len() {
        assert(has_inode(groups, sb, inos[n]));
    }
}

/// What is in use stays in use through any number of allocations.
proof fn lemma_in_use_through(
    zone: spec_fn(int) -> Zone,
    groups: u32,
    d: Seq<u8>,
    sb: Superblock,
    what: Resource,
    inos: Seq<u64>,
    i: int,
    j: int,
    g: u32,
    n: int,
)
    requires
        well_formed(zone, groups, d, sb),
        forall|k: int| 0 <= k < inos.len() ==> has_inode(groups, sb, #[trigger] inos[k]),
        0 <= i <= j <= inos.len(),
        g < groups,
        0 <= n < what.per_group(sb),
        ({
            let (d1, sb1) = after_allocations(d, sb, what, inos, i);
            in_use(d1, sb1, what, g, n)
        }),
    ensures
        ({
            let (d1, sb1) = after_allocations(d, sb, what, inos, j);
            in_use(d1, sb1, what, g, n)
        }),
    decreases j - i,
{
    if i < j {
        lemma_in_use_through(zone, groups, d, sb, what, inos, i, j - 1, g, n);
        lemma_after_allocations(zone, groups, d, sb, what, inos, j - 1);
        let (d1, sb1) = after_allocations(d, sb, what, inos, j - 1);
        let (d2, sb2) = after_allocations(d, sb, what, inos, j);
        law_allocation_takes_one(zone, groups, d1, sb1, what, inos[j - 1]);
        if d2 != d1 || sb2 != sb1 {
            let (h, group) = find_from(d1, sb1, what, sb1.group_of(inos[j - 1]), 0)->Ok_0;
            let m = first_clear(block_at(d1, sb1, what.bitmap_of(group))->Some_0, 0);
            lemma_in_use_stays(zone, groups, d1, sb1, what, h, m, d2, sb2, g, n);
        }
    }
}

/// What has been allocated is not allocated again, however many allocations
/// come between.
pub proof fn law_allocations_differ(
    zone: spec_fn(int) -> Zone,
    groups: u32,
    d: Seq<u8>,
    sb: Superblock,
    what: Resource,
    inos: Seq<u64>,
    i: int,
    j: int,
)
    requires
        well_formed(zone, groups, d, sb),
        forall|k: int| 0 <= k < inos.len() ==> has_inode(groups, sb, #[trigger] inos[k]),
        0 <= i < j < inos.len(),
    ensures
        ({
            let a = allocation(d, sb, what, inos, i);
            let b = allocation(d, sb, what, inos, j);
            a is Ok && b is Ok ==> a->Ok_0 != b->Ok_0
        }),
{
    let a = allocation(d, sb, what, inos, i);
    let b = allocation(d, sb, what, inos, j);
    if a is Ok && b is Ok {
        lemma_after_allocations(zone, groups, d, sb, what, inos, i);
        lemma_after_allocations(zone, groups, d, sb, what, inos, j);
        let (d1, sb1) = after_allocations(d, sb, what, inos, i);
        let (d2, sb2) = after_allocations(d, sb, what, inos, j);
        let (g, n) = lemma_allocated(zone, groups, d1, sb1, what, inos[i]);
        let (h, m) = lemma_allocated(zone, groups, d2, sb2, what, inos[j]);
        lemma_in_use_through(zone, groups, d, sb, what, inos, i + 1, j, g, n);
        let p = what.per_group(sb) as int;
        lemma_fundamental_div_mod_converse(g * p + n, p, g as int, n);
        lemma_fundamental_div_mod_converse(h * p + m, p, h as int, m);
    }
}

/// Where the counts agree, as many allocations succeed as the superblock
/// counts, and the next one finds nothing left.
pub proof fn law_as_many_allocations_as_are_counted(
    zone: spec_fn(int) -> Zone,
    groups: u32,
    d: Seq<u8>,
    sb: Superblock,
    what: Resource,
    inos: Seq<u64>,
    n: int,
)
    requires
        counts_agree(zone, groups, d, sb, what),
        forall|k: int| 0 <= k < inos.len() ==> has_inode(groups, sb, #[trigger] inos[k]),
        0 <= n < inos.len(),
        n <= what.left(sb),
    ensures
        ({
            let (d1, sb1) = after_allocations(d, sb, what, inos, n);
            let r = allocation(d, sb, what, inos, n);
            &&& counts_agree(zone, groups, d1, sb1, what)
            &&& what.left(sb1) == what.left(sb) - n
            &&& n < what.left(sb) ==> r is Ok
            &&& n == what.left(sb) ==> r == Err::<u32, Errno>(Errno::ENOSPC)
        }),
    decreases n,
{
    lemma_after_allocations(zone, groups, d, sb, what, inos, n);
    let (d1, sb1) = after_allocations(d, sb, what, inos, n);
    if n > 0 {
        law_as_many_allocations_as_are_counted(zone, groups, d, sb, what, inos, n - 1);
        lemma_after_allocations(zone, groups, d, sb, what, inos, n - 1);
        let (d0, sb0) = after_allocations(d, sb, what, inos, n - 1);
        law_allocation_succeeds_while_something_is_left(zone, groups, d0, sb0, what, inos[n - 1]);
    }
    law_allocation_succeeds_while_something_is_left(zone, groups, d1, sb1, what, inos[n]);
}

/// Which block is due when the block after `n` has been asked for `count` times:
/// behind the last one, `limit`, asking changes nothing.
pub open spec fn due_after(limit: u32, n: u32, count: nat) -> int
    decreases count,
{
    if count == 0 {
        n as int
    } else {
        let due = due_after(limit, n, (count - 1) as nat);
        if due > limit {
            due
        } else {
            due + 1
        }
    }
}

/// Skipping blocks leads to the same block as asking for them one by one.
pub proof fn law_skipping_is_asking_one_by_one(
    d: Seq<u8>,
    sb: Superblock,
    block: Seq<u32>,
    limit: u32,
    n: u32,
    count: nat,
)
    requires
        n + count <= u32::MAX,
        limit < u32::MAX,
    ensures
        0 <= due_after(limit, n, count) <= u32::MAX,
        next_pointer(d, sb, block, limit, due_after(limit, n, count) as u32) == next_pointer(
            d,
            sb,
            block,
            limit,
            (n + count) as u32,
        ),
{
    lemma_due_after(limit, n, count);
}

/// The block that is due, as long as there is one, and one behind the last
/// block then.
proof fn lemma_due_after(limit: u32, n: u32, count: nat)
    ensures
        due_after(limit, n, count) == if n + count <= limit {
            n + count
        } else if n > limit {
            n as int
        } else {
            limit + 1
        },
    decreases count,
{
    if count > 0 {
        lemma_due_after(limit, n, (count - 1) as nat);
    }
}

/// Byte `x` of a file, `block` being the block numbers of its inode.
pub open spec fn file_byte(d: Seq<u8>, sb: Superblock, block: Seq<u32>, x: int) -> u8 {
    let b = pointer_to(d, sb, block, x / sb.block_len())->Ok_0;
    block_at(d, sb, b)->Some_0[x % sb.block_len()]
}

/// Block `n` of a file of `size` bytes can be read: its number can be found,
/// and the block can be read if it has one. It has one if it holds bytes of
/// the file.
pub open spec fn file_block_ok(
    d: Seq<u8>,
    sb: Superblock,
    block: Seq<u32>,
    size: int,
    n: int,
) -> bool {
    pointer_to(d, sb, block, n) matches Ok(b) && {
        &&& b != 0 ==> block_at(d, sb, b) is Some
        &&& n * sb.block_len() < size ==> b != 0
    }
}

/// Where a byte of block `n` stands in it.
proof fn lemma_in_block(x: int, n: int, len: int)
    requires
        len > 0,
        n * len <= x < n * len + len,
    ensures
        x / len == n,
        x % len == x - n * len,
{
    lemma_fundamental_div_mod_converse(x, len, n, x - n * len);
}

/// The bytes that have been read are those of the file.
proof fn lemma_filled(
    d: Seq<u8>,
    sb: Superblock,
    block: Seq<u32>,
    size: int,
    offset: int,
    end: int,
    n: u32,
    buf: Seq<u8>,
)
    requires
        sb.readable(),
        0 <= size / sb.block_len() < u32::MAX,
        0 <= offset,
        offset < n * sb.block_len() + sb.block_len(),
        n * sb.block_len() <= end,
        offset <= end,
        buf.len() == end - offset,
        forall|m: int|
            n <= m <= size / sb.block_len() && m * sb.block_len() <= end
                ==> #[trigger] file_block_ok(d, sb, block, size, m),
        forall|i: int|
            0 <= i < buf.len() && offset + i < n * sb.block_len() && offset + i < size
                ==> #[trigger] buf[i] == file_byte(d, sb, block, offset + i),
    ensures
        filled(
            d,
            sb,
            block,
            (size / sb.block_len()) as u32,
            offset,
            end,
            n,
            n * sb.block_len(),
            buf,
        ) matches Ok(out) && {
            &&& out.len() == end - offset
            &&& forall|i: int|
                0 <= i < out.len() && offset + i < size ==> #[trigger] out[i] == file_byte(
                    d,
                    sb,
                    block,
                    offset + i,
                )
        },
    decreases end - n * sb.block_len(),
{
    let len = sb.block_len();
    lemma_block_len(sb);
    let limit = size / len;
    let cursor = n * len;
    lemma_fundamental_div_mod(size, len);
    assert(0 <= size % len < len) by (nonlinear_arith)
        requires
            len > 0,
    ;
    assert((n + 1) * len == cursor + len) by (nonlinear_arith)
        requires
            cursor == n * len,
    ;
    if n > limit {
        assert(cursor > size) by (nonlinear_arith)
            requires
                cursor == n * len,
                n >= limit + 1,
                size == len * limit + size % len,
                size % len < len,
                len > 0,
        ;
    } else {
        assert(file_block_ok(d, sb, block, size, n as int));
        let b = pointer_to(d, sb, block, n as int)->Ok_0;
        if b != 0 {
            let bytes = block_at(d, sb, b)->Some_0;
            let from = max(offset, cursor);
            let to = min(end, cursor + len);
            let at = sb.block_addr(b);
            lemma_block_addr(sb, b);
            let part = fetch(d, at + (from - cursor), to - from)->Some_0;
            let buf2 = overwrite(buf, from - offset, part);
            assert forall|i: int|
                0 <= i < buf2.len() && offset + i < cursor + len && offset + i
                    < size implies #[trigger] buf2[i] == file_byte(d, sb, block, offset + i) by {
                let x = offset + i;
                if from <= x {
                    lemma_in_block(x, n as int, len);
                    assert(part[x - from] == d[at + (x - cursor)]);
                    assert(bytes[x - cursor] == d[at + (x - cursor)]);
                } else {
                    assert(buf2[i] == buf[i]);
                }
            }
            if end - cursor >= len {
                lemma_filled(d, sb, block, size, offset, end, (n + 1) as u32, buf2);
            }
        }
    }
}

/// Reading within a file gives the bytes of the file.
pub proof fn law_read_gives_the_bytes_of_the_file(
    d: Seq<u8>,
    sb: Superblock,
    ino: u64,
    inode: Inode,
    offset: u64,
    load_size: u32,
)
    requires
        sb.readable(),
        inode_at(d, sb, ino) == Ok::<Inode, Errno>(inode),
        offset < inode.file_size(),
        inode.file_size() / sb.block_len() < u32::MAX,
        forall|n: int|
            offset as int / sb.block_len() <= n <= inode.file_size() / sb.block_len()
                && n * sb.block_len() <= offset + load_size ==> #[trigger] file_block_ok(
                d,
                sb,
                inode.block@,
                inode.file_size(),
                n,
            ),
    ensures
        file_read(d, sb, ino, offset, load_size) matches Ok(buf) && {
            &&& buf.len() == min(load_size as int, inode.file_size())
            &&& forall|i: int|
                0 <= i < buf.len() && offset + i < inode.file_size() ==> #[trigger] buf[i]
                    == file_byte(d, sb, inode.block@, offset + i)
        },
{
    let len = sb.block_len();
    let size = inode.file_size();
    lemma_block_len(sb);
    let n = offset as int / len;
    lemma_fundamental_div_mod(offset as int, len);
    assert(0 <= offset as int % len < len && 0 <= n <= size / len && n * len == len * n && len * (
    size / len) <= size && size / len >= 0) by (nonlinear_arith)
        requires
            len > 0,
            offset < size,
            n == offset as int / len,
    ;
    assert(size < len * 0x1_0000_0000) by (nonlinear_arith)
        requires
            len > 0,
            size / len < 0xffff_ffff,
    ;
    let want = min(load_size as int, size);
    let start = Seq::new(want as nat, |i: int| 0u8);
    lemma_filled(d, sb, inode.block@, size, offset as int, offset + want, n as u32, start);
}

} // verus!
