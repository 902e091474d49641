//! What adding a block to a file does to the file.

use vstd::prelude::*;
use vstd::arithmetic::div_mod::lemma_fundamental_div_mod_converse;
use crate::allocation::{allocated, Resource};
use crate::append::{
    append_index, append_slot, appendable, appended, child_page_of, empty_page, ended, root_page_of,
    with_entry, with_pointer,
};
use crate::bytes::{lemma_u32s_round_trip, u32s_bytes};
use crate::errno::Errno;
use crate::fs::lemma_block_len;
use crate::indirect::{entry_of, lemma_path, path_to, pointer_to};
use crate::inode::Inode;
use crate::layout::{block_at, pointers_at, with_inode, written};
use crate::superblock::Superblock;
use crate::wellformed::{
    agree_in, has_inode, in_use, law_allocation_keeps_well_formed, lemma_allocated,
    lemma_blocks_apart, lemma_in_use_same, lemma_in_use_stays, lemma_inode_stored,
    lemma_same_in_zone, lemma_stays_well_formed, lemma_write_in_zone, lemma_written, lies_in,
    well_formed, Zone,
};

verus! {

/// Bit `n` of group `g` is clear, and block `b` has the bit.
pub open spec fn free_bit_of(d: Seq<u8>, sb: Superblock, b: u32, g: u32, n: int) -> bool {
    &&& 0 <= n < sb.blocks_per_group
    &&& b == g * sb.blocks_per_group + n + 1
    &&& !in_use(d, sb, Resource::Block, g, n)
}

/// Block `b` can be allocated.
pub open spec fn block_free(groups: u32, d: Seq<u8>, sb: Superblock, b: u32) -> bool {
    exists|g: u32, n: int| g < groups && #[trigger] free_bit_of(d, sb, b, g, n)
}

/// The file system is well-formed, and blocks that can be allocated are for
/// data.
pub open spec fn free_blocks_are_data(
    zone: spec_fn(int) -> Zone,
    groups: u32,
    d: Seq<u8>,
    sb: Superblock,
) -> bool {
    &&& well_formed(zone, groups, d, sb)
    &&& forall|b: u32| #[trigger]
        block_free(groups, d, sb, b) ==> lies_in(
            zone,
            d,
            Zone::Data,
            sb.block_addr(b),
            sb.block_len(),
        )
}

/// Block `b` is a block for data that cannot be allocated.
pub open spec fn data_in_use(
    zone: spec_fn(int) -> Zone,
    groups: u32,
    d: Seq<u8>,
    sb: Superblock,
    b: u32,
) -> bool {
    &&& b != 0
    &&& lies_in(zone, d, Zone::Data, sb.block_addr(b), sb.block_len())
    &&& !block_free(groups, d, sb, b)
}

/// Allocating a block takes a free one, and leaves all data in use as it was.
pub(crate) proof fn lemma_block_allocated(
    zone: spec_fn(int) -> Zone,
    groups: u32,
    d: Seq<u8>,
    sb: Superblock,
    ino: u64,
)
    requires
        free_blocks_are_data(zone, groups, d, sb),
        has_inode(groups, sb, ino),
        allocated(d, sb, Resource::Block, ino).0 is Ok,
    ensures
        ({
            let (r, d2, sb2) = allocated(d, sb, Resource::Block, ino);
            let b = r->Ok_0;
            &&& free_blocks_are_data(zone, groups, d2, sb2)
            &&& sb2 == Resource::Block.one_less(sb)
            &&& data_in_use(zone, groups, d2, sb2, b)
            &&& forall|k: u32| #[trigger]
                data_in_use(zone, groups, d, sb, k) ==> {
                    &&& data_in_use(zone, groups, d2, sb2, k)
                    &&& k != b
                    &&& block_at(d2, sb2, k) == block_at(d, sb, k)
                }
        }),
{
    let what = Resource::Block;
    let (r, d2, sb2) = allocated(d, sb, what, ino);
    let b = r->Ok_0;
    let (g, n) = lemma_allocated(zone, groups, d, sb, what, ino);
    law_allocation_keeps_well_formed(zone, groups, d, sb, what, ino);
    lemma_block_len(sb);
    let p = sb.blocks_per_group as int;
    assert(free_bit_of(d, sb, b, g, n));
    assert(block_free(groups, d, sb, b));
    assert forall|k: u32| #[trigger] block_free(groups, d2, sb2, k) implies {
        &&& block_free(groups, d, sb, k)
        &&& k != b
    } by {
        let (h, m) = choose|h: u32, m: int| h < groups && #[trigger] free_bit_of(d2, sb2, k, h, m);
        lemma_in_use_stays(zone, groups, d, sb, what, g, n, d2, sb2, h, m);
        assert(free_bit_of(d, sb, k, h, m));
        lemma_fundamental_div_mod_converse(g * p + n, p, g as int, n);
        lemma_fundamental_div_mod_converse(h * p + m, p, h as int, m);
    }
    assert(g * p >= 0) by (nonlinear_arith)
        requires
            p > 0,
    ;
    assert forall|k: u32| #[trigger] data_in_use(zone, groups, d, sb, k) implies {
        &&& data_in_use(zone, groups, d2, sb2, k)
        &&& k != b
        &&& block_at(d2, sb2, k) == block_at(d, sb, k)
    } by {
        assert(agree_in(zone, Zone::Data, d, d2));
        lemma_same_in_zone(zone, Zone::Data, d, d2, sb.block_addr(k), sb.block_len());
    }
}

/// What only changes inodes or data leaves what is free as it was.
proof fn lemma_free_stays(
    zone: spec_fn(int) -> Zone,
    groups: u32,
    d: Seq<u8>,
    sb: Superblock,
    d2: Seq<u8>,
)
    requires
        free_blocks_are_data(zone, groups, d, sb),
        agree_in(zone, Zone::Groups, d, d2),
        agree_in(zone, Zone::Bitmaps, d, d2),
    ensures
        free_blocks_are_data(zone, groups, d2, sb),
        forall|k: u32| #[trigger]
            data_in_use(zone, groups, d, sb, k) ==> data_in_use(zone, groups, d2, sb, k),
{
    lemma_stays_well_formed(zone, groups, d, sb, d2);
    assert forall|k: u32| #[trigger] block_free(groups, d2, sb, k) implies block_free(
        groups,
        d,
        sb,
        k,
    ) by {
        let (h, m) = choose|h: u32, m: int| h < groups && #[trigger] free_bit_of(d2, sb, k, h, m);
        lemma_in_use_same(zone, groups, d, sb, d2, Resource::Block, h, m);
        assert(free_bit_of(d, sb, k, h, m));
    }
}

/// Storing a page in a block for data leaves all other blocks in use.
pub(crate) proof fn lemma_page_stored(
    zone: spec_fn(int) -> Zone,
    groups: u32,
    d: Seq<u8>,
    sb: Superblock,
    home: u32,
    page: Seq<u32>,
    i: int,
    b: u32,
)
    requires
        free_blocks_are_data(zone, groups, d, sb),
        data_in_use(zone, groups, d, sb, home),
        page.len() == sb.block_len() / 4,
        0 <= i < page.len(),
    ensures
        with_entry(d, sb, home, page, i, b) matches Ok(d2) && {
            &&& free_blocks_are_data(zone, groups, d2, sb)
            &&& pointers_at(d2, sb, home) == Some(page.update(i, b))
            &&& entry_of(d2, sb, Ok(home), i) == Ok::<u32, Errno>(b)
            &&& forall|k: u32| #[trigger]
                data_in_use(zone, groups, d, sb, k) ==> {
                    &&& data_in_use(zone, groups, d2, sb, k)
                    &&& k != home ==> block_at(d2, sb, k) == block_at(d, sb, k)
                }
        },
{
    lemma_block_len(sb);
    let page1 = page.update(i, b);
    let bytes = u32s_bytes(page1);
    let at = sb.block_addr(home);
    lemma_u32s_round_trip(page1);
    lemma_write_in_zone(zone, d, Zone::Data, at, bytes);
    let d2 = written(d, at, bytes)->Ok_0;
    assert(agree_in(zone, Zone::Groups, d, d2));
    assert(agree_in(zone, Zone::Bitmaps, d, d2));
    lemma_free_stays(zone, groups, d, sb, d2);
    lemma_written(d, at, bytes, 0, 0);
    assert forall|k: u32| #[trigger] data_in_use(zone, groups, d, sb, k) && k != home implies
        block_at(d2, sb, k) == block_at(d, sb, k) by {
        lemma_blocks_apart(sb, home, k);
        lemma_written(d, at, bytes, sb.block_addr(k), sb.block_len());
    }
}

/// The page is the one in block `home`, or one that was made for the block.
pub open spec fn page_ready(d: Seq<u8>, sb: Superblock, home: u32, page: Seq<u32>) -> bool {
    &&& page.len() == sb.block_len() / 4
    &&& pointers_at(d, sb, home) == Some(page) || page == empty_page(sb)
}

/// The page that a page names is there, and is named.
pub(crate) proof fn lemma_child(
    zone: spec_fn(int) -> Zone,
    groups: u32,
    d: Seq<u8>,
    sb: Superblock,
    ino: u64,
    home: u32,
    page: Seq<u32>,
    i: int,
)
    requires
        free_blocks_are_data(zone, groups, d, sb),
        has_inode(groups, sb, ino),
        data_in_use(zone, groups, d, sb, home),
        page_ready(d, sb, home, page),
        0 <= i < page.len(),
        page[i] != 0 ==> data_in_use(zone, groups, d, sb, page[i]) && page[i] != home,
        child_page_of(Ok((home, page)), d, sb, ino, i).0 is Ok,
    ensures
        ({
            let (r, d2, sb2) = child_page_of(Ok((home, page)), d, sb, ino, i);
            let (home2, page2) = r->Ok_0;
            &&& free_blocks_are_data(zone, groups, d2, sb2)
            &&& has_inode(groups, sb2, ino)
            &&& sb2.log_block_size == sb.log_block_size
            &&& data_in_use(zone, groups, d2, sb2, home)
            &&& data_in_use(zone, groups, d2, sb2, home2)
            &&& home2 != home
            &&& entry_of(d2, sb2, Ok(home), i) == Ok::<u32, Errno>(home2)
            &&& page_ready(d2, sb2, home2, page2)
            &&& page[i] != 0 ==> {
                &&& d2 == d
                &&& sb2 == sb
                &&& home2 == page[i]
                &&& pointers_at(d, sb, home2) == Some(page2)
            }
            &&& page[i] == 0 ==> page2 == empty_page(sb)
            &&& pointers_at(d2, sb2, home) == Some(page.update(i, home2))
            &&& forall|k: u32| #[trigger]
                data_in_use(zone, groups, d, sb, k) && k != home ==> {
                    &&& data_in_use(zone, groups, d2, sb2, k)
                    &&& block_at(d2, sb2, k) == block_at(d, sb, k)
                    &&& page[i] == 0 ==> k != home2
                }
        }),
{
    reveal(child_page_of);
    lemma_block_len(sb);
    if page[i] == 0 {
        lemma_block_allocated(zone, groups, d, sb, ino);
        let (b, d1, sb1) = allocated(d, sb, Resource::Block, ino);
        assert(data_in_use(zone, groups, d1, sb1, home));
        lemma_page_stored(zone, groups, d1, sb1, home, page, i, b->Ok_0);
        let d2 = with_entry(d1, sb1, home, page, i, b->Ok_0)->Ok_0;
        assert(data_in_use(zone, groups, d2, sb1, b->Ok_0));
        assert(empty_page(sb1) == empty_page(sb));
        assert forall|k: u32| #[trigger]
            data_in_use(zone, groups, d, sb, k) && k != home implies data_in_use(
            zone,
            groups,
            d2,
            sb1,
            k,
        ) && block_at(d2, sb1, k) == block_at(d, sb, k) && k != b->Ok_0 by {
            assert(data_in_use(zone, groups, d1, sb1, k));
        }
    } else {
        assert(page[i] != empty_page(sb)[i]);
        assert(page.update(i, page[i]) =~= page);
    }
}

/// The first page is there, and the inode names it.
pub(crate) proof fn lemma_root(
    zone: spec_fn(int) -> Zone,
    groups: u32,
    d: Seq<u8>,
    sb: Superblock,
    ino: u64,
    inode: Inode,
    slot: int,
)
    requires
        free_blocks_are_data(zone, groups, d, sb),
        has_inode(groups, sb, ino),
        0 <= slot < 15,
        inode.block@[slot] != 0 ==> data_in_use(zone, groups, d, sb, inode.block@[slot]),
        root_page_of(d, sb, ino, inode, slot).0 is Ok,
    ensures
        ({
            let (r, d1, sb1, inode1) = root_page_of(d, sb, ino, inode, slot);
            let (home, page) = r->Ok_0;
            &&& free_blocks_are_data(zone, groups, d1, sb1)
            &&& has_inode(groups, sb1, ino)
            &&& sb1.log_block_size == sb.log_block_size
            &&& data_in_use(zone, groups, d1, sb1, home)
            &&& inode1.block@[slot] == home
            &&& page_ready(d1, sb1, home, page)
            &&& inode.block@[slot] != 0 ==> {
                &&& d1 == d
                &&& sb1 == sb
                &&& pointers_at(d, sb, home) == Some(page)
                &&& home == inode.block@[slot]
            }
            &&& inode.block@[slot] == 0 ==> page == empty_page(sb)
            &&& forall|k: u32| #[trigger]
                data_in_use(zone, groups, d, sb, k) ==> {
                    &&& data_in_use(zone, groups, d1, sb1, k)
                    &&& block_at(d1, sb1, k) == block_at(d, sb, k)
                    &&& inode.block@[slot] == 0 ==> k != home
                }
        }),
{
    reveal(root_page_of);
    lemma_block_len(sb);
    if inode.block@[slot] == 0 {
        lemma_block_allocated(zone, groups, d, sb, ino);
        let (r, d1, sb1) = allocated(d, sb, Resource::Block, ino);
        let b = r->Ok_0;
        let inode1 = with_pointer(inode, slot, b);
        lemma_inode_stored(zone, groups, d1, sb1, ino, inode1);
        let d2 = with_inode(d1, sb1, ino, inode1)->Ok_0;
        assert(agree_in(zone, Zone::Groups, d1, d2));
        assert(agree_in(zone, Zone::Bitmaps, d1, d2));
        lemma_free_stays(zone, groups, d1, sb1, d2);
        assert(data_in_use(zone, groups, d2, sb1, b));
        assert(empty_page(sb1) == empty_page(sb));
        assert forall|k: u32| #[trigger] data_in_use(zone, groups, d, sb, k) implies data_in_use(
            zone,
            groups,
            d2,
            sb1,
            k,
        ) && block_at(d2, sb1, k) == block_at(d, sb, k) && k != b by {
            assert(data_in_use(zone, groups, d1, sb1, k));
            assert(agree_in(zone, Zone::Data, d1, d2));
            lemma_same_in_zone(zone, Zone::Data, d1, d2, sb1.block_addr(k), sb1.block_len());
        }
    }
}

/// The page in block `b`; an empty one where there is no block.
pub open spec fn page_before(d: Seq<u8>, sb: Superblock, b: u32) -> Seq<u32> {
    if b == 0 {
        empty_page(sb)
    } else {
        pointers_at(d, sb, b)->Some_0
    }
}

/// The blocks of the pages on the way to the block that is to be added, as far
/// as there are any: 0 where there is none. The first one comes first.
pub open spec fn pages_before(d: Seq<u8>, sb: Superblock, inode: Inode) -> Seq<u32> {
    let path = path_to(sb.block_len() / 4, append_index(sb, inode));
    let first = inode.block@[append_slot(sb, inode)];
    if path.len() == 1 {
        seq![first]
    } else if path.len() == 2 {
        seq![first, page_before(d, sb, first)[path[1]]]
    } else {
        let second = page_before(d, sb, first)[path[2]];
        seq![first, second, page_before(d, sb, second)[path[1]]]
    }
}

/// The pages on the way are data in use, and no two of them are the same.
pub open spec fn pages_well_formed(
    zone: spec_fn(int) -> Zone,
    groups: u32,
    d: Seq<u8>,
    sb: Superblock,
    inode: Inode,
) -> bool {
    let pages = pages_before(d, sb, inode);
    &&& forall|i: int|
        0 <= i < pages.len() && pages[i] != 0 ==> data_in_use(
            zone,
            groups,
            d,
            sb,
            #[trigger] pages[i],
        )
    &&& forall|i: int, j: int|
        0 <= i < j < pages.len() && pages[i] != 0 ==> #[trigger] pages[i] != #[trigger] pages[j]
}

/// Block `home` holds page `page` with `b` at `i`.
pub open spec fn page_has(
    d: Seq<u8>,
    sb: Superblock,
    home: u32,
    page: Seq<u32>,
    i: int,
    b: u32,
) -> bool {
    pointers_at(d, sb, home) == Some(page.update(i, b))
}

/// Block `block_num` was added: it is the block of the file that it was added
/// as. Each page on the way changed by the one entry that leads there, a page
/// that was made holds nothing else, and no other data that was in use changed.
pub open spec fn block_added(
    zone: spec_fn(int) -> Zone,
    groups: u32,
    d: Seq<u8>,
    sb: Superblock,
    inode: Inode,
    block_num: u32,
    d2: Seq<u8>,
    sb2: Superblock,
    inode2: Inode,
) -> bool {
    let path = path_to(sb.block_len() / 4, append_index(sb, inode));
    let slot = append_slot(sb, inode);
    let old_pages = pages_before(d, sb, inode);
    let page0 = page_before(d, sb, old_pages[0]);
    let page1 = page_before(d, sb, old_pages[1]);
    let page2 = page_before(d, sb, old_pages[2]);
    let first = inode2.block@[slot];
    &&& pointer_to(d2, sb2, inode2.block@, append_index(sb, inode)) == Ok::<u32, Errno>(block_num)
    &&& free_blocks_are_data(zone, groups, d2, sb2)
    &&& forall|k: u32| #[trigger]
        data_in_use(zone, groups, d, sb, k) && !old_pages.contains(k) ==> block_at(d2, sb2, k)
            == block_at(d, sb, k)
    &&& if path.len() == 1 {
        page_has(d2, sb2, first, page0, path[0], block_num)
    } else if path.len() == 2 {
        exists|second: u32| #[trigger]
            page_has(d2, sb2, first, page0, path[1], second) && page_has(
                d2,
                sb2,
                second,
                page1,
                path[0],
                block_num,
            )
    } else {
        exists|second: u32, third: u32|
            page_has(d2, sb2, first, page0, path[2], second) && #[trigger] page_has(
                d2,
                sb2,
                second,
                page1,
                path[1],
                third,
            ) && page_has(d2, sb2, third, page2, path[0], block_num)
    }
}

/// Adding a block adds it, and keeps a file system well-formed.
pub proof fn law_added_block_is_found(
    zone: spec_fn(int) -> Zone,
    groups: u32,
    d: Seq<u8>,
    sb: Superblock,
    ino: u64,
    inode: Inode,
    block_num: u32,
)
    requires
        free_blocks_are_data(zone, groups, d, sb),
        has_inode(groups, sb, ino),
        appendable(sb, inode),
        pages_well_formed(zone, groups, d, sb, inode),
    ensures
        ({
            let (r, d2, sb2, inode2) = appended(d, sb, ino, inode, block_num);
            r is Ok ==> block_added(zone, groups, d, sb, inode, block_num, d2, sb2, inode2)
        }),
{
    let (r, _, _, _) = appended(d, sb, ino, inode, block_num);
    let path = path_to(sb.block_len() / 4, append_index(sb, inode));
    lemma_block_len(sb);
    lemma_path(sb.block_len() / 4, append_index(sb, inode));
    if r is Ok {
        if path.len() == 1 {
            lemma_behind_one_page(zone, groups, d, sb, ino, inode, block_num);
        } else if path.len() == 2 {
            lemma_behind_two_pages(zone, groups, d, sb, ino, inode, block_num);
        } else {
            lemma_behind_three_pages(zone, groups, d, sb, ino, inode, block_num);
        }
    }
}

/// The last page names the block, and other data is as it was.
pub(crate) proof fn lemma_ended(
    zone: spec_fn(int) -> Zone,
    groups: u32,
    d: Seq<u8>,
    sb: Superblock,
    home: u32,
    page: Seq<u32>,
    i: int,
    block_num: u32,
)
    requires
        free_blocks_are_data(zone, groups, d, sb),
        data_in_use(zone, groups, d, sb, home),
        page_ready(d, sb, home, page),
        0 <= i < page.len(),
    ensures
        ({
            let (_, d2) = ended(Ok((home, page)), d, sb, i, block_num);
            &&& free_blocks_are_data(zone, groups, d2, sb)
            &&& page_has(d2, sb, home, page, i, block_num)
            &&& entry_of(d2, sb, Ok(home), i) == Ok::<u32, Errno>(block_num)
            &&& forall|k: u32| #[trigger]
                data_in_use(zone, groups, d, sb, k) && k != home ==> block_at(d2, sb, k)
                    == block_at(d, sb, k)
        }),
{
    reveal(ended);
    lemma_page_stored(zone, groups, d, sb, home, page, i, block_num);
}

proof fn lemma_behind_one_page(
    zone: spec_fn(int) -> Zone,
    groups: u32,
    d: Seq<u8>,
    sb: Superblock,
    ino: u64,
    inode: Inode,
    block_num: u32,
)
    requires
        free_blocks_are_data(zone, groups, d, sb),
        has_inode(groups, sb, ino),
        appendable(sb, inode),
        pages_well_formed(zone, groups, d, sb, inode),
        path_to(sb.block_len() / 4, append_index(sb, inode)).len() == 1,
        appended(d, sb, ino, inode, block_num).0 is Ok,
    ensures
        ({
            let (_, d2, sb2, inode2) = appended(d, sb, ino, inode, block_num);
            block_added(zone, groups, d, sb, inode, block_num, d2, sb2, inode2)
        }),
{
    let path = path_to(sb.block_len() / 4, append_index(sb, inode));
    let slot = append_slot(sb, inode);
    let pages = pages_before(d, sb, inode);
    lemma_block_len(sb);
    lemma_path(sb.block_len() / 4, append_index(sb, inode));
    let (r1, d1, sb1, inode1) = root_page_of(d, sb, ino, inode, slot);
    assert(r1 is Ok) by {
        reveal(ended);
    }
    assert(pages[0] == inode.block@[slot]);
    lemma_root(zone, groups, d, sb, ino, inode, slot);
    let (home, page) = r1->Ok_0;
    lemma_ended(zone, groups, d1, sb1, home, page, path[0], block_num);
    reveal(pointer_to);
}

proof fn lemma_behind_two_pages(
    zone: spec_fn(int) -> Zone,
    groups: u32,
    d: Seq<u8>,
    sb: Superblock,
    ino: u64,
    inode: Inode,
    block_num: u32,
)
    requires
        free_blocks_are_data(zone, groups, d, sb),
        has_inode(groups, sb, ino),
        appendable(sb, inode),
        pages_well_formed(zone, groups, d, sb, inode),
        path_to(sb.block_len() / 4, append_index(sb, inode)).len() == 2,
        appended(d, sb, ino, inode, block_num).0 is Ok,
    ensures
        ({
            let (_, d2, sb2, inode2) = appended(d, sb, ino, inode, block_num);
            block_added(zone, groups, d, sb, inode, block_num, d2, sb2, inode2)
        }),
{
    let path = path_to(sb.block_len() / 4, append_index(sb, inode));
    let slot = append_slot(sb, inode);
    let pages = pages_before(d, sb, inode);
    lemma_block_len(sb);
    lemma_path(sb.block_len() / 4, append_index(sb, inode));
    let (r1, d1, sb1, inode1) = root_page_of(d, sb, ino, inode, slot);
    let (r2, d2, sb2) = child_page_of(r1, d1, sb1, ino, path[1]);
    assert(r1 is Ok && r2 is Ok) by {
        reveal(ended);
        reveal(child_page_of);
    }
    assert(pages[0] == inode.block@[slot]);
    lemma_root(zone, groups, d, sb, ino, inode, slot);
    let (home, page) = r1->Ok_0;
    assert(page == page_before(d, sb, pages[0]));
    assert(pages[1] == page[path[1]]);
    lemma_child(zone, groups, d1, sb1, ino, home, page, path[1]);
    let (home2, page2) = r2->Ok_0;
    assert(page2 == page_before(d, sb, pages[1]));
    lemma_ended(zone, groups, d2, sb2, home2, page2, path[0], block_num);
    let (_, d3) = ended(r2, d2, sb2, path[0], block_num);
    assert(data_in_use(zone, groups, d2, sb2, home));
    assert(block_at(d3, sb2, home) == block_at(d2, sb2, home));
    assert(page_has(d3, sb2, home, page, path[1], home2));
    assert forall|k: u32| #[trigger]
        data_in_use(zone, groups, d, sb, k) && !pages.contains(k) implies block_at(d3, sb2, k)
        == block_at(d, sb, k) by {
        assert(pages[0] != k && pages[1] != k);
        assert(data_in_use(zone, groups, d1, sb1, k));
        assert(data_in_use(zone, groups, d2, sb2, k));
    }
    reveal(pointer_to);
}

proof fn lemma_behind_three_pages(
    zone: spec_fn(int) -> Zone,
    groups: u32,
    d: Seq<u8>,
    sb: Superblock,
    ino: u64,
    inode: Inode,
    block_num: u32,
)
    requires
        free_blocks_are_data(zone, groups, d, sb),
        has_inode(groups, sb, ino),
        appendable(sb, inode),
        pages_well_formed(zone, groups, d, sb, inode),
        path_to(sb.block_len() / 4, append_index(sb, inode)).len() == 3,
        appended(d, sb, ino, inode, block_num).0 is Ok,
    ensures
        ({
            let (_, d2, sb2, inode2) = appended(d, sb, ino, inode, block_num);
            block_added(zone, groups, d, sb, inode, block_num, d2, sb2, inode2)
        }),
{
    let path = path_to(sb.block_len() / 4, append_index(sb, inode));
    let slot = append_slot(sb, inode);
    let pages = pages_before(d, sb, inode);
    lemma_block_len(sb);
    lemma_path(sb.block_len() / 4, append_index(sb, inode));
    let (r1, d1, sb1, inode1) = root_page_of(d, sb, ino, inode, slot);
    let (r2, d2, sb2) = child_page_of(r1, d1, sb1, ino, path[2]);
    let (r3, d3, sb3) = child_page_of(r2, d2, sb2, ino, path[1]);
    assert(r1 is Ok && r2 is Ok && r3 is Ok && path[2] < r1->Ok_0.1.len()) by {
        reveal(ended);
        reveal(child_page_of);
    }
    assert(pages[0] == inode.block@[slot]);
    lemma_root(zone, groups, d, sb, ino, inode, slot);
    let (home, page) = r1->Ok_0;
    assert(page == page_before(d, sb, pages[0]));
    assert(pages[1] == page[path[2]]);
    lemma_child(zone, groups, d1, sb1, ino, home, page, path[2]);
    let (home2, page2) = r2->Ok_0;
    assert(page2 == page_before(d, sb, pages[1]));
    assert(pages[2] == page2[path[1]]);
    lemma_child(zone, groups, d2, sb2, ino, home2, page2, path[1]);
    let (home3, page3) = r3->Ok_0;
    assert(page3 == page_before(d, sb, pages[2]));
    assert(data_in_use(zone, groups, d2, sb2, home));
    assert(home != home3);
    lemma_ended(zone, groups, d3, sb3, home3, page3, path[0], block_num);
    let (_, d4) = ended(r3, d3, sb3, path[0], block_num);
    assert(data_in_use(zone, groups, d3, sb3, home));
    assert(data_in_use(zone, groups, d3, sb3, home2));
    assert(block_at(d4, sb3, home) == block_at(d2, sb2, home));
    assert(block_at(d4, sb3, home2) == block_at(d3, sb3, home2));
    assert(page_has(d4, sb3, home, page, path[2], home2));
    assert(page_has(d4, sb3, home2, page2, path[1], home3));
    assert forall|k: u32| #[trigger]
        data_in_use(zone, groups, d, sb, k) && !pages.contains(k) implies block_at(d4, sb3, k)
        == block_at(d, sb, k) by {
        assert(pages[0] != k && pages[1] != k && pages[2] != k);
        assert(data_in_use(zone, groups, d1, sb1, k));
        assert(data_in_use(zone, groups, d2, sb2, k));
        assert(data_in_use(zone, groups, d3, sb3, k));
    }
    reveal(pointer_to);
}

} // verus!
