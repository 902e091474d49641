//! Which block of a file an added block becomes, and that it can be added.

use vstd::prelude::*;
use crate::allocation::{allocated, Resource};
use crate::append::{
    append_index, append_slot, appendable, appended, child_page_of, ended, root_page_of, with_entry,
    with_pointer,
};
use crate::bytes::u32s_bytes;
use crate::contents::{law_block_number_is_what_the_bytes_say, number_known, number_of};
use crate::device::Storage;
use crate::errno::Errno;
use crate::fs::{lemma_block_len, HelloFS};
use crate::growth::{
    data_in_use, free_blocks_are_data, law_added_block_is_found, lemma_block_allocated, lemma_child,
    lemma_page_stored, lemma_root, page_ready, pages_before, pages_well_formed,
};
use crate::indirect::{lemma_path, path_to};
use crate::inode::Inode;
use crate::laws::{counts_agree, law_allocation_succeeds_while_something_is_left, total_left};
use crate::layout::with_inode;
use crate::plain::{bytes_per_block, law_size_is_put_together};
use crate::superblock::Superblock;
use crate::wellformed::{
    agree_in, group_well_formed, has_inode, lemma_inode_stored, lemma_same_in_zone,
    lemma_write_in_zone, lies_in, well_formed, Zone,
};

verus! {

/// A block that is added comes behind the whole blocks of the file, at the next
/// place whose number is one more than a multiple of the size of a block.
pub proof fn law_added_block_comes_behind_the_others(sb: Superblock, inode: Inode, size: int)
    requires
        sb.addressable(),
        size == if inode.mode as int / 4096 == 8 {
            4294967296 * inode.dir_acl + inode.size
        } else {
            inode.size as int
        },
        size / bytes_per_block(sb) + bytes_per_block(sb) <= u32::MAX,
    ensures
        ({
            let bs = bytes_per_block(sb);
            let n = append_index(sb, inode);
            &&& (n - 1) % bs == 0
            &&& size / bs < n
            &&& n <= size / bs + bs
        }),
{
    law_size_is_put_together(inode);
    lemma_block_len(sb);
    let bs = bytes_per_block(sb);
    let whole = size / bs;
    assert(whole >= 0) by (nonlinear_arith)
        requires
            whole == size / bs,
            size >= 0,
            bs > 0,
    ;
    let q = (whole + bs - 1) / bs;
    assert(q >= 0 && q * bs >= whole && q * bs <= whole + bs - 1 && (q * bs) % bs == 0)
        by (nonlinear_arith)
        requires
            q == (whole + bs - 1) / bs,
            whole >= 0,
            bs > 0,
    ;
}

/// The block that was added has its number: it is found where the number of
/// block `n` of the file stands, for the `n` that it was added as. The inode is
/// as it was, but that it may name a page where it named none.
pub proof fn law_added_block_has_its_number(
    zone: spec_fn(int) -> Zone,
    groups: u32,
    d: Seq<u8>,
    sb: Superblock,
    ino: u64,
    inode: Inode,
    block_num: u32,
)
    requires
        free_blocks_are_data(zone, groups, d, sb),
        has_inode(groups, sb, ino),
        appendable(sb, inode),
        pages_well_formed(zone, groups, d, sb, inode),
    ensures
        ({
            let (r, d2, sb2, inode2) = appended(d, sb, ino, inode, block_num);
            let n = append_index(sb, inode);
            &&& r is Ok ==> number_known(d2, sb2, inode2.block@, n) && number_of(
                d2,
                sb2,
                inode2.block@,
                n,
            ) == block_num
            &&& inode2.mode == inode.mode
            &&& inode2.size == inode.size
            &&& inode2.dir_acl == inode.dir_acl
            &&& forall|k: int|
                0 <= k < 15 && inode2.block@[k] != inode.block@[k] ==> k >= 12
                    && #[trigger] inode.block@[k] == 0
        }),
{
    law_added_block_is_found(zone, groups, d, sb, ino, inode, block_num);
    let (r, d2, sb2, inode2) = appended(d, sb, ino, inode, block_num);
    lemma_block_len(sb);
    lemma_path(sb.block_len() / 4, append_index(sb, inode));
    if r is Ok {
        law_block_number_is_what_the_bytes_say(d2, sb2, inode2.block@, append_index(sb, inode));
    }
    let slot = append_slot(sb, inode);
    reveal(root_page_of);
    assert forall|k: int| 0 <= k < 15 && inode2.block@[k] != inode.block@[k] implies k >= 12
        && #[trigger] inode.block@[k] == 0 by {
        let b = allocated(d, sb, Resource::Block, ino).0->Ok_0;
        assert(with_pointer(inode, slot, b).block@ =~= inode.block@.update(slot, b));
    }
}

/// What `append_block_to_inode` does: the block that was added has its number.
pub proof fn law_append_gives_the_block_its_number<S: Storage>(
    zone: spec_fn(int) -> Zone,
    groups: u32,
    before: HelloFS<S>,
    after: HelloFS<S>,
    ino: u64,
    inode: Inode,
    inode2: Inode,
    block_num: u32,
    new_size: u64,
    r: Result<(), Errno>,
    d: Seq<u8>,
    c0: Seq<u8>,
    c: Seq<u8>,
)
    requires
        exists|fs: &mut HelloFS<S>, i: &mut Inode|
            *fs == before && *final(fs) == after && *i == inode && *final(i) == inode2
                && #[trigger] call_ensures(
                HelloFS::<S>::append_block_to_inode,
                (fs, ino, i, block_num, new_size),
                r,
            ),
        before.device.now(d) == Some(c0),
        after.device.now(d) == Some(c),
        free_blocks_are_data(zone, groups, c0, before.superblock),
        has_inode(groups, before.superblock, ino),
        appendable(before.superblock, inode),
        pages_well_formed(zone, groups, c0, before.superblock, inode),
    ensures
        r is Ok ==> number_known(
            c,
            after.superblock,
            inode2.block@,
            append_index(before.superblock, inode),
        ) && number_of(
            c,
            after.superblock,
            inode2.block@,
            append_index(before.superblock, inode),
        ) == block_num,
{
    law_added_block_has_its_number(
        zone,
        groups,
        c0,
        before.superblock,
        ino,
        inode,
        block_num,
    );
}

/// What leaves the descriptors and the bitmaps leaves the counts.
proof fn lemma_counts_stay(
    zone: spec_fn(int) -> Zone,
    groups: u32,
    d: Seq<u8>,
    sb: Superblock,
    d2: Seq<u8>,
)
    requires
        counts_agree(zone, groups, d, sb, Resource::Block),
        well_formed(zone, groups, d2, sb),
        agree_in(zone, Zone::Groups, d, d2),
    ensures
        counts_agree(zone, groups, d2, sb, Resource::Block),
{
    lemma_total_stays(zone, groups, d, sb, d2, groups as int);
}

/// The counts of the first `k` groups.
proof fn lemma_total_stays(
    zone: spec_fn(int) -> Zone,
    groups: u32,
    d: Seq<u8>,
    sb: Superblock,
    d2: Seq<u8>,
    k: int,
)
    requires
        well_formed(zone, groups, d, sb),
        agree_in(zone, Zone::Groups, d, d2),
        0 <= k <= groups,
    ensures
        total_left(d2, sb, Resource::Block, k) == total_left(d, sb, Resource::Block, k),
    decreases k,
{
    if k > 0 {
        lemma_total_stays(zone, groups, d, sb, d2, k - 1);
        let g = (k - 1) as u32;
        assert(group_well_formed(zone, d, sb, g));
        lemma_same_in_zone(zone, Zone::Groups, d, d2, sb.group_addr(g), 32);
    }
}

/// The first page can be brought, or made.
proof fn lemma_root_succeeds(
    zone: spec_fn(int) -> Zone,
    groups: u32,
    d: Seq<u8>,
    sb: Superblock,
    ino: u64,
    inode: Inode,
    slot: int,
)
    requires
        free_blocks_are_data(zone, groups, d, sb),
        counts_agree(zone, groups, d, sb, Resource::Block),
        has_inode(groups, sb, ino),
        0 <= slot < 15,
        inode.block@[slot] != 0 ==> data_in_use(zone, groups, d, sb, inode.block@[slot]),
        inode.block@[slot] == 0 ==> sb.free_blocks_count > 0,
    ensures
        ({
            let (r, d1, sb1, _) = root_page_of(d, sb, ino, inode, slot);
            &&& r is Ok
            &&& counts_agree(zone, groups, d1, sb1, Resource::Block)
            &&& sb1.free_blocks_count >= sb.free_blocks_count - 1
        }),
{
    reveal(root_page_of);
    lemma_block_len(sb);
    if inode.block@[slot] == 0 {
        law_allocation_succeeds_while_something_is_left(
            zone,
            groups,
            d,
            sb,
            Resource::Block,
            ino,
        );
        let (r, d1, sb1) = allocated(d, sb, Resource::Block, ino);
        let inode1 = with_pointer(inode, slot, r->Ok_0);
        lemma_inode_stored(zone, groups, d1, sb1, ino, inode1);
        let d2 = with_inode(d1, sb1, ino, inode1)->Ok_0;
        assert(agree_in(zone, Zone::Groups, d1, d2));
        lemma_counts_stay(zone, groups, d1, sb1, d2);
    }
}

/// The page that a page names can be brought, or made.
proof fn lemma_child_succeeds(
    zone: spec_fn(int) -> Zone,
    groups: u32,
    d: Seq<u8>,
    sb: Superblock,
    ino: u64,
    home: u32,
    page: Seq<u32>,
    i: int,
)
    requires
        free_blocks_are_data(zone, groups, d, sb),
        counts_agree(zone, groups, d, sb, Resource::Block),
        has_inode(groups, sb, ino),
        data_in_use(zone, groups, d, sb, home),
        page_ready(d, sb, home, page),
        0 <= i < page.len(),
        page[i] != 0 ==> data_in_use(zone, groups, d, sb, page[i]) && page[i] != home,
        page[i] == 0 ==> sb.free_blocks_count > 0,
    ensures
        ({
            let (r, d2, sb2) = child_page_of(Ok((home, page)), d, sb, ino, i);
            &&& r is Ok
            &&& counts_agree(zone, groups, d2, sb2, Resource::Block)
            &&& sb2.free_blocks_count >= sb.free_blocks_count - 1
        }),
{
    reveal(child_page_of);
    lemma_block_len(sb);
    if page[i] == 0 {
        law_allocation_succeeds_while_something_is_left(
            zone,
            groups,
            d,
            sb,
            Resource::Block,
            ino,
        );
        lemma_block_allocated(zone, groups, d, sb, ino);
        let (r, d1, sb1) = allocated(d, sb, Resource::Block, ino);
        let b = r->Ok_0;
        assert(data_in_use(zone, groups, d1, sb1, home));
        lemma_page_stored(zone, groups, d1, sb1, home, page, i, b);
        let d2 = with_entry(d1, sb1, home, page, i, b)->Ok_0;
        lemma_entry_keeps_groups(zone, groups, d1, sb1, home, page, i, b);
        lemma_counts_stay(zone, groups, d1, sb1, d2);
    }
}

/// Storing a page in a block for data leaves the descriptors.
proof fn lemma_entry_keeps_groups(
    zone: spec_fn(int) -> Zone,
    groups: u32,
    d: Seq<u8>,
    sb: Superblock,
    home: u32,
    page: Seq<u32>,
    i: int,
    b: u32,
)
    requires
        sb.addressable(),
        data_in_use(zone, groups, d, sb, home),
        page.len() == sb.block_len() / 4,
        0 <= i < page.len(),
    ensures
        with_entry(d, sb, home, page, i, b) matches Ok(d2) && agree_in(zone, Zone::Groups, d, d2),
{
    lemma_block_len(sb);
    let bytes = u32s_bytes(page.update(i, b));
    assert(bytes.len() == sb.block_len());
    assert(lies_in(zone, d, Zone::Data, sb.block_addr(home), bytes.len() as int));
    lemma_write_in_zone(zone, d, Zone::Data, sb.block_addr(home), bytes);
}

/// A block can be added where the pages on the way can be had: three blocks are
/// free, which is as many as can be needed for pages, and the pages that are
/// there are data in use. The number of the block has to have a place in them.
pub proof fn law_adding_a_block_succeeds(
    zone: spec_fn(int) -> Zone,
    groups: u32,
    d: Seq<u8>,
    sb: Superblock,
    ino: u64,
    inode: Inode,
    block_num: u32,
)
    requires
        free_blocks_are_data(zone, groups, d, sb),
        counts_agree(zone, groups, d, sb, Resource::Block),
        has_inode(groups, sb, ino),
        appendable(sb, inode),
        pages_well_formed(zone, groups, d, sb, inode),
        sb.free_blocks_count >= 3,
        ({
            let p = bytes_per_block(sb) / 4;
            append_index(sb, inode) < 12 + p + p * p + p * p * p
        }),
    ensures
        appended(d, sb, ino, inode, block_num).0 is Ok,
{
    let p = sb.block_len() / 4;
    let n = append_index(sb, inode);
    let path = path_to(p, n);
    let slot = append_slot(sb, inode);
    let pages = pages_before(d, sb, inode);
    lemma_block_len(sb);
    lemma_path(p, n);
    lemma_reach(p, n);
    assert(pages[0] == inode.block@[slot]);
    lemma_root_succeeds(zone, groups, d, sb, ino, inode, slot);
    lemma_root(zone, groups, d, sb, ino, inode, slot);
    let (r1, d1, sb1, inode1) = root_page_of(d, sb, ino, inode, slot);
    let (home, page) = r1->Ok_0;
    if path.len() == 1 {
        lemma_last_succeeds(zone, groups, d1, sb1, home, page, path[0], block_num);
    } else {
        let i = path[path.len() - 1];
        assert(pages[1] == page[i]);
        lemma_child_succeeds(zone, groups, d1, sb1, ino, home, page, i);
        lemma_child(zone, groups, d1, sb1, ino, home, page, i);
        let (r2, d2, sb2) = child_page_of(r1, d1, sb1, ino, i);
        let (home2, page2) = r2->Ok_0;
        if path.len() == 2 {
            lemma_last_succeeds(zone, groups, d2, sb2, home2, page2, path[0], block_num);
        } else {
            assert(pages[2] == page2[path[1]]);
            assert(pages[2] != 0 ==> data_in_use(zone, groups, d1, sb1, pages[2]));
            lemma_child_succeeds(zone, groups, d2, sb2, ino, home2, page2, path[1]);
            lemma_child(zone, groups, d2, sb2, ino, home2, page2, path[1]);
            let (r3, d3, sb3) = child_page_of(r2, d2, sb2, ino, path[1]);
            let (home3, page3) = r3->Ok_0;
            lemma_last_succeeds(zone, groups, d3, sb3, home3, page3, path[0], block_num);
        }
    }
}

/// The number can be put into the last page.
proof fn lemma_last_succeeds(
    zone: spec_fn(int) -> Zone,
    groups: u32,
    d: Seq<u8>,
    sb: Superblock,
    home: u32,
    page: Seq<u32>,
    i: int,
    block_num: u32,
)
    requires
        free_blocks_are_data(zone, groups, d, sb),
        data_in_use(zone, groups, d, sb, home),
        page_ready(d, sb, home, page),
        0 <= i < page.len(),
    ensures
        ended(Ok((home, page)), d, sb, i, block_num).0 is Ok,
{
    reveal(ended);
    lemma_page_stored(zone, groups, d, sb, home, page, i, block_num);
}

/// A block within reach has a place in the first of three pages.
proof fn lemma_reach(p: int, n: int)
    requires
        p >= 1,
        12 <= n < 12 + p + p * p + p * p * p,
    ensures
        path_to(p, n).len() == 3 ==> 0 <= path_to(p, n)[2] < p,
{
    let q = n - 12 - p - p * p;
    if q >= 0 {
        assert(0 <= q / p / p < p) by (nonlinear_arith)
            requires
                0 <= q < p * p * p,
                p >= 1,
        ;
    }
}

} // verus!
