//! The entries of a directory, read off its bytes, and that listing and
//! searching a directory go by just those.

use vstd::prelude::*;
use vstd::arithmetic::power2::lemma_pow2_pos;
use vstd::utf8::{decode_utf8, encode_utf8, valid_utf8};
use crate::bytes::{u16_bytes, u32_bytes};
use crate::directory::{
    align4, listing, opened_or_created, record, search_for, with_record, EntryCollector, Listed,
    Search, SlotFinder,
};
use crate::dirent::{
    dirent_at, filetype_of, text_of, type_byte, utf8_lossy, walk_blocks, walk_directory, walk_from,
    DirVisitor, Walk,
};
use crate::errno::Errno;
use crate::filesystem::named_from;
use crate::inode::{FileType, Inode};
use crate::layout::inode_at;
use crate::plain::{bytes_per_block, law_numbers_are_little_endian, le16, le32, within};
use crate::superblock::Superblock;

verus! {

/// The entries of the block of `len` bytes at `base`, from offset `from` on,
/// stand at the offsets `offs`: each begins where the one before it ends, and
/// behind the last one is the end of the block or an entry without a length.
#[verifier::opaque]
pub open spec fn entries_at(d: Seq<u8>, base: int, len: int, from: int, offs: Seq<int>) -> bool {
    &&& offs.len() > 0 ==> offs[0] == from
    &&& forall|j: int|
        0 <= j < offs.len() ==> {
            let a = base + #[trigger] offs[j];
            &&& 0 <= offs[j]
            &&& offs[j] + 8 + d[a + 6] <= len
            &&& le16(d, a + 4) > 0
        }
    &&& forall|j: int|
        0 < j < offs.len() ==> #[trigger] offs[j] == offs[j - 1] + le16(
            d,
            base + offs[j - 1] + 4,
        )
    &&& {
        let end = if offs.len() == 0 {
            from
        } else {
            offs.last() + le16(d, base + offs.last() + 4)
        };
        end >= len || (end + 8 <= len && le16(d, base + end + 4) == 0)
    }
}

/// The name of the entry at address `a`: the text that its bytes encode, or
/// what stands in for it.
pub open spec fn name_at(d: Seq<u8>, a: int) -> Seq<char> {
    let bytes = d.subrange(a + 8, a + 8 + d[a + 6]);
    if valid_utf8(bytes) {
        decode_utf8(bytes)
    } else {
        utf8_lossy(bytes)
    }
}

/// The entry at address `a` is in use and names a kind of file.
pub open spec fn shown(d: Seq<u8>, a: int) -> bool {
    le32(d, a) != 0 && 1 <= d[a + 7] <= 7
}

/// What is listed is what the entry at address `a` says.
pub open spec fn lists(x: Listed, d: Seq<u8>, a: int) -> bool {
    &&& x.inode == le32(d, a)
    &&& x.name == name_at(d, a)
    &&& x.filetype == FileType::RegularFile <==> d[a + 7] == 1
    &&& x.filetype == FileType::Directory <==> d[a + 7] == 2
    &&& x.filetype == FileType::CharDevice <==> d[a + 7] == 3
    &&& x.filetype == FileType::BlockDevice <==> d[a + 7] == 4
    &&& x.filetype == FileType::NamedPipe <==> d[a + 7] == 5
    &&& x.filetype == FileType::Socket <==> d[a + 7] == 6
    &&& x.filetype == FileType::Symlink <==> d[a + 7] == 7
}

/// The bytes of a block are those of the device.
proof fn lemma_entry_bytes(d: Seq<u8>, base: int, len: int, b: Seq<u8>, off: int)
    requires
        within(d, base, len),
        b == d.subrange(base, base + len),
        0 <= off,
        off + 8 <= len,
    ensures
        dirent_at(b, off).inode == le32(d, base + off),
        dirent_at(b, off).rec_len == le16(d, base + off + 4),
        dirent_at(b, off).name_len == d[base + off + 6],
        dirent_at(b, off).file_type == d[base + off + 7],
        off + 8 + d[base + off + 6] <= len ==> text_of(dirent_at(b, off).name) == name_at(
            d,
            base + off,
        ),
{
    if off + 8 + d[base + off + 6] <= len {
        let a = base + off;
        assert(dirent_at(b, off).name =~= d.subrange(a + 8, a + 8 + d[a + 6]));
    }
}

/// `picks` says which of the entries at the offsets `offs` are listed: all
/// that are shown and no others, in order. `items` is what is listed of them.
#[verifier::opaque]
pub open spec fn picked(
    d: Seq<u8>,
    base: int,
    offs: Seq<int>,
    picks: Seq<int>,
    items: Seq<Listed>,
) -> bool {
    &&& items.len() == picks.len()
    &&& forall|i: int| 0 <= i < picks.len() ==> 0 <= #[trigger] picks[i] < offs.len()
    &&& forall|i: int|
        0 <= i < picks.len() ==> shown(d, base + offs[#[trigger] picks[i]]) && lists(
            items[i],
            d,
            base + offs[picks[i]],
        )
    &&& forall|i: int, j: int| 0 <= i < j < picks.len() ==> picks[i] < picks[j]
    &&& forall|j: int|
        0 <= j < offs.len() && shown(d, base + #[trigger] offs[j]) ==> picks.contains(j)
}

/// One more entry in front.
proof fn lemma_entry_in_front(d: Seq<u8>, base: int, len: int, from: int, rest: Seq<int>)
    requires
        0 <= from,
        from + 8 + d[base + from + 6] <= len,
        le16(d, base + from + 4) > 0,
        entries_at(d, base, len, from + le16(d, base + from + 4), rest),
    ensures
        entries_at(d, base, len, from, seq![from] + rest),
{
    reveal(entries_at);
    let offs = seq![from] + rest;
    assert forall|j: int| 0 < j < offs.len() implies #[trigger] offs[j] == offs[j - 1] + le16(
        d,
        base + offs[j - 1] + 4,
    ) by {
        assert(offs[j] == rest[j - 1]);
        if j > 1 {
            assert(offs[j - 1] == rest[j - 2]);
        }
    }
    assert forall|j: int| 0 <= j < offs.len() implies {
        let a = base + #[trigger] offs[j];
        &&& 0 <= offs[j]
        &&& offs[j] + 8 + d[a + 6] <= len
        &&& le16(d, a + 4) > 0
    } by {
        if j > 0 {
            assert(offs[j] == rest[j - 1]);
        }
    }
    if rest.len() > 0 {
        assert(offs.last() == rest.last());
    }
}

/// One more entry in front, which is listed if it is shown.
proof fn lemma_pick_in_front(
    d: Seq<u8>,
    base: int,
    from: int,
    rest: Seq<int>,
    more: Seq<int>,
    items: Seq<Listed>,
    x: Listed,
) -> (picks: Seq<int>)
    requires
        picked(d, base, rest, more, items),
        shown(d, base + from) ==> lists(x, d, base + from),
    ensures
        shown(d, base + from) ==> picked(d, base, seq![from] + rest, picks, seq![x] + items),
        !shown(d, base + from) ==> picked(d, base, seq![from] + rest, picks, items),
{
    reveal(picked);
    let is_shown = shown(d, base + from);
    let offs = seq![from] + rest;
    let lead = if is_shown {
        seq![0int]
    } else {
        Seq::empty()
    };
    let all = if is_shown {
        seq![x] + items
    } else {
        items
    };
    let n = lead.len() as int;
    let picks = lead + more.map_values(|t: int| t + 1);
    assert(forall|j: int| 0 < j < offs.len() ==> #[trigger] offs[j] == rest[j - 1]);
    assert(forall|i: int| n <= i < picks.len() ==> #[trigger] picks[i] == more[i - n] + 1);
    assert forall|i: int| 0 <= i < picks.len() implies 0 <= #[trigger] picks[i] < offs.len()
        && shown(d, base + offs[picks[i]]) && lists(all[i], d, base + offs[picks[i]]) by {
        if i >= n {
            assert(0 <= more[i - n] < rest.len());
            assert(offs[picks[i]] == rest[more[i - n]]);
            assert(all[i] == items[i - n]);
        }
    }
    assert forall|j: int| 0 <= j < offs.len() && shown(d, base + #[trigger] offs[j]) implies
        picks.contains(j) by {
        if j == 0 {
            assert(picks[0] == 0);
        } else {
            assert(more.contains(j - 1));
            let t = choose|t: int| 0 <= t < more.len() && more[t] == j - 1;
            assert(picks[n + t] == j);
        }
    }
    picks
}

/// Where no entry stands.
proof fn lemma_no_entries(d: Seq<u8>, base: int, len: int, from: int)
    ensures
        picked(d, base, Seq::empty(), Seq::empty(), Seq::empty()),
        entries_at(d, base, len, from, Seq::empty()) <==> from >= len || (from + 8 <= len && le16(
            d,
            base + from + 4,
        ) == 0),
{
    reveal(picked);
    reveal(entries_at);
}

/// The first entry, where there is one.
proof fn lemma_first_entry(d: Seq<u8>, base: int, len: int, from: int, offs: Seq<int>)
    requires
        entries_at(d, base, len, from, offs),
    ensures
        offs.len() > 0 ==> {
            &&& offs[0] == from
            &&& 0 <= from
            &&& from + 8 + d[base + from + 6] <= len
            &&& le16(d, base + from + 4) > 0
        },
        offs.len() == 0 ==> from >= len || (from + 8 <= len && le16(d, base + from + 4) == 0),
{
    reveal(entries_at);
}

/// What the entries of one block add to a listing.
proof fn lemma_block_listed(l: Seq<Listed>, d: Seq<u8>, base: int, len: int, from: int) -> (r: (
    Seq<int>,
    Seq<int>,
    Seq<Listed>,
))
    requires
        within(d, base, len),
        0 <= len,
        0 <= from,
    ensures
        ({
            let (offs, picks, items) = r;
            let (l2, walk) = walk_from::<EntryCollector>(
                l,
                base,
                d.subrange(base, base + len),
                from,
            );
            walk != Walk::Malformed ==> {
                &&& walk == Walk::Ended
                &&& entries_at(d, base, len, from, offs)
                &&& picked(d, base, offs, picks, items)
                &&& l2 == l + items
            }
        }),
    decreases
            (if from < len {
                len - from
            } else {
                0
            }),
{
    let b = d.subrange(base, base + len);
    let none = (Seq::<int>::empty(), Seq::<int>::empty(), Seq::<Listed>::empty());
    assert(l + none.2 =~= l);
    assert(b.len() == len);
    lemma_no_entries(d, base, len, from);
    if from + 8 > len {
        none
    } else {
        lemma_entry_bytes(d, base, len, b, from);
        let ent = dirent_at(b, from);
        if ent.rec_len <= 0 || from + 8 + ent.name_len > len {
            none
        } else {
            let (m, _) = EntryCollector::step(l, base, from, ent);
            let (rest, more, items) = lemma_block_listed(m, d, base, len, from + ent.rec_len);
            let (l2, walk) = walk_from::<EntryCollector>(l, base, b, from);
            assert((l2, walk) == walk_from::<EntryCollector>(m, base, b, from + ent.rec_len));
            if walk != Walk::Malformed {
                lemma_entry_in_front(d, base, len, from, rest);
                let x = Listed {
                    inode: ent.inode,
                    filetype: filetype_of(ent.file_type)->Some_0,
                    name: text_of(ent.name),
                };
                let picks = lemma_pick_in_front(d, base, from, rest, more, items, x);
                if shown(d, base + from) {
                    assert(m == l.push(x));
                    assert(m + items =~= l + (seq![x] + items));
                    (seq![from] + rest, picks, seq![x] + items)
                } else {
                    assert(m == l);
                    (seq![from] + rest, picks, items)
                }
            } else {
                none
            }
        }
    }
}

/// Where block `b` begins.
pub open spec fn block_place(sb: Superblock, b: u32) -> int {
    b * bytes_per_block(sb)
}

/// The entries of block `b` stand at the offsets `offs`. There is no block with
/// the number 0, and it has none.
pub open spec fn block_entries(d: Seq<u8>, sb: Superblock, b: u32, offs: Seq<int>) -> bool {
    let len = bytes_per_block(sb);
    if b == 0 {
        offs.len() == 0
    } else {
        within(d, block_place(sb, b), len) && entries_at(d, block_place(sb, b), len, 0, offs)
    }
}

/// The entries of the first blocks of a directory stand at the offsets `offs`,
/// block by block.
pub open spec fn directory_entries(
    d: Seq<u8>,
    sb: Superblock,
    blocks: Seq<u32>,
    offs: Seq<Seq<int>>,
) -> bool {
    forall|k: int| 0 <= k < offs.len() ==> block_entries(d, sb, blocks[k], #[trigger] offs[k])
}

/// There is an entry number `at.1` in block number `at.0`.
pub open spec fn is_entry(offs: Seq<Seq<int>>, at: (int, int)) -> bool {
    0 <= at.0 < offs.len() && 0 <= at.1 < offs[at.0].len()
}

/// The address of entry number `at.1` in block number `at.0`.
pub open spec fn entry_place(
    sb: Superblock,
    blocks: Seq<u32>,
    offs: Seq<Seq<int>>,
    at: (int, int),
) -> int {
    block_place(sb, blocks[at.0]) + offs[at.0][at.1]
}

/// One entry comes before another: in an earlier block, or earlier in the same.
pub open spec fn comes_before(a: (int, int), b: (int, int)) -> bool {
    a.0 < b.0 || (a.0 == b.0 && a.1 < b.1)
}

/// `items` is what is listed of a directory whose entries stand at `offs`: item
/// `i` is entry `places[i]`. All entries that are shown are listed and no
/// others, in the order in which they stand.
#[verifier::opaque]
pub open spec fn listed_from(
    d: Seq<u8>,
    sb: Superblock,
    blocks: Seq<u32>,
    offs: Seq<Seq<int>>,
    places: Seq<(int, int)>,
    items: Seq<Listed>,
) -> bool {
    &&& items.len() == places.len()
    &&& forall|i: int| 0 <= i < places.len() ==> is_entry(offs, #[trigger] places[i])
    &&& forall|i: int|
        0 <= i < places.len() ==> {
            let a = entry_place(sb, blocks, offs, #[trigger] places[i]);
            shown(d, a) && lists(items[i], d, a)
        }
    &&& forall|i: int, j: int| 0 <= i < j < places.len() ==> comes_before(places[i], places[j])
    &&& forall|at: (int, int)|
        is_entry(offs, at) && shown(d, #[trigger] entry_place(sb, blocks, offs, at))
            ==> places.contains(at)
}

/// One more block.
proof fn lemma_block_behind(
    d: Seq<u8>,
    sb: Superblock,
    blocks: Seq<u32>,
    offs: Seq<Seq<int>>,
    places: Seq<(int, int)>,
    items: Seq<Listed>,
    last: Seq<int>,
    picks: Seq<int>,
    more: Seq<Listed>,
) -> (all: Seq<(int, int)>)
    requires
        listed_from(d, sb, blocks, offs, places, items),
        picked(d, block_place(sb, blocks[offs.len() as int]), last, picks, more),
    ensures
        listed_from(d, sb, blocks, offs.push(last), all, items + more),
{
    reveal(picked);
    reveal(listed_from);
    let k = offs.len() as int;
    let n = places.len() as int;
    let offs2 = offs.push(last);
    let tail = picks.map_values(|j: int| (k, j));
    let all = places + tail;
    assert(forall|i: int| 0 <= i < n ==> #[trigger] all[i] == places[i]);
    assert(forall|i: int| n <= i < all.len() ==> #[trigger] all[i] == (k, picks[i - n]));
    assert forall|at: (int, int)| is_entry(offs, at) implies is_entry(offs2, at) && #[trigger]
        entry_place(sb, blocks, offs2, at) == entry_place(sb, blocks, offs, at) by {}
    assert forall|i: int| 0 <= i < all.len() implies is_entry(offs2, #[trigger] all[i]) && {
        let a = entry_place(sb, blocks, offs2, all[i]);
        shown(d, a) && lists((items + more)[i], d, a)
    } by {
        if i < n {
            assert(is_entry(offs, places[i]));
            let a = entry_place(sb, blocks, offs2, all[i]);
            assert(a == entry_place(sb, blocks, offs, places[i]));
        } else {
            let j = picks[i - n];
            assert(0 <= j < last.len());
            assert((items + more)[i] == more[i - n]);
        }
    }
    assert forall|i: int, j: int| 0 <= i < j < all.len() implies comes_before(all[i], all[j]) by {
        if i < n {
            assert(is_entry(offs, places[i]));
        }
    }
    assert forall|at: (int, int)|
        is_entry(offs2, at) && shown(
            d,
            #[trigger] entry_place(sb, blocks, offs2, at),
        ) implies all.contains(at) by {
        if at.0 < k {
            assert(is_entry(offs, at));
            assert(entry_place(sb, blocks, offs2, at) == entry_place(sb, blocks, offs, at));
            assert(places.contains(at));
            let i = choose|i: int| 0 <= i < n && places[i] == at;
            assert(all[i] == at);
        } else {
            assert(shown(d, block_place(sb, blocks[k]) + last[at.1]));
            assert(picks.contains(at.1));
            let i = choose|i: int| 0 <= i < picks.len() && picks[i] == at.1;
            assert(all[n + i] == at);
        }
    }
    all
}

/// What the blocks from number `offs.len()` on add to a listing.
proof fn lemma_blocks_listed(
    d: Seq<u8>,
    sb: Superblock,
    blocks: Seq<u32>,
    offs: Seq<Seq<int>>,
    places: Seq<(int, int)>,
    items: Seq<Listed>,
) -> (r: (Seq<Seq<int>>, Seq<(int, int)>))
    requires
        offs.len() <= blocks.len(),
        directory_entries(d, sb, blocks, offs),
        listed_from(d, sb, blocks, offs, places, items),
    ensures
        ({
            let (l, done) = walk_blocks::<EntryCollector>(
                items,
                d,
                sb,
                blocks,
                offs.len() as int,
            );
            done is Ok ==> {
                &&& r.0.len() == blocks.len()
                &&& directory_entries(d, sb, blocks, r.0)
                &&& listed_from(d, sb, blocks, r.0, r.1, l)
            }
        }),
    decreases blocks.len() - offs.len(),
{
    let k = offs.len() as int;
    let len = bytes_per_block(sb);
    lemma_pow2_pos(sb.log_block_size as nat);
    if k >= blocks.len() {
        (offs, places)
    } else {
        let base = block_place(sb, blocks[k]);
        let (last, picks, more) = if blocks[k] != 0 && within(d, base, len) {
            lemma_block_listed(items, d, base, len, 0)
        } else {
            (Seq::empty(), Seq::empty(), Seq::empty())
        };
        assert(items + Seq::<Listed>::empty() =~= items);
        lemma_no_entries(d, base, len, 0);
        let (l, done) = walk_blocks::<EntryCollector>(items, d, sb, blocks, k);
        if done is Ok {
            assert(base == sb.block_addr(blocks[k]));
            assert(blocks[k] != 0 ==> within(d, base, len) && entries_at(d, base, len, 0, last));
            let all = lemma_block_behind(d, sb, blocks, offs, places, items, last, picks, more);
            let offs2 = offs.push(last);
            assert(directory_entries(d, sb, blocks, offs2)) by {
                assert forall|j: int| 0 <= j < offs2.len() implies block_entries(
                    d,
                    sb,
                    blocks[j],
                    #[trigger] offs2[j],
                ) by {
                    if j < k {
                        assert(offs2[j] == offs[j]);
                    }
                }
            }
            lemma_blocks_listed(d, sb, blocks, offs2, all, items + more)
        } else {
            (offs, places)
        }
    }
}

/// A directory that is listed is listed entry by entry, as its bytes say: an
/// entry that is in use and names a kind of file is listed once, in the order
/// in which it stands, with its inode, its kind and its name, and nothing else
/// is listed. The entries stand at the offsets `r.0`, and item `i` is entry
/// `r.1[i]`.
pub proof fn law_listing_is_what_the_bytes_say(d: Seq<u8>, sb: Superblock, num: u64, dir: Inode)
    -> (r: (Seq<Seq<int>>, Seq<(int, int)>))
    requires
        inode_at(d, sb, num) == Ok::<Inode, Errno>(dir),
    ensures
        listing(d, sb, num) matches Ok(items) ==> {
            &&& dir.mode as int / 4096 == 4
            &&& r.0.len() == 15
            &&& directory_entries(d, sb, dir.block@, r.0)
            &&& listed_from(d, sb, dir.block@, r.0, r.1, items)
        },
{
    let none = Seq::<Listed>::empty();
    let offs = Seq::<Seq<int>>::empty();
    let places = Seq::<(int, int)>::empty();
    assert(listed_from(d, sb, dir.block@, offs, places, none)) by {
        reveal(listed_from);
    }
    lemma_blocks_listed(d, sb, dir.block@, offs, places, none)
}

/// What is listed as item `i` is an entry of the directory.
pub(crate) proof fn lemma_listed_item(
    d: Seq<u8>,
    sb: Superblock,
    blocks: Seq<u32>,
    offs: Seq<Seq<int>>,
    places: Seq<(int, int)>,
    items: Seq<Listed>,
    i: int,
)
    requires
        listed_from(d, sb, blocks, offs, places, items),
        0 <= i < items.len(),
    ensures
        items.len() == places.len(),
        is_entry(offs, places[i]),
        shown(d, entry_place(sb, blocks, offs, places[i])),
        lists(items[i], d, entry_place(sb, blocks, offs, places[i])),
{
    reveal(listed_from);
    assert(places[i] == places[i]);
}

/// As many are listed as there are places.
pub(crate) proof fn lemma_listed_count(
    d: Seq<u8>,
    sb: Superblock,
    blocks: Seq<u32>,
    offs: Seq<Seq<int>>,
    places: Seq<(int, int)>,
    items: Seq<Listed>,
)
    requires
        listed_from(d, sb, blocks, offs, places, items),
    ensures
        items.len() == places.len(),
{
    reveal(listed_from);
}

/// The entries behind the first one.
proof fn lemma_entries_behind(d: Seq<u8>, base: int, len: int, from: int, offs: Seq<int>)
    requires
        entries_at(d, base, len, from, offs),
        offs.len() > 0,
    ensures
        entries_at(d, base, len, from + le16(d, base + from + 4), offs.drop_first()),
        offs == seq![from] + offs.drop_first(),
{
    reveal(entries_at);
    let rest = offs.drop_first();
    assert(offs =~= seq![from] + rest);
    assert forall|j: int| 0 <= j < rest.len() implies #[trigger] rest[j] == offs[j + 1] by {}
    assert forall|j: int| 0 < j < rest.len() implies #[trigger] rest[j] == rest[j - 1] + le16(
        d,
        base + rest[j - 1] + 4,
    ) by {
        assert(offs[j + 1] == offs[j] + le16(d, base + offs[j] + 4));
        assert(rest[j - 1] == offs[j]);
    }
    if rest.len() > 0 {
        assert(rest[0] == offs[1]);
        assert(offs[1] == offs[0] + le16(d, base + offs[0] + 4));
        assert(rest.last() == offs.last());
    }
}

/// The walk over a block whose entries follow one another comes to its end.
proof fn lemma_block_listable(
    l: Seq<Listed>,
    d: Seq<u8>,
    base: int,
    len: int,
    from: int,
    offs: Seq<int>,
)
    requires
        within(d, base, len),
        0 <= len,
        0 <= from,
        entries_at(d, base, len, from, offs),
    ensures
        walk_from::<EntryCollector>(l, base, d.subrange(base, base + len), from).1 == Walk::Ended,
    decreases offs.len(),
{
    let b = d.subrange(base, base + len);
    lemma_first_entry(d, base, len, from, offs);
    if from < len {
        lemma_entry_bytes(d, base, len, b, from);
        if offs.len() > 0 {
            let ent = dirent_at(b, from);
            let (m, _) = EntryCollector::step(l, base, from, ent);
            lemma_entries_behind(d, base, len, from, offs);
            lemma_block_listable(m, d, base, len, from + ent.rec_len, offs.drop_first());
        }
    }
}

/// The walk over blocks whose entries follow one another comes to its end.
proof fn lemma_blocks_listable(
    l: Seq<Listed>,
    d: Seq<u8>,
    sb: Superblock,
    blocks: Seq<u32>,
    offs: Seq<Seq<int>>,
    k: int,
)
    requires
        0 <= k,
        offs.len() == blocks.len(),
        directory_entries(d, sb, blocks, offs),
    ensures
        walk_blocks::<EntryCollector>(l, d, sb, blocks, k).1 is Ok,
    decreases blocks.len() - k,
{
    let len = bytes_per_block(sb);
    lemma_pow2_pos(sb.log_block_size as nat);
    if k < blocks.len() {
        assert(block_entries(d, sb, blocks[k], offs[k]));
        let base = block_place(sb, blocks[k]);
        assert(base == sb.block_addr(blocks[k]));
        if blocks[k] == 0 {
            lemma_blocks_listable(l, d, sb, blocks, offs, k + 1);
        } else {
            lemma_block_listable(l, d, base, len, 0, offs[k]);
            let (m, _) = walk_from::<EntryCollector>(l, base, d.subrange(base, base + len), 0);
            lemma_blocks_listable(m, d, sb, blocks, offs, k + 1);
        }
    }
}

/// Listing blocks fails for no other reason than that they cannot be read.
proof fn lemma_blocks_fail(l: Seq<Listed>, d: Seq<u8>, sb: Superblock, blocks: Seq<u32>, k: int)
    requires
        0 <= k,
    ensures
        walk_blocks::<EntryCollector>(l, d, sb, blocks, k).1 matches Err(e) ==> e == Errno::EIO,
    decreases blocks.len() - k,
{
    let len = bytes_per_block(sb);
    lemma_pow2_pos(sb.log_block_size as nat);
    if k < blocks.len() {
        let base = block_place(sb, blocks[k]);
        assert(base == sb.block_addr(blocks[k]));
        if blocks[k] == 0 {
            lemma_blocks_fail(l, d, sb, blocks, k + 1);
        } else if within(d, base, len) {
            let r = lemma_block_listed(l, d, base, len, 0);
            let (m, _) = walk_from::<EntryCollector>(l, base, d.subrange(base, base + len), 0);
            lemma_blocks_fail(m, d, sb, blocks, k + 1);
        }
    }
}

/// A directory whose entries follow one another is listed. What is no directory
/// is refused, and a directory that cannot be listed is an error.
pub proof fn law_every_directory_is_listed(
    d: Seq<u8>,
    sb: Superblock,
    num: u64,
    offs: Seq<Seq<int>>,
)
    ensures
        match inode_at(d, sb, num) {
            Ok(dir) => {
                &&& dir.mode as int / 4096 != 4 ==> listing(d, sb, num) == Err::<
                    Seq<Listed>,
                    Errno,
                >(Errno::ENOTDIR)
                &&& dir.mode as int / 4096 == 4 && offs.len() == 15 && directory_entries(
                    d,
                    sb,
                    dir.block@,
                    offs,
                ) ==> listing(d, sb, num) is Ok
                &&& dir.mode as int / 4096 == 4 && listing(d, sb, num) is Err ==> listing(
                    d,
                    sb,
                    num,
                ) == Err::<Seq<Listed>, Errno>(Errno::EIO)
            },
            Err(e) => listing(d, sb, num) == Err::<Seq<Listed>, Errno>(e),
        },
{
    if inode_at(d, sb, num) is Ok {
        let blocks = inode_at(d, sb, num)->Ok_0.block@;
        lemma_blocks_fail(Seq::empty(), d, sb, blocks, 0);
        if offs.len() == 15 && directory_entries(d, sb, blocks, offs) {
            lemma_blocks_listable(Seq::empty(), d, sb, blocks, offs, 0);
        }
    }
}

/// The inode that is found under a name is that of the first entry with the
/// name; none is found where no entry has it. Entry `i` is the first with the
/// name, or the end.
pub proof fn law_first_entry_is_found(items: Seq<Listed>, name: Seq<char>, i: int)
    requires
        0 <= i <= items.len(),
        forall|j: int| 0 <= j < i ==> (#[trigger] items[j]).name != name,
        i < items.len() ==> items[i].name == name,
    ensures
        i < items.len() ==> named_from(items, name, 0) == Some(items[i].inode),
        i == items.len() ==> named_from(items, name, 0) is None,
{
    lemma_named_behind(items, name, 0, i);
}

/// Entries with other names are passed over.
proof fn lemma_named_behind(items: Seq<Listed>, name: Seq<char>, i: int, to: int)
    requires
        0 <= i <= to <= items.len(),
        forall|j: int| i <= j < to ==> (#[trigger] items[j]).name != name,
    ensures
        named_from(items, name, i) == named_from(items, name, to),
    decreases to - i,
{
    if i < to {
        lemma_named_behind(items, name, i + 1, to);
    }
}

/// The least multiple of 4 that is not less than `n`.
pub open spec fn up4(n: int) -> int {
    if n % 4 == 0 {
        n
    } else {
        n + 4 - n % 4
    }
}

/// Entries are padded to a multiple of 4 bytes.
pub proof fn law_entries_are_padded(n: int)
    ensures
        align4(n) == up4(n),
        align4(n) % 4 == 0,
        n <= align4(n) < n + 4,
{
}

/// The entry at address `a` has `need` bytes to spare behind its name.
pub open spec fn spares(d: Seq<u8>, a: int, need: int) -> bool {
    up4(8 + d[a + 6]) + need <= le16(d, a + 4)
}

/// A search stops at the first entry of a block that has the name.
proof fn lemma_block_match(
    s: Search,
    d: Seq<u8>,
    base: int,
    len: int,
    from: int,
    offs: Seq<int>,
    j: int,
)
    requires
        within(d, base, len),
        0 <= len,
        0 <= from,
        entries_at(d, base, len, from, offs),
        s.opened is None,
        0 <= j < offs.len(),
        name_at(d, base + offs[j]) == s.target,
        forall|i: int| 0 <= i < j ==> name_at(d, base + #[trigger] offs[i]) != s.target,
    ensures
        ({
            let (s2, walk) = walk_from::<SlotFinder>(s, base, d.subrange(base, base + len), from);
            let a = base + offs[j];
            &&& walk == Walk::Stopped
            &&& s2.target == s.target
            &&& s2.opened == Some(le32(d, a) as u32)
            &&& le32(d, a) == 0 ==> s2.alloc_addr == a && s2.alloc_len == le16(d, a + 4)
        }),
    decreases offs.len(),
{
    let b = d.subrange(base, base + len);
    lemma_first_entry(d, base, len, from, offs);
    lemma_entry_bytes(d, base, len, b, from);
    let ent = dirent_at(b, from);
    if j > 0 {
        let rest = offs.drop_first();
        assert(name_at(d, base + offs[0]) != s.target);
        lemma_entries_behind(d, base, len, from, offs);
        assert forall|i: int| 0 <= i < j - 1 implies name_at(d, base + #[trigger] rest[i])
            != s.target by {
            assert(rest[i] == offs[i + 1]);
        }
        let (s1, _) = SlotFinder::step(s, base, from, ent);
        lemma_block_match(s1, d, base, len, from + ent.rec_len, rest, j - 1);
    }
}

/// A search goes through a block where no entry has the name. A place that it
/// remembers already is kept.
proof fn lemma_block_no_match(
    s: Search,
    d: Seq<u8>,
    base: int,
    len: int,
    from: int,
    offs: Seq<int>,
)
    requires
        within(d, base, len),
        0 <= len,
        0 <= from,
        entries_at(d, base, len, from, offs),
        s.opened is None,
        forall|i: int| 0 <= i < offs.len() ==> name_at(d, base + #[trigger] offs[i]) != s.target,
    ensures
        ({
            let (s2, walk) = walk_from::<SlotFinder>(s, base, d.subrange(base, base + len), from);
            &&& walk == Walk::Ended
            &&& s2.opened is None
            &&& s2.target == s.target
            &&& s2.target_rec_len == s.target_rec_len
            &&& s.alloc_len != 0 ==> s2 == s
        }),
    decreases offs.len(),
{
    let b = d.subrange(base, base + len);
    lemma_first_entry(d, base, len, from, offs);
    if from < len {
        lemma_entry_bytes(d, base, len, b, from);
        if offs.len() > 0 {
            let ent = dirent_at(b, from);
            let rest = offs.drop_first();
            assert(name_at(d, base + offs[0]) != s.target);
            lemma_entries_behind(d, base, len, from, offs);
            assert forall|i: int| 0 <= i < rest.len() implies name_at(d, base + #[trigger] rest[i])
                != s.target by {
                assert(rest[i] == offs[i + 1]);
            }
            let (s1, _) = SlotFinder::step(s, base, from, ent);
            lemma_block_no_match(s1, d, base, len, from + ent.rec_len, rest);
        }
    }
}

/// A search for a name that no entry of a block has remembers the first entry
/// with room for it.
proof fn lemma_block_room(
    s: Search,
    d: Seq<u8>,
    base: int,
    len: int,
    from: int,
    offs: Seq<int>,
    j: int,
)
    requires
        within(d, base, len),
        0 <= len,
        0 <= from,
        entries_at(d, base, len, from, offs),
        s.opened is None,
        s.alloc_len == 0,
        forall|i: int| 0 <= i < offs.len() ==> name_at(d, base + #[trigger] offs[i]) != s.target,
        forall|i: int|
            0 <= i < j && i < offs.len() ==> !spares(
                d,
                base + #[trigger] offs[i],
                s.target_rec_len,
            ),
        0 <= j <= offs.len(),
        j < offs.len() ==> spares(d, base + offs[j], s.target_rec_len),
    ensures
        ({
            let (s2, _) = walk_from::<SlotFinder>(s, base, d.subrange(base, base + len), from);
            if j < offs.len() {
                s2.alloc_addr == base + offs[j] && s2.alloc_len == le16(d, base + offs[j] + 4)
            } else {
                s2 == s
            }
        }),
    decreases offs.len(),
{
    let b = d.subrange(base, base + len);
    lemma_first_entry(d, base, len, from, offs);
    if from < len {
        lemma_entry_bytes(d, base, len, b, from);
        if offs.len() > 0 {
            let ent = dirent_at(b, from);
            let rest = offs.drop_first();
            law_entries_are_padded(8 + ent.name_len);
            assert(name_at(d, base + offs[0]) != s.target);
            lemma_entries_behind(d, base, len, from, offs);
            assert forall|i: int| 0 <= i < rest.len() implies name_at(d, base + #[trigger] rest[i])
                != s.target by {
                assert(rest[i] == offs[i + 1]);
            }
            let (s1, _) = SlotFinder::step(s, base, from, ent);
            if j == 0 {
                lemma_block_no_match(s1, d, base, len, from + ent.rec_len, rest);
            } else {
                assert(!spares(d, base + offs[0], s.target_rec_len));
                assert forall|i: int| 0 <= i < j - 1 && i < rest.len() implies !spares(
                    d,
                    base + #[trigger] rest[i],
                    s.target_rec_len,
                ) by {
                    assert(rest[i] == offs[i + 1]);
                }
                lemma_block_room(s1, d, base, len, from + ent.rec_len, rest, j - 1);
            }
        }
    }
}

/// No entry from block number `k` on, of those before `at`, has the name.
pub open spec fn none_before(
    d: Seq<u8>,
    sb: Superblock,
    blocks: Seq<u32>,
    offs: Seq<Seq<int>>,
    k: int,
    at: (int, int),
    name: Seq<char>,
) -> bool {
    forall|x: (int, int)|
        is_entry(offs, x) && k <= x.0 && comes_before(x, at) ==> name_at(
            d,
            #[trigger] entry_place(sb, blocks, offs, x),
        ) != name
}

/// No entry from block number `k` on, of those before `at`, has room.
pub open spec fn full_before(
    d: Seq<u8>,
    sb: Superblock,
    blocks: Seq<u32>,
    offs: Seq<Seq<int>>,
    k: int,
    at: (int, int),
    need: int,
) -> bool {
    forall|x: (int, int)|
        is_entry(offs, x) && k <= x.0 && comes_before(x, at) ==> !spares(
            d,
            #[trigger] entry_place(sb, blocks, offs, x),
            need,
        )
}

/// A search stops at the first entry of a directory that has the name.
proof fn lemma_blocks_match(
    s: Search,
    d: Seq<u8>,
    sb: Superblock,
    blocks: Seq<u32>,
    offs: Seq<Seq<int>>,
    k: int,
    at: (int, int),
)
    requires
        0 <= k <= at.0,
        offs.len() == blocks.len(),
        directory_entries(d, sb, blocks, offs),
        is_entry(offs, at),
        s.opened is None,
        name_at(d, entry_place(sb, blocks, offs, at)) == s.target,
        none_before(d, sb, blocks, offs, k, at, s.target),
    ensures
        ({
            let (s2, r) = walk_blocks::<SlotFinder>(s, d, sb, blocks, k);
            let a = entry_place(sb, blocks, offs, at);
            &&& r == Ok::<bool, Errno>(true)
            &&& s2.target == s.target
            &&& s2.opened == Some(le32(d, a) as u32)
            &&& le32(d, a) == 0 ==> s2.alloc_addr == a && s2.alloc_len == le16(d, a + 4)
        }),
    decreases at.0 - k,
{
    let len = bytes_per_block(sb);
    lemma_pow2_pos(sb.log_block_size as nat);
    assert(block_entries(d, sb, blocks[k], offs[k]));
    let base = block_place(sb, blocks[k]);
    assert(base == sb.block_addr(blocks[k]));
    assert forall|i: int|
        0 <= i < offs[k].len() && (k < at.0 || i < at.1) implies name_at(
        d,
        base + #[trigger] offs[k][i],
    ) != s.target by {
        assert(name_at(d, entry_place(sb, blocks, offs, (k, i))) != s.target);
    }
    if k == at.0 {
        lemma_block_match(s, d, base, len, 0, offs[k], at.1);
    } else if blocks[k] == 0 {
        lemma_blocks_match(s, d, sb, blocks, offs, k + 1, at);
    } else {
        lemma_block_no_match(s, d, base, len, 0, offs[k]);
        let (s1, _) = walk_from::<SlotFinder>(s, base, d.subrange(base, base + len), 0);
        lemma_blocks_match(s1, d, sb, blocks, offs, k + 1, at);
    }
}

/// A search goes through a directory where no entry has the name, and remembers
/// the first entry with room, if there is one before the end.
proof fn lemma_blocks_room(
    s: Search,
    d: Seq<u8>,
    sb: Superblock,
    blocks: Seq<u32>,
    offs: Seq<Seq<int>>,
    k: int,
    at: (int, int),
)
    requires
        0 <= k <= at.0,
        at.0 <= blocks.len(),
        offs.len() == blocks.len(),
        directory_entries(d, sb, blocks, offs),
        at.0 < blocks.len() ==> is_entry(offs, at) && spares(
            d,
            entry_place(sb, blocks, offs, at),
            s.target_rec_len,
        ),
        s.opened is None,
        s.alloc_len == 0,
        none_before(d, sb, blocks, offs, k, (blocks.len() as int, 0), s.target),
        full_before(d, sb, blocks, offs, k, at, s.target_rec_len),
    ensures
        ({
            let (s2, r) = walk_blocks::<SlotFinder>(s, d, sb, blocks, k);
            let a = entry_place(sb, blocks, offs, at);
            &&& r == Ok::<bool, Errno>(false)
            &&& s2.opened is None
            &&& s2.target == s.target
            &&& at.0 < blocks.len() ==> s2.alloc_addr == a && s2.alloc_len == le16(d, a + 4)
            &&& at.0 == blocks.len() ==> s2 == s
        }),
    decreases blocks.len() - k,
{
    let len = bytes_per_block(sb);
    lemma_pow2_pos(sb.log_block_size as nat);
    if k < blocks.len() {
        assert(block_entries(d, sb, blocks[k], offs[k]));
        let base = block_place(sb, blocks[k]);
        assert(base == sb.block_addr(blocks[k]));
        assert forall|i: int| 0 <= i < offs[k].len() implies name_at(
            d,
            base + #[trigger] offs[k][i],
        ) != s.target by {
            assert(name_at(d, entry_place(sb, blocks, offs, (k, i))) != s.target);
        }
        let j = if k == at.0 {
            at.1
        } else {
            offs[k].len() as int
        };
        assert forall|i: int| 0 <= i < j && i < offs[k].len() implies !spares(
            d,
            base + #[trigger] offs[k][i],
            s.target_rec_len,
        ) by {
            assert(!spares(d, entry_place(sb, blocks, offs, (k, i)), s.target_rec_len));
        }
        if blocks[k] == 0 {
            lemma_blocks_room(s, d, sb, blocks, offs, k + 1, at);
        } else {
            lemma_block_no_match(s, d, base, len, 0, offs[k]);
            lemma_block_room(s, d, base, len, 0, offs[k], j);
            let (s1, _) = walk_from::<SlotFinder>(s, base, d.subrange(base, base + len), 0);
            if k == at.0 {
                lemma_entry_length(d, base, len, 0, offs[k], j);
                lemma_blocks_pass(s1, d, sb, blocks, offs, k + 1);
            } else {
                lemma_blocks_room(s1, d, sb, blocks, offs, k + 1, at);
            }
        }
    }
}

/// An entry has a length.
proof fn lemma_entry_length(d: Seq<u8>, base: int, len: int, from: int, offs: Seq<int>, j: int)
    requires
        entries_at(d, base, len, from, offs),
        0 <= j < offs.len(),
    ensures
        le16(d, base + offs[j] + 4) > 0,
{
    reveal(entries_at);
    assert(offs[j] == offs[j]);
}

/// A search that remembers a place keeps it where no entry has the name.
proof fn lemma_blocks_pass(
    s: Search,
    d: Seq<u8>,
    sb: Superblock,
    blocks: Seq<u32>,
    offs: Seq<Seq<int>>,
    k: int,
)
    requires
        0 <= k,
        offs.len() == blocks.len(),
        directory_entries(d, sb, blocks, offs),
        s.opened is None,
        s.alloc_len != 0,
        none_before(d, sb, blocks, offs, k, (blocks.len() as int, 0), s.target),
    ensures
        walk_blocks::<SlotFinder>(s, d, sb, blocks, k) == (s, Ok::<bool, Errno>(false)),
    decreases blocks.len() - k,
{
    let len = bytes_per_block(sb);
    lemma_pow2_pos(sb.log_block_size as nat);
    if k < blocks.len() {
        assert(block_entries(d, sb, blocks[k], offs[k]));
        let base = block_place(sb, blocks[k]);
        assert(base == sb.block_addr(blocks[k]));
        assert forall|i: int| 0 <= i < offs[k].len() implies name_at(
            d,
            base + #[trigger] offs[k][i],
        ) != s.target by {
            assert(name_at(d, entry_place(sb, blocks, offs, (k, i))) != s.target);
        }
        if blocks[k] != 0 {
            lemma_block_no_match(s, d, base, len, 0, offs[k]);
        }
        lemma_blocks_pass(s, d, sb, blocks, offs, k + 1);
    }
}

/// A file whose name the directory has is opened, and nothing is changed: `at`
/// is the first entry with the name.
pub proof fn law_entry_that_is_there_is_opened(
    d: Seq<u8>,
    sb: Superblock,
    parent: u64,
    dir: Inode,
    offs: Seq<Seq<int>>,
    at: (int, int),
    name: Seq<char>,
    mode: u32,
    rdev: u32,
    now: Option<u64>,
)
    requires
        inode_at(d, sb, parent) == Ok::<Inode, Errno>(dir),
        dir.mode as int / 4096 == 4,
        offs.len() == 15,
        directory_entries(d, sb, dir.block@, offs),
        is_entry(offs, at),
        name_at(d, entry_place(sb, dir.block@, offs, at)) == name,
        none_before(d, sb, dir.block@, offs, 0, at, name),
        le32(d, entry_place(sb, dir.block@, offs, at)) != 0,
    ensures
        ({
            let num = le32(d, entry_place(sb, dir.block@, offs, at));
            let (r, d2, sb2) = opened_or_created(d, sb, parent, name, mode, rdev, now);
            &&& d2 == d
            &&& sb2 == sb
            &&& match inode_at(d, sb, num as u64) {
                Ok(inode) => r matches Ok(found) && found.0 == num && found.1 == inode,
                Err(e) => r == Err::<(u32, Inode), Errno>(e),
            }
        }),
{
    lemma_blocks_match(search_for(name), d, sb, dir.block@, offs, 0, at);
}

/// The search of a directory that has no entry in use under the name: it is
/// made in the place of a deleted entry with the name, in the first entry with
/// room, or there is no place for it.
pub proof fn law_entry_that_is_not_there_has_a_place(
    d: Seq<u8>,
    sb: Superblock,
    dir: Inode,
    offs: Seq<Seq<int>>,
    at: (int, int),
    name: Seq<char>,
    deleted: bool,
)
    requires
        dir.mode as int / 4096 == 4,
        offs.len() == 15,
        directory_entries(d, sb, dir.block@, offs),
        if deleted {
            &&& is_entry(offs, at)
            &&& name_at(d, entry_place(sb, dir.block@, offs, at)) == name
            &&& none_before(d, sb, dir.block@, offs, 0, at, name)
            &&& le32(d, entry_place(sb, dir.block@, offs, at)) == 0
        } else {
            let need = up4(8int + encode_utf8(name).len());
            &&& is_entry(offs, at) || at == (15int, 0int)
            &&& none_before(d, sb, dir.block@, offs, 0, (15, 0), name)
            &&& full_before(d, sb, dir.block@, offs, 0, at, need)
            &&& at.0 < 15 ==> spares(d, entry_place(sb, dir.block@, offs, at), need)
        },
    ensures
        ({
            let (s, r) = walk_directory::<SlotFinder>(search_for(name), d, sb, dir);
            let a = entry_place(sb, dir.block@, offs, at);
            &&& r is Ok
            &&& s.target == name
            &&& deleted ==> s.opened == Some(0u32)
            &&& !deleted ==> s.opened is None
            &&& at.0 < 15 ==> s.alloc_addr == a && s.alloc_len == le16(d, a + 4)
            &&& at.0 == 15 ==> s.alloc_len == 0
        }),
{
    law_entries_are_padded(8int + encode_utf8(name).len());
    if deleted {
        lemma_blocks_match(search_for(name), d, sb, dir.block@, offs, 0, at);
    } else {
        lemma_blocks_room(search_for(name), d, sb, dir.block@, offs, 0, at);
    }
}

/// A new entry takes what the entry in `buf` has to spare behind its name: that
/// entry keeps its inode, its kind and its name and ends where the new one
/// begins, and the new one has the inode, the kind and the name that it was made
/// for and reaches to the end.
pub proof fn law_new_entry_takes_what_is_spare(
    buf: Seq<u8>,
    ino: u32,
    ft: FileType,
    name: Seq<u8>,
)
    requires
        8 <= buf.len() <= 65535,
        name.len() <= 255,
    ensures
        ({
            let cut = up4(8 + buf[6]);
            let r = with_record(buf, false, ino, Some(ft), name);
            &&& r is Ok <==> cut + 8 + name.len() <= buf.len()
            &&& r matches Ok(b) ==> {
                &&& b.len() == buf.len()
                &&& forall|i: int|
                    0 <= i < b.len() && i != 4 && i != 5 && !(cut <= i < cut + 8 + name.len())
                        ==> #[trigger] b[i] == buf[i]
                &&& le16(b, 4) == cut
                &&& le32(b, cut) == ino
                &&& le16(b, cut + 4) == buf.len() - cut
                &&& b[cut + 6] == name.len()
                &&& forall|i: int| 0 <= i < name.len() ==> #[trigger] b[cut + 8 + i] == name[i]
                &&& b[cut + 7] == 1 <==> ft == FileType::RegularFile
                &&& b[cut + 7] == 2 <==> ft == FileType::Directory
                &&& b[cut + 7] == 3 <==> ft == FileType::CharDevice
                &&& b[cut + 7] == 4 <==> ft == FileType::BlockDevice
                &&& b[cut + 7] == 5 <==> ft == FileType::NamedPipe
                &&& b[cut + 7] == 6 <==> ft == FileType::Socket
                &&& b[cut + 7] == 7 <==> ft == FileType::Symlink
            }
        }),
{
    reveal(with_record);
    let cut = up4(8 + buf[6]);
    law_entries_are_padded(8 + buf[6]);
    let r = with_record(buf, false, ino, Some(ft), name);
    if r is Ok {
        let b = r->Ok_0;
        let rec = record(ino, buf.len() - cut, ft, name);
        law_numbers_are_little_endian(rec, 0, cut as u16, ino);
        law_numbers_are_little_endian(rec, 0, (buf.len() - cut) as u16, ino);
        assert(rec.len() == 8 + name.len());
        assert forall|i: int| 0 <= i < rec.len() implies #[trigger] b[cut + i] == rec[i] by {}
        assert(b[cut + 0] == u32_bytes(ino)[0] && b[cut + 1] == u32_bytes(ino)[1]);
        assert(b[cut + 2] == u32_bytes(ino)[2] && b[cut + 3] == u32_bytes(ino)[3]);
        assert(b[cut + 4] == u16_bytes((buf.len() - cut) as u16)[0]);
        assert(b[cut + 5] == u16_bytes((buf.len() - cut) as u16)[1]);
        assert(b[cut + 6] == name.len() as u8);
        assert(b[cut + 7] == type_byte(ft));
        assert(b[4] == u16_bytes(cut as u16)[0] && b[5] == u16_bytes(cut as u16)[1]);
        assert forall|i: int| 0 <= i < name.len() implies #[trigger] b[cut + 8 + i] == name[i] by {
            assert(b[cut + (8 + i)] == rec[8 + i]);
        }
    }
}

/// A new entry in the place of a deleted one has the inode and the kind that it
/// was made for, and all else is as it was.
pub proof fn law_deleted_entry_is_used_again(
    buf: Seq<u8>,
    ino: u32,
    ft: FileType,
    name: Seq<u8>,
)
    requires
        buf.len() >= 8,
    ensures
        with_record(buf, true, ino, Some(ft), name) matches Ok(b) && {
            &&& b.len() == buf.len()
            &&& forall|i: int| 4 <= i < b.len() && i != 7 ==> #[trigger] b[i] == buf[i]
            &&& le32(b, 0) == ino
            &&& b[7] == 1 <==> ft == FileType::RegularFile
            &&& b[7] == 2 <==> ft == FileType::Directory
            &&& b[7] == 3 <==> ft == FileType::CharDevice
            &&& b[7] == 4 <==> ft == FileType::BlockDevice
            &&& b[7] == 5 <==> ft == FileType::NamedPipe
            &&& b[7] == 6 <==> ft == FileType::Socket
            &&& b[7] == 7 <==> ft == FileType::Symlink
        },
{
    reveal(with_record);
    let b = with_record(buf, true, ino, Some(ft), name)->Ok_0;
    law_numbers_are_little_endian(b, 0, 0, ino);
    assert(b[0] == u32_bytes(ino)[0] && b[1] == u32_bytes(ino)[1]);
    assert(b[2] == u32_bytes(ino)[2] && b[3] == u32_bytes(ino)[3]);
    assert(b[7] == type_byte(ft));
}

} // verus!
