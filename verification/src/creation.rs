//! What creating a file does to the directory that it is created in.

use vstd::prelude::*;
use vstd::utf8::{encode_utf8, encode_utf8_decode_utf8, encode_utf8_valid_utf8};
use crate::allocation::{allocated, Resource};
use crate::bytes::{lemma_u16_bytes_at, lemma_u32_bytes_at, overwrite, u16_bytes};
use crate::device::fetch;
use crate::directory::{
    align4, listing, made, new_inode, opened_or_created, record, search_for, with_record,
    EntryCollector, Listed, Search, SlotFinder,
};
use crate::dirent::{
    dirent_at, filetype_of, lemma_type_bytes, text_of, type_byte, walk_blocks, walk_directory,
    walk_from, DirEnt, DirVisitor, Walk, DIRENT_HEADER_LEN,
};
use crate::errno::Errno;
use crate::filesystem::named_from;
use crate::fs::lemma_block_len;
use crate::inode::{kind_of_mode, FileType, Inode};
use crate::laws::{counts_agree, law_allocation_succeeds_while_something_is_left};
use crate::layout::{block_at, inode_at, with_inode, written};
use crate::superblock::Superblock;
use crate::wellformed::{
    agree_in, apart, has_inode, law_allocated_inode_was_free, law_allocation_keeps_well_formed,
    law_allocation_leaves_inodes, law_stored_inode_is_loaded, law_storing_leaves_other_inodes,
    law_writing_data_keeps_well_formed, lemma_allocated, lemma_blocks_apart, lemma_inode_stored,
    lemma_same_in_zone, lemma_written, lies_in, well_formed, Zone,
};

verus! {

/// The entries of a block from `off` on follow one another without gaps or
/// overlaps up to the end of the block or an entry without a length.
pub open spec fn entries_well_formed(b: Seq<u8>, off: int) -> bool
    decreases (if off < b.len() {
            b.len() - off
        } else {
            0
        }),
{
    if off >= b.len() {
        off == b.len()
    } else {
        let ent = dirent_at(b, off);
        &&& off + DIRENT_HEADER_LEN <= b.len()
        &&& ent.rec_len > 0 ==> {
            &&& DIRENT_HEADER_LEN + ent.name_len <= ent.rec_len
            &&& off + ent.rec_len <= b.len()
            &&& entries_well_formed(b, off + ent.rec_len)
        }
    }
}

/// An entry stands at `p`, and a walk from `off` comes by it.
pub open spec fn entry_stands_at(b: Seq<u8>, off: int, p: int) -> bool
    decreases (if off < b.len() {
            b.len() - off
        } else {
            0
        }),
{
    if off >= b.len() {
        false
    } else {
        let ent = dirent_at(b, off);
        ent.rec_len > 0 && (off == p || entry_stands_at(b, off + ent.rec_len, p))
    }
}

/// No entry from `off` on that stands before `end` has the name.
pub open spec fn name_absent(b: Seq<u8>, off: int, end: int, name: Seq<char>) -> bool
    decreases (if off < b.len() {
            b.len() - off
        } else {
            0
        }),
{
    if off >= b.len() || off >= end {
        true
    } else {
        let ent = dirent_at(b, off);
        ent.rec_len > 0 ==> text_of(ent.name) != name && name_absent(
            b,
            off + ent.rec_len,
            end,
            name,
        )
    }
}

/// Where an entry that a walk comes by can stand.
proof fn lemma_stands(b: Seq<u8>, off: int, p: int)
    requires
        0 <= off,
        entries_well_formed(b, off),
        entry_stands_at(b, off, p),
    ensures
        off <= p,
        p + DIRENT_HEADER_LEN + dirent_at(b, p).name_len <= p + dirent_at(b, p).rec_len <= b.len(),
        0 < dirent_at(b, p).rec_len,
        entries_well_formed(b, p + dirent_at(b, p).rec_len),
    decreases b.len() - off,
{
    if off != p {
        lemma_stands(b, off + dirent_at(b, off).rec_len, p);
    }
}

/// The first entry with a name stays the first when one more is listed, and
/// where there was none, it is the one more if it has the name.
proof fn lemma_named_push(l: Seq<Listed>, x: Listed, name: Seq<char>, i: int)
    requires
        0 <= i <= l.len(),
    ensures
        named_from(l.push(x), name, i) == match named_from(l, name, i) {
            Some(ino) => Some(ino),
            None => if x.name == name {
                Some(x.inode)
            } else {
                None
            },
        },
    decreases l.len() - i,
{
    if i < l.len() {
        lemma_named_push(l, x, name, i + 1);
    } else {
        assert(named_from(l.push(x), name, i + 1) is None);
    }
}

/// The walk that collects entries comes to the end of a well-formed block. It
/// does not lose an entry with the name, and it finds none where there is none.
proof fn lemma_collect(l: Seq<Listed>, addr: int, b: Seq<u8>, off: int, name: Seq<char>)
    requires
        0 <= off,
        entries_well_formed(b, off),
        named_from(l, name, 0) is Some || name_absent(b, off, b.len() as int, name),
    ensures
        ({
            let (l2, walk) = walk_from::<EntryCollector>(l, addr, b, off);
            walk == Walk::Ended && named_from(l2, name, 0) == named_from(l, name, 0)
        }),
    decreases b.len() - off,
{
    if off < b.len() {
        let ent = dirent_at(b, off);
        if ent.rec_len > 0 {
            let (l2, _) = EntryCollector::step(l, addr, off, ent);
            if l2 != l {
                let x = Listed {
                    inode: ent.inode,
                    filetype: filetype_of(ent.file_type)->Some_0,
                    name: text_of(ent.name),
                };
                lemma_named_push(l, x, name, 0);
            }
            lemma_collect(l2, addr, b, off + ent.rec_len, name);
        }
    }
}

/// The entry at `p` has `need` bytes to spare.
pub open spec fn has_room(b: Seq<u8>, p: int, need: int) -> bool {
    align4(DIRENT_HEADER_LEN + dirent_at(b, p).name_len) + need <= dirent_at(b, p).rec_len
}

/// What a search finds in a block: either no entry has the name, and an entry
/// with room is remembered unless one was before, or `p` is where the first
/// entry with the name stands.
proof fn lemma_search(s: Search, addr: int, b: Seq<u8>, off: int) -> (p: int)
    requires
        0 <= off,
        entries_well_formed(b, off),
        s.opened is None,
    ensures
        ({
            let (s2, walk) = walk_from::<SlotFinder>(s, addr, b, off);
            let ent = dirent_at(b, p);
            let here = s2.alloc_addr == addr + p && s2.alloc_len == ent.rec_len;
            &&& s2.target == s.target
            &&& s2.target_rec_len == s.target_rec_len
            &&& match walk {
                Walk::Ended => {
                    &&& s2.opened is None
                    &&& name_absent(b, off, b.len() as int, s.target)
                    &&& s2 == s || {
                        &&& s.alloc_len == 0
                        &&& here
                        &&& entry_stands_at(b, off, p)
                        &&& has_room(b, p, s.target_rec_len)
                    }
                },
                Walk::Stopped => {
                    &&& s2.opened == Some(ent.inode)
                    &&& ent.inode == 0 ==> here
                    &&& entry_stands_at(b, off, p)
                    &&& name_absent(b, off, p, s.target)
                    &&& text_of(ent.name) == s.target
                },
                Walk::Malformed | Walk::Failed(_) => false,
            }
        }),
    decreases b.len() - off,
{
    if off >= b.len() || dirent_at(b, off).rec_len <= 0 {
        off
    } else {
        let ent = dirent_at(b, off);
        let (s1, stop) = SlotFinder::step(s, addr, off, ent);
        if stop == Ok::<bool, Errno>(true) {
            off
        } else {
            let p = lemma_search(s1, addr, b, off + ent.rec_len);
            if s1 != s {
                let (s2, walk) = walk_from::<SlotFinder>(s1, addr, b, off + ent.rec_len);
                if walk == Walk::Ended {
                    off
                } else {
                    lemma_stands(b, off + ent.rec_len, p);
                    p
                }
            } else {
                if entry_stands_at(b, off + ent.rec_len, p) {
                    lemma_stands(b, off + ent.rec_len, p);
                }
                p
            }
        }
    }
}

/// The two entries that stand where one stood.
proof fn lemma_two_entries(
    b: Seq<u8>,
    p: int,
    ino: u32,
    ft: FileType,
    name: Seq<u8>,
    buf2: Seq<u8>,
    b2: Seq<u8>,
)
    requires
        0 <= p,
        0 < dirent_at(b, p).rec_len,
        p + DIRENT_HEADER_LEN + dirent_at(b, p).name_len <= p + dirent_at(b, p).rec_len <= b.len(),
        name.len() <= 255,
        has_room(b, p, align4(DIRENT_HEADER_LEN + name.len())),
        with_record(b.subrange(p, p + dirent_at(b, p).rec_len), false, ino, Some(ft), name) == Ok::<
            Seq<u8>,
            Errno,
        >(buf2),
        b2 == overwrite(b, p, buf2),
    ensures
        ({
            let ent = dirent_at(b, p);
            let kept = align4(DIRENT_HEADER_LEN + ent.name_len);
            &&& b2.len() == b.len()
            &&& buf2.len() == ent.rec_len
            &&& forall|i: int| (0 <= i < p || p + ent.rec_len <= i < b.len()) ==> b2[i] == b[i]
            &&& DIRENT_HEADER_LEN + ent.name_len <= kept
            &&& kept + DIRENT_HEADER_LEN + name.len() <= ent.rec_len
            &&& dirent_at(b2, p) == (DirEnt { rec_len: kept, ..ent })
            &&& dirent_at(b2, p + kept) == DirEnt {
                inode: ino,
                rec_len: ent.rec_len - kept,
                name_len: name.len() as u8,
                file_type: type_byte(ft),
                name,
            }
        }),
{
    reveal(with_record);
    let ent = dirent_at(b, p);
    let buf = b.subrange(p, p + ent.rec_len);
    let kept = align4(DIRENT_HEADER_LEN + ent.name_len);
    let new_len = ent.rec_len - kept;
    lemma_u16_bytes_at(kept as u16);
    lemma_u16_bytes_at(new_len as u16);
    lemma_u32_bytes_at(ino);
    assert(buf[6] == b[p + 6]);
    let short = overwrite(buf, 4, u16_bytes(kept as u16));
    let rec = record(ino, new_len, ft, name);
    assert(buf2 == overwrite(short, kept, rec));
    assert(rec.len() == 8 + name.len());
    assert forall|i: int| 0 <= i < ent.rec_len implies b2[p + i] == buf2[i] by {}
    assert(b2[p] == buf2[0] && b2[p + 1] == buf2[1]);
    assert(b2[p + 2] == buf2[2] && b2[p + 3] == buf2[3]);
    assert(b2[p + 4] == buf2[4] && b2[p + 5] == buf2[5]);
    assert(b2[p + 6] == buf2[6] && b2[p + 7] == buf2[7]);
    assert(dirent_at(b2, p).name =~= ent.name);
    assert(dirent_at(b2, p).rec_len == kept);
    let q = p + kept;
    assert forall|i: int| 0 <= i < rec.len() implies b2[q + i] == rec[i] by {
        assert(b2[p + (kept + i)] == buf2[kept + i]);
    }
    assert(b2[q] == rec[0] && b2[q + 1] == rec[1]);
    assert(b2[q + 2] == rec[2] && b2[q + 3] == rec[3]);
    assert(b2[q + 4] == rec[4] && b2[q + 5] == rec[5]);
    assert(b2[q + 6] == rec[6] && b2[q + 7] == rec[7]);
    assert(dirent_at(b2, q).inode == ino);
    assert(dirent_at(b2, q).rec_len == new_len);
    assert(dirent_at(b2, q).name =~= name) by {
        assert forall|i: int| 0 <= i < name.len() implies b2[q + 8 + i] == name[i] by {
            assert(b2[q + (8 + i)] == rec[8 + i]);
        }
    }
}

/// The entry that stands where a deleted one stood.
proof fn lemma_one_entry(
    b: Seq<u8>,
    p: int,
    ino: u32,
    ft: FileType,
    name: Seq<u8>,
    buf2: Seq<u8>,
    b2: Seq<u8>,
)
    requires
        0 <= p,
        0 < dirent_at(b, p).rec_len,
        p + DIRENT_HEADER_LEN + dirent_at(b, p).name_len <= p + dirent_at(b, p).rec_len <= b.len(),
        with_record(b.subrange(p, p + dirent_at(b, p).rec_len), true, ino, Some(ft), name) == Ok::<
            Seq<u8>,
            Errno,
        >(buf2),
        b2 == overwrite(b, p, buf2),
    ensures
        ({
            let ent = dirent_at(b, p);
            &&& b2.len() == b.len()
            &&& buf2.len() == ent.rec_len
            &&& forall|i: int| (0 <= i < p || p + ent.rec_len <= i < b.len()) ==> b2[i] == b[i]
            &&& dirent_at(b2, p) == (DirEnt { inode: ino, file_type: type_byte(ft), ..ent })
        }),
{
    reveal(with_record);
    let ent = dirent_at(b, p);
    let buf = b.subrange(p, p + ent.rec_len);
    lemma_u32_bytes_at(ino);
    assert forall|i: int| 0 <= i < ent.rec_len implies b2[p + i] == buf2[i] by {}
    assert(b2[p] == buf2[0] && b2[p + 1] == buf2[1]);
    assert(b2[p + 2] == buf2[2] && b2[p + 3] == buf2[3]);
    assert(b2[p + 4] == buf2[4] && b2[p + 5] == buf2[5]);
    assert(b2[p + 6] == buf2[6] && b2[p + 7] == buf2[7]);
    assert(dirent_at(b2, p).name =~= ent.name);
}

/// Whether the entries from `off` on are well-formed depends on the bytes from
/// there on alone.
proof fn lemma_well_formed_suffix(b: Seq<u8>, b2: Seq<u8>, off: int)
    requires
        0 <= off,
        b.len() == b2.len(),
        forall|i: int| off <= i < b.len() ==> b[i] == b2[i],
    ensures
        entries_well_formed(b, off) == entries_well_formed(b2, off),
    decreases (if off < b.len() {
            b.len() - off
        } else {
            0
        }),
{
    if off < b.len() && off + DIRENT_HEADER_LEN <= b.len() && dirent_at(b, off).rec_len > 0 {
        lemma_well_formed_suffix(b, b2, off + dirent_at(b, off).rec_len);
    }
}

/// Listing the block from `off` on, when `l` has been listed before, comes to
/// its end and finds inode `ino` as the first under the name.
pub open spec fn name_found(
    l: Seq<Listed>,
    addr: int,
    b: Seq<u8>,
    off: int,
    name: Seq<char>,
    ino: u32,
) -> bool {
    let (l2, walk) = walk_from::<EntryCollector>(l, addr, b, off);
    walk == Walk::Ended && named_from(l2, name, 0) == Some(ino)
}

/// A name that is found from the entry at `p` on, and that no entry before it
/// has, is found from the beginning.
proof fn lemma_found_from_start(
    l: Seq<Listed>,
    addr: int,
    b: Seq<u8>,
    off: int,
    p: int,
    b2: Seq<u8>,
    name: Seq<char>,
    ino: u32,
)
    requires
        0 <= off,
        entries_well_formed(b, off),
        entry_stands_at(b, off, p),
        name_absent(b, off, p, name),
        named_from(l, name, 0) is None,
        b2.len() == b.len(),
        forall|i: int| 0 <= i < p ==> b2[i] == b[i],
        entries_well_formed(b2, p),
        forall|l0: Seq<Listed>|
            named_from(l0, name, 0) is None ==> #[trigger] name_found(l0, addr, b2, p, name, ino),
    ensures
        entries_well_formed(b2, off),
        name_found(l, addr, b2, off, name, ino),
    decreases b.len() - off,
{
    if off != p {
        let ent = dirent_at(b, off);
        let next = off + ent.rec_len;
        lemma_stands(b, next, p);
        assert(dirent_at(b2, off).name =~= ent.name);
        assert(dirent_at(b2, off) == ent);
        let (l2, _) = EntryCollector::step(l, addr, off, ent);
        if l2 != l {
            let x = Listed {
                inode: ent.inode,
                filetype: filetype_of(ent.file_type)->Some_0,
                name: text_of(ent.name),
            };
            lemma_named_push(l, x, name, 0);
        }
        lemma_found_from_start(l2, addr, b, next, p, b2, name, ino);
    }
}

/// Searching the block from `off` on comes by an entry with the name that is
/// searched for, and opens inode `ino`.
pub open spec fn name_opened(s: Search, addr: int, b: Seq<u8>, off: int, ino: u32) -> bool {
    let (s2, walk) = walk_from::<SlotFinder>(s, addr, b, off);
    walk == Walk::Stopped && s2.opened == Some(ino)
}

/// A name that is opened from the entry at `p` on, and that no entry before it
/// has, is opened from the beginning.
proof fn lemma_opened_from_start(
    s: Search,
    addr: int,
    b: Seq<u8>,
    off: int,
    p: int,
    b2: Seq<u8>,
    ino: u32,
)
    requires
        0 <= off,
        entries_well_formed(b, off),
        entry_stands_at(b, off, p),
        name_absent(b, off, p, s.target),
        s.opened is None,
        b2.len() == b.len(),
        forall|i: int| 0 <= i < p ==> b2[i] == b[i],
        forall|s0: Search|
            s0.target == s.target && s0.opened is None ==> #[trigger] name_opened(
                s0,
                addr,
                b2,
                p,
                ino,
            ),
    ensures
        name_opened(s, addr, b2, off, ino),
    decreases b.len() - off,
{
    if off != p {
        let ent = dirent_at(b, off);
        let next = off + ent.rec_len;
        lemma_stands(b, next, p);
        assert(dirent_at(b2, off).name =~= ent.name);
        assert(dirent_at(b2, off) == ent);
        let (s2, _) = SlotFinder::step(s, addr, off, ent);
        lemma_opened_from_start(s2, addr, b, next, p, b2, ino);
    }
}

/// A search for a name that no entry has comes to the end of the block.
proof fn lemma_search_ends(s: Search, addr: int, b: Seq<u8>)
    requires
        entries_well_formed(b, 0),
        name_absent(b, 0, b.len() as int, s.target),
        s.opened is None,
    ensures
        ({
            let (s2, walk) = walk_from::<SlotFinder>(s, addr, b, 0);
            walk == Walk::Ended && s2.opened is None && s2.target == s.target
        }),
{
    let p = lemma_search(s, addr, b, 0);
    let (s2, walk) = walk_from::<SlotFinder>(s, addr, b, 0);
    if walk == Walk::Stopped {
        lemma_absent_before(b, 0, p, b.len() as int, s.target);
    }
}

/// A walk that comes by an entry with the name finds it.
proof fn lemma_found_at(
    l: Seq<Listed>,
    addr: int,
    b: Seq<u8>,
    p: int,
    name: Seq<char>,
    ino: u32,
    ft: FileType,
)
    requires
        0 <= p,
        p < b.len(),
        entries_well_formed(b, p),
        dirent_at(b, p).rec_len > 0,
        dirent_at(b, p).inode == ino,
        dirent_at(b, p).file_type == type_byte(ft),
        text_of(dirent_at(b, p).name) == name,
        ino != 0,
        named_from(l, name, 0) is None,
    ensures
        name_found(l, addr, b, p, name, ino),
{
    let ent = dirent_at(b, p);
    lemma_type_bytes(ft, 0);
    let x = Listed { inode: ino, filetype: ft, name };
    lemma_named_push(l, x, name, 0);
    lemma_collect(l.push(x), addr, b, p + ent.rec_len, name);
}

/// An entry that is put into the room that the entry at `p` has to spare is
/// found.
proof fn lemma_inserted_is_found(
    l: Seq<Listed>,
    addr: int,
    b: Seq<u8>,
    p: int,
    ino: u32,
    ft: FileType,
    name: Seq<char>,
    buf2: Seq<u8>,
    b2: Seq<u8>,
)
    requires
        entries_well_formed(b, 0),
        entry_stands_at(b, 0, p),
        name_absent(b, 0, b.len() as int, name),
        named_from(l, name, 0) is None,
        ino != 0,
        encode_utf8(name).len() <= 255,
        has_room(b, p, align4(DIRENT_HEADER_LEN + encode_utf8(name).len())),
        with_record(
            b.subrange(p, p + dirent_at(b, p).rec_len),
            false,
            ino,
            Some(ft),
            encode_utf8(name),
        ) == Ok::<Seq<u8>, Errno>(buf2),
        b2 == overwrite(b, p, buf2),
    ensures
        entries_well_formed(b2, 0),
        name_found(l, addr, b2, 0, name, ino),
        forall|s: Search|
            s.target == name && s.opened is None ==> #[trigger] name_opened(s, addr, b2, 0, ino),
{
    lemma_stands(b, 0, p);
    lemma_two_entries(b, p, ino, ft, encode_utf8(name), buf2, b2);
    encode_utf8_valid_utf8(name);
    encode_utf8_decode_utf8(name);
    let ent = dirent_at(b, p);
    let kept = align4(DIRENT_HEADER_LEN + ent.name_len);
    lemma_well_formed_suffix(b, b2, p + ent.rec_len);
    assert(entries_well_formed(b2, p + kept));
    assert(entries_well_formed(b2, p));
    lemma_absent_before(b, 0, p, b.len() as int, name);
    assert forall|l0: Seq<Listed>| named_from(l0, name, 0) is None implies #[trigger] name_found(
        l0,
        addr,
        b2,
        p,
        name,
        ino,
    ) by {
        let (l1, _) = EntryCollector::step(l0, addr, p, dirent_at(b2, p));
        if l1 != l0 {
            let x = Listed {
                inode: ent.inode,
                filetype: filetype_of(ent.file_type)->Some_0,
                name: text_of(ent.name),
            };
            lemma_named_push(l0, x, name, 0);
        }
        lemma_found_at(l1, addr, b2, p + kept, name, ino, ft);
    }
    lemma_found_from_start(l, addr, b, 0, p, b2, name, ino);
    assert forall|s: Search| s.target == name && s.opened is None implies #[trigger] name_opened(
        s,
        addr,
        b2,
        p,
        ino,
    ) by {
        let (s1, _) = SlotFinder::step(s, addr, p, dirent_at(b2, p));
        assert(name_opened(s1, addr, b2, p + kept, ino));
    }
    assert forall|s: Search| s.target == name && s.opened is None implies #[trigger] name_opened(
        s,
        addr,
        b2,
        0,
        ino,
    ) by {
        lemma_opened_from_start(s, addr, b, 0, p, b2, ino);
    }
}

/// An entry that takes the place of the deleted one at `p` is found.
proof fn lemma_reused_is_found(
    l: Seq<Listed>,
    addr: int,
    b: Seq<u8>,
    p: int,
    ino: u32,
    ft: FileType,
    name: Seq<char>,
    buf2: Seq<u8>,
    b2: Seq<u8>,
)
    requires
        entries_well_formed(b, 0),
        entry_stands_at(b, 0, p),
        name_absent(b, 0, p, name),
        text_of(dirent_at(b, p).name) == name,
        named_from(l, name, 0) is None,
        ino != 0,
        with_record(
            b.subrange(p, p + dirent_at(b, p).rec_len),
            true,
            ino,
            Some(ft),
            encode_utf8(name),
        ) == Ok::<Seq<u8>, Errno>(buf2),
        b2 == overwrite(b, p, buf2),
    ensures
        entries_well_formed(b2, 0),
        name_found(l, addr, b2, 0, name, ino),
        forall|s: Search|
            s.target == name && s.opened is None ==> #[trigger] name_opened(s, addr, b2, 0, ino),
{
    lemma_stands(b, 0, p);
    lemma_one_entry(b, p, ino, ft, encode_utf8(name), buf2, b2);
    let ent = dirent_at(b, p);
    lemma_well_formed_suffix(b, b2, p + ent.rec_len);
    assert forall|l0: Seq<Listed>| named_from(l0, name, 0) is None implies #[trigger] name_found(
        l0,
        addr,
        b2,
        p,
        name,
        ino,
    ) by {
        lemma_found_at(l0, addr, b2, p, name, ino, ft);
    }
    lemma_found_from_start(l, addr, b, 0, p, b2, name, ino);
    assert forall|s: Search| s.target == name && s.opened is None implies #[trigger] name_opened(
        s,
        addr,
        b2,
        0,
        ino,
    ) by {
        lemma_opened_from_start(s, addr, b, 0, p, b2, ino);
    }
}

/// A name that no entry has, no entry before `p` has, nor the one at `p`.
proof fn lemma_absent_before(b: Seq<u8>, off: int, p: int, end: int, name: Seq<char>)
    requires
        0 <= off,
        entries_well_formed(b, off),
        entry_stands_at(b, off, p),
        name_absent(b, off, end, name),
        b.len() <= end,
    ensures
        name_absent(b, off, p, name),
        text_of(dirent_at(b, p).name) != name,
    decreases b.len() - off,
{
    if off != p {
        lemma_absent_before(b, off + dirent_at(b, off).rec_len, p, end, name);
    }
}

/// Block `b` of a directory can be read and holds well-formed entries.
pub open spec fn dir_block_ok(d: Seq<u8>, sb: Superblock, b: u32) -> bool {
    b != 0 ==> (block_at(d, sb, b) matches Some(bytes) && entries_well_formed(bytes, 0))
}

/// No entry in block `b` has the name.
pub open spec fn absent_in_block(d: Seq<u8>, sb: Superblock, b: u32, name: Seq<char>) -> bool {
    b != 0 ==> (block_at(d, sb, b) matches Some(bytes) && name_absent(
        bytes,
        0,
        bytes.len() as int,
        name,
    ))
}

/// The search of a directory: the same as that of a block, and `place` tells
/// the block besides.
proof fn lemma_search_blocks(
    s: Search,
    d: Seq<u8>,
    sb: Superblock,
    blocks: Seq<u32>,
    i: int,
) -> (place: (int, int))
    requires
        0 <= i <= blocks.len(),
        forall|j: int| i <= j < blocks.len() ==> #[trigger] dir_block_ok(d, sb, blocks[j]),
        s.opened is None,
    ensures
        ({
            let (s2, r) = walk_blocks::<SlotFinder>(s, d, sb, blocks, i);
            let (k, p) = place;
            let b = block_at(d, sb, blocks[k])->Some_0;
            let ent = dirent_at(b, p);
            let stands = i <= k < blocks.len() && blocks[k] != 0 && entry_stands_at(b, 0, p);
            let here = s2.alloc_addr == sb.block_addr(blocks[k]) + p && s2.alloc_len == ent.rec_len;
            &&& s2.target == s.target
            &&& s2.target_rec_len == s.target_rec_len
            &&& match r {
                Ok(false) => {
                    &&& s2.opened is None
                    &&& forall|j: int|
                        i <= j < blocks.len() ==> #[trigger] absent_in_block(
                            d,
                            sb,
                            blocks[j],
                            s.target,
                        )
                    &&& s2 == s || {
                        &&& s.alloc_len == 0
                        &&& stands
                        &&& here
                        &&& has_room(b, p, s.target_rec_len)
                    }
                },
                Ok(true) => {
                    &&& stands
                    &&& s2.opened == Some(ent.inode)
                    &&& ent.inode == 0 ==> here
                    &&& forall|j: int|
                        i <= j < k ==> #[trigger] absent_in_block(d, sb, blocks[j], s.target)
                    &&& name_absent(b, 0, p, s.target)
                    &&& text_of(ent.name) == s.target
                },
                Err(_) => false,
            }
        }),
    decreases blocks.len() - i,
{
    if i >= blocks.len() {
        (i, 0)
    } else {
        assert(dir_block_ok(d, sb, blocks[i]));
        if blocks[i] == 0 {
            lemma_search_blocks(s, d, sb, blocks, i + 1)
        } else {
            let b = block_at(d, sb, blocks[i])->Some_0;
            let addr = sb.block_addr(blocks[i]);
            let p = lemma_search(s, addr, b, 0);
            let (s1, walk) = walk_from::<SlotFinder>(s, addr, b, 0);
            if walk == Walk::Stopped {
                (i, p)
            } else {
                if entry_stands_at(b, 0, p) {
                    lemma_stands(b, 0, p);
                }
                let place = lemma_search_blocks(s1, d, sb, blocks, i + 1);
                let (s2, r) = walk_blocks::<SlotFinder>(s1, d, sb, blocks, i + 1);
                if s1 != s && r == Ok::<bool, Errno>(false) {
                    (i, p)
                } else {
                    place
                }
            }
        }
    }
}

/// Listing the blocks of a directory comes to its end. It does not lose an
/// entry with the name, and it finds none where there is none.
proof fn lemma_collect_blocks(
    l: Seq<Listed>,
    d: Seq<u8>,
    sb: Superblock,
    blocks: Seq<u32>,
    i: int,
    name: Seq<char>,
)
    requires
        0 <= i <= blocks.len(),
        forall|j: int| i <= j < blocks.len() ==> #[trigger] dir_block_ok(d, sb, blocks[j]),
        named_from(l, name, 0) is Some || forall|j: int|
            i <= j < blocks.len() ==> #[trigger] absent_in_block(d, sb, blocks[j], name),
    ensures
        ({
            let (l2, r) = walk_blocks::<EntryCollector>(l, d, sb, blocks, i);
            r == Ok::<bool, Errno>(false) && named_from(l2, name, 0) == named_from(l, name, 0)
        }),
    decreases blocks.len() - i,
{
    if i < blocks.len() {
        assert(dir_block_ok(d, sb, blocks[i]));
        if named_from(l, name, 0) is None {
            assert(absent_in_block(d, sb, blocks[i], name));
        }
        if blocks[i] == 0 {
            lemma_collect_blocks(l, d, sb, blocks, i + 1, name);
        } else {
            let b = block_at(d, sb, blocks[i])->Some_0;
            let addr = sb.block_addr(blocks[i]);
            lemma_collect(l, addr, b, 0, name);
            let (l2, _) = walk_from::<EntryCollector>(l, addr, b, 0);
            lemma_collect_blocks(l2, d, sb, blocks, i + 1, name);
        }
    }
}

/// A name that is found in block number `k`, and in no block before it, is
/// found in the directory.
proof fn lemma_found_in_blocks(
    l: Seq<Listed>,
    d: Seq<u8>,
    sb: Superblock,
    blocks: Seq<u32>,
    i: int,
    k: int,
    name: Seq<char>,
    ino: u32,
)
    requires
        0 <= i <= k < blocks.len(),
        blocks[k] != 0,
        forall|j: int| i <= j < blocks.len() ==> #[trigger] dir_block_ok(d, sb, blocks[j]),
        forall|j: int| i <= j < k ==> #[trigger] absent_in_block(d, sb, blocks[j], name),
        named_from(l, name, 0) is None,
        forall|l0: Seq<Listed>|
            named_from(l0, name, 0) is None ==> #[trigger] name_found(
                l0,
                sb.block_addr(blocks[k]),
                block_at(d, sb, blocks[k])->Some_0,
                0,
                name,
                ino,
            ),
    ensures
        ({
            let (l2, r) = walk_blocks::<EntryCollector>(l, d, sb, blocks, i);
            r == Ok::<bool, Errno>(false) && named_from(l2, name, 0) == Some(ino)
        }),
    decreases blocks.len() - i,
{
    assert(dir_block_ok(d, sb, blocks[i]));
    let b = block_at(d, sb, blocks[i])->Some_0;
    let addr = sb.block_addr(blocks[i]);
    if i == k {
        assert(name_found(l, addr, b, 0, name, ino));
        let (l2, _) = walk_from::<EntryCollector>(l, addr, b, 0);
        lemma_collect_blocks(l2, d, sb, blocks, i + 1, name);
    } else {
        assert(absent_in_block(d, sb, blocks[i], name));
        if blocks[i] == 0 {
            lemma_found_in_blocks(l, d, sb, blocks, i + 1, k, name, ino);
        } else {
            lemma_collect(l, addr, b, 0, name);
            let (l2, _) = walk_from::<EntryCollector>(l, addr, b, 0);
            lemma_found_in_blocks(l2, d, sb, blocks, i + 1, k, name, ino);
        }
    }
}

/// A name that is opened in block number `k`, and that no block before it has,
/// is opened in the directory.
proof fn lemma_opened_in_blocks(
    s: Search,
    d: Seq<u8>,
    sb: Superblock,
    blocks: Seq<u32>,
    i: int,
    k: int,
    ino: u32,
)
    requires
        0 <= i <= k < blocks.len(),
        blocks[k] != 0,
        forall|j: int| i <= j < blocks.len() ==> #[trigger] dir_block_ok(d, sb, blocks[j]),
        forall|j: int| i <= j < k ==> #[trigger] absent_in_block(d, sb, blocks[j], s.target),
        s.opened is None,
        forall|s0: Search|
            s0.target == s.target && s0.opened is None ==> #[trigger] name_opened(
                s0,
                sb.block_addr(blocks[k]),
                block_at(d, sb, blocks[k])->Some_0,
                0,
                ino,
            ),
    ensures
        ({
            let (s2, r) = walk_blocks::<SlotFinder>(s, d, sb, blocks, i);
            r == Ok::<bool, Errno>(true) && s2.opened == Some(ino)
        }),
    decreases blocks.len() - i,
{
    assert(dir_block_ok(d, sb, blocks[i]));
    let b = block_at(d, sb, blocks[i])->Some_0;
    let addr = sb.block_addr(blocks[i]);
    if i == k {
        assert(name_opened(s, addr, b, 0, ino));
    } else {
        assert(absent_in_block(d, sb, blocks[i], s.target));
        if blocks[i] == 0 {
            lemma_opened_in_blocks(s, d, sb, blocks, i + 1, k, ino);
        } else {
            lemma_search_ends(s, addr, b);
            let (s2, _) = walk_from::<SlotFinder>(s, addr, b, 0);
            lemma_opened_in_blocks(s2, d, sb, blocks, i + 1, k, ino);
        }
    }
}

/// The blocks of a directory hold data, no two of them are the same, and their
/// entries are well-formed.
pub open spec fn directory_well_formed(
    zone: spec_fn(int) -> Zone,
    d: Seq<u8>,
    sb: Superblock,
    dir: Inode,
) -> bool {
    &&& kind_of_mode(dir.mode) == Some(FileType::Directory)
    &&& forall|j: int|
        0 <= j < 15 ==> {
            &&& #[trigger] dir_block_ok(d, sb, dir.block@[j])
            &&& dir.block@[j] != 0 ==> lies_in(
                zone,
                d,
                Zone::Data,
                sb.block_addr(dir.block@[j]),
                sb.block_len(),
            )
        }
    &&& forall|i: int, j: int|
        0 <= i < j < 15 && dir.block@[i] != 0 ==> #[trigger] dir.block@[i]
            != #[trigger] dir.block@[j]
}

/// Allocating an inode and storing it leaves the directory, and all data, as
/// they were.
proof fn lemma_inode_created(
    zone: spec_fn(int) -> Zone,
    groups: u32,
    d: Seq<u8>,
    sb: Superblock,
    parent: u64,
    inode: Inode,
)
    requires
        well_formed(zone, groups, d, sb),
        has_inode(groups, sb, parent),
        inode_at(d, sb, parent) is Ok,
        allocated(d, sb, Resource::Inode, parent).0 is Ok,
    ensures
        ({
            let (r, d1, sb1) = allocated(d, sb, Resource::Inode, parent);
            let ino = r->Ok_0;
            &&& with_inode(d1, sb1, ino as u64, inode) matches Ok(d2) && {
                &&& well_formed(zone, groups, d2, sb1)
                &&& inode_at(d2, sb1, ino as u64) == Ok::<Inode, Errno>(inode)
                &&& inode_at(d2, sb1, parent) == inode_at(d, sb, parent)
                &&& agree_in(zone, Zone::Data, d, d2)
            }
            &&& has_inode(groups, sb1, ino as u64)
            &&& ino != 0
            &&& sb1 == Resource::Inode.one_less(sb)
        }),
{
    let (r, d1, sb1) = allocated(d, sb, Resource::Inode, parent);
    let ino = r->Ok_0 as u64;
    let (g, n) = lemma_allocated(zone, groups, d, sb, Resource::Inode, parent);
    assert(agree_in(zone, Zone::Data, d, d1));
    law_allocation_keeps_well_formed(zone, groups, d, sb, Resource::Inode, parent);
    law_allocated_inode_was_free(zone, groups, d, sb, parent);
    law_allocation_leaves_inodes(zone, groups, d, sb, Resource::Inode, parent, parent);
    lemma_inode_stored(zone, groups, d1, sb1, ino, inode);
    law_stored_inode_is_loaded(zone, groups, d1, sb1, ino, inode);
    law_storing_leaves_other_inodes(zone, groups, d1, sb1, ino, inode, parent);
    let d2 = with_inode(d1, sb1, ino, inode)->Ok_0;
    assert(agree_in(zone, Zone::Data, d1, d2));
    assert forall|i: int| 0 <= i < d.len() && zone(i) == Zone::Data implies #[trigger] d2[i]
        == d[i] by {
        assert(d1[i] == d[i]);
    }
}

/// What is written into a block is there, and other blocks are as they were.
proof fn lemma_written_in_block(
    d: Seq<u8>,
    sb: Superblock,
    b: u32,
    p: int,
    data: Seq<u8>,
    c: u32,
)
    requires
        sb.log_block_size <= 21,
        block_at(d, sb, b) is Some,
        data.len() > 0,
        0 <= p,
        p + data.len() <= sb.block_len(),
    ensures
        written(d, sb.block_addr(b) + p, data) matches Ok(d2) && {
            &&& d2.len() == d.len()
            &&& block_at(d2, sb, b) == Some(overwrite(block_at(d, sb, b)->Some_0, p, data))
            &&& c != b ==> block_at(d2, sb, c) == block_at(d, sb, c)
        },
{
    lemma_block_len(sb);
    let at = sb.block_addr(b);
    let len = sb.block_len();
    lemma_written(d, at + p, data, sb.block_addr(c), len);
    let d2 = written(d, at + p, data)->Ok_0;
    assert(d2.subrange(at, at + len) =~= overwrite(d.subrange(at, at + len), p, data));
    if c != b {
        lemma_blocks_apart(sb, b, c);
        assert(apart(at + p, data.len() as int, sb.block_addr(c), len));
    }
}

/// Where the new entry goes: into the room that the entry at `p` in block
/// number `k` has to spare, or into its place.
pub open spec fn place_fits(
    d: Seq<u8>,
    sb: Superblock,
    blocks: Seq<u32>,
    k: int,
    p: int,
    reuse: bool,
    name: Seq<char>,
) -> bool {
    let b = block_at(d, sb, blocks[k])->Some_0;
    let ent = dirent_at(b, p);
    &&& 0 <= k < blocks.len()
    &&& blocks[k] != 0
    &&& entry_stands_at(b, 0, p)
    &&& if reuse {
        &&& forall|j: int| 0 <= j < k ==> #[trigger] absent_in_block(d, sb, blocks[j], name)
        &&& name_absent(b, 0, p, name)
        &&& text_of(ent.name) == name
        &&& ent.inode == 0
    } else {
        &&& forall|j: int|
            0 <= j < blocks.len() ==> #[trigger] absent_in_block(d, sb, blocks[j], name)
        &&& has_room(b, p, align4(DIRENT_HEADER_LEN + encode_utf8(name).len()))
    }
}

/// An entry that is put in its place is found, and the directory stays
/// well-formed.
proof fn lemma_entry_put(
    zone: spec_fn(int) -> Zone,
    d: Seq<u8>,
    sb: Superblock,
    dir: Inode,
    k: int,
    p: int,
    reuse: bool,
    ino: u32,
    ft: FileType,
    name: Seq<char>,
    buf2: Seq<u8>,
)
    requires
        sb.log_block_size <= 21,
        directory_well_formed(zone, d, sb, dir),
        place_fits(d, sb, dir.block@, k, p, reuse, name),
        ino != 0,
        with_record(
            block_at(d, sb, dir.block@[k])->Some_0.subrange(
                p,
                p + dirent_at(block_at(d, sb, dir.block@[k])->Some_0, p).rec_len,
            ),
            reuse,
            ino,
            Some(ft),
            encode_utf8(name),
        ) == Ok::<Seq<u8>, Errno>(buf2),
    ensures
        ({
            let at = sb.block_addr(dir.block@[k]) + p;
            &&& lies_in(zone, d, Zone::Data, at, buf2.len() as int)
            &&& written(d, at, buf2) matches Ok(d2) && {
                let (l, r) = walk_directory::<EntryCollector>(Seq::empty(), d2, sb, dir);
                let (s, found) = walk_directory::<SlotFinder>(search_for(name), d2, sb, dir);
                &&& directory_well_formed(zone, d2, sb, dir)
                &&& r == Ok::<bool, Errno>(false)
                &&& named_from(l, name, 0) == Some(ino)
                &&& found == Ok::<bool, Errno>(true)
                &&& s.opened == Some(ino)
            }
        }),
{
    let blocks = dir.block@;
    let b = block_at(d, sb, blocks[k])->Some_0;
    let b2 = overwrite(b, p, buf2);
    let addr = sb.block_addr(blocks[k]);
    let none = Seq::<Listed>::empty();
    lemma_block_len(sb);
    assert(dir_block_ok(d, sb, blocks[k]));
    lemma_stands(b, 0, p);
    if reuse {
        lemma_one_entry(b, p, ino, ft, encode_utf8(name), buf2, b2);
        assert forall|l0: Seq<Listed>|
            named_from(l0, name, 0) is None implies #[trigger] name_found(
            l0,
            addr,
            b2,
            0,
            name,
            ino,
        ) by {
            lemma_reused_is_found(l0, addr, b, p, ino, ft, name, buf2, b2);
        }
        lemma_reused_is_found(none, addr, b, p, ino, ft, name, buf2, b2);
    } else {
        assert(absent_in_block(d, sb, blocks[k], name));
        assert(encode_utf8(name).len() <= 255) by {
            reveal(with_record);
        }
        lemma_two_entries(b, p, ino, ft, encode_utf8(name), buf2, b2);
        assert forall|l0: Seq<Listed>|
            named_from(l0, name, 0) is None implies #[trigger] name_found(
            l0,
            addr,
            b2,
            0,
            name,
            ino,
        ) by {
            lemma_inserted_is_found(l0, addr, b, p, ino, ft, name, buf2, b2);
        }
        lemma_inserted_is_found(none, addr, b, p, ino, ft, name, buf2, b2);
    }
    lemma_written_in_block(d, sb, blocks[k], p, buf2, blocks[k]);
    let d2 = written(d, addr + p, buf2)->Ok_0;
    assert forall|j: int| 0 <= j < 15 && j != k implies #[trigger] block_at(d2, sb, blocks[j])
        == block_at(d, sb, blocks[j]) || blocks[j] == 0 by {
        if blocks[j] != 0 {
            assert(blocks[j] != blocks[k]);
            lemma_written_in_block(d, sb, blocks[k], p, buf2, blocks[j]);
        }
    }
    assert forall|j: int| 0 <= j < 15 implies #[trigger] dir_block_ok(d2, sb, blocks[j]) by {
        assert(dir_block_ok(d, sb, blocks[j]));
        if j != k {
            assert(block_at(d2, sb, blocks[j]) == block_at(d, sb, blocks[j]) || blocks[j] == 0);
        }
    }
    assert forall|j: int| 0 <= j < k implies #[trigger] absent_in_block(
        d2,
        sb,
        blocks[j],
        name,
    ) by {
        assert(absent_in_block(d, sb, blocks[j], name));
        assert(block_at(d2, sb, blocks[j]) == block_at(d, sb, blocks[j]) || blocks[j] == 0);
    }
    assert(directory_well_formed(zone, d2, sb, dir)) by {
        assert forall|j: int| 0 <= j < 15 implies {
            &&& #[trigger] dir_block_ok(d2, sb, blocks[j])
            &&& blocks[j] != 0 ==> lies_in(
                zone,
                d2,
                Zone::Data,
                sb.block_addr(blocks[j]),
                sb.block_len(),
            )
        } by {
            assert(dir_block_ok(d, sb, blocks[j]));
        }
    }
    lemma_found_in_blocks(none, d2, sb, blocks, 0, k, name, ino);
    lemma_opened_in_blocks(search_for(name), d2, sb, blocks, 0, k, ino);
}

/// What the search of a directory finds tells where the new entry goes.
proof fn lemma_place(
    zone: spec_fn(int) -> Zone,
    d: Seq<u8>,
    sb: Superblock,
    dir: Inode,
    name: Seq<char>,
) -> (place: (int, int))
    requires
        directory_well_formed(zone, d, sb, dir),
    ensures
        ({
            let (s, r) = walk_directory::<SlotFinder>(search_for(name), d, sb, dir);
            let (k, p) = place;
            &&& r is Ok
            &&& s.target == name
            &&& s.opened is None && s.alloc_len != 0 || s.opened == Some(0u32) ==> {
                let b = block_at(d, sb, dir.block@[k])->Some_0;
                &&& place_fits(d, sb, dir.block@, k, p, s.opened is Some, name)
                &&& s.alloc_addr == sb.block_addr(dir.block@[k]) + p
                &&& s.alloc_len == dirent_at(b, p).rec_len
            }
        }),
{
    lemma_search_blocks(search_for(name), d, sb, dir.block@, 0)
}

/// Where all data is as it was, so are the directory and the place that fits.
proof fn lemma_directory_stays(
    zone: spec_fn(int) -> Zone,
    d: Seq<u8>,
    sb: Superblock,
    dir: Inode,
    d2: Seq<u8>,
    sb2: Superblock,
    k: int,
    p: int,
    reuse: bool,
    name: Seq<char>,
)
    requires
        sb.log_block_size <= 21,
        sb2.log_block_size == sb.log_block_size,
        directory_well_formed(zone, d, sb, dir),
        agree_in(zone, Zone::Data, d, d2),
        place_fits(d, sb, dir.block@, k, p, reuse, name),
    ensures
        forall|j: int|
            0 <= j < 15 ==> #[trigger] block_at(d2, sb2, dir.block@[j]) == block_at(
                d,
                sb,
                dir.block@[j],
            ) || dir.block@[j] == 0,
        directory_well_formed(zone, d2, sb2, dir),
        place_fits(d2, sb2, dir.block@, k, p, reuse, name),
{
    let blocks = dir.block@;
    lemma_block_len(sb);
    assert forall|j: int| 0 <= j < 15 implies #[trigger] block_at(d2, sb2, blocks[j]) == block_at(
        d,
        sb,
        blocks[j],
    ) || blocks[j] == 0 by {
        assert(dir_block_ok(d, sb, blocks[j]));
        if blocks[j] != 0 {
            lemma_same_in_zone(zone, Zone::Data, d, d2, sb.block_addr(blocks[j]), sb.block_len());
        }
    }
    assert forall|j: int| 0 <= j < 15 implies {
        &&& #[trigger] dir_block_ok(d2, sb2, blocks[j])
        &&& blocks[j] != 0 ==> lies_in(
            zone,
            d2,
            Zone::Data,
            sb2.block_addr(blocks[j]),
            sb2.block_len(),
        )
    } by {
        assert(dir_block_ok(d, sb, blocks[j]));
        assert(block_at(d2, sb2, blocks[j]) == block_at(d, sb, blocks[j]) || blocks[j] == 0);
    }
    assert(block_at(d2, sb2, blocks[k]) == block_at(d, sb, blocks[k]));
    assert forall|j: int|
        0 <= j < 15 && absent_in_block(d, sb, blocks[j], name) implies #[trigger] absent_in_block(
        d2,
        sb2,
        blocks[j],
        name,
    ) by {
        assert(block_at(d2, sb2, blocks[j]) == block_at(d, sb, blocks[j]) || blocks[j] == 0);
    }
}

/// The part of a block that an entry takes up, read by itself.
proof fn lemma_entry_read(d: Seq<u8>, sb: Superblock, b: u32, p: int)
    requires
        block_at(d, sb, b) is Some,
        entries_well_formed(block_at(d, sb, b)->Some_0, 0),
        entry_stands_at(block_at(d, sb, b)->Some_0, 0, p),
        sb.log_block_size <= 21,
    ensures
        ({
            let bytes = block_at(d, sb, b)->Some_0;
            let len = dirent_at(bytes, p).rec_len;
            fetch(d, sb.block_addr(b) + p, len) == Some(bytes.subrange(p, p + len))
        }),
{
    let bytes = block_at(d, sb, b)->Some_0;
    let at = sb.block_addr(b);
    lemma_block_len(sb);
    lemma_stands(bytes, 0, p);
    let len = dirent_at(bytes, p).rec_len;
    assert(d.subrange(at + p, at + p + len) =~= bytes.subrange(p, p + len));
}

/// A record that was made has a kind, and was made of something.
proof fn lemma_record_made(
    buf: Seq<u8>,
    reuse: bool,
    ino: u32,
    kind: Option<FileType>,
    name: Seq<u8>,
)
    requires
        with_record(buf, reuse, ino, kind, name) is Ok,
    ensures
        kind is Some,
        buf.len() > 0,
{
    reveal(with_record);
}

/// The steps of creating a file: the inode is stored and all data is as it was,
/// and the entry is put in its place.
proof fn lemma_creation_steps(
    zone: spec_fn(int) -> Zone,
    groups: u32,
    d: Seq<u8>,
    sb: Superblock,
    parent: u64,
    dir: Inode,
    name: Seq<char>,
    mode: u32,
    rdev: u32,
    now: Option<u64>,
) -> (steps: (int, int, Seq<u8>, FileType, Seq<u8>))
    requires
        well_formed(zone, groups, d, sb),
        has_inode(groups, sb, parent),
        inode_at(d, sb, parent) == Ok::<Inode, Errno>(dir),
        directory_well_formed(zone, d, sb, dir),
        ({
            let (r, _, _) = opened_or_created(d, sb, parent, name, mode, rdev, now);
            r matches Ok((ino, _)) && inode_at(d, sb, ino as u64) is Err
        }),
    ensures
        ({
            let (r, d3, sb1) = opened_or_created(d, sb, parent, name, mode, rdev, now);
            let (ino, inode) = r->Ok_0;
            let (s, _) = walk_directory::<SlotFinder>(search_for(name), d, sb, dir);
            let (k, p, d2, ft, buf2) = steps;
            let blocks = dir.block@;
            let b = block_at(d, sb, blocks[k])->Some_0;
            let reuse = s.opened is Some;
            let at = sb.block_addr(blocks[k]) + p;
            &&& sb1 == Resource::Inode.one_less(sb)
            &&& ino != 0
            &&& has_inode(groups, sb1, ino as u64)
            &&& well_formed(zone, groups, d2, sb1)
            &&& inode_at(d2, sb1, ino as u64) == Ok::<Inode, Errno>(inode)
            &&& inode_at(d2, sb1, parent) == Ok::<Inode, Errno>(dir)
            &&& directory_well_formed(zone, d2, sb1, dir)
            &&& forall|j: int|
                0 <= j < 15 ==> #[trigger] block_at(d2, sb1, blocks[j]) == block_at(
                    d,
                    sb,
                    blocks[j],
                ) || blocks[j] == 0
            &&& place_fits(d2, sb1, blocks, k, p, reuse, name)
            &&& with_record(
                b.subrange(p, p + dirent_at(b, p).rec_len),
                reuse,
                ino,
                Some(ft),
                encode_utf8(name),
            ) == Ok::<Seq<u8>, Errno>(buf2)
            &&& written(d2, at, buf2) == Ok::<Seq<u8>, Errno>(d3)
            &&& kind_of_mode(inode.mode) == Some(ft)
            &&& allocated(d, sb, Resource::Inode, parent).0 == Ok::<u32, Errno>(ino)
            &&& allocated(d, sb, Resource::Inode, parent).2 == sb1
            &&& with_inode(
                allocated(d, sb, Resource::Inode, parent).1,
                sb1,
                ino as u64,
                inode,
            ) == Ok::<Seq<u8>, Errno>(d2)
            &&& agree_in(zone, Zone::Data, d, d2)
        }),
{
    reveal(made);
    let (r, d3, sb1) = opened_or_created(d, sb, parent, name, mode, rdev, now);
    let (s, found) = walk_directory::<SlotFinder>(search_for(name), d, sb, dir);
    let (k, p) = lemma_place(zone, d, sb, dir, name);
    let (ino, inode) = r->Ok_0;
    lemma_inode_created(zone, groups, d, sb, parent, inode);
    let (_, d1, _) = allocated(d, sb, Resource::Inode, parent);
    let d2 = with_inode(d1, sb1, ino as u64, inode)->Ok_0;
    let buf = fetch(d2, s.alloc_addr, s.alloc_len)->Some_0;
    let kind = kind_of_mode(inode.mode);
    let reuse = s.opened is Some;
    let buf2 = with_record(buf, reuse, ino, kind, encode_utf8(name))->Ok_0;
    lemma_record_made(buf, reuse, ino, kind, encode_utf8(name));
    let ft = kind->Some_0;
    lemma_directory_stays(zone, d, sb, dir, d2, sb1, k, p, reuse, name);
    assert(block_at(d2, sb1, dir.block@[k]) == block_at(d, sb, dir.block@[k]));
    assert(dir_block_ok(d2, sb1, dir.block@[k]));
    lemma_entry_read(d2, sb1, dir.block@[k], p);
    (k, p, d2, ft, buf2)
}

/// A file that is created is found in its directory under its name, with the
/// inode that it was given, and asking for it again opens it and changes
/// nothing. The file system and the directory stay well-formed.
pub proof fn law_created_file_is_found(
    zone: spec_fn(int) -> Zone,
    groups: u32,
    d: Seq<u8>,
    sb: Superblock,
    parent: u64,
    dir: Inode,
    name: Seq<char>,
    mode: u32,
    rdev: u32,
    now: Option<u64>,
)
    requires
        well_formed(zone, groups, d, sb),
        has_inode(groups, sb, parent),
        inode_at(d, sb, parent) == Ok::<Inode, Errno>(dir),
        directory_well_formed(zone, d, sb, dir),
    ensures
        ({
            let (r, d2, sb2) = opened_or_created(d, sb, parent, name, mode, rdev, now);
            r matches Ok((ino, inode)) ==> inode_at(d, sb, ino as u64) is Err ==> {
                &&& well_formed(zone, groups, d2, sb2)
                &&& inode_at(d2, sb2, parent) == Ok::<Inode, Errno>(dir)
                &&& directory_well_formed(zone, d2, sb2, dir)
                &&& listing(d2, sb2, parent) matches Ok(entries) && named_from(entries, name, 0)
                    == Some(ino)
                &&& inode_at(d2, sb2, ino as u64) == Ok::<Inode, Errno>(inode)
                &&& forall|mode2: u32, rdev2: u32, now2: Option<u64>| #[trigger]
                    opened_or_created(d2, sb2, parent, name, mode2, rdev2, now2) == (
                        Ok::<(u32, Inode), Errno>((ino, inode)),
                        d2,
                        sb2,
                    )
            }
        }),
{
    let (r, d3, sb1) = opened_or_created(d, sb, parent, name, mode, rdev, now);
    if r is Ok && inode_at(d, sb, r->Ok_0.0 as u64) is Err {
        let (ino, inode) = r->Ok_0;
        let (s, _) = walk_directory::<SlotFinder>(search_for(name), d, sb, dir);
        let reuse = s.opened is Some;
        let (k, p, d2, ft, buf2) = lemma_creation_steps(
            zone,
            groups,
            d,
            sb,
            parent,
            dir,
            name,
            mode,
            rdev,
            now,
        );
        assert(block_at(d2, sb1, dir.block@[k]) == block_at(d, sb, dir.block@[k]));
        lemma_entry_put(zone, d2, sb1, dir, k, p, reuse, ino, ft, name, buf2);
        let at = sb1.block_addr(dir.block@[k]) + p;
        law_writing_data_keeps_well_formed(zone, groups, d2, sb1, at, buf2);
    }
}

/// Listing one block, when `l` has been listed before, and another, when `l2`
/// has, comes to the end of both and finds the same under the name.
pub open spec fn same_found(
    l: Seq<Listed>,
    l2: Seq<Listed>,
    addr: int,
    b: Seq<u8>,
    b2: Seq<u8>,
    off: int,
    name: Seq<char>,
) -> bool {
    let (after, walk) = walk_from::<EntryCollector>(l, addr, b, off);
    let (after2, walk2) = walk_from::<EntryCollector>(l2, addr, b2, off);
    &&& walk == Walk::Ended
    &&& walk2 == Walk::Ended
    &&& named_from(after, name, 0) == named_from(after2, name, 0)
}

/// One more entry changes what is found in the same way.
proof fn lemma_step_alike(
    l: Seq<Listed>,
    l2: Seq<Listed>,
    addr: int,
    off: int,
    ent: DirEnt,
    name: Seq<char>,
)
    requires
        named_from(l, name, 0) == named_from(l2, name, 0),
    ensures
        named_from(EntryCollector::step(l, addr, off, ent).0, name, 0) == named_from(
            EntryCollector::step(l2, addr, off, ent).0,
            name,
            0,
        ),
{
    if filetype_of(ent.file_type) is Some && ent.inode != 0 {
        let x = Listed {
            inode: ent.inode,
            filetype: filetype_of(ent.file_type)->Some_0,
            name: text_of(ent.name),
        };
        lemma_named_push(l, x, name, 0);
        lemma_named_push(l2, x, name, 0);
    }
}

/// The same entries are found where the bytes are the same.
proof fn lemma_same_suffix(
    l: Seq<Listed>,
    l2: Seq<Listed>,
    addr: int,
    b: Seq<u8>,
    b2: Seq<u8>,
    off: int,
    name: Seq<char>,
)
    requires
        0 <= off,
        entries_well_formed(b, off),
        b.len() == b2.len(),
        forall|i: int| off <= i < b.len() ==> b[i] == b2[i],
        named_from(l, name, 0) == named_from(l2, name, 0),
    ensures
        same_found(l, l2, addr, b, b2, off, name),
    decreases b.len() - off,
{
    if off < b.len() && dirent_at(b, off).rec_len > 0 {
        let ent = dirent_at(b, off);
        assert(dirent_at(b2, off).name =~= ent.name);
        assert(dirent_at(b2, off) == ent);
        lemma_step_alike(l, l2, addr, off, ent, name);
        let (m, _) = EntryCollector::step(l, addr, off, ent);
        let (m2, _) = EntryCollector::step(l2, addr, off, ent);
        lemma_same_suffix(m, m2, addr, b, b2, off + ent.rec_len, name);
    }
}

/// What is found from the entry at `p` on in the same way is found in the same
/// way from the beginning.
proof fn lemma_same_from_start(
    l: Seq<Listed>,
    l2: Seq<Listed>,
    addr: int,
    b: Seq<u8>,
    off: int,
    p: int,
    b2: Seq<u8>,
    name: Seq<char>,
)
    requires
        0 <= off,
        entries_well_formed(b, off),
        entry_stands_at(b, off, p),
        named_from(l, name, 0) == named_from(l2, name, 0),
        b2.len() == b.len(),
        forall|i: int| 0 <= i < p ==> b2[i] == b[i],
        forall|m: Seq<Listed>, m2: Seq<Listed>|
            named_from(m, name, 0) == named_from(m2, name, 0) ==> #[trigger] same_found(
                m,
                m2,
                addr,
                b,
                b2,
                p,
                name,
            ),
    ensures
        same_found(l, l2, addr, b, b2, off, name),
    decreases b.len() - off,
{
    if off != p {
        let ent = dirent_at(b, off);
        let next = off + ent.rec_len;
        lemma_stands(b, next, p);
        assert(dirent_at(b2, off).name =~= ent.name);
        assert(dirent_at(b2, off) == ent);
        lemma_step_alike(l, l2, addr, off, ent, name);
        let (m, _) = EntryCollector::step(l, addr, off, ent);
        let (m2, _) = EntryCollector::step(l2, addr, off, ent);
        lemma_same_from_start(m, m2, addr, b, next, p, b2, name);
    }
}

/// An entry that is not listed under the name does not change what is found.
proof fn lemma_step_aside(l: Seq<Listed>, addr: int, off: int, ent: DirEnt, name: Seq<char>)
    requires
        ent.inode == 0 || text_of(ent.name) != name,
    ensures
        named_from(EntryCollector::step(l, addr, off, ent).0, name, 0) == named_from(l, name, 0),
{
    if filetype_of(ent.file_type) is Some && ent.inode != 0 {
        let x = Listed {
            inode: ent.inode,
            filetype: filetype_of(ent.file_type)->Some_0,
            name: text_of(ent.name),
        };
        lemma_named_push(l, x, name, 0);
    }
}

/// Putting an entry in its place does not change what is found in the block
/// under another name.
proof fn lemma_others_in_block(
    l: Seq<Listed>,
    l2: Seq<Listed>,
    addr: int,
    b: Seq<u8>,
    p: int,
    reuse: bool,
    ino: u32,
    ft: FileType,
    name: Seq<char>,
    buf2: Seq<u8>,
    b2: Seq<u8>,
    other: Seq<char>,
)
    requires
        entries_well_formed(b, 0),
        entry_stands_at(b, 0, p),
        if reuse {
            text_of(dirent_at(b, p).name) == name
        } else {
            has_room(b, p, align4(DIRENT_HEADER_LEN + encode_utf8(name).len()))
        },
        ino != 0,
        with_record(
            b.subrange(p, p + dirent_at(b, p).rec_len),
            reuse,
            ino,
            Some(ft),
            encode_utf8(name),
        ) == Ok::<Seq<u8>, Errno>(buf2),
        b2 == overwrite(b, p, buf2),
        other != name,
        named_from(l, other, 0) == named_from(l2, other, 0),
    ensures
        same_found(l, l2, addr, b, b2, 0, other),
{
    lemma_stands(b, 0, p);
    let ent = dirent_at(b, p);
    let end = p + ent.rec_len;
    let bytes = encode_utf8(name);
    encode_utf8_valid_utf8(name);
    encode_utf8_decode_utf8(name);
    if reuse {
        lemma_one_entry(b, p, ino, ft, bytes, buf2, b2);
        assert forall|m: Seq<Listed>, m2: Seq<Listed>|
            named_from(m, other, 0) == named_from(m2, other, 0) implies #[trigger] same_found(
            m,
            m2,
            addr,
            b,
            b2,
            p,
            other,
        ) by {
            lemma_step_aside(m, addr, p, ent, other);
            lemma_step_aside(m2, addr, p, dirent_at(b2, p), other);
            let (n, _) = EntryCollector::step(m, addr, p, ent);
            let (n2, _) = EntryCollector::step(m2, addr, p, dirent_at(b2, p));
            lemma_same_suffix(n, n2, addr, b, b2, end, other);
        }
    } else {
        assert(bytes.len() <= 255) by {
            reveal(with_record);
        }
        lemma_two_entries(b, p, ino, ft, bytes, buf2, b2);
        let kept = align4(DIRENT_HEADER_LEN + ent.name_len);
        assert forall|m: Seq<Listed>, m2: Seq<Listed>|
            named_from(m, other, 0) == named_from(m2, other, 0) implies #[trigger] same_found(
            m,
            m2,
            addr,
            b,
            b2,
            p,
            other,
        ) by {
            let first = dirent_at(b2, p);
            let second = dirent_at(b2, p + kept);
            lemma_step_alike(m, m2, addr, p, ent, other);
            let (n, _) = EntryCollector::step(m, addr, p, ent);
            let (n2, _) = EntryCollector::step(m2, addr, p, first);
            lemma_step_aside(n2, addr, p + kept, second, other);
            let (n3, _) = EntryCollector::step(n2, addr, p + kept, second);
            lemma_same_suffix(n, n3, addr, b, b2, end, other);
            assert(walk_from::<EntryCollector>(m2, addr, b2, p) == walk_from::<EntryCollector>(
                n2,
                addr,
                b2,
                p + kept,
            ));
            assert(walk_from::<EntryCollector>(n2, addr, b2, p + kept) == walk_from::<
                EntryCollector,
            >(n3, addr, b2, end));
        }
    }
    lemma_same_from_start(l, l2, addr, b, 0, p, b2, other);
}

/// Where each block of a directory is listed in the same way, the directory is.
proof fn lemma_others_in_blocks(
    l: Seq<Listed>,
    l2: Seq<Listed>,
    d: Seq<u8>,
    sb: Superblock,
    d2: Seq<u8>,
    sb2: Superblock,
    blocks: Seq<u32>,
    i: int,
    name: Seq<char>,
)
    requires
        0 <= i <= blocks.len(),
        named_from(l, name, 0) == named_from(l2, name, 0),
        sb.log_block_size == sb2.log_block_size,
        forall|j: int| 0 <= j < blocks.len() ==> #[trigger] dir_block_ok(d, sb, blocks[j]),
        forall|j: int| 0 <= j < blocks.len() ==> #[trigger] dir_block_ok(d2, sb2, blocks[j]),
        forall|j: int, m: Seq<Listed>, m2: Seq<Listed>|
            0 <= j < blocks.len() && blocks[j] != 0 && named_from(m, name, 0) == named_from(
                m2,
                name,
                0,
            ) ==> #[trigger] same_found(
                m,
                m2,
                sb.block_addr(blocks[j]),
                block_at(d, sb, blocks[j])->Some_0,
                block_at(d2, sb2, blocks[j])->Some_0,
                0,
                name,
            ),
    ensures
        ({
            let (after, r) = walk_blocks::<EntryCollector>(l, d, sb, blocks, i);
            let (after2, r2) = walk_blocks::<EntryCollector>(l2, d2, sb2, blocks, i);
            &&& r == Ok::<bool, Errno>(false)
            &&& r2 == Ok::<bool, Errno>(false)
            &&& named_from(after, name, 0) == named_from(after2, name, 0)
        }),
    decreases blocks.len() - i,
{
    if i < blocks.len() {
        assert(dir_block_ok(d, sb, blocks[i]));
        assert(dir_block_ok(d2, sb2, blocks[i]));
        if blocks[i] == 0 {
            lemma_others_in_blocks(l, l2, d, sb, d2, sb2, blocks, i + 1, name);
        } else {
            let b = block_at(d, sb, blocks[i])->Some_0;
            let b2 = block_at(d2, sb2, blocks[i])->Some_0;
            let addr = sb.block_addr(blocks[i]);
            assert(addr == sb2.block_addr(blocks[i]));
            assert(same_found(l, l2, addr, b, b2, 0, name));
            let (m, _) = walk_from::<EntryCollector>(l, addr, b, 0);
            let (m2, _) = walk_from::<EntryCollector>(l2, addr, b2, 0);
            lemma_others_in_blocks(m, m2, d, sb, d2, sb2, blocks, i + 1, name);
        }
    }
}

/// Creating a file leaves what is found under every other name as it was.
pub proof fn law_creation_leaves_other_names(
    zone: spec_fn(int) -> Zone,
    groups: u32,
    d: Seq<u8>,
    sb: Superblock,
    parent: u64,
    dir: Inode,
    name: Seq<char>,
    mode: u32,
    rdev: u32,
    now: Option<u64>,
    other: Seq<char>,
)
    requires
        well_formed(zone, groups, d, sb),
        has_inode(groups, sb, parent),
        inode_at(d, sb, parent) == Ok::<Inode, Errno>(dir),
        directory_well_formed(zone, d, sb, dir),
        other != name,
    ensures
        ({
            let (r, d2, sb2) = opened_or_created(d, sb, parent, name, mode, rdev, now);
            r is Ok ==> {
                &&& listing(d, sb, parent) matches Ok(before)
                &&& listing(d2, sb2, parent) matches Ok(after)
                &&& named_from(after, other, 0) == named_from(before, other, 0)
            }
        }),
{
    let (r, d3, sb1) = opened_or_created(d, sb, parent, name, mode, rdev, now);
    let blocks = dir.block@;
    let none = Seq::<Listed>::empty();
    if r is Ok && inode_at(d, sb, r->Ok_0.0 as u64) is Err {
        let (ino, inode) = r->Ok_0;
        let (s, _) = walk_directory::<SlotFinder>(search_for(name), d, sb, dir);
        let reuse = s.opened is Some;
        let (k, p, d2, ft, buf2) = lemma_creation_steps(
            zone,
            groups,
            d,
            sb,
            parent,
            dir,
            name,
            mode,
            rdev,
            now,
        );
        assert(block_at(d2, sb1, blocks[k]) == block_at(d, sb, blocks[k]));
        lemma_entry_put(zone, d2, sb1, dir, k, p, reuse, ino, ft, name, buf2);
        let at = sb1.block_addr(blocks[k]) + p;
        law_writing_data_keeps_well_formed(zone, groups, d2, sb1, at, buf2);
        assert(inode_at(d3, sb1, parent) == inode_at(d2, sb1, parent));
        let b = block_at(d, sb, blocks[k])->Some_0;
        let b2 = overwrite(b, p, buf2);
        assert(dir_block_ok(d, sb, blocks[k]));
        lemma_stands(b, 0, p);
        lemma_block_len(sb);
        lemma_record_fits(b, p, reuse, ino, ft, name, buf2);
        assert forall|j: int, m: Seq<Listed>, m2: Seq<Listed>|
            0 <= j < 15 && blocks[j] != 0 && named_from(m, other, 0) == named_from(
                m2,
                other,
                0,
            ) implies #[trigger] same_found(
            m,
            m2,
            sb.block_addr(blocks[j]),
            block_at(d, sb, blocks[j])->Some_0,
            block_at(d3, sb1, blocks[j])->Some_0,
            0,
            other,
        ) by {
            let addr = sb.block_addr(blocks[j]);
            lemma_written_in_block(d2, sb1, blocks[k], p, buf2, blocks[j]);
            assert(block_at(d2, sb1, blocks[j]) == block_at(d, sb, blocks[j]));
            assert(dir_block_ok(d, sb, blocks[j]));
            if j == k {
                lemma_others_in_block(
                    m,
                    m2,
                    addr,
                    b,
                    p,
                    reuse,
                    ino,
                    ft,
                    name,
                    buf2,
                    b2,
                    other,
                );
            } else {
                let same = block_at(d, sb, blocks[j])->Some_0;
                assert(blocks[j] != blocks[k]);
                lemma_same_suffix(m, m2, addr, same, same, 0, other);
            }
        }
        lemma_others_in_blocks(none, none, d, sb, d3, sb1, blocks, 0, other);
    } else if r is Ok {
        assert(d3 == d && sb1 == sb) by {
            reveal(made);
            if d3 != d || sb1 != sb {
                law_allocated_inode_was_free(zone, groups, d, sb, parent);
            }
        }
        assert forall|j: int, m: Seq<Listed>, m2: Seq<Listed>|
            0 <= j < 15 && blocks[j] != 0 && named_from(m, other, 0) == named_from(
                m2,
                other,
                0,
            ) implies #[trigger] same_found(
            m,
            m2,
            sb.block_addr(blocks[j]),
            block_at(d, sb, blocks[j])->Some_0,
            block_at(d, sb, blocks[j])->Some_0,
            0,
            other,
        ) by {
            assert(dir_block_ok(d, sb, blocks[j]));
            let same = block_at(d, sb, blocks[j])->Some_0;
            lemma_same_suffix(m, m2, sb.block_addr(blocks[j]), same, same, 0, other);
        }
        lemma_others_in_blocks(none, none, d, sb, d, sb, blocks, 0, other);
    }
}

/// Listing a block, when `l` has been listed before, gives the same for `b` and
/// for `b2`, but that `x` is inserted for `b2`.
pub open spec fn lists_one_more(
    l: Seq<Listed>,
    addr: int,
    b: Seq<u8>,
    b2: Seq<u8>,
    off: int,
    x: Listed,
) -> bool {
    let (after, walk) = walk_from::<EntryCollector>(l, addr, b, off);
    let (after2, walk2) = walk_from::<EntryCollector>(l, addr, b2, off);
    &&& walk == Walk::Ended
    &&& walk2 == Walk::Ended
    &&& one_inserted(after, after2, x)
}

/// `after` is `before` with `x` inserted somewhere.
pub open spec fn one_inserted(before: Seq<Listed>, after: Seq<Listed>, x: Listed) -> bool {
    exists|k: int| 0 <= k <= before.len() && after == #[trigger] before.insert(k, x)
}

/// Where one entry is inserted, it stays the only difference as the same bytes
/// are listed on.
proof fn lemma_inserted_suffix(
    l: Seq<Listed>,
    l2: Seq<Listed>,
    x: Listed,
    addr: int,
    b: Seq<u8>,
    b2: Seq<u8>,
    off: int,
)
    requires
        0 <= off,
        entries_well_formed(b, off),
        b.len() == b2.len(),
        forall|i: int| off <= i < b.len() ==> b[i] == b2[i],
        one_inserted(l, l2, x),
    ensures
        ({
            let (after, walk) = walk_from::<EntryCollector>(l, addr, b, off);
            let (after2, walk2) = walk_from::<EntryCollector>(l2, addr, b2, off);
            walk == Walk::Ended && walk2 == Walk::Ended && one_inserted(after, after2, x)
        }),
    decreases b.len() - off,
{
    if off < b.len() && dirent_at(b, off).rec_len > 0 {
        let ent = dirent_at(b, off);
        assert(dirent_at(b2, off).name =~= ent.name);
        assert(dirent_at(b2, off) == ent);
        let (m, _) = EntryCollector::step(l, addr, off, ent);
        let (m2, _) = EntryCollector::step(l2, addr, off, ent);
        assert(one_inserted(m, m2, x)) by {
            let k = choose|k: int| 0 <= k <= l.len() && l2 == #[trigger] l.insert(k, x);
            assert(m2 =~= m.insert(k, x));
        }
        lemma_inserted_suffix(m, m2, x, addr, b, b2, off + ent.rec_len);
    }
}

/// What is inserted from the entry at `p` on is inserted from the beginning.
proof fn lemma_inserted_from_start(
    l: Seq<Listed>,
    addr: int,
    b: Seq<u8>,
    off: int,
    p: int,
    b2: Seq<u8>,
    x: Listed,
)
    requires
        0 <= off,
        entries_well_formed(b, off),
        entry_stands_at(b, off, p),
        b2.len() == b.len(),
        forall|i: int| 0 <= i < p ==> b2[i] == b[i],
        forall|m: Seq<Listed>| #[trigger] lists_one_more(m, addr, b, b2, p, x),
    ensures
        lists_one_more(l, addr, b, b2, off, x),
    decreases b.len() - off,
{
    if off != p {
        let ent = dirent_at(b, off);
        let next = off + ent.rec_len;
        lemma_stands(b, next, p);
        assert(dirent_at(b2, off).name =~= ent.name);
        assert(dirent_at(b2, off) == ent);
        let (m, _) = EntryCollector::step(l, addr, off, ent);
        lemma_inserted_from_start(m, addr, b, next, p, b2, x);
    }
}

/// Putting an entry in its place lists one more in the block.
proof fn lemma_one_more_in_block(
    l: Seq<Listed>,
    addr: int,
    b: Seq<u8>,
    p: int,
    reuse: bool,
    ino: u32,
    ft: FileType,
    name: Seq<char>,
    buf2: Seq<u8>,
    b2: Seq<u8>,
)
    requires
        entries_well_formed(b, 0),
        entry_stands_at(b, 0, p),
        if reuse {
            text_of(dirent_at(b, p).name) == name && dirent_at(b, p).inode == 0
        } else {
            has_room(b, p, align4(DIRENT_HEADER_LEN + encode_utf8(name).len()))
        },
        ino != 0,
        with_record(
            b.subrange(p, p + dirent_at(b, p).rec_len),
            reuse,
            ino,
            Some(ft),
            encode_utf8(name),
        ) == Ok::<Seq<u8>, Errno>(buf2),
        b2 == overwrite(b, p, buf2),
    ensures
        lists_one_more(l, addr, b, b2, 0, (Listed { inode: ino, filetype: ft, name })),
{
    lemma_stands(b, 0, p);
    let x = Listed { inode: ino, filetype: ft, name };
    let ent = dirent_at(b, p);
    let end = p + ent.rec_len;
    let bytes = encode_utf8(name);
    encode_utf8_valid_utf8(name);
    encode_utf8_decode_utf8(name);
    lemma_type_bytes(ft, 0);
    if reuse {
        lemma_one_entry(b, p, ino, ft, bytes, buf2, b2);
        assert forall|m: Seq<Listed>| #[trigger] lists_one_more(m, addr, b, b2, p, x) by {
            assert(m.push(x) =~= m.insert(m.len() as int, x));
            lemma_inserted_suffix(m, m.push(x), x, addr, b, b2, end);
        }
    } else {
        assert(bytes.len() <= 255) by {
            reveal(with_record);
        }
        lemma_two_entries(b, p, ino, ft, bytes, buf2, b2);
        let kept = align4(DIRENT_HEADER_LEN + ent.name_len);
        assert forall|m: Seq<Listed>| #[trigger] lists_one_more(m, addr, b, b2, p, x) by {
            let (n, _) = EntryCollector::step(m, addr, p, ent);
            assert(n.push(x) =~= n.insert(n.len() as int, x));
            lemma_inserted_suffix(n, n.push(x), x, addr, b, b2, end);
            assert(walk_from::<EntryCollector>(m, addr, b2, p) == walk_from::<EntryCollector>(
                n,
                addr,
                b2,
                p + kept,
            ));
            assert(walk_from::<EntryCollector>(n, addr, b2, p + kept) == walk_from::<
                EntryCollector,
            >(n.push(x), addr, b2, end));
        }
    }
    lemma_inserted_from_start(l, addr, b, 0, p, b2, x);
}

/// Where one entry is inserted, it stays the only difference as the same blocks
/// are listed on.
proof fn lemma_inserted_blocks_suffix(
    l: Seq<Listed>,
    l2: Seq<Listed>,
    x: Listed,
    d: Seq<u8>,
    sb: Superblock,
    d2: Seq<u8>,
    sb2: Superblock,
    blocks: Seq<u32>,
    i: int,
)
    requires
        0 <= i <= blocks.len(),
        one_inserted(l, l2, x),
        sb.log_block_size == sb2.log_block_size,
        forall|j: int| i <= j < blocks.len() ==> #[trigger] dir_block_ok(d, sb, blocks[j]),
        forall|j: int|
            i <= j < blocks.len() && blocks[j] != 0 ==> #[trigger] block_at(d2, sb2, blocks[j])
                == block_at(d, sb, blocks[j]),
    ensures
        ({
            let (after, r) = walk_blocks::<EntryCollector>(l, d, sb, blocks, i);
            let (after2, r2) = walk_blocks::<EntryCollector>(l2, d2, sb2, blocks, i);
            &&& r == Ok::<bool, Errno>(false)
            &&& r2 == Ok::<bool, Errno>(false)
            &&& one_inserted(after, after2, x)
        }),
    decreases blocks.len() - i,
{
    if i < blocks.len() {
        assert(dir_block_ok(d, sb, blocks[i]));
        if blocks[i] == 0 {
            lemma_inserted_blocks_suffix(l, l2, x, d, sb, d2, sb2, blocks, i + 1);
        } else {
            let b = block_at(d, sb, blocks[i])->Some_0;
            assert(block_at(d2, sb2, blocks[i]) == Some(b));
            let addr = sb.block_addr(blocks[i]);
            assert(addr == sb2.block_addr(blocks[i]));
            lemma_inserted_suffix(l, l2, x, addr, b, b, 0);
            let (m, _) = walk_from::<EntryCollector>(l, addr, b, 0);
            let (m2, _) = walk_from::<EntryCollector>(l2, addr, b, 0);
            lemma_inserted_blocks_suffix(m, m2, x, d, sb, d2, sb2, blocks, i + 1);
        }
    }
}

/// One more in block number `k` is one more in the directory.
proof fn lemma_inserted_blocks(
    l: Seq<Listed>,
    x: Listed,
    d: Seq<u8>,
    sb: Superblock,
    d2: Seq<u8>,
    sb2: Superblock,
    blocks: Seq<u32>,
    i: int,
    k: int,
)
    requires
        0 <= i <= k < blocks.len(),
        blocks[k] != 0,
        sb.log_block_size == sb2.log_block_size,
        forall|j: int| i <= j < blocks.len() ==> #[trigger] dir_block_ok(d, sb, blocks[j]),
        block_at(d2, sb2, blocks[k]) is Some,
        forall|j: int|
            i <= j < blocks.len() && j != k && blocks[j] != 0 ==> #[trigger] block_at(
                d2,
                sb2,
                blocks[j],
            ) == block_at(d, sb, blocks[j]),
        forall|m: Seq<Listed>| #[trigger]
            lists_one_more(
                m,
                sb.block_addr(blocks[k]),
                block_at(d, sb, blocks[k])->Some_0,
                block_at(d2, sb2, blocks[k])->Some_0,
                0,
                x,
            ),
    ensures
        ({
            let (after, r) = walk_blocks::<EntryCollector>(l, d, sb, blocks, i);
            let (after2, r2) = walk_blocks::<EntryCollector>(l, d2, sb2, blocks, i);
            &&& r == Ok::<bool, Errno>(false)
            &&& r2 == Ok::<bool, Errno>(false)
            &&& one_inserted(after, after2, x)
        }),
    decreases blocks.len() - i,
{
    assert(dir_block_ok(d, sb, blocks[i]));
    let b = block_at(d, sb, blocks[i])->Some_0;
    let addr = sb.block_addr(blocks[i]);
    assert(addr == sb2.block_addr(blocks[i]));
    if i == k {
        let b2 = block_at(d2, sb2, blocks[i])->Some_0;
        assert(lists_one_more(l, addr, b, b2, 0, x));
        let (m, _) = walk_from::<EntryCollector>(l, addr, b, 0);
        let (m2, _) = walk_from::<EntryCollector>(l, addr, b2, 0);
        lemma_inserted_blocks_suffix(m, m2, x, d, sb, d2, sb2, blocks, i + 1);
    } else if blocks[i] == 0 {
        lemma_inserted_blocks(l, x, d, sb, d2, sb2, blocks, i + 1, k);
    } else {
        assert(block_at(d2, sb2, blocks[i]) == Some(b));
        lemma_walk_ends(l, addr, b, 0);
        let (m, _) = walk_from::<EntryCollector>(l, addr, b, 0);
        lemma_inserted_blocks(m, x, d, sb, d2, sb2, blocks, i + 1, k);
    }
}

/// Listing a well-formed block comes to its end.
proof fn lemma_walk_ends(l: Seq<Listed>, addr: int, b: Seq<u8>, off: int)
    requires
        0 <= off,
        entries_well_formed(b, off),
    ensures
        walk_from::<EntryCollector>(l, addr, b, off).1 == Walk::Ended,
    decreases b.len() - off,
{
    if off < b.len() && dirent_at(b, off).rec_len > 0 {
        let ent = dirent_at(b, off);
        let (m, _) = EntryCollector::step(l, addr, off, ent);
        lemma_walk_ends(m, addr, b, off + ent.rec_len);
    }
}

/// After a file is created, the directory lists what it listed before, in the
/// same order, and the new file besides.
pub proof fn law_creation_lists_one_more(
    zone: spec_fn(int) -> Zone,
    groups: u32,
    d: Seq<u8>,
    sb: Superblock,
    parent: u64,
    dir: Inode,
    name: Seq<char>,
    mode: u32,
    rdev: u32,
    now: Option<u64>,
)
    requires
        well_formed(zone, groups, d, sb),
        has_inode(groups, sb, parent),
        inode_at(d, sb, parent) == Ok::<Inode, Errno>(dir),
        directory_well_formed(zone, d, sb, dir),
    ensures
        ({
            let (r, d2, sb2) = opened_or_created(d, sb, parent, name, mode, rdev, now);
            r matches Ok((ino, inode)) ==> inode_at(d, sb, ino as u64) is Err ==> {
                &&& kind_of_mode(inode.mode) matches Some(filetype)
                &&& listing(d, sb, parent) matches Ok(before)
                &&& listing(d2, sb2, parent) matches Ok(after)
                &&& one_inserted(before, after, (Listed { inode: ino, filetype, name }))
            }
        }),
{
    let (r, d3, sb1) = opened_or_created(d, sb, parent, name, mode, rdev, now);
    if r is Ok && inode_at(d, sb, r->Ok_0.0 as u64) is Err {
        let blocks = dir.block@;
        let (ino, inode) = r->Ok_0;
        let (s, _) = walk_directory::<SlotFinder>(search_for(name), d, sb, dir);
        let reuse = s.opened is Some;
        let (k, p, d2, ft, buf2) = lemma_creation_steps(
            zone,
            groups,
            d,
            sb,
            parent,
            dir,
            name,
            mode,
            rdev,
            now,
        );
        let x = Listed { inode: ino, filetype: ft, name };
        assert(block_at(d2, sb1, blocks[k]) == block_at(d, sb, blocks[k]));
        lemma_entry_put(zone, d2, sb1, dir, k, p, reuse, ino, ft, name, buf2);
        let at = sb1.block_addr(blocks[k]) + p;
        law_writing_data_keeps_well_formed(zone, groups, d2, sb1, at, buf2);
        assert(inode_at(d3, sb1, parent) == inode_at(d2, sb1, parent));
        let b = block_at(d, sb, blocks[k])->Some_0;
        let b2 = overwrite(b, p, buf2);
        assert(dir_block_ok(d, sb, blocks[k]));
        lemma_stands(b, 0, p);
        lemma_block_len(sb);
        lemma_record_fits(b, p, reuse, ino, ft, name, buf2);
        assert forall|j: int| 0 <= j < 15 && j != k && blocks[j] != 0 implies #[trigger] block_at(
            d3,
            sb1,
            blocks[j],
        ) == block_at(d, sb, blocks[j]) by {
            assert(blocks[j] != blocks[k]);
            lemma_written_in_block(d2, sb1, blocks[k], p, buf2, blocks[j]);
            assert(block_at(d2, sb1, blocks[j]) == block_at(d, sb, blocks[j]));
        }
        lemma_written_in_block(d2, sb1, blocks[k], p, buf2, blocks[k]);
        assert forall|m: Seq<Listed>| #[trigger]
            lists_one_more(m, sb.block_addr(blocks[k]), b, b2, 0, x) by {
            let addr = sb.block_addr(blocks[k]);
            lemma_one_more_in_block(m, addr, b, p, reuse, ino, ft, name, buf2, b2);
        }
        lemma_inserted_blocks(Seq::empty(), x, d, sb, d3, sb1, blocks, 0, k);
    }
}

/// What is put into the place of an entry takes up as much room.
proof fn lemma_record_fits(
    b: Seq<u8>,
    p: int,
    reuse: bool,
    ino: u32,
    ft: FileType,
    name: Seq<char>,
    buf2: Seq<u8>,
)
    requires
        0 <= p,
        0 < dirent_at(b, p).rec_len,
        p + DIRENT_HEADER_LEN + dirent_at(b, p).name_len <= p + dirent_at(b, p).rec_len <= b.len(),
        !reuse ==> has_room(b, p, align4(DIRENT_HEADER_LEN + encode_utf8(name).len())),
        with_record(
            b.subrange(p, p + dirent_at(b, p).rec_len),
            reuse,
            ino,
            Some(ft),
            encode_utf8(name),
        ) == Ok::<Seq<u8>, Errno>(buf2),
    ensures
        0 < buf2.len(),
        p + buf2.len() <= b.len(),
{
    let b2 = overwrite(b, p, buf2);
    if reuse {
        lemma_one_entry(b, p, ino, ft, encode_utf8(name), buf2, b2);
    } else {
        assert(encode_utf8(name).len() <= 255) by {
            reveal(with_record);
        }
        lemma_two_entries(b, p, ino, ft, encode_utf8(name), buf2, b2);
    }
}

/// Asking for a file a second time opens the same file, with the same inode, and
/// changes nothing, whether the first time opened or created it.
pub proof fn law_asking_again_opens_the_same(
    zone: spec_fn(int) -> Zone,
    groups: u32,
    d: Seq<u8>,
    sb: Superblock,
    parent: u64,
    dir: Inode,
    name: Seq<char>,
    mode: u32,
    rdev: u32,
    now: Option<u64>,
    mode2: u32,
    rdev2: u32,
    now2: Option<u64>,
)
    requires
        well_formed(zone, groups, d, sb),
        has_inode(groups, sb, parent),
        inode_at(d, sb, parent) == Ok::<Inode, Errno>(dir),
        directory_well_formed(zone, d, sb, dir),
    ensures
        ({
            let (r, d2, sb2) = opened_or_created(d, sb, parent, name, mode, rdev, now);
            r is Ok ==> opened_or_created(d2, sb2, parent, name, mode2, rdev2, now2) == (r, d2, sb2)
        }),
{
    let (r, d2, sb2) = opened_or_created(d, sb, parent, name, mode, rdev, now);
    if r is Ok {
        let (s, _) = walk_directory::<SlotFinder>(search_for(name), d, sb, dir);
        let there = s.opened matches Some(ino) && ino != 0;
        if !there {
            assert(inode_at(d, sb, r->Ok_0.0 as u64) is Err) by {
                reveal(made);
                law_allocated_inode_was_free(zone, groups, d, sb, parent);
            }
            law_created_file_is_found(zone, groups, d, sb, parent, dir, name, mode, rdev, now);
        }
    }
}

/// A search for a name that no entry has remembers a place where there is one.
proof fn lemma_room_is_found(s: Search, addr: int, b: Seq<u8>, off: int, p: int)
    requires
        0 <= off,
        entries_well_formed(b, off),
        name_absent(b, off, b.len() as int, s.target),
        s.opened is None,
        s.alloc_len != 0 || (entry_stands_at(b, off, p) && has_room(b, p, s.target_rec_len)),
    ensures
        ({
            let (s2, walk) = walk_from::<SlotFinder>(s, addr, b, off);
            &&& walk == Walk::Ended
            &&& s2.opened is None
            &&& s2.target == s.target
            &&& s2.target_rec_len == s.target_rec_len
            &&& s2.alloc_len != 0
        }),
    decreases b.len() - off,
{
    if off < b.len() && dirent_at(b, off).rec_len > 0 {
        let ent = dirent_at(b, off);
        let (s1, _) = SlotFinder::step(s, addr, off, ent);
        lemma_room_is_found(s1, addr, b, off + ent.rec_len, p);
    }
}

/// The same for the blocks of a directory, where block number `k` has the place.
proof fn lemma_room_is_found_in_blocks(
    s: Search,
    d: Seq<u8>,
    sb: Superblock,
    blocks: Seq<u32>,
    i: int,
    k: int,
    p: int,
)
    requires
        0 <= i <= blocks.len(),
        forall|j: int| i <= j < blocks.len() ==> #[trigger] dir_block_ok(d, sb, blocks[j]),
        forall|j: int|
            i <= j < blocks.len() ==> #[trigger] absent_in_block(d, sb, blocks[j], s.target),
        s.opened is None,
        s.alloc_len != 0 || {
            let b = block_at(d, sb, blocks[k])->Some_0;
            &&& i <= k < blocks.len()
            &&& blocks[k] != 0
            &&& entry_stands_at(b, 0, p)
            &&& has_room(b, p, s.target_rec_len)
        },
    ensures
        ({
            let (s2, r) = walk_blocks::<SlotFinder>(s, d, sb, blocks, i);
            r == Ok::<bool, Errno>(false) && s2.opened is None && s2.alloc_len != 0
        }),
    decreases blocks.len() - i,
{
    if i < blocks.len() {
        assert(dir_block_ok(d, sb, blocks[i]));
        assert(absent_in_block(d, sb, blocks[i], s.target));
        if blocks[i] == 0 {
            lemma_room_is_found_in_blocks(s, d, sb, blocks, i + 1, k, p);
        } else {
            let b = block_at(d, sb, blocks[i])->Some_0;
            let addr = sb.block_addr(blocks[i]);
            if s.alloc_len != 0 || i == k {
                lemma_room_is_found(s, addr, b, 0, p);
            } else {
                lemma_search_ends(s, addr, b);
                let q = lemma_search(s, addr, b, 0);
            }
            let (s2, _) = walk_from::<SlotFinder>(s, addr, b, 0);
            lemma_room_is_found_in_blocks(s2, d, sb, blocks, i + 1, k, p);
        }
    }
}

/// A search stops at the deleted entry that is the first with the name.
proof fn lemma_deleted_is_opened(
    zone: spec_fn(int) -> Zone,
    d: Seq<u8>,
    sb: Superblock,
    dir: Inode,
    k: int,
    p: int,
    name: Seq<char>,
)
    requires
        directory_well_formed(zone, d, sb, dir),
        place_fits(d, sb, dir.block@, k, p, true, name),
    ensures
        walk_directory::<SlotFinder>(search_for(name), d, sb, dir).0.opened == Some(0u32),
{
    let blocks = dir.block@;
    let b = block_at(d, sb, blocks[k])->Some_0;
    let addr = sb.block_addr(blocks[k]);
    assert(dir_block_ok(d, sb, blocks[k]));
    lemma_stands(b, 0, p);
    assert forall|s: Search| s.target == name && s.opened is None implies #[trigger] name_opened(
        s,
        addr,
        b,
        p,
        0,
    ) by {}
    assert forall|s: Search| s.target == name && s.opened is None implies #[trigger] name_opened(
        s,
        addr,
        b,
        0,
        0,
    ) by {
        lemma_opened_from_start(s, addr, b, 0, p, b, 0);
    }
    lemma_opened_in_blocks(search_for(name), d, sb, blocks, 0, k, 0);
}

/// Where an entry has a place, the search finds one.
proof fn lemma_place_is_found(
    zone: spec_fn(int) -> Zone,
    d: Seq<u8>,
    sb: Superblock,
    dir: Inode,
    k: int,
    p: int,
    reuse: bool,
    name: Seq<char>,
)
    requires
        directory_well_formed(zone, d, sb, dir),
        place_fits(d, sb, dir.block@, k, p, reuse, name),
    ensures
        ({
            let (s, _) = walk_directory::<SlotFinder>(search_for(name), d, sb, dir);
            if reuse {
                s.opened == Some(0u32)
            } else {
                s.opened is None && s.alloc_len != 0
            }
        }),
{
    if reuse {
        lemma_deleted_is_opened(zone, d, sb, dir, k, p, name);
    } else {
        lemma_room_is_found_in_blocks(search_for(name), d, sb, dir.block@, 0, k, p);
    }
}

/// A record can be made where there is a place for it.
proof fn lemma_record_can_be_made(
    b: Seq<u8>,
    p: int,
    reuse: bool,
    ino: u32,
    ft: FileType,
    name: Seq<u8>,
)
    requires
        0 <= p,
        0 < dirent_at(b, p).rec_len,
        p + DIRENT_HEADER_LEN + dirent_at(b, p).name_len <= p + dirent_at(b, p).rec_len <= b.len(),
        !reuse ==> name.len() <= 255 && has_room(b, p, align4(DIRENT_HEADER_LEN + name.len())),
    ensures
        with_record(
            b.subrange(p, p + dirent_at(b, p).rec_len),
            reuse,
            ino,
            Some(ft),
            name,
        ) matches Ok(buf2) && buf2.len() == dirent_at(b, p).rec_len,
{
    reveal(with_record);
    assert(b.subrange(p, p + dirent_at(b, p).rec_len)[6] == b[p + 6]);
}

/// A file is created where its directory has a place for its entry: the name is
/// that of no entry, has at most 255 bytes and there is room for it, or the
/// first entry with the name was deleted. An inode has to be free, the counts
/// have to agree, and the kind of file and the time have to be known.
pub proof fn law_creation_succeeds(
    zone: spec_fn(int) -> Zone,
    groups: u32,
    d: Seq<u8>,
    sb: Superblock,
    parent: u64,
    dir: Inode,
    name: Seq<char>,
    mode: u32,
    rdev: u32,
    now: u64,
    k: int,
    p: int,
    reuse: bool,
)
    requires
        counts_agree(zone, groups, d, sb, Resource::Inode),
        has_inode(groups, sb, parent),
        inode_at(d, sb, parent) == Ok::<Inode, Errno>(dir),
        directory_well_formed(zone, d, sb, dir),
        place_fits(d, sb, dir.block@, k, p, reuse, name),
        !reuse ==> encode_utf8(name).len() <= 255,
        kind_of_mode(mode as u16) is Some,
        sb.free_inodes_count > 0,
    ensures
        ({
            let r = opened_or_created(d, sb, parent, name, mode, rdev, Some(now)).0;
            &&& r is Ok
            &&& inode_at(d, sb, r->Ok_0.0 as u64) is Err
            &&& r->Ok_0.1 == new_inode(mode, rdev, now)
        }),
{
    let (s, _) = walk_directory::<SlotFinder>(search_for(name), d, sb, dir);
    lemma_place_is_found(zone, d, sb, dir, k, p, reuse, name);
    let (k2, p2) = lemma_place(zone, d, sb, dir, name);
    law_allocation_succeeds_while_something_is_left(zone, groups, d, sb, Resource::Inode, parent);
    law_allocated_inode_was_free(zone, groups, d, sb, parent);
    let inode = new_inode(mode, rdev, now);
    lemma_inode_created(zone, groups, d, sb, parent, inode);
    let (r, d1, sb1) = allocated(d, sb, Resource::Inode, parent);
    let ino = r->Ok_0;
    let d2 = with_inode(d1, sb1, ino as u64, inode)->Ok_0;
    lemma_directory_stays(zone, d, sb, dir, d2, sb1, k2, p2, reuse, name);
    let home = dir.block@[k2];
    assert(block_at(d2, sb1, home) == block_at(d, sb, home));
    assert(dir_block_ok(d2, sb1, home));
    let b = block_at(d, sb, home)->Some_0;
    lemma_stands(b, 0, p2);
    lemma_entry_read(d2, sb1, home, p2);
    let ft = kind_of_mode(inode.mode)->Some_0;
    lemma_record_can_be_made(b, p2, reuse, ino, ft, encode_utf8(name));
    reveal(made);
}

/// What creating a file writes: `w.1` is the device once the inode is stored,
/// and then `w.2` is written from `w.3` on, which lies in block number `w.0` of
/// the directory.
proof fn lemma_creation_writes(
    zone: spec_fn(int) -> Zone,
    groups: u32,
    d: Seq<u8>,
    sb: Superblock,
    parent: u64,
    dir: Inode,
    name: Seq<char>,
    mode: u32,
    rdev: u32,
    now: Option<u64>,
) -> (w: (int, Seq<u8>, Seq<u8>, int))
    requires
        well_formed(zone, groups, d, sb),
        has_inode(groups, sb, parent),
        inode_at(d, sb, parent) == Ok::<Inode, Errno>(dir),
        directory_well_formed(zone, d, sb, dir),
        ({
            let (r, _, _) = opened_or_created(d, sb, parent, name, mode, rdev, now);
            r matches Ok((ino, _)) && inode_at(d, sb, ino as u64) is Err
        }),
    ensures
        ({
            let (r, d3, sb1) = opened_or_created(d, sb, parent, name, mode, rdev, now);
            let (ino, inode) = r->Ok_0;
            let (number, d1, sb2) = allocated(d, sb, Resource::Inode, parent);
            let (k, d2, data, at) = w;
            let start = sb.block_addr(dir.block@[k]);
            &&& number == Ok::<u32, Errno>(ino)
            &&& sb2 == sb1
            &&& sb1 == Resource::Inode.one_less(sb)
            &&& has_inode(groups, sb1, ino as u64)
            &&& with_inode(d1, sb1, ino as u64, inode) == Ok::<Seq<u8>, Errno>(d2)
            &&& well_formed(zone, groups, d2, sb1)
            &&& written(d2, at, data) == Ok::<Seq<u8>, Errno>(d3)
            &&& lies_in(zone, d2, Zone::Data, at, data.len() as int)
            &&& agree_in(zone, Zone::Data, d, d2)
            &&& 0 <= k < 15
            &&& dir.block@[k] != 0
            &&& start <= at
            &&& at + data.len() <= start + sb.block_len()
        }),
{
    let (r, d3, sb1) = opened_or_created(d, sb, parent, name, mode, rdev, now);
    let blocks = dir.block@;
    let (ino, inode) = r->Ok_0;
    let (s, _) = walk_directory::<SlotFinder>(search_for(name), d, sb, dir);
    let reuse = s.opened is Some;
    let (k, p, d2, ft, buf2) = lemma_creation_steps(
        zone,
        groups,
        d,
        sb,
        parent,
        dir,
        name,
        mode,
        rdev,
        now,
    );
    let b = block_at(d, sb, blocks[k])->Some_0;
    assert(block_at(d2, sb1, blocks[k]) == block_at(d, sb, blocks[k]));
    assert(dir_block_ok(d, sb, blocks[k]));
    lemma_stands(b, 0, p);
    lemma_block_len(sb);
    lemma_record_fits(b, p, reuse, ino, ft, name, buf2);
    lemma_entry_put(zone, d2, sb1, dir, k, p, reuse, ino, ft, name, buf2);
    (k, d2, buf2, sb.block_addr(blocks[k]) + p)
}

/// Opening a file changes nothing: only a file whose inode was not in use is
/// created.
proof fn lemma_opening_changes_nothing(
    zone: spec_fn(int) -> Zone,
    groups: u32,
    d: Seq<u8>,
    sb: Superblock,
    parent: u64,
    name: Seq<char>,
    mode: u32,
    rdev: u32,
    now: Option<u64>,
)
    requires
        well_formed(zone, groups, d, sb),
        has_inode(groups, sb, parent),
    ensures
        ({
            let (r, d2, sb2) = opened_or_created(d, sb, parent, name, mode, rdev, now);
            r matches Ok((ino, _)) ==> inode_at(d, sb, ino as u64) is Ok ==> d2 == d && sb2 == sb
        }),
{
    reveal(made);
    law_allocated_inode_was_free(zone, groups, d, sb, parent);
}

/// Creating a file leaves all data outside the blocks of its directory as it
/// was.
pub proof fn law_creation_leaves_other_data(
    zone: spec_fn(int) -> Zone,
    groups: u32,
    d: Seq<u8>,
    sb: Superblock,
    parent: u64,
    dir: Inode,
    name: Seq<char>,
    mode: u32,
    rdev: u32,
    now: Option<u64>,
)
    requires
        well_formed(zone, groups, d, sb),
        has_inode(groups, sb, parent),
        inode_at(d, sb, parent) == Ok::<Inode, Errno>(dir),
        directory_well_formed(zone, d, sb, dir),
    ensures
        ({
            let (r, d2, sb2) = opened_or_created(d, sb, parent, name, mode, rdev, now);
            r is Ok ==> {
                &&& d2.len() == d.len()
                &&& forall|i: int|
                    0 <= i < d.len() && zone(i) == Zone::Data && (forall|j: int|
                        0 <= j < 15 && #[trigger] dir.block@[j] != 0 ==> !(sb.block_addr(
                            dir.block@[j],
                        ) <= i < sb.block_addr(dir.block@[j]) + sb.block_len()))
                        ==> #[trigger] d2[i] == d[i]
            }
        }),
{
    let (r, d3, sb1) = opened_or_created(d, sb, parent, name, mode, rdev, now);
    lemma_opening_changes_nothing(zone, groups, d, sb, parent, name, mode, rdev, now);
    if r is Ok && inode_at(d, sb, r->Ok_0.0 as u64) is Err {
        let (k, d2, data, at) = lemma_creation_writes(
            zone,
            groups,
            d,
            sb,
            parent,
            dir,
            name,
            mode,
            rdev,
            now,
        );
        assert forall|i: int|
            0 <= i < d.len() && zone(i) == Zone::Data && (forall|j: int|
                0 <= j < 15 && #[trigger] dir.block@[j] != 0 ==> !(sb.block_addr(dir.block@[j]) <= i
                    < sb.block_addr(dir.block@[j]) + sb.block_len())) implies #[trigger] d3[i]
            == d[i] by {
            assert(dir.block@[k] != 0);
            assert(d2[i] == d[i]);
        }
    }
}

/// Creating a file leaves every other inode in use as it was.
pub proof fn law_creation_leaves_other_inodes(
    zone: spec_fn(int) -> Zone,
    groups: u32,
    d: Seq<u8>,
    sb: Superblock,
    parent: u64,
    dir: Inode,
    name: Seq<char>,
    mode: u32,
    rdev: u32,
    now: Option<u64>,
    x: u64,
)
    requires
        well_formed(zone, groups, d, sb),
        has_inode(groups, sb, parent),
        inode_at(d, sb, parent) == Ok::<Inode, Errno>(dir),
        directory_well_formed(zone, d, sb, dir),
        has_inode(groups, sb, x),
        inode_at(d, sb, x) is Ok,
    ensures
        ({
            let (r, d2, sb2) = opened_or_created(d, sb, parent, name, mode, rdev, now);
            r is Ok ==> inode_at(d2, sb2, x) == inode_at(d, sb, x)
        }),
{
    let (r, d3, sb1) = opened_or_created(d, sb, parent, name, mode, rdev, now);
    lemma_opening_changes_nothing(zone, groups, d, sb, parent, name, mode, rdev, now);
    if r is Ok && inode_at(d, sb, r->Ok_0.0 as u64) is Err {
        let (ino, inode) = r->Ok_0;
        let (k, d2, data, at) = lemma_creation_writes(
            zone,
            groups,
            d,
            sb,
            parent,
            dir,
            name,
            mode,
            rdev,
            now,
        );
        let (_, d1, _) = allocated(d, sb, Resource::Inode, parent);
        law_allocation_keeps_well_formed(zone, groups, d, sb, Resource::Inode, parent);
        law_allocation_leaves_inodes(zone, groups, d, sb, Resource::Inode, parent, x);
        law_storing_leaves_other_inodes(zone, groups, d1, sb1, ino as u64, inode, x);
        law_writing_data_keeps_well_formed(zone, groups, d2, sb1, at, data);
        assert(inode_at(d3, sb1, x) == inode_at(d2, sb1, x));
    }
}

} // verus!
