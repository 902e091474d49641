//! What the answers to FUSE tell, in terms of the bytes of the device.

use vstd::prelude::*;
use vstd::arithmetic::div_mod::lemma_fundamental_div_mod_converse;
use crate::device::{lemma_encode, DeviceData, Storage};
use crate::directory::{listing, Listed};
use crate::entries::{
    directory_entries, entry_place, law_first_entry_is_found, law_listing_is_what_the_bytes_say,
    lemma_listed_count, lemma_listed_item, listed_from, lists, name_at,
};
use crate::errno::Errno;
use crate::filesystem::{
    are_items, attributes, attributes_at, attributes_set, changed, looked_up, AttrChanges, DirItem,
    FileAttr,
};
use crate::fs::HelloFS;
use crate::inode::{FileType, Inode};
use crate::laws::law_attributes_set_are_seen;
use crate::layout::{inode_at, with_inode};
use crate::plain::{
    bit_known, countable, inode_place, law_inode_is_loaded_from_its_place,
    law_inode_is_stored_in_its_place, law_superblock_is_what_its_bytes_say, le16, le32, marked,
    reads_as, within,
};
use crate::superblock::Superblock;
use crate::wellformed::{has_inode, well_formed, Zone};

verus! {

/// The number that ext2 has for inode `ino` of FUSE.
pub open spec fn ext2_number(ino: u64) -> int {
    if ino == 1 {
        2
    } else {
        ino as int
    }
}

/// The number that FUSE has for inode `num` of ext2.
pub open spec fn fuse_number(num: int) -> int {
    if num == 2 {
        1
    } else {
        num
    }
}

/// The attributes are those of the inode that stands at `p`.
pub open spec fn tells(a: FileAttr, d: Seq<u8>, p: int) -> bool {
    let top = le16(d, p) / 4096;
    &&& a.size == le32(d, p + 4)
    &&& a.blocks == le32(d, p + 28)
    &&& a.atime.sec == le32(d, p + 8)
    &&& a.ctime.sec == le32(d, p + 12)
    &&& a.mtime.sec == le32(d, p + 16)
    &&& a.crtime.sec == 0
    &&& a.atime.nsec == 0
    &&& a.ctime.nsec == 0
    &&& a.mtime.nsec == 0
    &&& a.crtime.nsec == 0
    &&& a.kind == FileType::NamedPipe <==> top == 1
    &&& a.kind == FileType::CharDevice <==> top == 2
    &&& a.kind == FileType::Directory <==> top == 4
    &&& a.kind == FileType::BlockDevice <==> top == 6
    &&& a.kind == FileType::Symlink <==> top == 10
    &&& a.kind == FileType::Socket <==> top == 12
    &&& a.perm == le16(d, p) % 4096
    &&& a.nlink == le16(d, p + 26)
    &&& a.uid == le16(d, p + 2)
    &&& a.gid == le16(d, p + 24)
    &&& top == 2 || top == 6 ==> a.rdev == le32(d, p + 40)
    &&& top != 2 && top != 6 ==> a.rdev == 0
    &&& a.flags == 0
}

/// The attributes of an inode are what its bytes tell.
proof fn lemma_attributes(num: u64, i: Inode, d: Seq<u8>, p: int)
    requires
        reads_as(i, d, p),
    ensures
        tells(attributes(num, i), d, p),
        attributes(num, i).ino == fuse_number(num as int),
{
    assert(i.block@[0] == le32(d, p + 40 + 4 * 0));
}

/// The answer for inode `num` of ext2 is what its bytes tell. There is no such
/// file exactly where its bit is clear, and where the device does not reach that
/// far it cannot be told.
pub open spec fn answers_for(
    r: Result<FileAttr, Errno>,
    d: Seq<u8>,
    sb: Superblock,
    num: int,
) -> bool {
    let p = inode_place(d, sb, num);
    if !bit_known(d, sb, num) {
        r == Err::<FileAttr, Errno>(Errno::EIO)
    } else if !marked(d, sb, num) {
        r == Err::<FileAttr, Errno>(Errno::ENOENT)
    } else if !within(d, p, 128) {
        r == Err::<FileAttr, Errno>(Errno::EIO)
    } else {
        r matches Ok(a) && tells(a, d, p) && a.ino == fuse_number(num)
    }
}

/// What is told of an inode is what its bytes tell.
pub(crate) proof fn lemma_answers_for(d: Seq<u8>, sb: Superblock, num: u64)
    requires
        sb.readable(),
        countable(sb, num as int),
    ensures
        answers_for(
            match inode_at(d, sb, num) {
                Ok(inode) => Ok(attributes(num, inode)),
                Err(e) => Err(e),
            },
            d,
            sb,
            num as int,
        ),
{
    law_inode_is_loaded_from_its_place(d, sb, num);
    if inode_at(d, sb, num) is Ok {
        lemma_attributes(num, inode_at(d, sb, num)->Ok_0, d, inode_place(d, sb, num as int));
    }
}

/// The answer to a request for attributes tells what the bytes of the inode
/// say.
pub proof fn law_attributes_are_what_the_bytes_say(d: Seq<u8>, sb: Superblock, ino: u64)
    requires
        sb.readable(),
        countable(sb, ext2_number(ino)),
    ensures
        answers_for(attributes_at(d, sb, ino), d, sb, ext2_number(ino)),
{
    lemma_answers_for(d, sb, ext2_number(ino) as u64);
}

/// What `getattr` answers is what the bytes of the inode say, and it changes
/// nothing.
pub proof fn law_getattr_tells_what_the_bytes_say<S: Storage>(
    before: HelloFS<S>,
    after: HelloFS<S>,
    ino: u64,
    r: Result<FileAttr, Errno>,
    d: Seq<u8>,
    c: Seq<u8>,
)
    requires
        before.superblock.readable(),
        countable(before.superblock, ext2_number(ino)),
        exists|fs: &mut HelloFS<S>|
            *fs == before && *final(fs) == after && #[trigger] call_ensures(
                HelloFS::<S>::getattr,
                (fs, ino),
                r,
            ),
        after.device.now(d) == Some(c),
    ensures
        before.device.now(d) == Some(c),
        after.superblock == before.superblock,
        answers_for(r, c, before.superblock, ext2_number(ino)),
{
    law_attributes_are_what_the_bytes_say(c, before.superblock, ino);
}

/// The file system is ready with the superblock that the device holds.
pub proof fn law_init_loads_what_the_bytes_say<S: Storage>(
    before: HelloFS<S>,
    after: HelloFS<S>,
    r: Result<(), Errno>,
    d: Seq<u8>,
    c: Seq<u8>,
)
    requires
        exists|fs: &mut HelloFS<S>|
            *fs == before && *final(fs) == after && #[trigger] call_ensures(
                HelloFS::<S>::init,
                (fs,),
                r,
            ),
        after.device.now(d) == Some(c),
    ensures
        before.device.now(d) == Some(c),
        r is Ok <==> c.len() >= 1288,
        r is Ok ==> after.superblock.encode() == c.subrange(1024, 1288),
        r is Ok ==> {
            let sb = after.superblock;
            &&& sb.inode_count == le32(c, 1024)
            &&& sb.blocks_count == le32(c, 1028)
            &&& sb.free_blocks_count == le32(c, 1036)
            &&& sb.free_inodes_count == le32(c, 1040)
            &&& sb.first_data_block == le32(c, 1044)
            &&& sb.log_block_size == le32(c, 1048)
            &&& sb.blocks_per_group == le32(c, 1056)
            &&& sb.inodes_per_group == le32(c, 1064)
        },
        r is Err ==> r == Err::<(), Errno>(Errno::EIO) && after.superblock == before.superblock,
{
    law_superblock_is_what_its_bytes_say(c);
    if c.len() >= 1288 {
        lemma_encode::<Superblock>(c.subrange(1024, 1288));
    }
}

/// A number as it is kept in 32 bits.
pub open spec fn kept32(x: int) -> int {
    x % 4294967296
}

/// `d2` is `d` with the changes made to the inode that stands at `p` and with
/// nothing else changed. What was given is there, whatever else was given with
/// it, and what was not given is as it was.
pub open spec fn changes_made(d: Seq<u8>, d2: Seq<u8>, p: int, ch: AttrChanges) -> bool {
    &&& d2.len() == d.len()
    &&& le16(d2, p) == match ch.mode {
        Some(mode) => mode as int,
        None => le16(d, p),
    }
    &&& le16(d2, p + 2) == match ch.uid {
        Some(uid) => uid as int,
        None => le16(d, p + 2),
    }
    &&& le32(d2, p + 4) == match ch.size {
        Some(size) => size as int,
        None => le32(d, p + 4),
    }
    &&& le32(d2, p + 8) == match ch.atime {
        Some(t) => kept32(t.sec as int),
        None => le32(d, p + 8),
    }
    &&& le32(d2, p + 12) == le32(d, p + 12)
    &&& le32(d2, p + 16) == match ch.mtime {
        Some(t) => kept32(t.sec as int),
        None => le32(d, p + 16),
    }
    &&& le32(d2, p + 20) == le32(d, p + 20)
    &&& le16(d2, p + 24) == match ch.gid {
        Some(gid) => gid as int,
        None => le16(d, p + 24),
    }
    &&& le16(d2, p + 26) == le16(d, p + 26)
    &&& forall|k: int| 7 <= k < 32 ==> #[trigger] le32(d2, p + 4 * k) == le32(d, p + 4 * k)
    &&& forall|k: int| 0 <= k < d.len() && !(p <= k < p + 128) ==> #[trigger] d2[k] == d[k]
}

/// The new values fit in an inode.
pub open spec fn fit_in_an_inode(ch: AttrChanges) -> bool {
    &&& ch.mode matches Some(mode) ==> mode <= 65535
    &&& ch.uid matches Some(uid) ==> uid <= 65535
    &&& ch.gid matches Some(gid) ==> gid <= 65535
    &&& ch.size matches Some(size) ==> size <= 4294967295
}

/// Where changes are made to an inode, each field that was given is what was
/// given, whatever else was given with it, and each other field is as it was.
pub proof fn law_given_fields_change_and_no_others(i: Inode, ch: AttrChanges)
    requires
        fit_in_an_inode(ch),
    ensures
        ({
            let i2 = changed(i, ch);
            &&& ch.mode matches Some(mode) ==> i2.mode == mode
            &&& ch.mode is None ==> i2.mode == i.mode
            &&& ch.uid matches Some(uid) ==> i2.uid == uid
            &&& ch.uid is None ==> i2.uid == i.uid
            &&& ch.gid matches Some(gid) ==> i2.gid == gid
            &&& ch.gid is None ==> i2.gid == i.gid
            &&& ch.size matches Some(size) ==> i2.size == size
            &&& ch.size is None ==> i2.size == i.size
            &&& ch.atime matches Some(t) ==> i2.atime == t.sec as int % 4294967296
            &&& ch.atime is None ==> i2.atime == i.atime
            &&& ch.mtime matches Some(t) ==> i2.mtime == t.sec as int % 4294967296
            &&& ch.mtime is None ==> i2.mtime == i.mtime
            &&& i2.ctime == i.ctime
            &&& i2.dtime == i.dtime
            &&& i2.links_count == i.links_count
            &&& i2.blocks == i.blocks
            &&& i2.flags == i.flags
            &&& i2.osd1 == i.osd1
            &&& i2.block == i.block
            &&& i2.generation == i.generation
            &&& i2.file_acl == i.file_acl
            &&& i2.dir_acl == i.dir_acl
            &&& i2.faddr == i.faddr
            &&& i2.osd2 == i.osd2
        }),
{
    if ch.atime is Some {
        lemma_seconds(ch.atime->Some_0.sec);
    }
    if ch.mtime is Some {
        lemma_seconds(ch.mtime->Some_0.sec);
    }
}

/// Seconds are kept in 32 bits.
proof fn lemma_seconds(sec: i64)
    ensures
        sec as u32 == kept32(sec as int),
{
    let low: u32 = sec as u32;
    let high: i64 = sec >> 32u64;
    assert(low as i64 == sec - high * 0x1_0000_0000) by (bit_vector)
        requires
            low == sec as u32,
            high == sec >> 32u64,
    ;
    lemma_fundamental_div_mod_converse(sec as int, 0x1_0000_0000, high as int, low as int);
}

/// Making changes to an inode changes what stands for it on the device.
proof fn lemma_changes_made(
    d: Seq<u8>,
    d2: Seq<u8>,
    p: int,
    i: Inode,
    ch: AttrChanges,
)
    requires
        fit_in_an_inode(ch),
        d2.len() == d.len(),
        reads_as(i, d, p),
        reads_as(changed(i, ch), d2, p),
        forall|k: int| 0 <= k < d.len() && !(p <= k < p + 128) ==> #[trigger] d2[k] == d[k],
    ensures
        changes_made(d, d2, p, ch),
{
    let i2 = changed(i, ch);
    if ch.atime is Some {
        lemma_seconds(ch.atime->Some_0.sec);
    }
    if ch.mtime is Some {
        lemma_seconds(ch.mtime->Some_0.sec);
    }
    assert forall|k: int| 7 <= k < 32 implies #[trigger] le32(d2, p + 4 * k) == le32(
        d,
        p + 4 * k,
    ) by {
        if 10 <= k < 25 {
            assert(i2.block@[k - 10] == le32(d2, p + 40 + 4 * (k - 10)));
            assert(i.block@[k - 10] == le32(d, p + 40 + 4 * (k - 10)));
        } else if 29 <= k {
            let m = 4 * (k - 29);
            assert(i2.osd2@[m] == d2[p + 116 + m] && i.osd2@[m] == d[p + 116 + m]);
            assert(i2.osd2@[m + 1] == d2[p + 116 + (m + 1)]);
            assert(i.osd2@[m + 1] == d[p + 116 + (m + 1)]);
            assert(i2.osd2@[m + 2] == d2[p + 116 + (m + 2)]);
            assert(i.osd2@[m + 2] == d[p + 116 + (m + 2)]);
            assert(i2.osd2@[m + 3] == d2[p + 116 + (m + 3)]);
            assert(i.osd2@[m + 3] == d[p + 116 + (m + 3)]);
        } else {
            assert(k == 7 || k == 8 || k == 9 || k == 25 || k == 26 || k == 27 || k == 28);
        }
    }
}

/// A request to change attributes makes the changes that were given in the
/// place of the inode, and no others, and is answered with what stands there
/// then. Where the attributes cannot be told, it fails likewise and changes
/// nothing.
pub proof fn law_changes_are_made_and_no_others(
    d: Seq<u8>,
    sb: Superblock,
    ino: u64,
    ch: AttrChanges,
)
    requires
        sb.readable(),
        countable(sb, ext2_number(ino)),
        fit_in_an_inode(ch),
    ensures
        ({
            let (r, d2) = attributes_set(d, sb, ino, ch);
            let p = inode_place(d, sb, ext2_number(ino));
            match attributes_at(d, sb, ino) {
                Ok(_) => {
                    &&& changes_made(d, d2, p, ch)
                    &&& r matches Ok(a) && tells(a, d2, p) && a.ino == fuse_number(ext2_number(ino))
                },
                Err(e) => r == Err::<FileAttr, Errno>(e) && d2 == d,
            }
        }),
{
    let num = ext2_number(ino) as u64;
    let p = inode_place(d, sb, num as int);
    law_inode_is_loaded_from_its_place(d, sb, num);
    if inode_at(d, sb, num) is Ok {
        let i = inode_at(d, sb, num)->Ok_0;
        let i2 = changed(i, ch);
        law_inode_is_stored_in_its_place(d, sb, num, i2);
        let d2 = with_inode(d, sb, num, i2)->Ok_0;
        lemma_changes_made(d, d2, p, i, ch);
        lemma_attributes(num, i2, d2, p);
    }
}

/// What `setattr` does and answers.
pub proof fn law_setattr_makes_the_changes_and_no_others<S: Storage>(
    before: HelloFS<S>,
    after: HelloFS<S>,
    ino: u64,
    ch: AttrChanges,
    r: Result<FileAttr, Errno>,
    d: Seq<u8>,
    c: Seq<u8>,
)
    requires
        before.superblock.readable(),
        countable(before.superblock, ext2_number(ino)),
        fit_in_an_inode(ch),
        exists|fs: &mut HelloFS<S>|
            *fs == before && *final(fs) == after && #[trigger] call_ensures(
                HelloFS::<S>::setattr,
                (fs, ino, ch),
                r,
            ),
        after.device.now(d) == Some(c),
    ensures
        after.superblock == before.superblock,
        before.device.now(d) matches Some(c0) && {
            let sb = before.superblock;
            let num = ext2_number(ino);
            let p = inode_place(c0, sb, num);
            if bit_known(c0, sb, num) && marked(c0, sb, num) && within(c0, p, 128) {
                &&& changes_made(c0, c, p, ch)
                &&& r matches Ok(a) && tells(a, c, p) && a.ino == fuse_number(num)
            } else {
                answers_for(r, c0, sb, num) && c == c0
            }
        },
{
    let c0 = before.device.now(d)->Some_0;
    law_changes_are_made_and_no_others(c0, before.superblock, ino, ch);
    law_attributes_are_what_the_bytes_say(c0, before.superblock, ino);
}

/// What was set is seen: where the attributes could be seen before, setting
/// some of them succeeds, and then they are seen with the values that were given
/// and the others with the values from before.
pub proof fn law_what_was_set_is_seen(
    zone: spec_fn(int) -> Zone,
    groups: u32,
    d: Seq<u8>,
    sb: Superblock,
    ino: u64,
    ch: AttrChanges,
    old_attr: FileAttr,
)
    requires
        well_formed(zone, groups, d, sb),
        has_inode(groups, sb, ext2_number(ino) as u64),
        fit_in_an_inode(ch),
        attributes_at(d, sb, ino) == Ok::<FileAttr, Errno>(old_attr),
    ensures
        ({
            let (r, d2) = attributes_set(d, sb, ino, ch);
            &&& attributes_at(d2, sb, ino) == r
            &&& r matches Ok(a) && {
                &&& a.ino == old_attr.ino
                &&& match ch.mode {
                    Some(mode) => {
                        &&& a.perm == mode % 4096
                        &&& a.kind == FileType::NamedPipe <==> mode / 4096 == 1
                        &&& a.kind == FileType::CharDevice <==> mode / 4096 == 2
                        &&& a.kind == FileType::Directory <==> mode / 4096 == 4
                        &&& a.kind == FileType::BlockDevice <==> mode / 4096 == 6
                        &&& a.kind == FileType::Symlink <==> mode / 4096 == 10
                        &&& a.kind == FileType::Socket <==> mode / 4096 == 12
                    },
                    None => a.perm == old_attr.perm && a.kind == old_attr.kind && a.rdev
                        == old_attr.rdev,
                }
                &&& a.uid == match ch.uid {
                    Some(uid) => uid,
                    None => old_attr.uid,
                }
                &&& a.gid == match ch.gid {
                    Some(gid) => gid,
                    None => old_attr.gid,
                }
                &&& a.size == match ch.size {
                    Some(size) => size,
                    None => old_attr.size,
                }
                &&& a.atime.sec == match ch.atime {
                    Some(t) => kept32(t.sec as int),
                    None => old_attr.atime.sec as int,
                }
                &&& a.mtime.sec == match ch.mtime {
                    Some(t) => kept32(t.sec as int),
                    None => old_attr.mtime.sec as int,
                }
                &&& a.ctime == old_attr.ctime
                &&& a.crtime == old_attr.crtime
                &&& a.blocks == old_attr.blocks
                &&& a.nlink == old_attr.nlink
                &&& a.flags == old_attr.flags
            }
        }),
{
    let num = ext2_number(ino);
    lemma_countable(groups, sb, num as u64);
    law_attributes_are_what_the_bytes_say(d, sb, ino);
    law_changes_are_made_and_no_others(d, sb, ino, ch);
    law_attributes_set_are_seen(zone, groups, d, sb, ino, ch);
    let (r, d2) = attributes_set(d, sb, ino, ch);
    let p = inode_place(d, sb, num);
    assert(le32(d2, p + 4 * 7) == le32(d, p + 4 * 7));
    assert(le32(d2, p + 4 * 10) == le32(d, p + 4 * 10));
}

/// An inode of one of the groups can be counted.
proof fn lemma_countable(groups: u32, sb: Superblock, num: u64)
    requires
        has_inode(groups, sb, num),
    ensures
        countable(sb, num as int),
{
}

/// Whoever made the entry, a lookup answers for the inode of the first entry
/// that is listed under the name, just as a request for the attributes of that
/// inode does (inode 1 of ext2 has no number that FUSE could ask for). Where no
/// entry is listed under the name, there is no such file. Entry `i` is the first
/// with the name, or the end.
pub proof fn law_lookup_answers_for_the_first_entry(
    d: Seq<u8>,
    sb: Superblock,
    parent: u64,
    name: Seq<char>,
    entries: Seq<Listed>,
    i: int,
)
    requires
        sb.readable(),
        listing(d, sb, ext2_number(parent) as u64) == Ok::<Seq<Listed>, Errno>(entries),
        0 <= i <= entries.len(),
        forall|j: int| 0 <= j < i ==> (#[trigger] entries[j]).name != name,
        i < entries.len() ==> entries[i].name == name,
    ensures
        ({
            let r = looked_up(d, sb, parent, Some(name));
            if i < entries.len() {
                let num = entries[i].inode as int;
                &&& num >= 1
                &&& answers_for(r, d, sb, num)
                &&& num != 1 ==> r == attributes_at(d, sb, fuse_number(num) as u64)
            } else {
                r == Err::<FileAttr, Errno>(Errno::ENOENT)
            }
        }),
{
    let num = ext2_number(parent) as u64;
    law_first_entry_is_found(entries, name, i);
    if i < entries.len() {
        let dir = inode_at(d, sb, num)->Ok_0;
        let (offs, places) = law_listing_is_what_the_bytes_say(d, sb, num, dir);
        lemma_listed_item(d, sb, dir.block@, offs, places, entries, i);
        let n = entries[i].inode;
        lemma_small_number(sb, n);
        lemma_answers_for(d, sb, n as u64);
    }
}

/// The kind that is answered is the one that the upper four bits of the mode of
/// the inode name, whether the file was looked up or its attributes were asked
/// for. A file of no known kind passes for a regular one.
pub proof fn law_kind_is_the_one_that_the_mode_names(
    d: Seq<u8>,
    sb: Superblock,
    parent: u64,
    name: Seq<char>,
    entries: Seq<Listed>,
    i: int,
    inode: Inode,
)
    requires
        listing(d, sb, ext2_number(parent) as u64) == Ok::<Seq<Listed>, Errno>(entries),
        0 <= i < entries.len(),
        entries[i].name == name,
        forall|j: int| 0 <= j < i ==> (#[trigger] entries[j]).name != name,
        inode_at(d, sb, entries[i].inode as u64) == Ok::<Inode, Errno>(inode),
    ensures
        ({
            let top = inode.mode as int / 4096;
            &&& looked_up(d, sb, parent, Some(name)) matches Ok(a) && {
                &&& a.kind == FileType::NamedPipe <==> top == 1
                &&& a.kind == FileType::CharDevice <==> top == 2
                &&& a.kind == FileType::Directory <==> top == 4
                &&& a.kind == FileType::BlockDevice <==> top == 6
                &&& a.kind == FileType::Symlink <==> top == 10
                &&& a.kind == FileType::Socket <==> top == 12
                &&& a.perm == inode.mode as int % 4096
                &&& a.size == inode.size
                &&& a.uid == inode.uid
                &&& a.gid == inode.gid
                &&& a.nlink == inode.links_count
                &&& entries[i].inode != 1 ==> attributes_at(
                    d,
                    sb,
                    if entries[i].inode == 2 {
                        1
                    } else {
                        entries[i].inode as u64
                    },
                ) == Ok::<FileAttr, Errno>(a)
            }
        }),
{
    law_first_entry_is_found(entries, name, i);
}

/// Where a directory cannot be listed, a lookup in it fails likewise. A name
/// that is no text is that of no file.
pub proof fn law_lookup_fails_where_listing_fails(
    d: Seq<u8>,
    sb: Superblock,
    parent: u64,
    name: Seq<char>,
)
    ensures
        listing(d, sb, ext2_number(parent) as u64) matches Err(e) ==> looked_up(
            d,
            sb,
            parent,
            Some(name),
        ) == Err::<FileAttr, Errno>(e),
        looked_up(d, sb, parent, None) == Err::<FileAttr, Errno>(Errno::ENOENT),
{
}

/// A number of 32 bits can be counted.
pub(crate) proof fn lemma_small_number(sb: Superblock, n: u32)
    requires
        sb.inodes_per_group > 0,
        n >= 1,
    ensures
        countable(sb, n as int),
{
    let p = sb.inodes_per_group as int;
    let m = n - 1;
    assert(m / p <= m) by (nonlinear_arith)
        requires
            m >= 0,
            p >= 1,
    ;
}

/// What `lookup` answers is what the bytes of the directory and of the inode
/// say. The entries of the directory stand at the offsets `w.0`, the ones that
/// are listed are `w.1`, and of those number `i` is the first with the name, or
/// the end.
pub proof fn law_lookup_tells_what_the_bytes_say<S: Storage>(
    before: HelloFS<S>,
    after: HelloFS<S>,
    parent: u64,
    name: String,
    r: Result<FileAttr, Errno>,
    d: Seq<u8>,
    c: Seq<u8>,
    dir: Inode,
    entries: Seq<Listed>,
    i: int,
) -> (w: (Seq<Seq<int>>, Seq<(int, int)>))
    requires
        before.superblock.readable(),
        parent >= 1,
        exists|fs: &mut HelloFS<S>|
            *fs == before && *final(fs) == after && #[trigger] call_ensures(
                HelloFS::<S>::lookup,
                (fs, parent, Some(name)),
                r,
            ),
        after.device.now(d) == Some(c),
        inode_at(c, before.superblock, ext2_number(parent) as u64) == Ok::<Inode, Errno>(dir),
        listing(c, before.superblock, ext2_number(parent) as u64) == Ok::<Seq<Listed>, Errno>(
            entries,
        ),
        0 <= i <= entries.len(),
        forall|j: int| 0 <= j < i ==> (#[trigger] entries[j]).name != name@,
        i < entries.len() ==> entries[i].name == name@,
    ensures
        before.device.now(d) == Some(c),
        after.superblock == before.superblock,
        w.0.len() == 15,
        directory_entries(c, before.superblock, dir.block@, w.0),
        listed_from(c, before.superblock, dir.block@, w.0, w.1, entries),
        i < entries.len() ==> answers_for(
            r,
            c,
            before.superblock,
            le32(c, entry_place(before.superblock, dir.block@, w.0, w.1[i])),
        ),
        i == entries.len() ==> r == Err::<FileAttr, Errno>(Errno::ENOENT),
{
    let sb = before.superblock;
    let num = ext2_number(parent) as u64;
    law_lookup_answers_for_the_first_entry(c, sb, parent, name@, entries, i);
    let w = law_listing_is_what_the_bytes_say(c, sb, num, dir);
    if i < entries.len() {
        lemma_listed_item(c, sb, dir.block@, w.0, w.1, entries, i);
    }
    w
}

/// Of the entries of a directory all from `offset` on are handed out, each once
/// and in order, with its name, its kind and its inode. An item says where the
/// entry behind it is to be asked for.
pub proof fn law_every_entry_is_handed_out(
    items: Seq<DirItem>,
    entries: Seq<Listed>,
    offset: i64,
)
    requires
        are_items(items, entries, offset),
    ensures
        0 <= offset <= entries.len() ==> items.len() == entries.len() - offset,
        offset < 0 || offset > entries.len() ==> items.len() == 0,
        forall|k: int|
            0 <= k < items.len() ==> {
                &&& 0 <= offset
                &&& offset + k < entries.len()
                &&& (#[trigger] items[k]).name@ == entries[offset + k].name
                &&& items[k].kind == entries[offset + k].filetype
                &&& entries[offset + k].inode == 2 ==> items[k].ino == 1
                &&& entries[offset + k].inode != 2 ==> items[k].ino == entries[offset + k].inode
                &&& offset + k < i64::MAX ==> items[k].offset == offset + k + 1
            },
{
}

/// What `readdir` answers is what the bytes of the directory say: the entries
/// stand at the offsets `w.0`, the ones that are listed are `w.1`, and of those
/// every one from `offset` on is handed out.
pub proof fn law_readdir_tells_what_the_bytes_say<S: Storage>(
    before: HelloFS<S>,
    after: HelloFS<S>,
    ino: u64,
    offset: i64,
    r: Result<Vec<DirItem>, Errno>,
    d: Seq<u8>,
    c: Seq<u8>,
    dir: Inode,
) -> (w: (Seq<Seq<int>>, Seq<(int, int)>))
    requires
        before.superblock.readable(),
        ino >= 1,
        exists|fs: &mut HelloFS<S>|
            *fs == before && *final(fs) == after && #[trigger] call_ensures(
                HelloFS::<S>::readdir,
                (fs, ino, offset),
                r,
            ),
        after.device.now(d) == Some(c),
        inode_at(c, before.superblock, ext2_number(ino) as u64) == Ok::<Inode, Errno>(dir),
    ensures
        before.device.now(d) == Some(c),
        after.superblock == before.superblock,
        ({
            let sb = before.superblock;
            match listing(c, sb, ext2_number(ino) as u64) {
                Ok(entries) => {
                    &&& w.0.len() == 15
                    &&& directory_entries(c, sb, dir.block@, w.0)
                    &&& listed_from(c, sb, dir.block@, w.0, w.1, entries)
                    &&& r matches Ok(items) && {
                        &&& 0 <= offset <= w.1.len() ==> items@.len() == w.1.len() - offset
                        &&& offset < 0 || offset > w.1.len() ==> items@.len() == 0
                        &&& forall|k: int|
                            0 <= k < items@.len() ==> {
                                let a = entry_place(sb, dir.block@, w.0, w.1[offset + k]);
                                let item = #[trigger] items@[k];
                                &&& item.ino == fuse_number(le32(c, a))
                                &&& item.name@ == name_at(c, a)
                                &&& item.kind == FileType::RegularFile <==> c[a + 7] == 1
                                &&& item.kind == FileType::Directory <==> c[a + 7] == 2
                                &&& item.kind == FileType::CharDevice <==> c[a + 7] == 3
                                &&& item.kind == FileType::BlockDevice <==> c[a + 7] == 4
                                &&& item.kind == FileType::NamedPipe <==> c[a + 7] == 5
                                &&& item.kind == FileType::Socket <==> c[a + 7] == 6
                                &&& item.kind == FileType::Symlink <==> c[a + 7] == 7
                                &&& offset + k < i64::MAX ==> item.offset == offset + k + 1
                            }
                    }
                },
                Err(e) => r == Err::<Vec<DirItem>, Errno>(e),
            }
        }),
{
    let sb = before.superblock;
    let num = ext2_number(ino) as u64;
    let w = law_listing_is_what_the_bytes_say(c, sb, num, dir);
    if listing(c, sb, num) is Ok {
        let entries = listing(c, sb, num)->Ok_0;
        let items = r->Ok_0@;
        law_every_entry_is_handed_out(items, entries, offset);
        lemma_listed_count(c, sb, dir.block@, w.0, w.1, entries);
        assert forall|k: int| 0 <= k < items.len() implies lists(
            entries[offset + k],
            c,
            entry_place(sb, dir.block@, w.0, w.1[offset + k]),
        ) && (#[trigger] items[k]).name@ == entries[offset + k].name by {
            lemma_listed_item(c, sb, dir.block@, w.0, w.1, entries, offset + k);
        }
    }
    w
}

} // verus!
