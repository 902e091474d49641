//! What a file is that was created, and what refusing to create one means.

use vstd::prelude::*;
use vstd::utf8::encode_utf8;
use crate::allocation::{allocated, Resource};
use crate::answers::{
    answers_for, ext2_number, fuse_number, kept32, lemma_answers_for, lemma_small_number, tells,
};
use crate::creation::{
    directory_well_formed, law_created_file_is_found, law_creation_succeeds, place_fits,
};
use crate::device::{decode, lemma_encode, Storage};
use crate::directory::{made, new_inode, opened_or_created, search_for, with_record, SlotFinder};
use crate::dirent::walk_directory;
use crate::entries::{
    directory_entries, entry_place, full_before, is_entry, law_entry_that_is_not_there_has_a_place,
    law_entry_that_is_there_is_opened, name_at, none_before, spares, up4,
};
use crate::errno::Errno;
use crate::filesystem::{attributes, attributes_at, create_answer, looked_up, FileAttr};
use crate::fs::HelloFS;
use crate::inode::{FileType, Inode};
use crate::laws::{counts_agree, law_created_file_is_looked_up};
use crate::layout::inode_at;
use crate::plain::{
    inode_place, law_inode_is_loaded_from_its_place, law_stored_bytes_say_what_the_inode_is,
    law_upper_bits_name_the_kind, le32, marked, reads_as,
};
use crate::superblock::Superblock;
use crate::wellformed::{has_inode, law_allocated_inode_was_free, well_formed, Zone};

verus! {

/// The inode of a file that was just created: it has the mode that was asked
/// for, it is dated to the time of its creation, one entry names it, and it is
/// empty. It is of the device `rdev`.
pub open spec fn fresh(i: Inode, mode: u32, rdev: u32, now: u64) -> bool {
    &&& i.mode == mode as int % 65536
    &&& i.atime == kept32(now as int)
    &&& i.ctime == kept32(now as int)
    &&& i.mtime == kept32(now as int)
    &&& i.links_count == 1
    &&& i.uid == 0
    &&& i.gid == 0
    &&& i.size == 0
    &&& i.dtime == 0
    &&& i.blocks == 0
    &&& i.flags == 0
    &&& i.osd1 == 0
    &&& i.block@[0] == rdev
    &&& forall|k: int| 1 <= k < 15 ==> #[trigger] i.block@[k] == 0
    &&& i.generation == 0
    &&& i.file_acl == 0
    &&& i.dir_acl == 0
    &&& i.faddr == 0
    &&& forall|k: int| 0 <= k < 12 ==> #[trigger] i.osd2@[k] == 0
}

/// What is answered of a file that was just created.
pub open spec fn new_attributes(a: FileAttr, mode: u32, now: u64) -> bool {
    let top = mode as int / 4096 % 16;
    &&& a.atime.sec == kept32(now as int)
    &&& a.ctime.sec == kept32(now as int)
    &&& a.mtime.sec == kept32(now as int)
    &&& a.atime.nsec == 0
    &&& a.ctime.nsec == 0
    &&& a.mtime.nsec == 0
    &&& a.crtime.sec == 0
    &&& a.crtime.nsec == 0
    &&& a.size == 0
    &&& a.blocks == 0
    &&& a.nlink == 1
    &&& a.uid == 0
    &&& a.gid == 0
    &&& a.rdev == 0
    &&& a.flags == 0
    &&& a.perm == mode % 4096
    &&& a.kind == FileType::NamedPipe <==> top == 1
    &&& a.kind == FileType::CharDevice <==> top == 2
    &&& a.kind == FileType::Directory <==> top == 4
    &&& a.kind == FileType::BlockDevice <==> top == 6
    &&& a.kind == FileType::RegularFile <==> top == 8
    &&& a.kind == FileType::Symlink <==> top == 10
    &&& a.kind == FileType::Socket <==> top == 12
}

/// The inode of a file that is created is fresh.
pub proof fn law_new_inode_is_fresh(mode: u32, rdev: u32, now: u64)
    ensures
        fresh(new_inode(mode, rdev, now), mode, rdev, now),
{
    let zeros = Seq::new(128, |i: int| 0u8);
    let blank = decode::<Inode>(zeros);
    assert(reads_as(blank, zeros, 0)) by {
        lemma_encode::<Inode>(zeros);
        law_stored_bytes_say_what_the_inode_is(blank);
    }
    let i = new_inode(mode, rdev, now);
    assert((now as u32) as u64 == now % 0x1_0000_0000) by (bit_vector);
    assert((mode as u16) as u32 == mode % 0x1_0000) by (bit_vector);
    assert(i.block@ =~= blank.block@.update(0, rdev));
    assert forall|k: int| 1 <= k < 15 implies #[trigger] i.block@[k] == 0 by {
        assert(blank.block@[k] == le32(zeros, 0 + 40 + 4 * k));
    }
    assert forall|k: int| 0 <= k < 12 implies #[trigger] i.osd2@[k] == 0 by {
        assert(blank.osd2@[k] == zeros[0 + 116 + k]);
    }
}

/// What is made is a fresh inode, under the number that was allocated for it.
proof fn lemma_made(
    d: Seq<u8>,
    sb: Superblock,
    parent: u64,
    name: Seq<char>,
    mode: u32,
    rdev: u32,
    now: Option<u64>,
)
    ensures
        ({
            let (r, d2, sb2) = opened_or_created(d, sb, parent, name, mode, rdev, now);
            let dir = inode_at(d, sb, parent)->Ok_0;
            let (s, _) = walk_directory::<SlotFinder>(search_for(name), d, sb, dir);
            r matches Ok((ino, inode)) ==> if s.opened matches Some(n) && n != 0 {
                &&& s.opened == Some(ino)
                &&& inode_at(d, sb, ino as u64) == Ok::<Inode, Errno>(inode)
                &&& d2 == d
                &&& sb2 == sb
            } else {
                &&& allocated(d, sb, Resource::Inode, parent).0 == Ok::<u32, Errno>(ino)
                &&& now matches Some(t) && fresh(inode, mode, rdev, t)
                &&& mode as int / 4096 % 16 == 1 || mode as int / 4096 % 16 == 2 || mode as int
                    / 4096 % 16 == 4 || mode as int / 4096 % 16 == 6 || mode as int / 4096 % 16
                    == 8 || mode as int / 4096 % 16 == 10 || mode as int / 4096 % 16 == 12
            }
        }),
{
    reveal(made);
    reveal(with_record);
    if now is Some {
        law_new_inode_is_fresh(mode, rdev, now->Some_0);
        law_upper_bits_name_the_kind(mode as u16);
        assert((mode as u16) as u32 == mode % 0x1_0000) by (bit_vector);
        assert(mode % 0x1_0000 / 4096 == mode / 4096 % 16) by (bit_vector);
    }
}

/// A file whose name no entry in use has is made, if it is made at all, as a
/// fresh inode under a number that was allocated for it. Nothing is changed
/// where no inode is free, or where there is no place for the entry: either no
/// entry has room for it, or its name has more than 255 bytes. Entry `at` is the
/// deleted entry with the name, the first entry with room, or the end.
pub proof fn law_missing_file_is_made_or_refused(
    d: Seq<u8>,
    sb: Superblock,
    parent: u64,
    dir: Inode,
    offs: Seq<Seq<int>>,
    at: (int, int),
    deleted: bool,
    name: Seq<char>,
    mode: u32,
    rdev: u32,
    now: Option<u64>,
)
    requires
        inode_at(d, sb, parent) == Ok::<Inode, Errno>(dir),
        dir.mode as int / 4096 == 4,
        offs.len() == 15,
        directory_entries(d, sb, dir.block@, offs),
        if deleted {
            &&& is_entry(offs, at)
            &&& name_at(d, entry_place(sb, dir.block@, offs, at)) == name
            &&& none_before(d, sb, dir.block@, offs, 0, at, name)
            &&& le32(d, entry_place(sb, dir.block@, offs, at)) == 0
        } else {
            let need = up4(8int + encode_utf8(name).len());
            &&& is_entry(offs, at) || at == (15int, 0int)
            &&& none_before(d, sb, dir.block@, offs, 0, (15, 0), name)
            &&& full_before(d, sb, dir.block@, offs, 0, at, need)
            &&& at.0 < 15 ==> spares(d, entry_place(sb, dir.block@, offs, at), need)
        },
    ensures
        ({
            let (r, d2, sb2) = opened_or_created(d, sb, parent, name, mode, rdev, now);
            let (number, _, _) = allocated(d, sb, Resource::Inode, parent);
            let may = sb.free_inodes_count > 0 && sb.allocatable() && number is Ok && now is Some;
            &&& r matches Ok((ino, inode)) ==> {
                &&& number == Ok::<u32, Errno>(ino)
                &&& now matches Some(t) && fresh(inode, mode, rdev, t)
            }
            &&& sb.free_inodes_count == 0 ==> r == Err::<(u32, Inode), Errno>(Errno::ENOSPC) && d2
                == d && sb2 == sb
            &&& sb.free_inodes_count > 0 && !sb.allocatable() ==> r == Err::<(u32, Inode), Errno>(
                Errno::EIO,
            ) && d2 == d && sb2 == sb
            &&& sb.free_inodes_count > 0 && sb.allocatable() ==> match number {
                Ok(_) => now is None ==> r == Err::<(u32, Inode), Errno>(Errno::EIO),
                Err(e) => r == Err::<(u32, Inode), Errno>(e),
            }
            &&& may && at.0 < 15 && (deleted || encode_utf8(name).len() <= 255) && r is Err ==> r
                == Err::<(u32, Inode), Errno>(Errno::EIO)
            &&& may && at.0 == 15 ==> r == Err::<(u32, Inode), Errno>(Errno::ENOSPC) && d2 == d
                && sb2 == sb
            &&& may && at.0 < 15 && !deleted && encode_utf8(name).len() > 255 ==> r == Err::<
                (u32, Inode),
                Errno,
            >(Errno::EINVAL) && d2 == d && sb2 == sb
        }),
{
    law_entry_that_is_not_there_has_a_place(d, sb, dir, offs, at, name, deleted);
    lemma_made(d, sb, parent, name, mode, rdev, now);
    reveal(made);
    reveal(with_record);
}

/// What is no directory has no entry to open or to create, and nothing is
/// changed.
pub proof fn law_files_are_created_in_directories(
    d: Seq<u8>,
    sb: Superblock,
    parent: u64,
    name: Seq<char>,
    mode: u32,
    rdev: u32,
    now: Option<u64>,
)
    ensures
        ({
            let (r, d2, sb2) = opened_or_created(d, sb, parent, name, mode, rdev, now);
            match inode_at(d, sb, parent) {
                Ok(dir) => dir.mode as int / 4096 != 4 ==> r == Err::<(u32, Inode), Errno>(
                    Errno::ENOTDIR,
                ) && d2 == d && sb2 == sb,
                Err(e) => r == Err::<(u32, Inode), Errno>(e) && d2 == d && sb2 == sb,
            }
        }),
{
}

/// The attributes of a fresh inode.
proof fn lemma_new_attributes(num: u64, i: Inode, mode: u32, now: u64)
    requires
        fresh(i, mode, 0, now),
        mode as int / 4096 % 16 == 1 || mode as int / 4096 % 16 == 2 || mode as int / 4096 % 16 == 4
            || mode as int / 4096 % 16 == 6 || mode as int / 4096 % 16 == 8 || mode as int / 4096
            % 16 == 10 || mode as int / 4096 % 16 == 12,
    ensures
        new_attributes(attributes(num, i), mode, now),
{
    law_upper_bits_name_the_kind(i.mode);
    assert(mode % 0x1_0000 / 4096 == mode / 4096 % 16) by (bit_vector);
    assert(mode % 0x1_0000 % 4096 == mode % 4096) by (bit_vector);
}

/// A file that is created, under a number that was not in use, has the mode that
/// was asked for, is empty and is dated to the time of its creation: so it is
/// answered, so it stands in its place on the device, and so it is seen when its
/// attributes are asked for or it is looked up. Where a file is answered that
/// was in use already, it is answered as it stands and nothing is changed.
pub proof fn law_created_file_is_as_asked_for(
    zone: spec_fn(int) -> Zone,
    groups: u32,
    d: Seq<u8>,
    sb: Superblock,
    parent: u64,
    dir: Inode,
    name: Seq<char>,
    mode: u32,
    now: Option<u64>,
)
    requires
        well_formed(zone, groups, d, sb),
        has_inode(groups, sb, ext2_number(parent) as u64),
        inode_at(d, sb, ext2_number(parent) as u64) == Ok::<Inode, Errno>(dir),
        directory_well_formed(zone, d, sb, dir),
    ensures
        ({
            let (r, d2, sb2) = create_answer(d, sb, parent, Some(name), mode, now);
            r matches Ok(a) ==> a.ino != 1 ==> {
                let num = ext2_number(a.ino);
                &&& num >= 1
                &&& !marked(d, sb, num) ==> {
                    &&& now matches Some(t) && new_attributes(a, mode, t)
                    &&& marked(d2, sb2, num)
                    &&& tells(a, d2, inode_place(d2, sb2, num))
                    &&& attributes_at(d2, sb2, a.ino) == r
                    &&& looked_up(d2, sb2, parent, Some(name)) == r
                }
                &&& marked(d, sb, num) ==> {
                    &&& answers_for(r, d, sb, num)
                    &&& d2 == d
                    &&& sb2 == sb
                }
            }
        }),
{
    let (r, d2, sb2) = create_answer(d, sb, parent, Some(name), mode, now);
    let home = ext2_number(parent) as u64;
    if r is Ok && r->Ok_0.ino != 1 {
        let a = r->Ok_0;
        let (found, _, _) = opened_or_created(d, sb, home, name, mode, 0, now);
        let (ino, inode) = found->Ok_0;
        lemma_made(d, sb, home, name, mode, 0, now);
        lemma_number(d, sb, home);
        assert(ext2_number(a.ino) == ino);
        lemma_small_number(sb, ino);
        law_inode_is_loaded_from_its_place(d, sb, ino as u64);
        lemma_answers_for(d, sb, ino as u64);
        law_allocated_inode_was_free(zone, groups, d, sb, home);
        if !marked(d, sb, ino as int) {
            assert(inode_at(d, sb, ino as u64) is Err);
            law_created_file_is_found(zone, groups, d, sb, home, dir, name, mode, 0, now);
            law_created_file_is_looked_up(zone, groups, d, sb, parent, dir, name, mode, now);
            lemma_new_attributes(ino as u64, inode, mode, now->Some_0);
            law_inode_is_loaded_from_its_place(d2, sb2, ino as u64);
            lemma_answers_for(d2, sb2, ino as u64);
        }
    }
}

/// A file that is created at second `now` is dated to that second: it is so
/// answered, it is so seen when its attributes are asked for, and the inode that
/// is then loaded from the device says so. It has the mode that was asked for,
/// one entry names it, and it is empty.
pub proof fn law_created_file_is_dated_to_its_creation(
    zone: spec_fn(int) -> Zone,
    groups: u32,
    d: Seq<u8>,
    sb: Superblock,
    parent: u64,
    dir: Inode,
    name: Seq<char>,
    mode: u32,
    now: u64,
)
    requires
        well_formed(zone, groups, d, sb),
        has_inode(groups, sb, ext2_number(parent) as u64),
        inode_at(d, sb, ext2_number(parent) as u64) == Ok::<Inode, Errno>(dir),
        directory_well_formed(zone, d, sb, dir),
        now < 4294967296,
    ensures
        ({
            let (r, d2, sb2) = create_answer(d, sb, parent, Some(name), mode, Some(now));
            r matches Ok(a) ==> a.ino != 1 && inode_at(d, sb, a.ino) is Err ==> {
                &&& a.atime.sec == now
                &&& a.ctime.sec == now
                &&& a.mtime.sec == now
                &&& a.perm == mode as int % 4096
                &&& a.nlink == 1
                &&& a.size == 0
                &&& attributes_at(d2, sb2, a.ino) == r
                &&& inode_at(d2, sb2, a.ino) matches Ok(i) && {
                    &&& i.atime == now
                    &&& i.ctime == now
                    &&& i.mtime == now
                    &&& i.mode == mode as int % 65536
                    &&& i.links_count == 1
                    &&& i.size == 0
                    &&& i.dir_acl == 0
                    &&& i.blocks == 0
                    &&& forall|k: int| 0 <= k < 15 ==> #[trigger] i.block@[k] == 0
                }
            }
        }),
{
    let (r, d2, sb2) = create_answer(d, sb, parent, Some(name), mode, Some(now));
    let home = ext2_number(parent) as u64;
    if r is Ok && r->Ok_0.ino != 1 && inode_at(d, sb, r->Ok_0.ino) is Err {
        let (found, _, _) = opened_or_created(d, sb, home, name, mode, 0, Some(now));
        let (ino, inode) = found->Ok_0;
        lemma_made(d, sb, home, name, mode, 0, Some(now));
        lemma_number(d, sb, home);
        assert(r->Ok_0.ino == ino || ino == 2);
        law_allocated_inode_was_free(zone, groups, d, sb, home);
        law_created_file_is_found(zone, groups, d, sb, home, dir, name, mode, 0, Some(now));
        lemma_new_attributes(ino as u64, inode, mode, now);
    }
}

/// A number that was allocated is not 0.
proof fn lemma_number(d: Seq<u8>, sb: Superblock, ino: u64)
    ensures
        allocated(d, sb, Resource::Inode, ino).0 matches Ok(n) ==> n >= 1,
{
    reveal(allocated);
    assert(forall|g: u32| #[trigger] (g * sb.inodes_per_group) >= 0) by {
        assert forall|g: u32| #[trigger] (g * sb.inodes_per_group) >= 0 by {
            assert(g * sb.inodes_per_group >= 0) by (nonlinear_arith);
        }
    }
}

/// What `create` does and answers where it makes a file, and where it does not.
pub proof fn law_create_makes_what_was_asked_for<S: Storage>(
    zone: spec_fn(int) -> Zone,
    groups: u32,
    before: HelloFS<S>,
    after: HelloFS<S>,
    parent: u64,
    name: String,
    mode: u32,
    now: Option<u64>,
    r: Result<FileAttr, Errno>,
    d: Seq<u8>,
    c0: Seq<u8>,
    c: Seq<u8>,
    dir: Inode,
)
    requires
        exists|fs: &mut HelloFS<S>|
            *fs == before && *final(fs) == after && #[trigger] call_ensures(
                HelloFS::<S>::create,
                (fs, parent, Some(name), mode, now),
                r,
            ),
        before.device.now(d) == Some(c0),
        after.device.now(d) == Some(c),
        well_formed(zone, groups, c0, before.superblock),
        has_inode(groups, before.superblock, ext2_number(parent) as u64),
        inode_at(c0, before.superblock, ext2_number(parent) as u64) == Ok::<Inode, Errno>(dir),
        directory_well_formed(zone, c0, before.superblock, dir),
    ensures
        r matches Ok(a) ==> a.ino != 1 ==> {
            let num = ext2_number(a.ino);
            &&& num >= 1
            &&& !marked(c0, before.superblock, num) ==> {
                &&& now matches Some(t) && new_attributes(a, mode, t)
                &&& marked(c, after.superblock, num)
                &&& tells(a, c, inode_place(c, after.superblock, num))
                &&& attributes_at(c, after.superblock, a.ino) == r
                &&& looked_up(c, after.superblock, parent, Some(name@)) == r
            }
            &&& marked(c0, before.superblock, num) ==> {
                &&& answers_for(r, c0, before.superblock, num)
                &&& c == c0
                &&& after.superblock == before.superblock
            }
        },
{
    law_created_file_is_as_asked_for(
        zone,
        groups,
        c0,
        before.superblock,
        parent,
        dir,
        name@,
        mode,
        now,
    );
}

/// What `create` does where the directory has an entry in use under the name:
/// it answers for the inode of the first entry with the name, and changes
/// nothing. Entry `at` is the first with the name.
pub proof fn law_create_opens_what_is_there<S: Storage>(
    before: HelloFS<S>,
    after: HelloFS<S>,
    parent: u64,
    name: String,
    mode: u32,
    now: Option<u64>,
    r: Result<FileAttr, Errno>,
    d: Seq<u8>,
    c: Seq<u8>,
    dir: Inode,
    offs: Seq<Seq<int>>,
    at: (int, int),
)
    requires
        before.superblock.readable(),
        parent >= 1,
        exists|fs: &mut HelloFS<S>|
            *fs == before && *final(fs) == after && #[trigger] call_ensures(
                HelloFS::<S>::create,
                (fs, parent, Some(name), mode, now),
                r,
            ),
        after.device.now(d) is Some,
        before.device.now(d) == Some(c),
        inode_at(c, before.superblock, ext2_number(parent) as u64) == Ok::<Inode, Errno>(dir),
        dir.mode as int / 4096 == 4,
        offs.len() == 15,
        directory_entries(c, before.superblock, dir.block@, offs),
        is_entry(offs, at),
        name_at(c, entry_place(before.superblock, dir.block@, offs, at)) == name@,
        none_before(c, before.superblock, dir.block@, offs, 0, at, name@),
        le32(c, entry_place(before.superblock, dir.block@, offs, at)) != 0,
    ensures
        after.device.now(d) == Some(c),
        after.superblock == before.superblock,
        answers_for(
            r,
            c,
            before.superblock,
            le32(c, entry_place(before.superblock, dir.block@, offs, at)),
        ),
{
    let sb = before.superblock;
    let home = ext2_number(parent) as u64;
    let num = le32(c, entry_place(sb, dir.block@, offs, at));
    law_entry_that_is_there_is_opened(c, sb, home, dir, offs, at, name@, mode, 0, now);
    lemma_small_number(sb, num as u32);
    lemma_answers_for(c, sb, num as u64);
}

/// A name that is no text is refused, and nothing is changed.
pub proof fn law_create_needs_a_name<S: Storage>(
    before: HelloFS<S>,
    after: HelloFS<S>,
    parent: u64,
    mode: u32,
    now: Option<u64>,
    r: Result<FileAttr, Errno>,
)
    requires
        exists|fs: &mut HelloFS<S>|
            *fs == before && *final(fs) == after && #[trigger] call_ensures(
                HelloFS::<S>::create,
                (fs, parent, None::<String>, mode, now),
                r,
            ),
    ensures
        r == Err::<FileAttr, Errno>(Errno::EINVAL),
        after.device == before.device,
        after.superblock == before.superblock,
{
}

/// What is answered to a request to create a file is what was opened or
/// created: it is answered where that succeeded and refused likewise where it
/// did not, and the device is left as that left it.
pub proof fn law_create_answers_what_was_opened_or_created(
    d: Seq<u8>,
    sb: Superblock,
    parent: u64,
    name: Seq<char>,
    mode: u32,
    now: Option<u64>,
)
    ensures
        ({
            let (answer, d2, sb2) = create_answer(d, sb, parent, Some(name), mode, now);
            let (r, d3, sb3) = opened_or_created(
                d,
                sb,
                ext2_number(parent) as u64,
                name,
                mode,
                0,
                now,
            );
            &&& d2 == d3
            &&& sb2 == sb3
            &&& match r {
                Ok((ino, inode)) => {
                    let top = inode.mode as int / 4096;
                    &&& answer matches Ok(a) && {
                        &&& a.ino == fuse_number(ino as int)
                        &&& a.size == inode.size
                        &&& a.blocks == inode.blocks
                        &&& a.atime.sec == inode.atime
                        &&& a.mtime.sec == inode.mtime
                        &&& a.ctime.sec == inode.ctime
                        &&& a.kind == FileType::NamedPipe <==> top == 1
                        &&& a.kind == FileType::CharDevice <==> top == 2
                        &&& a.kind == FileType::Directory <==> top == 4
                        &&& a.kind == FileType::BlockDevice <==> top == 6
                        &&& a.kind == FileType::Symlink <==> top == 10
                        &&& a.kind == FileType::Socket <==> top == 12
                        &&& a.perm == inode.mode as int % 4096
                        &&& a.nlink == inode.links_count
                        &&& a.uid == inode.uid
                        &&& a.gid == inode.gid
                    }
                },
                Err(e) => answer == Err::<FileAttr, Errno>(e),
            }
        }),
        create_answer(d, sb, parent, None, mode, now) == (
            Err::<FileAttr, Errno>(Errno::EINVAL),
            d,
            sb,
        ),
{
}

/// `create` makes the file where its directory has a place for the entry, an
/// inode is free and the counts agree, and the kind of file and the time are
/// known, whatever the name is.
pub proof fn law_create_succeeds<S: Storage>(
    zone: spec_fn(int) -> Zone,
    groups: u32,
    before: HelloFS<S>,
    after: HelloFS<S>,
    parent: u64,
    name: String,
    mode: u32,
    now: u64,
    r: Result<FileAttr, Errno>,
    d: Seq<u8>,
    c: Seq<u8>,
    dir: Inode,
    k: int,
    p: int,
    reuse: bool,
)
    requires
        exists|fs: &mut HelloFS<S>|
            *fs == before && *final(fs) == after && #[trigger] call_ensures(
                HelloFS::<S>::create,
                (fs, parent, Some(name), mode, Some(now)),
                r,
            ),
        after.device.now(d) is Some,
        before.device.now(d) == Some(c),
        counts_agree(zone, groups, c, before.superblock, Resource::Inode),
        has_inode(groups, before.superblock, ext2_number(parent) as u64),
        inode_at(c, before.superblock, ext2_number(parent) as u64) == Ok::<Inode, Errno>(dir),
        directory_well_formed(zone, c, before.superblock, dir),
        place_fits(c, before.superblock, dir.block@, k, p, reuse, name@),
        !reuse ==> encode_utf8(name@).len() <= 255,
        mode as int / 4096 % 16 == 1 || mode as int / 4096 % 16 == 2 || mode as int / 4096 % 16 == 4
            || mode as int / 4096 % 16 == 6 || mode as int / 4096 % 16 == 8 || mode as int / 4096
            % 16 == 10 || mode as int / 4096 % 16 == 12,
        before.superblock.free_inodes_count > 0,
    ensures
        r matches Ok(a) && new_attributes(a, mode, now),
{
    law_upper_bits_name_the_kind(mode as u16);
    assert((mode as u16) as u32 == mode % 0x1_0000) by (bit_vector);
    assert(mode % 0x1_0000 / 4096 == mode / 4096 % 16) by (bit_vector);
    let home = ext2_number(parent) as u64;
    let sb = before.superblock;
    law_creation_succeeds(
        zone,
        groups,
        c,
        sb,
        home,
        dir,
        name@,
        mode,
        0,
        now,
        k,
        p,
        reuse,
    );
    law_new_inode_is_fresh(mode, 0, now);
    let (found, _, _) = opened_or_created(c, sb, home, name@, mode, 0, Some(now));
    lemma_new_attributes(found->Ok_0.0 as u64, found->Ok_0.1, mode, now);
}

} // verus!
