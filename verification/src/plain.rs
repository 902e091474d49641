//! What stands on the device, read off its bytes by plain arithmetic, and that
//! everything loaded from the device is just that.

use vstd::prelude::*;
use vstd::arithmetic::power2::pow2;
use crate::bytes::{u16_at, u16_bytes, u32_at, u32_bytes, u32s_of};
use crate::device::{decode, decoded, fetch, lemma_encode, put, DeviceData};
use crate::dirent::{filetype_of, type_byte};
use crate::errno::Errno;
use crate::filesystem::{mapped, name_view, InodeMapDir};
use crate::group::BlockGroupDescTable;
use crate::inode::{kind_of_mode, FileType, Inode};
use crate::layout::{bit_of, bitmap_bit, group_at, inode_at, with_inode};
use crate::superblock::Superblock;

verus! {

/// The 16-bit number at `at`, its lowest byte first.
pub open spec fn le16(d: Seq<u8>, at: int) -> int {
    d[at] + 256 * d[at + 1]
}

/// The 32-bit number at `at`, its lowest byte first.
pub open spec fn le32(d: Seq<u8>, at: int) -> int {
    d[at] + 256 * d[at + 1] + 65536 * d[at + 2] + 16777216 * d[at + 3]
}

/// The device has the `len` bytes from `at` on.
pub open spec fn within(d: Seq<u8>, at: int, len: int) -> bool {
    0 <= at && at + len <= d.len()
}

/// Bit `n` of the bitmap that begins at `at`, the lowest bit of a byte first.
pub open spec fn bit_on(d: Seq<u8>, at: int, n: int) -> bool {
    (d[at + n / 8] >> ((n % 8) as u8)) % 2 == 1
}

/// How many bytes a block has: 1024, doubled as often as the superblock says.
pub open spec fn bytes_per_block(sb: Superblock) -> int {
    (1024 * pow2(sb.log_block_size as nat)) as int
}

/// Where the descriptor of group `g` stands: the descriptors follow one
/// another, 32 bytes each, from the block behind the first data block on.
pub open spec fn descriptor_place(sb: Superblock, g: int) -> int {
    (sb.first_data_block + 1) * bytes_per_block(sb) + 32 * g
}

/// The group of inode `num`. Inodes are counted from 1.
pub open spec fn home_group(sb: Superblock, num: int) -> int {
    (num - 1) / (sb.inodes_per_group as int)
}

/// How many inodes of its group come before inode `num`.
pub open spec fn home_slot(sb: Superblock, num: int) -> int {
    (num - 1) % (sb.inodes_per_group as int)
}

/// Where the bitmap of the inodes begins that has the bit of inode `num`.
pub open spec fn inode_bitmap_place(d: Seq<u8>, sb: Superblock, num: int) -> int {
    le32(d, descriptor_place(sb, home_group(sb, num)) + 4) * bytes_per_block(sb)
}

/// Where inode `num` stands, 128 bytes each in the table of its group.
pub open spec fn inode_place(d: Seq<u8>, sb: Superblock, num: int) -> int {
    le32(d, descriptor_place(sb, home_group(sb, num)) + 8) * bytes_per_block(sb) + 128 * home_slot(
        sb,
        num,
    )
}

/// The group of inode `num` can be counted in 32 bits.
pub open spec fn countable(sb: Superblock, num: int) -> bool {
    num >= 1 && home_group(sb, num) <= u32::MAX
}

/// The device has the bit of inode `num`.
pub open spec fn bit_known(d: Seq<u8>, sb: Superblock, num: int) -> bool {
    &&& within(d, descriptor_place(sb, home_group(sb, num)), 32)
    &&& within(d, inode_bitmap_place(d, sb, num) + home_slot(sb, num) / 8, 1)
}

/// The bit of inode `num` says that it is in use.
pub open spec fn marked(d: Seq<u8>, sb: Superblock, num: int) -> bool {
    bit_on(d, inode_bitmap_place(d, sb, num), home_slot(sb, num))
}

/// An inode is what the 128 bytes from `p` on say, field by field.
pub open spec fn reads_as(i: Inode, d: Seq<u8>, p: int) -> bool {
    &&& i.mode == le16(d, p)
    &&& i.uid == le16(d, p + 2)
    &&& i.size == le32(d, p + 4)
    &&& i.atime == le32(d, p + 8)
    &&& i.ctime == le32(d, p + 12)
    &&& i.mtime == le32(d, p + 16)
    &&& i.dtime == le32(d, p + 20)
    &&& i.gid == le16(d, p + 24)
    &&& i.links_count == le16(d, p + 26)
    &&& i.blocks == le32(d, p + 28)
    &&& i.flags == le32(d, p + 32)
    &&& i.osd1 == le32(d, p + 36)
    &&& forall|k: int| 0 <= k < 15 ==> #[trigger] i.block@[k] == le32(d, p + 40 + 4 * k)
    &&& i.generation == le32(d, p + 100)
    &&& i.file_acl == le32(d, p + 104)
    &&& i.dir_acl == le32(d, p + 108)
    &&& i.faddr == le32(d, p + 112)
    &&& forall|k: int| 0 <= k < 12 ==> #[trigger] i.osd2@[k] == d[p + 116 + k]
}

/// Numbers are stored with their lowest byte first.
pub proof fn law_numbers_are_little_endian(b: Seq<u8>, at: int, x: u16, y: u32)
    ensures
        u16_at(b, at) == le16(b, at),
        u32_at(b, at) == le32(b, at),
        u16_bytes(x).len() == 2,
        le16(u16_bytes(x), 0) == x,
        u32_bytes(y).len() == 4,
        le32(u32_bytes(y), 0) == y,
        u32s_of(b).len() == b.len() / 4,
        forall|k: int|
            0 <= k < b.len() / 4 ==> #[trigger] u32s_of(b)[k] == le32(b, 4 * k),
{
}

/// Reading gives the bytes that are there, and fails exactly if some are not.
pub proof fn law_reading_gives_what_is_there(d: Seq<u8>, at: int, len: int)
    requires
        len > 0,
    ensures
        fetch(d, at, len) is Some <==> within(d, at, len),
        fetch(d, at, len) matches Some(b) ==> b.len() == len && forall|i: int|
            0 <= i < len ==> #[trigger] b[i] == d[at + i],
{
}

/// Writing puts the bytes in their place and leaves all others, and fails
/// exactly if some have no place.
pub proof fn law_writing_changes_its_bytes_alone(d: Seq<u8>, at: int, data: Seq<u8>)
    requires
        data.len() > 0,
    ensures
        put(d, at, data) is Some <==> within(d, at, data.len() as int),
        put(d, at, data) matches Some(d2) ==> {
            &&& d2.len() == d.len()
            &&& forall|i: int| 0 <= i < data.len() ==> #[trigger] d2[at + i] == data[i]
            &&& forall|i: int|
                0 <= i < d.len() && !(at <= i < at + data.len()) ==> #[trigger] d2[i] == d[i]
        },
{
    if put(d, at, data) is Some {
        let d2 = put(d, at, data)->Some_0;
        assert forall|i: int| 0 <= i < data.len() implies #[trigger] d2[at + i] == data[i] by {}
    }
}

/// The upper four bits of a mode name the kind of file.
pub proof fn law_upper_bits_name_the_kind(mode: u16)
    ensures
        ({
            let top = mode as int / 4096;
            let kind = kind_of_mode(mode);
            &&& kind == Some(FileType::NamedPipe) <==> top == 1
            &&& kind == Some(FileType::CharDevice) <==> top == 2
            &&& kind == Some(FileType::Directory) <==> top == 4
            &&& kind == Some(FileType::BlockDevice) <==> top == 6
            &&& kind == Some(FileType::RegularFile) <==> top == 8
            &&& kind == Some(FileType::Symlink) <==> top == 10
            &&& kind == Some(FileType::Socket) <==> top == 12
        }),
{
}

/// The type byte of an entry is the number of its kind, from 1 to 7.
pub proof fn law_type_bytes_number_the_kinds(byte: u8, ft: FileType)
    ensures
        byte == 0 || byte > 7 <==> filetype_of(byte) is None,
        filetype_of(byte) == Some(ft) <==> type_byte(ft) == byte,
        type_byte(FileType::RegularFile) == 1,
        type_byte(FileType::Directory) == 2,
        type_byte(FileType::CharDevice) == 3,
        type_byte(FileType::BlockDevice) == 4,
        type_byte(FileType::NamedPipe) == 5,
        type_byte(FileType::Socket) == 6,
        type_byte(FileType::Symlink) == 7,
{
}

/// The root directory is inode 2 of ext2 and inode 1 of FUSE. All others have
/// the same number in both.
pub proof fn law_only_the_root_is_numbered_anew(num: u64)
    ensures
        mapped(InodeMapDir::EXT2FUSE, 2) == 1,
        mapped(InodeMapDir::FUSE2EXT, 1) == 2,
        num != 2 ==> mapped(InodeMapDir::EXT2FUSE, num) == num,
        num != 1 ==> mapped(InodeMapDir::FUSE2EXT, num) == num,
{
}

/// A name is taken as it is.
pub proof fn law_names_are_taken_whole(name: String)
    ensures
        name_view(Some(name)) == Some(name@),
        name_view(None) is None,
{
}

/// What a superblock has to say for inodes to be found, and for blocks and
/// inodes to be allocated.
pub proof fn law_superblock_can_be_worked_with(sb: Superblock)
    ensures
        sb.readable() <==> sb.inodes_per_group > 0 && sb.log_block_size <= 21 && sb.first_data_block
            < 4294967295,
        sb.allocatable() <==> sb.readable() && sb.blocks_per_group > 0,
{
}

/// The size of a regular file has an upper half, which stands elsewhere in its
/// inode; of another file the lower half is all there is.
pub proof fn law_size_is_put_together(i: Inode)
    ensures
        i.mode as int / 4096 == 8 ==> i.file_size() == 4294967296 * i.dir_acl + i.size,
        i.mode as int / 4096 != 8 ==> i.file_size() == i.size,
{
}

/// The inode of a device begins with the number of the device. Other files
/// have none.
pub proof fn law_only_devices_have_a_number(i: Inode)
    ensures
        i.mode as int / 4096 == 2 || i.mode as int / 4096 == 6 ==> i.device_number() == i.block@[0],
        i.mode as int / 4096 != 2 && i.mode as int / 4096 != 6 ==> i.device_number() == 0,
{
}

/// The value that bytes stand for is what they say.
proof fn lemma_decoded(e: Seq<u8>)
    requires
        e.len() == 128,
    ensures
        reads_as(decode::<Inode>(e), e, 0),
{
    lemma_encode::<Inode>(e);
    law_stored_bytes_say_what_the_inode_is(decode::<Inode>(e));
}

/// An inode that was loaded is what its bytes say.
pub proof fn law_inode_is_what_its_bytes_say(d: Seq<u8>, p: int)
    requires
        within(d, p, 128),
    ensures
        decoded::<Inode>(fetch(d, p, 128)) matches Ok(i) && reads_as(i, d, p),
{
    let e = d.subrange(p, p + 128);
    let i = decode::<Inode>(e);
    assert(reads_as(i, d, p)) by {
        lemma_decoded(e);
        lemma_same_reading(i, e, 0, d, p);
    }
}

/// Where the fields of an inode stand at their offsets.
proof fn lemma_laid_out(i: Inode, e: Seq<u8>)
    requires
        i.laid_out(e),
    ensures
        reads_as(i, e, 0),
{
    let w = e.subrange(40, 100);
    assert forall|k: int| 0 <= k < 15 implies #[trigger] i.block@[k] == le32(e, 0 + 40 + 4 * k) by {
        assert(u32s_of(w)[k] == le32(w, 4 * k));
        assert(w[4 * k] == e[40 + 4 * k]);
        assert(w[4 * k + 1] == e[40 + 4 * k + 1]);
        assert(w[4 * k + 2] == e[40 + 4 * k + 2]);
        assert(w[4 * k + 3] == e[40 + 4 * k + 3]);
    }
    assert forall|k: int| 0 <= k < 12 implies #[trigger] i.osd2@[k] == e[0 + 116 + k] by {
        assert(e.subrange(116, 128)[k] == e[116 + k]);
    }
}

/// The bytes that an inode is stored as say what it is.
pub proof fn law_stored_bytes_say_what_the_inode_is(i: Inode)
    ensures
        i.encode().len() == 128,
        reads_as(i, i.encode(), 0),
{
    i.lemma_layout();
    lemma_laid_out(i, i.encode());
}

/// The descriptor of a group is what its bytes say.
pub proof fn law_descriptor_is_what_its_bytes_say(d: Seq<u8>, sb: Superblock, g: u32)
    requires
        sb.readable(),
    ensures
        ({
            let p = descriptor_place(sb, g as int);
            if within(d, p, 32) {
                group_at(d, sb, g) matches Ok(group) && {
                    &&& group.block_bitmap == le32(d, p)
                    &&& group.inode_bitmap == le32(d, p + 4)
                    &&& group.inode_table == le32(d, p + 8)
                    &&& group.free_blocks_count == le16(d, p + 12)
                    &&& group.free_inodes_count == le16(d, p + 14)
                    &&& group.used_dir_count == le16(d, p + 16)
                    &&& group.pad == le16(d, p + 18)
                    &&& forall|k: int|
                        0 <= k < 12 ==> #[trigger] group.reserved@[k] == d[p + 20 + k]
                }
            } else {
                group_at(d, sb, g) == Err::<BlockGroupDescTable, Errno>(Errno::EIO)
            }
        }),
{
    let p = descriptor_place(sb, g as int);
    assert(sb.group_addr(g) == p);
    if within(d, p, 32) {
        let e = d.subrange(p, p + 32);
        let group = decode::<BlockGroupDescTable>(e);
        lemma_encode::<BlockGroupDescTable>(e);
        group.lemma_layout();
        assert(forall|k: int| 0 <= k < 32 ==> #[trigger] e[k] == d[p + k]);
    }
}

/// The superblock is what the bytes from address 1024 on say.
pub proof fn law_superblock_is_what_its_bytes_say(d: Seq<u8>)
    ensures
        if within(d, 1024, 264) {
            decoded::<Superblock>(fetch(d, 1024, 264)) matches Ok(sb) && {
                &&& sb.inode_count == le32(d, 1024)
                &&& sb.blocks_count == le32(d, 1028)
                &&& sb.r_blocks_count == le32(d, 1032)
                &&& sb.free_blocks_count == le32(d, 1036)
                &&& sb.free_inodes_count == le32(d, 1040)
                &&& sb.first_data_block == le32(d, 1044)
                &&& sb.log_block_size == le32(d, 1048)
                &&& sb.log_frag_size == le32(d, 1052)
                &&& sb.blocks_per_group == le32(d, 1056)
                &&& sb.frags_per_group == le32(d, 1060)
                &&& sb.inodes_per_group == le32(d, 1064)
                &&& sb.mtime == le32(d, 1068)
                &&& sb.wtime == le32(d, 1072)
                &&& sb.mnt_count == le16(d, 1076)
                &&& sb.max_mnt_count == le16(d, 1078)
                &&& sb.magic == le16(d, 1080)
                &&& sb.state == le16(d, 1082)
                &&& sb.errors == le16(d, 1084)
                &&& sb.minor_rev_level == le16(d, 1086)
                &&& sb.lastcheck == le32(d, 1088)
                &&& sb.checkinterval == le32(d, 1092)
                &&& sb.creator_os == le32(d, 1096)
                &&& sb.rev_level == le32(d, 1100)
                &&& sb.def_resuid == le16(d, 1104)
                &&& sb.def_resgid == le16(d, 1106)
                &&& sb.first_ino == le32(d, 1108)
                &&& sb.inode_size == le16(d, 1112)
                &&& sb.block_group_nr == le16(d, 1114)
                &&& sb.feature_compat == le32(d, 1116)
                &&& sb.feature_incompat == le32(d, 1120)
                &&& sb.feature_ro_compat == le32(d, 1124)
                &&& sb.uuid@ == d.subrange(1128, 1144)
                &&& sb.volume_name@ == d.subrange(1144, 1160)
                &&& sb.last_mounted@ == d.subrange(1160, 1224)
                &&& sb.algo_bitmap == le32(d, 1224)
                &&& sb.prealloc_blocks == d[1228]
                &&& sb.prealloc_dir_blocks == d[1229]
                &&& sb.journal_uuid@ == d.subrange(1232, 1248)
                &&& sb.journal_inum == le32(d, 1248)
                &&& sb.journal_dev == le32(d, 1252)
                &&& sb.last_orphan == le32(d, 1256)
                &&& sb.def_hash_version == d[1276]
                &&& sb.default_mount_options == le32(d, 1280)
                &&& sb.first_meta_bg == le32(d, 1284)
            }
        } else {
            decoded::<Superblock>(fetch(d, 1024, 264)) == Err::<Superblock, Errno>(Errno::EIO)
        },
{
    if within(d, 1024, 264) {
        let e = d.subrange(1024, 1288);
        let sb = decode::<Superblock>(e);
        lemma_encode::<Superblock>(e);
        sb.lemma_layout();
        assert(forall|k: int| 0 <= k < 264 ==> #[trigger] e[k] == d[1024 + k]);
        assert(e.subrange(104, 120) =~= d.subrange(1128, 1144));
        assert(e.subrange(120, 136) =~= d.subrange(1144, 1160));
        assert(e.subrange(136, 200) =~= d.subrange(1160, 1224));
        assert(e.subrange(208, 224) =~= d.subrange(1232, 1248));
    }
}

/// A bit that is kept in its place is not zero exactly if it is set.
pub(crate) proof fn lemma_bit(byte: u8, n: int)
    requires
        0 <= n < 8,
    ensures
        (bit_of(byte, n) != 0) == ((byte >> (n as u8)) % 2 == 1),
{
    let i = n as u8;
    assert((byte & (1u8 << i) != 0) == ((byte >> i) % 2 == 1)) by (bit_vector)
        requires
            i < 8,
    ;
}

/// An inode is loaded where its bit is set, and is what the bytes in its place
/// say. Where its bit is clear there is none, and where the device does not
/// reach that far it cannot be told.
pub proof fn law_inode_is_loaded_from_its_place(d: Seq<u8>, sb: Superblock, num: u64)
    requires
        sb.readable(),
        countable(sb, num as int),
    ensures
        ({
            let p = inode_place(d, sb, num as int);
            if !bit_known(d, sb, num as int) {
                inode_at(d, sb, num) == Err::<Inode, Errno>(Errno::EIO)
            } else if !marked(d, sb, num as int) {
                inode_at(d, sb, num) == Err::<Inode, Errno>(Errno::ENOENT)
            } else if !within(d, p, 128) {
                inode_at(d, sb, num) == Err::<Inode, Errno>(Errno::EIO)
            } else {
                inode_at(d, sb, num) matches Ok(i) && reads_as(i, d, p)
            }
        }),
{
    let n = num as int;
    let g = sb.group_of(num);
    let p = inode_place(d, sb, n);
    lemma_home(sb, n);
    law_descriptor_is_what_its_bytes_say(d, sb, g);
    if within(d, descriptor_place(sb, g as int), 32) {
        let group = group_at(d, sb, g)->Ok_0;
        let at = sb.block_addr(group.inode_bitmap);
        assert(at == inode_bitmap_place(d, sb, n));
        if within(d, at + sb.index_of(num) / 8, 1) {
            let byte = d[at + sb.index_of(num) / 8];
            lemma_bit(byte, sb.index_of(num) % 8);
            assert(bitmap_bit(d, sb, group.inode_bitmap, sb.index_of(num)) == Ok::<u8, Errno>(
                bit_of(byte, sb.index_of(num) % 8),
            ));
            if within(d, p, 128) {
                law_inode_is_what_its_bytes_say(d, p);
            }
        }
    }
}

/// The group of an inode, and its slot in it, are not negative.
pub(crate) proof fn lemma_home(sb: Superblock, n: int)
    requires
        sb.inodes_per_group > 0,
        n >= 1,
    ensures
        0 <= home_group(sb, n),
        0 <= home_slot(sb, n) < sb.inodes_per_group,
{
    let p = sb.inodes_per_group as int;
    assert(0 <= (n - 1) / p && 0 <= (n - 1) % p < p) by (nonlinear_arith)
        requires
            n >= 1,
            p > 0,
    ;
}

/// Storing an inode replaces the 128 bytes in its place and leaves all others.
/// It fails, and changes nothing, exactly if the device does not reach that far.
pub proof fn law_inode_is_stored_in_its_place(d: Seq<u8>, sb: Superblock, num: u64, i: Inode)
    requires
        sb.readable(),
        countable(sb, num as int),
    ensures
        ({
            let p = inode_place(d, sb, num as int);
            if within(d, descriptor_place(sb, home_group(sb, num as int)), 32) && within(
                d,
                p,
                128,
            ) {
                with_inode(d, sb, num, i) matches Ok(d2) && {
                    &&& d2.len() == d.len()
                    &&& reads_as(i, d2, p)
                    &&& forall|k: int|
                        0 <= k < d.len() && !(p <= k < p + 128) ==> #[trigger] d2[k] == d[k]
                }
            } else {
                with_inode(d, sb, num, i) == Err::<Seq<u8>, Errno>(Errno::EIO)
            }
        }),
{
    let n = num as int;
    let p = inode_place(d, sb, n);
    lemma_home(sb, n);
    law_descriptor_is_what_its_bytes_say(d, sb, sb.group_of(num));
    law_stored_bytes_say_what_the_inode_is(i);
    if with_inode(d, sb, num, i) is Ok {
        let d2 = with_inode(d, sb, num, i)->Ok_0;
        law_writing_changes_its_bytes_alone(d, p, i.encode());
        lemma_same_reading(i, i.encode(), 0, d2, p);
    }
}

/// The same bytes in another place say the same.
pub(crate) proof fn lemma_same_reading(i: Inode, d: Seq<u8>, p: int, d2: Seq<u8>, p2: int)
    requires
        reads_as(i, d, p),
        forall|k: int| 0 <= k < 128 ==> #[trigger] d2[p2 + k] == d[p + k],
    ensures
        reads_as(i, d2, p2),
{
    assert(forall|x: int| 0 <= x <= 126 ==> #[trigger] le16(d2, p2 + x) == le16(d, p + x)) by {
        assert forall|x: int| 0 <= x <= 126 implies #[trigger] le16(d2, p2 + x) == le16(
            d,
            p + x,
        ) by {
            assert(d2[p2 + (x + 1)] == d[p + (x + 1)]);
        }
    }
    assert forall|x: int| 0 <= x <= 124 implies #[trigger] le32(d2, p2 + x) == le32(d, p + x) by {
        assert(d2[p2 + (x + 1)] == d[p + (x + 1)]);
        assert(d2[p2 + (x + 2)] == d[p + (x + 2)]);
        assert(d2[p2 + (x + 3)] == d[p + (x + 3)]);
    }
    assert(le16(d2, p2 + 0) == le16(d, p + 0));
    assert forall|k: int| 0 <= k < 15 implies #[trigger] i.block@[k] == le32(
        d2,
        p2 + 40 + 4 * k,
    ) by {
        assert(le32(d2, p2 + (40 + 4 * k)) == le32(d, p + (40 + 4 * k)));
    }
    assert forall|k: int| 0 <= k < 12 implies #[trigger] i.osd2@[k] == d2[p2 + 116 + k] by {
        assert(d2[p2 + (116 + k)] == d[p + (116 + k)]);
    }
}

} // verus!
