//! The superblock.

use vstd::prelude::*;
use crate::bytes::{
    fill_bytes, fill_words, get_u16, get_u32, lemma_array_of, lemma_bytes_round_trip,
    lemma_first_u16, lemma_first_u32, lemma_join_bytes, lemma_join_u16, lemma_join_u32,
    lemma_last_bytes, lemma_last_u16, lemma_last_u32, lemma_u16_at_bytes, lemma_u32_at_bytes,
    lemma_u32s_round_trip, push_byte, push_bytes, push_u16, push_u32, push_words, u16_at, u16_bytes,
    u32_at, u32_bytes, u32s_bytes, u32s_of,
};
use crate::device::DeviceData;

verus! {

/// The superblock of a file system.
pub struct Superblock {
    pub inode_count: u32,
    pub blocks_count: u32,
    pub r_blocks_count: u32,
    pub free_blocks_count: u32,
    pub free_inodes_count: u32,
    pub first_data_block: u32,
    pub log_block_size: u32,
    pub log_frag_size: u32,
    pub blocks_per_group: u32,
    pub frags_per_group: u32,
    pub inodes_per_group: u32,
    pub mtime: u32,
    pub wtime: u32,
    pub mnt_count: u16,
    pub max_mnt_count: u16,
    pub magic: u16,
    pub state: u16,
    pub errors: u16,
    pub minor_rev_level: u16,
    pub lastcheck: u32,
    pub checkinterval: u32,
    pub creator_os: u32,
    pub rev_level: u32,
    pub def_resuid: u16,
    pub def_resgid: u16,
    pub first_ino: u32,
    pub inode_size: u16,
    pub block_group_nr: u16,
    pub feature_compat: u32,
    pub feature_incompat: u32,
    pub feature_ro_compat: u32,
    pub uuid: [u8; 16],
    pub volume_name: [u8; 16],
    pub last_mounted: [u8; 64],
    pub algo_bitmap: u32,
    pub prealloc_blocks: u8,
    pub prealloc_dir_blocks: u8,
    pub _align1: u16,
    pub journal_uuid: [u8; 16],
    pub journal_inum: u32,
    pub journal_dev: u32,
    pub last_orphan: u32,
    pub hash_seed: [u32; 4],
    pub def_hash_version: u8,
    pub _padding1: [u8; 3],
    pub default_mount_options: u32,
    pub first_meta_bg: u32,
}

impl Superblock {
    /// The superblock, field by field, at its offsets in `e`.
    pub open spec fn laid_out(self, e: Seq<u8>) -> bool {
        &&& e.len() == 264
        &&& self.counts_laid_out(e)
        &&& self.mount_state_laid_out(e)
        &&& self.features_laid_out(e)
        &&& self.journal_laid_out(e)
    }

    /// The counts and times stand at their offsets.
    pub open spec fn counts_laid_out(self, e: Seq<u8>) -> bool {
        &&& self.inode_count == u32_at(e, 0)
        &&& self.blocks_count == u32_at(e, 4)
        &&& self.r_blocks_count == u32_at(e, 8)
        &&& self.free_blocks_count == u32_at(e, 12)
        &&& self.free_inodes_count == u32_at(e, 16)
        &&& self.first_data_block == u32_at(e, 20)
        &&& self.log_block_size == u32_at(e, 24)
        &&& self.log_frag_size == u32_at(e, 28)
        &&& self.blocks_per_group == u32_at(e, 32)
        &&& self.frags_per_group == u32_at(e, 36)
        &&& self.inodes_per_group == u32_at(e, 40)
        &&& self.mtime == u32_at(e, 44)
        &&& self.wtime == u32_at(e, 48)
    }

    /// What is known of mounts and checks stands at its offsets.
    pub open spec fn mount_state_laid_out(self, e: Seq<u8>) -> bool {
        &&& self.mnt_count == u16_at(e, 52)
        &&& self.max_mnt_count == u16_at(e, 54)
        &&& self.magic == u16_at(e, 56)
        &&& self.state == u16_at(e, 58)
        &&& self.errors == u16_at(e, 60)
        &&& self.minor_rev_level == u16_at(e, 62)
        &&& self.lastcheck == u32_at(e, 64)
        &&& self.checkinterval == u32_at(e, 68)
        &&& self.creator_os == u32_at(e, 72)
        &&& self.rev_level == u32_at(e, 76)
        &&& self.def_resuid == u16_at(e, 80)
        &&& self.def_resgid == u16_at(e, 82)
    }

    /// The features and names stand at their offsets.
    pub open spec fn features_laid_out(self, e: Seq<u8>) -> bool {
        &&& self.first_ino == u32_at(e, 84)
        &&& self.inode_size == u16_at(e, 88)
        &&& self.block_group_nr == u16_at(e, 90)
        &&& self.feature_compat == u32_at(e, 92)
        &&& self.feature_incompat == u32_at(e, 96)
        &&& self.feature_ro_compat == u32_at(e, 100)
        &&& self.uuid@ == e.subrange(104, 120)
        &&& self.volume_name@ == e.subrange(120, 136)
        &&& self.last_mounted@ == e.subrange(136, 200)
    }

    /// What is known of the journal stands at its offsets.
    pub open spec fn journal_laid_out(self, e: Seq<u8>) -> bool {
        &&& self.algo_bitmap == u32_at(e, 200)
        &&& self.prealloc_blocks == e[204]
        &&& self.prealloc_dir_blocks == e[205]
        &&& self._align1 == u16_at(e, 206)
        &&& self.journal_uuid@ == e.subrange(208, 224)
        &&& self.journal_inum == u32_at(e, 224)
        &&& self.journal_dev == u32_at(e, 228)
        &&& self.last_orphan == u32_at(e, 232)
        &&& self.hash_seed@ == u32s_of(e.subrange(236, 252))
        &&& self.def_hash_version == e[252]
        &&& self._padding1@ == e.subrange(253, 256)
        &&& self.default_mount_options == u32_at(e, 256)
        &&& self.first_meta_bg == u32_at(e, 260)
    }

    /// The counts and times, which come first.
    pub open spec fn counts_bytes(self) -> Seq<u8> {
        u32_bytes(self.inode_count) + u32_bytes(self.blocks_count) + u32_bytes(self.r_blocks_count)
            + u32_bytes(self.free_blocks_count) + u32_bytes(self.free_inodes_count)
            + u32_bytes(self.first_data_block) + u32_bytes(self.log_block_size)
            + u32_bytes(self.log_frag_size) + u32_bytes(self.blocks_per_group)
            + u32_bytes(self.frags_per_group) + u32_bytes(self.inodes_per_group)
            + u32_bytes(self.mtime) + u32_bytes(self.wtime)
    }

    /// What is known of mounts and checks.
    pub open spec fn mount_state_bytes(self) -> Seq<u8> {
        u16_bytes(self.mnt_count) + u16_bytes(self.max_mnt_count) + u16_bytes(self.magic)
            + u16_bytes(self.state) + u16_bytes(self.errors) + u16_bytes(self.minor_rev_level)
            + u32_bytes(self.lastcheck) + u32_bytes(self.checkinterval) + u32_bytes(self.creator_os)
            + u32_bytes(self.rev_level) + u16_bytes(self.def_resuid) + u16_bytes(self.def_resgid)
    }

    /// The features, and the names of the volume.
    pub open spec fn features_bytes(self) -> Seq<u8> {
        u32_bytes(self.first_ino) + u16_bytes(self.inode_size) + u16_bytes(self.block_group_nr)
            + u32_bytes(self.feature_compat) + u32_bytes(self.feature_incompat)
            + u32_bytes(self.feature_ro_compat) + self.uuid@ + self.volume_name@
            + self.last_mounted@
    }

    /// What the later revisions added.
    pub open spec fn journal_bytes(self) -> Seq<u8> {
        u32_bytes(self.algo_bitmap) + seq![self.prealloc_blocks] + seq![self.prealloc_dir_blocks]
            + u16_bytes(self._align1) + self.journal_uuid@ + u32_bytes(self.journal_inum)
            + u32_bytes(self.journal_dev) + u32_bytes(self.last_orphan)
            + u32s_bytes(self.hash_seed@) + seq![self.def_hash_version] + self._padding1@
            + u32_bytes(self.default_mount_options) + u32_bytes(self.first_meta_bg)
    }

    /// Each field stands at its offset in the encoding.
    pub proof fn lemma_layout(self)
        ensures
            self.laid_out(self.encode()),
    {
        self.lemma_part_sizes();
        let e = self.encode();
        assert(e.subrange(0, 264) =~= e);
        self.lemma_parts(e);
    }

    proof fn lemma_part_sizes(self)
        ensures
            self.counts_bytes().len() == 52,
            self.mount_state_bytes().len() == 32,
            self.features_bytes().len() == 116,
            self.journal_bytes().len() == 64,
    {
    }

    proof fn lemma_parts(self, e: Seq<u8>)
        requires
            e.len() == 264,
            e.subrange(0, 264) == self.encode(),
        ensures
            self.laid_out(e),
    {
        self.lemma_part_sizes();
        let p0 = self.counts_bytes();
        let p1 = p0 + self.mount_state_bytes();
        let p2 = p1 + self.features_bytes();
        lemma_last_bytes(e, 0, p2, self.journal_bytes());
        lemma_last_bytes(e, 0, p1, self.features_bytes());
        lemma_last_bytes(e, 0, p0, self.mount_state_bytes());
        self.lemma_counts(e);
        self.lemma_mount_state(e);
        self.lemma_features(e);
        self.lemma_journal(e);
    }

    #[verifier::rlimit(30)]
    proof fn lemma_counts(self, e: Seq<u8>)
        requires
            e.len() == 264,
            e.subrange(0, 52) == self.counts_bytes(),
        ensures
            self.counts_laid_out(e),
    {
        let p0 = u32_bytes(self.inode_count);
        let p1 = p0 + u32_bytes(self.blocks_count);
        let p2 = p1 + u32_bytes(self.r_blocks_count);
        let p3 = p2 + u32_bytes(self.free_blocks_count);
        let p4 = p3 + u32_bytes(self.free_inodes_count);
        let p5 = p4 + u32_bytes(self.first_data_block);
        let p6 = p5 + u32_bytes(self.log_block_size);
        let p7 = p6 + u32_bytes(self.log_frag_size);
        let p8 = p7 + u32_bytes(self.blocks_per_group);
        let p9 = p8 + u32_bytes(self.frags_per_group);
        let p10 = p9 + u32_bytes(self.inodes_per_group);
        let p11 = p10 + u32_bytes(self.mtime);
        lemma_last_u32(e, 0, p11, self.wtime);
        lemma_last_u32(e, 0, p10, self.mtime);
        lemma_last_u32(e, 0, p9, self.inodes_per_group);
        lemma_last_u32(e, 0, p8, self.frags_per_group);
        lemma_last_u32(e, 0, p7, self.blocks_per_group);
        lemma_last_u32(e, 0, p6, self.log_frag_size);
        lemma_last_u32(e, 0, p5, self.log_block_size);
        lemma_last_u32(e, 0, p4, self.first_data_block);
        lemma_last_u32(e, 0, p3, self.free_inodes_count);
        lemma_last_u32(e, 0, p2, self.free_blocks_count);
        lemma_last_u32(e, 0, p1, self.r_blocks_count);
        lemma_last_u32(e, 0, p0, self.blocks_count);
        lemma_first_u32(e, 0, self.inode_count);
    }

    proof fn lemma_mount_state(self, e: Seq<u8>)
        requires
            e.len() == 264,
            e.subrange(52, 84) == self.mount_state_bytes(),
        ensures
            self.mount_state_laid_out(e),
    {
        let p0 = u16_bytes(self.mnt_count);
        let p1 = p0 + u16_bytes(self.max_mnt_count);
        let p2 = p1 + u16_bytes(self.magic);
        let p3 = p2 + u16_bytes(self.state);
        let p4 = p3 + u16_bytes(self.errors);
        let p5 = p4 + u16_bytes(self.minor_rev_level);
        let p6 = p5 + u32_bytes(self.lastcheck);
        let p7 = p6 + u32_bytes(self.checkinterval);
        let p8 = p7 + u32_bytes(self.creator_os);
        let p9 = p8 + u32_bytes(self.rev_level);
        let p10 = p9 + u16_bytes(self.def_resuid);
        lemma_last_u16(e, 52, p10, self.def_resgid);
        lemma_last_u16(e, 52, p9, self.def_resuid);
        lemma_last_u32(e, 52, p8, self.rev_level);
        lemma_last_u32(e, 52, p7, self.creator_os);
        lemma_last_u32(e, 52, p6, self.checkinterval);
        lemma_last_u32(e, 52, p5, self.lastcheck);
        lemma_last_u16(e, 52, p4, self.minor_rev_level);
        lemma_last_u16(e, 52, p3, self.errors);
        lemma_last_u16(e, 52, p2, self.state);
        lemma_last_u16(e, 52, p1, self.magic);
        lemma_last_u16(e, 52, p0, self.max_mnt_count);
        lemma_first_u16(e, 52, self.mnt_count);
    }

    proof fn lemma_features(self, e: Seq<u8>)
        requires
            e.len() == 264,
            e.subrange(84, 200) == self.features_bytes(),
        ensures
            self.features_laid_out(e),
    {
        let p0 = u32_bytes(self.first_ino);
        let p1 = p0 + u16_bytes(self.inode_size);
        let p2 = p1 + u16_bytes(self.block_group_nr);
        let p3 = p2 + u32_bytes(self.feature_compat);
        let p4 = p3 + u32_bytes(self.feature_incompat);
        let p5 = p4 + u32_bytes(self.feature_ro_compat);
        let p6 = p5 + self.uuid@;
        let p7 = p6 + self.volume_name@;
        lemma_last_bytes(e, 84, p7, self.last_mounted@);
        lemma_last_bytes(e, 84, p6, self.volume_name@);
        lemma_last_bytes(e, 84, p5, self.uuid@);
        lemma_last_u32(e, 84, p4, self.feature_ro_compat);
        lemma_last_u32(e, 84, p3, self.feature_incompat);
        lemma_last_u32(e, 84, p2, self.feature_compat);
        lemma_last_u16(e, 84, p1, self.block_group_nr);
        lemma_last_u16(e, 84, p0, self.inode_size);
        lemma_first_u32(e, 84, self.first_ino);
    }

    proof fn lemma_journal(self, e: Seq<u8>)
        requires
            e.len() == 264,
            e.subrange(200, 264) == self.journal_bytes(),
        ensures
            self.journal_laid_out(e),
    {
        lemma_u32s_round_trip(self.hash_seed@);
        let p0 = u32_bytes(self.algo_bitmap);
        let p1 = p0 + seq![self.prealloc_blocks];
        let p2 = p1 + seq![self.prealloc_dir_blocks];
        let p3 = p2 + u16_bytes(self._align1);
        let p4 = p3 + self.journal_uuid@;
        let p5 = p4 + u32_bytes(self.journal_inum);
        let p6 = p5 + u32_bytes(self.journal_dev);
        let p7 = p6 + u32_bytes(self.last_orphan);
        let p8 = p7 + u32s_bytes(self.hash_seed@);
        let p9 = p8 + seq![self.def_hash_version];
        let p10 = p9 + self._padding1@;
        let p11 = p10 + u32_bytes(self.default_mount_options);
        lemma_last_u32(e, 200, p11, self.first_meta_bg);
        lemma_last_u32(e, 200, p10, self.default_mount_options);
        lemma_last_bytes(e, 200, p9, self._padding1@);
        lemma_last_bytes(e, 200, p8, seq![self.def_hash_version]);
        assert(e.subrange(252, 253)[0] == e[252]);
        lemma_last_bytes(e, 200, p7, u32s_bytes(self.hash_seed@));
        lemma_last_u32(e, 200, p6, self.last_orphan);
        lemma_last_u32(e, 200, p5, self.journal_dev);
        lemma_last_u32(e, 200, p4, self.journal_inum);
        lemma_last_bytes(e, 200, p3, self.journal_uuid@);
        lemma_last_u16(e, 200, p2, self._align1);
        lemma_last_bytes(e, 200, p1, seq![self.prealloc_dir_blocks]);
        assert(e.subrange(205, 206)[0] == e[205]);
        lemma_last_bytes(e, 200, p0, seq![self.prealloc_blocks]);
        assert(e.subrange(204, 205)[0] == e[204]);
        lemma_first_u32(e, 200, self.algo_bitmap);
    }

    proof fn lemma_counts_from(self, e: Seq<u8>)
        requires
            e.len() == 264,
            self.counts_laid_out(e),
        ensures
            self.counts_bytes() == e.subrange(0, 52),
    {
        lemma_u32_at_bytes(e, 0);
        lemma_join_u32(e, 0, 4);
        lemma_join_u32(e, 0, 8);
        lemma_join_u32(e, 0, 12);
        lemma_join_u32(e, 0, 16);
        lemma_join_u32(e, 0, 20);
        lemma_join_u32(e, 0, 24);
        lemma_join_u32(e, 0, 28);
        lemma_join_u32(e, 0, 32);
        lemma_join_u32(e, 0, 36);
        lemma_join_u32(e, 0, 40);
        lemma_join_u32(e, 0, 44);
        lemma_join_u32(e, 0, 48);
    }

    proof fn lemma_mount_state_from(self, e: Seq<u8>)
        requires
            e.len() == 264,
            self.mount_state_laid_out(e),
        ensures
            self.mount_state_bytes() == e.subrange(52, 84),
    {
        lemma_u16_at_bytes(e, 52);
        lemma_join_u16(e, 52, 54);
        lemma_join_u16(e, 52, 56);
        lemma_join_u16(e, 52, 58);
        lemma_join_u16(e, 52, 60);
        lemma_join_u16(e, 52, 62);
        lemma_join_u32(e, 52, 64);
        lemma_join_u32(e, 52, 68);
        lemma_join_u32(e, 52, 72);
        lemma_join_u32(e, 52, 76);
        lemma_join_u16(e, 52, 80);
        lemma_join_u16(e, 52, 82);
    }

    proof fn lemma_features_from(self, e: Seq<u8>)
        requires
            e.len() == 264,
            self.features_laid_out(e),
        ensures
            self.features_bytes() == e.subrange(84, 200),
    {
        lemma_u32_at_bytes(e, 84);
        lemma_join_u16(e, 84, 88);
        lemma_join_u16(e, 84, 90);
        lemma_join_u32(e, 84, 92);
        lemma_join_u32(e, 84, 96);
        lemma_join_u32(e, 84, 100);
        lemma_join_bytes(e, 84, 104, 120);
        lemma_join_bytes(e, 84, 120, 136);
        lemma_join_bytes(e, 84, 136, 200);
    }

    proof fn lemma_journal_from(self, e: Seq<u8>)
        requires
            e.len() == 264,
            self.journal_laid_out(e),
        ensures
            self.journal_bytes() == e.subrange(200, 264),
    {
        lemma_u32_at_bytes(e, 200);
        assert(seq![e[204]] =~= e.subrange(204, 205));
        lemma_join_bytes(e, 200, 204, 205);
        assert(seq![e[205]] =~= e.subrange(205, 206));
        lemma_join_bytes(e, 200, 205, 206);
        lemma_join_u16(e, 200, 206);
        lemma_join_bytes(e, 200, 208, 224);
        lemma_join_u32(e, 200, 224);
        lemma_join_u32(e, 200, 228);
        lemma_join_u32(e, 200, 232);
        lemma_bytes_round_trip(e.subrange(236, 252));
        lemma_join_bytes(e, 200, 236, 252);
        assert(seq![e[252]] =~= e.subrange(252, 253));
        lemma_join_bytes(e, 200, 252, 253);
        lemma_join_bytes(e, 200, 253, 256);
        lemma_join_u32(e, 200, 256);
        lemma_join_u32(e, 200, 260);
    }

    proof fn lemma_from_fields(self, e: Seq<u8>)
        requires
            self.laid_out(e),
        ensures
            self.encode() == e,
    {
        self.lemma_counts_from(e);
        self.lemma_mount_state_from(e);
        self.lemma_features_from(e);
        self.lemma_journal_from(e);
        lemma_join_bytes(e, 0, 52, 84);
        lemma_join_bytes(e, 0, 84, 200);
        lemma_join_bytes(e, 0, 200, 264);
        assert(e.subrange(0, 264) =~= e);
    }

    /// The bytes at the offsets fix the fields.
    proof fn lemma_laid_out_once(a: Self, b: Self, e: Seq<u8>)
        requires
            a.laid_out(e),
            b.laid_out(e),
        ensures
            a == b,
    {
        assert(a.uuid =~= b.uuid) by {
            assert forall|i: int| 0 <= i < 16 implies a.uuid[i] == b.uuid[i] by {
                assert(a.uuid@[i] == b.uuid@[i]);
            }
        }
        assert(a.volume_name =~= b.volume_name) by {
            assert forall|i: int| 0 <= i < 16 implies a.volume_name[i] == b.volume_name[i] by {
                assert(a.volume_name@[i] == b.volume_name@[i]);
            }
        }
        assert(a.last_mounted =~= b.last_mounted) by {
            assert forall|i: int| 0 <= i < 64 implies a.last_mounted[i] == b.last_mounted[i] by {
                assert(a.last_mounted@[i] == b.last_mounted@[i]);
            }
        }
        assert(a.journal_uuid =~= b.journal_uuid) by {
            assert forall|i: int| 0 <= i < 16 implies a.journal_uuid[i] == b.journal_uuid[i] by {
                assert(a.journal_uuid@[i] == b.journal_uuid@[i]);
            }
        }
        assert(a.hash_seed =~= b.hash_seed) by {
            assert forall|i: int| 0 <= i < 4 implies a.hash_seed[i] == b.hash_seed[i] by {
                assert(a.hash_seed@[i] == b.hash_seed@[i]);
            }
        }
        assert(a._padding1 =~= b._padding1) by {
            assert forall|i: int| 0 <= i < 3 implies a._padding1[i] == b._padding1[i] by {
                assert(a._padding1@[i] == b._padding1@[i]);
            }
        }
    }

    fn push_counts(&self, b: &mut Vec<u8>)
        ensures
            final(b)@ == old(b)@ + self.counts_bytes(),
    {
        let mut own: Vec<u8> = Vec::new();
        push_u32(&mut own, self.inode_count);
        assert(own@ =~= u32_bytes(self.inode_count));
        push_u32(&mut own, self.blocks_count);
        push_u32(&mut own, self.r_blocks_count);
        push_u32(&mut own, self.free_blocks_count);
        push_u32(&mut own, self.free_inodes_count);
        push_u32(&mut own, self.first_data_block);
        push_u32(&mut own, self.log_block_size);
        push_u32(&mut own, self.log_frag_size);
        push_u32(&mut own, self.blocks_per_group);
        push_u32(&mut own, self.frags_per_group);
        push_u32(&mut own, self.inodes_per_group);
        push_u32(&mut own, self.mtime);
        push_u32(&mut own, self.wtime);
        b.append(&mut own);
    }

    fn push_mount_state(&self, b: &mut Vec<u8>)
        ensures
            final(b)@ == old(b)@ + self.mount_state_bytes(),
    {
        let mut own: Vec<u8> = Vec::new();
        push_u16(&mut own, self.mnt_count);
        assert(own@ =~= u16_bytes(self.mnt_count));
        push_u16(&mut own, self.max_mnt_count);
        push_u16(&mut own, self.magic);
        push_u16(&mut own, self.state);
        push_u16(&mut own, self.errors);
        push_u16(&mut own, self.minor_rev_level);
        push_u32(&mut own, self.lastcheck);
        push_u32(&mut own, self.checkinterval);
        push_u32(&mut own, self.creator_os);
        push_u32(&mut own, self.rev_level);
        push_u16(&mut own, self.def_resuid);
        push_u16(&mut own, self.def_resgid);
        b.append(&mut own);
    }

    fn push_features(&self, b: &mut Vec<u8>)
        ensures
            final(b)@ == old(b)@ + self.features_bytes(),
    {
        let mut own: Vec<u8> = Vec::new();
        push_u32(&mut own, self.first_ino);
        assert(own@ =~= u32_bytes(self.first_ino));
        push_u16(&mut own, self.inode_size);
        push_u16(&mut own, self.block_group_nr);
        push_u32(&mut own, self.feature_compat);
        push_u32(&mut own, self.feature_incompat);
        push_u32(&mut own, self.feature_ro_compat);
        push_bytes(&mut own, &self.uuid);
        push_bytes(&mut own, &self.volume_name);
        push_bytes(&mut own, &self.last_mounted);
        b.append(&mut own);
    }

    fn push_journal(&self, b: &mut Vec<u8>)
        ensures
            final(b)@ == old(b)@ + self.journal_bytes(),
    {
        let mut own: Vec<u8> = Vec::new();
        push_u32(&mut own, self.algo_bitmap);
        assert(own@ =~= u32_bytes(self.algo_bitmap));
        push_byte(&mut own, self.prealloc_blocks);
        push_byte(&mut own, self.prealloc_dir_blocks);
        push_u16(&mut own, self._align1);
        push_bytes(&mut own, &self.journal_uuid);
        push_u32(&mut own, self.journal_inum);
        push_u32(&mut own, self.journal_dev);
        push_u32(&mut own, self.last_orphan);
        push_words(&mut own, &self.hash_seed);
        push_byte(&mut own, self.def_hash_version);
        push_bytes(&mut own, &self._padding1);
        push_u32(&mut own, self.default_mount_options);
        push_u32(&mut own, self.first_meta_bg);
        b.append(&mut own);
    }
}

impl DeviceData for Superblock {
    /// The fields in order, without gaps.
    open spec fn encode(self) -> Seq<u8> {
        self.counts_bytes() + self.mount_state_bytes() + self.features_bytes()
            + self.journal_bytes()
    }

    open spec fn encoded_size() -> nat {
        264
    }

    proof fn encoding_has_size(self) {
        self.lemma_layout();
    }

    proof fn encoding_is_injective(a: Self, b: Self) {
        a.lemma_layout();
        b.lemma_layout();
        Self::lemma_laid_out_once(a, b, a.encode());
    }

    proof fn every_encoding(bytes: Seq<u8>) -> (value: Self) {
        let uuid = lemma_array_of::<u8, 16>(bytes.subrange(104, 120));
        let volume_name = lemma_array_of::<u8, 16>(bytes.subrange(120, 136));
        let last_mounted = lemma_array_of::<u8, 64>(bytes.subrange(136, 200));
        let journal_uuid = lemma_array_of::<u8, 16>(bytes.subrange(208, 224));
        let hash_seed = lemma_array_of::<u32, 4>(u32s_of(bytes.subrange(236, 252)));
        let _padding1 = lemma_array_of::<u8, 3>(bytes.subrange(253, 256));
        let value = Superblock {
            inode_count: u32_at(bytes, 0),
            blocks_count: u32_at(bytes, 4),
            r_blocks_count: u32_at(bytes, 8),
            free_blocks_count: u32_at(bytes, 12),
            free_inodes_count: u32_at(bytes, 16),
            first_data_block: u32_at(bytes, 20),
            log_block_size: u32_at(bytes, 24),
            log_frag_size: u32_at(bytes, 28),
            blocks_per_group: u32_at(bytes, 32),
            frags_per_group: u32_at(bytes, 36),
            inodes_per_group: u32_at(bytes, 40),
            mtime: u32_at(bytes, 44),
            wtime: u32_at(bytes, 48),
            mnt_count: u16_at(bytes, 52),
            max_mnt_count: u16_at(bytes, 54),
            magic: u16_at(bytes, 56),
            state: u16_at(bytes, 58),
            errors: u16_at(bytes, 60),
            minor_rev_level: u16_at(bytes, 62),
            lastcheck: u32_at(bytes, 64),
            checkinterval: u32_at(bytes, 68),
            creator_os: u32_at(bytes, 72),
            rev_level: u32_at(bytes, 76),
            def_resuid: u16_at(bytes, 80),
            def_resgid: u16_at(bytes, 82),
            first_ino: u32_at(bytes, 84),
            inode_size: u16_at(bytes, 88),
            block_group_nr: u16_at(bytes, 90),
            feature_compat: u32_at(bytes, 92),
            feature_incompat: u32_at(bytes, 96),
            feature_ro_compat: u32_at(bytes, 100),
            uuid,
            volume_name,
            last_mounted,
            algo_bitmap: u32_at(bytes, 200),
            prealloc_blocks: bytes[204],
            prealloc_dir_blocks: bytes[205],
            _align1: u16_at(bytes, 206),
            journal_uuid,
            journal_inum: u32_at(bytes, 224),
            journal_dev: u32_at(bytes, 228),
            last_orphan: u32_at(bytes, 232),
            hash_seed,
            def_hash_version: bytes[252],
            _padding1,
            default_mount_options: u32_at(bytes, 256),
            first_meta_bg: u32_at(bytes, 260),
        };
        value.lemma_from_fields(bytes);
        value
    }

    fn size() -> (n: usize) {
        264
    }

    fn from_bytes(bytes: &Vec<u8>) -> (value: Self) {
        let mut uuid: [u8; 16] = [0u8; 16];
        fill_bytes(&mut uuid, bytes, 104);
        let mut volume_name: [u8; 16] = [0u8; 16];
        fill_bytes(&mut volume_name, bytes, 120);
        let mut last_mounted: [u8; 64] = [0u8; 64];
        fill_bytes(&mut last_mounted, bytes, 136);
        let mut journal_uuid: [u8; 16] = [0u8; 16];
        fill_bytes(&mut journal_uuid, bytes, 208);
        let mut hash_seed: [u32; 4] = [0u32; 4];
        fill_words(&mut hash_seed, bytes, 236);
        let mut _padding1: [u8; 3] = [0u8; 3];
        fill_bytes(&mut _padding1, bytes, 253);
        let value = Superblock {
            inode_count: get_u32(bytes, 0),
            blocks_count: get_u32(bytes, 4),
            r_blocks_count: get_u32(bytes, 8),
            free_blocks_count: get_u32(bytes, 12),
            free_inodes_count: get_u32(bytes, 16),
            first_data_block: get_u32(bytes, 20),
            log_block_size: get_u32(bytes, 24),
            log_frag_size: get_u32(bytes, 28),
            blocks_per_group: get_u32(bytes, 32),
            frags_per_group: get_u32(bytes, 36),
            inodes_per_group: get_u32(bytes, 40),
            mtime: get_u32(bytes, 44),
            wtime: get_u32(bytes, 48),
            mnt_count: get_u16(bytes, 52),
            max_mnt_count: get_u16(bytes, 54),
            magic: get_u16(bytes, 56),
            state: get_u16(bytes, 58),
            errors: get_u16(bytes, 60),
            minor_rev_level: get_u16(bytes, 62),
            lastcheck: get_u32(bytes, 64),
            checkinterval: get_u32(bytes, 68),
            creator_os: get_u32(bytes, 72),
            rev_level: get_u32(bytes, 76),
            def_resuid: get_u16(bytes, 80),
            def_resgid: get_u16(bytes, 82),
            first_ino: get_u32(bytes, 84),
            inode_size: get_u16(bytes, 88),
            block_group_nr: get_u16(bytes, 90),
            feature_compat: get_u32(bytes, 92),
            feature_incompat: get_u32(bytes, 96),
            feature_ro_compat: get_u32(bytes, 100),
            uuid,
            volume_name,
            last_mounted,
            algo_bitmap: get_u32(bytes, 200),
            prealloc_blocks: bytes[204],
            prealloc_dir_blocks: bytes[205],
            _align1: get_u16(bytes, 206),
            journal_uuid,
            journal_inum: get_u32(bytes, 224),
            journal_dev: get_u32(bytes, 228),
            last_orphan: get_u32(bytes, 232),
            hash_seed,
            def_hash_version: bytes[252],
            _padding1,
            default_mount_options: get_u32(bytes, 256),
            first_meta_bg: get_u32(bytes, 260),
        };
        proof {
            value.lemma_from_fields(bytes@);
        }
        value
    }

    fn to_bytes(&self) -> (bytes: Vec<u8>) {
        let mut b: Vec<u8> = Vec::new();
        self.push_counts(&mut b);
        self.push_mount_state(&mut b);
        self.push_features(&mut b);
        self.push_journal(&mut b);
        assert(b@ =~= self.encode());
        b
    }
}

impl Default for Superblock {
    /// The superblock of which every byte is zero.
    fn default() -> (s: Superblock)
        ensures
            s.encode() == Seq::new(264, |i: int| 0u8),
    {
        let zeros: Vec<u8> = vec![0u8; 264];
        assert(zeros@ =~= Seq::new(264, |i: int| 0u8));
        Superblock::from_bytes(&zeros)
    }
}

} // verus!
