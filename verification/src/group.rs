//! Block group descriptors.

use vstd::prelude::*;
use crate::bytes::{
    fill_bytes, get_u16, get_u32, lemma_array_of, lemma_first_u32, lemma_join_bytes, lemma_join_u16,
    lemma_join_u32, lemma_last_bytes, lemma_last_u16, lemma_last_u32, lemma_u32_at_bytes,
    push_bytes, push_u16, push_u32, u16_at, u16_bytes, u32_at, u32_bytes,
};
use crate::device::DeviceData;

verus! {

/// The descriptor of one block group.
pub struct BlockGroupDescTable {
    pub block_bitmap: u32,
    pub inode_bitmap: u32,
    pub inode_table: u32,
    pub free_blocks_count: u16,
    pub free_inodes_count: u16,
    pub used_dir_count: u16,
    pub pad: u16,
    pub reserved: [u8; 12],
}

impl BlockGroupDescTable {
    /// The descriptor, field by field, at its offsets in `e`.
    pub open spec fn laid_out(self, e: Seq<u8>) -> bool {
        &&& e.len() == 32
        &&& self.block_bitmap == u32_at(e, 0)
        &&& self.inode_bitmap == u32_at(e, 4)
        &&& self.inode_table == u32_at(e, 8)
        &&& self.free_blocks_count == u16_at(e, 12)
        &&& self.free_inodes_count == u16_at(e, 14)
        &&& self.used_dir_count == u16_at(e, 16)
        &&& self.pad == u16_at(e, 18)
        &&& self.reserved@ == e.subrange(20, 32)
    }

    /// Each field stands at its offset in the encoding.
    pub proof fn lemma_layout(self)
        ensures
            self.laid_out(self.encode()),
    {
        let e = self.encode();
        assert(e.subrange(0, 32) =~= e);
        self.lemma_fields(e);
    }

    proof fn lemma_fields(self, e: Seq<u8>)
        requires
            e.len() == 32,
            e.subrange(0, 32) == self.encode(),
        ensures
            self.laid_out(e),
    {
        let p0 = u32_bytes(self.block_bitmap);
        let p1 = p0 + u32_bytes(self.inode_bitmap);
        let p2 = p1 + u32_bytes(self.inode_table);
        let p3 = p2 + u16_bytes(self.free_blocks_count);
        let p4 = p3 + u16_bytes(self.free_inodes_count);
        let p5 = p4 + u16_bytes(self.used_dir_count);
        let p6 = p5 + u16_bytes(self.pad);
        lemma_last_bytes(e, 0, p6, self.reserved@);
        lemma_last_u16(e, 0, p5, self.pad);
        lemma_last_u16(e, 0, p4, self.used_dir_count);
        lemma_last_u16(e, 0, p3, self.free_inodes_count);
        lemma_last_u16(e, 0, p2, self.free_blocks_count);
        lemma_last_u32(e, 0, p1, self.inode_table);
        lemma_last_u32(e, 0, p0, self.inode_bitmap);
        lemma_first_u32(e, 0, self.block_bitmap);
    }

    proof fn lemma_from_fields(self, e: Seq<u8>)
        requires
            self.laid_out(e),
        ensures
            self.encode() == e,
    {
        lemma_u32_at_bytes(e, 0);
        lemma_join_u32(e, 0, 4);
        lemma_join_u32(e, 0, 8);
        lemma_join_u16(e, 0, 12);
        lemma_join_u16(e, 0, 14);
        lemma_join_u16(e, 0, 16);
        lemma_join_u16(e, 0, 18);
        lemma_join_bytes(e, 0, 20, 32);
        assert(e.subrange(0, 32) =~= e);
    }

    /// The bytes at the offsets fix the fields.
    proof fn lemma_laid_out_once(a: Self, b: Self, e: Seq<u8>)
        requires
            a.laid_out(e),
            b.laid_out(e),
        ensures
            a == b,
    {
        assert(a.reserved =~= b.reserved) by {
            assert forall|i: int| 0 <= i < 12 implies a.reserved[i] == b.reserved[i] by {
                assert(a.reserved@[i] == b.reserved@[i]);
            }
        }
    }
}

impl DeviceData for BlockGroupDescTable {
    /// The fields in order, without gaps.
    open spec fn encode(self) -> Seq<u8> {
        u32_bytes(self.block_bitmap) + u32_bytes(self.inode_bitmap) + u32_bytes(self.inode_table)
            + u16_bytes(self.free_blocks_count) + u16_bytes(self.free_inodes_count)
            + u16_bytes(self.used_dir_count) + u16_bytes(self.pad) + self.reserved@
    }

    open spec fn encoded_size() -> nat {
        32
    }

    proof fn encoding_has_size(self) {
        self.lemma_layout();
    }

    proof fn encoding_is_injective(a: Self, b: Self) {
        a.lemma_layout();
        b.lemma_layout();
        Self::lemma_laid_out_once(a, b, a.encode());
    }

    proof fn every_encoding(bytes: Seq<u8>) -> (value: Self) {
        let reserved = lemma_array_of::<u8, 12>(bytes.subrange(20, 32));
        let value = BlockGroupDescTable {
            block_bitmap: u32_at(bytes, 0),
            inode_bitmap: u32_at(bytes, 4),
            inode_table: u32_at(bytes, 8),
            free_blocks_count: u16_at(bytes, 12),
            free_inodes_count: u16_at(bytes, 14),
            used_dir_count: u16_at(bytes, 16),
            pad: u16_at(bytes, 18),
            reserved,
        };
        value.lemma_from_fields(bytes);
        value
    }

    fn size() -> (n: usize) {
        32
    }

    fn from_bytes(bytes: &Vec<u8>) -> (value: Self) {
        let mut reserved: [u8; 12] = [0u8; 12];
        fill_bytes(&mut reserved, bytes, 20);
        let value = BlockGroupDescTable {
            block_bitmap: get_u32(bytes, 0),
            inode_bitmap: get_u32(bytes, 4),
            inode_table: get_u32(bytes, 8),
            free_blocks_count: get_u16(bytes, 12),
            free_inodes_count: get_u16(bytes, 14),
            used_dir_count: get_u16(bytes, 16),
            pad: get_u16(bytes, 18),
            reserved,
        };
        proof {
            value.lemma_from_fields(bytes@);
        }
        value
    }

    fn to_bytes(&self) -> (bytes: Vec<u8>) {
        let mut b: Vec<u8> = Vec::new();
        push_u32(&mut b, self.block_bitmap);
        assert(b@ =~= u32_bytes(self.block_bitmap));
        push_u32(&mut b, self.inode_bitmap);
        push_u32(&mut b, self.inode_table);
        push_u16(&mut b, self.free_blocks_count);
        push_u16(&mut b, self.free_inodes_count);
        push_u16(&mut b, self.used_dir_count);
        push_u16(&mut b, self.pad);
        push_bytes(&mut b, &self.reserved);
        b
    }
}

} // verus!
