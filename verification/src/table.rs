//! A sorted string table: its data blocks, decoded, the metadata of each block, its bloom
//! filter, and the bytes of its file.
use std::sync::Arc;
use vstd::prelude::*;

use crate::block::{le16, le32, put_slice, put_u16_le, put_u32_le, Block};
use crate::bloom::Bloom;

verus! {

/// Where a data block starts in the table file, and its first and last keys.
pub struct BlockMeta {
    /// Offset of this data block.
    pub offset: usize,
    /// The first key of the data block.
    pub first_key: Vec<u8>,
    /// The last key of the data block.
    pub last_key: Vec<u8>,
}

/// The encoding of one block meta: the offset as four little-endian bytes, then the first
/// and the last key, each after its length as two little-endian bytes.
pub open spec fn meta_bytes(m: BlockMeta) -> Seq<u8> {
    le32(m.offset as u32) + le16(m.first_key@.len() as u16) + m.first_key@ + le16(m.last_key@.len() as u16)
        + m.last_key@
}

/// The meta section of a table file: the encoding of every block meta, in order.
pub open spec fn encode_metas(metas: Seq<BlockMeta>) -> Seq<u8>
    decreases metas.len(),
{
    if metas.len() == 0 {
        Seq::empty()
    } else {
        encode_metas(metas.drop_last()) + meta_bytes(metas.last())
    }
}

impl BlockMeta {
    /// Appends the meta section for `block_meta` to `buf`.
    pub fn encode_block_meta(block_meta: &Vec<BlockMeta>, buf: &mut Vec<u8>)
        ensures
            final(buf)@ == old(buf)@ + encode_metas(block_meta@),
    {
        let mut i: usize = 0;
        while i < block_meta.len()
            invariant
                i <= block_meta@.len(),
                buf@ == old(buf)@ + encode_metas(block_meta@.take(i as int)),
            decreases block_meta@.len() - i,
        {
            let m = &block_meta[i];
            let ghost before = buf@;
            put_u32_le(buf, #[verifier::truncate] (m.offset as u32));
            put_u16_le(buf, #[verifier::truncate] (m.first_key.len() as u16));
            put_slice(buf, m.first_key.as_slice());
            put_u16_le(buf, #[verifier::truncate] (m.last_key.len() as u16));
            put_slice(buf, m.last_key.as_slice());
            proof {
                assert(block_meta@.take(i + 1).drop_last() =~= block_meta@.take(i as int));
                assert(block_meta@.take(i + 1).last() == block_meta@[i as int]);
                assert(buf@ =~= before + meta_bytes(block_meta@[i as int]));
            }
            i = i + 1;
        }
        proof {
            assert(block_meta@.take(i as int) =~= block_meta@);
        }
    }
}

/// An SSTable: its id, its data blocks as decoded from the file, the meta of each block, the
/// range of its keys, the bytes and size of its file and its bloom filter.
pub struct SsTable {
    pub id: usize,
    pub blocks: Vec<Arc<Block>>,
    pub block_meta: Vec<BlockMeta>,
    pub block_meta_offset: usize,
    pub first_key: Vec<u8>,
    pub last_key: Vec<u8>,
    /// The bytes of the table file: data blocks, meta section, bloom filter and their offsets.
    pub file: Vec<u8>,
    pub file_size: u64,
    /// The filter over the fingerprints of the table's keys.
    pub bloom: Option<Bloom>,
}

impl SsTable {
    /// The number of data blocks.
    pub open spec fn num_blocks(&self) -> int {
        self.blocks@.len() as int
    }

    /// Data block `i`.
    pub open spec fn block(&self, i: int) -> Block {
        *self.blocks@[i]
    }

    /// The table has at least one block, one meta per block, and every block is well formed.
    pub open spec fn wf(&self) -> bool {
        &&& self.num_blocks() > 0
        &&& self.block_meta@.len() == self.blocks@.len()
        &&& forall|i: int| 0 <= i < self.num_blocks() ==> (#[trigger] self.block(i)).wf()
    }

    /// The id of the table.
    pub fn sst_id(&self) -> (id: usize)
        ensures
            id == self.id,
    {
        self.id
    }

    /// The first key of the table.
    pub fn first_key(&self) -> (k: &[u8])
        ensures
            k@ == self.first_key@,
    {
        self.first_key.as_slice()
    }

    /// The last key of the table.
    pub fn last_key(&self) -> (k: &[u8])
        ensures
            k@ == self.last_key@,
    {
        self.last_key.as_slice()
    }

    /// The size of the table file.
    pub fn table_size(&self) -> (n: u64)
        ensures
            n == self.file_size,
    {
        self.file_size
    }

    /// The number of data blocks.
    pub fn num_of_blocks(&self) -> (n: usize)
        ensures
            n == self.num_blocks(),
    {
        self.blocks.len()
    }

    /// Data block `block_idx`.
    pub fn read_block_cached(&self, block_idx: usize) -> (b: Arc<Block>)
        requires
            block_idx < self.num_blocks(),
        ensures
            *b == self.block(block_idx as int),
    {
        self.blocks[block_idx].clone()
    }
}

} // verus!
