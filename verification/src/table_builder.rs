//! Builds an SSTable block by block.
use std::sync::Arc;
use vstd::prelude::*;

use crate::block::{
    bytes_as_slice, decodable, decoded_data, decoded_offsets, encode_block, lemma_decode_encode, lemma_offsets_bytes,
    le32, put_slice, put_u32_le, Block,
};
use crate::block_builder::{
    builder_first_key, built_data, built_offsets, encode_entry, entries_fit_format, lemma_built_block_reads_back,
    shared_len, BlockBuilder, BlockBuilderView,
};
use crate::block_iterator::block_stream;
use crate::iterators::strictly_sorted;
use crate::key::key_lt;
use crate::table_iterator::{blocks_from, last_key_of, table_sorted, table_stream};
use crate::bloom::{bit_set, filter_bytes, holds, probed, probes_for, Bloom, BITS_PER_KEY};
use crate::table::{encode_metas, BlockMeta, SsTable};

verus! {

/// The farmhash fingerprint of a key, as `farmhash::fingerprint32` computes it.
pub uninterp spec fn fingerprint32_of(key: Seq<u8>) -> u32;

/// The little-endian 32-bit number at `p`.
pub open spec fn le32_at(s: Seq<u8>, p: int) -> int {
    s[p] + 256 * s[p + 1] + 65536 * s[p + 2] + 16777216 * s[p + 3]
}

/// `farmhash::fingerprint32` returns on `key`: for keys of 5 to 24 bytes its mixing adds a
/// few numbers with plain `+` on `u32` (which panics on overflow where overflow checks are
/// on), and these sums must fit.
pub open spec fn fingerprint_fits(key: Seq<u8>) -> bool {
    let n = key.len();
    if 5 <= n <= 12 {
        &&& le32_at(key, 0) + n <= u32::MAX
        &&& le32_at(key, n - 4) + 5 * n <= u32::MAX
        &&& le32_at(key, if n >= 8 { 4 } else { 0 }) + 9 <= u32::MAX
    } else if 13 <= n <= 24 {
        (le32_at(key, (n / 2) as int) * 0xcc9e2d51) % 0x1_0000_0000 + n <= u32::MAX
    } else {
        true
    }
}

/// `farmhash::fingerprint32`: a stable 32-bit hash of the bytes. The contract only names its
/// result; what the hash is stays with the farmhash crate. The keys on which its unchecked
/// additions would overflow are left out.
#[verifier::external_body]
fn fingerprint32(key: &[u8]) -> (h: u32)
    requires
        fingerprint_fits(key@),
    ensures
        h == fingerprint32_of(key@),
{
    farmhash::fingerprint32(key)
}

/// The last key the builder records for a block with these entries: the last key added after
/// the first non-empty one, or nothing if there is none.
pub open spec fn tracked_last_key(entries: Seq<(Seq<u8>, Seq<u8>)>) -> Seq<u8>
    decreases entries.len(),
{
    if entries.len() == 0 {
        Seq::empty()
    } else if builder_first_key(entries.drop_last()).len() == 0 {
        tracked_last_key(entries.drop_last())
    } else {
        entries.last().0
    }
}

/// The last key in the meta of a finished block: the tracked last key, or the first key when
/// that is empty.
pub open spec fn block_last_key(entries: Seq<(Seq<u8>, Seq<u8>)>) -> Seq<u8> {
    if tracked_last_key(entries).len() == 0 {
        builder_first_key(entries)
    } else {
        tracked_last_key(entries)
    }
}

/// The encoding of a block built from these entries.
pub open spec fn encoded_block(entries: Seq<(Seq<u8>, Seq<u8>)>) -> Seq<u8> {
    encode_block(built_data(entries), built_offsets(entries))
}

/// The encodings of the finished blocks, back to back.
pub open spec fn encoded_blocks(blocks: Seq<Seq<(Seq<u8>, Seq<u8>)>>) -> Seq<u8>
    decreases blocks.len(),
{
    if blocks.len() == 0 {
        Seq::empty()
    } else {
        encoded_blocks(blocks.drop_last()) + encoded_block(blocks.last())
    }
}

/// All entries of the blocks, in order.
pub open spec fn all_entries(blocks: Seq<Seq<(Seq<u8>, Seq<u8>)>>) -> Seq<(Seq<u8>, Seq<u8>)>
    decreases blocks.len(),
{
    if blocks.len() == 0 {
        Seq::empty()
    } else {
        all_entries(blocks.drop_last()) + blocks.last()
    }
}

/// The fingerprints of the keys of the entries.
pub open spec fn key_fingerprints(entries: Seq<(Seq<u8>, Seq<u8>)>) -> Seq<u32> {
    entries.map_values(|e: (Seq<u8>, Seq<u8>)| fingerprint32_of(e.0))
}

/// The abstract state of a table builder: the entries of the finished blocks, those of the
/// block being filled, and the target block size.
#[verifier::ext_equal]
pub struct SsTableBuilderView {
    pub finished: Seq<Seq<(Seq<u8>, Seq<u8>)>>,
    pub current: Seq<(Seq<u8>, Seq<u8>)>,
    pub block_size: nat,
}

impl SsTableBuilderView {
    /// Every entry added so far.
    pub open spec fn entries(self) -> Seq<(Seq<u8>, Seq<u8>)> {
        all_entries(self.finished) + self.current
    }

    /// The bytes of the finished blocks.
    pub open spec fn data(self) -> Seq<u8> {
        encoded_blocks(self.finished)
    }
}

/// The builder state after adding an entry: into the block being filled while that block
/// accepts it, otherwise into a new block once the current one is finished.
pub open spec fn view_after_add(v: SsTableBuilderView, key: Seq<u8>, value: Seq<u8>) -> SsTableBuilderView {
    if (BlockBuilderView { entries: v.current, block_size: v.block_size }).accepts(key, value) {
        SsTableBuilderView { finished: v.finished, current: v.current.push((key, value)), block_size: v.block_size }
    } else {
        SsTableBuilderView {
            finished: v.finished.push(v.current),
            current: seq![(key, value)],
            block_size: v.block_size,
        }
    }
}

/// The state of a new builder with the given block size after adding the entries in order.
pub open spec fn view_after_adds(block_size: nat, entries: Seq<(Seq<u8>, Seq<u8>)>) -> SsTableBuilderView
    decreases entries.len(),
{
    if entries.len() == 0 {
        SsTableBuilderView { finished: Seq::empty(), current: Seq::empty(), block_size }
    } else {
        view_after_add(view_after_adds(block_size, entries.drop_last()), entries.last().0, entries.last().1)
    }
}

/// A builder that took the entries in order holds exactly those entries, in order.
pub proof fn lemma_view_after_adds_entries(block_size: nat, entries: Seq<(Seq<u8>, Seq<u8>)>)
    ensures
        view_after_adds(block_size, entries).entries() == entries,
    decreases entries.len(),
{
    if entries.len() == 0 {
        let v = view_after_adds(block_size, entries);
        assert(all_entries(v.finished) + v.current =~= entries);
    } else {
        let init = entries.drop_last();
        lemma_view_after_adds_entries(block_size, init);
        let v = view_after_adds(block_size, init);
        let e = entries.last();
        let w = view_after_add(v, e.0, e.1);
        if (BlockBuilderView { entries: v.current, block_size: v.block_size }).accepts(e.0, e.1) {
            assert(all_entries(w.finished) + w.current =~= (all_entries(v.finished) + v.current).push(e));
        } else {
            assert(w.finished.drop_last() =~= v.finished);
            assert(all_entries(w.finished) + w.current =~= (all_entries(v.finished) + v.current).push(e));
        }
        assert(init.push(e) =~= entries);
    }
}

/// The block metas of a builder record, for each finished block of entries with non-empty
/// keys, its first and last key (the same key for a block of one entry); their offsets start
/// at 0 and strictly increase.
pub proof fn lemma_metas_of_blocks(metas: Seq<BlockMeta>, blocks: Seq<Seq<(Seq<u8>, Seq<u8>)>>)
    requires
        metas_describe(metas, blocks),
        forall|i: int| 0 <= i < blocks.len() ==> (#[trigger] blocks[i]).len() > 0,
        forall|i: int, j: int| 0 <= i < blocks.len() && 0 <= j < blocks[i].len() ==> (#[trigger] blocks[i][j]).0.len() > 0,
    ensures
        forall|i: int|
            0 <= i < blocks.len() ==> (#[trigger] metas[i]).first_key@ == blocks[i][0].0 && metas[i].last_key@
                == blocks[i].last().0,
        blocks.len() > 0 ==> metas[0].offset == 0,
        forall|i: int, j: int| 0 <= i < j < blocks.len() ==> (#[trigger] metas[i]).offset < (#[trigger] metas[j]).offset,
{
    assert forall|i: int| 0 <= i < blocks.len() implies (#[trigger] metas[i]).first_key@ == blocks[i][0].0
        && metas[i].last_key@ == blocks[i].last().0 by {
        let es = blocks[i];
        assert forall|k: int| 0 <= k < es.len() implies (#[trigger] es[k]).0.len() > 0 by {
            assert(blocks[i][k].0.len() > 0);
        }
        crate::block_builder::lemma_builder_first_key(es, es.len() as int);
        assert(es.take(es.len() as int) =~= es);
        lemma_block_last_key(es);
    }
    if blocks.len() > 0 {
        assert(blocks.take(0) =~= Seq::<Seq<(Seq<u8>, Seq<u8>)>>::empty());
    }
    assert forall|i: int, j: int| 0 <= i < j < blocks.len() implies (#[trigger] metas[i]).offset < (
    #[trigger] metas[j]).offset by {
        lemma_offsets_grow(blocks, i, j);
    }
}

/// The encodings of the first `i` blocks are shorter than those of the first `j > i`.
proof fn lemma_offsets_grow(blocks: Seq<Seq<(Seq<u8>, Seq<u8>)>>, i: int, j: int)
    requires
        0 <= i < j <= blocks.len(),
    ensures
        encoded_blocks(blocks.take(i)).len() < encoded_blocks(blocks.take(j)).len(),
    decreases j - i,
{
    lemma_encoded_block_at(blocks, j - 1);
    crate::block_builder::lemma_built_offsets_len(blocks[j - 1]);
    crate::block::lemma_offsets_bytes(built_offsets(blocks[j - 1]));
    if i < j - 1 {
        lemma_offsets_grow(blocks, i, j - 1);
    }
}

/// Adding an entry never shrinks the finished bytes, so the estimated size never decreases.
pub proof fn lemma_estimated_size_grows(v: SsTableBuilderView, key: Seq<u8>, value: Seq<u8>)
    ensures
        view_after_add(v, key, value).data().len() >= v.data().len(),
{
    let w = view_after_add(v, key, value);
    if w.finished != v.finished {
        assert(w.finished.drop_last() =~= v.finished);
    }
}

/// `t` is the table that `build` makes with id `id` from a builder in state `v`: one block
/// per finished block and one for the block being filled, each read back from its encoding,
/// the meta of each block, the first key of the first block, the last key of the last one,
/// the size of the encoded blocks, and the fingerprints of all keys.
pub open spec fn built_table(t: SsTable, id: usize, v: SsTableBuilderView) -> bool {
    let fin = v.finished.push(v.current);
    &&& t.id == id
    &&& t.blocks@.len() == fin.len()
    &&& t.block_meta@.len() == fin.len()
    &&& forall|i: int|
        0 <= i < fin.len() ==> {
            &&& (#[trigger] t.block(i)).data@ == decoded_data(encoded_block(fin[i]))
            &&& t.block(i).offsets@ == decoded_offsets(encoded_block(fin[i]))
            &&& t.block_meta@[i].offset == encoded_blocks(fin.take(i)).len()
            &&& t.block_meta@[i].first_key@ == builder_first_key(fin[i])
            &&& t.block_meta@[i].last_key@ == block_last_key(fin[i])
        }
    &&& t.first_key@ == builder_first_key(fin[0])
    &&& t.last_key@ == block_last_key(fin.last())
    &&& t.block_meta_offset == encoded_blocks(fin).len()
    &&& t.bloom matches Some(b) && filter_of_entries(b, v.entries()) && t.file@ == table_file(
        encoded_blocks(fin),
        t.block_meta@,
        b,
    )
    &&& t.file_size == t.file@.len()
}

/// `b` is the bloom filter `build` makes for the entries: the bits per key of a one percent
/// false-positive rate, and each key's fingerprint setting the bits its probes land on, no
/// other bit being set.
pub open spec fn filter_of_entries(b: Bloom, entries: Seq<(Seq<u8>, Seq<u8>)>) -> bool {
    filter_of_hashes(b, key_fingerprints(entries))
}

/// `b` is the bloom filter built from the fingerprints `hs` with the bits per key of a one
/// percent false-positive rate.
pub open spec fn filter_of_hashes(b: Bloom, hs: Seq<u32>) -> bool {
    &&& b.wf()
    &&& b.k == probes_for(BITS_PER_KEY)
    &&& b.filter@.len() == filter_bytes(hs.len() as int, BITS_PER_KEY as int)
    &&& forall|j: int| 0 <= j < hs.len() ==> holds(b.filter@, b.k as nat, #[trigger] hs[j])
    &&& forall|pos: int|
        0 <= pos < 8 * b.filter@.len() ==> (bit_set(b.filter@, pos) <==> probed(
            hs,
            hs.len() as int,
            b.k as nat,
            8 * b.filter@.len() as int,
            pos,
        ))
}

/// The bytes of a table file: the data blocks, the meta section, the offset of the meta
/// section, the bloom filter, and the offset of the bloom filter, each offset as four
/// little-endian bytes.
pub open spec fn table_file(blocks: Seq<u8>, metas: Seq<BlockMeta>, b: Bloom) -> Seq<u8> {
    let filter_offset = blocks.len() + encode_metas(metas).len() + 4;
    blocks + encode_metas(metas) + le32(blocks.len() as u32) + b.filter@ + seq![b.k] + le32(filter_offset as u32)
}

/// The filter of a built table may contain the fingerprint of every key added: it has no
/// false negatives.
pub proof fn lemma_built_table_may_contain(t: SsTable, id: usize, v: SsTableBuilderView, j: int)
    requires
        built_table(t, id, v),
        0 <= j < v.entries().len(),
    ensures
        t.bloom matches Some(b) && b.wf() && b.k <= 30 && holds(
            b.filter@,
            b.k as nat,
            fingerprint32_of(v.entries()[j].0),
        ),
{
    let b = t.bloom->0;
    let hs = key_fingerprints(v.entries());
    assert(hs[j] == fingerprint32_of(v.entries()[j].0));
    assert(holds(b.filter@, b.k as nat, hs[j]));
}

/// Adding an entry grows the finished bytes by at most the encoding of the block being
/// filled, and leaves a block being filled that fits the block size or holds just the new
/// entry.
pub proof fn lemma_add_sizes(v: SsTableBuilderView, key: Seq<u8>, value: Seq<u8>)
    ensures
        view_after_add(v, key, value).data().len() <= v.data().len() + built_data(v.current).len() + 2
            * v.current.len() + 2,
        built_data(view_after_add(v, key, value).current).len() + 2 * view_after_add(v, key, value).current.len()
            + 2 <= v.block_size + key.len() + value.len() + 10,
{
    let cur = v.current;
    let fk = builder_first_key(cur);
    crate::key::lemma_common_prefix(fk, key);
    let ov = shared_len(fk, key);
    assert(0 <= ov <= key.len());
    let e = (key, value);
    assert(cur.push(e).drop_last() =~= cur);
    assert(encode_entry(fk, key, value).len() == 6 + key.len() - ov + value.len());
    assert(built_data(cur.push(e)).len() == built_data(cur).len() + 6 + key.len() - ov + value.len());
    let one = seq![e];
    assert(one.drop_last() =~= Seq::<(Seq<u8>, Seq<u8>)>::empty());
    assert(builder_first_key(one.drop_last()) =~= Seq::<u8>::empty());
    assert(built_data(one.drop_last()) =~= Seq::<u8>::empty());
    assert(shared_len(Seq::<u8>::empty(), key) == 0);
    assert(encode_entry(Seq::<u8>::empty(), key, value).len() == 6 + key.len() + value.len());
    assert(built_data(one).len() == 6 + key.len() + value.len());
    crate::block_builder::lemma_built_offsets_len(cur);
    crate::block::lemma_offsets_bytes(built_offsets(cur));
    assert(encoded_block(cur).len() == built_data(cur).len() + 2 * cur.len() + 2);
    assert(v.finished.push(cur).drop_last() =~= v.finished);
}

/// The metas describe the finished blocks: one per block, each with the offset where the
/// block's encoding starts and the block's first and last keys.
pub open spec fn metas_describe(metas: Seq<BlockMeta>, blocks: Seq<Seq<(Seq<u8>, Seq<u8>)>>) -> bool {
    &&& metas.len() == blocks.len()
    &&& forall|i: int|
        0 <= i < blocks.len() ==> {
            &&& (#[trigger] metas[i]).offset == encoded_blocks(blocks.take(i)).len()
            &&& metas[i].first_key@ == builder_first_key(blocks[i])
            &&& metas[i].last_key@ == block_last_key(blocks[i])
        }
}

/// Appends to the data blocks the meta section, its offset, the bloom filter over the key
/// fingerprints and its offset; gives the filter.
fn finish_file(data: &mut Vec<u8>, meta: &Vec<BlockMeta>, key_hashes: &Vec<u32>) -> (b: Bloom)
    requires
        key_hashes@.len() * BITS_PER_KEY + 71 <= usize::MAX,
    ensures
        filter_of_hashes(b, key_hashes@),
        final(data)@ == table_file(old(data)@, meta@, b),
{
    let meta_offset = data.len();
    BlockMeta::encode_block_meta(meta, data);
    put_u32_le(data, #[verifier::truncate] (meta_offset as u32));
    let bloom = Bloom::build_from_key_hashes(key_hashes, BITS_PER_KEY);
    let bloom_offset = data.len();
    bloom.encode(data);
    put_u32_le(data, #[verifier::truncate] (bloom_offset as u32));
    proof {
        assert(final(data)@ =~= table_file(old(data)@, meta@, bloom));
    }
    bloom
}

/// Builds an SSTable from key-value pairs.
pub struct SsTableBuilder {
    builder: BlockBuilder,
    first_key: Vec<u8>,
    last_key: Vec<u8>,
    data: Vec<u8>,
    meta: Vec<BlockMeta>,
    block_size: usize,
    key_hashes: Vec<u32>,
    finished: Ghost<Seq<Seq<(Seq<u8>, Seq<u8>)>>>,
}

impl View for SsTableBuilder {
    type V = SsTableBuilderView;

    closed spec fn view(&self) -> SsTableBuilderView {
        SsTableBuilderView {
            finished: self.finished@,
            current: self.builder@.entries,
            block_size: self.block_size as nat,
        }
    }
}

impl SsTableBuilder {
    /// The fields hold the encoding, meta and fingerprints of the entries added so far.
    pub closed spec fn wf(&self) -> bool {
        &&& self.builder.wf()
        &&& self.builder@.block_size == self.block_size
        &&& self.first_key@ == builder_first_key(self.builder@.entries)
        &&& self.last_key@ == tracked_last_key(self.builder@.entries)
        &&& self.data@ == encoded_blocks(self.finished@)
        &&& self.key_hashes@ == key_fingerprints(self@.entries())
        &&& metas_describe(self.meta@, self.finished@)
    }

    /// The meta of the finished blocks.
    pub closed spec fn block_metas(&self) -> Seq<BlockMeta> {
        self.meta@
    }

    /// The fingerprints of the keys added so far.
    pub closed spec fn key_hashes(&self) -> Seq<u32> {
        self.key_hashes@
    }

    /// Create a builder based on target block size.
    pub fn new(block_size: usize) -> (b: Self)
        ensures
            b.wf(),
            b@.finished == Seq::<Seq<(Seq<u8>, Seq<u8>)>>::empty(),
            b@.current == Seq::<(Seq<u8>, Seq<u8>)>::empty(),
            b@.block_size == block_size,
            b.block_metas().len() == 0,
            b.key_hashes().len() == 0,
    {
        let b = Self {
            builder: BlockBuilder::new(block_size),
            first_key: Vec::new(),
            last_key: Vec::new(),
            data: Vec::with_capacity(block_size),
            meta: Vec::new(),
            block_size,
            key_hashes: Vec::new(),
            finished: Ghost(Seq::empty()),
        };
        proof {
            assert(b.key_hashes@ =~= key_fingerprints(b@.entries()));
        }
        b
    }

    /// Records a key the block builder took.
    fn record_key(&mut self, key: &[u8], value: &[u8])
        requires
            old(self).builder@.entries.len() > 0,
            old(self).first_key@ == builder_first_key(old(self).builder@.entries.drop_last()),
            old(self).last_key@ == tracked_last_key(old(self).builder@.entries.drop_last()),
            old(self).builder@.entries.last() == (key@, value@),
            fingerprint_fits(key@),
            old(self).key_hashes@ == key_fingerprints(all_entries(old(self).finished@) + old(self).builder@.entries.drop_last()),
        ensures
            final(self).builder == old(self).builder,
            final(self).data == old(self).data,
            final(self).meta == old(self).meta,
            final(self).block_size == old(self).block_size,
            final(self).finished == old(self).finished,
            final(self).first_key@ == builder_first_key(old(self).builder@.entries),
            final(self).last_key@ == tracked_last_key(old(self).builder@.entries),
            final(self).key_hashes@ == key_fingerprints(old(self)@.entries()),
    {
        let ghost before = all_entries(self.finished@) + self.builder@.entries.drop_last();
        self.key_hashes.push(fingerprint32(key));
        proof {
            assert(before.push((key@, value@)) =~= old(self)@.entries());
            assert(self.key_hashes@ =~= key_fingerprints(old(self)@.entries()));
        }
        if self.first_key.len() == 0 {
            put_slice(&mut self.first_key, key);
        } else {
            self.last_key.clear();
            put_slice(&mut self.last_key, key);
        }
        proof {
            let es = old(self).builder@.entries;
            assert(self.first_key@ =~= builder_first_key(es));
            assert(self.last_key@ =~= tracked_last_key(es));
        }
    }

    /// Adds a key-value pair to SSTable; when the current block is full, it is finished and
    /// the pair starts a new block.
    pub fn add(&mut self, key: &[u8], value: &[u8])
        requires
            old(self).wf(),
            fingerprint_fits(key@),
            built_data(old(self)@.current).len() + key@.len() + value@.len() + 2 * old(self)@.current.len() + 10
                <= usize::MAX,
            key@.len() + value@.len() + 10 <= usize::MAX,
            encoded_blocks(old(self)@.finished).len() + built_data(old(self)@.current).len() + 2
                * old(self)@.current.len() + 2 <= usize::MAX,
        ensures
            final(self).wf(),
            final(self)@.block_size == old(self)@.block_size,
            metas_describe(final(self).block_metas(), final(self)@.finished),
            final(self).key_hashes() == key_fingerprints(final(self)@.entries()),
            ({
                let bv = BlockBuilderView { entries: old(self)@.current, block_size: old(self)@.block_size };
                if bv.accepts(key@, value@) {
                    &&& final(self)@.finished == old(self)@.finished
                    &&& final(self)@.current == old(self)@.current.push((key@, value@))
                } else {
                    &&& final(self)@.finished == old(self)@.finished.push(old(self)@.current)
                    &&& final(self)@.current == seq![(key@, value@)]
                }
            }),
    {
        let is_added = self.builder.add(key, value);
        if is_added {
            proof {
                assert(self.builder@.entries.drop_last() =~= old(self)@.current);
            }
            self.record_key(key, value);
        } else {
            proof {
                crate::block_builder::lemma_built_offsets_len(self.builder@.entries);
            }
            if self.last_key.len() == 0 {
                put_slice(&mut self.last_key, self.first_key.as_slice());
            }
            let ghost cur = self.builder@.entries;
            let block_meta = BlockMeta {
                first_key: vstd::slice::slice_to_vec(self.first_key.as_slice()),
                last_key: vstd::slice::slice_to_vec(self.last_key.as_slice()),
                offset: self.data.len(),
            };
            self.meta.push(block_meta);
            let mut old_builder = BlockBuilder::new(self.block_size);
            std::mem::swap(&mut old_builder, &mut self.builder);
            let block_data = old_builder.build().encode();
            put_slice(&mut self.data, bytes_as_slice(&block_data));
            self.first_key.clear();
            self.last_key.clear();
            let ghost fin = self.finished@.push(cur);
            self.finished = Ghost(fin);
            proof {
                assert(fin.drop_last() =~= old(self).finished@);
                assert(self.data@ =~= encoded_blocks(fin));
                assert forall|i: int| 0 <= i < fin.len() implies {
                    &&& (#[trigger] self.meta@[i]).offset == encoded_blocks(fin.take(i)).len()
                    &&& self.meta@[i].first_key@ == builder_first_key(fin[i])
                    &&& self.meta@[i].last_key@ == block_last_key(fin[i])
                } by {
                    if i < fin.len() - 1 {
                        assert(fin.take(i) =~= old(self).finished@.take(i));
                    } else {
                        assert(fin.take(i) =~= old(self).finished@);
                    }
                }
                assert(all_entries(fin) =~= all_entries(old(self).finished@) + cur);
                assert(self.key_hashes@ =~= key_fingerprints(all_entries(fin) + Seq::empty()));
            }
            let added = self.builder.add(key, value);
            proof {
                assert(added);
                assert(self.builder@.entries.drop_last() =~= Seq::<(Seq<u8>, Seq<u8>)>::empty());
                assert(all_entries(fin) + self.builder@.entries.drop_last() =~= all_entries(fin));
            }
            self.record_key(key, value);
        }
    }

    /// Get the estimated size of the SSTable: the bytes of the finished blocks.
    pub fn estimated_size(&self) -> (n: usize)
        requires
            self.wf(),
        ensures
            n == self@.data().len(),
    {
        self.data.len()
    }

    /// Finishes the last block and gives the table: its blocks as read back from the encoded
    /// data, the meta of each block, its first and last keys, the bloom filter over the
    /// fingerprints of its keys, and the bytes of its file (data blocks, meta section, bloom
    /// filter and their offsets) with their size.
    pub fn build(self, id: usize) -> (t: SsTable)
        requires
            self.wf(),
            self@.entries().len() * BITS_PER_KEY + 71 <= usize::MAX,
            encoded_blocks(self@.finished).len() + built_data(self@.current).len() + 2 * self@.current.len() + 2
                <= usize::MAX,
        ensures
            built_table(t, id, self@),
    {
        let ghost fin = self@.finished.push(self@.current);
        let ghost cur = self@.current;
        let SsTableBuilder { builder, mut first_key, mut last_key, mut data, mut meta, block_size, key_hashes, finished } = self;
        proof {
            crate::block_builder::lemma_built_offsets_len(cur);
            lemma_offsets_bytes(built_offsets(cur));
        }
        let block = builder.build();
        if last_key.len() == 0 {
            put_slice(&mut last_key, first_key.as_slice());
        }
        meta.push(
            BlockMeta {
                first_key: vstd::slice::slice_to_vec(first_key.as_slice()),
                last_key: vstd::slice::slice_to_vec(last_key.as_slice()),
                offset: data.len(),
            },
        );
        let encoded = block.encode();
        put_slice(&mut data, bytes_as_slice(&encoded));
        proof {
            assert(fin.drop_last() =~= finished@);
            assert(data@ =~= encoded_blocks(fin));
            assert forall|i: int| 0 <= i < fin.len() implies {
                &&& (#[trigger] meta@[i]).offset == encoded_blocks(fin.take(i)).len()
                &&& meta@[i].first_key@ == builder_first_key(fin[i])
                &&& meta@[i].last_key@ == block_last_key(fin[i])
            } by {
                if i < fin.len() - 1 {
                    assert(fin.take(i) =~= finished@.take(i));
                } else {
                    assert(fin.take(i) =~= finished@);
                }
            }
        }
        let mut blocks: Vec<Arc<Block>> = Vec::new();
        let n = meta.len();
        let mut i: usize = 0;
        while i < n
            invariant
                i <= n,
                n == meta@.len(),
                n == fin.len(),
                data@ == encoded_blocks(fin),
                forall|k: int| 0 <= k < fin.len() ==> (#[trigger] meta@[k]).offset == encoded_blocks(fin.take(k)).len(),
                blocks@.len() == i,
                forall|k: int|
                    0 <= k < i ==> {
                        &&& (#[trigger] blocks@[k]).data@ == decoded_data(encoded_block(fin[k]))
                        &&& blocks@[k].offsets@ == decoded_offsets(encoded_block(fin[k]))
                    },
            decreases n - i,
        {
            proof {
                lemma_encoded_block_at(fin, i as int);
                lemma_decodable(built_data(fin[i as int]), built_offsets(fin[i as int]));
                if i + 1 < n {
                    assert(meta@[i + 1].offset == encoded_blocks(fin.take(i + 1)).len());
                }
            }
            let start = meta[i].offset;
            let end = if i + 1 < n { meta[i + 1].offset } else { data.len() };
            proof {
                if i + 1 >= n {
                    assert(fin.take(i + 1) =~= fin);
                }
            }
            let block_bytes = vstd::slice::slice_subrange(data.as_slice(), start, end);
            let decoded = Block::decode(block_bytes);
            blocks.push(Arc::new(decoded));
            i = i + 1;
        }
        let table_first_key = vstd::slice::slice_to_vec(meta[0].first_key.as_slice());
        let table_last_key = vstd::slice::slice_to_vec(meta[n - 1].last_key.as_slice());
        let meta_offset = data.len();
        let bloom = finish_file(&mut data, &meta, &key_hashes);
        let size = data.len();
        SsTable {
            id,
            blocks,
            block_meta: meta,
            block_meta_offset: meta_offset,
            first_key: table_first_key,
            last_key: table_last_key,
            file: data,
            file_size: size as u64,
            bloom: Some(bloom),
        }
    }

    /// Builds the table with id 0.
    pub fn build_for_test(self) -> (t: SsTable)
        requires
            self.wf(),
            self@.entries().len() * BITS_PER_KEY + 71 <= usize::MAX,
            encoded_blocks(self@.finished).len() + built_data(self@.current).len() + 2 * self@.current.len() + 2
                <= usize::MAX,
        ensures
            t.id == 0,
            t.blocks@.len() == self@.finished.len() + 1,
            forall|i: int|
                0 <= i <= self@.finished.len() ==> {
                    &&& (#[trigger] t.block(i)).data@ == decoded_data(
                        encoded_block(self@.finished.push(self@.current)[i]),
                    )
                    &&& t.block(i).offsets@ == decoded_offsets(encoded_block(self@.finished.push(self@.current)[i]))
                },
            t.bloom matches Some(b) && filter_of_entries(b, self@.entries()),
    {
        self.build(0)
    }
}


/// Block `i` sits in the encoded data where the encodings of the blocks before it end.
pub proof fn lemma_encoded_block_at(blocks: Seq<Seq<(Seq<u8>, Seq<u8>)>>, i: int)
    requires
        0 <= i < blocks.len(),
    ensures
        encoded_blocks(blocks.take(i + 1)).len() == encoded_blocks(blocks.take(i)).len() + encoded_block(blocks[i]).len(),
        encoded_blocks(blocks.take(i + 1)).len() <= encoded_blocks(blocks).len(),
        encoded_blocks(blocks).subrange(
            encoded_blocks(blocks.take(i)).len() as int,
            encoded_blocks(blocks.take(i + 1)).len() as int,
        ) == encoded_block(blocks[i]),
    decreases blocks.len(),
{
    let init = blocks.drop_last();
    assert(blocks.take(i + 1).drop_last() =~= blocks.take(i));
    if i == blocks.len() - 1 {
        assert(blocks.take(i + 1) =~= blocks);
        assert(blocks.take(i) =~= init);
        assert(encoded_blocks(blocks).subrange(
            encoded_blocks(init).len() as int,
            encoded_blocks(blocks).len() as int,
        ) =~= encoded_block(blocks[i]));
    } else {
        lemma_encoded_block_at(init, i);
        assert(init.take(i) =~= blocks.take(i));
        assert(init.take(i + 1) =~= blocks.take(i + 1));
        let a = encoded_blocks(blocks.take(i)).len() as int;
        let b = encoded_blocks(blocks.take(i + 1)).len() as int;
        assert(encoded_blocks(blocks).subrange(a, b) =~= encoded_blocks(init).subrange(a, b));
    }
}

/// Every encoded block can be decoded (the entry count is stored truncated to 16 bits, which
/// never claims more offsets than there are).
pub proof fn lemma_decodable(data: Seq<u8>, offsets: Seq<u16>)
    ensures
        decodable(encode_block(data, offsets)),
{
    let bytes = encode_block(data, offsets);
    lemma_offsets_bytes(offsets);
    let n = offsets.len() as u16;
    assert(bytes[bytes.len() - 2] == crate::block::le16(n)[0]);
    assert(bytes[bytes.len() - 1] == crate::block::le16(n)[1]);
    assert(crate::block::u16_at(bytes, bytes.len() - 2) == n);
}

/// The blocks can be read back: none is empty, each has fewer than 65536 entries that fit the
/// format, and every key is non-empty.
pub open spec fn blocks_readable(blocks: Seq<Seq<(Seq<u8>, Seq<u8>)>>) -> bool {
    forall|i: int|
        0 <= i < blocks.len() ==> {
            &&& 0 < (#[trigger] blocks[i]).len() < 65536
            &&& entries_fit_format(blocks[i])
            &&& forall|j: int| 0 <= j < blocks[i].len() ==> (#[trigger] blocks[i][j]).0.len() > 0
        }
}

/// The entries of two runs of blocks are those of the first run followed by those of the second.
proof fn lemma_all_entries_concat(a: Seq<Seq<(Seq<u8>, Seq<u8>)>>, b: Seq<Seq<(Seq<u8>, Seq<u8>)>>)
    ensures
        all_entries(a + b) == all_entries(a) + all_entries(b),
    decreases b.len(),
{
    if b.len() == 0 {
        assert(a + b =~= a);
    } else {
        lemma_all_entries_concat(a, b.drop_last());
        assert((a + b).drop_last() =~= a + b.drop_last());
    }
}

/// Reading a block built from entries with non-empty keys from index `j` on yields the
/// entries from `j` on.
proof fn lemma_block_stream_all(b: Block, es: Seq<(Seq<u8>, Seq<u8>)>, j: int)
    requires
        0 <= j <= es.len(),
        b.num_entries() == es.len(),
        forall|k: int| 0 <= k < es.len() ==> #[trigger] b.key_at(k) == es[k].0 && b.value_at(k) == es[k].1,
        forall|k: int| 0 <= k < es.len() ==> (#[trigger] es[k]).0.len() > 0,
    ensures
        block_stream(b, j) == es.skip(j),
    decreases es.len() - j,
{
    if j < es.len() {
        lemma_block_stream_all(b, es, j + 1);
        assert(b.key_at(j) == es[j].0);
        assert(es.skip(j) =~= seq![(b.key_at(j), b.value_at(j))] + es.skip(j + 1));
    } else {
        assert(es.skip(j) =~= Seq::<(Seq<u8>, Seq<u8>)>::empty());
    }
}

/// An SSTable built from readable blocks is well formed, and reading it whole yields every
/// entry that was added, in the order of adding.
#[verifier::spinoff_prover]
pub proof fn lemma_built_table_reads_back(t: SsTable, blocks: Seq<Seq<(Seq<u8>, Seq<u8>)>>)
    requires
        blocks.len() > 0,
        blocks_readable(blocks),
        t.blocks@.len() == blocks.len(),
        t.block_meta@.len() == blocks.len(),
        forall|i: int|
            0 <= i < blocks.len() ==> {
                &&& (#[trigger] t.block(i)).data@ == decoded_data(encoded_block(blocks[i]))
                &&& t.block(i).offsets@ == decoded_offsets(encoded_block(blocks[i]))
            },
    ensures
        t.wf(),
        table_stream(t) == all_entries(blocks),
{
    assert forall|i: int| 0 <= i < blocks.len() implies (#[trigger] t.block(i)).wf() && block_stream(t.block(i), 0)
        == blocks[i] by {
        let es = blocks[i];
        crate::block_builder::lemma_built_offsets_len(es);
        lemma_decode_encode(built_data(es), built_offsets(es));
        assert(es[0].0.len() > 0);
        lemma_built_block_reads_back(t.block(i), es);
        lemma_block_stream_all(t.block(i), es, 0);
        assert(es.skip(0) =~= es);
    }
    lemma_blocks_from(t, blocks, 0);
    assert(blocks.skip(0) =~= blocks);
}

/// Reading a table built from readable blocks from block `c` on yields the entries of those blocks.
proof fn lemma_blocks_from(t: SsTable, blocks: Seq<Seq<(Seq<u8>, Seq<u8>)>>, c: int)
    requires
        0 <= c <= blocks.len(),
        t.blocks@.len() == blocks.len(),
        blocks_readable(blocks),
        forall|i: int| 0 <= i < blocks.len() ==> block_stream(#[trigger] t.block(i), 0) == blocks[i],
    ensures
        blocks_from(t, c) == all_entries(blocks.skip(c)),
    decreases blocks.len() - c,
{
    if c < blocks.len() {
        lemma_blocks_from(t, blocks, c + 1);
        assert(block_stream(t.block(c), 0) == blocks[c]);
        assert(blocks[c].len() > 0);
        assert(blocks.skip(c) =~= seq![blocks[c]] + blocks.skip(c + 1));
        lemma_all_entries_concat(seq![blocks[c]], blocks.skip(c + 1));
        let one = seq![blocks[c]];
        assert(one.drop_last() =~= Seq::<Seq<(Seq<u8>, Seq<u8>)>>::empty());
        assert(all_entries(one.drop_last()) == Seq::<(Seq<u8>, Seq<u8>)>::empty());
        assert(all_entries(one) =~= blocks[c]);
    } else {
        assert(blocks.skip(c) =~= Seq::<Seq<(Seq<u8>, Seq<u8>)>>::empty());
    }
}

/// The last key recorded for a block whose keys are all non-empty is the key of its last
/// entry.
proof fn lemma_block_last_key(es: Seq<(Seq<u8>, Seq<u8>)>)
    requires
        es.len() > 0,
        forall|k: int| 0 <= k < es.len() ==> (#[trigger] es[k]).0.len() > 0,
    ensures
        block_last_key(es) == es.last().0,
{
    let init = es.drop_last();
    if init.len() == 0 {
        assert(tracked_last_key(init) == Seq::<u8>::empty());
        assert(builder_first_key(init) == Seq::<u8>::empty());
        assert(tracked_last_key(es) == Seq::<u8>::empty());
        crate::block_builder::lemma_builder_first_key(es, es.len() as int);
        assert(es.take(es.len() as int) =~= es);
        assert(es[0] == es.last());
    } else {
        assert(init[0] == es[0]);
        crate::block_builder::lemma_builder_first_key(init, init.len() as int);
        assert(init.take(init.len() as int) =~= init);
        assert(builder_first_key(init).len() > 0);
        assert(es.last().0.len() > 0);
    }
}

/// The entries of the blocks before `i`, those of block `i`, and those after it make up all
/// the entries.
proof fn lemma_all_entries_split(blocks: Seq<Seq<(Seq<u8>, Seq<u8>)>>, i: int)
    requires
        0 <= i < blocks.len(),
    ensures
        all_entries(blocks) == all_entries(blocks.take(i)) + blocks[i] + all_entries(blocks.skip(i + 1)),
        all_entries(blocks.take(i + 1)) == all_entries(blocks.take(i)) + blocks[i],
{
    assert(blocks =~= blocks.take(i + 1) + blocks.skip(i + 1));
    lemma_all_entries_concat(blocks.take(i + 1), blocks.skip(i + 1));
    assert(blocks.take(i + 1).drop_last() =~= blocks.take(i));
    assert(blocks.take(i + 1).last() == blocks[i]);
}

/// The entries of the first `i` blocks come before those of the first `j` blocks end.
proof fn lemma_all_entries_prefix_len(blocks: Seq<Seq<(Seq<u8>, Seq<u8>)>>, i: int, j: int)
    requires
        0 <= i <= j <= blocks.len(),
    ensures
        all_entries(blocks.take(i)).len() <= all_entries(blocks.take(j)).len(),
    decreases j - i,
{
    if i < j {
        lemma_all_entries_prefix_len(blocks, i, j - 1);
        lemma_all_entries_split(blocks, j - 1);
    }
}

/// Entry `k` of block `i` is the entry after those of the blocks before `i`.
proof fn lemma_all_entries_at(blocks: Seq<Seq<(Seq<u8>, Seq<u8>)>>, i: int, k: int)
    requires
        0 <= i < blocks.len(),
        0 <= k < blocks[i].len(),
    ensures
        all_entries(blocks.take(i)).len() + k < all_entries(blocks.take(i + 1)).len(),
        all_entries(blocks.take(i + 1)).len() <= all_entries(blocks).len(),
        all_entries(blocks)[all_entries(blocks.take(i)).len() + k] == blocks[i][k],
{
    lemma_all_entries_split(blocks, i);
    lemma_all_entries_prefix_len(blocks, i + 1, blocks.len() as int);
    assert(blocks.take(blocks.len() as int) =~= blocks);
}

/// A table built from entries with strictly increasing keys, in blocks that can be read back,
/// is sorted, and reading it whole yields those entries: what the write path builds is what
/// the read path can search.
#[verifier::spinoff_prover]
pub proof fn lemma_built_table_sorted(t: SsTable, id: usize, v: SsTableBuilderView)
    requires
        built_table(t, id, v),
        blocks_readable(v.finished.push(v.current)),
        strictly_sorted(v.entries()),
    ensures
        table_sorted(t),
        table_stream(t) == v.entries(),
{
    let fin = v.finished.push(v.current);
    assert(fin.drop_last() =~= v.finished);
    assert(all_entries(fin) =~= v.entries());
    lemma_built_table_reads_back(t, fin);
    let all = all_entries(fin);
    assert forall|i: int| 0 <= i < fin.len() implies {
        &&& (#[trigger] t.block(i)).num_entries() == fin[i].len()
        &&& forall|k: int| 0 <= k < fin[i].len() ==> #[trigger] t.block(i).key_at(k) == fin[i][k].0
    } by {
        let es = fin[i];
        crate::block_builder::lemma_built_offsets_len(es);
        lemma_decode_encode(built_data(es), built_offsets(es));
        assert(es[0].0.len() > 0);
        lemma_built_block_reads_back(t.block(i), es);
    }
    assert forall|i: int, a: int, j: int, b: int|
        0 <= i <= j < fin.len() && 0 <= a < fin[i].len() && 0 <= b < fin[j].len() && (i < j || a < b) implies key_lt(
        #[trigger] fin[i][a].0,
        #[trigger] fin[j][b].0,
    ) by {
        lemma_all_entries_at(fin, i, a);
        lemma_all_entries_at(fin, j, b);
        let pa = all_entries(fin.take(i)).len() + a;
        let pb = all_entries(fin.take(j)).len() + b;
        if i < j {
            lemma_all_entries_prefix_len(fin, i + 1, j);
        }
        assert(pa < pb);
        assert(key_lt(all[pa].0, all[pb].0));
    }
    assert forall|i: int| 0 <= i < t.num_blocks() implies {
        &&& (#[trigger] t.block(i)).sorted()
        &&& forall|j: int| 0 <= j < t.block(i).num_entries() ==> (#[trigger] t.block(i).key_at(j)).len() > 0
        &&& t.block_meta@[i].first_key@ == t.block(i).key_at(0)
    } by {
        let es = fin[i];
        let b = t.block(i);
        assert forall|x: int, y: int| 0 <= x < y < b.num_entries() implies #[trigger] key_lt(b.key_at(x), b.key_at(y)) by {
            assert(key_lt(fin[i][x].0, fin[i][y].0));
        }
        assert forall|j: int| 0 <= j < b.num_entries() implies (#[trigger] b.key_at(j)).len() > 0 by {
            assert(b.key_at(j) == es[j].0);
        }
        crate::block_builder::lemma_builder_first_key(es, es.len() as int);
        assert(es.take(es.len() as int) =~= es);
        assert(b.key_at(0) == es[0].0);
    }
    assert forall|i: int, j: int| #![trigger t.block(i), t.block(j)] 0 <= i < j < t.num_blocks() implies key_lt(
        last_key_of(t.block(i)),
        t.block(j).key_at(0),
    ) by {
        let n_i = fin[i].len();
        assert(t.block(i).key_at(n_i - 1) == fin[i][n_i - 1].0);
        assert(t.block(j).key_at(0) == fin[j][0].0);
        assert(key_lt(fin[i][n_i - 1].0, fin[j][0].0));
    }
    let first = fin[0];
    crate::block_builder::lemma_builder_first_key(first, first.len() as int);
    assert(first.take(first.len() as int) =~= first);
    assert(t.block(0).key_at(0) == first[0].0);
    let last = fin.last();
    assert(last == fin[fin.len() - 1]);
    assert forall|k: int| 0 <= k < last.len() implies (#[trigger] last[k]).0.len() > 0 by {
        assert(fin[fin.len() - 1][k].0.len() > 0);
    }
    lemma_block_last_key(last);
    assert(t.block(fin.len() - 1).key_at(last.len() - 1) == last[last.len() - 1].0);
}

} // verus!
