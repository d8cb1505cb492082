//! Iterates over the entries of a block.
use std::sync::Arc;
use vstd::prelude::*;

use crate::block::{
    entry_overlap, entry_rest_key, entry_rest_len, entry_value_len, entry_value_start, get_u16_le,
    put_slice, Block,
};
use crate::key::{
    key_less, key_lt, lemma_key_lt_irreflexive, lemma_key_lt_transitive, lemma_key_trichotomy,
};

verus! {

/// The key an iterator at `idx` holds: the key of that entry, or nothing past the end.
pub open spec fn key_or_empty(b: Block, idx: int) -> Seq<u8> {
    if 0 <= idx < b.num_entries() {
        b.key_at(idx)
    } else {
        Seq::empty()
    }
}

/// The entries an iterator at `idx` still yields: those from `idx` on, up to the first entry
/// whose key is empty, where the iterator stops being valid.
pub open spec fn block_stream(b: Block, idx: int) -> Seq<(Seq<u8>, Seq<u8>)>
    decreases b.num_entries() - idx,
{
    if 0 <= idx < b.num_entries() && b.key_at(idx).len() > 0 {
        seq![(b.key_at(idx), b.value_at(idx))] + block_stream(b, idx + 1)
    } else {
        Seq::empty()
    }
}

/// Iterates on a block.
pub struct BlockIterator {
    /// The internal `Block`, wrapped by an `Arc`
    block: Arc<Block>,
    /// The current key, empty represents the iterator is invalid
    key: Vec<u8>,
    /// the current value range in the block.data, corresponds to the current key
    value_range: (usize, usize),
    /// Current index of the key-value pair, should be in range of [0, num_of_elements)
    idx: usize,
    /// The first key in the block
    first_key: Vec<u8>,
}

impl BlockIterator {
    /// The block being iterated.
    pub closed spec fn block(&self) -> Block {
        *self.block
    }

    /// The index of the current entry; the number of entries once past the end.
    pub closed spec fn index(&self) -> int {
        self.idx as int
    }

    /// The key the iterator currently holds.
    pub closed spec fn current_key(&self) -> Seq<u8> {
        self.key@
    }

    /// The block is well formed, the index is in range and the first key is decoded.
    pub closed spec fn inv(&self) -> bool {
        &&& self.block.wf()
        &&& self.idx <= self.block.num_entries()
        &&& self.first_key@ == self.block.first_key()
    }

    /// The invariant holds and the current key is the key of the current entry.
    pub open spec fn wf(&self) -> bool {
        &&& self.inv()
        &&& self.block().wf()
        &&& 0 <= self.index() <= self.block().num_entries()
        &&& self.current_key() == key_or_empty(self.block(), self.index())
    }

    /// The entries that the iterator still yields.
    pub open spec fn stream(&self) -> Seq<(Seq<u8>, Seq<u8>)> {
        block_stream(self.block(), self.index())
    }

    fn new(block: Arc<Block>) -> (it: Self)
        ensures
            it.block() == *block,
            it.index() == 0,
            it.current_key().len() == 0,
    {
        Self { block, key: Vec::new(), value_range: (0, 0), idx: 0, first_key: Vec::new() }
    }

    /// Reads the first key of the block from its first entry.
    fn read_first_key(block: &Block) -> (k: Vec<u8>)
        requires
            block.wf(),
        ensures
            k@ == block.first_key(),
    {
        let data_pos = block.offsets[0] as usize;
        proof {
            assert(crate::block::entry_fits(block.data@, block.entry_start(0)));
        }
        let rest_len = get_u16_le(block.data.as_slice(), data_pos + 2) as usize;
        let mut k: Vec<u8> = Vec::new();
        put_slice(&mut k, vstd::slice::slice_subrange(block.data.as_slice(), data_pos + 4, data_pos + 4 + rest_len));
        k
    }

    /// Creates a block iterator and seek to the first entry.
    pub fn create_and_seek_to_first(block: Arc<Block>) -> (it: Self)
        requires
            block.wf(),
        ensures
            it.wf(),
            it.block() == *block,
            it.index() == 0,
    {
        let mut iter = Self::new(block);
        iter.first_key = Self::read_first_key(&iter.block);
        iter.seek_to_first();
        iter
    }

    /// Creates a block iterator and seek to the first key that >= `key`.
    pub fn create_and_seek_to_key(block: Arc<Block>, key: &[u8]) -> (it: Self)
        requires
            block.wf(),
        ensures
            it.wf(),
            it.block() == *block,
            it.index() == 0 || key_lt(it.block().key_at(it.index() - 1), key@),
            it.index() == it.block().num_entries() || !key_lt(it.block().key_at(it.index()), key@),
    {
        let mut iter = Self::new(block);
        iter.first_key = Self::read_first_key(&iter.block);
        iter.seek_to_key(key);
        iter
    }

    /// Returns the key of the current entry.
    pub fn key(&self) -> (k: &[u8])
        ensures
            k@ == self.current_key(),
    {
        self.key.as_slice()
    }

    /// Returns the value of the current entry.
    pub fn value(&self) -> (v: &[u8])
        requires
            self.wf(),
            self.index() < self.block().num_entries(),
        ensures
            v@ == self.block().value_at(self.index()),
    {
        self.get_value_at_index(self.idx)
    }

    /// Returns true if the iterator is valid.
    pub fn is_valid(&self) -> (r: bool)
        ensures
            r == (self.current_key().len() > 0),
    {
        self.key.len() != 0
    }

    /// Seeks to the first key in the block.
    pub fn seek_to_first(&mut self)
        requires
            old(self).inv(),
        ensures
            final(self).wf(),
            final(self).block() == old(self).block(),
            final(self).index() == 0,
    {
        if self.block.data.len() != 0 {
            let first_key = self.get_key_at_index(0);
            self.key = first_key;
            self.first_key = vstd::slice::slice_to_vec(self.key.as_slice());
            self.idx = 0;
            proof {
                let b = self.block();
                assert(b.first_key().subrange(0, 0) + b.first_key() =~= b.first_key());
            }
        } else {
            proof {
                let b = self.block();
                assert(crate::block::entry_fits(b.data@, b.entry_start(0)));
            }
        }
    }

    /// Move to the next key in the block.
    pub fn next(&mut self)
        requires
            old(self).inv(),
        ensures
            final(self).wf(),
            final(self).block() == old(self).block(),
            final(self).index() == if old(self).index() + 1 < old(self).block().num_entries() {
                old(self).index() + 1
            } else {
                old(self).block().num_entries()
            },
    {
        if self.idx < self.block.offsets.len() - 1 {
            self.idx = self.idx + 1;
            self.key = self.get_key_at_index(self.idx);
        } else {
            self.idx = self.block.offsets.len();
            self.key.clear();
        }
    }

    /// Seek to the first key that >= `key`. The index lands right after every key below
    /// `key` met by the binary search; on sorted blocks that is the first key `>= key`.
    pub fn seek_to_key(&mut self, key: &[u8])
        requires
            old(self).inv(),
        ensures
            final(self).wf(),
            final(self).block() == old(self).block(),
            final(self).index() == 0 || key_lt(final(self).block().key_at(final(self).index() - 1), key@),
            final(self).index() == final(self).block().num_entries() || !key_lt(
                final(self).block().key_at(final(self).index()),
                key@,
            ),
    {
        let n = self.block.offsets.len();
        let mut left: usize = 0;
        let mut right: usize = n;
        while left < right
            invariant
                self.inv(),
                n == self.block().num_entries(),
                left <= right <= n,
                left == 0 || key_lt(self.block().key_at(left - 1), key@),
                right == n || !key_lt(self.block().key_at(right as int), key@),
            decreases right - left,
        {
            let mid = left + (right - left) / 2;
            let mid_key = self.get_key_at_index(mid);
            if key_less(mid_key.as_slice(), key) {
                left = mid + 1;
            } else {
                right = mid;
            }
        }
        if left < n {
            self.idx = left;
            self.key = self.get_key_at_index(left);
        } else {
            self.idx = n;
            self.key.clear();
        }
    }

    fn get_key_at_index(&self, index: usize) -> (k: Vec<u8>)
        requires
            self.inv(),
            index < self.block().num_entries(),
        ensures
            k@ == self.block().key_at(index as int),
    {
        let data = self.block.data.as_slice();
        let data_pos = self.block.offsets[index] as usize;
        proof {
            assert(crate::block::entry_fits(self.block().data@, self.block().entry_start(index as int)));
            assert(entry_overlap(self.block().data@, self.block().entry_start(index as int)) <= self.block().first_key().len());
        }
        let overlap_len = get_u16_le(data, data_pos) as usize;
        let rest_len = get_u16_le(data, data_pos + 2) as usize;
        let rest_key = vstd::slice::slice_subrange(data, data_pos + 4, data_pos + 4 + rest_len);
        let mut key: Vec<u8> = Vec::new();
        put_slice(&mut key, vstd::slice::slice_subrange(self.first_key.as_slice(), 0, overlap_len));
        put_slice(&mut key, rest_key);
        key
    }

    fn get_value_at_index(&self, index: usize) -> (v: &[u8])
        requires
            self.inv(),
            index < self.block().num_entries(),
        ensures
            v@ == self.block().value_at(index as int),
    {
        let data = self.block.data.as_slice();
        let data_pos = self.block.offsets[index] as usize;
        proof {
            assert(crate::block::entry_fits(self.block().data@, self.block().entry_start(index as int)));
        }
        let rest_len = get_u16_le(data, data_pos + 2) as usize;
        let value_len_pos = data_pos + 4 + rest_len;
        let value_len = get_u16_le(data, value_len_pos) as usize;
        let value_pos = value_len_pos + 2;
        vstd::slice::slice_subrange(data, value_pos, value_pos + value_len)
    }
}

/// In a sorted block, seeking lands on the first key `>= key`: every key before the index is
/// below `key` and no key from the index on is.
pub proof fn lemma_seek_in_sorted_block(b: Block, idx: int, key: Seq<u8>)
    requires
        b.sorted(),
        0 <= idx <= b.num_entries(),
        idx == 0 || key_lt(b.key_at(idx - 1), key),
        idx == b.num_entries() || !key_lt(b.key_at(idx), key),
    ensures
        forall|j: int| 0 <= j < idx ==> key_lt(#[trigger] b.key_at(j), key),
        forall|j: int| idx <= j < b.num_entries() ==> !key_lt(#[trigger] b.key_at(j), key),
{
    assert forall|j: int| 0 <= j < idx implies key_lt(#[trigger] b.key_at(j), key) by {
        if j < idx - 1 {
            assert(key_lt(b.key_at(j), b.key_at(idx - 1)));
            lemma_key_lt_transitive(b.key_at(j), b.key_at(idx - 1), key);
        }
    }
    assert forall|j: int| idx <= j < b.num_entries() implies !key_lt(#[trigger] b.key_at(j), key) by {
        if j > idx {
            assert(key_lt(b.key_at(idx), b.key_at(j)));
            lemma_key_trichotomy(b.key_at(idx), key);
            if key_lt(b.key_at(j), key) {
                lemma_key_lt_transitive(b.key_at(idx), b.key_at(j), key);
            }
            if key_lt(key, b.key_at(idx)) && key_lt(b.key_at(j), key) {
                lemma_key_lt_transitive(b.key_at(j), key, b.key_at(idx));
                lemma_key_lt_transitive(b.key_at(idx), b.key_at(j), b.key_at(idx));
                lemma_key_lt_irreflexive(b.key_at(idx));
            }
        }
    }
}

} // verus!
