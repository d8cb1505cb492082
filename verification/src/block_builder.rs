//! Builds a block entry by entry, compressing each key against the block's first key.
use vstd::prelude::*;

use crate::block::{
    entry_fits, entry_overlap, entry_rest_key, entry_rest_len, entry_value, entry_value_len,
    entry_value_start, le16, put_slice, put_u16_le, u16_at, Block,
};
use crate::key::{common_prefix, common_prefix_len, lemma_common_prefix};

verus! {

/// How many bytes of `key` an entry shares with the first key: none while there is no first
/// key yet, otherwise their common prefix.
pub open spec fn shared_len(first_key: Seq<u8>, key: Seq<u8>) -> int {
    if first_key.len() == 0 {
        0
    } else {
        common_prefix_len(first_key, key)
    }
}

/// The compressed key of an entry: overlap, rest length, rest of the key.
pub open spec fn encode_key(first_key: Seq<u8>, key: Seq<u8>) -> Seq<u8> {
    let overlap = shared_len(first_key, key);
    le16(overlap as u16) + le16((key.len() - overlap) as u16) + key.subrange(overlap, key.len() as int)
}

/// The bytes of one entry, compressed against `first_key`.
pub open spec fn encode_entry(first_key: Seq<u8>, key: Seq<u8>, value: Seq<u8>) -> Seq<u8> {
    encode_key(first_key, key) + le16(value.len() as u16) + value
}

/// The first key a builder records after the given entries were added: the first non-empty
/// key among them, or nothing.
pub open spec fn builder_first_key(entries: Seq<(Seq<u8>, Seq<u8>)>) -> Seq<u8>
    decreases entries.len(),
{
    if entries.len() == 0 {
        Seq::empty()
    } else {
        let before = builder_first_key(entries.drop_last());
        if before.len() == 0 {
            entries.last().0
        } else {
            before
        }
    }
}

/// The data section a builder holds after the given entries were added.
pub open spec fn built_data(entries: Seq<(Seq<u8>, Seq<u8>)>) -> Seq<u8>
    decreases entries.len(),
{
    if entries.len() == 0 {
        Seq::empty()
    } else {
        built_data(entries.drop_last()) + encode_entry(
            builder_first_key(entries.drop_last()),
            entries.last().0,
            entries.last().1,
        )
    }
}

/// The offsets a builder holds after the given entries were added: where each entry starts,
/// truncated to 16 bits.
pub open spec fn built_offsets(entries: Seq<(Seq<u8>, Seq<u8>)>) -> Seq<u16> {
    Seq::new(entries.len(), |i: int| built_data(entries.take(i)).len() as u16)
}

/// Every key, value and entry start fits the 16-bit fields of the block format.
pub open spec fn entries_fit_format(entries: Seq<(Seq<u8>, Seq<u8>)>) -> bool {
    forall|i: int|
        0 <= i < entries.len() ==> {
            &&& (#[trigger] entries[i]).0.len() < 65536
            &&& entries[i].1.len() < 65536
            &&& built_data(entries.take(i)).len() < 65536
        }
}

/// The abstract state of a block builder: the entries added so far and the target size.
pub struct BlockBuilderView {
    pub entries: Seq<(Seq<u8>, Seq<u8>)>,
    pub block_size: nat,
}

impl BlockBuilderView {
    /// The size `add` estimates the block would have with one more entry.
    pub open spec fn estimated_size(self, key: Seq<u8>, value: Seq<u8>) -> int {
        let rest_len = key.len() - shared_len(builder_first_key(self.entries), key);
        built_data(self.entries).len() + rest_len + 6 + (self.entries.len() + 1) * 2 + 2 + value.len()
    }

    /// `add` takes the entry: always into an empty block, otherwise while the estimate stays
    /// within the block size.
    pub open spec fn accepts(self, key: Seq<u8>, value: Seq<u8>) -> bool {
        self.entries.len() == 0 || self.estimated_size(key, value) <= self.block_size
    }
}

/// Builds a block.
pub struct BlockBuilder {
    /// Offsets of each key-value entries.
    offsets: Vec<u16>,
    /// All serialized key-value pairs in the block.
    data: Vec<u8>,
    /// The expected block size.
    block_size: usize,
    /// The first key in the block
    first_key: Vec<u8>,
    /// The entries added so far.
    entries: Ghost<Seq<(Seq<u8>, Seq<u8>)>>,
}

impl View for BlockBuilder {
    type V = BlockBuilderView;

    closed spec fn view(&self) -> BlockBuilderView {
        BlockBuilderView { entries: self.entries@, block_size: self.block_size as nat }
    }
}

impl BlockBuilder {
    /// The concrete fields hold exactly the encoding of the entries added so far.
    pub closed spec fn wf(&self) -> bool {
        &&& self.data@ == built_data(self.entries@)
        &&& self.offsets@ == built_offsets(self.entries@)
        &&& self.first_key@ == builder_first_key(self.entries@)
    }

    /// Creates a new block builder.
    pub fn new(block_size: usize) -> (b: Self)
        ensures
            b.wf(),
            b@.entries == Seq::<(Seq<u8>, Seq<u8>)>::empty(),
            b@.block_size == block_size,
    {
        let b = Self {
            block_size,
            data: Vec::with_capacity(block_size),
            offsets: Vec::new(),
            first_key: Vec::new(),
            entries: Ghost(Seq::empty()),
        };
        proof {
            assert(b.offsets@ =~= built_offsets(b.entries@));
        }
        b
    }

    /// Adds a key-value pair to the block. Returns false when the block is full.
    #[must_use]
    pub fn add(&mut self, key: &[u8], value: &[u8]) -> (added: bool)
        requires
            old(self).wf(),
            built_data(old(self)@.entries).len() + key@.len() + value@.len() + 2 * old(self)@.entries.len()
                + 10 <= usize::MAX,
        ensures
            final(self).wf(),
            added == old(self)@.accepts(key@, value@),
            final(self)@.block_size == old(self)@.block_size,
            added ==> final(self)@.entries == old(self)@.entries.push((key@, value@)),
            !added ==> final(self)@.entries == old(self)@.entries,
    {
        let ghost es = self.entries@;
        proof {
            lemma_built_offsets_len(es);
        }
        let new_offsets_size = (self.offsets.len() + 1) * 2;
        let overlap_len = if self.first_key.len() == 0 {
            0
        } else {
            common_prefix(self.first_key.as_slice(), key)
        };
        let rest_len = key.len() - overlap_len;
        let estimated_size = self.data.len() + rest_len + 2 * 3 + new_offsets_size + 2 + value.len();
        if !self.is_empty() && estimated_size > self.block_size {
            return false;
        }
        let value_len = #[verifier::truncate] (value.len() as u16);
        self.offsets.push(#[verifier::truncate] (self.data.len() as u16));
        let compacted = self.compact_key(key);
        put_slice(&mut self.data, compacted.as_slice());
        put_u16_le(&mut self.data, value_len);
        put_slice(&mut self.data, value);
        if self.first_key.len() == 0 {
            self.first_key = vstd::slice::slice_to_vec(key);
        }
        self.entries = Ghost(es.push((key@, value@)));
        proof {
            let es2 = es.push((key@, value@));
            assert(es2.drop_last() =~= es);
            assert(self.data@ =~= built_data(es2));
            assert forall|i: int| 0 <= i < es2.len() implies #[trigger] self.offsets@[i] == built_offsets(es2)[i] by {
                if i < es.len() {
                    assert(es2.take(i) =~= es.take(i));
                } else {
                    assert(es2.take(i) =~= es);
                }
            }
            assert(self.offsets@ =~= built_offsets(es2));
        }
        true
    }

    /// Encodes `key` compressed against the current first key.
    fn compact_key(&self, key: &[u8]) -> (out: Vec<u8>)
        ensures
            out@ == encode_key(self.first_key@, key@),
    {
        let overlap_len = if self.first_key.len() == 0 {
            0
        } else {
            common_prefix(self.first_key.as_slice(), key)
        };
        let rest_key = vstd::slice::slice_subrange(key, overlap_len, key.len());
        let rest_len = #[verifier::truncate] (rest_key.len() as u16);
        let mut compacted_key: Vec<u8> = Vec::new();
        put_u16_le(&mut compacted_key, #[verifier::truncate] (overlap_len as u16));
        put_u16_le(&mut compacted_key, rest_len);
        put_slice(&mut compacted_key, rest_key);
        compacted_key
    }

    /// Check if there is no key-value pair in the block.
    pub fn is_empty(&self) -> (r: bool)
        requires
            self.wf(),
        ensures
            r == (self@.entries.len() == 0),
    {
        proof {
            lemma_built_offsets_len(self.entries@);
        }
        self.data.len() == 0 && self.offsets.len() == 0
    }

    /// Finalize the block.
    pub fn build(self) -> (b: Block)
        requires
            self.wf(),
        ensures
            b.data@ == built_data(self@.entries),
            b.offsets@ == built_offsets(self@.entries),
    {
        Block { data: self.data, offsets: self.offsets }
    }
}

/// A builder records one offset per entry, and its data is empty exactly when no entry was added.
pub proof fn lemma_built_offsets_len(es: Seq<(Seq<u8>, Seq<u8>)>)
    ensures
        built_offsets(es).len() == es.len(),
        es.len() == 0 <==> built_data(es).len() == 0,
{
    if es.len() > 0 {
        assert(encode_entry(builder_first_key(es.drop_last()), es.last().0, es.last().1).len() >= 6);
    }
}


/// Once a non-empty key was added first, every later entry is compressed against it.
pub proof fn lemma_builder_first_key(es: Seq<(Seq<u8>, Seq<u8>)>, i: int)
    requires
        0 < i <= es.len(),
        es[0].0.len() > 0,
    ensures
        builder_first_key(es.take(i)) == es[0].0,
    decreases i,
{
    let t = es.take(i);
    assert(t.drop_last() =~= es.take(i - 1));
    if i > 1 {
        lemma_builder_first_key(es, i - 1);
    } else {
        assert(builder_first_key(es.take(0)) == Seq::<u8>::empty());
    }
}

/// Entry `i` sits in the data section exactly where its offset says.
proof fn lemma_built_data_entry(es: Seq<(Seq<u8>, Seq<u8>)>, i: int)
    requires
        0 <= i < es.len(),
    ensures
        ({
            let start = built_data(es.take(i)).len() as int;
            let enc = encode_entry(builder_first_key(es.take(i)), es[i].0, es[i].1);
            &&& start + enc.len() <= built_data(es).len()
            &&& built_data(es).subrange(start, start + enc.len()) == enc
        }),
    decreases es.len(),
{
    let init = es.drop_last();
    let start = built_data(es.take(i)).len() as int;
    let enc = encode_entry(builder_first_key(es.take(i)), es[i].0, es[i].1);
    if i == es.len() - 1 {
        assert(es.take(i) =~= init);
        assert(built_data(es) == built_data(init) + enc);
        assert(built_data(es).subrange(start, start + enc.len()) =~= enc);
    } else {
        lemma_built_data_entry(init, i);
        assert(init.take(i) =~= es.take(i));
        assert(init[i] == es[i]);
        let last = encode_entry(builder_first_key(init), es.last().0, es.last().1);
        assert(built_data(es) == built_data(init) + last);
        assert(built_data(es).subrange(start, start + enc.len()) =~= built_data(init).subrange(
            start,
            start + enc.len(),
        ));
    }
}

/// Reading a `u16` inside a window reads the window.
proof fn lemma_u16_in_window(data: Seq<u8>, p: int, w: Seq<u8>, k: int)
    requires
        0 <= p,
        p + w.len() <= data.len(),
        data.subrange(p, p + w.len()) == w,
        0 <= k,
        k + 2 <= w.len(),
    ensures
        u16_at(data, p + k) == u16_at(w, k),
{
    assert(data[p + k] == w[k]);
    assert(data[p + k + 1] == w[k + 1]);
}

/// The fields of an encoded entry.
proof fn lemma_encode_entry_fields(first_key: Seq<u8>, key: Seq<u8>, value: Seq<u8>)
    requires
        key.len() < 65536,
        value.len() < 65536,
    ensures
        ({
            let enc = encode_entry(first_key, key, value);
            let ov = shared_len(first_key, key);
            &&& enc.len() == 6 + (key.len() - ov) + value.len()
            &&& u16_at(enc, 0) as int == ov
            &&& u16_at(enc, 2) as int == key.len() - ov
            &&& enc.subrange(4, 4 + key.len() - ov) == key.subrange(ov, key.len() as int)
            &&& u16_at(enc, 4 + key.len() - ov) as int == value.len()
            &&& enc.subrange(6 + key.len() - ov, 6 + key.len() - ov + value.len()) == value
        }),
{
    let ov = shared_len(first_key, key);
    let enc = encode_entry(first_key, key, value);
    let r = key.len() - ov;
    if first_key.len() > 0 {
        lemma_common_prefix(first_key, key);
    }
    assert(0 <= ov <= key.len());
    assert(enc[0] == le16(ov as u16)[0]);
    assert(enc[1] == le16(ov as u16)[1]);
    assert(enc[2] == le16(r as u16)[0]);
    assert(enc[3] == le16(r as u16)[1]);
    assert(enc.subrange(4, 4 + r) =~= key.subrange(ov, key.len() as int));
    assert(enc[4 + r] == le16(value.len() as u16)[0]);
    assert(enc[5 + r] == le16(value.len() as u16)[1]);
    assert(enc.subrange(6 + r, 6 + r + value.len()) =~= value);
}

/// The fields of entry `i` of a block built from entries.
#[verifier::spinoff_prover]
#[verifier::rlimit(40)]
proof fn lemma_built_entry(b: Block, es: Seq<(Seq<u8>, Seq<u8>)>, i: int)
    requires
        0 <= i < es.len(),
        es[0].0.len() > 0,
        entries_fit_format(es),
        b.data@ == built_data(es),
        b.offsets@ == built_offsets(es),
    ensures
        ({
            let data = b.data@;
            let p = b.entry_start(i);
            let ov = entry_overlap(data, p);
            &&& entry_fits(data, p)
            &&& entry_rest_key(data, p) == es[i].0.subrange(ov, es[i].0.len() as int)
            &&& entry_value(data, p) == es[i].1
            &&& (i == 0 ==> ov == 0)
            &&& (i > 0 ==> ov == common_prefix_len(es[0].0, es[i].0))
        }),
{
    let data = b.data@;
    assert(es[i].0.len() < 65536);
    assert(built_data(es.take(i)).len() < 65536);
    let start = built_data(es.take(i)).len() as int;
    let fki = builder_first_key(es.take(i));
    if i == 0 {
        assert(es.take(0) =~= Seq::<(Seq<u8>, Seq<u8>)>::empty());
    } else {
        lemma_builder_first_key(es, i);
    }
    let ov = shared_len(fki, es[i].0);
    lemma_encode_entry_fields(fki, es[i].0, es[i].1);
    lemma_built_data_entry(es, i);
    let enc = encode_entry(fki, es[i].0, es[i].1);
    let r = es[i].0.len() - ov;
    assert(b.entry_start(i) == start);
    lemma_u16_in_window(data, start, enc, 0);
    lemma_u16_in_window(data, start, enc, 2);
    lemma_u16_in_window(data, start, enc, 4 + r);
    assert(entry_rest_len(data, start) == r);
    assert(entry_rest_key(data, start) =~= enc.subrange(4, 4 + r));
    assert(entry_value_len(data, start) == es[i].1.len());
    assert(entry_value_start(data, start) == start + 6 + r);
    assert(entry_value(data, start) =~= enc.subrange(6 + r, 6 + r + es[i].1.len()));
}

/// A block built from entries reads them back: it is well formed, holds one entry per added
/// pair, and entry `i` has the `i`-th added key and value. This holds when the first key is
/// not empty and every field fits the 16-bit format.
#[verifier::spinoff_prover]
#[verifier::rlimit(40)]
pub proof fn lemma_built_block_reads_back(b: Block, es: Seq<(Seq<u8>, Seq<u8>)>)
    requires
        es.len() > 0,
        es[0].0.len() > 0,
        entries_fit_format(es),
        b.data@ == built_data(es),
        b.offsets@ == built_offsets(es),
    ensures
        b.wf(),
        b.num_entries() == es.len(),
        b.first_key() == es[0].0,
        forall|i: int| 0 <= i < es.len() ==> #[trigger] b.key_at(i) == es[i].0 && b.value_at(i) == es[i].1,
{
    let data = b.data@;
    let fk = es[0].0;
    lemma_built_entry(b, es, 0);
    assert(b.first_key() =~= fk);
    assert forall|i: int| 0 <= i < es.len() implies #[trigger] b.key_at(i) == es[i].0 && b.value_at(i) == es[i].1 by {
        lemma_built_entry(b, es, i);
        let ov = entry_overlap(data, b.entry_start(i));
        lemma_common_prefix(fk, es[i].0);
        assert(fk.subrange(0, ov) == es[i].0.subrange(0, ov));
        assert(b.key_at(i) =~= es[i].0);
    }
    assert forall|i: int| 0 <= i < b.num_entries() implies #[trigger] entry_overlap(data, b.entry_start(i)) <= b.first_key().len() by {
        lemma_built_entry(b, es, i);
        lemma_common_prefix(fk, es[i].0);
    }
    assert forall|i: int| 0 <= i < b.num_entries() implies #[trigger] entry_fits(data, b.entry_start(i)) by {
        lemma_built_entry(b, es, i);
    }
}

} // verus!
