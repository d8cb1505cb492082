//! Iterates over the entries of an SSTable, block after block.
use std::sync::Arc;
use vstd::prelude::*;

use crate::block::Block;
use crate::block_iterator::{block_stream, key_or_empty, BlockIterator};
use crate::iterators::{strictly_sorted, IteratorError, StorageIterator};
use crate::key::{key_le, key_less, key_lt, lemma_key_lt_transitive, lemma_key_trichotomy};
use crate::table::SsTable;

verus! {

/// What an iterator that enters block `c` at its first entry yields from there on: each
/// block's entries up to its first empty key, block after block, until a block yields
/// nothing.
pub open spec fn blocks_from(t: SsTable, c: int) -> Seq<(Seq<u8>, Seq<u8>)>
    decreases t.num_blocks() - c,
{
    if 0 <= c < t.num_blocks() && block_stream(t.block(c), 0).len() > 0 {
        block_stream(t.block(c), 0) + blocks_from(t, c + 1)
    } else {
        Seq::empty()
    }
}

/// What an iterator over the whole table yields.
pub open spec fn table_stream(t: SsTable) -> Seq<(Seq<u8>, Seq<u8>)> {
    blocks_from(t, 0)
}

/// Binary search over the first keys of the blocks landed at `left`: every block before it
/// starts at or below `key`, and the block at it, if any, starts above.
pub open spec fn meta_search_bounds(t: SsTable, key: Seq<u8>, left: int) -> bool {
    &&& 0 <= left <= t.block_meta@.len()
    &&& left == 0 || key_le(t.block_meta@[left - 1].first_key@, key)
    &&& left == t.block_meta@.len() || !key_le(t.block_meta@[left].first_key@, key)
}

/// Binary search inside a block landed at `idx`.
pub open spec fn block_search_bounds(b: Block, key: Seq<u8>, idx: int) -> bool {
    &&& 0 <= idx <= b.num_entries()
    &&& idx == 0 || key_lt(b.key_at(idx - 1), key)
    &&& idx == b.num_entries() || !key_lt(b.key_at(idx), key)
}

/// The entries an iterator on block `b` at entry `idx` yields.
pub open spec fn stream_at(t: SsTable, b: int, idx: int) -> Seq<(Seq<u8>, Seq<u8>)> {
    if key_or_empty(t.block(b), idx).len() > 0 {
        block_stream(t.block(b), idx) + blocks_from(t, b + 1)
    } else {
        Seq::empty()
    }
}

/// What `seek_to_key` yields: the block search lands on block `s` (the one before `left`, or
/// the first), the entry search on entry `idx`; if no entry is there it moves on to the first
/// entry of the next block, if there is one.
pub open spec fn seek_stream(t: SsTable, key: Seq<u8>, left: int, idx: int) -> Seq<(Seq<u8>, Seq<u8>)> {
    let s = if left == 0 { 0 } else { left - 1 };
    if key_or_empty(t.block(s), idx).len() > 0 || s + 1 >= t.num_blocks() {
        stream_at(t, s, idx)
    } else {
        stream_at(t, s + 1, 0)
    }
}

/// The entries from the first one whose key is not below `key` on: the entries in front
/// whose keys are below `key` are skipped.
pub open spec fn at_or_after(s: Seq<(Seq<u8>, Seq<u8>)>, key: Seq<u8>) -> Seq<(Seq<u8>, Seq<u8>)>
    decreases s.len(),
{
    if s.len() > 0 && key_lt(s[0].0, key) {
        at_or_after(s.drop_first(), key)
    } else {
        s
    }
}

/// The last key of a block.
pub open spec fn last_key_of(b: Block) -> Seq<u8> {
    b.key_at(b.num_entries() - 1)
}

/// A sorted table: it is well formed, each block is sorted with non-empty keys, the meta of
/// each block holds its first key, and every key of a block is below every key of a later
/// block.
pub open spec fn table_sorted(t: SsTable) -> bool {
    &&& t.wf()
    &&& forall|i: int|
        0 <= i < t.num_blocks() ==> {
            &&& (#[trigger] t.block(i)).sorted()
            &&& forall|j: int| 0 <= j < t.block(i).num_entries() ==> (#[trigger] t.block(i).key_at(j)).len() > 0
            &&& t.block_meta@[i].first_key@ == t.block(i).key_at(0)
        }
    &&& forall|i: int, j: int|
        #![trigger t.block(i), t.block(j)]
        0 <= i < j < t.num_blocks() ==> key_lt(last_key_of(t.block(i)), t.block(j).key_at(0))
    &&& t.first_key@ == t.block(0).key_at(0)
    &&& t.last_key@ == last_key_of(t.block(t.num_blocks() - 1))
}

/// Some entry of the stream is not below `key`, so looking for `key` finds an entry.
pub proof fn lemma_at_or_after_nonempty(s: Seq<(Seq<u8>, Seq<u8>)>, key: Seq<u8>, j: int)
    requires
        0 <= j < s.len(),
        !key_lt(s[j].0, key),
    ensures
        at_or_after(s, key).len() > 0,
    decreases s.len(),
{
    if key_lt(s[0].0, key) {
        assert(j > 0);
        assert(s.drop_first()[j - 1] == s[j]);
        lemma_at_or_after_nonempty(s.drop_first(), key, j - 1);
    }
}

/// A block whose keys are all non-empty yields its entries from `i` on, the last one last.
proof fn lemma_block_stream_last(b: Block, i: int)
    requires
        0 <= i < b.num_entries(),
        forall|j: int| 0 <= j < b.num_entries() ==> (#[trigger] b.key_at(j)).len() > 0,
    ensures
        block_stream(b, i).len() > 0,
        block_stream(b, i).last().0 == last_key_of(b),
    decreases b.num_entries() - i,
{
    assert(b.key_at(i).len() > 0);
    if i + 1 < b.num_entries() {
        lemma_block_stream_last(b, i + 1);
        assert(block_stream(b, i) == seq![(b.key_at(i), b.value_at(i))] + block_stream(b, i + 1));
    } else {
        assert(block_stream(b, i + 1) == Seq::<(Seq<u8>, Seq<u8>)>::empty());
        assert(block_stream(b, i) =~= seq![(b.key_at(i), b.value_at(i))]);
    }
}

/// Read from block `c` on, a sorted table ends with its last key.
proof fn lemma_blocks_from_last(t: SsTable, c: int)
    requires
        table_sorted(t),
        0 <= c < t.num_blocks(),
    ensures
        blocks_from(t, c).len() > 0,
        blocks_from(t, c).last().0 == t.last_key@,
    decreases t.num_blocks() - c,
{
    let b = t.block(c);
    assert(b.wf());
    lemma_block_stream_last(b, 0);
    assert(blocks_from(t, c) == block_stream(b, 0) + blocks_from(t, c + 1));
    if c + 1 < t.num_blocks() {
        lemma_blocks_from_last(t, c + 1);
    } else {
        assert(blocks_from(t, c + 1) == Seq::<(Seq<u8>, Seq<u8>)>::empty());
        assert(block_stream(b, 0) + blocks_from(t, c + 1) =~= block_stream(b, 0));
    }
}

/// In a sorted table, looking for a key not above its last key finds an entry.
pub proof fn lemma_sorted_table_reaches(t: SsTable, key: Seq<u8>)
    requires
        table_sorted(t),
        key_le(key, t.last_key@),
    ensures
        at_or_after(table_stream(t), key).len() > 0,
{
    lemma_blocks_from_last(t, 0);
    let s = table_stream(t);
    crate::key::lemma_key_trichotomy(key, t.last_key@);
    if key_lt(s[s.len() - 1].0, key) {
        crate::key::lemma_key_lt_irreflexive(key);
        lemma_key_lt_transitive(key, t.last_key@, key);
    }
    lemma_at_or_after_nonempty(s, key, s.len() - 1);
}

/// Skipping the entries `j..i` of a block whose keys are below `key`.
proof fn lemma_skip_block_entries(b: Block, j: int, i: int, rest: Seq<(Seq<u8>, Seq<u8>)>, key: Seq<u8>)
    requires
        0 <= j <= i <= b.num_entries(),
        forall|m: int| j <= m < i ==> (#[trigger] b.key_at(m)).len() > 0 && key_lt(b.key_at(m), key),
    ensures
        at_or_after(block_stream(b, j) + rest, key) == at_or_after(block_stream(b, i) + rest, key),
    decreases i - j,
{
    if j < i {
        lemma_skip_block_entries(b, j + 1, i, rest, key);
        let whole = block_stream(b, j) + rest;
        assert(block_stream(b, j) == seq![(b.key_at(j), b.value_at(j))] + block_stream(b, j + 1));
        assert(whole[0] == (b.key_at(j), b.value_at(j)));
        assert(whole.drop_first() =~= block_stream(b, j + 1) + rest);
    }
}

/// A key of a sorted table's block is below every key of a later block.
proof fn lemma_keys_below_later_block(t: SsTable, c: int, m: int, d: int)
    requires
        table_sorted(t),
        0 <= c < d < t.num_blocks(),
        0 <= m < t.block(c).num_entries(),
    ensures
        key_lt(t.block(c).key_at(m), t.block(d).key_at(0)),
{
    let b = t.block(c);
    assert(key_lt(last_key_of(b), t.block(d).key_at(0)));
    if m < b.num_entries() - 1 {
        assert(key_lt(b.key_at(m), b.key_at(b.num_entries() - 1)));
        lemma_key_lt_transitive(b.key_at(m), last_key_of(b), t.block(d).key_at(0));
    }
}

/// In a sorted table, the blocks from `c` up to `s` lie below `key` when block `s` starts at
/// or below it, so looking for `key` from block `c` is looking from block `s`.
proof fn lemma_skip_blocks(t: SsTable, c: int, s: int, key: Seq<u8>)
    requires
        table_sorted(t),
        0 <= c <= s < t.num_blocks(),
        key_le(t.block(s).key_at(0), key),
    ensures
        at_or_after(blocks_from(t, c), key) == at_or_after(blocks_from(t, s), key),
    decreases s - c,
{
    if c < s {
        let b = t.block(c);
        assert(b.wf());
        assert(b.key_at(0).len() > 0);
        assert(blocks_from(t, c) == block_stream(b, 0) + blocks_from(t, c + 1));
        assert forall|m: int| 0 <= m < b.num_entries() implies (#[trigger] b.key_at(m)).len() > 0 && key_lt(
            b.key_at(m),
            key,
        ) by {
            lemma_keys_below_later_block(t, c, m, s);
            if key_lt(t.block(s).key_at(0), key) {
                lemma_key_lt_transitive(b.key_at(m), t.block(s).key_at(0), key);
            }
        }
        lemma_skip_block_entries(b, 0, b.num_entries(), blocks_from(t, c + 1), key);
        assert(block_stream(b, b.num_entries()) + blocks_from(t, c + 1) =~= blocks_from(t, c + 1));
        lemma_skip_blocks(t, c + 1, s, key);
    }
}

/// In a sorted table, a seek lands on the first entry whose key is not below `key`: what it
/// yields is the table's entries from there on.
pub proof fn lemma_seek_in_sorted_table(t: SsTable, key: Seq<u8>, left: int, idx: int)
    requires
        table_sorted(t),
        meta_search_bounds(t, key, left),
        block_search_bounds(t.block(if left == 0 { 0 } else { left - 1 }), key, idx),
    ensures
        seek_stream(t, key, left, idx) == at_or_after(table_stream(t), key),
{
    let n = t.num_blocks();
    let s = if left == 0 { 0 } else { left - 1 };
    let b = t.block(s);
    assert(b.wf());
    assert(b.sorted());
    assert(t.block_meta@[s].first_key@ == b.key_at(0));
    lemma_key_trichotomy(b.key_at(0), key);
    if left == 0 {
        if idx > 0 {
            if idx - 1 > 0 {
                assert(key_lt(b.key_at(0), b.key_at(idx - 1)));
                lemma_key_lt_transitive(b.key_at(0), b.key_at(idx - 1), key);
            }
        }
        assert(idx == 0);
        assert(b.key_at(0).len() > 0);
        assert(blocks_from(t, 0) == block_stream(b, 0) + blocks_from(t, 1));
        assert(block_stream(b, 0)[0] == (b.key_at(0), b.value_at(0)));
        assert((block_stream(b, 0) + blocks_from(t, 1))[0] == (b.key_at(0), b.value_at(0)));
    } else {
        lemma_skip_blocks(t, 0, s, key);
        crate::block_iterator::lemma_seek_in_sorted_block(b, idx, key);
        assert(b.key_at(0).len() > 0);
        assert(blocks_from(t, s) == block_stream(b, 0) + blocks_from(t, s + 1));
        assert forall|m: int| 0 <= m < idx implies (#[trigger] b.key_at(m)).len() > 0 && key_lt(b.key_at(m), key) by {
        }
        lemma_skip_block_entries(b, 0, idx, blocks_from(t, s + 1), key);
        if idx < b.num_entries() {
            assert(b.key_at(idx).len() > 0);
            assert(block_stream(b, idx)[0] == (b.key_at(idx), b.value_at(idx)));
            assert((block_stream(b, idx) + blocks_from(t, s + 1))[0] == (b.key_at(idx), b.value_at(idx)));
        } else {
            assert(block_stream(b, idx) + blocks_from(t, s + 1) =~= blocks_from(t, s + 1));
            if s + 1 < n {
                let nb = t.block(s + 1);
                assert(nb.wf());
                assert(t.block_meta@[s + 1].first_key@ == nb.key_at(0));
                lemma_key_trichotomy(nb.key_at(0), key);
                assert(nb.key_at(0).len() > 0);
                assert(blocks_from(t, s + 1) == block_stream(nb, 0) + blocks_from(t, s + 2));
                assert(block_stream(nb, 0)[0] == (nb.key_at(0), nb.value_at(0)));
                assert((block_stream(nb, 0) + blocks_from(t, s + 2))[0] == (nb.key_at(0), nb.value_at(0)));
            }
        }
    }
}

/// Looking for `key` past entries that are all below it goes on in what follows them.
pub proof fn lemma_at_or_after_skip(a: Seq<(Seq<u8>, Seq<u8>)>, b: Seq<(Seq<u8>, Seq<u8>)>, key: Seq<u8>)
    requires
        forall|i: int| 0 <= i < a.len() ==> key_lt(#[trigger] a[i].0, key),
    ensures
        at_or_after(a + b, key) == at_or_after(b, key),
    decreases a.len(),
{
    if a.len() == 0 {
        assert(a + b =~= b);
    } else {
        assert((a + b)[0] == a[0]);
        assert((a + b).drop_first() =~= a.drop_first() + b);
        assert forall|i: int| 0 <= i < a.drop_first().len() implies key_lt(#[trigger] a.drop_first()[i].0, key) by {
            assert(a.drop_first()[i] == a[i + 1]);
        }
        lemma_at_or_after_skip(a.drop_first(), b, key);
    }
}

/// When looking for `key` finds an entry in front, what follows is kept whole.
pub proof fn lemma_at_or_after_found(a: Seq<(Seq<u8>, Seq<u8>)>, b: Seq<(Seq<u8>, Seq<u8>)>, key: Seq<u8>)
    requires
        at_or_after(a, key).len() > 0,
    ensures
        at_or_after(a + b, key) == at_or_after(a, key) + b,
    decreases a.len(),
{
    assert(a.len() > 0);
    assert((a + b)[0] == a[0]);
    if key_lt(a[0].0, key) {
        assert((a + b).drop_first() =~= a.drop_first() + b);
        lemma_at_or_after_found(a.drop_first(), b, key);
    }
}

/// A block whose keys are all non-empty yields, from `i` on, exactly its entries from `i` on.
proof fn lemma_block_stream_at(b: Block, i: int, p: int)
    requires
        0 <= i <= b.num_entries(),
        forall|j: int| 0 <= j < b.num_entries() ==> (#[trigger] b.key_at(j)).len() > 0,
        0 <= p < block_stream(b, i).len(),
    ensures
        block_stream(b, i).len() == b.num_entries() - i,
        block_stream(b, i)[p] == (b.key_at(i + p), b.value_at(i + p)),
    decreases b.num_entries() - i,
{
    assert(i < b.num_entries());
    assert(b.key_at(i).len() > 0);
    let rest = block_stream(b, i + 1);
    assert(block_stream(b, i) == seq![(b.key_at(i), b.value_at(i))] + rest);
    if i + 1 < b.num_entries() {
        assert(b.key_at(i + 1).len() > 0);
        if p > 0 {
            lemma_block_stream_at(b, i + 1, p - 1);
        } else {
            lemma_block_stream_at(b, i + 1, 0);
        }
    }
}

/// Read from block `c` on, no key of a sorted table is above its last key.
proof fn lemma_blocks_from_at_most_last(t: SsTable, c: int)
    requires
        table_sorted(t),
        0 <= c <= t.num_blocks(),
    ensures
        forall|p: int| 0 <= p < blocks_from(t, c).len() ==> key_le(#[trigger] blocks_from(t, c)[p].0, t.last_key@),
    decreases t.num_blocks() - c,
{
    if c < t.num_blocks() {
        let b = t.block(c);
        let n = t.num_blocks();
        assert(b.wf());
        assert(b.key_at(0).len() > 0);
        assert(blocks_from(t, c) == block_stream(b, 0) + blocks_from(t, c + 1));
        lemma_blocks_from_at_most_last(t, c + 1);
        let last_b = t.block(n - 1);
        assert(last_b.wf());
        assert forall|p: int| 0 <= p < blocks_from(t, c).len() implies key_le(
            #[trigger] blocks_from(t, c)[p].0,
            t.last_key@,
        ) by {
            let bs = block_stream(b, 0);
            if p < bs.len() {
                lemma_block_stream_at(b, 0, p);
                let k = b.key_at(p);
                if p < b.num_entries() - 1 {
                    assert(key_lt(k, last_key_of(b)));
                }
                if c < n - 1 {
                    lemma_keys_below_later_block(t, c, p, n - 1);
                    if last_b.num_entries() - 1 > 0 {
                        assert(key_lt(last_b.key_at(0), last_key_of(last_b)));
                        lemma_key_lt_transitive(k, last_b.key_at(0), last_key_of(last_b));
                    }
                }
            } else {
                assert(blocks_from(t, c)[p] == blocks_from(t, c + 1)[p - bs.len()]);
            }
        }
    }
}

/// A sorted table holds at least one entry, and none of its keys is above its last key.
pub proof fn lemma_sorted_table_at_most_last(t: SsTable)
    requires
        table_sorted(t),
    ensures
        table_stream(t).len() > 0,
        forall|p: int| 0 <= p < table_stream(t).len() ==> key_le(#[trigger] table_stream(t)[p].0, t.last_key@),
{
    lemma_blocks_from_at_most_last(t, 0);
    lemma_blocks_from_last(t, 0);
}

/// Every entry a sorted table yields from block `c` on is an entry of one of those blocks.
proof fn lemma_blocks_from_entry(t: SsTable, c: int, p: int) -> (em: (int, int))
    requires
        table_sorted(t),
        0 <= c <= t.num_blocks(),
        0 <= p < blocks_from(t, c).len(),
    ensures
        c <= em.0 < t.num_blocks(),
        0 <= em.1 < t.block(em.0).num_entries(),
        blocks_from(t, c)[p] == (t.block(em.0).key_at(em.1), t.block(em.0).value_at(em.1)),
    decreases t.num_blocks() - c,
{
    let b = t.block(c);
    assert(c < t.num_blocks());
    assert(b.wf());
    assert(b.key_at(0).len() > 0);
    assert(blocks_from(t, c) == block_stream(b, 0) + blocks_from(t, c + 1));
    let bs = block_stream(b, 0);
    if p < bs.len() {
        lemma_block_stream_at(b, 0, p);
        (c, p)
    } else {
        assert(blocks_from(t, c)[p] == blocks_from(t, c + 1)[p - bs.len()]);
        lemma_blocks_from_entry(t, c + 1, p - bs.len())
    }
}

/// A sorted table yields its keys in strictly increasing order from any block on.
proof fn lemma_blocks_from_sorted(t: SsTable, c: int)
    requires
        table_sorted(t),
        0 <= c <= t.num_blocks(),
    ensures
        strictly_sorted(blocks_from(t, c)),
    decreases t.num_blocks() - c,
{
    if c < t.num_blocks() {
        let b = t.block(c);
        assert(b.wf());
        assert(b.sorted());
        assert(b.key_at(0).len() > 0);
        assert(blocks_from(t, c) == block_stream(b, 0) + blocks_from(t, c + 1));
        lemma_blocks_from_sorted(t, c + 1);
        let bs = block_stream(b, 0);
        let rest = blocks_from(t, c + 1);
        let whole = blocks_from(t, c);
        assert forall|i: int, j: int| 0 <= i < j < whole.len() implies key_lt(
            #[trigger] whole[i].0,
            #[trigger] whole[j].0,
        ) by {
            if j < bs.len() {
                lemma_block_stream_at(b, 0, i);
                lemma_block_stream_at(b, 0, j);
            } else if i < bs.len() {
                lemma_block_stream_at(b, 0, i);
                assert(whole[j] == rest[j - bs.len()]);
                let em = lemma_blocks_from_entry(t, c + 1, j - bs.len());
                let later = t.block(em.0);
                lemma_keys_below_later_block(t, c, i, em.0);
                assert(later.wf());
                assert(later.sorted());
                if em.1 > 0 {
                    assert(key_lt(later.key_at(0), later.key_at(em.1)));
                    lemma_key_lt_transitive(b.key_at(i), later.key_at(0), later.key_at(em.1));
                }
            } else {
                assert(whole[i] == rest[i - bs.len()]);
                assert(whole[j] == rest[j - bs.len()]);
            }
        }
    }
}

/// A sorted table yields its keys in strictly increasing order.
pub proof fn lemma_table_stream_sorted(t: SsTable)
    requires
        table_sorted(t),
    ensures
        strictly_sorted(table_stream(t)),
{
    lemma_blocks_from_sorted(t, 0);
}

/// Looking for a key in a stream skips a front part of it, so what is found of a sorted
/// stream is sorted, and so is the rest after its first entry.
pub proof fn lemma_at_or_after_sorted(s: Seq<(Seq<u8>, Seq<u8>)>, key: Seq<u8>)
    requires
        strictly_sorted(s),
    ensures
        strictly_sorted(at_or_after(s, key)),
        at_or_after(s, key).len() > 0 ==> strictly_sorted(at_or_after(s, key).drop_first()),
    decreases s.len(),
{
    if s.len() > 0 && key_lt(s[0].0, key) {
        let d = s.drop_first();
        assert forall|i: int, j: int| 0 <= i < j < d.len() implies key_lt(#[trigger] d[i].0, #[trigger] d[j].0) by {
            assert(d[i] == s[i + 1]);
            assert(d[j] == s[j + 1]);
        }
        lemma_at_or_after_sorted(d, key);
    } else if s.len() > 0 {
        let d = s.drop_first();
        assert forall|i: int, j: int| 0 <= i < j < d.len() implies key_lt(#[trigger] d[i].0, #[trigger] d[j].0) by {
            assert(d[i] == s[i + 1]);
            assert(d[j] == s[j + 1]);
        }
    }
}

/// An iterator over the contents of an SSTable.
pub struct SsTableIterator {
    table: Arc<SsTable>,
    blk_iter: BlockIterator,
    blk_idx: usize,
}

impl SsTableIterator {
    /// The table being iterated.
    pub closed spec fn table(&self) -> SsTable {
        *self.table
    }

    /// The index of the current block.
    pub closed spec fn block_index(&self) -> int {
        self.blk_idx as int
    }

    /// The iterator over the current block.
    pub closed spec fn block_iter(&self) -> BlockIterator {
        self.blk_iter
    }

    /// Create a new iterator and seek to the first key-value pair in the first data block.
    pub fn create_and_seek_to_first(table: Arc<SsTable>) -> (r: Result<Self, IteratorError>)
        requires
            table.wf(),
        ensures
            r matches Ok(it) && it.wf() && it.table() == *table && it.stream() == table_stream(*table),
    {
        let block = table.read_block_cached(0);
        let blk_iter = BlockIterator::create_and_seek_to_first(block);
        let it = Self { table, blk_iter, blk_idx: 0 };
        proof {
            it.lemma_stream_at_start();
        }
        Ok(it)
    }

    /// An iterator at the first entry of the first block yields the whole table.
    proof fn lemma_stream_at_start(&self)
        requires
            self.wf(),
            self.block_index() == 0,
            self.block_iter().index() == 0,
        ensures
            self.stream() == table_stream(self.table()),
    {
        let t = self.table();
        assert(block_stream(t.block(0), 0).len() > 0 <==> key_or_empty(t.block(0), 0).len() > 0);
    }

    /// Seek to the first key-value pair in the first data block.
    pub fn seek_to_first(&mut self) -> (r: Result<(), IteratorError>)
        requires
            old(self).wf(),
        ensures
            r is Ok,
            final(self).wf(),
            final(self).table() == old(self).table(),
            final(self).stream() == table_stream(old(self).table()),
    {
        self.blk_idx = 0;
        let block = self.table.read_block_cached(self.blk_idx);
        self.blk_iter = BlockIterator::create_and_seek_to_first(block);
        proof {
            self.lemma_stream_at_start();
        }
        Ok(())
    }

    /// Create a new iterator and seek to the first key-value pair which >= `key`.
    pub fn create_and_seek_to_key(table: Arc<SsTable>, key: &[u8]) -> (r: Result<Self, IteratorError>)
        requires
            table.wf(),
        ensures
            r matches Ok(it) && it.wf() && it.table() == *table && exists|left: int, idx: int|
                meta_search_bounds(*table, key@, left) && block_search_bounds(
                    table.block(if left == 0 { 0 } else { left - 1 }),
                    key@,
                    idx,
                ) && it.stream() == seek_stream(*table, key@, left, idx),
            r matches Ok(it) ==> (table_sorted(*table) ==> it.stream() == at_or_after(table_stream(*table), key@)),
    {
        let first = table.read_block_cached(0);
        let mut iter = Self { table: table.clone(), blk_iter: BlockIterator::create_and_seek_to_first(first), blk_idx: 0 };
        let _ = iter.seek_to_key(key);
        Ok(iter)
    }

    /// Seek to the first key-value pair which >= `key`: binary search over the first keys of
    /// the blocks, then inside the block found; when that block has nothing at or after `key`,
    /// go on to the first entry of the next block.
    pub fn seek_to_key(&mut self, key: &[u8]) -> (r: Result<(), IteratorError>)
        requires
            old(self).wf(),
        ensures
            r is Ok,
            final(self).wf(),
            final(self).table() == old(self).table(),
            exists|left: int, idx: int|
                meta_search_bounds(old(self).table(), key@, left) && block_search_bounds(
                    old(self).table().block(if left == 0 { 0 } else { left - 1 }),
                    key@,
                    idx,
                ) && final(self).stream() == seek_stream(old(self).table(), key@, left, idx),
            table_sorted(old(self).table()) ==> final(self).stream() == at_or_after(table_stream(old(self).table()), key@),
    {
        let ghost t = self.table();
        let n = self.table.block_meta.len();
        let mut left: usize = 0;
        let mut right: usize = n;
        while left < right
            invariant
                t == self.table(),
                t.wf(),
                n == t.block_meta@.len(),
                left <= right <= n,
                left == 0 || key_le(t.block_meta@[left - 1].first_key@, key@),
                right == n || !key_le(t.block_meta@[right as int].first_key@, key@),
            decreases right - left,
        {
            let mid = left + (right - left) / 2;
            let mid_first_key = self.table.block_meta[mid].first_key.as_slice();
            proof {
                lemma_key_trichotomy(mid_first_key@, key@);
            }
            if !key_less(key, mid_first_key) {
                left = mid + 1;
            } else {
                right = mid;
            }
        }
        self.blk_idx = if left == 0 { 0 } else { left - 1 };
        let block = self.table.read_block_cached(self.blk_idx);
        self.blk_iter = BlockIterator::create_and_seek_to_key(block, key);
        let ghost s = self.blk_idx as int;
        let ghost idx = self.blk_iter.index();
        proof {
            assert(block_search_bounds(t.block(s), key@, idx));
            assert(meta_search_bounds(t, key@, left as int));
        }
        if !self.blk_iter.is_valid() && self.blk_idx < self.table.num_of_blocks() - 1 {
            self.blk_idx = self.blk_idx + 1;
            let next_block = self.table.read_block_cached(self.blk_idx);
            self.blk_iter = BlockIterator::create_and_seek_to_first(next_block);
        }
        proof {
            assert(self.stream() == seek_stream(t, key@, left as int, idx));
            if table_sorted(t) {
                lemma_seek_in_sorted_table(t, key@, left as int, idx);
            }
        }
        Ok(())
    }
}

impl StorageIterator for SsTableIterator {
    closed spec fn wf(&self) -> bool {
        &&& self.table.wf()
        &&& self.blk_idx < self.table.num_blocks()
        &&& self.blk_iter.wf()
        &&& self.blk_iter.block() == self.table.block(self.blk_idx as int)
    }

    open spec fn stream(&self) -> Seq<(Seq<u8>, Seq<u8>)> {
        stream_at(self.table(), self.block_index(), self.block_iter().index())
    }

    open spec fn active(&self) -> nat {
        1
    }

    /// Reading a table in memory never fails.
    open spec fn infallible(&self) -> bool {
        true
    }

    open spec fn may_fail_with(&self, e: IteratorError) -> bool {
        false
    }

    /// Return the `key` that's held by the underlying block iterator.
    fn key(&self) -> (k: &[u8]) {
        self.blk_iter.key()
    }

    /// Return the `value` that's held by the underlying block iterator.
    fn value(&self) -> (v: &[u8]) {
        self.blk_iter.value()
    }

    /// Return whether the current block iterator is valid or not.
    fn is_valid(&self) -> (r: bool) {
        self.blk_iter.is_valid()
    }

    /// Move to the next `key` in the block; past the end of a block, to the first key of the
    /// next one.
    fn next(&mut self) -> (r: Result<(), IteratorError>)
        ensures
            r is Ok,
    {
        let ghost t = self.table();
        let ghost b = self.blk_idx as int;
        let ghost i = self.blk_iter.index();
        self.blk_iter.next();
        if !self.blk_iter.is_valid() && self.blk_idx < self.table.num_of_blocks() - 1 {
            self.blk_idx = self.blk_idx + 1;
            let next_block = self.table.read_block_cached(self.blk_idx);
            self.blk_iter = BlockIterator::create_and_seek_to_first(next_block);
        }
        proof {
            if stream_at(t, b, i).len() > 0 {
                assert(key_or_empty(t.block(b), i).len() > 0);
                let blk = t.block(b);
                assert(block_stream(blk, i) == seq![(blk.key_at(i), blk.value_at(i))] + block_stream(blk, i + 1));
                assert(stream_at(t, b, i).drop_first() =~= block_stream(blk, i + 1) + blocks_from(t, b + 1));
            }
        }
        Ok(())
    }

    fn num_active_iterators(&self) -> (n: usize) {
        1
    }
}

} // verus!
