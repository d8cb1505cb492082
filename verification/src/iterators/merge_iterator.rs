//! Merges iterators of the same type into one sorted stream; on equal keys the iterator with
//! the smaller index wins and the others skip that key.
use vstd::prelude::*;

use crate::iterators::{first_value, strictly_sorted, value_of, IteratorError, StorageIterator};
use crate::key::{
    compare_keys, key_le, key_lt, lemma_key_le_transitive, lemma_key_lt_le, lemma_key_trichotomy, KeyOrder,
};

verus! {

/// The total number of entries of the streams.
pub open spec fn total_len(ss: Seq<Seq<(Seq<u8>, Seq<u8>)>>) -> nat
    decreases ss.len(),
{
    if ss.len() == 0 {
        0
    } else {
        total_len(ss.drop_last()) + ss.last().len()
    }
}

/// Among the first `n` streams, the one whose head has the smallest key, the smallest index
/// among equal keys; `None` if all of them are empty.
pub open spec fn head_min(ss: Seq<Seq<(Seq<u8>, Seq<u8>)>>, n: int) -> Option<int>
    decreases n,
{
    if n <= 0 {
        None
    } else {
        let best = head_min(ss, n - 1);
        if ss[n - 1].len() == 0 {
            best
        } else {
            match best {
                None => Some(n - 1),
                Some(j) => if key_lt(ss[n - 1][0].0, ss[j][0].0) {
                    Some(n - 1)
                } else {
                    Some(j)
                },
            }
        }
    }
}

/// The streams after dropping, while the smallest head has key `k`, that head.
pub open spec fn drop_key(ss: Seq<Seq<(Seq<u8>, Seq<u8>)>>, k: Seq<u8>) -> Seq<Seq<(Seq<u8>, Seq<u8>)>>
    decreases total_len(ss),
{
    match head_min(ss, ss.len() as int) {
        Some(m) => if 0 <= m < ss.len() && ss[m].len() > 0 && ss[m][0].0 == k {
            proof {
                lemma_total_len_update(ss, m, ss[m].drop_first());
            }
            drop_key(ss.update(m, ss[m].drop_first()), k)
        } else {
            ss
        },
        None => ss,
    }
}

/// The merged stream: the smallest head, then the merge of the rest once every other stream
/// has skipped past that key.
pub open spec fn merge(ss: Seq<Seq<(Seq<u8>, Seq<u8>)>>) -> Seq<(Seq<u8>, Seq<u8>)>
    decreases total_len(ss),
{
    match head_min(ss, ss.len() as int) {
        Some(m) => if 0 <= m < ss.len() && ss[m].len() > 0 {
            let e = ss[m][0];
            let rest = ss.update(m, ss[m].drop_first());
            proof {
                lemma_total_len_update(ss, m, ss[m].drop_first());
                lemma_drop_key_len(rest, e.0);
            }
            seq![e] + merge(drop_key(rest, e.0))
        } else {
            Seq::empty()
        },
        None => Seq::empty(),
    }
}

/// Replacing one stream changes the total number of entries by the difference in its length.
pub proof fn lemma_total_len_update(ss: Seq<Seq<(Seq<u8>, Seq<u8>)>>, m: int, s: Seq<(Seq<u8>, Seq<u8>)>)
    requires
        0 <= m < ss.len(),
    ensures
        total_len(ss.update(m, s)) + ss[m].len() == total_len(ss) + s.len(),
    decreases ss.len(),
{
    if m < ss.len() - 1 {
        lemma_total_len_update(ss.drop_last(), m, s);
        assert(ss.update(m, s).drop_last() =~= ss.drop_last().update(m, s));
    } else {
        assert(ss.update(m, s).drop_last() =~= ss.drop_last());
    }
}

/// Dropping heads keeps the number of streams and never adds entries.
pub proof fn lemma_drop_key_len(ss: Seq<Seq<(Seq<u8>, Seq<u8>)>>, k: Seq<u8>)
    ensures
        total_len(drop_key(ss, k)) <= total_len(ss),
        drop_key(ss, k).len() == ss.len(),
    decreases total_len(ss),
{
    match head_min(ss, ss.len() as int) {
        Some(m) => if 0 <= m < ss.len() && ss[m].len() > 0 && ss[m][0].0 == k {
            lemma_total_len_update(ss, m, ss[m].drop_first());
            lemma_drop_key_len(ss.update(m, ss[m].drop_first()), k);
        },
        None => {},
    }
}

pub proof fn lemma_head_min(ss: Seq<Seq<(Seq<u8>, Seq<u8>)>>, n: int)
    requires
        n <= ss.len(),
    ensures
        head_min(ss, n) matches Some(m) ==> 0 <= m < n && ss[m].len() > 0,
        head_min(ss, n) is None ==> forall|i: int| 0 <= i < n ==> #[trigger] ss[i].len() == 0,
    decreases n,
{
    if n > 0 {
        lemma_head_min(ss, n - 1);
    }
}

/// When every stream holds an entry and all heads have the same key, the first stream's head
/// is the smallest one.
proof fn lemma_head_min_equal_heads(ss: Seq<Seq<(Seq<u8>, Seq<u8>)>>, key: Seq<u8>, n: int)
    requires
        1 <= n <= ss.len(),
        forall|i: int| 0 <= i < ss.len() ==> (#[trigger] ss[i]).len() > 0 && ss[i][0].0 == key,
    ensures
        head_min(ss, n) == Some(0int),
    decreases n,
{
    if n > 1 {
        lemma_head_min_equal_heads(ss, key, n - 1);
        assert(ss[n - 1].len() > 0 && ss[n - 1][0].0 == key);
        assert(ss[0].len() > 0 && ss[0][0].0 == key);
        crate::key::lemma_key_lt_irreflexive(key);
        assert(!key_lt(ss[n - 1][0].0, ss[0][0].0));
    } else {
        assert(head_min(ss, 0) is None);
        assert(ss[0].len() > 0);
    }
}

/// When every stream holds an entry and all heads have the same key, the merge starts with
/// the head of the first stream.
pub proof fn lemma_merge_equal_heads(ss: Seq<Seq<(Seq<u8>, Seq<u8>)>>, key: Seq<u8>)
    requires
        ss.len() > 0,
        forall|i: int| 0 <= i < ss.len() ==> (#[trigger] ss[i]).len() > 0 && ss[i][0].0 == key,
    ensures
        merge(ss).len() > 0,
        merge(ss)[0] == ss[0][0],
{
    lemma_head_min_equal_heads(ss, key, ss.len() as int);
    assert(ss[0].len() > 0);
}

/// Every stream's keys are strictly increasing.
pub open spec fn all_strictly_sorted(ss: Seq<Seq<(Seq<u8>, Seq<u8>)>>) -> bool {
    forall|i: int| 0 <= i < ss.len() ==> strictly_sorted(#[trigger] ss[i])
}

/// Every key of every stream is at least `k`.
pub open spec fn keys_at_least(ss: Seq<Seq<(Seq<u8>, Seq<u8>)>>, k: Seq<u8>) -> bool {
    forall|i: int, j: int| #![trigger ss[i][j]] 0 <= i < ss.len() && 0 <= j < ss[i].len() ==> key_le(k, ss[i][j].0)
}

/// Every key of every stream is above `k`.
pub open spec fn keys_above(ss: Seq<Seq<(Seq<u8>, Seq<u8>)>>, k: Seq<u8>) -> bool {
    forall|i: int, j: int| #![trigger ss[i][j]] 0 <= i < ss.len() && 0 <= j < ss[i].len() ==> key_lt(k, ss[i][j].0)
}

/// The head `head_min` picks is at most every other head.
proof fn lemma_head_min_minimal(ss: Seq<Seq<(Seq<u8>, Seq<u8>)>>, n: int)
    requires
        n <= ss.len(),
    ensures
        head_min(ss, n) matches Some(m) ==> forall|i: int|
            0 <= i < n && ss[i].len() > 0 ==> key_le(ss[m][0].0, #[trigger] ss[i][0].0),
    decreases n,
{
    if n > 0 {
        lemma_head_min_minimal(ss, n - 1);
        lemma_head_min(ss, n - 1);
        let best = head_min(ss, n - 1);
        if ss[n - 1].len() > 0 {
            match best {
                None => {},
                Some(j) => {
                    let hn = ss[n - 1][0].0;
                    let hj = ss[j][0].0;
                    if key_lt(hn, hj) {
                        assert forall|i: int| 0 <= i < n && ss[i].len() > 0 implies key_le(
                            hn,
                            #[trigger] ss[i][0].0,
                        ) by {
                            if i < n - 1 {
                                lemma_key_lt_le(hn, hj, ss[i][0].0);
                            }
                        }
                    } else {
                        lemma_key_trichotomy(hn, hj);
                    }
                },
            }
        }
    }
}

/// In a strictly sorted stream every key is at least the head.
proof fn lemma_sorted_head_least(s: Seq<(Seq<u8>, Seq<u8>)>, j: int)
    requires
        strictly_sorted(s),
        0 <= j < s.len(),
    ensures
        key_le(s[0].0, s[j].0),
{
    if j > 0 {
        assert(key_lt(s[0].0, s[j].0));
    }
}

/// Dropping the heads with key `k` from sorted streams whose keys are all at least `k`
/// leaves sorted streams whose keys are all above `k`.
proof fn lemma_drop_key_above(ss: Seq<Seq<(Seq<u8>, Seq<u8>)>>, k: Seq<u8>)
    requires
        all_strictly_sorted(ss),
        keys_at_least(ss, k),
    ensures
        all_strictly_sorted(drop_key(ss, k)),
        keys_above(drop_key(ss, k), k),
        drop_key(ss, k).len() == ss.len(),
    decreases total_len(ss),
{
    lemma_head_min(ss, ss.len() as int);
    lemma_head_min_minimal(ss, ss.len() as int);
    match head_min(ss, ss.len() as int) {
        Some(m) => {
            if ss[m][0].0 == k {
                let next = ss.update(m, ss[m].drop_first());
                lemma_total_len_update(ss, m, ss[m].drop_first());
                assert forall|i: int| 0 <= i < next.len() implies strictly_sorted(#[trigger] next[i]) by {
                    if i == m {
                        assert forall|a: int, b: int| 0 <= a < b < next[i].len() implies key_lt(
                            #[trigger] next[i][a].0,
                            #[trigger] next[i][b].0,
                        ) by {
                            assert(next[i][a] == ss[m][a + 1]);
                            assert(next[i][b] == ss[m][b + 1]);
                        }
                    } else {
                        assert(next[i] == ss[i]);
                    }
                }
                assert forall|i: int, j: int| 0 <= i < next.len() && 0 <= j < next[i].len() implies key_le(
                    k,
                    #[trigger] next[i][j].0,
                ) by {
                    if i == m {
                        assert(next[i][j] == ss[m][j + 1]);
                    } else {
                        assert(next[i] == ss[i]);
                    }
                }
                lemma_drop_key_above(next, k);
            } else {
                assert forall|i: int, j: int| 0 <= i < ss.len() && 0 <= j < ss[i].len() implies key_lt(
                    k,
                    #[trigger] ss[i][j].0,
                ) by {
                    let hm = ss[m][0].0;
                    assert(key_le(k, hm));
                    assert(key_lt(k, hm));
                    assert(ss[i].len() > 0);
                    assert(key_le(hm, ss[i][0].0));
                    lemma_sorted_head_least(ss[i], j);
                    lemma_key_lt_le(k, hm, ss[i][0].0);
                    lemma_key_lt_le(k, ss[i][0].0, ss[i][j].0);
                }
            }
        },
        None => {},
    }
}

/// Every key the merge of streams yields is a key of one of them; so when all keys are above
/// `k`, so are those of the merge.
proof fn lemma_merge_above(ss: Seq<Seq<(Seq<u8>, Seq<u8>)>>, k: Seq<u8>)
    requires
        keys_above(ss, k),
    ensures
        forall|p: int| 0 <= p < merge(ss).len() ==> key_lt(k, #[trigger] merge(ss)[p].0),
    decreases total_len(ss),
{
    lemma_head_min(ss, ss.len() as int);
    match head_min(ss, ss.len() as int) {
        Some(m) => {
            let e = ss[m][0];
            let rest = ss.update(m, ss[m].drop_first());
            lemma_total_len_update(ss, m, ss[m].drop_first());
            lemma_drop_key_len(rest, e.0);
            assert forall|i: int, j: int| 0 <= i < rest.len() && 0 <= j < rest[i].len() implies key_lt(
                k,
                #[trigger] rest[i][j].0,
            ) by {
                if i == m {
                    assert(rest[i][j] == ss[m][j + 1]);
                } else {
                    assert(rest[i] == ss[i]);
                }
            }
            lemma_drop_key_subset(rest, e.0, k);
            lemma_merge_above(drop_key(rest, e.0), k);
            let tail = merge(drop_key(rest, e.0));
            assert forall|p: int| 0 <= p < merge(ss).len() implies key_lt(k, #[trigger] merge(ss)[p].0) by {
                if p > 0 {
                    assert(merge(ss)[p] == tail[p - 1]);
                }
            }
        },
        None => {},
    }
}

/// Dropping heads keeps every remaining key a key that was there.
proof fn lemma_drop_key_subset(ss: Seq<Seq<(Seq<u8>, Seq<u8>)>>, k: Seq<u8>, bound: Seq<u8>)
    requires
        keys_above(ss, bound),
    ensures
        keys_above(drop_key(ss, k), bound),
    decreases total_len(ss),
{
    lemma_head_min(ss, ss.len() as int);
    match head_min(ss, ss.len() as int) {
        Some(m) => {
            if ss[m][0].0 == k {
                let next = ss.update(m, ss[m].drop_first());
                lemma_total_len_update(ss, m, ss[m].drop_first());
                assert forall|i: int, j: int| 0 <= i < next.len() && 0 <= j < next[i].len() implies key_lt(
                    bound,
                    #[trigger] next[i][j].0,
                ) by {
                    if i == m {
                        assert(next[i][j] == ss[m][j + 1]);
                    } else {
                        assert(next[i] == ss[i]);
                    }
                }
                lemma_drop_key_subset(next, k, bound);
            }
        },
        None => {},
    }
}

/// Merging streams whose keys are strictly increasing gives a stream whose keys are strictly
/// increasing: each key comes out once, however many streams hold it.
pub proof fn lemma_merge_sorted(ss: Seq<Seq<(Seq<u8>, Seq<u8>)>>)
    requires
        all_strictly_sorted(ss),
    ensures
        strictly_sorted(merge(ss)),
    decreases total_len(ss),
{
    lemma_head_min(ss, ss.len() as int);
    lemma_head_min_minimal(ss, ss.len() as int);
    match head_min(ss, ss.len() as int) {
        Some(m) => {
            let e = ss[m][0];
            let rest = ss.update(m, ss[m].drop_first());
            lemma_total_len_update(ss, m, ss[m].drop_first());
            assert forall|i: int| 0 <= i < rest.len() implies strictly_sorted(#[trigger] rest[i]) by {
                if i == m {
                    assert forall|a: int, b: int| 0 <= a < b < rest[i].len() implies key_lt(
                        #[trigger] rest[i][a].0,
                        #[trigger] rest[i][b].0,
                    ) by {
                        assert(rest[i][a] == ss[m][a + 1]);
                        assert(rest[i][b] == ss[m][b + 1]);
                    }
                } else {
                    assert(rest[i] == ss[i]);
                }
            }
            assert forall|i: int, j: int| 0 <= i < rest.len() && 0 <= j < rest[i].len() implies key_le(
                e.0,
                #[trigger] rest[i][j].0,
            ) by {
                if i == m {
                    assert(rest[i][j] == ss[m][j + 1]);
                    assert(key_lt(ss[m][0].0, ss[m][j + 1].0));
                } else {
                    assert(rest[i] == ss[i]);
                    assert(ss[i].len() > 0);
                    assert(key_le(e.0, ss[i][0].0));
                    lemma_sorted_head_least(ss[i], j);
                    lemma_key_le_transitive(e.0, ss[i][0].0, ss[i][j].0);
                }
            }
            lemma_drop_key_above(rest, e.0);
            lemma_drop_key_len(rest, e.0);
            let dropped = drop_key(rest, e.0);
            lemma_merge_sorted(dropped);
            lemma_merge_above(dropped, e.0);
            let tail = merge(dropped);
            let whole = merge(ss);
            assert(whole == seq![e] + tail);
            assert forall|a: int, b: int| 0 <= a < b < whole.len() implies key_lt(
                #[trigger] whole[a].0,
                #[trigger] whole[b].0,
            ) by {
                assert(whole[b] == tail[b - 1]);
                if a == 0 {
                    assert(whole[0] == e);
                } else {
                    assert(whole[a] == tail[a - 1]);
                }
            }
        },
        None => {},
    }
}

/// A stream holds nothing for a key that none of its entries has.
pub proof fn lemma_value_of_absent(s: Seq<(Seq<u8>, Seq<u8>)>, k: Seq<u8>)
    requires
        forall|j: int| 0 <= j < s.len() ==> (#[trigger] s[j]).0 != k,
    ensures
        value_of(s, k) is None,
    decreases s.len(),
{
    if s.len() > 0 {
        assert(s[0].0 != k);
        assert forall|j: int| 0 <= j < s.drop_first().len() implies (#[trigger] s.drop_first()[j]).0 != k by {
            assert(s.drop_first()[j] == s[j + 1]);
        }
        lemma_value_of_absent(s.drop_first(), k);
    }
}

/// A sorted stream whose head is above `k` holds nothing for `k`.
pub proof fn lemma_value_of_below_head(s: Seq<(Seq<u8>, Seq<u8>)>, k: Seq<u8>)
    requires
        strictly_sorted(s),
        s.len() > 0,
        key_lt(k, s[0].0),
    ensures
        value_of(s, k) is None,
{
    assert forall|j: int| 0 <= j < s.len() implies (#[trigger] s[j]).0 != k by {
        lemma_sorted_head_least(s, j);
        lemma_key_lt_le(k, s[0].0, s[j].0);
        crate::key::lemma_key_lt_irreflexive(k);
    }
    lemma_value_of_absent(s, k);
}

/// Streams that hold the same for `k`, one by one, have the same first value for it.
proof fn lemma_first_value_congruent(ss1: Seq<Seq<(Seq<u8>, Seq<u8>)>>, ss2: Seq<Seq<(Seq<u8>, Seq<u8>)>>, k: Seq<u8>)
    requires
        ss1.len() == ss2.len(),
        forall|i: int| 0 <= i < ss1.len() ==> value_of(#[trigger] ss1[i], k) == value_of(ss2[i], k),
    ensures
        first_value(ss1, k) == first_value(ss2, k),
    decreases ss1.len(),
{
    if ss1.len() > 0 {
        assert forall|i: int| 0 <= i < ss1.drop_last().len() implies value_of(#[trigger] ss1.drop_last()[i], k)
            == value_of(ss2.drop_last()[i], k) by {
            assert(ss1.drop_last()[i] == ss1[i] && ss2.drop_last()[i] == ss2[i]);
        }
        lemma_first_value_congruent(ss1.drop_last(), ss2.drop_last(), k);
        assert(value_of(ss1.last(), k) == value_of(ss2.last(), k)) by {
            assert(ss1.last() == ss1[ss1.len() - 1]);
            assert(ss2.last() == ss2[ss2.len() - 1]);
        }
    }
}

/// Streams that hold nothing for `k` have no first value for it.
proof fn lemma_first_value_none(ss: Seq<Seq<(Seq<u8>, Seq<u8>)>>, k: Seq<u8>)
    requires
        forall|i: int| 0 <= i < ss.len() ==> value_of(#[trigger] ss[i], k) is None,
    ensures
        first_value(ss, k) is None,
    decreases ss.len(),
{
    if ss.len() > 0 {
        assert forall|i: int| 0 <= i < ss.drop_last().len() implies value_of(#[trigger] ss.drop_last()[i], k) is None by {
            assert(ss.drop_last()[i] == ss[i]);
        }
        lemma_first_value_none(ss.drop_last(), k);
        assert(ss.last() == ss[ss.len() - 1]);
    }
}

/// When stream `m` is the first to hold `k`, its value is the first value.
proof fn lemma_first_value_at(ss: Seq<Seq<(Seq<u8>, Seq<u8>)>>, k: Seq<u8>, m: int)
    requires
        0 <= m < ss.len(),
        value_of(ss[m], k) is Some,
        forall|i: int| 0 <= i < m ==> value_of(#[trigger] ss[i], k) is None,
    ensures
        first_value(ss, k) == value_of(ss[m], k),
    decreases ss.len(),
{
    let init = ss.drop_last();
    if m == ss.len() - 1 {
        assert forall|i: int| 0 <= i < init.len() implies value_of(#[trigger] init[i], k) is None by {
            assert(init[i] == ss[i]);
        }
        lemma_first_value_none(init, k);
        assert(ss.last() == ss[m]);
    } else {
        assert forall|i: int| 0 <= i < m implies value_of(#[trigger] init[i], k) is None by {
            assert(init[i] == ss[i]);
        }
        assert(init[m] == ss[m]);
        lemma_first_value_at(init, k, m);
    }
}

/// The head `head_min` picks is below the head of every non-empty stream before it.
proof fn lemma_head_min_first(ss: Seq<Seq<(Seq<u8>, Seq<u8>)>>, n: int)
    requires
        n <= ss.len(),
    ensures
        head_min(ss, n) matches Some(m) ==> forall|i: int|
            0 <= i < m && ss[i].len() > 0 ==> key_lt(ss[m][0].0, #[trigger] ss[i][0].0),
    decreases n,
{
    if n > 0 {
        lemma_head_min_first(ss, n - 1);
        lemma_head_min(ss, n - 1);
        lemma_head_min_minimal(ss, n - 1);
        let best = head_min(ss, n - 1);
        if ss[n - 1].len() > 0 {
            match best {
                None => {},
                Some(j) => {
                    let hn = ss[n - 1][0].0;
                    let hj = ss[j][0].0;
                    if key_lt(hn, hj) {
                        assert forall|i: int| 0 <= i < n - 1 && ss[i].len() > 0 implies key_lt(
                            hn,
                            #[trigger] ss[i][0].0,
                        ) by {
                            lemma_key_lt_le(hn, hj, ss[i][0].0);
                        }
                    }
                },
            }
        }
    }
}

/// Dropping heads with key `key` keeps what every stream holds for another key.
proof fn lemma_drop_key_values(ss: Seq<Seq<(Seq<u8>, Seq<u8>)>>, key: Seq<u8>, k: Seq<u8>)
    requires
        k != key,
    ensures
        drop_key(ss, key).len() == ss.len(),
        forall|i: int| 0 <= i < ss.len() ==> value_of(#[trigger] drop_key(ss, key)[i], k) == value_of(ss[i], k),
    decreases total_len(ss),
{
    lemma_head_min(ss, ss.len() as int);
    lemma_drop_key_len(ss, key);
    match head_min(ss, ss.len() as int) {
        Some(m) => {
            if ss[m][0].0 == key {
                let next = ss.update(m, ss[m].drop_first());
                lemma_total_len_update(ss, m, ss[m].drop_first());
                lemma_drop_key_values(next, key, k);
                assert forall|i: int| 0 <= i < ss.len() implies value_of(#[trigger] drop_key(ss, key)[i], k)
                    == value_of(ss[i], k) by {
                    assert(drop_key(ss, key) == drop_key(next, key));
                    if i != m {
                        assert(next[i] == ss[i]);
                    }
                }
            }
        },
        None => {},
    }
}

/// The merge of sorted streams holds for each key the value of the first stream that holds
/// it: on equal keys the stream with the smaller index wins.
pub proof fn lemma_merge_value(ss: Seq<Seq<(Seq<u8>, Seq<u8>)>>, k: Seq<u8>)
    requires
        all_strictly_sorted(ss),
    ensures
        value_of(merge(ss), k) == first_value(ss, k),
    decreases total_len(ss),
{
    lemma_head_min(ss, ss.len() as int);
    lemma_head_min_minimal(ss, ss.len() as int);
    lemma_head_min_first(ss, ss.len() as int);
    match head_min(ss, ss.len() as int) {
        Some(m) => {
            let e = ss[m][0];
            let rest = ss.update(m, ss[m].drop_first());
            lemma_total_len_update(ss, m, ss[m].drop_first());
            lemma_drop_key_len(rest, e.0);
            let dropped = drop_key(rest, e.0);
            let whole = merge(ss);
            assert(whole == seq![e] + merge(dropped));
            assert(whole[0] == e);
            assert(whole.drop_first() =~= merge(dropped));
            if e.0 == k {
                assert forall|i: int| 0 <= i < m implies value_of(#[trigger] ss[i], k) is None by {
                    if ss[i].len() > 0 {
                        lemma_value_of_below_head(ss[i], k);
                    }
                }
                lemma_first_value_at(ss, k, m);
            } else {
                assert forall|i: int| 0 <= i < rest.len() implies strictly_sorted(#[trigger] rest[i]) by {
                    if i == m {
                        assert forall|a: int, b: int| 0 <= a < b < rest[i].len() implies key_lt(
                            #[trigger] rest[i][a].0,
                            #[trigger] rest[i][b].0,
                        ) by {
                            assert(rest[i][a] == ss[m][a + 1]);
                            assert(rest[i][b] == ss[m][b + 1]);
                        }
                    } else {
                        assert(rest[i] == ss[i]);
                    }
                }
                assert forall|i: int, j: int| 0 <= i < rest.len() && 0 <= j < rest[i].len() implies key_le(
                    e.0,
                    #[trigger] rest[i][j].0,
                ) by {
                    if i == m {
                        assert(rest[i][j] == ss[m][j + 1]);
                        assert(key_lt(ss[m][0].0, ss[m][j + 1].0));
                    } else {
                        assert(rest[i] == ss[i]);
                        assert(ss[i].len() > 0);
                        assert(key_le(e.0, ss[i][0].0));
                        lemma_sorted_head_least(ss[i], j);
                        lemma_key_le_transitive(e.0, ss[i][0].0, ss[i][j].0);
                    }
                }
                lemma_drop_key_above(rest, e.0);
                lemma_merge_value(dropped, k);
                lemma_drop_key_values(rest, e.0, k);
                assert forall|i: int| 0 <= i < ss.len() implies value_of(#[trigger] dropped[i], k) == value_of(
                    ss[i],
                    k,
                ) by {
                    if i == m {
                        assert(rest[i] == ss[m].drop_first());
                    } else {
                        assert(rest[i] == ss[i]);
                    }
                }
                lemma_first_value_congruent(dropped, ss, k);
            }
        },
        None => {
            assert forall|i: int| 0 <= i < ss.len() implies value_of(#[trigger] ss[i], k) is None by {
                assert(ss[i].len() == 0);
            }
            lemma_first_value_none(ss, k);
        },
    }
}

/// The sum of the active counts of the valid iterators among the first `n`.
pub open spec fn active_sum<I: StorageIterator>(iters: Seq<Box<I>>, n: int) -> nat
    decreases n,
{
    if n <= 0 {
        0
    } else {
        active_sum(iters, n - 1) + if iters[n - 1].stream().len() > 0 {
            iters[n - 1].active()
        } else {
            0
        }
    }
}

/// Merge multiple iterators of the same type. If the same key occurs multiple times in some
/// iterators, prefer the one with smaller index. The iterators are kept in their order, except
/// that one whose move fails is dropped; the current one is the one with the smallest key.
pub struct MergeIterator<I: StorageIterator> {
    iters: Vec<Box<I>>,
    current: Option<usize>,
}

impl<I: StorageIterator> MergeIterator<I> {
    /// The iterators being merged.
    pub closed spec fn iters(&self) -> Seq<Box<I>> {
        self.iters@
    }

    /// The index of the current iterator, if any.
    pub closed spec fn current_index(&self) -> Option<usize> {
        self.current
    }

    /// What each iterator still yields.
    pub open spec fn streams(&self) -> Seq<Seq<(Seq<u8>, Seq<u8>)>> {
        Seq::new(self.iters().len(), |i: int| self.iters()[i].stream())
    }

    /// The index of the iterator with the smallest key.
    fn find_min(&self) -> (r: Option<usize>)
        requires
            forall|i: int| 0 <= i < self.iters@.len() ==> (#[trigger] self.iters@[i]).wf(),
        ensures
            r matches Some(t) ==> head_min(self.streams(), self.iters@.len() as int) == Some(t as int),
            r is None ==> head_min(self.streams(), self.iters@.len() as int) is None,
    {
        let ghost ss = self.streams();
        let mut best: Option<usize> = None;
        let mut i: usize = 0;
        while i < self.iters.len()
            invariant
                i <= self.iters@.len(),
                ss == self.streams(),
                forall|k: int| 0 <= k < self.iters@.len() ==> (#[trigger] self.iters@[k]).wf(),
                head_min(ss, i as int) == match best {
                    Some(b) => Some(b as int),
                    None => None::<int>,
                },
                best matches Some(b) ==> b < i,
            decreases self.iters@.len() - i,
        {
            proof {
                assert(ss[i as int] == self.iters@[i as int].stream());
                lemma_head_min(ss, i as int);
            }
            if self.iters[i].is_valid() {
                match best {
                    None => {
                        best = Some(i);
                    },
                    Some(b) => {
                        proof {
                            assert(ss[b as int] == self.iters@[b as int].stream());
                        }
                        if compare_keys(self.iters[i].key(), self.iters[b].key()) == KeyOrder::Less {
                            best = Some(i);
                        }
                    },
                }
            }
            i = i + 1;
        }
        best
    }

    /// Drops the iterator at `i`, which failed, and leaves no current one.
    fn drop_failed(&mut self, i: usize)
        requires
            i < old(self).iters@.len(),
            forall|k: int| 0 <= k < old(self).iters@.len() && k != i ==> (#[trigger] old(self).iters@[k]).wf(),
        ensures
            final(self).iters@ == old(self).iters@.remove(i as int),
            final(self).current is None,
            final(self).wf(),
    {
        let _failed = self.iters.remove(i);
        self.current = None;
        proof {
            assert forall|k: int| 0 <= k < self.iters@.len() implies (#[trigger] self.iters@[k]).wf() by {
                if k < i {
                    assert(self.iters@[k] == old(self).iters@[k]);
                } else {
                    assert(self.iters@[k] == old(self).iters@[k + 1]);
                }
            }
        }
    }

    pub fn create(iters: Vec<Box<I>>) -> (it: Self)
        requires
            forall|i: int| 0 <= i < iters@.len() ==> (#[trigger] iters@[i]).wf(),
        ensures
            it.wf(),
            it.iters() == iters@,
            it.stream() == merge(it.streams()),
    {
        let mut it = Self { iters, current: None };
        it.current = it.find_min();
        proof {
            lemma_head_min(it.streams(), it.iters@.len() as int);
        }
        it
    }
}

impl<I: StorageIterator> StorageIterator for MergeIterator<I> {
    closed spec fn wf(&self) -> bool {
        &&& forall|i: int| 0 <= i < self.iters@.len() ==> (#[trigger] self.iters@[i]).wf()
        &&& self.current matches Some(m) ==> head_min(self.streams(), self.iters@.len() as int) == Some(m as int)
    }

    open spec fn stream(&self) -> Seq<(Seq<u8>, Seq<u8>)> {
        if self.current_index() is Some {
            merge(self.streams())
        } else {
            Seq::empty()
        }
    }

    open spec fn active(&self) -> nat {
        active_sum(self.iters(), self.iters().len() as int)
    }

    /// None of the merged iterators fails.
    open spec fn infallible(&self) -> bool {
        forall|i: int| 0 <= i < self.iters().len() ==> (#[trigger] self.iters()[i]).infallible()
    }

    /// The errors of the merged iterators.
    open spec fn may_fail_with(&self, e: IteratorError) -> bool {
        exists|i: int| 0 <= i < self.iters().len() && (#[trigger] self.iters()[i]).may_fail_with(e)
    }

    fn key(&self) -> (k: &[u8]) {
        let m = self.current.unwrap();
        proof {
            lemma_head_min(self.streams(), self.iters@.len() as int);
            assert(self.streams()[m as int] == self.iters@[m as int].stream());
        }
        self.iters[m].key()
    }

    fn value(&self) -> (v: &[u8]) {
        let m = self.current.unwrap();
        proof {
            lemma_head_min(self.streams(), self.iters@.len() as int);
            assert(self.streams()[m as int] == self.iters@[m as int].stream());
        }
        self.iters[m].value()
    }

    fn is_valid(&self) -> (r: bool) {
        proof {
            lemma_head_min(self.streams(), self.iters@.len() as int);
        }
        match self.current {
            Some(m) => {
                proof {
                    assert(self.streams()[m as int] == self.iters@[m as int].stream());
                }
                self.iters[m].is_valid()
            },
            None => false,
        }
    }

    /// Moves the current iterator on, then moves on every iterator whose key equals the key
    /// just left, and picks the iterator with the smallest key as the new current one. When an
    /// iterator fails, it is dropped and the merge stays well formed but yields nothing.
    fn next(&mut self) -> (r: Result<(), IteratorError>)
        ensures
            r is Err ==> final(self).wf() && final(self).stream().len() == 0,
    {
        let m = match self.current {
            None => {
                return Ok(());
            },
            Some(m) => m,
        };
        let ghost ss0 = self.streams();
        let ghost inf = self.infallible();
        proof {
            lemma_head_min(ss0, self.iters@.len() as int);
            assert(ss0[m as int] == self.iters@[m as int].stream());
        }
        let current_key = vstd::slice::slice_to_vec(self.iters[m].key());
        let ghost start = self.iters@;
        let res = self.iters[m].next();
        if res.is_err() {
            proof {
                assert(old(self).iters()[m as int].may_fail_with(res->Err_0));
            }
            self.drop_failed(m);
            return res;
        }
        proof {
            assert forall|i: int, e: IteratorError|
                0 <= i < self.iters@.len() && #[trigger] self.iters@[i].may_fail_with(e) implies old(
                    self,
                ).iters@[i].may_fail_with(e) by {
                if i != m {
                    assert(self.iters@[i] == start[i]);
                }
            }
        }
        let ghost k = current_key@;
        let ghost ss1 = ss0.update(m as int, ss0[m as int].drop_first());
        proof {
            assert(self.streams() =~= ss1);
        }
        loop
            invariant
                forall|i: int| 0 <= i < self.iters@.len() ==> (#[trigger] self.iters@[i]).wf(),
                self.iters@.len() == ss0.len(),
                current_key@ == k,
                drop_key(self.streams(), k) == drop_key(ss1, k),
                inf == old(self).infallible(),
                inf ==> self.infallible(),
                old(self).iters@.len() == ss0.len(),
                forall|i: int, e: IteratorError|
                    0 <= i < self.iters@.len() && #[trigger] self.iters@[i].may_fail_with(e) ==> old(
                        self,
                    ).iters@[i].may_fail_with(e),
            ensures
                forall|i: int| 0 <= i < self.iters@.len() ==> (#[trigger] self.iters@[i]).wf(),
                self.iters@.len() == ss0.len(),
                self.streams() == drop_key(ss1, k),
                inf ==> self.infallible(),
                forall|i: int, e: IteratorError|
                    0 <= i < self.iters@.len() && #[trigger] self.iters@[i].may_fail_with(e) ==> old(
                        self,
                    ).iters@[i].may_fail_with(e),
            decreases total_len(self.streams()),
        {
            let ghost ss = self.streams();
            let top = self.find_min();
            proof {
                lemma_head_min(ss, ss.len() as int);
            }
            match top {
                None => {
                    break;
                },
                Some(t) => {
                    proof {
                        assert(ss[t as int] == self.iters@[t as int].stream());
                    }
                    if compare_keys(self.iters[t].key(), current_key.as_slice()) == KeyOrder::Equal {
                        proof {
                            if inf {
                                assert(self.iters()[t as int].infallible());
                            }
                        }
                        let ghost before = self.iters@;
                        let res2 = self.iters[t].next();
                        if res2.is_err() {
                            proof {
                                let e = res2->Err_0;
                                assert(before[t as int].may_fail_with(e));
                                assert(old(self).iters()[t as int].may_fail_with(e));
                            }
                            self.drop_failed(t);
                            return res2;
                        }
                        proof {
                            assert forall|i: int, e: IteratorError|
                                0 <= i < self.iters@.len() && #[trigger] self.iters@[i].may_fail_with(e) implies old(
                                    self,
                                ).iters@[i].may_fail_with(e) by {
                                if i != t {
                                    assert(self.iters@[i] == before[i]);
                                }
                                assert(before[i].may_fail_with(e));
                            }
                            assert(self.streams() =~= ss.update(t as int, ss[t as int].drop_first()));
                            lemma_total_len_update(ss, t as int, ss[t as int].drop_first());
                        }
                    } else {
                        break;
                    }
                },
            }
        }
        self.current = self.find_min();
        proof {
            assert forall|e: IteratorError| #[trigger] self.may_fail_with(e) implies old(self).may_fail_with(e) by {
                let i = choose|i: int| 0 <= i < self.iters().len() && #[trigger] self.iters()[i].may_fail_with(e);
                assert(old(self).iters()[i].may_fail_with(e));
            }
            lemma_head_min(self.streams(), self.iters@.len() as int);
            let e = ss0[m as int][0];
            assert(k == e.0);
            assert(merge(ss0) == seq![e] + merge(drop_key(ss1, k)));
            assert((seq![e] + merge(drop_key(ss1, k))).drop_first() =~= merge(drop_key(ss1, k)));
        }
        Ok(())
    }

    fn num_active_iterators(&self) -> (n: usize) {
        let mut sum: usize = 0;
        let mut i: usize = 0;
        while i < self.iters.len()
            invariant
                i <= self.iters@.len(),
                forall|k: int| 0 <= k < self.iters@.len() ==> (#[trigger] self.iters@[k]).wf(),
                sum == active_sum(self.iters(), i as int),
                active_sum(self.iters(), self.iters@.len() as int) <= usize::MAX,
            decreases self.iters@.len() - i,
        {
            proof {
                lemma_active_sum_mono(self.iters(), i + 1, self.iters@.len() as int);
            }
            if self.iters[i].is_valid() {
                sum = sum + self.iters[i].num_active_iterators();
            }
            i = i + 1;
        }
        sum
    }
}

pub proof fn lemma_active_sum_mono<I: StorageIterator>(iters: Seq<Box<I>>, a: int, b: int)
    requires
        0 <= a <= b,
    ensures
        active_sum(iters, a) <= active_sum(iters, b),
    decreases b - a,
{
    if a < b {
        lemma_active_sum_mono(iters, a, b - 1);
    }
}

} // verus!
