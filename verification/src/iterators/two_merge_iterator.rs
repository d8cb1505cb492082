//! Merges two iterators of different types into one. If the two iterators have the same key,
//! only produce the key once and prefer the entry from A.
use vstd::prelude::*;

use crate::iterators::merge_iterator::{drop_key, head_min, lemma_head_min, lemma_merge_sorted, merge};
use crate::iterators::{strictly_sorted, IteratorError, StorageIterator};
use crate::key::{compare_keys, key_lt, lemma_key_lt_irreflexive, lemma_key_trichotomy, KeyOrder};

verus! {

/// The choice `update_flag` makes: with both valid, A unless B's key is smaller; otherwise
/// the valid one; with neither valid, the previous choice.
pub open spec fn flag_after(a_valid: bool, b_valid: bool, a_key: Seq<u8>, b_key: Seq<u8>, use_a: bool) -> bool {
    if a_valid && b_valid {
        !key_lt(b_key, a_key)
    } else if a_valid {
        true
    } else if b_valid {
        false
    } else {
        use_a
    }
}

/// Whether the merge shows A's entry: A has one, and B has none with a smaller key.
pub open spec fn choose_a(a: Seq<(Seq<u8>, Seq<u8>)>, b: Seq<(Seq<u8>, Seq<u8>)>) -> bool {
    a.len() > 0 && (b.len() == 0 || !key_lt(b[0].0, a[0].0))
}

/// What `next` does to what the two iterators yield: with one run out, the other moves; on
/// equal keys both move; otherwise the one with the smaller key moves.
pub open spec fn two_merge_step(a: Seq<(Seq<u8>, Seq<u8>)>, b: Seq<(Seq<u8>, Seq<u8>)>) -> (
    Seq<(Seq<u8>, Seq<u8>)>,
    Seq<(Seq<u8>, Seq<u8>)>,
) {
    if a.len() == 0 {
        (a, b.drop_first())
    } else if b.len() == 0 {
        (a.drop_first(), b)
    } else if a[0].0 == b[0].0 {
        (a.drop_first(), b.drop_first())
    } else if key_lt(a[0].0, b[0].0) {
        (a.drop_first(), b)
    } else {
        (a, b.drop_first())
    }
}

/// What the merge shows: the chosen head, then what it shows after `next`.
pub open spec fn two_merge_run(a: Seq<(Seq<u8>, Seq<u8>)>, b: Seq<(Seq<u8>, Seq<u8>)>) -> Seq<
    (Seq<u8>, Seq<u8>),
>
    decreases a.len() + b.len(),
{
    if a.len() == 0 && b.len() == 0 {
        Seq::empty()
    } else {
        let e = if choose_a(a, b) {
            a[0]
        } else {
            b[0]
        };
        let next = two_merge_step(a, b);
        seq![e] + two_merge_run(next.0, next.1)
    }
}

/// Streams whose heads all lie above `k` lose nothing when the heads with key `k` are dropped.
proof fn lemma_drop_key_none(ss: Seq<Seq<(Seq<u8>, Seq<u8>)>>, k: Seq<u8>)
    requires
        forall|i: int| 0 <= i < ss.len() && (#[trigger] ss[i]).len() > 0 ==> key_lt(k, ss[i][0].0),
    ensures
        drop_key(ss, k) == ss,
{
    lemma_head_min(ss, ss.len() as int);
    match head_min(ss, ss.len() as int) {
        Some(m) => {
            lemma_key_lt_irreflexive(k);
            assert(key_lt(k, ss[m][0].0));
        },
        None => {},
    }
}

/// One step of the merge of two sorted streams: the smaller head comes first, A's on equal
/// keys, and the other stream skips a head with the same key.
proof fn lemma_merge_pair(a: Seq<(Seq<u8>, Seq<u8>)>, b: Seq<(Seq<u8>, Seq<u8>)>)
    requires
        strictly_sorted(a),
        strictly_sorted(b),
        a.len() + b.len() > 0,
    ensures
        a.len() == 0 ==> merge(seq![a, b]) == seq![b[0]] + merge(seq![a, b.drop_first()]),
        a.len() > 0 && (b.len() == 0 || key_lt(a[0].0, b[0].0)) ==> merge(seq![a, b]) == seq![a[0]] + merge(
            seq![a.drop_first(), b],
        ),
        a.len() > 0 && b.len() > 0 && a[0].0 == b[0].0 ==> merge(seq![a, b]) == seq![a[0]] + merge(
            seq![a.drop_first(), b.drop_first()],
        ),
        a.len() > 0 && b.len() > 0 && key_lt(b[0].0, a[0].0) ==> merge(seq![a, b]) == seq![b[0]] + merge(
            seq![a, b.drop_first()],
        ),
{
    reveal_with_fuel(head_min, 3);
    let ss = seq![a, b];
    let a1 = a.drop_first();
    let b1 = b.drop_first();
    assert(ss[0] == a && ss[1] == b);
    if a.len() > 1 {
        assert(key_lt(a[0].0, a[1].0));
    }
    if b.len() > 1 {
        assert(key_lt(b[0].0, b[1].0));
    }
    if a.len() > 0 && b.len() > 0 {
        lemma_key_trichotomy(a[0].0, b[0].0);
    }
    if a.len() == 0 || (b.len() > 0 && key_lt(b[0].0, a[0].0)) {
        // B's head comes first and every remaining head lies above it.
        let rest = ss.update(1, b1);
        assert(rest =~= seq![a, b1]);
        assert(head_min(ss, 2) == Some(1int));
        lemma_drop_key_none(rest, b[0].0);
    } else {
        let k = a[0].0;
        let rest = ss.update(0, a1);
        assert(rest =~= seq![a1, b]);
        if b.len() > 0 {
            lemma_key_lt_irreflexive(k);
        }
        assert(head_min(ss, 2) == Some(0int));
        if b.len() > 0 && b[0].0 == k {
            let rest2 = rest.update(1, b1);
            assert(rest2 =~= seq![a1, b1]);
            assert(rest[0] == a1 && rest[1] == b);
            assert(head_min(rest, 2) == Some(1int));
            lemma_drop_key_none(rest2, k);
            assert(drop_key(rest, k) == drop_key(rest2, k));
        } else {
            lemma_drop_key_none(rest, k);
        }
    }
}

/// The two-way merge of sorted streams shows what the k-way merge of the two shows.
proof fn lemma_two_merge_run_merge(a: Seq<(Seq<u8>, Seq<u8>)>, b: Seq<(Seq<u8>, Seq<u8>)>)
    requires
        strictly_sorted(a),
        strictly_sorted(b),
    ensures
        two_merge_run(a, b) == merge(seq![a, b]),
    decreases a.len() + b.len(),
{
    reveal_with_fuel(head_min, 3);
    if a.len() == 0 && b.len() == 0 {
        assert(head_min(seq![a, b], 2) is None);
        return;
    }
    let a1 = a.drop_first();
    let b1 = b.drop_first();
    lemma_merge_pair(a, b);
    assert(a.len() > 0 ==> strictly_sorted(a1)) by {
        if a.len() > 0 {
            assert forall|i: int, j: int| 0 <= i < j < a1.len() implies key_lt(#[trigger] a1[i].0, #[trigger] a1[j].0) by {
                assert(a1[i] == a[i + 1] && a1[j] == a[j + 1]);
            }
        }
    }
    assert(b.len() > 0 ==> strictly_sorted(b1)) by {
        if b.len() > 0 {
            assert forall|i: int, j: int| 0 <= i < j < b1.len() implies key_lt(#[trigger] b1[i].0, #[trigger] b1[j].0) by {
                assert(b1[i] == b[i + 1] && b1[j] == b[j + 1]);
            }
        }
    }
    if a.len() > 0 && b.len() > 0 {
        lemma_key_trichotomy(a[0].0, b[0].0);
    }
    let next = two_merge_step(a, b);
    lemma_two_merge_run_merge(next.0, next.1);
}

/// Merging two streams whose keys strictly increase shows every key once, in increasing
/// order, with A's entry on equal keys: what the k-way merge of [A, B] shows.
pub proof fn lemma_two_merge_sorted_union(a: Seq<(Seq<u8>, Seq<u8>)>, b: Seq<(Seq<u8>, Seq<u8>)>)
    requires
        strictly_sorted(a),
        strictly_sorted(b),
    ensures
        two_merge_run(a, b) == merge(seq![a, b]),
        strictly_sorted(two_merge_run(a, b)),
{
    lemma_two_merge_run_merge(a, b);
    let ss = seq![a, b];
    assert(ss[0] == a && ss[1] == b);
    lemma_merge_sorted(ss);
}

/// Merges two iterators of different types into one. If the two iterators have the same key, only
/// produce the key once and prefer the entry from A.
pub struct TwoMergeIterator<A: StorageIterator, B: StorageIterator> {
    a: A,
    b: B,
    use_a: bool,
}

impl<A: StorageIterator, B: StorageIterator> TwoMergeIterator<A, B> {
    pub closed spec fn iter_a(&self) -> A {
        self.a
    }

    pub closed spec fn iter_b(&self) -> B {
        self.b
    }

    /// Whether the entry shown is taken from A.
    pub closed spec fn uses_a(&self) -> bool {
        self.use_a
    }

    /// Both iterators are well formed.
    pub open spec fn parts_wf(&self) -> bool {
        self.iter_a().wf() && self.iter_b().wf()
    }

    /// The flag the current entries call for.
    pub open spec fn flag_for(&self) -> bool {
        flag_after(
            self.iter_a().stream().len() > 0,
            self.iter_b().stream().len() > 0,
            self.iter_a().stream()[0].0,
            self.iter_b().stream()[0].0,
            self.uses_a(),
        )
    }

    /// Merges data from `a` (preferred on equal keys) and `b`.
    pub fn create(a: A, b: B) -> (r: Result<Self, IteratorError>)
        requires
            a.wf(),
            b.wf(),
        ensures
            r matches Ok(it) && it.wf() && it.iter_a() == a && it.iter_b() == b,
    {
        let mut iter = Self { a, b, use_a: false };
        iter.update_flag();
        Ok(iter)
    }

    /// Chooses which iterator the current entry comes from.
    pub fn update_flag(&mut self)
        requires
            old(self).parts_wf(),
        ensures
            final(self).iter_a() == old(self).iter_a(),
            final(self).iter_b() == old(self).iter_b(),
            final(self).uses_a() == old(self).flag_for(),
            final(self).wf(),
    {
        if self.a.is_valid() && self.b.is_valid() {
            let a_key = self.a.key();
            let b_key = self.b.key();
            match compare_keys(a_key, b_key) {
                KeyOrder::Less => {
                    self.use_a = true;
                },
                KeyOrder::Greater => {
                    self.use_a = false;
                },
                KeyOrder::Equal => {
                    self.use_a = true;
                },
            }
        } else if self.a.is_valid() {
            self.use_a = true;
        } else if self.b.is_valid() {
            self.use_a = false;
        }
    }
}

impl<A: StorageIterator, B: StorageIterator> StorageIterator for TwoMergeIterator<A, B> {
    /// Both iterators are well formed and, while either has an entry, the choice fits their
    /// heads.
    open spec fn wf(&self) -> bool {
        &&& self.parts_wf()
        &&& (self.iter_a().stream().len() > 0 || self.iter_b().stream().len() > 0) ==> self.uses_a() == choose_a(
            self.iter_a().stream(),
            self.iter_b().stream(),
        )
    }

    open spec fn stream(&self) -> Seq<(Seq<u8>, Seq<u8>)> {
        two_merge_run(self.iter_a().stream(), self.iter_b().stream())
    }

    open spec fn active(&self) -> nat {
        1
    }

    /// Neither merged iterator fails.
    open spec fn infallible(&self) -> bool {
        self.iter_a().infallible() && self.iter_b().infallible()
    }

    /// The errors of either merged iterator.
    open spec fn may_fail_with(&self, e: IteratorError) -> bool {
        self.iter_a().may_fail_with(e) || self.iter_b().may_fail_with(e)
    }

    /// The key of the entry from the chosen iterator.
    fn key(&self) -> (k: &[u8]) {
        if self.use_a {
            self.a.key()
        } else {
            self.b.key()
        }
    }

    /// The value of the entry from the chosen iterator.
    fn value(&self) -> (v: &[u8]) {
        if self.use_a {
            self.a.value()
        } else {
            self.b.value()
        }
    }

    /// Valid while either iterator is.
    fn is_valid(&self) -> (r: bool) {
        self.a.is_valid() || self.b.is_valid()
    }

    /// Moves on: only the valid one if one is invalid; both on equal keys; otherwise the one
    /// with the smaller key; then chooses anew.
    fn next(&mut self) -> (r: Result<(), IteratorError>)
        ensures
            old(self).iter_a().stream().len() == 0 && old(self).iter_b().stream().len() == 0 ==> r is Ok
                && *final(self) == *old(self),
            r is Ok && (old(self).iter_a().stream().len() > 0 || old(self).iter_b().stream().len() > 0) ==> (
                final(self).iter_a().stream(),
                final(self).iter_b().stream(),
            ) == two_merge_step(old(self).iter_a().stream(), old(self).iter_b().stream()),
    {
        let ghost a0 = self.a.stream();
        let ghost b0 = self.b.stream();
        if !self.a.is_valid() && !self.b.is_valid() {
            return Ok(());
        }
        if !self.a.is_valid() {
            let r = self.b.next();
            if r.is_err() {
                return r;
            }
        } else if !self.b.is_valid() {
            let r = self.a.next();
            if r.is_err() {
                return r;
            }
        } else {
            let order = compare_keys(self.a.key(), self.b.key());
            if order == KeyOrder::Equal {
                let rb = self.b.next();
                if rb.is_err() {
                    return rb;
                }
                let ra = self.a.next();
                if ra.is_err() {
                    return ra;
                }
            } else if order == KeyOrder::Less {
                let ra = self.a.next();
                if ra.is_err() {
                    return ra;
                }
            } else {
                let rb = self.b.next();
                if rb.is_err() {
                    return rb;
                }
            }
        }
        self.update_flag();
        proof {
            let whole = two_merge_run(a0, b0);
            let next = two_merge_step(a0, b0);
            assert(self.iter_a().stream() == next.0 && self.iter_b().stream() == next.1);
            assert(whole.drop_first() =~= two_merge_run(next.0, next.1));
        }
        Ok(())
    }

    fn num_active_iterators(&self) -> (n: usize) {
        1
    }
}

} // verus!
