//! A wrapper that makes an iterator safe to drive past its end or after a failure.
use vstd::prelude::*;

use crate::iterators::merge_iterator::lemma_value_of_below_head;
use crate::iterators::{strictly_sorted, value_of, IteratorError, StorageIterator};
use crate::key::{key_le, key_less, key_lt, lemma_key_le_lt, lemma_key_lt_le, lemma_key_trichotomy};

verus! {

/// Where a scan ends: at a key included, before a key excluded, or nowhere.
#[derive(Debug)]
pub enum KeyBound {
    Included(Vec<u8>),
    Excluded(Vec<u8>),
    Unbounded,
}

/// A bound with its key as a sequence.
pub enum KeyBoundView {
    Included(Seq<u8>),
    Excluded(Seq<u8>),
    Unbounded,
}

impl View for KeyBound {
    type V = KeyBoundView;

    open spec fn view(&self) -> KeyBoundView {
        match self {
            KeyBound::Included(k) => KeyBoundView::Included(k@),
            KeyBound::Excluded(k) => KeyBoundView::Excluded(k@),
            KeyBound::Unbounded => KeyBoundView::Unbounded,
        }
    }
}

/// The key is within the end bound.
pub open spec fn within(bound: KeyBoundView, key: Seq<u8>) -> bool {
    match bound {
        KeyBoundView::Included(end) => key_le(key, end),
        KeyBoundView::Excluded(end) => key_lt(key, end),
        KeyBoundView::Unbounded => true,
    }
}

/// The entries up to the first one beyond the end bound.
pub open spec fn until_beyond(s: Seq<(Seq<u8>, Seq<u8>)>, bound: KeyBoundView) -> Seq<(Seq<u8>, Seq<u8>)>
    decreases s.len(),
{
    if s.len() > 0 && within(bound, s[0].0) {
        seq![s[0]] + until_beyond(s.drop_first(), bound)
    } else {
        Seq::empty()
    }
}

/// The entries that are not deletions (those whose value is not empty), in order.
pub open spec fn live(s: Seq<(Seq<u8>, Seq<u8>)>) -> Seq<(Seq<u8>, Seq<u8>)>
    decreases s.len(),
{
    if s.len() == 0 {
        Seq::empty()
    } else if s[0].1.len() == 0 {
        live(s.drop_first())
    } else {
        seq![s[0]] + live(s.drop_first())
    }
}

/// The entries from the first one that is not a deletion on.
pub open spec fn skip_deleted(s: Seq<(Seq<u8>, Seq<u8>)>) -> Seq<(Seq<u8>, Seq<u8>)>
    decreases s.len(),
{
    if s.len() > 0 && s[0].1.len() == 0 {
        skip_deleted(s.drop_first())
    } else {
        s
    }
}

/// What an LSM iterator on `s` shows: the current entry, then the entries after it that are
/// not deletions, up to the first one beyond the end bound.
pub open spec fn lsm_stream(s: Seq<(Seq<u8>, Seq<u8>)>, bound: KeyBoundView) -> Seq<(Seq<u8>, Seq<u8>)> {
    if s.len() == 0 {
        Seq::empty()
    } else {
        until_beyond(seq![s[0]] + live(s.drop_first()), bound)
    }
}

/// Skipping the deletions in front and then taking the live entries is taking the live
/// entries.
proof fn lemma_live_skip_deleted(s: Seq<(Seq<u8>, Seq<u8>)>)
    ensures
        skip_deleted(s).len() == 0 ==> live(s).len() == 0,
        skip_deleted(s).len() > 0 ==> skip_deleted(s)[0].1.len() > 0 && live(s) == seq![skip_deleted(s)[0]]
            + live(skip_deleted(s).drop_first()),
    decreases s.len(),
{
    if s.len() > 0 && s[0].1.len() == 0 {
        lemma_live_skip_deleted(s.drop_first());
    }
}

/// A value unless it marks a deletion.
pub open spec fn live_value(v: Option<Seq<u8>>) -> Option<Seq<u8>> {
    match v {
        Some(x) => if x.len() > 0 {
            Some(x)
        } else {
            None
        },
        None => None,
    }
}

/// A strictly sorted stream without its first entry is strictly sorted.
proof fn lemma_sorted_tail(s: Seq<(Seq<u8>, Seq<u8>)>)
    requires
        strictly_sorted(s),
        s.len() > 0,
    ensures
        strictly_sorted(s.drop_first()),
{
    let t = s.drop_first();
    assert forall|i: int, j: int| 0 <= i < j < t.len() implies key_lt(#[trigger] t[i].0, #[trigger] t[j].0) by {
        assert(t[i] == s[i + 1] && t[j] == s[j + 1]);
    }
}

/// The live entries of a strictly sorted stream are strictly sorted, none is a deletion, none
/// is below the stream's head, and they hold for each key its value unless it is a deletion.
pub proof fn lemma_live_value(s: Seq<(Seq<u8>, Seq<u8>)>, k: Seq<u8>)
    requires
        strictly_sorted(s),
    ensures
        strictly_sorted(live(s)),
        forall|p: int| 0 <= p < live(s).len() ==> (#[trigger] live(s)[p]).1.len() > 0,
        s.len() > 0 ==> forall|p: int| 0 <= p < live(s).len() ==> key_le(s[0].0, #[trigger] live(s)[p].0),
        value_of(live(s), k) == live_value(value_of(s, k)),
    decreases s.len(),
{
    if s.len() > 0 {
        let s1 = s.drop_first();
        lemma_sorted_tail(s);
        lemma_live_value(s1, k);
        let l1 = live(s1);
        assert forall|p: int| 0 <= p < l1.len() implies key_lt(s[0].0, #[trigger] l1[p].0) by {
            assert(s1[0] == s[1]);
            assert(key_lt(s[0].0, s[1].0));
            lemma_key_lt_le(s[0].0, s1[0].0, l1[p].0);
        }
        if s1.len() > 0 && s[0].0 == k {
            assert(s1[0] == s[1]);
            assert(key_lt(s[0].0, s[1].0));
            lemma_value_of_below_head(s1, k);
        }
        if s[0].1.len() > 0 {
            let whole = seq![s[0]] + l1;
            assert(live(s) == whole);
            assert(whole[0] == s[0]);
            assert(whole.drop_first() =~= l1);
            assert forall|i: int, j: int| 0 <= i < j < whole.len() implies key_lt(
                #[trigger] whole[i].0,
                #[trigger] whole[j].0,
            ) by {
                assert(whole[j] == l1[j - 1]);
                if i > 0 {
                    assert(whole[i] == l1[i - 1]);
                }
            }
            assert forall|p: int| 0 <= p < whole.len() implies (#[trigger] whole[p]).1.len() > 0 by {
                if p > 0 {
                    assert(whole[p] == l1[p - 1]);
                }
            }
            assert forall|p: int| 0 <= p < whole.len() implies key_le(s[0].0, #[trigger] whole[p].0) by {
                if p > 0 {
                    assert(whole[p] == l1[p - 1]);
                }
            }
        }
    }
}

/// Appending an entry appends it to the live entries unless it is a deletion.
pub proof fn lemma_live_push(s: Seq<(Seq<u8>, Seq<u8>)>, e: (Seq<u8>, Seq<u8>))
    ensures
        live(s.push(e)) == if e.1.len() > 0 {
            live(s).push(e)
        } else {
            live(s)
        },
    decreases s.len(),
{
    if s.len() == 0 {
        let one = s.push(e);
        assert(one[0] == e);
        assert(one.drop_first() =~= Seq::<(Seq<u8>, Seq<u8>)>::empty());
        assert(live(Seq::<(Seq<u8>, Seq<u8>)>::empty()) == Seq::<(Seq<u8>, Seq<u8>)>::empty());
        if e.1.len() > 0 {
            assert(seq![e] + Seq::<(Seq<u8>, Seq<u8>)>::empty() =~= Seq::<(Seq<u8>, Seq<u8>)>::empty().push(e));
        }
    } else {
        let t = s.push(e);
        assert(t[0] == s[0]);
        assert(t.drop_first() =~= s.drop_first().push(e));
        lemma_live_push(s.drop_first(), e);
        if s[0].1.len() > 0 && e.1.len() > 0 {
            assert(seq![s[0]] + live(s.drop_first()).push(e) =~= (seq![s[0]] + live(s.drop_first())).push(e));
        }
    }
}

/// A key within the bound is below every key beyond it.
proof fn lemma_within_below(bound: KeyBoundView, k: Seq<u8>, x: Seq<u8>)
    requires
        within(bound, k),
        !within(bound, x),
    ensures
        key_lt(k, x),
{
    match bound {
        KeyBoundView::Included(u) => {
            lemma_key_trichotomy(u, x);
            lemma_key_le_lt(k, u, x);
        },
        KeyBoundView::Excluded(u) => {
            lemma_key_trichotomy(x, u);
            lemma_key_lt_le(k, u, x);
        },
        KeyBoundView::Unbounded => {},
    }
}

/// Stopping a strictly sorted stream at the bound keeps what it holds for a key within it.
proof fn lemma_until_value(s: Seq<(Seq<u8>, Seq<u8>)>, bound: KeyBoundView, k: Seq<u8>)
    requires
        strictly_sorted(s),
        within(bound, k),
    ensures
        value_of(until_beyond(s, bound), k) == value_of(s, k),
    decreases s.len(),
{
    if s.len() > 0 {
        if within(bound, s[0].0) {
            let t = until_beyond(s.drop_first(), bound);
            let whole = seq![s[0]] + t;
            assert(whole[0] == s[0]);
            assert(whole.drop_first() =~= t);
            lemma_sorted_tail(s);
            lemma_until_value(s.drop_first(), bound, k);
        } else {
            lemma_within_below(bound, k, s[0].0);
            lemma_value_of_below_head(s, k);
        }
    }
}

/// What a scan shows of a strictly sorted stream, once the deletions in front are skipped,
/// holds for a key within the end bound the stream's value for it unless that is a deletion.
pub proof fn lemma_scan_stream_value(s: Seq<(Seq<u8>, Seq<u8>)>, bound: KeyBoundView, k: Seq<u8>)
    requires
        strictly_sorted(s),
        within(bound, k),
    ensures
        value_of(skip_deleted(lsm_stream(s, bound)), k) == live_value(value_of(s, k)),
{
    if s.len() > 0 {
        let s1 = s.drop_first();
        lemma_sorted_tail(s);
        lemma_live_value(s1, k);
        let l1 = live(s1);
        let t = seq![s[0]] + l1;
        assert(t[0] == s[0]);
        assert(t.drop_first() =~= l1);
        assert forall|p: int| 0 <= p < l1.len() implies key_lt(s[0].0, #[trigger] l1[p].0) by {
            if s1.len() > 0 {
                assert(s1[0] == s[1]);
                assert(key_lt(s[0].0, s[1].0));
                lemma_key_lt_le(s[0].0, s1[0].0, l1[p].0);
            }
        }
        assert(strictly_sorted(t)) by {
            assert forall|i: int, j: int| 0 <= i < j < t.len() implies key_lt(#[trigger] t[i].0, #[trigger] t[j].0) by {
                assert(t[j] == l1[j - 1]);
                if i > 0 {
                    assert(t[i] == l1[i - 1]);
                }
            }
        }
        if s1.len() > 0 && s[0].0 == k {
            assert(s1[0] == s[1]);
            assert(key_lt(s[0].0, s[1].0));
            lemma_value_of_below_head(s1, k);
        }
        let shown = lsm_stream(s, bound);
        assert(shown == until_beyond(t, bound));
        if within(bound, s[0].0) && s[0].1.len() == 0 {
            let rest = until_beyond(l1, bound);
            assert(shown == seq![t[0]] + until_beyond(t.drop_first(), bound));
            assert(shown[0] == s[0]);
            assert(shown.drop_first() =~= rest);
            assert(skip_deleted(shown) == skip_deleted(rest));
            if rest.len() > 0 {
                assert(rest[0] == l1[0]);
            }
            assert(skip_deleted(rest) == rest);
            lemma_until_value(l1, bound, k);
        } else {
            if within(bound, s[0].0) {
                assert(shown == seq![t[0]] + until_beyond(t.drop_first(), bound));
                assert(shown[0] == s[0]);
            }
            assert(skip_deleted(shown) == shown);
            lemma_until_value(t, bound, k);
            if s[0].0 == k && s[0].1.len() == 0 {
                assert(!within(bound, s[0].0));
            }
        }
    }
}

/// An iterator over the merged entries of the engine: deletions are skipped when moving on,
/// and it ends at the first key beyond the end bound.
pub struct LsmIterator<I: StorageIterator> {
    inner: I,
    end_bound: KeyBound,
}

impl<I: StorageIterator> LsmIterator<I> {
    /// The iterator it moves.
    pub closed spec fn inner(&self) -> I {
        self.inner
    }

    /// Where it ends.
    pub closed spec fn end_bound(&self) -> KeyBound {
        self.end_bound
    }

    pub fn new(iter: I, end_bound: KeyBound) -> (r: Result<Self, IteratorError>)
        ensures
            r matches Ok(it) && it.inner() == iter && it.end_bound() == end_bound,
    {
        Ok(Self { inner: iter, end_bound })
    }

    /// Whether `key` is within the end bound.
    fn key_within(&self, key: &[u8]) -> (r: bool)
        ensures
            r == within(self.end_bound@, key@),
    {
        match &self.end_bound {
            KeyBound::Included(end_key) => {
                proof {
                    crate::key::lemma_key_trichotomy(key@, end_key@);
                }
                !key_less(end_key.as_slice(), key)
            },
            KeyBound::Excluded(end_key) => key_less(key, end_key.as_slice()),
            KeyBound::Unbounded => true,
        }
    }
}

impl<I: StorageIterator> StorageIterator for LsmIterator<I> {
    closed spec fn wf(&self) -> bool {
        self.inner.wf()
    }

    open spec fn stream(&self) -> Seq<(Seq<u8>, Seq<u8>)> {
        lsm_stream(self.inner().stream(), self.end_bound()@)
    }

    open spec fn active(&self) -> nat {
        self.inner().active()
    }

    /// The inner iterator never fails.
    open spec fn infallible(&self) -> bool {
        self.inner().infallible()
    }

    /// The errors of the inner iterator.
    open spec fn may_fail_with(&self, e: IteratorError) -> bool {
        self.inner().may_fail_with(e)
    }

    fn key(&self) -> (k: &[u8]) {
        self.inner.key()
    }

    fn value(&self) -> (v: &[u8]) {
        self.inner.value()
    }

    /// Valid while the inner iterator is, up to the end bound.
    fn is_valid(&self) -> (r: bool) {
        if self.inner.is_valid() {
            let key = self.inner.key();
            self.key_within(key)
        } else {
            false
        }
    }

    /// Moves the inner iterator on, then past the deletions that follow.
    fn next(&mut self) -> (r: Result<(), IteratorError>)
        ensures
            final(self).end_bound() == old(self).end_bound(),
    {
        let ghost s0 = self.inner.stream();
        let ghost inf = self.inner.infallible();
        match self.inner.next() {
            Ok(()) => {},
            Err(e) => {
                return Err(e);
            },
        }
        let ghost tail = self.inner.stream();
        while self.inner.is_valid() && self.inner.value().len() == 0
            invariant
                self.inner.wf(),
                self.end_bound == old(self).end_bound,
                s0 == old(self).inner.stream(),
                s0.len() > 0 ==> tail == s0.drop_first(),
                skip_deleted(self.inner.stream()) == skip_deleted(tail),
                inf == old(self).infallible(),
                inf ==> self.inner.infallible(),
                forall|e: IteratorError| #[trigger] self.inner.may_fail_with(e) ==> old(self).inner.may_fail_with(e),
            decreases self.inner.stream().len(),
        {
            let ghost before = self.inner.stream();
            match self.inner.next() {
                Ok(()) => {},
                Err(e) => {
                    return Err(e);
                },
            }
            proof {
                assert(skip_deleted(before) == skip_deleted(before.drop_first()));
            }
        }
        proof {
            let cur = self.inner.stream();
            assert(skip_deleted(cur) == cur);
            if s0.len() > 0 {
                lemma_live_skip_deleted(tail);
                let b = old(self).end_bound@;
                let shown = seq![s0[0]] + live(s0.drop_first());
                if within(b, s0[0].0) {
                    assert(shown[0] == s0[0]);
                    assert(shown.drop_first() =~= live(tail));
                    assert(until_beyond(shown, b) == seq![shown[0]] + until_beyond(shown.drop_first(), b));
                    assert((seq![shown[0]] + until_beyond(live(tail), b)).drop_first() =~= until_beyond(
                        live(tail),
                        b,
                    ));
                    if cur.len() > 0 {
                        assert(live(tail) == seq![cur[0]] + live(cur.drop_first()));
                    } else {
                        assert(live(tail).len() == 0);
                    }
                }
            }
        }
        Ok(())
    }

    fn num_active_iterators(&self) -> (n: usize) {
        self.inner.num_active_iterators()
    }
}

/// Wraps an iterator for a scan: an LSM iterator up to the end bound, moved past the
/// deletions in front, inside a fused iterator.
pub fn scan_iterator<I: StorageIterator>(inner: I, end_bound: KeyBound) -> (r: Result<
    FusedIterator<LsmIterator<I>>,
    IteratorError,
>)
    requires
        inner.wf(),
    ensures
        r matches Ok(it) ==> it.wf() && !it.errored() && it.inner().end_bound() == end_bound
            && it.stream() == skip_deleted(lsm_stream(inner.stream(), end_bound@)),
        inner.infallible() ==> r is Ok,
{
    let mut lsm_iter = match LsmIterator::new(inner, end_bound) {
        Ok(it) => it,
        Err(e) => {
            return Err(e);
        },
    };
    let ghost start = lsm_iter.stream();
    while lsm_iter.is_valid() && lsm_iter.value().len() == 0
        invariant
            lsm_iter.wf(),
            lsm_iter.end_bound() == end_bound,
            skip_deleted(lsm_iter.stream()) == skip_deleted(start),
            inner.infallible() ==> lsm_iter.infallible(),
        decreases lsm_iter.stream().len(),
    {
        let ghost before = lsm_iter.stream();
        match lsm_iter.next() {
            Ok(()) => {},
            Err(e) => {
                return Err(e);
            },
        }
        proof {
            assert(skip_deleted(before) == skip_deleted(before.drop_first()));
        }
    }
    Ok(FusedIterator::new(lsm_iter))
}

/// A wrapper around existing iterator, will prevent users from calling `next` when the iterator is
/// invalid. If an iterator is already invalid, `next` does not do anything. If `next` returns an error,
/// `is_valid` should return false, and `next` should always return an error.
pub struct FusedIterator<I: StorageIterator> {
    iter: I,
    has_errored: bool,
}

impl<I: StorageIterator> FusedIterator<I> {
    /// The wrapped iterator.
    pub closed spec fn inner(&self) -> I {
        self.iter
    }

    /// Whether a `next` of the wrapped iterator failed.
    pub closed spec fn errored(&self) -> bool {
        self.has_errored
    }

    pub fn new(iter: I) -> (it: Self)
        ensures
            it.inner() == iter,
            !it.errored(),
    {
        Self { iter, has_errored: false }
    }
}

impl<I: StorageIterator> StorageIterator for FusedIterator<I> {
    closed spec fn wf(&self) -> bool {
        self.has_errored || self.iter.wf()
    }

    open spec fn stream(&self) -> Seq<(Seq<u8>, Seq<u8>)> {
        if self.errored() {
            Seq::empty()
        } else {
            self.inner().stream()
        }
    }

    open spec fn active(&self) -> nat {
        if self.errored() {
            0
        } else {
            self.inner().active()
        }
    }

    /// It has not failed, and the wrapped iterator never fails.
    open spec fn infallible(&self) -> bool {
        !self.errored() && self.inner().infallible()
    }

    /// Once failed, the refusal to go on; otherwise the errors of the wrapped iterator.
    open spec fn may_fail_with(&self, e: IteratorError) -> bool {
        if self.errored() {
            e == IteratorError::Errored
        } else {
            self.inner().may_fail_with(e)
        }
    }

    fn key(&self) -> (k: &[u8]) {
        self.iter.key()
    }

    fn value(&self) -> (v: &[u8]) {
        self.iter.value()
    }

    fn is_valid(&self) -> (r: bool) {
        if self.has_errored {
            false
        } else {
            self.iter.is_valid()
        }
    }

    /// Fails once the wrapped iterator has failed; does nothing past the end; otherwise moves
    /// the wrapped iterator on, remembering a failure.
    fn next(&mut self) -> (r: Result<(), IteratorError>)
        ensures
            old(self).errored() ==> r == Err::<(), IteratorError>(IteratorError::Errored) && *final(self) == *old(self),
            !old(self).errored() && old(self).inner().stream().len() == 0 ==> r is Ok && *final(self) == *old(self),
            !old(self).errored() && old(self).inner().stream().len() > 0 ==> {
                &&& final(self).errored() == r is Err
                &&& (r is Ok ==> final(self).inner().stream() == old(self).inner().stream().drop_first())
            },
    {
        if self.has_errored {
            return Err(IteratorError::Errored);
        }
        if !self.iter.is_valid() {
            return Ok(());
        }
        match self.iter.next() {
            Ok(()) => Ok(()),
            Err(e) => {
                self.has_errored = true;
                Err(e)
            },
        }
    }

    fn num_active_iterators(&self) -> (n: usize) {
        if self.has_errored {
            0
        } else {
            self.iter.num_active_iterators()
        }
    }
}

} // verus!
