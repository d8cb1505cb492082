//! The iterator interface shared by the storage iterators, and the iterators that combine
//! others.
use vstd::prelude::*;

pub mod concat_iterator;
pub mod merge_iterator;
pub mod two_merge_iterator;

use crate::key::key_lt;

verus! {

/// The keys of the stream are strictly increasing.
pub open spec fn strictly_sorted(s: Seq<(Seq<u8>, Seq<u8>)>) -> bool {
    forall|i: int, j: int| #![trigger s[i], s[j]] 0 <= i < j < s.len() ==> key_lt(s[i].0, s[j].0)
}

/// What a stream holds for `key`: the value of its first entry with that key.
pub open spec fn value_of(s: Seq<(Seq<u8>, Seq<u8>)>, key: Seq<u8>) -> Option<Seq<u8>>
    decreases s.len(),
{
    if s.len() == 0 {
        None
    } else if s[0].0 == key {
        Some(s[0].1)
    } else {
        value_of(s.drop_first(), key)
    }
}

/// What the first of the streams that holds `key` has for it.
pub open spec fn first_value(ss: Seq<Seq<(Seq<u8>, Seq<u8>)>>, key: Seq<u8>) -> Option<Seq<u8>>
    decreases ss.len(),
{
    if ss.len() == 0 {
        None
    } else {
        match first_value(ss.drop_last(), key) {
            Some(v) => Some(v),
            None => value_of(ss.last(), key),
        }
    }
}

/// A failure of an iterator.
#[derive(Debug, Clone, Copy, PartialEq, Eq, Structural)]
pub enum IteratorError {
    /// Reading the underlying data failed.
    Read,
    /// The iterator failed before and refuses to go on.
    Errored,
}

/// An iterator over key-value entries. Its `stream` is what it still yields: valid exactly
/// while that is not empty, the current entry is its first element, and a successful `next`
/// drops that element; a failed one may leave the iterator unusable.
pub trait StorageIterator {
    /// The iterator's internal invariant.
    spec fn wf(&self) -> bool;

    /// The entries the iterator still yields, the current one first.
    spec fn stream(&self) -> Seq<(Seq<u8>, Seq<u8>)>;

    /// How many underlying iterators are active.
    spec fn active(&self) -> nat;

    /// Moving on never fails: every reader underneath yields its entries without error.
    spec fn infallible(&self) -> bool;

    /// `e` is an error that moving on, from here on, may end in: the errors of the readers
    /// underneath.
    spec fn may_fail_with(&self, e: IteratorError) -> bool;

    /// Return the key of the current entry.
    fn key(&self) -> (k: &[u8])
        requires
            self.wf(),
            self.stream().len() > 0,
        ensures
            k@ == self.stream()[0].0,
    ;

    /// Return the value of the current entry.
    fn value(&self) -> (v: &[u8])
        requires
            self.wf(),
            self.stream().len() > 0,
        ensures
            v@ == self.stream()[0].1,
    ;

    /// Whether the iterator is on an entry.
    fn is_valid(&self) -> (r: bool)
        requires
            self.wf(),
        ensures
            r == (self.stream().len() > 0),
    ;

    /// Move to the next entry. After a failure nothing is promised of the iterator.
    fn next(&mut self) -> (r: Result<(), IteratorError>)
        requires
            old(self).wf(),
        ensures
            r is Ok ==> final(self).wf(),
            old(self).stream().len() > 0 && r is Ok ==> final(self).stream() == old(self).stream().drop_first(),
            old(self).infallible() ==> r is Ok && final(self).infallible(),
            r matches Err(e) ==> old(self).may_fail_with(e),
            r is Ok ==> forall|e: IteratorError| #[trigger] final(self).may_fail_with(e) ==> old(self).may_fail_with(e),
    ;

    /// Number of underlying active iterators for this iterator.
    fn num_active_iterators(&self) -> (n: usize)
        requires
            self.wf(),
            self.active() <= usize::MAX,
        ensures
            n == self.active(),
    ;
}

} // verus!
