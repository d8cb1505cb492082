//! Keys are byte strings ordered lexicographically, as Rust orders `[u8]`.
use vstd::prelude::*;

verus! {

/// Length of the longest common prefix of `a` and `b`, counted from position `i` on.
pub open spec fn common_prefix_from(a: Seq<u8>, b: Seq<u8>, i: int) -> int
    decreases a.len() - i,
{
    if 0 <= i < a.len() && i < b.len() && a[i] == b[i] {
        common_prefix_from(a, b, i + 1)
    } else {
        i
    }
}

/// Length of the longest common prefix of `a` and `b`.
pub open spec fn common_prefix_len(a: Seq<u8>, b: Seq<u8>) -> int {
    common_prefix_from(a, b, 0)
}

/// Lexicographic strict order on byte strings.
pub open spec fn key_lt(a: Seq<u8>, b: Seq<u8>) -> bool {
    let n = common_prefix_len(a, b);
    (n == a.len() && n < b.len()) || (n < a.len() && n < b.len() && a[n] < b[n])
}

/// Lexicographic non-strict order on byte strings.
pub open spec fn key_le(a: Seq<u8>, b: Seq<u8>) -> bool {
    key_lt(a, b) || a == b
}

/// The common prefix found from `i` on is a shared prefix that extends the first `i` bytes.
pub proof fn lemma_common_prefix_from(a: Seq<u8>, b: Seq<u8>, i: int)
    requires
        0 <= i <= a.len(),
        i <= b.len(),
        a.subrange(0, i) == b.subrange(0, i),
    ensures
        i <= common_prefix_from(a, b, i) <= a.len(),
        common_prefix_from(a, b, i) <= b.len(),
        ({
            let n = common_prefix_from(a, b, i);
            &&& a.subrange(0, n) == b.subrange(0, n)
            &&& (n < a.len() && n < b.len() ==> a[n] != b[n])
        }),
    decreases a.len() - i,
{
    if 0 <= i < a.len() && i < b.len() && a[i] == b[i] {
        assert(a.subrange(0, i + 1) == b.subrange(0, i + 1)) by {
            assert forall|j: int| 0 <= j < i + 1 implies #[trigger] a.subrange(0, i + 1)[j] == b.subrange(0, i + 1)[j] by {
                if j < i {
                    assert(a.subrange(0, i)[j] == b.subrange(0, i)[j]);
                }
            }
        }
        lemma_common_prefix_from(a, b, i + 1);
    }
}

/// The common prefix length is bounded by both lengths, both strings agree on it, and they
/// differ right after it.
pub proof fn lemma_common_prefix(a: Seq<u8>, b: Seq<u8>)
    ensures
        0 <= common_prefix_len(a, b) <= a.len(),
        common_prefix_len(a, b) <= b.len(),
        a.subrange(0, common_prefix_len(a, b)) == b.subrange(0, common_prefix_len(a, b)),
        common_prefix_len(a, b) < a.len() && common_prefix_len(a, b) < b.len() ==> a[common_prefix_len(a, b)]
            != b[common_prefix_len(a, b)],
{
    assert(a.subrange(0, 0) == b.subrange(0, 0));
    lemma_common_prefix_from(a, b, 0);
}

/// Any prefix on which two strings agree is no longer than their common prefix.
pub proof fn lemma_common_prefix_maximal(a: Seq<u8>, b: Seq<u8>, m: int)
    requires
        0 <= m <= a.len(),
        m <= b.len(),
        a.subrange(0, m) == b.subrange(0, m),
    ensures
        m <= common_prefix_len(a, b),
{
    lemma_common_prefix(a, b);
    let n = common_prefix_len(a, b);
    if n < m {
        assert(a.subrange(0, m)[n] == b.subrange(0, m)[n]);
        assert(a[n] == a.subrange(0, m)[n]);
        assert(b[n] == b.subrange(0, m)[n]);
    }
}

/// The common prefix does not depend on the order of the keys.
pub proof fn lemma_common_prefix_symmetric(a: Seq<u8>, b: Seq<u8>)
    ensures
        common_prefix_len(a, b) == common_prefix_len(b, a),
{
    lemma_common_prefix(a, b);
    lemma_common_prefix(b, a);
    lemma_common_prefix_maximal(a, b, common_prefix_len(b, a));
    lemma_common_prefix_maximal(b, a, common_prefix_len(a, b));
}

/// Exactly one of `a < b`, `a == b`, `b < a` holds.
pub proof fn lemma_key_trichotomy(a: Seq<u8>, b: Seq<u8>)
    ensures
        key_lt(a, b) || a == b || key_lt(b, a),
        !(key_lt(a, b) && a == b),
        !(key_lt(a, b) && key_lt(b, a)),
{
    lemma_common_prefix(a, b);
    lemma_common_prefix_symmetric(a, b);
    let n = common_prefix_len(a, b);
    if n == a.len() && n == b.len() {
        assert(a == a.subrange(0, n));
        assert(b == b.subrange(0, n));
    }
}

/// The common prefix is the first place where two strings stop agreeing.
pub proof fn lemma_common_prefix_at(a: Seq<u8>, b: Seq<u8>, k: int)
    requires
        0 <= k <= a.len(),
        k <= b.len(),
        a.subrange(0, k) == b.subrange(0, k),
        k == a.len() || k == b.len() || a[k] != b[k],
    ensures
        common_prefix_len(a, b) == k,
{
    lemma_common_prefix(a, b);
    lemma_common_prefix_maximal(a, b, k);
    let n = common_prefix_len(a, b);
    if n > k {
        assert(a.subrange(0, n)[k] == b.subrange(0, n)[k]);
        assert(a[k] == a.subrange(0, n)[k]);
        assert(b[k] == b.subrange(0, n)[k]);
    }
}

/// The lexicographic order is transitive.
pub proof fn lemma_key_lt_transitive(a: Seq<u8>, b: Seq<u8>, c: Seq<u8>)
    requires
        key_lt(a, b),
        key_lt(b, c),
    ensures
        key_lt(a, c),
{
    lemma_common_prefix(a, b);
    lemma_common_prefix(b, c);
    let k1 = common_prefix_len(a, b);
    let k2 = common_prefix_len(b, c);
    let m = if k1 < k2 { k1 } else { k2 };
    assert(a.subrange(0, m) =~= c.subrange(0, m)) by {
        assert forall|j: int| 0 <= j < m implies #[trigger] a.subrange(0, m)[j] == c.subrange(0, m)[j] by {
            assert(a.subrange(0, k1)[j] == b.subrange(0, k1)[j]);
            assert(b.subrange(0, k2)[j] == c.subrange(0, k2)[j]);
        }
    }
    if k1 < k2 {
        if k1 < a.len() {
            assert(b.subrange(0, k2)[k1] == c.subrange(0, k2)[k1]);
            lemma_common_prefix_at(a, c, k1);
        } else {
            lemma_common_prefix_at(a, c, k1);
        }
    } else if k2 < k1 {
        assert(a.subrange(0, k1)[k2] == b.subrange(0, k1)[k2]);
        lemma_common_prefix_at(a, c, k2);
    } else {
        lemma_common_prefix_at(a, c, k1);
    }
}

/// No key is below itself.
pub proof fn lemma_key_lt_irreflexive(a: Seq<u8>)
    ensures
        !key_lt(a, a),
{
    lemma_key_trichotomy(a, a);
}

/// `<=` on keys is transitive.
pub proof fn lemma_key_le_transitive(a: Seq<u8>, b: Seq<u8>, c: Seq<u8>)
    requires
        key_le(a, b),
        key_le(b, c),
    ensures
        key_le(a, c),
{
    if key_lt(a, b) && key_lt(b, c) {
        lemma_key_lt_transitive(a, b, c);
    }
}

/// A key below one that is at most a third is below the third.
pub proof fn lemma_key_lt_le(a: Seq<u8>, b: Seq<u8>, c: Seq<u8>)
    requires
        key_lt(a, b),
        key_le(b, c),
    ensures
        key_lt(a, c),
{
    if key_lt(b, c) {
        lemma_key_lt_transitive(a, b, c);
    }
}

/// A key at most one that is below a third is below the third.
pub proof fn lemma_key_le_lt(a: Seq<u8>, b: Seq<u8>, c: Seq<u8>)
    requires
        key_le(a, b),
        key_lt(b, c),
    ensures
        key_lt(a, c),
{
    if key_lt(a, b) {
        lemma_key_lt_transitive(a, b, c);
    }
}

/// The result of comparing two keys.
#[derive(PartialEq, Eq, Structural, Clone, Copy, Debug)]
pub enum KeyOrder {
    Less,
    Equal,
    Greater,
}

/// Computes the length of the longest common prefix of two byte strings.
pub fn common_prefix(a: &[u8], b: &[u8]) -> (n: usize)
    ensures
        n as int == common_prefix_len(a@, b@),
        n <= a@.len(),
        n <= b@.len(),
{
    let mut i: usize = 0;
    while i < a.len() && i < b.len() && a[i] == b[i]
        invariant
            i <= a@.len(),
            i <= b@.len(),
            common_prefix_from(a@, b@, i as int) == common_prefix_len(a@, b@),
        decreases a@.len() - i,
    {
        i = i + 1;
    }
    proof {
        lemma_common_prefix(a@, b@);
    }
    i
}

/// Compares two keys lexicographically.
pub fn compare_keys(a: &[u8], b: &[u8]) -> (r: KeyOrder)
    ensures
        r == KeyOrder::Less <==> key_lt(a@, b@),
        r == KeyOrder::Equal <==> a@ == b@,
        r == KeyOrder::Greater <==> key_lt(b@, a@),
{
    proof {
        lemma_key_trichotomy(a@, b@);
        lemma_common_prefix(a@, b@);
        lemma_common_prefix_symmetric(a@, b@);
    }
    let n = common_prefix(a, b);
    if n == a.len() && n == b.len() {
        proof {
            assert(a@ == a@.subrange(0, n as int));
            assert(b@ == b@.subrange(0, n as int));
        }
        KeyOrder::Equal
    } else if n == a.len() {
        KeyOrder::Less
    } else if n == b.len() {
        KeyOrder::Greater
    } else if a[n] < b[n] {
        KeyOrder::Less
    } else {
        KeyOrder::Greater
    }
}

/// Tells whether `a < b` in the lexicographic order.
pub fn key_less(a: &[u8], b: &[u8]) -> (r: bool)
    ensures
        r == key_lt(a@, b@),
{
    compare_keys(a, b) == KeyOrder::Less
}

/// Tells whether two keys are equal.
pub fn key_equal(a: &[u8], b: &[u8]) -> (r: bool)
    ensures
        r == (a@ == b@),
{
    compare_keys(a, b) == KeyOrder::Equal
}

} // verus!
