//! A bloom filter over 32-bit key fingerprints: a bit array in which each fingerprint sets
//! a few probed bits. Every fingerprint the filter was built from tests positive.
use vstd::prelude::*;

verus! {

/// Bits per key that give a false-positive rate of about one percent.
pub const BITS_PER_KEY: usize = 10;

/// A bloom filter: the bit array, bit `i` being bit `i % 8` of byte `i / 8`, and the number of
/// probes per fingerprint.
pub struct Bloom {
    pub filter: Vec<u8>,
    pub k: u8,
}

/// The step between two probes of fingerprint `h`: `h` rotated left by 15 bits.
pub open spec fn probe_delta(h: u32) -> u32 {
    (h << 15u32) | (h >> 17u32)
}

/// Probe `i` of fingerprint `h`: `h` moved on `i` times by its step, wrapping around.
pub open spec fn probe(h: u32, i: nat) -> u32
    decreases i,
{
    if i == 0 {
        h
    } else {
        let p = probe(h, (i - 1) as nat);
        let d = probe_delta(h);
        if p + d > u32::MAX {
            (p + d - 0x1_0000_0000) as u32
        } else {
            (p + d) as u32
        }
    }
}

/// Bit `pos` of the filter is set.
pub open spec fn bit_set(filter: Seq<u8>, pos: int) -> bool {
    (filter[pos / 8] >> ((pos % 8) as u8)) & 1u8 == 1u8
}

/// The bit that probe `i` of `h` lands on in a filter of `nbits` bits.
pub open spec fn probe_bit(h: u32, i: nat, nbits: int) -> int {
    (probe(h, i) as int) % nbits
}

/// The filter holds `h`: each of the first `k` probes of `h` lands on a set bit.
pub open spec fn holds(filter: Seq<u8>, k: nat, h: u32) -> bool {
    forall|i: nat| i < k ==> #[trigger] bit_set(filter, probe_bit(h, i, 8 * filter.len() as int))
}

/// Bit `pos` is one that probe `i < k` of fingerprint `keys[j]` lands on, for a `j` before `n`.
pub open spec fn probed(keys: Seq<u32>, n: int, k: nat, nbits: int, pos: int) -> bool {
    exists|j: int, i: nat| 0 <= j < n && i < k && #[trigger] probe_bit(keys[j], i, nbits) == pos
}

/// The number of probes for the bits per key: about 0.69 of them, at least 1 and at most 30.
pub open spec fn probes_for(bits_per_key: usize) -> u8 {
    let k = bits_per_key * 69 / 100;
    if k < 1 {
        1
    } else if k > 30 {
        30
    } else {
        k as u8
    }
}

/// The number of bytes of a filter for `n` keys: the bits per key for each key, at least 64
/// bits, rounded up to whole bytes.
pub open spec fn filter_bytes(n: int, bits_per_key: int) -> int {
    let nbits = if n * bits_per_key < 64 {
        64
    } else {
        n * bits_per_key
    };
    (nbits + 7) / 8
}

/// Setting bit `s` of a byte sets it.
proof fn lemma_set_bit(b: u8, s: u8)
    requires
        s < 8,
    ensures
        ((b | (1u8 << s)) >> s) & 1u8 == 1u8,
{
    assert(((b | (1u8 << s)) >> s) & 1u8 == 1u8) by (bit_vector)
        requires
            s < 8,
    ;
}

/// Setting bit `s` of a byte leaves every other bit as it was.
proof fn lemma_set_bit_other(b: u8, s: u8, t: u8)
    requires
        s < 8,
        t < 8,
        s != t,
    ensures
        ((b | (1u8 << s)) >> t) & 1u8 == (b >> t) & 1u8,
{
    assert(((b | (1u8 << s)) >> t) & 1u8 == (b >> t) & 1u8) by (bit_vector)
        requires
            s < 8,
            t < 8,
            s != t,
    ;
}

/// No bit of a zero byte is set.
proof fn lemma_zero_bits(t: u8)
    requires
        t < 8,
    ensures
        (0u8 >> t) & 1u8 == 0u8,
{
    assert((0u8 >> t) & 1u8 == 0u8) by (bit_vector)
        requires
            t < 8,
    ;
}

impl Bloom {
    /// The filter has at least one byte and its bits can be counted.
    pub open spec fn wf(&self) -> bool {
        &&& self.filter@.len() > 0
        &&& 8 * self.filter@.len() <= usize::MAX
    }

    /// Sets bit `pos`, leaving every other bit as it was.
    fn set_bit(filter: &mut Vec<u8>, pos: usize)
        requires
            pos < 8 * old(filter)@.len(),
        ensures
            final(filter)@.len() == old(filter)@.len(),
            bit_set(final(filter)@, pos as int),
            forall|q: int| 0 <= q < 8 * old(filter)@.len() && q != pos ==> bit_set(final(filter)@, q) == bit_set(
                old(filter)@,
                q,
            ),
    {
        let idx = pos / 8;
        let shift = (pos % 8) as u8;
        let b = filter[idx];
        filter.set(idx, b | (1u8 << shift));
        proof {
            lemma_set_bit(b, shift);
            assert forall|q: int| 0 <= q < 8 * old(filter)@.len() && q != pos implies bit_set(final(filter)@, q)
                == bit_set(old(filter)@, q) by {
                if q / 8 == idx as int {
                    lemma_set_bit_other(b, shift, (q % 8) as u8);
                }
            }
        }
    }

    /// Whether bit `pos` is set.
    fn get_bit(&self, pos: usize) -> (r: bool)
        requires
            pos < 8 * self.filter@.len(),
        ensures
            r == bit_set(self.filter@, pos as int),
    {
        let shift = (pos % 8) as u8;
        (self.filter[pos / 8] >> shift) & 1u8 == 1u8
    }

    /// Builds a filter from the fingerprints of the keys with the given bits per key: each
    /// fingerprint sets the bits its probes land on, and no other bit is set.
    pub fn build_from_key_hashes(keys: &Vec<u32>, bits_per_key: usize) -> (r: Self)
        requires
            keys@.len() * bits_per_key + 71 <= usize::MAX,
        ensures
            r.wf(),
            r.k == probes_for(bits_per_key),
            r.filter@.len() == filter_bytes(keys@.len() as int, bits_per_key as int),
            forall|j: int| 0 <= j < keys@.len() ==> holds(r.filter@, r.k as nat, #[trigger] keys@[j]),
            forall|pos: int|
                0 <= pos < 8 * r.filter@.len() ==> (bit_set(r.filter@, pos) <==> probed(
                    keys@,
                    keys@.len() as int,
                    r.k as nat,
                    8 * r.filter@.len() as int,
                    pos,
                )),
    {
        let k0: u128 = (bits_per_key as u128) * 69 / 100;
        let k: u8 = if k0 < 1 {
            1
        } else if k0 > 30 {
            30
        } else {
            k0 as u8
        };
        let total = keys.len() * bits_per_key;
        let nbits0 = if total < 64 {
            64
        } else {
            total
        };
        let nbytes = (nbits0 + 7) / 8;
        let nbits = nbytes * 8;
        let mut filter: Vec<u8> = Vec::new();
        let mut z: usize = 0;
        while z < nbytes
            invariant
                z <= nbytes,
                filter@.len() == z,
                forall|b: int| 0 <= b < z ==> #[trigger] filter@[b] == 0u8,
            decreases nbytes - z,
        {
            filter.push(0u8);
            z = z + 1;
        }
        proof {
            assert forall|pos: int| 0 <= pos < nbits implies !bit_set(filter@, pos) by {
                lemma_zero_bits((pos % 8) as u8);
            }
        }
        let ghost ks = keys@;
        let mut j: usize = 0;
        while j < keys.len()
            invariant
                j <= ks.len(),
                ks == keys@,
                filter@.len() == nbytes,
                nbits == 8 * nbytes,
                nbytes > 0,
                forall|jj: int, i: nat|
                    0 <= jj < j && i < k ==> #[trigger] bit_set(filter@, probe_bit(ks[jj], i, nbits as int)),
                forall|pos: int|
                    0 <= pos < nbits ==> (bit_set(filter@, pos) <==> probed(ks, j as int, k as nat, nbits as int, pos)),
            decreases ks.len() - j,
        {
            let h0 = keys[j];
            let delta = (h0 << 15u32) | (h0 >> 17u32);
            let mut h = h0;
            let mut i: u8 = 0;
            while i < k
                invariant
                    i <= k,
                    j < ks.len(),
                    h0 == ks[j as int],
                    delta == probe_delta(h0),
                    h == probe(h0, i as nat),
                    filter@.len() == nbytes,
                    nbits == 8 * nbytes,
                    nbytes > 0,
                    forall|jj: int, ii: nat|
                        0 <= jj < j && ii < k ==> #[trigger] bit_set(filter@, probe_bit(ks[jj], ii, nbits as int)),
                    forall|ii: nat| ii < i ==> #[trigger] bit_set(filter@, probe_bit(h0, ii, nbits as int)),
                    forall|pos: int|
                        0 <= pos < nbits ==> (bit_set(filter@, pos) <==> (probed(ks, j as int, k as nat, nbits as int, pos)
                            || exists|ii: nat| ii < i && #[trigger] probe_bit(h0, ii, nbits as int) == pos)),
                decreases k - i,
            {
                let pos = (h as usize) % nbits;
                let ghost before = filter@;
                proof {
                    assert(pos as int == probe_bit(h0, i as nat, nbits as int));
                }
                Self::set_bit(&mut filter, pos);
                proof {
                    assert forall|jj: int, ii: nat| 0 <= jj < j && ii < k implies #[trigger] bit_set(
                        filter@,
                        probe_bit(ks[jj], ii, nbits as int),
                    ) by {
                        let q = probe_bit(ks[jj], ii, nbits as int);
                        assert(bit_set(before, q));
                    }
                    assert forall|ii: nat| ii < i + 1 implies #[trigger] bit_set(filter@, probe_bit(h0, ii, nbits as int)) by {
                        if ii < i {
                            assert(bit_set(before, probe_bit(h0, ii, nbits as int)));
                        }
                    }
                    assert forall|q: int| 0 <= q < nbits implies (bit_set(filter@, q) <==> (probed(
                        ks,
                        j as int,
                        k as nat,
                        nbits as int,
                        q,
                    ) || exists|ii: nat| ii < i + 1 && #[trigger] probe_bit(h0, ii, nbits as int) == q)) by {
                        if q == pos as int {
                            assert(probe_bit(h0, i as nat, nbits as int) == q);
                        } else {
                            if exists|ii: nat| ii < i + 1 && #[trigger] probe_bit(h0, ii, nbits as int) == q {
                                let ii = choose|ii: nat| ii < i + 1 && #[trigger] probe_bit(h0, ii, nbits as int) == q;
                                assert(ii < i);
                            }
                        }
                    }
                }
                h = h.wrapping_add(delta);
                i = i + 1;
            }
            proof {
                assert forall|q: int| 0 <= q < nbits implies (bit_set(filter@, q) <==> probed(
                    ks,
                    j + 1,
                    k as nat,
                    nbits as int,
                    q,
                )) by {
                    if bit_set(filter@, q) {
                        if !probed(ks, j as int, k as nat, nbits as int, q) {
                            let ii = choose|ii: nat| ii < k && #[trigger] probe_bit(h0, ii, nbits as int) == q;
                            assert(probe_bit(ks[j as int], ii, nbits as int) == q);
                        } else {
                            let (jj, ii) = choose|jj: int, ii: nat|
                                0 <= jj < j && ii < k && #[trigger] probe_bit(ks[jj], ii, nbits as int) == q;
                            assert(probe_bit(ks[jj], ii, nbits as int) == q);
                        }
                    }
                    if probed(ks, j + 1, k as nat, nbits as int, q) {
                        let (jj, ii) = choose|jj: int, ii: nat|
                            0 <= jj < j + 1 && ii < k && #[trigger] probe_bit(ks[jj], ii, nbits as int) == q;
                        if jj < j {
                            assert(probed(ks, j as int, k as nat, nbits as int, q));
                        } else {
                            assert(bit_set(filter@, probe_bit(h0, ii, nbits as int)));
                        }
                    }
                }
            }
            j = j + 1;
        }
        let r = Bloom { filter, k };
        proof {
            assert forall|jj: int| 0 <= jj < ks.len() implies holds(r.filter@, r.k as nat, #[trigger] ks[jj]) by {
                assert forall|i: nat| i < r.k implies #[trigger] bit_set(
                    r.filter@,
                    probe_bit(ks[jj], i, 8 * r.filter@.len() as int),
                ) by {
                    assert(bit_set(filter@, probe_bit(ks[jj], i, nbits as int)));
                }
            }
        }
        r
    }

    /// Whether the filter may contain fingerprint `h`: every one of its probes lands on a set
    /// bit (a filter with more than 30 probes says yes to everything).
    pub fn may_contain(&self, h: u32) -> (r: bool)
        requires
            self.wf(),
        ensures
            r == (self.k > 30 || holds(self.filter@, self.k as nat, h)),
    {
        if self.k > 30 {
            return true;
        }
        let nbits = self.filter.len() * 8;
        let delta = (h << 15u32) | (h >> 17u32);
        let mut p = h;
        let mut i: u8 = 0;
        while i < self.k
            invariant
                i <= self.k,
                self.k <= 30,
                self.wf(),
                nbits == 8 * self.filter@.len(),
                delta == probe_delta(h),
                p == probe(h, i as nat),
                forall|ii: nat| ii < i ==> #[trigger] bit_set(self.filter@, probe_bit(h, ii, nbits as int)),
            decreases self.k - i,
        {
            let pos = (p as usize) % nbits;
            if !self.get_bit(pos) {
                proof {
                    assert(pos as int == probe_bit(h, i as nat, nbits as int));
                    assert(!bit_set(self.filter@, probe_bit(h, i as nat, 8 * self.filter@.len() as int)));
                }
                return false;
            }
            p = p.wrapping_add(delta);
            i = i + 1;
        }
        true
    }

    /// Appends the filter's bytes and then its number of probes.
    pub fn encode(&self, buf: &mut Vec<u8>)
        ensures
            final(buf)@ == old(buf)@ + self.filter@ + seq![self.k],
    {
        crate::block::put_slice(buf, self.filter.as_slice());
        buf.push(self.k);
        proof {
            assert(final(buf)@ =~= old(buf)@ + self.filter@ + seq![self.k]);
        }
    }
}

} // verus!
