//! A block: the smallest unit of reading and caching, a sorted run of key-value entries.
//!
//! Layout of an encoded block:
//! `| data | offset (u16 LE) ... | number of entries (u16 LE) |`
//! and of each entry inside `data`:
//! `| overlap (u16) | rest length (u16) | rest of key | value length (u16) | value |`
//! where the key is the first `overlap` bytes of the block's first key followed by the rest.
use vstd::prelude::*;

use crate::key::key_lt;

verus! {

/// The shared byte buffer of the `bytes` crate.
#[verifier::external_type_specification]
#[verifier::external_body]
pub struct ExBytes(bytes::Bytes);

/// The bytes a `Bytes` buffer holds.
pub uninterp spec fn bytes_contents(b: bytes::Bytes) -> Seq<u8>;

/// Turns a vector into a `Bytes` buffer with the same bytes: `From<Vec<u8>>` of the `bytes`
/// crate keeps the vector's pointer and length.
#[verifier::external_body]
pub(crate) fn bytes_from_vec(v: Vec<u8>) -> (b: bytes::Bytes)
    ensures
        bytes_contents(b) == v@,
{
    bytes::Bytes::from(v)
}

/// The bytes of a `Bytes` buffer as a slice: its `Deref` gives the slice of its pointer and
/// length.
#[verifier::external_body]
pub(crate) fn bytes_as_slice(b: &bytes::Bytes) -> (s: &[u8])
    ensures
        s@ == bytes_contents(*b),
{
    b.as_ref()
}

/// A block is a collection of sorted key-value pairs.
pub struct Block {
    pub data: Vec<u8>,
    pub offsets: Vec<u16>,
}

/// Two little-endian bytes of a `u16`.
pub open spec fn le16(x: u16) -> Seq<u8> {
    seq![(x % 256) as u8, (x / 256) as u8]
}

/// The four little-endian bytes of a `u32`.
pub open spec fn le32(x: u32) -> Seq<u8> {
    seq![(x % 256) as u8, ((x / 256) % 256) as u8, ((x / 65536) % 256) as u8, (x / 16777216) as u8]
}

/// The `u16` stored little-endian at position `p` of `s`.
pub open spec fn u16_at(s: Seq<u8>, p: int) -> u16 {
    (s[p] as int + 256 * (s[p + 1] as int)) as u16
}

/// The offsets section: every offset as two little-endian bytes, in order.
pub open spec fn offsets_bytes(offsets: Seq<u16>) -> Seq<u8>
    decreases offsets.len(),
{
    if offsets.len() == 0 {
        Seq::empty()
    } else {
        offsets_bytes(offsets.drop_last()) + le16(offsets.last())
    }
}

/// The bytes that `Block::encode` produces for a block with these fields.
pub open spec fn encode_block(data: Seq<u8>, offsets: Seq<u16>) -> Seq<u8> {
    data + offsets_bytes(offsets) + le16(offsets.len() as u16)
}

/// The number of entries recorded in the last two bytes of an encoded block.
pub open spec fn encoded_count(bytes: Seq<u8>) -> int {
    u16_at(bytes, bytes.len() - 2) as int
}

/// Where the offsets section of an encoded block starts.
pub open spec fn encoded_offsets_start(bytes: Seq<u8>) -> int {
    bytes.len() - 2 * encoded_count(bytes) - 2
}

/// An encoded block can be decoded: it holds the entry count and room for that many offsets.
pub open spec fn decodable(bytes: Seq<u8>) -> bool {
    bytes.len() >= 2 && encoded_offsets_start(bytes) >= 0
}

/// The data section of an encoded block.
pub open spec fn decoded_data(bytes: Seq<u8>) -> Seq<u8> {
    bytes.subrange(0, encoded_offsets_start(bytes))
}

/// The offsets of an encoded block.
pub open spec fn decoded_offsets(bytes: Seq<u8>) -> Seq<u16> {
    Seq::new(
        encoded_count(bytes) as nat,
        |i: int| u16_at(bytes, encoded_offsets_start(bytes) + 2 * i),
    )
}

/// Reading back the two little-endian bytes of a `u16` gives the number.
pub proof fn lemma_le16_roundtrip(x: u16)
    ensures
        u16_at(le16(x), 0) == x,
        le16(x).len() == 2,
{
}

/// Writing the `u16` read at `p` gives back the two bytes there.
pub proof fn lemma_le16_of_u16_at(s: Seq<u8>, p: int)
    requires
        0 <= p,
        p + 2 <= s.len(),
    ensures
        le16(u16_at(s, p)) == s.subrange(p, p + 2),
{
    let x = u16_at(s, p);
    assert(x as int == s[p] as int + 256 * (s[p + 1] as int));
    assert(le16(x) =~= s.subrange(p, p + 2));
}

/// The offsets section has two bytes per offset, and each offset reads back from its place.
pub proof fn lemma_offsets_bytes(offsets: Seq<u16>)
    ensures
        offsets_bytes(offsets).len() == 2 * offsets.len(),
        forall|i: int|
            0 <= i < offsets.len() ==> #[trigger] u16_at(offsets_bytes(offsets), 2 * i) == offsets[i],
    decreases offsets.len(),
{
    if offsets.len() > 0 {
        let init = offsets.drop_last();
        lemma_offsets_bytes(init);
        let s = offsets_bytes(offsets);
        assert(s == offsets_bytes(init) + le16(offsets.last()));
        assert forall|i: int| 0 <= i < offsets.len() implies #[trigger] u16_at(s, 2 * i) == offsets[i] by {
            if i < init.len() {
                assert(s[2 * i] == offsets_bytes(init)[2 * i]);
                assert(s[2 * i + 1] == offsets_bytes(init)[2 * i + 1]);
                assert(u16_at(offsets_bytes(init), 2 * i) == init[i]);
            } else {
                assert(s[2 * i] == le16(offsets.last())[0]);
                assert(s[2 * i + 1] == le16(offsets.last())[1]);
            }
        }
    }
}

/// Decoding an encoded block gives back the block (its offsets fit the `u16` count).
pub proof fn lemma_decode_encode(data: Seq<u8>, offsets: Seq<u16>)
    requires
        offsets.len() < 65536,
    ensures
        decodable(encode_block(data, offsets)),
        decoded_data(encode_block(data, offsets)) == data,
        decoded_offsets(encode_block(data, offsets)) == offsets,
{
    let bytes = encode_block(data, offsets);
    lemma_offsets_bytes(offsets);
    let ob = offsets_bytes(offsets);
    let n = offsets.len();
    assert(bytes.len() == data.len() + 2 * n + 2);
    assert(bytes[bytes.len() - 2] == le16(n as u16)[0]);
    assert(bytes[bytes.len() - 1] == le16(n as u16)[1]);
    assert(encoded_count(bytes) == n);
    assert(encoded_offsets_start(bytes) == data.len());
    assert(decoded_data(bytes) =~= data);
    assert forall|i: int| 0 <= i < n implies #[trigger] decoded_offsets(bytes)[i] == offsets[i] by {
        assert(bytes[data.len() + 2 * i] == ob[2 * i]);
        assert(bytes[data.len() + 2 * i + 1] == ob[2 * i + 1]);
        assert(u16_at(ob, 2 * i) == offsets[i]);
    }
    assert(decoded_offsets(bytes) =~= offsets);
}

/// Encoding a decoded block gives back the bytes it was decoded from.
pub proof fn lemma_encode_decode(bytes: Seq<u8>)
    requires
        decodable(bytes),
    ensures
        encode_block(decoded_data(bytes), decoded_offsets(bytes)) == bytes,
{
    let start = encoded_offsets_start(bytes);
    let offs = decoded_offsets(bytes);
    let n = offs.len();
    lemma_offsets_bytes(offs);
    let ob = offsets_bytes(offs);
    let e = encode_block(decoded_data(bytes), offs);
    assert(n as u16 == u16_at(bytes, bytes.len() - 2));
    lemma_le16_of_u16_at(bytes, bytes.len() - 2);
    assert forall|j: int| start <= j < start + 2 * n implies #[trigger] ob[j - start] == bytes[j] by {
        let i = (j - start) / 2;
        assert(0 <= i < n);
        assert(u16_at(ob, 2 * i) == offs[i]);
        lemma_le16_of_u16_at(bytes, start + 2 * i);
        lemma_le16_of_u16_at(ob, 2 * i);
        assert(ob.subrange(2 * i, 2 * i + 2) == bytes.subrange(start + 2 * i, start + 2 * i + 2));
        if j - start == 2 * i {
            assert(ob.subrange(2 * i, 2 * i + 2)[0] == bytes.subrange(start + 2 * i, start + 2 * i + 2)[0]);
        } else {
            assert(ob.subrange(2 * i, 2 * i + 2)[1] == bytes.subrange(start + 2 * i, start + 2 * i + 2)[1]);
        }
    }
    assert forall|j: int| 0 <= j < bytes.len() implies #[trigger] e[j] == bytes[j] by {
        if j < start {
        } else if j < start + 2 * n {
            assert(e[j] == ob[j - start]);
        } else {
            assert(e[j] == le16(n as u16)[j - start - 2 * n]);
            assert(bytes.subrange(bytes.len() - 2, bytes.len() as int)[j - start - 2 * n] == bytes[j]);
        }
    }
    assert(e =~= bytes);
}

/// The overlap length of the entry at position `p` of `data`.
pub open spec fn entry_overlap(data: Seq<u8>, p: int) -> int {
    u16_at(data, p) as int
}

/// The length of the non-shared rest of the key of the entry at `p`.
pub open spec fn entry_rest_len(data: Seq<u8>, p: int) -> int {
    u16_at(data, p + 2) as int
}

/// The non-shared rest of the key of the entry at `p`.
pub open spec fn entry_rest_key(data: Seq<u8>, p: int) -> Seq<u8> {
    data.subrange(p + 4, p + 4 + entry_rest_len(data, p))
}

/// The value length of the entry at `p`.
pub open spec fn entry_value_len(data: Seq<u8>, p: int) -> int {
    u16_at(data, p + 4 + entry_rest_len(data, p)) as int
}

/// Where the value of the entry at `p` starts.
pub open spec fn entry_value_start(data: Seq<u8>, p: int) -> int {
    p + 6 + entry_rest_len(data, p)
}

/// The value of the entry at `p`.
pub open spec fn entry_value(data: Seq<u8>, p: int) -> Seq<u8> {
    data.subrange(entry_value_start(data, p), entry_value_start(data, p) + entry_value_len(data, p))
}

/// The entry at `p` lies wholly inside `data`.
pub open spec fn entry_fits(data: Seq<u8>, p: int) -> bool {
    &&& 0 <= p
    &&& p + 4 <= data.len()
    &&& entry_value_start(data, p) <= data.len()
    &&& entry_value_start(data, p) + entry_value_len(data, p) <= data.len()
}

impl Block {
    /// The number of entries.
    pub open spec fn num_entries(&self) -> int {
        self.offsets@.len() as int
    }

    /// Where entry `i` starts in the data section.
    pub open spec fn entry_start(&self, i: int) -> int {
        self.offsets@[i] as int
    }

    /// The first key of the block, which every other key is compressed against.
    pub open spec fn first_key(&self) -> Seq<u8> {
        entry_rest_key(self.data@, self.entry_start(0))
    }

    /// The key of entry `i`: a prefix of the first key followed by the entry's rest.
    pub open spec fn key_at(&self, i: int) -> Seq<u8> {
        self.first_key().subrange(0, entry_overlap(self.data@, self.entry_start(i))) + entry_rest_key(
            self.data@,
            self.entry_start(i),
        )
    }

    /// The value of entry `i`.
    pub open spec fn value_at(&self, i: int) -> Seq<u8> {
        entry_value(self.data@, self.entry_start(i))
    }

    /// The block holds at least one entry, every entry lies inside the data, the first entry
    /// shares nothing, and no entry claims to share more than the first key holds.
    pub open spec fn wf(&self) -> bool {
        &&& self.num_entries() > 0
        &&& forall|i: int| 0 <= i < self.num_entries() ==> #[trigger] entry_fits(self.data@, self.entry_start(i))
        &&& entry_overlap(self.data@, self.entry_start(0)) == 0
        &&& forall|i: int|
            0 <= i < self.num_entries() ==> #[trigger] entry_overlap(self.data@, self.entry_start(i))
                <= self.first_key().len()
    }

    /// The keys of the block are strictly increasing.
    pub open spec fn sorted(&self) -> bool {
        forall|i: int, j: int|
            0 <= i < j < self.num_entries() ==> #[trigger] key_lt(self.key_at(i), self.key_at(j))
    }
}

/// Appends the two little-endian bytes of `x`.
pub fn put_u16_le(buf: &mut Vec<u8>, x: u16)
    ensures
        final(buf)@ == old(buf)@ + le16(x),
{
    buf.push((x % 256) as u8);
    buf.push((x / 256) as u8);
    proof {
        assert(final(buf)@ =~= old(buf)@ + le16(x));
    }
}

/// Appends the four little-endian bytes of `x`.
pub fn put_u32_le(buf: &mut Vec<u8>, x: u32)
    ensures
        final(buf)@ == old(buf)@ + le32(x),
{
    buf.push((x % 256) as u8);
    buf.push(((x / 256) % 256) as u8);
    buf.push(((x / 65536) % 256) as u8);
    buf.push((x / 16777216) as u8);
    proof {
        assert(final(buf)@ =~= old(buf)@ + le32(x));
    }
}

/// Appends all bytes of `src`.
pub fn put_slice(buf: &mut Vec<u8>, src: &[u8])
    ensures
        final(buf)@ == old(buf)@ + src@,
{
    let ghost start = buf@;
    let mut i: usize = 0;
    while i < src.len()
        invariant
            i <= src@.len(),
            buf@ == start + src@.subrange(0, i as int),
        decreases src@.len() - i,
    {
        buf.push(src[i]);
        i = i + 1;
        proof {
            assert(buf@ =~= start + src@.subrange(0, i as int));
        }
    }
    proof {
        assert(src@.subrange(0, i as int) =~= src@);
    }
}

/// Reads the little-endian `u16` at `pos`.
pub fn get_u16_le(bytes: &[u8], pos: usize) -> (x: u16)
    requires
        pos + 2 <= bytes@.len(),
    ensures
        x == u16_at(bytes@, pos as int),
{
    let lo = bytes[pos] as u16;
    let hi = bytes[pos + 1] as u16;
    lo + hi * 256
}

impl Block {
    /// Encodes the block: its data, then each offset, then the number of entries, all
    /// `u16` little-endian.
    pub fn encode(&self) -> (out: bytes::Bytes)
        ensures
            bytes_contents(out) == encode_block(self.data@, self.offsets@),
    {
        let mut buf: Vec<u8> = Vec::new();
        put_slice(&mut buf, self.data.as_slice());
        proof {
            assert(buf@ == self.data@);
        }
        let mut i: usize = 0;
        while i < self.offsets.len()
            invariant
                i <= self.offsets@.len(),
                buf@ == self.data@ + offsets_bytes(self.offsets@.subrange(0, i as int)),
            decreases self.offsets@.len() - i,
        {
            let ghost before = self.offsets@.subrange(0, i as int);
            put_u16_le(&mut buf, self.offsets[i]);
            i = i + 1;
            proof {
                let after = self.offsets@.subrange(0, i as int);
                assert(after.drop_last() =~= before);
                assert(after.last() == self.offsets@[i - 1]);
                assert(buf@ =~= self.data@ + offsets_bytes(after));
            }
        }
        proof {
            assert(self.offsets@.subrange(0, i as int) =~= self.offsets@);
        }
        let num_of_elements = self.offsets.len() as u16;
        put_u16_le(&mut buf, num_of_elements);
        bytes_from_vec(buf)
    }

    /// Decodes a block from its encoded layout.
    pub fn decode(data: &[u8]) -> (b: Block)
        requires
            decodable(data@),
        ensures
            b.data@ == decoded_data(data@),
            b.offsets@ == decoded_offsets(data@),
    {
        let data_len = data.len();
        let element_nums = get_u16_le(data, data_len - 2) as usize;
        let offset_start = data_len - element_nums * 2 - 2;
        let mut data_vec: Vec<u8> = Vec::new();
        put_slice(&mut data_vec, vstd::slice::slice_subrange(data, 0, offset_start));
        let mut offset_vec: Vec<u16> = Vec::new();
        let mut i: usize = 0;
        while i < element_nums
            invariant
                i <= element_nums,
                element_nums == encoded_count(data@),
                offset_start == encoded_offsets_start(data@),
                offset_start + 2 * element_nums + 2 == data@.len(),
                data_len == data@.len(),
                offset_vec@ == decoded_offsets(data@).subrange(0, i as int),
            decreases element_nums - i,
        {
            let start_position = offset_start + i * 2;
            let offset = get_u16_le(data, start_position);
            offset_vec.push(offset);
            i = i + 1;
            proof {
                assert(offset_vec@ =~= decoded_offsets(data@).subrange(0, i as int));
            }
        }
        proof {
            assert(offset_vec@ =~= decoded_offsets(data@));
        }
        Block { data: data_vec, offsets: offset_vec }
    }
}

} // verus!
