//! One key/value record: `[key length: 4][value length: 4][key][value]`, with
//! the two lengths as big-endian unsigned 32-bit integers.
use vstd::prelude::*;
use crate::bytes::{be32, from_be32, splice, lemma_be32_round_trip, put_u32_at, put_bytes_at,
    get_u32_at, get_bytes_at};

verus! {

/// Largest key or value length that the 4-byte prefix can carry.
pub const MAX_FIELD_LEN: u64 = 0xffff_ffff;

/// A record: a key and a value, each a run of bytes of any length up to
/// `MAX_FIELD_LEN`.
#[derive(Debug)]
pub struct KV {
    pub key: Vec<u8>,
    pub val: Vec<u8>,
}

impl PartialEq for KV {
    fn eq(&self, o: &KV) -> (r: bool) {
        let r = self.key == o.key && self.val == o.val;
        proof {
            if r {
                assert(self.key@ =~= o.key@);
                assert(self.val@ =~= o.val@);
            }
        }
        r
    }
}

impl vstd::std_specs::cmp::PartialEqSpecImpl for KV {
    open spec fn obeys_eq_spec() -> bool {
        true
    }

    open spec fn eq_spec(&self, o: &KV) -> bool {
        self.key@ == o.key@ && self.val@ == o.val@
    }
}

impl Eq for KV {
}

impl Default for KV {
    fn default() -> (r: KV)
        ensures
            r.key@.len() == 0,
            r.val@.len() == 0,
    {
        KV { key: Vec::new(), val: Vec::new() }
    }
}

/// Why a record could not be encoded or decoded.
#[derive(Debug, Clone, Copy, PartialEq, Eq, Structural)]
pub enum CodecError {
    /// The destination has fewer bytes left than the encoded record needs.
    OutOfSpace,
    /// The source ends before the header or the body of a record does.
    Truncated,
}

/// The bytes of the record with key `k` and value `v`.
pub open spec fn encode(k: Seq<u8>, v: Seq<u8>) -> Seq<u8> {
    be32(k.len() as u32) + be32(v.len() as u32) + k + v
}

/// Whether both fields fit the 32-bit length prefix.
pub open spec fn encodable(k: Seq<u8>, v: Seq<u8>) -> bool {
    k.len() <= MAX_FIELD_LEN && v.len() <= MAX_FIELD_LEN
}

/// The record that starts at `pos` in `s`, with the offset just past it, or
/// `None` when `s` ends before its header or its body does.
pub open spec fn decode_at(s: Seq<u8>, pos: int) -> Option<(Seq<u8>, Seq<u8>, int)> {
    if pos + 8 > s.len() {
        None
    } else {
        let klen = from_be32(s.skip(pos)) as int;
        let vlen = from_be32(s.skip(pos + 4)) as int;
        let end = pos + 8 + klen + vlen;
        if end > s.len() {
            None
        } else {
            Some((s.subrange(pos + 8, pos + 8 + klen), s.subrange(pos + 8 + klen, end), end))
        }
    }
}

/// Decoding at `pos` the bytes that encoding a record put there gives back
/// that record and the offset just past it, whatever the rest of the region
/// holds.
pub proof fn lemma_decode_encoded(s: Seq<u8>, pos: int, k: Seq<u8>, v: Seq<u8>)
    requires
        encodable(k, v),
        0 <= pos,
        pos + encode(k, v).len() <= s.len(),
    ensures
        decode_at(splice(s, pos, encode(k, v)), pos) == Some((k, v, pos + encode(k, v).len())),
{
    let e = encode(k, v);
    let t = splice(s, pos, e);
    lemma_be32_round_trip(k.len() as u32);
    lemma_be32_round_trip(v.len() as u32);
    assert(t.skip(pos).take(4) =~= be32(k.len() as u32));
    assert(t.skip(pos + 4).take(4) =~= be32(v.len() as u32));
    assert(from_be32(t.skip(pos)) == from_be32(be32(k.len() as u32)));
    assert(from_be32(t.skip(pos + 4)) == from_be32(be32(v.len() as u32)));
    assert(t.subrange(pos + 8, pos + 8 + k.len()) =~= k);
    assert(t.subrange(pos + 8 + k.len(), pos + 8 + k.len() + v.len()) =~= v);
}

/// Decoding the encoding of a record gives back that record, and consumes
/// all of its bytes.
pub proof fn lemma_round_trip(k: Seq<u8>, v: Seq<u8>)
    requires
        encodable(k, v),
    ensures
        decode_at(encode(k, v), 0) == Some((k, v, encode(k, v).len() as int)),
        encode(k, v).len() == 8 + k.len() + v.len(),
{
    let e = encode(k, v);
    lemma_decode_encoded(e, 0, k, v);
    assert(splice(e, 0, e) =~= e);
}

/// Two records have the same encoding exactly when they are the same record:
/// encoding the same record twice gives the same bytes, and no two records
/// share an encoding.
pub proof fn lemma_encoding_deterministic(k1: Seq<u8>, v1: Seq<u8>, k2: Seq<u8>, v2: Seq<u8>)
    requires
        encodable(k1, v1),
        encodable(k2, v2),
    ensures
        (encode(k1, v1) == encode(k2, v2)) <==> (k1 == k2 && v1 == v2),
{
    lemma_round_trip(k1, v1);
    lemma_round_trip(k2, v2);
}

/// A record with an empty key and an empty value encodes to a header of
/// eight zero bytes, and decodes back to empty fields.
pub proof fn lemma_empty_fields(k: Seq<u8>, v: Seq<u8>)
    requires
        encodable(k, v),
    ensures
        k.len() == 0 && v.len() == 0 ==> encode(k, v) =~= seq![0u8, 0, 0, 0, 0, 0, 0, 0],
        encode(k, v).len() == 8 + k.len() + v.len(),
        decode_at(encode(k, v), 0) == Some((k, v, 8 + k.len() + v.len() as int)),
{
    lemma_round_trip(k, v);
    if k.len() == 0 && v.len() == 0 {
        assert((0u32 >> 24u32) as u8 == 0 && (0u32 >> 16u32) as u8 == 0 && (0u32 >> 8u32) as u8
            == 0 && 0u32 as u8 == 0) by (bit_vector);
    }
}

/// Every proper prefix of a record's encoding is truncated: decoding it fails
/// rather than yielding a partial record.
pub proof fn lemma_truncated_prefix(k: Seq<u8>, v: Seq<u8>, m: int)
    requires
        encodable(k, v),
        0 <= m < encode(k, v).len(),
    ensures
        decode_at(encode(k, v).take(m), 0) is None,
{
    let e = encode(k, v);
    let t = e.take(m);
    lemma_round_trip(k, v);
    if m >= 8 {
        assert(t.skip(0).take(4) =~= e.skip(0).take(4));
        assert(t.skip(4).take(4) =~= e.skip(4).take(4));
        assert(from_be32(t.skip(0)) == from_be32(e.skip(0)));
        assert(from_be32(t.skip(4)) == from_be32(e.skip(4)));
    }
}

impl KV {
    /// How many bytes this record takes once encoded.
    pub fn encoded_len(&self) -> (r: u64)
        requires
            encodable(self.key@, self.val@),
        ensures
            r == encode(self.key@, self.val@).len(),
    {
        proof {
            lemma_round_trip(self.key@, self.val@);
        }
        8 + self.key.len() as u64 + self.val.len() as u64
    }

    /// Decodes the record that starts at `pos` in `buf` and returns it with
    /// the offset just past it; fails with `Truncated` when `buf` ends before
    /// its header or its body does.
    pub fn read(buf: &[u8], pos: usize) -> (r: Result<(KV, usize), CodecError>)
        ensures
            match decode_at(buf@, pos as int) {
                Some((k, v, end)) => r matches Ok((kv, p)) && kv.key@ == k && kv.val@ == v
                    && p == end,
                None => r == Err::<(KV, usize), CodecError>(CodecError::Truncated),
            },
    {
        if pos > buf.len() {
            return Err(CodecError::Truncated);
        }
        let klen = match get_u32_at(buf, pos) {
            Some(n) => n,
            None => return Err(CodecError::Truncated),
        };
        if buf.len() - pos < 8 {
            return Err(CodecError::Truncated);
        }
        let vlen = match get_u32_at(buf, pos + 4) {
            Some(n) => n,
            None => return Err(CodecError::Truncated),
        };
        let body = pos + 8;
        if ((buf.len() - body) as u64) < klen as u64 + vlen as u64 {
            return Err(CodecError::Truncated);
        }
        let key = get_bytes_at(buf, body, klen as usize);
        let val = get_bytes_at(buf, body + klen as usize, vlen as usize);
        Ok((KV { key, val }, body + klen as usize + vlen as usize))
    }

    /// Encodes this record into `buf` at `pos` and returns the offset just
    /// past it; leaves `buf` untouched when the record does not fit.
    pub fn write(&self, buf: &mut [u8], pos: usize) -> (r: Result<usize, CodecError>)
        requires
            encodable(self.key@, self.val@),
        ensures
            match r {
                Ok(p) => p == pos + encode(self.key@, self.val@).len() && p <= old(buf)@.len()
                    && final(buf)@ == splice(old(buf)@, pos as int, encode(self.key@, self.val@)),
                Err(e) => e == CodecError::OutOfSpace && pos + encode(self.key@, self.val@).len()
                    > old(buf)@.len() && final(buf)@ == old(buf)@,
            },
    {
        let klen = self.key.len();
        let vlen = self.val.len();
        if pos > buf.len() {
            return Err(CodecError::OutOfSpace);
        }
        let room = buf.len() - pos;
        if room < 8 || ((room - 8) as u64) < klen as u64 + vlen as u64 {
            return Err(CodecError::OutOfSpace);
        }
        let ghost s0 = buf@;
        put_u32_at(buf, pos, klen as u32);
        put_u32_at(buf, pos + 4, vlen as u32);
        put_bytes_at(buf, pos + 8, self.key.as_slice());
        put_bytes_at(buf, pos + 8 + klen, self.val.as_slice());
        assert(buf@ =~= splice(s0, pos as int, encode(self.key@, self.val@)));
        Ok(pos + 8 + klen + vlen)
    }
}

} // verus!
