//! The byte layout of memtable keys and lookup keys.
//!
//! A memtable key is the bytestring
//! `varint(keylen + 8) ++ key ++ tag (8 bytes, little-endian) ++ varint(vallen) ++ value`,
//! where the tag holds the sequence number above the low byte and the value
//! type in the low byte. A lookup key is the same without the value part.

use vstd::prelude::*;
use crate::coding::{
    decode_fixed64, decode_varint, encode_fixed64, encode_varint, le64, lemma_le64_injective,
    lemma_le64_roundtrip, lemma_varint_len, lemma_varint_prefix_unique, varint,
};
use crate::types::{SequenceNumber, ValueType};

verus! {

/// Number of bytes of a fixed-size `u64`, the size of a tag.
pub const U64_SPACE: usize = 8;

/// The tag of an entry: the sequence number shifted above the low byte, which
/// holds the value type. Bits of `seq` above the low 56 are shifted out.
pub open spec fn tag_of(t: ValueType, seq: SequenceNumber) -> u64 {
    (seq << 8u64) | t.type_code()
}

/// The sequence number a tag carries.
pub open spec fn tag_seq(tag: u64) -> u64 {
    tag >> 8u64
}

/// The value type a tag carries: a zero low byte means a deletion, anything
/// else a value.
pub open spec fn tag_type(tag: u64) -> ValueType {
    if tag & 0xffu64 == 0 {
        ValueType::TypeDeletion
    } else {
        ValueType::TypeValue
    }
}

/// The part every memtable key starts with: the varint of the key length plus
/// eight, the user key, and the tag.
pub open spec fn key_header(k: Seq<u8>, tag: u64) -> Seq<u8> {
    varint((k.len() + 8) as nat) + k + le64(tag)
}

/// A full memtable entry key: the header followed by the value and its length.
pub open spec fn memtable_entry(k: Seq<u8>, tag: u64, v: Seq<u8>) -> Seq<u8> {
    key_header(k, tag) + varint(v.len()) + v
}

pub open spec fn has_header(a: Seq<u8>, k: Seq<u8>, tag: u64) -> bool {
    key_header(k, tag).is_prefix_of(a)
}

/// A key with a header and nothing after it, as lookups use.
pub open spec fn is_lookup_key(a: Seq<u8>) -> bool {
    exists|k: Seq<u8>, tag: u64| a == #[trigger] key_header(k, tag)
}

/// A key with a header and a value part, as the memtable stores.
pub open spec fn is_entry_key(a: Seq<u8>) -> bool {
    exists|k: Seq<u8>, tag: u64, v: Seq<u8>| a == #[trigger] memtable_entry(k, tag, v)
}

/// The keys that `parse_memtable_key` reads.
pub open spec fn is_memtable_key(a: Seq<u8>) -> bool {
    is_lookup_key(a) || is_entry_key(a)
}

/// The user key in the header of `a`.
pub open spec fn user_key_of(a: Seq<u8>) -> Seq<u8> {
    (choose|k: Seq<u8>, tag: u64| has_header(a, k, tag)).0
}

/// The tag in the header of `a`.
pub open spec fn tag_in(a: Seq<u8>) -> u64 {
    (choose|k: Seq<u8>, tag: u64| has_header(a, k, tag)).1
}

/// The value stored in entry key `a`.
pub open spec fn value_of(a: Seq<u8>) -> Seq<u8> {
    (choose|k: Seq<u8>, tag: u64, v: Seq<u8>| a == memtable_entry(k, tag, v)).2
}

/// The offset of the user key in `a`.
pub open spec fn key_offset_of(a: Seq<u8>) -> int {
    varint((user_key_of(a).len() + 8) as nat).len() as int
}

proof fn lemma_prefix_index(p: Seq<u8>, a: Seq<u8>, i: int)
    requires
        p.is_prefix_of(a),
        0 <= i < p.len(),
    ensures
        a[i] == p[i],
{
}

/// A header is determined by the bytes it starts: two headers at the start
/// of one bytestring are the same.
pub proof fn lemma_header_unique(a: Seq<u8>, k1: Seq<u8>, t1: u64, k2: Seq<u8>, t2: u64)
    requires
        has_header(a, k1, t1),
        has_header(a, k2, t2),
    ensures
        k1 == k2,
        t1 == t2,
{
    let n1 = (k1.len() + 8) as nat;
    let n2 = (k2.len() + 8) as nat;
    let h1 = key_header(k1, t1);
    let h2 = key_header(k2, t2);
    assert(varint(n1).is_prefix_of(a)) by {
        assert forall|i: int| 0 <= i < varint(n1).len() implies varint(n1)[i] == a[i] by {
            assert(h1[i] == varint(n1)[i]);
            lemma_prefix_index(h1, a, i);
        }
    }
    assert(varint(n2).is_prefix_of(a)) by {
        assert forall|i: int| 0 <= i < varint(n2).len() implies varint(n2)[i] == a[i] by {
            assert(h2[i] == varint(n2)[i]);
            lemma_prefix_index(h2, a, i);
        }
    }
    lemma_varint_prefix_unique(n1, n2, a);
    let off = varint(n1).len() as int;
    let kl = k1.len() as int;
    assert(k1 =~= k2) by {
        assert forall|i: int| 0 <= i < kl implies k1[i] == k2[i] by {
            assert(h1[off + i] == k1[i]);
            assert(h2[off + i] == k2[i]);
            lemma_prefix_index(h1, a, off + i);
            lemma_prefix_index(h2, a, off + i);
        }
    }
    lemma_le64_roundtrip(t1);
    lemma_le64_roundtrip(t2);
    assert(le64(t1) =~= le64(t2)) by {
        assert forall|i: int| 0 <= i < 8 implies le64(t1)[i] == le64(t2)[i] by {
            assert(h1[off + kl + i] == le64(t1)[i]);
            assert(h2[off + kl + i] == le64(t2)[i]);
            lemma_prefix_index(h1, a, off + kl + i);
            lemma_prefix_index(h2, a, off + kl + i);
        }
    }
    lemma_le64_injective(t1, t2);
}

/// The decoders read back the user key and tag of any key that starts with a
/// header.
pub proof fn lemma_decode_header(a: Seq<u8>, k: Seq<u8>, tag: u64)
    requires
        has_header(a, k, tag),
    ensures
        user_key_of(a) == k,
        tag_in(a) == tag,
{
    let (k2, t2) = choose|k2: Seq<u8>, t2: u64| has_header(a, k2, t2);
    lemma_header_unique(a, k, tag, k2, t2);
}

/// The decoders read back the user key, tag and value of an entry key.
pub proof fn lemma_decode_entry(k: Seq<u8>, tag: u64, v: Seq<u8>)
    ensures
        user_key_of(memtable_entry(k, tag, v)) == k,
        tag_in(memtable_entry(k, tag, v)) == tag,
        value_of(memtable_entry(k, tag, v)) == v,
        is_entry_key(memtable_entry(k, tag, v)),
        !is_lookup_key(memtable_entry(k, tag, v)),
{
    let a = memtable_entry(k, tag, v);
    let h = key_header(k, tag);
    assert(has_header(a, k, tag)) by {
        assert forall|i: int| 0 <= i < h.len() implies h[i] == a[i] by {}
    }
    lemma_decode_header(a, k, tag);
    assert(is_entry_key(a)) by {
        assert(a == memtable_entry(k, tag, v));
    }
    let (k2, t2, v2) = choose|k2: Seq<u8>, t2: u64, v2: Seq<u8>| a == memtable_entry(k2, t2, v2);
    let h2 = key_header(k2, t2);
    assert(has_header(a, k2, t2)) by {
        assert forall|i: int| 0 <= i < h2.len() implies h2[i] == a[i] by {}
    }
    lemma_header_unique(a, k, tag, k2, t2);
    let rest = a.skip(h.len() as int);
    assert(rest =~= varint(v.len()) + v);
    assert(rest =~= varint(v2.len()) + v2);
    assert(varint(v.len()).is_prefix_of(rest));
    assert(varint(v2.len()).is_prefix_of(rest));
    lemma_varint_prefix_unique(v.len(), v2.len(), rest);
    assert(v =~= v2) by {
        let o = varint(v.len()).len() as int;
        assert forall|i: int| 0 <= i < v.len() implies v[i] == v2[i] by {
            assert(rest[o + i] == v[i]);
            assert(rest[o + i] == v2[i]);
        }
    }
    lemma_varint_len(v.len());
    if is_lookup_key(a) {
        let (k3, t3) = choose|k3: Seq<u8>, t3: u64| a == key_header(k3, t3);
        let h3 = key_header(k3, t3);
        assert(has_header(a, k3, t3));
        lemma_header_unique(a, k, tag, k3, t3);
        assert(a.len() > h.len());
    }
}

/// The decoders read back the user key and tag of a lookup key.
pub proof fn lemma_decode_lookup(k: Seq<u8>, tag: u64)
    ensures
        user_key_of(key_header(k, tag)) == k,
        tag_in(key_header(k, tag)) == tag,
        is_lookup_key(key_header(k, tag)),
        !is_entry_key(key_header(k, tag)),
{
    let a = key_header(k, tag);
    assert(has_header(a, k, tag));
    lemma_decode_header(a, k, tag);
    if is_entry_key(a) {
        let (k2, t2, v2) = choose|k2: Seq<u8>, t2: u64, v2: Seq<u8>| a == memtable_entry(k2, t2, v2);
        lemma_decode_entry(k2, t2, v2);
        assert(is_lookup_key(a));
    }
}

/// Every key `parse_memtable_key` reads starts with a header.
pub proof fn lemma_memtable_key_header(a: Seq<u8>)
    requires
        is_memtable_key(a),
    ensures
        has_header(a, user_key_of(a), tag_in(a)),
        is_lookup_key(a) ==> a == key_header(user_key_of(a), tag_in(a)),
        is_entry_key(a) ==> a == memtable_entry(user_key_of(a), tag_in(a), value_of(a)),
{
    if is_lookup_key(a) {
        let (k, t) = choose|k: Seq<u8>, t: u64| a == key_header(k, t);
        lemma_decode_lookup(k, t);
    } else {
        let (k, t, v) = choose|k: Seq<u8>, t: u64, v: Seq<u8>| a == memtable_entry(k, t, v);
        lemma_decode_entry(k, t, v);
    }
}

/// A tag's type and sequence number read back: for sequence numbers below
/// 2^56, `parse_tag` undoes `tag_of`.
pub proof fn lemma_tag_roundtrip(t: ValueType, seq: SequenceNumber)
    requires
        seq < 0x100_0000_0000_0000,
    ensures
        tag_type(tag_of(t, seq)) == t,
        tag_seq(tag_of(t, seq)) == seq,
{
    let c = t.type_code();
    assert(c == 0 || c == 1);
    assert(seq < 0x100_0000_0000_0000u64 && (c == 0u64 || c == 1u64) ==> ((seq << 8u64) | c) >> 8u64
        == seq && ((seq << 8u64) | c) & 0xffu64 == c) by (bit_vector);
}

/// Appends the bytes of `src` to `dst`.
fn append_bytes(dst: &mut Vec<u8>, src: &[u8])
    ensures
        final(dst)@ == old(dst)@ + src@,
{
    let mut i: usize = 0;
    while i < src.len()
        invariant
            i <= src@.len(),
            dst@ == old(dst)@ + src@.subrange(0, i as int),
        decreases src@.len() - i,
    {
        dst.push(src[i]);
        i = i + 1;
        assert(dst@ =~= old(dst)@ + src@.subrange(0, i as int));
    }
    assert(src@.subrange(0, i as int) =~= src@);
}

/// Splits a tag into its value type and sequence number.
pub fn parse_tag(tag: u64) -> (r: (ValueType, u64))
    ensures
        r == (tag_type(tag), tag_seq(tag)),
{
    let seq = tag >> 8;
    let typ = tag & 0xff;
    match typ {
        0 => (ValueType::TypeDeletion, seq),
        1 => (ValueType::TypeValue, seq),
        _ => (ValueType::TypeValue, seq),
    }
}

/// Builds the tag of an entry of type `t` with sequence number `seq`.
pub fn build_tag(t: ValueType, seq: SequenceNumber) -> (tag: u64)
    ensures
        tag == tag_of(t, seq),
{
    (seq << 8) | t.code()
}

/// Encodes key and value into one memtable key:
/// `[key_size: varint, key_data, tag: u64, value_size: varint, value_data]`,
/// where `key_size` counts the key and the tag.
pub fn build_memtable_key(key: &[u8], value: &[u8], t: ValueType, seq: SequenceNumber) -> (r: Vec<u8>)
    requires
        key@.len() + U64_SPACE <= usize::MAX,
    ensures
        r@ == memtable_entry(key@, tag_of(t, seq), value@),
{
    let keysize = key.len() + U64_SPACE;
    let valsize = value.len();
    let mut buf: Vec<u8> = Vec::new();
    let keysize_bytes = encode_varint(keysize as u64);
    append_bytes(&mut buf, keysize_bytes.as_slice());
    append_bytes(&mut buf, key);
    let tag_bytes = encode_fixed64(build_tag(t, seq));
    append_bytes(&mut buf, tag_bytes.as_slice());
    let valsize_bytes = encode_varint(valsize as u64);
    append_bytes(&mut buf, valsize_bytes.as_slice());
    append_bytes(&mut buf, value);
    assert(buf@ =~= memtable_entry(key@, tag_of(t, seq), value@));
    buf
}

/// Parses a memtable key, returning (keylen, key offset, tag, vallen, val offset).
/// If the key only contains (keylen, key, tag), the value part is empty: vallen
/// is zero and the value offset is the end of the key.
#[verifier::spinoff_prover]
#[verifier::rlimit(50)]
pub fn parse_memtable_key(mkey: &[u8]) -> (r: (usize, usize, u64, usize, usize))
    requires
        is_memtable_key(mkey@),
    ensures
        r.0 == user_key_of(mkey@).len(),
        r.1 == key_offset_of(mkey@),
        r.1 + r.0 + 8 <= mkey@.len() <= usize::MAX,
        mkey@.subrange(r.1 as int, r.1 + r.0) == user_key_of(mkey@),
        r.2 == tag_in(mkey@),
        r.4 + r.3 == mkey@.len(),
        mkey@.subrange(r.4 as int, r.4 + r.3) == (if is_entry_key(mkey@) {
            value_of(mkey@)
        } else {
            Seq::<u8>::empty()
        }),
{
    proof {
        lemma_memtable_key_header(mkey@);
    }
    let ghost a = mkey@;
    let ghost k = user_key_of(a);
    let ghost tag = tag_in(a);
    let ghost n: nat = (k.len() + 8) as nat;
    let ghost h = key_header(k, tag);
    let total = mkey.len();
    proof {
        lemma_le64_roundtrip(tag);
        lemma_varint_len(n);
        assert(a.len() >= h.len());
        assert(total == a.len());
        assert(varint(n).is_prefix_of(a)) by {
            assert forall|i: int| 0 <= i < varint(n).len() implies varint(n)[i] == a[i] by {
                assert(h[i] == varint(n)[i]);
            }
        }
        assert(varint(((k.len() + 8) as u64) as nat) == varint(n));
    }
    let (n_dec, keyoff) = decode_varint(mkey).unwrap();
    let keylen: usize = (n_dec - 8) as usize;
    let mut i: usize = keyoff + keylen;
    assert(a.subrange(keyoff as int, i as int) =~= k) by {
        assert forall|j: int| 0 <= j < k.len() implies a.subrange(keyoff as int, i as int)[j] == k[j] by {
            assert(h[keyoff + j] == k[j]);
        }
    }
    if mkey.len() > i {
        let tag_bytes = vstd::slice::slice_subrange(mkey, i, i + 8);
        assert(tag_bytes@ =~= le64(tag)) by {
            assert forall|j: int| 0 <= j < 8 implies tag_bytes@[j] == le64(tag)[j] by {
                assert(h[i + j] == le64(tag)[j]);
            }
        }
        let tag_dec = decode_fixed64(tag_bytes).unwrap();
        i = i + 8;
        let rest = vstd::slice::slice_subrange(mkey, i, mkey.len());
        proof {
            if is_entry_key(a) {
                let v = value_of(a);
                assert(rest@ =~= varint(v.len()) + v);
                assert(varint(v.len()).is_prefix_of(rest@));
                assert(varint((v.len() as u64) as nat) == varint(v.len()));
            } else {
                assert(rest@.len() == 0);
            }
        }
        let (vallen, valoff) = match decode_varint(rest) {
            Some((vl, j)) => (vl as usize, i + j),
            None => (0, mkey.len()),
        };
        proof {
            if is_entry_key(a) {
                let v = value_of(a);
                assert(a.subrange(valoff as int, valoff + vallen) =~= v) by {
                    let o = varint(v.len()).len() as int;
                    assert forall|j: int| 0 <= j < v.len() implies a.subrange(
                        valoff as int,
                        valoff + vallen,
                    )[j] == v[j] by {
                        assert(rest@[o + j] == v[j]);
                    }
                }
            } else {
                assert(a.subrange(valoff as int, valoff + vallen) =~= Seq::<u8>::empty());
            }
        }
        (keylen, keyoff, tag_dec, vallen, valoff)
    } else {
        (keylen, keyoff, 0, 0, 0)
    }
}

/// A key to look up in the memtable: the header of a memtable key for a user
/// key and a sequence number, with the value type set to `TypeValue`.
pub struct LookupKey {
    key: Vec<u8>,
    key_offset: usize,
}

impl View for LookupKey {
    type V = Seq<u8>;

    closed spec fn view(&self) -> Seq<u8> {
        self.key@
    }
}

impl LookupKey {
    #[verifier::type_invariant]
    spec fn inv(self) -> bool {
        &&& is_lookup_key(self.key@)
        &&& self.key_offset == key_offset_of(self.key@)
    }

    pub fn new(k: &[u8], s: SequenceNumber) -> (r: LookupKey)
        requires
            k@.len() + U64_SPACE <= usize::MAX,
        ensures
            r@ == key_header(k@, tag_of(ValueType::TypeValue, s)),
    {
        let internal_keylen = k.len() + U64_SPACE;
        let mut key: Vec<u8> = Vec::new();
        let keylen_bytes = encode_varint(internal_keylen as u64);
        append_bytes(&mut key, keylen_bytes.as_slice());
        append_bytes(&mut key, k);
        let tag_bytes = encode_fixed64(build_tag(ValueType::TypeValue, s));
        append_bytes(&mut key, tag_bytes.as_slice());
        let ghost tag = tag_of(ValueType::TypeValue, s);
        proof {
            assert(key@ =~= key_header(k@, tag));
            lemma_decode_lookup(k@, tag);
        }
        LookupKey { key, key_offset: keylen_bytes.len() }
    }

    /// The whole key, as the memtable compares it.
    pub fn memtable_key(&self) -> (r: &[u8])
        ensures
            r@ == self@,
            is_lookup_key(r@),
    {
        proof {
            use_type_invariant(self);
        }
        self.key.as_slice()
    }

    /// The user key within the lookup key.
    pub fn user_key(&self) -> (r: &[u8])
        ensures
            r@ == user_key_of(self@),
    {
        proof {
            use_type_invariant(self);
            lemma_memtable_key_header(self.key@);
            lemma_decode_lookup(user_key_of(self.key@), tag_in(self.key@));
        }
        let ghost k = user_key_of(self.key@);
        let ghost h = key_header(k, tag_in(self.key@));
        let r = vstd::slice::slice_subrange(self.key.as_slice(), self.key_offset, self.key.len() - 8);
        assert(r@ =~= k) by {
            assert forall|j: int| 0 <= j < k.len() implies r@[j] == k[j] by {
                assert(h[self.key_offset + j] == k[j]);
            }
        }
        r
    }

    /// The user key and the tag: the key without its length prefix.
    pub fn internal_key(&self) -> (r: &[u8])
        ensures
            r@ == user_key_of(self@) + le64(tag_in(self@)),
    {
        proof {
            use_type_invariant(self);
            lemma_memtable_key_header(self.key@);
            lemma_le64_roundtrip(tag_in(self.key@));
        }
        let ghost k = user_key_of(self.key@);
        let ghost h = key_header(k, tag_in(self.key@));
        let r = vstd::slice::slice_subrange(self.key.as_slice(), self.key_offset, self.key.len());
        assert(r@ =~= k + le64(tag_in(self.key@)));
        r
    }
}

} // verus!
