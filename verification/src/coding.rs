//! The integer encodings that memtable keys are built from, taken from the
//! `integer_encoding` crate: protobuf varints and fixed eight-byte
//! little-endian integers.

use vstd::prelude::*;
use integer_encoding::{FixedInt, VarInt};

verus! {

/// The protobuf varint of `v`: seven bits per byte, least significant group
/// first, the high bit set on every byte but the last.
pub open spec fn varint(v: nat) -> Seq<u8>
    decreases v,
{
    if v < 128 {
        seq![v as u8]
    } else {
        seq![(v % 128 + 128) as u8] + varint(v / 128)
    }
}

/// The eight little-endian bytes of `v`.
pub open spec fn le64(v: u64) -> Seq<u8> {
    seq![
        v as u8,
        (v >> 8u64) as u8,
        (v >> 16u64) as u8,
        (v >> 24u64) as u8,
        (v >> 32u64) as u8,
        (v >> 40u64) as u8,
        (v >> 48u64) as u8,
        (v >> 56u64) as u8,
    ]
}

/// The `u64` whose little-endian bytes are `b0` (lowest) to `b7` (highest).
pub open spec fn u64_from_le(b0: u8, b1: u8, b2: u8, b3: u8, b4: u8, b5: u8, b6: u8, b7: u8) -> u64 {
    (b0 as u64) | ((b1 as u64) << 8u64) | ((b2 as u64) << 16u64) | ((b3 as u64) << 24u64) | ((
    b4 as u64) << 32u64) | ((b5 as u64) << 40u64) | ((b6 as u64) << 48u64) | ((b7 as u64) << 56u64)
}

/// The `u64` read from the first eight bytes of `s` in little-endian order.
pub open spec fn le64_value(s: Seq<u8>) -> u64 {
    u64_from_le(s[0], s[1], s[2], s[3], s[4], s[5], s[6], s[7])
}

pub proof fn lemma_le64_roundtrip(v: u64)
    ensures
        le64(v).len() == 8,
        le64_value(le64(v)) == v,
{
    let s = le64(v);
    assert(s[0] == v as u8);
    assert(s[1] == (v >> 8u64) as u8);
    assert(s[2] == (v >> 16u64) as u8);
    assert(s[3] == (v >> 24u64) as u8);
    assert(s[4] == (v >> 32u64) as u8);
    assert(s[5] == (v >> 40u64) as u8);
    assert(s[6] == (v >> 48u64) as u8);
    assert(s[7] == (v >> 56u64) as u8);
    assert(u64_from_le(
        v as u8,
        (v >> 8u64) as u8,
        (v >> 16u64) as u8,
        (v >> 24u64) as u8,
        (v >> 32u64) as u8,
        (v >> 40u64) as u8,
        (v >> 48u64) as u8,
        (v >> 56u64) as u8,
    ) == v) by (bit_vector);
}

/// Equal little-endian encodings come from equal integers.
pub proof fn lemma_le64_injective(a: u64, b: u64)
    requires
        le64(a) == le64(b),
    ensures
        a == b,
{
    lemma_le64_roundtrip(a);
    lemma_le64_roundtrip(b);
}

pub proof fn lemma_varint_len(v: nat)
    ensures
        varint(v).len() >= 1,
    decreases v,
{
    if v >= 128 {
        lemma_varint_len(v / 128);
    }
}

/// No varint is a proper prefix of another, and each encodes one number: two
/// varints that both begin `s` are the same varint.
pub proof fn lemma_varint_prefix_unique(x: nat, y: nat, s: Seq<u8>)
    requires
        varint(x).is_prefix_of(s),
        varint(y).is_prefix_of(s),
    ensures
        x == y,
    decreases x,
{
    assert(varint(x)[0] == s[0]);
    assert(varint(y)[0] == s[0]);
    if x < 128 {
        if y >= 128 {
            assert(varint(y)[0] == (y % 128 + 128) as u8);
        }
    } else {
        if y < 128 {
            assert(varint(x)[0] == (x % 128 + 128) as u8);
        } else {
            let t = s.drop_first();
            assert(varint(x / 128).is_prefix_of(t)) by {
                assert forall|i: int| 0 <= i < varint(x / 128).len() implies varint(x / 128)[i]
                    == t[i] by {
                    assert(varint(x)[i + 1] == varint(x / 128)[i]);
                }
            }
            assert(varint(y / 128).is_prefix_of(t)) by {
                assert forall|i: int| 0 <= i < varint(y / 128).len() implies varint(y / 128)[i]
                    == t[i] by {
                    assert(varint(y)[i + 1] == varint(y / 128)[i]);
                }
            }
            lemma_varint_prefix_unique(x / 128, y / 128, t);
        }
    }
}

/// Encodes `v` as a varint with `VarInt::encode_var_vec` of `integer_encoding`;
/// the result is the protobuf varint of `v`.
#[verifier::external_body]
pub(crate) fn encode_varint(v: u64) -> (bytes: Vec<u8>)
    ensures
        bytes@ == varint(v as nat),
{
    v.encode_var_vec()
}

/// Decodes a varint at the start of `src` with `VarInt::decode_var` of
/// `integer_encoding` for `u64`. Where `src` begins with the varint of some
/// `v`, the result is `v` and the varint's length; an empty `src` gives
/// `None`; any other result consumed at least one and at most ten bytes of
/// `src`. What comes out of other malformed input is not stated.
#[verifier::external_body]
pub(crate) fn decode_varint(src: &[u8]) -> (r: Option<(u64, usize)>)
    ensures
        src@.len() == 0 ==> r is None,
        forall|v: u64| #[trigger]
            varint(v as nat).is_prefix_of(src@) ==> r == Some((v, varint(v as nat).len() as usize)),
        r matches Some((_, n)) ==> 1 <= n <= src@.len() && n <= 10,
{
    u64::decode_var(src)
}

/// Encodes `v` with `FixedInt::encode_fixed_vec` of `integer_encoding`: its
/// eight little-endian bytes.
#[verifier::external_body]
pub(crate) fn encode_fixed64(v: u64) -> (bytes: Vec<u8>)
    ensures
        bytes@ == le64(v),
{
    v.encode_fixed_vec()
}

/// Decodes `src` with `FixedInt::decode_fixed` of `integer_encoding` for
/// `u64`: the little-endian value of exactly eight bytes, `None` for any other
/// length.
#[verifier::external_body]
pub(crate) fn decode_fixed64(src: &[u8]) -> (r: Option<u64>)
    ensures
        src@.len() == 8 ==> r == Some(le64_value(src@)),
        src@.len() != 8 ==> r is None,
{
    u64::decode_fixed(src)
}

/// The number of bytes of a fixed-size `u64`, `FixedInt::ENCODED_SIZE` of
/// `integer_encoding`, which is the size of a `u64`.
#[verifier::external_body]
pub(crate) fn fixed64_len() -> (n: usize)
    ensures
        n == 8,
{
    <u64 as FixedInt>::ENCODED_SIZE
}

} // verus!
