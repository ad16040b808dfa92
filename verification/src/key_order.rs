//! The order of memtable keys: by user key under the user's comparator, and
//! for equal user keys the higher sequence number first.

use vstd::prelude::*;
use std::cmp::Ordering;
use crate::types::Comparator;
use crate::key_types::{
    is_memtable_key, key_header, lemma_decode_entry, lemma_decode_lookup, memtable_entry,
    parse_memtable_key, parse_tag, tag_in, tag_seq, user_key_of,
};

verus! {

/// `a` sorts before `b` among memtable keys.
pub open spec fn key_lt<C: Comparator>(a: Seq<u8>, b: Seq<u8>) -> bool {
    ||| C::lt(user_key_of(a), user_key_of(b))
    ||| user_key_of(a) == user_key_of(b) && tag_seq(tag_in(a)) > tag_seq(tag_in(b))
}

/// Neither key sorts before the other: same user key and same sequence number.
pub open spec fn key_equiv(a: Seq<u8>, b: Seq<u8>) -> bool {
    user_key_of(a) == user_key_of(b) && tag_seq(tag_in(a)) == tag_seq(tag_in(b))
}

pub proof fn lemma_key_lt_irreflexive<C: Comparator>(a: Seq<u8>)
    ensures
        !key_lt::<C>(a, a),
{
    C::lemma_irreflexive(user_key_of(a));
}

pub proof fn lemma_key_lt_transitive<C: Comparator>(a: Seq<u8>, b: Seq<u8>, c: Seq<u8>)
    requires
        key_lt::<C>(a, b),
        key_lt::<C>(b, c),
    ensures
        key_lt::<C>(a, c),
{
    let (ua, ub, uc) = (user_key_of(a), user_key_of(b), user_key_of(c));
    if C::lt(ua, ub) && C::lt(ub, uc) {
        C::lemma_transitive(ua, ub, uc);
    }
}

/// Exactly one of: `a` before `b`, `b` before `a`, or the two equivalent.
pub proof fn lemma_key_trichotomy<C: Comparator>(a: Seq<u8>, b: Seq<u8>)
    ensures
        key_lt::<C>(a, b) || key_lt::<C>(b, a) || key_equiv(a, b),
        key_equiv(a, b) ==> !key_lt::<C>(a, b) && !key_lt::<C>(b, a),
        key_lt::<C>(a, b) ==> !key_lt::<C>(b, a),
{
    let (ua, ub) = (user_key_of(a), user_key_of(b));
    if ua != ub {
        C::lemma_connected(ua, ub);
    }
    C::lemma_irreflexive(ua);
    C::lemma_irreflexive(ub);
    if C::lt(ua, ub) && C::lt(ub, ua) {
        C::lemma_transitive(ua, ub, ua);
    }
}

/// Keys with different user keys are ordered as the user's comparator orders
/// those user keys; keys with the same user key put the higher sequence
/// number (the tag shifted right by eight) first.
pub proof fn lemma_key_lt_by_user_key<C: Comparator>(a: Seq<u8>, b: Seq<u8>)
    ensures
        user_key_of(a) != user_key_of(b) ==> (key_lt::<C>(a, b) <==> C::lt(
            user_key_of(a),
            user_key_of(b),
        )),
        user_key_of(a) == user_key_of(b) ==> (key_lt::<C>(a, b) <==> (tag_in(a) >> 8u64) > (tag_in(
            b,
        ) >> 8u64)),
{
    C::lemma_irreflexive(user_key_of(a));
}

/// The order of two stored entries in terms of what they were built from:
/// by user key under the user's comparator, then the higher sequence number
/// first.
pub proof fn lemma_entry_order<C: Comparator>(
    k1: Seq<u8>,
    t1: u64,
    v1: Seq<u8>,
    k2: Seq<u8>,
    t2: u64,
    v2: Seq<u8>,
)
    ensures
        key_lt::<C>(memtable_entry(k1, t1, v1), memtable_entry(k2, t2, v2)) <==> (C::lt(k1, k2) || (k1
            == k2 && (t1 >> 8u64) > (t2 >> 8u64))),
{
    lemma_decode_entry(k1, t1, v1);
    lemma_decode_entry(k2, t2, v2);
}

/// The order between a stored entry and a lookup key, in terms of what they
/// were built from.
pub proof fn lemma_entry_lookup_order<C: Comparator>(k1: Seq<u8>, t1: u64, v1: Seq<u8>, k2: Seq<u8>, t2: u64)
    ensures
        key_lt::<C>(memtable_entry(k1, t1, v1), key_header(k2, t2)) <==> (C::lt(k1, k2) || (k1 == k2
            && (t1 >> 8u64) > (t2 >> 8u64))),
        key_lt::<C>(key_header(k2, t2), memtable_entry(k1, t1, v1)) <==> (C::lt(k2, k1) || (k1 == k2
            && (t2 >> 8u64) > (t1 >> 8u64))),
{
    lemma_decode_entry(k1, t1, v1);
    lemma_decode_lookup(k2, t2);
}

/// Orders memtable keys: wraps the user's comparator for the user keys and
/// orders equal user keys by descending sequence number.
pub struct MemtableKeyCmp<C: Comparator>(pub C);

impl<C: Comparator> MemtableKeyCmp<C> {
    pub fn cmp(&self, a: &[u8], b: &[u8]) -> (r: Ordering)
        requires
            is_memtable_key(a@),
            is_memtable_key(b@),
        ensures
            (r == Ordering::Less) == key_lt::<C>(a@, b@),
            (r == Ordering::Equal) == key_equiv(a@, b@),
            (r == Ordering::Greater) == key_lt::<C>(b@, a@),
    {
        proof {
            lemma_key_trichotomy::<C>(a@, b@);
        }
        let (akeylen, akeyoff, atag, _, _) = parse_memtable_key(a);
        let (bkeylen, bkeyoff, btag, _, _) = parse_memtable_key(b);
        let userkey_a = vstd::slice::slice_subrange(a, akeyoff, akeyoff + akeylen);
        let userkey_b = vstd::slice::slice_subrange(b, bkeyoff, bkeyoff + bkeylen);
        match C::cmp(userkey_a, userkey_b) {
            Ordering::Less => Ordering::Less,
            Ordering::Greater => Ordering::Greater,
            Ordering::Equal => {
                let (_, aseq) = parse_tag(atag);
                let (_, bseq) = parse_tag(btag);
                // reverse: the newer entry comes first
                if bseq < aseq {
                    Ordering::Less
                } else if bseq == aseq {
                    Ordering::Equal
                } else {
                    Ordering::Greater
                }
            },
        }
    }
}

/// Whether memtable key `a` sorts before `b`.
pub fn memtable_key_lt<C: Comparator>(order: &MemtableKeyCmp<C>, a: &[u8], b: &[u8]) -> (r: bool)
    requires
        is_memtable_key(a@),
        is_memtable_key(b@),
    ensures
        r == key_lt::<C>(a@, b@),
{
    match order.cmp(a, b) {
        Ordering::Less => true,
        _ => false,
    }
}

} // verus!
