//! The memtable: entries of the database kept in memory, sorted by user key
//! and, for one user key, newest first.

use vstd::prelude::*;
use crate::coding::{fixed64_len, le64};
use crate::key_order::{key_equiv, key_lt, lemma_key_trichotomy, MemtableKeyCmp};
use crate::key_types::{
    build_memtable_key, is_entry_key, is_memtable_key, key_header, lemma_decode_entry,
    lemma_decode_lookup, lemma_tag_roundtrip, memtable_entry, parse_memtable_key, tag_in, tag_of,
    tag_seq, user_key_of, value_of, LookupKey, U64_SPACE,
};
use crate::skipmap::{
    keys_of, lemma_insert_sorted, lemma_lower_bound, lemma_mem_size_insert, lower_bound, mem_size,
    valid_entries, SkipMap, SkipMapIter,
};
use crate::types::{
    compare_bytes, current_key_val, Comparator, LdbIterator, Options, SequenceNumber, Status,
    ValueType,
};

verus! {

/// The value part of a stored key; empty for a key without one.
pub open spec fn entry_value(a: Seq<u8>) -> Seq<u8> {
    if is_entry_key(a) {
        value_of(a)
    } else {
        Seq::empty()
    }
}

/// The key is tagged as a value (type byte 1) rather than a deletion.
pub open spec fn is_value_entry(a: Seq<u8>) -> bool {
    tag_in(a) & 0xffu64 == 1
}

/// The internal key of a stored key: the user key followed by the tag.
pub open spec fn internal_key_of(a: Seq<u8>) -> Seq<u8> {
    user_key_of(a) + le64(tag_in(a))
}

/// What `get` answers for lookup key `lk` on the entries `entries`: the first
/// entry not before `lk` decides; it must carry the same user key, and its
/// value is returned if it is tagged as a value.
pub open spec fn memtable_get<C: Comparator>(entries: Seq<(Seq<u8>, Seq<u8>)>, lk: Seq<u8>) -> Option<Seq<u8>> {
    let keys = keys_of(entries);
    let p = lower_bound::<C>(keys, lk);
    if p < keys.len() && user_key_of(keys[p]) == user_key_of(lk) && is_value_entry(keys[p]) {
        Some(entry_value(keys[p]))
    } else {
        None
    }
}

/// The index of the first value entry at or after `from`.
pub open spec fn next_value(entries: Seq<(Seq<u8>, Seq<u8>)>, from: int) -> Option<int>
    decreases entries.len() - from,
{
    if from < 0 || from >= entries.len() {
        None
    } else if is_value_entry(entries[from].0) {
        Some(from)
    } else {
        next_value(entries, from + 1)
    }
}

/// The index of the last value entry before `before`.
pub open spec fn prev_value(entries: Seq<(Seq<u8>, Seq<u8>)>, before: int) -> Option<int>
    decreases before,
{
    if before <= 0 || before > entries.len() {
        None
    } else if is_value_entry(entries[before - 1].0) {
        Some(before - 1)
    } else {
        prev_value(entries, before - 1)
    }
}

/// Provides Insert/Get/Iterate, based on the SkipMap implementation.
/// MemTable uses MemtableKeys internally, that is, it stores key and value in the SkipMap key.
pub struct MemTable<C: Comparator> {
    pub map: SkipMap<C>,
}

impl<C: Comparator> MemTable<C> {
    /// Returns a new MemTable.
    /// This wraps opt.cmp inside a MemtableKey-specific comparator.
    pub fn new(opt: Options<C>) -> (mt: MemTable<C>)
        ensures
            mt.map.wf(),
            mt.map@ == Seq::<(Seq<u8>, Seq<u8>)>::empty(),
    {
        MemTable::new_raw(MemtableKeyCmp(opt.cmp))
    }

    /// Doesn't wrap the comparator in a MemtableKeyCmp; takes it wrapped.
    pub fn new_raw(cmp: MemtableKeyCmp<C>) -> (mt: MemTable<C>)
        ensures
            mt.map.wf(),
            mt.map@ == Seq::<(Seq<u8>, Seq<u8>)>::empty(),
    {
        MemTable { map: SkipMap::new(cmp) }
    }

    pub fn approx_mem_usage(&self) -> (n: usize)
        requires
            self.map.wf(),
        ensures
            n == mem_size(self.map@),
    {
        self.map.approx_memory()
    }

    /// Adds an entry of type `t` for `key` with sequence number `seq`. No
    /// entry for the same key and sequence number may be present.
    pub fn add(&mut self, seq: SequenceNumber, t: ValueType, key: &[u8], value: &[u8])
        requires
            old(self).map.wf(),
            key@.len() + U64_SPACE <= usize::MAX,
            can_add(old(self).map@, seq, t, key@, value@),
            mem_size(old(self).map@) + memtable_entry(key@, tag_of(t, seq), value@).len()
                <= usize::MAX,
        ensures
            final(self).map.wf(),
            mem_size(final(self).map@) == mem_size(old(self).map@) + memtable_entry(
                key@,
                tag_of(t, seq),
                value@,
            ).len(),
            final(self).map@ == entries_after_add::<C>(old(self).map@, seq, t, key@, value@),
    {
        let k = build_memtable_key(key, value, t, seq);
        proof {
            lemma_decode_entry(key@, tag_of(t, seq), value@);
        }
        let ghost e = (k@, Seq::<u8>::empty());
        let ghost before = self.map@;
        proof {
            self.map.lemma_wf();
            lemma_lower_bound::<C>(keys_of(before), e.0);
        }
        self.map.insert(k, Vec::new());
        proof {
            lemma_mem_size_insert(before, lower_bound::<C>(keys_of(before), e.0), e);
        }
    }

    /// Looks up the newest entry for the user key of `key` whose sequence
    /// number is at most that of `key`; a deletion or no entry is `NotFound`.
    pub fn get(&self, key: &LookupKey) -> (r: Result<Vec<u8>, Status>)
        requires
            self.map.wf(),
        ensures
            match r {
                Ok(v) => memtable_get::<C>(self.map@, key@) == Some(v@),
                Err(s) => {
                    &&& memtable_get::<C>(self.map@, key@) is None
                    &&& s matches Status::NotFound(m) && m@ == Seq::<char>::empty()
                },
            },
    {
        let mut iter = self.map.iter();
        let lk = key.memtable_key();
        iter.seek(lk);
        let ghost keys = keys_of(self.map@);
        let ghost p = lower_bound::<C>(keys, key@);
        proof {
            iter.lemma_inv();
        }
        if let Some((foundkey, _)) = current_key_val(&iter) {
            assert(foundkey@ == keys[p]);
            let (fkeylen, fkeyoff, tag, vallen, valoff) = parse_memtable_key(foundkey.as_slice());
            let found_user_key = vstd::slice::slice_subrange(
                foundkey.as_slice(),
                fkeyoff,
                fkeyoff + fkeylen,
            );
            // Compare user key -- if equal, proceed
            if compare_bytes(key.user_key(), found_user_key) == 0 {
                if tag & 0xff == ValueType::TypeValue.code() {
                    let v = vstd::slice::slice_to_vec(
                        vstd::slice::slice_subrange(foundkey.as_slice(), valoff, valoff + vallen),
                    );
                    return Ok(v);
                } else {
                    return Err(Status::NotFound(String::new()));
                }
            }
        }
        Err(Status::NotFound(String::new()))
    }

    pub fn iter(&self) -> (it: MemtableIterator<'_, C>)
        requires
            self.map.wf(),
        ensures
            it.inv(),
            it.entries() == self.map@,
            it.position() is None,
    {
        MemtableIterator { skipmapiter: self.map.iter() }
    }
}

/// Entry `i` is the newest entry for user key `k` that a read at sequence
/// number `s` sees: its sequence number is at most `s`, and no other entry for
/// `k` up to `s` is newer.
pub open spec fn is_newest_visible(entries: Seq<(Seq<u8>, Seq<u8>)>, k: Seq<u8>, s: u64, i: int) -> bool {
    &&& 0 <= i < entries.len()
    &&& user_key_of(entries[i].0) == k
    &&& tag_seq(tag_in(entries[i].0)) <= s
    &&& forall|j: int|
        0 <= j < entries.len() && user_key_of(#[trigger] entries[j].0) == k && tag_seq(
            tag_in(entries[j].0),
        ) <= s ==> tag_seq(tag_in(entries[j].0)) <= tag_seq(tag_in(entries[i].0))
}

/// A lookup of `(k, s)` lands on the newest entry for `k` visible at `s`, if
/// there is one, and only there.
proof fn lemma_seek_finds_newest<C: Comparator>(entries: Seq<(Seq<u8>, Seq<u8>)>, k: Seq<u8>, s: u64)
    requires
        valid_entries::<C>(entries),
        s < 0x100_0000_0000_0000,
    ensures
        ({
            let p = lower_bound::<C>(keys_of(entries), key_header(k, tag_of(ValueType::TypeValue, s)));
            &&& (p < entries.len() && user_key_of(entries[p].0) == k) ==> is_newest_visible(
                entries,
                k,
                s,
                p,
            )
            &&& forall|i: int| is_newest_visible(entries, k, s, i) ==> i == p
        }),
{
    let keys = keys_of(entries);
    let tag = tag_of(ValueType::TypeValue, s);
    let lk = key_header(k, tag);
    lemma_decode_lookup(k, tag);
    lemma_tag_roundtrip(ValueType::TypeValue, s);
    lemma_lower_bound::<C>(keys, lk);
    let p = lower_bound::<C>(keys, lk);
    assert forall|j: int| 0 <= j < keys.len() implies #[trigger] keys[j] == entries[j].0 by {}
    C::lemma_irreflexive(k);
    // Entries before p sort before the lookup key; the rest do not.
    assert forall|j: int|
        0 <= j < entries.len() && user_key_of(#[trigger] entries[j].0) == k && tag_seq(
            tag_in(entries[j].0),
        ) <= s implies j >= p by {
        if j < p {
            assert(key_lt::<C>(keys[j], lk));
        }
    }
    if p < entries.len() && user_key_of(entries[p].0) == k {
        assert(!key_lt::<C>(keys[p], lk));
        assert forall|j: int|
            0 <= j < entries.len() && user_key_of(#[trigger] entries[j].0) == k && tag_seq(
                tag_in(entries[j].0),
            ) <= s implies tag_seq(tag_in(entries[j].0)) <= tag_seq(tag_in(entries[p].0)) by {
            if j > p {
                assert(key_lt::<C>(keys[p], keys[j]));
            }
        }
    }
    assert forall|i: int| is_newest_visible(entries, k, s, i) implies i == p by {
        assert(i >= p);
        if i > p {
            assert(key_lt::<C>(keys[p], keys[i]));
            assert(!key_lt::<C>(keys[p], lk));
            lemma_key_trichotomy::<C>(keys[p], lk);
            assert(user_key_of(entries[p].0) == k);
            assert(tag_seq(tag_in(entries[p].0)) <= s);
        }
    }
}

/// What a lookup of user key `k` at sequence number `s` answers: the value of
/// the newest entry for `k` visible at `s` if that entry is a value, and
/// nothing if it is a deletion or there is no such entry.
pub proof fn lemma_get_newest_visible<C: Comparator>(entries: Seq<(Seq<u8>, Seq<u8>)>, k: Seq<u8>, s: u64)
    requires
        valid_entries::<C>(entries),
        s < 0x100_0000_0000_0000,
    ensures
        forall|i: int|
            is_newest_visible(entries, k, s, i) ==> memtable_get::<C>(
                entries,
                key_header(k, tag_of(ValueType::TypeValue, s)),
            ) == (if is_value_entry(entries[i].0) {
                Some(entry_value(entries[i].0))
            } else {
                None
            }),
        (forall|i: int| !is_newest_visible(entries, k, s, i)) ==> memtable_get::<C>(
            entries,
            key_header(k, tag_of(ValueType::TypeValue, s)),
        ) is None,
{
    lemma_seek_finds_newest::<C>(entries, k, s);
    lemma_decode_lookup(k, tag_of(ValueType::TypeValue, s));
    let p = lower_bound::<C>(keys_of(entries), key_header(k, tag_of(ValueType::TypeValue, s)));
    lemma_lower_bound::<C>(keys_of(entries), key_header(k, tag_of(ValueType::TypeValue, s)));
    if p < entries.len() {
        assert(keys_of(entries)[p] == entries[p].0);
        if user_key_of(entries[p].0) == k {
            assert(is_newest_visible(entries, k, s, p));
        }
    }
}

/// The state of the entries after `add(seq, t, k, v)`.
pub open spec fn entries_after_add<C: Comparator>(
    entries: Seq<(Seq<u8>, Seq<u8>)>,
    seq: SequenceNumber,
    t: ValueType,
    k: Seq<u8>,
    v: Seq<u8>,
) -> Seq<(Seq<u8>, Seq<u8>)> {
    let e = memtable_entry(k, tag_of(t, seq), v);
    entries.insert(lower_bound::<C>(keys_of(entries), e), (e, Seq::<u8>::empty()))
}

/// The precondition of `add(seq, t, k, v)` on the entries: no entry for `k`
/// with the same sequence number.
pub open spec fn can_add(entries: Seq<(Seq<u8>, Seq<u8>)>, seq: SequenceNumber, t: ValueType, k: Seq<u8>, v: Seq<u8>) -> bool {
    forall|i: int|
        0 <= i < entries.len() ==> !key_equiv(
            #[trigger] entries[i].0,
            memtable_entry(k, tag_of(t, seq), v),
        )
}

/// Adding an entry keeps the entries valid, and the new entry is the newest
/// one visible for its key at any later sequence number up to which no newer
/// entry for that key exists.
proof fn lemma_add_newest<C: Comparator>(
    entries: Seq<(Seq<u8>, Seq<u8>)>,
    seq: SequenceNumber,
    t: ValueType,
    k: Seq<u8>,
    v: Seq<u8>,
    s: u64,
)
    requires
        valid_entries::<C>(entries),
        can_add(entries, seq, t, k, v),
        seq <= s < 0x100_0000_0000_0000,
        forall|j: int|
            0 <= j < entries.len() && user_key_of(#[trigger] entries[j].0) == k ==> !(seq < tag_seq(
                tag_in(entries[j].0),
            ) <= s),
    ensures
        valid_entries::<C>(entries_after_add::<C>(entries, seq, t, k, v)),
        is_newest_visible(
            entries_after_add::<C>(entries, seq, t, k, v),
            k,
            s,
            lower_bound::<C>(keys_of(entries), memtable_entry(k, tag_of(t, seq), v)),
        ),
{
    let e = memtable_entry(k, tag_of(t, seq), v);
    let keys = keys_of(entries);
    let p = lower_bound::<C>(keys, e);
    let after = entries_after_add::<C>(entries, seq, t, k, v);
    lemma_decode_entry(k, tag_of(t, seq), v);
    lemma_tag_roundtrip(t, seq);
    lemma_lower_bound::<C>(keys, e);
    assert forall|i: int| 0 <= i < keys.len() implies !key_equiv(#[trigger] keys[i], e) by {
        assert(keys[i] == entries[i].0);
    }
    lemma_insert_sorted::<C>(keys, e);
    assert(keys_of(after) =~= keys.insert(p, e));
    assert forall|i: int| 0 <= i < after.len() implies is_memtable_key(#[trigger] after[i].0) by {
        if i < p {
            assert(after[i] == entries[i]);
        } else if i > p {
            assert(after[i] == entries[i - 1]);
        }
    }
    assert(after[p].0 == e);
    assert forall|j: int|
        0 <= j < after.len() && user_key_of(#[trigger] after[j].0) == k && tag_seq(
            tag_in(after[j].0),
        ) <= s implies tag_seq(tag_in(after[j].0)) <= tag_seq(tag_in(after[p].0)) by {
        if j < p {
            assert(after[j] == entries[j]);
        } else if j > p {
            assert(after[j] == entries[j - 1]);
        }
    }
}

/// A read gives back what a write wrote: after `add(seq, TypeValue, k, v)`,
/// a lookup of `k` at any sequence number `s` from `seq` on, up to which no
/// newer entry for `k` exists, returns `v`.
pub proof fn lemma_add_then_get<C: Comparator>(
    entries: Seq<(Seq<u8>, Seq<u8>)>,
    seq: SequenceNumber,
    k: Seq<u8>,
    v: Seq<u8>,
    s: u64,
)
    requires
        valid_entries::<C>(entries),
        can_add(entries, seq, ValueType::TypeValue, k, v),
        seq <= s < 0x100_0000_0000_0000,
        forall|j: int|
            0 <= j < entries.len() && user_key_of(#[trigger] entries[j].0) == k ==> !(seq < tag_seq(
                tag_in(entries[j].0),
            ) <= s),
    ensures
        memtable_get::<C>(
            entries_after_add::<C>(entries, seq, ValueType::TypeValue, k, v),
            key_header(k, tag_of(ValueType::TypeValue, s)),
        ) == Some(v),
{
    let e = memtable_entry(k, tag_of(ValueType::TypeValue, seq), v);
    let after = entries_after_add::<C>(entries, seq, ValueType::TypeValue, k, v);
    let p = lower_bound::<C>(keys_of(entries), e);
    lemma_add_newest::<C>(entries, seq, ValueType::TypeValue, k, v, s);
    lemma_get_newest_visible::<C>(after, k, s);
    lemma_decode_entry(k, tag_of(ValueType::TypeValue, seq), v);
    lemma_lower_bound::<C>(keys_of(entries), e);
    assert(after == entries.insert(p, (e, Seq::<u8>::empty())));
    assert(after[p].0 == e);
    assert(((seq << 8u64) | 1u64) & 0xffu64 == 1u64) by (bit_vector);
    assert(is_value_entry(e));
}

/// A deletion hides older values: after `add(seq, TypeDeletion, k, v)`, a
/// lookup of `k` at any sequence number `s` from `seq` on, up to which no
/// newer entry for `k` exists, finds nothing.
pub proof fn lemma_delete_then_get<C: Comparator>(
    entries: Seq<(Seq<u8>, Seq<u8>)>,
    seq: SequenceNumber,
    k: Seq<u8>,
    v: Seq<u8>,
    s: u64,
)
    requires
        valid_entries::<C>(entries),
        can_add(entries, seq, ValueType::TypeDeletion, k, v),
        seq <= s < 0x100_0000_0000_0000,
        forall|j: int|
            0 <= j < entries.len() && user_key_of(#[trigger] entries[j].0) == k ==> !(seq < tag_seq(
                tag_in(entries[j].0),
            ) <= s),
    ensures
        memtable_get::<C>(
            entries_after_add::<C>(entries, seq, ValueType::TypeDeletion, k, v),
            key_header(k, tag_of(ValueType::TypeValue, s)),
        ) is None,
{
    let e = memtable_entry(k, tag_of(ValueType::TypeDeletion, seq), v);
    let after = entries_after_add::<C>(entries, seq, ValueType::TypeDeletion, k, v);
    let p = lower_bound::<C>(keys_of(entries), e);
    lemma_add_newest::<C>(entries, seq, ValueType::TypeDeletion, k, v, s);
    lemma_get_newest_visible::<C>(after, k, s);
    lemma_decode_entry(k, tag_of(ValueType::TypeDeletion, seq), v);
    lemma_lower_bound::<C>(keys_of(entries), e);
    assert(after == entries.insert(p, (e, Seq::<u8>::empty())));
    assert(after[p].0 == e);
    assert(((seq << 8u64) | 0u64) & 0xffu64 == 0u64) by (bit_vector);
    assert(!is_value_entry(e));
}

/// A lookup below every version of a key finds nothing: if each entry for
/// `k` has a sequence number above `s`, a lookup of `k` at `s` is empty.
pub proof fn lemma_get_before_first_version<C: Comparator>(
    entries: Seq<(Seq<u8>, Seq<u8>)>,
    k: Seq<u8>,
    s: u64,
)
    requires
        valid_entries::<C>(entries),
        s < 0x100_0000_0000_0000,
        forall|j: int|
            0 <= j < entries.len() && user_key_of(#[trigger] entries[j].0) == k ==> tag_seq(
                tag_in(entries[j].0),
            ) > s,
    ensures
        memtable_get::<C>(entries, key_header(k, tag_of(ValueType::TypeValue, s))) is None,
{
    lemma_get_newest_visible::<C>(entries, k, s);
}

/// Adding an entry leaves every lookup it cannot be seen by as it was: a
/// lookup of another key, or of the same key below the new entry's sequence
/// number (which must then fit in the 56 bits a tag holds).
pub proof fn lemma_add_keeps_other_lookups<C: Comparator>(
    entries: Seq<(Seq<u8>, Seq<u8>)>,
    seq: SequenceNumber,
    t: ValueType,
    k: Seq<u8>,
    v: Seq<u8>,
    k2: Seq<u8>,
    s: u64,
)
    requires
        valid_entries::<C>(entries),
        can_add(entries, seq, t, k, v),
        k2 != k || s < seq < 0x100_0000_0000_0000,
        s < 0x100_0000_0000_0000,
    ensures
        memtable_get::<C>(
            entries_after_add::<C>(entries, seq, t, k, v),
            key_header(k2, tag_of(ValueType::TypeValue, s)),
        ) == memtable_get::<C>(entries, key_header(k2, tag_of(ValueType::TypeValue, s))),
{
    let e = memtable_entry(k, tag_of(t, seq), v);
    let keys = keys_of(entries);
    let q = lower_bound::<C>(keys, e);
    let after = entries_after_add::<C>(entries, seq, t, k, v);
    lemma_decode_entry(k, tag_of(t, seq), v);
    if k2 == k {
        lemma_tag_roundtrip(t, seq);
    }
    lemma_lower_bound::<C>(keys, e);
    assert(after == entries.insert(q, (e, Seq::<u8>::empty())));
    assert forall|i: int| 0 <= i < keys.len() implies !key_equiv(#[trigger] keys[i], e) by {
        assert(keys[i] == entries[i].0);
    }
    lemma_insert_sorted::<C>(keys, e);
    assert(keys_of(after) =~= keys.insert(q, e));
    assert forall|i: int| 0 <= i < after.len() implies is_memtable_key(#[trigger] after[i].0) by {
        if i < q {
            assert(after[i] == entries[i]);
        } else if i > q {
            assert(after[i] == entries[i - 1]);
        }
    }
    assert(valid_entries::<C>(after));
    lemma_get_newest_visible::<C>(entries, k2, s);
    lemma_get_newest_visible::<C>(after, k2, s);
    // Old index i sits at index `i` or `i + 1` of the new entries.
    assert forall|i: int| 0 <= i < entries.len() implies after[if i < q { i } else { i + 1 }] == #[trigger] entries[i] by {}
    assert(after[q].0 == e);
    if exists|i: int| is_newest_visible(entries, k2, s, i) {
        let i = choose|i: int| is_newest_visible(entries, k2, s, i);
        let ni = if i < q { i } else { i + 1 };
        assert(after[ni] == entries[i]);
        assert forall|j: int|
            0 <= j < after.len() && user_key_of(#[trigger] after[j].0) == k2 && tag_seq(
                tag_in(after[j].0),
            ) <= s implies tag_seq(tag_in(after[j].0)) <= tag_seq(tag_in(after[ni].0)) by {
            if j < q {
                assert(after[j] == entries[j]);
            } else if j > q {
                assert(after[j] == entries[j - 1]);
            }
        }
        assert(is_newest_visible(after, k2, s, ni));
    } else {
        assert forall|j: int| !is_newest_visible(after, k2, s, j) by {
            if is_newest_visible(after, k2, s, j) {
                assert(j != q);
                let oj = if j < q { j } else { j - 1 };
                assert(after[j] == entries[oj]);
                assert forall|m: int|
                    0 <= m < entries.len() && user_key_of(#[trigger] entries[m].0) == k2 && tag_seq(
                        tag_in(entries[m].0),
                    ) <= s implies tag_seq(tag_in(entries[m].0)) <= tag_seq(tag_in(entries[oj].0)) by {
                    let nm = if m < q { m } else { m + 1 };
                    assert(after[nm] == entries[m]);
                }
                assert(is_newest_visible(entries, k2, s, oj));
            }
        }
    }
}

/// What `next_value` finds: the first value entry at or after `from`.
pub proof fn lemma_next_value(entries: Seq<(Seq<u8>, Seq<u8>)>, from: int)
    requires
        0 <= from,
    ensures
        next_value(entries, from) matches Some(j) ==> {
            &&& from <= j < entries.len()
            &&& is_value_entry(entries[j].0)
            &&& forall|m: int| from <= m < j ==> !is_value_entry(#[trigger] entries[m].0)
        },
        next_value(entries, from) is None ==> forall|m: int|
            from <= m < entries.len() ==> !is_value_entry(#[trigger] entries[m].0),
    decreases entries.len() - from,
{
    if from < entries.len() && !is_value_entry(entries[from].0) {
        lemma_next_value(entries, from + 1);
    }
}

/// What `prev_value` finds: the last value entry before `before`.
pub proof fn lemma_prev_value(entries: Seq<(Seq<u8>, Seq<u8>)>, before: int)
    requires
        before <= entries.len(),
    ensures
        prev_value(entries, before) matches Some(j) ==> {
            &&& 0 <= j < before
            &&& is_value_entry(entries[j].0)
            &&& forall|m: int| j < m < before ==> !is_value_entry(#[trigger] entries[m].0)
        },
        prev_value(entries, before) is None ==> forall|m: int|
            0 <= m < before ==> !is_value_entry(#[trigger] entries[m].0),
    decreases before,
{
    if before > 0 && !is_value_entry(entries[before - 1].0) {
        lemma_prev_value(entries, before - 1);
    }
}

/// `prev_value` returns the value entry at `i` when only deletions lie between
/// `i` and `before`.
proof fn lemma_prev_value_skips(entries: Seq<(Seq<u8>, Seq<u8>)>, before: int, i: int)
    requires
        0 <= i < before <= entries.len(),
        is_value_entry(entries[i].0),
        forall|m: int| i < m < before ==> !is_value_entry(#[trigger] entries[m].0),
    ensures
        prev_value(entries, before) == Some(i),
    decreases before - i,
{
    if before - 1 > i {
        lemma_prev_value_skips(entries, before - 1, i);
    }
}

/// `next_value` returns the value entry at `j` when only deletions lie between
/// `from` and `j`.
proof fn lemma_next_value_skips(entries: Seq<(Seq<u8>, Seq<u8>)>, from: int, j: int)
    requires
        0 <= from <= j < entries.len(),
        is_value_entry(entries[j].0),
        forall|m: int| from <= m < j ==> !is_value_entry(#[trigger] entries[m].0),
    ensures
        next_value(entries, from) == Some(j),
    decreases j - from,
{
    if from < j {
        lemma_next_value_skips(entries, from + 1, j);
    }
}

/// Stepping a memtable cursor back undoes a step forward: from a value entry
/// at `i`, `advance` then `prev` returns to `i`.
pub proof fn lemma_prev_undoes_advance(entries: Seq<(Seq<u8>, Seq<u8>)>, i: int)
    requires
        0 <= i < entries.len(),
        is_value_entry(entries[i].0),
        next_value(entries, i + 1) is Some,
    ensures
        prev_value(entries, next_value(entries, i + 1)->0) == Some(i),
{
    lemma_next_value(entries, i + 1);
    let j = next_value(entries, i + 1)->0;
    lemma_prev_value_skips(entries, j, i);
}

/// Stepping a memtable cursor forward undoes a step back: from a value entry
/// at `j`, `prev` then `advance` returns to `j`.
pub proof fn lemma_advance_undoes_prev(entries: Seq<(Seq<u8>, Seq<u8>)>, j: int)
    requires
        0 <= j < entries.len(),
        is_value_entry(entries[j].0),
        prev_value(entries, j) is Some,
    ensures
        next_value(entries, step_from(prev_value(entries, j))) == Some(j),
{
    lemma_prev_value(entries, j);
    let i = prev_value(entries, j)->0;
    lemma_next_value_skips(entries, i + 1, j);
}

/// The value entries of `entries`, in order: what a whole iteration yields.
pub open spec fn value_entries(entries: Seq<(Seq<u8>, Seq<u8>)>) -> Seq<(Seq<u8>, Seq<u8>)>
    decreases entries.len(),
{
    if entries.len() == 0 {
        Seq::empty()
    } else {
        (if is_value_entry(entries[0].0) {
            seq![entries[0]]
        } else {
            Seq::empty()
        }) + value_entries(entries.drop_first())
    }
}

/// The positions a cursor lands on when `advance` is called again and again,
/// its first step starting at `from`: each value entry from `from` on.
pub open spec fn advance_positions(entries: Seq<(Seq<u8>, Seq<u8>)>, from: int) -> Seq<int>
    decreases entries.len() - from,
{
    if from < 0 || from >= entries.len() {
        Seq::empty()
    } else if is_value_entry(entries[from].0) {
        seq![from] + advance_positions(entries, from + 1)
    } else {
        advance_positions(entries, from + 1)
    }
}

pub proof fn lemma_value_entries_concat(a: Seq<(Seq<u8>, Seq<u8>)>, b: Seq<(Seq<u8>, Seq<u8>)>)
    ensures
        value_entries(a + b) == value_entries(a) + value_entries(b),
    decreases a.len(),
{
    if a.len() == 0 {
        assert(a + b =~= b);
        assert(value_entries(a) + value_entries(b) =~= value_entries(b));
    } else {
        assert((a + b).drop_first() =~= a.drop_first() + b);
        assert((a + b)[0] == a[0]);
        lemma_value_entries_concat(a.drop_first(), b);
        let h = if is_value_entry(a[0].0) {
            seq![a[0]]
        } else {
            Seq::empty()
        };
        assert(h + (value_entries(a.drop_first()) + value_entries(b)) =~= (h + value_entries(
            a.drop_first(),
        )) + value_entries(b));
    }
}

/// One `advance` is one step along `advance_positions`: the position it
/// lands on (`next_value`) is the first of them, and the rest start after it.
pub proof fn lemma_advance_positions_step(entries: Seq<(Seq<u8>, Seq<u8>)>, from: int)
    requires
        0 <= from,
    ensures
        next_value(entries, from) matches Some(j) ==> advance_positions(entries, from) == seq![j]
            + advance_positions(entries, j + 1),
        next_value(entries, from) is None ==> advance_positions(entries, from) == Seq::<int>::empty(),
    decreases entries.len() - from,
{
    if from < entries.len() && !is_value_entry(entries[from].0) {
        lemma_advance_positions_step(entries, from + 1);
    }
}

/// The positions from `from` on: strictly increasing, exactly the value
/// entries, and yielding `value_entries` of the rest of the sequence.
proof fn lemma_advance_positions_from(entries: Seq<(Seq<u8>, Seq<u8>)>, from: int)
    requires
        0 <= from <= entries.len(),
    ensures
        ({
            let pos = advance_positions(entries, from);
            &&& forall|i: int| 0 <= i < pos.len() ==> from <= #[trigger] pos[i] < entries.len()
            &&& forall|i: int| 0 <= i < pos.len() ==> is_value_entry(entries[#[trigger] pos[i]].0)
            &&& forall|i: int, j: int| 0 <= i < j < pos.len() ==> #[trigger] pos[i] < #[trigger] pos[j]
            &&& forall|x: int|
                from <= x < entries.len() && is_value_entry(#[trigger] entries[x].0) ==> pos.contains(x)
            &&& pos.map_values(|i: int| entries[i]) == value_entries(entries.skip(from))
        }),
    decreases entries.len() - from,
{
    let pos = advance_positions(entries, from);
    if from == entries.len() {
        assert(entries.skip(from) =~= Seq::<(Seq<u8>, Seq<u8>)>::empty());
        assert(pos.map_values(|i: int| entries[i]) =~= Seq::<(Seq<u8>, Seq<u8>)>::empty());
    } else {
        lemma_advance_positions_from(entries, from + 1);
        let rest = advance_positions(entries, from + 1);
        assert(entries.skip(from).drop_first() =~= entries.skip(from + 1));
        assert(entries.skip(from)[0] == entries[from]);
        if is_value_entry(entries[from].0) {
            assert(pos == seq![from] + rest);
            assert forall|i: int| 0 <= i < pos.len() implies from <= #[trigger] pos[i] < entries.len() by {
                if i > 0 {
                    assert(pos[i] == rest[i - 1]);
                }
            }
            assert forall|i: int| 0 <= i < pos.len() implies is_value_entry(entries[#[trigger] pos[i]].0) by {
                if i > 0 {
                    assert(pos[i] == rest[i - 1]);
                }
            }
            assert forall|i: int, j: int| 0 <= i < j < pos.len() implies #[trigger] pos[i]
                < #[trigger] pos[j] by {
                assert(pos[j] == rest[j - 1]);
                if i > 0 {
                    assert(pos[i] == rest[i - 1]);
                }
            }
            assert forall|x: int|
                from <= x < entries.len() && is_value_entry(#[trigger] entries[x].0) implies pos.contains(
                x,
            ) by {
                if x == from {
                    assert(pos[0] == x);
                } else {
                    assert(rest.contains(x));
                    let w = choose|w: int| 0 <= w < rest.len() && rest[w] == x;
                    assert(pos[w + 1] == x);
                }
            }
            assert(pos.map_values(|i: int| entries[i]) =~= seq![entries[from]] + rest.map_values(
                |i: int| entries[i],
            ));
        } else {
            assert(pos == rest);
            assert forall|x: int|
                from <= x < entries.len() && is_value_entry(#[trigger] entries[x].0) implies pos.contains(
                x,
            ) by {
                assert(x != from);
            }
            assert(value_entries(entries.skip(from)) =~= value_entries(entries.skip(from + 1)));
        }
    }
}

/// A whole iteration yields each value entry once, in order: calling
/// `advance` again and again from a fresh cursor lands on strictly increasing
/// positions, which are exactly the value entries; the entries it yields are
/// `value_entries`, in ascending key order (user key ascending, for one user
/// key the newest first).
pub proof fn lemma_iteration_yields_values_in_order<C: Comparator>(entries: Seq<(Seq<u8>, Seq<u8>)>)
    requires
        valid_entries::<C>(entries),
    ensures
        ({
            let pos = advance_positions(entries, step_from(None));
            &&& forall|i: int| 0 <= i < pos.len() ==> 0 <= #[trigger] pos[i] < entries.len()
            &&& forall|i: int, j: int| 0 <= i < j < pos.len() ==> #[trigger] pos[i] < #[trigger] pos[j]
            &&& forall|x: int|
                0 <= x < entries.len() ==> (pos.contains(x) <==> is_value_entry(#[trigger] entries[x].0))
            &&& pos.map_values(|i: int| entries[i]) == value_entries(entries)
            &&& forall|i: int, j: int|
                0 <= i < j < pos.len() ==> key_lt::<C>(
                    #[trigger] entries[pos[i]].0,
                    #[trigger] entries[pos[j]].0,
                )
        }),
{
    lemma_advance_positions_from(entries, 0);
    let pos = advance_positions(entries, 0);
    assert(entries.skip(0) =~= entries);
    assert forall|x: int| 0 <= x < entries.len() implies (pos.contains(x) <==> is_value_entry(
        #[trigger] entries[x].0,
    )) by {
        if pos.contains(x) {
            let w = choose|w: int| 0 <= w < pos.len() && pos[w] == x;
            assert(is_value_entry(entries[pos[w]].0));
        }
    }
    assert forall|i: int, j: int| 0 <= i < j < pos.len() implies key_lt::<C>(
        #[trigger] entries[pos[i]].0,
        #[trigger] entries[pos[j]].0,
    ) by {
        let keys = keys_of(entries);
        assert(keys[pos[i]] == entries[pos[i]].0);
        assert(keys[pos[j]] == entries[pos[j]].0);
    }
}

/// What a fresh iteration yields after `add(seq, t, k, v)`: the value entries
/// before the new entry's place, the new entry if it is a value, and the
/// value entries after its place; before the add it yielded the same without
/// the new entry.
pub proof fn lemma_add_iteration<C: Comparator>(
    entries: Seq<(Seq<u8>, Seq<u8>)>,
    seq: SequenceNumber,
    t: ValueType,
    k: Seq<u8>,
    v: Seq<u8>,
)
    requires
        valid_entries::<C>(entries),
        can_add(entries, seq, t, k, v),
    ensures
        ({
            let e = memtable_entry(k, tag_of(t, seq), v);
            let q = lower_bound::<C>(keys_of(entries), e);
            &&& value_entries(entries) == value_entries(entries.take(q)) + value_entries(
                entries.skip(q),
            )
            &&& value_entries(entries_after_add::<C>(entries, seq, t, k, v)) == value_entries(
                entries.take(q),
            ) + (if t == ValueType::TypeValue {
                seq![(e, Seq::<u8>::empty())]
            } else {
                Seq::empty()
            }) + value_entries(entries.skip(q))
        }),
{
    let e = memtable_entry(k, tag_of(t, seq), v);
    let keys = keys_of(entries);
    let q = lower_bound::<C>(keys, e);
    lemma_lower_bound::<C>(keys, e);
    lemma_decode_entry(k, tag_of(t, seq), v);
    let a = entries.take(q);
    let b = entries.skip(q);
    let mid = seq![(e, Seq::<u8>::empty())];
    assert(entries =~= a + b);
    lemma_value_entries_concat(a, b);
    let after = entries_after_add::<C>(entries, seq, t, k, v);
    assert(after =~= a + mid + b);
    lemma_value_entries_concat(a + mid, b);
    lemma_value_entries_concat(a, mid);
    assert(mid.drop_first() =~= Seq::<(Seq<u8>, Seq<u8>)>::empty());
    let c = t.type_code();
    assert(c == 0u64 || c == 1u64 ==> ((seq << 8u64) | c) & 0xffu64 == c) by (bit_vector);
    assert(is_value_entry(e) == (t == ValueType::TypeValue));
    assert(mid[0] == (e, Seq::<u8>::empty()));
    assert(value_entries(mid.drop_first()) =~= Seq::<(Seq<u8>, Seq<u8>)>::empty());
    assert(value_entries(mid) =~= (if t == ValueType::TypeValue {
        mid
    } else {
        Seq::empty()
    }));
}

/// A cursor over a memtable that steps over deletion entries.
pub struct MemtableIterator<'a, C: Comparator> {
    skipmapiter: SkipMapIter<'a, C>,
}

/// Where a forward step of the underlying cursor starts: after the current
/// entry, or at the first entry.
pub open spec fn step_from(pos: Option<int>) -> int {
    match pos {
        Some(i) => i + 1,
        None => 0,
    }
}

impl<'a, C: Comparator> MemtableIterator<'a, C> {
    /// The entries of the memtable the cursor runs over.
    pub closed spec fn entries(&self) -> Seq<(Seq<u8>, Seq<u8>)> {
        self.skipmapiter.entries()
    }

    /// The index of the entry under the cursor, or `None` before the first.
    pub closed spec fn position(&self) -> Option<int> {
        self.skipmapiter.position()
    }

    /// The well-formed cursor runs over valid entries.
    pub proof fn lemma_inv(&self)
        requires
            self.inv(),
        ensures
            valid_entries::<C>(self.entries()),
            self.position() matches Some(i) ==> 0 <= i < self.entries().len(),
    {
        self.skipmapiter.lemma_inv();
    }
}

impl<'a, C: Comparator> LdbIterator for MemtableIterator<'a, C> {
    closed spec fn inv(&self) -> bool {
        self.skipmapiter.inv()
    }

    /// The cursor is not on a deletion entry.
    open spec fn readable(&self) -> bool {
        self.position() matches Some(i) ==> is_value_entry(self.entries()[i].0)
    }

    open spec fn seekable(&self, to: Seq<u8>) -> bool {
        to.len() + U64_SPACE <= usize::MAX
    }

    /// The internal key (user key and tag) and the value under the cursor.
    open spec fn current_entry(&self) -> Option<(Seq<u8>, Seq<u8>)> {
        match self.position() {
            Some(i) => Some(
                (internal_key_of(self.entries()[i].0), entry_value(self.entries()[i].0)),
            ),
            None => None,
        }
    }

    /// Moves to the next value entry, stepping over deletions; past the last
    /// one the cursor goes back before the first.
    fn advance(&mut self) -> (r: bool)
        ensures
            final(self).entries() == old(self).entries(),
            final(self).position() == next_value(old(self).entries(), step_from(old(self).position())),
    {
        let ghost entries = self.entries();
        let ghost target = next_value(entries, step_from(self.position()));
        proof {
            self.lemma_inv();
        }
        let mut key: Vec<u8> = Vec::new();
        let mut val: Vec<u8> = Vec::new();
        loop
            invariant
                self.inv(),
                self.entries() == entries,
                entries == old(self).entries(),
                target == next_value(old(self).entries(), step_from(old(self).position())),
                target == next_value(entries, step_from(self.position())),
                self.position() matches Some(i) ==> 0 <= i < entries.len(),
            decreases entries.len() - step_from(self.position()),
        {
            let ghost before = self.position();
            if !self.skipmapiter.advance() {
                proof {
                    self.lemma_inv();
                    assert(step_from(before) >= entries.len());
                }
                return false;
            }
            proof {
                self.lemma_inv();
            }
            if self.skipmapiter.current(&mut key, &mut val) {
                let ghost j = step_from(before);
                assert(key@ == entries[j].0);
                let (_, _, tag, _, _) = parse_memtable_key(key.as_slice());
                if tag & 0xff == ValueType::TypeValue.code() {
                    return true;
                } else {
                    continue;
                }
            } else {
                return false;
            }
        }
    }

    fn reset(&mut self)
        ensures
            final(self).entries() == old(self).entries(),
            final(self).position() is None,
    {
        self.skipmapiter.reset();
    }

    /// Moves to the previous value entry, stepping over deletions; with none
    /// before, the cursor goes back before the first entry.
    fn prev(&mut self) -> (r: bool)
        ensures
            final(self).entries() == old(self).entries(),
            final(self).position() == (match old(self).position() {
                Some(i) => prev_value(old(self).entries(), i),
                None => None,
            }),
    {
        let ghost entries = self.entries();
        let ghost target = match self.position() {
            Some(i) => prev_value(entries, i),
            None => None,
        };
        proof {
            self.lemma_inv();
        }
        let mut key: Vec<u8> = Vec::new();
        let mut val: Vec<u8> = Vec::new();
        loop
            invariant
                self.inv(),
                self.entries() == entries,
                entries == old(self).entries(),
                target == (match old(self).position() {
                    Some(i) => prev_value(entries, i),
                    None => None,
                }),
                target == (match self.position() {
                    Some(i) => prev_value(entries, i),
                    None => None,
                }),
                self.position() matches Some(i) ==> 0 <= i < entries.len(),
            decreases (match self.position() {
                Some(i) => i + 1,
                None => 0,
            }),
        {
            let ghost before = self.position();
            if !self.skipmapiter.prev() {
                return false;
            }
            proof {
                self.lemma_inv();
            }
            if self.skipmapiter.current(&mut key, &mut val) {
                let (_, _, tag, _, _) = parse_memtable_key(key.as_slice());
                if tag & 0xff == ValueType::TypeValue.code() {
                    return true;
                } else {
                    continue;
                }
            } else {
                return false;
            }
        }
    }

    fn valid(&self) -> (r: bool) {
        self.skipmapiter.valid()
    }

    /// Copies the internal key (user key and tag) under the cursor into `key`
    /// and its value into `val`.
    fn current(&self, key: &mut Vec<u8>, val: &mut Vec<u8>) -> (r: bool) {
        if !self.valid() {
            return false;
        }
        proof {
            self.lemma_inv();
        }
        if self.skipmapiter.current(key, val) {
            let ghost raw = key@;
            let (keylen, keyoff, tag, vallen, valoff) = parse_memtable_key(key.as_slice());
            if tag & 0xff == ValueType::TypeValue.code() {
                val.clear();
                let value_part = vstd::slice::slice_subrange(key.as_slice(), valoff, valoff + vallen);
                val.extend_from_slice(value_part);
                assert(val@ =~= entry_value(raw));
                // zero-allocation truncation.
                shift_left(key, keyoff);
                // Truncate key to key+tag.
                key.truncate(keylen + fixed64_len());
                proof {
                    crate::key_types::lemma_memtable_key_header(raw);
                    crate::coding::lemma_le64_roundtrip(tag);
                    let h = key_header(user_key_of(raw), tag);
                    assert forall|j: int| 0 <= j < h.len() implies h[j] == raw[j] by {}
                    assert(key@ =~= internal_key_of(raw));
                }
                true
            } else {
                vstd::pervasive::unreached()
            }
        } else {
            vstd::pervasive::unreached()
        }
    }

    /// Places the cursor on the first entry at or after user key `to` with
    /// sequence number zero.
    fn seek(&mut self, to: &[u8])
        ensures
            final(self).entries() == old(self).entries(),
            final(self).position() == ({
                let lb = lower_bound::<C>(
                    keys_of(old(self).entries()),
                    key_header(to@, tag_of(ValueType::TypeValue, 0)),
                );
                if lb < old(self).entries().len() {
                    Some(lb)
                } else {
                    None
                }
            }),
    {
        let lk = LookupKey::new(to, 0);
        self.skipmapiter.seek(lk.memtable_key());
    }
}

/// The cursor reads back what was stored: on an entry built from user key
/// `k`, tag `tag` and value `v`, `current` gives the user key followed by the
/// eight little-endian tag bytes, and exactly `v`, whatever the lengths.
pub proof fn lemma_current_reads_entry<C: Comparator>(
    it: &MemtableIterator<'_, C>,
    k: Seq<u8>,
    tag: u64,
    v: Seq<u8>,
)
    requires
        it.inv(),
        it.position() matches Some(i) && it.entries()[i].0 == memtable_entry(k, tag, v),
    ensures
        it.current_entry() == Some((k + le64(tag), v)),
{
    lemma_decode_entry(k, tag, v);
}

/// After `add(seq, t, k, v)`, the new entry sits at its place among the
/// stored entries, and a cursor on it reads `k` with the tag of `(t, seq)`,
/// and `v`.
pub proof fn lemma_add_then_current<C: Comparator>(
    entries: Seq<(Seq<u8>, Seq<u8>)>,
    seq: SequenceNumber,
    t: ValueType,
    k: Seq<u8>,
    v: Seq<u8>,
    it: &MemtableIterator<'_, C>,
)
    requires
        valid_entries::<C>(entries),
        it.inv(),
        it.entries() == entries_after_add::<C>(entries, seq, t, k, v),
        it.position() == Some(
            lower_bound::<C>(keys_of(entries), memtable_entry(k, tag_of(t, seq), v)),
        ),
    ensures
        it.current_entry() == Some((k + le64(tag_of(t, seq)), v)),
{
    let e = memtable_entry(k, tag_of(t, seq), v);
    let q = lower_bound::<C>(keys_of(entries), e);
    lemma_lower_bound::<C>(keys_of(entries), e);
    assert(entries_after_add::<C>(entries, seq, t, k, v)[q].0 == e);
    lemma_current_reads_entry(it, k, tag_of(t, seq), v);
}

/// shift_left moves s[mid..] to s[0..s.len()-mid]. The new size is s.len()-mid.
pub fn shift_left(s: &mut Vec<u8>, mid: usize)
    requires
        mid <= old(s)@.len(),
    ensures
        final(s)@ == old(s)@.skip(mid as int),
{
    let n = s.len();
    let mut i: usize = mid;
    while i < n
        invariant
            mid <= i <= n,
            n == old(s)@.len(),
            s@.len() == n,
            forall|k: int| 0 <= k < i - mid ==> s@[k] == old(s)@[k + mid],
            forall|k: int| i <= k < n ==> s@[k] == old(s)@[k],
        decreases n - i,
    {
        let a = s[i];
        let b = s[i - mid];
        s.set(i, b);
        s.set(i - mid, a);
        i = i + 1;
    }
    let newlen = s.len() - mid;
    s.truncate(newlen);
    assert(s@ =~= old(s)@.skip(mid as int));
}

} // verus!
