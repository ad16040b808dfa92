//! An ordered map of memtable keys, kept sorted by the memtable key order,
//! with a cursor over it.

use vstd::prelude::*;
use crate::types::{Comparator, LdbIterator};
use crate::key_order::{
    key_equiv, key_lt, lemma_key_lt_transitive, lemma_key_trichotomy,
    memtable_key_lt, MemtableKeyCmp,
};
use crate::key_types::is_memtable_key;

verus! {

/// Strictly ascending in the memtable key order.
pub open spec fn sorted_keys<C: Comparator>(keys: Seq<Seq<u8>>) -> bool {
    forall|i: int, j: int|
        0 <= i < j < keys.len() ==> key_lt::<C>(#[trigger] keys[i], #[trigger] keys[j])
}

/// The keys of a sequence of entries.
pub open spec fn keys_of(entries: Seq<(Seq<u8>, Seq<u8>)>) -> Seq<Seq<u8>> {
    entries.map_values(|e: (Seq<u8>, Seq<u8>)| e.0)
}

/// A valid content of the map: memtable keys in strictly ascending order.
pub open spec fn valid_entries<C: Comparator>(entries: Seq<(Seq<u8>, Seq<u8>)>) -> bool {
    &&& forall|i: int| 0 <= i < entries.len() ==> is_memtable_key(#[trigger] entries[i].0)
    &&& sorted_keys::<C>(keys_of(entries))
}

/// The number of keys in `keys` that sort before `key`, which in a sorted
/// sequence is the position of the first key not before `key`.
pub open spec fn lower_bound<C: Comparator>(keys: Seq<Seq<u8>>, key: Seq<u8>) -> int
    decreases keys.len(),
{
    if keys.len() == 0 {
        0
    } else if key_lt::<C>(keys.last(), key) {
        keys.len() as int
    } else {
        lower_bound::<C>(keys.drop_last(), key)
    }
}

/// The bytes an entry accounts for.
pub open spec fn entry_size(e: (Seq<u8>, Seq<u8>)) -> nat {
    e.0.len() + e.1.len()
}

/// The bytes the entries account for: the lengths of all keys and values.
pub open spec fn mem_size(entries: Seq<(Seq<u8>, Seq<u8>)>) -> nat
    decreases entries.len(),
{
    if entries.len() == 0 {
        0
    } else {
        entry_size(entries[0]) + mem_size(entries.drop_first())
    }
}

pub proof fn lemma_mem_size_insert(entries: Seq<(Seq<u8>, Seq<u8>)>, p: int, e: (Seq<u8>, Seq<u8>))
    requires
        0 <= p <= entries.len(),
    ensures
        mem_size(entries.insert(p, e)) == mem_size(entries) + entry_size(e),
    decreases entries.len(),
{
    if p == 0 {
        assert(entries.insert(p, e).drop_first() =~= entries);
    } else {
        assert(entries.insert(p, e).drop_first() =~= entries.drop_first().insert(p - 1, e));
        lemma_mem_size_insert(entries.drop_first(), p - 1, e);
    }
}

/// In a sorted sequence, every key before `lower_bound` sorts before `key`
/// and none from it on does.
pub proof fn lemma_lower_bound<C: Comparator>(keys: Seq<Seq<u8>>, key: Seq<u8>)
    requires
        sorted_keys::<C>(keys),
    ensures
        0 <= lower_bound::<C>(keys, key) <= keys.len(),
        forall|j: int| 0 <= j < lower_bound::<C>(keys, key) ==> key_lt::<C>(#[trigger] keys[j], key),
        forall|j: int|
            lower_bound::<C>(keys, key) <= j < keys.len() ==> !key_lt::<C>(#[trigger] keys[j], key),
    decreases keys.len(),
{
    if keys.len() > 0 {
        let last = keys.last();
        if key_lt::<C>(last, key) {
            assert forall|j: int| 0 <= j < keys.len() implies key_lt::<C>(#[trigger] keys[j], key) by {
                if j < keys.len() - 1 {
                    lemma_key_lt_transitive::<C>(keys[j], last, key);
                }
            }
        } else {
            let d = keys.drop_last();
            assert(sorted_keys::<C>(d)) by {
                assert forall|i: int, j: int| 0 <= i < j < d.len() implies key_lt::<C>(
                    #[trigger] d[i],
                    #[trigger] d[j],
                ) by {
                    assert(d[i] == keys[i] && d[j] == keys[j]);
                }
            }
            lemma_lower_bound::<C>(d, key);
            let lb = lower_bound::<C>(d, key);
            assert forall|j: int| lb <= j < keys.len() implies !key_lt::<C>(#[trigger] keys[j], key) by {
                if j < keys.len() - 1 {
                    assert(keys[j] == d[j]);
                }
            }
            assert forall|j: int| 0 <= j < lb implies key_lt::<C>(#[trigger] keys[j], key) by {
                assert(keys[j] == d[j]);
            }
        }
    }
}

/// The split point of a sorted sequence around `key` is unique.
pub proof fn lemma_lower_bound_unique<C: Comparator>(keys: Seq<Seq<u8>>, key: Seq<u8>, p: int)
    requires
        sorted_keys::<C>(keys),
        0 <= p <= keys.len(),
        forall|j: int| 0 <= j < p ==> key_lt::<C>(#[trigger] keys[j], key),
        forall|j: int| p <= j < keys.len() ==> !key_lt::<C>(#[trigger] keys[j], key),
    ensures
        p == lower_bound::<C>(keys, key),
{
    lemma_lower_bound::<C>(keys, key);
    let lb = lower_bound::<C>(keys, key);
    if p < lb {
        assert(key_lt::<C>(keys[p], key));
    }
    if lb < p {
        assert(!key_lt::<C>(keys[lb], key));
    }
}

/// Inserting a key that no present key is equivalent to, at its lower
/// bound, keeps a sequence strictly sorted.
pub proof fn lemma_insert_sorted<C: Comparator>(keys: Seq<Seq<u8>>, key: Seq<u8>)
    requires
        sorted_keys::<C>(keys),
        forall|i: int| 0 <= i < keys.len() ==> !key_equiv(#[trigger] keys[i], key),
    ensures
        sorted_keys::<C>(keys.insert(lower_bound::<C>(keys, key), key)),
{
    lemma_lower_bound::<C>(keys, key);
    let p = lower_bound::<C>(keys, key);
    let nk = keys.insert(p, key);
    assert forall|i: int, j: int| 0 <= i < j < nk.len() implies key_lt::<C>(
        #[trigger] nk[i],
        #[trigger] nk[j],
    ) by {
        if j < p {
            assert(nk[i] == keys[i] && nk[j] == keys[j]);
        } else if i > p {
            assert(nk[i] == keys[i - 1] && nk[j] == keys[j - 1]);
        } else if i == p {
            assert(nk[j] == keys[j - 1]);
            assert(!key_lt::<C>(keys[j - 1], key));
            assert(!key_equiv(keys[j - 1], key));
            lemma_key_trichotomy::<C>(keys[j - 1], key);
        } else if j == p {
            assert(nk[i] == keys[i]);
        } else {
            assert(nk[i] == keys[i] && nk[j] == keys[j - 1]);
            assert(key_lt::<C>(keys[i], key));
            assert(!key_equiv(keys[j - 1], key));
            lemma_key_trichotomy::<C>(keys[j - 1], key);
            lemma_key_lt_transitive::<C>(keys[i], key, keys[j - 1]);
        }
    }
}

/// A sorted map of memtable keys to values. Keys that compare equal cannot be
/// stored twice.
pub struct SkipMap<C: Comparator> {
    entries: Vec<(Vec<u8>, Vec<u8>)>,
    approx_mem: usize,
    order: MemtableKeyCmp<C>,
}

impl<C: Comparator> View for SkipMap<C> {
    type V = Seq<(Seq<u8>, Seq<u8>)>;

    closed spec fn view(&self) -> Seq<(Seq<u8>, Seq<u8>)> {
        self.entries@.map_values(|e: (Vec<u8>, Vec<u8>)| (e.0@, e.1@))
    }
}

impl<C: Comparator> SkipMap<C> {
    /// The map's own invariant: its entries are valid and its memory count
    /// matches them.
    pub closed spec fn wf(&self) -> bool {
        &&& valid_entries::<C>(self@)
        &&& self.approx_mem == mem_size(self@)
    }

    /// A well-formed map holds valid entries.
    pub proof fn lemma_wf(&self)
        requires
            self.wf(),
        ensures
            valid_entries::<C>(self@),
    {
    }

    pub fn new(order: MemtableKeyCmp<C>) -> (m: SkipMap<C>)
        ensures
            m.wf(),
            m@ == Seq::<(Seq<u8>, Seq<u8>)>::empty(),
    {
        let m = SkipMap { entries: Vec::new(), approx_mem: 0, order };
        assert(m@ =~= Seq::<(Seq<u8>, Seq<u8>)>::empty());
        m
    }

    pub fn len(&self) -> (n: usize)
        ensures
            n == self@.len(),
    {
        self.entries.len()
    }

    /// The bytes of all keys and values stored.
    pub fn approx_memory(&self) -> (n: usize)
        requires
            self.wf(),
        ensures
            n == mem_size(self@),
    {
        self.approx_mem
    }

    /// The position of the first entry whose key does not sort before `key`.
    fn find_lower_bound(&self, key: &[u8]) -> (p: usize)
        requires
            self.wf(),
            is_memtable_key(key@),
        ensures
            p == lower_bound::<C>(keys_of(self@), key@),
    {
        let ghost keys = keys_of(self@);
        let mut lo: usize = 0;
        let mut hi: usize = self.entries.len();
        while lo < hi
            invariant
                self.wf(),
                is_memtable_key(key@),
                keys == keys_of(self@),
                keys.len() == self.entries@.len(),
                0 <= lo <= hi <= keys.len(),
                forall|j: int| 0 <= j < lo ==> key_lt::<C>(#[trigger] keys[j], key@),
                forall|j: int| hi <= j < keys.len() ==> !key_lt::<C>(#[trigger] keys[j], key@),
            decreases hi - lo,
        {
            let mid = lo + (hi - lo) / 2;
            let ghost km = keys[mid as int];
            assert(self.entries@[mid as int].0@ == km);
            if memtable_key_lt(&self.order, self.entries[mid].0.as_slice(), key) {
                assert forall|j: int| 0 <= j <= mid implies key_lt::<C>(#[trigger] keys[j], key@) by {
                    if j < mid {
                        lemma_key_lt_transitive::<C>(keys[j], km, key@);
                    }
                }
                lo = mid + 1;
            } else {
                assert forall|j: int| mid <= j < keys.len() implies !key_lt::<C>(
                    #[trigger] keys[j],
                    key@,
                ) by {
                    if mid < j && key_lt::<C>(keys[j], key@) {
                        lemma_key_lt_transitive::<C>(km, keys[j], key@);
                    }
                }
                hi = mid;
            }
        }
        proof {
            lemma_lower_bound_unique::<C>(keys, key@, lo as int);
        }
        lo
    }

    /// Inserts `key` with `val` at its place in the order. No key equivalent
    /// to `key` may be present.
    pub fn insert(&mut self, key: Vec<u8>, val: Vec<u8>)
        requires
            old(self).wf(),
            is_memtable_key(key@),
            forall|i: int| 0 <= i < old(self)@.len() ==> !key_equiv(#[trigger] old(self)@[i].0, key@),
            mem_size(old(self)@) + key@.len() + val@.len() <= usize::MAX,
        ensures
            final(self).wf(),
            final(self)@ == old(self)@.insert(
                lower_bound::<C>(keys_of(old(self)@), key@),
                (key@, val@),
            ),
    {
        let ghost old_view = self@;
        let ghost keys = keys_of(old_view);
        let p = self.find_lower_bound(key.as_slice());
        proof {
            lemma_lower_bound::<C>(keys, key@);
        }
        let ghost e = (key@, val@);
        self.approx_mem = self.approx_mem + key.len() + val.len();
        self.entries.insert(p, (key, val));
        let ghost new_view = self@;
        assert(new_view =~= old_view.insert(p as int, e));
        proof {
            lemma_mem_size_insert(old_view, p as int, e);
            let nk = keys_of(new_view);
            assert(nk =~= keys.insert(p as int, e.0));
            assert forall|i: int| 0 <= i < keys.len() implies !key_equiv(#[trigger] keys[i], e.0) by {
                assert(keys[i] == old_view[i].0);
            }
            lemma_insert_sorted::<C>(keys, e.0);
            assert forall|i: int| 0 <= i < new_view.len() implies is_memtable_key(
                #[trigger] new_view[i].0,
            ) by {
                if i < p {
                    assert(new_view[i] == old_view[i]);
                } else if i > p {
                    assert(new_view[i] == old_view[i - 1]);
                }
            }
        }
    }

    /// A cursor over the map, placed before the first entry.
    pub fn iter(&self) -> (it: SkipMapIter<'_, C>)
        requires
            self.wf(),
        ensures
            it.inv(),
            it.entries() == self@,
            it.position() is None,
    {
        SkipMapIter { map: self, current: None }
    }
}

/// A cursor over a `SkipMap`.
pub struct SkipMapIter<'a, C: Comparator> {
    map: &'a SkipMap<C>,
    current: Option<usize>,
}

impl<'a, C: Comparator> SkipMapIter<'a, C> {
    /// The entries of the map the cursor runs over.
    pub closed spec fn entries(&self) -> Seq<(Seq<u8>, Seq<u8>)> {
        self.map@
    }

    /// The index of the entry under the cursor, or `None` before the first.
    pub closed spec fn position(&self) -> Option<int> {
        match self.current {
            Some(i) => Some(i as int),
            None => None,
        }
    }

    /// The well-formed cursor runs over valid entries.
    pub proof fn lemma_inv(&self)
        requires
            self.inv(),
        ensures
            valid_entries::<C>(self.entries()),
            self.position() matches Some(i) ==> 0 <= i < self.entries().len(),
    {
    }
}

impl<'a, C: Comparator> LdbIterator for SkipMapIter<'a, C> {
    closed spec fn inv(&self) -> bool {
        &&& self.map.wf()
        &&& self.current matches Some(i) ==> i < self.map@.len()
    }

    open spec fn readable(&self) -> bool {
        true
    }

    open spec fn seekable(&self, to: Seq<u8>) -> bool {
        is_memtable_key(to)
    }

    open spec fn current_entry(&self) -> Option<(Seq<u8>, Seq<u8>)> {
        match self.position() {
            Some(i) => Some(self.entries()[i]),
            None => None,
        }
    }

    /// Moves to the next entry; past the last one the cursor goes back before
    /// the first.
    fn advance(&mut self) -> (r: bool)
        ensures
            final(self).entries() == old(self).entries(),
            final(self).position() == (match old(self).position() {
                Some(i) => if i + 1 < old(self).entries().len() {
                    Some(i + 1)
                } else {
                    None
                },
                None => if old(self).entries().len() > 0 {
                    Some(0int)
                } else {
                    None
                },
            }),
    {
        let n = self.map.len();
        let next = match self.current {
            Some(i) => i + 1,
            None => 0,
        };
        if next < n {
            self.current = Some(next);
            true
        } else {
            self.reset();
            false
        }
    }

    fn reset(&mut self)
        ensures
            final(self).entries() == old(self).entries(),
            final(self).position() is None,
    {
        self.current = None;
    }

    /// Moves to the previous entry; from the first one (or from before it)
    /// the cursor goes back before the first.
    fn prev(&mut self) -> (r: bool)
        ensures
            final(self).entries() == old(self).entries(),
            final(self).position() == (match old(self).position() {
                Some(i) => if i > 0 {
                    Some(i - 1)
                } else {
                    None
                },
                None => None,
            }),
    {
        match self.current {
            Some(i) => {
                if i > 0 {
                    self.current = Some(i - 1);
                    return true;
                }
            },
            None => {},
        }
        self.reset();
        false
    }

    fn valid(&self) -> (r: bool) {
        self.current.is_some()
    }

    fn current(&self, key: &mut Vec<u8>, val: &mut Vec<u8>) -> (r: bool) {
        match self.current {
            Some(i) => {
                key.clear();
                val.clear();
                let e = &self.map.entries[i];
                key.extend_from_slice(e.0.as_slice());
                val.extend_from_slice(e.1.as_slice());
                assert(key@ =~= e.0@);
                assert(val@ =~= e.1@);
                true
            },
            None => false,
        }
    }

    /// Places the cursor on the first entry whose key does not sort before
    /// `to`, or before the first entry if there is none.
    fn seek(&mut self, to: &[u8])
        ensures
            final(self).entries() == old(self).entries(),
            final(self).position() == (if lower_bound::<C>(keys_of(old(self).entries()), to@)
                < old(self).entries().len() {
                Some(lower_bound::<C>(keys_of(old(self).entries()), to@))
            } else {
                None
            }),
    {
        let p = self.map.find_lower_bound(to);
        if p < self.map.len() {
            self.current = Some(p);
        } else {
            self.reset();
        }
    }
}

} // verus!
