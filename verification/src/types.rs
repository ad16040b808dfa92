use vstd::prelude::*;
use std::cmp::Ordering;
use std::collections::HashMap;

verus! {

broadcast use vstd::std_specs::hash::group_hash_axioms;

/// The kind of an entry: a deletion marker or a value.
#[derive(Debug, Clone, Copy, PartialEq, Eq, Structural)]
pub enum ValueType {
    TypeDeletion,
    TypeValue,
}

impl ValueType {
    /// The number that stands for this kind in the low byte of a tag.
    pub open spec fn type_code(self) -> u64 {
        match self {
            ValueType::TypeDeletion => 0,
            ValueType::TypeValue => 1,
        }
    }

    /// The number that stands for this kind in the low byte of a tag.
    pub fn code(self) -> (c: u64)
        ensures
            c == self.type_code(),
    {
        match self {
            ValueType::TypeDeletion => 0,
            ValueType::TypeValue => 1,
        }
    }
}

/// The outcome of a database operation.
#[derive(Debug, Clone, PartialEq, Eq)]
pub enum Status {
    OK,
    NotFound(String),
    Corruption(String),
    NotSupported(String),
    InvalidArgument(String),
    IOError(String),
}

/// Byte-wise lexicographic order: a proper prefix comes first, otherwise the
/// first differing byte decides.
pub open spec fn lex_lt(a: Seq<u8>, b: Seq<u8>) -> bool
    decreases a.len(),
{
    if a.len() == 0 {
        b.len() > 0
    } else if b.len() == 0 {
        false
    } else if a[0] != b[0] {
        a[0] < b[0]
    } else {
        lex_lt(a.drop_first(), b.drop_first())
    }
}

pub proof fn lemma_lex_lt_irreflexive(a: Seq<u8>)
    ensures
        !lex_lt(a, a),
    decreases a.len(),
{
    if a.len() > 0 {
        lemma_lex_lt_irreflexive(a.drop_first());
    }
}

pub proof fn lemma_lex_lt_transitive(a: Seq<u8>, b: Seq<u8>, c: Seq<u8>)
    requires
        lex_lt(a, b),
        lex_lt(b, c),
    ensures
        lex_lt(a, c),
    decreases a.len(),
{
    if a.len() > 0 && b.len() > 0 && c.len() > 0 && a[0] == b[0] && b[0] == c[0] {
        lemma_lex_lt_transitive(a.drop_first(), b.drop_first(), c.drop_first());
    }
}

pub proof fn lemma_lex_lt_connected(a: Seq<u8>, b: Seq<u8>)
    requires
        a != b,
    ensures
        lex_lt(a, b) || lex_lt(b, a),
    decreases a.len(),
{
    if a.len() > 0 && b.len() > 0 && a[0] == b[0] {
        if a.drop_first() == b.drop_first() {
            assert(a.len() == b.len()) by {
                assert(a.len() == a.drop_first().len() + 1);
                assert(b.len() == b.drop_first().len() + 1);
            }
            assert(a =~= b) by {
                assert forall|i: int| 0 <= i < a.len() implies a[i] == b[i] by {
                    if i > 0 {
                        assert(a[i] == a.drop_first()[i - 1]);
                        assert(b[i] == b.drop_first()[i - 1]);
                    }
                }
            }
        }
        lemma_lex_lt_connected(a.drop_first(), b.drop_first());
    } else if a.len() == 0 && b.len() == 0 {
        assert(a =~= b);
    }
}

/// Byte strings that differ in their first byte are ordered by that byte, as
/// unsigned numbers, whatever follows.
pub proof fn lemma_lex_lt_first_byte(x: u8, y: u8, s: Seq<u8>, t: Seq<u8>)
    requires
        x != y,
    ensures
        lex_lt(seq![x] + s, seq![y] + t) == (x < y),
{
    let a = seq![x] + s;
    let b = seq![y] + t;
    assert(a[0] == x && b[0] == y);
}

/// A common prefix does not change the order: `p + a` sorts before `p + b`
/// exactly when `a` sorts before `b`.
pub proof fn lemma_lex_lt_common_prefix(p: Seq<u8>, a: Seq<u8>, b: Seq<u8>)
    ensures
        lex_lt(p + a, p + b) == lex_lt(a, b),
    decreases p.len(),
{
    if p.len() == 0 {
        assert(p + a =~= a);
        assert(p + b =~= b);
    } else {
        assert((p + a)[0] == p[0] && (p + b)[0] == p[0]);
        assert((p + a).drop_first() =~= p.drop_first() + a);
        assert((p + b).drop_first() =~= p.drop_first() + b);
        lemma_lex_lt_common_prefix(p.drop_first(), a, b);
    }
}

/// A proper prefix sorts before the longer string, and not after it.
pub proof fn lemma_lex_lt_proper_prefix(a: Seq<u8>, t: Seq<u8>)
    requires
        t.len() > 0,
    ensures
        lex_lt(a, a + t),
        !lex_lt(a + t, a),
    decreases a.len(),
{
    if a.len() == 0 {
        assert(a + t =~= t);
    } else {
        assert((a + t)[0] == a[0]);
        assert((a + t).drop_first() =~= a.drop_first() + t);
        lemma_lex_lt_proper_prefix(a.drop_first(), t);
    }
}

/// `StandardComparator` orders as `<[u8]>::cmp` does: by the first differing
/// byte as an unsigned number, a proper prefix first. Any two byte strings
/// are a common prefix followed either by nothing on one side or by two
/// different bytes, so these three cases fix the order completely.
pub proof fn lemma_standard_comparator_order(p: Seq<u8>, x: u8, y: u8, s: Seq<u8>, t: Seq<u8>)
    ensures
        x != y ==> (StandardComparator::lt(p + (seq![x] + s), p + (seq![y] + t)) == (x < y)),
        t.len() > 0 ==> StandardComparator::lt(p, p + t) && !StandardComparator::lt(p + t, p),
{
    if x != y {
        lemma_lex_lt_common_prefix(p, seq![x] + s, seq![y] + t);
        lemma_lex_lt_first_byte(x, y, s, t);
    }
    if t.len() > 0 {
        lemma_lex_lt_proper_prefix(p, t);
    }
}

/// Trait used to influence how SkipMap determines the order of elements. Use StandardComparator
/// for the normal implementation using numerical comparison.
///
/// An implementation fixes a strict total order `lt` on byte strings, in which
/// only equal strings compare `Equal`.
pub trait Comparator {
    spec fn lt(a: Seq<u8>, b: Seq<u8>) -> bool;

    proof fn lemma_irreflexive(a: Seq<u8>)
        ensures
            !Self::lt(a, a),
    ;

    proof fn lemma_transitive(a: Seq<u8>, b: Seq<u8>, c: Seq<u8>)
        requires
            Self::lt(a, b),
            Self::lt(b, c),
        ensures
            Self::lt(a, c),
    ;

    proof fn lemma_connected(a: Seq<u8>, b: Seq<u8>)
        requires
            a != b,
        ensures
            Self::lt(a, b) || Self::lt(b, a),
    ;

    fn cmp(a: &[u8], b: &[u8]) -> (r: Ordering)
        ensures
            (r == Ordering::Less) == Self::lt(a@, b@),
            (r == Ordering::Equal) == (a@ == b@),
            (r == Ordering::Greater) == Self::lt(b@, a@),
    ;
}

/// Compares byte strings lexicographically, as `<[u8]>::cmp` does.
pub struct StandardComparator;

impl Comparator for StandardComparator {
    open spec fn lt(a: Seq<u8>, b: Seq<u8>) -> bool {
        lex_lt(a, b)
    }

    proof fn lemma_irreflexive(a: Seq<u8>) {
        lemma_lex_lt_irreflexive(a);
    }

    proof fn lemma_transitive(a: Seq<u8>, b: Seq<u8>, c: Seq<u8>) {
        lemma_lex_lt_transitive(a, b, c);
    }

    proof fn lemma_connected(a: Seq<u8>, b: Seq<u8>) {
        lemma_lex_lt_connected(a, b);
    }

    fn cmp(a: &[u8], b: &[u8]) -> (r: Ordering) {
        let sign = compare_bytes(a, b);
        if sign < 0 {
            Ordering::Less
        } else if sign == 0 {
            Ordering::Equal
        } else {
            Ordering::Greater
        }
    }
}

/// Three-way lexicographic comparison of two byte strings: negative, zero or
/// positive as `a` sorts before, equal to, or after `b`.
pub fn compare_bytes(a: &[u8], b: &[u8]) -> (sign: i8)
    ensures
        (sign < 0) == lex_lt(a@, b@),
        (sign == 0) == (a@ == b@),
        (sign > 0) == lex_lt(b@, a@),
{
    let mut i: usize = 0;
    assert(a@.skip(0) =~= a@);
    assert(b@.skip(0) =~= b@);
    while i < a.len() && i < b.len()
        invariant
            i <= a@.len(),
            i <= b@.len(),
            forall|j: int| 0 <= j < i ==> a@[j] == b@[j],
            lex_lt(a@, b@) == lex_lt(a@.skip(i as int), b@.skip(i as int)),
            lex_lt(b@, a@) == lex_lt(b@.skip(i as int), a@.skip(i as int)),
        decreases a@.len() - i,
    {
        let x = a[i];
        let y = b[i];
        assert(a@.skip(i as int)[0] == x && b@.skip(i as int)[0] == y);
        if x < y {
            assert(a@[i as int] != b@[i as int]);
            return -1;
        }
        if x > y {
            assert(a@[i as int] != b@[i as int]);
            return 1;
        }
        assert(a@.skip(i as int).drop_first() =~= a@.skip(i + 1));
        assert(b@.skip(i as int).drop_first() =~= b@.skip(i + 1));
        i = i + 1;
    }
    if a.len() < b.len() {
        assert(a@.skip(i as int).len() == 0);
        -1
    } else if a.len() > b.len() {
        assert(b@.skip(i as int).len() == 0);
        1
    } else {
        assert(a@ =~= b@);
        proof { lemma_lex_lt_irreflexive(a@); }
        0
    }
}

/// The iterators of the database: a cursor over an ordered sequence of
/// entries, which is either on one entry or on none (before the first).
pub trait LdbIterator {
    /// The iterator is in a state its methods accept.
    spec fn inv(&self) -> bool;

    /// `current` can read the entry under the cursor.
    spec fn readable(&self) -> bool;

    /// `seek` accepts `to` as a target.
    spec fn seekable(&self, to: Seq<u8>) -> bool;

    /// The key and value under the cursor, if it is on an entry.
    spec fn current_entry(&self) -> Option<(Seq<u8>, Seq<u8>)>;

    fn advance(&mut self) -> (r: bool)
        requires
            old(self).inv(),
        ensures
            final(self).inv(),
            r == final(self).current_entry() is Some,
    ;

    fn reset(&mut self)
        requires
            old(self).inv(),
        ensures
            final(self).inv(),
            final(self).current_entry() is None,
    ;

    fn prev(&mut self) -> (r: bool)
        requires
            old(self).inv(),
        ensures
            final(self).inv(),
            r == final(self).current_entry() is Some,
    ;

    fn valid(&self) -> (r: bool)
        requires
            self.inv(),
        ensures
            r == self.current_entry() is Some,
    ;

    /// Copies the entry under the cursor into `key` and `val`; returns whether
    /// there was one. Without one the buffers keep their contents.
    fn current(&self, key: &mut Vec<u8>, val: &mut Vec<u8>) -> (r: bool)
        requires
            self.inv(),
            self.readable(),
        ensures
            r == self.current_entry() is Some,
            r ==> self.current_entry() == Some((final(key)@, final(val)@)),
            !r ==> final(key)@ == old(key)@ && final(val)@ == old(val)@,
    ;

    fn seek(&mut self, to: &[u8])
        requires
            old(self).inv(),
            old(self).seekable(to@),
        ensures
            final(self).inv(),
    ;
}

/// The key and value under the cursor of `it`, if it is on an entry.
pub fn current_key_val<It: LdbIterator>(it: &It) -> (r: Option<(Vec<u8>, Vec<u8>)>)
    requires
        it.inv(),
        it.readable(),
    ensures
        match r {
            Some((k, v)) => it.current_entry() == Some((k@, v@)),
            None => it.current_entry() is None,
        },
{
    let mut k: Vec<u8> = Vec::new();
    let mut v: Vec<u8> = Vec::new();
    if it.current(&mut k, &mut v) {
        Some((k, v))
    } else {
        None
    }
}

/// Options of a database; not every member is implemented yet.
pub struct Options<C: Comparator> {
    pub cmp: C,
    pub create_if_missing: bool,
    pub error_if_exists: bool,
    pub paranoid_checks: bool,
    pub write_buffer_size: usize,
    pub max_open_files: usize,
    pub block_size: usize,
    pub block_restart_interval: usize,
    pub reuse_logs: bool,
}

impl Default for Options<StandardComparator> {
    fn default() -> (o: Options<StandardComparator>)
        ensures
            o.create_if_missing,
            !o.error_if_exists,
            !o.paranoid_checks,
            o.write_buffer_size == 4 * 1024 * 1024,
            o.max_open_files == 1024,
            o.block_size == 4 * 1024,
            o.block_restart_interval == 16,
            !o.reuse_logs,
    {
        assert((4usize << 20usize) == 4194304usize) by (bit_vector);
        assert((1usize << 10usize) == 1024usize) by (bit_vector);
        assert((4usize << 10usize) == 4096usize) by (bit_vector);
        Options {
            cmp: StandardComparator,
            create_if_missing: true,
            error_if_exists: false,
            paranoid_checks: false,
            write_buffer_size: 4 << 20,
            max_open_files: 1 << 10,
            block_size: 4 << 10,
            block_restart_interval: 16,
            reuse_logs: false,
        }
    }
}

/// Supplied to DB read operations.
pub struct ReadOptions {
    pub verify_checksums: bool,
    pub fill_cache: bool,
    pub snapshot: Option<SequenceNumber>,
}

impl Default for ReadOptions {
    fn default() -> (o: ReadOptions)
        ensures
            !o.verify_checksums,
            o.fill_cache,
            o.snapshot is None,
    {
        ReadOptions { verify_checksums: false, fill_cache: true, snapshot: None }
    }
}

/// Represents a sequence number of a single entry.
pub type SequenceNumber = u64;

/// Opaque snapshot handle; an index into the snapshot list.
pub type Snapshot = u64;

/// The abstract state of a `SnapshotList`: which handles are live and which
/// sequence number each one pins, plus the two cursors the list keeps.
pub struct SnapshotListView {
    pub snapshots: Map<Snapshot, SequenceNumber>,
    pub newest: Snapshot,
    pub oldest: Snapshot,
}

impl SnapshotListView {
    /// The state after handing out a new snapshot for `seq`.
    pub open spec fn after_new_snapshot(self, seq: SequenceNumber) -> SnapshotListView {
        let handle = (self.newest + 1) as u64;
        SnapshotListView {
            snapshots: self.snapshots.insert(handle, seq),
            newest: handle,
            oldest: if self.oldest == 0 { handle } else { self.oldest },
        }
    }

    /// The state after releasing handle `ss`.
    pub open spec fn after_delete(self, ss: Snapshot) -> SnapshotListView {
        SnapshotListView {
            snapshots: self.snapshots.remove(ss),
            newest: if self.newest == ss { (self.newest - 1) as u64 } else { self.newest },
            oldest: if self.oldest == ss { (self.oldest + 1) as u64 } else { self.oldest },
        }
    }

    /// The sequence number pinned by the oldest snapshot.
    pub open spec fn oldest_seq(self) -> SequenceNumber {
        self.snapshots[self.oldest]
    }

    /// The sequence number pinned by the newest snapshot.
    pub open spec fn newest_seq(self) -> SequenceNumber {
        self.snapshots[self.newest]
    }

    /// The live handles are exactly the contiguous range `oldest..=newest`,
    /// which is not empty and starts at 1 or later.
    pub open spec fn contiguous(self) -> bool {
        &&& 1 <= self.oldest <= self.newest
        &&& forall|h: Snapshot| #[trigger] self.snapshots.contains_key(h) <==> self.oldest <= h <= self.newest
    }
}

/// A new snapshot is the newest one and pins the sequence number it was
/// taken for; the list is no longer empty.
pub proof fn lemma_new_snapshot_is_newest(v: SnapshotListView, seq: SequenceNumber)
    requires
        v.newest < u64::MAX,
    ensures
        v.after_new_snapshot(seq).snapshots.contains_key(v.after_new_snapshot(seq).newest),
        v.after_new_snapshot(seq).newest_seq() == seq,
        v.after_new_snapshot(seq).oldest != 0,
{
}

/// The first snapshot of an empty list is both the oldest and the newest.
pub proof fn lemma_first_snapshot_is_oldest(v: SnapshotListView, seq: SequenceNumber)
    requires
        v.newest < u64::MAX,
        v.oldest == 0,
    ensures
        v.after_new_snapshot(seq).oldest == v.after_new_snapshot(seq).newest,
        v.after_new_snapshot(seq).oldest_seq() == seq,
{
}

/// A new snapshot leaves the oldest one in place.
pub proof fn lemma_new_snapshot_keeps_oldest(v: SnapshotListView, seq: SequenceNumber)
    requires
        v.newest < u64::MAX,
        v.oldest != 0,
        v.oldest != v.newest + 1,
    ensures
        v.after_new_snapshot(seq).oldest == v.oldest,
        v.after_new_snapshot(seq).oldest_seq() == v.oldest_seq(),
{
}

/// Releasing the snapshot just taken restores the list, when the list was
/// not empty and the new handle was not in use.
pub proof fn lemma_new_then_delete_restores(v: SnapshotListView, seq: SequenceNumber)
    requires
        v.newest < u64::MAX,
        v.oldest != 0,
        v.oldest != v.newest + 1,
        !v.snapshots.contains_key((v.newest + 1) as u64),
    ensures
        v.after_new_snapshot(seq).after_delete((v.newest + 1) as u64) == v,
{
    assert(v.after_new_snapshot(seq).after_delete((v.newest + 1) as u64).snapshots =~= v.snapshots);
}

/// In a contiguous list both cursors name live snapshots, so `oldest` and
/// `newest` do not panic, and the next handle is not in use.
pub proof fn lemma_contiguous_cursors_live(v: SnapshotListView)
    requires
        v.contiguous(),
    ensures
        v.snapshots.contains_key(v.oldest),
        v.snapshots.contains_key(v.newest),
        v.newest < u64::MAX ==> !v.snapshots.contains_key((v.newest + 1) as u64),
{
}

/// The first snapshot taken on a fresh list makes it contiguous.
pub proof fn lemma_contiguous_first_snapshot(v: SnapshotListView, seq: SequenceNumber)
    requires
        v.snapshots == Map::<Snapshot, SequenceNumber>::empty(),
        v.newest == 0,
        v.oldest == 0,
    ensures
        v.after_new_snapshot(seq).contiguous(),
{
}

/// Taking a snapshot keeps a list contiguous, growing the range by the new
/// handle `newest + 1`.
pub proof fn lemma_contiguous_new_snapshot(v: SnapshotListView, seq: SequenceNumber)
    requires
        v.contiguous(),
        v.newest < u64::MAX,
    ensures
        v.after_new_snapshot(seq).contiguous(),
        v.after_new_snapshot(seq).oldest == v.oldest,
        v.after_new_snapshot(seq).newest == v.newest + 1,
{
}

/// With at least two live snapshots, releasing the oldest or the newest is
/// allowed (`delete` neither overflows nor underflows) and keeps the list
/// contiguous, shrinking the range at that end.
pub proof fn lemma_contiguous_delete_end(v: SnapshotListView, ss: Snapshot)
    requires
        v.contiguous(),
        v.oldest < v.newest,
        ss == v.oldest || ss == v.newest,
    ensures
        v.oldest == ss ==> ss < u64::MAX,
        v.newest == ss ==> ss > 0,
        v.after_delete(ss).contiguous(),
{
}

/// A list of all snapshots is kept in the DB.
pub struct SnapshotList {
    map: HashMap<Snapshot, SequenceNumber>,
    newest: Snapshot,
    oldest: Snapshot,
}

impl View for SnapshotList {
    type V = SnapshotListView;

    closed spec fn view(&self) -> SnapshotListView {
        SnapshotListView { snapshots: self.map@, newest: self.newest, oldest: self.oldest }
    }
}

impl SnapshotList {
    pub fn new() -> (l: SnapshotList)
        ensures
            l@.snapshots == Map::<Snapshot, SequenceNumber>::empty(),
            l@.newest == 0,
            l@.oldest == 0,
    {
        SnapshotList { map: HashMap::new(), newest: 0, oldest: 0 }
    }

    /// Registers a snapshot of `seq` and returns its handle, which is one past
    /// the previous newest handle.
    pub fn new_snapshot(&mut self, seq: SequenceNumber) -> (handle: Snapshot)
        requires
            old(self)@.newest < u64::MAX,
        ensures
            handle == old(self)@.newest + 1,
            final(self)@ == old(self)@.after_new_snapshot(seq),
    {
        self.newest = self.newest + 1;
        self.map.insert(self.newest, seq);

        if self.oldest == 0 {
            self.oldest = self.newest;
        }

        self.newest
    }

    pub fn oldest(&self) -> (seq: SequenceNumber)
        requires
            self@.snapshots.contains_key(self@.oldest),
        ensures
            seq == self@.oldest_seq(),
    {
        *self.map.get(&self.oldest).unwrap()
    }

    pub fn newest(&self) -> (seq: SequenceNumber)
        requires
            self@.snapshots.contains_key(self@.newest),
        ensures
            seq == self@.newest_seq(),
    {
        *self.map.get(&self.newest).unwrap()
    }

    /// Releases handle `ss`; the oldest and newest cursors move past it when it
    /// is one of them.
    pub fn delete(&mut self, ss: Snapshot)
        requires
            old(self)@.oldest == ss ==> ss < u64::MAX,
            old(self)@.newest == ss ==> ss > 0,
        ensures
            final(self)@ == old(self)@.after_delete(ss),
    {
        if self.oldest == ss {
            self.oldest = self.oldest + 1;
        }
        if self.newest == ss {
            self.newest = self.newest - 1;
        }
        self.map.remove(&ss);
    }

    pub fn empty(&self) -> (b: bool)
        ensures
            b == (self@.oldest == 0),
    {
        self.oldest == 0
    }
}

} // verus!
