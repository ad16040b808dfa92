use rusty_leveldb::key_order::MemtableKeyCmp;
use rusty_leveldb::key_types::{build_memtable_key, build_tag, parse_memtable_key, parse_tag, LookupKey};
use rusty_leveldb::memtable::MemTable;
use rusty_leveldb::types::{
    compare_bytes, current_key_val, Comparator, LdbIterator, Options, ReadOptions, SnapshotList,
    StandardComparator, Status, ValueType,
};
use std::cmp::Ordering;

fn table(entries: &[(u64, ValueType, &str, &str)]) -> MemTable<StandardComparator> {
    let mut mt = MemTable::new(Options::default());
    for e in entries {
        mt.add(e.0, e.1, e.2.as_bytes(), e.3.as_bytes());
    }
    mt
}

#[test]
fn read_gives_back_what_was_written() {
    let mt = table(&[(7, ValueType::TypeValue, "key", "value")]);
    assert_eq!(mt.get(&LookupKey::new(b"key", 7)).unwrap(), b"value".to_vec());
    assert_eq!(mt.get(&LookupKey::new(b"key", 1000)).unwrap(), b"value".to_vec());
}

#[test]
fn deletion_hides_older_value() {
    let mt = table(&[
        (5, ValueType::TypeValue, "k", "old"),
        (9, ValueType::TypeDeletion, "k", ""),
    ]);
    assert_eq!(mt.get(&LookupKey::new(b"k", 8)).unwrap(), b"old".to_vec());
    match mt.get(&LookupKey::new(b"k", 9)) {
        Err(Status::NotFound(m)) => assert_eq!(m, ""),
        other => panic!("unexpected {:?}", other),
    }
    assert!(mt.get(&LookupKey::new(b"k", 100)).is_err());
}

#[test]
fn lookup_below_first_version_is_not_found() {
    let mt = table(&[(50, ValueType::TypeValue, "a", "x")]);
    match mt.get(&LookupKey::new(b"a", 49)) {
        Err(Status::NotFound(m)) => assert_eq!(m, ""),
        other => panic!("unexpected {:?}", other),
    }
    assert!(mt.get(&LookupKey::new(b"b", 60)).is_err());
}

#[test]
fn adding_one_key_leaves_others() {
    let mut mt = table(&[(1, ValueType::TypeValue, "a", "1"), (2, ValueType::TypeValue, "c", "3")]);
    assert_eq!(mt.get(&LookupKey::new(b"a", 10)).unwrap(), b"1".to_vec());
    mt.add(3, ValueType::TypeValue, b"b", b"2");
    mt.add(4, ValueType::TypeDeletion, b"c", b"");
    assert_eq!(mt.get(&LookupKey::new(b"a", 10)).unwrap(), b"1".to_vec());
    assert_eq!(mt.get(&LookupKey::new(b"b", 10)).unwrap(), b"2".to_vec());
    assert!(mt.get(&LookupKey::new(b"c", 10)).is_err());
    assert_eq!(mt.get(&LookupKey::new(b"c", 3)).unwrap(), b"3".to_vec());
}

#[test]
fn iterator_steps_over_deletions() {
    let mt = table(&[
        (1, ValueType::TypeValue, "a", "1"),
        (2, ValueType::TypeDeletion, "b", ""),
        (3, ValueType::TypeValue, "c", "3"),
    ]);
    let mut it = mt.iter();
    assert!(it.advance());
    assert_eq!(current_key_val(&it).unwrap().1, b"1".to_vec());
    assert!(it.advance());
    assert_eq!(current_key_val(&it).unwrap().1, b"3".to_vec());
    // stepping back undoes the step forward
    assert!(it.prev());
    assert_eq!(current_key_val(&it).unwrap().1, b"1".to_vec());
    assert!(it.advance());
    assert_eq!(current_key_val(&it).unwrap().1, b"3".to_vec());
    assert!(!it.advance());
    assert!(!it.valid());
    assert_eq!(current_key_val(&it), None);
    // from before the first entry, prev stays there
    assert!(!it.prev());
    assert!(!it.valid());
}

#[test]
fn iterator_current_leaves_buffers_when_invalid() {
    let mt = table(&[(1, ValueType::TypeValue, "a", "1")]);
    let it = mt.iter();
    let mut k = vec![9u8];
    let mut v = vec![8u8];
    assert!(!it.current(&mut k, &mut v));
    assert_eq!(k, vec![9u8]);
    assert_eq!(v, vec![8u8]);
}

#[test]
fn iterator_seek_uses_sequence_zero() {
    let mt = table(&[
        (115, ValueType::TypeValue, "abc", "122"),
        (120, ValueType::TypeValue, "abc", "123"),
        (121, ValueType::TypeValue, "abd", "124"),
        (122, ValueType::TypeValue, "abe", "125"),
    ]);
    let mut it = mt.iter();
    it.seek(b"ab");
    assert!(it.valid());
    assert_eq!(current_key_val(&it).unwrap().1, b"123".to_vec());
    // every stored abd entry has a sequence number above zero, so it sorts first
    it.seek(b"abd");
    assert!(it.valid());
    assert_eq!(current_key_val(&it).unwrap().1, b"125".to_vec());
    it.seek(b"abz");
    assert!(!it.valid());
}

#[test]
fn approx_mem_usage_counts_entry_bytes() {
    let mut mt = MemTable::new_raw(MemtableKeyCmp(StandardComparator));
    assert_eq!(mt.approx_mem_usage(), 0);
    mt.add(123, ValueType::TypeValue, b"abc", b"123");
    assert_eq!(mt.approx_mem_usage(), 16);
    mt.add(124, ValueType::TypeValue, b"abcd", b"");
    assert_eq!(mt.approx_mem_usage(), 16 + 14);
}

#[test]
fn long_key_uses_two_byte_varint() {
    let key = vec![7u8; 200];
    let built = build_memtable_key(&key, b"v", ValueType::TypeDeletion, 2);
    assert_eq!(built[0], 0xd0);
    assert_eq!(built[1], 0x01);
    assert_eq!(built.len(), 2 + 200 + 8 + 1 + 1);
    let (keylen, keyoff, tag, vallen, valoff) = parse_memtable_key(&built);
    assert_eq!(keylen, 200);
    assert_eq!(keyoff, 2);
    assert_eq!(tag, 2 << 8);
    assert_eq!(parse_tag(tag), (ValueType::TypeDeletion, 2));
    assert_eq!(vallen, 1);
    assert_eq!(&built[valoff..valoff + vallen], b"v");
}

#[test]
fn lookup_key_parts() {
    let lk = LookupKey::new(b"abc", 5);
    assert_eq!(lk.memtable_key(), &[11, 97, 98, 99, 1, 5, 0, 0, 0, 0, 0, 0][..]);
    assert_eq!(lk.user_key(), b"abc");
    assert_eq!(lk.internal_key(), &[97, 98, 99, 1, 5, 0, 0, 0, 0, 0, 0][..]);
    let (keylen, keyoff, tag, vallen, valoff) = parse_memtable_key(lk.memtable_key());
    assert_eq!((keylen, keyoff, tag, vallen, valoff), (3, 1, (5 << 8) | 1, 0, 12));
}

#[test]
fn tag_layout() {
    assert_eq!(build_tag(ValueType::TypeValue, 12345), (12345 << 8) | 1);
    assert_eq!(build_tag(ValueType::TypeDeletion, 7), 7 << 8);
    assert_eq!(parse_tag(7 << 8), (ValueType::TypeDeletion, 7));
    assert_eq!(parse_tag((7 << 8) | 5), (ValueType::TypeValue, 7));
    assert_eq!(ValueType::TypeDeletion.code(), 0);
    assert_eq!(ValueType::TypeValue.code(), 1);
}

#[test]
fn standard_comparator_is_lexicographic() {
    assert_eq!(StandardComparator::cmp(b"abc", b"abd"), Ordering::Less);
    assert_eq!(StandardComparator::cmp(b"abd", b"abc"), Ordering::Greater);
    assert_eq!(StandardComparator::cmp(b"ab", b"abc"), Ordering::Less);
    assert_eq!(StandardComparator::cmp(b"abc", b"abc"), Ordering::Equal);
    assert_eq!(StandardComparator::cmp(b"", b""), Ordering::Equal);
    assert_eq!(StandardComparator::cmp(b"b", b"abc"), Ordering::Greater);
    assert!(compare_bytes(b"", b"a") < 0);
}

#[test]
fn memtable_key_order_puts_newer_first() {
    let cmp = MemtableKeyCmp(StandardComparator);
    let older = build_memtable_key(b"k", b"1", ValueType::TypeValue, 1);
    let newer = build_memtable_key(b"k", b"2", ValueType::TypeValue, 2);
    let other = build_memtable_key(b"l", b"0", ValueType::TypeValue, 9);
    assert_eq!(cmp.cmp(&newer, &older), Ordering::Less);
    assert_eq!(cmp.cmp(&older, &newer), Ordering::Greater);
    assert_eq!(cmp.cmp(&older, &other), Ordering::Less);
    let same_seq = build_memtable_key(b"k", b"x", ValueType::TypeDeletion, 1);
    assert_eq!(cmp.cmp(&older, &same_seq), Ordering::Equal);
}

#[test]
fn default_options() {
    let o: Options<StandardComparator> = Options::default();
    assert!(o.create_if_missing);
    assert!(!o.error_if_exists);
    assert!(!o.paranoid_checks);
    assert_eq!(o.write_buffer_size, 4 << 20);
    assert_eq!(o.max_open_files, 1 << 10);
    assert_eq!(o.block_size, 4 << 10);
    assert_eq!(o.block_restart_interval, 16);
    assert!(!o.reuse_logs);
    let r = ReadOptions::default();
    assert!(!r.verify_checksums);
    assert!(r.fill_cache);
    assert_eq!(r.snapshot, None);
}

#[test]
fn snapshot_new_then_delete_restores_newest() {
    let mut l = SnapshotList::new();
    let first = l.new_snapshot(10);
    assert_eq!(first, 1);
    assert_eq!(l.oldest(), 10);
    assert_eq!(l.newest(), 10);
    let second = l.new_snapshot(20);
    assert_eq!(second, 2);
    assert_eq!(l.newest(), 20);
    assert_eq!(l.oldest(), 10);
    l.delete(second);
    assert_eq!(l.newest(), 10);
    assert_eq!(l.oldest(), 10);
    assert!(!l.empty());
}

#[test]
fn snapshot_delete_of_middle_keeps_cursors() {
    let mut l = SnapshotList::new();
    l.new_snapshot(1);
    let middle = l.new_snapshot(2);
    l.new_snapshot(3);
    l.delete(middle);
    assert_eq!(l.oldest(), 1);
    assert_eq!(l.newest(), 3);
}

fn yielded(mt: &MemTable<StandardComparator>) -> Vec<(Vec<u8>, Vec<u8>)> {
    let mut it = mt.iter();
    let mut out = Vec::new();
    while it.advance() {
        out.push(current_key_val(&it).unwrap());
    }
    out
}

#[test]
fn add_leaves_older_lookups_of_same_key() {
    let mut mt = table(&[(5, ValueType::TypeValue, "k", "old")]);
    mt.add(9, ValueType::TypeValue, b"k", b"new");
    assert_eq!(mt.get(&LookupKey::new(b"k", 8)).unwrap(), b"old".to_vec());
    assert_eq!(mt.get(&LookupKey::new(b"k", 9)).unwrap(), b"new".to_vec());
    assert!(mt.get(&LookupKey::new(b"k", 4)).is_err());
}

#[test]
fn whole_iteration_after_adds() {
    let mut mt = table(&[(2, ValueType::TypeValue, "b", "2"), (1, ValueType::TypeValue, "a", "1")]);
    let before = yielded(&mt);
    assert_eq!(before.len(), 2);
    assert_eq!(before[0].1, b"1".to_vec());
    assert_eq!(before[1].1, b"2".to_vec());
    // a deletion adds nothing to the iteration
    mt.add(3, ValueType::TypeDeletion, b"a", b"");
    assert_eq!(yielded(&mt), before);
    // a value appears once, at its place in key order, newest first for one key
    mt.add(4, ValueType::TypeValue, b"b", b"4");
    let after = yielded(&mt);
    assert_eq!(after.len(), 3);
    assert_eq!(after[0], before[0]);
    assert_eq!(after[1], (vec![b'b', 1, 4, 0, 0, 0, 0, 0, 0], b"4".to_vec()));
    assert_eq!(after[2], before[1]);
}

#[test]
fn snapshot_range_stays_contiguous() {
    let mut l = SnapshotList::new();
    for s in 1..=4u64 {
        assert_eq!(l.new_snapshot(s * 10), s);
    }
    l.delete(1);
    l.delete(4);
    assert_eq!(l.oldest(), 20);
    assert_eq!(l.newest(), 30);
    assert_eq!(l.new_snapshot(50), 4);
    assert_eq!(l.newest(), 50);
    l.delete(2);
    assert_eq!(l.oldest(), 30);
}
