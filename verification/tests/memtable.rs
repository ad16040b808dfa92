use rusty_leveldb::key_order::MemtableKeyCmp;
use rusty_leveldb::key_types::{parse_memtable_key, parse_tag, LookupKey};
use rusty_leveldb::memtable::{shift_left, MemTable, MemtableIterator};
use rusty_leveldb::types::{current_key_val, LdbIterator, Options, StandardComparator, ValueType};

#[test]
fn test_shift_left() {
    let mut v = vec![1, 2, 3, 4, 5];
    shift_left(&mut v, 1);
    assert_eq!(v, vec![2, 3, 4, 5]);

    let mut v = vec![1, 2, 3, 4, 5];
    shift_left(&mut v, 4);
    assert_eq!(v, vec![5]);
}

fn get_memtable() -> MemTable<StandardComparator> {
    let mut mt = MemTable::new(Options::default());
    let entries = vec![
        (115, "abc", "122"),
        (120, "abc", "123"),
        (121, "abd", "124"),
        (122, "abe", "125"),
        (123, "abf", "126"),
    ];

    for e in entries.iter() {
        mt.add(e.0, ValueType::TypeValue, e.1.as_bytes(), e.2.as_bytes());
    }
    mt
}

#[test]
fn test_memtable_parse_tag() {
    let tag = (12345 << 8) | 1;
    assert_eq!(parse_tag(tag), (ValueType::TypeValue, 12345));
}

#[test]
fn test_memtable_add() {
    let mut mt = MemTable::new_raw(MemtableKeyCmp(StandardComparator));
    mt.add(123, ValueType::TypeValue, "abc".as_bytes(), "123".as_bytes());

    let mut it = mt.map.iter();
    assert!(it.advance());
    assert_eq!(
        current_key_val(&it).unwrap().0,
        vec![11, 97, 98, 99, 1, 123, 0, 0, 0, 0, 0, 0, 3, 49, 50, 51].as_slice()
    );
}

#[test]
fn test_memtable_add_get() {
    let mt = get_memtable();

    // Smaller sequence number doesn't find entry
    if let Ok(v) = mt.get(&LookupKey::new("abc".as_bytes(), 110)) {
        println!("{:?}", v);
        panic!("found");
    }

    if let Ok(v) = mt.get(&LookupKey::new("abf".as_bytes(), 110)) {
        println!("{:?}", v);
        panic!("found");
    }

    // Bigger sequence number falls back to next smaller
    if let Ok(v) = mt.get(&LookupKey::new("abc".as_bytes(), 116)) {
        assert_eq!(v, "122".as_bytes());
    } else {
        panic!("not found");
    }

    // Exact match works
    if let Ok(v) = mt.get(&LookupKey::new("abc".as_bytes(), 120)) {
        assert_eq!(v, "123".as_bytes());
    } else {
        panic!("not found");
    }

    if let Ok(v) = mt.get(&LookupKey::new("abe".as_bytes(), 122)) {
        assert_eq!(v, "125".as_bytes());
    } else {
        panic!("not found");
    }

    if let Ok(v) = mt.get(&LookupKey::new("abf".as_bytes(), 129)) {
        assert_eq!(v, "126".as_bytes());
    } else {
        panic!("not found");
    }
}

#[test]
fn test_memtable_iterator_init() {
    let mt = get_memtable();
    let mut iter = mt.iter();

    assert!(!iter.valid());
    iter.advance();
    assert!(iter.valid());
    assert_eq!(
        current_key_val(&iter).unwrap().0,
        vec![97, 98, 99, 1, 120, 0, 0, 0, 0, 0, 0].as_slice()
    );
    iter.reset();
    assert!(!iter.valid());
}

#[test]
fn test_memtable_iterator_fwd_seek() {
    let mt = get_memtable();
    let mut iter = mt.iter();

    let expected = vec![
        "123".as_bytes(), // i.e., the abc entry with higher sequence number comes first
        "122".as_bytes(),
        "124".as_bytes(),
        "125".as_bytes(),
        "126".as_bytes(),
    ];
    let mut i = 0;

    while iter.advance() {
        let (_k, v) = current_key_val(&iter).unwrap();
        assert_eq!(v, expected[i]);
        i += 1;
    }
    assert_eq!(i, expected.len());
}

#[test]
fn test_memtable_iterator_reverse() {
    let mt = get_memtable();
    let mut iter = mt.iter();

    // Bigger sequence number comes first
    iter.advance();
    assert!(iter.valid());
    assert_eq!(
        current_key_val(&iter).unwrap().0,
        vec![97, 98, 99, 1, 120, 0, 0, 0, 0, 0, 0].as_slice()
    );

    iter.advance();
    assert!(iter.valid());
    assert_eq!(
        current_key_val(&iter).unwrap().0,
        vec![97, 98, 99, 1, 115, 0, 0, 0, 0, 0, 0].as_slice()
    );

    iter.advance();
    assert!(iter.valid());
    assert_eq!(
        current_key_val(&iter).unwrap().0,
        vec![97, 98, 100, 1, 121, 0, 0, 0, 0, 0, 0].as_slice()
    );

    iter.prev();
    assert!(iter.valid());
    assert_eq!(
        current_key_val(&iter).unwrap().0,
        vec![97, 98, 99, 1, 115, 0, 0, 0, 0, 0, 0].as_slice()
    );

    iter.prev();
    assert!(iter.valid());
    assert_eq!(
        current_key_val(&iter).unwrap().0,
        vec![97, 98, 99, 1, 120, 0, 0, 0, 0, 0, 0].as_slice()
    );

    iter.prev();
    assert!(!iter.valid());
}

#[test]
fn test_memtable_parse_key() {
    let key = vec![11, 1, 2, 3, 1, 123, 0, 0, 0, 0, 0, 0, 3, 4, 5, 6];
    let (keylen, keyoff, tag, vallen, valoff) = parse_memtable_key(&key);
    assert_eq!(keylen, 3);
    assert_eq!(&key[keyoff..keyoff + keylen], vec![1, 2, 3].as_slice());
    assert_eq!(tag, 123 << 8 | 1);
    assert_eq!(vallen, 3);
    assert_eq!(&key[valoff..valoff + vallen], vec![4, 5, 6].as_slice());
}

/// Walks a memtable iterator over four entries forwards and backwards.
fn check_iterator_properties(mut it: MemtableIterator<'_, StandardComparator>) {
    assert!(!it.valid());
    assert!(it.advance());
    assert!(it.valid());
    let first = current_key_val(&it);
    assert!(it.advance());
    let second = current_key_val(&it);
    assert!(it.advance());
    let third = current_key_val(&it);
    // fourth (last) element
    assert!(it.advance());
    assert!(it.valid());
    let fourth = current_key_val(&it);
    // past end is invalid
    assert!(!it.advance());
    assert!(!it.valid());
    assert!(fourth.is_some());

    it.reset();
    assert!(!it.valid());
    assert!(it.advance());
    assert_eq!(first, current_key_val(&it));
    assert!(it.advance());
    assert_eq!(second, current_key_val(&it));
    assert!(it.advance());
    assert_eq!(third, current_key_val(&it));
    assert!(it.prev());
    assert_eq!(second, current_key_val(&it));
    assert!(it.prev());
    assert_eq!(first, current_key_val(&it));
    assert!(!it.prev());
    assert!(!it.valid());
}

#[test]
fn test_memtable_iterator_behavior() {
    let mut mt = MemTable::new(Options::default());
    let entries = vec![
        (115, "abc", "122"),
        (120, "abc", "123"),
        (121, "abd", "124"),
        (123, "abf", "126"),
    ];

    for e in entries.iter() {
        mt.add(e.0, ValueType::TypeValue, e.1.as_bytes(), e.2.as_bytes());
    }

    check_iterator_properties(mt.iter());
}
