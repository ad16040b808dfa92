use rusty_leveldb::types::SnapshotList;

#[test]
fn test_snapshot_list() {
    let mut l = SnapshotList::new();

    assert!(l.empty());

    let oldest = l.new_snapshot(1);
    l.new_snapshot(2);
    let newest = l.new_snapshot(0);

    assert!(!l.empty());

    assert_eq!(l.oldest(), 1);
    assert_eq!(l.newest(), 0);

    l.delete(newest);

    assert_eq!(l.newest(), 2);
    assert_eq!(l.oldest(), 1);

    l.delete(oldest);

    assert_eq!(l.oldest(), 2);
}
