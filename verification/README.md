# rusty_leveldb (verified core)

The in-memory part of a LevelDB-style storage engine, written in Verus.

- `src/types.rs`: value types, status, the `Comparator` trait with the
  lexicographic `StandardComparator`, options, the `LdbIterator` trait and the
  snapshot list.
- `src/coding.rs`: protobuf varints and fixed little-endian integers, called
  from the `integer-encoding` crate.
- `src/key_types.rs`: the byte layout of memtable keys and lookup keys, with
  building and parsing.
- `src/key_order.rs`: the order of memtable keys (user key, then newest first).
- `src/skipmap.rs`: a sorted map of memtable keys and a cursor over it.
- `src/memtable.rs`: the memtable (add, get, iteration that skips deletions)
  and the laws of lookups: a read returns the newest visible value, a
  deletion hides older values, a write leaves the lookups that cannot see it
  alone, and a whole iteration yields each value entry once, in key order.
