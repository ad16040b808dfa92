//! A verified core of a LevelDB-style storage engine: the shared types of the
//! database (options, value types, snapshots), the byte layout of memtable keys,
//! an ordered map of such keys, and the memtable that answers point lookups and
//! ordered iteration over it.

pub mod types;
pub mod coding;
pub mod key_types;
pub mod key_order;
pub mod skipmap;
pub mod memtable;
