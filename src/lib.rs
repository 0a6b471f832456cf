//! Write path of a log-structured key-value store: a checksummed
//! write-ahead log format, an ordered in-memory table with tombstones,
//! and the sequencing rules that tie the two together.
use vstd::prelude::*;

pub mod bytes;
pub mod db;
pub mod entry;
pub mod memtable;
pub mod sstable;
pub mod types;
pub mod wal;

pub use db::{DBConfig, DB};
pub use entry::Entry;
pub use memtable::MemTable;
pub use types::{DBError, Decode, Encode};
pub use wal::{decode_record, encode_record, Op, SyncPolicy, WALRecord, WalDecodeError};

verus! {

} // verus!
