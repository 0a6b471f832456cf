//! The engine core: sequence numbers, the log-before-table rule, reads.
//!
//! The engine does no I/O itself. Opening takes the log's bytes; a write is
//! first prepared as a record, which the caller appends to the log, and is
//! then applied together with the outcome of that append.
use vstd::prelude::*;
use crate::entry::EntryModel;
use crate::memtable::{is_max_seq_no, MemTable};
use crate::types::{empty_key_error, DBError};
use crate::wal::{
    apply_record, encoded_record, loggable, replay_into, replay_spec, Op, RecordModel,
    ReplayOutcome, SyncPolicy, WALRecord, BODY_HEADER_LEN, WORD_LEN,
};

verus! {

pub const DEFAULT_SS_TABLE_DIR: &'static str = ".lsm/sstables";

pub const DEFAULT_WAL_DIR: &'static str = ".lsm/wal";

pub const DEFAULT_SS_L0_COMPACT_THRESHOLD: u32 = 100;

pub const DEFAULT_MEMTABLE_MAX_SIZE: u32 = 100;

/// The largest length prefix a record may carry by default.
pub const DEFAULT_MAX_RECORD_LEN: u32 = 1024 * 1000;

/// The settings of an engine, fixed once it is built.
#[derive(Debug, Clone)]
pub struct DBConfig {
    /// Number of keys at which the table should be flushed (advisory).
    pub memtable_max_size: Option<u32>,
    pub ss_table_dir: String,
    pub wal_file: String,
    pub wal_sync_policy: SyncPolicy,
    /// The largest length prefix a record may carry, written or read.
    pub max_record_len: u32,
    pub ss_l0_compact_threshold: u32,
    /// Start with an empty table whatever the log holds (for tooling).
    pub disable_wal_memtable_replay_on_load: bool,
}

impl Default for DBConfig {
    fn default() -> (r: Self)
        ensures
            r.memtable_max_size == Some(DEFAULT_MEMTABLE_MAX_SIZE),
            r.wal_sync_policy == SyncPolicy::Always,
            r.max_record_len == DEFAULT_MAX_RECORD_LEN,
            r.ss_l0_compact_threshold == DEFAULT_SS_L0_COMPACT_THRESHOLD,
            !r.disable_wal_memtable_replay_on_load,
    {
        DBConfig {
            memtable_max_size: Some(DEFAULT_MEMTABLE_MAX_SIZE),
            ss_table_dir: DEFAULT_SS_TABLE_DIR.to_owned(),
            wal_file: DEFAULT_WAL_DIR.to_owned(),
            wal_sync_policy: SyncPolicy::Always,
            max_record_len: DEFAULT_MAX_RECORD_LEN,
            ss_l0_compact_threshold: DEFAULT_SS_L0_COMPACT_THRESHOLD,
            disable_wal_memtable_replay_on_load: false,
        }
    }
}

/// A record of `key` and `val` has a length prefix of at most `max_record_len`.
pub open spec fn fits_record(key: Seq<u8>, val: Seq<u8>, max_record_len: u32) -> bool {
    BODY_HEADER_LEN + key.len() + val.len() + WORD_LEN <= max_record_len
}

/// The counter after opening on a table `m`: one past its highest sequence
/// number (held at `u64::MAX` once reached), or zero for an empty table.
pub open spec fn resumes_after(m: Map<Seq<u8>, EntryModel>, next: u64) -> bool {
    if m == Map::<Seq<u8>, EntryModel>::empty() {
        next == 0
    } else {
        exists|s: u64|
            is_max_seq_no(m, s) && next == (if s < u64::MAX {
                (s + 1) as u64
            } else {
                u64::MAX
            })
    }
}

/// What a read of `key` gives on table `m`: the value of a live entry;
/// nothing for a tombstone or a missing key.
pub open spec fn lookup_model(m: Map<Seq<u8>, EntryModel>, key: Seq<u8>) -> Option<Seq<u8>> {
    if m.contains_key(key) {
        match m[key] {
            EntryModel::Value { val, .. } => Some(val),
            EntryModel::Tombstone { .. } => None,
        }
    } else {
        None
    }
}

/// The state of an open engine: its table, its sequence counter, its settings.
pub struct DB {
    mem_table: MemTable,
    next_seq_no: u64,
    opts: DBConfig,
}

impl DB {
    pub closed spec fn wf(&self) -> bool {
        self.mem_table.wf()
    }

    /// The contents of the table.
    pub closed spec fn table(&self) -> Map<Seq<u8>, EntryModel> {
        self.mem_table@
    }

    /// The sequence number the next accepted write receives.
    pub closed spec fn seq_counter(&self) -> u64 {
        self.next_seq_no
    }

    pub closed spec fn config(&self) -> DBConfig {
        self.opts
    }

    /// Opens an engine on the log bytes `log`, replaying them into a fresh
    /// table unless the settings say not to.
    ///
    /// A corrupt record fails the whole opening; a log that ends cleanly or
    /// is cut short within its last record does not. The counter resumes one
    /// past the highest sequence number in the table.
    pub fn new(opts: DBConfig, log: &[u8]) -> (r: Result<DB, DBError>)
        ensures
            r matches Ok(db) ==> db.wf() && db.config() == opts && resumes_after(
                db.table(),
                db.seq_counter(),
            ),
            opts.disable_wal_memtable_replay_on_load ==> r is Ok && r->Ok_0.table()
                == Map::<Seq<u8>, EntryModel>::empty(),
            !opts.disable_wal_memtable_replay_on_load ==> match replay_spec(
                log@,
                0,
                opts.max_record_len,
                Map::<Seq<u8>, EntryModel>::empty(),
            ) {
                ReplayOutcome::Done(m, _) => r is Ok && r->Ok_0.table() == m,
                ReplayOutcome::Corrupt => r matches Err(DBError::Corruption { .. }),
            },
    {
        let mut mem_table = MemTable::new();
        if !opts.disable_wal_memtable_replay_on_load {
            match replay_into(log, opts.max_record_len, &mut mem_table) {
                Ok(_) => {},
                Err((offset, what)) => {
                    return Err(
                        DBError::Corruption { what, path: opts.wal_file.clone(), offset: offset as u64 },
                    );
                },
            }
        }
        let next_seq_no: u64 = match mem_table.max_seq_no() {
            None => 0,
            Some(s) => if s < u64::MAX {
                s + 1
            } else {
                u64::MAX
            },
        };
        Ok(DB { mem_table, next_seq_no, opts })
    }

    /// Checks a write of `key` and `val` and builds its record, numbered with
    /// the current counter. Nothing changes until [`DB::apply`].
    ///
    /// Fails with `Codec` for an empty key or a record longer than
    /// `max_record_len` allows, and with `WAL` once the counter is spent.
    fn prepare(&self, op: Op, key: Vec<u8>, val: Vec<u8>) -> (r: Result<WALRecord, DBError>)
        ensures
            key@.len() == 0 ==> r matches Err(DBError::Codec { .. }),
            key@.len() > 0 && !fits_record(key@, val@, self.opts.max_record_len) ==> r matches Err(
                DBError::Codec { .. },
            ),
            key@.len() > 0 && fits_record(key@, val@, self.opts.max_record_len) && self.next_seq_no
                == u64::MAX ==> r matches Err(DBError::WAL { .. }),
            key@.len() > 0 && fits_record(key@, val@, self.opts.max_record_len) && self.next_seq_no
                < u64::MAX ==> r is Ok && r->Ok_0@ == (RecordModel {
                op,
                seq_no: self.next_seq_no,
                key: key@,
                val: val@,
            }),
            r matches Ok(rec) ==> loggable(rec@, self.opts.max_record_len),
    {
        if key.len() == 0 {
            return Err(empty_key_error());
        }
        let max: u64 = self.opts.max_record_len as u64;
        if key.len() as u64 > max || val.len() as u64 > max || (BODY_HEADER_LEN + WORD_LEN) as u64
            + key.len() as u64 + val.len() as u64 > max {
            return Err(DBError::Codec { context: "record exceeds max_record_len".to_owned() });
        }
        if self.next_seq_no == u64::MAX {
            return Err(DBError::WAL { what: "sequence numbers exhausted" });
        }
        let rec = WALRecord::new(op, self.next_seq_no, key, val);
        assert(encoded_record(rec@).len() == BODY_HEADER_LEN + rec.key@.len() + rec.val@.len() + 8);
        Ok(rec)
    }

    /// The record that a put of `val` under `key` logs: a `Put` numbered with
    /// the current counter.
    ///
    /// Fails with `Codec` for an empty key or a record longer than
    /// `max_record_len` allows, and with `WAL` once the counter is spent.
    pub fn prepare_put(&self, key: Vec<u8>, val: Vec<u8>) -> (r: Result<WALRecord, DBError>)
        ensures
            key@.len() == 0 ==> r matches Err(DBError::Codec { .. }),
            key@.len() > 0 && !fits_record(key@, val@, self.config().max_record_len) ==> r matches Err(
                DBError::Codec { .. },
            ),
            key@.len() > 0 && fits_record(key@, val@, self.config().max_record_len)
                && self.seq_counter() == u64::MAX ==> r matches Err(DBError::WAL { .. }),
            key@.len() > 0 && fits_record(key@, val@, self.config().max_record_len)
                && self.seq_counter() < u64::MAX ==> r is Ok && r->Ok_0@ == (RecordModel {
                op: Op::Put,
                seq_no: self.seq_counter(),
                key: key@,
                val: val@,
            }),
            r matches Ok(rec) ==> loggable(rec@, self.config().max_record_len),
    {
        self.prepare(Op::Put, key, val)
    }

    /// The record that a delete of `key` logs: a `Delete` with an empty value,
    /// numbered with the current counter. Deletes go through the log just as
    /// puts do, so replaying the log reproduces them.
    ///
    /// Fails with `Codec` for an empty key or a key too long for a record,
    /// and with `WAL` once the counter is spent.
    pub fn prepare_delete(&self, key: Vec<u8>) -> (r: Result<WALRecord, DBError>)
        ensures
            key@.len() == 0 ==> r matches Err(DBError::Codec { .. }),
            key@.len() > 0 && !fits_record(key@, Seq::empty(), self.config().max_record_len)
                ==> r matches Err(DBError::Codec { .. }),
            key@.len() > 0 && fits_record(key@, Seq::empty(), self.config().max_record_len)
                && self.seq_counter() == u64::MAX ==> r matches Err(DBError::WAL { .. }),
            key@.len() > 0 && fits_record(key@, Seq::empty(), self.config().max_record_len)
                && self.seq_counter() < u64::MAX ==> r is Ok && r->Ok_0@ == (RecordModel {
                op: Op::Delete,
                seq_no: self.seq_counter(),
                key: key@,
                val: Seq::empty(),
            }),
            r matches Ok(rec) ==> loggable(rec@, self.config().max_record_len),
    {
        let val: Vec<u8> = Vec::new();
        self.prepare(Op::Delete, key, val)
    }

    /// Finishes a write prepared by [`DB::prepare_put`] or [`DB::prepare_delete`],
    /// given the outcome of appending its record to the log.
    ///
    /// A failed append is handed back and changes nothing: the write did not
    /// happen. After a successful one the record goes into the table under its
    /// own sequence number and the counter moves on by one.
    pub fn apply(&mut self, rec: WALRecord, appended: Result<(), DBError>) -> (r: Result<(), DBError>)
        requires
            old(self).wf(),
            rec.seq_no == old(self).seq_counter(),
            rec.seq_no < u64::MAX,
            rec.key@.len() > 0,
        ensures
            final(self).wf(),
            final(self).config() == old(self).config(),
            appended is Err ==> r == appended && final(self).table() == old(self).table()
                && final(self).seq_counter() == old(self).seq_counter(),
            appended is Ok ==> r is Ok && final(self).table() == apply_record(old(self).table(), rec@)
                && final(self).seq_counter() == old(self).seq_counter() + 1,
    {
        if let Err(e) = appended {
            return Err(e);
        }
        let seq_no = rec.seq_no;
        match rec.op {
            Op::Put => {
                let _ = crate::memtable::put(&mut self.mem_table, rec.key, rec.val, seq_no);
            },
            Op::Delete => {
                let _ = crate::memtable::delete(&mut self.mem_table, rec.key, seq_no);
            },
        }
        self.next_seq_no = seq_no + 1;
        Ok(())
    }

    /// The value of a live entry for `key`; nothing for a deleted or unknown key.
    pub fn get_raw(&self, key: &[u8]) -> (r: Result<Option<Vec<u8>>, DBError>)
        requires
            self.wf(),
        ensures
            match r {
                Ok(Some(v)) => lookup_model(self.table(), key@) == Some(v@),
                Ok(None) => lookup_model(self.table(), key@) is None,
                Err(_) => false,
            },
    {
        match self.mem_table.get(key) {
            Some(entry) => match entry {
                crate::entry::Entry::Value { val, .. } => Ok(Some(val.clone())),
                crate::entry::Entry::Tombstone { .. } => Ok(None),
            },
            None => Ok(None),
        }
    }

    /// The sequence number the next accepted write receives.
    pub fn next_seq_no(&self) -> (r: u64)
        ensures
            r == self.seq_counter(),
    {
        self.next_seq_no
    }

    /// The in-memory table.
    pub fn mem_table(&self) -> (r: &MemTable)
        requires
            self.wf(),
        ensures
            r.wf(),
            r@ == self.table(),
    {
        &self.mem_table
    }

    /// The settings the engine was opened with.
    pub fn opts(&self) -> (r: &DBConfig)
        ensures
            *r == self.config(),
    {
        &self.opts
    }
}

} // verus!
