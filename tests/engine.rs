use lsm_wal::db::DEFAULT_MAX_RECORD_LEN;
use lsm_wal::{encode_record, DBConfig, DBError, Entry, SyncPolicy, DB};

fn test_config(name: &str) -> DBConfig {
    DBConfig {
        memtable_max_size: Some(1000),
        ss_table_dir: format!("test_data/sstb/{}", name),
        wal_file: format!("test_data/wal/{}_wal.wl", name),
        wal_sync_policy: SyncPolicy::Always,
        max_record_len: DEFAULT_MAX_RECORD_LEN,
        ss_l0_compact_threshold: 1000,
        disable_wal_memtable_replay_on_load: false,
    }
}

fn put(db: &mut DB, log: &mut Vec<u8>, key: &str, val: &str) -> Result<(), DBError> {
    let rec = db.prepare_put(key.as_bytes().to_vec(), val.as_bytes().to_vec())?;
    log.extend_from_slice(&encode_record(&rec));
    db.apply(rec, Ok(()))
}

fn delete(db: &mut DB, log: &mut Vec<u8>, key: &str) -> Result<(), DBError> {
    let rec = db.prepare_delete(key.as_bytes().to_vec())?;
    log.extend_from_slice(&encode_record(&rec));
    db.apply(rec, Ok(()))
}

fn get(db: &DB, key: &str) -> Option<Vec<u8>> {
    db.get_raw(key.as_bytes()).unwrap()
}

#[test]
fn lib_insert_and_get() {
    let mut log = Vec::new();
    let mut db = DB::new(test_config("insert_and_get"), &log).unwrap();

    assert_eq!(db.next_seq_no(), 0);
    put(&mut db, &mut log, "key-1", "some-val").unwrap();
    assert_eq!(db.mem_table().len(), 1);
    assert_eq!(db.next_seq_no(), 1);
    assert_eq!(
        db.mem_table().get(b"key-1"),
        Some(&Entry::Value { seq_no: 0, val: b"some-val".to_vec() })
    );

    assert_eq!(db.next_seq_no(), 1);
    put(&mut db, &mut log, "key-2", "some-val_2").unwrap();
    assert_eq!(db.mem_table().len(), 2);
    assert_eq!(db.next_seq_no(), 2);
    assert_eq!(
        db.mem_table().get(b"key-2"),
        Some(&Entry::Value { seq_no: 1, val: b"some-val_2".to_vec() })
    );
}

#[test]
fn insert_empty_key() {
    let mut log = Vec::new();
    let mut db = DB::new(test_config("insert_empty_key"), &log).unwrap();
    let res = put(&mut db, &mut log, "", "s1");
    assert!(matches!(res.err(), Some(DBError::Codec { .. })));
    assert_eq!(db.next_seq_no(), 0);
    assert_eq!(db.mem_table().len(), 0);
    assert!(log.is_empty());
}

#[test]
fn insert_duplicate_and_get() {
    let mut log = Vec::new();
    let mut db = DB::new(test_config("insert_duplicate_and_get"), &log).unwrap();
    put(&mut db, &mut log, "k1", "s1").unwrap();
    assert_eq!(
        db.mem_table().get(b"k1"),
        Some(&Entry::Value { seq_no: 0, val: b"s1".to_vec() })
    );

    put(&mut db, &mut log, "k1", "s2").unwrap();
    assert_eq!(db.next_seq_no(), 2);
    assert_eq!(db.mem_table().len(), 1);
    assert_eq!(
        db.mem_table().get(b"k1"),
        Some(&Entry::Value { seq_no: 1, val: b"s2".to_vec() })
    );
    assert_eq!(get(&db, "k1"), Some(b"s2".to_vec()));
}

#[test]
fn delete_empty() {
    let mut log = Vec::new();
    let mut db = DB::new(test_config("delete_empty"), &log).unwrap();
    put(&mut db, &mut log, "k1", "v1").unwrap();
    let before = log.len();
    assert!(delete(&mut db, &mut log, "").is_err());
    assert_eq!(db.next_seq_no(), 1);
    assert_eq!(db.mem_table().len(), 1);
    assert_eq!(log.len(), before);
}

#[test]
fn delete_empty_key() {
    let mut log = Vec::new();
    let mut db = DB::new(test_config("delete_empty_key"), &log).unwrap();
    let res = delete(&mut db, &mut log, "");
    assert!(matches!(res, Err(DBError::Codec { .. })));
}

#[test]
fn delete_on_key_that_doesnt_exist() {
    let mut log = Vec::new();
    let mut db = DB::new(test_config("delete_on_key_that_doesnt_exist"), &log).unwrap();
    assert!(delete(&mut db, &mut log, "missing").is_ok());
    assert_eq!(db.mem_table().get(b"missing"), Some(&Entry::Tombstone { seq_no: 0 }));
    assert_eq!(get(&db, "missing"), None);
    assert_eq!(db.next_seq_no(), 1);
}

#[test]
fn delete_ok() {
    // a delete only marks keys that have no entry yet; a live value stays
    let mut log = Vec::new();
    let mut db = DB::new(test_config("delete_ok"), &log).unwrap();
    put(&mut db, &mut log, "k1", "v1").unwrap();
    assert!(delete(&mut db, &mut log, "k1").is_ok());
    assert_eq!(db.next_seq_no(), 2);
    assert_eq!(
        db.mem_table().get(b"k1"),
        Some(&Entry::Value { seq_no: 0, val: b"v1".to_vec() })
    );
}

#[test]
fn insert_delete_insert_ok() {
    let mut log = Vec::new();
    let mut db = DB::new(test_config("insert_delete_insert_ok"), &log).unwrap();
    assert!(delete(&mut db, &mut log, "k1").is_ok());
    assert_eq!(get(&db, "k1"), None);
    put(&mut db, &mut log, "k1", "v2").unwrap();
    assert_eq!(get(&db, "k1"), Some(b"v2".to_vec()));
    assert_eq!(db.next_seq_no(), 2);
}

#[test]
fn simulate_replay() {
    let mut log = Vec::new();
    let mut db = DB::new(test_config("simulate_replay"), &log).unwrap();
    put(&mut db, &mut log, "k1", "v1").unwrap();
    put(&mut db, &mut log, "k2", "v2").unwrap();
    drop(db);

    let new_db = DB::new(test_config("simulate_replay"), &log).unwrap();
    assert_eq!(get(&new_db, "k1"), Some(b"v1".to_vec()));
    assert_eq!(get(&new_db, "k2"), Some(b"v2".to_vec()));
}

#[test]
fn basic_put_get_scenario() {
    let mut log = Vec::new();
    let mut db = DB::new(test_config("basic"), &log).unwrap();
    put(&mut db, &mut log, "k1", "v1").unwrap();
    assert_eq!(get(&db, "k1"), Some(b"v1".to_vec()));
    assert_eq!(db.next_seq_no(), 1);
}

#[test]
fn empty_key_put_and_delete_rejected() {
    let mut log = Vec::new();
    let mut db = DB::new(test_config("empty_rejected"), &log).unwrap();
    put(&mut db, &mut log, "a", "x").unwrap();
    assert!(matches!(put(&mut db, &mut log, "", "v1"), Err(DBError::Codec { .. })));
    assert!(matches!(delete(&mut db, &mut log, ""), Err(DBError::Codec { .. })));
    assert_eq!(db.next_seq_no(), 1);
    assert_eq!(db.mem_table().len(), 1);
}

#[test]
fn sequence_numbers_advance_by_one_per_accepted_write() {
    let mut log = Vec::new();
    let mut db = DB::new(test_config("seq"), &log).unwrap();
    let mut expected = 0u64;
    for (i, key) in ["a", "b", "", "a", "c", ""].iter().enumerate() {
        let res = if i % 2 == 0 {
            put(&mut db, &mut log, key, "v")
        } else {
            delete(&mut db, &mut log, key)
        };
        if key.is_empty() {
            assert!(res.is_err());
        } else {
            assert!(res.is_ok());
            expected += 1;
        }
        assert_eq!(db.next_seq_no(), expected);
    }
    assert_eq!(expected, 4);
}

#[test]
fn failed_append_changes_nothing() {
    let log = Vec::new();
    let mut db = DB::new(test_config("failed_append"), &log).unwrap();
    let rec = db.prepare_put(b"k".to_vec(), b"v".to_vec()).unwrap();
    let err = DBError::Io { op: "write", path: "wal".to_string(), detail: "disk full".to_string() };
    let res = db.apply(rec, Err(err.clone()));
    assert_eq!(res, Err(err));
    assert_eq!(db.next_seq_no(), 0);
    assert_eq!(db.mem_table().len(), 0);
    assert_eq!(get(&db, "k"), None);
}

#[test]
fn prepared_records_carry_the_counter() {
    let mut log = Vec::new();
    let mut db = DB::new(test_config("prepared"), &log).unwrap();
    put(&mut db, &mut log, "a", "1").unwrap();
    let rec = db.prepare_delete(b"b".to_vec()).unwrap();
    assert_eq!(rec.seq_no, 1);
    assert_eq!(rec.op, lsm_wal::Op::Delete);
    assert!(rec.val.is_empty());
    assert_eq!(db.next_seq_no(), 1);
}

#[test]
fn oversized_record_rejected() {
    let log = Vec::new();
    let mut cfg = test_config("oversized");
    cfg.max_record_len = 30;
    let db = DB::new(cfg, &log).unwrap();
    // 17 header bytes + 4 checksum bytes + key + value
    assert!(db.prepare_put(b"abcd".to_vec(), b"12345".to_vec()).is_ok());
    assert!(matches!(
        db.prepare_put(b"abcd".to_vec(), b"123456".to_vec()),
        Err(DBError::Codec { .. })
    ));
}

#[test]
fn replay_resumes_counter_after_highest_seq_no() {
    let mut log = Vec::new();
    let mut db = DB::new(test_config("resume"), &log).unwrap();
    put(&mut db, &mut log, "k1", "v1").unwrap();
    put(&mut db, &mut log, "k2", "v2").unwrap();
    let mut db = DB::new(test_config("resume"), &log).unwrap();
    assert_eq!(db.next_seq_no(), 2);
    put(&mut db, &mut log, "k1", "v3").unwrap();
    assert_eq!(get(&db, "k1"), Some(b"v3".to_vec()));
}

#[test]
fn replay_skipped_when_disabled() {
    let mut log = Vec::new();
    let mut db = DB::new(test_config("skip"), &log).unwrap();
    put(&mut db, &mut log, "k1", "v1").unwrap();
    let mut cfg = test_config("skip");
    cfg.disable_wal_memtable_replay_on_load = true;
    let db = DB::new(cfg, &log).unwrap();
    assert_eq!(db.mem_table().len(), 0);
    assert_eq!(db.next_seq_no(), 0);
}

#[test]
fn corrupt_log_fails_open() {
    let mut log = Vec::new();
    let mut db = DB::new(test_config("corrupt_open"), &log).unwrap();
    put(&mut db, &mut log, "k1", "v1").unwrap();
    put(&mut db, &mut log, "k2", "v2").unwrap();
    let last = log.len() - 6;
    log[last] ^= 0x01;
    let res = DB::new(test_config("corrupt_open"), &log);
    assert!(matches!(res, Err(DBError::Corruption { offset: 29, .. })));
}

#[test]
fn counter_exhausted() {
    let rec = lsm_wal::WALRecord::new(lsm_wal::Op::Put, u64::MAX, b"k".to_vec(), b"v".to_vec());
    let log = encode_record(&rec);
    let db = DB::new(test_config("exhausted"), &log).unwrap();
    assert_eq!(db.next_seq_no(), u64::MAX);
    assert!(matches!(db.prepare_put(b"x".to_vec(), b"y".to_vec()), Err(DBError::WAL { .. })));
}

#[test]
fn default_config_values() {
    let cfg = DBConfig::default();
    assert_eq!(cfg.memtable_max_size, Some(100));
    assert_eq!(cfg.max_record_len, 1024 * 1000);
    assert_eq!(cfg.wal_sync_policy, SyncPolicy::Always);
    assert_eq!(cfg.wal_file, ".lsm/wal");
    assert!(!cfg.disable_wal_memtable_replay_on_load);
}
