use shortdb::codec::{encode_u64, read_field};
use shortdb::db::ShorterDB;
use shortdb::errors::ShortDBErrors;
use shortdb::keys::compare_keys;
use shortdb::memtable::{Memtable, MemtableStatus};
use shortdb::sst::{locate, IndexEntry, SST};
use shortdb::wal::{WALEntry, WAL};

const BITMAP: usize = 4096;

fn open_empty() -> ShorterDB {
    ShorterDB::new(&[], &[], BITMAP, 7)
}

fn found(db: &ShorterDB, key: &str) -> Option<Vec<u8>> {
    match db.get(key.as_bytes()) {
        Ok(Some(v)) => Some(v),
        Ok(None) => panic!("a live value is never reported as Ok(None)"),
        Err(ShortDBErrors::KeyNotFound) => None,
        Err(e) => panic!("unexpected error {:?}", e),
    }
}

#[test]
fn encode_u64_is_little_endian() {
    assert_eq!(encode_u64(0x0102_0304_0506_0708), vec![8, 7, 6, 5, 4, 3, 2, 1]);
    assert_eq!(encode_u64(0), vec![0; 8]);
}

#[test]
fn read_field_reads_and_rejects_short_data() {
    let data = vec![2, 0, 0, 0, 0, 0, 0, 0, b'h', b'i', 9];
    assert_eq!(read_field(&data, 0), Some((b"hi".to_vec(), 10)));
    assert_eq!(read_field(&data[..9], 0), None);
    assert_eq!(read_field(&data, 4), None);
}

#[test]
fn compare_keys_is_bytewise() {
    assert_eq!(compare_keys(b"a", b"b"), -1);
    assert_eq!(compare_keys(b"b", b"a"), 1);
    assert_eq!(compare_keys(b"ab", b"ab"), 0);
    assert_eq!(compare_keys(b"a", b"ab"), -1);
    assert_eq!(compare_keys(b"", b""), 0);
}

#[test]
fn wal_record_layout() {
    let mut wal = WAL::new(&[]);
    let bytes = wal.write(&WALEntry { key: b"a".to_vec(), value: Some(b"1".to_vec()) });
    let mut want = vec![1, 0, 0, 0, 0, 0, 0, 0, b'a', 1, 0, 0, 0, 0, 0, 0, 0, b'1'];
    assert_eq!(bytes, want);
    let del = wal.write(&WALEntry { key: b"a".to_vec(), value: None });
    assert_eq!(del, vec![1, 0, 0, 0, 0, 0, 0, 0, b'a', 255, 255, 255, 255, 255, 255, 255, 255]);
    want.extend_from_slice(&del);
    let entries = WAL::read_entries(&want);
    assert_eq!(entries.len(), 2);
    assert_eq!(entries[0].key, b"a".to_vec());
    assert_eq!(entries[0].value, Some(b"1".to_vec()));
    assert_eq!(entries[1].value, None);
}

#[test]
fn wal_replay_stops_at_torn_record() {
    let mut wal = WAL::new(&[]);
    let mut log = wal.write(&WALEntry { key: b"k".to_vec(), value: Some(b"v".to_vec()) });
    let second = wal.write(&WALEntry { key: b"key2".to_vec(), value: Some(b"value2".to_vec()) });
    log.extend_from_slice(&second[..second.len() - 3]);
    let entries = WAL::read_entries(&log);
    assert_eq!(WAL::valid_records(&log), log[..log.len() - (second.len() - 3)].to_vec());
    assert_eq!(entries.len(), 1);
    assert_eq!(entries[0].key, b"k".to_vec());
}

#[test]
fn memtable_get_set_delete_clear() {
    let mut m = Memtable::new();
    assert!(matches!(m.get(b"x"), Err(ShortDBErrors::KeyNotFound)));
    assert_eq!(m.set(b"x", b"1"), MemtableStatus::Accepted);
    assert_eq!(m.get(b"x").unwrap(), Some(b"1".to_vec()));
    assert_eq!(m.delete(b"x"), MemtableStatus::Accepted);
    assert_eq!(m.get(b"x").unwrap(), None);
    assert_eq!(m.size(), 2);
    m.clear();
    assert_eq!(m.size(), 0);
    assert!(matches!(m.get(b"x"), Err(ShortDBErrors::KeyNotFound)));
}

#[test]
fn memtable_asks_for_flush_at_threshold() {
    let mut m = Memtable::new();
    for i in 0..255u32 {
        assert_eq!(m.set(&i.to_be_bytes(), b"v"), MemtableStatus::Accepted);
    }
    assert_eq!(m.set(b"last", b"v"), MemtableStatus::FlushNeeded);
    let entries = m.entries();
    assert_eq!(entries.len(), 256);
    for w in entries.windows(2) {
        assert!(w[0].0 < w[1].0);
    }
}

#[test]
fn locate_picks_greatest_entry_not_above_key() {
    let index = vec![
        IndexEntry { key: b"b".to_vec(), position: 0 },
        IndexEntry { key: b"d".to_vec(), position: 40 },
        IndexEntry { key: b"f".to_vec(), position: 90 },
    ];
    assert_eq!(locate(&index, b"a"), None);
    assert_eq!(locate(&index, b"b"), Some(0));
    assert_eq!(locate(&index, b"c"), Some(0));
    assert_eq!(locate(&index, b"d"), Some(1));
    assert_eq!(locate(&index, b"z"), Some(2));
    assert_eq!(locate(&[], b"a"), None);
}

#[test]
fn sst_queue_commit_and_lookup() {
    let mut sst = SST::new(&[], BITMAP);
    assert!(sst.set(b"a", Some(b"1".to_vec()), 5).is_empty());
    assert_eq!(sst.get(b"a"), None);
    let bytes = sst.flush();
    assert_eq!(bytes, *sst.committed());
    assert_eq!(sst.get(b"a"), Some(Some(b"1".to_vec())));
    assert_eq!(sst.get(b"b"), None);
    sst.set(b"a", None, 6);
    sst.flush();
    assert_eq!(sst.get(b"a"), Some(None));
}

#[test]
fn sst_record_matches_bincode_layout() {
    let mut sst = SST::new(&[], BITMAP);
    sst.set(b"key", Some(b"value".to_vec()), 42);
    sst.set(b"zz", None, 43);
    let bytes = sst.flush();
    let mut want = bincode::serialize(&(b"key".to_vec(), Some(b"value".to_vec()), 42u64)).unwrap();
    want.extend(bincode::serialize(&(b"zz".to_vec(), None::<Vec<u8>>, 43u64)).unwrap());
    assert_eq!(bytes, want);
}

#[test]
fn sst_full_batch_commits_itself() {
    let mut sst = SST::new(&[], BITMAP);
    let mut written = Vec::new();
    for i in 0..1000u32 {
        written.extend(sst.set(&i.to_be_bytes(), Some(i.to_le_bytes().to_vec()), 1));
    }
    assert!(!written.is_empty());
    assert_eq!(written, *sst.committed());
    for i in 0..1000u32 {
        assert_eq!(sst.get(&i.to_be_bytes()), Some(Some(i.to_le_bytes().to_vec())));
    }
}

#[test]
fn sst_reload_rebuilds_filter_and_index() {
    let mut sst = SST::new(&[], BITMAP);
    for k in ["m", "n", "o"] {
        sst.set(k.as_bytes(), Some(k.as_bytes().to_vec()), 1);
    }
    sst.flush();
    for k in ["a", "n"] {
        sst.set(k.as_bytes(), Some(b"new".to_vec()), 2);
    }
    sst.flush();
    let mut image = sst.committed().clone();
    image.extend_from_slice(&[3, 0, 0]);
    let again = SST::new(&image, BITMAP);
    assert_eq!(*again.committed(), *sst.committed());
    assert_eq!(again.get(b"m"), Some(Some(b"m".to_vec())));
    assert_eq!(again.get(b"n"), Some(Some(b"new".to_vec())));
    assert_eq!(again.get(b"a"), Some(Some(b"new".to_vec())));
    assert_eq!(again.get(b"b"), None);
}

#[test]
fn concrete_scenario() {
    let mut db = open_empty();
    db.set(b"a", b"1", 1);
    db.set(b"b", b"2", 1);
    assert_eq!(found(&db, "a"), Some(b"1".to_vec()));
    db.delete(b"a", 1);
    assert_eq!(found(&db, "a"), None);
    assert_eq!(found(&db, "b"), Some(b"2".to_vec()));
}

#[test]
fn round_trip_delete_overwrite() {
    let mut db = open_empty();
    db.set(b"k", b"v1", 1);
    assert_eq!(found(&db, "k"), Some(b"v1".to_vec()));
    db.set(b"k", b"v2", 1);
    assert_eq!(found(&db, "k"), Some(b"v2".to_vec()));
    db.delete(b"k", 1);
    assert_eq!(found(&db, "k"), None);
    assert_eq!(found(&db, "never"), None);
    db.set(b"k", b"v3", 1);
    assert_eq!(found(&db, "k"), Some(b"v3".to_vec()));
}

#[test]
fn set_returns_log_record() {
    let mut db = open_empty();
    let p = db.set(b"a", b"1", 1);
    assert_eq!(p.wal, vec![1, 0, 0, 0, 0, 0, 0, 0, b'a', 1, 0, 0, 0, 0, 0, 0, 0, b'1']);
    assert!(p.sst.is_empty());
}

#[test]
fn flush_preserves_data() {
    let mut db = open_empty();
    let mut table = Vec::new();
    let mut flushes = 0;
    for i in 0..600u32 {
        let p = db.set(format!("key{:04}", i).as_bytes(), format!("val{}", i).as_bytes(), 3);
        if !p.sst.is_empty() {
            flushes += 1;
        }
        table.extend(p.sst);
    }
    db.delete(b"key0003", 3);
    assert_eq!(flushes, 2);
    assert_eq!(table, *db.committed_table());
    for i in 0..600u32 {
        let want = if i == 3 { None } else { Some(format!("val{}", i).into_bytes()) };
        assert_eq!(found(&db, &format!("key{:04}", i)), want);
    }
}

#[test]
fn deletion_survives_flush() {
    let mut db = open_empty();
    db.set(b"gone", b"x", 1);
    for i in 0..300u32 {
        db.set(format!("f{}", i).as_bytes(), b"y", 1);
    }
    db.delete(b"gone", 1);
    for i in 0..300u32 {
        db.set(format!("g{}", i).as_bytes(), b"y", 1);
    }
    assert_eq!(found(&db, "gone"), None);
    assert_eq!(found(&db, "f7"), Some(b"y".to_vec()));
}

#[test]
fn crash_recovery_from_log_and_table() {
    let mut db = open_empty();
    let mut log = Vec::new();
    let mut table = Vec::new();
    for i in 0..300u32 {
        let p = db.set(format!("k{}", i).as_bytes(), format!("v{}", i).as_bytes(), 1);
        log.extend(p.wal);
        table.extend(p.sst);
    }
    let p = db.delete(b"k5", 1);
    log.extend(p.wal);
    table.extend(p.sst);
    let p = db.set(b"k6", b"changed", 1);
    log.extend(p.wal);
    log.extend_from_slice(&[4, 0, 0, 0, 0, 0, 0, 0, b'p']);
    let again = ShorterDB::new(&log, &table, BITMAP, 2);
    assert_eq!(found(&again, "k0"), Some(b"v0".to_vec()));
    assert_eq!(found(&again, "k299"), Some(b"v299".to_vec()));
    assert_eq!(found(&again, "k5"), None);
    assert_eq!(found(&again, "k6"), Some(b"changed".to_vec()));
}

#[test]
fn bloom_filter_has_no_false_negatives() {
    let mut sst = SST::new(&[], BITMAP);
    for i in 0..500u32 {
        sst.set(&i.to_le_bytes(), Some(vec![1]), 1);
    }
    sst.flush();
    for i in 0..500u32 {
        assert!(sst.get(&i.to_le_bytes()).is_some());
    }
    for i in 500..1500u32 {
        assert!(sst.get(&i.to_le_bytes()).is_none());
    }
}

#[test]
fn log_records_precede_mutation_and_survive_flush() {
    let mut db = open_empty();
    let mut log = Vec::new();
    for i in 0..255u32 {
        let key = format!("k{}", i);
        let p = db.set(key.as_bytes(), b"v", 1);
        assert_eq!(p.wal, ShorterDB::set_record(key.as_bytes(), b"v"));
        assert!(p.sst.is_empty());
        log.extend(p.wal);
    }
    let p = db.delete(b"k0", 1);
    assert_eq!(p.wal, ShorterDB::delete_record(b"k0"));
    assert!(!p.sst.is_empty());
    log.extend(p.wal);
    assert_eq!(log.len(), 255 * 17 + 10 * 2 + 90 * 3 + 155 * 4 + 8 + 2 + 8);
    assert_eq!(found(&db, "k0"), None);
    assert_eq!(found(&db, "k254"), Some(b"v".to_vec()));
    let again = ShorterDB::new(&log, &[], BITMAP, 2);
    assert_eq!(found(&again, "k0"), None);
    assert_eq!(found(&again, "k254"), Some(b"v".to_vec()));
}

#[test]
fn reopen_from_whole_log_after_flush() {
    let mut db = open_empty();
    let mut table = Vec::new();
    let mut log = Vec::new();
    for i in 0..260u32 {
        let p = db.set(format!("r{}", i).as_bytes(), b"x", 1);
        table.extend(p.sst);
        log.extend(p.wal);
    }
    let again = ShorterDB::new(&log, &table, BITMAP, 2);
    for i in 0..260u32 {
        assert_eq!(found(&again, &format!("r{}", i)), Some(b"x".to_vec()));
    }
}
