use std::collections::BTreeMap;

use kvs::{read_value, KVStore, KVStoreError, Recovery, COMPACTION_THRESHOLD};

/// Segment files held in memory, driven the way a file-backed caller drives the engine.
struct Db {
    files: BTreeMap<u64, Vec<u8>>,
    store: KVStore,
    compactions: usize,
}

fn open(mut files: BTreeMap<u64, Vec<u8>>) -> Result<Db, KVStoreError> {
    let mut recovery = Recovery::new();
    for (id, bytes) in &files {
        recovery.load_segment(*id, bytes.clone())?;
    }
    let store = recovery.finish()?;
    files.insert(store.current_file_number(), Vec::new());
    Ok(Db { files, store, compactions: 0 })
}

impl Db {
    fn sync(&mut self) {
        let bytes = self.store.flush();
        let active = self.store.current_file_number();
        self.files.get_mut(&active).unwrap().extend_from_slice(&bytes);
    }

    fn maybe_compact(&mut self) -> Result<(), KVStoreError> {
        if self.store.needs_compaction() {
            self.compact()?;
        }
        Ok(())
    }

    fn compact(&mut self) -> Result<(), KVStoreError> {
        self.sync();
        let plan = self.store.compact()?;
        let mut out = Vec::new();
        for m in &plan.copies {
            let src = &self.files[&m.file_number];
            out.extend_from_slice(&src[m.offset as usize..(m.offset + m.length) as usize]);
        }
        for id in &plan.obsolete {
            self.files.remove(id);
        }
        self.files.insert(plan.compact_file_number, out);
        self.files.insert(plan.active_file_number, Vec::new());
        self.compactions += 1;
        Ok(())
    }

    fn set(&mut self, k: &str, v: &str) -> Result<(), KVStoreError> {
        self.store.set(k.to_string(), v.to_string())?;
        self.sync();
        self.maybe_compact()
    }

    fn remove(&mut self, k: &str) -> Result<(), KVStoreError> {
        self.store.remove(k.to_string())?;
        self.sync();
        self.maybe_compact()
    }

    fn get(&self, k: &str) -> Result<Option<String>, KVStoreError> {
        match self.store.locate(k) {
            None => Ok(None),
            Some(m) => {
                let src = &self.files[&m.file_number];
                read_value(&src[m.offset as usize..(m.offset + m.length) as usize]).map(Some)
            }
        }
    }

    fn total_bytes(&self) -> usize {
        self.files.values().map(|f| f.len()).sum()
    }
}

fn fresh() -> Db {
    open(BTreeMap::new()).unwrap()
}

#[test]
fn scenario_set_get_remove() {
    let mut db = fresh();
    db.set("a", "1").unwrap();
    db.set("b", "2").unwrap();
    db.set("a", "3").unwrap();
    assert_eq!(db.get("a").unwrap(), Some("3".to_string()));
    assert_eq!(db.get("b").unwrap(), Some("2".to_string()));
    db.remove("a").unwrap();
    assert_eq!(db.get("a").unwrap(), None);
    assert_eq!(db.remove("a"), Err(KVStoreError::KeyNotFound));
}

#[test]
fn set_then_get_returns_value() {
    let mut db = fresh();
    db.set("key", "value").unwrap();
    assert_eq!(db.get("key").unwrap(), Some("value".to_string()));
}

#[test]
fn get_missing_key_is_none() {
    let db = fresh();
    assert_eq!(db.get("nothing").unwrap(), None);
}

#[test]
fn remove_never_set_key_fails() {
    let mut db = fresh();
    db.set("x", "1").unwrap();
    assert_eq!(db.remove("y"), Err(KVStoreError::KeyNotFound));
    assert_eq!(db.get("x").unwrap(), Some("1".to_string()));
}

#[test]
fn repeated_reads_agree() {
    let mut db = fresh();
    db.set("k", "v").unwrap();
    let first = db.get("k").unwrap();
    let second = db.get("k").unwrap();
    let third = db.get("k").unwrap();
    assert_eq!(first, second);
    assert_eq!(second, third);
    assert_eq!(db.get("other").unwrap(), db.get("other").unwrap());
}

#[test]
fn overwrite_returns_latest() {
    let mut db = fresh();
    db.set("k", "v1").unwrap();
    db.set("k", "v2").unwrap();
    assert_eq!(db.get("k").unwrap(), Some("v2".to_string()));
}

#[test]
fn unicode_round_trip() {
    let mut db = fresh();
    db.set("clé", "värde ✓ 日本").unwrap();
    assert_eq!(db.get("clé").unwrap(), Some("värde ✓ 日本".to_string()));
    db.set("", "").unwrap();
    assert_eq!(db.get("").unwrap(), Some(String::new()));
}

#[test]
fn reopen_restores_contents() {
    let mut db = fresh();
    db.set("a", "1").unwrap();
    db.set("b", "2").unwrap();
    db.set("c", "3").unwrap();
    db.remove("b").unwrap();
    db.set("a", "4").unwrap();
    db.set("b", "5").unwrap();
    db.remove("c").unwrap();
    let before: Vec<Option<String>> = ["a", "b", "c", "d"].iter().map(|k| db.get(k).unwrap()).collect();
    let stale = db.store.uncompacted();
    let reopened = open(db.files.clone()).unwrap();
    let after: Vec<Option<String>> = ["a", "b", "c", "d"].iter().map(|k| reopened.get(k).unwrap()).collect();
    assert_eq!(before, after);
    assert_eq!(after, vec![Some("4".to_string()), Some("5".to_string()), None, None]);
    assert_eq!(reopened.store.uncompacted(), stale);
    assert!(reopened.store.current_file_number() > db.store.current_file_number());
}

#[test]
fn reopen_twice_keeps_writes_of_both_sessions() {
    let mut db = fresh();
    db.set("a", "1").unwrap();
    let mut db = open(db.files.clone()).unwrap();
    db.set("b", "2").unwrap();
    db.remove("a").unwrap();
    let db = open(db.files.clone()).unwrap();
    assert_eq!(db.get("a").unwrap(), None);
    assert_eq!(db.get("b").unwrap(), Some("2".to_string()));
    assert_eq!(db.files.len(), 3);
}

#[test]
fn compaction_preserves_values_and_shrinks() {
    let mut db = fresh();
    for i in 0..50 {
        db.set(&format!("k{}", i % 10), &format!("v{}", i)).unwrap();
    }
    db.remove("k3").unwrap();
    let keys: Vec<String> = (0..12).map(|i| format!("k{}", i)).collect();
    let before: Vec<Option<String>> = keys.iter().map(|k| db.get(k).unwrap()).collect();
    let bytes_before = db.total_bytes();
    db.compact().unwrap();
    let after: Vec<Option<String>> = keys.iter().map(|k| db.get(k).unwrap()).collect();
    assert_eq!(before, after);
    assert!(db.total_bytes() <= bytes_before);
    assert!(db.total_bytes() < bytes_before);
    assert_eq!(db.store.uncompacted(), 0);
    assert_eq!(db.files.len(), 2);
    let reopened = open(db.files.clone()).unwrap();
    let again: Vec<Option<String>> = keys.iter().map(|k| reopened.get(k).unwrap()).collect();
    assert_eq!(before, again);
}

#[test]
fn compaction_numbers_segments() {
    let mut db = fresh();
    assert_eq!(db.store.current_file_number(), 1);
    db.set("a", "1").unwrap();
    db.compact().unwrap();
    assert_eq!(db.store.current_file_number(), 3);
    assert_eq!(db.files.keys().cloned().collect::<Vec<u64>>(), vec![2, 3]);
    assert_eq!(db.get("a").unwrap(), Some("1".to_string()));
}

#[test]
fn threshold_triggers_compaction() {
    let mut db = fresh();
    let value = "x".repeat(1000);
    let mut expected = BTreeMap::new();
    for round in 0..30 {
        for k in 0..50 {
            let key = format!("key{}", k);
            let v = format!("{}{}", round, value);
            db.set(&key, &v).unwrap();
            expected.insert(key, v);
        }
    }
    assert!(db.compactions >= 1);
    assert!(db.store.uncompacted() <= COMPACTION_THRESHOLD);
    for (k, v) in &expected {
        assert_eq!(db.get(k).unwrap().as_ref(), Some(v));
    }
    let reopened = open(db.files.clone()).unwrap();
    for (k, v) in &expected {
        assert_eq!(reopened.get(k).unwrap().as_ref(), Some(v));
    }
}

#[test]
fn stale_count_follows_writes() {
    let mut db = fresh();
    db.set("a", "1").unwrap();
    assert_eq!(db.store.uncompacted(), 0);
    let first = db.store.locate("a").unwrap();
    assert_eq!(first.file_number, 1);
    assert_eq!(first.offset, 0);
    assert_eq!(first.length, 19);
    db.set("a", "22").unwrap();
    assert_eq!(db.store.uncompacted(), 19);
    let second = db.store.locate("a").unwrap();
    assert_eq!(second.offset, 19);
    assert_eq!(second.length, 20);
    db.remove("a").unwrap();
    // the replaced record, then the removed one, then the remove record itself
    assert_eq!(db.store.uncompacted(), 19 + 20 + 10);
    assert!(db.store.locate("a").is_none());
    assert!(!db.store.needs_compaction());
}

#[test]
fn recovery_counts_stale_bytes() {
    let mut db = fresh();
    db.set("a", "1").unwrap();
    db.set("a", "2").unwrap();
    db.set("b", "3").unwrap();
    db.remove("b").unwrap();
    let reopened = open(db.files.clone()).unwrap();
    assert_eq!(reopened.store.uncompacted(), 19 + 19 + 10);
}

#[test]
fn recovery_rejects_truncated_segment() {
    let mut db = fresh();
    db.set("a", "1").unwrap();
    db.set("b", "2").unwrap();
    let mut files = db.files.clone();
    let seg = files.get_mut(&1).unwrap();
    seg.truncate(seg.len() - 3);
    assert!(matches!(open(files), Err(KVStoreError::Serialization)));
}

#[test]
fn recovery_rejects_garbage_segment() {
    let mut files = BTreeMap::new();
    files.insert(4u64, vec![0x00, 0x01, 0x02]);
    assert!(matches!(open(files), Err(KVStoreError::Serialization)));
}

#[test]
fn recovery_failure_leaves_state() {
    let mut recovery = Recovery::new();
    let good = kvs::Command::set("a".to_string(), "1".to_string()).encode();
    recovery.load_segment(2, good).unwrap();
    assert_eq!(recovery.load_segment(5, vec![0x53]), Err(KVStoreError::Serialization));
    let store = recovery.finish().unwrap();
    assert_eq!(store.current_file_number(), 3);
    assert!(store.locate("a").is_some());
}

#[test]
fn recovery_active_segment_follows_last() {
    let mut files = BTreeMap::new();
    files.insert(7u64, Vec::new());
    files.insert(3u64, Vec::new());
    let db = open(files).unwrap();
    assert_eq!(db.store.current_file_number(), 8);
}

#[test]
fn recovery_refuses_last_segment_number() {
    let mut recovery = Recovery::new();
    recovery.load_segment(u64::MAX, Vec::new()).unwrap();
    assert!(matches!(recovery.finish(), Err(KVStoreError::Overflow)));
}

#[test]
fn compaction_refuses_segment_overflow() {
    let mut recovery = Recovery::new();
    recovery.load_segment(u64::MAX - 2, Vec::new()).unwrap();
    let mut store = recovery.finish().unwrap();
    assert_eq!(store.current_file_number(), u64::MAX - 1);
    assert!(matches!(store.compact(), Err(KVStoreError::Overflow)));
    assert_eq!(store.current_file_number(), u64::MAX - 1);
}

#[test]
fn read_value_of_remove_record_is_unexpected() {
    let bytes = kvs::Command::remove("a".to_string()).encode();
    assert!(matches!(read_value(&bytes), Err(KVStoreError::UnexpectedCommandType)));
}

#[test]
fn read_value_of_garbage_is_serialization() {
    assert!(matches!(read_value(&[0x99, 0x00]), Err(KVStoreError::Serialization)));
    assert!(matches!(read_value(&[]), Err(KVStoreError::Serialization)));
    let mut bytes = kvs::Command::set("a".to_string(), "1".to_string()).encode();
    bytes.push(0x52);
    assert!(matches!(read_value(&bytes), Err(KVStoreError::Serialization)));
}

#[test]
fn read_value_of_set_record() {
    let bytes = kvs::Command::set("k".to_string(), "hello".to_string()).encode();
    assert_eq!(read_value(&bytes).unwrap(), "hello");
}

#[test]
fn read_value_rejects_invalid_utf8() {
    let mut bytes = vec![0x53];
    bytes.extend_from_slice(&1u64.to_le_bytes());
    bytes.push(b'k');
    bytes.extend_from_slice(&1u64.to_le_bytes());
    bytes.push(0xff);
    assert!(matches!(read_value(&bytes), Err(KVStoreError::Serialization)));
}

#[test]
fn error_messages() {
    assert_eq!(KVStoreError::KeyNotFound.message(), "Key not found");
    assert_eq!(KVStoreError::UnexpectedCommandType.message(), "Unexpected command type");
    assert_eq!(KVStoreError::Serialization.message(), "serialization error");
    assert_eq!(KVStoreError::Overflow.message(), "log offset overflow");
}
