use kvs::log::replay_text;
use kvs::store::FILE_SIZE_THRESHOLD;
use kvs::{DatabaseError, KvStore};

/// A store together with the text of its file, kept as a caller would.
struct Harness {
    store: KvStore,
    file: String,
}

impl Harness {
    fn open(file: &str) -> Harness {
        let (store, content) = KvStore::open(file).expect("open");
        Harness { store, file: content }
    }

    fn maybe_compact(&mut self) {
        if self.store.should_compact_and_read_cache(false, self.file.len() as u64) {
            let content = self.store.compact_and_read_cache(&self.file).expect("compact");
            self.file = content;
        }
    }

    fn set(&mut self, k: &str, v: &str) {
        let w = self.store.set(k.to_string(), v.to_string());
        self.file.push_str(w.line());
        self.store.commit(w);
        self.maybe_compact();
    }

    fn remove(&mut self, k: &str) -> Result<(), DatabaseError> {
        let w = self.store.remove(k.to_string())?;
        self.file.push_str(w.line());
        self.store.commit(w);
        self.maybe_compact();
        Ok(())
    }

    fn get(&self, k: &str) -> Option<String> {
        self.store.get(k.to_string()).expect("get never fails")
    }
}

#[test]
fn scenario_set_overwrite_remove() {
    let mut h = Harness::open("");
    h.set("a", "1");
    h.set("a", "2");
    assert_eq!(h.get("a"), Some("2".to_string()));
    assert_eq!(h.remove("a"), Ok(()));
    assert_eq!(h.get("a"), None);
    assert_eq!(h.remove("a"), Err(DatabaseError::KeyNotFound));
}

#[test]
fn read_your_writes() {
    let mut h = Harness::open("");
    h.set("k", "v");
    assert_eq!(h.get("k"), Some("v".to_string()));
    h.set("k", "w");
    assert_eq!(h.get("k"), Some("w".to_string()));
    h.remove("k").unwrap();
    assert_eq!(h.get("k"), None);
}

#[test]
fn remove_absent_key_leaves_file() {
    let mut h = Harness::open("");
    h.set("x", "1");
    let before = h.file.clone();
    assert!(matches!(h.store.remove("y".to_string()), Err(DatabaseError::KeyNotFound)));
    assert_eq!(h.remove("y"), Err(DatabaseError::KeyNotFound));
    assert_eq!(h.file, before);
}

#[test]
fn get_missing_key_is_none() {
    let h = Harness::open("");
    assert_eq!(h.get("nothing"), None);
}

#[test]
fn reopen_replays_operations() {
    let mut h = Harness::open("");
    h.set("a", "1");
    h.set("b", "2");
    h.set("a", "3");
    h.remove("b").unwrap();
    h.set("c", "line\nbreak \"quoted\"");
    let again = Harness::open(&h.file);
    assert_eq!(again.get("a"), Some("3".to_string()));
    assert_eq!(again.get("b"), None);
    assert_eq!(again.get("c"), Some("line\nbreak \"quoted\"".to_string()));
    assert_eq!(again.file.lines().count(), 2);
}

#[test]
fn open_rewrites_one_record_per_key() {
    let text = "{\"Set\":{\"key\":\"a\",\"value\":\"1\"}}\n{\"Set\":{\"key\":\"a\",\"value\":\"2\"}}\n{\"Set\":{\"key\":\"b\",\"value\":\"1\"}}\n{\"Remove\":{\"key\":\"b\"}}\n";
    let h = Harness::open(text);
    assert_eq!(h.file, "{\"Set\":{\"key\":\"a\",\"value\":\"2\"}}\n");
    assert_eq!(h.get("a"), Some("2".to_string()));
}

#[test]
fn open_reads_last_line_without_newline() {
    let h = Harness::open("{\"Set\":{\"key\":\"a\",\"value\":\"1\"}}");
    assert_eq!(h.get("a"), Some("1".to_string()));
}

#[test]
fn open_rejects_bad_line() {
    let text = "{\"Set\":{\"key\":\"a\",\"value\":\"1\"}}\n\n";
    assert!(matches!(KvStore::open(text), Err(DatabaseError::SystemError)));
    assert!(matches!(KvStore::open("not json\n"), Err(DatabaseError::SystemError)));
}

#[test]
fn failed_compaction_keeps_store() {
    let mut h = Harness::open("");
    h.set("a", "1");
    assert!(matches!(h.store.compact_and_read_cache("garbage"), Err(DatabaseError::SystemError)));
    assert_eq!(h.get("a"), Some("1".to_string()));
}

#[test]
fn compaction_policy() {
    let mut h = Harness::open("");
    assert!(h.store.should_compact_and_read_cache(true, 0));
    assert!(!h.store.should_compact_and_read_cache(false, 0));
    // one live key, one record
    h.set("a", "1");
    assert!(!h.store.should_compact_and_read_cache(false, FILE_SIZE_THRESHOLD + 1));
    // one live key, two records: ratio 0.5 is not below 0.5
    let w = h.store.set("a".to_string(), "2".to_string());
    h.store.commit(w);
    assert!(!h.store.should_compact_and_read_cache(false, FILE_SIZE_THRESHOLD + 1));
    // one live key, three records
    let w = h.store.set("a".to_string(), "3".to_string());
    h.store.commit(w);
    assert!(h.store.should_compact_and_read_cache(false, FILE_SIZE_THRESHOLD + 1));
    assert!(!h.store.should_compact_and_read_cache(false, FILE_SIZE_THRESHOLD));
}

#[test]
fn compaction_twice_is_stable() {
    let mut h = Harness::open("");
    h.set("a", "1");
    h.set("a", "2");
    h.set("b", "3");
    h.remove("b").unwrap();
    let first = h.store.compact_and_read_cache(&h.file).unwrap();
    assert_eq!(first, "{\"Set\":{\"key\":\"a\",\"value\":\"2\"}}\n");
    assert!(!h.store.should_compact_and_read_cache(false, u64::MAX));
    let second = h.store.compact_and_read_cache(&first).unwrap();
    assert_eq!(second, first);
    assert_eq!(h.get("a"), Some("2".to_string()));
    assert_eq!(h.get("b"), None);
}

#[test]
fn compaction_preserves_state() {
    let mut h = Harness::open("");
    for i in 0..20 {
        h.set(&format!("k{}", i % 7), &format!("v{i}"));
        if i % 3 == 0 {
            let _ = h.remove(&format!("k{}", (i + 1) % 7));
        }
    }
    let before: Vec<Option<String>> = (0..7).map(|i| h.get(&format!("k{i}"))).collect();
    let content = h.store.compact_and_read_cache(&h.file).unwrap();
    let after: Vec<Option<String>> = (0..7).map(|i| h.get(&format!("k{i}"))).collect();
    assert_eq!(before, after);
    let live = before.iter().filter(|v| v.is_some()).count();
    assert_eq!(content.lines().count(), live);
    let table = replay_text(&content).unwrap();
    assert_eq!(table.len(), live);
}

#[test]
fn large_log_is_compacted() {
    let mut h = Harness::open("");
    let value = "x".repeat(1000);
    let mut largest = 0usize;
    let mut compacted = false;
    for i in 0..300 {
        let w = h.store.set("key".to_string(), format!("{value}{}", i % 2));
        h.file.push_str(w.line());
        h.store.commit(w);
        let appended = h.file.len();
        largest = largest.max(appended);
        h.maybe_compact();
        if h.file.len() < appended {
            compacted = true;
            assert!(appended > FILE_SIZE_THRESHOLD as usize);
            assert_eq!(h.file.lines().count(), 1);
        }
    }
    assert!(compacted);
    assert!(largest > FILE_SIZE_THRESHOLD as usize);
    assert!(h.file.len() < largest);
    assert_eq!(h.get("key"), Some(format!("{value}1")));
}
