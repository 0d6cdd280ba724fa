use kvs::index::KeyIndex;
use kvs::kv::{read_log, MAX_SPACE};
use kvs::{get_log_file, Command, CommandPos, KvStore, LogRecord, MyError, ReaderWithPos, WriterWithPos};

fn set_rec(key: &str, value: &str, end: u64) -> LogRecord {
    LogRecord { command: Command::set(key.to_string(), value.to_string()), end }
}

fn rm_rec(key: &str, end: u64) -> LogRecord {
    LogRecord { command: Command::rm(key.to_string()), end }
}

#[test]
fn command_constructors() {
    assert_eq!(
        Command::set("a".to_string(), "b".to_string()),
        Command::SetValue { key: "a".to_string(), value: "b".to_string() }
    );
    assert_eq!(Command::rm("a".to_string()), Command::Rm { key: "a".to_string() });
}

#[test]
fn index_insert_get_remove() {
    let mut idx = KeyIndex::new();
    let k = "k".to_string();
    assert_eq!(idx.get(&k), None);
    assert_eq!(idx.insert(k.clone(), CommandPos { offset: 0, size: 5 }), None);
    assert_eq!(
        idx.insert(k.clone(), CommandPos { offset: 5, size: 7 }),
        Some(CommandPos { offset: 0, size: 5 })
    );
    assert_eq!(idx.get(&k), Some(CommandPos { offset: 5, size: 7 }));
    assert_eq!(idx.insert("other".to_string(), CommandPos { offset: 12, size: 1 }), None);
    assert!(idx.contains_key(&k));
    assert_eq!(idx.remove(&k), Some(CommandPos { offset: 5, size: 7 }));
    assert!(!idx.contains_key(&k));
    assert_eq!(idx.remove(&k), None);
    assert_eq!(idx.get(&"other".to_string()), Some(CommandPos { offset: 12, size: 1 }));
}

#[test]
fn read_log_replays_records() {
    let log = vec![set_rec("a", "1", 10), set_rec("b", "2", 25), set_rec("a", "3", 31), rm_rec("b", 40)];
    let (idx, end) = read_log(&log).unwrap();
    assert_eq!(end, 40);
    assert_eq!(idx.get(&"a".to_string()), Some(CommandPos { offset: 25, size: 6 }));
    assert_eq!(idx.get(&"b".to_string()), None);
}

#[test]
fn read_log_empty() {
    let (idx, end) = read_log(&Vec::new()).unwrap();
    assert_eq!(end, 0);
    assert!(!idx.contains_key(&"a".to_string()));
}

#[test]
fn read_log_refuses_get_record() {
    let log = vec![set_rec("a", "1", 10), LogRecord { command: Command::Get { key: "a".to_string() }, end: 20 }];
    assert!(matches!(read_log(&log), Err(MyError::UnexpectedCommand)));
}

#[test]
fn open_counts_whole_log_as_unused() {
    let log = vec![set_rec("a", "1", 10), set_rec("b", "2", 25)];
    let store = KvStore::open("dir".to_string(), &log, 25).unwrap();
    assert_eq!(store.unused_space(), 25);
    assert_eq!(store.writer_pos(), 25);
    assert_eq!(store.path(), "dir");
    assert_eq!(store.get(&"b".to_string()), Some(CommandPos { offset: 10, size: 15 }));
}

#[test]
fn get_after_set_finds_the_record() {
    let mut store = KvStore::open("d".to_string(), &Vec::new(), 0).unwrap();
    let (cmd, pos) = store.prepare_set("key1".to_string(), "value1".to_string());
    assert_eq!(cmd, Command::SetValue { key: "key1".to_string(), value: "value1".to_string() });
    assert_eq!(pos, 0);
    store.record_write(30);
    assert!(!store.set(cmd, pos));
    assert_eq!(store.get(&"key1".to_string()), Some(CommandPos { offset: 0, size: 30 }));
    assert_eq!(store.unused_space(), 0);
    let (cmd, pos) = store.prepare_set("key1".to_string(), "value2".to_string());
    store.record_write(20);
    assert!(!store.set(cmd, pos));
    assert_eq!(store.get(&"key1".to_string()), Some(CommandPos { offset: 30, size: 20 }));
    assert_eq!(store.unused_space(), 30);
}

#[test]
fn remove_then_get_is_none() {
    let mut store = KvStore::open("d".to_string(), &Vec::new(), 0).unwrap();
    store.record_write(30);
    store.set(Command::set("k".to_string(), "v".to_string()), 0);
    let cmd = store.prepare_remove("k".to_string()).unwrap();
    assert_eq!(cmd, Command::Rm { key: "k".to_string() });
    store.record_write(12);
    assert!(!store.remove(cmd));
    assert_eq!(store.get(&"k".to_string()), None);
    assert_eq!(store.unused_space(), 30);
    assert_eq!(store.writer_pos(), 42);
}

#[test]
fn remove_absent_key_is_key_not_found() {
    let mut store = KvStore::open("d".to_string(), &Vec::new(), 0).unwrap();
    assert_eq!(store.prepare_remove("nope".to_string()), Err(MyError::KeyNotFound));
    assert_eq!(store.unused_space(), 0);
}

#[test]
fn compaction_due_after_overwrite_past_limit() {
    let log = vec![set_rec("a", "1", MAX_SPACE)];
    let mut store = KvStore::open("d".to_string(), &log, MAX_SPACE).unwrap();
    // all of the opened log counts as unused: MAX_SPACE bytes
    let (cmd, pos) = store.prepare_set("b".to_string(), "2".to_string());
    store.record_write(10);
    // a new key never triggers compaction
    assert!(!store.set(cmd, pos));
    let (cmd, pos) = store.prepare_set("a".to_string(), "3".to_string());
    store.record_write(10);
    // replacing "a" adds its MAX_SPACE bytes
    assert!(store.set(cmd, pos));
    assert_eq!(store.unused_space(), 2 * MAX_SPACE);
    store.compact();
    assert_eq!(store.unused_space(), 0);
    assert_eq!(store.get(&"a".to_string()), Some(CommandPos { offset: MAX_SPACE + 10, size: 10 }));
}

#[test]
fn remove_past_limit_asks_for_compaction() {
    let log = vec![set_rec("a", "1", MAX_SPACE)];
    let mut store = KvStore::open("d".to_string(), &log, MAX_SPACE).unwrap();
    let cmd = store.prepare_remove("a".to_string()).unwrap();
    store.record_write(5);
    assert!(store.remove(cmd));
}

#[test]
fn store_agrees_with_replayed_log() {
    let mut store = KvStore::open("d".to_string(), &Vec::new(), 0).unwrap();
    let mut log = Vec::new();
    for (i, key) in ["x", "y", "x", "z"].iter().enumerate() {
        let (cmd, pos) = store.prepare_set(key.to_string(), "v".to_string());
        store.record_write(10 + i);
        store.set(cmd, pos);
        log.push(set_rec(key, "v", store.writer_pos()));
    }
    let cmd = store.prepare_remove("y".to_string()).unwrap();
    store.record_write(7);
    store.remove(cmd);
    log.push(rm_rec("y", store.writer_pos()));
    let reopened = KvStore::open("d".to_string(), &log, store.writer_pos()).unwrap();
    for key in ["x", "y", "z", "w"] {
        assert_eq!(reopened.get(&key.to_string()), store.get(&key.to_string()));
    }
    assert_eq!(reopened.writer_pos(), store.writer_pos());
}

#[test]
fn value_of_record() {
    assert_eq!(
        KvStore::value_of(Command::set("k".to_string(), "v".to_string())),
        Ok("v".to_string())
    );
    assert_eq!(KvStore::value_of(Command::rm("k".to_string())), Err(MyError::UnexpectedCommand));
    assert_eq!(
        KvStore::value_of(Command::Get { key: "k".to_string() }),
        Err(MyError::UnexpectedCommand)
    );
}

#[test]
fn log_file_paths() {
    assert_eq!(get_log_file(".", false), "./kvs.log");
    assert_eq!(get_log_file(".", true), "./kvs.log/.tmp");
    assert_eq!(get_log_file("/data/", false), "/data/kvs.log");
    assert_eq!(get_log_file("", false), "kvs.log");
    assert_eq!(get_log_file("dir", true), "dir/kvs.log/.tmp");
    assert_eq!(get_log_file("été", false), "été/kvs.log");
}

#[test]
fn log_file_paths_match_std_join() {
    for base in [".", "/data/", "", "dir", "a/b"] {
        let joined = std::path::Path::new(base).join("kvs.log");
        assert_eq!(get_log_file(base, false), joined.to_str().unwrap());
        assert_eq!(get_log_file(base, true), joined.join(".tmp").to_str().unwrap());
    }
}

#[test]
fn positions_of_reader_and_writer() {
    let mut w = WriterWithPos::new(5);
    w.record_write(10);
    w.record_write(0);
    assert_eq!(w.pos, 15);
    let mut r = ReaderWithPos::new(0);
    r.record_read(8);
    assert_eq!(r.pos, 8);
    r.record_seek(3);
    assert_eq!(r.pos, 3);
}

#[test]
fn records_lie_before_writer() {
    let log = vec![set_rec("a", "1", 10), set_rec("b", "2", 25), rm_rec("a", 31)];
    let mut store = KvStore::open("d".to_string(), &log, 31).unwrap();
    let (cmd, pos) = store.prepare_set("c".to_string(), "3".to_string());
    store.record_write(9);
    store.set(cmd, pos);
    let cmd = store.prepare_remove("b".to_string()).unwrap();
    store.record_write(4);
    store.remove(cmd);
    for key in ["a", "b", "c"] {
        if let Some(p) = store.get(&key.to_string()) {
            assert!(p.offset + p.size <= store.writer_pos());
        }
    }
    assert_eq!(store.get(&"c".to_string()), Some(CommandPos { offset: 31, size: 9 }));
    assert_eq!(store.path(), "d");
    assert_eq!(store.writer_pos(), 44);
}

#[test]
fn writer_opened_at_zero_disagrees_with_log() {
    // A store whose writer does not stand at the end of its log points new records at
    // offsets that a replay of the log would not give.
    let log = vec![set_rec("a", "1", 10)];
    let mut store = KvStore::open("d".to_string(), &log, 0).unwrap();
    let (cmd, pos) = store.prepare_set("b".to_string(), "2".to_string());
    store.record_write(5);
    store.set(cmd, pos);
    assert_eq!(store.get(&"b".to_string()), Some(CommandPos { offset: 0, size: 5 }));
    let mut longer = log;
    longer.push(set_rec("b", "2", 15));
    let (idx, _) = read_log(&longer).unwrap();
    assert_eq!(idx.get(&"b".to_string()), Some(CommandPos { offset: 10, size: 5 }));
}

#[test]
fn lookup_follows_last_record_of_history() {
    let mut store = KvStore::open("d".to_string(), &Vec::new(), 0).unwrap();
    let mut log = Vec::new();
    // set a, set b, set a, remove b, set c, remove c, set c
    let history: [(&str, Option<&str>, usize); 7] =
        [("a", Some("1"), 10), ("b", Some("2"), 11), ("a", Some("3"), 12), ("b", None, 8), ("c", Some("4"), 9), ("c", None, 7), ("c", Some("5"), 6)];
    for (key, value, count) in history {
        match value {
            Some(v) => {
                let (cmd, pos) = store.prepare_set(key.to_string(), v.to_string());
                store.record_write(count);
                store.set(cmd, pos);
                log.push(set_rec(key, v, store.writer_pos()));
            }
            None => {
                let cmd = store.prepare_remove(key.to_string()).unwrap();
                store.record_write(count);
                store.remove(cmd);
                log.push(rm_rec(key, store.writer_pos()));
            }
        }
    }
    // a: its last record is the third (bytes 21..33)
    assert_eq!(store.get(&"a".to_string()), Some(CommandPos { offset: 21, size: 12 }));
    assert_eq!(store.get(&"b".to_string()), None);
    // c: its last record is the seventh (bytes 57..63)
    assert_eq!(store.get(&"c".to_string()), Some(CommandPos { offset: 57, size: 6 }));
    let (idx, end) = read_log(&log).unwrap();
    assert_eq!(end, 63);
    for key in ["a", "b", "c"] {
        assert_eq!(idx.get(&key.to_string()), store.get(&key.to_string()));
    }
}

#[test]
fn get_after_history_from_any_store() {
    // The writer does not stand at the end of the log here; the last operation on a key
    // still decides where it is found.
    let log = vec![set_rec("a", "1", 10), set_rec("b", "2", 20)];
    let mut store = KvStore::open("d".to_string(), &log, 3).unwrap();
    let (cmd, pos) = store.prepare_set("a".to_string(), "x".to_string());
    store.record_write(4);
    store.set(cmd, pos);
    let cmd = store.prepare_remove("b".to_string()).unwrap();
    store.record_write(5);
    store.remove(cmd);
    assert_eq!(store.get(&"a".to_string()), Some(CommandPos { offset: 3, size: 4 }));
    assert_eq!(store.get(&"b".to_string()), None);
}
