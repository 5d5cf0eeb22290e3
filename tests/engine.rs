use kvs::{Command, CommandPos, KvsError, LogEntry, StoreState};

fn put(k: &str, v: &str) -> Command {
    Command::Put { key: k.to_string(), value: v.to_string() }
}

fn rm(k: &str) -> Command {
    Command::Remove { key: k.to_string() }
}

// Appends a record of `len` bytes the way a store does: write, then account.
fn append_set(s: &mut StoreState, k: &str, v: &str, len: u64) -> bool {
    s.record_set(k.to_string(), &v.to_string(), len)
}

#[test]
fn new_store_is_empty() {
    let s = StoreState::new(1024);
    assert_eq!(s.len(), 0);
    assert_eq!(s.active_log_id(), 0);
    assert_eq!(s.write_pos(), 0);
    assert_eq!(s.uncompacted(), 0);
    assert_eq!(s.locate(&"a".to_string()), None);
}

#[test]
fn set_points_index_at_appended_record() {
    let mut s = StoreState::new(1024);
    assert!(!append_set(&mut s, "a", "1", 30));
    assert_eq!(s.locate(&"a".to_string()), Some(CommandPos { log_id: 0, pos: 0, len: 30 }));
    assert_eq!(s.write_pos(), 30);
    assert_eq!(s.uncompacted(), 0);
}

#[test]
fn overwrite_counts_shadowed_bytes() {
    let mut s = StoreState::new(1024);
    append_set(&mut s, "a", "1", 30);
    append_set(&mut s, "a", "2", 31);
    assert_eq!(s.locate(&"a".to_string()), Some(CommandPos { log_id: 0, pos: 30, len: 31 }));
    assert_eq!(s.uncompacted(), 30);
    assert_eq!(s.len(), 1);
}

#[test]
fn set_reports_when_compaction_is_due() {
    let mut s = StoreState::new(50);
    assert!(!append_set(&mut s, "a", "1", 30));
    assert!(!append_set(&mut s, "a", "2", 30));
    assert!(append_set(&mut s, "a", "3", 30));
    assert_eq!(s.uncompacted(), 60);
}

#[test]
fn remove_of_absent_key_is_key_not_found() {
    let mut s = StoreState::new(1024);
    assert_eq!(s.check_remove(&"k".to_string()), Err(KvsError::KeyNotFound));
    append_set(&mut s, "other", "v", 20);
    assert_eq!(s.check_remove(&"k".to_string()), Err(KvsError::KeyNotFound));
    assert_eq!(s.len(), 1);
    assert_eq!(s.write_pos(), 20);
}

// set("k","v"); remove("k"); get("k") == None; remove("k") -> KeyNotFound
#[test]
fn set_remove_get_remove() {
    let mut s = StoreState::new(1024);
    append_set(&mut s, "k", "v", 26);
    let k = "k".to_string();
    assert_eq!(s.check_remove(&k), Ok(()));
    assert!(!s.record_remove(&k, 17));
    assert_eq!(s.locate(&k), None);
    assert_eq!(s.check_remove(&k), Err(KvsError::KeyNotFound));
    assert_eq!(s.uncompacted(), 26 + 17);
    assert_eq!(s.write_pos(), 43);
}

#[test]
fn recovery_replays_segments_in_order() {
    let mut s = StoreState::new(1 << 20);
    let first = vec![
        LogEntry { command: put("a", "1"), end: 30 },
        LogEntry { command: put("b", "x"), end: 60 },
    ];
    assert_eq!(s.load_log(1, &first, 60), Ok(()));
    let second = vec![
        LogEntry { command: put("a", "2"), end: 30 },
        LogEntry { command: rm("b"), end: 47 },
    ];
    assert_eq!(s.load_log(3, &second, 47), Ok(()));
    assert_eq!(s.active_log_id(), 3);
    assert_eq!(s.write_pos(), 47);
    assert_eq!(s.locate(&"a".to_string()), Some(CommandPos { log_id: 3, pos: 0, len: 30 }));
    assert_eq!(s.locate(&"b".to_string()), None);
    // the shadowed "a", the removed "b" and the removal record itself
    assert_eq!(s.uncompacted(), 30 + 30 + 17);
}

#[test]
fn recovery_counts_removal_of_unknown_key() {
    let mut s = StoreState::new(1024);
    let entries = vec![LogEntry { command: rm("ghost"), end: 21 }];
    assert_eq!(s.load_log(0, &entries, 21), Ok(()));
    assert_eq!(s.uncompacted(), 21);
    assert_eq!(s.len(), 0);
}

#[test]
fn recovery_keeps_trailing_bytes_after_last_record() {
    let mut s = StoreState::new(1024);
    let entries = vec![LogEntry { command: put("a", "1"), end: 30 }];
    assert_eq!(s.load_log(0, &entries, 45), Ok(()));
    assert_eq!(s.write_pos(), 45);
}

#[test]
fn recovery_refuses_bad_framing() {
    let mut s = StoreState::new(1024);
    let backwards = vec![
        LogEntry { command: put("a", "1"), end: 30 },
        LogEntry { command: put("b", "1"), end: 30 },
    ];
    assert!(matches!(s.load_log(0, &backwards, 60), Err(KvsError::OtherError(_))));
    let too_long = vec![LogEntry { command: put("a", "1"), end: 30 }];
    assert!(matches!(s.load_log(0, &too_long, 29), Err(KvsError::OtherError(_))));
    assert_eq!(s.len(), 0);
    assert_eq!(s.write_pos(), 0);
}

#[test]
fn recovery_refuses_segment_out_of_order() {
    let mut s = StoreState::new(1024);
    let entries = vec![LogEntry { command: put("a", "1"), end: 30 }];
    assert_eq!(s.load_log(5, &entries, 30), Ok(()));
    assert!(matches!(s.load_log(4, &entries, 30), Err(KvsError::OtherError(_))));
    assert!(matches!(s.load_log(5, &entries, 30), Err(KvsError::OtherError(_))));
    assert_eq!(s.active_log_id(), 5);
}

#[test]
fn frames_ok_checks_offsets() {
    let e = vec![
        LogEntry { command: put("a", "1"), end: 10 },
        LogEntry { command: put("b", "1"), end: 25 },
    ];
    assert!(kvs::engine::frames_ok(&e, 25));
    assert!(!kvs::engine::frames_ok(&e, 24));
    let zero = vec![LogEntry { command: put("a", "1"), end: 0 }];
    assert!(!kvs::engine::frames_ok(&zero, 10));
    assert!(kvs::engine::frames_ok(&Vec::new(), 0));
}

// open; set a=1; set a=2; get a == 2; drop; open; get a == 2
#[test]
fn reopened_store_sees_last_value() {
    let mut live = StoreState::new(1 << 20);
    append_set(&mut live, "a", "1", 30);
    append_set(&mut live, "a", "2", 30);
    let at = live.locate(&"a".to_string()).unwrap();
    assert_eq!(at, CommandPos { log_id: 0, pos: 30, len: 30 });
    // what the segment holds, read back after a restart
    let entries = vec![
        LogEntry { command: put("a", "1"), end: 30 },
        LogEntry { command: put("a", "2"), end: 60 },
    ];
    let mut reopened = StoreState::new(1 << 20);
    assert_eq!(reopened.load_log(0, &entries, 60), Ok(()));
    assert_eq!(reopened.locate(&"a".to_string()), Some(at));
    assert_eq!(entries[1].command.clone().into_value(), Ok("2".to_string()));
}

#[test]
fn compaction_moves_live_records_contiguously() {
    let mut s = StoreState::new(1 << 20);
    append_set(&mut s, "b", "1", 10);
    append_set(&mut s, "a", "1", 20);
    append_set(&mut s, "b", "2", 30);
    let k = "a".to_string();
    s.check_remove(&k).unwrap();
    s.record_remove(&k, 5);
    append_set(&mut s, "c", "1", 7);
    let c = s.compact().unwrap();
    assert_eq!(c.target, 1);
    assert_eq!(c.active, 2);
    assert_eq!(c.moves.len(), 2);
    assert_eq!(c.size, 37);
    // copies go in ascending order of keys
    assert_eq!(c.moves[0].key, "b");
    assert_eq!(c.moves[1].key, "c");
    let mut pos = 0;
    for m in &c.moves {
        assert_eq!(m.to.log_id, 1);
        assert_eq!(m.to.pos, pos);
        assert_eq!(m.to.len, m.from.len);
        assert_eq!(s.locate(&m.key), Some(m.to));
        pos += m.to.len;
    }
    let b = c.moves.iter().find(|m| m.key == "b").unwrap();
    assert_eq!(b.from, CommandPos { log_id: 0, pos: 30, len: 30 });
    assert_eq!(s.active_log_id(), 2);
    assert_eq!(s.write_pos(), 0);
    assert_eq!(s.uncompacted(), 0);
    assert_eq!(s.len(), 2);
    assert_eq!(s.locate(&"a".to_string()), None);
}

#[test]
fn compaction_of_empty_store() {
    let mut s = StoreState::new(10);
    let c = s.compact().unwrap();
    assert_eq!(c.moves.len(), 0);
    assert_eq!(c.size, 0);
    assert_eq!((c.target, c.active), (1, 2));
}

#[test]
fn compaction_refuses_exhausted_segment_ids() {
    let mut s = StoreState::new(10);
    let e = vec![LogEntry { command: put("a", "1"), end: 9 }];
    s.load_log(u64::MAX - 1, &e, 9).unwrap();
    assert!(matches!(s.compact(), Err(KvsError::OtherError(_))));
    assert_eq!(s.active_log_id(), u64::MAX - 1);
    assert_eq!(s.len(), 1);
}

// 10,000 keys, then 10,000 overwrites: compaction fires and every key
// ends up at its latest record.
#[test]
fn many_overwrites_trigger_compaction() {
    let mut s = StoreState::new(1024);
    let mut compactions = 0;
    for round in 0..2 {
        let v = if round == 0 { "v" } else { "w" };
        for i in 0..10_000 {
            let key = format!("key{}", i);
            let len = (29 + key.len()) as u64;
            if append_set(&mut s, &key, v, len) {
                let c = s.compact().unwrap();
                assert_eq!(c.moves.len(), s.len());
                compactions += 1;
            }
        }
    }
    assert!(compactions > 0);
    assert_eq!(s.len(), 10_000);
    for i in 0..10_000 {
        assert!(s.locate(&format!("key{}", i)).is_some());
    }
}

// 1,000 distinct keys: the index holds 1,000 entries.
#[test]
fn distinct_keys_fill_index() {
    let mut s = StoreState::new(1 << 20);
    for i in 0..1000 {
        append_set(&mut s, &format!("k{}", i), "v", 20);
    }
    assert_eq!(s.len(), 1000);
}

#[test]
fn removal_record_is_no_value() {
    assert_eq!(rm("a").into_value(), Err(KvsError::WrongCommandError));
    assert_eq!(put("a", "b").into_value(), Ok("b".to_string()));
}

#[test]
fn compaction_copies_in_key_order() {
    let mut s = StoreState::new(1 << 20);
    for k in ["pear", "apple", "b", "", "ab", "é", "z"] {
        append_set(&mut s, k, "v", 12);
    }
    let c = s.compact().unwrap();
    let keys: Vec<&str> = c.moves.iter().map(|m| m.key.as_str()).collect();
    assert_eq!(keys, vec!["", "ab", "apple", "b", "pear", "z", "é"]);
    let offsets: Vec<u64> = c.moves.iter().map(|m| m.to.pos).collect();
    assert_eq!(offsets, vec![0, 12, 24, 36, 48, 60, 72]);
}
