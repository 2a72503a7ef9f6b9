use kvs::command::{decode, KvAction};
use kvs::kv::{Change, THRESHOLD};
use kvs::{KvError, KvStore};

fn text(s: &str) -> String {
    s.to_string()
}

fn fresh() -> KvStore {
    KvStore::open(text("store"), Vec::new()).unwrap()
}

fn carry_out(disk: &mut Vec<(u64, Vec<u8>)>, changes: Vec<Change>) {
    for change in changes {
        match change {
            Change::Create(generation) => disk.push((generation, Vec::new())),
            Change::Append(generation, bytes) => {
                let file = disk.iter_mut().find(|file| file.0 == generation).unwrap();
                file.1.extend_from_slice(&bytes);
            }
            Change::Delete(generation) => disk.retain(|file| file.0 != generation),
        }
    }
}

fn total(files: &Vec<(u64, Vec<u8>)>) -> usize {
    files.iter().map(|file| file.1.len()).sum()
}

#[test]
fn second_set_wins() {
    let mut store = fresh();
    store.set(text("k"), text("1")).unwrap();
    store.set(text("k"), text("2")).unwrap();
    assert_eq!(store.get(text("k")).unwrap(), Some(text("2")));
}

#[test]
fn value_survives_reopen() {
    let mut store = fresh();
    store.set(text("a"), text("1")).unwrap();
    let files = store.files();
    drop(store);
    let mut again = KvStore::open(text("store"), files).unwrap();
    assert_eq!(again.get(text("a")).unwrap(), Some(text("1")));
}

#[test]
fn remove_of_absent_key_fails() {
    let mut store = fresh();
    assert!(matches!(store.remove(text("absent")), Err(KvError::KeyNotFound)));
    assert_eq!(store.files(), vec![(0u64, Vec::new())]);
}

#[test]
fn hundred_thousand_sets_compact() {
    let mut store = fresh();
    for i in 0..100000 {
        store.set(text("k"), format!("{}", i)).unwrap();
    }
    assert_eq!(store.get(text("k")).unwrap(), Some(text("99999")));
    assert!(store.generations().len() < 10);
    assert_eq!(store.generations().len(), 1);
    assert!(store.generation() >= 1);
    assert!(store.stale_bytes() <= THRESHOLD);
    assert!(total(&store.files()) <= 2 * 1048576);
}

#[test]
fn removed_key_stays_removed_after_reopen() {
    let mut store = fresh();
    store.set(text("a"), text("1")).unwrap();
    store.set(text("b"), text("2")).unwrap();
    store.remove(text("a")).unwrap();
    let files = store.files();
    drop(store);
    let mut again = KvStore::open(text("store"), files).unwrap();
    assert_eq!(again.get(text("a")).unwrap(), None);
    assert_eq!(again.get(text("b")).unwrap(), Some(text("2")));
}

#[test]
fn corrupt_byte_at_the_end_is_rejected() {
    let mut bytes = b"{\"Set\":[\"a\",\"1\"]}".to_vec();
    bytes.push(b'x');
    let r = KvStore::open(text("store"), vec![(0, bytes)]);
    assert!(matches!(r, Err(KvError::UnexpectedAction)));
}

#[test]
fn torn_last_command_is_rejected() {
    let bytes = b"{\"Set\":[\"a\",\"1\"]}{\"Set\":[\"b\",\"2".to_vec();
    let r = KvStore::open(text("store"), vec![(3, bytes)]);
    assert!(matches!(r, Err(KvError::UnexpectedAction)));
}

#[test]
fn bad_escape_in_a_segment_is_a_serde_error() {
    let bytes = b"{\"Set\":[\"a\",\"\\q\"]}".to_vec();
    let r = KvStore::open(text("store"), vec![(0, bytes)]);
    assert!(matches!(r, Err(KvError::Serde(_))));
}

#[test]
fn files_out_of_order_are_rejected() {
    let one = b"{\"Set\":[\"a\",\"1\"]}".to_vec();
    let two = b"{\"Set\":[\"a\",\"2\"]}".to_vec();
    let r = KvStore::open(text("store"), vec![(2, two.clone()), (1, one.clone())]);
    assert!(matches!(r, Err(KvError::UnexpectedAction)));
    let r = KvStore::open(text("store"), vec![(1, one), (1, two)]);
    assert!(matches!(r, Err(KvError::UnexpectedAction)));
}

#[test]
fn open_without_files_starts_segment_zero() {
    let mut store = fresh();
    assert_eq!(store.generation(), 0);
    assert_eq!(store.path(), "store");
    assert_eq!(store.generations(), vec![0]);
    assert_eq!(store.stale_bytes(), 0);
    assert_eq!(store.get(text("a")).unwrap(), None);
    let changes = store.take_changes();
    assert_eq!(changes.len(), 1);
    assert!(matches!(changes[0], Change::Create(0)));
    assert!(store.take_changes().is_empty());
}

#[test]
fn open_takes_the_largest_generation_as_active() {
    let one = b"{\"Set\":[\"a\",\"1\"]}".to_vec();
    let two = b"{\"Set\":[\"a\",\"2\"]}{\"Set\":[\"b\",\"3\"]}".to_vec();
    let mut store = KvStore::open(text("store"), vec![(4, one), (9, two)]).unwrap();
    assert_eq!(store.generation(), 9);
    assert_eq!(store.generations(), vec![4, 9]);
    assert_eq!(store.get(text("a")).unwrap(), Some(text("2")));
    assert_eq!(store.get(text("b")).unwrap(), Some(text("3")));
    assert_eq!(store.stale_bytes(), 17);
    assert!(store.take_changes().is_empty());
    let at = store.locate("a").unwrap();
    assert_eq!((at.generation, at.offset, at.length), (9, 0, 17));
    let at = store.locate("b").unwrap();
    assert_eq!((at.generation, at.offset, at.length), (9, 17, 17));
    store.set(text("c"), text("4")).unwrap();
    let at = store.locate("c").unwrap();
    assert_eq!((at.generation, at.offset, at.length), (9, 34, 17));
}

#[test]
fn open_counts_stale_bytes() {
    let bytes = b"{\"Set\":[\"k\",\"1\"]}{\"Set\":[\"k\",\"2\"]}{\"Remove\":\"k\"}".to_vec();
    let mut store = KvStore::open(text("store"), vec![(1, bytes)]).unwrap();
    assert_eq!(store.stale_bytes(), 17 + 17 + 14);
    assert_eq!(store.get(text("k")).unwrap(), None);
    assert!(store.locate("k").is_none());
}

#[test]
fn open_accepts_whitespace_between_commands() {
    let bytes = b"\n {\"Set\" : [ \"a\" , \"1\" ] }\n\t{ \"Remove\":\"b\" }\r\n".to_vec();
    let mut store = KvStore::open(text("store"), vec![(0, bytes)]).unwrap();
    assert_eq!(store.get(text("a")).unwrap(), Some(text("1")));
    let at = store.locate("a").unwrap();
    assert_eq!((at.generation, at.offset, at.length), (0, 0, 26));
    assert_eq!(store.stale_bytes(), 18);
    store.set(text("c"), text("2")).unwrap();
    assert_eq!(store.locate("c").unwrap().offset, 46);
    assert_eq!(store.get(text("c")).unwrap(), Some(text("2")));
    let files = store.files();
    let mut again = KvStore::open(text("store"), files).unwrap();
    assert_eq!(again.get(text("a")).unwrap(), Some(text("1")));
    assert_eq!(again.get(text("c")).unwrap(), Some(text("2")));
}

#[test]
fn set_counts_the_replaced_record_as_stale() {
    let mut store = fresh();
    store.set(text("k"), text("1")).unwrap();
    assert_eq!(store.stale_bytes(), 0);
    store.set(text("k"), text("22")).unwrap();
    assert_eq!(store.stale_bytes(), 17);
    store.set(text("k"), text("3")).unwrap();
    assert_eq!(store.stale_bytes(), 17 + 18);
    assert_eq!(
        store.files(),
        vec![(0u64, b"{\"Set\":[\"k\",\"1\"]}{\"Set\":[\"k\",\"22\"]}{\"Set\":[\"k\",\"3\"]}".to_vec())]
    );
}

#[test]
fn remove_counts_both_commands_as_stale() {
    let mut store = fresh();
    store.set(text("k"), text("1")).unwrap();
    store.remove(text("k")).unwrap();
    assert_eq!(store.stale_bytes(), 17 + 14);
    assert_eq!(store.get(text("k")).unwrap(), None);
    assert!(matches!(store.remove(text("k")), Err(KvError::KeyNotFound)));
    assert_eq!(store.stale_bytes(), 17 + 14);
    assert_eq!(store.files(), vec![(0u64, b"{\"Set\":[\"k\",\"1\"]}{\"Remove\":\"k\"}".to_vec())]);
}

#[test]
fn get_returns_what_was_set_for_every_key() {
    let mut store = fresh();
    for i in 0..200 {
        store.set(format!("key{}", i), format!("value{}", i)).unwrap();
    }
    for i in 0..200 {
        assert_eq!(store.get(format!("key{}", i)).unwrap(), Some(format!("value{}", i)));
    }
    assert_eq!(store.get(text("key200")).unwrap(), None);
}

#[test]
fn keys_and_values_may_hold_any_text() {
    let mut store = fresh();
    let key = text("a \"quoted\" \\ key\n\twith \u{1} and \u{e9}\u{4e16}\u{1f600}");
    let value = text("{\"Set\":[\"x\",\"y\"]}");
    store.set(key.clone(), value.clone()).unwrap();
    store.set(text(""), text("")).unwrap();
    assert_eq!(store.get(key.clone()).unwrap(), Some(value.clone()));
    assert_eq!(store.get(text("")).unwrap(), Some(text("")));
    let files = store.files();
    let mut again = KvStore::open(text("store"), files).unwrap();
    assert_eq!(again.get(key).unwrap(), Some(value));
    assert_eq!(again.get(text("")).unwrap(), Some(text("")));
    assert_eq!(again.get(text("x")).unwrap(), None);
}

#[test]
fn recorded_changes_rebuild_the_image() {
    let mut store = KvStore::open_with(text("store"), Vec::new(), 40).unwrap();
    let mut disk: Vec<(u64, Vec<u8>)> = Vec::new();
    carry_out(&mut disk, store.take_changes());
    assert_eq!(disk, store.files());
    for i in 0..50 {
        store.set(format!("k{}", i % 7), format!("{}", i)).unwrap();
        if i % 5 == 0 {
            store.remove(format!("k{}", i % 7)).unwrap();
        }
        carry_out(&mut disk, store.take_changes());
        assert_eq!(disk, store.files());
    }
    assert!(store.generation() > 0);
    let mut again = KvStore::open_with(text("store"), disk, 40).unwrap();
    for i in 0..7 {
        assert_eq!(again.get(format!("k{}", i)).unwrap(), store.get(format!("k{}", i)).unwrap());
    }
    assert_eq!(again.generation(), store.generation());
}

#[test]
fn compaction_keeps_the_state_and_shrinks_the_log() {
    let mut store = KvStore::open_with(text("store"), Vec::new(), 1000000).unwrap();
    for i in 0..30 {
        store.set(format!("k{}", i % 10), format!("v{}", i)).unwrap();
    }
    store.remove(text("k3")).unwrap();
    store.take_changes();
    let before = total(&store.files());
    let stale = store.stale_bytes() as usize;
    assert!(stale > 0);
    store.compact();
    let after = total(&store.files());
    assert!(after + stale <= before);
    assert_eq!(store.stale_bytes(), 0);
    assert_eq!(store.generation(), 1);
    assert_eq!(store.generations(), vec![1]);
    for i in 0..10 {
        let expected = if i == 3 { None } else { Some(format!("v{}", 20 + i)) };
        assert_eq!(store.get(format!("k{}", i)).unwrap(), expected);
    }
    let changes = store.take_changes();
    assert_eq!(changes.len(), 3);
    assert!(matches!(changes[0], Change::Create(1)));
    assert!(matches!(&changes[1], Change::Append(1, bytes) if bytes.len() == after));
    assert!(matches!(changes[2], Change::Delete(0)));
    store.set(text("k3"), text("back")).unwrap();
    assert_eq!(store.get(text("k3")).unwrap(), Some(text("back")));
    assert_eq!(store.locate("k3").unwrap().offset as usize, after);
}

#[test]
fn compaction_copies_each_command_exactly() {
    let one = b"{\"Set\":[\"a\",\"1\"]}{\"Set\":[\"b\",\"2\"]}{\"Set\":[\"a\",\"3\"]}".to_vec();
    let mut store = KvStore::open(text("store"), vec![(5, one)]).unwrap();
    store.compact();
    let files = store.files();
    assert_eq!(files.len(), 1);
    assert_eq!(files[0].0, 6);
    assert_eq!(files[0].1.len(), 34);
    let a = store.locate("a").unwrap();
    let b = store.locate("b").unwrap();
    assert_eq!((a.generation, a.length), (6, 17));
    assert_eq!((b.generation, b.length), (6, 17));
    assert_eq!(a.offset + b.offset, 17);
    let cut = &files[0].1[a.offset as usize..(a.offset + a.length) as usize];
    assert_eq!(cut, b"{\"Set\":[\"a\",\"3\"]}");
}

#[test]
fn set_compacts_when_stale_bytes_pass_the_threshold() {
    let mut store = KvStore::open_with(text("store"), Vec::new(), 20).unwrap();
    store.set(text("k"), text("1")).unwrap();
    store.set(text("k"), text("2")).unwrap();
    assert_eq!(store.generation(), 0);
    assert_eq!(store.stale_bytes(), 17);
    store.set(text("k"), text("3")).unwrap();
    assert_eq!(store.generation(), 1);
    assert_eq!(store.stale_bytes(), 0);
    assert_eq!(store.files(), vec![(1u64, b"{\"Set\":[\"k\",\"3\"]}".to_vec())]);
    assert_eq!(store.get(text("k")).unwrap(), Some(text("3")));
}

#[test]
fn compaction_stops_at_the_largest_generation() {
    let one = b"{\"Set\":[\"a\",\"1\"]}{\"Set\":[\"a\",\"2\"]}".to_vec();
    let mut store = KvStore::open_with(text("store"), vec![(u64::MAX, one.clone())], 0).unwrap();
    store.compact();
    assert_eq!(store.generation(), u64::MAX);
    assert_eq!(store.stale_bytes(), 17);
    assert_eq!(store.files(), vec![(u64::MAX, one)]);
    store.set(text("a"), text("3")).unwrap();
    assert_eq!(store.get(text("a")).unwrap(), Some(text("3")));
    assert_eq!(store.stale_bytes(), 34);
}

#[test]
fn index_points_at_the_set_command_of_each_key() {
    let mut store = KvStore::open_with(text("store"), Vec::new(), 100).unwrap();
    for i in 0..40 {
        store.set(format!("k{}", i % 6), format!("v{}", i)).unwrap();
    }
    let files = store.files();
    for i in 0..6 {
        let key = format!("k{}", i);
        let at = store.locate(&key).unwrap();
        let file = files.iter().find(|file| file.0 == at.generation).unwrap();
        let cut = &file.1[at.offset as usize..(at.offset + at.length) as usize];
        let value = store.get(key.clone()).unwrap().unwrap();
        match decode(cut).unwrap() {
            KvAction::Put(k, v) => {
                assert_eq!(k, key);
                assert_eq!(v, value);
            }
            KvAction::Remove(_) => panic!("the index points at a Remove command"),
        }
    }
}

#[test]
fn errors_come_from_the_outside_errors() {
    let io = std::io::Error::new(std::io::ErrorKind::Other, "disk");
    assert!(matches!(KvError::from(io), KvError::Io(_)));
    let json = serde_json::from_str::<String>("x").unwrap_err();
    assert!(matches!(KvError::from(json), KvError::Serde(_)));
    let pattern = glob::Pattern::new("[").unwrap_err();
    assert!(matches!(KvError::from(pattern), KvError::PatternError(_)));
}

#[test]
fn compaction_writes_the_fresh_segment_before_it_deletes() {
    let one = b"{\"Set\":[\"a\",\"1\"]}{\"Set\":[\"b\",\"2\"]}".to_vec();
    let three = b"{\"Set\":[\"a\",\"3\"]}".to_vec();
    let mut store = KvStore::open_with(text("store"), vec![(1, one), (3, three)], 20).unwrap();
    assert_eq!(store.stale_bytes(), 17);
    assert!(store.take_changes().is_empty());
    assert!(store.set(text("b"), text("4")).is_ok());
    assert_eq!(store.generations(), vec![4]);
    let packed = store.files()[0].1.clone();
    assert_eq!(packed.len(), 34);
    let changes = store.take_changes();
    assert_eq!(changes.len(), 5);
    assert!(matches!(&changes[0], Change::Append(3, bytes) if bytes == b"{\"Set\":[\"b\",\"4\"]}"));
    assert!(matches!(changes[1], Change::Create(4)));
    assert!(matches!(&changes[2], Change::Append(4, bytes) if *bytes == packed));
    assert!(matches!(changes[3], Change::Delete(1)));
    assert!(matches!(changes[4], Change::Delete(3)));
    assert_eq!(store.get(text("a")).unwrap(), Some(text("3")));
    assert_eq!(store.get(text("b")).unwrap(), Some(text("4")));
}

#[test]
fn every_step_of_compaction_leaves_a_log_with_the_same_state() {
    let one = b"{\"Set\":[\"a\",\"1\"]}{\"Set\":[\"b\",\"2\"]}{\"Set\":[\"c\",\"0\"]}".to_vec();
    let two = b"{\"Remove\":\"c\"}{\"Set\":[\"a\",\"3\"]}".to_vec();
    let mut disk = vec![(1u64, one), (2u64, two)];
    let mut store = KvStore::open(text("store"), disk.clone()).unwrap();
    store.compact();
    for change in store.take_changes() {
        carry_out(&mut disk, vec![change]);
        let mut seen = KvStore::open(text("store"), disk.clone()).unwrap();
        assert_eq!(seen.get(text("a")).unwrap(), Some(text("3")));
        assert_eq!(seen.get(text("b")).unwrap(), Some(text("2")));
        assert_eq!(seen.get(text("c")).unwrap(), None);
    }
    assert_eq!(disk, store.files());
    assert_eq!(disk.len(), 1);
}

#[test]
fn set_on_a_reopened_store_appends_to_the_active_segment() {
    let zero = b"{\"Set\":[\"a\",\"1\"]}".to_vec();
    let mut store = KvStore::open(text("store"), vec![(0, zero)]).unwrap();
    assert!(matches!(store.set(text("b"), text("2")), Ok(())));
    assert_eq!(store.files(), vec![(0u64, b"{\"Set\":[\"a\",\"1\"]}{\"Set\":[\"b\",\"2\"]}".to_vec())]);
    let at = store.locate("b").unwrap();
    assert_eq!((at.generation, at.offset, at.length), (0, 17, 17));
    assert_eq!(store.get(text("b")).unwrap(), Some(text("2")));
    assert_eq!(store.get(text("a")).unwrap(), Some(text("1")));
    let changes = store.take_changes();
    assert_eq!(changes.len(), 1);
    assert!(matches!(&changes[0], Change::Append(0, bytes) if bytes == b"{\"Set\":[\"b\",\"2\"]}"));
}

#[test]
fn remove_after_set_succeeds_and_counts_as_open_does() {
    let mut store = fresh();
    assert!(matches!(store.set(text("a"), text("1")), Ok(())));
    assert!(matches!(store.remove(text("a")), Ok(())));
    let files = store.files();
    assert_eq!(files, vec![(0u64, b"{\"Set\":[\"a\",\"1\"]}{\"Remove\":\"a\"}".to_vec())]);
    assert_eq!(files[0].1.len(), 31);
    assert!(store.locate("a").is_none());
    assert_eq!(store.stale_bytes(), 31);
    let again = KvStore::open(text("store"), files).unwrap();
    assert_eq!(again.stale_bytes(), 31);
    let changes = store.take_changes();
    assert_eq!(changes.len(), 3);
    assert!(matches!(&changes[2], Change::Append(0, bytes) if bytes == b"{\"Remove\":\"a\"}"));
    assert!(matches!(store.remove(text("a")), Err(KvError::KeyNotFound)));
    assert!(store.take_changes().is_empty());
}
