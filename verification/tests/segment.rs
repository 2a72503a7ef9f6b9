use kvs::index::{KvIndex, KvIndexRecord};
use kvs::kvreader::{KvReader, SeekFrom};
use kvs::kvwriter::KvWriter;

fn record(generation: u64, offset: u64, length: u64) -> KvIndexRecord {
    KvIndexRecord { generation, offset, length }
}

#[test]
fn writer_position_advances_by_what_is_written() {
    let mut writer = KvWriter::new(100);
    assert_eq!(writer.pos(), 100);
    assert_eq!(writer.write(b"hello"), 5);
    assert_eq!(writer.pos(), 105);
    assert_eq!(writer.write(b""), 0);
    assert_eq!(writer.write(b", world"), 7);
    assert_eq!(writer.pos(), 112);
    assert_eq!(writer.flush(), b"hello, world");
    assert_eq!(writer.pos(), 112);
    assert_eq!(writer.flush(), b"");
    assert_eq!(writer.write(b"!"), 1);
    assert_eq!(writer.flush(), b"!");
    assert_eq!(writer.pos(), 113);
}

#[test]
fn writer_stops_at_the_largest_offset() {
    let mut writer = KvWriter::new(u64::MAX - 3);
    assert_eq!(writer.write(b"abcdef"), 3);
    assert_eq!(writer.pos(), u64::MAX);
    assert_eq!(writer.write(b"x"), 0);
    assert_eq!(writer.flush(), b"abc");
}

#[test]
fn reader_reads_from_the_position() {
    let mut reader = KvReader::new(b"0123456789".to_vec());
    assert_eq!(reader.pos(), 0);
    assert_eq!(reader.len(), 10);
    assert_eq!(reader.read(3), b"012");
    assert_eq!(reader.pos(), 3);
    assert_eq!(reader.seek(SeekFrom::Start(7)), Some(7));
    assert_eq!(reader.read(2), b"78");
    assert_eq!(reader.read(5), b"9");
    assert_eq!(reader.pos(), 10);
    assert_eq!(reader.read(5), b"");
    assert_eq!(reader.pos(), 10);
}

#[test]
fn reader_seeks_from_start_end_and_position() {
    let mut reader = KvReader::new(b"0123456789".to_vec());
    assert_eq!(reader.seek(SeekFrom::End(-4)), Some(6));
    assert_eq!(reader.read(10), b"6789");
    assert_eq!(reader.seek(SeekFrom::Current(-8)), Some(2));
    assert_eq!(reader.seek(SeekFrom::Current(3)), Some(5));
    assert_eq!(reader.read(1), b"5");
    assert_eq!(reader.seek(SeekFrom::Current(-7)), None);
    assert_eq!(reader.pos(), 6);
    assert_eq!(reader.seek(SeekFrom::End(-11)), None);
    assert_eq!(reader.seek(SeekFrom::End(5)), Some(15));
    assert_eq!(reader.read(1), b"");
    assert_eq!(reader.pos(), 15);
    assert_eq!(reader.seek(SeekFrom::Start(u64::MAX)), Some(u64::MAX));
    assert_eq!(reader.seek(SeekFrom::Current(1)), None);
    assert_eq!(reader.pos(), u64::MAX);
}

#[test]
fn reader_sees_what_the_writer_flushed() {
    let mut reader = KvReader::new(b"abc".to_vec());
    let mut writer = KvWriter::new(reader.len() as u64);
    writer.write(b"def");
    reader.extend(writer.flush());
    assert_eq!(reader.len(), 6);
    assert_eq!(reader.seek(SeekFrom::Start(2)), Some(2));
    assert_eq!(reader.read(3), b"cde");
}

#[test]
fn index_binds_and_unbinds_keys() {
    let mut index = KvIndex::new();
    assert_eq!(index.len(), 0);
    assert_eq!(index.insert("a".to_string(), record(0, 0, 10)), None);
    assert_eq!(index.insert("b".to_string(), record(0, 10, 20)), None);
    assert_eq!(index.insert("c".to_string(), record(1, 0, 5)), None);
    assert_eq!(index.insert("a".to_string(), record(1, 5, 7)), Some(record(0, 0, 10)));
    assert_eq!(index.len(), 3);
    assert_eq!(index.get("a"), Some(record(1, 5, 7)));
    assert_eq!(index.get("b"), Some(record(0, 10, 20)));
    assert_eq!(index.get("d"), None);
    assert!(index.contains_key("c"));
    assert!(!index.contains_key("d"));
    assert_eq!(index.remove("a"), Some(record(1, 5, 7)));
    assert_eq!(index.remove("a"), None);
    assert_eq!(index.len(), 2);
    assert_eq!(index.get("a"), None);
    assert_eq!(index.get("b"), Some(record(0, 10, 20)));
    assert_eq!(index.get("c"), Some(record(1, 0, 5)));
    assert_eq!(index.remove("c"), Some(record(1, 0, 5)));
    assert_eq!(index.remove("b"), Some(record(0, 10, 20)));
    assert_eq!(index.len(), 0);
}

#[test]
fn index_is_walked_by_position() {
    let mut index = KvIndex::new();
    for i in 0..10u64 {
        index.insert(format!("k{}", i), record(0, i, 1));
    }
    index.remove("k0");
    index.remove("k5");
    index.set_record_at(0, record(9, 9, 9));
    assert_eq!(index.len(), 8);
    let mut seen: Vec<String> = Vec::new();
    for at in 0..index.len() {
        let key = index.key_at(at).clone();
        assert_eq!(index.get(&key), Some(index.record_at(at)));
        seen.push(key);
    }
    seen.sort();
    assert_eq!(seen, vec!["k1", "k2", "k3", "k4", "k6", "k7", "k8", "k9"]);
    assert_eq!(index.record_at(0), record(9, 9, 9));
}
