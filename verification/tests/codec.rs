use kvs::command::{
    decode, encode, frame_put, frame_remove, read_entry, tag_named, KvAction, Tag,
};
use kvs::json::{find_literal_end, read_mark, read_text, skip_spaces};
use kvs::KvError;

fn set(key: &str, value: &str) -> KvAction {
    KvAction::Put(key.to_string(), value.to_string())
}

#[test]
fn set_is_written_in_its_wire_form() {
    assert_eq!(encode(&set("key", "value")).unwrap(), b"{\"Set\":[\"key\",\"value\"]}");
    assert_eq!(encode(&set("", "")).unwrap(), b"{\"Set\":[\"\",\"\"]}");
}

#[test]
fn remove_is_written_in_its_wire_form() {
    let bytes = encode(&KvAction::Remove("key".to_string())).unwrap();
    assert_eq!(bytes, b"{\"Remove\":\"key\"}");
}

#[test]
fn strings_are_escaped_as_json() {
    let bytes = encode(&set("a\"b\\c", "line\nbreak\ttab\u{8}\u{c}\r\u{1}\u{7f}\u{e9}")).unwrap();
    assert_eq!(
        bytes,
        "{\"Set\":[\"a\\\"b\\\\c\",\"line\\nbreak\\ttab\\b\\f\\r\\u0001\u{7f}\u{e9}\"]}".as_bytes()
    );
}

#[test]
fn written_commands_read_back() {
    let commands = vec![
        set("k", "v"),
        set("a\"b\\c\n", "\u{0}\u{1f}\u{1f600}"),
        KvAction::Remove("\"".to_string()),
        set("{\"Set\":[\"a\",\"b\"]}", "\\\""),
    ];
    for command in commands {
        let bytes = encode(&command).unwrap();
        let back = decode(&bytes).unwrap();
        match (command, back) {
            (KvAction::Put(k1, v1), KvAction::Put(k2, v2)) => {
                assert_eq!(k1, k2);
                assert_eq!(v1, v2);
            }
            (KvAction::Remove(k1), KvAction::Remove(k2)) => assert_eq!(k1, k2),
            _ => panic!("another command came back"),
        }
    }
}

#[test]
fn decode_reads_escapes_and_whitespace() {
    let action = decode(b" {\n\"\\u0053et\" :\t[\"\\u0041\\n\" ,\r\"b\\/c\"] } \n").unwrap();
    assert!(matches!(action, KvAction::Put(k, v) if k == "A\n" && v == "b/c"));
    let action = decode(b"{\"Remove\"  :  \"k\"  }").unwrap();
    assert!(matches!(action, KvAction::Remove(k) if k == "k"));
}

#[test]
fn decode_rejects_what_is_no_command() {
    let damaged: Vec<&[u8]> = vec![
        b"",
        b"   ",
        b"x",
        b"{",
        b"{}",
        b"[\"Set\",\"a\",\"b\"]",
        b"\"Set\"",
        b"{\"Set\":[\"a\",\"b\"]",
        b"{\"Set\":[\"a\",\"b\"}",
        b"{\"Set\":[\"a\"]}",
        b"{\"Set\":[\"a\",\"b\",\"c\"]}",
        b"{\"Set\":[\"a\",\"b\",]}",
        b"{\"Set\":\"a\"}",
        b"{\"Set\":[\"a\",1]}",
        b"{\"Remove\":[\"a\"]}",
        b"{\"Remove\":\"a\",\"Remove\":\"b\"}",
        b"{\"Get\":\"a\"}",
        b"{\"set\":[\"a\",\"b\"]}",
        b"{\"Se\\t\":[\"a\",\"b\"]}",
        b"{\"Set\" [\"a\",\"b\"]}",
        b"{\"Set\":[\"a\",\"b",
        b"{\"Set\":[\"a\",\"b\\",
        b"{\"Set\":[\"a\",\"b\"]}x",
        b"{\"Set\":[\"a\",\"b\"]}{\"Remove\":\"a\"}",
    ];
    for bytes in damaged {
        assert!(matches!(decode(bytes), Err(KvError::UnexpectedAction)), "{:?}", bytes);
    }
}

#[test]
fn decode_hands_on_the_error_of_a_bad_string() {
    let bad: Vec<&[u8]> = vec![
        b"{\"Set\":[\"a\",\"\\q\"]}",
        b"{\"Set\":[\"a\\u12\",\"b\"]}",
        b"{\"Set\":[\"a\",\"line\nbreak\"]}",
        b"{\"Remove\":\"\xff\"}",
        b"{\"\\ud800\":\"a\"}",
    ];
    for bytes in bad {
        assert!(matches!(decode(bytes), Err(KvError::Serde(_))), "{:?}", bytes);
    }
}

#[test]
fn read_entry_walks_a_segment() {
    let bytes = b"{\"Set\":[\"a\",\"1\"]} {\"Remove\":\"a\"}\n";
    let (first, next) = read_entry(bytes, 0).unwrap().unwrap();
    assert!(matches!(first, KvAction::Put(k, v) if k == "a" && v == "1"));
    assert_eq!(next, 17);
    let (second, next) = read_entry(bytes, next).unwrap().unwrap();
    assert!(matches!(second, KvAction::Remove(k) if k == "a"));
    assert_eq!(next, 32);
    assert!(read_entry(bytes, next).unwrap().is_none());
    assert!(read_entry(bytes, bytes.len()).unwrap().is_none());
    assert!(matches!(read_entry(bytes, 1), Err(KvError::UnexpectedAction)));
}

#[test]
fn marks_and_literals_are_found() {
    let bytes = b"  \t\r\n:\"a\\\"b\" x";
    assert_eq!(skip_spaces(bytes, 0), 5);
    assert_eq!(skip_spaces(bytes, 5), 5);
    assert_eq!(skip_spaces(bytes, bytes.len()), bytes.len());
    assert_eq!(read_mark(bytes, 0, b':'), Some(6));
    assert_eq!(read_mark(bytes, 0, b','), None);
    assert_eq!(find_literal_end(bytes, 7), Some(12));
    assert_eq!(find_literal_end(bytes, 12), None);
    assert_eq!(find_literal_end(b"ab\\", 0), None);
    let (found, end) = read_text(bytes, 6).unwrap();
    assert_eq!(found, "a\"b");
    assert_eq!(end, 12);
    assert!(matches!(read_text(bytes, 0), Err(KvError::UnexpectedAction)));
    assert!(matches!(read_text(bytes, 12), Err(KvError::UnexpectedAction)));
}

#[test]
fn frames_stand_around_the_literals() {
    let framed = frame_put(b"\"Set\"".to_vec(), b"\"k\"".to_vec(), b"\"v\"".to_vec());
    assert_eq!(framed, b"{\"Set\":[\"k\",\"v\"]}");
    assert_eq!(frame_put(Vec::new(), Vec::new(), Vec::new()), b"{:[,]}");
    let framed = frame_remove(b"\"Remove\"".to_vec(), b"\"k\"".to_vec());
    assert_eq!(framed, b"{\"Remove\":\"k\"}");
    assert_eq!(frame_remove(b"a".to_vec(), b"bc".to_vec()), b"{a:bc}");
}

#[test]
fn names_stand_for_the_two_kinds() {
    assert_eq!(tag_named("Set"), Some(Tag::Put));
    assert_eq!(tag_named("Remove"), Some(Tag::Remove));
    assert_eq!(tag_named("set"), None);
    assert_eq!(tag_named("Put"), None);
    assert_eq!(tag_named(""), None);
    assert_eq!(tag_named("Set "), None);
}
