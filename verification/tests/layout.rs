use kvs::layout::{
    active_generations, decimal_text, generation_path, glob_pattern, parse_generation,
    path_generation,
};

fn paths(list: &[&str]) -> Vec<String> {
    list.iter().map(|path| path.to_string()).collect()
}

#[test]
fn segment_files_are_named_by_generation() {
    assert_eq!(generation_path("dir", 0), "dir/0.db");
    assert_eq!(generation_path("/var/lib/store", 42), "/var/lib/store/42.db");
    assert_eq!(generation_path("dir/", 7), "dir/7.db");
    assert_eq!(generation_path("", 7), "7.db");
    assert_eq!(generation_path("/", 7), "/7.db");
    assert_eq!(generation_path("d\u{e9}p\u{f4}t", u64::MAX), "d\u{e9}p\u{f4}t/18446744073709551615.db");
}

#[test]
fn search_pattern_names_the_db_files() {
    assert_eq!(glob_pattern("dir"), "dir/*.db");
    assert_eq!(glob_pattern(""), "/*.db");
}

#[test]
fn numbers_are_written_in_base_ten() {
    assert_eq!(decimal_text(0), "0");
    assert_eq!(decimal_text(9), "9");
    assert_eq!(decimal_text(10), "10");
    assert_eq!(decimal_text(1234567890), "1234567890");
    assert_eq!(decimal_text(u64::MAX), "18446744073709551615");
}

#[test]
fn generations_are_read_from_digits() {
    assert_eq!(parse_generation("0"), Some(0));
    assert_eq!(parse_generation("42"), Some(42));
    assert_eq!(parse_generation("007"), Some(7));
    assert_eq!(parse_generation("18446744073709551615"), Some(u64::MAX));
    assert_eq!(parse_generation("18446744073709551616"), None);
    assert_eq!(parse_generation("99999999999999999999999"), None);
    assert_eq!(parse_generation(""), None);
    assert_eq!(parse_generation("+1"), None);
    assert_eq!(parse_generation("-1"), None);
    assert_eq!(parse_generation("1a"), None);
    assert_eq!(parse_generation(" 1"), None);
    assert_eq!(parse_generation("\u{661}\u{662}"), None);
}

#[test]
fn written_numbers_are_read_back() {
    for n in [0u64, 1, 9, 10, 99, 100, 65535, 4294967296, u64::MAX] {
        assert_eq!(parse_generation(&decimal_text(n)), Some(n));
        assert_eq!(path_generation(&generation_path("dir", n)), Some(n));
    }
}

#[test]
fn paths_of_segment_files_name_their_generation() {
    assert_eq!(path_generation("dir/12.db"), Some(12));
    assert_eq!(path_generation("/a/b.c/0.db"), Some(0));
    assert_eq!(path_generation("dir/012.db"), Some(12));
    assert_eq!(path_generation("12.db"), None);
    assert_eq!(path_generation("dir/12.dbx"), None);
    assert_eq!(path_generation("dir/12xdb"), None);
    assert_eq!(path_generation("dir/a12.db"), None);
    assert_eq!(path_generation("dir/.db"), None);
    assert_eq!(path_generation("dir/12.db/"), None);
    assert_eq!(path_generation("dir/99999999999999999999999.db"), None);
    assert_eq!(path_generation("dir/\u{661}\u{662}.db"), None);
}

#[test]
fn generations_are_listed_in_ascending_order() {
    let found = active_generations(&paths(&[
        "dir/10.db",
        "dir/2.db",
        "dir/notes.db",
        "dir/1.db",
        "dir/02.db",
        "dir/3.txt",
        "dir/18446744073709551615.db",
    ]));
    assert_eq!(found, vec![1, 2, 10, u64::MAX]);
    assert_eq!(active_generations(&Vec::new()), Vec::<u64>::new());
    assert_eq!(active_generations(&paths(&["dir/readme.md"])), Vec::<u64>::new());
}
