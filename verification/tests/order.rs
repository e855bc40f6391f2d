use filepressor::order::{name_le, sort_by_name};

#[test]
fn name_order_is_by_characters() {
    assert!(name_le("a", "b"));
    assert!(name_le("a", "a"));
    assert!(name_le("a", "a/b"));
    assert!(!name_le("a/b", "a"));
    assert!(name_le("B", "a"));
    assert!(name_le("", "x"));
    assert!(!name_le("x", ""));
    assert!(name_le("dir/a.txt", "dir/sub"));
}

#[test]
fn sorting_entries_by_name() {
    let v = vec![
        (3u32, "root/sub/blob.bin".to_string(), false),
        (1u32, "root".to_string(), true),
        (4u32, "root/hello.txt".to_string(), false),
        (2u32, "root/sub".to_string(), true),
    ];
    let s = sort_by_name(v);
    let names: Vec<&str> = s.iter().map(|e| e.1.as_str()).collect();
    assert_eq!(names, vec!["root", "root/hello.txt", "root/sub", "root/sub/blob.bin"]);
    let ids: Vec<u32> = s.iter().map(|e| e.0).collect();
    assert_eq!(ids, vec![1, 4, 2, 3]);
}

#[test]
fn sorting_keeps_equal_names_in_order() {
    let v = vec![
        (1u32, "b".to_string(), false),
        (2u32, "a".to_string(), false),
        (3u32, "b".to_string(), true),
        (4u32, "a".to_string(), true),
        (5u32, "b".to_string(), false),
    ];
    let s = sort_by_name(v);
    let ids: Vec<u32> = s.iter().map(|e| e.0).collect();
    assert_eq!(ids, vec![2, 4, 1, 3, 5]);
}

#[test]
fn sorting_small_inputs() {
    let empty: Vec<(u8, String, bool)> = Vec::new();
    assert!(sort_by_name(empty).is_empty());
    let one = vec![(7u8, "x".to_string(), false)];
    assert_eq!(sort_by_name(one), vec![(7u8, "x".to_string(), false)]);
}
