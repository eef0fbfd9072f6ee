//! Tables by name and by path.

use jam::table::{NameMap, PathMap};

#[test]
fn names_are_kept_in_order() {
    let mut table: NameMap<u32> = NameMap::new();
    assert_eq!(table.len(), 0);
    for (name, value) in [("c2", 2), ("c10", 10), ("a", 1), ("c2", 22), ("\u{e9}", 7)] {
        table.insert(name.to_string(), value);
    }
    assert_eq!(table.len(), 4);
    let names: Vec<&str> = (0..4).map(|i| table.name_at(i).as_str()).collect();
    assert_eq!(names, vec!["a", "c10", "c2", "\u{e9}"]);
    let values: Vec<u32> = (0..4).map(|i| *table.value_at(i)).collect();
    assert_eq!(values, vec![1, 10, 22, 7]);
    assert_eq!(table.get("c2"), Some(&22));
    assert_eq!(table.get("c3"), None);
    assert!(table.contains_key("a"));
    table.remove("c10");
    table.remove("nothing");
    assert_eq!(table.len(), 3);
    assert!(!table.contains_key("c10"));
    assert_eq!(table.get("c2"), Some(&22));
}

#[test]
fn paths_are_told_apart_by_their_parts() {
    let mut table: PathMap<u32> = PathMap::new();
    table.insert("/a/b", 1);
    table.insert("a/b", 2);
    table.insert("/a//b/.", 3);
    assert_eq!(table.get("/a/b/"), Some(&3));
    assert_eq!(table.get("a/./b"), Some(&2));
    assert_eq!(table.get("/a"), None);
}
