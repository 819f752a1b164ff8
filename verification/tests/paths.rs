//! How paths fall apart into names.

use lore_revision::direct_write::hash_path;
use lore_revision::path::{split_path, SEPARATOR};

fn names(path: &str) -> Vec<String> {
    split_path(path)
}

#[test]
fn a_path_is_split_at_separators() {
    assert_eq!(SEPARATOR, '/');
    assert_eq!(names("a/b/c.txt"), vec!["a", "b", "c.txt"]);
    assert_eq!(names("single"), vec!["single"]);
}

#[test]
fn empty_pieces_are_dropped() {
    assert_eq!(names("/a/b"), vec!["a", "b"]);
    assert_eq!(names("a/b/"), vec!["a", "b"]);
    assert_eq!(names("//a///b//"), vec!["a", "b"]);
}

#[test]
fn a_path_of_separators_has_no_names() {
    let none: Vec<String> = Vec::new();
    assert_eq!(names(""), none);
    assert_eq!(names("/"), none);
    assert_eq!(names("///"), none);
}

#[test]
fn names_may_hold_any_other_character() {
    assert_eq!(names("ä ö/\u{1f600}.txt/..\\x"), vec!["ä ö", "\u{1f600}.txt", "..\\x"]);
    assert_eq!(names("./../a"), vec![".", "..", "a"]);
}

#[test]
fn joined_names_come_back() {
    let parts: Vec<String> = vec!["x".to_string(), "yy".to_string(), "z z".to_string()];
    assert_eq!(names(&parts.join("/")), parts);
}

#[test]
fn a_joined_path_has_the_names_of_both() {
    let mut both = names("a/b");
    both.extend(names("c//d"));
    assert_eq!(names("a/b/c//d"), both);
}

#[test]
fn every_name_is_hashed() {
    let length = |name: &str| name.len() as u64;
    let components = hash_path(&length, "/a/bcd//ef");
    let found: Vec<(String, u64)> =
        components.into_iter().map(|c| (c.name, c.name_hash)).collect();
    assert_eq!(
        found,
        vec![("a".to_string(), 1), ("bcd".to_string(), 3), ("ef".to_string(), 2)]
    );
}
