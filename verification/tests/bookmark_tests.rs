//! Tests of the bookmark store.

use navigate::bookmarks::Bookmarks;

fn store(pairs: &[(&str, &str)]) -> Bookmarks {
    let mut b = Bookmarks::new();
    for (n, p) in pairs {
        b.insert_entry(n.to_string(), p.to_string());
    }
    b
}

#[test]
fn entries_kept_in_name_order() {
    let b = store(&[("zeta", "/z"), ("alpha", "/a"), ("mid", "/m")]);
    let names: Vec<&str> = b.entries().iter().map(|e| e.name.as_str()).collect();
    assert_eq!(names, vec!["alpha", "mid", "zeta"]);
}

#[test]
fn insert_replaces_existing_name() {
    let mut b = store(&[("a", "/1"), ("b", "/2")]);
    b.insert_entry("a".to_string(), "/other".to_string());
    assert_eq!(b.len(), 2);
    assert_eq!(b.get_path_by_name("a").unwrap(), "/other");
}

#[test]
fn get_path_by_name_reports_missing_names() {
    let b = store(&[("home", "/home/someone")]);
    assert_eq!(b.get_path_by_name("home").unwrap(), "/home/someone");
    let err = b.get_path_by_name("nope").unwrap_err();
    assert!(err.contains("bookmark with name `nope` does not exist"));
}

#[test]
fn add_bookmark_checks_duplicates_then_validity() {
    let mut b = store(&[("a", "/1")]);
    let err = b.add_bookmark(&"a".to_string(), &"/x".to_string(), true).unwrap_err();
    assert!(err.contains("already exists"));
    let err = b.add_bookmark(&"b".to_string(), &"/x".to_string(), false).unwrap_err();
    assert!(err.contains("does not point to a valid directory"));
    assert_eq!(b.len(), 1);
    b.add_bookmark(&"b".to_string(), &"/x".to_string(), true).unwrap();
    assert_eq!(b.get_path_by_name("b").unwrap(), "/x");
}

#[test]
fn remove_bookmark_by_name() {
    let mut b = store(&[("a", "/1"), ("b", "/2")]);
    b.remove_bookmark(&"a".to_string()).unwrap();
    assert_eq!(b.len(), 1);
    assert!(b.get_path_by_name("a").is_err());
    let err = b.remove_bookmark(&"a".to_string()).unwrap_err();
    assert!(err.contains("does not exist"));
}

#[test]
fn remove_invalid_paths_filters_by_flags() {
    let mut b = store(&[("a", "/1"), ("b", "/2"), ("c", "/3")]);
    b.remove_invalid_paths(&vec![false, true, false]);
    let names: Vec<&str> = b.entries().iter().map(|e| e.name.as_str()).collect();
    assert_eq!(names, vec!["b"]);
}

#[test]
fn bookmark_names_joined_for_completions() {
    let b = store(&[("beta", "/b"), ("alpha", "/a"), ("gamma", "/g")]);
    assert_eq!(b.get_bookmark_names(&vec![true, true, true]), "alpha beta gamma");
    assert_eq!(b.get_bookmark_names(&vec![true, false, true]), "alpha gamma");
    let empty = Bookmarks::new();
    assert_eq!(empty.get_bookmark_names(&Vec::new()), "");
}
