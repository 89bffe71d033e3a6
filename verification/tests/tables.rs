//! The tables of entries and of groups.

use xdg_desktop_entry::tables::{Entries, Groups};

#[test]
fn entries_hold_what_was_stored_last() {
    let mut entries = Entries::new();
    assert_eq!(entries.len(), 0);
    assert_eq!(entries.get("k"), None);
    assert_eq!(entries.keys(), Vec::<&str>::new());

    entries.insert("k", "1");
    entries.insert("j", "2");
    entries.insert("k", "3");
    assert_eq!(entries.len(), 2);
    assert_eq!(entries.get("k"), Some("3"));
    assert_eq!(entries.get("j"), Some("2"));
    assert_eq!(entries.get("i"), None);
    assert_eq!(entries.get(""), None);
    assert_eq!(entries.get_bytes(b"k"), Some("3"));
    assert_eq!(entries.get_bytes(b"kk"), None);
    let mut keys = entries.keys();
    keys.sort();
    assert_eq!(keys, vec!["j", "k"]);
}

#[test]
fn entries_are_equal_whatever_their_order() {
    let one = Entries::from_pairs(&[("a", "1"), ("b", "2")]);
    let other = Entries::from_pairs(&[("b", "0"), ("b", "2"), ("a", "1")]);
    assert_eq!(one, other);
    assert!(one.within(&other) && other.within(&one));

    let more = Entries::from_pairs(&[("a", "1"), ("b", "2"), ("c", "3")]);
    assert_ne!(one, more);
    assert!(one.within(&more));
    assert!(!more.within(&one));

    let changed = Entries::from_pairs(&[("a", "1"), ("b", "3")]);
    assert_ne!(one, changed);
    assert!(!one.within(&changed));
    assert!(Entries::new().within(&one));
    assert_eq!(Entries::new(), Entries::from_pairs(&[]));
}

#[test]
fn groups_hold_what_was_stored_last() {
    let mut groups = Groups::new();
    assert_eq!(groups.len(), 0);
    assert!(groups.get("g").is_none());

    groups.insert("g", Entries::from_pairs(&[("k", "1"), ("j", "2")]));
    groups.insert("h", Entries::new());
    groups.insert("g", Entries::from_pairs(&[("k", "3")]));
    assert_eq!(groups.len(), 2);
    assert_eq!(groups.get("g"), Some(&Entries::from_pairs(&[("k", "3")])));
    assert_eq!(groups.get("h"), Some(&Entries::new()));
    assert_eq!(groups.get_bytes(b"h"), Some(&Entries::new()));
    assert!(groups.get("G").is_none());
    let mut names = groups.names();
    names.sort();
    assert_eq!(names, vec!["g", "h"]);
}

#[test]
fn groups_are_equal_whatever_their_order() {
    let mut one = Groups::new();
    one.insert("g", Entries::from_pairs(&[("k", "1")]));
    one.insert("h", Entries::new());
    let mut other = Groups::new();
    other.insert("h", Entries::new());
    other.insert("g", Entries::from_pairs(&[("k", "1")]));
    assert_eq!(one, other);

    let mut changed = Groups::new();
    changed.insert("h", Entries::new());
    changed.insert("g", Entries::from_pairs(&[("k", "2")]));
    assert_ne!(one, changed);
    assert!(!one.within(&changed));

    let mut less = Groups::new();
    less.insert("h", Entries::new());
    assert_ne!(one, less);
    assert!(less.within(&one));
    assert!(!one.within(&less));
}
