use cargo_trim::bookings::{book_all, overwrite_all};
use cargo_trim::crate_map::{get_hashmap_crate_size, CrateInfo, CrateMap};
use cargo_trim::scan::{
    bookings_of, checkout_bookings, derive_key, find_misnamed, find_unkeyed, listed_keys,
    sorted_names, Checkout, Entry, KeyFormat, ScanError,
};
use cargo_trim::size::FsNode;

fn items(bookings: &[(&str, u64)]) -> Vec<(String, u64)> {
    bookings
        .iter()
        .map(|(key, size)| (key.to_string(), *size))
        .collect()
}

fn entry(name: &str, len: u64) -> Entry {
    Entry {
        name: name.to_string(),
        node: FsNode::File(len),
    }
}

#[test]
fn a_list_of_bookings_adds_up_key_by_key() {
    let mut table = CrateMap::new();
    table.insert("a".to_string(), CrateInfo::new(1));
    table.insert("z".to_string(), CrateInfo::new(26));
    let booked = book_all(&table, &items(&[("b", 20), ("a", 10), ("b", 200), ("a", 100)])).unwrap();
    assert_eq!(
        booked.entries(),
        items(&[("a", 111), ("b", 220), ("z", 26)])
    );
    assert_eq!(table.entries(), items(&[("a", 1), ("z", 26)]));
}

#[test]
fn no_bookings_leave_the_table_as_it_is() {
    let mut table = CrateMap::new();
    table.insert("a".to_string(), CrateInfo::new(1));
    assert_eq!(book_all(&table, &vec![]), Some(table.clone()));
    assert_eq!(
        book_all(&CrateMap::new(), &vec![]),
        Some(CrateMap::new())
    );
}

#[test]
fn bookings_in_any_order_come_to_the_same() {
    let table = CrateMap::new();
    let forward = book_all(&table, &items(&[("a", 1), ("b", 2), ("a", 4), ("c", 8)]));
    let backward = book_all(&table, &items(&[("c", 8), ("a", 4), ("b", 2), ("a", 1)]));
    assert!(forward.is_some());
    assert_eq!(forward, backward);
}

#[test]
fn bookings_beyond_64_bits_are_not_made() {
    let mut table = CrateMap::new();
    table.insert("a".to_string(), CrateInfo::new(u64::MAX - 10));
    assert_eq!(book_all(&table, &items(&[("a", 5), ("b", 1), ("a", 6)])), None);
    assert_eq!(
        book_all(&table, &items(&[("b", u64::MAX), ("b", 1)])),
        None
    );
    let booked = book_all(&table, &items(&[("a", 5), ("b", u64::MAX), ("a", 5)])).unwrap();
    assert_eq!(get_hashmap_crate_size(&booked, "a"), u64::MAX);
    assert_eq!(get_hashmap_crate_size(&booked, "b"), u64::MAX);
}

#[test]
fn bookings_in_place_keep_the_last_on_each_key() {
    let mut table = CrateMap::new();
    table.insert("a".to_string(), CrateInfo::new(1));
    table.insert("z".to_string(), CrateInfo::new(26));
    overwrite_all(&mut table, &items(&[("b", 20), ("a", 10), ("b", 200)]));
    assert_eq!(table.entries(), items(&[("a", 10), ("b", 200), ("z", 26)]));
}

#[test]
fn each_format_makes_its_key() {
    assert_eq!(
        derive_key(&KeyFormat::Plain, "foo-1.0.0"),
        Some("foo-1.0.0".to_string())
    );
    assert_eq!(derive_key(&KeyFormat::Plain, ""), Some("".to_string()));
    assert_eq!(
        derive_key(&KeyFormat::Archive, "foo-1.0.0.crate"),
        Some("foo-1.0.0".to_string())
    );
    assert_eq!(derive_key(&KeyFormat::Archive, "foo"), None);
    assert_eq!(
        derive_key(&KeyFormat::Database, "foo-0123abcd"),
        Some("foo-HEAD".to_string())
    );
    assert_eq!(derive_key(&KeyFormat::Database, "foo"), None);
    let revision = KeyFormat::Revision {
        folder: "foo-0123abcd".to_string(),
    };
    assert_eq!(derive_key(&revision, "9f8e7d6"), Some("foo-9f8e7d6".to_string()));
    let misnamed = KeyFormat::Revision {
        folder: "foo".to_string(),
    };
    assert_eq!(derive_key(&misnamed, "9f8e7d6"), None);
}

#[test]
fn the_first_entry_without_a_key_is_found() {
    let entries = vec![
        entry("a.crate", 1),
        entry("b", 2),
        entry("c.crate", 3),
        entry("d", 4),
    ];
    assert_eq!(
        find_unkeyed(&entries, &KeyFormat::Archive),
        Some("b".to_string())
    );
    assert_eq!(find_unkeyed(&entries, &KeyFormat::Plain), None);
    assert_eq!(
        find_unkeyed(&entries, &KeyFormat::Database),
        Some("a.crate".to_string())
    );
    assert_eq!(find_unkeyed(&vec![], &KeyFormat::Archive), None);
}

#[test]
fn the_first_misnamed_folder_is_found() {
    let checkouts = vec![
        Checkout {
            folder: "empty".to_string(),
            revisions: vec![],
        },
        Checkout {
            folder: "fine-0123".to_string(),
            revisions: vec![entry("abc", 1)],
        },
        Checkout {
            folder: "first".to_string(),
            revisions: vec![entry("abc", 1)],
        },
        Checkout {
            folder: "second".to_string(),
            revisions: vec![entry("abc", 1)],
        },
    ];
    assert_eq!(find_misnamed(&checkouts), Some("first".to_string()));
    assert_eq!(find_misnamed(&vec![]), None);
}

#[test]
fn entries_become_bookings_with_key_and_size() {
    let entries = vec![
        entry("a.crate", 1),
        Entry {
            name: "b.tar.gz".to_string(),
            node: FsNode::Dir(vec![FsNode::File(2), FsNode::File(3)]),
        },
    ];
    assert_eq!(
        bookings_of(&entries, &KeyFormat::Archive),
        Ok(items(&[("a", 1), ("b.tar", 5)]))
    );
    assert_eq!(
        bookings_of(&entries, &KeyFormat::Plain),
        Ok(items(&[("a.crate", 1), ("b.tar.gz", 5)]))
    );
    assert_eq!(
        bookings_of(&entries, &KeyFormat::Database),
        Err(ScanError::MissingSeparator("a.crate".to_string()))
    );
    assert_eq!(bookings_of(&vec![], &KeyFormat::Database), Ok(vec![]));
}

#[test]
fn an_entry_too_large_to_count_makes_no_bookings() {
    let entries = vec![
        entry("a.crate", 1),
        Entry {
            name: "b.crate".to_string(),
            node: FsNode::Dir(vec![FsNode::File(u64::MAX), FsNode::File(1)]),
        },
    ];
    assert_eq!(
        bookings_of(&entries, &KeyFormat::Archive),
        Err(ScanError::SizeOverflow)
    );
}

#[test]
fn revisions_become_bookings_folder_after_folder() {
    let checkouts = vec![
        Checkout {
            folder: "b-0123".to_string(),
            revisions: vec![entry("r2", 1), entry("r1", 2)],
        },
        Checkout {
            folder: "skipped".to_string(),
            revisions: vec![],
        },
        Checkout {
            folder: "a-b-4567".to_string(),
            revisions: vec![entry("r1", 4)],
        },
    ];
    assert_eq!(
        checkout_bookings(&checkouts),
        Ok(items(&[("b-r2", 1), ("b-r1", 2), ("a-b-r1", 4)]))
    );
}

#[test]
fn keys_of_two_lists_are_listed_once_and_in_order() {
    assert_eq!(
        listed_keys(
            &items(&[("m", 1), ("a", 2), ("m", 3)]),
            &items(&[("z", 4), ("a", 5), ("b", 6)])
        ),
        vec!["a", "b", "m", "z"]
    );
    assert_eq!(listed_keys(&vec![], &vec![]), Vec::<String>::new());
}

#[test]
fn names_are_sorted_and_kept_as_often_as_they_occur() {
    let entries = vec![entry("m", 1), entry("a", 2), entry("z", 3), entry("m", 4)];
    assert_eq!(sorted_names(&entries), vec!["a", "m", "m", "z"]);
}
