use cargo_trim::crate_map::{add_crate_to_hash_map, get_hashmap_crate_size, CrateInfo, CrateMap};

#[test]
fn test_get_hashmap_crate_size() {
    let mut hashmap_content = CrateMap::new();
    hashmap_content.insert("sample_crate".to_string(), CrateInfo::new(1000));
    hashmap_content.insert("sample_crate_2".to_string(), CrateInfo::new(20));

    assert_eq!(
        (get_hashmap_crate_size(&hashmap_content, "sample_crate_2") as f64) / 1000_f64.powi(2),
        0.00002
    );
    assert_eq!(
        (get_hashmap_crate_size(&hashmap_content, "sample_crate_3") as f64) / 1000_f64.powi(2),
        0.0
    );
}

#[test]
fn test_add_crate_to_hashmap() {
    let mut hashmap_content = CrateMap::new();
    hashmap_content.insert("sample_crate".to_string(), CrateInfo::new(10000));
    hashmap_content.insert("sample_crate_2".to_string(), CrateInfo::new(20));
    add_crate_to_hash_map(&mut hashmap_content, "sample_crate_2".to_string(), 3000);
    add_crate_to_hash_map(&mut hashmap_content, "sample_crate_3".to_string(), 2500);

    let mut another_hashmap = CrateMap::new();
    another_hashmap.insert("sample_crate".to_string(), CrateInfo::new(10000));
    another_hashmap.insert("sample_crate_2".to_string(), CrateInfo::new(3020));
    another_hashmap.insert("sample_crate_3".to_string(), CrateInfo::new(2500));

    assert_eq!(hashmap_content, another_hashmap);
}

#[test]
fn booking_twice_adds_up_in_either_order() {
    let mut first = CrateMap::new();
    add_crate_to_hash_map(&mut first, "serde-1.0.0".to_string(), 700);
    add_crate_to_hash_map(&mut first, "serde-1.0.0".to_string(), 41);

    let mut second = CrateMap::new();
    add_crate_to_hash_map(&mut second, "serde-1.0.0".to_string(), 41);
    add_crate_to_hash_map(&mut second, "serde-1.0.0".to_string(), 700);

    assert_eq!(get_hashmap_crate_size(&first, "serde-1.0.0"), 741);
    assert_eq!(first, second);
}

#[test]
fn booking_on_a_new_key_is_booking_on_an_empty_one() {
    let mut fresh = CrateMap::new();
    add_crate_to_hash_map(&mut fresh, "rand-0.8.5".to_string(), 300);

    let mut zeroed = CrateMap::new();
    zeroed.insert("rand-0.8.5".to_string(), CrateInfo::new(0));
    add_crate_to_hash_map(&mut zeroed, "rand-0.8.5".to_string(), 300);

    assert_eq!(fresh, zeroed);
    assert_eq!(fresh.get("rand-0.8.5"), Some(CrateInfo::new(300)));
}

#[test]
fn booking_zero_bytes_makes_the_key() {
    let mut table = CrateMap::new();
    add_crate_to_hash_map(&mut table, "empty".to_string(), 0);
    assert_eq!(table.len(), 1);
    assert_eq!(table.get("empty"), Some(CrateInfo::new(0)));
}

#[test]
fn booking_up_to_the_largest_count() {
    let mut table = CrateMap::new();
    add_crate_to_hash_map(&mut table, "huge".to_string(), u64::MAX - 5);
    add_crate_to_hash_map(&mut table, "huge".to_string(), 5);
    assert_eq!(get_hashmap_crate_size(&table, "huge"), u64::MAX);
}

#[test]
fn an_absent_key_holds_nothing() {
    let mut table = CrateMap::new();
    assert_eq!(get_hashmap_crate_size(&table, "absent"), 0);
    table.insert("present".to_string(), CrateInfo::new(9));
    assert_eq!(get_hashmap_crate_size(&table, "absent"), 0);
    assert_eq!(get_hashmap_crate_size(&table, "presen"), 0);
    assert_eq!(get_hashmap_crate_size(&table, "present "), 0);
    assert_eq!(table.get("absent"), None);
    assert_eq!(
        (get_hashmap_crate_size(&table, "absent") as f64) / 1000_f64.powi(2),
        0.0
    );
}

#[test]
fn insert_replaces_what_the_key_held() {
    let mut table = CrateMap::new();
    table.insert("tool".to_string(), CrateInfo::new(10));
    table.insert("tool".to_string(), CrateInfo::new(3));
    assert_eq!(table.len(), 1);
    assert_eq!(get_hashmap_crate_size(&table, "tool"), 3);
}

#[test]
fn tables_with_the_same_bookings_are_equal_however_they_were_filled() {
    let mut forward = CrateMap::new();
    forward.insert("a".to_string(), CrateInfo::new(1));
    forward.insert("b".to_string(), CrateInfo::new(2));
    forward.insert("c".to_string(), CrateInfo::new(3));

    let mut backward = CrateMap::new();
    backward.insert("c".to_string(), CrateInfo::new(3));
    backward.insert("b".to_string(), CrateInfo::new(2));
    backward.insert("a".to_string(), CrateInfo::new(1));

    assert_eq!(forward, backward);

    backward.insert("b".to_string(), CrateInfo::new(20));
    assert_ne!(forward, backward);
}

#[test]
fn entries_come_in_the_order_of_keys() {
    let mut table = CrateMap::new();
    table.insert("zeta".to_string(), CrateInfo::new(1));
    table.insert("alpha".to_string(), CrateInfo::new(2));
    table.insert("Beta".to_string(), CrateInfo::new(3));
    table.insert("alpha-2".to_string(), CrateInfo::new(4));
    table.insert("".to_string(), CrateInfo::new(5));
    assert_eq!(
        table.entries(),
        vec![
            ("".to_string(), 5),
            ("Beta".to_string(), 3),
            ("alpha".to_string(), 2),
            ("alpha-2".to_string(), 4),
            ("zeta".to_string(), 1),
        ]
    );
    assert_eq!(table.len(), 5);
}

#[test]
fn keys_beyond_ascii_are_ordered_by_their_bytes() {
    let mut table = CrateMap::new();
    table.insert("é".to_string(), CrateInfo::new(1));
    table.insert("z".to_string(), CrateInfo::new(2));
    table.insert("日本".to_string(), CrateInfo::new(3));
    table.insert("e".to_string(), CrateInfo::new(4));
    let mut expected = vec![
        ("é".to_string(), 1),
        ("z".to_string(), 2),
        ("日本".to_string(), 3),
        ("e".to_string(), 4),
    ];
    expected.sort();
    assert_eq!(table.entries(), expected);
    assert_eq!(get_hashmap_crate_size(&table, "日本"), 3);
    assert_eq!(get_hashmap_crate_size(&table, "日"), 0);
}

#[test]
fn a_copy_holds_the_same_and_goes_its_own_way() {
    let mut table = CrateMap::new();
    table.insert("a".to_string(), CrateInfo::new(1));
    let copy = table.clone();
    assert_eq!(table, copy);
    table.insert("b".to_string(), CrateInfo::new(2));
    assert_eq!(copy.len(), 1);
    assert_eq!(table.len(), 2);
}

#[test]
fn a_record_gives_back_its_size() {
    assert_eq!(CrateInfo::new(1000).size(), 1000);
    assert_eq!(CrateInfo::new(0).size(), 0);
    assert_eq!(CrateInfo::new(7), CrateInfo::new(7));
    assert_ne!(CrateInfo::new(7), CrateInfo::new(8));
}
