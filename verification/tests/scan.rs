use cargo_trim::crate_map::CrateInfo;
use cargo_trim::scan::{Checkout, Entry, ScanError};
use cargo_trim::size::FsNode;
use cargo_trim::CrateDetail;

fn file(name: &str, len: u64) -> Entry {
    Entry {
        name: name.to_string(),
        node: FsNode::File(len),
    }
}

fn folder(name: &str, lens: &[u64]) -> Entry {
    Entry {
        name: name.to_string(),
        node: FsNode::Dir(lens.iter().map(|len| FsNode::File(*len)).collect()),
    }
}

fn checkout(name: &str, revisions: Vec<Entry>) -> Checkout {
    Checkout {
        folder: name.to_string(),
        revisions,
    }
}

#[test]
fn two_binaries_make_two_entries() {
    let mut detail = CrateDetail::default();
    let installed = detail
        .list_installed_bin(&vec![file("cargo-trim", 100), file("cargo-cache", 4900)])
        .unwrap();
    assert_eq!(installed, vec!["cargo-cache", "cargo-trim"]);
    assert_eq!(detail.bin().len(), 2);
    assert_eq!(detail.bin().get("cargo-trim"), Some(CrateInfo::new(100)));
    assert_eq!(detail.bin().get("cargo-cache"), Some(CrateInfo::new(4900)));
}

#[test]
fn no_binaries_make_no_entries() {
    let mut detail = CrateDetail::default();
    let installed = detail.list_installed_bin(&vec![]).unwrap();
    assert_eq!(installed, Vec::<String>::new());
    assert_eq!(detail.bin().len(), 0);
}

#[test]
fn a_binary_seen_twice_is_listed_twice_and_booked_as_seen_last() {
    let mut detail = CrateDetail::default();
    let installed = detail
        .list_installed_bin(&vec![file("b", 1), file("a", 2), file("b", 3)])
        .unwrap();
    assert_eq!(installed, vec!["a", "b", "b"]);
    assert_eq!(detail.bin().get("b"), Some(CrateInfo::new(3)));
    assert_eq!(detail.bin().len(), 2);
}

#[test]
fn a_binary_that_is_a_folder_counts_with_all_in_it() {
    let mut detail = CrateDetail::default();
    detail
        .list_installed_bin(&vec![folder("bundle", &[100, 4900])])
        .unwrap();
    assert_eq!(detail.bin().get("bundle"), Some(CrateInfo::new(5000)));
}

#[test]
fn a_binary_too_large_to_count_stops_the_scan() {
    let mut detail = CrateDetail::default();
    detail.add_bin("kept".to_string(), 1);
    let failed = detail.list_installed_bin(&vec![
        file("fine", 10),
        folder("huge", &[u64::MAX, 1]),
    ]);
    assert_eq!(failed, Err(ScanError::SizeOverflow));
    assert_eq!(detail.bin().len(), 1);
    assert_eq!(detail.bin().get("kept"), Some(CrateInfo::new(1)));
}

#[test]
fn an_archive_in_the_registry_cache_is_booked_under_its_stem() {
    let mut detail = CrateDetail::default();
    let installed = detail
        .list_installed_crate_registry(&vec![], &vec![file("foo-1.0.0.crate", 2000)])
        .unwrap();
    assert_eq!(installed, vec!["foo-1.0.0"]);
    assert_eq!(
        detail.registry_crates_archive().get("foo-1.0.0"),
        Some(CrateInfo::new(2000))
    );
    assert_eq!(detail.find_size_registry_archive("foo-1.0.0"), 2000);
    assert_eq!(
        (detail.find_size_registry_archive("foo-1.0.0") as f64) / 1000_f64.powi(2),
        0.002
    );
    assert_eq!(detail.registry_crates_source().len(), 0);
}

#[test]
fn a_key_in_source_and_cache_is_listed_once_and_booked_in_both() {
    let mut detail = CrateDetail::default();
    let installed = detail
        .list_installed_crate_registry(
            &vec![folder("foo-1.0.0", &[300, 700]), folder("bar-0.1.0", &[5])],
            &vec![file("foo-1.0.0.crate", 2000)],
        )
        .unwrap();
    assert_eq!(installed, vec!["bar-0.1.0", "foo-1.0.0"]);
    assert_eq!(detail.find_size_registry_source("foo-1.0.0"), 1000);
    assert_eq!(detail.find_size_registry_archive("foo-1.0.0"), 2000);
    assert_eq!(detail.find_size_registry_all("foo-1.0.0"), 3000);
    assert_eq!(detail.find_size_registry_source("bar-0.1.0"), 5);
    assert_eq!(detail.find_size_registry_archive("bar-0.1.0"), 0);
}

#[test]
fn the_same_crate_under_two_indexes_adds_up() {
    let mut detail = CrateDetail::default();
    let installed = detail
        .list_installed_crate_registry(
            &vec![
                folder("foo-1.0.0", &[100]),
                folder("foo-1.0.0", &[20]),
                folder("foo-1.0.0", &[3]),
            ],
            &vec![file("foo-1.0.0.crate", 1), file("foo-1.0.0.crate", 1)],
        )
        .unwrap();
    assert_eq!(installed, vec!["foo-1.0.0"]);
    assert_eq!(detail.find_size_registry_source("foo-1.0.0"), 123);
    assert_eq!(detail.find_size_registry_archive("foo-1.0.0"), 2);
}

#[test]
fn a_scan_books_on_top_of_what_is_held() {
    let mut detail = CrateDetail::default();
    detail.add_registry_crate_source("foo-1.0.0".to_string(), 1);
    detail.add_registry_crate_archive("old-0.1.0".to_string(), 9);
    let installed = detail
        .list_installed_crate_registry(
            &vec![folder("foo-1.0.0", &[10])],
            &vec![file("new-0.1.0.crate", 7)],
        )
        .unwrap();
    assert_eq!(installed, vec!["foo-1.0.0", "new-0.1.0"]);
    assert_eq!(detail.find_size_registry_source("foo-1.0.0"), 11);
    assert_eq!(detail.find_size_registry_archive("old-0.1.0"), 9);
    assert_eq!(detail.find_size_registry_archive("new-0.1.0"), 7);
}

#[test]
fn the_order_of_the_entries_does_not_change_the_outcome() {
    let mut forward = CrateDetail::default();
    let listed_forward = forward
        .list_installed_crate_registry(
            &vec![
                folder("a-1.0.0", &[1]),
                folder("b-1.0.0", &[2]),
                folder("a-1.0.0", &[4]),
            ],
            &vec![file("c-1.0.0.crate", 8), file("a-1.0.0.crate", 16)],
        )
        .unwrap();
    let mut backward = CrateDetail::default();
    let listed_backward = backward
        .list_installed_crate_registry(
            &vec![
                folder("a-1.0.0", &[4]),
                folder("b-1.0.0", &[2]),
                folder("a-1.0.0", &[1]),
            ],
            &vec![file("a-1.0.0.crate", 16), file("c-1.0.0.crate", 8)],
        )
        .unwrap();
    assert_eq!(listed_forward, listed_backward);
    assert_eq!(forward, backward);
}

#[test]
fn an_archive_with_a_dot_in_its_stem_is_cut_at_the_last_dot_only() {
    let mut detail = CrateDetail::default();
    let installed = detail
        .list_installed_crate_registry(&vec![], &vec![file("foo-1.0.0", 10)])
        .unwrap();
    assert_eq!(installed, vec!["foo-1.0"]);
}

#[test]
fn an_archive_without_an_extension_stops_the_scan() {
    let mut detail = CrateDetail::default();
    detail.add_registry_crate_source("kept-1.0.0".to_string(), 1);
    let failed = detail.list_installed_crate_registry(
        &vec![folder("foo-1.0.0", &[10])],
        &vec![
            file("fine-1.0.0.crate", 1),
            file("README", 2),
            file("LICENSE", 3),
        ],
    );
    assert_eq!(
        failed,
        Err(ScanError::MissingSeparator("README".to_string()))
    );
    assert_eq!(detail.registry_crates_source().len(), 1);
    assert_eq!(detail.find_size_registry_source("kept-1.0.0"), 1);
    assert_eq!(detail.registry_crates_archive().len(), 0);
}

#[test]
fn a_registry_key_too_large_to_count_stops_the_scan() {
    let mut detail = CrateDetail::default();
    let failed = detail.list_installed_crate_registry(
        &vec![
            folder("foo-1.0.0", &[u64::MAX]),
            folder("bar-1.0.0", &[1]),
            folder("foo-1.0.0", &[1]),
        ],
        &vec![],
    );
    assert_eq!(failed, Err(ScanError::SizeOverflow));
    assert_eq!(detail.registry_crates_source().len(), 0);

    detail.add_registry_crate_archive("foo-1.0.0".to_string(), u64::MAX);
    let failed = detail.list_installed_crate_registry(&vec![], &vec![file("foo-1.0.0.crate", 1)]);
    assert_eq!(failed, Err(ScanError::SizeOverflow));
    assert_eq!(detail.find_size_registry_archive("foo-1.0.0"), u64::MAX);

    let fits = detail.list_installed_crate_registry(&vec![], &vec![file("foo-1.0.0.crate", 0)]);
    assert_eq!(fits, Ok(vec!["foo-1.0.0".to_string()]));
}

#[test]
fn a_missing_name_part_is_told_before_a_size_that_does_not_fit() {
    let mut detail = CrateDetail::default();
    let failed = detail.list_installed_crate_registry(
        &vec![folder("foo-1.0.0", &[u64::MAX, 1])],
        &vec![file("README", 2)],
    );
    assert_eq!(
        failed,
        Err(ScanError::MissingSeparator("README".to_string()))
    );
}

#[test]
fn checkouts_and_databases_are_booked_under_their_keys() {
    let mut detail = CrateDetail::default();
    let installed = detail
        .list_installed_crate_git(
            &vec![
                checkout(
                    "tokio-0123456789abcdef",
                    vec![folder("abc1234", &[1000, 1500]), folder("def5678", &[40])],
                ),
                checkout(
                    "cargo-trim-fedcba9876543210",
                    vec![folder("0a1b2c3", &[7])],
                ),
            ],
            &vec![
                folder("tokio-0123456789abcdef", &[10000]),
                folder("cargo-trim-fedcba9876543210", &[600]),
            ],
        )
        .unwrap();
    assert_eq!(
        installed,
        vec![
            "cargo-trim-0a1b2c3",
            "cargo-trim-HEAD",
            "tokio-HEAD",
            "tokio-abc1234",
            "tokio-def5678",
        ]
    );
    assert_eq!(detail.find_size_git_archive("tokio-abc1234"), 2500);
    assert_eq!(detail.find_size_git_archive("tokio-def5678"), 40);
    assert_eq!(detail.find_size_git_archive("cargo-trim-0a1b2c3"), 7);
    assert_eq!(detail.find_size_git_source("tokio-HEAD"), 10000);
    assert_eq!(detail.find_size_git_source("cargo-trim-HEAD"), 600);
    assert_eq!(detail.git_crates_archive().len(), 3);
    assert_eq!(detail.git_crates_source().len(), 2);
    assert_eq!(detail.find_size_git_all("tokio-HEAD"), 10000);
}

#[test]
fn the_same_repository_under_two_folders_adds_up() {
    let mut detail = CrateDetail::default();
    let installed = detail
        .list_installed_crate_git(
            &vec![
                checkout("tokio-aaaa", vec![folder("abc1234", &[1])]),
                checkout("tokio-bbbb", vec![folder("abc1234", &[2])]),
            ],
            &vec![folder("tokio-aaaa", &[10]), folder("tokio-bbbb", &[20])],
        )
        .unwrap();
    assert_eq!(installed, vec!["tokio-HEAD", "tokio-abc1234"]);
    assert_eq!(detail.find_size_git_archive("tokio-abc1234"), 3);
    assert_eq!(detail.find_size_git_source("tokio-HEAD"), 30);
}

#[test]
fn a_revision_named_head_shares_its_key_with_the_database() {
    let mut detail = CrateDetail::default();
    let installed = detail
        .list_installed_crate_git(
            &vec![checkout("tokio-aaaa", vec![folder("HEAD", &[1])])],
            &vec![folder("tokio-aaaa", &[10])],
        )
        .unwrap();
    assert_eq!(installed, vec!["tokio-HEAD"]);
    assert_eq!(detail.find_size_git_archive("tokio-HEAD"), 1);
    assert_eq!(detail.find_size_git_source("tokio-HEAD"), 10);
    assert_eq!(detail.find_size_git_all("tokio-HEAD"), 11);
}

#[test]
fn nothing_fetched_from_repositories_lists_nothing() {
    let mut detail = CrateDetail::default();
    assert_eq!(
        detail.list_installed_crate_git(&vec![], &vec![]),
        Ok(Vec::<String>::new())
    );
    assert_eq!(
        detail.list_installed_crate_registry(&vec![], &vec![]),
        Ok(Vec::<String>::new())
    );
}

#[test]
fn a_checkout_folder_without_a_hyphen_stops_the_scan() {
    let mut detail = CrateDetail::default();
    let failed = detail.list_installed_crate_git(
        &vec![
            checkout("tokio-aaaa", vec![folder("abc1234", &[1])]),
            checkout("nohyphen", vec![folder("abc1234", &[2])]),
        ],
        &vec![folder("alsonohyphen", &[10])],
    );
    assert_eq!(
        failed,
        Err(ScanError::MissingSeparator("nohyphen".to_string()))
    );
    assert_eq!(detail.git_crates_archive().len(), 0);
    assert_eq!(detail.git_crates_source().len(), 0);
}

#[test]
fn a_checkout_folder_without_revisions_needs_no_hyphen() {
    let mut detail = CrateDetail::default();
    let installed = detail
        .list_installed_crate_git(
            &vec![
                checkout("nohyphen", vec![]),
                checkout("tokio-aaaa", vec![folder("abc1234", &[1])]),
            ],
            &vec![],
        )
        .unwrap();
    assert_eq!(installed, vec!["tokio-abc1234"]);
}

#[test]
fn a_database_folder_without_a_hyphen_stops_the_scan() {
    let mut detail = CrateDetail::default();
    let failed = detail.list_installed_crate_git(
        &vec![checkout("tokio-aaaa", vec![folder("abc1234", &[1])])],
        &vec![folder("tokio-aaaa", &[10]), folder("nohyphen", &[10])],
    );
    assert_eq!(
        failed,
        Err(ScanError::MissingSeparator("nohyphen".to_string()))
    );
    assert_eq!(detail.git_crates_archive().len(), 0);
    assert_eq!(detail.git_crates_source().len(), 0);
}

#[test]
fn a_repository_key_too_large_to_count_stops_the_scan() {
    let mut detail = CrateDetail::default();
    let failed = detail.list_installed_crate_git(
        &vec![
            checkout("tokio-aaaa", vec![folder("abc1234", &[u64::MAX])]),
            checkout("tokio-bbbb", vec![folder("abc1234", &[1])]),
        ],
        &vec![folder("tokio-aaaa", &[10])],
    );
    assert_eq!(failed, Err(ScanError::SizeOverflow));
    assert_eq!(detail.git_crates_archive().len(), 0);
    assert_eq!(detail.git_crates_source().len(), 0);

    let failed = detail.list_installed_crate_git(
        &vec![],
        &vec![folder("tokio-aaaa", &[u64::MAX, 1])],
    );
    assert_eq!(failed, Err(ScanError::SizeOverflow));
    assert_eq!(detail.git_crates_source().len(), 0);
}

#[test]
fn a_scan_of_one_category_leaves_the_others_alone() {
    let mut detail = CrateDetail::default();
    detail.add_bin("tool".to_string(), 1);
    detail.add_git_crate_source("tokio-HEAD".to_string(), 2);
    detail
        .list_installed_crate_registry(
            &vec![folder("foo-1.0.0", &[10])],
            &vec![file("foo-1.0.0.crate", 20)],
        )
        .unwrap();
    assert_eq!(detail.bin().get("tool"), Some(CrateInfo::new(1)));
    assert_eq!(detail.find_size_git_source("tokio-HEAD"), 2);
    assert_eq!(detail.git_crates_archive().len(), 0);
    detail
        .list_installed_crate_git(&vec![], &vec![folder("foo-1.0.0", &[5])])
        .unwrap();
    assert_eq!(detail.find_size_registry_source("foo-1.0.0"), 10);
    assert_eq!(detail.find_size_registry_archive("foo-1.0.0"), 20);
    assert_eq!(detail.find_size_git_source("foo-HEAD"), 5);
    assert_eq!(detail.bin().len(), 1);
}

#[test]
fn keys_are_listed_in_the_order_of_their_bytes() {
    let mut detail = CrateDetail::default();
    let installed = detail
        .list_installed_crate_registry(
            &vec![
                folder("zeta-1.0.0", &[1]),
                folder("Alpha-1.0.0", &[1]),
                folder("alpha-1.0.0", &[1]),
                folder("alpha_b-1.0.0", &[1]),
                folder("alpha-10.0.0", &[1]),
                folder("alpha-2.0.0", &[1]),
            ],
            &vec![file("éclair-0.1.0.crate", 1), file("alpha-1.0.0.crate", 1)],
        )
        .unwrap();
    let mut expected = vec![
        "zeta-1.0.0".to_string(),
        "Alpha-1.0.0".to_string(),
        "alpha-1.0.0".to_string(),
        "alpha_b-1.0.0".to_string(),
        "alpha-10.0.0".to_string(),
        "alpha-2.0.0".to_string(),
        "éclair-0.1.0".to_string(),
    ];
    expected.sort();
    assert_eq!(installed, expected);
}

#[test]
fn binaries_are_listed_in_the_order_of_their_bytes() {
    let mut detail = CrateDetail::default();
    let names = ["rustc", "cargo", "Cargo", "cargo-trim", "cargo_x", "rustup", "a", ""];
    let entries: Vec<Entry> = names.iter().map(|name| file(name, 1)).collect();
    let installed = detail.list_installed_bin(&entries).unwrap();
    let mut expected: Vec<String> = names.iter().map(|name| name.to_string()).collect();
    expected.sort();
    assert_eq!(installed, expected);
}
