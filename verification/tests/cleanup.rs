use cargo_trim::{is_index_cache, plan_removal, PathKind, Removal};

#[test]
fn a_file_is_removed_as_a_file() {
    assert_eq!(plan_removal(PathKind::File, false), Removal::RemoveFile);
}

#[test]
fn a_directory_is_removed_with_all_in_it() {
    assert_eq!(plan_removal(PathKind::Dir, false), Removal::RemoveTree);
}

#[test]
fn a_dry_run_only_announces() {
    assert_eq!(plan_removal(PathKind::File, true), Removal::Announce);
    assert_eq!(plan_removal(PathKind::Dir, true), Removal::Announce);
}

#[test]
fn what_is_not_there_is_left_alone() {
    assert_eq!(plan_removal(PathKind::Missing, false), Removal::Nothing);
    assert_eq!(plan_removal(PathKind::Missing, true), Removal::Nothing);
    assert_eq!(plan_removal(PathKind::Other, false), Removal::Nothing);
    assert_eq!(plan_removal(PathKind::Other, true), Removal::Nothing);
}

#[test]
fn only_the_entry_named_cache_is_the_index_cache() {
    assert!(is_index_cache(".cache"));
    assert!(!is_index_cache("cache"));
    assert!(!is_index_cache(".cache2"));
    assert!(!is_index_cache(".cach"));
    assert!(!is_index_cache(".Cache"));
    assert!(!is_index_cache(".git"));
    assert!(!is_index_cache(""));
    assert!(!is_index_cache("config.json"));
}
