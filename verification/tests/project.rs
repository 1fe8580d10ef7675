use cargo_remove_unused_derives::error::ToolError;
use cargo_remove_unused_derives::path::{path_before, paths_equal};
use cargo_remove_unused_derives::project::{
    always_included, check_vcs, copied_to_sandbox, enters_entry, is_always_excluded,
    package_selected, rust_file_in,
};

#[test]
fn target_and_git_are_never_copied() {
    assert!(is_always_excluded("target/debug/x"));
    assert!(is_always_excluded("crates/a/target"));
    assert!(is_always_excluded(".git/config"));
    assert!(!is_always_excluded("src/target.rs"));
    assert!(!is_always_excluded("targets/x"));
    assert!(copied_to_sandbox("src/lib.rs"));
    assert!(!copied_to_sandbox(""));
    assert!(!copied_to_sandbox(".git"));
    assert_eq!(always_included(), ["Cargo.lock", ".cargo/config.toml"]);
}

#[test]
fn walk_skips_nested_projects_only() {
    assert!(enters_entry(0, true, true));
    assert!(!enters_entry(1, true, true));
    assert!(enters_entry(1, true, false));
    assert!(enters_entry(2, false, true));
}

#[test]
fn packages_are_all_selected_unless_named() {
    assert!(package_selected(&[], "alpha"));
    let named = vec!["beta".to_string()];
    assert!(package_selected(&named, "beta"));
    assert!(!package_selected(&named, "alpha"));
}

#[test]
fn rust_files_are_made_relative_and_build_scripts_skipped() {
    assert_eq!(rust_file_in("/tmp/ws/a/src/lib.rs", "/tmp/ws/a/build.rs", "/tmp/ws"), Some("a/src/lib.rs".to_string()));
    assert_eq!(rust_file_in("/tmp/ws/a/build.rs", "/tmp/ws/a/build.rs", "/tmp/ws"), None);
    assert_eq!(rust_file_in("/tmp/ws/b/build.rs", "/tmp/ws/a/build.rs", "/tmp/ws"), Some("b/build.rs".to_string()));
    assert_eq!(rust_file_in("/tmp/ws/a/README.md", "/tmp/ws/a/build.rs", "/tmp/ws"), None);
    assert_eq!(rust_file_in("/tmp/ws/a/.rs", "/tmp/ws/a/build.rs", "/tmp/ws"), None);
    assert_eq!(rust_file_in("/other/x.rs", "/tmp/ws/a/build.rs", "/tmp/ws"), None);
}

#[test]
fn writing_needs_a_clean_tracked_tree_unless_allowed() {
    assert!(check_vcs(false, false, false, false, true).is_ok());
    assert!(matches!(check_vcs(true, false, false, false, false), Err(ToolError::NoVcs)));
    assert!(check_vcs(true, true, false, false, false).is_ok());
    assert!(matches!(check_vcs(true, false, false, true, true), Err(ToolError::Dirty)));
    assert!(check_vcs(true, false, true, true, true).is_ok());
    assert!(check_vcs(true, false, false, true, false).is_ok());
}

#[test]
fn paths_compare_by_components() {
    assert!(paths_equal("src/a.rs", "src//a.rs/"));
    assert!(!paths_equal("./src/a.rs", "src/a.rs"));
    assert!(path_before("src/a.rs", "src/b.rs"));
    assert!(path_before("a/b", "a-b"));
    assert!(!path_before("src/b.rs", "src/a.rs"));
}
