//! The profile/backup state machine on concrete command sequences.

use texman::errors::TexError;
use texman::pkg::store_dir_name;
use texman::state::{InstalledRow, TexState, Tree};

fn tree_entries<'a>(st: &'a TexState, profile: &str) -> &'a Vec<String> {
    &st
        .profiles
        .iter()
        .find(|t| t.name == profile)
        .expect("profile tree exists")
        .entries
}

fn installed_names(st: &TexState, profile: &str) -> Vec<(String, String)> {
    st.installed
        .iter()
        .filter(|r| r.profile == profile)
        .map(|r| (r.name.clone(), r.revision.clone()))
        .collect()
}

#[test]
fn install_creates_rows_dirs_and_active_pointer() {
    let mut st = TexState::new();
    st.create_profile("default");
    // the resolved plan for babel: its dependency first, then babel
    st.record_install("default", "babel-base", "11");
    st.record_install("default", "babel", "42");
    st.set_active_if_unset("default");

    assert_eq!(st.active.as_deref(), Some("default"));
    let rows = installed_names(&st, "default");
    assert_eq!(rows.len(), 2);
    let entries = tree_entries(&st, "default");
    for (name, rev) in rows {
        let dir = store_dir_name(&name, &rev);
        assert!(entries.contains(&dir), "directory for each row");
    }
}

#[test]
fn active_pointer_is_kept_once_set() {
    let mut st = TexState::new();
    st.create_profile("p1");
    st.create_profile("p2");
    st.set_active_if_unset("p1");
    st.set_active_if_unset("p2");
    assert_eq!(st.active.as_deref(), Some("p1"));
}

#[test]
fn switch_requires_existing_profile() {
    let mut st = TexState::new();
    assert!(matches!(
        st.switch_profile("ghost"),
        Err(TexError::ProfileMissing(_))
    ));
    st.create_profile("work");
    st.switch_profile("work").expect("switches");
    assert_eq!(st.active.as_deref(), Some("work"));
}

#[test]
fn create_profile_is_idempotent() {
    let mut st = TexState::new();
    st.create_profile("p");
    st.record_install("p", "x", "1");
    st.create_profile("p");
    assert_eq!(tree_entries(&st, "p").len(), 1);
}

#[test]
fn remove_profile_refuses_active_and_missing() {
    let mut st = TexState::new();
    st.create_profile("p");
    st.switch_profile("p").unwrap();
    assert!(matches!(
        st.remove_profile("p"),
        Err(TexError::ProfileInUse(_))
    ));
    assert!(matches!(
        st.remove_profile("nope"),
        Err(TexError::ProfileMissing(_))
    ));
}

#[test]
fn remove_profile_drops_rows() {
    let mut st = TexState::new();
    st.create_profile("p1");
    st.create_profile("p2");
    st.record_install("p1", "x", "1");
    st.record_install("p2", "y", "2");
    st.switch_profile("p2").unwrap();
    st.remove_profile("p1").expect("removable");
    assert!(installed_names(&st, "p1").is_empty());
    assert_eq!(installed_names(&st, "p2").len(), 1);
}

#[test]
fn update_replaces_revision_and_old_directory() {
    let mut st = TexState::new();
    st.create_profile("default");
    st.record_install("default", "tools", "10");
    st.set_active_if_unset("default");
    // the update to revision 11 extracts the new directory, upserts the
    // row, and the old directory goes
    st.record_install("default", "tools", "11");
    st.remove_old_store_dir("default", &store_dir_name("tools", "10"));
    let entries = tree_entries(&st, "default");
    assert!(entries.contains(&store_dir_name("tools", "11")));
    assert!(!entries.contains(&store_dir_name("tools", "10")));
    assert_eq!(
        installed_names(&st, "default"),
        vec![(String::from("tools"), String::from("11"))]
    );
}

#[test]
fn occupied_directory_survives_old_version_removal() {
    // two rows whose store directories collide on the same name:
    // ("a", "1-r2") and ("a-r1", "2") both occupy "a-r1-r2"
    let mut st = TexState::new();
    st.create_profile("p");
    st.record_install("p", "a", "1-r2");
    st.record_install("p", "a-r1", "2");
    st.set_active_if_unset("p");
    assert!(!st.remove_old_store_dir("p", &store_dir_name("a", "1-r2")));
    assert!(tree_entries(&st, "p").contains(&store_dir_name("a", "1-r2")));
}

#[test]
fn remove_package_keeps_directory_another_row_occupies() {
    let mut st = TexState::new();
    st.create_profile("p");
    st.record_install("p", "a", "1-r2");
    st.record_install("p", "a-r1", "2");
    st.set_active_if_unset("p");
    let removed = st.remove_package("a").expect("removes the row");
    assert_eq!(removed, "1-r2");
    // the shared directory stays for the surviving row
    assert!(tree_entries(&st, "p").contains(&store_dir_name("a-r1", "2")));
    assert_eq!(
        installed_names(&st, "p"),
        vec![(String::from("a-r1"), String::from("2"))]
    );
}

#[test]
fn remove_package_deletes_row_and_directory() {
    let mut st = TexState::new();
    st.create_profile("default");
    st.record_install("default", "x", "3");
    st.set_active_if_unset("default");
    let removed = st.remove_package("x").expect("no error");
    assert_eq!(removed, "3");
    assert!(installed_names(&st, "default").is_empty());
    assert!(!tree_entries(&st, "default").contains(&store_dir_name("x", "3")));
}

#[test]
fn remove_package_not_installed_fails() {
    let mut st = TexState::new();
    st.create_profile("default");
    st.set_active_if_unset("default");
    match st.remove_package("ghost") {
        Err(TexError::PackageNotFound(n)) => assert_eq!(n, "ghost"),
        _ => panic!("expected a missing package"),
    }
}

#[test]
fn remove_package_without_active_profile_fails() {
    let mut st = TexState::new();
    assert!(matches!(
        st.remove_package("x"),
        Err(TexError::NoActiveProfile)
    ));
}

#[test]
fn backup_then_restore_is_a_round_trip() {
    let mut st = TexState::new();
    st.create_profile("default");
    st.record_install("default", "a", "1");
    st.record_install("default", "b", "2");
    st.set_active_if_unset("default");

    let rows_before = installed_names(&st, "default");
    let entries_before = tree_entries(&st, "default").clone();

    st.backup_create("snap", 1700000000).expect("backs up");
    st.restore("snap").expect("restores");

    let mut rows_after = installed_names(&st, "default");
    let mut rows_expected = rows_before.clone();
    rows_after.sort();
    rows_expected.sort();
    assert_eq!(rows_after, rows_expected);
    assert_eq!(tree_entries(&st, "default"), &entries_before);
}

#[test]
fn restore_puts_removed_package_back() {
    let mut st = TexState::new();
    st.create_profile("p1");
    st.record_install("p1", "x", "9");
    st.set_active_if_unset("p1");
    st.backup_create("snap", 42).expect("backs up");
    st.remove_package("x").expect("removes");
    assert!(installed_names(&st, "p1").is_empty());
    st.restore("snap").expect("restores");
    assert_eq!(
        installed_names(&st, "p1"),
        vec![(String::from("x"), String::from("9"))]
    );
    assert!(tree_entries(&st, "p1").contains(&store_dir_name("x", "9")));
}

#[test]
fn duplicate_backup_name_is_refused() {
    let mut st = TexState::new();
    st.create_profile("p");
    st.record_install("p", "x", "1");
    st.set_active_if_unset("p");
    st.backup_create("snap", 1).expect("first backup");
    assert!(matches!(
        st.backup_create("snap", 2),
        Err(TexError::Database(_))
    ));
}

#[test]
fn restore_missing_backup_fails() {
    let mut st = TexState::new();
    st.create_profile("p");
    st.set_active_if_unset("p");
    assert!(matches!(
        st.restore("ghost"),
        Err(TexError::BackupMissing(_))
    ));
}

#[test]
fn remove_backup_drops_tree_and_rows() {
    let mut st = TexState::new();
    st.create_profile("p");
    st.record_install("p", "x", "1");
    st.set_active_if_unset("p");
    st.backup_create("snap", 7).expect("backs up");
    st.remove_backup("snap").expect("removes");
    assert!(st.backups.is_empty());
    assert!(st.backup_trees.is_empty());
    assert!(matches!(
        st.remove_backup("snap"),
        Err(TexError::BackupMissing(_))
    ));
}

#[test]
fn invariant_check_accepts_transition_built_states() {
    let mut st = TexState::new();
    assert!(st.check_wf());
    st.create_profile("p");
    st.record_install("p", "x", "1");
    st.set_active_if_unset("p");
    st.backup_create("snap", 5).expect("backs up");
    assert!(st.check_wf());
}

#[test]
fn invariant_check_rejects_broken_stores() {
    // a row whose store directory is missing from the profile tree
    let mut st = TexState::new();
    st.profiles.push(Tree { name: String::from("p"), entries: Vec::new() });
    st.installed.push(InstalledRow {
        profile: String::from("p"),
        name: String::from("x"),
        revision: String::from("1"),
    });
    assert!(!st.check_wf());
    // a dangling active pointer
    let mut st2 = TexState::new();
    st2.active = Some(String::from("ghost"));
    assert!(!st2.check_wf());
    // a duplicated key
    let mut st3 = TexState::new();
    st3.create_profile("p");
    st3.record_install("p", "x", "1");
    let dup = InstalledRow {
        profile: String::from("p"),
        name: String::from("x"),
        revision: String::from("2"),
    };
    st3.installed.push(dup);
    assert!(!st3.check_wf());
}

#[test]
fn clean_removes_exactly_xz_files() {
    let mut st = TexState::new();
    st.root_files = vec![
        String::from("a.tar.xz"),
        String::from("notes.txt"),
        String::from("b.xz"),
        String::from(".xz"),
        String::from("xz"),
    ];
    st.clean(false);
    assert_eq!(
        st.root_files,
        vec![String::from("notes.txt"), String::from(".xz"), String::from("xz")]
    );
}

#[test]
fn clean_with_backups_clears_backup_state() {
    let mut st = TexState::new();
    st.create_profile("p");
    st.record_install("p", "x", "1");
    st.set_active_if_unset("p");
    st.backup_create("snap", 3).expect("backs up");
    st.root_files = vec![String::from("left.tar.xz")];
    st.clean(true);
    assert!(st.root_files.is_empty());
    assert!(st.backups.is_empty());
    assert!(st.backup_trees.is_empty());
}
