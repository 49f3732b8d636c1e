//! Search, info, list and backup-list behavior.

use texman::catalog::parse_catalog;
use texman::queries::{list_backups, list_installed, list_profiles};
use texman::search::search_packages;
use texman::state::TexState;

#[test]
fn search_matches_only_description_hit() {
    let idx = parse_catalog(
        "name bar\nshortdesc contains Foo somewhere\n\nname baz\nshortdesc nothing here\n",
    );
    let hits = search_packages(&idx, "foo", true, false, false);
    assert_eq!(hits, vec!["bar"]);
}

#[test]
fn search_without_description_flag_misses_description() {
    let idx = parse_catalog("name bar\nshortdesc contains foo somewhere\n");
    let hits = search_packages(&idx, "foo", false, false, false);
    assert!(hits.is_empty());
}

#[test]
fn search_name_match_is_case_insensitive() {
    let idx = parse_catalog("name FooBar\n\nname other\n");
    let hits = search_packages(&idx, "fOOb", false, false, false);
    assert_eq!(hits, vec!["FooBar"]);
}

#[test]
fn search_depends_flag_matches_dependency_names() {
    let idx = parse_catalog("name a\ndepends libfoo\n\nname b\ndepends other\n");
    let hits = search_packages(&idx, "FOO", false, true, false);
    assert_eq!(hits, vec!["a"]);
}

#[test]
fn search_longdesc_flag_matches_long_description() {
    let idx = parse_catalog("name a\nlongdesc first\n has Needle inside\n\nname b\n");
    let hits = search_packages(&idx, "needle", false, false, true);
    assert_eq!(hits, vec!["a"]);
}

#[test]
fn search_results_are_sorted_by_name() {
    let idx = parse_catalog("name zebra-foo\n\nname alpha-foo\n\nname mid-foo\n");
    let hits = search_packages(&idx, "foo", false, false, false);
    assert_eq!(hits, vec!["alpha-foo", "mid-foo", "zebra-foo"]);
}

#[test]
fn search_empty_result_is_no_error() {
    let idx = parse_catalog("name a\n");
    let hits = search_packages(&idx, "nothing-matches", true, true, true);
    assert!(hits.is_empty());
}

#[test]
fn info_lookup_finds_record() {
    let idx = parse_catalog("name a\nrevision 3\nshortdesc hi\n");
    let p = idx.get("a").expect("present");
    assert_eq!(p.revision, "3");
    assert!(idx.get("missing").is_none());
}

#[test]
fn list_installed_is_sorted_by_name() {
    let mut st = TexState::new();
    st.create_profile("p");
    st.record_install("p", "zeta", "1");
    st.record_install("p", "alpha", "2");
    st.record_install("p", "mid", "3");
    st.set_active_if_unset("p");
    let rows = list_installed(&st).expect("lists");
    let names: Vec<&str> = rows.iter().map(|r| r.name.as_str()).collect();
    assert_eq!(names, vec!["alpha", "mid", "zeta"]);
    assert_eq!(rows[0].revision, "2");
}

#[test]
fn list_installed_without_active_profile_fails() {
    let st = TexState::new();
    assert!(list_installed(&st).is_err());
}

#[test]
fn list_profiles_marks_the_active_one() {
    let mut st = TexState::new();
    st.create_profile("p1");
    st.create_profile("p2");
    st.switch_profile("p2").unwrap();
    let entries = list_profiles(&st);
    assert_eq!(entries.len(), 2);
    assert_eq!(entries[0].name, "p1");
    assert!(!entries[0].is_active);
    assert_eq!(entries[1].name, "p2");
    assert!(entries[1].is_active);
}

#[test]
fn list_backups_reports_min_stamp_and_count() {
    let mut st = TexState::new();
    st.create_profile("p");
    st.record_install("p", "a", "1");
    st.record_install("p", "b", "2");
    st.set_active_if_unset("p");
    st.backup_create("later", 2000).expect("backs up");
    st.remove_package("b").expect("removes");
    st.backup_create("early", 1000).expect("backs up");
    let summary = list_backups(&st);
    assert_eq!(summary.len(), 2);
    assert_eq!(summary[0].name, "early");
    assert_eq!(summary[0].created_at, 1000);
    assert_eq!(summary[0].packages, 1);
    assert_eq!(summary[1].name, "later");
    assert_eq!(summary[1].created_at, 2000);
    assert_eq!(summary[1].packages, 2);
}
