//! Update planning, archive selection and the cache decisions.

use texman::cache::{cache_is_fresh, choose_catalog_source, CatalogSource};
use texman::catalog::parse_catalog;
use texman::errors::TexError;
use texman::pkg::{platform_suffix, select_archive, Platform};
use texman::state::InstalledRow;
use texman::update::plan_updates;

fn row(profile: &str, name: &str, revision: &str) -> InstalledRow {
    InstalledRow {
        profile: profile.to_string(),
        name: name.to_string(),
        revision: revision.to_string(),
    }
}

#[test]
fn newer_catalog_revision_is_planned() {
    let idx = parse_catalog("name tools\nrevision 11\n");
    let rows = vec![row("p", "tools", "10")];
    let plan = plan_updates(&rows, &idx).expect("plans");
    assert_eq!(plan.len(), 1);
    assert_eq!(plan[0].name, "tools");
    assert_eq!(plan[0].revision, "11");
}

#[test]
fn older_catalog_revision_is_not_planned() {
    let idx = parse_catalog("name tools\nrevision 9\n");
    let rows = vec![row("p", "tools", "10")];
    let plan = plan_updates(&rows, &idx).expect("plans");
    assert!(plan.is_empty());
}

#[test]
fn equal_revision_is_not_planned() {
    let idx = parse_catalog("name tools\nrevision 10\n");
    let rows = vec![row("p", "tools", "10")];
    let plan = plan_updates(&rows, &idx).expect("plans");
    assert!(plan.is_empty());
}

#[test]
fn package_gone_from_catalog_is_skipped() {
    let idx = parse_catalog("name other\nrevision 3\n");
    let rows = vec![row("p", "tools", "10")];
    let plan = plan_updates(&rows, &idx).expect("plans");
    assert!(plan.is_empty());
}

#[test]
fn unparsable_installed_revision_fails() {
    let idx = parse_catalog("name tools\nrevision 11\n");
    let rows = vec![row("p", "tools", "oldversion")];
    match plan_updates(&rows, &idx) {
        Err(TexError::RevisionFormat(n)) => assert_eq!(n, "tools"),
        _ => panic!("expected a revision format error"),
    }
}

#[test]
fn unparsable_catalog_revision_fails() {
    // a package block without a revision keeps the placeholder
    let idx = parse_catalog("name tools\n");
    let rows = vec![row("p", "tools", "10")];
    assert!(matches!(
        plan_updates(&rows, &idx),
        Err(TexError::RevisionFormat(_))
    ));
}

#[test]
fn binary_archive_is_chosen_when_offered() {
    let idx = parse_catalog("name tex\nbinfiles\n bin/x86_64-linux/tex.x86_64-linux.tar.xz\n");
    let p = idx.get("tex").unwrap();
    let suffix = platform_suffix(Platform::X86Linux);
    assert_eq!(suffix, "x86_64-linux");
    assert_eq!(select_archive(p, &suffix), "tex.x86_64-linux.tar.xz");
}

#[test]
fn unknown_platform_falls_back_to_default_archive() {
    let idx = parse_catalog("name tex\nbinfiles\n bin/x86_64-linux/tex.x86_64-linux.tar.xz\n");
    let p = idx.get("tex").unwrap();
    let suffix = platform_suffix(Platform::Unknown);
    assert_eq!(suffix, "");
    assert_eq!(select_archive(p, &suffix), "tex.tar.xz");
}

#[test]
fn no_matching_binfile_falls_back_to_default_archive() {
    let idx = parse_catalog("name tex\nbinfiles\n bin/aarch64-linux/tex.aarch64-linux.tar.xz\n");
    let p = idx.get("tex").unwrap();
    let suffix = platform_suffix(Platform::X86Darwin);
    assert_eq!(select_archive(p, &suffix), "tex.tar.xz");
}

#[test]
fn cache_freshness_boundary() {
    let now = 1_700_000_000i64;
    assert!(cache_is_fresh(now - 86_400, now));
    assert!(!cache_is_fresh(now - 86_401, now));
    // a timestamp in the future is not stale
    assert!(cache_is_fresh(now + 5, now));
}

#[test]
fn catalog_source_decision() {
    assert_eq!(choose_catalog_source(false, false, true), CatalogSource::Fetch);
    assert_eq!(choose_catalog_source(true, false, true), CatalogSource::Fetch);
    assert_eq!(choose_catalog_source(true, true, true), CatalogSource::Binary);
    assert_eq!(
        choose_catalog_source(true, true, false),
        CatalogSource::CachedText
    );
}
