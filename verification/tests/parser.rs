//! Catalog parser behavior on concrete catalogs.

use texman::catalog::parse_catalog;

#[test]
fn empty_catalog_gives_empty_index() {
    let idx = parse_catalog("");
    assert_eq!(idx.len(), 0);
    assert!(idx.get("anything").is_none());
}

#[test]
fn whitespace_only_catalog_gives_empty_index() {
    let idx = parse_catalog("   \n\n  \n");
    assert_eq!(idx.len(), 0);
}

#[test]
fn single_package_fields() {
    let text = "name babel\nrevision 42\nshortdesc multilingual support\n";
    let idx = parse_catalog(text);
    assert_eq!(idx.len(), 1);
    let p = idx.get("babel").expect("babel parsed");
    assert_eq!(p.name, "babel");
    assert_eq!(p.revision, "42");
    assert_eq!(
        p.url,
        "http://mirror.ctan.org/systems/texlive/tlnet/archive/babel.tar.xz"
    );
    assert_eq!(p.description.as_deref(), Some("multilingual support"));
    assert!(p.longdesc.is_none());
    assert!(p.depends.is_empty());
}

#[test]
fn default_revision_is_unknown() {
    let idx = parse_catalog("name tools\n");
    let p = idx.get("tools").expect("tools parsed");
    assert_eq!(p.revision, "unknown");
}

#[test]
fn depends_accumulate_and_are_trimmed() {
    let text = "name a\ndepends b, c\ndepends d\n";
    let idx = parse_catalog(text);
    let p = idx.get("a").unwrap();
    assert_eq!(p.depends, vec!["b", "c", "d"]);
}

#[test]
fn empty_depends_payload_gives_zero_dependencies() {
    // the directive line carries nothing after trimming: ignored entirely
    let idx = parse_catalog("name a\ndepends \n");
    let p = idx.get("a").unwrap();
    assert_eq!(p.depends.len(), 0);
}

#[test]
fn trailing_comma_gives_no_empty_dependency() {
    let idx = parse_catalog("name a\ndepends b,\n");
    let p = idx.get("a").unwrap();
    assert_eq!(p.depends, vec!["b"]);
}

#[test]
fn longdesc_accumulates_continuation_lines() {
    let text = "name a\nlongdesc first line\n second line\n third line\nrevision 7\n";
    let idx = parse_catalog(text);
    let p = idx.get("a").unwrap();
    assert_eq!(
        p.longdesc.as_deref(),
        Some("first line\nsecond line\nthird line")
    );
    assert_eq!(p.revision, "7");
}

#[test]
fn longdesc_closed_by_name_line() {
    let text = "name a\nlongdesc only line\nname b\nrevision 3\n\n";
    let idx = parse_catalog(text);
    // the `name b` line closes the long description and renames the block
    let p = idx.get("b").expect("renamed block");
    assert_eq!(p.longdesc.as_deref(), Some("only line"));
    assert_eq!(p.revision, "3");
    assert!(idx.get("a").is_none());
}

#[test]
fn runfiles_and_binfiles_blocks() {
    let text = "name a\nrunfiles\n texmf/one.sty\n texmf/two.sty\nbinfiles\n bin/x86_64-linux/a\n";
    let idx = parse_catalog(text);
    let p = idx.get("a").unwrap();
    assert_eq!(p.runfiles, vec!["texmf/one.sty", "texmf/two.sty"]);
    assert_eq!(p.binfiles, vec!["bin/x86_64-linux/a"]);
}

#[test]
fn blocks_split_on_blank_lines() {
    let text = "name a\nrevision 1\n\nname b\nrevision 2\n\nname c\nrevision 3\n";
    let idx = parse_catalog(text);
    assert_eq!(idx.len(), 3);
    assert_eq!(idx.get("b").unwrap().revision, "2");
}

#[test]
fn nameless_block_is_discarded() {
    let text = "revision 9\nshortdesc orphan\n\nname real\n";
    let idx = parse_catalog(text);
    assert_eq!(idx.len(), 1);
    assert!(idx.get("real").is_some());
}

#[test]
fn duplicate_name_last_block_wins() {
    let text = "name a\nrevision 1\n\nname a\nrevision 2\n";
    let idx = parse_catalog(text);
    assert_eq!(idx.len(), 1);
    assert_eq!(idx.get("a").unwrap().revision, "2");
}

#[test]
fn every_record_has_nonempty_name_and_default_url() {
    let text = "name x\n\nname y\ndepends x\n\nshortdesc nameless\n";
    let idx = parse_catalog(text);
    for name in ["x", "y"] {
        let p = idx.get(name).unwrap();
        assert!(!p.name.is_empty());
        assert_eq!(
            p.url,
            format!(
                "http://mirror.ctan.org/systems/texlive/tlnet/archive/{}.tar.xz",
                p.name
            )
        );
    }
}

#[test]
fn carriage_returns_are_trimmed() {
    let text = "name a\r\nrevision 12\r\n";
    let idx = parse_catalog(text);
    let p = idx.get("a").unwrap();
    assert_eq!(p.revision, "12");
}

#[test]
fn indented_line_in_runfiles_is_a_path_not_a_directive() {
    let text = "name a\nrunfiles\n name b\n";
    let idx = parse_catalog(text);
    assert_eq!(idx.len(), 1);
    let p = idx.get("a").expect("only package");
    assert_eq!(p.runfiles, vec!["name b"]);
}

#[test]
fn indented_line_in_longdesc_is_a_continuation() {
    let text = "name a\nlongdesc x\n revision 9\n";
    let idx = parse_catalog(text);
    let p = idx.get("a").unwrap();
    assert_eq!(p.longdesc.as_deref(), Some("x\nrevision 9"));
    assert_eq!(p.revision, "unknown");
}

#[test]
fn many_blocks_parse_in_order() {
    // enough blocks that the parallel parse actually splits work
    let mut text = String::new();
    for i in 0..200 {
        text.push_str(&format!("name pkg{}\nrevision {}\n\n", i, i));
    }
    let idx = parse_catalog(&text);
    assert_eq!(idx.len(), 200);
    assert_eq!(idx.get("pkg137").unwrap().revision, "137");
}
