//! The verified text helpers and the error descriptions.

use texman::errors::TexError;
use texman::pkg::{archive_url, default_url, store_dir_name};
use texman::strutil::{parse_u32, str_contains, str_le, str_trim};

#[test]
fn trim_strips_both_ends() {
    assert_eq!(str_trim("  hello \t"), "hello");
    assert_eq!(str_trim("hello"), "hello");
    assert_eq!(str_trim("   "), "");
    assert_eq!(str_trim(""), "");
    assert_eq!(str_trim("\r\nx\r\n"), "x");
}

#[test]
fn substring_search() {
    assert!(str_contains("hello world", "lo wo"));
    assert!(str_contains("abc", ""));
    assert!(!str_contains("abc", "abcd"));
    assert!(!str_contains("hello", "z"));
}

#[test]
fn lexicographic_comparison() {
    assert!(str_le("alpha", "beta"));
    assert!(!str_le("beta", "alpha"));
    assert!(str_le("same", "same"));
    assert!(str_le("ab", "abc"));
    assert!(!str_le("abc", "ab"));
}

#[test]
fn decimal_parsing() {
    assert_eq!(parse_u32("0"), Some(0));
    assert_eq!(parse_u32("12345"), Some(12345));
    assert_eq!(parse_u32("4294967295"), Some(u32::MAX));
    assert_eq!(parse_u32("4294967296"), None);
    assert_eq!(parse_u32(""), None);
    assert_eq!(parse_u32("12a"), None);
    assert_eq!(parse_u32("-3"), None);
    assert_eq!(parse_u32(" 7"), None);
    // a single leading plus is tolerated, as u32's own parser tolerates it
    assert_eq!(parse_u32("+10"), Some(10));
    assert_eq!(parse_u32("+"), None);
    assert_eq!(parse_u32("++1"), None);
    assert_eq!(parse_u32("+4294967295"), Some(u32::MAX));
}

#[test]
fn url_and_store_path_derivations() {
    assert_eq!(
        default_url("babel"),
        "http://mirror.ctan.org/systems/texlive/tlnet/archive/babel.tar.xz"
    );
    assert_eq!(
        archive_url("tex.x86_64-linux.tar.xz"),
        "http://mirror.ctan.org/systems/texlive/tlnet/archive/tex.x86_64-linux.tar.xz"
    );
    assert_eq!(store_dir_name("babel", "42"), "babel-r42");
}

#[test]
fn error_descriptions_are_single_lines() {
    let e = TexError::PackageNotFound(String::from("ghost"));
    assert_eq!(e.describe(), "package 'ghost' not found in TLPDB");
    let c = TexError::DependencyCycle(String::from("a"));
    assert_eq!(c.describe(), "circular dependency detected involving 'a'");
    let m = TexError::ProfileMissing(String::from("p"));
    assert_eq!(m.describe(), "profile 'p' does not exist");
    let u = TexError::ProfileInUse(String::from("p"));
    assert_eq!(u.describe(), "cannot remove active profile 'p'");
    let b = TexError::BackupMissing(String::from("s"));
    assert_eq!(b.describe(), "backup 's' does not exist");
    let n = TexError::NoActiveProfile;
    assert_eq!(n.describe(), "no active profile set");
    let r = TexError::RevisionFormat(String::from("tools"));
    assert_eq!(r.describe(), "invalid revision for tools");
}
