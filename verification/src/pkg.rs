//! The package record, and the pure path and URL derivations made from it:
//! archive URLs, per-platform archive selection, and store directory names.

use vstd::prelude::*;
use vstd::string::StringExecFns;
use crate::strutil::{spec_ends_with, str_ends_with};

verus! {

/// One catalog record, as the parser produces it and the resolver,
/// fetcher and installer consume it.
#[derive(Clone)]
pub struct Package {
    pub name: String,
    pub revision: String,
    pub url: String,
    pub depends: Vec<String>,
    pub runfiles: Vec<String>,
    pub binfiles: Vec<String>,
    pub description: Option<String>,
    pub longdesc: Option<String>,
}

/// The mathematical shadow of a `Package`.
pub struct PackageView {
    pub name: Seq<char>,
    pub revision: Seq<char>,
    pub url: Seq<char>,
    pub depends: Seq<Seq<char>>,
    pub runfiles: Seq<Seq<char>>,
    pub binfiles: Seq<Seq<char>>,
    pub description: Option<Seq<char>>,
    pub longdesc: Option<Seq<char>>,
}

impl DeepView for Package {
    type V = PackageView;

    open spec fn deep_view(&self) -> PackageView {
        self.view()
    }
}

impl View for Package {
    type V = PackageView;

    open spec fn view(&self) -> PackageView {
        PackageView {
            name: self.name@,
            revision: self.revision@,
            url: self.url@,
            depends: self.depends.deep_view(),
            runfiles: self.runfiles.deep_view(),
            binfiles: self.binfiles.deep_view(),
            description: self.description.deep_view(),
            longdesc: self.longdesc.deep_view(),
        }
    }
}

impl Package {
    /// An exact copy, field by field, usable in contracts (the derived
    /// clone carries no specification).
    pub fn duplicate(&self) -> (r: Package)
        ensures
            r@ == self@,
    {
        let r = Package {
            name: self.name.clone(),
            revision: self.revision.clone(),
            url: self.url.clone(),
            depends: crate::strutil::clone_string_vec(&self.depends),
            runfiles: crate::strutil::clone_string_vec(&self.runfiles),
            binfiles: crate::strutil::clone_string_vec(&self.binfiles),
            description: match &self.description {
                Some(d) => Some(d.clone()),
                None => None,
            },
            longdesc: match &self.longdesc {
                Some(d) => Some(d.clone()),
                None => None,
            },
        };
        proof {
            assert(r@ =~~= self@);
        }
        r
    }
}

/// Where every archive is downloaded from.
pub open spec fn spec_mirror_archive_prefix() -> Seq<char> {
    "http://mirror.ctan.org/systems/texlive/tlnet/archive/"@
}

/// The default archive URL of a package: `<mirror>/archive/<name>.tar.xz`.
pub open spec fn spec_default_url(name: Seq<char>) -> Seq<char> {
    spec_mirror_archive_prefix() + name + ".tar.xz"@
}

pub fn default_url(name: &str) -> (r: String)
    ensures
        r@ == spec_default_url(name@),
{
    String::from_str("http://mirror.ctan.org/systems/texlive/tlnet/archive/").concat(
        name,
    ).concat(".tar.xz")
}

/// The URL an archive chosen by `select_archive` is fetched from.
pub fn archive_url(archive_name: &str) -> (r: String)
    ensures
        r@ == spec_mirror_archive_prefix() + archive_name@,
{
    String::from_str("http://mirror.ctan.org/systems/texlive/tlnet/archive/").concat(
        archive_name,
    )
}

/// The directory one extracted package occupies: `<name>-r<revision>`.
pub open spec fn spec_store_dir(name: Seq<char>, revision: Seq<char>) -> Seq<char> {
    name + "-r"@ + revision
}

pub fn store_dir_name(name: &str, revision: &str) -> (r: String)
    ensures
        r@ == spec_store_dir(name@, revision@),
{
    String::from_str(name).concat("-r").concat(revision)
}

/// Store directories separate the revision unambiguously: equal names
/// with equal directories mean equal revisions.
pub proof fn lemma_store_dir_injective(name: Seq<char>, r1: Seq<char>, r2: Seq<char>)
    requires
        spec_store_dir(name, r1) == spec_store_dir(name, r2),
    ensures
        r1 == r2,
{
    reveal_strlit("-r");
    let d1 = spec_store_dir(name, r1);
    let d2 = spec_store_dir(name, r2);
    assert(d1.len() == name.len() + 2 + r1.len());
    assert(d2.len() == name.len() + 2 + r2.len());
    assert(r1.len() == r2.len());
    assert(r1 =~= d1.subrange(name.len() as int + 2, d1.len() as int));
    assert(r2 =~= d2.subrange(name.len() as int + 2, d2.len() as int));
}

/// The host platforms the fetcher distinguishes when it picks a binary
/// archive.  Anything else falls back to the plain source archive.
#[derive(Clone, Copy, PartialEq, Eq, Structural)]
pub enum Platform {
    X86Linux,
    X86Darwin,
    Unknown,
}

pub open spec fn spec_platform_suffix(p: Platform) -> Seq<char> {
    match p {
        Platform::X86Linux => "x86_64-linux"@,
        Platform::X86Darwin => "x86_64-darwin"@,
        Platform::Unknown => ""@,
    }
}

pub fn platform_suffix(p: Platform) -> (r: String)
    ensures
        r@ == spec_platform_suffix(p),
{
    match p {
        Platform::X86Linux => String::from_str("x86_64-linux"),
        Platform::X86Darwin => String::from_str("x86_64-darwin"),
        Platform::Unknown => String::from_str(""),
    }
}

/// The name a per-platform binary archive would have.
pub open spec fn spec_bin_archive(name: Seq<char>, suffix: Seq<char>) -> Seq<char> {
    name + "."@ + suffix + ".tar.xz"@
}

/// The default archive name, used when no binary archive is offered.
pub open spec fn spec_default_archive(name: Seq<char>) -> Seq<char> {
    name + ".tar.xz"@
}

/// Which archive `select_archive` picks: the per-platform binary archive
/// when some `binfiles` entry ends with its name, the default otherwise.
pub open spec fn spec_select_archive(p: PackageView, suffix: Seq<char>) -> Seq<char> {
    if exists|i: int|
        0 <= i < p.binfiles.len() && spec_ends_with(
            #[trigger] p.binfiles[i],
            spec_bin_archive(p.name, suffix),
        ) {
        spec_bin_archive(p.name, suffix)
    } else {
        spec_default_archive(p.name)
    }
}

/// Pick the archive file to download for `pkg` on a host whose platform
/// suffix is `suffix`.  An unknown host has the empty suffix and, unless
/// a `binfiles` entry happens to end in `<name>..tar.xz`, falls back to
/// the default `<name>.tar.xz`.
pub fn select_archive(pkg: &Package, suffix: &str) -> (r: String)
    ensures
        r@ == spec_select_archive(pkg@, suffix@),
{
    let bin_name = String::from_str(pkg.name.as_str()).concat(".").concat(suffix).concat(
        ".tar.xz",
    );
    let n = pkg.binfiles.len();
    let mut i: usize = 0;
    while i < n
        invariant
            0 <= i <= n,
            n == pkg.binfiles.len(),
            bin_name@ == spec_bin_archive(pkg@.name, suffix@),
            forall|k: int|
                0 <= k < i ==> !spec_ends_with(
                    #[trigger] pkg@.binfiles[k],
                    spec_bin_archive(pkg@.name, suffix@),
                ),
        decreases n - i,
    {
        if str_ends_with(pkg.binfiles[i].as_str(), bin_name.as_str()) {
            proof {
                assert(spec_ends_with(
                    pkg@.binfiles[i as int],
                    spec_bin_archive(pkg@.name, suffix@),
                ));
            }
            return bin_name;
        }
        i = i + 1;
    }
    String::from_str(pkg.name.as_str()).concat(".tar.xz")
}

} // verus!
