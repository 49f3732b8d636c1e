//! The error kinds every command can surface.

use vstd::prelude::*;
use vstd::string::StringExecFns;

verus! {

/// One variant per failure the package manager distinguishes.  Variants
/// carry the offending name, and where a lower layer failed, its message.
#[derive(Debug)]
pub enum TexError {
    /// The catalog could not be retrieved.
    CatalogFetch(String),
    /// The catalog bytes were not valid UTF-8.
    CatalogEncoding,
    /// The catalog text could not be parsed.
    CatalogParse(String),
    /// A package name is absent from the index.
    PackageNotFound(String),
    /// The dependency graph has a cycle through the named package.
    DependencyCycle(String),
    /// Downloading an archive failed: package name, url, cause.
    ArchiveFetch(String, String, String),
    /// Unpacking an archive failed: package name, cause.
    ExtractFailure(String, String),
    /// The named profile does not exist.
    ProfileMissing(String),
    /// The named profile is active and cannot be removed.
    ProfileInUse(String),
    /// The named backup does not exist.
    BackupMissing(String),
    /// No profile is designated active.
    NoActiveProfile,
    /// A revision did not parse as a non-negative decimal.
    RevisionFormat(String),
    /// A filesystem operation failed: path, cause.
    Io(String, String),
    /// The relational index failed: cause.
    Database(String),
}

impl TexError {
    /// A human-readable one-line account, for the command boundary to print.
    pub fn describe(&self) -> (r: String)
        ensures
            r@ == self.spec_describe(),
    {
        match self {
            TexError::CatalogFetch(c) => String::from_str("failed to fetch catalog: ").concat(
                c.as_str(),
            ),
            TexError::CatalogEncoding => String::from_str("catalog is not valid UTF-8"),
            TexError::CatalogParse(c) => String::from_str("failed to parse catalog: ").concat(
                c.as_str(),
            ),
            TexError::PackageNotFound(n) => String::from_str("package '").concat(
                n.as_str(),
            ).concat("' not found in TLPDB"),
            TexError::DependencyCycle(n) => String::from_str(
                "circular dependency detected involving '",
            ).concat(n.as_str()).concat("'"),
            TexError::ArchiveFetch(n, u, c) => String::from_str("failed to download ").concat(
                n.as_str(),
            ).concat(" from ").concat(u.as_str()).concat(": ").concat(c.as_str()),
            TexError::ExtractFailure(n, c) => String::from_str("failed to unpack ").concat(
                n.as_str(),
            ).concat(": ").concat(c.as_str()),
            TexError::ProfileMissing(n) => String::from_str("profile '").concat(
                n.as_str(),
            ).concat("' does not exist"),
            TexError::ProfileInUse(n) => String::from_str("cannot remove active profile '").concat(
                n.as_str(),
            ).concat("'"),
            TexError::BackupMissing(n) => String::from_str("backup '").concat(
                n.as_str(),
            ).concat("' does not exist"),
            TexError::NoActiveProfile => String::from_str("no active profile set"),
            TexError::RevisionFormat(n) => String::from_str("invalid revision for ").concat(
                n.as_str(),
            ),
            TexError::Io(p, c) => String::from_str("I/O error at ").concat(p.as_str()).concat(
                ": ",
            ).concat(c.as_str()),
            TexError::Database(c) => String::from_str("database error: ").concat(c.as_str()),
        }
    }

    pub open spec fn spec_describe(&self) -> Seq<char> {
        match self {
            TexError::CatalogFetch(c) => "failed to fetch catalog: "@ + c@,
            TexError::CatalogEncoding => "catalog is not valid UTF-8"@,
            TexError::CatalogParse(c) => "failed to parse catalog: "@ + c@,
            TexError::PackageNotFound(n) => "package '"@ + n@ + "' not found in TLPDB"@,
            TexError::DependencyCycle(n) => "circular dependency detected involving '"@ + n@
                + "'"@,
            TexError::ArchiveFetch(n, u, c) => "failed to download "@ + n@ + " from "@ + u@
                + ": "@ + c@,
            TexError::ExtractFailure(n, c) => "failed to unpack "@ + n@ + ": "@ + c@,
            TexError::ProfileMissing(n) => "profile '"@ + n@ + "' does not exist"@,
            TexError::ProfileInUse(n) => "cannot remove active profile '"@ + n@ + "'"@,
            TexError::BackupMissing(n) => "backup '"@ + n@ + "' does not exist"@,
            TexError::NoActiveProfile => "no active profile set"@,
            TexError::RevisionFormat(n) => "invalid revision for "@ + n@,
            TexError::Io(p, c) => "I/O error at "@ + p@ + ": "@ + c@,
            TexError::Database(c) => "database error: "@ + c@,
        }
    }
}

} // verus!
