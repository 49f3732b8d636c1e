//! The catalog cache decisions: whether the on-disk text is fresh, and
//! which source the catalog should be loaded from.

use vstd::prelude::*;

verus! {

/// How many seconds the cached catalog text stays fresh.
pub const CACHE_TTL_SECS: i64 = 86400;

/// Fresh means: at most a day has passed since the file was written.
/// A modification time in the future also counts as fresh, as a negative
/// age is no age.
pub open spec fn spec_cache_fresh(mtime_secs: int, now_secs: int) -> bool {
    now_secs - mtime_secs <= CACHE_TTL_SECS as int
}

/// Decide freshness of the cached catalog from Unix-second timestamps.
pub fn cache_is_fresh(mtime_secs: i64, now_secs: i64) -> (r: bool)
    ensures
        r == spec_cache_fresh(mtime_secs as int, now_secs as int),
{
    match now_secs.checked_sub(mtime_secs) {
        Some(age) => age <= CACHE_TTL_SECS,
        None => mtime_secs > now_secs,
    }
}

/// Where the catalog comes from on this run.
#[derive(PartialEq, Eq, Structural, Clone, Copy, Debug)]
pub enum CatalogSource {
    /// The text cache is fresh and a binary index sits beside it: load that.
    Binary,
    /// The text cache is fresh but no binary index exists: reparse the text.
    CachedText,
    /// The text cache is missing or stale: fetch from the mirror.
    Fetch,
}

/// Decide the catalog source: fetch when the text cache is missing or
/// stale; otherwise prefer the binary index when one exists.
pub fn choose_catalog_source(text_exists: bool, fresh: bool, bin_exists: bool) -> (r:
    CatalogSource)
    ensures
        r == (if !text_exists || !fresh {
            CatalogSource::Fetch
        } else if bin_exists {
            CatalogSource::Binary
        } else {
            CatalogSource::CachedText
        }),
{
    if !text_exists || !fresh {
        CatalogSource::Fetch
    } else if bin_exists {
        CatalogSource::Binary
    } else {
        CatalogSource::CachedText
    }
}

} // verus!
