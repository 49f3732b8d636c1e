//! A verified core for a TeX Live package manager: the TLPDB catalog
//! parser, the dependency resolver, the update planner, the search and
//! list operations, and the profile/backup state machine, each with a
//! contract.  I/O — the HTTP fetches, the archive extraction and the
//! on-disk database — lives outside this crate and hands plain values in.

pub mod cache;
pub mod catalog;
pub mod errors;
pub mod index;
pub mod pkg;
pub mod queries;
pub mod resolver;
pub mod search;
pub mod state;
pub mod strutil;
pub mod update;
