//! A last-writer-wins CRDT message store over an ordered transactional
//! key/value database.
//!
//! For each `fid` (a numeric actor identity) and each store kind (a one-byte
//! postfix), the store maintains an Adds set and an optional Removes set and
//! serializes merges so that concurrent submissions of the same logical
//! record converge deterministically. Each successful merge emits a hub
//! event carrying a monotonically increasing id.

use vstd::prelude::*;

pub mod codec;
pub mod db;
pub mod message;
pub mod store_def;
pub mod store;
pub mod laws;

verus! {

/// Number of striped locks used to serialize merges per fid.
pub const FID_LOCKS_COUNT: usize = 4;

/// Hard cap on the page size of any query.
pub const PAGE_SIZE_MAX: usize = 10000;

/// Length in bytes of a timestamp-hash composite ordering key.
pub const TS_HASH_LENGTH: usize = 24;

/// An error carried across the store's boundary as a `{code, message}` pair.
#[derive(Debug, Clone)]
pub struct HubError {
    pub code: String,
    pub message: String,
}

/// Paging controls for the query surface. `page_token` is an opaque
/// continuation equal to the last primary key returned by the previous page.
#[derive(Debug, Clone)]
pub struct PageOptions {
    pub page_size: Option<usize>,
    pub page_token: Option<Vec<u8>>,
    pub reverse: bool,
}

} // verus!
