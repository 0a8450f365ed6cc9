//! A local store of documentation sets with fuzzy search over their indices.

use vstd::prelude::*;

pub mod helpers;
pub mod links;
pub mod search;
pub mod store;
pub mod types;

pub use helpers::{add_html_ext, current_timestamp};
pub use links::{ensure_html_extensions, href_attribute, rewrite_link};
pub use search::{fold_query, FuzzyMatcher, rank_results, score_entries, score_entry};
pub use store::{
    download_batches, find_available, DocStore, CACHE_DURATION_SECS, DEFAULT_SEARCH_LIMIT,
    DOWNLOAD_BATCH_SIZE,
};
pub use types::{
    CachedDoc, DevDocsError, Doc, DocIndex, Entry, EntryType, Links, SearchResult, SearchableEntry,
};

