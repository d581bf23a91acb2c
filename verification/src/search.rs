//! The search index over installed addons, their files and Workshop
//! items: a list ranked newest first, matched with nucleo's fuzzy
//! patterns.
pub mod index;
pub mod item;
pub mod order;
pub mod score;
pub mod sort;

pub use index::{
    QuickSearchHit, QuickSearchResult, Search, Searchable, FULL_SEARCH_MAX_HITS, MAX_QUICK_RESULTS,
};
pub use item::{FileSearchAddon, SearchItem, SearchItemSource, SearchScope};
pub use score::fuzzy_score_terms;
