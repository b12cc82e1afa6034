//! Resolution of a free-text query to one repository among search results:
//! normalization, query expansion, scoring of each candidate, ranking, and a
//! decision that refuses to guess between candidates that are too alike.

pub mod api;
pub mod fuzzy;
pub mod resolve;
pub mod scoring;
pub mod text;

pub use api::{check_search_query, search_reply, SearchError};
pub use resolve::{resolve_repository, top_candidates, MatchResult};
pub use scoring::{expand_query, merge_search_results, score_repository, MatchReason, Repository};
pub use text::normalize_text;
