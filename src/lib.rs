//! Post-processing of legal-document search results: ranking the hits that
//! the search backend returns, grouping them by document identity, and
//! inferring which documents reference which by name.
pub mod api;
pub mod date;
pub mod dependency;
pub mod document;
pub mod laws;
pub mod search;
pub mod text;

pub use api::ApiServerError;
pub use date::{parse_date, Date, DateParseError};
pub use dependency::{analyze_search_result_dependencies, DependencyMap, LegalDocumentDependencies};
pub use document::{
    ArticleIndex, LawId, Law, LegalDocument, LegalDocumentSearchResult, Precedent, PrecedentInfo,
    Score,
};
pub use search::{check_query, rank_search_hits, LawscapeCoreError};
