//! Errors that the HTTP layer reports to its clients.
use vstd::prelude::*;

use crate::search::LawscapeCoreError;

verus! {

/// Failures of the API server.
#[derive(Debug, Clone, Copy, PartialEq, Eq, Structural)]
pub enum ApiServerError {
    TokioRuntime,
    LoggerConfig,
    AxumError,
    MeilisearchError,
    SearchError,
}

impl ApiServerError {
    /// The error reported for a failure of the search gateway: a backend that
    /// cannot be reached is a backend error, anything else a search error.
    pub fn from_core(e: &LawscapeCoreError) -> (r: ApiServerError)
        ensures
            e is MeilisearchClientError ==> r == ApiServerError::MeilisearchError,
            !(e is MeilisearchClientError) ==> r == ApiServerError::SearchError,
    {
        match e {
            LawscapeCoreError::MeilisearchClientError(_) => ApiServerError::MeilisearchError,
            _ => ApiServerError::SearchError,
        }
    }

    /// The text shown to the client.
    pub fn message(&self) -> (r: &'static str)
        ensures
            *self == ApiServerError::TokioRuntime ==> r@ == "runtime error at tokio"@,
            *self == ApiServerError::LoggerConfig ==> r@ == "error at tracing_subscriber"@,
            *self == ApiServerError::AxumError ==> r@ == "axum error"@,
            *self == ApiServerError::MeilisearchError ==> r@ == "meilisearch error"@,
            *self == ApiServerError::SearchError ==> r@ == "search error"@,
    {
        match self {
            ApiServerError::TokioRuntime => "runtime error at tokio",
            ApiServerError::LoggerConfig => "error at tracing_subscriber",
            ApiServerError::AxumError => "axum error",
            ApiServerError::MeilisearchError => "meilisearch error",
            ApiServerError::SearchError => "search error",
        }
    }
}

} // verus!
