use lawscape::{
    check_query, rank_search_hits, ApiServerError, LawscapeCoreError, LegalDocument,
    LegalDocumentSearchResult, Precedent, PrecedentInfo, Score,
};

fn hit(id: &str, score: Option<f64>) -> LegalDocumentSearchResult {
    LegalDocumentSearchResult {
        score: score.map(|s| Score { bits: s.to_bits() }),
        document: LegalDocument::Precedent(Precedent {
            id: id.to_string(),
            info: PrecedentInfo { lawsuit_id: id.to_string(), case_name: String::new() },
            text: String::new(),
        }),
    }
}

fn ids(v: &[LegalDocumentSearchResult]) -> Vec<String> {
    v.iter().map(|h| h.document.get_id()).collect()
}

#[test]
fn empty_query_is_rejected() {
    assert_eq!(check_query(""), Err(LawscapeCoreError::EmptyQuery));
    assert_eq!(check_query("道路"), Ok(()));
}

#[test]
fn hits_are_sorted_by_score_descending() {
    let hits = vec![hit("a", Some(0.2)), hit("b", Some(0.9)), hit("c", Some(0.5))];
    assert_eq!(ids(&rank_search_hits(&hits, 10)), vec!["b", "c", "a"]);
}

#[test]
fn ties_keep_backend_order() {
    let hits = vec![hit("a", Some(0.5)), hit("b", Some(0.7)), hit("c", Some(0.5)), hit("d", Some(0.5))];
    assert_eq!(ids(&rank_search_hits(&hits, 10)), vec!["b", "a", "c", "d"]);
}

#[test]
fn unscored_hits_come_last() {
    let hits = vec![hit("a", None), hit("b", Some(0.1)), hit("c", None), hit("d", Some(0.0))];
    assert_eq!(ids(&rank_search_hits(&hits, 10)), vec!["b", "d", "a", "c"]);
}

#[test]
fn truncated_after_sorting() {
    let hits = vec![hit("a", Some(0.1)), hit("b", Some(0.3)), hit("c", Some(0.2))];
    assert_eq!(ids(&rank_search_hits(&hits, 2)), vec!["b", "c"]);
    assert!(rank_search_hits(&hits, 0).is_empty());
}

#[test]
fn negative_and_zero_scores_order_numerically() {
    let hits = vec![hit("a", Some(-1.0)), hit("b", Some(-0.0)), hit("c", Some(0.0)), hit("d", Some(-2.5))];
    assert_eq!(ids(&rank_search_hits(&hits, 10)), vec!["b", "c", "a", "d"]);
}

#[test]
fn score_keys_follow_numeric_order() {
    let k = |x: f64| Score { bits: x.to_bits() }.key();
    assert!(k(1.0) > k(0.5));
    assert!(k(0.5) > k(0.0));
    assert_eq!(k(0.0), k(-0.0));
    assert!(k(-0.0) > k(-0.5));
    assert!(k(-0.5) > k(-3.0));
}

#[test]
fn core_errors_map_to_api_errors() {
    let e = LawscapeCoreError::MeilisearchClientError("down".to_string());
    assert_eq!(ApiServerError::from_core(&e), ApiServerError::MeilisearchError);
    let e = LawscapeCoreError::MeilisearchSearchError("bad".to_string());
    assert_eq!(ApiServerError::from_core(&e), ApiServerError::SearchError);
    assert_eq!(ApiServerError::from_core(&LawscapeCoreError::EmptyQuery), ApiServerError::SearchError);
    assert_eq!(ApiServerError::SearchError.message(), "search error");
    assert_eq!(ApiServerError::MeilisearchError.message(), "meilisearch error");
}

#[test]
fn document_accessors() {
    let p = hit("p", None).document;
    assert_eq!(p.get_id(), "p");
    assert_eq!(p.get_text(), "");
    assert!(p.get_name().is_none());
}
