//! The computing part of a search: the query check made before the backend
//! is contacted, and the ranking of the hits that the backend returns.
use vstd::prelude::*;

use crate::document::{LegalDocumentSearchResult, Score};

verus! {

/// Failures of the search gateway.
#[derive(Debug, PartialEq, Eq)]
pub enum LawscapeCoreError {
    /// The backend client could not be constructed or reached.
    MeilisearchClientError(String),
    /// Writing documents to the index failed.
    MeilisearchIndexError(String),
    /// The backend rejected or failed the query.
    MeilisearchSearchError(String),
    /// The search term is empty; the backend is not contacted.
    EmptyQuery,
}

/// Rejects an empty search term.
pub fn check_query(word: &str) -> (r: Result<(), LawscapeCoreError>)
    ensures
        r is Ok <==> word@.len() > 0,
        r matches Err(e) ==> e is EmptyQuery,
{
    if word.is_empty() {
        Err(LawscapeCoreError::EmptyQuery)
    } else {
        Ok(())
    }
}

pub open spec fn score_rank(s: Option<Score>) -> int {
    match s {
        Some(x) => x.order_key() + 1,
        None => 0,
    }
}

/// The hit at position `x` comes before the hit at position `y`: it has the
/// higher rank, or the same rank and came first from the backend.
pub open spec fn ranks_before(s: Seq<LegalDocumentSearchResult>, x: int, y: int) -> bool {
    ||| s[x].rank() > s[y].rank()
    ||| s[x].rank() == s[y].rank() && x < y
}

/// `order` lists every position of `s` once, best ranked first.
pub open spec fn is_ranking(s: Seq<LegalDocumentSearchResult>, order: Seq<int>) -> bool {
    &&& order.len() == s.len()
    &&& order.no_duplicates()
    &&& forall|k: int| 0 <= k < order.len() ==> 0 <= #[trigger] order[k] < s.len()
    &&& forall|a: int, b: int|
        0 <= a < b < order.len() ==> ranks_before(s, #[trigger] order[a], #[trigger] order[b])
}

/// `a` has a strictly higher rank than `b`.
fn outranks(a: &Option<Score>, b: &Option<Score>) -> (r: bool)
    ensures
        r == (score_rank(*a) > score_rank(*b)),
{
    match (a, b) {
        (Some(x), Some(y)) => x.key() > y.key(),
        (Some(_), None) => true,
        (None, _) => false,
    }
}

/// The hits sorted by score, highest first, hits without a score last and
/// ties in backend order, cut to at most `limit` hits.
pub fn rank_search_hits(hits: &[LegalDocumentSearchResult], limit: usize) -> (r: Vec<
    LegalDocumentSearchResult,
>)
    ensures
        r@.len() == if limit < hits@.len() {
            limit as int
        } else {
            hits@.len() as int
        },
        exists|order: Seq<int>|
            is_ranking(hits@, order) && forall|k: int|
                0 <= k < r@.len() ==> #[trigger] r@[k] == hits@[order[k]],
{
    let ghost s = hits@;
    let mut idx: Vec<usize> = Vec::new();
    let mut i: usize = 0;
    while i < hits.len()
        invariant
            s == hits@,
            i <= s.len(),
            idx@.len() == i,
            idx@.no_duplicates(),
            forall|k: int| 0 <= k < idx@.len() ==> #[trigger] idx@[k] < i,
            forall|a: int, b: int|
                0 <= a < b < idx@.len() ==> ranks_before(
                    s,
                    #[trigger] idx@[a] as int,
                    #[trigger] idx@[b] as int,
                ),
        decreases s.len() - i,
    {
        let mut p: usize = 0;
        while p < idx.len()
            invariant_except_break
                s == hits@,
                i < s.len(),
                idx@.len() == i,
                forall|k: int| 0 <= k < idx@.len() ==> #[trigger] idx@[k] < i,
                p <= idx@.len(),
                forall|a: int|
                    0 <= a < p ==> s[#[trigger] idx@[a] as int].rank() >= s[i as int].rank(),
            ensures
                s == hits@,
                i < s.len(),
                idx@.len() == i,
                forall|k: int| 0 <= k < idx@.len() ==> #[trigger] idx@[k] < i,
                p <= idx@.len(),
                forall|a: int|
                    0 <= a < p ==> s[#[trigger] idx@[a] as int].rank() >= s[i as int].rank(),
                p < idx@.len() ==> s[i as int].rank() > s[idx@[p as int] as int].rank(),
            decreases idx@.len() - p,
        {
            if outranks(&hits[i].score, &hits[idx[p]].score) {
                break;
            }
            p += 1;
        }
        let ghost old_idx = idx@;
        idx.insert(p, i);
        proof {
            assert(idx@ == old_idx.insert(p as int, i));
            assert forall|a: int, b: int| 0 <= a < b < idx@.len() implies ranks_before(
                s,
                #[trigger] idx@[a] as int,
                #[trigger] idx@[b] as int,
            ) by {
                if b == p {
                    assert(idx@[a] == old_idx[a]);
                } else if a == p {
                    assert(idx@[b] == old_idx[b - 1]);
                    if b - 1 > p {
                        assert(ranks_before(s, old_idx[p as int] as int, old_idx[b - 1] as int));
                    }
                } else if b < p {
                    assert(idx@[a] == old_idx[a] && idx@[b] == old_idx[b]);
                } else if a > p {
                    assert(idx@[a] == old_idx[a - 1] && idx@[b] == old_idx[b - 1]);
                } else {
                    assert(idx@[a] == old_idx[a] && idx@[b] == old_idx[b - 1]);
                }
            }
            assert forall|a: int, b: int|
                0 <= a < idx@.len() && 0 <= b < idx@.len() && a != b implies idx@[a]
                != idx@[b] by {
                if a != p && b != p {
                    let oa = if a < p { a } else { a - 1 };
                    let ob = if b < p { b } else { b - 1 };
                    assert(idx@[a] == old_idx[oa] && idx@[b] == old_idx[ob]);
                } else if a == p {
                    let ob = if b < p { b } else { b - 1 };
                    assert(idx@[b] == old_idx[ob]);
                } else {
                    let oa = if a < p { a } else { a - 1 };
                    assert(idx@[a] == old_idx[oa]);
                }
            }
            assert forall|k: int| 0 <= k < idx@.len() implies #[trigger] idx@[k] < i + 1 by {
                if k < p {
                    assert(idx@[k] == old_idx[k]);
                } else if k > p {
                    assert(idx@[k] == old_idx[k - 1]);
                }
            }
        }
        i += 1;
    }
    let count: usize = if limit < hits.len() {
        limit
    } else {
        hits.len()
    };
    let ghost order = idx@.map_values(|u: usize| u as int);
    let mut r: Vec<LegalDocumentSearchResult> = Vec::new();
    let mut k: usize = 0;
    while k < count
        invariant
            s == hits@,
            count <= s.len(),
            idx@.len() == s.len(),
            forall|q: int| 0 <= q < idx@.len() ==> #[trigger] idx@[q] < s.len(),
            k <= count,
            r@.len() == k,
            forall|q: int| 0 <= q < k ==> #[trigger] r@[q] == s[idx@[q] as int],
        decreases count - k,
    {
        r.push(hits[idx[k]].clone());
        k += 1;
    }
    proof {
        assert(is_ranking(s, order)) by {
            assert forall|a: int, b: int|
                0 <= a < order.len() && 0 <= b < order.len() && a != b implies order[a]
                != order[b] by {
                assert(idx@[a] != idx@[b]);
            }
            assert forall|a: int, b: int| 0 <= a < b < order.len() implies ranks_before(
                s,
                #[trigger] order[a],
                #[trigger] order[b],
            ) by {
                assert(ranks_before(s, idx@[a] as int, idx@[b] as int));
            }
        }
        assert(forall|q: int| 0 <= q < r@.len() ==> #[trigger] r@[q] == s[order[q]]);
    }
    r
}

} // verus!
