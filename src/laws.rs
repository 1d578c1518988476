//! Properties of the dependency analysis, proved over its contract.
use vstd::multiset::Multiset;
use vstd::prelude::*;

use crate::dependency::{
    children_among, first_law_name, group, id_among, mentioned_in, parents_among, references,
    strictly_sorted, views, DependencyMap,
};
use crate::document::LegalDocumentSearchResult;
use crate::text::{id_less, occurs_in, lemma_id_less_asymmetric, lemma_id_less_irreflexive};

verus! {

broadcast use vstd::seq_lib::group_filter_ensures;

/// In a strictly sorted sequence each element stands once.
pub proof fn lemma_strictly_sorted_no_duplicates(s: Seq<Seq<char>>)
    requires
        strictly_sorted(s),
    ensures
        s.no_duplicates(),
{
    assert forall|a: int, b: int| 0 <= a < s.len() && 0 <= b < s.len() && a != b implies s[a]
        != s[b] by {
        if a < b {
            lemma_id_less_asymmetric(s[a], s[b]);
        } else {
            lemma_id_less_asymmetric(s[b], s[a]);
        }
    }
}

/// Two strictly sorted sequences with the same elements are equal.
pub proof fn lemma_strictly_sorted_unique(s1: Seq<Seq<char>>, s2: Seq<Seq<char>>)
    requires
        strictly_sorted(s1),
        strictly_sorted(s2),
        forall|x: Seq<char>| s1.contains(x) <==> s2.contains(x),
    ensures
        s1 == s2,
    decreases s1.len(),
{
    if s1.len() == 0 {
        if s2.len() > 0 {
            assert(s2.contains(s2[0]));
        }
        assert(s1 =~= s2);
    } else {
        assert(s1.contains(s1[0]));
        assert(s2.len() > 0);
        assert(s2.contains(s2[0]));
        if s1[0] != s2[0] {
            let q1 = choose|q: int| 0 <= q < s2.len() && s2[q] == s1[0];
            let q2 = choose|q: int| 0 <= q < s1.len() && s1[q] == s2[0];
            assert(q1 > 0 && q2 > 0);
            assert(id_less(s2[0], s2[q1]));
            assert(id_less(s1[0], s1[q2]));
            lemma_id_less_asymmetric(s1[0], s2[0]);
        }
        let r1 = s1.drop_first();
        let r2 = s2.drop_first();
        assert forall|x: Seq<char>| r1.contains(x) implies r2.contains(x) by {
            let q = choose|q: int| 0 <= q < r1.len() && r1[q] == x;
            assert(s1[q + 1] == x);
            assert(id_less(s1[0], x));
            lemma_id_less_irreflexive(x);
            assert(s2.contains(x));
            let p = choose|p: int| 0 <= p < s2.len() && s2[p] == x;
            assert(p != 0);
            assert(r2[p - 1] == x);
        }
        assert forall|x: Seq<char>| r2.contains(x) implies r1.contains(x) by {
            let q = choose|q: int| 0 <= q < r2.len() && r2[q] == x;
            assert(s2[q + 1] == x);
            assert(id_less(s2[0], x));
            lemma_id_less_irreflexive(x);
            assert(s1.contains(x));
            let p = choose|p: int| 0 <= p < s1.len() && s1[p] == x;
            assert(p != 0);
            assert(r1[p - 1] == x);
        }
        assert(strictly_sorted(r1)) by {
            assert forall|a: int, b: int| 0 <= a < b < r1.len() implies id_less(
                #[trigger] r1[a],
                #[trigger] r1[b],
            ) by {
                assert(r1[a] == s1[a + 1] && r1[b] == s1[b + 1]);
            }
        }
        assert(strictly_sorted(r2)) by {
            assert forall|a: int, b: int| 0 <= a < b < r2.len() implies id_less(
                #[trigger] r2[a],
                #[trigger] r2[b],
            ) by {
                assert(r2[a] == s2[a + 1] && r2[b] == s2[b + 1]);
            }
        }
        lemma_strictly_sorted_unique(r1, r2);
        assert(s1 =~= s2) by {
            assert forall|k: int| 0 <= k < s1.len() implies s1[k] == s2[k] by {
                if k > 0 {
                    assert(s1[k] == r1[k - 1]);
                    assert(s2[k] == r2[k - 1]);
                }
            }
        }
    }
}

/// The analysis holds exactly one record for each identity among the hits.
pub proof fn lemma_one_record_per_identity(hits: Seq<LegalDocumentSearchResult>, m: DependencyMap)
    requires
        m.is_analysis_of(hits),
    ensures
        m.records@.len() == m.keys_view().len(),
        m.keys_view().no_duplicates(),
        forall|x: Seq<char>|
            m.keys_view().contains(x) <==> exists|k: int|
                0 <= k < hits.len() && #[trigger] hits[k].id_of() == x,
{
    lemma_strictly_sorted_no_duplicates(m.keys_view());
}

/// No identity is its own parent or its own child.
pub proof fn lemma_no_self_reference(hits: Seq<LegalDocumentSearchResult>, m: DependencyMap, t: int)
    requires
        m.is_analysis_of(hits),
        0 <= t < m.keys_view().len(),
    ensures
        !views(m.records@[t].parents@).contains(m.keys_view()[t]),
        !views(m.records@[t].children@).contains(m.keys_view()[t]),
{
    let ids = m.keys_view();
    let j = ids[t];
    assert(m.records@[t] == m.records@[t]);
    if views(m.records@[t].parents@).contains(j) {
        let p = views(m.records@[t].parents@);
        let q = choose|q: int| 0 <= q < p.len() && p[q] == j;
        assert(references(hits, p[q], j));
    }
    if views(m.records@[t].children@).contains(j) {
        let c = views(m.records@[t].children@);
        let q = choose|q: int| 0 <= q < c.len() && c[q] == j;
        assert(references(hits, j, c[q]));
    }
}

/// Identity `a` is a parent of identity `b` exactly when `b` is a child of `a`.
pub proof fn lemma_parent_child_symmetry(
    hits: Seq<LegalDocumentSearchResult>,
    m: DependencyMap,
    a: int,
    b: int,
)
    requires
        m.is_analysis_of(hits),
        0 <= a < m.keys_view().len(),
        0 <= b < m.keys_view().len(),
    ensures
        views(m.records@[b].parents@).contains(m.keys_view()[a]) <==> views(
            m.records@[a].children@,
        ).contains(m.keys_view()[b]),
        views(m.records@[b].parents@).contains(m.keys_view()[a]) <==> references(
            hits,
            m.keys_view()[a],
            m.keys_view()[b],
        ),
{
    let ids = m.keys_view();
    assert(m.records@[a] == m.records@[a]);
    assert(m.records@[b] == m.records@[b]);
    let p = views(m.records@[b].parents@);
    let c = views(m.records@[a].children@);
    if p.contains(ids[a]) {
        let q = choose|q: int| 0 <= q < p.len() && p[q] == ids[a];
        assert(references(hits, p[q], ids[b]));
    }
    if c.contains(ids[b]) {
        let q = choose|q: int| 0 <= q < c.len() && c[q] == ids[b];
        assert(references(hits, ids[a], c[q]));
    }
    if references(hits, ids[a], ids[b]) {
        ids.lemma_filter_contains(|i: Seq<char>| references(hits, i, ids[b]), a);
        ids.lemma_filter_contains(|j: Seq<char>| references(hits, ids[a], j), b);
    }
}

/// Every parent is an identity with a non-empty recorded name.
pub proof fn lemma_parents_are_named(
    hits: Seq<LegalDocumentSearchResult>,
    m: DependencyMap,
    t: int,
    x: Seq<char>,
)
    requires
        m.is_analysis_of(hits),
        0 <= t < m.keys_view().len(),
        views(m.records@[t].parents@).contains(x),
    ensures
        first_law_name(group(hits, x)) matches Some(n) && n.len() > 0,
{
    assert(m.records@[t] == m.records@[t]);
    let p = views(m.records@[t].parents@);
    let q = choose|q: int| 0 <= q < p.len() && p[q] == x;
    assert(references(hits, p[q], m.keys_view()[t]));
}

/// An identity whose recorded name is empty references nothing: it has no
/// children and is nobody's parent.
pub proof fn lemma_empty_name_references_nothing(
    hits: Seq<LegalDocumentSearchResult>,
    m: DependencyMap,
    t: int,
)
    requires
        m.is_analysis_of(hits),
        0 <= t < m.keys_view().len(),
        first_law_name(group(hits, m.keys_view()[t])) == Some(Seq::<char>::empty()),
    ensures
        m.records@[t].children@.len() == 0,
        forall|u: int|
            0 <= u < m.keys_view().len() ==> !views(
                (#[trigger] m.records@[u]).parents@,
            ).contains(m.keys_view()[t]),
{
    let ids = m.keys_view();
    assert(m.records@[t] == m.records@[t]);
    let c = views(m.records@[t].children@);
    if c.len() > 0 {
        assert(references(hits, ids[t], c[0]));
    }
    assert forall|u: int| 0 <= u < ids.len() implies !views(
        (#[trigger] m.records@[u]).parents@,
    ).contains(ids[t]) by {
        if views(m.records@[u].parents@).contains(ids[t]) {
            lemma_parents_are_named(hits, m, u, ids[t]);
        }
    }
}

/// Two analyses of the same hits agree: same identities in the same order,
/// and for each the same hits, parents and children.
pub proof fn lemma_analysis_deterministic(
    hits: Seq<LegalDocumentSearchResult>,
    m1: DependencyMap,
    m2: DependencyMap,
)
    requires
        m1.is_analysis_of(hits),
        m2.is_analysis_of(hits),
    ensures
        m1.keys_view() == m2.keys_view(),
        forall|t: int|
            0 <= t < m1.keys_view().len() ==> {
                &&& (#[trigger] m1.records@[t]).contents@ == m2.records@[t].contents@
                &&& views(m1.records@[t].parents@) == views(m2.records@[t].parents@)
                &&& views(m1.records@[t].children@) == views(m2.records@[t].children@)
            },
{
    lemma_strictly_sorted_unique(m1.keys_view(), m2.keys_view());
    assert forall|t: int| 0 <= t < m1.keys_view().len() implies {
        &&& (#[trigger] m1.records@[t]).contents@ == m2.records@[t].contents@
        &&& views(m1.records@[t].parents@) == views(m2.records@[t].parents@)
        &&& views(m1.records@[t].children@) == views(m2.records@[t].children@)
    } by {
        assert(m2.records@[t] == m2.records@[t]);
    }
}

/// All statute articles of one identity carry the same name.
pub open spec fn consistent_names(h: Seq<LegalDocumentSearchResult>) -> bool {
    forall|a: int, b: int|
        0 <= a < h.len() && 0 <= b < h.len() && h[a].id_of() == h[b].id_of()
            && h[a].document.name_of() is Some && h[b].document.name_of() is Some
            ==> #[trigger] h[a].document.name_of() == #[trigger] h[b].document.name_of()
}

/// Some hit of identity `id` is a statute article.
pub open spec fn has_law(h: Seq<LegalDocumentSearchResult>, id: Seq<char>) -> bool {
    exists|k: int|
        0 <= k < h.len() && #[trigger] h[k].id_of() == id && h[k].document.name_of() is Some
}

proof fn lemma_group_last(h: Seq<LegalDocumentSearchResult>, id: Seq<char>)
    requires
        h.len() > 0,
    ensures
        group(h, id) == if h.last().id_of() == id {
            group(h.drop_last(), id).push(h.last())
        } else {
            group(h.drop_last(), id)
        },
{
    reveal(Seq::filter);
}

proof fn lemma_group_contains(h: Seq<LegalDocumentSearchResult>, id: Seq<char>, y: LegalDocumentSearchResult)
    ensures
        group(h, id).contains(y) <==> h.contains(y) && y.id_of() == id,
{
    if group(h, id).contains(y) {
        h.lemma_filter_contains_rev(|x: LegalDocumentSearchResult| x.id_of() == id, y);
        let g = group(h, id);
        let k = choose|k: int| 0 <= k < g.len() && g[k] == y;
        assert(g[k].id_of() == id);
    }
    if h.contains(y) && y.id_of() == id {
        let k = choose|k: int| 0 <= k < h.len() && h[k] == y;
        h.lemma_filter_contains(|x: LegalDocumentSearchResult| x.id_of() == id, k);
    }
}

proof fn lemma_group_count(h: Seq<LegalDocumentSearchResult>, id: Seq<char>, y: LegalDocumentSearchResult)
    ensures
        group(h, id).to_multiset().count(y) == if y.id_of() == id {
            h.to_multiset().count(y)
        } else {
            0
        },
    decreases h.len(),
{
    broadcast use vstd::seq_lib::to_multiset_build, vstd::multiset::group_multiset_axioms;

    if h.len() == 0 {
        assert(group(h, id) =~= Seq::<LegalDocumentSearchResult>::empty());
        assert(h.to_multiset() =~= Multiset::empty()) by {
            vstd::seq_lib::to_multiset_len(h);
        }
        assert(group(h, id).to_multiset() =~= Multiset::empty()) by {
            vstd::seq_lib::to_multiset_len(group(h, id));
        }
    } else {
        let r = h.drop_last();
        lemma_group_last(h, id);
        lemma_group_count(r, id, y);
        assert(h =~= r.push(h.last()));
    }
}

proof fn lemma_consistent_prefix(h: Seq<LegalDocumentSearchResult>)
    requires
        consistent_names(h),
        h.len() > 0,
    ensures
        consistent_names(h.drop_last()),
{
    let r = h.drop_last();
    assert forall|a: int, b: int|
        0 <= a < r.len() && 0 <= b < r.len() && r[a].id_of() == r[b].id_of()
            && r[a].document.name_of() is Some && r[b].document.name_of() is Some
            implies #[trigger] r[a].document.name_of() == #[trigger] r[b].document.name_of() by {
        assert(r[a] == h[a] && r[b] == h[b]);
    }
}

/// With consistent names, the recorded name of an identity is the name of
/// any of its statute articles, and there is none without one.
proof fn lemma_group_name(h: Seq<LegalDocumentSearchResult>, id: Seq<char>)
    requires
        consistent_names(h),
    ensures
        !has_law(h, id) ==> first_law_name(group(h, id)) is None,
        forall|k: int|
            0 <= k < h.len() && h[k].id_of() == id && h[k].document.name_of() is Some
                ==> first_law_name(group(h, id)) == (#[trigger] h[k]).document.name_of(),
    decreases h.len(),
{
    if h.len() == 0 {
        assert(group(h, id) =~= Seq::<LegalDocumentSearchResult>::empty());
    } else {
        let r = h.drop_last();
        let x = h.last();
        lemma_group_last(h, id);
        lemma_consistent_prefix(h);
        lemma_group_name(r, id);
        let g = group(r, id);
        if x.id_of() == id {
            assert(g.push(x).drop_last() =~= g);
            if first_law_name(g) is Some {
                assert(has_law(r, id));
                let k0 = choose|k: int|
                    0 <= k < r.len() && #[trigger] r[k].id_of() == id && r[k].document.name_of() is Some;
                assert(r[k0] == h[k0]);
            }
            assert forall|k: int|
                0 <= k < h.len() && h[k].id_of() == id && h[k].document.name_of() is Some
                    implies first_law_name(group(h, id)) == (#[trigger] h[k]).document.name_of() by {
                if k < h.len() - 1 {
                    assert(r[k] == h[k]);
                } else if first_law_name(g) is Some {
                    let k0 = choose|k: int|
                        0 <= k < r.len() && #[trigger] r[k].id_of() == id && r[k].document.name_of() is Some;
                    assert(r[k0] == h[k0]);
                    assert(h[k0].document.name_of() == h[k].document.name_of());
                }
            }
            if !has_law(h, id) {
                if has_law(r, id) {
                    let k0 = choose|k: int|
                        0 <= k < r.len() && #[trigger] r[k].id_of() == id && r[k].document.name_of() is Some;
                    assert(h[k0] == r[k0]);
                }
                if x.document.name_of() is Some {
                    assert(h[h.len() - 1] == x);
                }
            }
        } else {
            assert forall|k: int|
                0 <= k < h.len() && h[k].id_of() == id && h[k].document.name_of() is Some
                    implies first_law_name(group(h, id)) == (#[trigger] h[k]).document.name_of() by {
                assert(k < h.len() - 1);
                assert(r[k] == h[k]);
            }
            if has_law(r, id) {
                let k0 = choose|k: int|
                    0 <= k < r.len() && #[trigger] r[k].id_of() == id && r[k].document.name_of() is Some;
                assert(h[k0] == r[k0]);
            }
        }
    }
}

proof fn lemma_same_elements(h1: Seq<LegalDocumentSearchResult>, h2: Seq<LegalDocumentSearchResult>)
    requires
        h1.to_multiset() == h2.to_multiset(),
    ensures
        forall|y: LegalDocumentSearchResult| h1.contains(y) <==> h2.contains(y),
{
    assert forall|y: LegalDocumentSearchResult| h1.contains(y) <==> h2.contains(y) by {
        vstd::seq_lib::to_multiset_contains(h1, y);
        vstd::seq_lib::to_multiset_contains(h2, y);
    }
}

proof fn lemma_consistent_same_elements(h1: Seq<LegalDocumentSearchResult>, h2: Seq<LegalDocumentSearchResult>)
    requires
        consistent_names(h1),
        forall|y: LegalDocumentSearchResult| h1.contains(y) <==> h2.contains(y),
    ensures
        consistent_names(h2),
{
    assert forall|a: int, b: int|
        0 <= a < h2.len() && 0 <= b < h2.len() && h2[a].id_of() == h2[b].id_of()
            && h2[a].document.name_of() is Some && h2[b].document.name_of() is Some
            implies #[trigger] h2[a].document.name_of() == #[trigger] h2[b].document.name_of() by {
        assert(h2.contains(h2[a]) && h2.contains(h2[b]));
        let a1 = choose|q: int| 0 <= q < h1.len() && h1[q] == h2[a];
        let b1 = choose|q: int| 0 <= q < h1.len() && h1[q] == h2[b];
        assert(h1[a1].document.name_of() == h1[b1].document.name_of());
    }
}

proof fn lemma_same_name(h1: Seq<LegalDocumentSearchResult>, h2: Seq<LegalDocumentSearchResult>, id: Seq<char>)
    requires
        consistent_names(h1),
        consistent_names(h2),
        forall|y: LegalDocumentSearchResult| h1.contains(y) <==> h2.contains(y),
    ensures
        first_law_name(group(h1, id)) == first_law_name(group(h2, id)),
{
    lemma_group_name(h1, id);
    lemma_group_name(h2, id);
    if has_law(h1, id) {
        let k = choose|k: int|
            0 <= k < h1.len() && #[trigger] h1[k].id_of() == id && h1[k].document.name_of() is Some;
        assert(h1.contains(h1[k]));
        let q = choose|q: int| 0 <= q < h2.len() && h2[q] == h1[k];
        assert(h2[q].id_of() == id);
    } else if has_law(h2, id) {
        let k = choose|k: int|
            0 <= k < h2.len() && #[trigger] h2[k].id_of() == id && h2[k].document.name_of() is Some;
        assert(h2.contains(h2[k]));
        let q = choose|q: int| 0 <= q < h1.len() && h1[q] == h2[k];
        assert(h1[q].id_of() == id);
    }
}

proof fn lemma_same_text_mention(
    h1: Seq<LegalDocumentSearchResult>,
    h2: Seq<LegalDocumentSearchResult>,
    n: Seq<char>,
    j: Seq<char>,
)
    requires
        forall|y: LegalDocumentSearchResult| h1.contains(y) <==> h2.contains(y),
        exists|k: int|
            0 <= k < group(h1, j).len() && occurs_in(n, #[trigger] group(h1, j)[k].document.text_of()),
    ensures
        exists|k: int|
            0 <= k < group(h2, j).len() && occurs_in(n, #[trigger] group(h2, j)[k].document.text_of()),
{
    let g1 = group(h1, j);
    let g2 = group(h2, j);
    let k = choose|k: int| 0 <= k < g1.len() && occurs_in(n, #[trigger] g1[k].document.text_of());
    let y = g1[k];
    assert(g1.contains(y));
    lemma_group_contains(h1, j, y);
    lemma_group_contains(h2, j, y);
    let q = choose|q: int| 0 <= q < g2.len() && g2[q] == y;
    assert(occurs_in(n, g2[q].document.text_of()));
}

proof fn lemma_same_references(
    h1: Seq<LegalDocumentSearchResult>,
    h2: Seq<LegalDocumentSearchResult>,
    i: Seq<char>,
    j: Seq<char>,
)
    requires
        consistent_names(h1),
        consistent_names(h2),
        forall|y: LegalDocumentSearchResult| h1.contains(y) <==> h2.contains(y),
    ensures
        references(h1, i, j) == references(h2, i, j),
{
    lemma_same_name(h1, h2, i);
    lemma_same_name(h1, h2, j);
    if let Some(n) = first_law_name(group(h1, i)) {
        if exists|k: int|
            0 <= k < group(h1, j).len() && occurs_in(n, #[trigger] group(h1, j)[k].document.text_of()) {
            lemma_same_text_mention(h1, h2, n, j);
        }
        if exists|k: int|
            0 <= k < group(h2, j).len() && occurs_in(n, #[trigger] group(h2, j)[k].document.text_of()) {
            lemma_same_text_mention(h2, h1, n, j);
        }
        assert(mentioned_in(n, group(h1, j)) == mentioned_in(n, group(h2, j)));
    }
}

proof fn lemma_same_links(
    h1: Seq<LegalDocumentSearchResult>,
    h2: Seq<LegalDocumentSearchResult>,
    ids: Seq<Seq<char>>,
    x: Seq<char>,
)
    requires
        consistent_names(h1),
        consistent_names(h2),
        forall|y: LegalDocumentSearchResult| h1.contains(y) <==> h2.contains(y),
    ensures
        parents_among(h1, ids, x) == parents_among(h2, ids, x),
        children_among(h1, ids, x) == children_among(h2, ids, x),
    decreases ids.len(),
{
    reveal(Seq::filter);
    if ids.len() > 0 {
        lemma_same_links(h1, h2, ids.drop_last(), x);
        lemma_same_references(h1, h2, ids.last(), x);
        lemma_same_references(h1, h2, x, ids.last());
    }
}

/// Reordering the hits changes no identity, no parent and no child, and
/// each identity keeps the same hits, provided all statute articles of one
/// identity carry the same name.
pub proof fn lemma_analysis_ignores_hit_order(
    h1: Seq<LegalDocumentSearchResult>,
    h2: Seq<LegalDocumentSearchResult>,
    m1: DependencyMap,
    m2: DependencyMap,
)
    requires
        m1.is_analysis_of(h1),
        m2.is_analysis_of(h2),
        h1.to_multiset() == h2.to_multiset(),
        consistent_names(h1),
    ensures
        m1.keys_view() == m2.keys_view(),
        forall|t: int|
            0 <= t < m1.keys_view().len() ==> {
                &&& (#[trigger] m1.records@[t]).contents@.to_multiset()
                    == m2.records@[t].contents@.to_multiset()
                &&& views(m1.records@[t].parents@) == views(m2.records@[t].parents@)
                &&& views(m1.records@[t].children@) == views(m2.records@[t].children@)
            },
{
    lemma_same_elements(h1, h2);
    lemma_consistent_same_elements(h1, h2);
    assert forall|x: Seq<char>| m1.keys_view().contains(x) <==> m2.keys_view().contains(x) by {
        if id_among(h1, h1.len() as int, x) {
            let k = choose|k: int| 0 <= k < h1.len() && #[trigger] h1[k].id_of() == x;
            assert(h1.contains(h1[k]));
            let q = choose|q: int| 0 <= q < h2.len() && h2[q] == h1[k];
            assert(h2[q].id_of() == x);
        }
        if id_among(h2, h2.len() as int, x) {
            let k = choose|k: int| 0 <= k < h2.len() && #[trigger] h2[k].id_of() == x;
            assert(h2.contains(h2[k]));
            let q = choose|q: int| 0 <= q < h1.len() && h1[q] == h2[k];
            assert(h1[q].id_of() == x);
        }
    }
    lemma_strictly_sorted_unique(m1.keys_view(), m2.keys_view());
    let ids = m1.keys_view();
    assert forall|t: int| 0 <= t < ids.len() implies {
        &&& (#[trigger] m1.records@[t]).contents@.to_multiset()
            == m2.records@[t].contents@.to_multiset()
        &&& views(m1.records@[t].parents@) == views(m2.records@[t].parents@)
        &&& views(m1.records@[t].children@) == views(m2.records@[t].children@)
    } by {
        assert(m2.records@[t] == m2.records@[t]);
        lemma_same_links(h1, h2, ids, ids[t]);
        assert forall|y: LegalDocumentSearchResult|
            group(h1, ids[t]).to_multiset().count(y) == group(h2, ids[t]).to_multiset().count(y) by {
            lemma_group_count(h1, ids[t], y);
            lemma_group_count(h2, ids[t], y);
        }
        assert(group(h1, ids[t]).to_multiset() =~= group(h2, ids[t]).to_multiset());
    }
}

} // verus!
