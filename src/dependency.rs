//! Dependency inference over one result set: hits are grouped by identity,
//! and an identity whose law name occurs in another identity's name or
//! texts becomes that identity's parent.
use vstd::prelude::*;

use crate::document::LegalDocumentSearchResult;
use crate::text::{
    contains_str, id_less, lemma_id_less_asymmetric, lemma_id_less_total,
    lemma_id_less_transitive, occurs_in, str_less,
};

verus! {

/// The character sequences of a list of strings.
pub open spec fn views(v: Seq<String>) -> Seq<Seq<char>> {
    v.map_values(|s: String| s@)
}

pub open spec fn name_view(o: Option<String>) -> Option<Seq<char>> {
    match o {
        Some(s) => Some(s@),
        None => None,
    }
}

/// Some hit among the first `n` has identity `x`.
pub open spec fn id_among(hits: Seq<LegalDocumentSearchResult>, n: int, x: Seq<char>) -> bool {
    exists|k: int| 0 <= k < n && #[trigger] hits[k].id_of() == x
}

/// The hits of identity `id`, in input order.
pub open spec fn group(hits: Seq<LegalDocumentSearchResult>, id: Seq<char>) -> Seq<
    LegalDocumentSearchResult,
> {
    hits.filter(|h: LegalDocumentSearchResult| h.id_of() == id)
}

/// The name of the first statute article in `g`, if `g` holds one.
pub open spec fn first_law_name(g: Seq<LegalDocumentSearchResult>) -> Option<Seq<char>>
    decreases g.len(),
{
    if g.len() == 0 {
        None
    } else {
        match first_law_name(g.drop_last()) {
            Some(n) => Some(n),
            None => g.last().document.name_of(),
        }
    }
}

/// `n` occurs in the recorded name of group `g` or in the text of one of its hits.
pub open spec fn mentioned_in(n: Seq<char>, g: Seq<LegalDocumentSearchResult>) -> bool {
    ||| (match first_law_name(g) {
        Some(m) => occurs_in(n, m),
        None => false,
    })
    ||| exists|k: int| 0 <= k < g.len() && occurs_in(n, #[trigger] g[k].document.text_of())
}

/// Identity `i` is referenced by identity `j`: they differ, `i` has a
/// non-empty recorded name, and that name is mentioned in `j`'s material.
pub open spec fn references(hits: Seq<LegalDocumentSearchResult>, i: Seq<char>, j: Seq<char>) -> bool {
    &&& i != j
    &&& match first_law_name(group(hits, i)) {
        Some(n) => n.len() > 0 && mentioned_in(n, group(hits, j)),
        None => false,
    }
}

/// The identities of `ids` that identity `j` references, in the order of `ids`.
pub open spec fn parents_among(
    hits: Seq<LegalDocumentSearchResult>,
    ids: Seq<Seq<char>>,
    j: Seq<char>,
) -> Seq<Seq<char>> {
    ids.filter(|i: Seq<char>| references(hits, i, j))
}

/// The identities of `ids` that reference identity `i`, in the order of `ids`.
pub open spec fn children_among(
    hits: Seq<LegalDocumentSearchResult>,
    ids: Seq<Seq<char>>,
    i: Seq<char>,
) -> Seq<Seq<char>> {
    ids.filter(|j: Seq<char>| references(hits, i, j))
}

pub open spec fn strictly_sorted(s: Seq<Seq<char>>) -> bool {
    forall|a: int, b: int| 0 <= a < b < s.len() ==> id_less(#[trigger] s[a], #[trigger] s[b])
}

/// What is known of one identity in a result set.
#[derive(Debug)]
pub struct LegalDocumentDependencies {
    /// The hits of this identity, in input order: fragments of one law, or
    /// a single precedent.
    pub contents: Vec<LegalDocumentSearchResult>,
    /// The identities whose name this identity's material mentions.
    pub parents: Vec<String>,
    /// The identities whose material mentions this identity's name.
    pub children: Vec<String>,
}

impl LegalDocumentDependencies {
    /// The two records hold the same hits, parents and children.
    pub open spec fn same_as(&self, o: &Self) -> bool {
        &&& self.contents@ == o.contents@
        &&& self.parents@ == o.parents@
        &&& self.children@ == o.children@
    }
}

impl Clone for LegalDocumentDependencies {
    fn clone(&self) -> (r: Self)
        ensures
            r.contents@ == self.contents@,
            r.parents@ == self.parents@,
            r.children@ == self.children@,
    {
        let contents = self.contents.clone();
        let parents = self.parents.clone();
        let children = self.children.clone();
        assert(contents@ =~= self.contents@);
        assert(parents@ =~= self.parents@);
        assert(children@ =~= self.children@);
        LegalDocumentDependencies { contents, parents, children }
    }
}

/// The records of a result set, one per identity, ordered by identity.
#[derive(Debug)]
pub struct DependencyMap {
    pub ids: Vec<String>,
    pub records: Vec<LegalDocumentDependencies>,
}

impl Clone for DependencyMap {
    fn clone(&self) -> (r: Self)
        ensures
            r.ids@ == self.ids@,
            r.records@.len() == self.records@.len(),
            forall|t: int| 0 <= t < r.records@.len() ==> (#[trigger] r.records@[t]).same_as(&self.records@[t]),
    {
        let ids = self.ids.clone();
        let records = self.records.clone();
        assert(ids@ =~= self.ids@);
        DependencyMap { ids, records }
    }
}

impl DependencyMap {
    pub open spec fn keys_view(&self) -> Seq<Seq<char>> {
        views(self.ids@)
    }

    /// The map is the analysis of `hits`: its identities are exactly those of
    /// the hits, sorted without repeats, and each record holds its identity's
    /// hits, parents and children.
    pub open spec fn is_analysis_of(&self, hits: Seq<LegalDocumentSearchResult>) -> bool {
        let ids = self.keys_view();
        &&& self.records@.len() == ids.len()
        &&& strictly_sorted(ids)
        &&& forall|x: Seq<char>| ids.contains(x) <==> id_among(hits, hits.len() as int, x)
        &&& forall|t: int|
            0 <= t < ids.len() ==> {
                &&& (#[trigger] self.records@[t]).contents@ == group(hits, ids[t])
                &&& views(self.records@[t].parents@) == parents_among(hits, ids, ids[t])
                &&& views(self.records@[t].children@) == children_among(hits, ids, ids[t])
            }
    }

    pub fn len(&self) -> (r: usize)
        ensures
            r == self.ids@.len(),
    {
        self.ids.len()
    }

    pub fn is_empty(&self) -> (r: bool)
        ensures
            r == (self.ids@.len() == 0),
    {
        self.ids.len() == 0
    }

    /// The record of identity `id`.
    pub fn get(&self, id: &str) -> (r: Option<&LegalDocumentDependencies>)
        requires
            self.records@.len() == self.ids@.len(),
        ensures
            r is None <==> !self.keys_view().contains(id@),
            r matches Some(d) ==> exists|t: int|
                0 <= t < self.ids@.len() && self.ids@[t]@ == id@ && *d == self.records@[t],
    {
        let key = id.to_owned();
        let mut t: usize = 0;
        while t < self.ids.len()
            invariant
                key@ == id@,
                t <= self.ids@.len(),
                self.records@.len() == self.ids@.len(),
                forall|q: int| 0 <= q < t ==> self.ids@[q]@ != id@,
            decreases self.ids@.len() - t,
        {
            if self.ids[t] == key {
                assert(self.keys_view()[t as int] == id@);
                return Some(&self.records[t]);
            }
            t += 1;
        }
        proof {
            if self.keys_view().contains(id@) {
                let q = choose|q: int| 0 <= q < self.keys_view().len() && self.keys_view()[q] == id@;
                assert(self.ids@[q]@ == id@);
            }
        }
        None
    }

    /// The records, ordered by identity, taken out of the map.
    pub fn into_values(self) -> (r: Vec<LegalDocumentDependencies>)
        ensures
            r@ == self.records@,
    {
        self.records
    }

    /// The records, ordered by identity.
    pub fn values(&self) -> (r: Vec<LegalDocumentDependencies>)
        ensures
            r@.len() == self.records@.len(),
            forall|t: int| 0 <= t < r@.len() ==> (#[trigger] r@[t]).same_as(&self.records@[t]),
    {
        self.records.clone()
    }
}

/// The distinct identities of the hits, sorted.
fn sorted_identities(hits: &[LegalDocumentSearchResult]) -> (ids: Vec<String>)
    ensures
        strictly_sorted(views(ids@)),
        forall|x: Seq<char>| views(ids@).contains(x) <==> id_among(hits@, hits@.len() as int, x),
{
    let mut ids: Vec<String> = Vec::new();
    let mut i: usize = 0;
    while i < hits.len()
        invariant
            i <= hits@.len(),
            strictly_sorted(views(ids@)),
            forall|x: Seq<char>| views(ids@).contains(x) <==> id_among(hits@, i as int, x),
        decreases hits@.len() - i,
    {
        let id = hits[i].document.get_id();
        let mut p: usize = 0;
        while p < ids.len()
            invariant_except_break
                p <= ids@.len(),
                forall|a: int| 0 <= a < p ==> id_less(#[trigger] ids@[a]@, id@),
            ensures
                p <= ids@.len(),
                forall|a: int| 0 <= a < p ==> id_less(#[trigger] ids@[a]@, id@),
                p < ids@.len() ==> !id_less(ids@[p as int]@, id@),
            decreases ids@.len() - p,
        {
            if !str_less(ids[p].as_str(), id.as_str()) {
                break;
            }
            p += 1;
        }
        let ghost old_views = views(ids@);
        assert forall|x: Seq<char>| id_among(hits@, i + 1, x) <==> (id_among(hits@, i as int, x)
            || x == id@) by {
            if id_among(hits@, i + 1, x) && x != id@ {
                let k = choose|k: int| 0 <= k < i + 1 && #[trigger] hits@[k].id_of() == x;
                assert(k < i);
            }
            if x == id@ {
                assert(hits@[i as int].id_of() == x);
            }
        }
        if p < ids.len() && ids[p] == id {
            assert(old_views[p as int] == id@);
            assert(old_views.contains(id@));
        } else {
            proof {
                assert forall|b: int| p <= b < old_views.len() implies id_less(
                    id@,
                    #[trigger] old_views[b],
                ) by {
                    lemma_id_less_total(old_views[p as int], id@);
                    if b > p {
                        lemma_id_less_transitive(id@, old_views[p as int], old_views[b]);
                    }
                }
            }
            ids.insert(p, id);
            assert(views(ids@) =~= old_views.insert(p as int, id@));
            assert forall|x: Seq<char>| #[trigger] views(ids@).contains(x) <==> (old_views.contains(
                x,
            ) || x == id@) by {
                if views(ids@).contains(x) {
                    let q = choose|q: int| 0 <= q < views(ids@).len() && views(ids@)[q] == x;
                    if q < p {
                        assert(old_views[q] == x);
                    } else if q > p {
                        assert(old_views[q - 1] == x);
                    }
                }
                if old_views.contains(x) {
                    let q = choose|q: int| 0 <= q < old_views.len() && old_views[q] == x;
                    if q < p {
                        assert(views(ids@)[q] == x);
                    } else {
                        assert(views(ids@)[q + 1] == x);
                    }
                }
                if x == id@ {
                    assert(views(ids@)[p as int] == x);
                }
            }
        }
        assert forall|x: Seq<char>| #[trigger] views(ids@).contains(x) <==> id_among(hits@, i + 1, x) by {
            if x == id@ {
                assert(hits@[i as int].id_of() == x);
            }
        }
        i += 1;
    }
    ids
}

/// The hits of identity `id`, and the name of its first statute article.
fn collect_group(hits: &[LegalDocumentSearchResult], id: &String) -> (r: (
    Vec<LegalDocumentSearchResult>,
    Option<String>,
))
    ensures
        r.0@ == group(hits@, id@),
        name_view(r.1) == first_law_name(group(hits@, id@)),
{
    let mut g: Vec<LegalDocumentSearchResult> = Vec::new();
    let mut name: Option<String> = None;
    let mut k: usize = 0;
    while k < hits.len()
        invariant
            k <= hits@.len(),
            g@ == group(hits@.take(k as int), id@),
            name_view(name) == first_law_name(g@),
        decreases hits@.len() - k,
    {
        let h = &hits[k];
        proof {
            broadcast use Seq::lemma_filter_push;

            assert(hits@.take(k + 1) =~= hits@.take(k as int).push(hits@[k as int]));
        }
        if h.document.get_id() == *id {
            let ghost before = g@;
            if name.is_none() {
                name = h.document.get_name();
            }
            g.push(h.clone());
            assert(g@.drop_last() =~= before);
        }
        k += 1;
    }
    assert(hits@.take(hits@.len() as int) =~= hits@);
    (g, name)
}

/// `n` is mentioned in the group whose hits are `g` and whose recorded name is `name`.
fn mentions(n: &String, name: &Option<String>, g: &Vec<LegalDocumentSearchResult>) -> (r: bool)
    requires
        name_view(*name) == first_law_name(g@),
    ensures
        r == mentioned_in(n@, g@),
{
    let in_name = match name {
        Some(m) => contains_str(m.as_str(), n.as_str()),
        None => false,
    };
    if in_name {
        return true;
    }
    let mut k: usize = 0;
    while k < g.len()
        invariant
            k <= g@.len(),
            forall|q: int| 0 <= q < k ==> !occurs_in(n@, #[trigger] g@[q].document.text_of()),
        decreases g@.len() - k,
    {
        let text = g[k].document.get_text();
        if contains_str(text.as_str(), n.as_str()) {
            assert(occurs_in(n@, g@[k as int].document.text_of()));
            return true;
        }
        k += 1;
    }
    false
}

/// For each ordered pair of identities, whether the first is referenced by the second.
fn reference_matrix(
    ids: &Vec<String>,
    names: &Vec<Option<String>>,
    groups: &Vec<Vec<LegalDocumentSearchResult>>,
    Ghost(hits): Ghost<Seq<LegalDocumentSearchResult>>,
) -> (m: Vec<Vec<bool>>)
    requires
        names@.len() == ids@.len(),
        groups@.len() == ids@.len(),
        strictly_sorted(views(ids@)),
        forall|t: int| 0 <= t < ids@.len() ==> (#[trigger] groups@[t])@ == group(hits, ids@[t]@),
        forall|t: int|
            0 <= t < ids@.len() ==> name_view(#[trigger] names@[t]) == first_law_name(
                group(hits, ids@[t]@),
            ),
    ensures
        m@.len() == ids@.len(),
        forall|a: int|
            0 <= a < ids@.len() ==> (#[trigger] m@[a])@.len() == ids@.len() && forall|b: int|
                0 <= b < ids@.len() ==> m@[a]@[b] == references(hits, ids@[a]@, ids@[b]@),
{
    let mut m: Vec<Vec<bool>> = Vec::new();
    let mut a: usize = 0;
    while a < ids.len()
        invariant
            a <= ids@.len(),
            m@.len() == a,
            names@.len() == ids@.len(),
            groups@.len() == ids@.len(),
            strictly_sorted(views(ids@)),
            forall|t: int| 0 <= t < ids@.len() ==> (#[trigger] groups@[t])@ == group(hits, ids@[t]@),
            forall|t: int|
                0 <= t < ids@.len() ==> name_view(#[trigger] names@[t]) == first_law_name(
                    group(hits, ids@[t]@),
                ),
            forall|q: int|
                0 <= q < a ==> (#[trigger] m@[q])@.len() == ids@.len() && forall|b: int|
                    0 <= b < ids@.len() ==> m@[q]@[b] == references(hits, ids@[q]@, ids@[b]@),
        decreases ids@.len() - a,
    {
        let mut row: Vec<bool> = Vec::new();
        let mut b: usize = 0;
        while b < ids.len()
            invariant
                a < ids@.len(),
                b <= ids@.len(),
                row@.len() == b,
                names@.len() == ids@.len(),
                groups@.len() == ids@.len(),
                strictly_sorted(views(ids@)),
                forall|t: int|
                    0 <= t < ids@.len() ==> (#[trigger] groups@[t])@ == group(hits, ids@[t]@),
                forall|t: int|
                    0 <= t < ids@.len() ==> name_view(#[trigger] names@[t]) == first_law_name(
                        group(hits, ids@[t]@),
                    ),
                forall|q: int|
                    0 <= q < b ==> row@[q] == references(hits, ids@[a as int]@, ids@[q]@),
            decreases ids@.len() - b,
        {
            let edge = if a == b {
                false
            } else {
                proof {
                    let v = views(ids@);
                    if a < b {
                        assert(id_less(v[a as int], v[b as int]));
                        lemma_id_less_asymmetric(v[a as int], v[b as int]);
                    } else {
                        assert(id_less(v[b as int], v[a as int]));
                        lemma_id_less_asymmetric(v[b as int], v[a as int]);
                    }
                }
                match &names[a] {
                    Some(n) => !n.as_str().is_empty() && mentions(n, &names[b], &groups[b]),
                    None => false,
                }
            };
            row.push(edge);
            b += 1;
        }
        m.push(row);
        a += 1;
    }
    m
}

/// Groups the hits by identity and infers, for every ordered pair of
/// distinct identities, whether the first is referenced by the second.
pub fn analyze_search_result_dependencies(legal_documents: &[LegalDocumentSearchResult]) -> (r:
    DependencyMap)
    ensures
        r.is_analysis_of(legal_documents@),
{
    let ghost hits = legal_documents@;
    let ids = sorted_identities(legal_documents);
    let mut groups: Vec<Vec<LegalDocumentSearchResult>> = Vec::new();
    let mut names: Vec<Option<String>> = Vec::new();
    let mut t: usize = 0;
    while t < ids.len()
        invariant
            t <= ids@.len(),
            groups@.len() == t,
            names@.len() == t,
            hits == legal_documents@,
            forall|q: int| 0 <= q < t ==> (#[trigger] groups@[q])@ == group(hits, ids@[q]@),
            forall|q: int|
                0 <= q < t ==> name_view(#[trigger] names@[q]) == first_law_name(
                    group(hits, ids@[q]@),
                ),
        decreases ids@.len() - t,
    {
        let (g, name) = collect_group(legal_documents, &ids[t]);
        groups.push(g);
        names.push(name);
        t += 1;
    }
    let m = reference_matrix(&ids, &names, &groups, Ghost(hits));
    let ghost v = views(ids@);
    let mut records: Vec<LegalDocumentDependencies> = Vec::new();
    let mut t: usize = 0;
    while t < ids.len()
        invariant
            t <= ids@.len(),
            records@.len() == t,
            groups@.len() == ids@.len(),
            v == views(ids@),
            m@.len() == ids@.len(),
            forall|q: int| 0 <= q < ids@.len() ==> (#[trigger] groups@[q])@ == group(hits, v[q]),
            forall|a: int|
                0 <= a < ids@.len() ==> (#[trigger] m@[a])@.len() == ids@.len() && forall|b: int|
                    0 <= b < ids@.len() ==> m@[a]@[b] == references(hits, v[a], v[b]),
            forall|q: int|
                0 <= q < t ==> {
                    &&& (#[trigger] records@[q]).contents@ == group(hits, v[q])
                    &&& views(records@[q].parents@) == parents_among(hits, v, v[q])
                    &&& views(records@[q].children@) == children_among(hits, v, v[q])
                },
        decreases ids@.len() - t,
    {
        let mut parents: Vec<String> = Vec::new();
        let mut children: Vec<String> = Vec::new();
        let mut i: usize = 0;
        while i < ids.len()
            invariant
                t < ids@.len(),
                i <= ids@.len(),
                v == views(ids@),
                m@.len() == ids@.len(),
                forall|a: int|
                    0 <= a < ids@.len() ==> (#[trigger] m@[a])@.len() == ids@.len() && forall|
                        b: int,
                    | 0 <= b < ids@.len() ==> m@[a]@[b] == references(hits, v[a], v[b]),
                views(parents@) == parents_among(hits, v.take(i as int), v[t as int]),
                views(children@) == children_among(hits, v.take(i as int), v[t as int]),
            decreases ids@.len() - i,
        {
            proof {
                broadcast use Seq::lemma_filter_push;

                assert(v.take(i + 1) =~= v.take(i as int).push(v[i as int]));
            }
            let ghost p0 = parents@;
            let ghost c0 = children@;
            if m[i][t] {
                parents.push(ids[i].clone());
                assert(views(parents@) =~= views(p0).push(v[i as int]));
            }
            if m[t][i] {
                children.push(ids[i].clone());
                assert(views(children@) =~= views(c0).push(v[i as int]));
            }
            i += 1;
        }
        assert(v.take(ids@.len() as int) =~= v);
        let contents = groups[t].clone();
        assert(contents@ =~= groups@[t as int]@);
        records.push(LegalDocumentDependencies { contents, parents, children });
        t += 1;
    }
    DependencyMap { ids, records }
}

} // verus!
