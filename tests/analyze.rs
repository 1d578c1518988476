use lawscape::{
    analyze_search_result_dependencies, ArticleIndex, Law, LawId, LegalDocument,
    LegalDocumentSearchResult, Precedent, PrecedentInfo, Score,
};

fn law(id: &str, name: &str, text: &str) -> LegalDocumentSearchResult {
    LegalDocumentSearchResult {
        score: Some(Score { bits: 0.5f64.to_bits() }),
        document: LegalDocument::Law(Law {
            id: id.to_string(),
            law_id: LawId { code: id.to_string() },
            name: name.to_string(),
            index: ArticleIndex { article: "1".to_string(), paragraph: "1".to_string() },
            text: text.to_string(),
        }),
    }
}

fn precedent(id: &str, text: &str) -> LegalDocumentSearchResult {
    LegalDocumentSearchResult {
        score: None,
        document: LegalDocument::Precedent(Precedent {
            id: id.to_string(),
            info: PrecedentInfo { lawsuit_id: id.to_string(), case_name: String::new() },
            text: text.to_string(),
        }),
    }
}

fn strings(v: &[&str]) -> Vec<String> {
    v.iter().map(|s| s.to_string()).collect()
}

#[test]
fn law_name_in_other_law_makes_parent_and_child() {
    let hits = vec![
        law("A", "道路交通法", "..."),
        law("B", "道路交通法施行令", "道路交通法第1条による..."),
    ];
    let m = analyze_search_result_dependencies(&hits);
    assert_eq!(m.len(), 2);
    assert_eq!(m.get("A").unwrap().children, strings(&["B"]));
    assert_eq!(m.get("B").unwrap().parents, strings(&["A"]));
    assert!(m.get("A").unwrap().parents.is_empty());
    assert!(m.get("B").unwrap().children.is_empty());
}

#[test]
fn lone_precedent_has_no_links() {
    let hits = vec![precedent("hanrei", "判決文")];
    let m = analyze_search_result_dependencies(&hits);
    assert_eq!(m.len(), 1);
    let r = m.get("hanrei").unwrap();
    assert!(r.parents.is_empty());
    assert!(r.children.is_empty());
    assert_eq!(r.contents.len(), 1);
}

#[test]
fn fragments_of_one_law_share_a_record() {
    let hits = vec![law("A", "民法", "第一条"), law("A", "民法", "第二条")];
    let m = analyze_search_result_dependencies(&hits);
    assert_eq!(m.len(), 1);
    let r = m.get("A").unwrap();
    assert_eq!(r.contents.len(), 2);
    assert_eq!(r.contents[0].document.get_text(), "第一条");
    assert_eq!(r.contents[1].document.get_text(), "第二条");
}

#[test]
fn unrelated_laws_have_no_links() {
    let hits = vec![law("A", "X", "abc"), law("B", "Y", "def")];
    let m = analyze_search_result_dependencies(&hits);
    for id in ["A", "B"] {
        let r = m.get(id).unwrap();
        assert!(r.parents.is_empty());
        assert!(r.children.is_empty());
    }
}

#[test]
fn empty_input_gives_empty_map() {
    let m = analyze_search_result_dependencies(&[]);
    assert!(m.is_empty());
    assert_eq!(m.len(), 0);
    assert!(m.get("A").is_none());
}

#[test]
fn identities_are_sorted_and_unique() {
    let hits = vec![
        law("C", "丙法", "x"),
        precedent("A", "y"),
        law("B", "乙法", "z"),
        law("C", "丙法", "w"),
        precedent("A", "v"),
    ];
    let m = analyze_search_result_dependencies(&hits);
    assert_eq!(m.ids, strings(&["A", "B", "C"]));
    assert_eq!(m.records.len(), 3);
    assert_eq!(m.get("A").unwrap().contents.len(), 2);
    assert_eq!(m.get("C").unwrap().contents.len(), 2);
}

#[test]
fn precedent_is_child_never_parent() {
    let hits = vec![law("L", "刑法", "..."), precedent("P", "刑法第百九十九条の適用")];
    let m = analyze_search_result_dependencies(&hits);
    assert_eq!(m.get("L").unwrap().children, strings(&["P"]));
    assert_eq!(m.get("P").unwrap().parents, strings(&["L"]));
    assert!(m.get("P").unwrap().children.is_empty());
    assert!(m.get("L").unwrap().parents.is_empty());
}

#[test]
fn empty_name_references_nothing() {
    let hits = vec![law("E", "", "text"), law("F", "F法", "other"), precedent("P", "anything")];
    let m = analyze_search_result_dependencies(&hits);
    assert!(m.get("E").unwrap().children.is_empty());
    for id in ["E", "F", "P"] {
        assert!(!m.get(id).unwrap().parents.contains(&"E".to_string()));
    }
}

#[test]
fn no_identity_references_itself() {
    let hits = vec![law("A", "自己法", "自己法による"), law("B", "他法", "自己法と他法")];
    let m = analyze_search_result_dependencies(&hits);
    for id in ["A", "B"] {
        let r = m.get(id).unwrap();
        assert!(!r.parents.contains(&id.to_string()));
        assert!(!r.children.contains(&id.to_string()));
    }
    assert_eq!(m.get("A").unwrap().children, strings(&["B"]));
    assert_eq!(m.get("B").unwrap().parents, strings(&["A"]));
}

#[test]
fn parents_and_children_are_symmetric() {
    let hits = vec![
        law("A", "基本法", "..."),
        law("B", "基本法施行令", "基本法"),
        law("C", "基本法施行令規則", "基本法施行令による"),
        precedent("D", "基本法施行令規則に基づく"),
    ];
    let m = analyze_search_result_dependencies(&hits);
    let ids = ["A", "B", "C", "D"];
    for i in ids {
        for j in ids {
            let i_parent_of_j = m.get(j).unwrap().parents.contains(&i.to_string());
            let j_child_of_i = m.get(i).unwrap().children.contains(&j.to_string());
            assert_eq!(i_parent_of_j, j_child_of_i);
        }
    }
    assert_eq!(m.get("A").unwrap().children, strings(&["B", "C", "D"]));
    assert_eq!(m.get("D").unwrap().parents, strings(&["A", "B", "C"]));
    assert_eq!(m.get("C").unwrap().parents, strings(&["A", "B"]));
}

#[test]
fn only_named_identities_are_parents() {
    let hits = vec![precedent("P", "Q"), precedent("Q", "P"), law("L", "P", "Q")];
    let m = analyze_search_result_dependencies(&hits);
    assert!(m.get("P").unwrap().parents.is_empty());
    assert_eq!(m.get("Q").unwrap().parents, strings(&["L"]));
    assert!(m.get("L").unwrap().parents.is_empty());
}

#[test]
fn permuted_input_gives_same_links() {
    let a = vec![
        law("A", "道路交通法", "第一条"),
        law("B", "道路交通法施行令", "道路交通法"),
        law("A", "道路交通法", "第二条"),
    ];
    let b = vec![a[2].clone(), a[1].clone(), a[0].clone()];
    let m1 = analyze_search_result_dependencies(&a);
    let m2 = analyze_search_result_dependencies(&b);
    let m3 = analyze_search_result_dependencies(&a);
    assert_eq!(m1.ids, m2.ids);
    assert_eq!(m1.ids, m3.ids);
    for id in ["A", "B"] {
        let (r1, r2, r3) = (m1.get(id).unwrap(), m2.get(id).unwrap(), m3.get(id).unwrap());
        assert_eq!(r1.parents, r2.parents);
        assert_eq!(r1.children, r2.children);
        assert_eq!(r1.contents.len(), r2.contents.len());
        assert_eq!(r1.parents, r3.parents);
        assert_eq!(r1.children, r3.children);
    }
}

#[test]
fn name_match_in_other_name_suffices() {
    let hits = vec![law("A", "会社法", "x"), law("B", "会社法施行規則", "y")];
    let m = analyze_search_result_dependencies(&hits);
    assert_eq!(m.get("B").unwrap().parents, strings(&["A"]));
}

#[test]
fn mixed_group_takes_name_of_its_law() {
    let hits = vec![precedent("M", "本文"), law("M", "混合法", "x"), precedent("Z", "混合法の解釈")];
    let m = analyze_search_result_dependencies(&hits);
    assert_eq!(m.get("M").unwrap().children, strings(&["Z"]));
}

#[test]
fn values_keep_identity_order() {
    let hits = vec![law("B", "乙", "甲"), law("A", "甲", "x")];
    let m = analyze_search_result_dependencies(&hits);
    let v = m.values();
    assert_eq!(v.len(), 2);
    assert_eq!(v[0].children, strings(&["B"]));
    assert_eq!(v[1].parents, strings(&["A"]));
    let owned = m.clone().into_values();
    assert_eq!(owned[0].children, strings(&["B"]));
}
