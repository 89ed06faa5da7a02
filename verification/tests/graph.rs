use pg_graphwright::extraction::{tokenize, Triple};
use pg_graphwright::graph::{plan_edges, plan_mentions, Edge, Mention};
use pg_graphwright::maps::{NameMap, OverrideMap};
use pg_graphwright::visibility::{visibility_of, Visibility};

fn list(items: &[&str]) -> Vec<String> {
    items.iter().map(|s| s.to_string()).collect()
}

fn triple(s: &str, p: &str, o: &str) -> Triple {
    (s.to_string(), p.to_string(), o.to_string())
}

fn keys(mentions: &[Mention]) -> Vec<(&str, &str)> {
    mentions.iter().map(|m| (m.surface.as_str(), m.key.as_str())).collect()
}

fn flat(edges: &[Edge]) -> Vec<(i64, i64, &str)> {
    edges.iter().map(|e| (e.src, e.dst, e.predicate.as_str())).collect()
}

#[test]
fn each_token_with_a_key_is_a_mention() {
    let canon = NameMap::new();
    let none = OverrideMap::of(vec![]);
    let m = plan_mentions(&list(&["Sara", "--", "Tehran", "SARA"]), "1", &canon, &none);
    assert_eq!(keys(&m), vec![("Sara", "sara"), ("Tehran", "tehran"), ("SARA", "sara")]);
}

#[test]
fn mentions_follow_merges_and_overrides() {
    let mut canon = NameMap::new();
    canon.insert("sarah".to_string(), "sara".to_string());
    let tags = OverrideMap::of(vec![("2".to_string(), "sara".to_string(), "boss".to_string())]);
    let tokens = list(&["Sarah", "Sara"]);
    assert_eq!(keys(&plan_mentions(&tokens, "1", &canon, &tags)), vec![("Sarah", "sara"), ("Sara", "sara")]);
    assert_eq!(
        keys(&plan_mentions(&tokens, "2", &canon, &tags)),
        vec![("Sarah", "sara"), ("Sara", "sara\u{1f}boss")]
    );
}

#[test]
fn neighbours_are_co_mentioned_with_the_smaller_id_first() {
    let canon = NameMap::new();
    let none = OverrideMap::of(vec![]);
    let m = plan_mentions(&tokenize("Reza met Sara in Berlin"), "1", &canon, &none);
    assert_eq!(m.len(), 5);
    let e = plan_edges(&None, "1", &canon, &none, &m, &vec![7, 3, 3, 9, 7]);
    assert_eq!(
        flat(&e),
        vec![(3, 7, "co_mentioned"), (3, 9, "co_mentioned"), (7, 9, "co_mentioned")]
    );
}

#[test]
fn fewer_than_two_mentions_make_no_edge() {
    let canon = NameMap::new();
    let none = OverrideMap::of(vec![]);
    assert!(plan_edges(&None, "1", &canon, &none, &vec![], &vec![]).is_empty());
    let one = plan_mentions(&list(&["Sara"]), "1", &canon, &none);
    assert!(plan_edges(&None, "1", &canon, &none, &one, &vec![4]).is_empty());
}

#[test]
fn relations_make_directed_typed_edges() {
    let canon = NameMap::new();
    let none = OverrideMap::of(vec![]);
    let m = plan_mentions(&list(&["joe", "globex", "nadia"]), "1", &canon, &none);
    let ids = vec![1, 2, 3];
    let relations = Some(vec![
        triple("Joe", "closed", "Globex"),
        triple("nadia", "signed", "globex"),
        triple("globex", "hired", "joe"),
    ]);
    let e = plan_edges(&relations, "1", &canon, &none, &m, &ids);
    assert_eq!(flat(&e), vec![(1, 2, "closed"), (3, 2, "signed"), (2, 1, "hired")]);
}

#[test]
fn relations_to_unmentioned_or_equal_entities_make_no_edge() {
    let mut canon = NameMap::new();
    canon.insert("joseph".to_string(), "joe".to_string());
    let none = OverrideMap::of(vec![]);
    let m = plan_mentions(&list(&["joe", "globex"]), "1", &canon, &none);
    let relations = Some(vec![
        triple("joe", "met", "stranger"),
        triple("--", "met", "joe"),
        triple("joe", "is", "Joseph"),
    ]);
    assert!(plan_edges(&relations, "1", &canon, &none, &m, &vec![1, 2]).is_empty());
    assert!(plan_edges(&Some(vec![]), "1", &canon, &none, &m, &vec![1, 2]).is_empty());
}

#[test]
fn a_key_stands_for_its_last_mention() {
    let canon = NameMap::new();
    let none = OverrideMap::of(vec![]);
    let m = plan_mentions(&list(&["joe", "globex", "JOE"]), "1", &canon, &none);
    let e = plan_edges(&Some(vec![triple("joe", "runs", "globex")]), "1", &canon, &none, &m, &vec![1, 2, 5]);
    assert_eq!(flat(&e), vec![(5, 2, "runs")]);
}

#[test]
fn the_rule_is_union_unless_set() {
    assert_eq!(visibility_of(None), Visibility::Union);
    assert_eq!(visibility_of(Some("union")), Visibility::Union);
    assert_eq!(visibility_of(Some("intersection")), Visibility::Intersection);
    assert_eq!(visibility_of(Some("Intersection")), Visibility::Union);
}
