use pg_graphwright::decisions::{
    decision_pair, dropped_pair, override_entry, split_verdicts, NormPair,
};
use pg_graphwright::maps::{NameMap, OverrideMap};
use pg_graphwright::resolution::{
    canonical_map, collect_norms, entity_key_for, merge_pairs, resolve_names, stored_mentions,
    StoredRow,
};
use pg_graphwright::sets::{add_name, find_name, rank};
use pg_graphwright::storage::{marker, mentions};

fn list(items: &[&str]) -> Vec<String> {
    items.iter().map(|s| s.to_string()).collect()
}

fn pairs(items: &[(&str, &str)]) -> Vec<NormPair> {
    items.iter().map(|p| (p.0.to_string(), p.1.to_string())).collect()
}

fn entry(a: &str, b: &str, c: &str) -> (String, String, String) {
    (a.to_string(), b.to_string(), c.to_string())
}

const ALI: &str = "\u{0639}\u{0644}\u{06CC}";
const KHASHAYAR: &str = "\u{062E}\u{0634}\u{0627}\u{06CC}\u{0627}\u{0631}";

#[test]
fn a_decision_is_kept_under_the_ordered_keys() {
    let want = Some(("ali".to_string(), ALI.to_string()));
    assert_eq!(decision_pair("Ali", ALI), want);
    assert_eq!(decision_pair("\u{0639}\u{0644}\u{064A}!", " ALI "), want);
    assert_eq!(dropped_pair("Ali", ALI), want.clone().unwrap());
    assert_eq!(dropped_pair(ALI, "ali"), want.unwrap());
}

#[test]
fn there_is_nothing_to_decide_about_one_name_or_none() {
    assert_eq!(decision_pair("Ali", " ali."), None);
    assert_eq!(decision_pair("", "ali"), None);
    assert_eq!(decision_pair("ali", "?!"), None);
}

#[test]
fn verdicts_part_into_merges_and_splits() {
    let rows = vec![entry("a", "b", "merge"), entry("a", "c", "split"), entry("b", "c", "merge")];
    let (merges, splits) = split_verdicts(&rows);
    assert_eq!(merges, pairs(&[("a", "b"), ("b", "c")]));
    assert_eq!(splits, pairs(&[("a", "c")]));
}

#[test]
fn an_override_without_a_tag_stands_for_its_row() {
    assert_eq!(override_entry("(0,2)", "Sara!", ""), Some(("sara".to_string(), "(0,2)".to_string())));
    assert_eq!(override_entry("(0,2)", "Sara", "cousin"), Some(("sara".to_string(), "cousin".to_string())));
    assert_eq!(override_entry("(0,2)", "--", "cousin"), None);
}

#[test]
fn a_set_of_names_is_ordered_and_holds_each_once() {
    let mut names: Vec<String> = Vec::new();
    for n in ["sara", "berlin", "sara", ALI, "reza", ""] {
        add_name(&mut names, n.to_string());
    }
    assert_eq!(names, list(&["", "berlin", "reza", "sara", ALI]));
    assert_eq!(find_name(&names, "reza"), Some(2));
    assert_eq!(find_name(&names, "tehran"), None);
    assert_eq!(rank(&names, "tehran"), 4);
}

#[test]
fn name_maps_keep_the_last_value() {
    let mut m = NameMap::new();
    assert_eq!(m.get("a"), None);
    m.insert("b".to_string(), "x".to_string());
    m.insert("a".to_string(), "y".to_string());
    m.insert("b".to_string(), "z".to_string());
    assert_eq!(m.get("a"), Some("y".to_string()));
    assert_eq!(m.get("b"), Some("z".to_string()));
    assert_eq!(m.get("c"), None);
}

#[test]
fn override_maps_keep_the_last_entry() {
    let m = OverrideMap::of(vec![entry("1", "sara", "x"), entry("2", "sara", "y"), entry("1", "sara", "z")]);
    assert_eq!(m.get("1", "sara"), Some("z".to_string()));
    assert_eq!(m.get("2", "sara"), Some("y".to_string()));
    assert_eq!(m.get("1", "reza"), None);
    assert_eq!(m.get("3", "sara"), None);
}

#[test]
fn only_mentions_records_are_read_for_resolution() {
    let records = vec![
        mentions(0, 1, &list(&["sara", "tehran"])),
        marker(0, 2),
        mentions(0, 3, &list(&["reza", "berlin"])),
    ];
    let rows = stored_mentions(&records);
    assert_eq!(rows.len(), 2);
    assert_eq!(rows[0].source_pk, "(0,1)");
    assert_eq!(rows[0].surfaces, list(&["sara", "tehran"]));
    assert_eq!(rows[1].source_pk, "(0,3)");
    assert_eq!(rows[1].surfaces, list(&["reza", "berlin"]));
}

#[test]
fn norms_are_the_keys_of_all_surfaces() {
    let rows = vec![
        StoredRow { source_pk: "(0,1)".to_string(), surfaces: list(&["Sara", "--", "Tehran"]) },
        StoredRow { source_pk: "(0,2)".to_string(), surfaces: list(&["sara.", "Berlin"]) },
    ];
    assert_eq!(collect_norms(&rows), list(&["berlin", "sara", "tehran"]));
}

#[test]
fn merges_come_in_order_without_the_split_pairs() {
    let merges = merge_pairs(
        &pairs(&[("a", "b")]),
        &pairs(&[("c", "d"), ("e", "f")]),
        &pairs(&[("g", "h")]),
        &pairs(&[("c", "d"), ("i", "j")]),
        &pairs(&[("c", "d"), ("g", "h")]),
    );
    assert_eq!(merges, pairs(&[("a", "b"), ("e", "f"), ("i", "j")]));
}

#[test]
fn the_earliest_name_of_a_group_is_canonical() {
    let norms = list(&["a", "b", "c", "d", "e"]);
    let canon = canonical_map(&norms, &pairs(&[("c", "d"), ("b", "d"), ("x", "e")]));
    assert_eq!(canon.get("a"), Some("a".to_string()));
    assert_eq!(canon.get("b"), Some("b".to_string()));
    assert_eq!(canon.get("c"), Some("b".to_string()));
    assert_eq!(canon.get("d"), Some("b".to_string()));
    assert_eq!(canon.get("e"), Some("e".to_string()));
    assert_eq!(canon.get("x"), None);
}

fn entities(norms: &Vec<String>, manual: &[(&str, &str)], phonetic: &[(&str, &str)], splits: &[(&str, &str)]) -> usize {
    let none: Vec<NormPair> = Vec::new();
    let canon = resolve_names(norms, &pairs(manual), &pairs(phonetic), &none, &none, &pairs(splits));
    let mut keys: Vec<String> = norms.iter().map(|n| canon.get(n).unwrap()).collect();
    keys.sort();
    keys.dedup();
    keys.len()
}

#[test]
fn automatic_merges_are_split_merged_and_brought_back() {
    let norms = list(&["ali", "khashayar", KHASHAYAR, ALI]);
    let lane = [("khashayar", KHASHAYAR)];
    assert_eq!(entities(&norms, &[], &lane, &[]), 3);
    assert_eq!(entities(&norms, &[], &lane, &lane), 4);
    assert_eq!(entities(&norms, &[("ali", ALI)], &lane, &lane), 3);
    assert_eq!(entities(&norms, &[("ali", ALI)], &lane, &[]), 2);
}

#[test]
fn a_split_vetoes_its_own_pair_only() {
    let norms = list(&["a", "b", "c"]);
    assert_eq!(entities(&norms, &[("a", "b")], &[], &[("a", "b")]), 3);
    assert_eq!(entities(&norms, &[("a", "c"), ("b", "c")], &[], &[("a", "b")]), 1);
}

#[test]
fn two_spellings_of_one_name_share_an_entity() {
    let none = OverrideMap::of(vec![]);
    let canon = NameMap::new();
    let arabic = entity_key_for("\u{0639}\u{0644}\u{064A}", "(0,1)", &canon, &none);
    let persian = entity_key_for(ALI, "(0,2)", &canon, &none);
    assert_eq!(arabic, Some(ALI.to_string()));
    assert_eq!(arabic, persian);
    assert_eq!(entity_key_for("!", "(0,1)", &canon, &none), None);
}

#[test]
fn a_merge_gives_two_names_one_entity() {
    let canon = canonical_map(&list(&["ali", ALI]), &pairs(&[("ali", ALI)]));
    let none = OverrideMap::of(vec![]);
    assert_eq!(entity_key_for("Ali", "1", &canon, &none), Some("ali".to_string()));
    assert_eq!(entity_key_for(ALI, "2", &canon, &none), Some("ali".to_string()));
}

#[test]
fn an_override_separates_one_occurrence_and_folds_back() {
    let canon = NameMap::new();
    let split = OverrideMap::of(vec![entry("(0,2)", "sara", "(0,2)")]);
    assert_eq!(entity_key_for("Sara", "(0,1)", &canon, &split), Some("sara".to_string()));
    assert_eq!(
        entity_key_for("Sara", "(0,2)", &canon, &split),
        Some("sara\u{1f}(0,2)".to_string())
    );
    let dropped = OverrideMap::of(vec![]);
    assert_eq!(entity_key_for("Sara", "(0,2)", &canon, &dropped), Some("sara".to_string()));
}

#[test]
fn no_spelling_reaches_a_private_entity() {
    let canon = NameMap::new();
    let tags = OverrideMap::of(vec![entry("1", "a", "b")]);
    let private = entity_key_for("a", "1", &canon, &tags);
    let plain = entity_key_for("a\u{1f}b", "2", &canon, &tags);
    assert_eq!(private, Some("a\u{1f}b".to_string()));
    assert_eq!(plain, Some("ab".to_string()));
}

#[test]
fn a_tag_groups_occurrences_into_one_private_entity() {
    let mut canon = NameMap::new();
    canon.insert("sarah".to_string(), "sara".to_string());
    let tags = OverrideMap::of(vec![entry("1", "sara", "cousin"), entry("2", "sarah", "cousin"), entry("3", "sara", "boss")]);
    let key = |surface: &str, row: &str| entity_key_for(surface, row, &canon, &tags).unwrap();
    assert_eq!(key("Sara", "1"), "sara\u{1f}cousin");
    assert_eq!(key("Sara", "1"), key("Sarah", "2"));
    assert_ne!(key("Sara", "1"), key("Sara", "3"));
    assert_ne!(key("Sara", "1"), key("Sara", "4"));
}
