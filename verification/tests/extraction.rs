use pg_graphwright::extraction::{
    configured, embedder_name, judge, judge_query, relation_extractor_set, relation_source,
    run_extractor, run_relation_extractor, seam_call, seam_query, tokenize, Reply,
};

fn list(items: &[&str]) -> Vec<String> {
    items.iter().map(|s| s.to_string()).collect()
}

fn array(items: &[Option<&str>]) -> Reply {
    Reply::Array(items.iter().map(|s| s.map(|t| t.to_string())).collect())
}

#[test]
fn tokens_are_lowercased_and_kept_once_in_order() {
    assert_eq!(tokenize("Sara Tehran"), list(&["sara", "tehran"]));
    assert_eq!(tokenize("Sara met SARA, then sara-jane."), list(&["sara", "met", "then", "jane"]));
    assert_eq!(tokenize("Caf\u{00C9} 42"), list(&["caf\u{00E9}", "42"]));
    assert_eq!(tokenize("\u{0639}\u{0644}\u{06CC}\u{060C} Ali"), list(&["\u{0639}\u{0644}\u{06CC}", "ali"]));
    assert!(tokenize(" -- ").is_empty());
}

#[test]
fn tokens_of_joined_texts_are_those_of_each_once() {
    assert_eq!(tokenize("Sara Tehran Reza sara Berlin"), list(&["sara", "tehran", "reza", "berlin"]));
    assert_eq!(tokenize("Sara Tehran"), list(&["sara", "tehran"]));
    assert_eq!(tokenize("Reza sara Berlin"), list(&["reza", "sara", "berlin"]));
}

#[test]
fn a_setting_names_a_function_unless_blank() {
    assert!(!configured(None));
    assert!(!configured(Some("")));
    assert!(!configured(Some("  \t")));
    assert!(configured(Some("public.caps")));
    assert!(!relation_extractor_set(Some(" ")));
    assert!(relation_extractor_set(Some("public.rels")));
}

#[test]
fn the_embedder_name_is_stripped() {
    assert_eq!(embedder_name(Some(" test_embed ")), Some("test_embed".to_string()));
    assert_eq!(embedder_name(Some("  ")), None);
    assert_eq!(embedder_name(None), None);
}

#[test]
fn a_seam_is_called_on_a_quoted_literal() {
    assert_eq!(seam_call("public.caps", "'it''s'"), "SELECT public.caps('it''s')");
    assert_eq!(seam_query(Some("f"), "'x'"), Some("SELECT f('x')".to_string()));
    assert_eq!(seam_query(Some(" f "), "'x'"), Some("SELECT  f ('x')".to_string()));
    assert_eq!(seam_query(Some(" "), "'x'"), None);
    assert_eq!(seam_query(None, "'x'"), None);
}

#[test]
fn the_judge_gets_the_document_and_the_surfaces() {
    assert_eq!(
        judge_query(Some("j"), "'doc'", &list(&["'a'", "'b'"])),
        Some("SELECT j('doc', ARRAY['a', 'b']::text[])".to_string())
    );
    assert_eq!(
        judge_query(Some("j"), "'doc'", &list(&[])),
        Some("SELECT j('doc', ARRAY[]::text[])".to_string())
    );
    assert_eq!(judge_query(Some(""), "'doc'", &list(&["'a'"])), None);
    assert_eq!(judge_query(None, "'doc'", &list(&["'a'"])), None);
}

#[test]
fn without_an_extractor_the_tokenizer_runs() {
    assert_eq!(run_extractor("Sara Tehran", Reply::NotAsked), list(&["sara", "tehran"]));
}

#[test]
fn an_extractor_replaces_the_tokenizer() {
    let text = "had coffee with Sara in Tehran";
    let reply = array(&[Some("sara"), None, Some("tehran"), Some("sara")]);
    assert_eq!(run_extractor(text, reply), list(&["sara", "tehran", "sara"]));
    assert!(run_extractor(text, Reply::Null).is_empty());
    assert!(run_extractor(text, Reply::Failed).is_empty());
}

#[test]
fn the_judge_trims_what_was_extracted() {
    let surfaces = list(&["sara", "secret", "tehran"]);
    let reply = array(&[Some("sara"), Some("tehran"), None]);
    assert_eq!(judge(surfaces, reply), list(&["sara", "tehran"]));
    assert!(judge(list(&["a"]), array(&[])).is_empty());
}

#[test]
fn a_missing_or_failing_judge_keeps_the_surfaces() {
    assert_eq!(judge(list(&["a", "b"]), Reply::NotAsked), list(&["a", "b"]));
    assert_eq!(judge(list(&["a", "b"]), Reply::Null), list(&["a", "b"]));
    assert_eq!(judge(list(&["a", "b"]), Reply::Failed), list(&["a", "b"]));
}

#[test]
fn relations_come_in_threes() {
    let reply = array(&[
        Some("joe"), Some("closed"), None, Some("globex"),
        Some("nadia"), Some("signed"), Some("globex"),
        Some("left"), Some("over"),
    ]);
    let t = |a: &str, b: &str, c: &str| (a.to_string(), b.to_string(), c.to_string());
    assert_eq!(
        run_relation_extractor(reply),
        vec![t("joe", "closed", "globex"), t("nadia", "signed", "globex")]
    );
    assert!(run_relation_extractor(Reply::NotAsked).is_empty());
    assert!(run_relation_extractor(Reply::Null).is_empty());
    assert!(run_relation_extractor(Reply::Failed).is_empty());
}

#[test]
fn row_texts_are_read_only_for_a_relation_extractor() {
    let t = || Some("notes".to_string());
    let c = || Some("body".to_string());
    assert_eq!(relation_source(true, t(), c()), Some(("notes".to_string(), "body".to_string())));
    assert_eq!(relation_source(false, t(), c()), None);
    assert_eq!(relation_source(true, None, c()), None);
    assert_eq!(relation_source(true, t(), None), None);
}
