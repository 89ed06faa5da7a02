//! Extraction of entity surfaces from a document: the built-in tokenizer, and
//! what the pluggable SQL functions (extractor, judge, relation extractor) are
//! asked and how their replies are taken.
use crate::text::{
    blank, has_text, is_blank, join_texts, joined, law_runs_are_cut_at_other_characters,
    law_runs_are_cut_nowhere_else, lemma_runs_apart, letter_or_digit, lowercase, runs, split_runs,
    strip, stripped, texts, white_space, CharClass,
};
use vstd::prelude::*;
use vstd::string::*;

verus! {

/// A list without its repetitions: each item where it first occurs.
pub open spec fn firsts(items: Seq<Seq<char>>) -> Seq<Seq<char>>
    decreases items.len(),
{
    if items.len() == 0 {
        seq![]
    } else {
        let before = firsts(items.drop_last());
        if before.contains(items.last()) {
            before
        } else {
            before.push(items.last())
        }
    }
}

/// The tokens of a text: its alphanumeric runs, lowercased, each once.
pub open spec fn tokens_of(text: Seq<char>) -> Seq<Seq<char>> {
    firsts(runs(text, CharClass::Alphanumeric).map_values(|w: Seq<char>| lowercase(w)))
}

/// Splits a row into lowercased tokens, deduplicated within the row, in the
/// order of first occurrence. Letters and digits of any script survive.
pub fn tokenize(text: &str) -> (out: Vec<String>)
    ensures
        texts(out@) == tokens_of(text@),
{
    let raw = split_runs(text, CharClass::Alphanumeric);
    let mut out: Vec<String> = Vec::new();
    let ghost all = runs(text@, CharClass::Alphanumeric).map_values(|w: Seq<char>| lowercase(w));
    assert(texts(out@) =~= Seq::<Seq<char>>::empty());
    let mut i: usize = 0;
    while i < raw.len()
        invariant
            i <= raw.len(),
            all.len() == raw.len(),
            forall|j: int| 0 <= j < raw.len() ==> all[j] == lowercase(#[trigger] raw@[j]@),
            texts(out@) == firsts(all.take(i as int)),
        decreases raw.len() - i,
    {
        let norm = raw[i].as_str().to_lowercase();
        assert(all.take(i + 1).drop_last() =~= all.take(i as int));
        assert(all.take(i + 1).last() == norm@);
        if !has_text(&out, norm.as_str()) {
            let ghost before = texts(out@);
            out.push(norm);
            assert(texts(out@) =~= before.push(norm@));
        }
        i = i + 1;
    }
    assert(all.take(i as int) =~= all);
    out
}

/// What came back from a pluggable SQL function that returns `text[]`.
pub enum Reply {
    /// The function is not configured, so nothing was asked.
    NotAsked,
    /// An array, whose elements may be NULL.
    Array(Vec<Option<String>>),
    /// NULL instead of an array.
    Null,
    /// The call raised an error.
    Failed,
}

/// The elements of an array that are not NULL, in order.
pub open spec fn present(items: Seq<Option<String>>) -> Seq<Seq<char>>
    decreases items.len(),
{
    if items.len() == 0 {
        seq![]
    } else {
        match items.last() {
            Some(s) => present(items.drop_last()).push(s@),
            None => present(items.drop_last()),
        }
    }
}

fn keep_present(items: &Vec<Option<String>>) -> (out: Vec<String>)
    ensures
        texts(out@) == present(items@),
{
    let mut out: Vec<String> = Vec::new();
    assert(texts(out@) =~= Seq::<Seq<char>>::empty());
    let mut i: usize = 0;
    while i < items.len()
        invariant
            i <= items.len(),
            texts(out@) == present(items@.take(i as int)),
        decreases items.len() - i,
    {
        assert(items@.take(i + 1).drop_last() =~= items@.take(i as int));
        match &items[i] {
            Some(s) => {
                let ghost before = texts(out@);
                out.push(s.clone());
                assert(texts(out@) =~= before.push(s@));
            },
            None => {},
        }
        i = i + 1;
    }
    assert(items@.take(i as int) =~= items@);
    out
}

/// Whether a setting names a function: it is there and not blank.
pub open spec fn is_configured(setting: Option<&str>) -> bool {
    match setting {
        Some(name) => !blank(name@),
        None => false,
    }
}

/// Whether a setting names a function.
pub fn configured(setting: Option<&str>) -> (r: bool)
    ensures
        r == is_configured(setting),
{
    match setting {
        Some(name) => !is_blank(name),
        None => false,
    }
}

/// Whether edges come from a relation extractor rather than from co-mention.
pub fn relation_extractor_set(setting: Option<&str>) -> (r: bool)
    ensures
        r == is_configured(setting),
{
    configured(setting)
}

/// The embedder's name without surrounding white space, if one is configured.
pub fn embedder_name(setting: Option<&str>) -> (r: Option<String>)
    ensures
        match r {
            Some(name) => setting is Some && stripped(setting->0@).len() > 0 && name@ == stripped(
                setting->0@,
            ),
            None => setting is Some ==> stripped(setting->0@).len() == 0,
        },
{
    match setting {
        Some(raw) => {
            let name = strip(raw);
            if name.as_str().is_empty() {
                None
            } else {
                Some(name)
            }
        },
        None => None,
    }
}

/// The query that applies a one-argument function to a quoted literal.
pub fn seam_call(name: &str, literal: &str) -> (sql: String)
    ensures
        sql@ == "SELECT "@ + name@ + "("@ + literal@ + ")"@,
{
    let mut sql = "SELECT ".to_owned();
    sql.append(name);
    sql.append("(");
    sql.append(literal);
    sql.append(")");
    sql
}

/// The query that applies the judge to a quoted document and the quoted
/// surfaces that were extracted from it.
fn judge_call(name: &str, literal: &str, surfaces: &Vec<String>) -> (sql: String)
    ensures
        sql@ == "SELECT "@ + name@ + "("@ + literal@ + ", ARRAY["@ + joined(
            texts(surfaces@),
            ", "@,
        ) + "]::text[])"@,
{
    let mut sql = "SELECT ".to_owned();
    sql.append(name);
    sql.append("(");
    sql.append(literal);
    sql.append(", ARRAY[");
    let list = join_texts(surfaces, ", ");
    sql.append(list.as_str());
    sql.append("]::text[])");
    sql
}

/// The query that a setting's one-argument function is asked with; none where
/// the setting names no function.
pub fn seam_query(setting: Option<&str>, literal: &str) -> (r: Option<String>)
    ensures
        match r {
            Some(sql) => is_configured(setting) && sql@ == "SELECT "@ + setting->0@ + "("@
                + literal@ + ")"@,
            None => !is_configured(setting),
        },
{
    match setting {
        Some(name) if configured(setting) => Some(seam_call(name, literal)),
        _ => None,
    }
}

/// The query that the judge is asked with; none where the setting names no
/// function.
pub fn judge_query(setting: Option<&str>, literal: &str, surfaces: &Vec<String>) -> (r: Option<
    String,
>)
    ensures
        match r {
            Some(sql) => is_configured(setting) && sql@ == "SELECT "@ + setting->0@ + "("@
                + literal@ + ", ARRAY["@ + joined(texts(surfaces@), ", "@) + "]::text[])"@,
            None => !is_configured(setting),
        },
{
    match setting {
        Some(name) if configured(setting) => Some(judge_call(name, literal, surfaces)),
        _ => None,
    }
}

/// The surfaces of a document: the tokenizer's where no extractor is
/// configured, else the elements that the extractor returned; none where it
/// failed or returned NULL.
pub open spec fn extracted_surfaces(text: Seq<char>, reply: Reply) -> Seq<Seq<char>> {
    match reply {
        Reply::NotAsked => tokens_of(text),
        Reply::Array(items) => present(items@),
        Reply::Null => seq![],
        Reply::Failed => seq![],
    }
}

/// Takes the extractor's reply for a document.
pub fn run_extractor(text: &str, reply: Reply) -> (out: Vec<String>)
    ensures
        texts(out@) == extracted_surfaces(text@, reply),
{
    match reply {
        Reply::NotAsked => tokenize(text),
        Reply::Array(items) => keep_present(&items),
        _ => {
            let out: Vec<String> = Vec::new();
            assert(texts(out@) =~= Seq::<Seq<char>>::empty());
            out
        },
    }
}

/// The surfaces that the judge lets through: those it returned, or the
/// extractor's own where there is no judge, it failed, or it returned NULL.
pub open spec fn judged_surfaces(surfaces: Seq<Seq<char>>, reply: Reply) -> Seq<Seq<char>> {
    match reply {
        Reply::Array(items) => present(items@),
        _ => surfaces,
    }
}

/// Takes the judge's reply for the extracted surfaces.
pub fn judge(surfaces: Vec<String>, reply: Reply) -> (out: Vec<String>)
    ensures
        texts(out@) == judged_surfaces(texts(surfaces@), reply),
{
    match reply {
        Reply::Array(items) => keep_present(&items),
        _ => surfaces,
    }
}

/// A subject, a predicate and an object.
pub type Triple = (String, String, String);

/// The contents of a list of triples.
pub open spec fn triple_texts(v: Seq<Triple>) -> Seq<(Seq<char>, Seq<char>, Seq<char>)> {
    v.map_values(|t: Triple| (t.0@, t.1@, t.2@))
}

/// A flat list cut into triples; one or two items left over at the end are
/// dropped.
pub open spec fn triples_of(flat: Seq<Seq<char>>) -> Seq<(Seq<char>, Seq<char>, Seq<char>)> {
    Seq::new(flat.len() / 3, |i: int| (flat[3 * i], flat[3 * i + 1], flat[3 * i + 2]))
}

/// The relations of a document, as the relation extractor returned them.
pub open spec fn extracted_relations(reply: Reply) -> Seq<(Seq<char>, Seq<char>, Seq<char>)> {
    match reply {
        Reply::Array(items) => triples_of(present(items@)),
        _ => seq![],
    }
}

/// Takes the relation extractor's reply: NULL elements are skipped, and what
/// is left is read as (subject, predicate, object) triples.
pub fn run_relation_extractor(reply: Reply) -> (out: Vec<Triple>)
    ensures
        triple_texts(out@) == extracted_relations(reply),
{
    let mut out: Vec<Triple> = Vec::new();
    assert(triple_texts(out@) =~= Seq::<(Seq<char>, Seq<char>, Seq<char>)>::empty());
    match reply {
        Reply::Array(items) => {
            let flat = keep_present(&items);
            let ghost all = triples_of(texts(flat@));
            let n: usize = flat.len() / 3;
            let mut i: usize = 0;
            while i < n
                invariant
                    i <= n,
                    n == flat.len() / 3,
                    all == triples_of(texts(flat@)),
                    triple_texts(out@) == all.take(i as int),
                decreases n - i,
            {
                let ghost before = triple_texts(out@);
                out.push((flat[3 * i].clone(), flat[3 * i + 1].clone(), flat[3 * i + 2].clone()));
                proof {
                    assert(triple_texts(out@) =~= before.push(all[i as int]));
                    assert(all.take(i + 1) =~= before.push(all[i as int]));
                }
                i = i + 1;
            }
            assert(all.take(i as int) =~= all);
        },
        _ => {},
    }
    out
}

/// The table and the column to read row texts from for the relation extractor:
/// none where no relation extractor is set or the watch does not name both.
pub fn relation_source(
    set: bool,
    table: Option<String>,
    column: Option<String>,
) -> (r: Option<(String, String)>)
    ensures
        match r {
            Some(p) => set && table == Some(p.0) && column == Some(p.1),
            None => !set || table is None || column is None,
        },
{
    if !set {
        return None;
    }
    match (table, column) {
        (Some(t), Some(c)) => Some((t, c)),
        _ => None,
    }
}

/// The tokens of a row are pairwise different, and a token is there exactly
/// when a run of the text lowercases to it.
pub proof fn law_tokens_are_distinct_and_complete(text: Seq<char>)
    ensures
        tokens_of(text).no_duplicates(),
        tokens_of(text).to_set() == runs(text, CharClass::Alphanumeric).map_values(
            |w: Seq<char>| lowercase(w),
        ).to_set(),
{
    lemma_firsts(runs(text, CharClass::Alphanumeric).map_values(|w: Seq<char>| lowercase(w)));
}

proof fn lemma_firsts_append(x: Seq<Seq<char>>, y: Seq<Seq<char>>)
    ensures
        firsts(x + y) == firsts(x) + firsts(y).filter(|t: Seq<char>| !firsts(x).contains(t)),
    decreases y.len(),
{
    let fx = firsts(x);
    let fresh = |t: Seq<char>| !fx.contains(t);
    reveal(Seq::filter);
    if y.len() == 0 {
        assert(x + y =~= x);
        assert(firsts(y) =~= Seq::<Seq<char>>::empty());
        assert(fx + firsts(y).filter(fresh) =~= fx);
    } else {
        let p = y.drop_last();
        let t = y.last();
        lemma_firsts_append(x, p);
        assert((x + y).drop_last() =~= x + p);
        assert((x + y).last() == t);
        let before = firsts(x + p);
        let kept = firsts(p).filter(fresh);
        assert(before == fx + kept);
        // The last item is in the whole exactly when it is in either part.
        if fx.contains(t) {
            let k = choose|k: int| 0 <= k < fx.len() && fx[k] == t;
            assert(before[k] == t);
        } else if firsts(p).contains(t) {
            let k = choose|k: int| 0 <= k < firsts(p).len() && firsts(p)[k] == t;
            firsts(p).lemma_filter_contains(fresh, k);
            let m = choose|m: int| 0 <= m < kept.len() && kept[m] == t;
            assert(before[fx.len() + m] == t);
        } else if before.contains(t) {
            let k = choose|k: int| 0 <= k < before.len() && before[k] == t;
            if k < fx.len() {
                assert(fx[k] == t);
            } else {
                assert(kept[k - fx.len()] == t);
                assert(kept.contains(t));
                firsts(p).lemma_filter_contains_rev(fresh, t);
            }
        }
        if !firsts(p).contains(t) {
            assert(firsts(y) == firsts(p).push(t));
            assert(firsts(y).drop_last() =~= firsts(p));
        }
        assert(firsts(x + y) =~= fx + firsts(y).filter(fresh));
    }
}

/// The tokens of two texts joined by a space are those of the first, followed
/// by those of the second that are new, in their order.
pub proof fn law_tokens_of_joined_texts(a: Seq<char>, b: Seq<char>)
    ensures
        tokens_of(a + seq![' '] + b) == tokens_of(a) + tokens_of(b).filter(
            |t: Seq<char>| !tokens_of(a).contains(t),
        ),
{
    let class = CharClass::Alphanumeric;
    let lower = |w: Seq<char>| lowercase(w);
    assert(a + seq![' '] + b =~= a.push(' ') + b);
    lemma_runs_apart(a, ' ', b, class);
    let x = runs(a, class).map_values(lower);
    let y = runs(b, class).map_values(lower);
    assert((runs(a, class) + runs(b, class)).map_values(lower) =~= x + y);
    lemma_firsts_append(x, y);
}

proof fn lemma_firsts(items: Seq<Seq<char>>)
    ensures
        firsts(items).no_duplicates(),
        firsts(items).to_set() == items.to_set(),
    decreases items.len(),
{
    if items.len() > 0 {
        let p = items.drop_last();
        lemma_firsts(p);
        let before = firsts(p);
        assert forall|x: Seq<char>| firsts(items).to_set().contains(x) == items.to_set().contains(
            x,
        ) by {
            assert(before.to_set().contains(x) == p.to_set().contains(x));
            assert(before.to_set().contains(items.last()) == p.to_set().contains(items.last()));
            if p.contains(x) {
                let k = choose|k: int| 0 <= k < p.len() && p[k] == x;
                assert(items[k] == x);
            }
            if items.contains(x) {
                let k = choose|k: int| 0 <= k < items.len() && items[k] == x;
                if k < p.len() {
                    assert(p[k] == x);
                }
            }
            if before.contains(x) && !before.contains(items.last()) {
                let k = choose|k: int| 0 <= k < before.len() && before[k] == x;
                assert(firsts(items)[k] == x);
            }
            if !before.contains(items.last()) {
                assert(firsts(items)[before.len() as int] == items.last());
            }
            assert(items[items.len() - 1] == items.last());
        }
        assert(firsts(items).to_set() =~= items.to_set());
    } else {
        assert(firsts(items).to_set() =~= items.to_set());
    }
}

/// The tokens of a text character by character: a text of letters and digits
/// alone, of whatever scripts, is one token, lowercased; any other character
/// parts the text, and of what follows it only the new tokens count.
pub proof fn law_how_a_text_is_tokenized(word: Seq<char>, a: Seq<char>, c: char, b: Seq<char>)
    ensures
        tokens_of(Seq::empty()) == Seq::<Seq<char>>::empty(),
        word.len() > 0 && (forall|i: int|
            0 <= i < word.len() ==> letter_or_digit(#[trigger] word[i]) && !white_space(word[i]))
            ==> tokens_of(word) == seq![lowercase(word)],
        !(letter_or_digit(c) && !white_space(c)) ==> tokens_of(a + seq![c] + b) == tokens_of(a)
            + tokens_of(b).filter(|t: Seq<char>| !tokens_of(a).contains(t)),
{
    let class = CharClass::Alphanumeric;
    let lower = |w: Seq<char>| lowercase(w);
    law_runs_are_cut_nowhere_else(word);
    law_runs_are_cut_at_other_characters(a, c, b);
    let none = Seq::<Seq<char>>::empty();
    assert(runs(Seq::<char>::empty(), class).map_values(lower) =~= none);
    let one = seq![lowercase(word)];
    assert(seq![word].map_values(lower) =~= one);
    assert(one.drop_last() =~= none);
    assert(firsts(none) =~= none);
    assert(firsts(one) =~= one);
    let x = runs(a, class).map_values(lower);
    let y = runs(b, class).map_values(lower);
    assert((runs(a, class) + runs(b, class)).map_values(lower) =~= x + y);
    lemma_firsts_append(x, y);
}

/// What the extractor's reply is worth: without an extractor the tokens, of an
/// array its elements that are not NULL, and nothing of NULL or an error.
pub proof fn law_what_an_extractor_reply_is_worth(text: Seq<char>, items: Vec<Option<String>>)
    ensures
        extracted_surfaces(text, Reply::NotAsked) == tokens_of(text),
        extracted_surfaces(text, Reply::Array(items)) == present(items@),
        extracted_surfaces(text, Reply::Null) == Seq::<Seq<char>>::empty(),
        extracted_surfaces(text, Reply::Failed) == Seq::<Seq<char>>::empty(),
{
}

/// What the judge's reply is worth: an array replaces the surfaces, and they
/// stay as they are in every other case.
pub proof fn law_what_a_judge_reply_is_worth(
    surfaces: Seq<Seq<char>>,
    items: Vec<Option<String>>,
)
    ensures
        judged_surfaces(surfaces, Reply::Array(items)) == present(items@),
        judged_surfaces(surfaces, Reply::NotAsked) == surfaces,
        judged_surfaces(surfaces, Reply::Null) == surfaces,
        judged_surfaces(surfaces, Reply::Failed) == surfaces,
{
}

/// What the relation extractor's reply is worth: of an array as many triples as
/// its elements that are not NULL make, each of three neighbours in order, and
/// nothing of every other reply.
pub proof fn law_what_a_relation_reply_is_worth(items: Vec<Option<String>>, i: int)
    ensures
        extracted_relations(Reply::Array(items)).len() == present(items@).len() / 3,
        0 <= i < present(items@).len() / 3 ==> extracted_relations(Reply::Array(items))[i] == (
            present(items@)[3 * i],
            present(items@)[3 * i + 1],
            present(items@)[3 * i + 2],
        ),
        extracted_relations(Reply::NotAsked).len() == 0,
        extracted_relations(Reply::Null).len() == 0,
        extracted_relations(Reply::Failed).len() == 0,
{
}

/// A setting names a function exactly when it is there and holds a character
/// that is no white space.
pub proof fn law_a_setting_names_a_function_unless_blank(name: &str)
    ensures
        !is_configured(None),
        is_configured(Some(name)) <==> exists|i: int|
            0 <= i < name@.len() && !white_space(#[trigger] name@[i]),
{
}

/// A list of triples holds each triple's texts at its place.
pub proof fn law_triple_texts_are_the_triples(v: Seq<Triple>)
    ensures
        triple_texts(v).len() == v.len(),
        forall|i: int|
            0 <= i < v.len() ==> #[trigger] triple_texts(v)[i] == (v[i].0@, v[i].1@, v[i].2@),
{
}

/// Of an array every element that is not NULL is kept, in order, and no other.
pub proof fn law_null_elements_are_skipped(
    a: Seq<Option<String>>,
    b: Seq<Option<String>>,
    x: Option<String>,
)
    ensures
        present(Seq::<Option<String>>::empty()).len() == 0,
        x is Some ==> present(seq![x]) == seq![x->0@],
        x is None ==> present(seq![x]).len() == 0,
        present(a + b) == present(a) + present(b),
    decreases b.len(),
{
    assert(seq![x].drop_last() =~= Seq::<Option<String>>::empty());
    assert(present(Seq::<Option<String>>::empty()).len() == 0);
    assert(seq![x].last() == x);
    if b.len() == 0 {
        assert(a + b =~= a);
        assert(present(a) + present(b) =~= present(a));
    } else {
        law_null_elements_are_skipped(a, b.drop_last(), x);
        assert((a + b).drop_last() =~= a + b.drop_last());
        assert((a + b).last() == b.last());
        assert(present(a + b) =~= present(a) + present(b));
    }
}

} // verus!
