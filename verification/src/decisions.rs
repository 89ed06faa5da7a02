//! Human decisions about identity: merges and splits of two names, and
//! overrides that pin one occurrence of a name to an entity of its own.
use crate::names::{normalize_name, normalized};
use crate::text::{
    is_before, lemma_precedes_irreflexive, lemma_precedes_total, lemma_precedes_transitive,
    precedes, same_text,
};
use vstd::prelude::*;
use vstd::string::*;

verus! {

/// Two normalized names, the earlier one first.
pub type NormPair = (String, String);

/// The contents of a list of pairs.
pub open spec fn pair_texts(v: Seq<NormPair>) -> Seq<(Seq<char>, Seq<char>)> {
    v.map_values(|p: NormPair| (p.0@, p.1@))
}

/// The two names, the earlier one first.
pub open spec fn ordered(a: Seq<char>, b: Seq<char>) -> (Seq<char>, Seq<char>) {
    if precedes(a, b) {
        (a, b)
    } else {
        (b, a)
    }
}

/// The pair that a decision about `a` and `b` is kept under: their keys in
/// order; none where a key is empty or the keys are the same.
pub open spec fn decided_pair(a: Seq<char>, b: Seq<char>) -> Option<(Seq<char>, Seq<char>)> {
    let (na, nb) = (normalized(a), normalized(b));
    if na.len() == 0 || nb.len() == 0 || na == nb {
        None
    } else {
        Some(ordered(na, nb))
    }
}

fn order(a: String, b: String) -> (p: NormPair)
    ensures
        (p.0@, p.1@) == ordered(a@, b@),
{
    if is_before(a.as_str(), b.as_str()) {
        (a, b)
    } else {
        (b, a)
    }
}

/// The pair to record a decision about two names under, if there is one to
/// record.
pub fn decision_pair(a: &str, b: &str) -> (r: Option<NormPair>)
    ensures
        match r {
            Some(p) => decided_pair(a@, b@) == Some((p.0@, p.1@)),
            None => decided_pair(a@, b@) is None,
        },
{
    let na = normalize_name(a);
    let nb = normalize_name(b);
    if na.as_str().is_empty() || nb.as_str().is_empty() || same_text(na.as_str(), nb.as_str()) {
        return None;
    }
    Some(order(na, nb))
}

/// The pair under which a decision about two names is dropped.
pub fn dropped_pair(a: &str, b: &str) -> (p: NormPair)
    ensures
        (p.0@, p.1@) == ordered(normalized(a@), normalized(b@)),
{
    order(normalize_name(a), normalize_name(b))
}

/// The pairs of the decision rows whose verdict is a merge, or of those whose
/// verdict is not.
pub open spec fn pairs_decided(rows: Seq<(String, String, String)>, merge: bool) -> Seq<
    (Seq<char>, Seq<char>),
>
    decreases rows.len(),
{
    if rows.len() == 0 {
        seq![]
    } else {
        let before = pairs_decided(rows.drop_last(), merge);
        if (rows.last().2@ == "merge"@) == merge {
            before.push((rows.last().0@, rows.last().1@))
        } else {
            before
        }
    }
}

/// Parts decision rows (two names and a verdict) into merges and splits.
/// Whatever is not a merge keeps the names apart.
pub fn split_verdicts(rows: &Vec<(String, String, String)>) -> (r: (Vec<NormPair>, Vec<NormPair>))
    ensures
        pair_texts(r.0@) == pairs_decided(rows@, true),
        pair_texts(r.1@) == pairs_decided(rows@, false),
{
    let mut merges: Vec<NormPair> = Vec::new();
    let mut splits: Vec<NormPair> = Vec::new();
    assert(pair_texts(merges@) =~= Seq::<(Seq<char>, Seq<char>)>::empty());
    assert(pair_texts(splits@) =~= Seq::<(Seq<char>, Seq<char>)>::empty());
    let mut i: usize = 0;
    while i < rows.len()
        invariant
            i <= rows.len(),
            pair_texts(merges@) == pairs_decided(rows@.take(i as int), true),
            pair_texts(splits@) == pairs_decided(rows@.take(i as int), false),
        decreases rows.len() - i,
    {
        assert(rows@.take(i + 1).drop_last() =~= rows@.take(i as int));
        let ghost m = pair_texts(merges@);
        let ghost s = pair_texts(splits@);
        let pair: NormPair = (rows[i].0.clone(), rows[i].1.clone());
        if same_text(rows[i].2.as_str(), "merge") {
            merges.push(pair);
            assert(pair_texts(merges@) =~= m.push((pair.0@, pair.1@)));
        } else {
            splits.push(pair);
            assert(pair_texts(splits@) =~= s.push((pair.0@, pair.1@)));
        }
        i = i + 1;
    }
    assert(rows@.take(i as int) =~= rows@);
    (merges, splits)
}

/// The key and the tag that an override of one occurrence is kept under: none
/// where the surface normalizes away; an empty tag stands for the row itself.
pub fn override_entry(source_pk: &str, surface: &str, tag: &str) -> (r: Option<(String, String)>)
    ensures
        match r {
            Some(e) => {
                &&& normalized(surface@).len() > 0
                &&& e.0@ == normalized(surface@)
                &&& e.1@ == (if tag@.len() == 0 {
                    source_pk@
                } else {
                    tag@
                })
            },
            None => normalized(surface@).len() == 0,
        },
{
    let norm = normalize_name(surface);
    if norm.as_str().is_empty() {
        return None;
    }
    let tag = if tag.is_empty() {
        source_pk.to_owned()
    } else {
        tag.to_owned()
    };
    Some((norm, tag))
}

/// A decision does not depend on the order in which the names are given.
pub proof fn law_decisions_are_symmetric(a: Seq<char>, b: Seq<char>)
    ensures
        decided_pair(a, b) == decided_pair(b, a),
        ordered(a, b) == ordered(b, a),
{
    lemma_ordered_symmetric(normalized(a), normalized(b));
    lemma_ordered_symmetric(a, b);
}

proof fn lemma_ordered_symmetric(a: Seq<char>, b: Seq<char>)
    ensures
        ordered(a, b) == ordered(b, a),
{
    lemma_precedes_total(a, b);
    if precedes(a, b) && precedes(b, a) {
        lemma_precedes_transitive(a, b, a);
        lemma_precedes_irreflexive(a);
    }
}

/// The names of a recorded pair are keys, neither is empty, and the first
/// strictly precedes the second.
pub proof fn law_recorded_pairs_are_ordered(a: Seq<char>, b: Seq<char>)
    ensures
        match decided_pair(a, b) {
            Some(p) => precedes(p.0, p.1) && p.0.len() > 0 && p.1.len() > 0,
            None => true,
        },
{
    lemma_precedes_total(normalized(a), normalized(b));
}

/// Dropping the decision about two names, in either order, reaches the pair
/// that recording it used.
pub proof fn law_dropping_reaches_what_was_recorded(a: Seq<char>, b: Seq<char>)
    ensures
        decided_pair(a, b) is Some ==> decided_pair(a, b) == Some(
            ordered(normalized(a), normalized(b)),
        ),
        decided_pair(a, b) is Some ==> decided_pair(a, b) == Some(
            ordered(normalized(b), normalized(a)),
        ),
{
    lemma_ordered_symmetric(normalized(a), normalized(b));
}

/// There is a decision to record about two names exactly when both have keys
/// and the keys differ, however alike they are; it is recorded under exactly
/// those two keys, the earlier one first.
pub proof fn law_every_difference_can_be_decided(a: Seq<char>, b: Seq<char>)
    ensures
        normalized(a).len() > 0 && normalized(b).len() > 0 && normalized(a) != normalized(b)
            ==> decided_pair(a, b) is Some,
        normalized(a).len() == 0 || normalized(b).len() == 0 || normalized(a) == normalized(b)
            ==> decided_pair(a, b) is None,
        decided_pair(a, b) matches Some(p) ==> {
            &&& p == (normalized(a), normalized(b)) || p == (normalized(b), normalized(a))
            &&& precedes(p.0, p.1)
        },
{
    lemma_precedes_total(normalized(a), normalized(b));
}

/// Putting two names in order keeps both, and the second never comes before
/// the first.
pub proof fn law_ordering_keeps_both_names(a: Seq<char>, b: Seq<char>)
    ensures
        ordered(a, b) == (a, b) || ordered(a, b) == (b, a),
        !precedes(ordered(a, b).1, ordered(a, b).0),
{
    if precedes(a, b) && precedes(b, a) {
        lemma_precedes_transitive(a, b, a);
    }
    lemma_precedes_irreflexive(a);
}

/// A list of pairs holds each pair's texts at its place.
pub proof fn law_pair_texts_are_the_pairs(v: Seq<NormPair>)
    ensures
        pair_texts(v).len() == v.len(),
        forall|i: int| 0 <= i < v.len() ==> #[trigger] pair_texts(v)[i] == (v[i].0@, v[i].1@),
{
}

/// Of the decision rows every one is either a merge or a split, by its verdict
/// alone, and each list keeps the order of the rows.
pub proof fn law_every_verdict_counts(rows: Seq<(String, String, String)>)
    ensures
        pairs_decided(rows, true) == rows.filter(
            |r: (String, String, String)| r.2@ == "merge"@,
        ).map_values(|r: (String, String, String)| (r.0@, r.1@)),
        pairs_decided(rows, false) == rows.filter(
            |r: (String, String, String)| r.2@ != "merge"@,
        ).map_values(|r: (String, String, String)| (r.0@, r.1@)),
        pairs_decided(rows, true).len() + pairs_decided(rows, false).len() == rows.len(),
    decreases rows.len(),
{
    let merge = |r: (String, String, String)| r.2@ == "merge"@;
    let split = |r: (String, String, String)| r.2@ != "merge"@;
    let pair = |r: (String, String, String)| (r.0@, r.1@);
    reveal(Seq::filter);
    if rows.len() > 0 {
        law_every_verdict_counts(rows.drop_last());
    }
    assert(pairs_decided(rows, true) =~= rows.filter(merge).map_values(pair));
    assert(pairs_decided(rows, false) =~= rows.filter(split).map_values(pair));
}

} // verus!
