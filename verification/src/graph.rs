//! One row's part of the graph: the mentions that its tokens make, and the
//! edges between the entities they resolve to.
use crate::extraction::{triple_texts, Triple};
use crate::maps::{NameMap, OverrideMap};
use crate::resolution::{entity_key, entity_key_for};
use crate::text::{same_text, texts};
use vstd::prelude::*;
use vstd::string::*;

verus! {

/// A mention to record: the surface as it was extracted, and the key of the
/// entity it belongs to.
pub struct Mention {
    pub surface: String,
    pub key: String,
}

impl View for Mention {
    type V = (Seq<char>, Seq<char>);

    open spec fn view(&self) -> (Seq<char>, Seq<char>) {
        (self.surface@, self.key@)
    }
}

/// The contents of a list of mentions.
pub open spec fn mention_texts(v: Seq<Mention>) -> Seq<(Seq<char>, Seq<char>)> {
    v.map_values(|m: Mention| m@)
}

/// The mentions of a row: each token that does not normalize away, with its
/// entity key, in order.
pub open spec fn row_mentions(
    tokens: Seq<Seq<char>>,
    source_pk: Seq<char>,
    canon: Map<Seq<char>, Seq<char>>,
    overrides: Map<(Seq<char>, Seq<char>), Seq<char>>,
) -> Seq<(Seq<char>, Seq<char>)>
    decreases tokens.len(),
{
    if tokens.len() == 0 {
        seq![]
    } else {
        let before = row_mentions(tokens.drop_last(), source_pk, canon, overrides);
        match entity_key(tokens.last(), source_pk, canon, overrides) {
            Some(k) => before.push((tokens.last(), k)),
            None => before,
        }
    }
}

/// Resolves a row's tokens to the mentions to record, in order.
pub fn plan_mentions(
    tokens: &[String],
    source_pk: &str,
    canon: &NameMap,
    overrides: &OverrideMap,
) -> (out: Vec<Mention>)
    ensures
        mention_texts(out@) == row_mentions(texts(tokens@), source_pk@, canon@, overrides@),
{
    let ghost all = texts(tokens@);
    let mut out: Vec<Mention> = Vec::new();
    assert(mention_texts(out@) =~= Seq::<(Seq<char>, Seq<char>)>::empty());
    let mut i: usize = 0;
    while i < tokens.len()
        invariant
            i <= tokens.len(),
            all == texts(tokens@),
            mention_texts(out@) == row_mentions(
                all.take(i as int),
                source_pk@,
                canon@,
                overrides@,
            ),
        decreases tokens.len() - i,
    {
        assert(all.take(i + 1).drop_last() =~= all.take(i as int));
        assert(all.take(i + 1).last() == tokens@[i as int]@);
        match entity_key_for(tokens[i].as_str(), source_pk, canon, overrides) {
            Some(key) => {
                let ghost before = mention_texts(out@);
                let m = Mention { surface: tokens[i].clone(), key };
                let ghost seen = m@;
                out.push(m);
                assert(mention_texts(out@) =~= before.push(seen));
            },
            None => {},
        }
        i = i + 1;
    }
    assert(all.take(i as int) =~= all);
    out
}

/// A directed edge between two entities.
pub struct Edge {
    pub src: i64,
    pub dst: i64,
    pub predicate: String,
}

impl View for Edge {
    type V = (i64, i64, Seq<char>);

    open spec fn view(&self) -> (i64, i64, Seq<char>) {
        (self.src, self.dst, self.predicate@)
    }
}

/// The contents of a list of edges.
pub open spec fn edge_texts(v: Seq<Edge>) -> Seq<(i64, i64, Seq<char>)> {
    v.map_values(|e: Edge| e@)
}

/// The entity that a key stands for in a row: that of the last mention with
/// the key, if there is one.
pub open spec fn entity_of(
    mentions: Seq<(Seq<char>, Seq<char>)>,
    ids: Seq<i64>,
    key: Seq<char>,
) -> Option<i64>
    decreases mentions.len(),
{
    if mentions.len() == 0 {
        None
    } else if mentions.last().1 == key {
        Some(ids[mentions.len() - 1])
    } else {
        entity_of(mentions.drop_last(), ids, key)
    }
}

/// The edge that a relation makes in a row: its subject and object must both
/// be among the mentioned entities, and differ.
pub open spec fn typed_edge(
    triple: (Seq<char>, Seq<char>, Seq<char>),
    source_pk: Seq<char>,
    canon: Map<Seq<char>, Seq<char>>,
    overrides: Map<(Seq<char>, Seq<char>), Seq<char>>,
    mentions: Seq<(Seq<char>, Seq<char>)>,
    ids: Seq<i64>,
) -> Option<(i64, i64, Seq<char>)> {
    match (
        entity_key(triple.0, source_pk, canon, overrides),
        entity_key(triple.2, source_pk, canon, overrides),
    ) {
        (Some(sk), Some(ok)) => match (
            entity_of(mentions, ids, sk),
            entity_of(mentions, ids, ok),
        ) {
            (Some(s), Some(o)) => if s != o {
                Some((s, o, triple.1))
            } else {
                None
            },
            _ => None,
        },
        _ => None,
    }
}

/// The edges that a row's relations make, in order.
pub open spec fn typed_edges(
    triples: Seq<(Seq<char>, Seq<char>, Seq<char>)>,
    source_pk: Seq<char>,
    canon: Map<Seq<char>, Seq<char>>,
    overrides: Map<(Seq<char>, Seq<char>), Seq<char>>,
    mentions: Seq<(Seq<char>, Seq<char>)>,
    ids: Seq<i64>,
) -> Seq<(i64, i64, Seq<char>)>
    decreases triples.len(),
{
    if triples.len() == 0 {
        seq![]
    } else {
        let before = typed_edges(triples.drop_last(), source_pk, canon, overrides, mentions, ids);
        match typed_edge(triples.last(), source_pk, canon, overrides, mentions, ids) {
            Some(e) => before.push(e),
            None => before,
        }
    }
}

/// The undirected edges between neighbouring mentions of different entities:
/// the smaller id first.
pub open spec fn co_mention_edges(ids: Seq<i64>) -> Seq<(i64, i64, Seq<char>)>
    decreases ids.len(),
{
    if ids.len() < 2 {
        seq![]
    } else {
        let before = co_mention_edges(ids.drop_last());
        let a = ids[ids.len() - 2];
        let b = ids.last();
        if a == b {
            before
        } else if a < b {
            before.push((a, b, "co_mentioned"@))
        } else {
            before.push((b, a, "co_mentioned"@))
        }
    }
}

/// The edges of a row: its typed relations where a relation extractor is set,
/// else its co-mentions.
pub open spec fn row_edges(
    relations: Option<Seq<(Seq<char>, Seq<char>, Seq<char>)>>,
    source_pk: Seq<char>,
    canon: Map<Seq<char>, Seq<char>>,
    overrides: Map<(Seq<char>, Seq<char>), Seq<char>>,
    mentions: Seq<(Seq<char>, Seq<char>)>,
    ids: Seq<i64>,
) -> Seq<(i64, i64, Seq<char>)> {
    match relations {
        Some(triples) => typed_edges(triples, source_pk, canon, overrides, mentions, ids),
        None => co_mention_edges(ids),
    }
}

fn find_entity(mentions: &Vec<Mention>, ids: &Vec<i64>, key: &str) -> (r: Option<i64>)
    requires
        mentions.len() == ids.len(),
    ensures
        r == entity_of(mention_texts(mentions@), ids@, key@),
{
    let ghost all = mention_texts(mentions@);
    let mut i: usize = mentions.len();
    assert(all.take(i as int) =~= all);
    while i > 0
        invariant
            i <= mentions.len(),
            mentions.len() == ids.len(),
            all == mention_texts(mentions@),
            entity_of(all, ids@, key@) == entity_of(all.take(i as int), ids@, key@),
        decreases i,
    {
        assert(all.take(i as int).drop_last() =~= all.take(i - 1));
        if same_text(mentions[i - 1].key.as_str(), key) {
            return Some(ids[i - 1]);
        }
        i = i - 1;
    }
    None
}

fn plan_typed_edges(
    triples: &Vec<Triple>,
    source_pk: &str,
    canon: &NameMap,
    overrides: &OverrideMap,
    mentions: &Vec<Mention>,
    ids: &Vec<i64>,
) -> (out: Vec<Edge>)
    requires
        mentions.len() == ids.len(),
    ensures
        edge_texts(out@) == typed_edges(
            triple_texts(triples@),
            source_pk@,
            canon@,
            overrides@,
            mention_texts(mentions@),
            ids@,
        ),
{
    let ghost all = triple_texts(triples@);
    let mut out: Vec<Edge> = Vec::new();
    assert(edge_texts(out@) =~= Seq::<(i64, i64, Seq<char>)>::empty());
    let mut i: usize = 0;
    while i < triples.len()
        invariant
            i <= triples.len(),
            mentions.len() == ids.len(),
            all == triple_texts(triples@),
            edge_texts(out@) == typed_edges(
                all.take(i as int),
                source_pk@,
                canon@,
                overrides@,
                mention_texts(mentions@),
                ids@,
            ),
        decreases triples.len() - i,
    {
        let t = &triples[i];
        assert(all.take(i + 1).drop_last() =~= all.take(i as int));
        assert(all.take(i + 1).last() == (t.0@, t.1@, t.2@));
        if let (Some(sk), Some(ok)) = (
            entity_key_for(t.0.as_str(), source_pk, canon, overrides),
            entity_key_for(t.2.as_str(), source_pk, canon, overrides),
        ) {
            if let (Some(s), Some(o)) = (
                find_entity(mentions, ids, sk.as_str()),
                find_entity(mentions, ids, ok.as_str()),
            ) {
                if s != o {
                    let ghost before = edge_texts(out@);
                    let e = Edge { src: s, dst: o, predicate: t.1.clone() };
                    let ghost seen = e@;
                    out.push(e);
                    assert(edge_texts(out@) =~= before.push(seen));
                }
            }
        }
        i = i + 1;
    }
    assert(all.take(i as int) =~= all);
    out
}

fn plan_co_mentions(ids: &Vec<i64>) -> (out: Vec<Edge>)
    ensures
        edge_texts(out@) == co_mention_edges(ids@),
{
    let mut out: Vec<Edge> = Vec::new();
    assert(edge_texts(out@) =~= Seq::<(i64, i64, Seq<char>)>::empty());
    let mut i: usize = 1;
    while i < ids.len()
        invariant
            1 <= i,
            i <= ids.len() || ids.len() == 0,
            ids.len() > 0 ==> edge_texts(out@) == co_mention_edges(ids@.take(i as int)),
            ids.len() == 0 ==> edge_texts(out@) == co_mention_edges(ids@),
        decreases ids.len() - i,
    {
        assert(ids@.take(i + 1).drop_last() =~= ids@.take(i as int));
        let a: i64 = ids[i - 1];
        let b: i64 = ids[i];
        if a != b {
            let (src, dst) = if a < b {
                (a, b)
            } else {
                (b, a)
            };
            let ghost before = edge_texts(out@);
            let e = Edge { src, dst, predicate: "co_mentioned".to_owned() };
            let ghost seen = e@;
            out.push(e);
            assert(edge_texts(out@) =~= before.push(seen));
        }
        i = i + 1;
    }
    proof {
        if ids.len() > 0 {
            assert(ids@.take(i as int) =~= ids@);
        }
    }
    out
}

/// Builds a row's edges once its mentions have their entity ids. With
/// relations the edges are the directed, typed triples; without, neighbouring
/// mentions are co-mention edges.
pub fn plan_edges(
    relations: &Option<Vec<Triple>>,
    source_pk: &str,
    canon: &NameMap,
    overrides: &OverrideMap,
    mentions: &Vec<Mention>,
    ids: &Vec<i64>,
) -> (out: Vec<Edge>)
    requires
        mentions.len() == ids.len(),
    ensures
        edge_texts(out@) == row_edges(
            match *relations {
                Some(t) => Some(triple_texts(t@)),
                None => None,
            },
            source_pk@,
            canon@,
            overrides@,
            mention_texts(mentions@),
            ids@,
        ),
{
    match relations {
        Some(triples) => plan_typed_edges(triples, source_pk, canon, overrides, mentions, ids),
        None => plan_co_mentions(ids),
    }
}

proof fn lemma_entity_of_is_mentioned(
    mentions: Seq<(Seq<char>, Seq<char>)>,
    ids: Seq<i64>,
    key: Seq<char>,
)
    requires
        mentions.len() <= ids.len(),
        entity_of(mentions, ids, key) is Some,
    ensures
        ids.contains(entity_of(mentions, ids, key)->0),
    decreases mentions.len(),
{
    if mentions.last().1 != key {
        lemma_entity_of_is_mentioned(mentions.drop_last(), ids, key);
    }
}

proof fn lemma_typed_edges_between_mentions(
    triples: Seq<(Seq<char>, Seq<char>, Seq<char>)>,
    source_pk: Seq<char>,
    canon: Map<Seq<char>, Seq<char>>,
    overrides: Map<(Seq<char>, Seq<char>), Seq<char>>,
    mentions: Seq<(Seq<char>, Seq<char>)>,
    ids: Seq<i64>,
    i: int,
)
    requires
        mentions.len() == ids.len(),
        0 <= i < typed_edges(triples, source_pk, canon, overrides, mentions, ids).len(),
    ensures
        ({
            let e = typed_edges(triples, source_pk, canon, overrides, mentions, ids)[i];
            ids.contains(e.0) && ids.contains(e.1) && e.0 != e.1
        }),
    decreases triples.len(),
{
    let before = typed_edges(triples.drop_last(), source_pk, canon, overrides, mentions, ids);
    if i < before.len() {
        lemma_typed_edges_between_mentions(
            triples.drop_last(),
            source_pk,
            canon,
            overrides,
            mentions,
            ids,
            i,
        );
    } else {
        let t = triples.last();
        lemma_entity_of_is_mentioned(
            mentions,
            ids,
            entity_key(t.0, source_pk, canon, overrides)->0,
        );
        lemma_entity_of_is_mentioned(
            mentions,
            ids,
            entity_key(t.2, source_pk, canon, overrides)->0,
        );
    }
}

proof fn lemma_co_mentions_between_mentions(ids: Seq<i64>, i: int)
    requires
        0 <= i < co_mention_edges(ids).len(),
    ensures
        ({
            let e = co_mention_edges(ids)[i];
            ids.contains(e.0) && ids.contains(e.1) && e.0 < e.1 && e.2 == "co_mentioned"@
        }),
    decreases ids.len(),
{
    let p = ids.drop_last();
    let before = co_mention_edges(p);
    assert(ids.contains(ids[ids.len() - 2]));
    assert(ids.contains(ids[ids.len() - 1]));
    if i < before.len() {
        lemma_co_mentions_between_mentions(p, i);
        let e = before[i];
        let j = choose|j: int| 0 <= j < p.len() && p[j] == e.0;
        let k = choose|k: int| 0 <= k < p.len() && p[k] == e.1;
        assert(ids[j] == e.0);
        assert(ids[k] == e.1);
    }
}

/// An edge of a row joins two different entities that the row mentions. It
/// never points at an entity without a mention behind it.
pub proof fn law_edges_join_mentioned_entities(
    relations: Option<Seq<(Seq<char>, Seq<char>, Seq<char>)>>,
    source_pk: Seq<char>,
    canon: Map<Seq<char>, Seq<char>>,
    overrides: Map<(Seq<char>, Seq<char>), Seq<char>>,
    mentions: Seq<(Seq<char>, Seq<char>)>,
    ids: Seq<i64>,
    i: int,
)
    requires
        mentions.len() == ids.len(),
        0 <= i < row_edges(relations, source_pk, canon, overrides, mentions, ids).len(),
    ensures
        ({
            let e = row_edges(relations, source_pk, canon, overrides, mentions, ids)[i];
            ids.contains(e.0) && ids.contains(e.1) && e.0 != e.1
        }),
{
    match relations {
        Some(triples) => {
            lemma_typed_edges_between_mentions(
                triples,
                source_pk,
                canon,
                overrides,
                mentions,
                ids,
                i,
            );
        },
        None => {
            lemma_co_mentions_between_mentions(ids, i);
        },
    }
}

/// A co-mention edge is undirected: it is kept with the smaller id first.
pub proof fn law_co_mentions_put_the_smaller_id_first(ids: Seq<i64>, i: int)
    requires
        0 <= i < co_mention_edges(ids).len(),
    ensures
        co_mention_edges(ids)[i].0 < co_mention_edges(ids)[i].1,
        co_mention_edges(ids)[i].2 == "co_mentioned"@,
{
    lemma_co_mentions_between_mentions(ids, i);
}

/// Every token that has an entity key is a mention under that key, in order, and
/// no other is.
pub proof fn law_every_token_with_a_key_is_mentioned(
    a: Seq<Seq<char>>,
    b: Seq<Seq<char>>,
    x: Seq<char>,
    source_pk: Seq<char>,
    canon: Map<Seq<char>, Seq<char>>,
    overrides: Map<(Seq<char>, Seq<char>), Seq<char>>,
)
    ensures
        row_mentions(Seq::<Seq<char>>::empty(), source_pk, canon, overrides).len() == 0,
        entity_key(x, source_pk, canon, overrides) matches Some(k) ==> row_mentions(
            seq![x],
            source_pk,
            canon,
            overrides,
        ) == seq![(x, k)],
        entity_key(x, source_pk, canon, overrides) is None ==> row_mentions(
            seq![x],
            source_pk,
            canon,
            overrides,
        ).len() == 0,
        row_mentions(a + b, source_pk, canon, overrides) == row_mentions(a, source_pk, canon, overrides) + row_mentions(b, source_pk, canon, overrides),
    decreases b.len(),
{
    assert(seq![x].drop_last() =~= Seq::<Seq<char>>::empty());
    assert(row_mentions(Seq::<Seq<char>>::empty(), source_pk, canon, overrides).len() == 0);
    assert(seq![x].last() == x);
    if b.len() == 0 {
        assert(a + b =~= a);
        assert(row_mentions(a, source_pk, canon, overrides) + row_mentions(b, source_pk, canon, overrides) =~= row_mentions(a, source_pk, canon, overrides));
    } else {
        law_every_token_with_a_key_is_mentioned(a, b.drop_last(), x, source_pk, canon, overrides);
        assert((a + b).drop_last() =~= a + b.drop_last());
        assert((a + b).last() == b.last());
        assert(row_mentions(a + b, source_pk, canon, overrides) =~= row_mentions(a, source_pk, canon, overrides) + row_mentions(b, source_pk, canon, overrides));
    }
}

/// The co-mention edges of a row, all at once: one for each two neighbouring
/// mentions of different entities, in order, the smaller id first.
pub proof fn law_co_mentions_are_the_differing_neighbours(
    source_pk: Seq<char>,
    canon: Map<Seq<char>, Seq<char>>,
    overrides: Map<(Seq<char>, Seq<char>), Seq<char>>,
    mentions: Seq<(Seq<char>, Seq<char>)>,
    ids: Seq<i64>,
)
    ensures
        ids.len() == 0 ==> row_edges(None, source_pk, canon, overrides, mentions, ids).len() == 0,
        ids.len() > 0 ==> row_edges(None, source_pk, canon, overrides, mentions, ids) == Seq::new(
            (ids.len() - 1) as nat,
            |i: int|
                (
                    if ids[i] < ids[i + 1] {
                        ids[i]
                    } else {
                        ids[i + 1]
                    },
                    if ids[i] < ids[i + 1] {
                        ids[i + 1]
                    } else {
                        ids[i]
                    },
                    "co_mentioned"@,
                ),
        ).filter(|e: (i64, i64, Seq<char>)| e.0 != e.1),
{
    if ids.len() > 0 {
        lemma_co_mentions(ids);
    }
}

proof fn lemma_co_mentions(ids: Seq<i64>)
    requires
        ids.len() > 0,
    ensures
        co_mention_edges(ids) == Seq::new(
            (ids.len() - 1) as nat,
            |i: int|
                (
                    if ids[i] < ids[i + 1] {
                        ids[i]
                    } else {
                        ids[i + 1]
                    },
                    if ids[i] < ids[i + 1] {
                        ids[i + 1]
                    } else {
                        ids[i]
                    },
                    "co_mentioned"@,
                ),
        ).filter(|e: (i64, i64, Seq<char>)| e.0 != e.1),
    decreases ids.len(),
{
    let differ = |e: (i64, i64, Seq<char>)| e.0 != e.1;
    let pair = |i: int|
        (
            if ids[i] < ids[i + 1] {
                ids[i]
            } else {
                ids[i + 1]
            },
            if ids[i] < ids[i + 1] {
                ids[i + 1]
            } else {
                ids[i]
            },
            "co_mentioned"@,
        );
    let all = Seq::new((ids.len() - 1) as nat, pair);
    reveal(Seq::filter);
    if ids.len() == 1 {
        assert(co_mention_edges(ids) =~= all.filter(differ));
    } else {
        let p = ids.drop_last();
        lemma_co_mentions(p);
        let front = Seq::new(
            (p.len() - 1) as nat,
            |i: int|
                (
                    if p[i] < p[i + 1] {
                        p[i]
                    } else {
                        p[i + 1]
                    },
                    if p[i] < p[i + 1] {
                        p[i + 1]
                    } else {
                        p[i]
                    },
                    "co_mentioned"@,
                ),
        );
        assert(all.drop_last() =~= front);
        assert(all.last() == pair(ids.len() - 2));
        assert(co_mention_edges(ids) =~= all.filter(differ));
    }
}

/// No co-mention is missing: every two neighbouring mentions of different
/// entities are joined in the row's edges, whatever their ids.
pub proof fn law_every_two_neighbours_are_joined(
    source_pk: Seq<char>,
    canon: Map<Seq<char>, Seq<char>>,
    overrides: Map<(Seq<char>, Seq<char>), Seq<char>>,
    mentions: Seq<(Seq<char>, Seq<char>)>,
    ids: Seq<i64>,
    i: int,
)
    requires
        0 <= i,
        i + 1 < ids.len(),
        ids[i] != ids[i + 1],
    ensures
        ids[i] < ids[i + 1] ==> row_edges(
            None,
            source_pk,
            canon,
            overrides,
            mentions,
            ids,
        ).contains((ids[i], ids[i + 1], "co_mentioned"@)),
        ids[i + 1] < ids[i] ==> row_edges(
            None,
            source_pk,
            canon,
            overrides,
            mentions,
            ids,
        ).contains((ids[i + 1], ids[i], "co_mentioned"@)),
    decreases ids.len(),
{
    let p = ids.drop_last();
    let all = co_mention_edges(ids);
    let e = if ids[i] < ids[i + 1] {
        (ids[i], ids[i + 1], "co_mentioned"@)
    } else {
        (ids[i + 1], ids[i], "co_mentioned"@)
    };
    if i + 1 < p.len() {
        law_every_two_neighbours_are_joined(source_pk, canon, overrides, mentions, p, i);
        let before = co_mention_edges(p);
        let k = choose|k: int| 0 <= k < before.len() && before[k] == e;
        assert(all[k] == e);
    } else {
        assert(all[all.len() - 1] == e);
    }
}

/// The entity of a key is that of the last mention with the key; a key without
/// a mention has none.
pub proof fn law_a_key_stands_for_its_last_mention(
    mentions: Seq<(Seq<char>, Seq<char>)>,
    ids: Seq<i64>,
    key: Seq<char>,
    p: int,
)
    ensures
        0 <= p < mentions.len() && mentions[p].1 == key && (forall|j: int|
            p < j < mentions.len() ==> (#[trigger] mentions[j]).1 != key) ==> entity_of(
            mentions,
            ids,
            key,
        ) == Some(ids[p]),
        (forall|j: int| 0 <= j < mentions.len() ==> (#[trigger] mentions[j]).1 != key)
            ==> entity_of(mentions, ids, key) is None,
    decreases mentions.len(),
{
    if mentions.len() > 0 {
        let before = mentions.drop_last();
        let last = mentions[mentions.len() - 1];
        law_a_key_stands_for_its_last_mention(before, ids, key, p);
        assert(last == mentions.last());
        if forall|j: int| 0 <= j < mentions.len() ==> (#[trigger] mentions[j]).1 != key {
            assert forall|j: int| 0 <= j < before.len() implies (#[trigger] before[j]).1 != key by {
                assert(before[j] == mentions[j]);
            }
            assert(last.1 != key);
        }
        if 0 <= p < before.len() && mentions[p].1 == key && (forall|j: int|
            p < j < mentions.len() ==> (#[trigger] mentions[j]).1 != key) {
            assert(before[p] == mentions[p]);
            assert forall|j: int| p < j < before.len() implies (#[trigger] before[j]).1 != key by {
                assert(before[j] == mentions[j]);
            }
            assert(last.1 != key);
        }
    }
}

/// One relation makes at most one edge: from the entity of the last mention
/// with its subject's key to that of the last with its object's key, under its
/// own predicate, where the two differ. A relation with an end that is not
/// mentioned makes none.
pub proof fn law_what_one_relation_makes(
    t: (Seq<char>, Seq<char>, Seq<char>),
    source_pk: Seq<char>,
    canon: Map<Seq<char>, Seq<char>>,
    overrides: Map<(Seq<char>, Seq<char>), Seq<char>>,
    mentions: Seq<(Seq<char>, Seq<char>)>,
    ids: Seq<i64>,
    p: int,
    q: int,
)
    ensures
        0 <= p < mentions.len() && 0 <= q < mentions.len() && entity_key(
            t.0,
            source_pk,
            canon,
            overrides,
        ) == Some(mentions[p].1) && entity_key(t.2, source_pk, canon, overrides) == Some(
            mentions[q].1,
        ) && (forall|j: int| p < j < mentions.len() ==> (#[trigger] mentions[j]).1 != mentions[p].1)
            && (forall|j: int|
            q < j < mentions.len() ==> (#[trigger] mentions[j]).1 != mentions[q].1) ==> row_edges(
            Some(seq![t]),
            source_pk,
            canon,
            overrides,
            mentions,
            ids,
        ) == (if ids[p] != ids[q] {
            seq![(ids[p], ids[q], t.1)]
        } else {
            Seq::empty()
        }),
        (forall|j: int|
            0 <= j < mentions.len() ==> entity_key(t.0, source_pk, canon, overrides) != Some(
                (#[trigger] mentions[j]).1,
            )) || (forall|j: int|
            0 <= j < mentions.len() ==> entity_key(t.2, source_pk, canon, overrides) != Some(
                (#[trigger] mentions[j]).1,
            )) ==> row_edges(
            Some(seq![t]),
            source_pk,
            canon,
            overrides,
            mentions,
            ids,
        ).len() == 0,
{
    let sk = entity_key(t.0, source_pk, canon, overrides);
    let ok = entity_key(t.2, source_pk, canon, overrides);
    let none = Seq::<(Seq<char>, Seq<char>, Seq<char>)>::empty();
    assert(seq![t].drop_last() =~= none);
    assert(seq![t].last() == t);
    assert(typed_edges(none, source_pk, canon, overrides, mentions, ids).len() == 0);
    if sk is Some {
        law_a_key_stands_for_its_last_mention(mentions, ids, sk->0, p);
    }
    if ok is Some {
        law_a_key_stands_for_its_last_mention(mentions, ids, ok->0, q);
    }
    let all = typed_edges(seq![t], source_pk, canon, overrides, mentions, ids);
    if 0 <= p < ids.len() && 0 <= q < ids.len() {
        if all.len() == 1 {
            assert(all =~= seq![all[0]]);
        }
    }
}

/// The relations of a row make their edges one by one: two lists of relations
/// make the edges of the first and then those of the second, and none is lost,
/// also not between the same two entities.
pub proof fn law_every_relation_counts(
    a: Seq<(Seq<char>, Seq<char>, Seq<char>)>,
    b: Seq<(Seq<char>, Seq<char>, Seq<char>)>,
    source_pk: Seq<char>,
    canon: Map<Seq<char>, Seq<char>>,
    overrides: Map<(Seq<char>, Seq<char>), Seq<char>>,
    mentions: Seq<(Seq<char>, Seq<char>)>,
    ids: Seq<i64>,
)
    ensures
        row_edges(
            Some(Seq::empty()),
            source_pk,
            canon,
            overrides,
            mentions,
            ids,
        ).len() == 0,
        row_edges(Some(a + b), source_pk, canon, overrides, mentions, ids) == row_edges(
            Some(a),
            source_pk,
            canon,
            overrides,
            mentions,
            ids,
        ) + row_edges(Some(b), source_pk, canon, overrides, mentions, ids),
    decreases b.len(),
{
    let ea = typed_edges(a, source_pk, canon, overrides, mentions, ids);
    let eb = typed_edges(b, source_pk, canon, overrides, mentions, ids);
    if b.len() == 0 {
        assert(a + b =~= a);
        assert(ea + eb =~= ea);
    } else {
        law_every_relation_counts(a, b.drop_last(), source_pk, canon, overrides, mentions, ids);
        assert((a + b).drop_last() =~= a + b.drop_last());
        assert((a + b).last() == b.last());
        assert(typed_edges(a + b, source_pk, canon, overrides, mentions, ids) =~= ea + eb);
    }
}

/// A row has an edge exactly when one of its relations says so: its subject's
/// and its object's keys stand for the two different entities, and the
/// predicate is its own.
pub proof fn law_typed_edges_are_the_relations(
    triples: Seq<(Seq<char>, Seq<char>, Seq<char>)>,
    source_pk: Seq<char>,
    canon: Map<Seq<char>, Seq<char>>,
    overrides: Map<(Seq<char>, Seq<char>), Seq<char>>,
    mentions: Seq<(Seq<char>, Seq<char>)>,
    ids: Seq<i64>,
    e: (i64, i64, Seq<char>),
)
    ensures
        row_edges(Some(triples), source_pk, canon, overrides, mentions, ids).contains(e)
            <==> exists|i: int|
            0 <= i < triples.len() && {
                let t = #[trigger] triples[i];
                &&& entity_key(t.0, source_pk, canon, overrides) is Some
                &&& entity_key(t.2, source_pk, canon, overrides) is Some
                &&& entity_of(mentions, ids, entity_key(t.0, source_pk, canon, overrides)->0)
                    == Some(e.0)
                &&& entity_of(mentions, ids, entity_key(t.2, source_pk, canon, overrides)->0)
                    == Some(e.1)
                &&& e.0 != e.1
                &&& e.2 == t.1
            },
    decreases triples.len(),
{
    let all = typed_edges(triples, source_pk, canon, overrides, mentions, ids);
    if triples.len() > 0 {
        let front = triples.drop_last();
        let before = typed_edges(front, source_pk, canon, overrides, mentions, ids);
        law_typed_edges_are_the_relations(front, source_pk, canon, overrides, mentions, ids, e);
        let last = triples[triples.len() - 1];
        assert(last == triples.last());
        assert forall|i: int| 0 <= i < front.len() implies front[i] == #[trigger] triples[i] by {}
        if before.contains(e) {
            let k = choose|k: int| 0 <= k < before.len() && before[k] == e;
            assert(all[k] == e);
            let i = choose|i: int|
                0 <= i < front.len() && {
                    let t = #[trigger] front[i];
                    &&& entity_key(t.0, source_pk, canon, overrides) is Some
                    &&& entity_key(t.2, source_pk, canon, overrides) is Some
                    &&& entity_of(mentions, ids, entity_key(t.0, source_pk, canon, overrides)->0)
                        == Some(e.0)
                    &&& entity_of(mentions, ids, entity_key(t.2, source_pk, canon, overrides)->0)
                        == Some(e.1)
                    &&& e.0 != e.1
                    &&& e.2 == t.1
                };
            assert(triples[i] == front[i]);
        }
        if typed_edge(last, source_pk, canon, overrides, mentions, ids) == Some(e) {
            assert(all[all.len() - 1] == e);
        }
        if all.contains(e) && !before.contains(e) {
            let k = choose|k: int| 0 <= k < all.len() && all[k] == e;
            if k < before.len() {
                assert(before[k] == e);
            }
        }
    }
}

/// A list of mentions, and a list of edges, holds each one's contents at its
/// place.
pub proof fn law_mentions_and_edges_are_seen_whole(m: Seq<Mention>, e: Seq<Edge>)
    ensures
        mention_texts(m).len() == m.len(),
        forall|i: int|
            0 <= i < m.len() ==> #[trigger] mention_texts(m)[i] == (m[i].surface@, m[i].key@),
        edge_texts(e).len() == e.len(),
        forall|i: int|
            0 <= i < e.len() ==> #[trigger] edge_texts(e)[i] == (
                e[i].src,
                e[i].dst,
                e[i].predicate@,
            ),
{
}

} // verus!
