//! Identity resolution across rows: the names that the stored rows mention,
//! the merges that link them, the canonical name of each, and the entity key
//! of one occurrence.
use crate::decisions::{decided_pair, pair_texts, NormPair};
use crate::maps::{NameMap, OverrideMap};
use crate::names::{
    folded, law_keys_hold_no_separator, law_script_variants_share_a_key, normalize_name,
    normalized, OVERRIDE_SEP,
};
use crate::sets::{add_name, find_name, in_order};
use crate::storage::{contents, ctid, ctid_text, decode, decoded, row_of, MENTIONS};
use crate::text::{
    lemma_precedes_irreflexive, lemma_precedes_total, lemma_precedes_transitive, precedes,
    same_text, texts,
};
use vstd::prelude::*;
use vstd::string::*;

verus! {

/// A row's surfaces as index storage holds them; the row is named by its ctid.
pub struct StoredRow {
    pub source_pk: String,
    pub surfaces: Vec<String>,
}

impl View for StoredRow {
    type V = (Seq<char>, Seq<Seq<char>>);

    open spec fn view(&self) -> (Seq<char>, Seq<Seq<char>>) {
        (self.source_pk@, texts(self.surfaces@))
    }
}

/// The contents of a list of stored rows.
pub open spec fn row_texts(rows: Seq<StoredRow>) -> Seq<(Seq<char>, Seq<Seq<char>>)> {
    rows.map_values(|r: StoredRow| r@)
}

/// The rows and surfaces of the mentions records, in order. Markers are left
/// out.
pub open spec fn mention_rows(records: Seq<Seq<u8>>) -> Seq<(Seq<char>, Seq<Seq<char>>)>
    decreases records.len(),
{
    if records.len() == 0 {
        seq![]
    } else {
        let before = mention_rows(records.drop_last());
        let r = records.last();
        if decoded(r).0 == MENTIONS {
            before.push((ctid_text(row_of(r)), decoded(r).3))
        } else {
            before
        }
    }
}

/// Reads the mentions out of the stored records.
pub fn stored_mentions(records: &Vec<Vec<u8>>) -> (out: Vec<StoredRow>)
    ensures
        row_texts(out@) == mention_rows(contents(records@)),
{
    let ghost all = contents(records@);
    let mut out: Vec<StoredRow> = Vec::new();
    assert(row_texts(out@) =~= Seq::<(Seq<char>, Seq<Seq<char>>)>::empty());
    let mut i: usize = 0;
    while i < records.len()
        invariant
            i <= records.len(),
            all == contents(records@),
            row_texts(out@) == mention_rows(all.take(i as int)),
        decreases records.len() - i,
    {
        assert(all.take(i + 1).drop_last() =~= all.take(i as int));
        assert(all.take(i + 1).last() == records@[i as int]@);
        let (tag, block, offset, surfaces) = decode(records[i].as_slice());
        if tag == MENTIONS {
            let ghost before = row_texts(out@);
            let row = StoredRow { source_pk: ctid(block, offset), surfaces };
            let ghost seen = row@;
            out.push(row);
            assert(row_texts(out@) =~= before.push(seen));
        }
        i = i + 1;
    }
    assert(all.take(i as int) =~= all);
    out
}

/// Whether `n` is the nonempty key of a surface of one of the rows.
pub open spec fn is_norm(rows: Seq<(Seq<char>, Seq<Seq<char>>)>, n: Seq<char>) -> bool {
    &&& n.len() > 0
    &&& exists|i: int, j: int|
        0 <= i < rows.len() && 0 <= j < rows[i].1.len() && normalized(#[trigger] rows[i].1[j]) == n
}

/// The set of names that the rows mention: the nonempty keys of their
/// surfaces, in order.
pub fn collect_norms(rows: &Vec<StoredRow>) -> (norms: Vec<String>)
    ensures
        in_order(texts(norms@)),
        forall|n: Seq<char>| #[trigger]
            texts(norms@).to_set().contains(n) <==> is_norm(row_texts(rows@), n),
{
    let ghost all = row_texts(rows@);
    let mut norms: Vec<String> = Vec::new();
    let mut i: usize = 0;
    while i < rows.len()
        invariant
            i <= rows.len(),
            all == row_texts(rows@),
            in_order(texts(norms@)),
            forall|n: Seq<char>| #[trigger]
                texts(norms@).to_set().contains(n) <==> is_norm(all.take(i as int), n),
        decreases rows.len() - i,
    {
        let row = &rows[i];
        let ghost start = texts(norms@).to_set();
        let ghost names = texts(row.surfaces@);
        let mut j: usize = 0;
        while j < row.surfaces.len()
            invariant
                j <= row.surfaces.len(),
                names == texts(row.surfaces@),
                in_order(texts(norms@)),
                forall|n: Seq<char>| #[trigger]
                    texts(norms@).to_set().contains(n) <==> start.contains(n) || (n.len() > 0
                        && exists|k: int| 0 <= k < j && normalized(#[trigger] names[k]) == n),
            decreases row.surfaces.len() - j,
        {
            let n = normalize_name(row.surfaces[j].as_str());
            let ghost key = n@;
            let ghost before = texts(norms@).to_set();
            assert(names[j as int] == row.surfaces@[j as int]@);
            if !n.as_str().is_empty() {
                add_name(&mut norms, n);
            }
            proof {
                assert forall|m: Seq<char>| #[trigger]
                    texts(norms@).to_set().contains(m) <==> start.contains(m) || (m.len() > 0
                        && exists|k: int|
                        0 <= k < j + 1 && normalized(#[trigger] names[k]) == m) by {
                    if before.contains(m) && !start.contains(m) {
                        let k = choose|k: int| 0 <= k < j && normalized(#[trigger] names[k]) == m;
                        assert(0 <= k < j + 1 && normalized(names[k]) == m);
                    }
                    if m.len() > 0 && exists|k: int|
                        0 <= k < j + 1 && normalized(#[trigger] names[k]) == m {
                        let k = choose|k: int|
                            0 <= k < j + 1 && normalized(#[trigger] names[k]) == m;
                        if k == j {
                            assert(m == key);
                        } else {
                            assert(before.contains(m));
                        }
                    }
                    assert(normalized(names[j as int]) == key);
                }
            }
            j = j + 1;
        }
        proof {
            assert(all[i as int].1 == names);
            assert forall|n: Seq<char>| #[trigger]
                texts(norms@).to_set().contains(n) <==> is_norm(all.take(i + 1), n) by {
                let t0 = all.take(i as int);
                let t1 = all.take(i + 1);
                if start.contains(n) {
                    assert(is_norm(t0, n));
                    let (a, b) = choose|a: int, b: int|
                        0 <= a < t0.len() && 0 <= b < t0[a].1.len() && normalized(
                            #[trigger] t0[a].1[b],
                        ) == n;
                    assert(t1[a].1[b] == t0[a].1[b]);
                }
                if n.len() > 0 && exists|k: int| 0 <= k < j && normalized(#[trigger] names[k]) == n {
                    let k = choose|k: int| 0 <= k < j && normalized(#[trigger] names[k]) == n;
                    assert(normalized(t1[i as int].1[k]) == n);
                }
                if is_norm(t1, n) {
                    let (a, b) = choose|a: int, b: int|
                        0 <= a < t1.len() && 0 <= b < t1[a].1.len() && normalized(
                            #[trigger] t1[a].1[b],
                        ) == n;
                    if a < i {
                        assert(t0[a].1[b] == t1[a].1[b]);
                        assert(is_norm(t0, n));
                        assert(start.contains(n));
                    } else {
                        assert(normalized(names[b]) == n);
                    }
                }
            }
        }
        i = i + 1;
    }
    assert(all.take(i as int) =~= all);
    norms
}

/// The pairs to merge: the human merges, then what the phonetic, the fuzzy and
/// the embedding stage propose, less every pair that a human split.
pub open spec fn effective_merges(
    proposed: Seq<(Seq<char>, Seq<char>)>,
    splits: Seq<(Seq<char>, Seq<char>)>,
) -> Seq<(Seq<char>, Seq<char>)>
    decreases proposed.len(),
{
    if proposed.len() == 0 {
        seq![]
    } else {
        let before = effective_merges(proposed.drop_last(), splits);
        if splits.contains(proposed.last()) {
            before
        } else {
            before.push(proposed.last())
        }
    }
}

fn has_pair(pairs: &Vec<NormPair>, p: &NormPair) -> (r: bool)
    ensures
        r == pair_texts(pairs@).contains((p.0@, p.1@)),
{
    let mut i: usize = 0;
    while i < pairs.len()
        invariant
            i <= pairs.len(),
            forall|j: int| 0 <= j < i ==> pair_texts(pairs@)[j] != (p.0@, p.1@),
        decreases pairs.len() - i,
    {
        if same_text(pairs[i].0.as_str(), p.0.as_str()) && same_text(
            pairs[i].1.as_str(),
            p.1.as_str(),
        ) {
            assert(pair_texts(pairs@)[i as int] == (p.0@, p.1@));
            return true;
        }
        i = i + 1;
    }
    false
}

fn keep_unsplit(out: &mut Vec<NormPair>, lane: &Vec<NormPair>, splits: &Vec<NormPair>)
    ensures
        pair_texts(final(out)@) == pair_texts(old(out)@) + effective_merges(
            pair_texts(lane@),
            pair_texts(splits@),
        ),
{
    let ghost start = pair_texts(out@);
    let ghost all = pair_texts(lane@);
    let ghost s = pair_texts(splits@);
    let mut i: usize = 0;
    assert(start + effective_merges(all.take(0), s) =~= start);
    while i < lane.len()
        invariant
            i <= lane.len(),
            all == pair_texts(lane@),
            s == pair_texts(splits@),
            pair_texts(out@) == start + effective_merges(all.take(i as int), s),
        decreases lane.len() - i,
    {
        assert(all.take(i + 1).drop_last() =~= all.take(i as int));
        assert(all.take(i + 1).last() == (lane@[i as int].0@, lane@[i as int].1@));
        if !has_pair(splits, &lane[i]) {
            let ghost before = pair_texts(out@);
            let p: NormPair = (lane[i].0.clone(), lane[i].1.clone());
            out.push(p);
            proof {
                assert(pair_texts(out@) =~= before.push((p.0@, p.1@)));
                assert(pair_texts(out@) =~= start + effective_merges(all.take(i + 1), s));
            }
        }
        i = i + 1;
    }
    assert(all.take(i as int) =~= all);
}

proof fn lemma_effective_append(
    a: Seq<(Seq<char>, Seq<char>)>,
    b: Seq<(Seq<char>, Seq<char>)>,
    splits: Seq<(Seq<char>, Seq<char>)>,
)
    ensures
        effective_merges(a + b, splits) == effective_merges(a, splits) + effective_merges(
            b,
            splits,
        ),
    decreases b.len(),
{
    if b.len() == 0 {
        assert(a + b =~= a);
        assert(effective_merges(a, splits) + effective_merges(b, splits) =~= effective_merges(
            a,
            splits,
        ));
    } else {
        lemma_effective_append(a, b.drop_last(), splits);
        assert((a + b).drop_last() =~= a + b.drop_last());
        assert((a + b).last() == b.last());
        assert(effective_merges(a + b, splits) =~= effective_merges(a, splits) + effective_merges(
            b,
            splits,
        ));
    }
}

/// Puts the merges together: the human ones and those of the three lanes, in
/// this order, without the pairs that a human split.
pub fn merge_pairs(
    manual: &Vec<NormPair>,
    phonetic: &Vec<NormPair>,
    fuzzy: &Vec<NormPair>,
    embedded: &Vec<NormPair>,
    splits: &Vec<NormPair>,
) -> (merges: Vec<NormPair>)
    ensures
        pair_texts(merges@) == effective_merges(
            pair_texts(manual@) + pair_texts(phonetic@) + pair_texts(fuzzy@) + pair_texts(
                embedded@,
            ),
            pair_texts(splits@),
        ),
{
    let ghost m = pair_texts(manual@);
    let ghost p = pair_texts(phonetic@);
    let ghost f = pair_texts(fuzzy@);
    let ghost e = pair_texts(embedded@);
    let ghost s = pair_texts(splits@);
    let mut out: Vec<NormPair> = Vec::new();
    keep_unsplit(&mut out, manual, splits);
    proof {
        assert(pair_texts(out@) =~= effective_merges(m, s));
    }
    keep_unsplit(&mut out, phonetic, splits);
    keep_unsplit(&mut out, fuzzy, splits);
    keep_unsplit(&mut out, embedded, splits);
    proof {
        lemma_effective_append(m, p, s);
        lemma_effective_append(m + p, f, s);
        lemma_effective_append(m + p + f, e, s);
    }
    out
}

/// The earlier of two names.
pub open spec fn lesser(a: Seq<char>, b: Seq<char>) -> Seq<char> {
    if precedes(b, a) {
        b
    } else {
        a
    }
}

/// The canonical name of `n` under the merges: each merge joins the two groups
/// that its names are in, and the earlier of the two canonical names stands
/// for the joined group. A name that nothing merges is its own.
pub open spec fn canonical(merges: Seq<(Seq<char>, Seq<char>)>, n: Seq<char>) -> Seq<char>
    decreases merges.len(),
{
    if merges.len() == 0 {
        n
    } else {
        let before = merges.drop_last();
        let a = canonical(before, merges.last().0);
        let b = canonical(before, merges.last().1);
        let c = canonical(before, n);
        if c == a || c == b {
            lesser(a, b)
        } else {
            c
        }
    }
}

/// The canonical name of every name in `norms`.
pub open spec fn canonical_names(
    norms: Set<Seq<char>>,
    merges: Seq<(Seq<char>, Seq<char>)>,
) -> Map<Seq<char>, Seq<char>> {
    Map::new(|n: Seq<char>| norms.contains(n), |n: Seq<char>| canonical(merges, n))
}

proof fn lemma_places(nodes: Seq<Seq<char>>, i: int, j: int)
    requires
        in_order(nodes),
        0 <= i < nodes.len(),
        0 <= j < nodes.len(),
    ensures
        (nodes[i] == nodes[j]) == (i == j),
        lesser(nodes[i], nodes[j]) == nodes[if i <= j { i } else { j }],
{
    lemma_precedes_irreflexive(nodes[i]);
    if i < j {
        assert(precedes(nodes[i], nodes[j]));
        if precedes(nodes[j], nodes[i]) {
            lemma_precedes_transitive(nodes[i], nodes[j], nodes[i]);
        }
    } else if j < i {
        assert(precedes(nodes[j], nodes[i]));
    }
}

/// Every name that a norm or a merge mentions, in order.
fn all_names(norms: &Vec<String>, merges: &Vec<NormPair>) -> (nodes: Vec<String>)
    ensures
        in_order(texts(nodes@)),
        forall|i: int| 0 <= i < norms.len() ==> texts(nodes@).contains(#[trigger] norms@[i]@),
        forall|i: int|
            0 <= i < merges.len() ==> texts(nodes@).contains((#[trigger] merges@[i]).0@)
                && texts(nodes@).contains(merges@[i].1@),
{
    let mut nodes: Vec<String> = Vec::new();
    let mut i: usize = 0;
    while i < norms.len()
        invariant
            i <= norms.len(),
            in_order(texts(nodes@)),
            forall|j: int| 0 <= j < i ==> texts(nodes@).to_set().contains(#[trigger] norms@[j]@),
        decreases norms.len() - i,
    {
        add_name(&mut nodes, norms[i].clone());
        i = i + 1;
    }
    let ghost norm_set = texts(nodes@).to_set();
    let mut k: usize = 0;
    while k < merges.len()
        invariant
            k <= merges.len(),
            in_order(texts(nodes@)),
            norm_set.subset_of(texts(nodes@).to_set()),
            forall|j: int|
                0 <= j < k ==> texts(nodes@).to_set().contains((#[trigger] merges@[j]).0@)
                    && texts(nodes@).to_set().contains(merges@[j].1@),
        decreases merges.len() - k,
    {
        add_name(&mut nodes, merges[k].0.clone());
        add_name(&mut nodes, merges[k].1.clone());
        k = k + 1;
    }
    assert forall|j: int| 0 <= j < norms.len() implies texts(nodes@).contains(
        #[trigger] norms@[j]@,
    ) by {
        assert(norm_set.contains(norms@[j]@));
        assert(texts(nodes@).to_set().contains(norms@[j]@));
    }
    assert forall|j: int| 0 <= j < merges.len() implies texts(nodes@).contains(
        (#[trigger] merges@[j]).0@,
    ) && texts(nodes@).contains(merges@[j].1@) by {
        assert(texts(nodes@).to_set().contains(merges@[j].0@));
        assert(texts(nodes@).to_set().contains(merges@[j].1@));
    }
    nodes
}

/// Groups the norms by the merges and maps each to the canonical name of its
/// group.
pub fn canonical_map(norms: &Vec<String>, merges: &Vec<NormPair>) -> (canon: NameMap)
    ensures
        canon@ == canonical_names(texts(norms@).to_set(), pair_texts(merges@)),
{
    let nodes = all_names(norms, merges);
    let ghost names = texts(nodes@);
    let ghost all = pair_texts(merges@);
    // For each name, the place of its group's canonical name.
    let mut group: Vec<usize> = Vec::new();
    let mut i: usize = 0;
    while i < nodes.len()
        invariant
            i <= nodes.len(),
            group.len() == i,
            forall|j: int| 0 <= j < i ==> group@[j] == j,
        decreases nodes.len() - i,
    {
        group.push(i);
        i = i + 1;
    }
    let mut k: usize = 0;
    while k < merges.len()
        invariant
            k <= merges.len(),
            names == texts(nodes@),
            all == pair_texts(merges@),
            in_order(names),
            group.len() == nodes.len(),
            forall|j: int|
                0 <= j < merges.len() ==> names.contains((#[trigger] merges@[j]).0@)
                    && names.contains(merges@[j].1@),
            forall|j: int|
                0 <= j < names.len() ==> (#[trigger] group@[j]) < names.len()
                    && names[group@[j] as int] == canonical(all.take(k as int), names[j]),
        decreases merges.len() - k,
    {
        let ghost done = all.take(k as int);
        let ghost g0 = group@;
        proof {
            assert(all.take(k + 1).drop_last() =~= done);
            assert(all.take(k + 1).last() == (merges@[k as int].0@, merges@[k as int].1@));
            assert(names.contains(merges@[k as int].0@) && names.contains(merges@[k as int].1@));
        }
        if let (Some(pa), Some(pb)) = (
            find_name(&nodes, merges[k].0.as_str()),
            find_name(&nodes, merges[k].1.as_str()),
        ) {
            let ga: usize = group[pa];
            let gb: usize = group[pb];
            let low: usize = if ga <= gb {
                ga
            } else {
                gb
            };
            let mut x: usize = 0;
            while x < group.len()
                invariant
                    x <= group.len(),
                    group.len() == g0.len(),
                    forall|j: int|
                        0 <= j < x ==> #[trigger] group@[j] == (if g0[j] == ga || g0[j] == gb {
                            low
                        } else {
                            g0[j]
                        }),
                    forall|j: int| x <= j < g0.len() ==> group@[j] == g0[j],
                decreases group.len() - x,
            {
                if group[x] == ga || group[x] == gb {
                    group.set(x, low);
                }
                x = x + 1;
            }
            proof {
                assert(names[ga as int] == canonical(done, names[pa as int]));
                assert(names[gb as int] == canonical(done, names[pb as int]));
                lemma_places(names, ga as int, gb as int);
                assert forall|j: int| 0 <= j < names.len() implies (#[trigger] group@[j])
                    < names.len() && names[group@[j] as int] == canonical(
                    all.take(k + 1),
                    names[j],
                ) by {
                    assert(g0[j] < names.len());
                    lemma_places(names, g0[j] as int, ga as int);
                    lemma_places(names, g0[j] as int, gb as int);
                }
            }
        }
        k = k + 1;
    }
    assert(all.take(k as int) =~= all);
    let mut canon = NameMap::new();
    let mut m: usize = 0;
    while m < norms.len()
        invariant
            m <= norms.len(),
            names == texts(nodes@),
            in_order(names),
            group.len() == nodes.len(),
            forall|j: int| 0 <= j < norms.len() ==> names.contains(#[trigger] norms@[j]@),
            forall|j: int|
                0 <= j < names.len() ==> (#[trigger] group@[j]) < names.len()
                    && names[group@[j] as int] == canonical(all, names[j]),
            canon@ =~= canonical_names(texts(norms@).take(m as int).to_set(), all),
        decreases norms.len() - m,
    {
        let ghost t0 = texts(norms@).take(m as int);
        let ghost t1 = texts(norms@).take(m + 1);
        let ghost n = norms@[m as int]@;
        proof {
            assert(names.contains(norms@[m as int]@));
            assert(t1 =~= t0.push(n));
            assert forall|x: Seq<char>| t1.to_set().contains(x) == t0.to_set().insert(n).contains(
                x,
            ) by {
                if t0.contains(x) {
                    let q = choose|q: int| 0 <= q < t0.len() && t0[q] == x;
                    assert(t1[q] == x);
                }
                assert(t1[m as int] == n);
                if t1.contains(x) {
                    let q = choose|q: int| 0 <= q < t1.len() && t1[q] == x;
                    if q < m {
                        assert(t0[q] == x);
                    }
                }
            }
            assert(t1.to_set() =~= t0.to_set().insert(n));
        }
        if let Some(q) = find_name(&nodes, norms[m].as_str()) {
            let g: usize = group[q];
            assert(names[g as int] == nodes@[g as int]@);
            canon.insert(norms[m].clone(), nodes[g].clone());
            assert(canon@ =~= canonical_names(t1.to_set(), all));
        }
        m = m + 1;
    }
    assert(texts(norms@).take(m as int) =~= texts(norms@));
    canon
}

/// Decides the canonical name of every norm from the human decisions and the
/// proposals of the three lanes.
pub fn resolve_names(
    norms: &Vec<String>,
    manual: &Vec<NormPair>,
    phonetic: &Vec<NormPair>,
    fuzzy: &Vec<NormPair>,
    embedded: &Vec<NormPair>,
    splits: &Vec<NormPair>,
) -> (canon: NameMap)
    ensures
        canon@ == canonical_names(
            texts(norms@).to_set(),
            effective_merges(
                pair_texts(manual@) + pair_texts(phonetic@) + pair_texts(fuzzy@) + pair_texts(
                    embedded@,
                ),
                pair_texts(splits@),
            ),
        ),
{
    let merges = merge_pairs(manual, phonetic, fuzzy, embedded, splits);
    canonical_map(norms, &merges)
}

/// The key of the entity that one occurrence of a surface belongs to: the
/// canonical name of its normalized form, followed by the separator and the
/// tag where an override pins this occurrence. None where the surface
/// normalizes away.
pub open spec fn entity_key(
    surface: Seq<char>,
    source_pk: Seq<char>,
    canon: Map<Seq<char>, Seq<char>>,
    overrides: Map<(Seq<char>, Seq<char>), Seq<char>>,
) -> Option<Seq<char>> {
    let norm = normalized(surface);
    if norm.len() == 0 {
        None
    } else {
        let shared = if canon.dom().contains(norm) {
            canon[norm]
        } else {
            norm
        };
        if overrides.dom().contains((source_pk, norm)) {
            Some(shared.push(OVERRIDE_SEP) + overrides[(source_pk, norm)])
        } else {
            Some(shared)
        }
    }
}

/// The entity key of a surface in a row.
pub fn entity_key_for(
    surface: &str,
    source_pk: &str,
    canon: &NameMap,
    overrides: &OverrideMap,
) -> (r: Option<String>)
    ensures
        match r {
            Some(k) => entity_key(surface@, source_pk@, canon@, overrides@) == Some(k@),
            None => entity_key(surface@, source_pk@, canon@, overrides@) is None,
        },
{
    let norm = normalize_name(surface);
    if norm.as_str().is_empty() {
        return None;
    }
    let mut key = match canon.get(norm.as_str()) {
        Some(c) => c,
        None => norm.clone(),
    };
    match overrides.get(source_pk, norm.as_str()) {
        Some(tag) => {
            key.push(OVERRIDE_SEP);
            key.append(tag.as_str());
        },
        None => {},
    }
    Some(key)
}

/// The canonical name comes no later than the name itself.
pub proof fn law_canonical_is_no_later(merges: Seq<(Seq<char>, Seq<char>)>, n: Seq<char>)
    ensures
        canonical(merges, n) == n || precedes(canonical(merges, n), n),
    decreases merges.len(),
{
    if merges.len() > 0 {
        let before = merges.drop_last();
        law_canonical_is_no_later(before, n);
        let a = canonical(before, merges.last().0);
        let b = canonical(before, merges.last().1);
        let c = canonical(before, n);
        if c == a || c == b {
            lemma_precedes_total(a, b);
            let d = lesser(a, b);
            if d != c && c != n {
                lemma_precedes_transitive(d, c, n);
            }
        }
    }
}

/// The canonical name of a canonical name is itself.
pub proof fn law_canonical_is_stable(merges: Seq<(Seq<char>, Seq<char>)>, n: Seq<char>)
    ensures
        canonical(merges, canonical(merges, n)) == canonical(merges, n),
    decreases merges.len(),
{
    if merges.len() > 0 {
        let before = merges.drop_last();
        law_canonical_is_stable(before, n);
        law_canonical_is_stable(before, merges.last().0);
        law_canonical_is_stable(before, merges.last().1);
    }
}

/// A merge forces its two names to one entity: every pair among the merges has
/// one canonical name.
pub proof fn law_merged_names_share_a_canonical_name(
    merges: Seq<(Seq<char>, Seq<char>)>,
    i: int,
)
    requires
        0 <= i < merges.len(),
    ensures
        canonical(merges, merges[i].0) == canonical(merges, merges[i].1),
    decreases merges.len(),
{
    let before = merges.drop_last();
    if i < before.len() {
        law_merged_names_share_a_canonical_name(before, i);
        assert(before[i] == merges[i]);
    }
}

/// Nothing else is merged: a set of names that no merge leaves holds a name
/// exactly when it holds its canonical name. So names that only lie in
/// different such sets stay apart.
pub proof fn law_only_merges_join_names(
    merges: Seq<(Seq<char>, Seq<char>)>,
    closed: Set<Seq<char>>,
    n: Seq<char>,
)
    requires
        forall|i: int|
            0 <= i < merges.len() ==> (closed.contains((#[trigger] merges[i]).0)
                == closed.contains(merges[i].1)),
    ensures
        closed.contains(canonical(merges, n)) == closed.contains(n),
    decreases merges.len(),
{
    if merges.len() > 0 {
        let before = merges.drop_last();
        assert forall|i: int| 0 <= i < before.len() implies (closed.contains(
            (#[trigger] before[i]).0,
        ) == closed.contains(before[i].1)) by {
            assert(before[i] == merges[i]);
        }
        law_only_merges_join_names(before, closed, n);
        law_only_merges_join_names(before, closed, merges.last().0);
        law_only_merges_join_names(before, closed, merges.last().1);
        assert(merges[merges.len() - 1] == merges.last());
    }
}

proof fn lemma_effective_members(
    proposed: Seq<(Seq<char>, Seq<char>)>,
    splits: Seq<(Seq<char>, Seq<char>)>,
    p: (Seq<char>, Seq<char>),
)
    ensures
        effective_merges(proposed, splits).contains(p) == (proposed.contains(p)
            && !splits.contains(p)),
    decreases proposed.len(),
{
    if proposed.len() > 0 {
        let before = proposed.drop_last();
        lemma_effective_members(before, splits, p);
        let e0 = effective_merges(before, splits);
        let e1 = effective_merges(proposed, splits);
        if before.contains(p) {
            let k = choose|k: int| 0 <= k < before.len() && before[k] == p;
            assert(proposed[k] == p);
        }
        if proposed.contains(p) {
            let k = choose|k: int| 0 <= k < proposed.len() && proposed[k] == p;
            if k < before.len() {
                assert(before[k] == p);
            }
        }
        assert(proposed[proposed.len() - 1] == proposed.last());
        if e0.contains(p) {
            let k = choose|k: int| 0 <= k < e0.len() && e0[k] == p;
            assert(e1[k] == p);
        }
        if e1.contains(p) {
            let k = choose|k: int| 0 <= k < e1.len() && e1[k] == p;
            if k < e0.len() {
                assert(e0[k] == p);
            }
        }
        if !splits.contains(proposed.last()) {
            assert(e1[e0.len() as int] == proposed.last());
        }
    }
}

/// A pair is merged exactly when a human or a lane proposes it and no human
/// split it. So a split vetoes every lane, and dropping the split brings back
/// what the lanes propose.
pub proof fn law_splits_veto_and_are_reversible(
    proposed: Seq<(Seq<char>, Seq<char>)>,
    splits: Seq<(Seq<char>, Seq<char>)>,
    p: (Seq<char>, Seq<char>),
)
    ensures
        effective_merges(proposed, splits).contains(p) <==> proposed.contains(p)
            && !splits.contains(p),
{
    lemma_effective_members(proposed, splits, p);
}

/// The exact stage folds spellings: two surfaces with one key, such as the
/// Arabic and the Persian spelling of a name, are one entity in a row, and in
/// any two rows without an override for them.
pub proof fn law_one_key_is_one_entity(
    surface_a: Seq<char>,
    row_a: Seq<char>,
    surface_b: Seq<char>,
    row_b: Seq<char>,
    canon: Map<Seq<char>, Seq<char>>,
    overrides: Map<(Seq<char>, Seq<char>), Seq<char>>,
)
    requires
        normalized(surface_a) == normalized(surface_b) || folded(surface_a) == folded(surface_b),
    ensures
        entity_key(surface_a, row_a, canon, overrides) == entity_key(
            surface_b,
            row_a,
            canon,
            overrides,
        ),
        !overrides.dom().contains((row_a, normalized(surface_a))) && !overrides.dom().contains(
            (row_b, normalized(surface_b)),
        ) ==> entity_key(surface_a, row_a, canon, overrides) == entity_key(
            surface_b,
            row_b,
            canon,
            overrides,
        ),
{
    law_script_variants_share_a_key(surface_a, surface_b);
}

/// Where the norms are those of the stored rows, every surface with a key has a
/// canonical name: its entity, without an override, is the one that the merges
/// give.
pub proof fn law_every_mention_has_a_canonical_name(
    rows: Seq<(Seq<char>, Seq<Seq<char>>)>,
    norms: Set<Seq<char>>,
    merges: Seq<(Seq<char>, Seq<char>)>,
    overrides: Map<(Seq<char>, Seq<char>), Seq<char>>,
    i: int,
    j: int,
)
    requires
        forall|n: Seq<char>| #[trigger] norms.contains(n) <==> is_norm(rows, n),
        0 <= i < rows.len(),
        0 <= j < rows[i].1.len(),
        normalized(rows[i].1[j]).len() > 0,
        !overrides.dom().contains((rows[i].0, normalized(rows[i].1[j]))),
    ensures
        entity_key(rows[i].1[j], rows[i].0, canonical_names(norms, merges), overrides) == Some(
            canonical(merges, normalized(rows[i].1[j])),
        ),
{
    let n = normalized(rows[i].1[j]);
    assert(is_norm(rows, n));
    assert(norms.contains(n));
}

/// A human merge that no split vetoes gives the two names one shared entity in
/// every row without an override for them.
pub proof fn law_a_merge_gives_one_entity(
    norms: Set<Seq<char>>,
    proposed: Seq<(Seq<char>, Seq<char>)>,
    splits: Seq<(Seq<char>, Seq<char>)>,
    overrides: Map<(Seq<char>, Seq<char>), Seq<char>>,
    surface_a: Seq<char>,
    row_a: Seq<char>,
    surface_b: Seq<char>,
    row_b: Seq<char>,
)
    requires
        normalized(surface_a).len() > 0,
        normalized(surface_b).len() > 0,
        norms.contains(normalized(surface_a)),
        norms.contains(normalized(surface_b)),
        proposed.contains((normalized(surface_a), normalized(surface_b))),
        !splits.contains((normalized(surface_a), normalized(surface_b))),
        !overrides.dom().contains((row_a, normalized(surface_a))),
        !overrides.dom().contains((row_b, normalized(surface_b))),
    ensures
        ({
            let canon = canonical_names(norms, effective_merges(proposed, splits));
            &&& entity_key(surface_a, row_a, canon, overrides) is Some
            &&& entity_key(surface_a, row_a, canon, overrides) == entity_key(
                surface_b,
                row_b,
                canon,
                overrides,
            )
        }),
{
    let merges = effective_merges(proposed, splits);
    let p = (normalized(surface_a), normalized(surface_b));
    lemma_effective_members(proposed, splits, p);
    let i = choose|i: int| 0 <= i < merges.len() && merges[i] == p;
    law_merged_names_share_a_canonical_name(merges, i);
}

proof fn lemma_one_separator(a: Seq<char>, x: Seq<char>, b: Seq<char>, y: Seq<char>)
    requires
        !a.contains(OVERRIDE_SEP),
        !b.contains(OVERRIDE_SEP),
        a.push(OVERRIDE_SEP) + x == b.push(OVERRIDE_SEP) + y,
    ensures
        a == b,
        x == y,
{
    let s = a.push(OVERRIDE_SEP) + x;
    let t = b.push(OVERRIDE_SEP) + y;
    assert(s[a.len() as int] == OVERRIDE_SEP);
    assert(t[b.len() as int] == OVERRIDE_SEP);
    if a.len() < b.len() {
        assert(b[a.len() as int] == t[a.len() as int]);
        assert(b.contains(OVERRIDE_SEP));
    } else if b.len() < a.len() {
        assert(a[b.len() as int] == s[b.len() as int]);
        assert(a.contains(OVERRIDE_SEP));
    }
    assert forall|i: int| 0 <= i < a.len() implies a[i] == b[i] by {
        assert(s[i] == a[i]);
        assert(t[i] == b[i]);
    }
    assert(a =~= b);
    assert(s.len() == a.len() + 1 + x.len());
    assert(t.len() == b.len() + 1 + y.len());
    assert forall|i: int| 0 <= i < x.len() implies x[i] == y[i] by {
        assert(s[a.len() + 1 + i] == x[i]);
        assert(t[a.len() + 1 + i] == y[i]);
    }
    assert(x =~= y);
}

/// The shared name of a surface: its canonical name, or its own key.
pub open spec fn shared_name(surface: Seq<char>, canon: Map<Seq<char>, Seq<char>>) -> Seq<char> {
    if canon.dom().contains(normalized(surface)) {
        canon[normalized(surface)]
    } else {
        normalized(surface)
    }
}

/// Whether `n` is the key of some name.
pub open spec fn is_key(n: Seq<char>) -> bool {
    exists|raw: Seq<char>| #[trigger] normalized(raw) == n
}

/// Whether every canonical name in the map is a key.
pub open spec fn maps_to_keys(canon: Map<Seq<char>, Seq<char>>) -> bool {
    forall|n: Seq<char>| #[trigger] canon.dom().contains(n) ==> is_key(canon[n])
}

proof fn lemma_canonical_is_a_key(merges: Seq<(Seq<char>, Seq<char>)>, n: Seq<char>)
    requires
        is_key(n),
        forall|i: int|
            0 <= i < merges.len() ==> is_key((#[trigger] merges[i]).0) && is_key(merges[i].1),
    ensures
        is_key(canonical(merges, n)),
    decreases merges.len(),
{
    if merges.len() > 0 {
        let before = merges.drop_last();
        assert forall|i: int| 0 <= i < before.len() implies is_key((#[trigger] before[i]).0)
            && is_key(before[i].1) by {
            assert(before[i] == merges[i]);
        }
        assert(is_key(merges[merges.len() - 1].0));
        lemma_canonical_is_a_key(before, n);
        lemma_canonical_is_a_key(before, merges.last().0);
        lemma_canonical_is_a_key(before, merges.last().1);
    }
}

/// Canonical names are keys where the norms and the merged names are: so are
/// the norms of stored rows, and the names of recorded decisions.
pub proof fn law_canonical_names_are_keys(
    norms: Set<Seq<char>>,
    merges: Seq<(Seq<char>, Seq<char>)>,
)
    requires
        forall|n: Seq<char>| #[trigger] norms.contains(n) ==> is_key(n),
        forall|i: int|
            0 <= i < merges.len() ==> is_key((#[trigger] merges[i]).0) && is_key(merges[i].1),
    ensures
        maps_to_keys(canonical_names(norms, merges)),
{
    let canon = canonical_names(norms, merges);
    assert forall|n: Seq<char>| #[trigger] canon.dom().contains(n) implies is_key(canon[n]) by {
        assert(norms.contains(n));
        lemma_canonical_is_a_key(merges, n);
    }
}

/// The norms of stored rows are keys, and so are both names of a recorded
/// decision.
pub proof fn law_norms_and_decided_names_are_keys(
    rows: Seq<(Seq<char>, Seq<Seq<char>>)>,
    n: Seq<char>,
    a: Seq<char>,
    b: Seq<char>,
)
    ensures
        is_norm(rows, n) ==> is_key(n),
        decided_pair(a, b) matches Some(p) ==> is_key(p.0) && is_key(p.1),
{
    assert(is_key(normalized(a)));
    assert(is_key(normalized(b)));
    if is_norm(rows, n) {
        let (i, j) = choose|i: int, j: int|
            0 <= i < rows.len() && 0 <= j < rows[i].1.len() && normalized(#[trigger] rows[i].1[j])
                == n;
        assert(normalized(rows[i].1[j]) == n);
    }
}

proof fn lemma_shared_name_without_separator(surface: Seq<char>, canon: Map<Seq<char>, Seq<char>>)
    requires
        maps_to_keys(canon),
    ensures
        !shared_name(surface, canon).contains(OVERRIDE_SEP),
{
    let n = normalized(surface);
    law_keys_hold_no_separator(surface);
    if canon.dom().contains(n) {
        let raw = choose|raw: Seq<char>| #[trigger] normalized(raw) == canon[n];
        law_keys_hold_no_separator(raw);
    }
}

/// An override separates an occurrence from every occurrence without one, of
/// whatever spelling; and two overridden occurrences are one entity exactly
/// when they share the name and the tag.
pub proof fn law_overrides_separate_occurrences(
    surface_a: Seq<char>,
    row_a: Seq<char>,
    surface_b: Seq<char>,
    row_b: Seq<char>,
    canon: Map<Seq<char>, Seq<char>>,
    overrides: Map<(Seq<char>, Seq<char>), Seq<char>>,
)
    requires
        maps_to_keys(canon),
        normalized(surface_a).len() > 0,
        normalized(surface_b).len() > 0,
        overrides.dom().contains((row_a, normalized(surface_a))),
    ensures
        !overrides.dom().contains((row_b, normalized(surface_b))) ==> entity_key(
            surface_a,
            row_a,
            canon,
            overrides,
        ) != entity_key(surface_b, row_b, canon, overrides),
        overrides.dom().contains((row_b, normalized(surface_b))) ==> ((entity_key(
            surface_a,
            row_a,
            canon,
            overrides,
        ) == entity_key(surface_b, row_b, canon, overrides)) <==> (shared_name(surface_a, canon)
            == shared_name(surface_b, canon) && overrides[(row_a, normalized(surface_a))]
            == overrides[(row_b, normalized(surface_b))])),
{
    let a = shared_name(surface_a, canon);
    let b = shared_name(surface_b, canon);
    lemma_shared_name_without_separator(surface_a, canon);
    lemma_shared_name_without_separator(surface_b, canon);
    let x = overrides[(row_a, normalized(surface_a))];
    let ka = a.push(OVERRIDE_SEP) + x;
    assert(ka[a.len() as int] == OVERRIDE_SEP);
    assert(ka.contains(OVERRIDE_SEP));
    if overrides.dom().contains((row_b, normalized(surface_b))) {
        let y = overrides[(row_b, normalized(surface_b))];
        if ka == b.push(OVERRIDE_SEP) + y {
            lemma_one_separator(a, x, b, y);
        }
    }
}

/// Two occurrences of one shared name, such as two identical spellings, never
/// share an entity where one of them is overridden and the other is not.
pub proof fn law_an_override_splits_identical_spellings(
    surface_a: Seq<char>,
    row_a: Seq<char>,
    surface_b: Seq<char>,
    row_b: Seq<char>,
    canon: Map<Seq<char>, Seq<char>>,
    overrides: Map<(Seq<char>, Seq<char>), Seq<char>>,
)
    requires
        shared_name(surface_a, canon) == shared_name(surface_b, canon),
        normalized(surface_a).len() > 0,
        overrides.dom().contains((row_a, normalized(surface_a))),
        !overrides.dom().contains((row_b, normalized(surface_b))),
    ensures
        entity_key(surface_a, row_a, canon, overrides) != entity_key(
            surface_b,
            row_b,
            canon,
            overrides,
        ),
{
    let a = shared_name(surface_a, canon);
    let ka = a.push(OVERRIDE_SEP) + overrides[(row_a, normalized(surface_a))];
    assert(ka.len() > a.len());
}

/// Dropping an override folds the occurrence back to the shared entity.
pub proof fn law_dropping_an_override_folds_back(
    surface: Seq<char>,
    row: Seq<char>,
    canon: Map<Seq<char>, Seq<char>>,
    overrides: Map<(Seq<char>, Seq<char>), Seq<char>>,
)
    requires
        normalized(surface).len() > 0,
    ensures
        entity_key(surface, row, canon, overrides.remove((row, normalized(surface)))) == Some(
            shared_name(surface, canon),
        ),
{
}

/// Every mentions record is resolved, in order, under its own row's place and
/// with its own surfaces; a record with another tag is not.
pub proof fn law_every_mentions_record_is_resolved(
    a: Seq<Seq<u8>>,
    b: Seq<Seq<u8>>,
    x: Seq<u8>,
)
    ensures
        mention_rows(Seq::<Seq<u8>>::empty()).len() == 0,
        decoded(x).0 == 1 ==> mention_rows(seq![x]) == seq![
            (ctid_text((decoded(x).1, decoded(x).2)), decoded(x).3),
        ],
        decoded(x).0 != 1 ==> mention_rows(seq![x]).len() == 0,
        mention_rows(a + b) == mention_rows(a) + mention_rows(b),
    decreases b.len(),
{
    assert(seq![x].drop_last() =~= Seq::<Seq<u8>>::empty());
    assert(mention_rows(Seq::<Seq<u8>>::empty()).len() == 0);
    assert(seq![x].last() == x);
    if b.len() == 0 {
        assert(a + b =~= a);
        assert(mention_rows(a) + mention_rows(b) =~= mention_rows(a));
    } else {
        law_every_mentions_record_is_resolved(a, b.drop_last(), x);
        assert((a + b).drop_last() =~= a + b.drop_last());
        assert((a + b).last() == b.last());
        assert(mention_rows(a + b) =~= mention_rows(a) + mention_rows(b));
    }
}

/// The norms of two lists of rows are those of either, and those of one surface
/// of one row are its key, where it has one.
pub proof fn law_every_surface_gives_its_norm(
    a: Seq<(Seq<char>, Seq<Seq<char>>)>,
    b: Seq<(Seq<char>, Seq<Seq<char>>)>,
    row: Seq<char>,
    x: Seq<Seq<char>>,
    y: Seq<Seq<char>>,
    surface: Seq<char>,
    n: Seq<char>,
)
    ensures
        !is_norm(Seq::empty(), n),
        is_norm(a + b, n) <==> is_norm(a, n) || is_norm(b, n),
        is_norm(seq![(row, x + y)], n) <==> is_norm(seq![(row, x)], n) || is_norm(
            seq![(row, y)],
            n,
        ),
        is_norm(seq![(row, seq![surface])], n) <==> n.len() > 0 && n == normalized(surface),
{
    let ab = a + b;
    if is_norm(a, n) {
        let (i, j) = choose|i: int, j: int|
            0 <= i < a.len() && 0 <= j < a[i].1.len() && normalized(#[trigger] a[i].1[j]) == n;
        assert(ab[i].1[j] == a[i].1[j]);
    }
    if is_norm(b, n) {
        let (i, j) = choose|i: int, j: int|
            0 <= i < b.len() && 0 <= j < b[i].1.len() && normalized(#[trigger] b[i].1[j]) == n;
        assert(ab[a.len() + i].1[j] == b[i].1[j]);
    }
    if is_norm(ab, n) {
        let (i, j) = choose|i: int, j: int|
            0 <= i < ab.len() && 0 <= j < ab[i].1.len() && normalized(#[trigger] ab[i].1[j]) == n;
        if i < a.len() {
            assert(normalized(a[i].1[j]) == n);
        } else {
            assert(normalized(b[i - a.len()].1[j]) == n);
        }
    }
    let rx = seq![(row, x)];
    let ry = seq![(row, y)];
    let rxy = seq![(row, x + y)];
    if is_norm(rx, n) {
        let (i, j) = choose|i: int, j: int|
            0 <= i < rx.len() && 0 <= j < rx[i].1.len() && normalized(#[trigger] rx[i].1[j]) == n;
        assert(normalized(rxy[0].1[j]) == n);
    }
    if is_norm(ry, n) {
        let (i, j) = choose|i: int, j: int|
            0 <= i < ry.len() && 0 <= j < ry[i].1.len() && normalized(#[trigger] ry[i].1[j]) == n;
        assert(normalized(rxy[0].1[x.len() + j]) == n);
    }
    if is_norm(rxy, n) {
        let (i, j) = choose|i: int, j: int|
            0 <= i < rxy.len() && 0 <= j < rxy[i].1.len() && normalized(#[trigger] rxy[i].1[j])
                == n;
        if j < x.len() {
            assert(normalized(rx[0].1[j]) == n);
        } else {
            assert(normalized(ry[0].1[j - x.len()]) == n);
        }
    }
    let one = seq![(row, seq![surface])];
    assert(one[0].1[0] == surface);
    if n == normalized(surface) {
        assert(normalized(one[0].1[0]) == n);
    }
}

/// The merges in effect are the proposed ones, all of them and in order, less
/// the pairs that were split.
pub proof fn law_only_split_pairs_are_left_out(
    proposed: Seq<(Seq<char>, Seq<char>)>,
    splits: Seq<(Seq<char>, Seq<char>)>,
)
    ensures
        effective_merges(proposed, splits) == proposed.filter(
            |p: (Seq<char>, Seq<char>)| !splits.contains(p),
        ),
    decreases proposed.len(),
{
    let keep = |p: (Seq<char>, Seq<char>)| !splits.contains(p);
    reveal(Seq::filter);
    if proposed.len() > 0 {
        law_only_split_pairs_are_left_out(proposed.drop_last(), splits);
    }
    assert(effective_merges(proposed, splits) =~= proposed.filter(keep));
}

/// Names that merges connect share one canonical name, and it is the earliest
/// of them: no name of the group comes before it, and it is of the group.
pub proof fn law_the_canonical_name_is_the_earliest_of_its_group(
    merges: Seq<(Seq<char>, Seq<char>)>,
    n: Seq<char>,
    m: Seq<char>,
    group: Set<Seq<char>>,
)
    requires
        canonical(merges, m) == canonical(merges, n),
        forall|i: int|
            0 <= i < merges.len() ==> (group.contains((#[trigger] merges[i]).0)
                == group.contains(merges[i].1)),
        group.contains(n),
    ensures
        group.contains(canonical(merges, n)),
        !precedes(m, canonical(merges, n)),
{
    law_only_merges_join_names(merges, group, n);
    law_canonical_is_no_later(merges, m);
    let c = canonical(merges, n);
    lemma_precedes_irreflexive(m);
    if precedes(m, c) && c != m {
        lemma_precedes_transitive(m, c, m);
    }
}

/// Names without a merge are their own canonical names.
pub proof fn law_an_unmerged_name_is_canonical(
    merges: Seq<(Seq<char>, Seq<char>)>,
    n: Seq<char>,
)
    requires
        forall|i: int| 0 <= i < merges.len() ==> (#[trigger] merges[i]).0 != n && merges[i].1 != n,
    ensures
        canonical(merges, n) == n,
{
    let alone = Set::<Seq<char>>::empty().insert(n);
    law_only_merges_join_names(merges, alone, n);
}

/// The map of canonical names holds every norm, and no other name, each with
/// its canonical name.
pub proof fn law_every_norm_is_mapped(
    norms: Set<Seq<char>>,
    merges: Seq<(Seq<char>, Seq<char>)>,
    n: Seq<char>,
)
    ensures
        canonical_names(norms, merges).dom().contains(n) <==> norms.contains(n),
        norms.contains(n) ==> canonical_names(norms, merges)[n] == canonical(merges, n),
{
}

/// How an entity key is made: from the key of the surface, or the canonical
/// name it is mapped to; and behind it, where the occurrence is overridden, the
/// separator and the tag. A surface without a key has none.
pub proof fn law_how_an_entity_key_is_made(
    surface: Seq<char>,
    row: Seq<char>,
    canon: Map<Seq<char>, Seq<char>>,
    overrides: Map<(Seq<char>, Seq<char>), Seq<char>>,
)
    ensures
        ({
            let n = normalized(surface);
            let key = entity_key(surface, row, canon, overrides);
            let name = if canon.dom().contains(n) {
                canon[n]
            } else {
                n
            };
            &&& key is None <==> n.len() == 0
            &&& n.len() > 0 && !overrides.dom().contains((row, n)) ==> key == Some(name)
            &&& n.len() > 0 && overrides.dom().contains((row, n)) ==> key == Some(
                name + seq!['\u{1f}'] + overrides[(row, n)],
            )
        }),
{
    let n = normalized(surface);
    let name = if canon.dom().contains(n) {
        canon[n]
    } else {
        n
    };
    assert(name.push('\u{1f}') =~= name + seq!['\u{1f}']);
}

/// A list of stored rows holds each row's place and surfaces at its place.
pub proof fn law_stored_rows_are_seen_whole(rows: Seq<StoredRow>)
    ensures
        row_texts(rows).len() == rows.len(),
        forall|i: int|
            0 <= i < rows.len() ==> #[trigger] row_texts(rows)[i] == (
                rows[i].source_pk@,
                texts(rows[i].surfaces@),
            ),
{
}

} // verus!
