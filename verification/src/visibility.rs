//! What a caller sees of the graph. The graph is the sum of what each source
//! row contributes, and a caller sees an element by the source rows that the
//! caller can read: an entity where one row that mentions it is readable, an
//! edge by the watch's rule over the rows that support it.
use crate::graph::{law_edges_join_mentioned_entities, row_edges};
use crate::maintenance::{
    largest_id, lemma_upserted_grows, queue_steps, queued, queued_changes, row_steps, upserted,
    QueueEntry, StepView,
};
use crate::text::same_text;
use vstd::prelude::*;
use vstd::string::*;

verus! {

/// The rule by which the rows that support an edge make it visible.
#[derive(Clone, Copy, PartialEq, Eq, Structural, Debug)]
pub enum Visibility {
    /// One readable supporting row is enough.
    Union,
    /// Every supporting row must be readable.
    Intersection,
}

/// A registered watch: the table it reads, the column that names a row, and
/// the rule for edges.
pub struct WatchMeta {
    pub id: i32,
    pub source_table: String,
    pub pk_column: String,
    pub visibility: Visibility,
}

/// The rule that a watch's setting says: `intersection` by that word, and
/// union in every other case.
pub fn visibility_of(setting: Option<&str>) -> (v: Visibility)
    ensures
        v == (if setting is Some && setting->0@ == "intersection"@ {
            Visibility::Intersection
        } else {
            Visibility::Union
        }),
{
    match setting {
        Some(s) => if same_text(s, "intersection") {
            Visibility::Intersection
        } else {
            Visibility::Union
        },
        None => Visibility::Union,
    }
}

/// What one source row contributes: the entities it mentions and the edges it
/// supports.
pub struct RowPart {
    pub entities: Seq<i64>,
    pub edges: Seq<(i64, i64, Seq<char>)>,
}

/// The graph: each source row with its part.
pub type Graph = Map<Seq<char>, RowPart>;

/// Whether every edge of a row joins two entities that the row mentions.
pub open spec fn sound(part: RowPart) -> bool {
    forall|i: int|
        0 <= i < part.edges.len() ==> part.entities.contains((#[trigger] part.edges[i]).0)
            && part.entities.contains(part.edges[i].1)
}

/// Whether every row's part is sound.
pub open spec fn sound_graph(g: Graph) -> bool {
    forall|pk: Seq<char>| #[trigger] g.dom().contains(pk) ==> sound(g[pk])
}

/// Whether row `pk` mentions an entity.
pub open spec fn mentioned_by(g: Graph, pk: Seq<char>, entity: i64) -> bool {
    g.dom().contains(pk) && g[pk].entities.contains(entity)
}

/// Whether row `pk` supports an edge.
pub open spec fn supported_by(g: Graph, pk: Seq<char>, edge: (i64, i64, Seq<char>)) -> bool {
    g.dom().contains(pk) && g[pk].edges.contains(edge)
}

/// Whether an entity is in the graph: some row mentions it.
pub open spec fn has_entity(g: Graph, entity: i64) -> bool {
    exists|pk: Seq<char>| mentioned_by(g, pk, entity)
}

/// Whether an edge is in the graph: some row supports it.
pub open spec fn has_edge(g: Graph, edge: (i64, i64, Seq<char>)) -> bool {
    exists|pk: Seq<char>| supported_by(g, pk, edge)
}

/// Whether a caller who can read `rows` sees an entity.
pub open spec fn sees_entity(g: Graph, rows: Set<Seq<char>>, entity: i64) -> bool {
    exists|pk: Seq<char>| rows.contains(pk) && #[trigger] mentioned_by(g, pk, entity)
}

/// Whether a caller who can read `rows` sees an edge under a rule.
pub open spec fn sees_edge(
    rule: Visibility,
    g: Graph,
    rows: Set<Seq<char>>,
    edge: (i64, i64, Seq<char>),
) -> bool {
    match rule {
        Visibility::Union => exists|pk: Seq<char>|
            rows.contains(pk) && #[trigger] supported_by(g, pk, edge),
        Visibility::Intersection => has_edge(g, edge) && forall|pk: Seq<char>| #[trigger]
            supported_by(g, pk, edge) ==> rows.contains(pk),
    }
}

/// The part that resolving a row yields is sound.
pub proof fn law_a_resolved_row_is_sound(
    relations: Option<Seq<(Seq<char>, Seq<char>, Seq<char>)>>,
    source_pk: Seq<char>,
    canon: Map<Seq<char>, Seq<char>>,
    overrides: Map<(Seq<char>, Seq<char>), Seq<char>>,
    mentions: Seq<(Seq<char>, Seq<char>)>,
    ids: Seq<i64>,
)
    requires
        mentions.len() == ids.len(),
    ensures
        sound(
            RowPart {
                entities: ids,
                edges: row_edges(relations, source_pk, canon, overrides, mentions, ids),
            },
        ),
{
    let edges = row_edges(relations, source_pk, canon, overrides, mentions, ids);
    assert forall|i: int| 0 <= i < edges.len() implies ids.contains((#[trigger] edges[i]).0)
        && ids.contains(edges[i].1) by {
        law_edges_join_mentioned_entities(
            relations,
            source_pk,
            canon,
            overrides,
            mentions,
            ids,
            i,
        );
    }
}

/// Who sees an edge sees both entities it joins, under either rule.
pub proof fn law_a_visible_edge_has_visible_ends(
    rule: Visibility,
    g: Graph,
    rows: Set<Seq<char>>,
    edge: (i64, i64, Seq<char>),
)
    requires
        sound_graph(g),
        sees_edge(rule, g, rows, edge),
    ensures
        sees_entity(g, rows, edge.0),
        sees_entity(g, rows, edge.1),
{
    let pk = match rule {
        Visibility::Union => choose|pk: Seq<char>|
            rows.contains(pk) && #[trigger] supported_by(g, pk, edge),
        Visibility::Intersection => choose|pk: Seq<char>| supported_by(g, pk, edge),
    };
    assert(supported_by(g, pk, edge));
    let part = g[pk];
    assert(sound(part));
    let i = choose|i: int| 0 <= i < part.edges.len() && part.edges[i] == edge;
    assert(part.entities.contains(part.edges[i].0));
    assert(mentioned_by(g, pk, edge.0));
    assert(mentioned_by(g, pk, edge.1));
}

/// What intersection shows, union shows too.
pub proof fn law_intersection_is_stricter(
    g: Graph,
    rows: Set<Seq<char>>,
    edge: (i64, i64, Seq<char>),
)
    requires
        sees_edge(Visibility::Intersection, g, rows, edge),
    ensures
        sees_edge(Visibility::Union, g, rows, edge),
{
    let pk = choose|pk: Seq<char>| supported_by(g, pk, edge);
    assert(rows.contains(pk) && supported_by(g, pk, edge));
}

/// The rows that support an edge.
pub open spec fn supporters(g: Graph, edge: (i64, i64, Seq<char>)) -> Set<Seq<char>> {
    Set::new(|pk: Seq<char>| supported_by(g, pk, edge))
}

/// What the condition `sql::edge_filter` asks of the support rows that a query
/// reads, joined to the source rows that the caller can read: that one is left,
/// or as many as there were.
pub open spec fn condition_holds(
    rule: Visibility,
    supports: Set<Seq<char>>,
    rows: Set<Seq<char>>,
) -> bool {
    match rule {
        Visibility::Union => supports.intersect(rows).len() > 0,
        Visibility::Intersection => supports.intersect(rows).len() == supports.len(),
    }
}

/// What the catalog's policy on edges asks. It reads every support of the edge,
/// also those in rows that the caller cannot read.
pub open spec fn policy_shows_edge(
    rule: Visibility,
    g: Graph,
    rows: Set<Seq<char>>,
    edge: (i64, i64, Seq<char>),
) -> bool {
    match rule {
        Visibility::Union => exists|pk: Seq<char>|
            rows.contains(pk) && #[trigger] supported_by(g, pk, edge),
        Visibility::Intersection => forall|pk: Seq<char>| #[trigger]
            supported_by(g, pk, edge) ==> rows.contains(pk),
    }
}

/// The rows that mention an entity.
pub open spec fn mentioners(g: Graph, entity: i64) -> Set<Seq<char>> {
    Set::new(|pk: Seq<char>| mentioned_by(g, pk, entity))
}

/// What the catalog's policy on entities asks: a mention in a readable row.
pub open spec fn policy_shows_entity(g: Graph, rows: Set<Seq<char>>, entity: i64) -> bool {
    exists|pk: Seq<char>| mentioners(g, entity).contains(pk) && #[trigger] rows.contains(pk)
}

/// What the entities query shows a caller under the catalog's policies: the
/// entity must pass its policy, and one of the mentions that the policy on
/// mentions leaves must join a readable source row.
pub open spec fn query_shows_entity(g: Graph, rows: Set<Seq<char>>, entity: i64) -> bool {
    &&& policy_shows_entity(g, rows, entity)
    &&& exists|pk: Seq<char>|
        mentioners(g, entity).intersect(rows).contains(pk) && #[trigger] rows.contains(pk)
}

/// What the edges query shows a caller under the catalog's policies: the edge
/// and both entities that it joins must pass their policies, and the condition
/// must hold of the supports that the policy on supports leaves, those in
/// readable rows.
pub open spec fn query_shows_edge(
    rule: Visibility,
    g: Graph,
    rows: Set<Seq<char>>,
    edge: (i64, i64, Seq<char>),
) -> bool {
    &&& policy_shows_edge(rule, g, rows, edge)
    &&& policy_shows_entity(g, rows, edge.0)
    &&& policy_shows_entity(g, rows, edge.1)
    &&& condition_holds(rule, supporters(g, edge).intersect(rows), rows)
}

/// For a caller whom the catalog's policies do not narrow, such as its owner,
/// the condition of the edges query alone says the rule.
pub proof fn law_the_condition_says_the_rule(
    rule: Visibility,
    g: Graph,
    rows: Set<Seq<char>>,
    edge: (i64, i64, Seq<char>),
)
    requires
        supporters(g, edge).finite(),
        has_edge(g, edge),
    ensures
        condition_holds(rule, supporters(g, edge), rows) <==> sees_edge(rule, g, rows, edge),
{
    let all = supporters(g, edge);
    let some = all.intersect(rows);
    if some.len() > 0 {
        let pk = some.choose();
        assert(some.contains(pk));
        assert(rows.contains(pk) && supported_by(g, pk, edge));
    }
    if sees_edge(Visibility::Union, g, rows, edge) {
        let pk = choose|pk: Seq<char>| rows.contains(pk) && #[trigger] supported_by(g, pk, edge);
        assert(some.contains(pk));
        assert(some.remove(pk).len() + 1 == some.len());
    }
    if sees_edge(Visibility::Intersection, g, rows, edge) {
        assert(some =~= all);
    }
    if some.len() == all.len() {
        vstd::set_lib::lemma_subset_equality(some, all);
        assert forall|pk: Seq<char>| #[trigger] supported_by(g, pk, edge) implies rows.contains(
            pk,
        ) by {
            assert(some.contains(pk));
        }
    }
}

/// A direct read of the catalog is filtered as the accessors are: the policies
/// show an entity, and an edge of the graph, exactly to those who see it.
pub proof fn law_direct_reads_are_filtered_alike(
    rule: Visibility,
    g: Graph,
    rows: Set<Seq<char>>,
    entity: i64,
    edge: (i64, i64, Seq<char>),
)
    requires
        has_edge(g, edge),
    ensures
        policy_shows_entity(g, rows, entity) <==> sees_entity(g, rows, entity),
        policy_shows_edge(rule, g, rows, edge) <==> sees_edge(rule, g, rows, edge),
{
    if sees_entity(g, rows, entity) {
        let pk = choose|pk: Seq<char>| rows.contains(pk) && #[trigger] mentioned_by(g, pk, entity);
        assert(mentioners(g, entity).contains(pk) && rows.contains(pk));
    }
    if policy_shows_entity(g, rows, entity) {
        let pk = choose|pk: Seq<char>|
            mentioners(g, entity).contains(pk) && #[trigger] rows.contains(pk);
        assert(rows.contains(pk) && mentioned_by(g, pk, entity));
    }
}

/// The entities query shows a caller under the catalog's policies exactly the
/// entities that the caller sees.
pub proof fn law_the_entities_query_shows_what_is_seen(
    g: Graph,
    rows: Set<Seq<char>>,
    entity: i64,
)
    ensures
        query_shows_entity(g, rows, entity) <==> sees_entity(g, rows, entity),
{
    if sees_entity(g, rows, entity) {
        let pk = choose|pk: Seq<char>| rows.contains(pk) && #[trigger] mentioned_by(g, pk, entity);
        assert(mentioners(g, entity).contains(pk) && rows.contains(pk));
        assert(mentioners(g, entity).intersect(rows).contains(pk) && rows.contains(pk));
    }
    if query_shows_entity(g, rows, entity) {
        let pk = choose|pk: Seq<char>|
            mentioners(g, entity).contains(pk) && #[trigger] rows.contains(pk);
        assert(rows.contains(pk) && mentioned_by(g, pk, entity));
    }
}

/// The edges query shows a caller under the catalog's policies exactly the
/// edges of the graph that the caller sees by the rule. Where the supports are
/// narrowed to readable rows the condition of intersection always holds, and it
/// is the policy on edges that hides an edge.
pub proof fn law_the_edges_query_shows_what_is_seen(
    rule: Visibility,
    g: Graph,
    rows: Set<Seq<char>>,
    edge: (i64, i64, Seq<char>),
)
    requires
        sound_graph(g),
        supporters(g, edge).finite(),
        has_edge(g, edge),
    ensures
        query_shows_edge(rule, g, rows, edge) <==> sees_edge(rule, g, rows, edge),
{
    law_direct_reads_are_filtered_alike(rule, g, rows, edge.0, edge);
    law_direct_reads_are_filtered_alike(rule, g, rows, edge.1, edge);
    law_the_condition_says_the_rule(rule, g, rows, edge);
    let left = supporters(g, edge).intersect(rows);
    assert(left.intersect(rows) =~= left);
    if sees_edge(rule, g, rows, edge) {
        law_a_visible_edge_has_visible_ends(rule, g, rows, edge);
    }
}

/// What the edges query answers under intersection, it answers under union too.
pub proof fn law_the_intersection_answer_is_within_the_union_answer(
    g: Graph,
    rows: Set<Seq<char>>,
    edge: (i64, i64, Seq<char>),
)
    requires
        sound_graph(g),
        supporters(g, edge).finite(),
        has_edge(g, edge),
        query_shows_edge(Visibility::Intersection, g, rows, edge),
    ensures
        query_shows_edge(Visibility::Union, g, rows, edge),
{
    law_the_edges_query_shows_what_is_seen(Visibility::Intersection, g, rows, edge);
    law_intersection_is_stricter(g, rows, edge);
    law_the_edges_query_shows_what_is_seen(Visibility::Union, g, rows, edge);
}

/// An edge that one row alone supports is visible, under either rule, exactly
/// to those who can read that row.
pub proof fn law_single_row_edges_follow_their_row(
    rule: Visibility,
    g: Graph,
    rows: Set<Seq<char>>,
    edge: (i64, i64, Seq<char>),
    only: Seq<char>,
)
    requires
        supported_by(g, only, edge),
        forall|pk: Seq<char>| #[trigger] supported_by(g, pk, edge) ==> pk == only,
    ensures
        sees_edge(rule, g, rows, edge) == rows.contains(only),
{
}

/// Rows that a caller cannot read do not show: two graphs that agree on the
/// readable rows show the caller the same entities, and under union the same
/// edges.
pub proof fn law_unreadable_rows_do_not_show(
    g: Graph,
    h: Graph,
    rows: Set<Seq<char>>,
    entity: i64,
    edge: (i64, i64, Seq<char>),
)
    requires
        forall|pk: Seq<char>| #[trigger]
            rows.contains(pk) ==> g.dom().contains(pk) == h.dom().contains(pk) && (
            g.dom().contains(pk) ==> g[pk] == h[pk]),
    ensures
        sees_entity(g, rows, entity) == sees_entity(h, rows, entity),
        sees_edge(Visibility::Union, g, rows, edge) == sees_edge(
            Visibility::Union,
            h,
            rows,
            edge,
        ),
{
    if sees_entity(g, rows, entity) {
        let pk = choose|pk: Seq<char>| rows.contains(pk) && #[trigger] mentioned_by(g, pk, entity);
        assert(mentioned_by(h, pk, entity));
    }
    if sees_entity(h, rows, entity) {
        let pk = choose|pk: Seq<char>| rows.contains(pk) && #[trigger] mentioned_by(h, pk, entity);
        assert(mentioned_by(g, pk, entity));
    }
    if sees_edge(Visibility::Union, g, rows, edge) {
        let pk = choose|pk: Seq<char>| rows.contains(pk) && #[trigger] supported_by(g, pk, edge);
        assert(supported_by(h, pk, edge));
    }
    if sees_edge(Visibility::Union, h, rows, edge) {
        let pk = choose|pk: Seq<char>| rows.contains(pk) && #[trigger] supported_by(h, pk, edge);
        assert(supported_by(g, pk, edge));
    }
}

/// Being able to read more rows never hides anything, under either rule.
pub proof fn law_reading_more_shows_more(
    rule: Visibility,
    g: Graph,
    rows: Set<Seq<char>>,
    more: Set<Seq<char>>,
    entity: i64,
    edge: (i64, i64, Seq<char>),
)
    requires
        rows.subset_of(more),
    ensures
        sees_entity(g, rows, entity) ==> sees_entity(g, more, entity),
        sees_edge(rule, g, rows, edge) ==> sees_edge(rule, g, more, edge),
{
    if sees_entity(g, rows, entity) {
        let pk = choose|pk: Seq<char>| rows.contains(pk) && #[trigger] mentioned_by(g, pk, entity);
        assert(more.contains(pk));
    }
    if sees_edge(rule, g, rows, edge) {
        match rule {
            Visibility::Union => {
                let pk = choose|pk: Seq<char>|
                    rows.contains(pk) && #[trigger] supported_by(g, pk, edge);
                assert(more.contains(pk));
            },
            Visibility::Intersection => {
                assert forall|pk: Seq<char>| #[trigger] supported_by(g, pk, edge) implies more.contains(
                    pk,
                ) by {
                    assert(rows.contains(pk));
                }
            },
        }
    }
}

/// Who can read no row sees nothing, and who can read every row sees the whole
/// graph.
pub proof fn law_visibility_spans_nothing_to_all(
    rule: Visibility,
    g: Graph,
    all: Set<Seq<char>>,
    entity: i64,
    edge: (i64, i64, Seq<char>),
)
    requires
        forall|pk: Seq<char>| #[trigger] g.dom().contains(pk) ==> all.contains(pk),
    ensures
        !sees_entity(g, Set::empty(), entity),
        !sees_edge(rule, g, Set::empty(), edge),
        sees_entity(g, all, entity) == has_entity(g, entity),
        sees_edge(rule, g, all, edge) == has_edge(g, edge),
{
    if has_entity(g, entity) {
        let pk = choose|pk: Seq<char>| mentioned_by(g, pk, entity);
        assert(all.contains(pk) && mentioned_by(g, pk, entity));
    }
    if has_edge(g, edge) {
        let pk = choose|pk: Seq<char>| supported_by(g, pk, edge);
        assert(all.contains(pk) && supported_by(g, pk, edge));
    }
}

/// Taking a row out drops exactly the entities and edges that lose their last
/// row.
pub proof fn law_removing_a_row_drops_what_it_alone_held(
    g: Graph,
    gone: Seq<char>,
    entity: i64,
    edge: (i64, i64, Seq<char>),
)
    ensures
        has_entity(g.remove(gone), entity) <==> exists|pk: Seq<char>|
            pk != gone && #[trigger] mentioned_by(g, pk, entity),
        has_edge(g.remove(gone), edge) <==> exists|pk: Seq<char>|
            pk != gone && #[trigger] supported_by(g, pk, edge),
        sound_graph(g) ==> sound_graph(g.remove(gone)),
{
    let h = g.remove(gone);
    if has_entity(h, entity) {
        let pk = choose|pk: Seq<char>| mentioned_by(h, pk, entity);
        assert(mentioned_by(g, pk, entity));
    }
    if exists|pk: Seq<char>| pk != gone && #[trigger] mentioned_by(g, pk, entity) {
        let pk = choose|pk: Seq<char>| pk != gone && #[trigger] mentioned_by(g, pk, entity);
        assert(mentioned_by(h, pk, entity));
    }
    if has_edge(h, edge) {
        let pk = choose|pk: Seq<char>| supported_by(h, pk, edge);
        assert(supported_by(g, pk, edge));
    }
    if exists|pk: Seq<char>| pk != gone && #[trigger] supported_by(g, pk, edge) {
        let pk = choose|pk: Seq<char>| pk != gone && #[trigger] supported_by(g, pk, edge);
        assert(supported_by(h, pk, edge));
    }
    if sound_graph(g) {
        assert forall|pk: Seq<char>| #[trigger] h.dom().contains(pk) implies sound(h[pk]) by {
            assert(g.dom().contains(pk));
        }
    }
}

/// The graph after a list of queued changes: each takes its row out, and puts
/// it back as the source holds it now where it is to be read again.
pub open spec fn drained(g: Graph, source: Graph, changes: Seq<(Seq<char>, bool)>) -> Graph
    decreases changes.len(),
{
    if changes.len() == 0 {
        g
    } else {
        let before = drained(g, source, changes.drop_last());
        let (pk, readd) = changes.last();
        if readd && source.dom().contains(pk) {
            before.remove(pk).insert(pk, source[pk])
        } else {
            before.remove(pk)
        }
    }
}

/// Whether the last change of `pk` in the queue reads it again; none where the
/// queue does not touch it.
pub open spec fn last_change(changes: Seq<(Seq<char>, bool)>, pk: Seq<char>) -> Option<bool>
    decreases changes.len(),
{
    if changes.len() == 0 {
        None
    } else if changes.last().0 == pk {
        Some(changes.last().1)
    } else {
        last_change(changes.drop_last(), pk)
    }
}

/// Draining a queue leaves each row as its last change says: as the source
/// holds it after an upsert, absent after a delete, untouched otherwise.
pub proof fn law_the_last_change_of_a_row_counts(
    g: Graph,
    source: Graph,
    changes: Seq<(Seq<char>, bool)>,
    pk: Seq<char>,
)
    ensures
        match last_change(changes, pk) {
            Some(true) => drained(g, source, changes).dom().contains(pk) == source.dom().contains(
                pk,
            ) && (source.dom().contains(pk) ==> drained(g, source, changes)[pk] == source[pk]),
            Some(false) => !drained(g, source, changes).dom().contains(pk),
            None => drained(g, source, changes).dom().contains(pk) == g.dom().contains(pk) && (
            g.dom().contains(pk) ==> drained(g, source, changes)[pk] == g[pk]),
        },
    decreases changes.len(),
{
    if changes.len() > 0 {
        law_the_last_change_of_a_row_counts(g, source, changes.drop_last(), pk);
    }
}

proof fn lemma_last_queued_change(entries: Seq<QueueEntry>, pk: Seq<char>)
    ensures
        last_change(queued_changes(entries), pk) == (if queued(entries, pk) {
            Some(upserted(entries, pk))
        } else {
            None
        }),
    decreases entries.len(),
{
    if entries.len() > 0 {
        let before = entries.drop_last();
        lemma_last_queued_change(before, pk);
        assert(queued_changes(entries).drop_last() =~= queued_changes(before));
        lemma_upserted_grows(entries, pk);
        assert(entries[entries.len() - 1] == entries.last());
        if queued(before, pk) {
            let i = choose|i: int| 0 <= i < before.len() && (#[trigger] before[i]).1@ == pk;
            assert(entries[i].1@ == pk);
        }
        if queued(entries, pk) {
            let i = choose|i: int| 0 <= i < entries.len() && (#[trigger] entries[i]).1@ == pk;
            if i < before.len() {
                assert(before[i].1@ == pk);
            }
        }
    }
}

/// Processing a queue brings each queued row current: a row that an entry
/// upserts, as every update and insert does, ends as the source holds it now,
/// whatever else is queued for it; a row that is only deleted ends absent; and
/// a row that is not queued stays as it was.
pub proof fn law_queued_rows_follow_the_source(
    g: Graph,
    source: Graph,
    entries: Seq<QueueEntry>,
    pk: Seq<char>,
)
    ensures
        ({
            let d = drained(g, source, queued_changes(entries));
            &&& upserted(entries, pk) ==> d.dom().contains(pk) == source.dom().contains(pk) && (
            source.dom().contains(pk) ==> d[pk] == source[pk])
            &&& queued(entries, pk) && !upserted(entries, pk) ==> !d.dom().contains(pk)
            &&& !queued(entries, pk) ==> d.dom().contains(pk) == g.dom().contains(pk) && (
            g.dom().contains(pk) ==> d[pk] == g[pk])
        }),
{
    law_the_last_change_of_a_row_counts(g, source, queued_changes(entries), pk);
    lemma_last_queued_change(entries, pk);
    if upserted(entries, pk) {
        let i = choose|i: int|
            0 <= i < entries.len() && (#[trigger] entries[i]).1@ == pk && entries[i].2@
                == "upsert"@;
        assert(queued(entries, pk));
    }
}

/// The graph after a list of steps. Clearing the queue leaves it as it is.
pub open spec fn performed(g: Graph, source: Graph, steps: Seq<StepView>) -> Graph
    decreases steps.len(),
{
    if steps.len() == 0 {
        g
    } else {
        let before = performed(g, source, steps.drop_last());
        match steps.last() {
            StepView::Remove(pk) => before.remove(pk),
            StepView::Readd(pk) => if source.dom().contains(pk) {
                before.insert(pk, source[pk])
            } else {
                before
            },
            StepView::Clear(_) => before,
        }
    }
}

proof fn lemma_row_steps_drain(g: Graph, source: Graph, changes: Seq<(Seq<char>, bool)>)
    ensures
        performed(g, source, row_steps(changes)) == drained(g, source, changes),
    decreases changes.len(),
{
    if changes.len() > 0 {
        lemma_row_steps_drain(g, source, changes.drop_last());
        let before = row_steps(changes.drop_last());
        let removed = before.push(StepView::Remove(changes.last().0));
        assert(removed.drop_last() =~= before);
        assert(performed(g, source, removed) == performed(g, source, before).remove(
            changes.last().0,
        ));
        if changes.last().1 {
            let readded = removed.push(StepView::Readd(changes.last().0));
            assert(readded.drop_last() =~= removed);
            assert(row_steps(changes) == readded);
        }
    }
}

/// The steps planned for a queue do to the graph what its changes say.
pub proof fn law_processing_a_queue_drains_it(
    g: Graph,
    source: Graph,
    entries: Seq<QueueEntry>,
)
    ensures
        performed(g, source, queue_steps(entries)) == drained(g, source, queued_changes(entries)),
{
    lemma_row_steps_drain(g, source, queued_changes(entries));
    if entries.len() > 0 {
        let rows = row_steps(queued_changes(entries));
        assert(rows.push(StepView::Clear(largest_id(entries))).drop_last() =~= rows);
    }
}

/// Draining the same queue twice changes nothing the second time.
pub proof fn law_draining_is_idempotent(
    g: Graph,
    source: Graph,
    changes: Seq<(Seq<char>, bool)>,
)
    ensures
        drained(drained(g, source, changes), source, changes) == drained(g, source, changes),
{
    let once = drained(g, source, changes);
    let twice = drained(once, source, changes);
    assert forall|pk: Seq<char>| #[trigger] twice.dom().contains(pk) == once.dom().contains(pk) by {
        law_the_last_change_of_a_row_counts(g, source, changes, pk);
        law_the_last_change_of_a_row_counts(once, source, changes, pk);
    }
    assert forall|pk: Seq<char>| twice.dom().contains(pk) implies #[trigger] twice[pk] == once[pk] by {
        law_the_last_change_of_a_row_counts(g, source, changes, pk);
        law_the_last_change_of_a_row_counts(once, source, changes, pk);
    }
    assert(twice =~= once);
}

/// Draining a queue keeps the graph sound.
pub proof fn law_draining_keeps_the_graph_sound(
    g: Graph,
    source: Graph,
    changes: Seq<(Seq<char>, bool)>,
)
    requires
        sound_graph(g),
        sound_graph(source),
    ensures
        sound_graph(drained(g, source, changes)),
{
    let d = drained(g, source, changes);
    assert forall|pk: Seq<char>| #[trigger] d.dom().contains(pk) implies sound(d[pk]) by {
        law_the_last_change_of_a_row_counts(g, source, changes, pk);
    }
}

} // verus!
