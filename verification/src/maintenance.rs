//! Keeping the graph current: the pass that turns markers into mentions, the
//! queue of changed rows, garbage collection of stored records, and the loop
//! of the background worker.
use crate::sets::{add_name, find_name, in_order, RowSet};
use crate::resolution::mention_rows;
use crate::storage::{
    all_records, contents, ctid_text, decode, decoded, law_mentions_keep_their_row,
    law_mentions_read_back, law_prune_over_all_pages, mention_bytes, mentions, pruned, row_of,
    MARKER,
};
use crate::text::{same_text, texts};
use vstd::prelude::*;
use vstd::string::*;
use vstd::utf8::encode_utf8;

verus! {

/// The heap rows of the records, in order.
pub open spec fn rows_of(records: Seq<Seq<u8>>) -> Seq<(u32, u16)> {
    records.map_values(|r: Seq<u8>| row_of(r))
}

/// The rows that still need extraction: those of the markers, in order.
pub open spec fn pending(records: Seq<Seq<u8>>) -> Seq<(u32, u16)>
    decreases records.len(),
{
    if records.len() == 0 {
        seq![]
    } else {
        let before = pending(records.drop_last());
        if decoded(records.last()).0 == MARKER {
            before.push(row_of(records.last()))
        } else {
            before
        }
    }
}

/// The rows that the stored records belong to.
pub fn stored_rows(records: &Vec<Vec<u8>>) -> (rows: Vec<(u32, u16)>)
    ensures
        rows@ == rows_of(contents(records@)),
{
    let ghost all = contents(records@);
    let mut rows: Vec<(u32, u16)> = Vec::new();
    let mut i: usize = 0;
    while i < records.len()
        invariant
            i <= records.len(),
            all == contents(records@),
            rows@ =~= rows_of(all.take(i as int)),
        decreases records.len() - i,
    {
        let d = decode(records[i].as_slice());
        proof {
            assert(all.take(i + 1) =~= all.take(i as int).push(records@[i as int]@));
            assert((d.1, d.2) == row_of(records@[i as int]@));
        }
        rows.push((d.1, d.2));
        i = i + 1;
    }
    assert(all.take(i as int) =~= all);
    rows
}

/// The rows that still need extraction.
pub fn pending_rows(records: &Vec<Vec<u8>>) -> (rows: Vec<(u32, u16)>)
    ensures
        rows@ == pending(contents(records@)),
{
    let ghost all = contents(records@);
    let mut rows: Vec<(u32, u16)> = Vec::new();
    let mut i: usize = 0;
    while i < records.len()
        invariant
            i <= records.len(),
            all == contents(records@),
            rows@ == pending(all.take(i as int)),
        decreases records.len() - i,
    {
        assert(all.take(i + 1).drop_last() =~= all.take(i as int));
        assert(all.take(i + 1).last() == records@[i as int]@);
        let d = decode(records[i].as_slice());
        if d.0 == MARKER {
            assert((d.1, d.2) == row_of(records@[i as int]@));
            rows.push((d.1, d.2));
        }
        i = i + 1;
    }
    assert(all.take(i as int) =~= all);
    rows
}

/// The surfaces extracted from one row.
pub struct Extraction {
    pub block: u32,
    pub offset: u16,
    pub surfaces: Vec<String>,
}

/// The mentions records of a list of extractions, in order.
pub open spec fn extraction_records(extracted: Seq<Extraction>) -> Seq<Seq<u8>> {
    extracted.map_values(
        |e: Extraction| mention_bytes(e.block, e.offset, texts(e.surfaces@)),
    )
}

/// The records to append once a pass has pruned its markers.
pub fn mention_records(extracted: &Vec<Extraction>) -> (out: Vec<Vec<u8>>)
    ensures
        contents(out@) == extraction_records(extracted@),
{
    let mut out: Vec<Vec<u8>> = Vec::new();
    let mut i: usize = 0;
    while i < extracted.len()
        invariant
            i <= extracted.len(),
            contents(out@) =~= extraction_records(extracted@.take(i as int)),
        decreases extracted.len() - i,
    {
        let e = &extracted[i];
        let ghost before = contents(out@);
        let r = mentions(e.block, e.offset, e.surfaces.as_slice());
        let ghost bytes = r@;
        out.push(r);
        proof {
            assert(contents(out@) =~= before.push(bytes));
            assert(extracted@.take(i + 1) =~= extracted@.take(i as int).push(*e));
        }
        i = i + 1;
    }
    assert(extracted@.take(i as int) =~= extracted@);
    out
}

/// What a scan finds after an extraction pass: the records of every pending
/// row are gone, and the new mentions come last.
pub open spec fn after_extraction(
    records: Seq<Seq<u8>>,
    extracted: Seq<Extraction>,
) -> Seq<Seq<u8>> {
    records.filter(|r: Seq<u8>| !pending(records).to_set().contains(row_of(r)))
        + extraction_records(extracted)
}

proof fn lemma_markers_are_pending(records: Seq<Seq<u8>>, i: int)
    requires
        0 <= i < records.len(),
        decoded(records[i]).0 == MARKER,
    ensures
        pending(records).contains(row_of(records[i])),
    decreases records.len(),
{
    let before = pending(records.drop_last());
    if i < records.len() - 1 {
        lemma_markers_are_pending(records.drop_last(), i);
        let k = choose|k: int| 0 <= k < before.len() && before[k] == row_of(records[i]);
        assert(pending(records)[k] == row_of(records[i]));
    } else {
        assert(pending(records)[before.len() as int] == row_of(records[i]));
    }
}

proof fn lemma_nothing_pending(records: Seq<Seq<u8>>)
    requires
        forall|i: int| 0 <= i < records.len() ==> decoded(#[trigger] records[i]).0 != MARKER,
    ensures
        pending(records) == Seq::<(u32, u16)>::empty(),
    decreases records.len(),
{
    if records.len() > 0 {
        assert(decoded(records[records.len() - 1]).0 != MARKER);
        assert forall|i: int| 0 <= i < records.drop_last().len() implies decoded(
            #[trigger] records.drop_last()[i],
        ).0 != MARKER by {
            assert(records.drop_last()[i] == records[i]);
        }
        lemma_nothing_pending(records.drop_last());
    }
}

/// After an extraction pass no row is pending, whatever was extracted.
pub proof fn law_an_extraction_pass_leaves_nothing_pending(
    records: Seq<Seq<u8>>,
    extracted: Seq<Extraction>,
)
    ensures
        pending(after_extraction(records, extracted)) == Seq::<(u32, u16)>::empty(),
{
    let keep = |r: Seq<u8>| !pending(records).to_set().contains(row_of(r));
    let kept = records.filter(keep);
    let added = extraction_records(extracted);
    let all = after_extraction(records, extracted);
    assert forall|i: int| 0 <= i < all.len() implies decoded(#[trigger] all[i]).0 != MARKER by {
        if i < kept.len() {
            assert(kept.contains(kept[i]));
            records.lemma_filter_contains_rev(keep, kept[i]);
            records.lemma_filter_pred(keep, i);
            let j = choose|j: int| 0 <= j < records.len() && records[j] == kept[i];
            if decoded(records[j]).0 == MARKER {
                lemma_markers_are_pending(records, j);
                assert(pending(records).to_set().contains(row_of(kept[i])));
            }
            assert(all[i] == kept[i]);
        } else {
            let e = extracted[i - kept.len()];
            assert(all[i] == added[i - kept.len()]);
            law_mentions_keep_their_row(e.block, e.offset, texts(e.surfaces@));
        }
    }
    lemma_nothing_pending(all);
}

proof fn lemma_mention_rows_append(a: Seq<Seq<u8>>, b: Seq<Seq<u8>>)
    ensures
        mention_rows(a + b) == mention_rows(a) + mention_rows(b),
    decreases b.len(),
{
    if b.len() == 0 {
        assert(a + b =~= a);
        assert(mention_rows(a) + mention_rows(b) =~= mention_rows(a));
    } else {
        lemma_mention_rows_append(a, b.drop_last());
        assert((a + b).drop_last() =~= a + b.drop_last());
        assert((a + b).last() == b.last());
        assert(mention_rows(a + b) =~= mention_rows(a) + mention_rows(b));
    }
}

/// Whether a record can hold the surfaces as they are: at most 65535 of them,
/// of at most 65535 bytes each.
pub open spec fn fits_a_record(surfaces: Seq<Seq<char>>) -> bool {
    &&& surfaces.len() <= 65535
    &&& forall|i: int|
        0 <= i < surfaces.len() ==> encode_utf8(#[trigger] surfaces[i]).len() <= 65535
}

proof fn lemma_extractions_read_back(extracted: Seq<Extraction>)
    requires
        forall|i: int|
            0 <= i < extracted.len() ==> fits_a_record(texts((#[trigger] extracted[i]).surfaces@)),
    ensures
        mention_rows(extraction_records(extracted)) == extracted.map_values(
            |e: Extraction| (ctid_text((e.block, e.offset)), texts(e.surfaces@)),
        ),
    decreases extracted.len(),
{
    let f = |e: Extraction| (ctid_text((e.block, e.offset)), texts(e.surfaces@));
    let records = extraction_records(extracted);
    if extracted.len() == 0 {
        assert(mention_rows(records) =~= extracted.map_values(f));
    } else {
        let before = extracted.drop_last();
        assert forall|i: int| 0 <= i < before.len() implies fits_a_record(
            texts((#[trigger] before[i]).surfaces@),
        ) by {
            assert(before[i] == extracted[i]);
        }
        lemma_extractions_read_back(before);
        assert(records.drop_last() =~= extraction_records(before));
        let e = extracted[extracted.len() - 1];
        assert(fits_a_record(texts(e.surfaces@)));
        law_mentions_read_back(e.block, e.offset, texts(e.surfaces@));
        assert(mention_rows(records) =~= extracted.map_values(f));
    }
}

/// What an extraction pass writes is what resolution reads: after the pass the
/// stored mentions are those of the rows that were not pending, followed by
/// the extracted surfaces of each row, unchanged and in order.
pub proof fn law_resolution_reads_what_was_extracted(
    records: Seq<Seq<u8>>,
    extracted: Seq<Extraction>,
)
    requires
        forall|i: int|
            0 <= i < extracted.len() ==> fits_a_record(texts((#[trigger] extracted[i]).surfaces@)),
    ensures
        mention_rows(after_extraction(records, extracted)) == mention_rows(
            records.filter(|r: Seq<u8>| !pending(records).to_set().contains(row_of(r))),
        ) + extracted.map_values(
            |e: Extraction| (ctid_text((e.block, e.offset)), texts(e.surfaces@)),
        ),
{
    lemma_mention_rows_append(
        records.filter(|r: Seq<u8>| !pending(records).to_set().contains(row_of(r))),
        extraction_records(extracted),
    );
    lemma_extractions_read_back(extracted);
}

/// Pruning the pending rows from every page and then appending the new
/// mentions leaves the pages holding what an extraction pass promises.
pub proof fn law_pruning_then_appending_is_a_pass(
    pages: Seq<Seq<Option<Seq<u8>>>>,
    extracted: Seq<Extraction>,
)
    ensures
        all_records(
            pages.map_values(
                |p: Seq<Option<Seq<u8>>>| pruned(p, pending(all_records(pages)).to_set()),
            ),
        ) + extraction_records(extracted) == after_extraction(all_records(pages), extracted),
{
    law_prune_over_all_pages(pages, pending(all_records(pages)).to_set());
}

/// The order of the two steps matters: where every extracted row was pending,
/// appending first and pruning afterwards would lose all that was extracted.
pub proof fn law_appending_first_would_lose_the_extractions(
    records: Seq<Seq<u8>>,
    extracted: Seq<Extraction>,
)
    requires
        forall|i: int|
            0 <= i < extracted.len() ==> pending(records).contains(
                ((#[trigger] extracted[i]).block, extracted[i].offset),
            ),
    ensures
        (records + extraction_records(extracted)).filter(
            |r: Seq<u8>| !pending(records).to_set().contains(row_of(r)),
        ) == records.filter(|r: Seq<u8>| !pending(records).to_set().contains(row_of(r))),
{
    let keep = |r: Seq<u8>| !pending(records).to_set().contains(row_of(r));
    let added = extraction_records(extracted);
    let lost = added.filter(keep);
    Seq::filter_distributes_over_add(records, added, keep);
    if lost.len() > 0 {
        added.lemma_filter_pred(keep, 0);
        assert(lost.contains(lost[0]));
        added.lemma_filter_contains_rev(keep, lost[0]);
        let i = choose|i: int| 0 <= i < added.len() && added[i] == lost[0];
        let e = extracted[i];
        law_mentions_keep_their_row(e.block, e.offset, texts(e.surfaces@));
        assert(pending(records).to_set().contains((e.block, e.offset)));
    }
    assert(records.filter(keep) + lost =~= records.filter(keep));
}

/// The rows whose text could still be read, with their texts, in order.
pub open spec fn readable(rows: Seq<(u32, u16)>, found: Seq<Option<String>>) -> Seq<
    (u32, u16, Seq<char>),
>
    decreases rows.len(),
{
    if rows.len() == 0 {
        seq![]
    } else {
        let before = readable(rows.drop_last(), found);
        match found[rows.len() - 1] {
            Some(t) => before.push((rows.last().0, rows.last().1, t@)),
            None => before,
        }
    }
}

/// Pairs the pending rows with their texts. A row without a text is gone and
/// is not extracted.
pub fn rows_with_text(rows: &Vec<(u32, u16)>, found: &Vec<Option<String>>) -> (out: Vec<
    (u32, u16, String),
>)
    requires
        rows.len() == found.len(),
    ensures
        out@.map_values(|r: (u32, u16, String)| (r.0, r.1, r.2@)) == readable(rows@, found@),
{
    let mut out: Vec<(u32, u16, String)> = Vec::new();
    let ghost f = |r: (u32, u16, String)| (r.0, r.1, r.2@);
    assert(out@.map_values(f) =~= Seq::<(u32, u16, Seq<char>)>::empty());
    let mut i: usize = 0;
    while i < rows.len()
        invariant
            i <= rows.len(),
            rows.len() == found.len(),
            f == (|r: (u32, u16, String)| (r.0, r.1, r.2@)),
            out@.map_values(f) == readable(rows@.take(i as int), found@),
        decreases rows.len() - i,
    {
        assert(rows@.take(i + 1).drop_last() =~= rows@.take(i as int));
        match &found[i] {
            Some(t) => {
                let ghost before = out@.map_values(f);
                let r: (u32, u16, String) = (rows[i].0, rows[i].1, t.clone());
                let ghost seen = f(r);
                out.push(r);
                assert(out@.map_values(f) =~= before.push(seen));
            },
            None => {},
        }
        i = i + 1;
    }
    assert(rows@.take(i as int) =~= rows@);
    out
}

/// The rows that a probe of the heap did not find alive.
pub open spec fn not_alive(rows: Seq<(u32, u16)>, alive: Seq<Option<bool>>, row: (u32, u16)) -> bool {
    exists|i: int| 0 <= i < rows.len() && #[trigger] rows[i] == row && alive[i] != Some(true)
}

/// The set of rows that are gone from the heap, given what the probe of each
/// said. A probe that failed counts as not alive.
pub fn dead_rows(rows: &Vec<(u32, u16)>, alive: &Vec<Option<bool>>) -> (dead: RowSet)
    requires
        rows.len() == alive.len(),
    ensures
        forall|row: (u32, u16)| #[trigger]
            dead@.contains(row) <==> not_alive(rows@, alive@, row),
{
    let mut dead = RowSet::new();
    let mut i: usize = 0;
    while i < rows.len()
        invariant
            i <= rows.len(),
            rows.len() == alive.len(),
            forall|row: (u32, u16)| #[trigger]
                dead@.contains(row) <==> not_alive(rows@.take(i as int), alive@, row),
        decreases rows.len() - i,
    {
        let gone: bool = match alive[i] {
            Some(b) => !b,
            None => true,
        };
        let ghost before = dead@;
        if gone {
            dead.insert(rows[i]);
        }
        proof {
            let t0 = rows@.take(i as int);
            let t1 = rows@.take(i + 1);
            assert forall|row: (u32, u16)| #[trigger]
                dead@.contains(row) <==> not_alive(t1, alive@, row) by {
                if not_alive(t0, alive@, row) {
                    let k = choose|k: int|
                        0 <= k < t0.len() && #[trigger] t0[k] == row && alive@[k] != Some(true);
                    assert(t1[k] == row);
                }
                if not_alive(t1, alive@, row) {
                    let k = choose|k: int|
                        0 <= k < t1.len() && #[trigger] t1[k] == row && alive@[k] != Some(true);
                    if k < i {
                        assert(t0[k] == row);
                    }
                }
                if gone {
                    assert(t1[i as int] == rows@[i as int]);
                }
            }
        }
        i = i + 1;
    }
    assert(rows@.take(i as int) =~= rows@);
    dead
}

/// Garbage collection keeps exactly the records whose row every probe found
/// alive.
pub proof fn law_gc_keeps_the_living(
    records: Seq<Seq<u8>>,
    alive: Seq<Option<bool>>,
    dead: Set<(u32, u16)>,
    r: Seq<u8>,
)
    requires
        alive.len() == records.len(),
        forall|row: (u32, u16)| #[trigger]
            dead.contains(row) <==> not_alive(rows_of(records), alive, row),
    ensures
        records.filter(|x: Seq<u8>| !dead.contains(row_of(x))).contains(r) <==> records.contains(r)
            && forall|i: int|
            0 <= i < records.len() && row_of(#[trigger] records[i]) == row_of(r) ==> alive[i]
                == Some(true),
{
    let keep = |x: Seq<u8>| !dead.contains(row_of(x));
    let kept = records.filter(keep);
    let rows = rows_of(records);
    assert(forall|i: int| 0 <= i < records.len() ==> rows[i] == row_of(#[trigger] records[i]));
    if records.contains(r) {
        assert(dead.contains(row_of(r)) <==> not_alive(rows, alive, row_of(r)));
        if not_alive(rows, alive, row_of(r)) {
            let i = choose|i: int|
                0 <= i < rows.len() && #[trigger] rows[i] == row_of(r) && alive[i] != Some(true);
            assert(row_of(records[i]) == row_of(r));
        } else {
            assert forall|i: int|
                0 <= i < records.len() && row_of(#[trigger] records[i]) == row_of(
                    r,
                ) implies alive[i] == Some(true) by {
                assert(rows[i] == row_of(r));
            }
            let j = choose|j: int| 0 <= j < records.len() && records[j] == r;
            records.lemma_filter_contains(keep, j);
        }
    }
    if kept.contains(r) {
        records.lemma_filter_contains_rev(keep, r);
        let k = choose|k: int| 0 <= k < kept.len() && kept[k] == r;
        records.lemma_filter_pred(keep, k);
    }
}

/// A queued change of a source row: its id in the queue, the row, and the
/// operation.
pub type QueueEntry = (i64, String, String);

/// One step of processing a queue.
pub enum QueueStep {
    /// Take a row's part out of the graph.
    Remove(String),
    /// Put a row's part back from the source, if the row is still there.
    Readd(String),
    /// Clear the queue entries up to this id.
    Clear(i64),
}

/// A step with its row as plain text.
pub enum StepView {
    Remove(Seq<char>),
    Readd(Seq<char>),
    Clear(i64),
}

impl View for QueueStep {
    type V = StepView;

    open spec fn view(&self) -> StepView {
        match *self {
            QueueStep::Remove(pk) => StepView::Remove(pk@),
            QueueStep::Readd(pk) => StepView::Readd(pk@),
            QueueStep::Clear(id) => StepView::Clear(id),
        }
    }
}

/// The contents of a list of steps.
pub open spec fn step_views(steps: Seq<QueueStep>) -> Seq<StepView> {
    steps.map_values(|s: QueueStep| s@)
}

/// Whether an entry of the queue changes the row `pk`.
pub open spec fn queued(entries: Seq<QueueEntry>, pk: Seq<char>) -> bool {
    exists|i: int| 0 <= i < entries.len() && (#[trigger] entries[i]).1@ == pk
}

/// Whether an entry of the queue upserts the row `pk`.
pub open spec fn upserted(entries: Seq<QueueEntry>, pk: Seq<char>) -> bool {
    exists|i: int|
        0 <= i < entries.len() && (#[trigger] entries[i]).1@ == pk && entries[i].2@ == "upsert"@
}

/// The rows of the queued changes, each with whether it is to be read again:
/// that is so for an upsert, and for whatever follows an upsert of the same
/// row. An update is queued as an upsert and then a delete, of one row where
/// its key stays, and must leave the row as the source now holds it.
pub open spec fn queued_changes(entries: Seq<QueueEntry>) -> Seq<(Seq<char>, bool)>
    decreases entries.len(),
{
    if entries.len() == 0 {
        seq![]
    } else {
        queued_changes(entries.drop_last()).push(
            (entries.last().1@, upserted(entries, entries.last().1@)),
        )
    }
}

/// A row is upserted in a queue if it was before the last entry, or is by it.
pub proof fn lemma_upserted_grows(entries: Seq<QueueEntry>, pk: Seq<char>)
    requires
        entries.len() > 0,
    ensures
        upserted(entries, pk) <==> upserted(entries.drop_last(), pk) || (entries.last().1@ == pk
            && entries.last().2@ == "upsert"@),
{
    let before = entries.drop_last();
    assert(entries[entries.len() - 1] == entries.last());
    if upserted(before, pk) {
        let i = choose|i: int|
            0 <= i < before.len() && (#[trigger] before[i]).1@ == pk && before[i].2@ == "upsert"@;
        assert(entries[i] == before[i]);
    }
    if upserted(entries, pk) {
        let i = choose|i: int|
            0 <= i < entries.len() && (#[trigger] entries[i]).1@ == pk && entries[i].2@
                == "upsert"@;
        if i < before.len() {
            assert(before[i] == entries[i]);
        }
    }
}

/// The steps for the changes: each row is taken out first, and then put back
/// where it is to be read again.
pub open spec fn row_steps(changes: Seq<(Seq<char>, bool)>) -> Seq<StepView>
    decreases changes.len(),
{
    if changes.len() == 0 {
        seq![]
    } else {
        let removed = row_steps(changes.drop_last()).push(StepView::Remove(changes.last().0));
        if changes.last().1 {
            removed.push(StepView::Readd(changes.last().0))
        } else {
            removed
        }
    }
}

/// The largest id in the queue.
pub open spec fn largest_id(entries: Seq<QueueEntry>) -> i64
    recommends
        entries.len() > 0,
    decreases entries.len(),
{
    if entries.len() <= 1 {
        entries[0].0
    } else {
        let before = largest_id(entries.drop_last());
        if entries.last().0 > before {
            entries.last().0
        } else {
            before
        }
    }
}

/// The steps that process a queue: those of its rows, in queue order, and then
/// the clearing of everything up to the largest id. An empty queue asks for
/// nothing.
pub open spec fn queue_steps(entries: Seq<QueueEntry>) -> Seq<StepView> {
    if entries.len() == 0 {
        seq![]
    } else {
        row_steps(queued_changes(entries)).push(StepView::Clear(largest_id(entries)))
    }
}

/// Plans the processing of a queue.
pub fn plan_queue(entries: &Vec<QueueEntry>) -> (steps: Vec<QueueStep>)
    ensures
        step_views(steps@) == queue_steps(entries@),
{
    let mut steps: Vec<QueueStep> = Vec::new();
    assert(step_views(steps@) =~= Seq::<StepView>::empty());
    if entries.len() == 0 {
        return steps;
    }
    // The rows that were upserted so far.
    let mut fresh: Vec<String> = Vec::new();
    let mut max_id: i64 = entries[0].0;
    let mut i: usize = 0;
    while i < entries.len()
        invariant
            i <= entries.len(),
            0 < entries.len(),
            in_order(texts(fresh@)),
            forall|pk: Seq<char>| #[trigger]
                texts(fresh@).to_set().contains(pk) <==> upserted(entries@.take(i as int), pk),
            step_views(steps@) == row_steps(queued_changes(entries@.take(i as int))),
            i == 0 ==> max_id == entries@[0].0,
            i > 0 ==> max_id == largest_id(entries@.take(i as int)),
        decreases entries.len() - i,
    {
        let e = &entries[i];
        let ghost done = entries@.take(i as int);
        let ghost now = entries@.take(i + 1);
        let ghost seen = texts(fresh@).to_set();
        proof {
            assert(now.drop_last() =~= done);
            assert(now.last() == *e);
            assert(queued_changes(now).drop_last() =~= queued_changes(done));
        }
        if same_text(e.2.as_str(), "upsert") {
            add_name(&mut fresh, e.1.clone());
        }
        proof {
            assert forall|pk: Seq<char>| #[trigger]
                texts(fresh@).to_set().contains(pk) <==> upserted(now, pk) by {
                assert(seen.contains(pk) <==> upserted(done, pk));
                lemma_upserted_grows(now, pk);
            }
            assert(texts(fresh@).to_set().contains(e.1@) <==> upserted(now, e.1@));
        }
        let ghost before = steps@;
        steps.push(QueueStep::Remove(e.1.clone()));
        assert(step_views(steps@) =~= step_views(before).push(StepView::Remove(e.1@)));
        if find_name(&fresh, e.1.as_str()).is_some() {
            let ghost removed = steps@;
            steps.push(QueueStep::Readd(e.1.clone()));
            assert(step_views(steps@) =~= step_views(removed).push(StepView::Readd(e.1@)));
        }
        if e.0 > max_id {
            max_id = e.0;
        }
        i = i + 1;
    }
    assert(entries@.take(i as int) =~= entries@);
    let ghost before = steps@;
    steps.push(QueueStep::Clear(max_id));
    assert(step_views(steps@) =~= step_views(before).push(StepView::Clear(max_id)));
    steps
}

/// The largest id is the id of an entry, and no entry has a larger one: the
/// clearing reaches every processed entry, and none that came in with a larger
/// id meanwhile.
pub proof fn law_clearing_reaches_exactly_what_was_read(entries: Seq<QueueEntry>, i: int)
    requires
        0 <= i < entries.len(),
    ensures
        entries[i].0 <= largest_id(entries),
        exists|k: int| 0 <= k < entries.len() && (#[trigger] entries[k]).0 == largest_id(entries),
    decreases entries.len(),
{
    if entries.len() == 1 {
        assert(entries[0].0 == largest_id(entries));
    } else {
        let before = entries.drop_last();
        let j = if i < before.len() { i } else { 0 };
        law_clearing_reaches_exactly_what_was_read(before, j);
        let k = choose|k: int|
            0 <= k < before.len() && (#[trigger] before[k]).0 == largest_id(before);
        assert(entries[k] == before[k]);
        assert(entries[entries.len() - 1] == entries.last());
        assert(before[j] == entries[j]);
    }
}

/// The sum of the counts.
pub open spec fn sum(counts: Seq<u64>) -> int
    decreases counts.len(),
{
    if counts.len() == 0 {
        0
    } else {
        sum(counts.drop_last()) + counts.last()
    }
}

proof fn lemma_sum_grows(counts: Seq<u64>, i: int)
    requires
        0 <= i <= counts.len(),
    ensures
        0 <= sum(counts.take(i)) <= sum(counts),
    decreases counts.len(),
{
    if i < counts.len() {
        lemma_sum_grows(counts.drop_last(), i);
        assert(counts.drop_last().take(i) =~= counts.take(i));
    } else {
        assert(counts.take(i) =~= counts);
        if counts.len() > 0 {
            lemma_sum_grows(counts.drop_last(), counts.len() - 1);
        }
    }
}

/// Adds up counts of changes or mentions. None where the sum is beyond what a
/// `bigint` holds.
pub fn total(counts: &Vec<u64>) -> (r: Option<i64>)
    ensures
        match r {
            Some(t) => t == sum(counts@),
            None => sum(counts@) > i64::MAX,
        },
{
    let mut t: i64 = 0;
    let mut i: usize = 0;
    while i < counts.len()
        invariant
            i <= counts.len(),
            t >= 0,
            t == sum(counts@.take(i as int)),
        decreases counts.len() - i,
    {
        proof {
            assert(counts@.take(i + 1).drop_last() =~= counts@.take(i as int));
            lemma_sum_grows(counts@, i + 1);
        }
        let room: u64 = (9223372036854775807i64 - t) as u64;
        if counts[i] > room {
            return None;
        }
        t = t + counts[i] as i64;
        i = i + 1;
    }
    assert(counts@.take(i as int) =~= counts@);
    Some(t)
}

/// What a maintenance pass reports: one for each index that it refreshed, and
/// one for each queued change that it applied. None where that is beyond what a
/// `bigint` holds.
pub fn pass_count(refreshed: &Vec<(u32, i32)>, changes: &Vec<u64>) -> (r: Option<i64>)
    ensures
        match r {
            Some(t) => t == refreshed@.len() + sum(changes@),
            None => refreshed@.len() + sum(changes@) > i64::MAX,
        },
{
    match total(changes) {
        Some(t) => {
            proof {
                lemma_sum_grows(changes@, 0);
            }
            let room: u64 = (9223372036854775807i64 - t) as u64;
            let n: u64 = refreshed.len() as u64;
            if n > room {
                None
            } else {
                Some(t + n as i64)
            }
        },
        None => None,
    }
}

/// Whether the catalog schema is there, given the reply to the query for it.
pub fn schema_present(reply: Option<bool>) -> (r: bool)
    ensures
        r == (reply == Some(true)),
{
    match reply {
        Some(b) => b,
        None => false,
    }
}

/// The indexes whose table is watched, each with its watch, in order.
pub open spec fn watched(indexes: Seq<u32>, watches: Seq<Option<i32>>) -> Seq<(u32, i32)>
    decreases indexes.len(),
{
    if indexes.len() == 0 {
        seq![]
    } else {
        let before = watched(indexes.drop_last(), watches);
        match watches[indexes.len() - 1] {
            Some(w) => before.push((indexes.last(), w)),
            None => before,
        }
    }
}

/// The indexes to extract and resolve, given the watch of each index's table.
/// An index without a watch is skipped.
pub fn indexes_to_refresh(indexes: &Vec<u32>, watches: &Vec<Option<i32>>) -> (out: Vec<(u32, i32)>)
    requires
        indexes.len() == watches.len(),
    ensures
        out@ == watched(indexes@, watches@),
{
    let mut out: Vec<(u32, i32)> = Vec::new();
    let mut i: usize = 0;
    while i < indexes.len()
        invariant
            i <= indexes.len(),
            indexes.len() == watches.len(),
            out@ == watched(indexes@.take(i as int), watches@),
        decreases indexes.len() - i,
    {
        assert(indexes@.take(i + 1).drop_last() =~= indexes@.take(i as int));
        match watches[i] {
            Some(w) => {
                out.push((indexes[i], w));
            },
            None => {},
        }
        i = i + 1;
    }
    assert(indexes@.take(i as int) =~= indexes@);
    out
}

/// The database that the maintenance worker connects to; none where the
/// setting is absent or empty.
pub fn maintenance_database(setting: Option<&str>) -> (r: Option<String>)
    ensures
        match r {
            Some(d) => setting is Some && setting->0@.len() > 0 && d@ == setting->0@,
            None => setting is None || setting->0@.len() == 0,
        },
{
    match setting {
        Some(name) => {
            if name.is_empty() {
                None
            } else {
                Some(name.to_owned())
            }
        },
        None => None,
    }
}

/// What the worker does next.
#[derive(Clone, Copy, PartialEq, Eq, Structural, Debug)]
pub enum WorkerStep {
    /// Run one maintenance pass, then wait again.
    Drain,
    /// Leave the loop.
    Stop,
}

/// Decides what follows a wait: `woken` says that the postmaster is alive, and
/// `terminated` that a termination signal has come in.
pub fn worker_step(woken: bool, terminated: bool) -> (step: WorkerStep)
    ensures
        step == (if woken && !terminated {
            WorkerStep::Drain
        } else {
            WorkerStep::Stop
        }),
{
    if woken && !terminated {
        WorkerStep::Drain
    } else {
        WorkerStep::Stop
    }
}

/// Every marker makes its row pending, in order, and no other record does.
pub proof fn law_every_marker_is_pending(
    a: Seq<Seq<u8>>,
    b: Seq<Seq<u8>>,
    x: Seq<u8>,
)
    ensures
        pending(Seq::<Seq<u8>>::empty()).len() == 0,
        decoded(x).0 == 0 ==> pending(seq![x]) == seq![(decoded(x).1, decoded(x).2)],
        decoded(x).0 != 0 ==> pending(seq![x]).len() == 0,
        pending(a + b) == pending(a) + pending(b),
    decreases b.len(),
{
    assert(seq![x].drop_last() =~= Seq::<Seq<u8>>::empty());
    assert(pending(Seq::<Seq<u8>>::empty()).len() == 0);
    assert(seq![x].last() == x);
    if b.len() == 0 {
        assert(a + b =~= a);
        assert(pending(a) + pending(b) =~= pending(a));
    } else {
        law_every_marker_is_pending(a, b.drop_last(), x);
        assert((a + b).drop_last() =~= a + b.drop_last());
        assert((a + b).last() == b.last());
        assert(pending(a + b) =~= pending(a) + pending(b));
    }
}

/// The rows of the records, and the records of the extractions, stand one for
/// one and in order.
pub proof fn law_rows_and_extractions_stand_one_for_one(
    records: Seq<Seq<u8>>,
    extracted: Seq<Extraction>,
)
    ensures
        rows_of(records).len() == records.len(),
        forall|i: int|
            0 <= i < records.len() ==> #[trigger] rows_of(records)[i] == (
                decoded(records[i]).1,
                decoded(records[i]).2,
            ),
        extraction_records(extracted).len() == extracted.len(),
        forall|i: int|
            0 <= i < extracted.len() ==> #[trigger] extraction_records(extracted)[i]
                == mention_bytes(
                extracted[i].block,
                extracted[i].offset,
                texts(extracted[i].surfaces@),
            ),
{
}

/// Every row whose text was found is extracted, in order and with that text,
/// and no other row is.
pub proof fn law_every_found_row_is_extracted(
    rows: Seq<(u32, u16)>,
    found: Seq<Option<String>>,
)
    requires
        rows.len() <= found.len(),
    ensures
        readable(rows, found) == Seq::new(rows.len(), |i: int| (rows[i], found[i])).filter(
            |p: ((u32, u16), Option<String>)| p.1 is Some,
        ).map_values(|p: ((u32, u16), Option<String>)| (p.0.0, p.0.1, p.1->0@)),
    decreases rows.len(),
{
    let there = |p: ((u32, u16), Option<String>)| p.1 is Some;
    let flat = |p: ((u32, u16), Option<String>)| (p.0.0, p.0.1, p.1->0@);
    let all = Seq::new(rows.len(), |i: int| (rows[i], found[i]));
    reveal(Seq::filter);
    if rows.len() > 0 {
        let r = rows.drop_last();
        law_every_found_row_is_extracted(r, found);
        assert(all.drop_last() =~= Seq::new(r.len(), |i: int| (r[i], found[i])));
        assert(all.last() == (rows.last(), found[rows.len() - 1]));
    }
    assert(readable(rows, found) =~= all.filter(there).map_values(flat));
}

/// A row stays exactly when every probe of it found it alive.
pub proof fn law_a_row_stays_if_every_probe_finds_it(
    rows: Seq<(u32, u16)>,
    alive: Seq<Option<bool>>,
    row: (u32, u16),
)
    ensures
        !not_alive(rows, alive, row) <==> forall|i: int|
            0 <= i < rows.len() && #[trigger] rows[i] == row ==> alive[i] == Some(true),
{
}

/// What is queued for each entry: its own row, to be read again exactly when
/// this entry or an earlier one for the same row is an upsert.
pub proof fn law_what_each_entry_asks_for(entries: Seq<QueueEntry>, i: int)
    requires
        0 <= i < entries.len(),
    ensures
        queued_changes(entries).len() == entries.len(),
        queued_changes(entries)[i].0 == entries[i].1@,
        queued_changes(entries)[i].1 <==> exists|j: int|
            0 <= j <= i && (#[trigger] entries[j]).1@ == entries[i].1@ && entries[j].2@
                == "upsert"@,
    decreases entries.len(),
{
    let before = entries.drop_last();
    if before.len() > 0 {
        law_what_each_entry_asks_for(before, if i < before.len() { i } else { 0 });
    } else {
        assert(queued_changes(before).len() == 0);
    }
    if i < before.len() {
        assert(before[i] == entries[i]);
        assert forall|j: int| 0 <= j <= i implies before[j] == #[trigger] entries[j] by {}
        if queued_changes(entries)[i].1 {
            let j = choose|j: int|
                0 <= j <= i && (#[trigger] before[j]).1@ == before[i].1@ && before[j].2@
                    == "upsert"@;
            assert(entries[j] == before[j]);
        }
        if exists|j: int|
            0 <= j <= i && (#[trigger] entries[j]).1@ == entries[i].1@ && entries[j].2@
                == "upsert"@ {
            let j = choose|j: int|
                0 <= j <= i && (#[trigger] entries[j]).1@ == entries[i].1@ && entries[j].2@
                    == "upsert"@;
            assert(before[j] == entries[j]);
        }
    }
}

/// Every change takes its row out first, and then puts it back where it is to be
/// read again; the changes are done in order.
pub proof fn law_every_change_takes_its_row_out_first(
    a: Seq<(Seq<char>, bool)>,
    b: Seq<(Seq<char>, bool)>,
    x: (Seq<char>, bool),
)
    ensures
        row_steps(Seq::<(Seq<char>, bool)>::empty()).len() == 0,
        x.1 ==> row_steps(seq![x]) == seq![StepView::Remove(x.0), StepView::Readd(x.0)],
        !x.1 ==> row_steps(seq![x]) == seq![StepView::Remove(x.0)],
        row_steps(a + b) == row_steps(a) + row_steps(b),
    decreases b.len(),
{
    assert(seq![x].drop_last() =~= Seq::<(Seq<char>, bool)>::empty());
    assert(row_steps(Seq::<(Seq<char>, bool)>::empty()).len() == 0);
    assert(seq![x].last() == x);
    if x.1 {
        assert(row_steps(seq![x]) =~= seq![StepView::Remove(x.0), StepView::Readd(x.0)]);
    } else {
        assert(row_steps(seq![x]) =~= seq![StepView::Remove(x.0)]);
    }
    if b.len() == 0 {
        assert(a + b =~= a);
        assert(row_steps(a) + row_steps(b) =~= row_steps(a));
    } else {
        law_every_change_takes_its_row_out_first(a, b.drop_last(), x);
        assert((a + b).drop_last() =~= a + b.drop_last());
        assert((a + b).last() == b.last());
        assert(row_steps(a + b) =~= row_steps(a) + row_steps(b));
    }
}

/// A queue is processed change by change and then cleared, once, up to the
/// largest id that was read; an empty queue is left alone.
pub proof fn law_a_queue_is_cleared_once_and_last(entries: Seq<QueueEntry>)
    ensures
        entries.len() == 0 ==> queue_steps(entries).len() == 0,
        entries.len() > 0 ==> {
            &&& queue_steps(entries).len() > 0
            &&& queue_steps(entries).drop_last() == row_steps(queued_changes(entries))
            &&& queue_steps(entries).last() matches StepView::Clear(id) && (forall|i: int|
                0 <= i < entries.len() ==> (#[trigger] entries[i]).0 <= id) && (exists|i: int|
                0 <= i < entries.len() && (#[trigger] entries[i]).0 == id)
        },
{
    if entries.len() > 0 {
        let rows = row_steps(queued_changes(entries));
        assert(queue_steps(entries).drop_last() =~= rows);
        law_clearing_reaches_exactly_what_was_read(entries, 0);
        assert forall|i: int| 0 <= i < entries.len() implies (#[trigger] entries[i]).0
            <= largest_id(entries) by {
            law_clearing_reaches_exactly_what_was_read(entries, i);
        }
    }
}

/// A list of steps holds each step, with its row, at its place.
pub proof fn law_steps_are_seen_whole(steps: Seq<QueueStep>, pk: String, id: i64)
    ensures
        step_views(steps).len() == steps.len(),
        forall|i: int| 0 <= i < steps.len() ==> #[trigger] step_views(steps)[i] == steps[i]@,
        QueueStep::Remove(pk)@ == StepView::Remove(pk@),
        QueueStep::Readd(pk)@ == StepView::Readd(pk@),
        QueueStep::Clear(id)@ == StepView::Clear(id),
{
}

/// The sum counts every number once.
pub proof fn law_every_count_counts(a: Seq<u64>, b: Seq<u64>, x: u64)
    ensures
        sum(Seq::empty()) == 0,
        sum(seq![x]) == x,
        sum(a + b) == sum(a) + sum(b),
    decreases b.len(),
{
    assert(seq![x].drop_last() =~= Seq::<u64>::empty());
    assert(sum(Seq::<u64>::empty()) == 0);
    if b.len() == 0 {
        assert(a + b =~= a);
    } else {
        law_every_count_counts(a, b.drop_last(), x);
        assert((a + b).drop_last() =~= a + b.drop_last());
        assert((a + b).last() == b.last());
    }
}

/// Every index with a watch is refreshed, in order and for that watch, and no
/// other index is.
pub proof fn law_every_watched_index_is_refreshed(
    indexes: Seq<u32>,
    watches: Seq<Option<i32>>,
)
    requires
        indexes.len() <= watches.len(),
    ensures
        watched(indexes, watches) == Seq::new(
            indexes.len(),
            |i: int| (indexes[i], watches[i]),
        ).filter(|p: (u32, Option<i32>)| p.1 is Some).map_values(
            |p: (u32, Option<i32>)| (p.0, p.1->0),
        ),
    decreases indexes.len(),
{
    let there = |p: (u32, Option<i32>)| p.1 is Some;
    let flat = |p: (u32, Option<i32>)| (p.0, p.1->0);
    let all = Seq::new(indexes.len(), |i: int| (indexes[i], watches[i]));
    reveal(Seq::filter);
    if indexes.len() > 0 {
        let r = indexes.drop_last();
        law_every_watched_index_is_refreshed(r, watches);
        assert(all.drop_last() =~= Seq::new(r.len(), |i: int| (r[i], watches[i])));
        assert(all.last() == (indexes.last(), watches[indexes.len() - 1]));
    }
    assert(watched(indexes, watches) =~= all.filter(there).map_values(flat));
}

} // verus!
