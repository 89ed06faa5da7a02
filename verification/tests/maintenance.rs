use pg_graphwright::maintenance::{
    dead_rows, indexes_to_refresh, maintenance_database, mention_records, pass_count, pending_rows,
    plan_queue, rows_with_text, schema_present, stored_rows, total, worker_step, Extraction,
    QueueStep, WorkerStep,
};
use pg_graphwright::resolution::stored_mentions;
use pg_graphwright::sets::RowSet;
use pg_graphwright::storage::{marker, mentions, prune, rows_to_ask, scan, Page};

fn list(items: &[&str]) -> Vec<String> {
    items.iter().map(|s| s.to_string()).collect()
}

fn prune_rows(page: &mut Page, dead: &RowSet) -> Vec<u16> {
    let answers = rows_to_ask(page).into_iter().map(|r| dead.contains(r)).collect();
    prune(page, &answers)
}

fn queued(id: i64, pk: &str, op: &str) -> (i64, String, String) {
    (id, pk.to_string(), op.to_string())
}

#[test]
fn markers_are_pending_and_every_record_has_a_row() {
    let records = vec![marker(0, 1), mentions(0, 2, &list(&["x"])), marker(3, 4)];
    assert_eq!(pending_rows(&records), vec![(0, 1), (3, 4)]);
    assert_eq!(stored_rows(&records), vec![(0, 1), (0, 2), (3, 4)]);
    assert!(pending_rows(&vec![]).is_empty());
}

#[test]
fn a_row_without_a_text_is_not_extracted() {
    let found = vec![Some("Sara".to_string()), None, Some(String::new())];
    assert_eq!(
        rows_with_text(&vec![(0, 1), (0, 2), (0, 3)], &found),
        vec![(0, 1, "Sara".to_string()), (0, 3, String::new())]
    );
}

#[test]
fn an_extraction_pass_turns_markers_into_mentions() {
    let mut page = Page {
        slots: vec![Some(mentions(0, 9, &list(&["old"]))), Some(marker(0, 1)), Some(marker(0, 2))],
    };
    let pending = pending_rows(&scan(&vec![Page { slots: page.slots.clone() }]));
    assert_eq!(prune_rows(&mut page, &RowSet::of(&pending)), vec![2, 3]);
    let extracted = vec![Extraction { block: 0, offset: 1, surfaces: list(&["sara", "tehran"]) }];
    for r in mention_records(&extracted) {
        page.slots.push(Some(r));
    }
    let records = scan(&vec![page]);
    assert!(pending_rows(&records).is_empty());
    let rows = stored_mentions(&records);
    assert_eq!(rows.len(), 2);
    assert_eq!(rows[0].surfaces, list(&["old"]));
    assert_eq!(rows[1].source_pk, "(0,1)");
    assert_eq!(rows[1].surfaces, list(&["sara", "tehran"]));
}

#[test]
fn pruning_after_appending_would_lose_the_extraction() {
    let mut page = Page { slots: vec![Some(marker(0, 1)), Some(mentions(0, 1, &list(&["sara"])))] };
    prune_rows(&mut page, &RowSet::of(&vec![(0, 1)]));
    assert!(scan(&vec![page]).is_empty());
}

#[test]
fn garbage_collection_keeps_the_living() {
    let records = vec![
        mentions(0, 1, &list(&["sara", "tehran"])),
        mentions(0, 2, &list(&["reza", "berlin"])),
        marker(0, 3),
        marker(0, 4),
    ];
    let rows = stored_rows(&records);
    let dead = dead_rows(&rows, &vec![Some(true), Some(false), None, Some(true)]);
    assert!(!dead.contains((0, 1)));
    assert!(dead.contains((0, 2)));
    assert!(dead.contains((0, 3)));
    assert!(!dead.contains((0, 4)));
    let mut page = Page { slots: records.into_iter().map(Some).collect() };
    assert_eq!(prune_rows(&mut page, &dead).len(), 2);
    let rest = scan(&vec![page]);
    assert_eq!(rest, vec![mentions(0, 1, &list(&["sara", "tehran"])), marker(0, 4)]);
}

#[test]
fn a_row_is_dead_if_one_probe_says_so() {
    let dead = dead_rows(&vec![(0, 1), (0, 1)], &vec![Some(true), Some(false)]);
    assert!(dead.contains((0, 1)));
}

fn steps(entries: Vec<(i64, String, String)>) -> Vec<String> {
    plan_queue(&entries)
        .iter()
        .map(|s| match s {
            QueueStep::Remove(pk) => format!("remove {pk}"),
            QueueStep::Readd(pk) => format!("readd {pk}"),
            QueueStep::Clear(id) => format!("clear {id}"),
        })
        .collect()
}

#[test]
fn an_empty_queue_asks_for_nothing() {
    assert!(plan_queue(&vec![]).is_empty());
}

#[test]
fn an_updated_row_is_read_again_after_its_old_version_is_removed() {
    let update = vec![queued(1, "1", "upsert"), queued(2, "1", "delete")];
    assert_eq!(steps(update), list(&["remove 1", "readd 1", "remove 1", "readd 1", "clear 2"]));
    let renamed = vec![queued(1, "2", "upsert"), queued(2, "1", "delete")];
    assert_eq!(steps(renamed), list(&["remove 2", "readd 2", "remove 1", "clear 2"]));
}

#[test]
fn queued_changes_keep_their_order_and_are_cleared_last() {
    let entries = vec![
        queued(5, "1", "upsert"),
        queued(9, "1", "delete"),
        queued(7, "2", "UPSERT"),
        queued(8, "3", "upsert"),
    ];
    assert_eq!(
        steps(entries),
        list(&[
            "remove 1", "readd 1", "remove 1", "readd 1", "remove 2", "remove 3", "readd 3", "clear 9",
        ])
    );
    assert_eq!(steps(vec![queued(-4, "x", "delete")]), list(&["remove x", "clear -4"]));
}

#[test]
fn counts_add_up_within_a_bigint() {
    assert_eq!(total(&vec![]), Some(0));
    assert_eq!(total(&vec![1, 2, 3]), Some(6));
    assert_eq!(total(&vec![9223372036854775806, 1]), Some(9223372036854775807));
    assert_eq!(total(&vec![9223372036854775807, 1]), None);
    assert_eq!(total(&vec![u64::MAX]), None);
}

#[test]
fn a_pass_counts_indexes_and_changes() {
    assert_eq!(pass_count(&vec![], &vec![]), Some(0));
    assert_eq!(pass_count(&vec![(10, 1), (12, 2)], &vec![3, 4]), Some(9));
    assert_eq!(pass_count(&vec![(10, 1)], &vec![9223372036854775806]), Some(9223372036854775807));
    assert_eq!(pass_count(&vec![(10, 1)], &vec![9223372036854775807]), None);
    assert_eq!(pass_count(&vec![], &vec![u64::MAX]), None);
}

#[test]
fn the_schema_must_be_there() {
    assert!(schema_present(Some(true)));
    assert!(!schema_present(Some(false)));
    assert!(!schema_present(None));
}

#[test]
fn indexes_of_unwatched_tables_are_skipped() {
    assert_eq!(
        indexes_to_refresh(&vec![10, 11, 12], &vec![Some(1), None, Some(-2)]),
        vec![(10, 1), (12, -2)]
    );
}

#[test]
fn the_worker_needs_a_database() {
    assert_eq!(maintenance_database(None), None);
    assert_eq!(maintenance_database(Some("")), None);
    assert_eq!(maintenance_database(Some("mydb")), Some("mydb".to_string()));
    assert_eq!(maintenance_database(Some(" ")), Some(" ".to_string()));
}

#[test]
fn the_worker_drains_until_it_is_stopped() {
    assert_eq!(worker_step(true, false), WorkerStep::Drain);
    assert_eq!(worker_step(true, true), WorkerStep::Stop);
    assert_eq!(worker_step(false, false), WorkerStep::Stop);
    assert_eq!(worker_step(false, true), WorkerStep::Stop);
}
