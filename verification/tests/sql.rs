use pg_graphwright::sql;
use pg_graphwright::visibility::{Visibility, WatchMeta};

fn meta(visibility: Visibility) -> WatchMeta {
    WatchMeta {
        id: 3,
        source_table: "notes".to_string(),
        pk_column: "id".to_string(),
        visibility,
    }
}

#[test]
fn watches_are_looked_up_and_registered() {
    assert_eq!(
        sql::watch_meta("'notes'"),
        "SELECT id, source_table::text, pk_column, visibility \
         FROM graphwright.watch WHERE source_table = 'notes'::regclass"
    );
    assert_eq!(
        sql::upsert_watch("'notes'", "'body'", "'id'"),
        "INSERT INTO graphwright.watch (source_table, text_column, pk_column) \
         VALUES ('notes'::regclass, 'body', 'id') \
         ON CONFLICT (source_table, text_column) \
         DO UPDATE SET pk_column = EXCLUDED.pk_column \
         RETURNING id"
    );
    assert_eq!(
        sql::watch_id_of("'notes'"),
        "SELECT id FROM graphwright.watch WHERE source_table = 'notes'::regclass"
    );
    assert_eq!(
        sql::watch_of_table(16384),
        "SELECT id FROM graphwright.watch WHERE source_table::oid = 16384::oid"
    );
    assert_eq!(sql::watch_table(-3), "SELECT source_table::text FROM graphwright.watch WHERE id = -3");
    assert_eq!(
        sql::watch_source(3),
        "SELECT source_table::text, text_column FROM graphwright.watch WHERE id = 3"
    );
    assert_eq!(
        sql::watch_columns(3),
        "SELECT source_table::text, text_column, pk_column FROM graphwright.watch WHERE id = 3"
    );
}

#[test]
fn the_capture_trigger_is_installed_on_the_table() {
    assert_eq!(
        sql::capture_trigger("notes"),
        "CREATE OR REPLACE TRIGGER graphwright_capture \
         AFTER INSERT OR UPDATE OR DELETE ON notes \
         FOR EACH ROW EXECUTE FUNCTION graphwright._enqueue()"
    );
}

#[test]
fn a_rebuild_clears_and_reads_the_source() {
    assert_eq!(sql::clear_entities(3), "DELETE FROM graphwright.entity WHERE watch_id = 3");
    assert_eq!(sql::clear_queue(3), "DELETE FROM graphwright.dirty WHERE watch_id = 3");
    assert_eq!(
        sql::source_rows("notes", "id", "body"),
        "SELECT (id)::text, (body)::text FROM notes"
    );
    assert_eq!(
        sql::row_text_by_pk("notes", "body", "id", "'7'"),
        "SELECT (body)::text FROM notes WHERE (id)::text = '7'"
    );
    assert_eq!(
        sql::row_text_by_ctid("notes", "body", "(0,1)"),
        "SELECT (body)::text FROM notes WHERE ctid = '(0,1)'::tid"
    );
}

#[test]
fn decisions_are_read_recorded_and_dropped() {
    assert_eq!(
        sql::read_decisions(3),
        "SELECT norm_a, norm_b, verdict FROM graphwright.decision WHERE watch_id = 3"
    );
    assert_eq!(
        sql::list_decisions(3),
        "SELECT norm_a, norm_b, verdict FROM graphwright.decision \
         WHERE watch_id = 3 ORDER BY norm_a, norm_b"
    );
    assert_eq!(
        sql::record_decision(3, "'a'", "'b'", "'merge'"),
        "INSERT INTO graphwright.decision (watch_id, norm_a, norm_b, verdict) \
         VALUES (3, 'a', 'b', 'merge') \
         ON CONFLICT (watch_id, norm_a, norm_b) \
         DO UPDATE SET verdict = EXCLUDED.verdict, decided_by = current_user, decided_at = now()"
    );
    assert_eq!(
        sql::drop_decision(3, "'a'", "'b'"),
        "DELETE FROM graphwright.decision WHERE watch_id = 3 AND norm_a = 'a' AND norm_b = 'b'"
    );
}

#[test]
fn overrides_are_read_recorded_and_dropped() {
    assert_eq!(
        sql::read_overrides(3),
        "SELECT source_pk, surface_norm, tag FROM graphwright.mention_override \
         WHERE watch_id = 3"
    );
    assert_eq!(
        sql::record_mention_override(3, "'1'", "'sara'", "'boss'"),
        "INSERT INTO graphwright.mention_override (watch_id, source_pk, surface_norm, tag) \
         VALUES (3, '1', 'sara', 'boss') \
         ON CONFLICT (watch_id, source_pk, surface_norm) \
         DO UPDATE SET tag = EXCLUDED.tag, decided_by = current_user, decided_at = now()"
    );
    assert_eq!(
        sql::drop_mention_override(3, "'1'", "'sara'"),
        "DELETE FROM graphwright.mention_override \
         WHERE watch_id = 3 AND source_pk = '1' AND surface_norm = 'sara'"
    );
}

#[test]
fn the_graph_is_written_row_by_row() {
    assert_eq!(
        sql::upsert_entity(3, "'Sara'", "'sara'"),
        "INSERT INTO graphwright.entity (watch_id, surface, norm) VALUES (3, 'Sara', 'sara') \
         ON CONFLICT (watch_id, norm) DO UPDATE SET norm = EXCLUDED.norm \
         RETURNING id"
    );
    assert_eq!(
        sql::insert_phonetic_key(-5, "'SR'"),
        "INSERT INTO graphwright.entity_phonetic (entity_id, key) VALUES (-5, 'SR') \
         ON CONFLICT DO NOTHING"
    );
    assert_eq!(
        sql::insert_mention(3, 5, "'1'", "'Sara'"),
        "INSERT INTO graphwright.mention (watch_id, entity_id, source_pk, surface_form) \
         VALUES (3, 5, '1', 'Sara')"
    );
    assert_eq!(
        sql::upsert_edge(3, 5, 6, "'knows'"),
        "INSERT INTO graphwright.edge (watch_id, src, dst, predicate) \
         VALUES (3, 5, 6, 'knows') \
         ON CONFLICT (watch_id, src, dst, predicate) DO UPDATE SET predicate = EXCLUDED.predicate \
         RETURNING id"
    );
    assert_eq!(
        sql::insert_edge_support(8, 3, "'1'"),
        "INSERT INTO graphwright.edge_support (edge_id, watch_id, source_pk) \
         VALUES (8, 3, '1') ON CONFLICT DO NOTHING"
    );
}

#[test]
fn a_row_is_removed_in_four_steps() {
    assert_eq!(
        sql::remove_row(3, "'1'"),
        vec![
            "DELETE FROM graphwright.edge_support WHERE source_pk = '1' \
             AND edge_id IN (SELECT id FROM graphwright.edge WHERE watch_id = 3)"
                .to_string(),
            "DELETE FROM graphwright.edge e WHERE e.watch_id = 3 \
             AND NOT EXISTS (SELECT 1 FROM graphwright.edge_support s WHERE s.edge_id = e.id)"
                .to_string(),
            "DELETE FROM graphwright.mention WHERE watch_id = 3 AND source_pk = '1'".to_string(),
            "DELETE FROM graphwright.entity en WHERE en.watch_id = 3 \
             AND NOT EXISTS (SELECT 1 FROM graphwright.mention m WHERE m.entity_id = en.id)"
                .to_string(),
        ]
    );
}

#[test]
fn the_queue_is_read_in_order_and_cleared_up_to_an_id() {
    assert_eq!(
        sql::read_queue(3),
        "SELECT id, source_pk, op FROM graphwright.dirty WHERE watch_id = 3 ORDER BY id"
    );
    assert_eq!(
        sql::clear_processed(3, 99),
        "DELETE FROM graphwright.dirty WHERE watch_id = 3 AND id <= 99"
    );
    assert_eq!(sql::dirty_watches(), "SELECT DISTINCT watch_id FROM graphwright.dirty");
}

#[test]
fn relations_are_looked_up_in_the_catalog() {
    assert_eq!(sql::index_oid("'notes_kg'"), "SELECT 'notes_kg'::regclass::oid");
    assert_eq!(
        sql::heap_of_index(4294967295),
        "SELECT indrelid::regclass::text FROM pg_index WHERE indexrelid = 4294967295::oid"
    );
    assert_eq!(sql::table_name(16384), "SELECT 16384::regclass::text");
    assert_eq!(
        sql::row_alive("notes", 1, 2),
        "SELECT EXISTS (SELECT 1 FROM notes WHERE ctid = '(1,2)'::tid)"
    );
    assert_eq!(sql::schema_query(), "SELECT to_regnamespace('graphwright') IS NOT NULL");
    assert_eq!(
        sql::all_indexes(),
        "SELECT i.indexrelid, i.indrelid FROM pg_index i \
         JOIN pg_class c ON c.oid = i.indexrelid \
         JOIN pg_am a ON a.oid = c.relam WHERE a.amname = 'graphwright'"
    );
}

#[test]
fn entities_and_mentions_join_the_source_table() {
    assert_eq!(
        sql::entities(&meta(Visibility::Union), "id"),
        "SELECT e.id, e.surface FROM graphwright.entity e \
         WHERE e.watch_id = 3 AND EXISTS (SELECT 1 FROM graphwright.mention mn \
         JOIN notes s ON (s.id)::text = mn.source_pk \
         WHERE mn.entity_id = e.id) \
         ORDER BY e.surface"
    );
    assert_eq!(
        sql::mentions(&meta(Visibility::Union), "id"),
        "SELECT mn.entity_id, e.surface, mn.source_pk, mn.surface_form \
         FROM graphwright.mention mn \
         JOIN graphwright.entity e ON e.id = mn.entity_id \
         JOIN notes s ON (s.id)::text = mn.source_pk \
         WHERE mn.watch_id = 3 \
         ORDER BY e.surface, mn.source_pk, mn.surface_form"
    );
}

#[test]
fn proposals_show_pairs_that_are_both_visible() {
    assert_eq!(
        sql::proposals(&meta(Visibility::Union), "id"),
        "SELECT e1.id, e1.surface, e2.id, e2.surface \
         FROM graphwright.entity_phonetic p1 \
         JOIN graphwright.entity_phonetic p2 ON p1.key = p2.key AND p1.entity_id < p2.entity_id \
         JOIN graphwright.entity e1 ON e1.id = p1.entity_id \
         JOIN graphwright.entity e2 ON e2.id = p2.entity_id \
         WHERE e1.watch_id = 3 AND e2.watch_id = 3 AND e1.norm <> e2.norm \
         AND EXISTS (SELECT 1 FROM graphwright.mention mn \
         JOIN notes s ON (s.id)::text = mn.source_pk WHERE mn.entity_id = e1.id) \
         AND EXISTS (SELECT 1 FROM graphwright.mention mn \
         JOIN notes s ON (s.id)::text = mn.source_pk WHERE mn.entity_id = e2.id) \
         GROUP BY e1.id, e1.surface, e2.id, e2.surface \
         ORDER BY e1.surface, e2.surface"
    );
}

#[test]
fn edges_follow_the_rule_of_the_watch() {
    assert_eq!(
        sql::edges(&meta(Visibility::Union), "id"),
        "SELECT e.id, es.surface, ed.surface, e.predicate \
         FROM graphwright.edge e \
         JOIN graphwright.entity es ON es.id = e.src \
         JOIN graphwright.entity ed ON ed.id = e.dst \
         WHERE e.watch_id = 3 AND EXISTS (SELECT 1 FROM graphwright.edge_support sup \
         JOIN notes s ON (s.id)::text = sup.source_pk WHERE sup.edge_id = e.id) \
         ORDER BY es.surface, ed.surface"
    );
    assert_eq!(
        sql::edges(&meta(Visibility::Intersection), "id"),
        "SELECT e.id, es.surface, ed.surface, e.predicate \
         FROM graphwright.edge e \
         JOIN graphwright.entity es ON es.id = e.src \
         JOIN graphwright.entity ed ON ed.id = e.dst \
         WHERE e.watch_id = 3 AND (SELECT count(*) FROM graphwright.edge_support sup \
         JOIN notes s ON (s.id)::text = sup.source_pk WHERE sup.edge_id = e.id) \
         = (SELECT count(*) FROM graphwright.edge_support sup WHERE sup.edge_id = e.id) \
         ORDER BY es.surface, ed.surface"
    );
}
