//! The statements sent to Postgres, as text. A parameter that stands for a
//! literal or an identifier is already quoted; a table is the text of its
//! `regclass`, which Postgres has quoted itself. Numbers are written in
//! decimal. What Postgres makes of a statement is left unsaid: the contracts fix
//! what it is asked.
use crate::storage::{ctid, ctid_text};
use crate::text::{decimal, decimal_text, signed_decimal, signed_decimal_text, texts};
use crate::visibility::{Visibility, WatchMeta};
use vstd::prelude::*;
use vstd::string::*;

verus! {

/// Looks up the watch of a table (a quoted literal).
pub fn watch_meta(table: &str) -> (sql: String)
    ensures
        sql@ == "SELECT id, source_table::text, pk_column, visibility FROM graphwright.watch WHERE source_table = "@
            + table@
            + "::regclass"@,
{
    let mut sql = "SELECT id, source_table::text, pk_column, visibility FROM graphwright.watch WHERE source_table = ".to_owned();
    sql.append(table);
    sql.append("::regclass");
    sql
}

/// Registers or updates the watch of a table and a text column, all three given
/// as quoted literals, and returns its id.
pub fn upsert_watch(table: &str, text_column: &str, pk_column: &str) -> (sql: String)
    ensures
        sql@ == "INSERT INTO graphwright.watch (source_table, text_column, pk_column) VALUES ("@
            + table@
            + "::regclass, "@
            + text_column@
            + ", "@
            + pk_column@
            + ") ON CONFLICT (source_table, text_column) DO UPDATE SET pk_column = EXCLUDED.pk_column RETURNING id"@,
{
    let mut sql = "INSERT INTO graphwright.watch (source_table, text_column, pk_column) VALUES (".to_owned();
    sql.append(table);
    sql.append("::regclass, ");
    sql.append(text_column);
    sql.append(", ");
    sql.append(pk_column);
    sql.append(") ON CONFLICT (source_table, text_column) DO UPDATE SET pk_column = EXCLUDED.pk_column RETURNING id");
    sql
}

/// Looks up the id of the watch of a table (a quoted literal).
pub fn watch_id_of(table: &str) -> (sql: String)
    ensures
        sql@ == "SELECT id FROM graphwright.watch WHERE source_table = "@
            + table@
            + "::regclass"@,
{
    let mut sql = "SELECT id FROM graphwright.watch WHERE source_table = ".to_owned();
    sql.append(table);
    sql.append("::regclass");
    sql
}

/// Looks up the id of the watch of a table, given by its oid.
pub fn watch_of_table(table_oid: u32) -> (sql: String)
    ensures
        sql@ == "SELECT id FROM graphwright.watch WHERE source_table::oid = "@
            + decimal(table_oid as nat)
            + "::oid"@,
{
    let mut sql = "SELECT id FROM graphwright.watch WHERE source_table::oid = ".to_owned();
    let table_oid_text = decimal_text(table_oid as u64);
    sql.append(table_oid_text.as_str());
    sql.append("::oid");
    sql
}

/// Reads the table of a watch.
pub fn watch_table(watch_id: i32) -> (sql: String)
    ensures
        sql@ == "SELECT source_table::text FROM graphwright.watch WHERE id = "@
            + signed_decimal(watch_id as int),
{
    let mut sql = "SELECT source_table::text FROM graphwright.watch WHERE id = ".to_owned();
    let watch_id_text = signed_decimal_text(watch_id as i64);
    sql.append(watch_id_text.as_str());
    sql
}

/// Reads the table and the text column of a watch.
pub fn watch_source(watch_id: i32) -> (sql: String)
    ensures
        sql@ == "SELECT source_table::text, text_column FROM graphwright.watch WHERE id = "@
            + signed_decimal(watch_id as int),
{
    let mut sql = "SELECT source_table::text, text_column FROM graphwright.watch WHERE id = ".to_owned();
    let watch_id_text = signed_decimal_text(watch_id as i64);
    sql.append(watch_id_text.as_str());
    sql
}

/// Reads the table, the text column and the provenance column of a watch.
pub fn watch_columns(watch_id: i32) -> (sql: String)
    ensures
        sql@ == "SELECT source_table::text, text_column, pk_column FROM graphwright.watch WHERE id = "@
            + signed_decimal(watch_id as int),
{
    let mut sql = "SELECT source_table::text, text_column, pk_column FROM graphwright.watch WHERE id = ".to_owned();
    let watch_id_text = signed_decimal_text(watch_id as i64);
    sql.append(watch_id_text.as_str());
    sql
}

/// Installs the trigger that queues every change of a table.
pub fn capture_trigger(table: &str) -> (sql: String)
    ensures
        sql@ == "CREATE OR REPLACE TRIGGER graphwright_capture AFTER INSERT OR UPDATE OR DELETE ON "@
            + table@
            + " FOR EACH ROW EXECUTE FUNCTION graphwright._enqueue()"@,
{
    let mut sql = "CREATE OR REPLACE TRIGGER graphwright_capture AFTER INSERT OR UPDATE OR DELETE ON ".to_owned();
    sql.append(table);
    sql.append(" FOR EACH ROW EXECUTE FUNCTION graphwright._enqueue()");
    sql
}

/// Clears the resolved graph of a watch; mentions and edges go with their
/// entities.
pub fn clear_entities(watch_id: i32) -> (sql: String)
    ensures
        sql@ == "DELETE FROM graphwright.entity WHERE watch_id = "@
            + signed_decimal(watch_id as int),
{
    let mut sql = "DELETE FROM graphwright.entity WHERE watch_id = ".to_owned();
    let watch_id_text = signed_decimal_text(watch_id as i64);
    sql.append(watch_id_text.as_str());
    sql
}

/// Clears the change queue of a watch.
pub fn clear_queue(watch_id: i32) -> (sql: String)
    ensures
        sql@ == "DELETE FROM graphwright.dirty WHERE watch_id = "@
            + signed_decimal(watch_id as int),
{
    let mut sql = "DELETE FROM graphwright.dirty WHERE watch_id = ".to_owned();
    let watch_id_text = signed_decimal_text(watch_id as i64);
    sql.append(watch_id_text.as_str());
    sql
}

/// Reads a row's text by its provenance value. The columns are quoted
/// identifiers, the value a quoted literal.
pub fn row_text_by_pk(table: &str, text_column: &str, pk_column: &str, pk: &str) -> (sql: String)
    ensures
        sql@ == "SELECT ("@
            + text_column@
            + ")::text FROM "@
            + table@
            + " WHERE ("@
            + pk_column@
            + ")::text = "@
            + pk@,
{
    let mut sql = "SELECT (".to_owned();
    sql.append(text_column);
    sql.append(")::text FROM ");
    sql.append(table);
    sql.append(" WHERE (");
    sql.append(pk_column);
    sql.append(")::text = ");
    sql.append(pk);
    sql
}

/// Reads a row's text by its place in the heap. The column is a quoted
/// identifier.
pub fn row_text_by_ctid(table: &str, text_column: &str, row: &str) -> (sql: String)
    ensures
        sql@ == "SELECT ("@
            + text_column@
            + ")::text FROM "@
            + table@
            + " WHERE ctid = '"@
            + row@
            + "'::tid"@,
{
    let mut sql = "SELECT (".to_owned();
    sql.append(text_column);
    sql.append(")::text FROM ");
    sql.append(table);
    sql.append(" WHERE ctid = '");
    sql.append(row);
    sql.append("'::tid");
    sql
}

/// Reads the provenance value and the text of every row. The columns are quoted
/// identifiers.
pub fn source_rows(table: &str, pk_column: &str, text_column: &str) -> (sql: String)
    ensures
        sql@ == "SELECT ("@
            + pk_column@
            + ")::text, ("@
            + text_column@
            + ")::text FROM "@
            + table@,
{
    let mut sql = "SELECT (".to_owned();
    sql.append(pk_column);
    sql.append(")::text, (");
    sql.append(text_column);
    sql.append(")::text FROM ");
    sql.append(table);
    sql
}

/// Reads the decisions of a watch.
pub fn read_decisions(watch_id: i32) -> (sql: String)
    ensures
        sql@ == "SELECT norm_a, norm_b, verdict FROM graphwright.decision WHERE watch_id = "@
            + signed_decimal(watch_id as int),
{
    let mut sql = "SELECT norm_a, norm_b, verdict FROM graphwright.decision WHERE watch_id = ".to_owned();
    let watch_id_text = signed_decimal_text(watch_id as i64);
    sql.append(watch_id_text.as_str());
    sql
}

/// Reads the decisions of a watch in order.
pub fn list_decisions(watch_id: i32) -> (sql: String)
    ensures
        sql@ == "SELECT norm_a, norm_b, verdict FROM graphwright.decision WHERE watch_id = "@
            + signed_decimal(watch_id as int)
            + " ORDER BY norm_a, norm_b"@,
{
    let mut sql = "SELECT norm_a, norm_b, verdict FROM graphwright.decision WHERE watch_id = ".to_owned();
    let watch_id_text = signed_decimal_text(watch_id as i64);
    sql.append(watch_id_text.as_str());
    sql.append(" ORDER BY norm_a, norm_b");
    sql
}

/// Records a decision about an ordered pair of names, replacing an earlier one.
/// Names and verdict are quoted literals.
pub fn record_decision(watch_id: i32, norm_a: &str, norm_b: &str, verdict: &str) -> (sql: String)
    ensures
        sql@ == "INSERT INTO graphwright.decision (watch_id, norm_a, norm_b, verdict) VALUES ("@
            + signed_decimal(watch_id as int)
            + ", "@
            + norm_a@
            + ", "@
            + norm_b@
            + ", "@
            + verdict@
            + ") ON CONFLICT (watch_id, norm_a, norm_b) DO UPDATE SET verdict = EXCLUDED.verdict, decided_by = current_user, decided_at = now()"@,
{
    let mut sql = "INSERT INTO graphwright.decision (watch_id, norm_a, norm_b, verdict) VALUES (".to_owned();
    let watch_id_text = signed_decimal_text(watch_id as i64);
    sql.append(watch_id_text.as_str());
    sql.append(", ");
    sql.append(norm_a);
    sql.append(", ");
    sql.append(norm_b);
    sql.append(", ");
    sql.append(verdict);
    sql.append(") ON CONFLICT (watch_id, norm_a, norm_b) DO UPDATE SET verdict = EXCLUDED.verdict, decided_by = current_user, decided_at = now()");
    sql
}

/// Drops the decision about an ordered pair of names (quoted literals).
pub fn drop_decision(watch_id: i32, norm_a: &str, norm_b: &str) -> (sql: String)
    ensures
        sql@ == "DELETE FROM graphwright.decision WHERE watch_id = "@
            + signed_decimal(watch_id as int)
            + " AND norm_a = "@
            + norm_a@
            + " AND norm_b = "@
            + norm_b@,
{
    let mut sql = "DELETE FROM graphwright.decision WHERE watch_id = ".to_owned();
    let watch_id_text = signed_decimal_text(watch_id as i64);
    sql.append(watch_id_text.as_str());
    sql.append(" AND norm_a = ");
    sql.append(norm_a);
    sql.append(" AND norm_b = ");
    sql.append(norm_b);
    sql
}

/// Reads the per-mention overrides of a watch.
pub fn read_overrides(watch_id: i32) -> (sql: String)
    ensures
        sql@ == "SELECT source_pk, surface_norm, tag FROM graphwright.mention_override WHERE watch_id = "@
            + signed_decimal(watch_id as int),
{
    let mut sql = "SELECT source_pk, surface_norm, tag FROM graphwright.mention_override WHERE watch_id = ".to_owned();
    let watch_id_text = signed_decimal_text(watch_id as i64);
    sql.append(watch_id_text.as_str());
    sql
}

/// Records an override for one occurrence, replacing an earlier one. Row, key
/// and tag are quoted literals.
pub fn record_mention_override(watch_id: i32, pk: &str, norm: &str, tag: &str) -> (sql: String)
    ensures
        sql@ == "INSERT INTO graphwright.mention_override (watch_id, source_pk, surface_norm, tag) VALUES ("@
            + signed_decimal(watch_id as int)
            + ", "@
            + pk@
            + ", "@
            + norm@
            + ", "@
            + tag@
            + ") ON CONFLICT (watch_id, source_pk, surface_norm) DO UPDATE SET tag = EXCLUDED.tag, decided_by = current_user, decided_at = now()"@,
{
    let mut sql = "INSERT INTO graphwright.mention_override (watch_id, source_pk, surface_norm, tag) VALUES (".to_owned();
    let watch_id_text = signed_decimal_text(watch_id as i64);
    sql.append(watch_id_text.as_str());
    sql.append(", ");
    sql.append(pk);
    sql.append(", ");
    sql.append(norm);
    sql.append(", ");
    sql.append(tag);
    sql.append(") ON CONFLICT (watch_id, source_pk, surface_norm) DO UPDATE SET tag = EXCLUDED.tag, decided_by = current_user, decided_at = now()");
    sql
}

/// Drops the override of one occurrence. Row and key are quoted literals.
pub fn drop_mention_override(watch_id: i32, pk: &str, norm: &str) -> (sql: String)
    ensures
        sql@ == "DELETE FROM graphwright.mention_override WHERE watch_id = "@
            + signed_decimal(watch_id as int)
            + " AND source_pk = "@
            + pk@
            + " AND surface_norm = "@
            + norm@,
{
    let mut sql = "DELETE FROM graphwright.mention_override WHERE watch_id = ".to_owned();
    let watch_id_text = signed_decimal_text(watch_id as i64);
    sql.append(watch_id_text.as_str());
    sql.append(" AND source_pk = ");
    sql.append(pk);
    sql.append(" AND surface_norm = ");
    sql.append(norm);
    sql
}

/// Finds or adds the entity of a key and returns its id. Surface and key are
/// quoted literals.
pub fn upsert_entity(watch_id: i32, surface: &str, norm: &str) -> (sql: String)
    ensures
        sql@ == "INSERT INTO graphwright.entity (watch_id, surface, norm) VALUES ("@
            + signed_decimal(watch_id as int)
            + ", "@
            + surface@
            + ", "@
            + norm@
            + ") ON CONFLICT (watch_id, norm) DO UPDATE SET norm = EXCLUDED.norm RETURNING id"@,
{
    let mut sql = "INSERT INTO graphwright.entity (watch_id, surface, norm) VALUES (".to_owned();
    let watch_id_text = signed_decimal_text(watch_id as i64);
    sql.append(watch_id_text.as_str());
    sql.append(", ");
    sql.append(surface);
    sql.append(", ");
    sql.append(norm);
    sql.append(") ON CONFLICT (watch_id, norm) DO UPDATE SET norm = EXCLUDED.norm RETURNING id");
    sql
}

/// Records a phonetic key (a quoted literal) of an entity.
pub fn insert_phonetic_key(entity_id: i64, key: &str) -> (sql: String)
    ensures
        sql@ == "INSERT INTO graphwright.entity_phonetic (entity_id, key) VALUES ("@
            + signed_decimal(entity_id as int)
            + ", "@
            + key@
            + ") ON CONFLICT DO NOTHING"@,
{
    let mut sql = "INSERT INTO graphwright.entity_phonetic (entity_id, key) VALUES (".to_owned();
    let entity_id_text = signed_decimal_text(entity_id);
    sql.append(entity_id_text.as_str());
    sql.append(", ");
    sql.append(key);
    sql.append(") ON CONFLICT DO NOTHING");
    sql
}

/// Records a mention of an entity. Row and surface are quoted literals.
pub fn insert_mention(watch_id: i32, entity_id: i64, pk: &str, surface: &str) -> (sql: String)
    ensures
        sql@ == "INSERT INTO graphwright.mention (watch_id, entity_id, source_pk, surface_form) VALUES ("@
            + signed_decimal(watch_id as int)
            + ", "@
            + signed_decimal(entity_id as int)
            + ", "@
            + pk@
            + ", "@
            + surface@
            + ")"@,
{
    let mut sql = "INSERT INTO graphwright.mention (watch_id, entity_id, source_pk, surface_form) VALUES (".to_owned();
    let watch_id_text = signed_decimal_text(watch_id as i64);
    sql.append(watch_id_text.as_str());
    sql.append(", ");
    let entity_id_text = signed_decimal_text(entity_id);
    sql.append(entity_id_text.as_str());
    sql.append(", ");
    sql.append(pk);
    sql.append(", ");
    sql.append(surface);
    sql.append(")");
    sql
}

/// Finds or adds an edge and returns its id. The predicate is a quoted literal.
pub fn upsert_edge(watch_id: i32, src: i64, dst: i64, predicate: &str) -> (sql: String)
    ensures
        sql@ == "INSERT INTO graphwright.edge (watch_id, src, dst, predicate) VALUES ("@
            + signed_decimal(watch_id as int)
            + ", "@
            + signed_decimal(src as int)
            + ", "@
            + signed_decimal(dst as int)
            + ", "@
            + predicate@
            + ") ON CONFLICT (watch_id, src, dst, predicate) DO UPDATE SET predicate = EXCLUDED.predicate RETURNING id"@,
{
    let mut sql = "INSERT INTO graphwright.edge (watch_id, src, dst, predicate) VALUES (".to_owned();
    let watch_id_text = signed_decimal_text(watch_id as i64);
    sql.append(watch_id_text.as_str());
    sql.append(", ");
    let src_text = signed_decimal_text(src);
    sql.append(src_text.as_str());
    sql.append(", ");
    let dst_text = signed_decimal_text(dst);
    sql.append(dst_text.as_str());
    sql.append(", ");
    sql.append(predicate);
    sql.append(") ON CONFLICT (watch_id, src, dst, predicate) DO UPDATE SET predicate = EXCLUDED.predicate RETURNING id");
    sql
}

/// Records a row (a quoted literal) as support of an edge.
pub fn insert_edge_support(edge_id: i64, watch_id: i32, pk: &str) -> (sql: String)
    ensures
        sql@ == "INSERT INTO graphwright.edge_support (edge_id, watch_id, source_pk) VALUES ("@
            + signed_decimal(edge_id as int)
            + ", "@
            + signed_decimal(watch_id as int)
            + ", "@
            + pk@
            + ") ON CONFLICT DO NOTHING"@,
{
    let mut sql = "INSERT INTO graphwright.edge_support (edge_id, watch_id, source_pk) VALUES (".to_owned();
    let edge_id_text = signed_decimal_text(edge_id);
    sql.append(edge_id_text.as_str());
    sql.append(", ");
    let watch_id_text = signed_decimal_text(watch_id as i64);
    sql.append(watch_id_text.as_str());
    sql.append(", ");
    sql.append(pk);
    sql.append(") ON CONFLICT DO NOTHING");
    sql
}

/// Takes a row (a quoted literal) out of the supports of a watch's edges.
fn drop_edge_support(pk: &str, watch_id: i32) -> (sql: String)
    ensures
        sql@ == "DELETE FROM graphwright.edge_support WHERE source_pk = "@
            + pk@
            + " AND edge_id IN (SELECT id FROM graphwright.edge WHERE watch_id = "@
            + signed_decimal(watch_id as int)
            + ")"@,
{
    let mut sql = "DELETE FROM graphwright.edge_support WHERE source_pk = ".to_owned();
    sql.append(pk);
    sql.append(" AND edge_id IN (SELECT id FROM graphwright.edge WHERE watch_id = ");
    let watch_id_text = signed_decimal_text(watch_id as i64);
    sql.append(watch_id_text.as_str());
    sql.append(")");
    sql
}

/// Drops the edges of a watch that no row supports any more.
fn drop_unsupported_edges(watch_id: i32) -> (sql: String)
    ensures
        sql@ == "DELETE FROM graphwright.edge e WHERE e.watch_id = "@
            + signed_decimal(watch_id as int)
            + " AND NOT EXISTS (SELECT 1 FROM graphwright.edge_support s WHERE s.edge_id = e.id)"@,
{
    let mut sql = "DELETE FROM graphwright.edge e WHERE e.watch_id = ".to_owned();
    let watch_id_text = signed_decimal_text(watch_id as i64);
    sql.append(watch_id_text.as_str());
    sql.append(" AND NOT EXISTS (SELECT 1 FROM graphwright.edge_support s WHERE s.edge_id = e.id)");
    sql
}

/// Drops the mentions that a row (a quoted literal) makes.
fn drop_mentions(watch_id: i32, pk: &str) -> (sql: String)
    ensures
        sql@ == "DELETE FROM graphwright.mention WHERE watch_id = "@
            + signed_decimal(watch_id as int)
            + " AND source_pk = "@
            + pk@,
{
    let mut sql = "DELETE FROM graphwright.mention WHERE watch_id = ".to_owned();
    let watch_id_text = signed_decimal_text(watch_id as i64);
    sql.append(watch_id_text.as_str());
    sql.append(" AND source_pk = ");
    sql.append(pk);
    sql
}

/// Drops the entities of a watch that no row mentions any more.
fn drop_orphan_entities(watch_id: i32) -> (sql: String)
    ensures
        sql@ == "DELETE FROM graphwright.entity en WHERE en.watch_id = "@
            + signed_decimal(watch_id as int)
            + " AND NOT EXISTS (SELECT 1 FROM graphwright.mention m WHERE m.entity_id = en.id)"@,
{
    let mut sql = "DELETE FROM graphwright.entity en WHERE en.watch_id = ".to_owned();
    let watch_id_text = signed_decimal_text(watch_id as i64);
    sql.append(watch_id_text.as_str());
    sql.append(" AND NOT EXISTS (SELECT 1 FROM graphwright.mention m WHERE m.entity_id = en.id)");
    sql
}

/// Reads the change queue of a watch, oldest first.
pub fn read_queue(watch_id: i32) -> (sql: String)
    ensures
        sql@ == "SELECT id, source_pk, op FROM graphwright.dirty WHERE watch_id = "@
            + signed_decimal(watch_id as int)
            + " ORDER BY id"@,
{
    let mut sql = "SELECT id, source_pk, op FROM graphwright.dirty WHERE watch_id = ".to_owned();
    let watch_id_text = signed_decimal_text(watch_id as i64);
    sql.append(watch_id_text.as_str());
    sql.append(" ORDER BY id");
    sql
}

/// Clears the queue entries of a watch up to an id.
pub fn clear_processed(watch_id: i32, max_id: i64) -> (sql: String)
    ensures
        sql@ == "DELETE FROM graphwright.dirty WHERE watch_id = "@
            + signed_decimal(watch_id as int)
            + " AND id <= "@
            + signed_decimal(max_id as int),
{
    let mut sql = "DELETE FROM graphwright.dirty WHERE watch_id = ".to_owned();
    let watch_id_text = signed_decimal_text(watch_id as i64);
    sql.append(watch_id_text.as_str());
    sql.append(" AND id <= ");
    let max_id_text = signed_decimal_text(max_id);
    sql.append(max_id_text.as_str());
    sql
}

/// Looks up the oid of a relation (a quoted literal).
pub fn index_oid(index: &str) -> (sql: String)
    ensures
        sql@ == "SELECT "@
            + index@
            + "::regclass::oid"@,
{
    let mut sql = "SELECT ".to_owned();
    sql.append(index);
    sql.append("::regclass::oid");
    sql
}

/// Looks up the table of an index.
pub fn heap_of_index(index_oid: u32) -> (sql: String)
    ensures
        sql@ == "SELECT indrelid::regclass::text FROM pg_index WHERE indexrelid = "@
            + decimal(index_oid as nat)
            + "::oid"@,
{
    let mut sql = "SELECT indrelid::regclass::text FROM pg_index WHERE indexrelid = ".to_owned();
    let index_oid_text = decimal_text(index_oid as u64);
    sql.append(index_oid_text.as_str());
    sql.append("::oid");
    sql
}

/// Looks up the name of a table, given by its oid.
pub fn table_name(table_oid: u32) -> (sql: String)
    ensures
        sql@ == "SELECT "@
            + decimal(table_oid as nat)
            + "::regclass::text"@,
{
    let mut sql = "SELECT ".to_owned();
    let table_oid_text = decimal_text(table_oid as u64);
    sql.append(table_oid_text.as_str());
    sql.append("::regclass::text");
    sql
}

/// Asks whether a row is still in the heap.
pub fn row_alive(heap: &str, block: u32, offset: u16) -> (sql: String)
    ensures
        sql@ == "SELECT EXISTS (SELECT 1 FROM "@
            + heap@
            + " WHERE ctid = '"@
            + ctid_text((block, offset))
            + "'::tid)"@,
{
    let mut sql = "SELECT EXISTS (SELECT 1 FROM ".to_owned();
    sql.append(heap);
    sql.append(" WHERE ctid = '");
    let row = ctid(block, offset);
    sql.append(row.as_str());
    sql.append("'::tid)");
    sql
}

/// Asks whether the catalog schema is there.
pub fn schema_query() -> (sql: String)
    ensures
        sql@ == "SELECT to_regnamespace('graphwright') IS NOT NULL"@,
{
    "SELECT to_regnamespace('graphwright') IS NOT NULL".to_owned()
}

/// Reads every index of this access method, with its table.
pub fn all_indexes() -> (sql: String)
    ensures
        sql@
            == "SELECT i.indexrelid, i.indrelid FROM pg_index i JOIN pg_class c ON c.oid = i.indexrelid JOIN pg_am a ON a.oid = c.relam WHERE a.amname = 'graphwright'"@,
{
    "SELECT i.indexrelid, i.indrelid FROM pg_index i JOIN pg_class c ON c.oid = i.indexrelid JOIN pg_am a ON a.oid = c.relam WHERE a.amname = 'graphwright'".to_owned()
}

/// Reads the watches that have queued changes.
pub fn dirty_watches() -> (sql: String)
    ensures
        sql@ == "SELECT DISTINCT watch_id FROM graphwright.dirty"@,
{
    "SELECT DISTINCT watch_id FROM graphwright.dirty".to_owned()
}

/// The statements that take a row's part out of the graph, in the order in
/// which they run: its edge supports, the edges left without support, its
/// mentions, the entities left without a mention. The row is a quoted literal.
pub fn remove_row(watch_id: i32, pk: &str) -> (statements: Vec<String>)
    ensures
        texts(statements@) == seq![
            "DELETE FROM graphwright.edge_support WHERE source_pk = "@
                + pk@
                + " AND edge_id IN (SELECT id FROM graphwright.edge WHERE watch_id = "@
                + signed_decimal(watch_id as int)
                + ")"@,
            "DELETE FROM graphwright.edge e WHERE e.watch_id = "@
                + signed_decimal(watch_id as int)
                + " AND NOT EXISTS (SELECT 1 FROM graphwright.edge_support s WHERE s.edge_id = e.id)"@,
            "DELETE FROM graphwright.mention WHERE watch_id = "@
                + signed_decimal(watch_id as int)
                + " AND source_pk = "@
                + pk@,
            "DELETE FROM graphwright.entity en WHERE en.watch_id = "@
                + signed_decimal(watch_id as int)
                + " AND NOT EXISTS (SELECT 1 FROM graphwright.mention m WHERE m.entity_id = en.id)"@,
        ],
{
    let mut statements: Vec<String> = Vec::new();
    statements.push(drop_edge_support(pk, watch_id));
    statements.push(drop_unsupported_edges(watch_id));
    statements.push(drop_mentions(watch_id, pk));
    statements.push(drop_orphan_entities(watch_id));
    proof {
        let want = seq![
            statements@[0]@,
            statements@[1]@,
            statements@[2]@,
            statements@[3]@,
        ];
        assert(texts(statements@) =~= want);
    }
    statements
}

/// The condition that a caller can read a row that mentions the entity `alias`.
/// The join to the source table runs as the caller, so row-level security
/// decides which rows count.
pub open spec fn entity_filter(alias: Seq<char>, table: Seq<char>, pk: Seq<char>) -> Seq<char> {
    "EXISTS (SELECT 1 FROM graphwright.mention mn JOIN "@ + table + " s ON (s."@ + pk
        + ")::text = mn.source_pk WHERE mn.entity_id = "@ + alias + ".id)"@
}

fn entity_condition(alias: &str, table: &str, pk: &str) -> (sql: String)
    ensures
        sql@ == entity_filter(alias@, table@, pk@),
{
    let mut sql = "EXISTS (SELECT 1 FROM graphwright.mention mn JOIN ".to_owned();
    sql.append(table);
    sql.append(" s ON (s.");
    sql.append(pk);
    sql.append(")::text = mn.source_pk WHERE mn.entity_id = ");
    sql.append(alias);
    sql.append(".id)");
    sql
}

/// Reads the entities that the caller may see: those that a readable row
/// mentions. The provenance column is a quoted identifier.
pub fn entities(m: &WatchMeta, pk: &str) -> (sql: String)
    ensures
        sql@ == "SELECT e.id, e.surface FROM graphwright.entity e WHERE e.watch_id = "@
            + signed_decimal(m.id as int)
            + " AND "@
            + entity_filter("e"@, m.source_table@, pk@)
            + " ORDER BY e.surface"@,
{
    let mut sql = "SELECT e.id, e.surface FROM graphwright.entity e WHERE e.watch_id = ".to_owned();
    let id = signed_decimal_text(m.id as i64);
    sql.append(id.as_str());
    sql.append(" AND ");
    let condition = entity_condition("e", m.source_table.as_str(), pk);
    sql.append(condition.as_str());
    sql.append(" ORDER BY e.surface");
    sql
}

/// Reads the merge proposals: pairs of different entities that share a phonetic
/// key and that the caller may both see. The provenance column is a quoted
/// identifier.
pub fn proposals(m: &WatchMeta, pk: &str) -> (sql: String)
    ensures
        sql@
            == "SELECT e1.id, e1.surface, e2.id, e2.surface FROM graphwright.entity_phonetic p1 JOIN graphwright.entity_phonetic p2 ON p1.key = p2.key AND p1.entity_id < p2.entity_id JOIN graphwright.entity e1 ON e1.id = p1.entity_id JOIN graphwright.entity e2 ON e2.id = p2.entity_id WHERE e1.watch_id = "@
            + signed_decimal(m.id as int)
            + " AND e2.watch_id = "@
            + signed_decimal(m.id as int)
            + " AND e1.norm <> e2.norm AND "@
            + entity_filter("e1"@, m.source_table@, pk@)
            + " AND "@
            + entity_filter("e2"@, m.source_table@, pk@)
            + " GROUP BY e1.id, e1.surface, e2.id, e2.surface ORDER BY e1.surface, e2.surface"@,
{
    let mut sql = "SELECT e1.id, e1.surface, e2.id, e2.surface FROM graphwright.entity_phonetic p1 JOIN graphwright.entity_phonetic p2 ON p1.key = p2.key AND p1.entity_id < p2.entity_id JOIN graphwright.entity e1 ON e1.id = p1.entity_id JOIN graphwright.entity e2 ON e2.id = p2.entity_id WHERE e1.watch_id = ".to_owned();
    let id = signed_decimal_text(m.id as i64);
    sql.append(id.as_str());
    sql.append(" AND e2.watch_id = ");
    sql.append(id.as_str());
    sql.append(" AND e1.norm <> e2.norm AND ");
    let first = entity_condition("e1", m.source_table.as_str(), pk);
    sql.append(first.as_str());
    sql.append(" AND ");
    let second = entity_condition("e2", m.source_table.as_str(), pk);
    sql.append(second.as_str());
    sql.append(" GROUP BY e1.id, e1.surface, e2.id, e2.surface ORDER BY e1.surface, e2.surface");
    sql
}

/// Reads the mentions that the caller may see: those in readable rows. The
/// provenance column is a quoted identifier.
pub fn mentions(m: &WatchMeta, pk: &str) -> (sql: String)
    ensures
        sql@
            == "SELECT mn.entity_id, e.surface, mn.source_pk, mn.surface_form FROM graphwright.mention mn JOIN graphwright.entity e ON e.id = mn.entity_id JOIN "@
            + m.source_table@
            + " s ON (s."@
            + pk@
            + ")::text = mn.source_pk WHERE mn.watch_id = "@
            + signed_decimal(m.id as int)
            + " ORDER BY e.surface, mn.source_pk, mn.surface_form"@,
{
    let mut sql = "SELECT mn.entity_id, e.surface, mn.source_pk, mn.surface_form FROM graphwright.mention mn JOIN graphwright.entity e ON e.id = mn.entity_id JOIN ".to_owned();
    sql.append(m.source_table.as_str());
    sql.append(" s ON (s.");
    sql.append(pk);
    sql.append(")::text = mn.source_pk WHERE mn.watch_id = ");
    let id = signed_decimal_text(m.id as i64);
    sql.append(id.as_str());
    sql.append(" ORDER BY e.surface, mn.source_pk, mn.surface_form");
    sql
}

/// The condition on the edge `e` under a rule: of the support rows that the
/// query reads, one joins a readable source row, or as many as there are. The
/// catalog's policies filter the query too; `visibility::query_shows_edge` says
/// what they and the condition show together.
pub open spec fn edge_filter(rule: Visibility, table: Seq<char>, pk: Seq<char>) -> Seq<char> {
    match rule {
        Visibility::Union => "EXISTS (SELECT 1 FROM graphwright.edge_support sup JOIN "@ + table
            + " s ON (s."@ + pk + ")::text = sup.source_pk WHERE sup.edge_id = e.id)"@,
        Visibility::Intersection => "(SELECT count(*) FROM graphwright.edge_support sup JOIN "@
            + table + " s ON (s."@ + pk
            + ")::text = sup.source_pk WHERE sup.edge_id = e.id) = (SELECT count(*) FROM graphwright.edge_support sup WHERE sup.edge_id = e.id)"@,
    }
}

fn edge_condition(rule: Visibility, table: &str, pk: &str) -> (sql: String)
    ensures
        sql@ == edge_filter(rule, table@, pk@),
{
    match rule {
        Visibility::Union => {
            let mut sql = "EXISTS (SELECT 1 FROM graphwright.edge_support sup JOIN ".to_owned();
            sql.append(table);
            sql.append(" s ON (s.");
            sql.append(pk);
            sql.append(")::text = sup.source_pk WHERE sup.edge_id = e.id)");
            sql
        },
        Visibility::Intersection => {
            let mut sql = "(SELECT count(*) FROM graphwright.edge_support sup JOIN ".to_owned();
            sql.append(table);
            sql.append(" s ON (s.");
            sql.append(pk);
            sql.append(
                ")::text = sup.source_pk WHERE sup.edge_id = e.id) = (SELECT count(*) FROM graphwright.edge_support sup WHERE sup.edge_id = e.id)",
            );
            sql
        },
    }
}

/// Reads the edges that the caller may see by the watch's rule over the rows
/// that support them. The provenance column is a quoted identifier.
pub fn edges(m: &WatchMeta, pk: &str) -> (sql: String)
    ensures
        sql@
            == "SELECT e.id, es.surface, ed.surface, e.predicate FROM graphwright.edge e JOIN graphwright.entity es ON es.id = e.src JOIN graphwright.entity ed ON ed.id = e.dst WHERE e.watch_id = "@
            + signed_decimal(m.id as int)
            + " AND "@
            + edge_filter(m.visibility, m.source_table@, pk@)
            + " ORDER BY es.surface, ed.surface"@,
{
    let mut sql = "SELECT e.id, es.surface, ed.surface, e.predicate FROM graphwright.edge e JOIN graphwright.entity es ON es.id = e.src JOIN graphwright.entity ed ON ed.id = e.dst WHERE e.watch_id = ".to_owned();
    let id = signed_decimal_text(m.id as i64);
    sql.append(id.as_str());
    sql.append(" AND ");
    let condition = edge_condition(m.visibility, m.source_table.as_str(), pk);
    sql.append(condition.as_str());
    sql.append(" ORDER BY es.surface, ed.surface");
    sql
}

/// The condition on an entity joins its mentions to the source rows by the
/// provenance column, and asks for one.
pub proof fn law_what_the_entity_condition_asks(alias: Seq<char>, table: Seq<char>, pk: Seq<char>)
    ensures
        entity_filter(alias, table, pk)
            == "EXISTS (SELECT 1 FROM graphwright.mention mn JOIN "@ + table + " s ON (s."@ + pk
            + ")::text = mn.source_pk WHERE mn.entity_id = "@ + alias + ".id)"@,
{
}

/// The condition on an edge joins its supports to the source rows by the
/// provenance column, and asks for one under union, and for as many as there
/// are under intersection.
pub proof fn law_what_the_edge_condition_asks(table: Seq<char>, pk: Seq<char>)
    ensures
        edge_filter(Visibility::Union, table, pk)
            == "EXISTS (SELECT 1 FROM graphwright.edge_support sup JOIN "@ + table + " s ON (s."@
            + pk + ")::text = sup.source_pk WHERE sup.edge_id = e.id)"@,
        edge_filter(Visibility::Intersection, table, pk)
            == "(SELECT count(*) FROM graphwright.edge_support sup JOIN "@ + table + " s ON (s."@
            + pk
            + ")::text = sup.source_pk WHERE sup.edge_id = e.id) = (SELECT count(*) FROM graphwright.edge_support sup WHERE sup.edge_id = e.id)"@,
{
}

} // verus!
