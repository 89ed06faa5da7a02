use pg_graphwright::access::{block_halves, block_number, plain_column};
use pg_graphwright::sets::RowSet;
use pg_graphwright::storage::{
    append, append_target, ctid, decode, marker, mentions, prune, rows_to_ask, scan, AppendStep,
    Page, MARKER, MENTIONS, NEW_BLOCK,
};

fn list(items: &[&str]) -> Vec<String> {
    items.iter().map(|s| s.to_string()).collect()
}

#[test]
fn a_marker_is_a_tag_and_a_row() {
    let m = marker(0x04030201, 0x0605);
    assert_eq!(m, vec![0, 1, 2, 3, 4, 5, 6]);
    assert_eq!(decode(&m), (MARKER, 0x04030201, 0x0605, list(&[])));
}

#[test]
fn a_mentions_record_counts_and_lists_its_surfaces() {
    let r = mentions(1, 2, &list(&["ab", "\u{00E9}"]));
    assert_eq!(r, vec![1, 1, 0, 0, 0, 2, 0, 2, 0, 2, 0, b'a', b'b', 2, 0, 0xC3, 0xA9]);
    assert_eq!(decode(&r), (MENTIONS, 1, 2, list(&["ab", "\u{00E9}"])));
}

#[test]
fn mentions_read_back_whatever_the_script() {
    let surfaces = list(&["sara", "\u{062A}\u{0647}\u{0631}\u{0627}\u{0646}", "", "\u{1F600}"]);
    let r = mentions(4294967294, 65535, &surfaces);
    assert_eq!(decode(&r), (MENTIONS, 4294967294, 65535, surfaces));
    let empty = mentions(7, 1, &[]);
    assert_eq!(empty.len(), 9);
    assert_eq!(decode(&empty), (MENTIONS, 7, 1, list(&[])));
}

#[test]
fn a_short_record_reads_as_an_empty_marker() {
    assert_eq!(decode(&[]), (MARKER, 0, 0, list(&[])));
    assert_eq!(decode(&[1, 9, 9, 9, 9, 9]), (MARKER, 0, 0, list(&[])));
}

#[test]
fn a_truncated_list_of_surfaces_ends_early() {
    let whole = mentions(1, 2, &list(&["ab", "cd"]));
    assert_eq!(decode(&whole[..16]).3, list(&["ab"]));
    assert_eq!(decode(&whole[..14]).3, list(&["ab"]));
    assert_eq!(decode(&whole[..12]).3, list(&[]));
    assert_eq!(decode(&whole[..8]), (MENTIONS, 1, 2, list(&[])));
    assert_eq!(decode(&[5, 1, 0, 0, 0, 2, 0, 1, 0, 1, 0, b'x']), (5, 1, 2, list(&[])));
}

#[test]
fn a_surface_that_is_no_utf8_is_read_with_replacements() {
    let data = [1, 1, 0, 0, 0, 2, 0, 1, 0, 3, 0, b'a', 0xFF, b'b'];
    assert_eq!(decode(&data).3, list(&["a\u{FFFD}b"]));
}

#[test]
fn a_count_beyond_sixteen_bits_wraps() {
    let many: Vec<String> = (0..65537).map(|_| "x".to_string()).collect();
    let r = mentions(3, 4, &many);
    assert_eq!(decode(&r), (MENTIONS, 3, 4, list(&["x"])));
    let long = "y".repeat(65538);
    let d = decode(&mentions(3, 4, &[long]));
    assert_eq!((d.0, d.1, d.2), (MENTIONS, 3, 4));
    assert_eq!(d.3, list(&["yy"]));
}

#[test]
fn a_row_is_written_as_its_ctid() {
    assert_eq!(ctid(0, 1), "(0,1)");
    assert_eq!(ctid(4294967295, 65535), "(4294967295,65535)");
}

fn pages() -> Vec<Page> {
    vec![
        Page { slots: vec![Some(marker(0, 1)), None, Some(mentions(0, 2, &list(&["sara"])))] },
        Page { slots: vec![] },
        Page { slots: vec![Some(marker(0, 2))] },
    ]
}

#[test]
fn a_scan_reads_every_live_record_in_order() {
    let out = scan(&pages());
    assert_eq!(out, vec![marker(0, 1), mentions(0, 2, &list(&["sara"])), marker(0, 2)]);
    assert!(scan(&vec![]).is_empty());
}

#[test]
fn pruning_takes_off_exactly_the_dead() {
    let dead = RowSet::of(&vec![(0, 2)]);
    let prune_dead = |p: &mut Page| {
        let answers = rows_to_ask(p).into_iter().map(|r| dead.contains(r)).collect();
        prune(p, &answers)
    };
    let mut all = pages();
    let offsets: Vec<Vec<u16>> = all.iter_mut().map(prune_dead).collect();
    assert_eq!(offsets, vec![vec![3], vec![], vec![1]]);
    assert_eq!(scan(&all), vec![marker(0, 1)]);
    let again: Vec<Vec<u16>> = all.iter_mut().map(prune_dead).collect();
    assert!(again.iter().all(|o| o.is_empty()));
}

#[test]
fn pruning_asks_once_for_each_record_and_goes_by_the_answers() {
    let twice = || Page {
        slots: vec![Some(marker(0, 2)), None, Some(mentions(0, 2, &list(&["sara"]))), Some(marker(0, 1))],
    };
    assert_eq!(rows_to_ask(&twice()), vec![(0, 2), (0, 2), (0, 1)]);
    let mut page = twice();
    assert_eq!(prune(&mut page, &vec![true, false, false]), vec![1]);
    assert_eq!(scan(&vec![page]), vec![mentions(0, 2, &list(&["sara"])), marker(0, 1)]);
    let mut page = twice();
    assert_eq!(prune(&mut page, &vec![false, true, true]), vec![3, 4]);
    assert_eq!(scan(&vec![page]), vec![marker(0, 2)]);
    let mut empty = Page { slots: vec![None] };
    assert!(rows_to_ask(&empty).is_empty());
    assert!(prune(&mut empty, &vec![]).is_empty());
}

#[test]
fn row_sets_tell_rows_apart() {
    let mut s = RowSet::new();
    assert!(!s.contains((0, 0)));
    s.insert((1, 0));
    assert!(s.contains((1, 0)));
    assert!(!s.contains((0, 1)));
    assert!(!s.contains((0, 65535)));
    s.insert((0, 65535));
    assert!(s.contains((0, 65535)));
}

#[test]
fn an_append_goes_to_the_last_page_then_to_a_fresh_one() {
    assert_eq!(append_target(0), NEW_BLOCK);
    assert_eq!(append_target(1), 0);
    assert_eq!(append_target(9), 8);
    assert_eq!(append(8, true), AppendStep::Done);
    assert_eq!(append(8, false), AppendStep::Try(NEW_BLOCK));
    assert_eq!(append(NEW_BLOCK, true), AppendStep::Done);
    assert_eq!(append(NEW_BLOCK, false), AppendStep::TooLarge);
}

#[test]
fn an_appended_record_is_scanned_last() {
    let mut on_last = pages();
    on_last[2].slots.push(Some(marker(9, 9)));
    let mut on_fresh = pages();
    on_fresh.push(Page { slots: vec![Some(marker(9, 9))] });
    let mut want = scan(&pages());
    want.push(marker(9, 9));
    assert_eq!(scan(&on_last), want);
    assert_eq!(scan(&on_fresh), want);
}

#[test]
fn block_numbers_part_and_join() {
    assert_eq!(block_number(1, 2), 65538);
    assert_eq!(block_halves(65538), (1, 2));
    assert_eq!(block_number(65535, 65535), 4294967295);
    assert_eq!(block_halves(4294967295), (65535, 65535));
    assert_eq!(block_halves(0), (0, 0));
}

#[test]
fn an_expression_is_no_plain_column() {
    assert!(!plain_column(0));
    assert!(plain_column(1));
    assert!(plain_column(-1));
}
