use pg_graphwright::text::{
    chars_of, decimal_text, has_text, is_before, is_blank, join_texts, same_text,
    signed_decimal_text, split_runs, strip, text_of, CharClass,
};

fn list(items: &[&str]) -> Vec<String> {
    items.iter().map(|s| s.to_string()).collect()
}

#[test]
fn runs_are_maximal_and_in_order() {
    assert_eq!(split_runs("Sara, in Tehran!", CharClass::Alphanumeric), list(&["Sara", "in", "Tehran"]));
    assert_eq!(split_runs("a-b  c\td", CharClass::NonSpace), list(&["a-b", "c", "d"]));
    assert_eq!(split_runs("x\u{00E9}9 \u{0639}\u{0644}\u{06CC}", CharClass::Alphanumeric),
        list(&["x\u{00E9}9", "\u{0639}\u{0644}\u{06CC}"]));
    assert!(split_runs("", CharClass::NonSpace).is_empty());
    assert!(split_runs("?!", CharClass::Alphanumeric).is_empty());
}

#[test]
fn blank_means_white_space_alone() {
    assert!(is_blank(""));
    assert!(is_blank(" \t\n\u{00A0}"));
    assert!(!is_blank(" x "));
}

#[test]
fn white_space_is_the_unicode_property_and_no_letter_or_digit() {
    for c in '\0'..=char::MAX {
        let space = matches!(
            c,
            '\u{9}'..='\u{D}' | ' ' | '\u{85}' | '\u{A0}' | '\u{1680}' | '\u{2000}'..='\u{200A}'
                | '\u{2028}' | '\u{2029}' | '\u{202F}' | '\u{205F}' | '\u{3000}'
        );
        let text = c.to_string();
        assert_eq!(is_blank(&text), space);
        assert!(!space || split_runs(&text, CharClass::Alphanumeric).is_empty());
    }
}

#[test]
fn names_are_ordered_by_code_point() {
    assert!(is_before("ali", "bob"));
    assert!(!is_before("bob", "ali"));
    assert!(is_before("ali", "alice"));
    assert!(!is_before("alice", "ali"));
    assert!(!is_before("ali", "ali"));
    assert!(is_before("", "a"));
    assert!(is_before("z", "\u{0639}"));
    assert!(is_before("\u{FFFD}", "\u{10000}"));
}

#[test]
fn the_order_of_names_is_that_of_strings() {
    let names = ["", "a", "ab", "b", "\u{00E9}", "\u{0639}\u{0644}", "\u{FFFD}", "\u{1F600}"];
    for a in names {
        for b in names {
            assert_eq!(is_before(a, b), a < b);
            assert_eq!(same_text(a, b), a == b);
        }
    }
}

#[test]
fn membership_and_joining() {
    let v = list(&["a", "b"]);
    assert!(has_text(&v, "b"));
    assert!(!has_text(&v, "c"));
    assert_eq!(join_texts(&v, ", "), "a, b");
    assert_eq!(join_texts(&list(&["a"]), ", "), "a");
    assert_eq!(join_texts(&list(&[]), ", "), "");
}

#[test]
fn stripping_and_cutting() {
    assert_eq!(strip("  public.embed \n"), "public.embed");
    assert_eq!(strip(" a b "), "a b");
    assert_eq!(strip(" \t"), "");
    let chars = chars_of("t\u{00E9}l\u{00E9}");
    assert_eq!(chars, vec!['t', '\u{00E9}', 'l', '\u{00E9}']);
    assert_eq!(text_of(&chars, 1, 3), "\u{00E9}l");
}

#[test]
fn numbers_are_written_in_decimal() {
    assert_eq!(decimal_text(0), "0");
    assert_eq!(decimal_text(10), "10");
    assert_eq!(decimal_text(18446744073709551615), "18446744073709551615");
    assert_eq!(signed_decimal_text(-1), "-1");
    assert_eq!(signed_decimal_text(0), "0");
    assert_eq!(signed_decimal_text(i64::MIN), "-9223372036854775808");
    assert_eq!(signed_decimal_text(i64::MAX), "9223372036854775807");
}
