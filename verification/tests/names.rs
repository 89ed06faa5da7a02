use pg_graphwright::names::{fold_char, is_removable, normalize_name};

#[test]
fn characters_fold_to_their_persian_or_bare_forms() {
    assert_eq!(fold_char('\u{064A}'), '\u{06CC}');
    assert_eq!(fold_char('\u{0643}'), '\u{06A9}');
    assert_eq!(fold_char('\u{0622}'), '\u{0627}');
    assert_eq!(fold_char('\u{0623}'), '\u{0627}');
    assert_eq!(fold_char('\u{0625}'), '\u{0627}');
    assert_eq!(fold_char('\u{0629}'), '\u{0647}');
    assert_eq!(fold_char('\u{0627}'), '\u{0627}');
    assert_eq!(fold_char('A'), 'A');
}

#[test]
fn removable_characters_are_the_marks_and_joiners() {
    for c in ['\u{064B}', '\u{065F}', '\u{0670}', '\u{06D6}', '\u{06ED}'] {
        assert!(is_removable(c));
    }
    for c in ['\u{0640}', '\u{200C}', '\u{200D}'] {
        assert!(is_removable(c));
    }
    for c in ['\u{064A}', '\u{0671}', '\u{06D5}', '\u{06EE}', '\u{063F}', '\u{0641}'] {
        assert!(!is_removable(c));
    }
    for c in ['\u{200B}', '\u{200E}', 'a', ' '] {
        assert!(!is_removable(c));
    }
}

#[test]
fn digits_and_letters_between_the_marks_carry_identity() {
    for c in '\u{0660}'..='\u{066F}' {
        assert!(!is_removable(c));
    }
    assert_eq!(normalize_name("\u{0641}\u{0662}"), "\u{0641}\u{0662}");
    assert_ne!(normalize_name("\u{0641}\u{0662}"), normalize_name("\u{0641}\u{0663}"));
}

#[test]
fn arabic_and_persian_spellings_share_a_key() {
    let persian = "\u{0639}\u{0644}\u{06CC}";
    assert_eq!(normalize_name("\u{0639}\u{0644}\u{064A}"), persian);
    assert_eq!(normalize_name(persian), persian);
    assert_eq!(normalize_name("  \u{0639}\u{0644}\u{06CC}!"), persian);
}

#[test]
fn diacritics_tatweel_and_joiners_do_not_count() {
    let plain = "\u{0639}\u{0644}\u{06CC}";
    assert_eq!(normalize_name("\u{0639}\u{064E}\u{0644}\u{06CC}"), plain);
    assert_eq!(normalize_name("\u{0639}\u{0640}\u{0644}\u{06CC}"), plain);
    assert_eq!(normalize_name("\u{0639}\u{200C}\u{0644}\u{200D}\u{06CC}"), plain);
}

#[test]
fn folding_a_folded_name_changes_nothing() {
    let once = normalize_name("\u{0643}\u{0627}\u{0640}\u{0638}\u{0645}");
    assert_eq!(once, "\u{06A9}\u{0627}\u{0638}\u{0645}");
    assert_eq!(normalize_name(&once), once);
}

#[test]
fn normalization_trims_lowercases_and_collapses() {
    assert_eq!(normalize_name("  \"Sara   AMIRI\", "), "sara amiri");
    assert_eq!(normalize_name("O'Brien-Smith."), "o'brien-smith");
    assert_eq!(normalize_name("Sara\t\u{00A0}\nAmiri"), "sara amiri");
    assert_eq!(normalize_name("\u{00C9}MILE"), "\u{00E9}mile");
}

#[test]
fn a_name_without_letters_or_digits_normalizes_away() {
    assert_eq!(normalize_name(""), "");
    assert_eq!(normalize_name("...!"), "");
    assert_eq!(normalize_name(" \t "), "");
    assert_eq!(normalize_name("\u{064E}\u{0640}"), "");
}

#[test]
fn the_separator_of_private_keys_never_gets_into_a_key() {
    assert_eq!(normalize_name("a\u{1f}b"), "ab");
    assert_eq!(normalize_name("\u{1f}ab\u{1f}"), "ab");
    assert_eq!(normalize_name("a \u{1f} b"), "a b");
    assert_eq!(normalize_name("\u{1f}"), "");
}

#[test]
fn every_white_space_character_collapses_to_one_space() {
    let spaces = "\u{9}\u{A}\u{B}\u{C}\u{D} \u{85}\u{A0}\u{1680}\u{2000}\u{200A}\u{2028}\u{2029}\u{202F}\u{205F}\u{3000}";
    assert_eq!(normalize_name(&format!("a{spaces}b{spaces}")), "a b");
    assert_eq!(normalize_name("a\u{200B}b"), "a\u{200B}b");
}

#[test]
fn a_key_starts_and_ends_with_a_letter_or_a_digit() {
    assert_eq!(normalize_name("(a,  b) & \"c\" 7."), "a, b) & \"c\" 7");
}

#[test]
fn a_key_is_its_own_key() {
    for raw in ["  \"Sara   AMIRI\", ", "\u{0639}\u{0644}\u{064A}!", "\u{0391}\u{03A3} x", "\u{0130}stanbul", "--"] {
        let key = normalize_name(raw);
        assert_eq!(normalize_name(&key), key);
    }
}

#[test]
fn the_key_of_a_single_character_is_its_own_key() {
    for c in '\0'..='\u{FFFF}' {
        let key = normalize_name(&c.to_string());
        assert_eq!(normalize_name(&key), key);
        assert!(!key.contains('\u{1f}'));
    }
}
