//! Name normalization: the exact stage of identity resolution. Spelling
//! variants that carry no identity (Arabic against Persian code points,
//! diacritics, joiners, case, surrounding punctuation, spacing) fold to one
//! key. The key is for matching only, never for display.
use crate::text::{
    alphanumeric, chars_of, in_class, join_texts, joined, lemma_one_run, lemma_runs_apart,
    lemma_runs_ends, lemma_runs_nonempty, letter_or_digit, lowercase, runs, split_runs, text_of, white_space,
    CharClass,
};
use vstd::prelude::*;
use vstd::string::*;

verus! {

/// What a character folds to: Arabic yeh, kaf, teh marbuta and the alef
/// variants become their Persian or bare forms; every other character stays.
pub open spec fn fold(c: char) -> char {
    match c {
        '\u{064A}' => '\u{06CC}',
        '\u{0643}' => '\u{06A9}',
        '\u{0622}' | '\u{0623}' | '\u{0625}' => '\u{0627}',
        '\u{0629}' => '\u{0647}',
        _ => c,
    }
}

/// Folds one character.
pub fn fold_char(c: char) -> (r: char)
    ensures
        r == fold(c),
{
    match c {
        // Arabic yeh to Persian yeh
        '\u{064A}' => '\u{06CC}',
        // Arabic kaf to Persian keheh
        '\u{0643}' => '\u{06A9}',
        // alef variants to bare alef
        '\u{0622}' | '\u{0623}' | '\u{0625}' => '\u{0627}',
        // teh marbuta to heh
        '\u{0629}' => '\u{0647}',
        _ => c,
    }
}

/// The characters that never carry identity: the Arabic combining diacritics
/// U+064B to U+065F and U+0670, the Quranic marks U+06D6 to U+06ED, tatweel,
/// and the two zero-width joiners.
pub open spec fn removable(c: char) -> bool {
    ||| '\u{064B}' <= c <= '\u{065F}'
    ||| c == '\u{0670}'
    ||| '\u{06D6}' <= c <= '\u{06ED}'
    ||| c == '\u{0640}'
    ||| c == '\u{200C}'
    ||| c == '\u{200D}'
}

/// Whether a character is dropped from every name.
pub fn is_removable(c: char) -> (r: bool)
    ensures
        r == removable(c),
{
    ('\u{064B}' <= c && c <= '\u{065F}') || c == '\u{0670}' || ('\u{06D6}' <= c && c
        <= '\u{06ED}') || c == '\u{0640}' || c == '\u{200C}' || c == '\u{200D}'
}

/// `raw` with every character folded and the removable ones dropped.
pub open spec fn folded(raw: Seq<char>) -> Seq<char>
    decreases raw.len(),
{
    if raw.len() == 0 {
        seq![]
    } else {
        let before = folded(raw.drop_last());
        if removable(fold(raw.last())) {
            before
        } else {
            before.push(fold(raw.last()))
        }
    }
}

/// Separator between a canonical name and an override tag in the key of a
/// private entity: the ASCII unit separator. It never appears in a normalized
/// name.
pub const OVERRIDE_SEP: char = '\u{1f}';

/// `s` without the separator of private keys.
pub open spec fn unseparated(s: Seq<char>) -> Seq<char>
    decreases s.len(),
{
    if s.len() == 0 {
        seq![]
    } else {
        let before = unseparated(s.drop_last());
        if s.last() == OVERRIDE_SEP {
            before
        } else {
            before.push(s.last())
        }
    }
}

/// `s` from its first to its last alphanumeric character.
pub open spec fn trimmed(s: Seq<char>) -> Seq<char>
    decreases s.len(),
{
    if s.len() == 0 {
        s
    } else if !alphanumeric(s.first()) {
        trimmed(s.drop_first())
    } else if !alphanumeric(s.last()) {
        trimmed(s.drop_last())
    } else {
        s
    }
}

/// The words of a name: folded, lowercased, rid of the separator of private
/// keys, trimmed to its alphanumeric ends and cut at white space.
pub open spec fn name_words(raw: Seq<char>) -> Seq<Seq<char>> {
    runs(trimmed(unseparated(lowercase(folded(raw)))), CharClass::NonSpace)
}

/// The key that a name is matched by.
pub open spec fn normalized(raw: Seq<char>) -> Seq<char> {
    joined(name_words(raw), seq![' '])
}

fn fold_text(raw: &str) -> (s: String)
    ensures
        s@ == folded(raw@),
{
    let chars = chars_of(raw);
    let mut s = String::new();
    let mut i: usize = 0;
    while i < chars.len()
        invariant
            chars@ == raw@,
            i <= chars.len(),
            s@ == folded(raw@.take(i as int)),
        decreases chars.len() - i,
    {
        assert(raw@.take(i + 1).drop_last() =~= raw@.take(i as int));
        let c = fold_char(chars[i]);
        if !is_removable(c) {
            s.push(c);
        }
        i = i + 1;
    }
    assert(raw@.take(i as int) =~= raw@);
    s
}

fn drop_separator(t: &str) -> (s: String)
    ensures
        s@ == unseparated(t@),
{
    let chars = chars_of(t);
    let mut s = String::new();
    let mut i: usize = 0;
    while i < chars.len()
        invariant
            chars@ == t@,
            i <= chars.len(),
            s@ == unseparated(t@.take(i as int)),
        decreases chars.len() - i,
    {
        assert(t@.take(i + 1).drop_last() =~= t@.take(i as int));
        if chars[i] != OVERRIDE_SEP {
            s.push(chars[i]);
        }
        i = i + 1;
    }
    assert(t@.take(i as int) =~= t@);
    s
}

fn trim_text(t: &str) -> (s: String)
    ensures
        s@ == trimmed(t@),
{
    let chars = chars_of(t);
    let mut lo: usize = 0;
    let mut hi: usize = chars.len();
    assert(t@.subrange(0, hi as int) =~= t@);
    while lo < hi && !chars[lo].is_alphanumeric()
        invariant
            chars@ == t@,
            lo <= hi,
            hi == chars.len(),
            trimmed(t@) == trimmed(t@.subrange(lo as int, hi as int)),
        decreases hi - lo,
    {
        assert(t@.subrange(lo as int, hi as int).drop_first() =~= t@.subrange(lo + 1, hi as int));
        lo = lo + 1;
    }
    while lo < hi && !chars[hi - 1].is_alphanumeric()
        invariant
            chars@ == t@,
            lo <= hi <= chars.len(),
            lo < hi ==> alphanumeric(t@[lo as int]),
            trimmed(t@) == trimmed(t@.subrange(lo as int, hi as int)),
        decreases hi - lo,
    {
        assert(t@.subrange(lo as int, hi as int).drop_last() =~= t@.subrange(lo as int, hi - 1));
        hi = hi - 1;
    }
    text_of(&chars, lo, hi)
}

/// Aggressively normalizes a name for matching (never for display): folds
/// Arabic and Persian code point variants, strips diacritics, tatweel and
/// zero-width joiners, lowercases, trims surrounding punctuation, and
/// collapses white space. The separator of private keys never gets into a key.
pub fn normalize_name(raw: &str) -> (r: String)
    ensures
        r@ == normalized(raw@),
        !r@.contains('\u{1f}'),
{
    let f = fold_text(raw);
    let lower = f.as_str().to_lowercase();
    let plain = drop_separator(lower.as_str());
    let t = trim_text(plain.as_str());
    let words = split_runs(t.as_str(), CharClass::NonSpace);
    proof {
        reveal_strlit(" ");
        assert(" "@ =~= seq![' ']);
        law_keys_hold_no_separator(raw@);
    }
    join_texts(&words, " ")
}

/// Folding and stripping a name once is enough: a second pass changes nothing.
pub proof fn law_folded_once(raw: Seq<char>)
    ensures
        folded(folded(raw)) == folded(raw),
    decreases raw.len(),
{
    if raw.len() > 0 {
        law_folded_once(raw.drop_last());
        let before = folded(raw.drop_last());
        let c = fold(raw.last());
        if !removable(c) {
            assert(folded(raw).drop_last() =~= before);
            assert(folded(raw).last() == c);
        }
    }
}

/// Two spellings that fold to the same characters, such as the Arabic and the
/// Persian spelling of one name, have the same key; so do a name and its
/// folded form.
pub proof fn law_script_variants_share_a_key(a: Seq<char>, b: Seq<char>)
    ensures
        folded(a) == folded(b) ==> normalized(a) == normalized(b),
        normalized(folded(a)) == normalized(a),
{
    law_folded_once(a);
}

/// Every word of a key is a nonempty stretch without white space.
pub proof fn law_words_hold_no_white_space(raw: Seq<char>, i: int, j: int)
    requires
        0 <= i < name_words(raw).len(),
    ensures
        name_words(raw)[i].len() > 0,
        0 <= j < name_words(raw)[i].len() ==> !white_space(name_words(raw)[i][j]),
{
    lemma_runs_nonempty(trimmed(unseparated(lowercase(folded(raw)))), CharClass::NonSpace);
    if 0 <= j < name_words(raw)[i].len() {
        assert(in_class(CharClass::NonSpace, name_words(raw)[i][j]));
    }
}

proof fn lemma_unseparated_within(s: Seq<char>, c: char)
    requires
        unseparated(s).contains(c),
    ensures
        s.contains(c),
        c != OVERRIDE_SEP,
    decreases s.len(),
{
    if s.len() > 0 {
        let before = unseparated(s.drop_last());
        assert(s[s.len() - 1] == s.last());
        let k = choose|k: int| 0 <= k < unseparated(s).len() && unseparated(s)[k] == c;
        if k < before.len() {
            assert(before[k] == c);
            lemma_unseparated_within(s.drop_last(), c);
            let m = choose|m: int| 0 <= m < s.drop_last().len() && s.drop_last()[m] == c;
            assert(s[m] == c);
        }
    }
}

proof fn lemma_trimmed_within(s: Seq<char>, c: char)
    requires
        trimmed(s).contains(c),
    ensures
        s.contains(c),
    decreases s.len(),
{
    if s.len() > 0 {
        if !alphanumeric(s.first()) {
            lemma_trimmed_within(s.drop_first(), c);
            let k = choose|k: int| 0 <= k < s.drop_first().len() && s.drop_first()[k] == c;
            assert(s[k + 1] == c);
        } else if !alphanumeric(s.last()) {
            lemma_trimmed_within(s.drop_last(), c);
            let k = choose|k: int| 0 <= k < s.drop_last().len() && s.drop_last()[k] == c;
            assert(s[k] == c);
        }
    }
}

proof fn lemma_joined_within(words: Seq<Seq<char>>, c: char)
    requires
        joined(words, seq![' ']).contains(c),
        c != ' ',
    ensures
        exists|i: int| 0 <= i < words.len() && (#[trigger] words[i]).contains(c),
    decreases words.len(),
{
    if words.len() == 1 {
        assert(words[0].contains(c));
    } else if words.len() > 1 {
        let head = joined(words.drop_last(), seq![' ']);
        let k = choose|k: int| 0 <= k < joined(words, seq![' ']).len() && joined(words, seq![' '])[k] == c;
        if k < head.len() {
            assert(head[k] == c);
            lemma_joined_within(words.drop_last(), c);
            let i = choose|i: int|
                0 <= i < words.drop_last().len() && (#[trigger] words.drop_last()[i]).contains(c);
            assert(words[i].contains(c));
        } else {
            assert(k > head.len());
            assert(words.last()[k - head.len() - 1] == c);
            assert(words[words.len() - 1].contains(c));
        }
    }
}

/// A key holds no character but the space that the folded and lowercased name
/// did not hold.
pub proof fn law_key_adds_only_spaces(raw: Seq<char>, c: char)
    requires
        normalized(raw).contains(c),
        c != ' ',
    ensures
        lowercase(folded(raw)).contains(c),
        c != OVERRIDE_SEP,
{
    let u = unseparated(lowercase(folded(raw)));
    let t = trimmed(u);
    let words = name_words(raw);
    lemma_joined_within(words, c);
    lemma_runs_nonempty(t, CharClass::NonSpace);
    let i = choose|i: int| 0 <= i < words.len() && (#[trigger] words[i]).contains(c);
    let j = choose|j: int| 0 <= j < words[i].len() && words[i][j] == c;
    assert(t.contains(words[i][j]));
    lemma_trimmed_within(u, c);
    lemma_unseparated_within(lowercase(folded(raw)), c);
}

/// The separator of private keys never appears in a normalized name.
pub proof fn law_keys_hold_no_separator(raw: Seq<char>)
    ensures
        !normalized(raw).contains(OVERRIDE_SEP),
{
    if normalized(raw).contains(OVERRIDE_SEP) {
        law_key_adds_only_spaces(raw, OVERRIDE_SEP);
    }
}

proof fn lemma_trimmed_ends(s: Seq<char>)
    ensures
        trimmed(s).len() > 0 ==> alphanumeric(trimmed(s).first()) && alphanumeric(
            trimmed(s).last(),
        ),
    decreases s.len(),
{
    if s.len() > 0 {
        if !alphanumeric(s.first()) {
            lemma_trimmed_ends(s.drop_first());
        } else if !alphanumeric(s.last()) {
            lemma_trimmed_ends(s.drop_last());
        }
    }
}

/// Whether `words` are nonempty and without white space.
spec fn solid(words: Seq<Seq<char>>) -> bool {
    forall|i: int| #![trigger words[i]]
        0 <= i < words.len() ==> words[i].len() > 0 && forall|j: int|
            0 <= j < words[i].len() ==> !white_space(#[trigger] words[i][j])
}

proof fn lemma_words_are_solid(raw: Seq<char>)
    ensures
        solid(name_words(raw)),
{
    let words = name_words(raw);
    assert forall|i: int| #![trigger words[i]]
        0 <= i < words.len() implies words[i].len() > 0 && forall|j: int|
        0 <= j < words[i].len() ==> !white_space(#[trigger] words[i][j]) by {
        law_words_hold_no_white_space(raw, i, 0);
        assert forall|j: int| 0 <= j < words[i].len() implies !white_space(
            #[trigger] words[i][j],
        ) by {
            law_words_hold_no_white_space(raw, i, j);
        }
    }
}

proof fn lemma_front_is_solid(words: Seq<Seq<char>>)
    requires
        solid(words),
        words.len() > 0,
    ensures
        solid(words.drop_last()),
{
    let front = words.drop_last();
    assert forall|i: int| #![trigger front[i]]
        0 <= i < front.len() implies front[i].len() > 0 && forall|j: int|
        0 <= j < front[i].len() ==> !white_space(#[trigger] front[i][j]) by {
        assert(front[i] == words[i]);
    }
}

/// What joining solid words by spaces gives: its ends are those of the words,
/// and white space stands in it only as single spaces inside.
proof fn lemma_joined_shape(words: Seq<Seq<char>>)
    requires
        solid(words),
    ensures
        ({
            let k = joined(words, seq![' ']);
            &&& k.len() > 0 <==> words.len() > 0
            &&& words.len() > 0 ==> k.first() == words[0][0] && k.last() == words.last().last()
            &&& forall|i: int|
                0 <= i < k.len() && white_space(#[trigger] k[i]) ==> {
                    &&& k[i] == ' '
                    &&& 0 < i < k.len() - 1
                    &&& !white_space(k[i - 1])
                    &&& !white_space(k[i + 1])
                }
        }),
    decreases words.len(),
{
    let k = joined(words, seq![' ']);
    if words.len() == 1 {
        assert(words[0].len() > 0);
        assert(words.last() == words[0]);
    } else if words.len() > 1 {
        let front = words.drop_last();
        let head = joined(front, seq![' ']);
        let w = words[words.len() - 1];
        assert(w.len() > 0);
        lemma_front_is_solid(words);
        lemma_joined_shape(front);
        assert(front[0] == words[0]);
        assert(k =~= head + seq![' '] + w);
        assert(!white_space(head[head.len() - 1]));
        assert(!white_space(w[0]));
        assert forall|i: int| 0 <= i < k.len() && white_space(#[trigger] k[i]) implies {
            &&& k[i] == ' '
            &&& 0 < i < k.len() - 1
            &&& !white_space(k[i - 1])
            &&& !white_space(k[i + 1])
        } by {
            if i < head.len() {
                assert(k[i] == head[i]);
                assert(k[i - 1] == head[i - 1]);
                assert(k[i + 1] == head[i + 1]);
            } else if i == head.len() {
                assert(k[i - 1] == head[i - 1]);
                assert(k[i + 1] == w[0]);
            } else {
                assert(k[i] == w[i - head.len() - 1]);
            }
        }
    }
}

/// The shape of a key: it starts and ends with a letter or a digit, its only
/// white space is the space, and no two spaces stand side by side.
pub proof fn law_the_shape_of_a_key(raw: Seq<char>)
    ensures
        normalized(raw).len() > 0 ==> alphanumeric(normalized(raw).first()) && alphanumeric(
            normalized(raw).last(),
        ),
        forall|i: int|
            0 <= i < normalized(raw).len() && white_space(#[trigger] normalized(raw)[i]) ==> {
                &&& normalized(raw)[i] == ' '
                &&& 0 < i < normalized(raw).len() - 1
                &&& !white_space(normalized(raw)[i - 1])
                &&& !white_space(normalized(raw)[i + 1])
            },
{
    let t = trimmed(unseparated(lowercase(folded(raw))));
    lemma_words_are_solid(raw);
    lemma_joined_shape(name_words(raw));
    lemma_trimmed_ends(unseparated(lowercase(folded(raw))));
    if t.len() > 0 {
        lemma_runs_ends(t, CharClass::NonSpace);
    }
}

proof fn lemma_words_of_joined(words: Seq<Seq<char>>)
    requires
        solid(words),
    ensures
        runs(joined(words, seq![' ']), CharClass::NonSpace) == words,
    decreases words.len(),
{
    let k = joined(words, seq![' ']);
    if words.len() == 0 {
        assert(runs(k, CharClass::NonSpace) =~= words);
    } else {
        let w = words[words.len() - 1];
        assert(w.len() > 0);
        assert forall|j: int| 0 <= j < w.len() implies in_class(
            CharClass::NonSpace,
            #[trigger] w[j],
        ) by {}
        lemma_one_run(w, CharClass::NonSpace);
        if words.len() == 1 {
            assert(words =~= seq![w]);
        } else {
            let front = words.drop_last();
            lemma_front_is_solid(words);
            lemma_words_of_joined(front);
            let head = joined(front, seq![' ']);
            assert(k =~= head.push(' ') + w);
            lemma_runs_apart(head, ' ', w, CharClass::NonSpace);
            assert(front + seq![w] =~= words);
        }
    }
}

proof fn lemma_folded_no_longer(s: Seq<char>)
    ensures
        folded(s).len() <= s.len(),
    decreases s.len(),
{
    if s.len() > 0 {
        lemma_folded_no_longer(s.drop_last());
    }
}

proof fn lemma_folded_characters(s: Seq<char>, i: int)
    requires
        folded(s) == s,
        0 <= i < s.len(),
    ensures
        fold(s[i]) == s[i],
        !removable(s[i]),
    decreases s.len(),
{
    let p = s.drop_last();
    lemma_folded_no_longer(p);
    assert(folded(s).last() == s.last());
    assert(folded(p) =~= p);
    if i < p.len() {
        lemma_folded_characters(p, i);
    }
}

proof fn lemma_nothing_to_fold(s: Seq<char>)
    requires
        forall|i: int| 0 <= i < s.len() ==> fold(#[trigger] s[i]) == s[i] && !removable(s[i]),
    ensures
        folded(s) == s,
    decreases s.len(),
{
    if s.len() > 0 {
        let p = s.drop_last();
        assert forall|i: int| 0 <= i < p.len() implies fold(#[trigger] p[i]) == p[i] && !removable(
            p[i],
        ) by {
            assert(p[i] == s[i]);
        }
        lemma_nothing_to_fold(p);
        assert(fold(s[s.len() - 1]) == s[s.len() - 1]);
    }
    assert(folded(s) =~= s);
}

proof fn lemma_nothing_to_separate(s: Seq<char>)
    requires
        !s.contains(OVERRIDE_SEP),
    ensures
        unseparated(s) == s,
    decreases s.len(),
{
    if s.len() > 0 {
        let p = s.drop_last();
        if p.contains(OVERRIDE_SEP) {
            let k = choose|k: int| 0 <= k < p.len() && p[k] == OVERRIDE_SEP;
            assert(s[k] == OVERRIDE_SEP);
        }
        lemma_nothing_to_separate(p);
        assert(s[s.len() - 1] == s.last());
    }
    assert(unseparated(s) =~= s);
}

/// A key is its own key. Of lowercasing it takes two things: that it leaves
/// the key as it is, and that it brings nothing into a folded name that would
/// still fold.
pub proof fn law_a_key_is_its_own_key(raw: Seq<char>)
    requires
        lowercase(normalized(raw)) == normalized(raw),
        folded(lowercase(folded(raw))) == lowercase(folded(raw)),
    ensures
        normalized(normalized(raw)) == normalized(raw),
{
    let k = normalized(raw);
    let lower = lowercase(folded(raw));
    assert forall|i: int| 0 <= i < k.len() implies fold(#[trigger] k[i]) == k[i] && !removable(
        k[i],
    ) by {
        if k[i] != ' ' {
            assert(k.contains(k[i]));
            law_key_adds_only_spaces(raw, k[i]);
            let m = choose|m: int| 0 <= m < lower.len() && lower[m] == k[i];
            lemma_folded_characters(lower, m);
        }
    }
    lemma_nothing_to_fold(k);
    law_keys_hold_no_separator(raw);
    lemma_nothing_to_separate(k);
    law_the_shape_of_a_key(raw);
    assert(trimmed(k) == k);
    lemma_words_are_solid(raw);
    lemma_words_of_joined(name_words(raw));
}

/// Folding moves six letters, each to its own target, and leaves every other
/// character as it is.
pub proof fn law_folding_moves_six_letters(c: char)
    ensures
        fold('\u{064A}') == '\u{06CC}',
        fold('\u{0643}') == '\u{06A9}',
        fold('\u{0622}') == '\u{0627}',
        fold('\u{0623}') == '\u{0627}',
        fold('\u{0625}') == '\u{0627}',
        fold('\u{0629}') == '\u{0647}',
        c != '\u{064A}' && c != '\u{0643}' && c != '\u{0622}' && c != '\u{0623}' && c != '\u{0625}'
            && c != '\u{0629}' ==> fold(c) == c,
{
}

/// The characters that are dropped are the Arabic combining diacritics, the
/// Quranic marks, tatweel and the two zero-width joiners, and no others.
pub proof fn law_only_marks_and_joiners_are_dropped(c: char)
    ensures
        removable(c) <==> ('\u{064B}' <= c <= '\u{065F}' || c == '\u{0670}' || '\u{06D6}' <= c
            <= '\u{06ED}' || c == '\u{0640}' || c == '\u{200C}' || c == '\u{200D}'),
{
}

/// Folding a name folds each of its characters and keeps those that are not
/// dropped, in order.
pub proof fn law_folding_goes_character_by_character(raw: Seq<char>)
    ensures
        folded(raw) == raw.map_values(|c: char| fold(c)).filter(|c: char| !removable(c)),
    decreases raw.len(),
{
    let f = |c: char| fold(c);
    let keep = |c: char| !removable(c);
    reveal(Seq::filter);
    let m = raw.map_values(f);
    if raw.len() == 0 {
        assert(folded(raw) =~= m.filter(keep));
    } else {
        law_folding_goes_character_by_character(raw.drop_last());
        assert(m.drop_last() =~= raw.drop_last().map_values(f));
        assert(m.last() == fold(raw.last()));
        assert(folded(raw) =~= m.filter(keep));
    }
}

/// Only the separator of private keys is taken out of the lowercased text.
pub proof fn law_only_the_separator_is_taken_out(s: Seq<char>)
    ensures
        unseparated(s) == s.filter(|c: char| c != '\u{1f}'),
    decreases s.len(),
{
    let keep = |c: char| c != '\u{1f}';
    reveal(Seq::filter);
    if s.len() > 0 {
        law_only_the_separator_is_taken_out(s.drop_last());
    }
    assert(unseparated(s) =~= s.filter(keep));
}

/// Trimming takes characters off both ends up to the first and the last letter
/// or digit, and nothing else: it leaves the stretch from `lo` up to `hi`.
pub proof fn law_trimming_stops_at_letters_and_digits(s: Seq<char>) -> (r: (int, int))
    ensures
        0 <= r.0 <= r.1 <= s.len(),
        trimmed(s) == s.subrange(r.0, r.1),
        forall|i: int|
            0 <= i < r.0 || r.1 <= i < s.len() ==> !(letter_or_digit(#[trigger] s[i])
                && !white_space(s[i])),
        r.0 < r.1 ==> letter_or_digit(s[r.0]) && !white_space(s[r.0]) && letter_or_digit(
            s[r.1 - 1],
        ) && !white_space(s[r.1 - 1]),
    decreases s.len(),
{
    if s.len() == 0 {
        assert(s =~= s.subrange(0, 0));
        (0, 0)
    } else if !alphanumeric(s.first()) {
        let t = s.drop_first();
        let (lo, hi) = law_trimming_stops_at_letters_and_digits(t);
        assert(t.subrange(lo, hi) =~= s.subrange(lo + 1, hi + 1));
        assert forall|i: int| 0 <= i < lo + 1 || hi + 1 <= i < s.len() implies !(letter_or_digit(
            #[trigger] s[i],
        ) && !white_space(s[i])) by {
            if i > 0 {
                assert(s[i] == t[i - 1]);
            }
        }
        (lo + 1, hi + 1)
    } else if !alphanumeric(s.last()) {
        let t = s.drop_last();
        let (lo, hi) = law_trimming_stops_at_letters_and_digits(t);
        assert(t.subrange(lo, hi) =~= s.subrange(lo, hi));
        assert forall|i: int| 0 <= i < lo || hi <= i < s.len() implies !(letter_or_digit(
            #[trigger] s[i],
        ) && !white_space(s[i])) by {
            if i < t.len() {
                assert(s[i] == t[i]);
            }
        }
        (lo, hi)
    } else {
        assert(s =~= s.subrange(0, s.len() as int));
        (0, s.len() as int)
    }
}

/// How a key is made: fold each character and drop the marks, lowercase, take
/// the separator out, keep what stands from the first to the last letter or
/// digit, and put one space between its words. Without a letter or a digit the
/// key is empty.
pub proof fn law_how_a_key_is_made(raw: Seq<char>, lo: int, hi: int)
    ensures
        ({
            let s = lowercase(
                raw.map_values(|c: char| fold(c)).filter(|c: char| !removable(c)),
            ).filter(|c: char| c != '\u{1f}');
            &&& (forall|i: int|
                0 <= i < s.len() ==> !(letter_or_digit(#[trigger] s[i]) && !white_space(s[i])))
                ==> normalized(raw) == Seq::<char>::empty()
            &&& 0 <= lo < hi <= s.len() && letter_or_digit(s[lo]) && !white_space(s[lo])
                && letter_or_digit(s[hi - 1]) && !white_space(s[hi - 1]) && (forall|i: int|
                0 <= i < lo || hi <= i < s.len() ==> !(letter_or_digit(#[trigger] s[i])
                    && !white_space(s[i]))) ==> normalized(raw) == joined(
                runs(s.subrange(lo, hi), CharClass::NonSpace),
                seq![' '],
            )
        }),
{
    law_folding_goes_character_by_character(raw);
    law_only_the_separator_is_taken_out(lowercase(folded(raw)));
    let s = unseparated(lowercase(folded(raw)));
    let (a, b) = law_trimming_stops_at_letters_and_digits(s);
    if a == b {
        assert(trimmed(s) =~= Seq::<char>::empty());
    }
}

proof fn lemma_longer_last_word(words: Seq<Seq<char>>, c: char)
    requires
        words.len() > 0,
    ensures
        joined(words.drop_last().push(words.last().push(c)), seq![' ']) == joined(
            words,
            seq![' '],
        ).push(c),
{
    let longer = words.drop_last().push(words.last().push(c));
    assert(longer.drop_last() =~= words.drop_last());
    assert(joined(longer, seq![' ']) =~= joined(words, seq![' ']).push(c));
}

proof fn lemma_words_join_back(s: Seq<char>)
    requires
        forall|i: int|
            0 <= i < s.len() && white_space(#[trigger] s[i]) ==> s[i] == ' ' && 0 < i
                && !white_space(s[i - 1]),
    ensures
        joined(runs(s, CharClass::NonSpace), seq![' ']) == (if s.len() > 0 && white_space(
            s.last(),
        ) {
            s.drop_last()
        } else {
            s
        }),
    decreases s.len(),
{
    let class = CharClass::NonSpace;
    if s.len() == 0 {
        assert(joined(runs(s, class), seq![' ']) =~= s);
    } else {
        let p = s.drop_last();
        let before = runs(p, class);
        assert forall|i: int| 0 <= i < p.len() && white_space(#[trigger] p[i]) implies p[i] == ' '
            && 0 < i && !white_space(p[i - 1]) by {
            assert(p[i] == s[i]);
            if i > 0 {
                assert(p[i - 1] == s[i - 1]);
            }
        }
        lemma_words_join_back(p);
        assert(s[s.len() - 1] == s.last());
        if white_space(s.last()) {
            assert(p.last() == s[s.len() - 2]);
        } else if p.len() == 0 {
            assert(before =~= Seq::<Seq<char>>::empty());
            assert(runs(s, class) =~= seq![seq![s.last()]]);
            assert(seq![s.last()] =~= s);
        } else {
            assert(p.last() == s[s.len() - 2]);
            if !white_space(p.last()) {
                lemma_runs_ends(p, class);
                lemma_longer_last_word(before, s.last());
                assert(p.push(s.last()) =~= s);
            } else {
                let q = p.drop_last();
                assert(p[p.len() - 1] == ' ');
                assert(q.last() == p[p.len() - 2]);
                assert(q.len() > 0);
                lemma_runs_ends(q, class);
                assert(before == runs(q, class));
                let all = before.push(seq![s.last()]);
                assert(all.drop_last() =~= before);
                assert(joined(all, seq![' ']) =~= q + seq![' '] + seq![s.last()]);
                assert(q + seq![' '] + seq![s.last()] =~= s);
            }
        }
    }
}

/// Normalization keeps what carries identity: a name that is free of the six
/// moved letters, of dropped characters and of the separator, that is
/// lowercase, and that starts and ends with a letter or a digit with single
/// spaces between its words is its own key.
pub proof fn law_a_plain_name_is_its_own_key(a: Seq<char>)
    requires
        forall|i: int| #![trigger a[i]]
            0 <= i < a.len() ==> {
                let c = a[i];
                &&& c != '\u{064A}' && c != '\u{0643}' && c != '\u{0622}' && c != '\u{0623}' && c
                    != '\u{0625}' && c != '\u{0629}'
                &&& !('\u{064B}' <= c <= '\u{065F}') && c != '\u{0670}' && !('\u{06D6}' <= c
                    <= '\u{06ED}') && c != '\u{0640}' && c != '\u{200C}' && c != '\u{200D}'
                &&& c != '\u{1f}'
                &&& white_space(c) ==> c == ' ' && 0 < i && !white_space(a[i - 1])
            },
        lowercase(a) == a,
        a.len() > 0 ==> letter_or_digit(a.first()) && !white_space(a.first()) && letter_or_digit(
            a.last(),
        ) && !white_space(a.last()),
    ensures
        normalized(a) == a,
{
    lemma_nothing_to_fold(a);
    lemma_nothing_to_separate(a);
    assert(trimmed(a) == a);
    lemma_words_join_back(a);
}

/// Two such names share a key only where they are equal.
pub proof fn law_plain_names_are_told_apart(a: Seq<char>, b: Seq<char>)
    requires
        forall|s: Seq<char>, i: int| #![trigger s[i]]
            (s == a || s == b) && 0 <= i < s.len() ==> {
                let c = s[i];
                &&& c != '\u{064A}' && c != '\u{0643}' && c != '\u{0622}' && c != '\u{0623}' && c
                    != '\u{0625}' && c != '\u{0629}'
                &&& !('\u{064B}' <= c <= '\u{065F}') && c != '\u{0670}' && !('\u{06D6}' <= c
                    <= '\u{06ED}') && c != '\u{0640}' && c != '\u{200C}' && c != '\u{200D}'
                &&& c != '\u{1f}'
                &&& white_space(c) ==> c == ' ' && 0 < i && !white_space(s[i - 1])
            },
        lowercase(a) == a,
        lowercase(b) == b,
        a.len() > 0 ==> letter_or_digit(a.first()) && !white_space(a.first()) && letter_or_digit(
            a.last(),
        ) && !white_space(a.last()),
        b.len() > 0 ==> letter_or_digit(b.first()) && !white_space(b.first()) && letter_or_digit(
            b.last(),
        ) && !white_space(b.last()),
    ensures
        normalized(a) == normalized(b) <==> a == b,
{
    law_a_plain_name_is_its_own_key(a);
    law_a_plain_name_is_its_own_key(b);
}

} // verus!
