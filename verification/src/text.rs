//! Characters and strings: the character classes the library asks std about,
//! the runs of a class within a text, the code-point order of names, and
//! decimal numbers.
use vstd::prelude::*;
use vstd::std_specs::iter::IteratorSpec;
use vstd::string::*;

verus! {

/// What `char::is_alphanumeric` says of `c`.
pub uninterp spec fn letter_or_digit(c: char) -> bool;

/// The text that `str::to_lowercase` makes of `s`.
pub uninterp spec fn lowercase(s: Seq<char>) -> Seq<char>;

/// The code points with the Unicode property White_Space.
pub open spec fn white_space(c: char) -> bool {
    ||| '\u{0009}' <= c <= '\u{000D}'
    ||| c == ' '
    ||| c == '\u{0085}'
    ||| c == '\u{00A0}'
    ||| c == '\u{1680}'
    ||| '\u{2000}' <= c <= '\u{200A}'
    ||| c == '\u{2028}'
    ||| c == '\u{2029}'
    ||| c == '\u{202F}'
    ||| c == '\u{205F}'
    ||| c == '\u{3000}'
}

/// Whether `c` is a letter or a digit of any script. None of them is white
/// space.
pub open spec fn alphanumeric(c: char) -> bool {
    letter_or_digit(c) && !white_space(c)
}

/// `char::is_alphanumeric`: the answer depends on the character alone and is
/// called `letter_or_digit`. It accepts no white space, whose code points are
/// separators and controls, while it asks for the property Alphabetic or a
/// general category of numbers. Which other code points it accepts is left
/// unsaid.
pub assume_specification[ char::is_alphanumeric ](c: char) -> (r: bool)
    ensures
        r == letter_or_digit(c),
        white_space(c) ==> !r,
;

/// `char::is_whitespace`: exactly the code points with the property
/// White_Space.
pub assume_specification[ char::is_whitespace ](c: char) -> (r: bool)
    ensures
        r == white_space(c),
;

/// `str::to_lowercase`: the result depends on the text alone and is called
/// `lowercase`. The Unicode case mapping behind it is left unsaid, and so is
/// what lowercasing does to a text that is lowercase already.
pub assume_specification[ str::to_lowercase ](s: &str) -> (r: String)
    ensures
        r@ == lowercase(s@),
;

/// `String::push`: the character is appended at the end.
pub assume_specification[ String::push ](s: &mut String, c: char)
    ensures
        final(s)@ == old(s)@.push(c),
;

/// The contents of a list of strings.
pub open spec fn texts(v: Seq<String>) -> Seq<Seq<char>> {
    v.map_values(|s: String| s@)
}

/// The characters of `s`.
pub fn chars_of(s: &str) -> (v: Vec<char>)
    ensures
        v@ == s@,
{
    let mut v: Vec<char> = Vec::new();
    for c in it: s.chars()
        invariant
            v@ == s@.take(it.index() as int),
            it.seq() == s@,
    {
        v.push(c);
        assert(s@.take(it.index() + 1) =~= s@.take(it.index() as int).push(c));
    }
    assert(s@.take(s@.len() as int) =~= s@);
    v
}

/// The two classes of characters that texts are cut into runs of.
#[derive(Clone, Copy, PartialEq, Eq, Structural, Debug)]
pub enum CharClass {
    /// Letters and digits of any script.
    Alphanumeric,
    /// Everything but white space.
    NonSpace,
}

/// Whether `c` belongs to `class`.
pub open spec fn in_class(class: CharClass, c: char) -> bool {
    match class {
        CharClass::Alphanumeric => alphanumeric(c),
        CharClass::NonSpace => !white_space(c),
    }
}

/// The maximal runs of characters of `class` in `s`, in order.
pub open spec fn runs(s: Seq<char>, class: CharClass) -> Seq<Seq<char>>
    decreases s.len(),
{
    if s.len() == 0 {
        seq![]
    } else {
        let before = runs(s.drop_last(), class);
        if !in_class(class, s.last()) {
            before
        } else if s.len() >= 2 && in_class(class, s[s.len() - 2]) {
            before.drop_last().push(before.last().push(s.last()))
        } else {
            before.push(seq![s.last()])
        }
    }
}

/// A character outside the class between two texts keeps their runs apart.
pub proof fn lemma_runs_apart(a: Seq<char>, c: char, b: Seq<char>, class: CharClass)
    requires
        !in_class(class, c),
    ensures
        runs(a.push(c) + b, class) == runs(a, class) + runs(b, class),
    decreases b.len(),
{
    let s = a.push(c) + b;
    if b.len() == 0 {
        assert(s =~= a.push(c));
        assert(s.drop_last() =~= a);
        assert(runs(s, class) =~= runs(a, class) + runs(b, class));
    } else {
        let p = b.drop_last();
        lemma_runs_apart(a, c, p, class);
        assert(s.drop_last() =~= a.push(c) + p);
        assert(s.last() == b.last());
        if b.len() >= 2 {
            assert(s[s.len() - 2] == b[b.len() - 2]);
            assert(p.last() == b[b.len() - 2]);
            lemma_runs_nonempty(p, class);
        } else {
            assert(s[s.len() - 2] == c);
        }
        assert(runs(s, class) =~= runs(a, class) + runs(b, class));
    }
}

/// The runs of a text are nonempty stretches of the class, made of characters
/// of the text; a text that ends in the class has one.
pub proof fn lemma_runs_nonempty(s: Seq<char>, class: CharClass)
    ensures
        s.len() > 0 && in_class(class, s.last()) ==> runs(s, class).len() > 0,
        forall|i: int|
            0 <= i < runs(s, class).len() ==> {
                &&& (#[trigger] runs(s, class)[i]).len() > 0
                &&& forall|j: int|
                    0 <= j < runs(s, class)[i].len() ==> {
                        &&& in_class(class, #[trigger] runs(s, class)[i][j])
                        &&& s.contains(runs(s, class)[i][j])
                    }
            },
    decreases s.len(),
{
    if s.len() > 0 {
        let p = s.drop_last();
        lemma_runs_nonempty(p, class);
        assert(s[s.len() - 1] == s.last());
        assert forall|c: char| p.contains(c) implies s.contains(c) by {
            let k = choose|k: int| 0 <= k < p.len() && p[k] == c;
            assert(s[k] == c);
        }
        if s.len() >= 2 {
            assert(p.last() == s[s.len() - 2]);
        }
        let before = runs(p, class);
        assert forall|i: int| 0 <= i < runs(s, class).len() implies {
            &&& (#[trigger] runs(s, class)[i]).len() > 0
            &&& forall|j: int|
                0 <= j < runs(s, class)[i].len() ==> {
                    &&& in_class(class, #[trigger] runs(s, class)[i][j])
                    &&& s.contains(runs(s, class)[i][j])
                }
        } by {
            if i < before.len() {
                assert(before[i].len() > 0);
                assert(forall|j: int|
                    0 <= j < before[i].len() ==> in_class(class, #[trigger] before[i][j])
                        && p.contains(before[i][j]));
            }
        }
    }
}

/// A nonempty text of the class is its own only run.
pub proof fn lemma_one_run(s: Seq<char>, class: CharClass)
    requires
        s.len() > 0,
        forall|i: int| 0 <= i < s.len() ==> in_class(class, #[trigger] s[i]),
    ensures
        runs(s, class) == seq![s],
    decreases s.len(),
{
    let p = s.drop_last();
    assert(in_class(class, s[s.len() - 1]));
    if s.len() == 1 {
        assert(runs(p, class) =~= Seq::<Seq<char>>::empty());
        assert(seq![s.last()] =~= s);
        assert(runs(s, class) =~= seq![s]);
    } else {
        assert forall|i: int| 0 <= i < p.len() implies in_class(class, #[trigger] p[i]) by {
            assert(p[i] == s[i]);
        }
        lemma_one_run(p, class);
        assert(in_class(class, s[s.len() - 2]));
        assert(p.push(s.last()) =~= s);
        assert(runs(s, class) =~= seq![s]);
    }
}

/// A text that starts or ends in the class starts its first run or ends its
/// last one.
pub proof fn lemma_runs_ends(s: Seq<char>, class: CharClass)
    requires
        s.len() > 0,
    ensures
        in_class(class, s.first()) ==> runs(s, class).len() > 0 && runs(s, class)[0].len() > 0
            && runs(s, class)[0][0] == s.first(),
        in_class(class, s.last()) ==> runs(s, class).len() > 0 && runs(s, class).last().len() > 0
            && runs(s, class).last().last() == s.last(),
    decreases s.len(),
{
    let p = s.drop_last();
    if s.len() >= 2 {
        lemma_runs_ends(p, class);
        assert(p.first() == s.first());
        assert(p.last() == s[s.len() - 2]);
    } else {
        assert(runs(p, class) =~= Seq::<Seq<char>>::empty());
        assert(s.first() == s.last());
    }
}

fn belongs(class: CharClass, c: char) -> (r: bool)
    ensures
        r == in_class(class, c),
{
    match class {
        CharClass::Alphanumeric => c.is_alphanumeric(),
        CharClass::NonSpace => !c.is_whitespace(),
    }
}

/// Cuts `s` into its maximal runs of `class`.
pub fn split_runs(s: &str, class: CharClass) -> (out: Vec<String>)
    ensures
        texts(out@) == runs(s@, class),
{
    let chars = chars_of(s);
    let mut out: Vec<String> = Vec::new();
    let mut cur: String = String::new();
    let mut inside: bool = false;
    let mut i: usize = 0;
    while i < chars.len()
        invariant
            chars@ == s@,
            i <= chars.len(),
            inside == (i > 0 && in_class(class, s@[i - 1])),
            inside ==> texts(out@).push(cur@) == runs(s@.take(i as int), class),
            !inside ==> texts(out@) == runs(s@.take(i as int), class) && cur@.len() == 0,
        decreases chars.len() - i,
    {
        let ghost before = out@;
        let c = chars[i];
        proof {
            assert(s@.take(i + 1).drop_last() =~= s@.take(i as int));
            assert(s@.take(i + 1).last() == c);
            if i > 0 {
                assert(s@.take(i + 1)[i - 1] == s@[i - 1]);
            }
        }
        if belongs(class, c) {
            cur.push(c);
            proof {
                let r = runs(s@.take(i as int), class);
                if inside {
                    assert(r.drop_last() =~= texts(out@));
                } else {
                    assert(cur@ =~= seq![c]);
                }
            }
            inside = true;
        } else {
            if inside {
                out.push(cur);
                cur = String::new();
                assert(texts(out@) =~= texts(before).push(out@.last()@));
            }
            inside = false;
        }
        i = i + 1;
    }
    assert(s@.take(i as int) =~= s@);
    if inside {
        let ghost before = out@;
        out.push(cur);
        assert(texts(out@) =~= texts(before).push(out@.last()@));
    }
    out
}

/// Whether every character of `s` is white space.
pub open spec fn blank(s: Seq<char>) -> bool {
    forall|i: int| 0 <= i < s.len() ==> white_space(#[trigger] s[i])
}

/// Whether `s` holds white space alone.
pub fn is_blank(s: &str) -> (r: bool)
    ensures
        r == blank(s@),
{
    let chars = chars_of(s);
    let mut i: usize = 0;
    while i < chars.len()
        invariant
            chars@ == s@,
            i <= chars.len(),
            forall|j: int| 0 <= j < i ==> white_space(#[trigger] s@[j]),
        decreases chars.len() - i,
    {
        if !chars[i].is_whitespace() {
            return false;
        }
        i = i + 1;
    }
    true
}

/// The order of names: the first differing character decides by code point,
/// and a proper prefix comes first.
pub open spec fn precedes(a: Seq<char>, b: Seq<char>) -> bool
    decreases a.len(),
{
    if b.len() == 0 {
        false
    } else if a.len() == 0 {
        true
    } else if a[0] != b[0] {
        a[0] < b[0]
    } else {
        precedes(a.drop_first(), b.drop_first())
    }
}

/// Whether `a` comes before `b` in the order of names.
pub fn is_before(a: &str, b: &str) -> (r: bool)
    ensures
        r == precedes(a@, b@),
{
    let mut x = a.chars();
    let mut y = b.chars();
    loop
        invariant
            x.decrease() is Some,
            x.obeys_prophetic_iter_laws(),
            y.obeys_prophetic_iter_laws(),
            precedes(a@, b@) == precedes(x.remaining(), y.remaining()),
        decreases x.decrease()->0,
    {
        match (x.next(), y.next()) {
            (_, None) => {
                return false;
            },
            (None, Some(_)) => {
                return true;
            },
            (Some(c), Some(d)) => {
                if c != d {
                    return c < d;
                }
            },
        }
    }
}

/// Whether two texts are the same.
pub fn same_text(a: &str, b: &str) -> (r: bool)
    ensures
        r == (a@ == b@),
{
    let mut x = a.chars();
    let mut y = b.chars();
    loop
        invariant
            x.decrease() is Some,
            x.obeys_prophetic_iter_laws(),
            y.obeys_prophetic_iter_laws(),
            (a@ == b@) == (x.remaining() == y.remaining()),
        decreases x.decrease()->0,
    {
        let ghost rx = x.remaining();
        let ghost ry = y.remaining();
        match (x.next(), y.next()) {
            (None, None) => {
                assert(rx =~= ry);
                return true;
            },
            (Some(c), Some(d)) => {
                if c != d {
                    return false;
                }
                proof {
                    assert(rx =~= seq![c] + rx.drop_first());
                    assert(ry =~= seq![d] + ry.drop_first());
                }
            },
            _ => {
                return false;
            },
        }
    }
}

/// Whether `name` is among `list`.
pub fn has_text(list: &Vec<String>, name: &str) -> (r: bool)
    ensures
        r == texts(list@).contains(name@),
{
    let mut i: usize = 0;
    while i < list.len()
        invariant
            i <= list.len(),
            forall|j: int| 0 <= j < i ==> texts(list@)[j] != name@,
        decreases list.len() - i,
    {
        if same_text(list[i].as_str(), name) {
            assert(texts(list@)[i as int] == name@);
            return true;
        }
        i = i + 1;
    }
    false
}

/// The order of names is irreflexive.
pub proof fn lemma_precedes_irreflexive(a: Seq<char>)
    ensures
        !precedes(a, a),
    decreases a.len(),
{
    if a.len() > 0 {
        lemma_precedes_irreflexive(a.drop_first());
    }
}

/// The order of names is transitive.
pub proof fn lemma_precedes_transitive(a: Seq<char>, b: Seq<char>, c: Seq<char>)
    requires
        precedes(a, b),
        precedes(b, c),
    ensures
        precedes(a, c),
    decreases a.len(),
{
    if a.len() > 0 && a[0] == b[0] && b[0] == c[0] {
        lemma_precedes_transitive(a.drop_first(), b.drop_first(), c.drop_first());
    }
}

/// Of two different names one comes before the other.
pub proof fn lemma_precedes_total(a: Seq<char>, b: Seq<char>)
    ensures
        a == b || precedes(a, b) || precedes(b, a),
    decreases a.len(),
{
    if a.len() > 0 && b.len() > 0 && a[0] == b[0] {
        lemma_precedes_total(a.drop_first(), b.drop_first());
        if a.drop_first() == b.drop_first() {
            assert(a =~= seq![a[0]] + a.drop_first());
            assert(b =~= seq![b[0]] + b.drop_first());
        }
    } else if a.len() == 0 && b.len() == 0 {
        assert(a =~= b);
    }
}

/// The parts with `sep` between neighbours.
pub open spec fn joined(parts: Seq<Seq<char>>, sep: Seq<char>) -> Seq<char>
    decreases parts.len(),
{
    if parts.len() == 0 {
        seq![]
    } else if parts.len() == 1 {
        parts[0]
    } else {
        joined(parts.drop_last(), sep) + sep + parts.last()
    }
}

/// Joins the parts with `sep` between neighbours.
pub fn join_texts(parts: &Vec<String>, sep: &str) -> (s: String)
    ensures
        s@ == joined(texts(parts@), sep@),
{
    let mut s = String::new();
    let mut i: usize = 0;
    while i < parts.len()
        invariant
            i <= parts.len(),
            s@ == joined(texts(parts@).take(i as int), sep@),
        decreases parts.len() - i,
    {
        proof {
            assert(texts(parts@).take(i + 1).drop_last() =~= texts(parts@).take(i as int));
            assert(texts(parts@).take(i + 1).last() == parts@[i as int]@);
        }
        if i > 0 {
            s.append(sep);
        }
        s.append(parts[i].as_str());
        proof {
            if i == 0 {
                assert(s@ =~= parts@[0]@);
            }
        }
        i = i + 1;
    }
    assert(texts(parts@).take(i as int) =~= texts(parts@));
    s
}

/// `s` without its leading and trailing white space.
pub open spec fn stripped(s: Seq<char>) -> Seq<char>
    decreases s.len(),
{
    if s.len() == 0 {
        s
    } else if white_space(s.first()) {
        stripped(s.drop_first())
    } else if white_space(s.last()) {
        stripped(s.drop_last())
    } else {
        s
    }
}

/// Drops leading and trailing white space.
pub fn strip(t: &str) -> (s: String)
    ensures
        s@ == stripped(t@),
{
    let chars = chars_of(t);
    let mut lo: usize = 0;
    let mut hi: usize = chars.len();
    assert(t@.subrange(0, hi as int) =~= t@);
    while lo < hi && chars[lo].is_whitespace()
        invariant
            chars@ == t@,
            lo <= hi,
            hi == chars.len(),
            stripped(t@) == stripped(t@.subrange(lo as int, hi as int)),
        decreases hi - lo,
    {
        assert(t@.subrange(lo as int, hi as int).drop_first() =~= t@.subrange(lo + 1, hi as int));
        lo = lo + 1;
    }
    while lo < hi && chars[hi - 1].is_whitespace()
        invariant
            chars@ == t@,
            lo <= hi <= chars.len(),
            lo < hi ==> !white_space(t@[lo as int]),
            stripped(t@) == stripped(t@.subrange(lo as int, hi as int)),
        decreases hi - lo,
    {
        assert(t@.subrange(lo as int, hi as int).drop_last() =~= t@.subrange(lo as int, hi - 1));
        hi = hi - 1;
    }
    text_of(&chars, lo, hi)
}

/// The text of the characters from `lo` up to `hi`.
pub fn text_of(chars: &Vec<char>, lo: usize, hi: usize) -> (s: String)
    requires
        lo <= hi <= chars.len(),
    ensures
        s@ == chars@.subrange(lo as int, hi as int),
{
    let mut s = String::new();
    let mut i: usize = lo;
    while i < hi
        invariant
            lo <= i <= hi <= chars.len(),
            s@ == chars@.subrange(lo as int, i as int),
        decreases hi - i,
    {
        assert(chars@.subrange(lo as int, i + 1) =~= chars@.subrange(lo as int, i as int).push(
            chars@[i as int],
        ));
        s.push(chars[i]);
        i = i + 1;
    }
    s
}

/// The decimal digits of `n`.
pub open spec fn decimal(n: nat) -> Seq<char>
    decreases n,
{
    if n < 10 {
        seq![(48 + n) as char]
    } else {
        decimal(n / 10).push((48 + n % 10) as char)
    }
}

/// The decimal text of `n`, with a minus sign in front of a negative number.
pub open spec fn signed_decimal(n: int) -> Seq<char> {
    if n < 0 {
        seq!['-'] + decimal((-n) as nat)
    } else {
        decimal(n as nat)
    }
}

/// Writes `n` in decimal.
pub fn decimal_text(n: u64) -> (s: String)
    ensures
        s@ == decimal(n as nat),
    decreases n,
{
    let digit: u8 = 48u8 + (n % 10) as u8;
    let mut s = if n < 10 {
        String::new()
    } else {
        decimal_text(n / 10)
    };
    s.push(digit as char);
    proof {
        if n < 10 {
            assert(s@ =~= decimal(n as nat));
        }
    }
    s
}

/// Writes `n` in decimal, with a minus sign in front of a negative number.
pub fn signed_decimal_text(n: i64) -> (s: String)
    ensures
        s@ == signed_decimal(n as int),
{
    if n < 0 {
        let m: u64 = (-(n + 1)) as u64 + 1;
        let mut s = String::new();
        s.push('-');
        let d = decimal_text(m);
        s.append(d.as_str());
        assert(s@ =~= signed_decimal(n as int));
        s
    } else {
        decimal_text(n as u64)
    }
}

/// A list of texts holds each string's text at its place.
pub proof fn law_texts_are_the_strings(v: Seq<String>)
    ensures
        texts(v).len() == v.len(),
        forall|i: int| 0 <= i < v.len() ==> #[trigger] texts(v)[i] == v[i]@,
{
}

/// A character is alphanumeric exactly when std accepts it and it is no white
/// space, whatever its script; the other class leaves out white space alone.
pub proof fn law_classes_follow_std(c: char)
    ensures
        in_class(CharClass::Alphanumeric, c) <==> letter_or_digit(c) && !white_space(c),
        in_class(CharClass::NonSpace, c) <==> !white_space(c),
        alphanumeric(c) <==> letter_or_digit(c) && !white_space(c),
{
}

/// A text is cut into runs at every character outside the class: what stands
/// before it and after it is cut for itself.
pub proof fn law_runs_are_cut_at_other_characters(a: Seq<char>, c: char, b: Seq<char>)
    ensures
        !(letter_or_digit(c) && !white_space(c)) ==> runs(
            a + seq![c] + b,
            CharClass::Alphanumeric,
        ) == runs(a, CharClass::Alphanumeric) + runs(b, CharClass::Alphanumeric),
        white_space(c) ==> runs(a + seq![c] + b, CharClass::NonSpace) == runs(
            a,
            CharClass::NonSpace,
        ) + runs(b, CharClass::NonSpace),
{
    assert(a + seq![c] + b =~= a.push(c) + b);
    if !(letter_or_digit(c) && !white_space(c)) {
        lemma_runs_apart(a, c, b, CharClass::Alphanumeric);
    }
    if white_space(c) {
        lemma_runs_apart(a, c, b, CharClass::NonSpace);
    }
}

/// A text is cut nowhere else: one that lies wholly in the class is one run,
/// whatever the scripts of its characters, and the empty text has none.
pub proof fn law_runs_are_cut_nowhere_else(s: Seq<char>)
    ensures
        runs(Seq::empty(), CharClass::Alphanumeric) == Seq::<Seq<char>>::empty(),
        runs(Seq::empty(), CharClass::NonSpace) == Seq::<Seq<char>>::empty(),
        s.len() > 0 && (forall|i: int|
            0 <= i < s.len() ==> letter_or_digit(#[trigger] s[i]) && !white_space(s[i]))
            ==> runs(s, CharClass::Alphanumeric) == seq![s],
        s.len() > 0 && (forall|i: int| 0 <= i < s.len() ==> !white_space(#[trigger] s[i]))
            ==> runs(s, CharClass::NonSpace) == seq![s],
{
    if s.len() > 0 && (forall|i: int|
        0 <= i < s.len() ==> letter_or_digit(#[trigger] s[i]) && !white_space(s[i])) {
        lemma_one_run(s, CharClass::Alphanumeric);
    }
    if s.len() > 0 && (forall|i: int| 0 <= i < s.len() ==> !white_space(#[trigger] s[i])) {
        lemma_one_run(s, CharClass::NonSpace);
    }
}

/// Every character of the class lies in a run.
pub proof fn law_every_letter_lies_in_a_run(s: Seq<char>, i: int)
    requires
        0 <= i < s.len(),
    ensures
        letter_or_digit(s[i]) && !white_space(s[i]) ==> exists|k: int|
            0 <= k < runs(s, CharClass::Alphanumeric).len() && (#[trigger] runs(
                s,
                CharClass::Alphanumeric,
            )[k]).contains(s[i]),
        !white_space(s[i]) ==> exists|k: int|
            0 <= k < runs(s, CharClass::NonSpace).len() && (#[trigger] runs(
                s,
                CharClass::NonSpace,
            )[k]).contains(s[i]),
{
    if letter_or_digit(s[i]) && !white_space(s[i]) {
        lemma_in_a_run(s, i, CharClass::Alphanumeric);
    }
    if !white_space(s[i]) {
        lemma_in_a_run(s, i, CharClass::NonSpace);
    }
}

proof fn lemma_in_a_run(s: Seq<char>, i: int, class: CharClass)
    requires
        0 <= i < s.len(),
        in_class(class, s[i]),
    ensures
        exists|k: int|
            0 <= k < runs(s, class).len() && (#[trigger] runs(s, class)[k]).contains(s[i]),
    decreases s.len(),
{
    let p = s.drop_last();
    let before = runs(p, class);
    let all = runs(s, class);
    if i < p.len() {
        assert(p[i] == s[i]);
        lemma_in_a_run(p, i, class);
        let k = choose|k: int| 0 <= k < before.len() && (#[trigger] before[k]).contains(p[i]);
        let j = choose|j: int| 0 <= j < before[k].len() && before[k][j] == p[i];
        assert(all[k][j] == s[i]);
        assert(all[k].contains(s[i]));
    } else {
        lemma_runs_ends(s, class);
        let w = all[all.len() - 1];
        assert(w[w.len() - 1] == s[i]);
        assert(w.contains(s[i]));
    }
}

/// The order of names is the lexicographic one: after the longest common start
/// the smaller code point comes first, or the text that ends there.
pub proof fn law_the_order_is_lexicographic(a: Seq<char>, b: Seq<char>)
    ensures
        precedes(a, b) <==> exists|k: int|
            0 <= k <= a.len() && k < b.len() && #[trigger] a.take(k) == b.take(k) && (k == a.len()
                || a[k] < b[k]),
    decreases a.len(),
{
    if b.len() > 0 && a.len() > 0 && a[0] == b[0] {
        let x = a.drop_first();
        let y = b.drop_first();
        law_the_order_is_lexicographic(x, y);
        if precedes(a, b) {
            let k = choose|k: int|
                0 <= k <= x.len() && k < y.len() && #[trigger] x.take(k) == y.take(k) && (k
                    == x.len() || x[k] < y[k]);
            let m = k + 1;
            assert forall|i: int| 0 <= i < m implies #[trigger] a.take(m)[i] == b.take(m)[i] by {
                if i > 0 {
                    assert(x.take(k)[i - 1] == y.take(k)[i - 1]);
                }
            }
            assert(a.take(m) =~= b.take(m));
        }
        if exists|k: int|
            0 <= k <= a.len() && k < b.len() && #[trigger] a.take(k) == b.take(k) && (k == a.len()
                || a[k] < b[k]) {
            let k = choose|k: int|
                0 <= k <= a.len() && k < b.len() && #[trigger] a.take(k) == b.take(k) && (k
                    == a.len() || a[k] < b[k]);
            assert(k > 0);
            let m = k - 1;
            assert forall|i: int| 0 <= i < m implies #[trigger] x.take(m)[i] == y.take(m)[i] by {
                assert(a.take(k)[i + 1] == b.take(k)[i + 1]);
            }
            assert(x.take(m) =~= y.take(m));
        }
    } else if b.len() > 0 {
        assert(a.take(0) =~= b.take(0));
        if exists|k: int|
            0 <= k <= a.len() && k < b.len() && #[trigger] a.take(k) == b.take(k) && (k == a.len()
                || a[k] < b[k]) {
            let k = choose|k: int|
                0 <= k <= a.len() && k < b.len() && #[trigger] a.take(k) == b.take(k) && (k
                    == a.len() || a[k] < b[k]);
            if k > 0 {
                assert(a.take(k)[0] == b.take(k)[0]);
            }
        }
    }
}

/// Joining puts one separator between neighbours: nothing joins to nothing, one
/// part to itself, and two lists to their joins with a separator between.
pub proof fn law_joining_puts_separators_between(
    a: Seq<Seq<char>>,
    b: Seq<Seq<char>>,
    x: Seq<char>,
    sep: Seq<char>,
)
    ensures
        joined(Seq::empty(), sep) == Seq::<char>::empty(),
        joined(seq![x], sep) == x,
        a.len() > 0 && b.len() > 0 ==> joined(a + b, sep) == joined(a, sep) + sep + joined(b, sep),
    decreases b.len(),
{
    if a.len() > 0 && b.len() > 0 {
        let front = b.drop_last();
        assert((a + b).drop_last() =~= a + front);
        assert((a + b).last() == b.last());
        if front.len() > 0 {
            law_joining_puts_separators_between(a, front, x, sep);
            assert(joined(a + b, sep) =~= joined(a, sep) + sep + joined(b, sep));
        } else {
            assert(a + front =~= a);
        }
    }
}

/// Stripping takes white space off both ends and nothing else: it leaves the
/// stretch from `lo` up to `hi`, with white space alone around it and none at
/// its ends.
pub proof fn law_stripping_takes_white_space_off_the_ends(s: Seq<char>) -> (r: (int, int))
    ensures
        0 <= r.0 <= r.1 <= s.len(),
        stripped(s) == s.subrange(r.0, r.1),
        forall|i: int| 0 <= i < r.0 || r.1 <= i < s.len() ==> white_space(#[trigger] s[i]),
        r.0 < r.1 ==> !white_space(s[r.0]) && !white_space(s[r.1 - 1]),
    decreases s.len(),
{
    if s.len() == 0 {
        assert(s =~= s.subrange(0, 0));
        (0, 0)
    } else if white_space(s.first()) {
        let t = s.drop_first();
        let (lo, hi) = law_stripping_takes_white_space_off_the_ends(t);
        assert(t.subrange(lo, hi) =~= s.subrange(lo + 1, hi + 1));
        assert forall|i: int| 0 <= i < lo + 1 || hi + 1 <= i < s.len() implies white_space(
            #[trigger] s[i],
        ) by {
            if i > 0 {
                assert(s[i] == t[i - 1]);
            }
        }
        (lo + 1, hi + 1)
    } else if white_space(s.last()) {
        let t = s.drop_last();
        let (lo, hi) = law_stripping_takes_white_space_off_the_ends(t);
        assert(t.subrange(lo, hi) =~= s.subrange(lo, hi));
        assert forall|i: int| 0 <= i < lo || hi <= i < s.len() implies white_space(
            #[trigger] s[i],
        ) by {
            if i < t.len() {
                assert(s[i] == t[i]);
            }
        }
        (lo, hi)
    } else {
        assert(s =~= s.subrange(0, s.len() as int));
        (0, s.len() as int)
    }
}

/// A text is blank exactly when each of its parts is, and a single character
/// exactly when it is white space.
pub proof fn law_blank_part_by_part(a: Seq<char>, b: Seq<char>, c: char)
    ensures
        blank(Seq::empty()),
        blank(seq![c]) <==> white_space(c),
        blank(a + b) <==> blank(a) && blank(b),
{
    assert(seq![c][0] == c);
    assert forall|i: int| 0 <= i < a.len() implies a[i] == #[trigger] (a + b)[i] by {}
    assert forall|i: int| 0 <= i < b.len() implies b[i] == #[trigger] (a + b)[a.len() + i] by {}
    if blank(a + b) {
        assert forall|i: int| 0 <= i < a.len() implies white_space(#[trigger] a[i]) by {
            assert(white_space((a + b)[i]));
        }
        assert forall|i: int| 0 <= i < b.len() implies white_space(#[trigger] b[i]) by {
            assert(white_space((a + b)[a.len() + i]));
        }
    }
}

/// Decimal notation: a number below ten is one digit, a further digit is
/// written behind the others, and a negative number has a minus sign in front.
pub proof fn law_decimal_notation(n: nat, d: nat)
    requires
        d < 10,
    ensures
        decimal(d) == seq![(48 + d) as char],
        n > 0 ==> decimal(10 * n + d) == decimal(n).push((48 + d) as char),
        signed_decimal(n as int) == decimal(n),
        n > 0 ==> signed_decimal(-n) == seq!['-'] + decimal(n),
{
    assert((10 * n + d) / 10 == n);
    assert((10 * n + d) % 10 == d);
}

/// White space is what has the Unicode property: five controls in a row and
/// one more, the spaces, and the two separators of lines and paragraphs.
pub proof fn law_white_space_is_the_unicode_property(c: char)
    ensures
        white_space(c) <==> (9 <= c as u32 <= 13 || c as u32 == 0x20 || c as u32 == 0x85 || c as u32
            == 0xA0 || c as u32 == 0x1680 || 0x2000 <= c as u32 <= 0x200A || c as u32 == 0x2028 || c as u32
            == 0x2029 || c as u32 == 0x202F || c as u32 == 0x205F || c as u32 == 0x3000),
{
}

} // verus!
