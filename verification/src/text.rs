//! Character-level text model and helpers.
//!
//! Strings are modelled by their views, `Seq<char>`; executable helpers work
//! on `Vec<char>` and convert at the edges.

use vstd::prelude::*;

verus! {

broadcast use vstd::string::group_string_axioms;

// ───────────────────────── character classes ─────────────────────────

/// The Unicode `White_Space` property, which `char::is_whitespace` tests:
/// tab, line feed, vertical tab, form feed, carriage return, space, next
/// line, no-break space, ogham space mark, the spaces U+2000 to U+200A,
/// line and paragraph separator, narrow no-break space, medium mathematical
/// space and ideographic space.
#[verifier::opaque]
pub open spec fn unicode_white_space(c: char) -> bool {
    ||| ('\u{9}' <= c && c <= '\u{d}')
    ||| c == ' '
    ||| c == '\u{85}'
    ||| c == '\u{a0}'
    ||| c == '\u{1680}'
    ||| ('\u{2000}' <= c && c <= '\u{200a}')
    ||| c == '\u{2028}'
    ||| c == '\u{2029}'
    ||| c == '\u{202f}'
    ||| c == '\u{205f}'
    ||| c == '\u{3000}'
}

/// Unicode `Alphabetic` or `Numeric`, as `char::is_alphanumeric` computes it.
pub uninterp spec fn unicode_alphanumeric(c: char) -> bool;

/// The characters that `char::to_uppercase` yields for `c`.
pub uninterp spec fn char_upper(c: char) -> Seq<char>;

/// The string that `str::to_lowercase` yields for `s`.
pub uninterp spec fn str_lower(s: Seq<char>) -> Seq<char>;

/// Whether `c` is white space (see `unicode_white_space`).
pub fn is_white_space(c: char) -> (b: bool)
    ensures
        b == unicode_white_space(c),
{
    reveal(unicode_white_space);
    ('\u{9}' <= c && c <= '\u{d}') || c == ' ' || c == '\u{85}' || c == '\u{a0}' || c == '\u{1680}'
        || ('\u{2000}' <= c && c <= '\u{200a}') || c == '\u{2028}' || c == '\u{2029}'
        || c == '\u{202f}' || c == '\u{205f}' || c == '\u{3000}'
}

/// `char::is_alphanumeric`: true for the characters that are alphabetic or
/// numeric in Unicode.
#[verifier::external_body]
pub(crate) fn is_alphanumeric(c: char) -> (b: bool)
    ensures
        b == unicode_alphanumeric(c),
{
    c.is_alphanumeric()
}

/// `char::to_uppercase`, collected into a string: the uppercase mapping of
/// `c`, one or more characters; a character without an uppercase mapping
/// (such as `.`, `!` and `?`) maps to itself.
#[verifier::external_body]
pub(crate) fn upper_of(c: char) -> (r: String)
    ensures
        r@ == char_upper(c),
        r@.len() >= 1,
        (c == '.' || c == '!' || c == '?') ==> r@ == seq![c],
{
    c.to_uppercase().collect()
}

/// `str::to_lowercase`: the lowercase equivalent of `s`, as a new string
/// (nothing for the empty string).
#[verifier::external_body]
pub(crate) fn lower_of(s: &str) -> (r: String)
    ensures
        r@ == str_lower(s@),
        s@.len() == 0 ==> r@.len() == 0,
{
    s.to_lowercase()
}

/// `String::push`: appends one character.
#[verifier::external_body]
pub(crate) fn push_char(s: &mut String, c: char)
    ensures
        final(s)@ == old(s)@.push(c),
{
    s.push(c)
}

/// Character classes that the pipeline trims or tests for.
#[derive(Clone, Copy, PartialEq, Eq, Structural)]
pub enum CharClass {
    /// Unicode white space.
    WhiteSpace,
    /// `.`, `!` or `?`.
    SentenceEnd,
    /// Clause punctuation left dangling at the end of a sentence:
    /// `,` `;` `:` `-` `—`.
    TrailingJunk,
    /// Punctuation stripped from words shown to the language model:
    /// `.` `,` `!` `?` `;` `:` `"` `“` `”`.
    PromptPunct,
    /// Anything that is neither alphanumeric nor an apostrophe.
    NotWordChar,
}

/// The space is white space; the sentence terminators are not.
pub proof fn lemma_white_space_examples()
    ensures
        unicode_white_space(' '),
        unicode_white_space('\t'),
        unicode_white_space('\n'),
        unicode_white_space('\r'),
        !unicode_white_space('.'),
        !unicode_white_space('!'),
        !unicode_white_space('?'),
{
    reveal(unicode_white_space);
}

pub open spec fn is_sentence_end_char(c: char) -> bool {
    c == '.' || c == '!' || c == '?'
}

pub open spec fn in_class(k: CharClass, c: char) -> bool {
    match k {
        CharClass::WhiteSpace => unicode_white_space(c),
        CharClass::SentenceEnd => is_sentence_end_char(c),
        CharClass::TrailingJunk => c == ',' || c == ';' || c == ':' || c == '-' || c == '—',
        CharClass::PromptPunct => c == '.' || c == ',' || c == '!' || c == '?' || c == ';'
            || c == ':' || c == '"' || c == '“' || c == '”',
        CharClass::NotWordChar => !unicode_alphanumeric(c) && c != '\'',
    }
}

/// Whether `c` belongs to class `k`.
pub fn char_in_class(k: CharClass, c: char) -> (b: bool)
    ensures
        b == in_class(k, c),
{
    match k {
        CharClass::WhiteSpace => is_white_space(c),
        CharClass::SentenceEnd => c == '.' || c == '!' || c == '?',
        CharClass::TrailingJunk => c == ',' || c == ';' || c == ':' || c == '-' || c == '—',
        CharClass::PromptPunct => c == '.' || c == ',' || c == '!' || c == '?' || c == ';'
            || c == ':' || c == '"' || c == '“' || c == '”',
        CharClass::NotWordChar => !is_alphanumeric(c) && c != '\'',
    }
}

// ───────────────────────── trimming ─────────────────────────

/// `s` without its leading characters of class `k`.
pub open spec fn trim_start(s: Seq<char>, k: CharClass) -> Seq<char>
    decreases s.len(),
{
    if s.len() > 0 && in_class(k, s[0]) {
        trim_start(s.drop_first(), k)
    } else {
        s
    }
}

/// `s` without its trailing characters of class `k`.
pub open spec fn trim_end(s: Seq<char>, k: CharClass) -> Seq<char>
    decreases s.len(),
{
    if s.len() > 0 && in_class(k, s.last()) {
        trim_end(s.drop_last(), k)
    } else {
        s
    }
}

/// `s` without leading and trailing characters of class `k`
/// (`str::trim_matches`; for white space, `str::trim`).
pub open spec fn trim_both(s: Seq<char>, k: CharClass) -> Seq<char> {
    trim_end(trim_start(s, k), k)
}

pub open spec fn trim(s: Seq<char>) -> Seq<char> {
    trim_both(s, CharClass::WhiteSpace)
}

pub proof fn lemma_trim_start_shape(s: Seq<char>, k: CharClass)
    ensures
        exists|n: int| 0 <= n <= s.len() && trim_start(s, k) == s.skip(n),
        trim_start(s, k).len() > 0 ==> !in_class(k, trim_start(s, k)[0]),
    decreases s.len(),
{
    if s.len() > 0 && in_class(k, s[0]) {
        lemma_trim_start_shape(s.drop_first(), k);
        let n = choose|n: int| 0 <= n <= s.drop_first().len() && trim_start(s.drop_first(), k) == s.drop_first().skip(n);
        assert(s.drop_first().skip(n) =~= s.skip(n + 1));
    } else {
        assert(s.skip(0) =~= s);
    }
}

pub proof fn lemma_trim_end_shape(s: Seq<char>, k: CharClass)
    ensures
        exists|n: int| 0 <= n <= s.len() && trim_end(s, k) == s.take(n),
        trim_end(s, k).len() > 0 ==> !in_class(k, trim_end(s, k).last()),
    decreases s.len(),
{
    if s.len() > 0 && in_class(k, s.last()) {
        lemma_trim_end_shape(s.drop_last(), k);
        let n = choose|n: int| 0 <= n <= s.drop_last().len() && trim_end(s.drop_last(), k) == s.drop_last().take(n);
        assert(s.drop_last().take(n) =~= s.take(n));
    } else {
        assert(s.take(s.len() as int) =~= s);
    }
}

pub proof fn lemma_trim_len(s: Seq<char>, k: CharClass)
    ensures
        trim_both(s, k).len() <= s.len(),
        trim_start(s, k).len() <= s.len(),
        trim_end(s, k).len() <= s.len(),
{
    lemma_trim_start_shape(s, k);
    lemma_trim_end_shape(s, k);
    lemma_trim_end_shape(trim_start(s, k), k);
}

/// Leading white space skipped by `trim_start` is all white space.
pub proof fn lemma_trim_start_skips_blank(x: Seq<char>)
    ensures
        exists|n: int| {
            &&& 0 <= n <= x.len()
            &&& trim_start(x, CharClass::WhiteSpace) == x.skip(n)
            &&& forall|i: int| 0 <= i < n ==> unicode_white_space(#[trigger] x[i])
        },
    decreases x.len(),
{
    if x.len() > 0 && unicode_white_space(x[0]) {
        lemma_trim_start_skips_blank(x.drop_first());
        let n = choose|n: int| {
            &&& 0 <= n <= x.drop_first().len()
            &&& trim_start(x.drop_first(), CharClass::WhiteSpace) == x.drop_first().skip(n)
            &&& forall|i: int| 0 <= i < n ==> unicode_white_space(#[trigger] x.drop_first()[i])
        };
        assert(x.drop_first().skip(n) =~= x.skip(n + 1));
        assert forall|i: int| 0 <= i < n + 1 implies unicode_white_space(#[trigger] x[i]) by {
            if i > 0 {
                assert(x[i] == x.drop_first()[i - 1]);
            }
        }
    } else {
        assert(x.skip(0) =~= x);
    }
}

/// A text that trims to nothing is white space only.
pub proof fn lemma_trim_empty_blank(x: Seq<char>)
    requires
        trim(x).len() == 0,
    ensures
        forall|i: int| 0 <= i < x.len() ==> unicode_white_space(#[trigger] x[i]),
{
    lemma_trim_start_skips_blank(x);
    let t = trim_start(x, CharClass::WhiteSpace);
    lemma_trim_start_shape(x, CharClass::WhiteSpace);
    if t.len() > 0 {
        lemma_trim_end_keeps_first(t);
        assert(false);
    }
    let n = choose|n: int| {
        &&& 0 <= n <= x.len()
        &&& trim_start(x, CharClass::WhiteSpace) == x.skip(n)
        &&& forall|i: int| 0 <= i < n ==> unicode_white_space(#[trigger] x[i])
    };
    assert(n == x.len());
}

/// Trimming the end of a text that starts with other than white space keeps
/// something.
pub proof fn lemma_trim_end_keeps_first(t: Seq<char>)
    requires
        t.len() > 0,
        !unicode_white_space(t[0]),
    ensures
        trim_end(t, CharClass::WhiteSpace).len() > 0,
    decreases t.len(),
{
    if t.len() > 1 && unicode_white_space(t.last()) {
        assert(t.drop_last()[0] == t[0]);
        lemma_trim_end_keeps_first(t.drop_last());
    }
}

/// Copy of `s[lo..hi]`.
pub fn slice_chars(s: &Vec<char>, lo: usize, hi: usize) -> (r: Vec<char>)
    requires
        lo <= hi <= s.len(),
    ensures
        r@ == s@.subrange(lo as int, hi as int),
{
    let mut r: Vec<char> = Vec::new();
    let mut i = lo;
    while i < hi
        invariant
            lo <= i <= hi <= s.len(),
            r@ == s@.subrange(lo as int, i as int),
        decreases hi - i,
    {
        r.push(s[i]);
        i += 1;
        assert(r@ =~= s@.subrange(lo as int, i as int));
    }
    r
}

/// `s` without leading characters of class `k`.
pub fn trim_start_chars(s: &Vec<char>, k: CharClass) -> (r: Vec<char>)
    ensures
        r@ == trim_start(s@, k),
{
    let mut i: usize = 0;
    assert(s@.skip(0) =~= s@);
    while i < s.len() && char_in_class(k, s[i])
        invariant
            i <= s.len(),
            trim_start(s@, k) == trim_start(s@.skip(i as int), k),
        decreases s.len() - i,
    {
        assert(s@.skip(i as int).drop_first() =~= s@.skip(i + 1));
        i += 1;
    }
    assert(s@.skip(i as int) =~= s@.subrange(i as int, s.len() as int));
    assert(trim_start(s@.skip(i as int), k) == s@.skip(i as int));
    slice_chars(s, i, s.len())
}

/// `s` without trailing characters of class `k`.
pub fn trim_end_chars(s: &Vec<char>, k: CharClass) -> (r: Vec<char>)
    ensures
        r@ == trim_end(s@, k),
{
    let mut j: usize = s.len();
    assert(s@.take(s.len() as int) =~= s@);
    while j > 0 && char_in_class(k, s[j - 1])
        invariant
            j <= s.len(),
            trim_end(s@, k) == trim_end(s@.take(j as int), k),
        decreases j,
    {
        assert(s@.take(j as int).drop_last() =~= s@.take(j - 1));
        j -= 1;
    }
    assert(s@.take(j as int) =~= s@.subrange(0, j as int));
    assert(trim_end(s@.take(j as int), k) == s@.take(j as int));
    slice_chars(s, 0, j)
}

/// `s` without leading and trailing characters of class `k`.
pub fn trim_chars(s: &Vec<char>, k: CharClass) -> (r: Vec<char>)
    ensures
        r@ == trim_both(s@, k),
{
    let t = trim_start_chars(s, k);
    trim_end_chars(&t, k)
}


// ───────────────────────── words ─────────────────────────

/// The views of a sequence of strings.
pub open spec fn string_seqs(v: Seq<String>) -> Seq<Seq<char>> {
    Seq::new(v.len(), |i: int| v[i]@)
}

/// Whether two character vectors hold the same characters.
pub fn chars_equal(a: &Vec<char>, b: &Vec<char>) -> (r: bool)
    ensures
        r == (a@ == b@),
{
    if a.len() != b.len() {
        return false;
    }
    let mut i: usize = 0;
    while i < a.len()
        invariant
            i <= a.len() == b.len(),
            forall|j: int| 0 <= j < i ==> a@[j] == b@[j],
        decreases a.len() - i,
    {
        if a[i] != b[i] {
            return false;
        }
        i += 1;
    }
    assert(a@ =~= b@);
    true
}

/// The views of a sequence of character vectors.
pub open spec fn char_seqs(v: Seq<Vec<char>>) -> Seq<Seq<char>> {
    Seq::new(v.len(), |i: int| v[i]@)
}

/// Words of `s` (maximal runs of non-white-space characters) given the word
/// `cur` already begun: the model of `str::split_whitespace`.
pub open spec fn words_acc(s: Seq<char>, cur: Seq<char>) -> Seq<Seq<char>>
    decreases s.len(),
{
    if s.len() == 0 {
        if cur.len() > 0 { seq![cur] } else { seq![] }
    } else if unicode_white_space(s[0]) {
        (if cur.len() > 0 { seq![cur] } else { seq![] }) + words_acc(s.drop_first(), seq![])
    } else {
        words_acc(s.drop_first(), cur.push(s[0]))
    }
}

/// `str::split_whitespace`.
pub open spec fn words(s: Seq<char>) -> Seq<Seq<char>> {
    words_acc(s, seq![])
}

/// `str::split_whitespace().count()`.
pub open spec fn word_count(s: Seq<char>) -> nat {
    words(s).len()
}

/// The white-space-separated words of `s`.
pub fn split_words(s: &Vec<char>) -> (r: Vec<Vec<char>>)
    ensures
        char_seqs(r@) == words(s@),
{
    let mut out: Vec<Vec<char>> = Vec::new();
    let mut cur: Vec<char> = Vec::new();
    let mut i: usize = 0;
    assert(s@.skip(0) =~= s@);
    while i < s.len()
        invariant
            i <= s.len(),
            words(s@) == char_seqs(out@) + words_acc(s@.skip(i as int), cur@),
        decreases s.len() - i,
    {
        let c = s[i];
        let ghost rest = s@.skip(i as int);
        assert(rest.drop_first() =~= s@.skip(i + 1));
        assert(rest[0] == c);
        if is_white_space(c) {
            if cur.len() > 0 {
                let ghost o = char_seqs(out@);
                let ghost cv = cur@;
                out.push(cur);
                assert(char_seqs(out@) =~= o.push(cv));
                assert(o + (seq![cv] + words_acc(s@.skip(i + 1), seq![]))
                    =~= o.push(cv) + words_acc(s@.skip(i + 1), seq![]));
                cur = Vec::new();
            } else {
                assert(char_seqs(out@) + (Seq::<Seq<char>>::empty() + words_acc(s@.skip(i + 1), seq![]))
                    =~= char_seqs(out@) + words_acc(s@.skip(i + 1), seq![]));
            }
            assert(cur@ =~= Seq::<char>::empty());
        } else {
            cur.push(c);
        }
        i += 1;
    }
    assert(s@.skip(i as int) =~= Seq::<char>::empty());
    if cur.len() > 0 {
        let ghost o = char_seqs(out@);
        let ghost cv = cur@;
        out.push(cur);
        assert(char_seqs(out@) =~= o.push(cv));
        assert(o + seq![cv] =~= o.push(cv));
    } else {
        assert(char_seqs(out@) + Seq::<Seq<char>>::empty() =~= char_seqs(out@));
    }
    out
}

/// Number of white-space-separated words of `s`.
pub fn count_words(s: &Vec<char>) -> (n: usize)
    ensures
        n == word_count(s@),
{
    let w = split_words(s);
    w.len()
}

// ───────────────────────── joining ─────────────────────────

/// The pieces `ws` with `sep` between consecutive ones (`[T]::join`).
pub open spec fn join(ws: Seq<Seq<char>>, sep: Seq<char>) -> Seq<char>
    decreases ws.len(),
{
    if ws.len() == 0 {
        seq![]
    } else if ws.len() == 1 {
        ws[0]
    } else {
        join(ws.drop_last(), sep) + sep + ws.last()
    }
}

/// The pieces `ws` joined by single spaces.
pub fn join_spaced(ws: &Vec<Vec<char>>) -> (r: Vec<char>)
    ensures
        r@ == join(char_seqs(ws@), seq![' ']),
{
    let mut r: Vec<char> = Vec::new();
    let mut i: usize = 0;
    let ghost d = char_seqs(ws@);
    while i < ws.len()
        invariant
            i <= ws.len(),
            d == char_seqs(ws@),
            d.len() == ws.len(),
            r@ == join(d.take(i as int), seq![' ']),
        decreases ws.len() - i,
    {
        assert(d.take(i + 1).drop_last() =~= d.take(i as int));
        assert(d.take(i + 1).last() == ws[i as int]@);
        if i > 0 {
            r.push(' ');
        }
        append_chars(&mut r, &ws[i]);
        if i == 0 {
            assert(r@ =~= join(d.take(1), seq![' ']));
        } else {
            assert(r@ =~= join(d.take(i + 1), seq![' ']));
        }
        i += 1;
    }
    assert(d.take(ws.len() as int) =~= d);
    r
}

// ───────────────────────── replacing ─────────────────────────

/// `s.replace(" x", "x")`: every non-overlapping occurrence of a space
/// followed by `x`, scanning left to right, loses its space.
pub open spec fn collapse(s: Seq<char>, x: char) -> Seq<char>
    decreases s.len(),
{
    if s.len() < 2 {
        s
    } else if s[0] == ' ' && s[1] == x {
        seq![x] + collapse(s.skip(2), x)
    } else {
        seq![s[0]] + collapse(s.drop_first(), x)
    }
}

/// `s.replace(" x", "x")`.
pub fn collapse_chars(s: &Vec<char>, x: char) -> (r: Vec<char>)
    ensures
        r@ == collapse(s@, x),
{
    let mut r: Vec<char> = Vec::new();
    let mut i: usize = 0;
    assert(s@.skip(0) =~= s@);
    while i < s.len()
        invariant
            i <= s.len(),
            collapse(s@, x) == r@ + collapse(s@.skip(i as int), x),
        decreases s.len() - i,
    {
        let ghost rest = s@.skip(i as int);
        if i + 1 < s.len() && s[i] == ' ' && s[i + 1] == x {
            assert(rest.skip(2) =~= s@.skip(i + 2));
            r.push(x);
            assert(r@ + collapse(s@.skip(i + 2), x) =~= (r@.drop_last() + (seq![x] + collapse(s@.skip(i + 2), x))));
            i += 2;
        } else {
            assert(rest.drop_first() =~= s@.skip(i + 1));
            proof {
                if rest.len() < 2 {
                    assert(rest =~= seq![s[i as int]]);
                    assert(s@.skip(i + 1) =~= Seq::<char>::empty());
                }
            }
            r.push(s[i]);
            assert(r@ + collapse(s@.skip(i + 1), x) =~= (r@.drop_last() + (seq![s[i as int]] + collapse(s@.skip(i + 1), x))));
            i += 1;
        }
    }
    assert(s@.skip(i as int) =~= Seq::<char>::empty());
    assert(r@ + Seq::<char>::empty() =~= r@);
    r
}

/// The punctuation and spacing clean-up applied to words joined by spaces:
/// `.replace(" ,", ",").replace(" .", ".").replace(" !", "!")
///  .replace(" ?", "?").replace("  ", " ")`.
pub open spec fn tidy_spacing(s: Seq<char>) -> Seq<char> {
    collapse(collapse(collapse(collapse(collapse(s, ','), '.'), '!'), '?'), ' ')
}

pub fn tidy_spacing_chars(s: &Vec<char>) -> (r: Vec<char>)
    ensures
        r@ == tidy_spacing(s@),
{
    let a = collapse_chars(s, ',');
    let b = collapse_chars(&a, '.');
    let c = collapse_chars(&b, '!');
    let d = collapse_chars(&c, '?');
    collapse_chars(&d, ' ')
}

// ───────────────────────── small predicates ─────────────────────────

/// Whether `s` is non-empty and ends in `.`, `!` or `?`.
pub open spec fn ends_with_terminator(s: Seq<char>) -> bool {
    s.len() > 0 && is_sentence_end_char(s.last())
}

/// `s` with its first character upper-cased (`char::to_uppercase`).
pub open spec fn capitalized(s: Seq<char>) -> Seq<char> {
    if s.len() == 0 { seq![] } else { char_upper(s[0]) + s.drop_first() }
}

pub fn capitalize_first_chars(s: &Vec<char>) -> (r: Vec<char>)
    ensures
        r@ == capitalized(s@),
        s@.len() > 0 ==> r@.len() >= s@.len(),
        s@.len() > 1 ==> r@.last() == s@.last(),
        s@.len() == 1 && is_sentence_end_char(s@[0]) ==> r@ == s@,
{
    if s.len() == 0 {
        return Vec::new();
    }
    let up = upper_of(s[0]);
    let mut r = chars_of(up.as_str());
    let rest = slice_chars(s, 1, s.len());
    assert(rest@ =~= s@.drop_first());
    append_chars(&mut r, &rest);
    if s.len() == 1 {
        assert(rest@ =~= Seq::<char>::empty());
        assert(r@ =~= up@);
        if s[0] == '.' || s[0] == '!' || s[0] == '?' {
            assert(r@ =~= s@);
        }
    }
    r
}

// ───────────────────────── numbers ─────────────────────────

/// The decimal digit for `d` (`0 <= d < 10`).
pub open spec fn digit_char(d: nat) -> char {
    (48 + d) as char
}

/// The decimal representation of `n`, as `Display` for unsigned integers
/// prints it.
pub open spec fn decimal(n: nat) -> Seq<char>
    decreases n,
{
    if n < 10 {
        seq![digit_char(n)]
    } else {
        decimal(n / 10).push(digit_char(n % 10))
    }
}

/// The decimal representation of `n`.
pub fn decimal_chars(n: u64) -> (r: Vec<char>)
    ensures
        r@ == decimal(n as nat),
    decreases n,
{
    let d = (n % 10) as u8;
    let c = (48u8 + d) as char;
    if n < 10 {
        let mut v: Vec<char> = Vec::new();
        v.push(c);
        assert(v@ =~= seq![digit_char(n as nat)]);
        v
    } else {
        let mut v = decimal_chars(n / 10);
        v.push(c);
        v
    }
}

/// The characters of a literal.
pub fn lit(s: &str) -> (v: Vec<char>)
    ensures
        v@ == s@,
{
    chars_of(s)
}

// ───────────────────────── conversions ─────────────────────────

/// The characters of `s`, in order.
pub fn chars_of(s: &str) -> (v: Vec<char>)
    ensures
        v@ == s@,
{
    let mut v: Vec<char> = Vec::new();
    for c in it: s.chars()
        invariant
            v@ == it.seq().take(it.index() as int),
            it.seq() == s@,
    {
        v.push(c);
    }
    v
}

/// The string made of the characters `v`.
pub fn string_of(v: &Vec<char>) -> (s: String)
    ensures
        s@ == v@,
{
    let mut s = String::new();
    let mut i: usize = 0;
    while i < v.len()
        invariant
            i <= v.len(),
            s@ == v@.take(i as int),
        decreases v.len() - i,
    {
        push_char(&mut s, v[i]);
        i += 1;
        assert(s@ =~= v@.take(i as int));
    }
    assert(v@.take(v.len() as int) =~= v@);
    s
}

/// `a` followed by `b`.
pub fn append_chars(a: &mut Vec<char>, b: &Vec<char>)
    ensures
        final(a)@ == old(a)@ + b@,
{
    let ghost a0 = a@;
    let mut i: usize = 0;
    while i < b.len()
        invariant
            i <= b.len(),
            a@ == a0 + b@.take(i as int),
        decreases b.len() - i,
    {
        a.push(b[i]);
        i += 1;
        assert(a@ =~= a0 + b@.take(i as int));
    }
    assert(b@.take(b.len() as int) =~= b@);
}

} // verus!
