//! Text of a run of transcribed words.

use vstd::prelude::*;
use crate::model::{WhisperWord, TimedWord, timed_words};
use crate::text::{
    CharClass, chars_of, char_seqs, join, join_spaced, tidy_spacing, tidy_spacing_chars, trim,
    trim_chars, trim_start, collapse, unicode_white_space, lemma_white_space_examples,
    lemma_trim_empty_blank, lemma_trim_start_shape, lemma_trim_end_shape,
};

verus! {

/// The trimmed texts of the words `lo..=hi`.
pub open spec fn trimmed_texts(ws: Seq<TimedWord>, lo: int, hi: int) -> Seq<Seq<char>> {
    Seq::new((hi - lo + 1) as nat, |k: int| trim(ws[lo + k].text))
}

/// The words `lo..=hi` as one line: trimmed, joined by spaces, with the
/// space before `,` `.` `!` `?` and doubled spaces removed, then trimmed.
pub open spec fn joined_words(ws: Seq<TimedWord>, lo: int, hi: int) -> Seq<char> {
    trim(tidy_spacing(join(trimmed_texts(ws, lo, hi), seq![' '])))
}

/// `s` holds a character other than white space.
pub open spec fn has_ink(s: Seq<char>) -> bool {
    exists|i: int| 0 <= i < s.len() && !unicode_white_space(#[trigger] s[i])
}

proof fn lemma_ink_collapse(s: Seq<char>, x: char)
    requires
        has_ink(s),
    ensures
        has_ink(collapse(s, x)),
    decreases s.len(),
{
    lemma_white_space_examples();
    let i = choose|i: int| 0 <= i < s.len() && !unicode_white_space(#[trigger] s[i]);
    let r = collapse(s, x);
    if s.len() < 2 {
        assert(r == s);
        assert(!unicode_white_space(r[i]));
    } else if s[0] == ' ' && s[1] == x {
        if !unicode_white_space(x) {
            assert(r[0] == x);
        } else {
            assert(i >= 2);
            assert(s.skip(2)[i - 2] == s[i]);
            lemma_ink_collapse(s.skip(2), x);
            let j = choose|j: int| 0 <= j < collapse(s.skip(2), x).len() && !unicode_white_space(
                #[trigger] collapse(s.skip(2), x)[j],
            );
            assert(r[j + 1] == collapse(s.skip(2), x)[j]);
        }
    } else {
        if i == 0 {
            assert(r[0] == s[0]);
        } else {
            assert(s.drop_first()[i - 1] == s[i]);
            lemma_ink_collapse(s.drop_first(), x);
            let j = choose|j: int| 0 <= j < collapse(s.drop_first(), x).len() && !unicode_white_space(
                #[trigger] collapse(s.drop_first(), x)[j],
            );
            assert(r[j + 1] == collapse(s.drop_first(), x)[j]);
        }
    }
}

proof fn lemma_ink_join(ps: Seq<Seq<char>>, sep: Seq<char>, k: int)
    requires
        0 <= k < ps.len(),
        has_ink(ps[k]),
    ensures
        has_ink(join(ps, sep)),
    decreases ps.len(),
{
    let j = join(ps, sep);
    if ps.len() == 1 {
        assert(j == ps[0]);
    } else {
        let pre = join(ps.drop_last(), sep);
        assert(j == pre + sep + ps.last());
        if k == ps.len() - 1 {
            let i = choose|i: int| 0 <= i < ps[k].len() && !unicode_white_space(#[trigger] ps[k][i]);
            assert(j[pre.len() + sep.len() + i] == ps[k][i]);
        } else {
            assert(ps.drop_last()[k] == ps[k]);
            lemma_ink_join(ps.drop_last(), sep, k);
            let i = choose|i: int| 0 <= i < pre.len() && !unicode_white_space(#[trigger] pre[i]);
            assert(j[i] == pre[i]);
        }
    }
}

/// A non-empty trimmed text starts with other than white space.
proof fn lemma_trimmed_ink(x: Seq<char>)
    requires
        trim(x).len() > 0,
    ensures
        has_ink(trim(x)),
{
    let t = trim_start(x, CharClass::WhiteSpace);
    lemma_trim_start_shape(x, CharClass::WhiteSpace);
    lemma_trim_end_shape(t, CharClass::WhiteSpace);
    let m = choose|m: int| 0 <= m <= t.len() && crate::text::trim_end(t, CharClass::WhiteSpace) == t.take(m);
    assert(trim(x)[0] == t[0]);
    assert(!unicode_white_space(trim(x)[0]));
}

/// The words `lo..=hi` as one line are not empty when one of them is not
/// blank.
pub(crate) proof fn lemma_joined_words_not_empty(ws: Seq<TimedWord>, lo: int, hi: int, k: int)
    requires
        lo <= k <= hi,
        trim(ws[k].text).len() > 0,
    ensures
        joined_words(ws, lo, hi).len() > 0,
{
    let ts = trimmed_texts(ws, lo, hi);
    assert(ts[k - lo] == trim(ws[k].text));
    lemma_trimmed_ink(ws[k].text);
    lemma_ink_join(ts, seq![' '], k - lo);
    let s0 = join(ts, seq![' ']);
    lemma_ink_collapse(s0, ',');
    let s1 = collapse(s0, ',');
    lemma_ink_collapse(s1, '.');
    let s2 = collapse(s1, '.');
    lemma_ink_collapse(s2, '!');
    let s3 = collapse(s2, '!');
    lemma_ink_collapse(s3, '?');
    let s4 = collapse(s3, '?');
    lemma_ink_collapse(s4, ' ');
    let s5 = collapse(s4, ' ');
    assert(tidy_spacing(s0) == s5);
    if trim(s5).len() == 0 {
        lemma_trim_empty_blank(s5);
        let i = choose|i: int| 0 <= i < s5.len() && !unicode_white_space(#[trigger] s5[i]);
        assert(false);
    }
}

/// The words `lo..=hi` of `words` as one line (see `joined_words`).
pub fn joined_words_chars(words: &[WhisperWord], lo: usize, hi: usize) -> (r: Vec<char>)
    requires
        lo <= hi < words@.len(),
    ensures
        r@ == joined_words(timed_words(words@), lo as int, hi as int),
{
    let ghost tw = timed_words(words@);
    let mut parts: Vec<Vec<char>> = Vec::new();
    let mut k: usize = lo;
    while k <= hi
        invariant
            lo <= k <= hi + 1,
            hi < words@.len(),
            tw == timed_words(words@),
            char_seqs(parts@) == trimmed_texts(tw, lo as int, (k - 1) as int),
        decreases hi + 1 - k,
    {
        let w = trim_chars(&chars_of(words[k].word.as_str()), CharClass::WhiteSpace);
        let ghost before = char_seqs(parts@);
        let ghost wv = w@;
        assert(tw[k as int].text == words@[k as int].word@);
        parts.push(w);
        assert(char_seqs(parts@) =~= before.push(wv));
        assert(char_seqs(parts@) =~= trimmed_texts(tw, lo as int, k as int));
        k += 1;
    }
    let j = join_spaced(&parts);
    let t = tidy_spacing_chars(&j);
    trim_chars(&t, CharClass::WhiteSpace)
}

} // verus!
