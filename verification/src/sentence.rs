//! Shaping of clip text: dangling punctuation, terminators, capitals.

use vstd::prelude::*;
use crate::text::{
    capitalized, capitalize_first_chars, char_in_class, chars_of, in_class,
    is_alphanumeric, is_sentence_end_char, lemma_trim_len, lower_of, slice_chars, str_lower,
    string_of, trim, trim_both, trim_chars, unicode_alphanumeric, CharClass,
};

verus! {

/// `t` with dangling clause punctuation removed from its end: while the last
/// character is one of `,` `;` `:` `-` `—`, drop it and trim white space.
pub open spec fn strip_junk(t: Seq<char>) -> Seq<char>
    decreases t.len(),
{
    if t.len() > 0 && in_class(CharClass::TrailingJunk, t.last()) {
        proof {
            lemma_trim_len(t.drop_last(), CharClass::WhiteSpace);
        }
        strip_junk(trim(t.drop_last()))
    } else {
        t
    }
}

pub proof fn lemma_strip_junk_end(t: Seq<char>)
    ensures
        strip_junk(t).len() > 0 ==> !in_class(CharClass::TrailingJunk, strip_junk(t).last()),
    decreases t.len(),
{
    if t.len() > 0 && in_class(CharClass::TrailingJunk, t.last()) {
        lemma_trim_len(t.drop_last(), CharClass::WhiteSpace);
        lemma_strip_junk_end(trim(t.drop_last()));
    }
}

/// A sentence as a clip shows it: dangling punctuation removed, and a
/// period added when it does not already end in `.`, `!` or `?`.
pub open spec fn normalized_sentence(s: Seq<char>) -> Seq<char> {
    let t = strip_junk(s);
    if t.len() > 0 && !is_sentence_end_char(t.last()) {
        t.push('.')
    } else {
        t
    }
}

/// `s` with its first character upper-cased; when it does not end in
/// `.`, `!` or `?`, dangling punctuation is removed and a period added.
pub open spec fn capitalized_terminated(s: Seq<char>) -> Seq<char> {
    let out = capitalized(s);
    if out.len() == 0 || is_sentence_end_char(out.last()) {
        out
    } else {
        strip_junk(out).push('.')
    }
}

/// A word as shown to the language model: trimmed, then stripped of the
/// punctuation `.` `,` `!` `?` `;` `:` `"` `“` `”` at both ends.
pub open spec fn prompt_word(raw: Seq<char>) -> Seq<char> {
    trim_both(trim(raw), CharClass::PromptPunct)
}

/// A word as the stop-word check sees it: trimmed, stripped at both ends of
/// everything but letters, digits and apostrophes, and lower-cased.
pub open spec fn check_word(s: Seq<char>) -> Seq<char> {
    str_lower(trim_both(trim(s), CharClass::NotWordChar))
}

/// The letters and digits of `s`, in order.
pub open spec fn alnum_only(s: Seq<char>) -> Seq<char>
    decreases s.len(),
{
    if s.len() == 0 {
        seq![]
    } else if unicode_alphanumeric(s[0]) {
        seq![s[0]] + alnum_only(s.drop_first())
    } else {
        alnum_only(s.drop_first())
    }
}

/// Removes dangling clause punctuation from the end of `t`.
pub fn strip_junk_chars(t: &Vec<char>) -> (r: Vec<char>)
    ensures
        r@ == strip_junk(t@),
    decreases t@.len(),
{
    if t.len() > 0 && char_in_class(CharClass::TrailingJunk, t[t.len() - 1]) {
        let head = slice_chars(t, 0, t.len() - 1);
        assert(head@ =~= t@.drop_last());
        let trimmed = trim_chars(&head, CharClass::WhiteSpace);
        proof {
            lemma_trim_len(t@.drop_last(), CharClass::WhiteSpace);
        }
        strip_junk_chars(&trimmed)
    } else {
        slice_chars(t, 0, t.len())
    }
}

/// Normalizes a sentence for display (see `normalized_sentence`).
pub fn normalize_sentence_chars(s: &Vec<char>) -> (r: Vec<char>)
    ensures
        r@ == normalized_sentence(s@),
{
    let mut t = strip_junk_chars(s);
    if t.len() > 0 && !char_in_class(CharClass::SentenceEnd, t[t.len() - 1]) {
        t.push('.');
    }
    t
}

/// Capitalizes and terminates `s` (see `capitalized_terminated`).
pub fn capitalize_and_terminate_chars(s: &Vec<char>) -> (r: Vec<char>)
    ensures
        r@ == capitalized_terminated(s@),
        r@.len() == 0 <==> s@.len() == 0,
        r@.len() > 0 ==> is_sentence_end_char(r@.last()),
        s@.len() > 0 && is_sentence_end_char(s@.last()) ==> r@ == capitalized(s@),
{
    let out = capitalize_first_chars(s);
    if out.len() == 0 || char_in_class(CharClass::SentenceEnd, out[out.len() - 1]) {
        out
    } else {
        let mut t = strip_junk_chars(&out);
        t.push('.');
        t
    }
}

/// Cleans a word for the language-model prompt.
pub fn clean_word_for_prompt_chars(raw: &Vec<char>) -> (r: Vec<char>)
    ensures
        r@ == prompt_word(raw@),
{
    let t = trim_chars(raw, CharClass::WhiteSpace);
    trim_chars(&t, CharClass::PromptPunct)
}

/// Prepares a word for the stop-word check.
pub fn strip_for_check_chars(s: &Vec<char>) -> (r: Vec<char>)
    ensures
        r@ == check_word(s@),
        r@.len() > 0 ==> trim(s@).len() > 0,
{
    let t = trim_chars(s, CharClass::WhiteSpace);
    let u = trim_chars(&t, CharClass::NotWordChar);
    proof {
        lemma_trim_len(t@, CharClass::NotWordChar);
    }
    let us = string_of(&u);
    let low = lower_of(us.as_str());
    chars_of(low.as_str())
}

/// Keeps the letters and digits of `s`.
pub fn strip_punct_chars(s: &Vec<char>) -> (r: Vec<char>)
    ensures
        r@ == alnum_only(s@),
{
    let mut r: Vec<char> = Vec::new();
    let mut i: usize = 0;
    assert(s@.skip(0) =~= s@);
    while i < s.len()
        invariant
            i <= s.len(),
            alnum_only(s@) == r@ + alnum_only(s@.skip(i as int)),
        decreases s.len() - i,
    {
        assert(s@.skip(i as int).drop_first() =~= s@.skip(i + 1));
        if is_alphanumeric(s[i]) {
            r.push(s[i]);
            assert(r@.drop_last() + (seq![s[i as int]] + alnum_only(s@.skip(i + 1)))
                =~= r@ + alnum_only(s@.skip(i + 1)));
        }
        i += 1;
    }
    assert(s@.skip(i as int) =~= Seq::<char>::empty());
    assert(r@ + Seq::<char>::empty() =~= r@);
    r
}

} // verus!
