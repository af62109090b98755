//! The two requests the language-model chunker makes: one that finds the
//! sentences of a window of words, and one that divides a long sentence
//! into chunks a learner can repeat.

use vstd::prelude::*;
use crate::model::{TimedWord, WhisperWord, timed_words};
use crate::sentence::{clean_word_for_prompt_chars, prompt_word};
use crate::text::{append_chars, chars_of, decimal, decimal_chars, lit, string_of};

verus! {

/// The system message of the sentence request.
pub const SENTENCE_SYSTEM: &'static str = "You are a sentence detector for an English shadowing app. \
         You always return valid JSON with a `groups` field.";

/// The system message of the subdivision request.
pub const CHUNK_SYSTEM: &'static str = "You split English sentences into shadowing-friendly chunks for language learners. \
         You always return valid JSON with a `groups` field.";

/// What a complete sentence is, and where (not) to break.
pub const SENTENCE_INTRO: &'static str = "Split this English transcript into COMPLETE SENTENCES. \
The transcript has had punctuation removed; you must judge purely from the words \
where one sentence ends and the next begins.\n\n\
A sentence is a complete thought. Examples of where to break:\n\
- Subject change (\"...so we did that. I just got back from Coachella.\")\n\
- Topic shift (\"...is so powerful. Today we are gonna talk about...\")\n\
- After a complete clause when a new clause begins with a clear sentence-starter \
  (I, We, You, He, She, They, It, So, And then, Now, Today, Yesterday).\n\n\
DO NOT split mid-clause. Keep these together inside one sentence:\n\
- Restrictive clauses (\"...the video that he made\")\n\
- Phrases like \"even though\", \"as well as\", \"in order to\", \"a lot of\"\n\
- Subordinate clauses (\"...because\", \"...when\", \"...if\")\n\
- Predicate continuations: if you see \"...why it's\", do not stop at \"why\" — \
  \"it's\" is the start of the predicate that completes the thought.\n\n\
HARD RULE: every sentence must contain at least 6 words. NEVER emit a 1-word \
or 2-word sentence. If a clause feels short, fold it into the preceding or \
following sentence.\n\n\
Sentences may be LONG (40+ words) — there is no upper cap on sentence length. \
A subdivider runs after you to break long sentences into shadowing-sized pieces.\n\n";

/// The heading of the rules.
pub const RULES_HEADING: &'static str = "Rules:\n";

/// The rules that every window follows.
pub const SENTENCE_RULES: &'static str = "- Cover every word in order. Sentences are contiguous and non-overlapping.\n\
- Don't end a sentence on a preposition, article, conjunction, auxiliary verb, \
  or possessive pronoun unless it's clearly a sentence-ending fragment.\n";

/// The rule for a window that starts inside the transcript.
pub const SENTENCE_CONTINUES: &'static str = "- This window may BEGIN mid-sentence. Start your first range at 0 anyway.\n";

/// The rule for a window that ends before the transcript does.
pub const SENTENCE_HAS_MORE: &'static str = "- This window may END mid-sentence. Your last range must end at the final index.\n";

/// The start of the rule on the last index of a sentence window.
pub const SENTENCE_LAST: &'static str = "- The first range must start at 0; the last must end at index ";

/// The answer format of the sentence request, and the heading of its words.
pub const SENTENCE_FORMAT: &'static str = ".\n\nReturn ONLY JSON in this shape:\n{\"groups\":[[start_idx, end_idx], ...]}\nIndices are inclusive.\n\nWords (no punctuation):\n";

/// What the subdivision request is about.
pub const CHUNK_INTRO: &'static str = "This is ONE English sentence (or one long clause), unpunctuated. \
Split it into shadowing chunks for an ESL learner to repeat one at a time.\n\n";

/// The parts of the subdivision request's length limit.
pub const CHUNK_LIMIT_1: &'static str = "HARD LIMIT: each chunk MUST be between ";
pub const CHUNK_LIMIT_2: &'static str = " and ";
pub const CHUNK_LIMIT_3: &'static str = " words. NEVER exceed ";
pub const CHUNK_LIMIT_4: &'static str = ".\n\n";

/// Where a chunk may and may not end.
pub const CHUNK_RULES: &'static str = "Rules for where to break:\n\
- End each chunk at a natural sub-clause boundary, not mid-phrase.\n\
- Clause-starters that should BEGIN the next chunk, not end the current one:\n\
    how, why, where, when, what, who, which, that, if, because, since, although, \
    while, before, after, until, unless, and, but, so, or.\n\
- Never split fixed phrases: \"even though\", \"as well as\", \"in order to\", \
  \"a lot of\", \"kind of\", \"sort of\", \"because of\".\n\
- Don't end a chunk on these stop words: a, an, the, of, to, for, in, on, at, \
  with, by, from, is, was, are, were, am, be, been, being, have, has, had, \
  do, does, did, will, would, can, could, should, may, might, and, but, or, \
  so, that, which, who, whose, your, my, his, her, their, its, our, very, \
  really, pretty, just.\n\
- Cover every word in order. Chunks are contiguous and non-overlapping.\n";

/// The start of the rule on the last index of a long sentence.
pub const CHUNK_LAST: &'static str = "- The first chunk must start at 0; the last must end at index ";

/// The answer format of the subdivision request, and the heading of its
/// words.
pub const CHUNK_FORMAT: &'static str = ".\n\nReturn ONLY JSON:\n{\"groups\":[[start_idx, end_idx], ...]}\nIndices are inclusive.\n\nWords:\n";

/// The fewest words the subdivision request asks for.
pub const CHUNK_MIN_WORDS: u32 = 4;

/// The line of word `i`: its index in brackets, then the word as the
/// model sees it, or `_` when nothing of it is left.
pub open spec fn word_line(i: nat, w: Seq<char>) -> Seq<char> {
    let c = prompt_word(w);
    "["@ + decimal(i) + "] "@ + (if c.len() == 0 { "_"@ } else { c }) + "\n"@
}

/// The numbered word lines of a request.
pub open spec fn word_lines(ws: Seq<TimedWord>) -> Seq<char>
    decreases ws.len(),
{
    if ws.len() == 0 {
        seq![]
    } else {
        word_lines(ws.drop_last()) + word_line((ws.len() - 1) as nat, ws.last().text)
    }
}

/// The last index of a list of `n` words (0 when there are none).
pub open spec fn last_index(n: nat) -> nat {
    if n == 0 { 0 } else { (n - 1) as nat }
}

/// The sentence request for a window of words.
pub open spec fn sentence_prompt_spec(ws: Seq<TimedWord>, is_continuation: bool, has_more: bool) -> Seq<char> {
    SENTENCE_INTRO@ + RULES_HEADING@ + SENTENCE_RULES@
        + (if is_continuation { SENTENCE_CONTINUES@ } else { seq![] })
        + (if has_more { SENTENCE_HAS_MORE@ } else { seq![] })
        + SENTENCE_LAST@ + decimal(last_index(ws.len())) + SENTENCE_FORMAT@
        + word_lines(ws)
}

/// The subdivision request for the words of one long sentence.
pub open spec fn chunk_prompt_spec(ws: Seq<TimedWord>, max_words: u32) -> Seq<char> {
    CHUNK_INTRO@ + CHUNK_LIMIT_1@ + decimal(CHUNK_MIN_WORDS as nat) + CHUNK_LIMIT_2@
        + decimal(max_words as nat) + CHUNK_LIMIT_3@ + decimal(max_words as nat) + CHUNK_LIMIT_4@
        + CHUNK_RULES@ + CHUNK_LAST@ + decimal(last_index(ws.len())) + CHUNK_FORMAT@
        + word_lines(ws)
}

/// Appends the numbered word lines of `words` to `out`.
fn push_word_lines(out: &mut Vec<char>, words: &[WhisperWord])
    ensures
        final(out)@ == old(out)@ + word_lines(timed_words(words@)),
{
    let ghost o = out@;
    let ghost tw = timed_words(words@);
    let mut i: usize = 0;
    assert(tw.take(0) =~= Seq::<TimedWord>::empty());
    while i < words.len()
        invariant
            i <= words@.len(),
            tw == timed_words(words@),
            out@ == o + word_lines(tw.take(i as int)),
        decreases words@.len() - i,
    {
        assert(tw.take(i + 1).drop_last() =~= tw.take(i as int));
        assert(tw.take(i + 1).last() == tw[i as int]);
        let cleaned = clean_word_for_prompt_chars(&chars_of(words[i].word.as_str()));
        let mut line = lit("[");
        append_chars(&mut line, &decimal_chars(i as u64));
        append_chars(&mut line, &lit("] "));
        if cleaned.len() == 0 {
            append_chars(&mut line, &lit("_"));
        } else {
            append_chars(&mut line, &cleaned);
        }
        append_chars(&mut line, &lit("\n"));
        assert(line@ == word_line(i as nat, tw[i as int].text));
        append_chars(out, &line);
        assert(out@ =~= o + word_lines(tw.take(i + 1)));
        i += 1;
    }
    assert(tw.take(words@.len() as int) =~= tw);
}

/// The sentence request for a window of words (see `sentence_prompt_spec`):
/// `is_continuation` when the window starts inside the transcript,
/// `has_more` when more words follow it.
pub fn prompt_pass_a(words: &[WhisperWord], is_continuation: bool, has_more: bool) -> (r: String)
    ensures
        r@ == sentence_prompt_spec(timed_words(words@), is_continuation, has_more),
{
    let last_idx: usize = if words.len() == 0 { 0 } else { words.len() - 1 };
    let mut s = lit(SENTENCE_INTRO);
    append_chars(&mut s, &lit(RULES_HEADING));
    append_chars(&mut s, &lit(SENTENCE_RULES));
    let ghost s0 = s@;
    if is_continuation {
        append_chars(&mut s, &lit(SENTENCE_CONTINUES));
    } else {
        assert(s@ =~= s0 + Seq::<char>::empty());
    }
    let ghost s1 = s@;
    if has_more {
        append_chars(&mut s, &lit(SENTENCE_HAS_MORE));
    } else {
        assert(s@ =~= s1 + Seq::<char>::empty());
    }
    append_chars(&mut s, &lit(SENTENCE_LAST));
    append_chars(&mut s, &decimal_chars(last_idx as u64));
    append_chars(&mut s, &lit(SENTENCE_FORMAT));
    push_word_lines(&mut s, words);
    string_of(&s)
}

/// The subdivision request for the words of one long sentence, asking for
/// chunks of 4 to `max_words` words (see `chunk_prompt_spec`).
pub fn prompt_pass_b(words: &[WhisperWord], max_words: u32) -> (r: String)
    ensures
        r@ == chunk_prompt_spec(timed_words(words@), max_words),
{
    let last_idx: usize = if words.len() == 0 { 0 } else { words.len() - 1 };
    let mut s = lit(CHUNK_INTRO);
    append_chars(&mut s, &lit(CHUNK_LIMIT_1));
    append_chars(&mut s, &decimal_chars(CHUNK_MIN_WORDS as u64));
    append_chars(&mut s, &lit(CHUNK_LIMIT_2));
    append_chars(&mut s, &decimal_chars(max_words as u64));
    append_chars(&mut s, &lit(CHUNK_LIMIT_3));
    append_chars(&mut s, &decimal_chars(max_words as u64));
    append_chars(&mut s, &lit(CHUNK_LIMIT_4));
    append_chars(&mut s, &lit(CHUNK_RULES));
    append_chars(&mut s, &lit(CHUNK_LAST));
    append_chars(&mut s, &decimal_chars(last_idx as u64));
    append_chars(&mut s, &lit(CHUNK_FORMAT));
    push_word_lines(&mut s, words);
    string_of(&s)
}

} // verus!
