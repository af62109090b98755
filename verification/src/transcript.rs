//! Turning the recogniser's raw output into timed segments and words.

use vstd::prelude::*;
use crate::model::{WhisperWord, WhisperSegment, TimedWord, timed_words, timed_segments};
use crate::text::{CharClass, chars_of, trim, trim_start, trim_chars, trim_start_chars, string_of, append_chars};

verus! {

/// One sub-word token of the recogniser, with its offsets in milliseconds.
#[derive(Debug, Clone)]
pub struct RawToken {
    pub text: String,
    pub from_ms: i64,
    pub to_ms: i64,
}

/// One segment of the recogniser, with its offsets and tokens.
#[derive(Debug, Clone)]
pub struct RawSegment {
    pub text: String,
    pub from_ms: i64,
    pub to_ms: i64,
    pub tokens: Vec<RawToken>,
}

pub struct TokenView {
    pub text: Seq<char>,
    pub from: int,
    pub to: int,
}

pub open spec fn token_view(t: RawToken) -> TokenView {
    TokenView { text: t.text@, from: t.from_ms as int, to: t.to_ms as int }
}

pub open spec fn token_views(ts: Seq<RawToken>) -> Seq<TokenView> {
    Seq::new(ts.len(), |i: int| token_view(ts[i]))
}

/// An offset as a time of the pipeline: negative offsets count as 0, and
/// times past `u32::MAX` milliseconds are held there.
pub open spec fn offset_ms(ms: int) -> int {
    if ms < 0 { 0 } else if ms > u32::MAX { u32::MAX as int } else { ms }
}

pub fn offset_to_ms(ms: i64) -> (r: u32)
    ensures
        r as int == offset_ms(ms as int),
{
    if ms < 0 {
        0
    } else if ms > u32::MAX as i64 {
        u32::MAX
    } else {
        ms as u32
    }
}

/// Special tokens (`[_BEG_]` and the like) start with `[_`.
pub open spec fn is_special(t: Seq<char>) -> bool {
    t.len() >= 2 && t[0] == '[' && t[1] == '_'
}

/// The words after one more token: special tokens are skipped; a token
/// that starts with a space (or comes first) begins a new word; any other
/// token (punctuation, a sub-word piece) is appended to the last word and
/// extends its end.
pub open spec fn merge_step(ws: Seq<TimedWord>, t: TokenView) -> Seq<TimedWord> {
    if is_special(t.text) {
        ws
    } else if (t.text.len() > 0 && t.text[0] == ' ') || ws.len() == 0 {
        ws.push(TimedWord {
            text: trim_start(t.text, CharClass::WhiteSpace),
            start: offset_ms(t.from),
            end: offset_ms(t.to),
        })
    } else {
        ws.update(ws.len() - 1, TimedWord {
            text: ws.last().text + t.text,
            start: ws.last().start,
            end: offset_ms(t.to),
        })
    }
}

/// The words after all of `ts`, in order.
pub open spec fn merge_tokens(ws: Seq<TimedWord>, ts: Seq<TokenView>) -> Seq<TimedWord>
    decreases ts.len(),
{
    if ts.len() == 0 {
        ws
    } else {
        merge_step(merge_tokens(ws, ts.drop_last()), ts.last())
    }
}

/// Merges the recogniser's sub-word tokens into whole words, appending to
/// `out` (see `merge_step`).
pub fn merge_tokens_into(tokens: &[RawToken], out: &mut Vec<WhisperWord>)
    ensures
        timed_words(final(out)@) == merge_tokens(timed_words(old(out)@), token_views(tokens@)),
{
    let ghost w0 = timed_words(out@);
    let ghost tv = token_views(tokens@);
    let mut i: usize = 0;
    assert(tv.take(0) =~= Seq::<TokenView>::empty());
    while i < tokens.len()
        invariant
            i <= tokens@.len(),
            tv == token_views(tokens@),
            timed_words(out@) == merge_tokens(w0, tv.take(i as int)),
        decreases tokens@.len() - i,
    {
        assert(tv.take(i + 1).drop_last() =~= tv.take(i as int));
        assert(tv.take(i + 1).last() == token_view(tokens@[i as int]));
        let t = &tokens[i];
        let text = chars_of(t.text.as_str());
        let ghost before = timed_words(out@);
        if text.len() >= 2 && text[0] == '[' && text[1] == '_' {
        } else if (text.len() > 0 && text[0] == ' ') || out.len() == 0 {
            let w = trim_start_chars(&text, CharClass::WhiteSpace);
            out.push(WhisperWord {
                word: string_of(&w),
                start_ms: offset_to_ms(t.from_ms),
                end_ms: offset_to_ms(t.to_ms),
            });
            assert(timed_words(out@) =~= merge_step(before, tv[i as int]));
        } else {
            let last_i: usize = out.len() - 1;
            let mut joined = chars_of(out[last_i].word.as_str());
            append_chars(&mut joined, &text);
            let start = out[last_i].start_ms;
            out.set(last_i, WhisperWord {
                word: string_of(&joined),
                start_ms: start,
                end_ms: offset_to_ms(t.to_ms),
            });
            assert(timed_words(out@) =~= merge_step(before, tv[i as int]));
        }
        i += 1;
    }
    assert(tv.take(tokens@.len() as int) =~= tv);
}

/// The segments and words of a local transcription: segments whose trimmed
/// text is empty are dropped (their tokens too); the others keep their
/// trimmed text and offsets, and their tokens are merged into words.
pub open spec fn assemble_spec(segs: Seq<RawSegment>) -> (Seq<TimedWord>, Seq<TimedWord>)
    decreases segs.len(),
{
    if segs.len() == 0 {
        (seq![], seq![])
    } else {
        let (ss, ws) = assemble_spec(segs.drop_last());
        let s = segs.last();
        let t = trim(s.text@);
        if t.len() == 0 {
            (ss, ws)
        } else {
            (
                ss.push(TimedWord { text: t, start: offset_ms(s.from_ms as int), end: offset_ms(s.to_ms as int) }),
                merge_tokens(ws, token_views(s.tokens@)),
            )
        }
    }
}

/// `b` keeps the words of `a`: every word but the last unchanged, and the
/// last with the same start and its text extended (later tokens that
/// continue it, such as punctuation, are appended to it).
pub open spec fn keeps_words(a: Seq<TimedWord>, b: Seq<TimedWord>) -> bool {
    &&& a.len() <= b.len()
    &&& forall|i: int| 0 <= i < a.len() - 1 ==> #[trigger] b[i] == a[i]
    &&& a.len() > 0 ==> b[a.len() - 1].start == a.last().start && a.last().text.is_prefix_of(b[a.len() - 1].text)
}

proof fn lemma_keeps_words_trans(a: Seq<TimedWord>, b: Seq<TimedWord>, c: Seq<TimedWord>)
    requires
        keeps_words(a, b),
        keeps_words(b, c),
    ensures
        keeps_words(a, c),
{
    if a.len() > 0 {
        let j = a.len() - 1;
        assert forall|i: int| 0 <= i < a.len() - 1 implies #[trigger] c[i] == a[i] by {
            assert(b[i] == a[i]);
            assert(c[i] == b[i]);
        }
        if j < b.len() - 1 {
            assert(c[j] == b[j]);
        } else {
            assert(b[j].text.is_prefix_of(c[j].text));
            assert(a.last().text.is_prefix_of(b[j].text));
            assert(a.last().text =~= c[j].text.subrange(0, a.last().text.len() as int));
        }
    }
}

proof fn lemma_keeps_words_refl(a: Seq<TimedWord>)
    ensures
        keeps_words(a, a),
{
    if a.len() > 0 {
        assert(a.last().text =~= a.last().text.subrange(0, a.last().text.len() as int));
    }
}

proof fn lemma_merge_keeps(ws: Seq<TimedWord>, ts: Seq<TokenView>)
    ensures
        keeps_words(ws, merge_tokens(ws, ts)),
    decreases ts.len(),
{
    if ts.len() == 0 {
        lemma_keeps_words_refl(ws);
    } else {
        let m = merge_tokens(ws, ts.drop_last());
        lemma_merge_keeps(ws, ts.drop_last());
        let t = ts.last();
        let r = merge_step(m, t);
        if is_special(t.text) {
            lemma_keeps_words_refl(m);
        } else if (t.text.len() > 0 && t.text[0] == ' ') || m.len() == 0 {
            lemma_keeps_words_refl(m);
            assert forall|i: int| 0 <= i < m.len() - 1 implies #[trigger] r[i] == m[i] by {}
            if m.len() > 0 {
                assert(r[m.len() - 1] == m.last());
                assert(m.last().text =~= r[m.len() - 1].text.subrange(0, m.last().text.len() as int));
            }
        } else {
            assert(m.last().text =~= r[m.len() - 1].text.subrange(0, m.last().text.len() as int));
        }
        lemma_keeps_words_trans(ws, m, r);
    }
}

proof fn lemma_assemble_keeps(segs: Seq<RawSegment>, k: int)
    requires
        0 <= k <= segs.len(),
    ensures
        keeps_words(assemble_spec(segs.take(k)).1, assemble_spec(segs).1),
    decreases segs.len() - k,
{
    if k == segs.len() {
        assert(segs.take(k) =~= segs);
        lemma_keeps_words_refl(assemble_spec(segs).1);
    } else {
        lemma_assemble_keeps(segs, k + 1);
        let a = assemble_spec(segs.take(k)).1;
        let b = assemble_spec(segs.take(k + 1)).1;
        assert(segs.take(k + 1).drop_last() =~= segs.take(k));
        assert(segs.take(k + 1).last() == segs[k]);
        if trim(segs[k].text@).len() == 0 {
            lemma_keeps_words_refl(a);
        } else {
            lemma_merge_keeps(a, token_views(segs[k].tokens@));
        }
        lemma_keeps_words_trans(a, b, assemble_spec(segs).1);
    }
}

/// Law: assembling more segments never loses words: the words of the first
/// `k` segments are kept, in order, by the words of all of them (only the
/// last one may grow, when the next segment's first token continues it);
/// a segment with text adds its own words after them, and a blank one
/// adds nothing.
pub proof fn lemma_transcript_words_grow(segs: Seq<RawSegment>, k: int)
    requires
        0 <= k <= segs.len(),
    ensures
        keeps_words(assemble_spec(segs.take(k)).1, assemble_spec(segs).1),
        k < segs.len() && trim(segs[k].text@).len() == 0 ==> assemble_spec(segs.take(k + 1))
            == assemble_spec(segs.take(k)),
{
    lemma_assemble_keeps(segs, k);
    if k < segs.len() {
        assert(segs.take(k + 1).drop_last() =~= segs.take(k));
        assert(segs.take(k + 1).last() == segs[k]);
    }
}

/// Builds the segments and words of a local transcription (see
/// `assemble_spec`).
pub fn assemble_transcript(raw: &Vec<RawSegment>) -> (r: (Vec<WhisperSegment>, Vec<WhisperWord>))
    ensures
        (timed_segments(r.0@), timed_words(r.1@)) == assemble_spec(raw@),
{
    let mut segments: Vec<WhisperSegment> = Vec::new();
    let mut words: Vec<WhisperWord> = Vec::new();
    let mut i: usize = 0;
    assert(raw@.take(0) =~= Seq::<RawSegment>::empty());
    assert(timed_segments(segments@) =~= Seq::<TimedWord>::empty());
    assert(timed_words(words@) =~= Seq::<TimedWord>::empty());
    while i < raw.len()
        invariant
            i <= raw@.len(),
            (timed_segments(segments@), timed_words(words@)) == assemble_spec(raw@.take(i as int)),
        decreases raw@.len() - i,
    {
        assert(raw@.take(i + 1).drop_last() =~= raw@.take(i as int));
        assert(raw@.take(i + 1).last() == raw@[i as int]);
        let seg = &raw[i];
        let t = trim_chars(&chars_of(seg.text.as_str()), CharClass::WhiteSpace);
        if t.len() > 0 {
            let ghost before = timed_segments(segments@);
            segments.push(WhisperSegment {
                text: string_of(&t),
                start_ms: offset_to_ms(seg.from_ms),
                end_ms: offset_to_ms(seg.to_ms),
            });
            assert(timed_segments(segments@) =~= before.push(TimedWord {
                text: t@,
                start: offset_ms(seg.from_ms as int),
                end: offset_ms(seg.to_ms as int),
            }));
            merge_tokens_into(&seg.tokens, &mut words);
        }
        i += 1;
    }
    assert(raw@.take(raw@.len() as int) =~= raw@);
    (segments, words)
}

/// The segments of a cloud transcription as the pipeline keeps them: each
/// with its text trimmed, none dropped.
pub open spec fn trimmed_segments(segs: Seq<TimedWord>) -> Seq<TimedWord> {
    Seq::new(segs.len(), |i: int| TimedWord { text: trim(segs[i].text), ..segs[i] })
}

/// Trims the text of every segment of a cloud transcription.
pub fn trim_segment_texts(segs: &Vec<WhisperSegment>) -> (r: Vec<WhisperSegment>)
    ensures
        timed_segments(r@) == trimmed_segments(timed_segments(segs@)),
{
    let ghost target = trimmed_segments(timed_segments(segs@));
    let mut out: Vec<WhisperSegment> = Vec::new();
    let mut i: usize = 0;
    while i < segs.len()
        invariant
            i <= segs@.len(),
            target == trimmed_segments(timed_segments(segs@)),
            timed_segments(out@) == target.take(i as int),
        decreases segs@.len() - i,
    {
        let t = trim_chars(&chars_of(segs[i].text.as_str()), CharClass::WhiteSpace);
        let ghost before = timed_segments(out@);
        out.push(WhisperSegment { text: string_of(&t), start_ms: segs[i].start_ms, end_ms: segs[i].end_ms });
        assert(timed_segments(out@) =~= before.push(target[i as int]));
        i += 1;
        assert(timed_segments(out@) =~= target.take(i as int));
    }
    assert(target.take(i as int) =~= target);
    out
}

/// The times at which segments end a sentence (trimmed text ending in `.`,
/// `!` or `?`), in order: a stand-in for sentence boundaries when the
/// language model is not used.
pub open spec fn sentence_ends_spec(segs: Seq<TimedWord>) -> Seq<u32>
    decreases segs.len(),
{
    if segs.len() == 0 {
        seq![]
    } else {
        let s = segs.last();
        let t = trim(s.text);
        sentence_ends_spec(segs.drop_last()) + (if t.len() > 0 && crate::text::is_sentence_end_char(t.last()) {
            seq![s.end as u32]
        } else {
            seq![]
        })
    }
}

pub fn sentence_ends_from_segments(segments: &[WhisperSegment]) -> (r: Vec<u32>)
    ensures
        r@ == sentence_ends_spec(timed_segments(segments@)),
{
    let ghost ts = timed_segments(segments@);
    let mut out: Vec<u32> = Vec::new();
    let mut i: usize = 0;
    assert(ts.take(0) =~= Seq::<TimedWord>::empty());
    while i < segments.len()
        invariant
            i <= segments@.len(),
            ts == timed_segments(segments@),
            out@ == sentence_ends_spec(ts.take(i as int)),
        decreases segments@.len() - i,
    {
        assert(ts.take(i + 1).drop_last() =~= ts.take(i as int));
        assert(ts.take(i + 1).last() == ts[i as int]);
        let s = &segments[i];
        let t = trim_chars(&chars_of(s.text.as_str()), CharClass::WhiteSpace);
        if t.len() > 0 && (t[t.len() - 1] == '.' || t[t.len() - 1] == '!' || t[t.len() - 1] == '?') {
            out.push(s.end_ms);
            assert(out@ =~= sentence_ends_spec(ts.take(i + 1)));
        } else {
            assert(out@ =~= sentence_ends_spec(ts.take(i + 1)));
        }
        i += 1;
    }
    assert(ts.take(segments@.len() as int) =~= ts);
    out
}

} // verus!
