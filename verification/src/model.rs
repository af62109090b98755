//! The data that flows through the pipeline.
//!
//! Times are whole milliseconds from the start of the audio.

use vstd::prelude::*;

verus! {

/// One transcribed word with its time span.
#[derive(Debug, Clone)]
pub struct WhisperWord {
    pub word: String,
    pub start_ms: u32,
    pub end_ms: u32,
}

/// One transcribed segment (a run of speech that the recogniser grouped).
#[derive(Debug, Clone)]
pub struct WhisperSegment {
    pub text: String,
    pub start_ms: u32,
    pub end_ms: u32,
}

/// A playable clip: a span of the audio and the words spoken in it.
#[derive(Debug, Clone)]
pub struct Clip {
    pub id: String,
    pub start_ms: u32,
    pub end_ms: u32,
    pub text: String,
}

/// What a finished transcription hands back to the player.
#[derive(Debug, Clone)]
pub struct TranscribeResult {
    pub video_id: String,
    pub title: Option<String>,
    pub audio_path: String,
    pub clips: Vec<Clip>,
    pub from_cache: bool,
}

/// A clip as the specifications see it. `id` is the identifier the clip
/// keeps, or `None` for a clip that gets a fresh one.
pub struct Span {
    pub id: Option<Seq<char>>,
    pub start: int,
    pub end: int,
    pub text: Seq<char>,
}

pub open spec fn span_of(c: Clip) -> Span {
    Span { id: Some(c.id@), start: c.start_ms as int, end: c.end_ms as int, text: c.text@ }
}

pub open spec fn spans_of(cs: Seq<Clip>) -> Seq<Span> {
    Seq::new(cs.len(), |i: int| span_of(cs[i]))
}

/// `c` is a clip described by `s`.
pub open spec fn clip_matches(c: Clip, s: Span) -> bool {
    &&& c.start_ms as int == s.start
    &&& c.end_ms as int == s.end
    &&& c.text@ == s.text
    &&& (s.id matches Some(id) ==> c.id@ == id)
}

/// The clips `cs` are described, in order, by `ss`.
pub open spec fn clips_match(cs: Seq<Clip>, ss: Seq<Span>) -> bool {
    &&& cs.len() == ss.len()
    &&& forall|i: int| 0 <= i < cs.len() ==> #[trigger] clip_matches(cs[i], ss[i])
}

/// A copy of `c`.
pub fn copy_clip(c: &Clip) -> (r: Clip)
    ensures
        r == *c,
        r.id@ == c.id@,
        r.start_ms == c.start_ms,
        r.end_ms == c.end_ms,
        r.text@ == c.text@,
{
    Clip { id: c.id.clone(), start_ms: c.start_ms, end_ms: c.end_ms, text: c.text.clone() }
}

/// A word as the specifications see it.
pub struct TimedWord {
    pub text: Seq<char>,
    pub start: int,
    pub end: int,
}

pub open spec fn timed_word(w: WhisperWord) -> TimedWord {
    TimedWord { text: w.word@, start: w.start_ms as int, end: w.end_ms as int }
}

pub open spec fn timed_words(ws: Seq<WhisperWord>) -> Seq<TimedWord> {
    Seq::new(ws.len(), |i: int| timed_word(ws[i]))
}

pub open spec fn timed_segment(s: WhisperSegment) -> TimedWord {
    TimedWord { text: s.text@, start: s.start_ms as int, end: s.end_ms as int }
}

pub open spec fn timed_segments(ss: Seq<WhisperSegment>) -> Seq<TimedWord> {
    Seq::new(ss.len(), |i: int| timed_segment(ss[i]))
}

/// A fresh random clip identifier: `uuid::Uuid::new_v4` rendered by its
/// `Display`, the hyphenated form of 36 characters. The value is random, so
/// nothing else is stated of it.
#[verifier::external_body]
pub(crate) fn new_clip_id() -> (id: String)
    ensures
        id@.len() == 36,
{
    uuid::Uuid::new_v4().to_string()
}

} // verus!
