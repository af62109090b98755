//! The decisions of a transcription run that do not touch the outside
//! world: which backend, which key, which chunking limits, and which clips
//! the run ends with.

use vstd::prelude::*;
use crate::error::AppError;
use crate::model::{Clip, TimedWord, WhisperSegment, WhisperWord, clips_match, spans_of, timed_segments, timed_words};
use crate::chunker::ChunkResult;
use crate::harvester::{harvest, harvest_spec};
use crate::transcript::{sentence_ends_from_segments, sentence_ends_spec};
use crate::bounds::{bounds_spec, enforce_clip_bounds};
use crate::text::{CharClass, chars_equal, chars_of, lit, string_of, trim, trim_chars};

verus! {

broadcast use vstd::string::group_string_axioms;

/// The options a run is started with. Durations are whole milliseconds.
pub struct TranscribeOptions {
    /// `"local"` (the default) or `"openai"`.
    pub backend: Option<String>,
    /// The OpenAI key typed into the settings, if any.
    pub openai_api_key: Option<String>,
    /// Cut clips with the language model when a key is available.
    pub smart_chunking: Option<bool>,
    /// Most words per clip (default 12).
    pub chunk_max_words: Option<u32>,
    /// Longest clip (default 5000 ms).
    pub chunk_max_ms: Option<u32>,
    /// Fewest words per clip (default 4).
    pub chunk_min_words: Option<u32>,
    /// Shortest clip (default 1000 ms).
    pub chunk_min_ms: Option<u32>,
    /// The chat model for the chunker (default `gpt-4o-mini`).
    pub chunking_model: Option<String>,
}

/// The chunking limits a run works with, after defaults and clamps.
pub struct ChunkSettings {
    pub smart: bool,
    pub max_words: u32,
    pub max_ms: u32,
    pub min_words: u32,
    pub min_ms: u32,
    pub model: String,
}

/// `x` brought into `lo..=hi` (`lo <= hi`).
pub open spec fn clamp_to(x: int, lo: int, hi: int) -> int {
    if x < lo { lo } else if x > hi { hi } else { x }
}

pub open spec fn or_default(x: Option<u32>, d: u32) -> int {
    match x {
        Some(v) => v as int,
        None => d as int,
    }
}

fn clamp_u32(x: u32, lo: u32, hi: u32) -> (r: u32)
    requires
        lo <= hi,
    ensures
        r == clamp_to(x as int, lo as int, hi as int),
{
    if x < lo { lo } else if x > hi { hi } else { x }
}

/// The settings of a run: most words `12` clamped to `4..=25`, longest clip
/// `5000` ms clamped to `2000..=15000`, fewest words `4` clamped to
/// `1..=` the most, shortest clip `1000` ms clamped to `0..=` the longest,
/// model `gpt-4o-mini`; smart chunking off unless asked for.
pub fn resolve_settings(opts: &TranscribeOptions) -> (r: ChunkSettings)
    ensures
        r.smart == (opts.smart_chunking == Some(true)),
        r.max_words == clamp_to(or_default(opts.chunk_max_words, 12), 4, 25),
        r.max_ms == clamp_to(or_default(opts.chunk_max_ms, 5000), 2000, 15000),
        r.min_words == clamp_to(or_default(opts.chunk_min_words, 4), 1, r.max_words as int),
        r.min_ms == clamp_to(or_default(opts.chunk_min_ms, 1000), 0, r.max_ms as int),
        r.model@ == (match opts.chunking_model {
            Some(m) => m@,
            None => "gpt-4o-mini"@,
        }),
{
    let smart = match opts.smart_chunking {
        Some(b) => b,
        None => false,
    };
    let max_words = clamp_u32(match opts.chunk_max_words { Some(v) => v, None => 12 }, 4, 25);
    let max_ms = clamp_u32(match opts.chunk_max_ms { Some(v) => v, None => 5000 }, 2000, 15000);
    let min_words = clamp_u32(match opts.chunk_min_words { Some(v) => v, None => 4 }, 1, max_words);
    let min_ms = clamp_u32(match opts.chunk_min_ms { Some(v) => v, None => 1000 }, 0, max_ms);
    let model = match &opts.chunking_model {
        Some(m) => m.clone(),
        None => String::from_str("gpt-4o-mini"),
    };
    ChunkSettings { smart, max_words, max_ms, min_words, min_ms, model }
}

/// The key a run uses: the typed key, trimmed, when it is not blank;
/// otherwise the key from the environment, if any; otherwise empty.
pub open spec fn key_spec(typed: Option<String>, env: Option<String>) -> Seq<char> {
    match typed {
        Some(t) if trim(t@).len() > 0 => trim(t@),
        _ => match env {
            Some(e) => e@,
            None => seq![],
        },
    }
}

/// Picks the OpenAI key (see `key_spec`); `env` is the value of the
/// `OPENAI_API_KEY` variable, if set.
pub fn choose_api_key(typed: &Option<String>, env: Option<String>) -> (r: String)
    ensures
        r@ == key_spec(*typed, env),
{
    if let Some(t) = typed {
        let v = trim_chars(&chars_of(t.as_str()), CharClass::WhiteSpace);
        if v.len() > 0 {
            return string_of(&v);
        }
    }
    match env {
        Some(e) => e,
        None => String::new(),
    }
}

/// Whether the run transcribes with OpenAI rather than locally: only the
/// backend name `openai` selects it.
pub fn uses_openai(backend: &Option<String>) -> (r: bool)
    ensures
        r == (backend matches Some(b) && b@ == "openai"@),
{
    match backend {
        Some(b) => chars_equal(&chars_of(b.as_str()), &lit("openai")),
        None => false,
    }
}

/// The OpenAI backend cannot run without a key.
pub fn require_openai_key(key: &str) -> (r: Result<(), AppError>)
    ensures
        r is Ok <==> key@.len() > 0,
        r matches Err(e) ==> (e matches AppError::Other(m)
            && m@ == "Add your OpenAI API key in Settings to use the OpenAI backend."@),
{
    if chars_of(key).len() == 0 {
        Err(AppError::Other(String::from_str(
            "Add your OpenAI API key in Settings to use the OpenAI backend.",
        )))
    } else {
        Ok(())
    }
}

/// Whether the clips are cut by the language model: smart chunking is on,
/// a key is available and there are words to cut.
pub fn wants_model_chunking(settings: &ChunkSettings, key: &str, words: &[WhisperWord]) -> (r: bool)
    ensures
        r == (settings.smart && key@.len() > 0 && words@.len() > 0),
{
    settings.smart && chars_of(key).len() > 0 && words.len() > 0
}

/// Whether the harvester cuts the clips: the language model was not used,
/// failed (other than by a cancellation), or gave no clips.
pub open spec fn falls_back(llm: Option<Result<ChunkResult, AppError>>) -> bool {
    match llm {
        Some(Err(AppError::Cancelled)) => false,
        Some(Ok(c)) => c.clips@.len() == 0,
        _ => true,
    }
}

/// The raw clips of a run and the sentence ends that guide merging. When
/// the language model was used (`llm` holds its outcome) and gave clips,
/// those are taken; a cancellation is passed on; in every other case the
/// harvester cuts the clips from the segments and the segments' own
/// terminators stand for the sentence ends.
pub fn select_raw_clips(
    llm: Option<Result<ChunkResult, AppError>>,
    segments: &[WhisperSegment],
    words: &[WhisperWord],
) -> (r: Result<ChunkResult, AppError>)
    ensures
        (llm matches Some(Err(AppError::Cancelled))) ==> r == llm->Some_0,
        (llm matches Some(Ok(c)) && c.clips@.len() > 0) ==> r == llm->Some_0,
        falls_back(llm) ==> (r matches Ok(c) && {
                &&& clips_match(c.clips@, harvest_spec(timed_segments(segments@), timed_words(words@)))
                &&& c.sentence_end_ms@ == sentence_ends_spec(timed_segments(segments@))
            }),
{
    match llm {
        Some(Err(AppError::Cancelled)) => Err(AppError::Cancelled),
        Some(Ok(c)) if c.clips.len() > 0 => Ok(c),
        _ => {
            let clips = harvest(segments, words);
            let ends = sentence_ends_from_segments(segments);
            Ok(ChunkResult { clips, sentence_end_ms: ends })
        },
    }
}

/// `v` is what the bounds passes make of the harvester's clips for the
/// segments `segs` and words `ws` (the harvester's clips get fresh
/// identifiers, so they are named by `h`).
pub open spec fn harvested_clips(
    v: Seq<Clip>,
    segs: Seq<TimedWord>,
    ws: Seq<TimedWord>,
    max_words: u32,
    max_ms: u32,
    min_words: u32,
    min_ms: u32,
) -> bool {
    exists|h: Seq<Clip>| {
        &&& clips_match(h, harvest_spec(segs, ws))
        &&& #[trigger] clips_match(
            v,
            bounds_spec(spans_of(h), sentence_ends_spec(segs), ws, max_words, max_ms, min_words, min_ms),
        )
    }
}

/// The clips a run ends with: the raw clips chosen by `select_raw_clips`,
/// put through the bounds passes with the run's settings.
pub fn final_clips(
    llm: Option<Result<ChunkResult, AppError>>,
    segments: &[WhisperSegment],
    words: &[WhisperWord],
    settings: &ChunkSettings,
) -> (r: Result<Vec<Clip>, AppError>)
    ensures
        (llm matches Some(Err(AppError::Cancelled))) <==> r matches Err(AppError::Cancelled),
        r is Err ==> r matches Err(AppError::Cancelled),
        (llm matches Some(Ok(c)) && c.clips@.len() > 0) ==> (r matches Ok(v) && clips_match(
            v@,
            bounds_spec(
                spans_of(llm->Some_0->Ok_0.clips@),
                llm->Some_0->Ok_0.sentence_end_ms@,
                timed_words(words@),
                settings.max_words,
                settings.max_ms,
                settings.min_words,
                settings.min_ms,
            ),
        )),
        falls_back(llm) ==> (r matches Ok(v) && harvested_clips(
            v@,
            timed_segments(segments@),
            timed_words(words@),
            settings.max_words,
            settings.max_ms,
            settings.min_words,
            settings.min_ms,
        )),
{
    let ghost fallback = falls_back(llm);
    let raw = select_raw_clips(llm, segments, words);
    assert(fallback ==> raw is Ok);
    match raw {
        Err(e) => Err(e),
        Ok(c) => {
            let ghost h = c.clips@;
            assert(fallback ==> clips_match(h, harvest_spec(timed_segments(segments@), timed_words(words@))));
            assert(fallback ==> c.sentence_end_ms@ == sentence_ends_spec(timed_segments(segments@)));
            let clips = enforce_clip_bounds(
                c.clips,
                c.sentence_end_ms.as_slice(),
                words,
                settings.max_words,
                settings.max_ms,
                settings.min_words,
                settings.min_ms,
            );
            assert(clips_match(
                clips@,
                bounds_spec(
                    spans_of(h),
                    c.sentence_end_ms@,
                    timed_words(words@),
                    settings.max_words,
                    settings.max_ms,
                    settings.min_words,
                    settings.min_ms,
                ),
            ));
            proof {
                if fallback {
                    assert(clips_match(
                        clips@,
                        bounds_spec(
                            spans_of(h),
                            sentence_ends_spec(timed_segments(segments@)),
                            timed_words(words@),
                            settings.max_words,
                            settings.max_ms,
                            settings.min_words,
                            settings.min_ms,
                        ),
                    ));
                    assert(harvested_clips(
                        clips@,
                        timed_segments(segments@),
                        timed_words(words@),
                        settings.max_words,
                        settings.max_ms,
                        settings.min_words,
                        settings.min_ms,
                    ));
                }
            }
            Ok(clips)
        },
    }
}

/// Most words per clip for a run with the options `o` (see `resolve_settings`).
pub open spec fn run_max_words(o: TranscribeOptions) -> u32 {
    clamp_to(or_default(o.chunk_max_words, 12), 4, 25) as u32
}

/// Longest clip for a run with the options `o`.
pub open spec fn run_max_ms(o: TranscribeOptions) -> u32 {
    clamp_to(or_default(o.chunk_max_ms, 5000), 2000, 15000) as u32
}

/// Fewest words per clip for a run with the options `o`.
pub open spec fn run_min_words(o: TranscribeOptions) -> u32 {
    clamp_to(or_default(o.chunk_min_words, 4), 1, run_max_words(o) as int) as u32
}

/// Shortest clip for a run with the options `o`.
pub open spec fn run_min_ms(o: TranscribeOptions) -> u32 {
    clamp_to(or_default(o.chunk_min_ms, 1000), 0, run_max_ms(o) as int) as u32
}

/// The clips a run with the options `opts` ends with, `llm` being the
/// outcome of the language-model chunker when it was used: its clips when
/// it gave some, else the harvester's, put through the bounds passes with
/// the run's limits (most words `12` clamped to `4..=25`, longest clip
/// `5000` ms clamped to `2000..=15000`, fewest words `4` clamped to `1..=`
/// the most, shortest clip `1000` ms clamped to `0..=` the longest); a
/// cancellation is passed on, and nothing else fails.
pub fn clips_for_run(
    opts: &TranscribeOptions,
    llm: Option<Result<ChunkResult, AppError>>,
    segments: &[WhisperSegment],
    words: &[WhisperWord],
) -> (r: Result<Vec<Clip>, AppError>)
    ensures
        (llm matches Some(Err(AppError::Cancelled))) <==> r matches Err(AppError::Cancelled),
        r is Err ==> r matches Err(AppError::Cancelled),
        (llm matches Some(Ok(c)) && c.clips@.len() > 0) ==> (r matches Ok(v) && clips_match(
            v@,
            bounds_spec(
                spans_of(llm->Some_0->Ok_0.clips@),
                llm->Some_0->Ok_0.sentence_end_ms@,
                timed_words(words@),
                run_max_words(*opts),
                run_max_ms(*opts),
                run_min_words(*opts),
                run_min_ms(*opts),
            ),
        )),
        falls_back(llm) ==> (r matches Ok(v) && harvested_clips(
            v@,
            timed_segments(segments@),
            timed_words(words@),
            run_max_words(*opts),
            run_max_ms(*opts),
            run_min_words(*opts),
            run_min_ms(*opts),
        )),
{
    let settings = resolve_settings(opts);
    final_clips(llm, segments, words, &settings)
}

/// Whether a finished run still owns the job slot and should clear it: only
/// when the slot holds this run's video.
pub fn owns_slot(slot: &Option<String>, video_id: &str) -> (r: bool)
    ensures
        r == (slot matches Some(v) && v@ == video_id@),
{
    match slot {
        Some(v) => chars_equal(&chars_of(v.as_str()), &chars_of(video_id)),
        None => false,
    }
}

} // verus!
