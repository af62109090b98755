//! The per-video transcript cache: what an entry holds, when a stored entry
//! may be used again, and the newest-first listing of the library.
//!
//! Reading and writing the files is the application's part; this module
//! decides what goes into an entry and what comes out of one.

use vstd::prelude::*;
use crate::error::AppError;
use crate::text::{append_chars, chars_equal, chars_of, lit, string_of};
use crate::model::{Clip, TranscribeResult, WhisperSegment, WhisperWord};

verus! {

/// The schema version that entries are written with; entries of any other
/// version are ignored.
pub const SCHEMA: u32 = 1;

/// One cached transcription, as stored on disk.
pub struct CacheEntry {
    pub schema_v: u32,
    pub video_id: String,
    pub title: Option<String>,
    pub audio_path: String,
    pub clips: Vec<Clip>,
    /// Unix seconds at which the entry was written.
    pub fetched_at: i64,
    /// The raw transcript, kept so that a video can be cut again without
    /// transcribing it a second time.
    pub segments: Option<Vec<WhisperSegment>>,
    pub words: Option<Vec<WhisperWord>>,
}

/// One line of the library list.
pub struct VideoSummary {
    pub video_id: String,
    pub title: Option<String>,
    pub clip_count: usize,
    pub fetched_at: i64,
    pub audio_path: String,
}

// ───────────────────────── the clock ─────────────────────────

#[verifier::external_type_specification]
#[verifier::external_body]
pub struct ExSystemTime(std::time::SystemTime);

/// `std::time::SystemTime::now`: the current wall-clock time. It depends
/// on the machine's clock, so nothing is stated of it.
#[verifier::external_body]
fn system_now() -> (t: std::time::SystemTime) {
    std::time::SystemTime::now()
}

/// `SystemTime::duration_since(UNIX_EPOCH)`: the time elapsed since the
/// epoch, or `None` when `t` lies before it. Which of the two comes back
/// depends on the clock, so nothing is stated of it.
#[verifier::external_body]
fn since_epoch(t: &std::time::SystemTime) -> (r: Option<core::time::Duration>) {
    match t.duration_since(std::time::UNIX_EPOCH) {
        Ok(d) => Some(d),
        Err(_) => None,
    }
}

/// `Duration::as_secs`: the whole seconds of `d`. The value rests on a
/// clock reading, so nothing is stated of it.
#[verifier::external_body]
fn whole_secs(d: &core::time::Duration) -> (r: u64) {
    d.as_secs()
}

/// Unix seconds from a reading of the clock: the seconds since the epoch,
/// taken as `i64` the way `as` does it, or 0 when the clock stood before
/// the epoch.
pub open spec fn unix_from(secs: Option<u64>) -> i64 {
    match secs {
        Some(s) => s as i64,
        None => 0,
    }
}

/// Turns a reading of the clock into unix seconds (see `unix_from`).
pub fn unix_seconds(secs: Option<u64>) -> (r: i64)
    ensures
        r == unix_from(secs),
{
    match secs {
        Some(s) => s as i64,
        None => 0,
    }
}

/// The current time in unix seconds, 0 when the clock reads before 1970:
/// the clock reading turned into seconds by `unix_seconds`. The value
/// depends on the clock, so the contract states nothing of it.
pub fn now_unix() -> i64 {
    let now = system_now();
    let secs = match since_epoch(&now) {
        Some(d) => Some(whole_secs(&d)),
        None => None,
    };
    unix_seconds(secs)
}

// ───────────────────────── entries ─────────────────────────

/// The file name of the entry for `video_id`.
pub fn entry_file_name(video_id: &str) -> (r: String)
    ensures
        r@ == video_id@ + ".json"@,
{
    let mut v = chars_of(video_id);
    append_chars(&mut v, &chars_of(".json"));
    string_of(&v)
}

/// A copy of an optional string.
fn copy_title(t: &Option<String>) -> (r: Option<String>)
    ensures
        r == *t,
{
    match t {
        Some(s) => Some(s.clone()),
        None => None,
    }
}

/// The entry that caching `result` writes.
pub open spec fn entry_spec(
    result: TranscribeResult,
    fetched_at: i64,
    segments: Option<Vec<WhisperSegment>>,
    words: Option<Vec<WhisperWord>>,
) -> CacheEntry {
    CacheEntry {
        schema_v: SCHEMA,
        video_id: result.video_id,
        title: result.title,
        audio_path: result.audio_path,
        clips: result.clips,
        fetched_at,
        segments,
        words,
    }
}

/// The entry that caching `result` writes, stamped with `fetched_at` and
/// keeping the raw transcript it was cut from.
pub fn entry_for(
    result: TranscribeResult,
    fetched_at: i64,
    segments: Option<Vec<WhisperSegment>>,
    words: Option<Vec<WhisperWord>>,
) -> (e: CacheEntry)
    ensures
        e == entry_spec(result, fetched_at, segments, words),
        e.schema_v == SCHEMA,
        e.video_id == result.video_id,
        e.title == result.title,
        e.audio_path == result.audio_path,
        e.clips == result.clips,
        e.fetched_at == fetched_at,
        e.segments == segments,
        e.words == words,
{
    CacheEntry {
        schema_v: SCHEMA,
        video_id: result.video_id,
        title: result.title,
        audio_path: result.audio_path,
        clips: result.clips,
        fetched_at,
        segments,
        words,
    }
}

/// What a stored entry is good for.
pub enum Lookup {
    /// The entry can be shown again as it is.
    Hit(TranscribeResult),
    /// Written under another schema: ignore it.
    Outdated,
    /// Its audio file is gone: the entry is stale and its file is removed,
    /// so that the video is downloaded again.
    AudioGone,
}

/// What a stored entry is good for, given whether its audio file exists.
pub open spec fn lookup_spec(entry: CacheEntry, audio_exists: bool) -> Lookup {
    if entry.schema_v != SCHEMA {
        Lookup::Outdated
    } else if !audio_exists {
        Lookup::AudioGone
    } else {
        Lookup::Hit(TranscribeResult {
            video_id: entry.video_id,
            title: entry.title,
            audio_path: entry.audio_path,
            clips: entry.clips,
            from_cache: true,
        })
    }
}

/// Decides whether a stored entry can be used again, given whether its
/// audio file still exists. A usable entry comes back as a result marked
/// as coming from the cache.
pub fn check_entry(entry: CacheEntry, audio_exists: bool) -> (r: Lookup)
    ensures
        r == lookup_spec(entry, audio_exists),
        entry.schema_v != SCHEMA ==> r is Outdated,
        entry.schema_v == SCHEMA && !audio_exists ==> r is AudioGone,
        entry.schema_v == SCHEMA && audio_exists ==> (r matches Lookup::Hit(t) && {
            &&& t.video_id == entry.video_id
            &&& t.title == entry.title
            &&& t.audio_path == entry.audio_path
            &&& t.clips == entry.clips
            &&& t.from_cache
        }),
{
    if entry.schema_v != SCHEMA {
        return Lookup::Outdated;
    }
    if !audio_exists {
        return Lookup::AudioGone;
    }
    Lookup::Hit(TranscribeResult {
        video_id: entry.video_id,
        title: entry.title,
        audio_path: entry.audio_path,
        clips: entry.clips,
        from_cache: true,
    })
}

/// The message when an entry holds no transcript to cut again.
pub const NO_TRANSCRIPT: &'static str = "This video was cached before smart chunking existed. Delete it from the library and paste the URL again to enable re-chunking.";

/// The cached transcript of an entry, for cutting the video again: its
/// segments, and its words (none when only segments were kept). An entry
/// written without a transcript cannot be cut again.
pub fn stored_transcript(entry: &CacheEntry) -> (r: Result<(&Vec<WhisperSegment>, Option<&Vec<WhisperWord>>), AppError>)
    ensures
        entry.segments is None ==> (r matches Err(AppError::Other(m)) && m@ == NO_TRANSCRIPT@),
        entry.segments matches Some(s) ==> (r matches Ok((rs, rw)) && *rs == s && (match entry.words {
            Some(w) => rw == Some(&w),
            None => rw is None,
        })),
{
    match &entry.segments {
        None => Err(AppError::Other(String::from_str(NO_TRANSCRIPT))),
        Some(s) => {
            let w = match &entry.words {
                Some(w) => Some(w),
                None => None,
            };
            Ok((s, w))
        },
    }
}

/// Whether a file of the cache folder is an entry: its extension is `json`.
pub fn is_entry_extension(ext: &Option<String>) -> (r: bool)
    ensures
        r == (ext matches Some(e) && e@ == "json"@),
{
    match ext {
        Some(e) => chars_equal(&chars_of(e.as_str()), &lit("json")),
        None => false,
    }
}

/// The error when a video has no usable cache entry.
pub fn no_cached_entry(video_id: &str) -> (e: AppError)
    ensures
        e matches AppError::Other(m) && m@ == "no cached entry for "@ + video_id@,
{
    let mut v = lit("no cached entry for ");
    append_chars(&mut v, &chars_of(video_id));
    AppError::Other(string_of(&v))
}

/// The error when a video's audio file is gone at export time.
pub fn audio_missing(path: &str) -> (e: AppError)
    ensures
        e matches AppError::Other(m) && m@ == "audio missing on disk: "@ + path@,
{
    let mut v = lit("audio missing on disk: ");
    append_chars(&mut v, &chars_of(path));
    AppError::Other(string_of(&v))
}

/// The file name of the export bundle of `video_id`.
pub fn bundle_file_name(video_id: &str) -> (r: String)
    ensures
        r@ == video_id@ + ".shadowplay"@,
{
    let mut v = chars_of(video_id);
    append_chars(&mut v, &lit(".shadowplay"));
    string_of(&v)
}

/// The names of the two files inside an export bundle.
pub const BUNDLE_TRANSCRIPT: &'static str = "transcript.json";
pub const BUNDLE_AUDIO: &'static str = "audio.m4a";

/// Whether a file in the audio folder belongs to `video_id`: its name
/// without extension is the id.
pub fn is_audio_of(file_stem: &Option<String>, video_id: &str) -> (r: bool)
    ensures
        r == (file_stem matches Some(s) && s@ == video_id@),
{
    match file_stem {
        Some(s) => chars_equal(&chars_of(s.as_str()), &chars_of(video_id)),
        None => false,
    }
}

/// Reading back what was cached: an entry written for `result` gives back
/// `result` itself, marked as coming from the cache, as long as its audio
/// file is still there; once the audio is gone, the entry is stale.
pub proof fn lemma_cache_round_trip(
    result: TranscribeResult,
    fetched_at: i64,
    segments: Option<Vec<WhisperSegment>>,
    words: Option<Vec<WhisperWord>>,
)
    ensures
        lookup_spec(entry_spec(result, fetched_at, segments, words), true)
            == Lookup::Hit(TranscribeResult { from_cache: true, ..result }),
        lookup_spec(entry_spec(result, fetched_at, segments, words), false) is AudioGone,
{
}

// ───────────────────────── the library list ─────────────────────────

/// Whether a stored entry appears in the library: written under the
/// current schema, with its audio still on disk.
pub open spec fn listed(e: (CacheEntry, bool)) -> bool {
    e.0.schema_v == SCHEMA && e.1
}

pub open spec fn summary_spec(e: CacheEntry) -> VideoSummary {
    VideoSummary {
        video_id: e.video_id,
        title: e.title,
        clip_count: e.clips.len(),
        fetched_at: e.fetched_at,
        audio_path: e.audio_path,
    }
}

/// The summaries of the listed entries, in the order the entries came.
pub open spec fn listed_summaries(es: Seq<(CacheEntry, bool)>) -> Seq<VideoSummary>
    decreases es.len(),
{
    if es.len() == 0 {
        seq![]
    } else if listed(es.last()) {
        listed_summaries(es.drop_last()).push(summary_spec(es.last().0))
    } else {
        listed_summaries(es.drop_last())
    }
}

/// `r` is `f` newest first, ties kept in their order in `f`: `p` maps each
/// place of `r` to the place in `f` it came from.
pub open spec fn newest_first_by(f: Seq<VideoSummary>, r: Seq<VideoSummary>, p: Seq<int>) -> bool {
    &&& p.len() == r.len() == f.len()
    &&& forall|k: int| 0 <= k < p.len() ==> 0 <= #[trigger] p[k] < f.len() && r[k] == f[p[k]]
    &&& forall|k: int, l: int| 0 <= k < l < p.len() ==> #[trigger] p[k] != #[trigger] p[l]
    &&& forall|k: int, l: int| 0 <= k < l < r.len() ==> {
        ||| #[trigger] r[k].fetched_at > #[trigger] r[l].fetched_at
        ||| (r[k].fetched_at == r[l].fetched_at && p[k] < p[l])
    }
}

/// `r` holds the summaries `f`, newest first, equally old ones in the order
/// of `f`.
pub open spec fn newest_first(f: Seq<VideoSummary>, r: Seq<VideoSummary>) -> bool {
    exists|p: Seq<int>| newest_first_by(f, r, p)
}

fn summary_of(e: &CacheEntry) -> (s: VideoSummary)
    ensures
        s == summary_spec(*e),
{
    VideoSummary {
        video_id: e.video_id.clone(),
        title: copy_title(&e.title),
        clip_count: e.clips.len(),
        fetched_at: e.fetched_at,
        audio_path: e.audio_path.clone(),
    }
}

/// The library list: the summary of every entry written under the current
/// schema whose audio is still on disk (the flag beside each entry),
/// newest first; entries of the same age keep their order.
pub fn summaries(entries: &Vec<(CacheEntry, bool)>) -> (r: Vec<VideoSummary>)
    ensures
        newest_first(listed_summaries(entries@), r@),
{
    let mut out: Vec<VideoSummary> = Vec::new();
    let ghost mut p: Seq<int> = seq![];
    let mut i: usize = 0;
    while i < entries.len()
        invariant
            i <= entries.len(),
            newest_first_by(listed_summaries(entries@.take(i as int)), out@, p),
        decreases entries.len() - i,
    {
        let ghost f0 = listed_summaries(entries@.take(i as int));
        assert(entries@.take(i + 1).drop_last() =~= entries@.take(i as int));
        if entries[i].0.schema_v == SCHEMA && entries[i].1 {
            let s = summary_of(&entries[i].0);
            let ghost n = f0.len() as int;
            let mut at: usize = 0;
            while at < out.len() && out[at].fetched_at >= s.fetched_at
                invariant
                    at <= out@.len(),
                    forall|q: int| 0 <= q < at ==> (#[trigger] out@[q]).fetched_at >= s.fetched_at,
                decreases out@.len() - at,
            {
                at += 1;
            }
            proof {
                // Everything from `at` on is older than `s`.
                assert forall|q: int| at <= q < out@.len() implies (#[trigger] out@[q]).fetched_at
                    < s.fetched_at by {
                    if q > at {
                        assert(out@[at as int].fetched_at >= out@[q].fetched_at);
                    }
                }
            }
            let ghost o0 = out@;
            let ghost p0 = p;
            out.insert(at, s);
            proof {
                p = p0.insert(at as int, n);
                let f1 = f0.push(summary_spec(entries@[i as int].0));
                assert(listed_summaries(entries@.take(i + 1)) == f1);
                assert forall|k: int| 0 <= k < p.len() implies 0 <= #[trigger] p[k] < f1.len()
                    && out@[k] == f1[p[k]] by {
                    if k < at {
                        assert(p[k] == p0[k]);
                        assert(out@[k] == o0[k]);
                    } else if k > at {
                        assert(p[k] == p0[k - 1]);
                        assert(out@[k] == o0[k - 1]);
                    }
                }
                assert forall|k: int, l: int| 0 <= k < l < p.len() implies #[trigger] p[k]
                    != #[trigger] p[l] by {
                    if k != at && l != at {
                        let k0 = if k < at { k } else { k - 1 };
                        let l0 = if l < at { l } else { l - 1 };
                        assert(p[k] == p0[k0]);
                        assert(p[l] == p0[l0]);
                        assert(0 <= k0 < l0 < p0.len());
                    } else if k == at {
                        let l0 = l - 1;
                        assert(p[l] == p0[l0]);
                        assert(p0[l0] < n);
                    } else {
                        assert(p[k] == p0[k]);
                        assert(p0[k] < n);
                    }
                }
                assert forall|k: int, l: int| 0 <= k < l < out@.len() implies {
                    ||| #[trigger] out@[k].fetched_at > #[trigger] out@[l].fetched_at
                    ||| (out@[k].fetched_at == out@[l].fetched_at && p[k] < p[l])
                } by {
                    if k != at && l != at {
                        let k0 = if k < at { k } else { k - 1 };
                        let l0 = if l < at { l } else { l - 1 };
                        assert(out@[k] == o0[k0] && p[k] == p0[k0]);
                        assert(out@[l] == o0[l0] && p[l] == p0[l0]);
                        assert(o0[k0].fetched_at > o0[l0].fetched_at
                            || (o0[k0].fetched_at == o0[l0].fetched_at && p0[k0] < p0[l0]));
                    } else if k == at {
                        assert(out@[l] == o0[l - 1]);
                        assert(o0[l - 1].fetched_at < s.fetched_at);
                    } else {
                        assert(out@[k] == o0[k]);
                        assert(p[k] == p0[k] && p0[k] < n);
                    }
                }
                assert(newest_first_by(f1, out@, p));
            }
        } else {
            assert(listed_summaries(entries@.take(i + 1)) == f0);
        }
        i += 1;
    }
    assert(entries@.take(i as int) =~= entries@);
    out
}

} // verus!
