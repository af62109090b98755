use shadowplay::bounds::{boundary_fix, enforce_clip_bounds, enforce_max, join_clips, piece_time};
use shadowplay::cache::{
    check_entry, entry_file_name, entry_for, now_unix, stored_transcript, summaries, unix_seconds,
    CacheEntry, Lookup, SCHEMA,
};
use shadowplay::chunker::{
    assemble_chunks, build_one_clip, capitalize_first_and_terminate, check_api_key, chunks_for_sentences,
    clean_word_for_prompt, collect_sentences, finish_chunks, groups_to_pairs, is_sentence_end,
    offset_ranges, oversized, pick_model, plan_windows, split_text_into_pieces, strip_for_check,
    sub_chunks, validate_and_repair, ChunkResult,
};
use shadowplay::error::AppError;
use shadowplay::harvester::{
    capitalize_first, harvest, normalize_sentence, split_into_sentences, strip_punct,
};
use shadowplay::model::{Clip, TranscribeResult, WhisperSegment, WhisperWord};
use shadowplay::prompts::{prompt_pass_a, prompt_pass_b};
use shadowplay::settings::{
    choose_api_key, clips_for_run, final_clips, owns_slot, require_openai_key, resolve_settings,
    select_raw_clips, uses_openai, wants_model_chunking, ChunkSettings, TranscribeOptions,
};
use shadowplay::tools::{
    check_exit, download_missing, download_progress, ffmpeg_args, is_audio_extension,
    output_pattern, read_download_line, thread_count, wav_missing, whisper_args,
    whisper_json_missing, whisper_line, ytdlp_args, pick_download, DownloadLine, DownloadProgress, Tool,
};
use shadowplay::transcript::{
    assemble_transcript, offset_to_ms, sentence_ends_from_segments, trim_segment_texts,
    RawSegment, RawToken,
};
use shadowplay::video::{is_valid_id, parse_video_id};

fn word(w: &str, start_ms: u32, end_ms: u32) -> WhisperWord {
    WhisperWord { word: w.into(), start_ms, end_ms }
}

fn seg(text: &str, start_ms: u32, end_ms: u32) -> WhisperSegment {
    WhisperSegment { text: text.into(), start_ms, end_ms }
}

fn clip(id: &str, start_ms: u32, end_ms: u32, text: &str) -> Clip {
    Clip { id: id.into(), start_ms, end_ms, text: text.into() }
}

fn words_of(text: &str, step_ms: u32) -> Vec<WhisperWord> {
    text.split_whitespace()
        .enumerate()
        .map(|(i, w)| word(w, i as u32 * step_ms, (i as u32 + 1) * step_ms))
        .collect()
}

// ───────────── video ids ─────────────

#[test]
fn video_id_from_short_link() {
    assert_eq!(parse_video_id("https://youtu.be/dQw4w9WgXcQ").unwrap(), "dQw4w9WgXcQ");
}

#[test]
fn video_id_from_watch_link() {
    let id = parse_video_id("https://www.youtube.com/watch?v=dQw4w9WgXcQ&t=42").unwrap();
    assert_eq!(id, "dQw4w9WgXcQ");
}

#[test]
fn video_id_from_shorts_and_embed() {
    assert_eq!(parse_video_id("https://youtube.com/shorts/abcdefghijk").unwrap(), "abcdefghijk");
    assert_eq!(parse_video_id("https://www.youtube.com/embed/A_b-C_d-E_f").unwrap(), "A_b-C_d-E_f");
}

#[test]
fn video_id_host_is_case_insensitive() {
    assert_eq!(parse_video_id("https://WWW.YouTube.COM/watch?v=dQw4w9WgXcQ").unwrap(), "dQw4w9WgXcQ");
}

#[test]
fn video_id_rejects_other_links() {
    assert!(matches!(parse_video_id("not a url"), Err(AppError::InvalidUrl)));
    assert!(matches!(parse_video_id("https://example.com/watch?v=dQw4w9WgXcQ"), Err(AppError::InvalidUrl)));
    assert!(matches!(parse_video_id("https://youtu.be/short"), Err(AppError::InvalidUrl)));
    assert!(matches!(parse_video_id("https://www.youtube.com/watch?v=bad!idxxxxx"), Err(AppError::InvalidUrl)));
}

#[test]
fn valid_ids() {
    assert!(is_valid_id("dQw4w9WgXcQ"));
    assert!(is_valid_id("___________"));
    assert!(!is_valid_id("dQw4w9WgXc"));
    assert!(!is_valid_id("dQw4w9WgXcQQ"));
    assert!(!is_valid_id("dQw4w9WgXc!"));
    assert!(!is_valid_id("dQw4w9WgXcé"));
}

// ───────────── text shaping ─────────────

#[test]
fn sentence_split_keeps_terminators() {
    let s = split_into_sentences("Hi there. How are you?  Fine.5 ok");
    assert_eq!(s, vec!["Hi there.".to_string(), "How are you?".to_string(), "Fine.5 ok".to_string()]);
    assert!(split_into_sentences("   ").is_empty());
    assert_eq!(split_into_sentences("One. "), vec!["One.".to_string()]);
}

#[test]
fn normalize_strips_junk_and_terminates() {
    assert_eq!(normalize_sentence("so we went,"), "so we went.");
    assert_eq!(normalize_sentence("so we went ; -"), "so we went.");
    assert_eq!(normalize_sentence("Really?"), "Really?");
    assert_eq!(normalize_sentence(""), "");
}

#[test]
fn strip_punct_and_capitalize() {
    assert_eq!(strip_punct("And,"), "And");
    assert_eq!(strip_punct("it's!"), "its");
    assert_eq!(capitalize_first("hello world"), "Hello world");
    assert_eq!(capitalize_first("ßtraße"), "SStraße");
    assert_eq!(capitalize_first(""), "");
}

#[test]
fn prompt_word_cleaning() {
    assert_eq!(clean_word_for_prompt("  \u{201c}Hello,\u{201d} "), "Hello");
    assert_eq!(clean_word_for_prompt("..."), "");
    assert_eq!(clean_word_for_prompt("don't"), "don't");
}

#[test]
fn stop_word_form() {
    assert_eq!(strip_for_check(" The,"), "the");
    assert_eq!(strip_for_check("(It's)"), "it's");
}

#[test]
fn capitalize_and_terminate_cases() {
    assert_eq!(capitalize_first_and_terminate("i love a,"), "I love a.");
    assert_eq!(capitalize_first_and_terminate("why?"), "Why?");
    assert_eq!(capitalize_first_and_terminate(""), "");
    assert_eq!(capitalize_first_and_terminate("one -"), "One.");
    assert_eq!(capitalize_first_and_terminate("one - "), "One - .");
}

// ───────────── chunker pieces ─────────────

#[test]
fn model_whitelist() {
    assert_eq!(pick_model("gpt-4.1"), "gpt-4.1");
    assert_eq!(pick_model("gpt-4o"), "gpt-4o");
    assert_eq!(pick_model("gpt-5"), "gpt-4o-mini");
    assert_eq!(pick_model(""), "gpt-4o-mini");
}

#[test]
fn pieces_of_long_text() {
    assert_eq!(split_text_into_pieces("a b c", 5), vec!["a b c".to_string()]);
    assert_eq!(
        split_text_into_pieces("one two three four five", 2),
        vec!["one two.".to_string(), "three four.".to_string(), "five.".to_string()]
    );
    assert_eq!(split_text_into_pieces("a b? c d", 2), vec!["a b?".to_string(), "c d.".to_string()]);
}

#[test]
fn sentence_end_tolerance() {
    assert!(is_sentence_end(1000, &[1200]));
    assert!(is_sentence_end(1000, &[800]));
    assert!(!is_sentence_end(1000, &[1201, 0]));
    assert!(!is_sentence_end(1000, &[]));
}

#[test]
fn repair_error_messages() {
    match validate_and_repair(vec![(0, 5), (3, 7)], 10) {
        Err(AppError::Other(m)) => assert_eq!(m, "overlapping ranges: prev=(0,5) cur=(3,7)"),
        other => panic!("unexpected {:?}", other),
    }
    match validate_and_repair(vec![(0, 12)], 10) {
        Err(AppError::Other(m)) => assert_eq!(m, "out-of-bounds or inverted range [0,12] (total=10)"),
        other => panic!("unexpected {:?}", other),
    }
    match validate_and_repair(vec![], 3) {
        Err(AppError::Other(m)) => assert_eq!(m, "llm returned no groups"),
        other => panic!("unexpected {:?}", other),
    }
    assert_eq!(validate_and_repair(vec![], 0).unwrap(), vec![]);
}

#[test]
fn repair_partitions_words() {
    let r = validate_and_repair(vec![(2, 3), (4, 4), (6, 8)], 10).unwrap();
    assert_eq!(r, vec![(0, 3), (4, 9)]);
}

#[test]
fn group_pairs() {
    assert_eq!(groups_to_pairs(vec![vec![0, 2], vec![3, 5]]).unwrap(), vec![(0, 2), (3, 5)]);
    match groups_to_pairs(vec![vec![0, 2], vec![3, 4, 5]]) {
        Err(AppError::Other(m)) => assert_eq!(m, "expected [start, end] pairs, got [3, 4, 5]"),
        other => panic!("unexpected {:?}", other),
    }
}

#[test]
fn json_extraction() {
    assert_eq!(extract("noise {\"a\":{\"b\":1}} tail"), Some("{\"a\":{\"b\":1}}".to_string()));
    assert_eq!(extract("no braces"), None);
    assert_eq!(extract("{ unclosed"), None);
}

fn extract(s: &str) -> Option<String> {
    shadowplay::chunker::extract_json_object(s)
}

#[test]
fn windows_of_long_transcripts() {
    let w = plan_windows(3200);
    assert_eq!(w.len(), 3);
    assert_eq!((w[0].start, w[0].end, w[0].is_continuation, w[0].has_more), (0, 1500, false, true));
    assert_eq!((w[1].start, w[1].end, w[1].is_continuation, w[1].has_more), (1500, 3000, true, true));
    assert_eq!((w[2].start, w[2].end, w[2].is_continuation, w[2].has_more), (3000, 3200, true, false));
    assert!(plan_windows(0).is_empty());
}

#[test]
fn offsets_and_collection() {
    assert_eq!(offset_ranges(&vec![(0, 2), (3, 4)], 10), vec![(10, 12), (13, 14)]);
    let windows = plan_windows(3200);
    let replies = vec![vec![(0, 1499)], vec![(0, 1499)], vec![(0, 150)]];
    let s = collect_sentences(&windows, &replies, 3200).unwrap();
    assert_eq!(s, vec![(0, 1499), (1500, 2999), (3000, 3199)]);
}

#[test]
fn long_sentences_are_divided() {
    let ws = words_of("a b c d e f g h i j", 300);
    let sents = vec![(0usize, 3usize), (4, 9)];
    assert_eq!(oversized(&ws, &sents, 5, 5000), vec![false, true]);
    let chunks = assemble_chunks(&ws, &sents, vec![None, Some(vec![(0, 2), (3, 5)])], 5, 5000);
    assert_eq!(chunks, vec![(0, 3, true), (4, 6, false), (7, 9, true)]);
    // No answer: the sentence stays whole.
    let chunks = assemble_chunks(&ws, &sents, vec![None, None], 5, 5000);
    assert_eq!(chunks, vec![(0, 3, true), (4, 9, true)]);
    // A broken answer: the whole sentence.
    assert_eq!(sub_chunks(4, 9, Some(vec![(0, 3), (2, 5)])), vec![(4, 9, true)]);
}

#[test]
fn chunks_become_clips() {
    let ws = words_of("so we did that i just got back", 250);
    let r: ChunkResult = finish_chunks(&vec![(0, 3, true), (4, 7, true)], &ws);
    assert_eq!(r.clips.len(), 2);
    assert_eq!(r.clips[0].text, "So we did that.");
    assert_eq!((r.clips[0].start_ms, r.clips[0].end_ms), (0, 1000));
    assert_eq!(r.clips[1].text, "I just got back.");
    assert_eq!(r.sentence_end_ms, vec![1000, 2000]);
    assert!(build_one_clip(3, 2, &ws).is_none());
    assert_eq!(r.clips[0].id.len(), 36);
    assert_ne!(r.clips[0].id, r.clips[1].id);
}

#[test]
fn api_key_checks() {
    match check_api_key("   ") {
        Err(AppError::Other(m)) => assert_eq!(m, "OpenAI API key is empty"),
        other => panic!("unexpected {:?}", other),
    }
    assert!(check_api_key(" sk-x ").is_ok());
}

// ───────────── bounds ─────────────

#[test]
fn split_pass_caps_words_and_shares_time() {
    let c = clip("x", 0, 1000, "one two three four five six");
    let out = enforce_max(vec![c], 4, 5000);
    assert_eq!(out.len(), 2);
    assert_eq!(out[0].text, "one two three four.");
    assert_eq!(out[1].text, "five six.");
    // 19 and 9 characters share the second: 679 ms.
    assert_eq!((out[0].start_ms, out[0].end_ms), (0, 679));
    assert_eq!((out[1].start_ms, out[1].end_ms), (679, 1000));
    assert_eq!(piece_time(0, 1000, 19, 28), 679);
}

#[test]
fn split_pass_keeps_fitting_clips() {
    let c = clip("keep", 100, 900, "short one");
    let out = enforce_max(vec![c], 12, 5000);
    assert_eq!(out.len(), 1);
    assert_eq!(out[0].id, "keep");
}

#[test]
fn joined_clip() {
    let j = join_clips(&clip("1", 0, 800, "I went."), &clip("2", 800, 1600, "To the store."));
    assert_eq!((j.start_ms, j.end_ms), (0, 1600));
    assert_eq!(j.text, "I went To the store.");
}

#[test]
fn bounds_pipeline_runs_all_passes() {
    let words = words_of("I love a big red apple", 200);
    let clips = vec![clip("1", 0, 600, "I love a."), clip("2", 600, 1200, "Big red apple.")];
    let out = enforce_clip_bounds(clips, &[1200], &words, 12, 5000, 1, 0);
    assert_eq!(out.len(), 2);
    assert_eq!(out[0].text, "I love a big.");
    assert_eq!(out[0].end_ms, 800);
    assert_eq!(out[0].id, "1");
}

// ───────────── harvester ─────────────

#[test]
fn harvest_respects_bounds() {
    let text = "This is the first sentence here. And this one follows it closely.";
    let segs = vec![seg(text, 0, 6000)];
    let words = words_of(text, 500);
    let clips = harvest(&segs, &words);
    assert!(!clips.is_empty());
    for c in &clips {
        let d = c.end_ms - c.start_ms;
        assert!((1000..=5000).contains(&d), "{:?}", c);
        let wc = c.text.split_whitespace().count();
        assert!((3..=20).contains(&wc), "{:?}", c);
        assert!(c.text.ends_with(['.', '!', '?']), "{:?}", c);
    }
}

#[test]
fn harvest_snaps_against_exact_positions() {
    // The first sentence ends 14/29 of the way through 0..2902 ms, at
    // 1400.97 ms: "three." ends 50.03 ms after that, outside the snap
    // tolerance, so the first piece ends at "two." (0..700, too short).
    let segs = vec![seg("One two three. Four five six.", 0, 2902)];
    let words = vec![
        word("One", 0, 300),
        word("two", 350, 700),
        word("three.", 750, 1451),
        word("Four", 1500, 1800),
        word("five", 1850, 2300),
        word("six.", 2350, 2850),
    ];
    let clips = harvest(&segs, &words);
    assert_eq!(clips.len(), 1);
    assert_eq!(clips[0].text, "Four five six.");
    assert_eq!(clips[0].start_ms, 1500);
    assert_eq!(clips[0].end_ms, 2850);
}

#[test]
fn harvest_of_nothing() {
    assert!(harvest(&[], &[]).is_empty());
}

// ───────────── transcripts ─────────────

#[test]
fn transcript_assembly() {
    let raw = vec![
        RawSegment {
            text: "  Hello world. ".into(),
            from_ms: -20,
            to_ms: 1100,
            tokens: vec![
                RawToken { text: " Hello".into(), from_ms: 0, to_ms: 400 },
                RawToken { text: " world".into(), from_ms: 500, to_ms: 1000 },
                RawToken { text: ".".into(), from_ms: 1000, to_ms: 1100 },
            ],
        },
        RawSegment { text: "   ".into(), from_ms: 1100, to_ms: 1200, tokens: vec![] },
    ];
    let (segs, words) = assemble_transcript(&raw);
    assert_eq!(segs.len(), 1);
    assert_eq!(segs[0].text, "Hello world.");
    assert_eq!((segs[0].start_ms, segs[0].end_ms), (0, 1100));
    assert_eq!(words.len(), 2);
    assert_eq!(words[1].word, "world.");
    assert_eq!(words[1].end_ms, 1100);
    assert_eq!(offset_to_ms(-5), 0);
    assert_eq!(offset_to_ms(5_000_000_000), u32::MAX);
}

#[test]
fn cloud_segments_are_trimmed() {
    let t = trim_segment_texts(&vec![seg("  Hi. ", 0, 10), seg("", 10, 20)]);
    assert_eq!(t.len(), 2);
    assert_eq!(t[0].text, "Hi.");
    assert_eq!(t[1].text, "");
}

#[test]
fn sentence_ends_from_punctuation() {
    let segs = vec![seg("Hello there.", 0, 1000), seg("and then", 1000, 2000), seg("Done! ", 2000, 3000)];
    assert_eq!(sentence_ends_from_segments(&segs), vec![1000, 3000]);
}

// ───────────── cache ─────────────

fn result(id: &str) -> TranscribeResult {
    TranscribeResult {
        video_id: id.into(),
        title: Some("A title".into()),
        audio_path: format!("/audio/{id}.m4a"),
        clips: vec![clip("c1", 0, 1000, "One two three.")],
        from_cache: false,
    }
}

#[test]
fn cache_round_trip() {
    let e = entry_for(result("dQw4w9WgXcQ"), 1_700_000_000, Some(vec![seg("x", 0, 1)]), None);
    assert_eq!(e.schema_v, SCHEMA);
    assert_eq!(e.fetched_at, 1_700_000_000);
    match check_entry(e, true) {
        Lookup::Hit(r) => {
            assert_eq!(r.video_id, "dQw4w9WgXcQ");
            assert_eq!(r.title.as_deref(), Some("A title"));
            assert_eq!(r.clips.len(), 1);
            assert!(r.from_cache);
        }
        _ => panic!("expected a hit"),
    }
}

#[test]
fn cache_rejects_stale_entries() {
    let e = entry_for(result("a"), 1, None, None);
    assert!(matches!(check_entry(e, false), Lookup::AudioGone));
    let mut e = entry_for(result("a"), 1, None, None);
    e.schema_v = 2;
    assert!(matches!(check_entry(e, true), Lookup::Outdated));
}

#[test]
fn cached_transcript_needed_to_cut_again() {
    let e = entry_for(result("a"), 1, None, None);
    assert!(stored_transcript(&e).is_err());
    let e = entry_for(result("a"), 1, Some(vec![seg("x", 0, 1)]), Some(vec![word("x", 0, 1)]));
    let (s, w) = stored_transcript(&e).unwrap();
    assert_eq!(s.len(), 1);
    assert_eq!(w.map(|w| w.len()), Some(1));
}

#[test]
fn library_is_newest_first() {
    let mk = |id: &str, at: i64| entry_for(result(id), at, None, None);
    let mut old = mk("old", 5);
    old.schema_v = 0;
    let entries: Vec<(CacheEntry, bool)> = vec![
        (mk("a", 10), true),
        (mk("b", 30), true),
        (mk("gone", 50), false),
        (old, true),
        (mk("c", 20), true),
        (mk("d", 30), true),
    ];
    let list = summaries(&entries);
    let ids: Vec<&str> = list.iter().map(|s| s.video_id.as_str()).collect();
    assert_eq!(ids, vec!["b", "d", "c", "a"]);
    assert_eq!(list[0].clip_count, 1);
}

#[test]
fn cache_file_names_and_clock() {
    assert_eq!(entry_file_name("abc"), "abc.json");
    assert_eq!(unix_seconds(None), 0);
    assert_eq!(unix_seconds(Some(42)), 42);
    assert!(now_unix() > 1_600_000_000);
}

// ───────────── settings ─────────────

fn opts() -> TranscribeOptions {
    TranscribeOptions {
        backend: None,
        openai_api_key: None,
        smart_chunking: None,
        chunk_max_words: None,
        chunk_max_ms: None,
        chunk_min_words: None,
        chunk_min_ms: None,
        chunking_model: None,
    }
}

#[test]
fn settings_defaults_and_clamps() {
    let s = resolve_settings(&opts());
    assert_eq!((s.smart, s.max_words, s.max_ms, s.min_words, s.min_ms), (false, 12, 5000, 4, 1000));
    assert_eq!(s.model, "gpt-4o-mini");
    let mut o = opts();
    o.chunk_max_words = Some(40);
    o.chunk_max_ms = Some(100);
    o.chunk_min_words = Some(30);
    o.chunk_min_ms = Some(9000);
    o.smart_chunking = Some(true);
    o.chunking_model = Some("gpt-4.1".into());
    let s = resolve_settings(&o);
    assert_eq!((s.smart, s.max_words, s.max_ms, s.min_words, s.min_ms), (true, 25, 2000, 25, 2000));
    assert_eq!(s.model, "gpt-4.1");
}

#[test]
fn key_choice() {
    assert_eq!(choose_api_key(&Some("  sk-typed ".into()), Some("sk-env".into())), "sk-typed");
    assert_eq!(choose_api_key(&Some("   ".into()), Some("sk-env".into())), "sk-env");
    assert_eq!(choose_api_key(&None, None), "");
}

#[test]
fn backend_choice() {
    assert!(uses_openai(&Some("openai".into())));
    assert!(!uses_openai(&Some("local".into())));
    assert!(!uses_openai(&None));
    match require_openai_key("") {
        Err(AppError::Other(m)) => {
            assert_eq!(m, "Add your OpenAI API key in Settings to use the OpenAI backend.")
        }
        other => panic!("unexpected {:?}", other),
    }
    assert!(require_openai_key("k").is_ok());
}

#[test]
fn model_chunking_needs_key_and_words() {
    let s = ChunkSettings { smart: true, max_words: 12, max_ms: 5000, min_words: 4, min_ms: 1000, model: "m".into() };
    let ws = vec![word("a", 0, 1)];
    assert!(wants_model_chunking(&s, "k", &ws));
    assert!(!wants_model_chunking(&s, "", &ws));
    assert!(!wants_model_chunking(&s, "k", &[]));
}

#[test]
fn raw_clip_selection() {
    let text = "This is the first sentence here. And this one follows it closely.";
    let segs = vec![seg(text, 0, 6000)];
    let words = words_of(text, 500);
    // A cancellation is passed on.
    assert!(matches!(select_raw_clips(Some(Err(AppError::Cancelled)), &segs, &words), Err(AppError::Cancelled)));
    // The model's clips are taken when there are some.
    let llm = ChunkResult { clips: vec![clip("m", 0, 1000, "From the model.")], sentence_end_ms: vec![1000] };
    let r = select_raw_clips(Some(Ok(llm)), &segs, &words).unwrap();
    assert_eq!(r.clips[0].id, "m");
    // Any other failure, or no clips, falls back to the harvester.
    let r = select_raw_clips(Some(Err(AppError::Other("x".into()))), &segs, &words).unwrap();
    assert_eq!(r.clips.len(), harvest(&segs, &words).len());
    assert_eq!(r.sentence_end_ms, vec![6000]);
    let empty = ChunkResult { clips: vec![], sentence_end_ms: vec![] };
    assert!(!select_raw_clips(Some(Ok(empty)), &segs, &words).unwrap().clips.is_empty());
    let s = resolve_settings(&opts());
    assert!(final_clips(None, &segs, &words, &s).unwrap().len() >= 1);
}

#[test]
fn run_clips_use_the_clamped_options() {
    let text = "One two three four five six seven eight nine ten.";
    let segs = vec![seg(text, 0, 5000)];
    let words = words_of(text, 500);
    // A cancellation is passed on.
    assert!(matches!(clips_for_run(&opts(), Some(Err(AppError::Cancelled)), &segs, &words), Err(AppError::Cancelled)));
    // Most words 2 is clamped to 4: the ten words come out in runs of at most 4.
    let mut o = opts();
    o.chunk_max_words = Some(2);
    o.chunk_min_words = Some(1);
    o.chunk_min_ms = Some(0);
    let clips = clips_for_run(&o, None, &segs, &words).unwrap();
    assert!(clips.len() >= 3, "{:?}", clips);
    for c in &clips {
        assert!(c.text.split_whitespace().count() <= 4, "{:?}", c);
    }
    // With the defaults the same text stays one clip of ten words.
    let clips = clips_for_run(&opts(), None, &segs, &words).unwrap();
    assert_eq!(clips.len(), 1, "{:?}", clips);
    assert_eq!(clips[0].text, text);
}

#[test]
fn job_slot() {
    assert!(owns_slot(&Some("abc".into()), "abc"));
    assert!(!owns_slot(&Some("abd".into()), "abc"));
    assert!(!owns_slot(&None, "abc"));
}

// ───────────── helper programs ─────────────

#[test]
fn download_command_line() {
    let a = ytdlp_args("/a/x.%(ext)s", "https://youtu.be/x");
    assert_eq!(a.len(), 13);
    assert_eq!(a[0], "--print");
    assert_eq!(a[1], "before_dl:TITLE\t%(title)s");
    assert_eq!(a[11], "/a/x.%(ext)s");
    assert_eq!(a[12], "https://youtu.be/x");
    assert_eq!(output_pattern("dQw4w9WgXcQ"), "dQw4w9WgXcQ.%(ext)s");
}

#[test]
fn download_lines() {
    assert!(matches!(read_download_line("TITLE\t  My video "), DownloadLine::Title(t) if t == "My video"));
    assert!(matches!(read_download_line("TITLE\t   "), DownloadLine::BlankTitle));
    assert!(matches!(read_download_line("[download]  37.4% of 3MiB"), DownloadLine::Other));
    assert!(matches!(read_download_line("TITLE"), DownloadLine::Other));
}

#[test]
fn audio_extensions() {
    for e in ["m4a", "mp4", "webm", "opus", "mp3"] {
        assert!(is_audio_extension(e));
    }
    assert!(!is_audio_extension("json"));
    assert!(!is_audio_extension("M4A"));
}

#[test]
fn exit_codes() {
    assert!(check_exit(Tool::YtDlp, 0).is_ok());
    match check_exit(Tool::YtDlp, 2) {
        Err(AppError::YtDlp(m)) => assert_eq!(m, "exit 2"),
        other => panic!("unexpected {:?}", other),
    }
    match check_exit(Tool::Whisper, -1) {
        Err(AppError::Whisper(m)) => assert_eq!(m, "exit -1"),
        other => panic!("unexpected {:?}", other),
    }
    match check_exit(Tool::FFmpeg, 137) {
        Err(e) => assert_eq!(e.message(), "ffmpeg failed: exit 137"),
        other => panic!("unexpected {:?}", other),
    }
    assert_eq!(download_missing().message(), "yt-dlp failed: output file not found after download");
    assert_eq!(wav_missing().message(), "ffmpeg failed: output wav not produced");
    assert_eq!(whisper_json_missing("/t/a.json").message(), "whisper failed: expected JSON not found at /t/a.json");
}

#[test]
fn decoder_and_recogniser_command_lines() {
    let f = ffmpeg_args("in.m4a", "out.wav");
    assert_eq!(f.len(), 14);
    assert_eq!(f[4], "in.m4a");
    assert_eq!(f[13], "out.wav");
    assert_eq!(thread_count(Some(16)), 8);
    assert_eq!(thread_count(Some(3)), 3);
    assert_eq!(thread_count(None), 4);
    let w = whisper_args("m.bin", "a.wav", 8, "a");
    assert_eq!(w, vec!["-m", "m.bin", "-f", "a.wav", "-l", "en", "-t", "8", "-pp", "-ojf", "-of", "a"]);
}

#[test]
fn error_messages() {
    assert_eq!(AppError::InvalidUrl.message(), "invalid YouTube URL");
    assert_eq!(AppError::Cancelled.message(), "cancelled");
    assert_eq!(AppError::ModelMissing.message(), "model not installed");
    assert_eq!(AppError::Io("x".into()).message(), "io: x");
    assert_eq!(AppError::Json("x".into()).message(), "json: x");
    assert_eq!(AppError::Tauri("x".into()).message(), "tauri: x");
    assert_eq!(AppError::Other("plain".into()).message(), "plain");
}

// ───────────── prompts ─────────────

#[test]
fn sentence_prompt() {
    let ws = vec![word("Hello,", 0, 1), word("...", 1, 2), word("world", 2, 3)];
    let p = prompt_pass_a(&ws, true, false);
    assert!(p.starts_with("Split this English transcript into COMPLETE SENTENCES."));
    assert!(p.contains("Start your first range at 0 anyway."));
    assert!(!p.contains("This window may END mid-sentence."));
    assert!(p.contains("the last must end at index 2.\n\nReturn ONLY JSON in this shape:\n{\"groups\":[[start_idx, end_idx], ...]}\n"));
    assert!(p.ends_with("Words (no punctuation):\n[0] Hello\n[1] _\n[2] world\n"));
    assert!(p.contains("(I, We, You, He, She, They, It, So, And then, Now, Today, Yesterday)."));
}

#[test]
fn subdivision_prompt() {
    let ws = vec![word("a", 0, 1), word("b", 1, 2)];
    let p = prompt_pass_b(&ws, 9);
    assert!(p.contains("HARD LIMIT: each chunk MUST be between 4 and 9 words. NEVER exceed 9.\n\n"));
    assert!(p.contains("one:\nhow, why, where"));
    assert!(p.ends_with("Words:\n[0] a\n[1] b\n"));
    assert!(prompt_pass_b(&[], 9).contains("end at index 0."));
}

#[test]
fn stop_word_fix_takes_at_most_three_words() {
    let words = words_of("I love the a an of apple", 200);
    let clips = vec![clip("1", 0, 600, "I love the."), clip("2", 600, 1400, "A an of apple.")];
    let fixed = boundary_fix(clips, &words, 10, 5000);
    assert_eq!(fixed.len(), 2);
    assert_eq!(fixed[0].id, "1");
    assert_eq!(fixed[0].start_ms, 0);
    assert_eq!(fixed[0].text, "I love the a an of.");
    assert_eq!(fixed[0].end_ms, 1200);
    // The second clip ends on a content word and stays as it is.
    assert_eq!(fixed[1].text, "A an of apple.");
}

#[test]
fn merge_stays_within_three_over_cap() {
    use_merge_case("e f", 1, 6);
    use_merge_case("e f g h", 2, 4);
}

#[test]
fn merge_joins_neighbours_into_runs() {
    let clips = vec![clip("1", 0, 2000, "a b c d"), clip("2", 2000, 2300, "e"), clip("3", 2300, 4500, "f g h i")];
    let out = shadowplay::bounds::enforce_min(clips, &[], 12, 5000, 4, 1000);
    assert_eq!(out.len(), 2, "{:?}", out);
    // A run of one clip is that clip unchanged.
    assert_eq!(out[0].id, "1");
    assert_eq!((out[0].start_ms, out[0].end_ms), (0, 2000));
    assert_eq!(out[0].text, "a b c d");
    // A longer run is a new clip from its earliest start to its latest end.
    assert!(out[1].id != "2" && out[1].id != "3");
    assert_eq!((out[1].start_ms, out[1].end_ms), (2000, 4500));
    assert_eq!(out[1].text, "e f g h i");
}

fn use_merge_case(tail: &str, expect_len: usize, expect_first_words: usize) {
    let clips = vec![clip("1", 0, 3000, "a b c d"), clip("2", 3000, 3300, tail)];
    let out = shadowplay::bounds::enforce_min(clips, &[], 4, 5000, 4, 1000);
    assert_eq!(out.len(), expect_len, "{:?}", out);
    assert_eq!(out[0].text.split_whitespace().count(), expect_first_words);
    for c in &out {
        assert!(c.text.split_whitespace().count() <= 4 + 3);
    }
}

#[test]
fn long_clip_is_bisected_near_its_middle() {
    let c = clip("1", 0, 9000, "Hello there friend.");
    let out = enforce_max(vec![c], 12, 5000);
    let texts: Vec<&str> = out.iter().map(|c| c.text.as_str()).collect();
    assert_eq!(texts, vec!["Hello.", "there.", "friend."]);
    assert_eq!((out[0].start_ms, out[0].end_ms), (0, 2842));
    assert_eq!((out[1].start_ms, out[1].end_ms), (2842, 5684));
    assert_eq!((out[2].start_ms, out[2].end_ms), (5684, 9000));
    for c in &out {
        assert!(c.end_ms - c.start_ms <= 5000);
    }
    // A single long word cannot be cut at a word boundary.
    let one = enforce_max(vec![clip("2", 0, 9000, "Hello.")], 12, 5000);
    assert_eq!(one.len(), 1);
    assert_eq!((one[0].start_ms, one[0].end_ms), (0, 9000));
}

#[test]
fn progress_lines() {
    assert!(matches!(download_progress("[download]  37.4% of 3.2MiB"), DownloadProgress::Percent(p) if p == "37.4"));
    assert!(matches!(download_progress("[info] Downloading"), DownloadProgress::Message));
    assert!(matches!(download_progress("   "), DownloadProgress::Blank));
    let w = whisper_line("whisper_print_progress_callback: progress =  42%");
    assert_eq!(w.percent.as_deref(), Some("42"));
    assert!(!w.loggable);
    let w = whisper_line("  system_info: n_threads = 8 ");
    assert_eq!(w.percent, None);
    assert!(w.loggable);
    assert!(!whisper_line("  ").loggable);
}

#[test]
fn download_file_choice() {
    let files = vec![
        (Some("abc".to_string()), Some("info.json".to_string())),
        (Some("abc".to_string()), Some("json".to_string())),
        (Some("abd".to_string()), Some("m4a".to_string())),
        (Some("abc".to_string()), Some("webm".to_string())),
        (Some("abc".to_string()), Some("m4a".to_string())),
    ];
    assert_eq!(pick_download(&files, "abc"), Some(3));
    assert_eq!(pick_download(&files, "zzz"), None);
    assert_eq!(pick_download(&vec![(None, Some("m4a".to_string()))], "abc"), None);
}

#[test]
fn capitalize_and_terminate_keeps_terminators() {
    assert_eq!(capitalize_first_and_terminate("."), ".");
    assert_eq!(capitalize_first_and_terminate("?"), "?");
    assert_eq!(capitalize_first_and_terminate("a"), "A.");
}

#[test]
fn chunks_end_once_per_sentence() {
    let words = vec![
        word("Hello", 0, 400),
        word("there.", 400, 900),
        word("How", 1000, 1300),
        word("are", 1300, 1500),
        word("you?", 1500, 2000),
    ];
    let sents = vec![(0, 1), (2, 4)];
    // The second sentence is over a two-word cap; its division failed, so
    // it stays one chunk.
    let r = chunks_for_sentences(&words, &sents, vec![None, None], 2, 5000);
    assert_eq!(r.sentence_end_ms, vec![900, 2000]);
    let texts: Vec<&str> = r.clips.iter().map(|c| c.text.as_str()).collect();
    assert_eq!(texts, vec!["Hello there.", "How are you?"]);
    // A division gives more chunks but still one end for the sentence.
    let r = chunks_for_sentences(&words, &sents, vec![None, Some(vec![(0, 0), (1, 2)])], 2, 5000);
    assert_eq!(r.sentence_end_ms, vec![900, 2000]);
    assert_eq!(r.clips.len(), 3);
    assert_eq!((r.clips[1].start_ms, r.clips[1].end_ms), (1000, 1300));
}

#[test]
fn sentence_pieces_put_back_lose_only_white_space() {
    let text = "Hi there.   How are you?\tFine.  ";
    let pieces = split_into_sentences(text);
    assert_eq!(pieces, vec!["Hi there.", "How are you?", "Fine."]);
    let joined: String = pieces.concat();
    let strip = |s: &str| s.chars().filter(|c| !c.is_whitespace()).collect::<String>();
    assert_eq!(strip(&joined), strip(text));
}

#[test]
fn text_pieces_keep_words_in_order() {
    let pieces = split_text_into_pieces("a b c d e f! g", 3);
    assert_eq!(pieces, vec!["a b c.", "d e f!", "g."]);
    for p in &pieces {
        assert!(p.split_whitespace().count() <= 3);
    }
    let back: Vec<&str> = pieces.iter().flat_map(|p| p.split_whitespace()).collect();
    assert_eq!(back, vec!["a", "b", "c.", "d", "e", "f!", "g."]);
}
