use shadowplay::bounds::{boundary_fix, enforce_min};
use shadowplay::chunker::{extract_json_object, validate_and_repair};
use shadowplay::harvester::{harvest, MAX_DURATION_MS, MAX_WORDS};
use shadowplay::model::{Clip, WhisperSegment, WhisperWord};
use shadowplay::transcript::{merge_tokens_into, RawToken};

fn seg(text: &str, start_ms: u32, end_ms: u32) -> WhisperSegment {
    WhisperSegment { text: text.into(), start_ms, end_ms }
}

fn word(w: &str, start_ms: u32, end_ms: u32) -> WhisperWord {
    WhisperWord { word: w.into(), start_ms, end_ms }
}

fn clip(id: &str, start_ms: u32, end_ms: u32, text: &str) -> Clip {
    Clip { id: id.into(), start_ms, end_ms, text: text.into() }
}

#[test]
fn splits_on_terminal_punctuation() {
    let segs = vec![
        seg("Hello there friend.", 0, 2000),
        seg("How are you doing today?", 2000, 4000),
    ];
    // Word stream: one word per token, evenly spaced (0.4 s each).
    let words: Vec<WhisperWord> = "Hello there friend. How are you doing today?"
        .split_whitespace()
        .enumerate()
        .map(|(i, w)| word(w, i as u32 * 400, (i as u32 + 1) * 400))
        .collect();
    let clips = harvest(&segs, &words);
    assert_eq!(clips.len(), 2, "expected 2 clips, got {:?}", clips);
    assert!(clips[0].text.starts_with("Hello"));
    assert!(clips[1].text.starts_with("How"));
}

#[test]
fn drops_too_short_clips() {
    // A single one-word segment is dropped (under the word floor).
    let segs = vec![seg("Yeah.", 0, 500)];
    let words = vec![word("Yeah.", 0, 500)];
    assert!(harvest(&segs, &words).is_empty());
}

#[test]
fn caps_long_clips_at_max_words() {
    // A 30-word sentence is split.
    let mut text = String::new();
    let mut words = Vec::new();
    for i in 0..30u32 {
        if i > 0 {
            text.push(' ');
        }
        text.push_str(&format!("word{i}"));
        words.push(word(&format!("word{i}"), i * 200, (i + 1) * 200));
    }
    text.push('.');
    let segs = vec![seg(&text, 0, 6000)];
    let clips = harvest(&segs, &words);
    assert!(!clips.is_empty(), "expected at least one clip");
    for c in &clips {
        let wc = c.text.split_whitespace().count();
        assert!(wc <= MAX_WORDS, "clip exceeds MAX_WORDS: {} ({})", wc, c.text);
        let dur = (c.end_ms as f64 - c.start_ms as f64) / 1000.0;
        assert!(
            dur <= MAX_DURATION_MS as f64 / 1000.0 + 0.01,
            "clip exceeds MAX_DURATION_S: {}",
            dur
        );
    }
}

#[test]
fn extracts_json_from_fenced_content() {
    let s = "```json\n{\"groups\":[[0,2],[3,5]]}\n```";
    let extracted = extract_json_object(s).unwrap();
    assert!(extracted.contains("groups"));
}

#[test]
fn validate_fills_trailing_gap() {
    let r = validate_and_repair(vec![(0, 3), (4, 7)], 10).unwrap();
    assert_eq!(r.last().unwrap().1, 9);
}

#[test]
fn validate_swallows_interior_gap() {
    let r = validate_and_repair(vec![(0, 3), (6, 9)], 10).unwrap();
    assert_eq!(r, vec![(0, 9)]);
}

#[test]
fn validate_rejects_overlap() {
    let err = validate_and_repair(vec![(0, 5), (3, 7)], 10);
    assert!(err.is_err());
}

#[test]
fn boundary_fix_extends_into_next_clip() {
    // Words: "I love a big red apple"; a clip ending on "a" is extended.
    let words: Vec<WhisperWord> = vec![
        word("I", 0, 200),
        word("love", 200, 500),
        word("a", 500, 600),
        word("big", 600, 900),
        word("red", 900, 1200),
        word("apple", 1200, 1600),
    ];
    let clips = vec![clip("1", 0, 600, "I love a."), clip("2", 600, 1600, "Big red apple.")];
    let fixed = boundary_fix(clips, &words, 10, 5000);
    assert!(
        !fixed[0].text.to_lowercase().trim_end_matches('.').ends_with(" a"),
        "first clip should not end on 'a': {}",
        fixed[0].text
    );
}

#[test]
fn enforce_min_prefers_same_sentence_merge() {
    // Two short clips inside one sentence merge forward.
    let clips = vec![clip("1", 0, 800, "I went."), clip("2", 800, 1600, "To the store.")];
    let sentence_ends: Vec<u32> = vec![1600];
    let result = enforce_min(clips, &sentence_ends, 12, 5000, 4, 1000);
    assert_eq!(result.len(), 1, "should merge to 1 clip: {:?}", result);
}

#[test]
fn enforce_min_falls_back_to_cross_sentence_when_floor_demands() {
    // Three short clips, a sentence boundary between every pair: the floor
    // still forces merges across them.
    let clips = vec![
        clip("1", 0, 800, "Hi there."),
        clip("2", 800, 1600, "Bye now."),
        clip("3", 1600, 2400, "See ya."),
    ];
    let sentence_ends = vec![800u32, 1600u32, 2400u32];
    let result = enforce_min(clips, &sentence_ends, 12, 5000, 4, 1000);
    assert!(
        result.len() < 3,
        "should merge across sentence boundaries when forced: {:?}",
        result
    );
}

fn tok(text: &str, from_ms: i64, to_ms: i64) -> RawToken {
    RawToken { text: text.into(), from_ms, to_ms }
}

#[test]
fn merges_subwords_and_punct() {
    let toks = vec![
        tok("[_BEG_]", 0, 0),
        tok(" Hello", 100, 500),
        tok(",", 500, 540),
        tok(" world", 600, 900),
        tok("ing", 900, 1100),
    ];
    let mut out = vec![];
    merge_tokens_into(&toks, &mut out);
    assert_eq!(out.len(), 2);
    assert_eq!(out[0].word, "Hello,");
    assert_eq!(out[0].start_ms, 100);
    assert_eq!(out[0].end_ms, 540);
    assert_eq!(out[1].word, "worlding");
    assert_eq!(out[1].end_ms, 1100);
}
