//! The command lines of the helper programs (yt-dlp, ffmpeg, whisper-cli)
//! and the reading of what they leave behind.

use vstd::prelude::*;
use crate::error::AppError;
use crate::text::{
    CharClass, append_chars, chars_equal, chars_of, decimal, decimal_chars, lit, slice_chars,
    string_of, string_seqs, trim, trim_chars,
};

verus! {

broadcast use vstd::string::group_string_axioms;

/// The decimal representation of a signed number, with a leading `-` when
/// it is negative.
pub open spec fn signed_decimal(n: int) -> Seq<char> {
    if n < 0 { seq!['-'] + decimal((-n) as nat) } else { decimal(n as nat) }
}

fn signed_decimal_chars(n: i32) -> (r: Vec<char>)
    ensures
        r@ == signed_decimal(n as int),
{
    if n < 0 {
        let m: u64 = (-(n as i64)) as u64;
        let mut v: Vec<char> = Vec::new();
        v.push('-');
        append_chars(&mut v, &decimal_chars(m));
        v
    } else {
        decimal_chars(n as u64)
    }
}

/// `prefix` followed by `tail`.
fn joined(prefix: &str, tail: &Vec<char>) -> (r: String)
    ensures
        r@ == prefix@ + tail@,
{
    let mut v = lit(prefix);
    append_chars(&mut v, tail);
    string_of(&v)
}

// ───────────────────────── yt-dlp ─────────────────────────

/// The output file name pattern for a download: `<video_id>.%(ext)s`,
/// yt-dlp filling in the extension.
pub fn output_pattern(video_id: &str) -> (r: String)
    ensures
        r@ == video_id@ + ".%(ext)s"@,
{
    let mut v = chars_of(video_id);
    append_chars(&mut v, &lit(".%(ext)s"));
    string_of(&v)
}

/// The arguments of the download: the title printed first, the best
/// audio (m4a preferred) of a single video, one progress line per update,
/// no partial files, remuxed to m4a, written to `out_template`.
pub fn ytdlp_args(out_template: &str, url: &str) -> (r: Vec<String>)
    ensures
        string_seqs(r@) == seq![
            "--print"@, "before_dl:TITLE\t%(title)s"@, "-f"@, "bestaudio[ext=m4a]/bestaudio"@,
            "--no-playlist"@, "--no-warnings"@, "--newline"@, "--no-part"@, "--remux-video"@,
            "m4a"@, "-o"@, out_template@, url@,
        ],
{
    let mut r: Vec<String> = Vec::new();
    r.push(String::from_str("--print"));
    r.push(String::from_str("before_dl:TITLE\t%(title)s"));
    r.push(String::from_str("-f"));
    r.push(String::from_str("bestaudio[ext=m4a]/bestaudio"));
    r.push(String::from_str("--no-playlist"));
    r.push(String::from_str("--no-warnings"));
    r.push(String::from_str("--newline"));
    r.push(String::from_str("--no-part"));
    r.push(String::from_str("--remux-video"));
    r.push(String::from_str("m4a"));
    r.push(String::from_str("-o"));
    r.push(String::from_str(out_template));
    r.push(String::from_str(url));
    assert(string_seqs(r@) =~= seq![
        "--print"@, "before_dl:TITLE\t%(title)s"@, "-f"@, "bestaudio[ext=m4a]/bestaudio"@,
        "--no-playlist"@, "--no-warnings"@, "--newline"@, "--no-part"@, "--remux-video"@,
        "m4a"@, "-o"@, out_template@, url@,
    ]);
    r
}

/// What one line of the download's output says.
pub enum DownloadLine {
    /// The title line, with the title (trimmed, not blank).
    Title(String),
    /// A title line whose title is blank.
    BlankTitle,
    /// Any other line (progress or a message).
    Other,
}

/// Reads one output line of the download: a line starting with `TITLE`
/// and a tab carries the video's title, the rest trimmed.
pub fn read_download_line(line: &str) -> (r: DownloadLine)
    ensures
        ({
            let p = "TITLE\t"@;
            let l = line@;
            if l.len() >= p.len() && l.take(p.len() as int) == p {
                let t = trim(l.skip(p.len() as int));
                if t.len() > 0 { r matches DownloadLine::Title(s) && s@ == t } else { r is BlankTitle }
            } else {
                r is Other
            }
        }),
{
    let l = chars_of(line);
    let p = lit("TITLE\t");
    if l.len() >= p.len() {
        let head = slice_chars(&l, 0, p.len());
        if chars_equal(&head, &p) {
            let rest = slice_chars(&l, p.len(), l.len());
            assert(rest@ =~= line@.skip(p@.len() as int));
            let t = trim_chars(&rest, CharClass::WhiteSpace);
            if t.len() > 0 {
                return DownloadLine::Title(string_of(&t));
            } else {
                return DownloadLine::BlankTitle;
            }
        }
        assert(head@ =~= line@.take(p@.len() as int));
    }
    DownloadLine::Other
}

/// The text of capture group 1 in the leftmost match of the regular
/// expression `pattern` in `line`, as the `regex` crate finds it; `None`
/// when the pattern does not compile, nothing matches, or the group took
/// no part in the match.
pub uninterp spec fn regex_capture(pattern: Seq<char>, line: Seq<char>) -> Option<Seq<char>>;

/// `regex::Regex::new(pattern)`, then `Regex::captures(line)` and the text
/// of group 1 (see `regex_capture`).
#[verifier::external_body]
fn first_capture(pattern: &str, line: &str) -> (r: Option<String>)
    ensures
        match r {
            Some(c) => regex_capture(pattern@, line@) == Some(c@),
            None => regex_capture(pattern@, line@) is None,
        },
{
    match regex::Regex::new(pattern) {
        Ok(re) => re.captures(line).and_then(|c| c.get(1)).map(|m| m.as_str().to_string()),
        Err(_) => None,
    }
}

/// The progress pattern of the download's output: `[download]`, white
/// space, then a number and `%`.
pub const DOWNLOAD_PROGRESS: &'static str = "\\[download\\]\\s+([\\d.]+)%";

/// The progress pattern of the recogniser's output: `progress = <n>%`.
pub const WHISPER_PROGRESS: &'static str = "progress\\s*=\\s*(\\d+)%";

/// What a download output line that is not the title line says.
pub enum DownloadProgress {
    /// A progress line, with the percentage as printed.
    Percent(String),
    /// Any other non-blank line.
    Message,
    /// A blank line.
    Blank,
}

/// Reads a progress line of the download (see `DOWNLOAD_PROGRESS`).
pub fn download_progress(line: &str) -> (r: DownloadProgress)
    ensures
        match regex_capture(DOWNLOAD_PROGRESS@, line@) {
            Some(p) => r matches DownloadProgress::Percent(s) && s@ == p,
            None => if trim(line@).len() > 0 { r is Message } else { r is Blank },
        },
{
    match first_capture(DOWNLOAD_PROGRESS, line) {
        Some(p) => DownloadProgress::Percent(p),
        None => {
            if trim_chars(&chars_of(line), CharClass::WhiteSpace).len() > 0 {
                DownloadProgress::Message
            } else {
                DownloadProgress::Blank
            }
        },
    }
}

/// What a line of the recogniser's output says: the progress percentage
/// as printed, if the line is a progress line, and whether the line is
/// worth logging (not blank, not one of the recogniser's own `whisper_`
/// lines).
pub struct WhisperLine {
    pub percent: Option<String>,
    pub loggable: bool,
}

/// Reads a line of the recogniser's output (see `WHISPER_PROGRESS`).
pub fn whisper_line(line: &str) -> (r: WhisperLine)
    ensures
        match regex_capture(WHISPER_PROGRESS@, line@) {
            Some(p) => r.percent matches Some(s) && s@ == p,
            None => r.percent is None,
        },
        r.loggable == (trim(line@).len() > 0 && !(trim(line@).len() >= "whisper_"@.len()
            && trim(line@).take("whisper_"@.len() as int) == "whisper_"@)),
{
    let percent = first_capture(WHISPER_PROGRESS, line);
    let t = trim_chars(&chars_of(line), CharClass::WhiteSpace);
    let p = lit("whisper_");
    let starts = if t.len() >= p.len() {
        let head = slice_chars(&t, 0, p.len());
        assert(head@ =~= t@.take(p@.len() as int));
        chars_equal(&head, &p)
    } else {
        false
    };
    WhisperLine { percent, loggable: t.len() > 0 && !starts }
}

/// Whether a file extension is one of the audio containers a download can
/// end in: `m4a`, `mp4`, `webm`, `opus` or `mp3`.
pub fn is_audio_extension(ext: &str) -> (r: bool)
    ensures
        r == (ext@ == "m4a"@ || ext@ == "mp4"@ || ext@ == "webm"@ || ext@ == "opus"@ || ext@ == "mp3"@),
{
    let e = chars_of(ext);
    chars_equal(&e, &lit("m4a")) || chars_equal(&e, &lit("mp4")) || chars_equal(&e, &lit("webm"))
        || chars_equal(&e, &lit("opus")) || chars_equal(&e, &lit("mp3"))
}

/// Whether a file, given by its name without extension and its
/// extension, is the downloaded audio of `video_id`.
pub open spec fn is_download_of(f: (Option<String>, Option<String>), video_id: Seq<char>) -> bool {
    &&& f.0 matches Some(stem) && stem@ == video_id
    &&& f.1 matches Some(ext) && (ext@ == "m4a"@ || ext@ == "mp4"@ || ext@ == "webm"@ || ext@
        == "opus"@ || ext@ == "mp3"@)
}

/// The first file of the audio folder (each given by its name without
/// extension and its extension) that is the downloaded audio of
/// `video_id`: its name is the id and its extension an audio container.
pub fn pick_download(files: &Vec<(Option<String>, Option<String>)>, video_id: &str) -> (r: Option<usize>)
    ensures
        match r {
            Some(i) => i < files@.len() && is_download_of(files@[i as int], video_id@) && forall|j: int|
                0 <= j < i ==> !is_download_of(#[trigger] files@[j], video_id@),
            None => forall|j: int| 0 <= j < files@.len() ==> !is_download_of(#[trigger] files@[j], video_id@),
        },
{
    let id = chars_of(video_id);
    let mut i: usize = 0;
    while i < files.len()
        invariant
            i <= files@.len(),
            id@ == video_id@,
            forall|j: int| 0 <= j < i ==> !is_download_of(#[trigger] files@[j], video_id@),
        decreases files@.len() - i,
    {
        let stem_ok = match &files[i].0 {
            Some(stem) => chars_equal(&chars_of(stem.as_str()), &id),
            None => false,
        };
        let ext_ok = match &files[i].1 {
            Some(ext) => is_audio_extension(ext.as_str()),
            None => false,
        };
        if stem_ok && ext_ok {
            return Some(i);
        }
        i += 1;
    }
    None
}

/// A helper program that ran.
#[derive(Clone, Copy, PartialEq, Eq, Structural)]
pub enum Tool {
    YtDlp,
    FFmpeg,
    Whisper,
}

/// A helper program succeeded only when it exited with 0; otherwise the
/// error names the tool and says `exit <code>`.
pub fn check_exit(tool: Tool, code: i32) -> (r: Result<(), AppError>)
    ensures
        r is Ok <==> code == 0,
        r matches Err(e) ==> ({
            let m = "exit "@ + signed_decimal(code as int);
            match tool {
                Tool::YtDlp => e matches AppError::YtDlp(s) && s@ == m,
                Tool::FFmpeg => e matches AppError::FFmpeg(s) && s@ == m,
                Tool::Whisper => e matches AppError::Whisper(s) && s@ == m,
            }
        }),
{
    if code == 0 {
        return Ok(());
    }
    let m = joined("exit ", &signed_decimal_chars(code));
    match tool {
        Tool::YtDlp => Err(AppError::YtDlp(m)),
        Tool::FFmpeg => Err(AppError::FFmpeg(m)),
        Tool::Whisper => Err(AppError::Whisper(m)),
    }
}

/// The error when no audio file turned up after a download.
pub fn download_missing() -> (e: AppError)
    ensures
        e matches AppError::YtDlp(s) && s@ == "output file not found after download"@,
{
    AppError::YtDlp(String::from_str("output file not found after download"))
}

/// What a download leaves: the audio file and, when yt-dlp printed one,
/// the video's title.
pub struct DownloadResult {
    pub audio_path: String,
    pub title: Option<String>,
}

/// The result of a finished download, from the audio file found in the
/// audio folder (if any) and the title read from the output.
pub fn download_result(found: Option<String>, title: Option<String>) -> (r: Result<DownloadResult, AppError>)
    ensures
        match found {
            Some(p) => r matches Ok(d) && d.audio_path == p && d.title == title,
            None => r matches Err(AppError::YtDlp(s)) && s@ == "output file not found after download"@,
        },
{
    match found {
        Some(p) => Ok(DownloadResult { audio_path: p, title }),
        None => Err(download_missing()),
    }
}

// ───────────────────────── ffmpeg ─────────────────────────

/// The arguments that decode `src` into 16 kHz mono 16-bit PCM at `dst`,
/// overwriting it, printing only errors.
pub fn ffmpeg_args(src: &str, dst: &str) -> (r: Vec<String>)
    ensures
        string_seqs(r@) == seq![
            "-hide_banner"@, "-loglevel"@, "error"@, "-i"@, src@, "-vn"@, "-ac"@, "1"@, "-ar"@,
            "16000"@, "-c:a"@, "pcm_s16le"@, "-y"@, dst@,
        ],
{
    let mut r: Vec<String> = Vec::new();
    r.push(String::from_str("-hide_banner"));
    r.push(String::from_str("-loglevel"));
    r.push(String::from_str("error"));
    r.push(String::from_str("-i"));
    r.push(String::from_str(src));
    r.push(String::from_str("-vn"));
    r.push(String::from_str("-ac"));
    r.push(String::from_str("1"));
    r.push(String::from_str("-ar"));
    r.push(String::from_str("16000"));
    r.push(String::from_str("-c:a"));
    r.push(String::from_str("pcm_s16le"));
    r.push(String::from_str("-y"));
    r.push(String::from_str(dst));
    assert(string_seqs(r@) =~= seq![
        "-hide_banner"@, "-loglevel"@, "error"@, "-i"@, src@, "-vn"@, "-ac"@, "1"@, "-ar"@,
        "16000"@, "-c:a"@, "pcm_s16le"@, "-y"@, dst@,
    ]);
    r
}

/// The error when the decoder exited cleanly but wrote nothing.
pub fn wav_missing() -> (e: AppError)
    ensures
        e matches AppError::FFmpeg(s) && s@ == "output wav not produced"@,
{
    AppError::FFmpeg(String::from_str("output wav not produced"))
}

// ───────────────────────── whisper-cli ─────────────────────────

/// The number of recognition threads: what the machine offers (4 when it
/// cannot tell), at most 8.
pub fn thread_count(available: Option<usize>) -> (r: usize)
    ensures
        r == (match available {
            Some(n) => if n < 8 { n } else { 8 },
            None => 4,
        }),
{
    match available {
        Some(n) => if n < 8 { n } else { 8 },
        None => 4,
    }
}

/// The arguments that transcribe `wav` with `model` in English on
/// `threads` threads, printing progress and writing the full JSON output
/// next to `out_prefix`.
pub fn whisper_args(model: &str, wav: &str, threads: usize, out_prefix: &str) -> (r: Vec<String>)
    ensures
        string_seqs(r@) == seq![
            "-m"@, model@, "-f"@, wav@, "-l"@, "en"@, "-t"@, decimal(threads as nat), "-pp"@,
            "-ojf"@, "-of"@, out_prefix@,
        ],
{
    let mut r: Vec<String> = Vec::new();
    r.push(String::from_str("-m"));
    r.push(String::from_str(model));
    r.push(String::from_str("-f"));
    r.push(String::from_str(wav));
    r.push(String::from_str("-l"));
    r.push(String::from_str("en"));
    r.push(String::from_str("-t"));
    r.push(string_of(&decimal_chars(threads as u64)));
    r.push(String::from_str("-pp"));
    r.push(String::from_str("-ojf"));
    r.push(String::from_str("-of"));
    r.push(String::from_str(out_prefix));
    assert(string_seqs(r@) =~= seq![
        "-m"@, model@, "-f"@, wav@, "-l"@, "en"@, "-t"@, decimal(threads as nat), "-pp"@,
        "-ojf"@, "-of"@, out_prefix@,
    ]);
    r
}

/// The error when the recogniser exited cleanly but its JSON is missing.
pub fn whisper_json_missing(path: &str) -> (e: AppError)
    ensures
        e matches AppError::Whisper(s) && s@ == "expected JSON not found at "@ + path@,
{
    AppError::Whisper(joined("expected JSON not found at ", &chars_of(path)))
}

// ───────────────────────── running a helper ─────────────────────────

/// Drops one carriage return at the end of `s`.
pub open spec fn strip_cr(s: Seq<char>) -> Seq<char> {
    if s.len() > 0 && s.last() == '\r' { s.drop_last() } else { s }
}

/// The lines of `s` given the line `cur` already begun: a line ends at a
/// line feed, which is dropped together with one carriage return before
/// it; a last line without a line feed is kept as it is, and nothing
/// follows a final line feed.
pub open spec fn lines_acc(s: Seq<char>, cur: Seq<char>) -> Seq<Seq<char>>
    decreases s.len(),
{
    if s.len() == 0 {
        if cur.len() > 0 { seq![cur] } else { seq![] }
    } else if s[0] == '\n' {
        seq![strip_cr(cur)] + lines_acc(s.drop_first(), seq![])
    } else {
        lines_acc(s.drop_first(), cur.push(s[0]))
    }
}

/// `str::lines`.
pub open spec fn lines(s: Seq<char>) -> Seq<Seq<char>> {
    lines_acc(s, seq![])
}

/// The lines of a chunk of a helper's output (see `lines`).
pub fn split_lines(text: &str) -> (r: Vec<String>)
    ensures
        string_seqs(r@) == lines(text@),
{
    let v = chars_of(text);
    let mut out: Vec<String> = Vec::new();
    let mut cur: Vec<char> = Vec::new();
    let mut i: usize = 0;
    assert(v@.skip(0) =~= v@);
    while i < v.len()
        invariant
            i <= v@.len(),
            v@ == text@,
            lines(text@) == string_seqs(out@) + lines_acc(v@.skip(i as int), cur@),
        decreases v@.len() - i,
    {
        let c = v[i];
        let ghost rest = v@.skip(i as int);
        assert(rest[0] == c);
        assert(rest.drop_first() =~= v@.skip(i + 1));
        if c == '\n' {
            let line = if cur.len() > 0 && cur[cur.len() - 1] == '\r' {
                slice_chars(&cur, 0, cur.len() - 1)
            } else {
                slice_chars(&cur, 0, cur.len())
            };
            assert(line@ =~= strip_cr(cur@));
            let ghost o = string_seqs(out@);
            out.push(string_of(&line));
            assert(string_seqs(out@) =~= o.push(line@));
            assert(o + (seq![line@] + lines_acc(v@.skip(i + 1), seq![]))
                =~= o.push(line@) + lines_acc(v@.skip(i + 1), seq![]));
            cur = Vec::new();
            assert(cur@ =~= Seq::<char>::empty());
        } else {
            cur.push(c);
        }
        i += 1;
    }
    assert(v@.skip(i as int) =~= Seq::<char>::empty());
    if cur.len() > 0 {
        let ghost o = string_seqs(out@);
        let ghost cv = cur@;
        out.push(string_of(&cur));
        assert(string_seqs(out@) =~= o.push(cv));
        assert(o + seq![cv] =~= o.push(cv));
    } else {
        assert(string_seqs(out@) + Seq::<Seq<char>>::empty() =~= string_seqs(out@));
    }
    out
}

/// What a running helper program reported.
pub enum ToolEvent {
    /// A chunk of its standard output or error, as text.
    Output(String),
    /// It exited, with its exit code when it had one.
    Terminated(Option<i32>),
    /// Running it failed, with the reason.
    Failed(String),
    /// The event stream ended.
    Closed,
    /// Anything else.
    Ignored,
}

/// What to do after an event.
pub enum ToolStep {
    /// Hand each line to the line handler and keep waiting.
    Lines(Vec<String>),
    /// Keep waiting.
    Wait,
    /// Stop with this outcome: the exit code, or the error.
    Finish(Result<i32, AppError>),
}

/// The decision after one event of a running helper: output is split into
/// lines; termination gives the exit code (-1 when there is none); a
/// failure is an error; the end of the stream counts as exit code 0.
pub fn on_tool_event(ev: ToolEvent) -> (r: ToolStep)
    ensures
        match ev {
            ToolEvent::Output(t) => r matches ToolStep::Lines(v) && string_seqs(v@) == lines(t@),
            ToolEvent::Terminated(c) => r == ToolStep::Finish(Ok(match c {
                Some(x) => x,
                None => -1i32,
            })),
            ToolEvent::Failed(m) => r == ToolStep::Finish(Err(AppError::Other(m))),
            ToolEvent::Closed => r == ToolStep::Finish(Ok(0i32)),
            ToolEvent::Ignored => r is Wait,
        },
{
    match ev {
        ToolEvent::Output(t) => ToolStep::Lines(split_lines(t.as_str())),
        ToolEvent::Terminated(c) => ToolStep::Finish(Ok(match c {
            Some(x) => x,
            None => -1,
        })),
        ToolEvent::Failed(m) => ToolStep::Finish(Err(AppError::Other(m))),
        ToolEvent::Closed => ToolStep::Finish(Ok(0)),
        ToolEvent::Ignored => ToolStep::Wait,
    }
}

} // verus!
