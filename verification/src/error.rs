//! Errors that the pipeline reports.

use vstd::prelude::*;
use crate::text::{append_chars, chars_of, lit, string_of};

verus! {

/// What went wrong, as the user interface is told it.
#[derive(Debug)]
pub enum AppError {
    YtDlp(String),
    FFmpeg(String),
    Whisper(String),
    InvalidUrl,
    ModelMissing,
    Cancelled,
    Io(String),
    Json(String),
    Tauri(String),
    Other(String),
}

/// The message the user sees for `e`.
pub open spec fn message_spec(e: AppError) -> Seq<char> {
    match e {
        AppError::YtDlp(s) => "yt-dlp failed: "@ + s@,
        AppError::FFmpeg(s) => "ffmpeg failed: "@ + s@,
        AppError::Whisper(s) => "whisper failed: "@ + s@,
        AppError::InvalidUrl => "invalid YouTube URL"@,
        AppError::ModelMissing => "model not installed"@,
        AppError::Cancelled => "cancelled"@,
        AppError::Io(s) => "io: "@ + s@,
        AppError::Json(s) => "json: "@ + s@,
        AppError::Tauri(s) => "tauri: "@ + s@,
        AppError::Other(s) => s@,
    }
}

fn prefixed(prefix: &str, s: &String) -> (r: String)
    ensures
        r@ == prefix@ + s@,
{
    let mut v = lit(prefix);
    append_chars(&mut v, &chars_of(s.as_str()));
    string_of(&v)
}

impl AppError {
    /// The message the user sees (see `message_spec`).
    pub fn message(&self) -> (r: String)
        ensures
            r@ == message_spec(*self),
    {
        match self {
            AppError::YtDlp(s) => prefixed("yt-dlp failed: ", s),
            AppError::FFmpeg(s) => prefixed("ffmpeg failed: ", s),
            AppError::Whisper(s) => prefixed("whisper failed: ", s),
            AppError::InvalidUrl => String::from_str("invalid YouTube URL"),
            AppError::ModelMissing => String::from_str("model not installed"),
            AppError::Cancelled => String::from_str("cancelled"),
            AppError::Io(s) => prefixed("io: ", s),
            AppError::Json(s) => prefixed("json: ", s),
            AppError::Tauri(s) => prefixed("tauri: ", s),
            AppError::Other(s) => s.clone(),
        }
    }
}

} // verus!
