//! Reading the answers of the OpenAI endpoints: empty answers and failed
//! requests become errors with the messages the user sees.

use vstd::prelude::*;
use crate::error::AppError;
use crate::text::{CharClass, append_chars, chars_of, lit, slice_chars, string_of, trim, trim_chars};

verus! {

broadcast use vstd::string::group_string_axioms;

/// At most this many characters of a failed response's body are shown.
pub const SNIPPET_CHARS: usize = 400;

/// The first 400 characters of `body` (all of it when shorter).
pub open spec fn snippet(body: Seq<char>) -> Seq<char> {
    if body.len() <= 400 { body } else { body.take(400) }
}

/// `prefix`, the status line, `: ` and the start of the body.
pub open spec fn http_failure(prefix: Seq<char>, status: Seq<char>, body: Seq<char>) -> Seq<char> {
    prefix + status + ": "@ + snippet(body)
}

fn http_failure_text(prefix: &str, status: &str, body: &str) -> (r: String)
    ensures
        r@ == http_failure(prefix@, status@, body@),
{
    let mut v = lit(prefix);
    append_chars(&mut v, &chars_of(status));
    append_chars(&mut v, &lit(": "));
    let b = chars_of(body);
    let cut = if b.len() <= SNIPPET_CHARS { b.len() } else { SNIPPET_CHARS };
    let part = slice_chars(&b, 0, cut);
    assert(part@ =~= snippet(body@));
    append_chars(&mut v, &part);
    string_of(&v)
}

/// The error for a chat request answered with a failure status: `status`
/// is the status as the HTTP library prints it, `body` the answer's text.
pub fn chat_http_error(status: &str, body: &str) -> (e: AppError)
    ensures
        e matches AppError::Other(m) && m@ == http_failure("openai chat http "@, status@, body@),
{
    AppError::Other(http_failure_text("openai chat http ", status, body))
}

/// The error for a transcription request answered with a failure status.
pub fn transcription_http_error(status: &str, body: &str) -> (e: AppError)
    ensures
        e matches AppError::Whisper(m) && m@ == http_failure("openai http "@, status@, body@),
{
    AppError::Whisper(http_failure_text("openai http ", status, body))
}

/// The content of the first choice of a chat answer (`None` when there was
/// no choice): a blank content is an error.
pub fn reply_content(content: Option<String>) -> (r: Result<String, AppError>)
    ensures
        match content {
            Some(c) if trim(c@).len() > 0 => r == Ok::<String, AppError>(c),
            _ => r matches Err(AppError::Other(m)) && m@ == "openai returned empty content"@,
        },
{
    let c = match content {
        Some(c) => c,
        None => String::new(),
    };
    let t = trim_chars(&chars_of(c.as_str()), CharClass::WhiteSpace);
    if t.len() == 0 {
        Err(AppError::Other(String::from_str("openai returned empty content")))
    } else {
        Ok(c)
    }
}

} // verus!
