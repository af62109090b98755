//! Recognising YouTube links and their 11-character video ids.

use vstd::prelude::*;
use crate::error::AppError;
use crate::text::{chars_of, chars_equal, lit, lower_of, string_of, string_seqs, slice_chars};

verus! {

#[verifier::external_type_specification]
#[verifier::external_body]
pub struct ExUrl(url::Url);

/// Whether `url::Url::parse` accepts `raw`.
pub uninterp spec fn url_accepts(raw: Seq<char>) -> bool;

/// `url::Url::host_str` of the URL parsed from `raw`.
pub uninterp spec fn url_host(raw: Seq<char>) -> Option<Seq<char>>;

/// `url::Url::path_segments` of the URL parsed from `raw`, collected.
pub uninterp spec fn url_path_segments(raw: Seq<char>) -> Option<Seq<Seq<char>>>;

/// `url::Url::query_pairs` of the URL parsed from `raw`, decoded and
/// collected in order.
pub uninterp spec fn url_query_pairs(raw: Seq<char>) -> Seq<(Seq<char>, Seq<char>)>;

/// A parsed absolute URL together with the text it was parsed from.
struct WebUrl {
    source: Ghost<Seq<char>>,
    url: url::Url,
}

impl View for WebUrl {
    type V = Seq<char>;

    closed spec fn view(&self) -> Seq<char> {
        self.source@
    }
}

/// `url::Url::parse`: `Some` exactly when the text parses as an absolute
/// URL; the parsed URL remembers its source text.
#[verifier::external_body]
fn parse_url(raw: &str) -> (r: Option<WebUrl>)
    ensures
        r is Some <==> url_accepts(raw@),
        r matches Some(u) ==> u@ == raw@,
{
    match url::Url::parse(raw) {
        Ok(url) => Some(WebUrl { source: Ghost(raw@), url }),
        Err(_) => None,
    }
}

/// `url::Url::host_str`, as an owned string.
#[verifier::external_body]
fn host_of(u: &WebUrl) -> (r: Option<String>)
    ensures
        match r {
            Some(h) => url_host(u@) == Some(h@),
            None => url_host(u@) is None,
        },
{
    u.url.host_str().map(|h| h.to_string())
}

/// `url::Url::path_segments`, collected: `None` for URLs that cannot be a
/// base; otherwise the `/`-separated segments of the path, at least one.
#[verifier::external_body]
fn path_segments_of(u: &WebUrl) -> (r: Option<Vec<String>>)
    ensures
        match r {
            Some(v) => url_path_segments(u@) == Some(string_seqs(v@)) && v@.len() >= 1,
            None => url_path_segments(u@) is None,
        },
{
    u.url.path_segments().map(|segs| segs.map(|s| s.to_string()).collect())
}

/// `url::Url::query_pairs`, decoded and collected in order.
#[verifier::external_body]
fn query_pairs_of(u: &WebUrl) -> (r: Vec<(String, String)>)
    ensures
        url_query_pairs(u@) == Seq::new(r@.len(), |i: int| (r@[i].0@, r@[i].1@)),
{
    u.url.query_pairs().map(|(k, v)| (k.into_owned(), v.into_owned())).collect()
}

/// An ASCII letter or digit, `_` or `-`.
pub open spec fn id_char(c: char) -> bool {
    ('a' <= c <= 'z') || ('A' <= c <= 'Z') || ('0' <= c <= '9') || c == '_' || c == '-'
}

/// An 11-character YouTube video id.
pub open spec fn valid_id(s: Seq<char>) -> bool {
    s.len() == 11 && forall|i: int| 0 <= i < s.len() ==> #[trigger] id_char(s[i])
}

fn valid_id_chars(s: &Vec<char>) -> (r: bool)
    ensures
        r == valid_id(s@),
{
    if s.len() != 11 {
        return false;
    }
    let mut i: usize = 0;
    while i < s.len()
        invariant
            i <= s@.len(),
            forall|j: int| 0 <= j < i ==> #[trigger] id_char(s@[j]),
        decreases s@.len() - i,
    {
        let c = s[i];
        if !(('a' <= c && c <= 'z') || ('A' <= c && c <= 'Z') || ('0' <= c && c <= '9') || c == '_' || c == '-') {
            assert(!id_char(s@[i as int]));
            return false;
        }
        i += 1;
    }
    true
}

/// Whether `s` is an 11-character video id of ASCII letters, digits, `_`
/// and `-`.
pub fn is_valid_id(s: &str) -> (r: bool)
    ensures
        r == valid_id(s@),
{
    valid_id_chars(&chars_of(s))
}

pub open spec fn ends_with(s: Seq<char>, suffix: Seq<char>) -> bool {
    suffix.len() <= s.len() && s.subrange(s.len() - suffix.len(), s.len() as int) == suffix
}

pub open spec fn contains_at(s: Seq<char>, pat: Seq<char>, i: int) -> bool {
    0 <= i && i + pat.len() <= s.len() && s.subrange(i, i + pat.len()) == pat
}

pub open spec fn contains(s: Seq<char>, pat: Seq<char>) -> bool {
    exists|i: int| #[trigger] contains_at(s, pat, i)
}

fn ends_with_chars(s: &Vec<char>, suffix: &Vec<char>) -> (r: bool)
    ensures
        r == ends_with(s@, suffix@),
{
    if suffix.len() > s.len() {
        return false;
    }
    let tail = slice_chars(s, s.len() - suffix.len(), s.len());
    chars_equal(&tail, suffix)
}

fn contains_chars(s: &Vec<char>, pat: &Vec<char>) -> (r: bool)
    ensures
        r == contains(s@, pat@),
{
    if pat.len() > s.len() {
        assert forall|i: int| !#[trigger] contains_at(s@, pat@, i) by {}
        return false;
    }
    if pat.len() == 0 {
        assert(s@.subrange(0, 0) =~= pat@);
        assert(contains_at(s@, pat@, 0));
        return true;
    }
    let last: usize = s.len() - pat.len();
    let mut i: usize = 0;
    while i <= last
        invariant
            pat@.len() <= s@.len(),
            pat@.len() >= 1,
            last == s@.len() - pat@.len(),
            last == s.len() - pat.len(),
            i <= last + 1,
            forall|j: int| 0 <= j < i ==> !#[trigger] contains_at(s@, pat@, j),
        decreases last + 1 - i,
    {
        let w = slice_chars(s, i, i + pat.len());
        if chars_equal(&w, pat) {
            assert(contains_at(s@, pat@, i as int));
            return true;
        }
        i += 1;
    }
    assert forall|j: int| !#[trigger] contains_at(s@, pat@, j) by {
        if 0 <= j && j < i {
        }
    }
    false
}

pub open spec fn first_of_segs(segs: Option<Seq<Seq<char>>>) -> Option<Seq<char>> {
    match segs {
        Some(v) => if v.len() > 0 { Some(v[0]) } else { None },
        None => None,
    }
}

/// The value of the first query pair whose key is `v`.
pub open spec fn first_v(pairs: Seq<(Seq<char>, Seq<char>)>) -> Option<Seq<char>>
    decreases pairs.len(),
{
    if pairs.len() == 0 {
        None
    } else if pairs[0].0 == "v"@ {
        Some(pairs[0].1)
    } else {
        first_v(pairs.drop_first())
    }
}

pub open spec fn is_marker(s: Seq<char>) -> bool {
    s == "shorts"@ || s == "embed"@ || s == "v"@
}

/// The segment after the first `shorts`, `embed` or `v` segment.
pub open spec fn after_marker(parts: Seq<Seq<char>>) -> Option<Seq<char>>
    decreases parts.len(),
{
    if parts.len() == 0 {
        None
    } else if is_marker(parts[0]) {
        if parts.len() > 1 { Some(parts[1]) } else { None }
    } else {
        after_marker(parts.drop_first())
    }
}

/// The video id of a YouTube link: `youtu.be/ID`, `youtube.com/watch?v=ID`,
/// `youtube.com/shorts/ID`, `/embed/ID` or `/v/ID`, tried in that order
/// (the host compared in lower case); `None` when the link is not a URL or
/// names no valid id.
pub open spec fn video_id_spec(raw: Seq<char>) -> Option<Seq<char>> {
    if !url_accepts(raw) {
        None
    } else {
        let host = str_lower_opt(url_host(raw));
        let segs = url_path_segments(raw);
        let short = if ends_with(host, "youtu.be"@) { first_of_segs(segs) } else { None };
        if short is Some && valid_id(short->0) {
            short
        } else if contains(host, "youtube.com"@) {
            let v = first_v(url_query_pairs(raw));
            if v is Some && valid_id(v->0) {
                v
            } else {
                let after = match segs { Some(p) => after_marker(p), None => None };
                if after is Some && valid_id(after->0) { after } else { None }
            }
        } else {
            None
        }
    }
}

/// The host, lower-cased; empty when there is none.
pub open spec fn str_lower_opt(h: Option<Seq<char>>) -> Seq<char> {
    crate::text::str_lower(match h { Some(x) => x, None => seq![] })
}

fn first_v_exec(pairs: &Vec<(String, String)>) -> (r: Option<String>)
    ensures
        match (r, first_v(Seq::new(pairs@.len(), |i: int| (pairs@[i].0@, pairs@[i].1@)))) {
            (Some(a), Some(b)) => a@ == b,
            (None, None) => true,
            _ => false,
        },
{
    let ghost ps = Seq::new(pairs@.len(), |i: int| (pairs@[i].0@, pairs@[i].1@));
    let key = lit("v");
    let mut i: usize = 0;
    assert(ps.skip(0) =~= ps);
    while i < pairs.len()
        invariant
            i <= pairs@.len(),
            ps == Seq::new(pairs@.len(), |i: int| (pairs@[i].0@, pairs@[i].1@)),
            key@ == "v"@,
            first_v(ps) == first_v(ps.skip(i as int)),
        decreases pairs@.len() - i,
    {
        assert(ps.skip(i as int)[0] == ps[i as int]);
        if chars_equal(&chars_of(pairs[i].0.as_str()), &key) {
            return Some(pairs[i].1.clone());
        }
        assert(ps.skip(i as int).drop_first() =~= ps.skip(i + 1));
        i += 1;
    }
    assert(ps.skip(i as int) =~= Seq::<(Seq<char>, Seq<char>)>::empty());
    None
}

fn after_marker_exec(parts: &Vec<String>) -> (r: Option<String>)
    ensures
        match (r, after_marker(string_seqs(parts@))) {
            (Some(a), Some(b)) => a@ == b,
            (None, None) => true,
            _ => false,
        },
{
    let ghost ps = string_seqs(parts@);
    let mut i: usize = 0;
    assert(ps.skip(0) =~= ps);
    while i < parts.len()
        invariant
            i <= parts@.len(),
            ps == string_seqs(parts@),
            after_marker(ps) == after_marker(ps.skip(i as int)),
        decreases parts@.len() - i,
    {
        assert(ps.skip(i as int)[0] == parts@[i as int]@);
        let p = chars_of(parts[i].as_str());
        if chars_equal(&p, &lit("shorts")) || chars_equal(&p, &lit("embed")) || chars_equal(&p, &lit("v")) {
            if i + 1 < parts.len() {
                assert(ps.skip(i as int)[1] == parts@[i + 1]@);
                return Some(parts[i + 1].clone());
            }
            return None;
        }
        assert(ps.skip(i as int).drop_first() =~= ps.skip(i + 1));
        i += 1;
    }
    assert(ps.skip(i as int) =~= Seq::<Seq<char>>::empty());
    None
}

/// The 11-character id of a YouTube link (see `video_id_spec`); anything
/// else is `InvalidUrl`.
pub fn parse_video_id(raw: &str) -> (r: Result<String, AppError>)
    ensures
        match (r, video_id_spec(raw@)) {
            (Ok(id), Some(s)) => id@ == s,
            (Err(AppError::InvalidUrl), None) => true,
            _ => false,
        },
{
    let url = match parse_url(raw) {
        Some(u) => u,
        None => return Err(AppError::InvalidUrl),
    };
    let host_raw = match host_of(&url) {
        Some(h) => h,
        None => String::new(),
    };
    let host_low = lower_of(host_raw.as_str());
    let host = chars_of(host_low.as_str());
    let segs = path_segments_of(&url);
    let ghost segs_v = url_path_segments(raw@);
    if ends_with_chars(&host, &lit("youtu.be")) {
        match &segs {
            Some(v) => {
                assert(string_seqs(v@)[0] == v@[0]@);
                let first = &v[0];
                if is_valid_id(first.as_str()) {
                    return Ok(first.clone());
                }
            },
            None => {},
        }
    }
    if contains_chars(&host, &lit("youtube.com")) {
        let pairs = query_pairs_of(&url);
        match first_v_exec(&pairs) {
            Some(v) => {
                if is_valid_id(v.as_str()) {
                    return Ok(v);
                }
            },
            None => {},
        }
        match &segs {
            Some(parts) => match after_marker_exec(parts) {
                Some(id) => {
                    if is_valid_id(id.as_str()) {
                        return Ok(id);
                    }
                },
                None => {},
            },
            None => {},
        }
    }
    Err(AppError::InvalidUrl)
}

/// Law: every id that `parse_video_id` accepts is 11 characters of ASCII
/// letters, digits, `_` and `-`.
pub proof fn lemma_video_id_valid(raw: Seq<char>)
    ensures
        video_id_spec(raw) matches Some(id) ==> valid_id(id),
{
}

} // verus!
