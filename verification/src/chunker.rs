//! The deterministic side of the language-model chunker: the model choice,
//! the windows of words, the repair of the ranges the model answers, the
//! division of long sentences, and the clips built from the final chunks.

use vstd::prelude::*;
use crate::error::AppError;
use crate::model::{Clip, Span, TimedWord, WhisperWord, clip_matches, clips_match, new_clip_id, timed_words};
use crate::sentence::{
    capitalized_terminated, capitalize_and_terminate_chars, check_word, clean_word_for_prompt_chars,
    prompt_word, strip_for_check_chars,
};
use crate::wordspan::{joined_words, joined_words_chars};
use crate::text::{CharClass, capitalized, trim, trim_chars};
use crate::text::{
    append_chars, chars_equal, chars_of, char_seqs, decimal, decimal_chars, ends_with_terminator,
    is_sentence_end_char, join, join_spaced, lit, slice_chars, split_words, string_of, string_seqs,
    words,
};

verus! {

broadcast use vstd::string::group_string_axioms;

// ───────────────────────── range repair ─────────────────────────

pub open spec fn msg_bad_range(s: nat, e: nat, total: nat) -> Seq<char> {
    "out-of-bounds or inverted range ["@ + decimal(s) + ","@ + decimal(e) + "] (total="@
        + decimal(total) + ")"@
}

pub open spec fn msg_overlap(a: nat, b: nat, s: nat, e: nat) -> Seq<char> {
    "overlapping ranges: prev=("@ + decimal(a) + ","@ + decimal(b) + ") cur=("@ + decimal(s)
        + ","@ + decimal(e) + ")"@
}

/// One step of the repair: fold the range `(s, e)` into the ranges `acc`
/// built so far.
pub open spec fn repair_one(acc: Seq<(usize, usize)>, g: (usize, usize), total: usize) -> Result<
    Seq<(usize, usize)>,
    Seq<char>,
> {
    let (s, e) = g;
    if s > e || e >= total {
        Err(msg_bad_range(s as nat, e as nat, total as nat))
    } else if acc.len() == 0 {
        Ok(seq![(0usize, e)])
    } else {
        let (a, b) = acc.last();
        if s <= b {
            Err(msg_overlap(a as nat, b as nat, s as nat, e as nat))
        } else if s > b + 1 {
            Ok(acc.update(acc.len() - 1, (a, e)))
        } else {
            Ok(acc.push((s, e)))
        }
    }
}

/// The repair folded over `groups`, in order; the first error stops it.
pub open spec fn repair_fold(groups: Seq<(usize, usize)>, total: usize) -> Result<
    Seq<(usize, usize)>,
    Seq<char>,
>
    decreases groups.len(),
{
    if groups.len() == 0 {
        Ok(seq![])
    } else {
        match repair_fold(groups.drop_last(), total) {
            Err(m) => Err(m),
            Ok(acc) => repair_one(acc, groups.last(), total),
        }
    }
}

/// The repaired ranges for `groups` over `total` words, or the message of
/// the error that rejects them.
pub open spec fn repair_spec(groups: Seq<(usize, usize)>, total: usize) -> Result<
    Seq<(usize, usize)>,
    Seq<char>,
> {
    if total == 0 {
        Ok(seq![])
    } else if groups.len() == 0 {
        Err("llm returned no groups"@)
    } else {
        match repair_fold(groups, total) {
            Err(m) => Err(m),
            Ok(acc) => {
                let (a, b) = acc.last();
                if b < total - 1 {
                    Ok(acc.update(acc.len() - 1, (a, (total - 1) as usize)))
                } else {
                    Ok(acc)
                }
            },
        }
    }
}

/// Whether `r` splits the word indices `0..total` into contiguous,
/// non-empty, in-order ranges.
pub open spec fn is_partition(r: Seq<(usize, usize)>, total: usize) -> bool {
    if total == 0 {
        r.len() == 0
    } else {
        &&& r.len() > 0
        &&& r[0].0 == 0
        &&& r.last().1 == total - 1
        &&& forall|i: int| 0 <= i < r.len() ==> #[trigger] r[i].0 <= r[i].1
        &&& forall|i: int| 0 <= i < r.len() - 1 ==> #[trigger] r[i + 1].0 == r[i].1 + 1
    }
}

/// Invariant of the fold: a contiguous cover of `0..=acc.last().1`.
pub open spec fn is_prefix_partition(acc: Seq<(usize, usize)>, total: usize) -> bool {
    &&& acc.len() > 0
    &&& acc[0].0 == 0
    &&& acc.last().1 < total
    &&& forall|i: int| 0 <= i < acc.len() ==> #[trigger] acc[i].0 <= acc[i].1
    &&& forall|i: int| 0 <= i < acc.len() - 1 ==> #[trigger] acc[i + 1].0 == acc[i].1 + 1
}

proof fn lemma_repair_fold_partition(groups: Seq<(usize, usize)>, total: usize)
    requires
        groups.len() > 0,
        repair_fold(groups, total) is Ok,
    ensures
        is_prefix_partition(repair_fold(groups, total)->Ok_0, total),
    decreases groups.len(),
{
    if groups.len() > 1 {
        lemma_repair_fold_partition(groups.drop_last(), total);
    } else {
        assert(groups.drop_last() =~= Seq::<(usize, usize)>::empty());
    }
    let acc = repair_fold(groups.drop_last(), total)->Ok_0;
    let r = repair_fold(groups, total)->Ok_0;
    if acc.len() > 0 {
        assert forall|i: int| 0 <= i < r.len() - 1 implies #[trigger] r[i + 1].0 == r[i].1 + 1 by {
            if i < acc.len() - 1 {
                assert(r[i] == acc[i]);
            }
        }
    }
}

/// Law: whenever the repair succeeds, its ranges split the word indices
/// `0..total` into contiguous, non-empty ranges in order, the first starting
/// at word 0 and the last ending at the final word.
pub proof fn lemma_repair_is_partition(groups: Seq<(usize, usize)>, total: usize)
    requires
        repair_spec(groups, total) is Ok,
    ensures
        is_partition(repair_spec(groups, total)->Ok_0, total),
{
    if total > 0 {
        lemma_repair_fold_partition(groups, total);
        let acc = repair_fold(groups, total)->Ok_0;
        let r = repair_spec(groups, total)->Ok_0;
        assert(r.len() == acc.len());
        assert forall|i: int| 0 <= i < r.len() - 1 implies r[i] == acc[i] by {}
        assert forall|i: int| 0 <= i < r.len() implies #[trigger] r[i].0 <= r[i].1 by {
            assert(acc[i].0 <= acc[i].1);
        }
        assert forall|i: int| 0 <= i < r.len() - 1 implies #[trigger] r[i + 1].0 == r[i].1 + 1 by {
            assert(acc[i + 1].0 == acc[i].1 + 1);
        }
        assert(r[0].0 == 0);
    }
}

proof fn lemma_fold_error_sticks(groups: Seq<(usize, usize)>, k: int, total: usize)
    requires
        0 <= k <= groups.len(),
        repair_fold(groups.take(k), total) is Err,
    ensures
        repair_fold(groups, total) == repair_fold(groups.take(k), total),
    decreases groups.len() - k,
{
    if k < groups.len() {
        assert(groups.take(k + 1).drop_last() =~= groups.take(k));
        lemma_fold_error_sticks(groups, k + 1, total);
    } else {
        assert(groups.take(k) =~= groups);
    }
}

fn bad_range_message(s: usize, e: usize, total: usize) -> (m: String)
    ensures
        m@ == msg_bad_range(s as nat, e as nat, total as nat),
{
    let mut v = lit("out-of-bounds or inverted range [");
    append_chars(&mut v, &decimal_chars(s as u64));
    append_chars(&mut v, &lit(","));
    append_chars(&mut v, &decimal_chars(e as u64));
    append_chars(&mut v, &lit("] (total="));
    append_chars(&mut v, &decimal_chars(total as u64));
    append_chars(&mut v, &lit(")"));
    string_of(&v)
}

fn overlap_message(a: usize, b: usize, s: usize, e: usize) -> (m: String)
    ensures
        m@ == msg_overlap(a as nat, b as nat, s as nat, e as nat),
{
    let mut v = lit("overlapping ranges: prev=(");
    append_chars(&mut v, &decimal_chars(a as u64));
    append_chars(&mut v, &lit(","));
    append_chars(&mut v, &decimal_chars(b as u64));
    append_chars(&mut v, &lit(") cur=("));
    append_chars(&mut v, &decimal_chars(s as u64));
    append_chars(&mut v, &lit(","));
    append_chars(&mut v, &decimal_chars(e as u64));
    append_chars(&mut v, &lit(")"));
    string_of(&v)
}

/// Checks the inclusive word ranges `groups` that the language model
/// returned for `total` words, and repairs them into a contiguous cover:
/// the first range is stretched to start at word 0, a gap between ranges is
/// swallowed by the range before it, and the last range is stretched to the
/// final word. An inverted or out-of-bounds range, a range that starts at
/// or before the end of the previous one, and an empty answer for a
/// non-empty text are errors.
pub fn validate_and_repair(groups: Vec<(usize, usize)>, total: usize) -> (r: Result<
    Vec<(usize, usize)>,
    AppError,
>)
    ensures
        match (r, repair_spec(groups@, total)) {
            (Ok(v), Ok(w)) => v@ == w,
            (Err(AppError::Other(m)), Err(w)) => m@ == w,
            _ => false,
        },
{
    if total == 0 {
        return Ok(Vec::new());
    }
    if groups.len() == 0 {
        return Err(AppError::Other(String::from_str("llm returned no groups")));
    }
    let mut repaired: Vec<(usize, usize)> = Vec::new();
    let mut i: usize = 0;
    assert(groups@.take(0) =~= Seq::<(usize, usize)>::empty());
    while i < groups.len()
        invariant
            i <= groups.len(),
            total > 0,
            repair_fold(groups@.take(i as int), total) == Ok::<Seq<(usize, usize)>, Seq<char>>(repaired@),
            i > 0 ==> repaired@.len() > 0,
        decreases groups.len() - i,
    {
        let (s, e) = groups[i];
        assert(groups@.take(i + 1).drop_last() =~= groups@.take(i as int));
        assert(groups@.take(i + 1).last() == (s, e));
        if s > e || e >= total {
            proof {
                lemma_fold_error_sticks(groups@, i + 1, total);
            }
            return Err(AppError::Other(bad_range_message(s, e, total)));
        }
        if repaired.len() == 0 {
            repaired.push((0, e));
            assert(repaired@ =~= seq![(0usize, e)]);
        } else {
            let last_i: usize = repaired.len() - 1;
            let (a, b) = repaired[last_i];
            if s <= b {
                proof {
                    lemma_fold_error_sticks(groups@, i + 1, total);
                }
                return Err(AppError::Other(overlap_message(a, b, s, e)));
            } else if s > b + 1 {
                repaired.set(last_i, (a, e));
            } else {
                repaired.push((s, e));
            }
        }
        i += 1;
    }
    assert(groups@.take(groups.len() as int) =~= groups@);
    let last_i: usize = repaired.len() - 1;
    let (a, b) = repaired[last_i];
    if b < total - 1 {
        repaired.set(last_i, (a, total - 1));
    }
    Ok(repaired)
}

// ───────────────────────── JSON framing ─────────────────────────

/// `{` count minus `}` count of `t`.
pub open spec fn brace_depth(t: Seq<char>) -> int
    decreases t.len(),
{
    if t.len() == 0 {
        0
    } else {
        brace_depth(t.drop_last()) + (if t.last() == '{' {
            1int
        } else if t.last() == '}' {
            -1int
        } else {
            0int
        })
    }
}

/// `st` is the position of the first `{` of `s`.
pub open spec fn first_open_brace(s: Seq<char>, st: int) -> bool {
    &&& 0 <= st < s.len()
    &&& s[st] == '{'
    &&& forall|j: int| 0 <= j < st ==> s[j] != '{'
}

/// The `{` at `st` is balanced first at `en`.
pub open spec fn closes_at(s: Seq<char>, st: int, en: int) -> bool {
    &&& st <= en < s.len()
    &&& brace_depth(s.subrange(st, en + 1)) == 0
    &&& forall|j: int| st <= j < en ==> brace_depth(#[trigger] s.subrange(st, j + 1)) != 0
}

/// The first balanced `{ ... }` object in `content` (for model answers
/// wrapped in prose or code fences): it starts at the first `{` and ends
/// where the braces first balance; `None` when there is no `{` or the
/// braces never balance.
pub fn extract_json_object(content: &str) -> (r: Option<String>)
    ensures
        match r {
            Some(t) => exists|st: int, en: int|
                first_open_brace(content@, st) && closes_at(content@, st, en)
                    && t@ == content@.subrange(st, en + 1),
            None => (forall|j: int| 0 <= j < content@.len() ==> content@[j] != '{') || exists|
                st: int,
            |
                first_open_brace(content@, st) && forall|j: int|
                    st <= j < content@.len() ==> brace_depth(#[trigger] content@.subrange(st, j + 1))
                        != 0,
        },
{
    let s = chars_of(content);
    let mut st: usize = 0;
    while st < s.len() && s[st] != '{'
        invariant
            st <= s.len(),
            forall|j: int| 0 <= j < st ==> s@[j] != '{',
        decreases s.len() - st,
    {
        st += 1;
    }
    if st == s.len() {
        return None;
    }
    let mut depth: usize = 0;
    let mut i: usize = st;
    assert(s@.subrange(st as int, st as int) =~= Seq::<char>::empty());
    while i < s.len()
        invariant
            st <= i <= s.len(),
            s@ == content@,
            first_open_brace(s@, st as int),
            depth == brace_depth(s@.subrange(st as int, i as int)),
            i > st ==> depth >= 1,
            depth <= i - st,
            forall|j: int| st <= j < i ==> brace_depth(#[trigger] s@.subrange(st as int, j + 1)) != 0,
        decreases s.len() - i,
    {
        assert(s@.subrange(st as int, i + 1).drop_last() =~= s@.subrange(st as int, i as int));
        if s[i] == '{' {
            depth += 1;
        } else if s[i] == '}' {
            depth -= 1;
            if depth == 0 {
                assert(brace_depth(s@.subrange(st as int, i + 1)) == 0);
                assert(closes_at(s@, st as int, i as int));
                let t = slice_chars(&s, st, i + 1);
                return Some(string_of(&t));
            }
        }
        i += 1;
    }
    None
}

// ───────────────────────── group pairs ─────────────────────────

/// `{:?}` of a list of numbers: `[1, 2, 3]`.
pub open spec fn debug_list(g: Seq<usize>) -> Seq<char> {
    "["@ + join(Seq::new(g.len(), |i: int| decimal(g[i] as nat)), ", "@) + "]"@
}

fn debug_list_chars(g: &Vec<usize>) -> (r: Vec<char>)
    ensures
        r@ == debug_list(g@),
{
    let ghost d = Seq::new(g@.len(), |i: int| decimal(g@[i] as nat));
    let mut body: Vec<char> = Vec::new();
    let mut i: usize = 0;
    while i < g.len()
        invariant
            i <= g.len(),
            d.len() == g.len(),
            d == Seq::new(g@.len(), |i: int| decimal(g@[i] as nat)),
            body@ == join(d.take(i as int), ", "@),
        decreases g.len() - i,
    {
        assert(d.take(i + 1).drop_last() =~= d.take(i as int));
        if i > 0 {
            append_chars(&mut body, &lit(", "));
        }
        append_chars(&mut body, &decimal_chars(g[i] as u64));
        if i == 0 {
            assert(body@ =~= join(d.take(1), ", "@));
        } else {
            assert(body@ =~= join(d.take(i + 1), ", "@));
        }
        i += 1;
    }
    assert(d.take(g.len() as int) =~= d);
    let mut r = lit("[");
    append_chars(&mut r, &body);
    append_chars(&mut r, &lit("]"));
    r
}

/// The `[start, end]` pairs of the model's `groups` answer; any entry that
/// is not a pair is an error naming it.
pub fn groups_to_pairs(groups: Vec<Vec<usize>>) -> (r: Result<Vec<(usize, usize)>, AppError>)
    ensures
        match r {
            Ok(v) => {
                &&& forall|i: int| 0 <= i < groups@.len() ==> #[trigger] groups@[i]@.len() == 2
                &&& v@.len() == groups@.len()
                &&& forall|i: int| 0 <= i < v@.len() ==> #[trigger] v@[i] == (groups@[i]@[0], groups@[i]@[1])
            },
            Err(AppError::Other(m)) => exists|k: int|
                0 <= k < groups@.len() && groups@[k]@.len() != 2 && (forall|j: int|
                    0 <= j < k ==> #[trigger] groups@[j]@.len() == 2) && m@
                    == "expected [start, end] pairs, got "@ + debug_list(groups@[k]@),
            _ => false,
        },
{
    let mut out: Vec<(usize, usize)> = Vec::new();
    let mut i: usize = 0;
    while i < groups.len()
        invariant
            i <= groups.len(),
            out@.len() == i,
            forall|j: int| 0 <= j < i ==> #[trigger] groups@[j]@.len() == 2,
            forall|j: int| 0 <= j < i ==> #[trigger] out@[j] == (groups@[j]@[0], groups@[j]@[1]),
        decreases groups.len() - i,
    {
        let g = &groups[i];
        if g.len() != 2 {
            let mut m = lit("expected [start, end] pairs, got ");
            append_chars(&mut m, &debug_list_chars(g));
            return Err(AppError::Other(string_of(&m)));
        }
        out.push((g[0], g[1]));
        i += 1;
    }
    Ok(out)
}

// ───────────────────────── model choice ─────────────────────────

/// The models the user may pick for chunking.
pub open spec fn allowed_model(m: Seq<char>) -> bool {
    m == "gpt-4o-mini"@ || m == "gpt-4o"@ || m == "gpt-4.1-mini"@ || m == "gpt-4.1"@ || m
        == "gpt-4.1-nano"@
}

/// The requested model when it is one of the allowed ones, else the
/// default `gpt-4o-mini`.
pub fn pick_model(requested: &str) -> (r: &'static str)
    ensures
        allowed_model(requested@) ==> r@ == requested@,
        !allowed_model(requested@) ==> r@ == "gpt-4o-mini"@,
{
    let req = chars_of(requested);
    if chars_equal(&req, &lit("gpt-4o-mini")) {
        return "gpt-4o-mini";
    }
    if chars_equal(&req, &lit("gpt-4o")) {
        return "gpt-4o";
    }
    if chars_equal(&req, &lit("gpt-4.1-mini")) {
        return "gpt-4.1-mini";
    }
    if chars_equal(&req, &lit("gpt-4.1")) {
        return "gpt-4.1";
    }
    if chars_equal(&req, &lit("gpt-4.1-nano")) {
        return "gpt-4.1-nano";
    }
    "gpt-4o-mini"
}

// ───────────────────────── text pieces ─────────────────────────

/// `s` with a period added unless it already ends in `.`, `!` or `?`.
pub open spec fn terminate(s: Seq<char>) -> Seq<char> {
    if ends_with_terminator(s) { s } else { s.push('.') }
}

/// Consecutive runs of `m` words; the last run may be shorter.
pub open spec fn chunk_words(ws: Seq<Seq<char>>, m: nat) -> Seq<Seq<Seq<char>>>
    decreases ws.len(),
{
    if ws.len() == 0 {
        seq![]
    } else if ws.len() <= m || m == 0 {
        seq![ws]
    } else {
        seq![ws.take(m as int)] + chunk_words(ws.skip(m as int), m)
    }
}

/// `text` unchanged when it has at most `m` words; otherwise its words in
/// runs of `m`, each run joined by spaces and terminated.
pub open spec fn text_pieces(text: Seq<char>, m: nat) -> Seq<Seq<char>> {
    let ws = words(text);
    if ws.len() <= m {
        seq![text]
    } else {
        let cs = chunk_words(ws, m);
        Seq::new(cs.len(), |i: int| terminate(join(cs[i], seq![' '])))
    }
}

/// Splits `text` into runs of at most `max_words` words.
pub fn split_text_into_pieces(text: &str, max_words: usize) -> (r: Vec<String>)
    requires
        max_words > 0,
    ensures
        string_seqs(r@) == text_pieces(text@, max_words as nat),
{
    let chars = chars_of(text);
    let ws = split_words(&chars);
    if ws.len() <= max_words {
        let mut r: Vec<String> = Vec::new();
        r.push(String::from_str(text));
        assert(string_seqs(r@) =~= seq![text@]);
        return r;
    }
    let ghost wsv = char_seqs(ws@);
    let ghost cs = chunk_words(wsv, max_words as nat);
    let mut out: Vec<String> = Vec::new();
    let mut i: usize = 0;
    assert(wsv.skip(0) =~= wsv);
    while i < ws.len()
        invariant
            i <= ws.len(),
            wsv == char_seqs(ws@),
            max_words > 0,
            cs == chunk_words(wsv, max_words as nat),
            Seq::new(cs.len(), |k: int| terminate(join(cs[k], seq![' '])))
                == string_seqs(out@) + {
                let rest = chunk_words(wsv.skip(i as int), max_words as nat);
                Seq::new(rest.len(), |k: int| terminate(join(rest[k], seq![' '])))
            },
        decreases ws.len() - i,
    {
        let hi = if ws.len() - i <= max_words { ws.len() } else { i + max_words };
        let mut chunk: Vec<Vec<char>> = Vec::new();
        let mut j: usize = i;
        while j < hi
            invariant
                i <= j <= hi <= ws.len(),
                char_seqs(chunk@) == wsv.subrange(i as int, j as int),
                wsv == char_seqs(ws@),
            decreases hi - j,
        {
            let piece = slice_chars(&ws[j], 0, ws[j].len());
            assert(ws[j as int]@.subrange(0, ws[j as int]@.len() as int) =~= ws[j as int]@);
            assert(piece@ == wsv[j as int]);
            let ghost before = char_seqs(chunk@);
            chunk.push(piece);
            assert(char_seqs(chunk@) =~= before.push(wsv[j as int]));
            j += 1;
            assert(char_seqs(chunk@) =~= wsv.subrange(i as int, j as int));
        }
        let mut joined = join_spaced(&chunk);
        if !(joined.len() > 0 && (joined[joined.len() - 1] == '.' || joined[joined.len() - 1] == '!'
            || joined[joined.len() - 1] == '?')) {
            joined.push('.');
        }
        let ghost rest = wsv.skip(i as int);
        proof {
            if rest.len() <= max_words {
                assert(rest =~= wsv.subrange(i as int, hi as int));
                assert(wsv.skip(hi as int) =~= Seq::<Seq<char>>::empty());
            } else {
                assert(rest.take(max_words as int) =~= wsv.subrange(i as int, hi as int));
                assert(rest.skip(max_words as int) =~= wsv.skip(hi as int));
            }
        }
        let ghost o = string_seqs(out@);
        out.push(string_of(&joined));
        proof {
            let tail = chunk_words(wsv.skip(hi as int), max_words as nat);
            let tv = Seq::new(tail.len(), |k: int| terminate(join(tail[k], seq![' '])));
            let rc = chunk_words(rest, max_words as nat);
            let rv = Seq::new(rc.len(), |k: int| terminate(join(rc[k], seq![' '])));
            assert(rv =~= seq![joined@] + tv);
            assert(string_seqs(out@) =~= o.push(joined@));
            assert(o + rv =~= string_seqs(out@) + tv);
        }
        i = hi;
    }
    proof {
        assert(wsv.skip(i as int) =~= Seq::<Seq<char>>::empty());
        let e = chunk_words(wsv.skip(i as int), max_words as nat);
        assert(Seq::new(e.len(), |k: int| terminate(join(e[k], seq![' ']))) =~= Seq::<Seq<char>>::empty());
        assert(string_seqs(out@) + Seq::<Seq<char>>::empty() =~= string_seqs(out@));
    }
    out
}

// ───────────────────────── sentence ends ─────────────────────────

/// Sentence ends match a clip end when within this many milliseconds.
pub const SENTENCE_BOUNDARY_TOL_MS: i64 = 200;

/// Whether some sentence end lies within 200 ms of `end_ms`.
pub open spec fn near_sentence_end(end_ms: int, ends: Seq<u32>) -> bool {
    exists|i: int| 0 <= i < ends.len() && -200 <= #[trigger] ends[i] - end_ms <= 200
}

/// Whether a clip ending at `end_ms` ends a sentence.
pub fn is_sentence_end(end_ms: u32, sentence_end_ms: &[u32]) -> (r: bool)
    ensures
        r == near_sentence_end(end_ms as int, sentence_end_ms@),
{
    let mut i: usize = 0;
    while i < sentence_end_ms.len()
        invariant
            i <= sentence_end_ms@.len(),
            forall|j: int| 0 <= j < i ==> !(-200 <= #[trigger] sentence_end_ms@[j] - end_ms <= 200),
        decreases sentence_end_ms@.len() - i,
    {
        let d = sentence_end_ms[i] as i64 - end_ms as i64;
        if -SENTENCE_BOUNDARY_TOL_MS <= d && d <= SENTENCE_BOUNDARY_TOL_MS {
            return true;
        }
        i += 1;
    }
    false
}

// ───────────────────────── model-driven chunking ─────────────────────────

/// Words per sentence-detection request.
pub const WINDOW_WORDS: usize = 1500;

/// One sentence-detection request: words `start..end`, whether it continues
/// an earlier window, and whether more words follow.
#[derive(Debug, Clone, Copy)]
pub struct Window {
    pub start: usize,
    pub end: usize,
    pub is_continuation: bool,
    pub has_more: bool,
}

/// The windows from word `start` on, for `n` words.
pub open spec fn windows_from(start: int, n: int) -> Seq<(int, int)>
    decreases n - start,
{
    if start < 0 || start >= n {
        seq![]
    } else {
        let end = if start + 1500 < n { start + 1500 } else { n };
        seq![(start, end)] + windows_from(end, n)
    }
}

/// Splits `n` words into consecutive windows of 1500 (the last may be
/// shorter).
pub fn plan_windows(n: usize) -> (r: Vec<Window>)
    ensures
        r@.len() == windows_from(0, n as int).len(),
        forall|i: int| 0 <= i < r@.len() ==> {
            &&& #[trigger] r@[i].start as int == windows_from(0, n as int)[i].0
            &&& r@[i].end as int == windows_from(0, n as int)[i].1
            &&& r@[i].is_continuation == (r@[i].start > 0)
            &&& r@[i].has_more == (r@[i].end < n)
        },
{
    let ghost all = windows_from(0, n as int);
    let mut out: Vec<Window> = Vec::new();
    let ghost mut done: Seq<(int, int)> = seq![];
    let mut start: usize = 0;
    while start < n
        invariant
            start <= n,
            all == windows_from(0, n as int),
            all == done + windows_from(start as int, n as int),
            out@.len() == done.len(),
            forall|i: int| 0 <= i < out@.len() ==> {
                &&& #[trigger] out@[i].start as int == done[i].0
                &&& out@[i].end as int == done[i].1
                &&& out@[i].is_continuation == (out@[i].start > 0)
                &&& out@[i].has_more == (out@[i].end < n)
            },
        decreases n - start,
    {
        let end = if n - start > WINDOW_WORDS { start + WINDOW_WORDS } else { n };
        let ghost o0 = out@;
        out.push(Window { start, end, is_continuation: start > 0, has_more: end < n });
        proof {
            let d0 = done;
            done = done.push((start as int, end as int));
            assert(d0 + (seq![(start as int, end as int)] + windows_from(end as int, n as int))
                =~= done + windows_from(end as int, n as int));
            assert forall|i: int| 0 <= i < out@.len() implies {
                &&& #[trigger] out@[i].start as int == done[i].0
                &&& out@[i].end as int == done[i].1
                &&& out@[i].is_continuation == (out@[i].start > 0)
                &&& out@[i].has_more == (out@[i].end < n)
            } by {
                if i < o0.len() {
                    assert(out@[i] == o0[i]);
                    assert(done[i] == d0[i]);
                }
            }
        }
        start = end;
    }
    assert(done + windows_from(start as int, n as int) =~= done);
    out
}

/// `a + b` wrapping around at the `usize` range.
pub open spec fn wrap_add(a: usize, b: usize) -> usize {
    if a + b > usize::MAX { (a + b - usize::MAX - 1) as usize } else { (a + b) as usize }
}

/// A window's ranges moved by the window's first word.
pub fn offset_ranges(local: &Vec<(usize, usize)>, start: usize) -> (r: Vec<(usize, usize)>)
    ensures
        r@.len() == local@.len(),
        forall|i: int| 0 <= i < r@.len() ==> #[trigger] r@[i] == (wrap_add(start, local@[i].0), wrap_add(start, local@[i].1)),
{
    let mut out: Vec<(usize, usize)> = Vec::new();
    let mut i: usize = 0;
    while i < local.len()
        invariant
            i <= local@.len(),
            out@.len() == i,
            forall|k: int| 0 <= k < i ==> #[trigger] out@[k] == (wrap_add(start, local@[k].0), wrap_add(start, local@[k].1)),
        decreases local@.len() - i,
    {
        let (s, e) = local[i];
        let a = if s > usize::MAX - start { s - (usize::MAX - start) - 1 } else { start + s };
        let b = if e > usize::MAX - start { e - (usize::MAX - start) - 1 } else { start + e };
        out.push((a, b));
        i += 1;
    }
    out
}

/// The views of a list of range lists.
pub open spec fn range_seqs(v: Seq<Vec<(usize, usize)>>) -> Seq<Seq<(usize, usize)>> {
    Seq::new(v.len(), |i: int| v[i]@)
}

/// A window's ranges moved by the window's first word.
pub open spec fn offset_seq(local: Seq<(usize, usize)>, start: usize) -> Seq<(usize, usize)> {
    Seq::new(local.len(), |i: int| (wrap_add(start, local[i].0), wrap_add(start, local[i].1)))
}

/// The sentence ranges of all windows, each reply moved by its window's
/// first word, in window order.
pub open spec fn offset_all(windows: Seq<Window>, replies: Seq<Seq<(usize, usize)>>) -> Seq<(usize, usize)>
    decreases replies.len(),
{
    if replies.len() == 0 || windows.len() == 0 {
        seq![]
    } else {
        offset_all(windows.drop_last(), replies.drop_last())
            + offset_seq(replies.last(), windows.last().start)
    }
}

/// The sentences of the transcript from the model's answers for each
/// window (`replies[i]` answers `windows[i]`): the answers are moved to
/// transcript positions, joined, and repaired over all `n` words.
pub fn collect_sentences(windows: &Vec<Window>, replies: &Vec<Vec<(usize, usize)>>, n: usize) -> (r: Result<
    Vec<(usize, usize)>,
    AppError,
>)
    requires
        windows@.len() == replies@.len(),
    ensures
        match (r, repair_spec(offset_all(windows@, range_seqs(replies@)), n)) {
            (Ok(v), Ok(w)) => v@ == w,
            (Err(AppError::Other(m)), Err(w)) => m@ == w,
            _ => false,
        },
{
    let ghost rs = range_seqs(replies@);
    let mut all: Vec<(usize, usize)> = Vec::new();
    let mut i: usize = 0;
    assert(windows@.take(0) =~= Seq::<Window>::empty());
    while i < replies.len()
        invariant
            i <= replies@.len() == windows@.len(),
            rs == range_seqs(replies@),
            all@ == offset_all(windows@.take(i as int), rs.take(i as int)),
        decreases replies@.len() - i,
    {
        let moved = offset_ranges(&replies[i], windows[i].start);
        proof {
            assert(windows@.take(i + 1).drop_last() =~= windows@.take(i as int));
            assert(rs.take(i + 1).drop_last() =~= rs.take(i as int));
            assert(rs.take(i + 1).last() == replies@[i as int]@);
            assert(moved@ =~= offset_seq(replies@[i as int]@, windows@[i as int].start));
        }
        let ghost a0 = all@;
        let mut k: usize = 0;
        while k < moved.len()
            invariant
                k <= moved@.len(),
                all@ == a0 + moved@.take(k as int),
            decreases moved@.len() - k,
        {
            all.push(moved[k]);
            k += 1;
            assert(all@ =~= a0 + moved@.take(k as int));
        }
        assert(moved@.take(k as int) =~= moved@);
        i += 1;
    }
    assert(windows@.take(i as int) =~= windows@);
    assert(rs.take(i as int) =~= rs);
    validate_and_repair(all, n)
}

/// Whether the sentence `s..=e` is within `max_words` words and `max_ms`
/// milliseconds (else it is subdivided).
pub open spec fn sentence_fits(ws: Seq<TimedWord>, s: int, e: int, max_words: int, max_ms: int) -> bool {
    e - s + 1 <= max_words && ws[e].end - ws[s].start <= max_ms
}

pub fn sentence_fits_caps(words: &[WhisperWord], s: usize, e: usize, max_words: u32, max_ms: u32) -> (r: bool)
    requires
        s <= e < words@.len(),
    ensures
        r == sentence_fits(timed_words(words@), s as int, e as int, max_words as int, max_ms as int),
{
    let span_w = (e - s) as u128 + 1;
    let span_ms = words[e].end_ms as i64 - words[s].start_ms as i64;
    span_w <= max_words as u128 && span_ms <= max_ms as i64
}

/// The chunks of the sentence `s..=e`, each flagged when it ends the
/// sentence. `reply` is the model's subdivision (`None` when the request
/// failed or answered nothing): it is repaired like the sentences, and
/// replaced by the whole sentence when the repair fails; with no reply the
/// sentence stays one chunk.
pub open spec fn sub_chunks_spec(s: usize, e: usize, reply: Option<Seq<(usize, usize)>>) -> Seq<(int, int, bool)> {
    let len = (e - s + 1) as usize;
    match reply {
        Some(local) if local.len() > 0 => {
            let v = match repair_spec(local, len) {
                Ok(r) => r,
                Err(_) => seq![(0usize, (len - 1) as usize)],
            };
            Seq::new(v.len(), |i: int| (s + v[i].0, s + v[i].1, i == v.len() - 1))
        },
        _ => seq![(s as int, e as int, true)],
    }
}

pub open spec fn opt_ranges(r: Option<Vec<(usize, usize)>>) -> Option<Seq<(usize, usize)>> {
    match r {
        Some(v) => Some(v@),
        None => None,
    }
}

pub fn sub_chunks(s: usize, e: usize, reply: Option<Vec<(usize, usize)>>) -> (r: Vec<(usize, usize, bool)>)
    requires
        s <= e < usize::MAX,
    ensures
        r@.len() == sub_chunks_spec(s, e, opt_ranges(reply)).len(),
        forall|i: int| 0 <= i < r@.len() ==> {
            let t = #[trigger] sub_chunks_spec(s, e, opt_ranges(reply))[i];
            r@[i].0 as int == t.0 && r@[i].1 as int == t.1 && r@[i].2 == t.2 && s <= r@[i].0 <= r@[i].1 <= e
        },
{
    let ghost rv = opt_ranges(reply);
    let len = e - s + 1;
    let mut out: Vec<(usize, usize, bool)> = Vec::new();
    match reply {
        Some(local) => {
            if local.len() > 0 {
                let ghost lv = local@;
                let v = match validate_and_repair(local, len) {
                    Ok(r) => {
                        proof {
                            lemma_repair_is_partition(lv, len);
                        }
                        r
                    },
                    Err(_) => {
                        let mut f: Vec<(usize, usize)> = Vec::new();
                        f.push((0, len - 1));
                        f
                    },
                };
                let ghost vs = match repair_spec(lv, len) {
                    Ok(r) => r,
                    Err(_) => seq![(0usize, (len - 1) as usize)],
                };
                assert(v@ == vs);
                assert(is_partition(vs, len));
                assert(sub_chunks_spec(s, e, rv) == Seq::new(vs.len(), |i: int| (s + vs[i].0, s + vs[i].1, i == vs.len() - 1)));
                let n: usize = v.len();
                let mut i: usize = 0;
                while i < n
                    invariant
                        i <= n == v@.len(),
                        v@ == vs,
                        is_partition(vs, len),
                        len == e - s + 1,
                        s <= e,
                        rv == Some(lv),
                        lv.len() > 0,
                        sub_chunks_spec(s, e, rv) == Seq::new(vs.len(), |i: int| (s + vs[i].0, s + vs[i].1, i == vs.len() - 1)),
                        out@.len() == i,
                        forall|k: int| 0 <= k < i ==> {
                            let t = #[trigger] sub_chunks_spec(s, e, rv)[k];
                            out@[k].0 as int == t.0 && out@[k].1 as int == t.1 && out@[k].2 == t.2
                                && s <= out@[k].0 <= out@[k].1 <= e
                        },
                    decreases n - i,
                {
                    let (a, b) = v[i];
                    proof {
                        assert(vs[i as int].0 <= vs[i as int].1);
                        if i < n - 1 {
                            assert(vs[i + 1].0 == vs[i as int].1 + 1);
                        }
                        lemma_partition_bounds(vs, len, i as int);
                    }
                    out.push((s + a, s + b, i == n - 1));
                    i += 1;
                }
            } else {
                out.push((s, e, true));
            }
        },
        None => {
            out.push((s, e, true));
        },
    }
    out
}

proof fn lemma_partition_bounds(v: Seq<(usize, usize)>, total: usize, i: int)
    requires
        is_partition(v, total),
        0 <= i < v.len(),
    ensures
        v[i].1 < total,
    decreases v.len() - i,
{
    if i < v.len() - 1 {
        lemma_partition_bounds(v, total, i + 1);
        assert(v[i + 1].0 == v[i].1 + 1);
        assert(v[i + 1].0 <= v[i + 1].1);
    }
}

/// The chunks of the sentences `sents`, in order: a sentence within the
/// caps is one chunk; a longer one is divided as `sub_chunks_spec` says,
/// with `replies[i]` the model's division of sentence `i`.
pub open spec fn all_chunks(
    ws: Seq<TimedWord>,
    sents: Seq<(usize, usize)>,
    replies: Seq<Option<Seq<(usize, usize)>>>,
    max_words: u32,
    max_ms: u32,
) -> Seq<(int, int, bool)>
    decreases sents.len(),
{
    if sents.len() == 0 || replies.len() == 0 {
        seq![]
    } else {
        let (s, e) = sents.last();
        all_chunks(ws, sents.drop_last(), replies.drop_last(), max_words, max_ms) + if sentence_fits(
            ws,
            s as int,
            e as int,
            max_words as int,
            max_ms as int,
        ) {
            seq![(s as int, e as int, true)]
        } else {
            sub_chunks_spec(s, e, replies.last())
        }
    }
}

/// Law: the chunks of the sentences grow sentence by sentence, and a
/// sentence is kept whole, as one chunk ending the sentence, exactly when it
/// has at most `max_words` words and spans at most `max_ms` milliseconds
/// from its first word's start to its last word's end; a sentence over
/// either cap is replaced by the model's division of it (see
/// `sub_chunks_spec`).
pub proof fn lemma_sentence_kept_whole(
    ws: Seq<TimedWord>,
    sents: Seq<(usize, usize)>,
    replies: Seq<Option<Seq<(usize, usize)>>>,
    max_words: u32,
    max_ms: u32,
    s: usize,
    e: usize,
    reply: Option<Seq<(usize, usize)>>,
)
    requires
        sents.len() == replies.len(),
    ensures
        all_chunks(ws, sents.push((s, e)), replies.push(reply), max_words, max_ms) == all_chunks(
            ws,
            sents,
            replies,
            max_words,
            max_ms,
        ) + if e - s + 1 <= max_words && ws[e as int].end - ws[s as int].start <= max_ms {
            seq![(s as int, e as int, true)]
        } else {
            sub_chunks_spec(s, e, reply)
        },
{
    assert(sents.push((s, e)).drop_last() =~= sents);
    assert(replies.push(reply).drop_last() =~= replies);
}

/// The views of the model's divisions.
pub open spec fn reply_seqs(v: Seq<Option<Vec<(usize, usize)>>>) -> Seq<Option<Seq<(usize, usize)>>> {
    Seq::new(v.len(), |i: int| opt_ranges(v[i]))
}

/// Whether every range lies within `n` words.
pub open spec fn ranges_within(v: Seq<(usize, usize)>, n: int) -> bool {
    forall|i: int| 0 <= i < v.len() ==> #[trigger] v[i].0 <= v[i].1 && (v[i].1 as int) < n
}

/// Which sentences exceed the caps and are sent to the model to be divided.
pub fn oversized(words: &[WhisperWord], sents: &Vec<(usize, usize)>, max_words: u32, max_ms: u32) -> (r: Vec<bool>)
    requires
        ranges_within(sents@, words@.len() as int),
    ensures
        r@.len() == sents@.len(),
        forall|i: int| 0 <= i < r@.len() ==> #[trigger] r@[i] == !sentence_fits(
            timed_words(words@),
            sents@[i].0 as int,
            sents@[i].1 as int,
            max_words as int,
            max_ms as int,
        ),
{
    let mut r: Vec<bool> = Vec::new();
    let mut i: usize = 0;
    while i < sents.len()
        invariant
            i <= sents@.len(),
            ranges_within(sents@, words@.len() as int),
            r@.len() == i,
            forall|k: int| 0 <= k < i ==> #[trigger] r@[k] == !sentence_fits(
                timed_words(words@),
                sents@[k].0 as int,
                sents@[k].1 as int,
                max_words as int,
                max_ms as int,
            ),
        decreases sents@.len() - i,
    {
        let (s, e) = sents[i];
        assert(sents@[i as int].0 <= sents@[i as int].1);
        r.push(!sentence_fits_caps(words, s, e, max_words, max_ms));
        i += 1;
    }
    r
}

/// The final chunks of all sentences (see `all_chunks`): `replies[i]` is
/// the model's division of sentence `i`, `None` when it was not asked or
/// did not answer.
pub fn assemble_chunks(
    words: &[WhisperWord],
    sents: &Vec<(usize, usize)>,
    replies: Vec<Option<Vec<(usize, usize)>>>,
    max_words: u32,
    max_ms: u32,
) -> (r: Vec<(usize, usize, bool)>)
    requires
        ranges_within(sents@, words@.len() as int),
        replies@.len() == sents@.len(),
    ensures
        r@.len() == all_chunks(timed_words(words@), sents@, reply_seqs(replies@), max_words, max_ms).len(),
        forall|i: int| 0 <= i < r@.len() ==> {
            let t = #[trigger] all_chunks(timed_words(words@), sents@, reply_seqs(replies@), max_words, max_ms)[i];
            r@[i].0 as int == t.0 && r@[i].1 as int == t.1 && r@[i].2 == t.2
        },
{
    let ghost tw = timed_words(words@);
    let ghost rp = reply_seqs(replies@);
    let mut replies = replies;
    let mut out: Vec<(usize, usize, bool)> = Vec::new();
    let mut i: usize = 0;
    let n: usize = sents.len();
    while i < n
        invariant
            i <= n == sents@.len() == replies@.len() == rp.len(),
            ranges_within(sents@, words@.len() as int),
            tw == timed_words(words@),
            forall|k: int| i <= k < n ==> #[trigger] opt_ranges(replies@[k]) == rp[k],
            out@.len() == all_chunks(tw, sents@.take(i as int), rp.take(i as int), max_words, max_ms).len(),
            forall|k: int| 0 <= k < out@.len() ==> {
                let t = #[trigger] all_chunks(tw, sents@.take(i as int), rp.take(i as int), max_words, max_ms)[k];
                out@[k].0 as int == t.0 && out@[k].1 as int == t.1 && out@[k].2 == t.2
            },
        decreases n - i,
    {
        let (s, e) = sents[i];
        assert(sents@[i as int].0 <= sents@[i as int].1);
        assert(e < words.len());
        let ghost prev = all_chunks(tw, sents@.take(i as int), rp.take(i as int), max_words, max_ms);
        proof {
            assert(sents@.take(i + 1).drop_last() =~= sents@.take(i as int));
            assert(rp.take(i + 1).drop_last() =~= rp.take(i as int));
            assert(sents@.take(i + 1).last() == sents@[i as int]);
            assert(rp.take(i + 1).last() == rp[i as int]);
        }
        let ghost reply_i = rp[i as int];
        let mut reply: Option<Vec<(usize, usize)>> = None;
        std::mem::swap(&mut reply, &mut replies[i]);
        proof {
            assert forall|k: int| i < k < n implies #[trigger] opt_ranges(replies@[k]) == rp[k] by {}
        }
        let part: Vec<(usize, usize, bool)> = if sentence_fits_caps(words, s, e, max_words, max_ms) {
            let mut one: Vec<(usize, usize, bool)> = Vec::new();
            one.push((s, e, true));
            one
        } else {
            assert(opt_ranges(reply) == reply_i);
            sub_chunks(s, e, reply)
        };
        let ghost piece = if sentence_fits(tw, s as int, e as int, max_words as int, max_ms as int) {
            seq![(s as int, e as int, true)]
        } else {
            sub_chunks_spec(s, e, reply_i)
        };
        assert(all_chunks(tw, sents@.take(i + 1), rp.take(i + 1), max_words, max_ms) == prev + piece);
        assert(part@.len() == piece.len());
        assert(forall|k: int| 0 <= k < part@.len() ==> #[trigger] part@[k].0 as int == piece[k].0
            && part@[k].1 as int == piece[k].1 && part@[k].2 == piece[k].2);
        let ghost o0 = out@;
        let mut k: usize = 0;
        while k < part.len()
            invariant
                k <= part@.len() == piece.len(),
                out@.len() == o0.len() + k,
                o0.len() == prev.len(),
                forall|j: int| 0 <= j < o0.len() ==> #[trigger] out@[j] == o0[j],
                forall|j: int| 0 <= j < k ==> #[trigger] out@[o0.len() + j] == part@[j],
            decreases part@.len() - k,
        {
            out.push(part[k]);
            k += 1;
        }
        proof {
            let cur = prev + piece;
            assert forall|j: int| 0 <= j < out@.len() implies {
                let t = #[trigger] cur[j];
                out@[j].0 as int == t.0 && out@[j].1 as int == t.1 && out@[j].2 == t.2
            } by {
                if j < o0.len() {
                    assert(out@[j] == o0[j]);
                    assert(cur[j] == prev[j]);
                } else {
                    let jj = j - o0.len();
                    assert(out@[o0.len() + jj] == part@[jj]);
                    assert(cur[j] == piece[jj]);
                }
            }
        }
        i += 1;
    }
    assert(sents@.take(n as int) =~= sents@);
    assert(rp.take(n as int) =~= rp);
    out
}

/// Whether the chunks `c` cover the words `lo..=hi` contiguously, in
/// order, each non-empty.
pub open spec fn covers(c: Seq<(int, int, bool)>, lo: int, hi: int) -> bool {
    &&& c.len() > 0
    &&& c[0].0 == lo
    &&& c.last().1 == hi
    &&& forall|i: int| 0 <= i < c.len() ==> #[trigger] c[i].0 <= c[i].1
    &&& forall|i: int| 0 <= i < c.len() - 1 ==> #[trigger] c[i + 1].0 == c[i].1 + 1
}

proof fn lemma_covers_concat(a: Seq<(int, int, bool)>, b: Seq<(int, int, bool)>, lo: int, m: int, hi: int)
    requires
        covers(a, lo, m),
        covers(b, m + 1, hi),
    ensures
        covers(a + b, lo, hi),
{
    let c = a + b;
    assert forall|i: int| 0 <= i < c.len() implies #[trigger] c[i].0 <= c[i].1 by {
        if i < a.len() {
            assert(c[i] == a[i]);
        } else {
            assert(c[i] == b[i - a.len()]);
        }
    }
    assert forall|i: int| 0 <= i < c.len() - 1 implies #[trigger] c[i + 1].0 == c[i].1 + 1 by {
        if i < a.len() - 1 {
            assert(c[i] == a[i] && c[i + 1] == a[i + 1]);
        } else if i == a.len() - 1 {
            assert(c[i] == a.last() && c[i + 1] == b[0]);
        } else {
            let j = i - a.len();
            assert(c[i] == b[j] && c[i + 1] == b[j + 1]);
        }
    }
}

/// A sentence's division covers the sentence.
proof fn lemma_sub_chunks_cover(s: usize, e: usize, reply: Option<Seq<(usize, usize)>>)
    requires
        s <= e < usize::MAX,
    ensures
        covers(sub_chunks_spec(s, e, reply), s as int, e as int),
{
    let len = (e - s + 1) as usize;
    match reply {
        Some(local) => {
            if local.len() > 0 {
                let v = match repair_spec(local, len) {
                    Ok(r) => r,
                    Err(_) => seq![(0usize, (len - 1) as usize)],
                };
                if repair_spec(local, len) is Ok {
                    lemma_repair_is_partition(local, len);
                }
                assert(is_partition(v, len));
                let c = sub_chunks_spec(s, e, reply);
                assert(c == Seq::new(v.len(), |i: int| (s + v[i].0, s + v[i].1, i == v.len() - 1)));
                assert forall|i: int| 0 <= i < c.len() implies #[trigger] c[i].0 <= c[i].1 by {
                    assert(v[i].0 <= v[i].1);
                }
                assert forall|i: int| 0 <= i < c.len() - 1 implies #[trigger] c[i + 1].0 == c[i].1 + 1 by {
                    assert(v[i + 1].0 == v[i].1 + 1);
                }
            }
        },
        None => {},
    }
}

proof fn lemma_all_chunks_cover_prefix(
    ws: Seq<TimedWord>,
    sents: Seq<(usize, usize)>,
    replies: Seq<Option<Seq<(usize, usize)>>>,
    max_words: u32,
    max_ms: u32,
    total: usize,
    k: int,
)
    requires
        is_partition(sents, total),
        replies.len() == sents.len(),
        0 < k <= sents.len(),
    ensures
        covers(
            all_chunks(ws, sents.take(k), replies.take(k), max_words, max_ms),
            0,
            sents[k - 1].1 as int,
        ),
    decreases k,
{
    let (s, e) = sents[k - 1];
    assert(sents[k - 1].0 <= sents[k - 1].1);
    lemma_partition_bounds(sents, total, k - 1);
    assert(sents.take(k).drop_last() =~= sents.take(k - 1));
    assert(replies.take(k).drop_last() =~= replies.take(k - 1));
    assert(sents.take(k).last() == sents[k - 1]);
    assert(replies.take(k).last() == replies[k - 1]);
    let piece = if sentence_fits(ws, s as int, e as int, max_words as int, max_ms as int) {
        seq![(s as int, e as int, true)]
    } else {
        sub_chunks_spec(s, e, replies[k - 1])
    };
    lemma_sub_chunks_cover(s, e, replies[k - 1]);
    assert(covers(piece, s as int, e as int));
    assert(all_chunks(ws, sents.take(k), replies.take(k), max_words, max_ms)
        == all_chunks(ws, sents.take(k - 1), replies.take(k - 1), max_words, max_ms) + piece);
    if k == 1 {
        assert(sents.take(0) =~= Seq::<(usize, usize)>::empty());
        assert(all_chunks(ws, sents.take(0), replies.take(0), max_words, max_ms) =~= Seq::<(int, int, bool)>::empty());
        assert(s == 0);
        assert(seq![] + piece =~= piece);
    } else {
        lemma_all_chunks_cover_prefix(ws, sents, replies, max_words, max_ms, total, k - 1);
        let j = k - 2;
        assert(sents[j + 1].0 == sents[j].1 + 1);
        lemma_covers_concat(
            all_chunks(ws, sents.take(k - 1), replies.take(k - 1), max_words, max_ms),
            piece,
            0,
            sents[k - 2].1 as int,
            e as int,
        );
    }
}

/// Law: when the sentences split the `total` words of the transcript (as
/// the repair guarantees), the final chunks do too: whatever the model
/// answers for the long sentences, every word lands in exactly one chunk,
/// in order, and no chunk is empty.
pub proof fn lemma_chunks_cover_words(
    ws: Seq<TimedWord>,
    sents: Seq<(usize, usize)>,
    replies: Seq<Option<Seq<(usize, usize)>>>,
    max_words: u32,
    max_ms: u32,
    total: usize,
)
    requires
        is_partition(sents, total),
        total > 0,
        replies.len() == sents.len(),
    ensures
        covers(all_chunks(ws, sents, replies, max_words, max_ms), 0, total - 1),
{
    lemma_all_chunks_cover_prefix(ws, sents, replies, max_words, max_ms, total, sents.len() as int);
    assert(sents.take(sents.len() as int) =~= sents);
    assert(replies.take(sents.len() as int) =~= replies);
}

/// The last words of the chunks flagged as ending a sentence, in order.
pub open spec fn flagged_ends(c: Seq<(int, int, bool)>) -> Seq<int>
    decreases c.len(),
{
    if c.len() == 0 {
        seq![]
    } else {
        flagged_ends(c.drop_last()) + (if c.last().2 { seq![c.last().1] } else { seq![] })
    }
}

proof fn lemma_flagged_ends_concat(a: Seq<(int, int, bool)>, b: Seq<(int, int, bool)>)
    ensures
        flagged_ends(a + b) == flagged_ends(a) + flagged_ends(b),
    decreases b.len(),
{
    if b.len() == 0 {
        assert(a + b =~= a);
        assert(flagged_ends(a) + Seq::<int>::empty() =~= flagged_ends(a));
    } else {
        assert((a + b).drop_last() =~= a + b.drop_last());
        lemma_flagged_ends_concat(a, b.drop_last());
        assert(flagged_ends(a) + flagged_ends(b.drop_last()) + (if b.last().2 { seq![b.last().1] } else {
            seq![]
        }) =~= flagged_ends(a) + flagged_ends(b));
    }
}

proof fn lemma_flagged_ends_none(c: Seq<(int, int, bool)>)
    requires
        forall|i: int| 0 <= i < c.len() ==> !(#[trigger] c[i]).2,
    ensures
        flagged_ends(c) == Seq::<int>::empty(),
    decreases c.len(),
{
    if c.len() > 0 {
        assert forall|i: int| 0 <= i < c.drop_last().len() implies !(#[trigger] c.drop_last()[i]).2 by {
            assert(c.drop_last()[i] == c[i]);
        }
        lemma_flagged_ends_none(c.drop_last());
        assert(!c[c.len() - 1].2);
    }
}

/// A sentence's division flags exactly its last chunk, which ends at the
/// sentence's last word.
proof fn lemma_sub_chunks_one_end(s: usize, e: usize, reply: Option<Seq<(usize, usize)>>)
    requires
        s <= e < usize::MAX,
    ensures
        flagged_ends(sub_chunks_spec(s, e, reply)) == seq![e as int],
{
    let c = sub_chunks_spec(s, e, reply);
    lemma_sub_chunks_cover(s, e, reply);
    assert forall|i: int| 0 <= i < c.drop_last().len() implies !(#[trigger] c.drop_last()[i]).2 by {
        assert(c.drop_last()[i] == c[i]);
    }
    lemma_flagged_ends_none(c.drop_last());
    assert(c[c.len() - 1].2);
    assert(flagged_ends(c) == flagged_ends(c.drop_last()) + seq![c.last().1]);
    assert(Seq::<int>::empty() + seq![e as int] =~= seq![e as int]);
}

/// Law: the final chunks end exactly one sentence per sentence, each at the
/// sentence's last word, whatever the model answers for the long ones; so
/// the clips get one sentence-end time per sentence.
pub proof fn lemma_one_end_per_sentence(
    ws: Seq<TimedWord>,
    sents: Seq<(usize, usize)>,
    replies: Seq<Option<Seq<(usize, usize)>>>,
    max_words: u32,
    max_ms: u32,
)
    requires
        forall|i: int| 0 <= i < sents.len() ==> (#[trigger] sents[i]).0 <= sents[i].1 < usize::MAX,
        replies.len() == sents.len(),
    ensures
        flagged_ends(all_chunks(ws, sents, replies, max_words, max_ms)) == Seq::new(
            sents.len(),
            |i: int| sents[i].1 as int,
        ),
    decreases sents.len(),
{
    if sents.len() == 0 {
        assert(flagged_ends(all_chunks(ws, sents, replies, max_words, max_ms)) =~= Seq::new(
            sents.len(),
            |i: int| sents[i].1 as int,
        ));
    } else {
        let (s, e) = sents.last();
        assert(sents[sents.len() - 1].0 <= sents[sents.len() - 1].1);
        assert forall|i: int| 0 <= i < sents.drop_last().len() implies (#[trigger] sents.drop_last()[i]).0
            <= sents.drop_last()[i].1 < usize::MAX by {
            assert(sents.drop_last()[i] == sents[i]);
        }
        lemma_one_end_per_sentence(ws, sents.drop_last(), replies.drop_last(), max_words, max_ms);
        let prev = all_chunks(ws, sents.drop_last(), replies.drop_last(), max_words, max_ms);
        let piece = if sentence_fits(ws, s as int, e as int, max_words as int, max_ms as int) {
            seq![(s as int, e as int, true)]
        } else {
            sub_chunks_spec(s, e, replies.last())
        };
        if sentence_fits(ws, s as int, e as int, max_words as int, max_ms as int) {
            assert(piece.drop_last() =~= Seq::<(int, int, bool)>::empty());
            assert(flagged_ends(piece) == flagged_ends(piece.drop_last()) + seq![e as int]);
            assert(flagged_ends(piece) =~= seq![e as int]);
        } else {
            lemma_sub_chunks_one_end(s, e, replies.last());
        }
        lemma_flagged_ends_concat(prev, piece);
        assert(flagged_ends(all_chunks(ws, sents, replies, max_words, max_ms)) =~= Seq::new(
            sents.len(),
            |i: int| sents[i].1 as int,
        ));
    }
}

/// The clip for words `s..=e`: their text, capitalized and terminated, from
/// the first word's start to the last word's end; none when the range is
/// out of bounds or inverted, or the span is empty.
pub open spec fn one_clip(s: int, e: int, ws: Seq<TimedWord>) -> Option<Span> {
    if s < 0 || s >= ws.len() || e < 0 || e >= ws.len() || e < s {
        None
    } else if ws[e].end <= ws[s].start {
        None
    } else {
        Some(Span {
            id: None,
            start: ws[s].start,
            end: ws[e].end,
            text: capitalized_terminated(joined_words(ws, s, e)),
        })
    }
}

/// Builds the clip for words `s..=e` (see `one_clip`).
pub fn build_one_clip(s: usize, e: usize, words: &[WhisperWord]) -> (r: Option<Clip>)
    ensures
        match (r, one_clip(s as int, e as int, timed_words(words@))) {
            (Some(c), Some(sp)) => clip_matches(c, sp),
            (None, None) => true,
            _ => false,
        },
{
    if s >= words.len() || e >= words.len() || e < s {
        return None;
    }
    let start = words[s].start_ms;
    let end = words[e].end_ms;
    if end <= start {
        return None;
    }
    let joined = joined_words_chars(words, s, e);
    let text = capitalize_and_terminate_chars(&joined);
    Some(Clip { id: new_clip_id(), start_ms: start, end_ms: end, text: string_of(&text) })
}

/// Clips and sentence ends of the model-driven chunker.
pub struct ChunkResult {
    pub clips: Vec<Clip>,
    pub sentence_end_ms: Vec<u32>,
}

/// The clips of the final chunks, in order, skipping those `one_clip`
/// rejects.
pub open spec fn chunk_clips(chunks: Seq<(usize, usize, bool)>, ws: Seq<TimedWord>) -> Seq<Span>
    decreases chunks.len(),
{
    if chunks.len() == 0 {
        seq![]
    } else {
        let c = chunks.last();
        chunk_clips(chunks.drop_last(), ws) + match one_clip(c.0 as int, c.1 as int, ws) {
            Some(sp) => seq![sp],
            None => seq![],
        }
    }
}

/// The end times of the chunks that end a sentence, in order.
pub open spec fn chunk_ends(chunks: Seq<(usize, usize, bool)>, ws: Seq<TimedWord>) -> Seq<u32>
    decreases chunks.len(),
{
    if chunks.len() == 0 {
        seq![]
    } else {
        let c = chunks.last();
        chunk_ends(chunks.drop_last(), ws) + (if c.2 && c.1 < ws.len() { seq![ws[c.1 as int].end as u32] } else { seq![] })
    }
}

/// Builds the clips and sentence ends of the final chunks.
pub fn finish_chunks(chunks: &Vec<(usize, usize, bool)>, words: &[WhisperWord]) -> (r: ChunkResult)
    ensures
        clips_match(r.clips@, chunk_clips(chunks@, timed_words(words@))),
        r.sentence_end_ms@ == chunk_ends(chunks@, timed_words(words@)),
{
    let ghost tw = timed_words(words@);
    let mut clips: Vec<Clip> = Vec::new();
    let mut ends: Vec<u32> = Vec::new();
    let ghost mut target: Seq<Span> = seq![];
    let mut i: usize = 0;
    assert(chunks@.take(0) =~= Seq::<(usize, usize, bool)>::empty());
    while i < chunks.len()
        invariant
            i <= chunks@.len(),
            tw == timed_words(words@),
            target == chunk_clips(chunks@.take(i as int), tw),
            clips_match(clips@, target),
            ends@ == chunk_ends(chunks@.take(i as int), tw),
        decreases chunks@.len() - i,
    {
        assert(chunks@.take(i + 1).drop_last() =~= chunks@.take(i as int));
        assert(chunks@.take(i + 1).last() == chunks@[i as int]);
        let (s, e, is_end) = chunks[i];
        match build_one_clip(s, e, words) {
            Some(c) => {
                let ghost o = clips@;
                let ghost sp = one_clip(s as int, e as int, tw)->Some_0;
                clips.push(c);
                proof {
                    target = target.push(sp);
                    assert forall|k: int| 0 <= k < clips@.len() implies #[trigger] clip_matches(clips@[k], target[k]) by {
                        if k < o.len() {
                            assert(clip_matches(o[k], target[k]));
                        }
                    }
                    assert(chunk_clips(chunks@.take(i + 1), tw) =~= target);
                }
            },
            None => {
                assert(chunk_clips(chunks@.take(i + 1), tw) =~= target);
            },
        }
        if is_end && e < words.len() {
            ends.push(words[e].end_ms);
        }
        assert(ends@ =~= chunk_ends(chunks@.take(i + 1), tw));
        i += 1;
    }
    assert(chunks@.take(chunks@.len() as int) =~= chunks@);
    ChunkResult { clips, sentence_end_ms: ends }
}

/// The chunks as word indices.
pub open spec fn index_chunks(c: Seq<(int, int, bool)>) -> Seq<(usize, usize, bool)> {
    Seq::new(c.len(), |i: int| (c[i].0 as usize, c[i].1 as usize, c[i].2))
}

/// The end time of each of the sentences `sents`: that of its last word.
pub open spec fn sentence_end_times(ws: Seq<TimedWord>, sents: Seq<(usize, usize)>) -> Seq<u32> {
    Seq::new(sents.len(), |i: int| ws[sents[i].1 as int].end as u32)
}

proof fn lemma_chunk_ends_flagged(x: Seq<(int, int, bool)>, y: Seq<(usize, usize, bool)>, ws: Seq<TimedWord>)
    requires
        x.len() == y.len(),
        forall|i: int| 0 <= i < x.len() ==> #[trigger] y[i].1 as int == x[i].1 && y[i].2 == x[i].2,
        forall|k: int| 0 <= k < flagged_ends(x).len() ==> 0 <= #[trigger] flagged_ends(x)[k] < ws.len(),
    ensures
        chunk_ends(y, ws) == Seq::new(flagged_ends(x).len(), |k: int| ws[flagged_ends(x)[k]].end as u32),
    decreases x.len(),
{
    let fe = flagged_ends(x);
    if x.len() == 0 {
        assert(chunk_ends(y, ws) =~= Seq::new(fe.len(), |k: int| ws[fe[k]].end as u32));
    } else {
        let xd = x.drop_last();
        let yd = y.drop_last();
        let fd = flagged_ends(xd);
        assert(fe == fd + (if x.last().2 { seq![x.last().1] } else { seq![] }));
        assert forall|k: int| 0 <= k < fd.len() implies 0 <= #[trigger] fd[k] < ws.len() by {
            assert(fe[k] == fd[k]);
        }
        assert forall|i: int| 0 <= i < xd.len() implies #[trigger] yd[i].1 as int == xd[i].1 && yd[i].2 == xd[i].2 by {
            assert(yd[i] == y[i] && xd[i] == x[i]);
        }
        lemma_chunk_ends_flagged(xd, yd, ws);
        assert(y.last().1 as int == x.last().1 && y.last().2 == x.last().2) by {
            assert(y.last() == y[y.len() - 1]);
        }
        if x.last().2 {
            assert(fe[fd.len() as int] == x.last().1);
        }
        assert(chunk_ends(y, ws) =~= Seq::new(fe.len(), |k: int| ws[fe[k]].end as u32));
    }
}

/// The chunker's result once the sentences are known: `divisions[i]` is the
/// model's division of sentence `i` (`None` when it was not asked, because
/// the sentence is within the caps, or when asking failed, in which case
/// the sentence stays one chunk). The clips are those of the final chunks
/// (see `all_chunks`), and there is one sentence end per sentence: the end
/// of its last word.
pub fn chunks_for_sentences(
    words: &[WhisperWord],
    sents: &Vec<(usize, usize)>,
    divisions: Vec<Option<Vec<(usize, usize)>>>,
    max_words: u32,
    max_ms: u32,
) -> (r: ChunkResult)
    requires
        ranges_within(sents@, words@.len() as int),
        divisions@.len() == sents@.len(),
    ensures
        clips_match(
            r.clips@,
            chunk_clips(
                index_chunks(all_chunks(timed_words(words@), sents@, reply_seqs(divisions@), max_words, max_ms)),
                timed_words(words@),
            ),
        ),
        r.sentence_end_ms@ == sentence_end_times(timed_words(words@), sents@),
{
    let ghost tw = timed_words(words@);
    let ghost rp = reply_seqs(divisions@);
    let n = words.len();
    let chunks = assemble_chunks(words, sents, divisions, max_words, max_ms);
    let ghost all = all_chunks(tw, sents@, rp, max_words, max_ms);
    proof {
        assert(chunks@ =~= index_chunks(all)) by {
            assert forall|i: int| 0 <= i < chunks@.len() implies chunks@[i] == #[trigger] index_chunks(all)[i] by {
                let t = all[i];
                assert(chunks@[i].0 as int == t.0 && chunks@[i].1 as int == t.1 && chunks@[i].2 == t.2);
            }
        }
        assert(ranges_within(sents@, words@.len() as int));
        assert forall|i: int| 0 <= i < sents@.len() implies (#[trigger] sents@[i]).0 <= sents@[i].1 < usize::MAX by {
            let t = sents@[i];
            assert(t.0 <= t.1 && (t.1 as int) < (words@.len() as int));
            assert(words@.len() == n);
        }
        lemma_one_end_per_sentence(tw, sents@, rp, max_words, max_ms);
        let fe = flagged_ends(all);
        assert forall|k: int| 0 <= k < fe.len() implies 0 <= #[trigger] fe[k] < tw.len() by {
            assert(fe[k] == sents@[k].1 as int);
            assert(sents@[k].0 <= sents@[k].1 && (sents@[k].1 as int) < words@.len());
        }
        assert forall|i: int| 0 <= i < all.len() implies #[trigger] chunks@[i].1 as int == all[i].1 && chunks@[i].2
            == all[i].2 by {
            let t = all[i];
            assert(chunks@[i].0 as int == t.0 && chunks@[i].1 as int == t.1 && chunks@[i].2 == t.2);
        }
        lemma_chunk_ends_flagged(all, chunks@, tw);
        assert(Seq::new(fe.len(), |k: int| tw[fe[k]].end as u32) =~= sentence_end_times(tw, sents@));
    }
    finish_chunks(&chunks, words)
}

/// An empty or blank key is refused before any request is made.
pub fn check_api_key(api_key: &str) -> (r: Result<(), AppError>)
    ensures
        r is Ok <==> trim(api_key@).len() > 0,
        r matches Err(AppError::Other(m)) ==> m@ == "OpenAI API key is empty"@,
        r matches Err(e) ==> e is Other,
{
    let t = trim_chars(&chars_of(api_key), CharClass::WhiteSpace);
    if t.len() == 0 {
        Err(AppError::Other(String::from_str("OpenAI API key is empty")))
    } else {
        Ok(())
    }
}

// ───────────────────────── string-level helpers ─────────────────────────

/// A word as shown to the language model: trimmed, then stripped of
/// `.` `,` `!` `?` `;` `:` `"` `“` `”` at both ends.
pub fn clean_word_for_prompt(raw: &str) -> (r: String)
    ensures
        r@ == prompt_word(raw@),
{
    let v = chars_of(raw);
    string_of(&clean_word_for_prompt_chars(&v))
}

/// A word as the stop-word check sees it: trimmed, stripped at both ends of
/// everything but letters, digits and apostrophes, lower-cased.
pub fn strip_for_check(s: &str) -> (r: String)
    ensures
        r@ == check_word(s@),
{
    let v = chars_of(s);
    string_of(&strip_for_check_chars(&v))
}

/// `s` with its first character upper-cased; when it does not then end in
/// `.`, `!` or `?`, dangling clause punctuation is dropped and a period
/// added. The empty string stays empty.
pub fn capitalize_first_and_terminate(s: &str) -> (r: String)
    ensures
        r@ == capitalized_terminated(s@),
        r@.len() == 0 <==> s@.len() == 0,
        r@.len() > 0 ==> is_sentence_end_char(r@.last()),
        s@.len() > 0 && is_sentence_end_char(s@.last()) ==> r@ == capitalized(s@),
{
    let v = chars_of(s);
    string_of(&capitalize_and_terminate_chars(&v))
}

} // verus!
