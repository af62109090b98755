//! The bounds passes run on every clip list before it is shown: split what
//! is over the caps, merge what is under the floors, and extend clips that
//! end on a stop word.

use vstd::prelude::*;
use crate::model::{Clip, Span, span_of, spans_of, clips_match, clip_matches, copy_clip, new_clip_id};
use crate::text::{
    CharClass, chars_of, count_words, trim_end, trim_start, trim_end_chars, trim_start_chars,
    string_of, append_chars, word_count, trim,
};
use crate::chunker::{near_sentence_end, is_sentence_end};
use crate::model::{WhisperWord, TimedWord, timed_words};
use crate::sentence::{capitalized_terminated, capitalize_and_terminate_chars, check_word, strip_for_check_chars};
use crate::wordlists::{forbidden_tail_word, is_forbidden_tail, lemma_stop_word_not_empty};
use crate::wordspan::{joined_words, joined_words_chars, lemma_joined_words_not_empty};
use crate::chunker::{terminate, chunk_words, text_pieces, split_text_into_pieces};
use crate::text::{ends_with_terminator, words, words_acc, join, join_spaced, char_seqs, slice_chars, split_words, string_seqs, unicode_white_space, lemma_white_space_examples};

verus! {

// ───────────────────────── splitting long clips ─────────────────────────

/// Total number of characters of `ps`.
pub open spec fn total_len(ps: Seq<Seq<char>>) -> nat
    decreases ps.len(),
{
    if ps.len() == 0 { 0 } else { total_len(ps.drop_last()) + ps.last().len() }
}

/// `start + (end - start) * p / t`, rounded to the nearest millisecond
/// (halves up).
pub open spec fn round_pos(start: int, end: int, p: int, t: int) -> int {
    (2 * (start * t + (end - start) * p) + t) / (2 * t)
}

/// The clips for the pieces `ps` of `c`: the time span of `c` is shared out
/// in proportion to the pieces' character counts. They get fresh
/// identifiers.
pub open spec fn piece_spans(c: Span, ps: Seq<Seq<char>>) -> Seq<Span> {
    let t = if total_len(ps) == 0 { 1 } else { total_len(ps) as int };
    Seq::new(
        ps.len(),
        |i: int|
            Span {
                id: None,
                start: round_pos(c.start, c.end, total_len(ps.take(i)) as int, t),
                end: round_pos(c.start, c.end, total_len(ps.take(i + 1)) as int, t),
                text: ps[i],
            },
    )
}

/// The two pieces of the words `ws` cut after the first `k`: each joined
/// by spaces and terminated.
pub open spec fn halves(ws: Seq<Seq<char>>, k: int) -> Seq<Seq<char>> {
    seq![terminate(join(ws.take(k), seq![' '])), terminate(join(ws.skip(k), seq![' ']))]
}

/// How far the cut after `k` words is from the middle: the difference in
/// length of the two pieces (their times are shared by length).
pub open spec fn cut_gap(ws: Seq<Seq<char>>, k: int) -> int {
    let h = halves(ws, k);
    if h[0].len() >= h[1].len() { h[0].len() - h[1].len() } else { h[1].len() - h[0].len() }
}

/// The cut among `1..=j` nearest the middle; the earliest on ties.
pub open spec fn best_cut(ws: Seq<Seq<char>>, j: int) -> int
    decreases j,
{
    if j <= 1 {
        1
    } else {
        let b = best_cut(ws, j - 1);
        if cut_gap(ws, j) < cut_gap(ws, b) { j } else { b }
    }
}

/// The word boundary nearest the temporal middle of a clip of the words
/// `ws` (at least two).
pub open spec fn mid_cut(ws: Seq<Seq<char>>) -> int {
    best_cut(ws, ws.len() - 1)
}

/// A clip longer than `max_ms` bisected at the word boundary nearest its
/// middle, and its halves likewise, until each piece is within `max_ms` or
/// has a single word (`budget` bounds the depth). The pieces share the time
/// span by length and get fresh identifiers.
pub open spec fn bisect_spans(c: Span, max_ms: int, budget: nat) -> Seq<Span>
    decreases budget,
{
    let ws = words(c.text);
    if budget == 0 || c.end - c.start <= max_ms || ws.len() <= 1 {
        seq![c]
    } else {
        let ps = piece_spans(c, halves(ws, mid_cut(ws)));
        bisect_spans(ps[0], max_ms, (budget - 1) as nat) + bisect_spans(ps[1], max_ms, (budget - 1) as nat)
    }
}

/// Every clip of `ps` bisected down to the time cap.
pub open spec fn bisect_all(ps: Seq<Span>, max_ms: int) -> Seq<Span>
    decreases ps.len(),
{
    if ps.len() == 0 {
        seq![]
    } else {
        bisect_all(ps.drop_last(), max_ms) + bisect_spans(ps.last(), max_ms, word_count(ps.last().text))
    }
}

/// One clip after the split pass: kept when within `max_w` words and
/// `max_ms` milliseconds; otherwise split into runs of at most `max_w`
/// words, and every run longer than `max_ms` bisected near its middle.
pub open spec fn max_spans(c: Span, max_w: int, max_ms: int) -> Seq<Span> {
    if word_count(c.text) <= max_w && c.end - c.start <= max_ms {
        seq![c]
    } else {
        bisect_all(piece_spans(c, text_pieces(c.text, max_w as nat)), max_ms)
    }
}

/// The clips after the split pass, in order.
pub open spec fn enforce_max_spec(cs: Seq<Span>, max_w: int, max_ms: int) -> Seq<Span>
    decreases cs.len(),
{
    if cs.len() == 0 {
        seq![]
    } else {
        enforce_max_spec(cs.drop_last(), max_w, max_ms) + max_spans(cs.last(), max_w, max_ms)
    }
}

// ───────────────────────── the word cap of the split pass ─────────────────────────

/// The number of white-space characters in `s`.
pub open spec fn ws_count(s: Seq<char>) -> nat
    decreases s.len(),
{
    if s.len() == 0 {
        0
    } else {
        (if unicode_white_space(s[0]) { 1nat } else { 0nat }) + ws_count(s.drop_first())
    }
}

pub(crate) proof fn lemma_ws_count_single(c: char)
    ensures
        ws_count(seq![c]) == if unicode_white_space(c) { 1nat } else { 0nat },
{
    assert(seq![c].drop_first() =~= Seq::<char>::empty());
    assert(ws_count(Seq::<char>::empty()) == 0);
}

pub(crate) proof fn lemma_ws_count_concat(a: Seq<char>, b: Seq<char>)
    ensures
        ws_count(a + b) == ws_count(a) + ws_count(b),
    decreases a.len(),
{
    if a.len() == 0 {
        assert(a + b =~= b);
    } else {
        assert((a + b).drop_first() =~= a.drop_first() + b);
        lemma_ws_count_concat(a.drop_first(), b);
    }
}

/// There are never more words than white-space characters plus one.
pub(crate) proof fn lemma_word_count_bound(s: Seq<char>, cur: Seq<char>)
    ensures
        words_acc(s, cur).len() <= ws_count(s) + 1,
    decreases s.len(),
{
    if s.len() > 0 {
        if unicode_white_space(s[0]) {
            lemma_word_count_bound(s.drop_first(), seq![]);
        } else {
            lemma_word_count_bound(s.drop_first(), cur.push(s[0]));
        }
    }
}

/// The words of a text contain no white space.
proof fn lemma_words_blank_free(s: Seq<char>, cur: Seq<char>)
    requires
        ws_count(cur) == 0,
    ensures
        forall|i: int| 0 <= i < words_acc(s, cur).len() ==> ws_count(#[trigger] words_acc(s, cur)[i]) == 0,
    decreases s.len(),
{
    let w = words_acc(s, cur);
    if s.len() == 0 {
        assert forall|i: int| 0 <= i < w.len() implies ws_count(#[trigger] w[i]) == 0 by {
            assert(w[i] == cur);
        }
    } else if unicode_white_space(s[0]) {
        lemma_words_blank_free(s.drop_first(), seq![]);
        let head: Seq<Seq<char>> = if cur.len() > 0 { seq![cur] } else { seq![] };
        let rest = words_acc(s.drop_first(), seq![]);
        assert(w == head + rest);
        assert forall|i: int| 0 <= i < w.len() implies ws_count(#[trigger] w[i]) == 0 by {
            if i >= head.len() {
                assert(w[i] == rest[i - head.len()]);
            } else {
                assert(w[i] == cur);
            }
        }
    } else {
        lemma_ws_count_concat(cur, seq![s[0]]);
        lemma_ws_count_single(s[0]);
        assert(cur.push(s[0]) =~= cur + seq![s[0]]);
        lemma_words_blank_free(s.drop_first(), cur.push(s[0]));
        assert(w == words_acc(s.drop_first(), cur.push(s[0])));
    }
}

/// Joining `c.len()` blank-free pieces by spaces makes `c.len() - 1`
/// white-space characters.
pub(crate) proof fn lemma_join_ws_count(c: Seq<Seq<char>>)
    requires
        c.len() > 0,
        forall|i: int| 0 <= i < c.len() ==> ws_count(#[trigger] c[i]) == 0,
    ensures
        ws_count(join(c, seq![' '])) == c.len() - 1,
    decreases c.len(),
{
    if c.len() > 1 {
        lemma_join_ws_count(c.drop_last());
        let j = join(c.drop_last(), seq![' ']);
        lemma_ws_count_concat(j, seq![' ']);
        lemma_ws_count_concat(j + seq![' '], c.last());
        lemma_ws_count_single(' ');
        lemma_white_space_examples();
        assert(ws_count(c.last()) == 0);
    }
}

/// Each run of `chunk_words` has between 1 and `m` words, all taken from
/// `ws`.
proof fn lemma_chunk_runs(ws: Seq<Seq<char>>, m: nat)
    requires
        m > 0,
    ensures
        forall|i: int| 0 <= i < chunk_words(ws, m).len() ==> {
            &&& 1 <= #[trigger] chunk_words(ws, m)[i].len() <= m
            &&& forall|j: int| 0 <= j < chunk_words(ws, m)[i].len() ==> ws.contains(chunk_words(ws, m)[i][j])
        },
    decreases ws.len(),
{
    let cs = chunk_words(ws, m);
    if ws.len() > m {
        lemma_chunk_runs(ws.skip(m as int), m);
        let rest = chunk_words(ws.skip(m as int), m);
        assert forall|i: int| 0 <= i < cs.len() implies {
            &&& 1 <= #[trigger] cs[i].len() <= m
            &&& forall|j: int| 0 <= j < cs[i].len() ==> ws.contains(cs[i][j])
        } by {
            if i == 0 {
                assert(cs[0] == ws.take(m as int));
                assert forall|j: int| 0 <= j < cs[0].len() implies ws.contains(cs[0][j]) by {
                    assert(ws[j] == cs[0][j]);
                }
            } else {
                assert(cs[i] == rest[i - 1]);
                assert forall|j: int| 0 <= j < cs[i].len() implies ws.contains(cs[i][j]) by {
                    let x = cs[i][j];
                    assert(ws.skip(m as int).contains(x));
                    let k = choose|k: int| 0 <= k < ws.skip(m as int).len() && ws.skip(m as int)[k] == x;
                    assert(ws[k + m] == x);
                }
            }
        }
    } else if ws.len() > 0 {
        assert forall|i: int| 0 <= i < cs.len() implies {
            &&& 1 <= #[trigger] cs[i].len() <= m
            &&& forall|j: int| 0 <= j < cs[i].len() ==> ws.contains(cs[i][j])
        } by {
            assert(cs[i] == ws);
            assert forall|j: int| 0 <= j < cs[i].len() implies ws.contains(cs[i][j]) by {
                assert(ws[j] == cs[i][j]);
            }
        }
    }
}

/// Every piece of a text split into runs of `m` words has at most `m`
/// words.
proof fn lemma_pieces_word_cap(text: Seq<char>, m: nat)
    requires
        m > 0,
    ensures
        forall|i: int| 0 <= i < text_pieces(text, m).len() ==> word_count(#[trigger] text_pieces(text, m)[i]) <= m,
{
    let ws = words(text);
    if ws.len() > m {
        let cs = chunk_words(ws, m);
        lemma_chunk_runs(ws, m);
        lemma_words_blank_free(text, seq![]);
        assert forall|i: int| 0 <= i < text_pieces(text, m).len() implies word_count(
            #[trigger] text_pieces(text, m)[i],
        ) <= m by {
            let c = cs[i];
            assert(1 <= c.len() <= m);
            assert forall|j: int| 0 <= j < c.len() implies ws_count(#[trigger] c[j]) == 0 by {
                assert(ws.contains(c[j]));
                let k = choose|k: int| 0 <= k < ws.len() && ws[k] == c[j];
                assert(ws_count(ws[k]) == 0);
            }
            lemma_join_ws_count(c);
            let jn = join(c, seq![' ']);
            let t = terminate(jn);
            if t != jn {
                lemma_ws_count_concat(jn, seq!['.']);
                lemma_ws_count_single('.');
                lemma_white_space_examples();
                assert(t =~= jn + seq!['.']);
            }
            assert(ws_count(t) == c.len() - 1);
            lemma_word_count_bound(t, seq![]);
            assert(text_pieces(text, m)[i] == t);
        }
    }
}

proof fn lemma_round_pos_ends(start: int, end: int, t: int)
    requires
        t >= 1,
    ensures
        round_pos(start, end, 0, t) == start,
        round_pos(start, end, t, t) == end,
{
    assert((2 * (start * t + (end - start) * 0) + t) / (2 * t) == start) by (nonlinear_arith)
        requires t >= 1;
    assert((2 * (start * t + (end - start) * t) + t) / (2 * t) == end) by (nonlinear_arith)
        requires t >= 1;
}

/// Law: the pieces of a split clip follow one another without gaps: the
/// first starts where the clip starts, each starts where the one before it
/// ends, and (when the pieces hold any text) the last ends where the clip
/// ends.
pub proof fn lemma_pieces_chain(c: Span, ps: Seq<Seq<char>>)
    requires
        ps.len() > 0,
    ensures
        piece_spans(c, ps)[0].start == c.start,
        forall|i: int| 0 <= i < ps.len() - 1 ==> (#[trigger] piece_spans(c, ps)[i + 1]).start == piece_spans(c, ps)[i].end,
        total_len(ps) > 0 ==> piece_spans(c, ps)[ps.len() - 1].end == c.end,
{
    let t = if total_len(ps) == 0 { 1 } else { total_len(ps) as int };
    assert(ps.take(0) =~= Seq::<Seq<char>>::empty());
    assert(total_len(ps.take(0)) == 0);
    lemma_round_pos_ends(c.start, c.end, t);
    assert(ps.take(ps.len() as int) =~= ps);
}

/// Law: a text of `n` words with more than `m` words is cut into
/// `ceil(n / m)` runs, each ending in `.`, `!` or `?`.
pub proof fn lemma_pieces_count(text: Seq<char>, m: nat)
    requires
        m > 0,
        words(text).len() > m,
    ensures
        text_pieces(text, m).len() == (words(text).len() + m - 1) / (m as int),
        forall|i: int| 0 <= i < text_pieces(text, m).len() ==> ends_with_terminator(#[trigger] text_pieces(text, m)[i]),
{
    lemma_chunk_count(words(text), m);
    lemma_white_space_examples();
}

/// The runs of `chunk_words` put back together are the words, in order.
proof fn lemma_chunk_flatten(ws: Seq<Seq<char>>, m: nat)
    requires
        m > 0,
    ensures
        chunk_words(ws, m).flatten() == ws,
    decreases ws.len(),
{
    let cs = chunk_words(ws, m);
    if ws.len() == 0 {
        assert(cs.flatten() =~= ws);
    } else if ws.len() <= m {
        assert(cs.drop_first() =~= Seq::<Seq<Seq<char>>>::empty());
        assert(cs.drop_first().flatten() == Seq::<Seq<char>>::empty());
        assert(cs.first() == ws);
        assert(cs.flatten() =~= ws);
    } else {
        lemma_chunk_flatten(ws.skip(m as int), m);
        assert(cs.drop_first() =~= chunk_words(ws.skip(m as int), m));
        assert(ws.take(m as int) + ws.skip(m as int) =~= ws);
    }
}

/// Law: a text of at most `m` words is one piece, the text itself; a longer
/// one is cut into runs of its words, in order and none left out or
/// repeated, each run of 1 to `m` words joined by spaces and ended with a
/// period unless its last word already ends in `.`, `!` or `?`; every
/// piece has at most `m` words.
pub proof fn lemma_pieces_shape(text: Seq<char>, m: nat)
    requires
        m > 0,
    ensures
        words(text).len() <= m ==> text_pieces(text, m) == seq![text],
        words(text).len() > m ==> {
            let runs = chunk_words(words(text), m);
            &&& runs.flatten() == words(text)
            &&& text_pieces(text, m).len() == runs.len()
            &&& forall|i: int| 0 <= i < runs.len() ==> {
                &&& 1 <= (#[trigger] runs[i]).len() <= m
                &&& text_pieces(text, m)[i] == terminate(join(runs[i], seq![' ']))
            }
        },
        forall|i: int| 0 <= i < text_pieces(text, m).len() ==> word_count(#[trigger] text_pieces(text, m)[i]) <= m,
{
    lemma_pieces_word_cap(text, m);
    if words(text).len() > m {
        lemma_chunk_flatten(words(text), m);
        lemma_chunk_runs(words(text), m);
    } else {
        assert(word_count(text) == words(text).len());
    }
}

proof fn lemma_chunk_count(ws: Seq<Seq<char>>, m: nat)
    requires
        m > 0,
    ensures
        chunk_words(ws, m).len() == (ws.len() + m - 1) / (m as int),
    decreases ws.len(),
{
    let n = ws.len() as int;
    let mm = m as int;
    if ws.len() == 0 {
        assert((0 + mm - 1) / mm == 0) by (nonlinear_arith)
            requires mm > 0;
    } else if ws.len() <= m {
        assert((n + mm - 1) / mm == 1) by (nonlinear_arith)
            requires mm > 0, 1 <= n <= mm;
    } else {
        lemma_chunk_count(ws.skip(m as int), m);
        assert((n + mm - 1) / mm == 1 + ((n - mm) + mm - 1) / mm) by (nonlinear_arith)
            requires mm > 0, n > mm;
    }
}

/// A run of blank-free words, joined and terminated, has at most as many
/// words as the run.
proof fn lemma_run_words(c: Seq<Seq<char>>)
    requires
        c.len() > 0,
        forall|j: int| 0 <= j < c.len() ==> ws_count(#[trigger] c[j]) == 0,
    ensures
        word_count(terminate(join(c, seq![' ']))) <= c.len(),
{
    lemma_join_ws_count(c);
    let jn = join(c, seq![' ']);
    let t = terminate(jn);
    if t != jn {
        lemma_ws_count_concat(jn, seq!['.']);
        lemma_ws_count_single('.');
        lemma_white_space_examples();
        assert(t =~= jn + seq!['.']);
    }
    lemma_word_count_bound(t, seq![]);
}

proof fn lemma_best_cut_range(ws: Seq<Seq<char>>, j: int)
    ensures
        1 <= best_cut(ws, j) <= (if j <= 1 { 1 } else { j }),
    decreases j,
{
    if j > 1 {
        lemma_best_cut_range(ws, j - 1);
    }
}

/// Each half of a text's words cut after `k` has fewer words than the
/// text.
proof fn lemma_halves_words(t: Seq<char>, k: int)
    requires
        1 <= k < words(t).len(),
    ensures
        word_count(halves(words(t), k)[0]) <= k,
        word_count(halves(words(t), k)[1]) <= words(t).len() - k,
{
    let ws = words(t);
    lemma_words_blank_free(t, seq![]);
    let a = ws.take(k);
    let b = ws.skip(k);
    assert forall|j: int| 0 <= j < a.len() implies ws_count(#[trigger] a[j]) == 0 by {
        assert(a[j] == ws[j]);
    }
    assert forall|j: int| 0 <= j < b.len() implies ws_count(#[trigger] b[j]) == 0 by {
        assert(b[j] == ws[j + k]);
    }
    lemma_run_words(a);
    lemma_run_words(b);
}

/// Bisecting never gives a piece more words than the clip had.
proof fn lemma_bisect_words(c: Span, max_ms: int, budget: nat)
    ensures
        forall|i: int| 0 <= i < bisect_spans(c, max_ms, budget).len()
            ==> word_count(#[trigger] bisect_spans(c, max_ms, budget)[i].text) <= word_count(c.text),
    decreases budget,
{
    let ws = words(c.text);
    if !(budget == 0 || c.end - c.start <= max_ms || ws.len() <= 1) {
        let k = mid_cut(ws);
        lemma_best_cut_range(ws, ws.len() - 1);
        lemma_halves_words(c.text, k);
        let ps = piece_spans(c, halves(ws, k));
        let b = (budget - 1) as nat;
        lemma_bisect_words(ps[0], max_ms, b);
        lemma_bisect_words(ps[1], max_ms, b);
        let l = bisect_spans(ps[0], max_ms, b);
        let r = bisect_spans(ps[1], max_ms, b);
        assert(bisect_spans(c, max_ms, budget) == l + r);
        assert forall|i: int| 0 <= i < (l + r).len() implies word_count(#[trigger] (l + r)[i].text)
            <= word_count(c.text) by {
            if i < l.len() {
                assert((l + r)[i] == l[i]);
            } else {
                assert((l + r)[i] == r[i - l.len()]);
            }
        }
    }
}

/// With a budget of at least its word count, a bisected clip ends in
/// pieces that are within the time cap or have a single word.
proof fn lemma_bisect_leaves(c: Span, max_ms: int, budget: nat)
    requires
        budget >= word_count(c.text),
    ensures
        forall|i: int| 0 <= i < bisect_spans(c, max_ms, budget).len() ==> {
            let x = #[trigger] bisect_spans(c, max_ms, budget)[i];
            x.end - x.start <= max_ms || word_count(x.text) <= 1
        },
    decreases budget,
{
    let ws = words(c.text);
    if !(budget == 0 || c.end - c.start <= max_ms || ws.len() <= 1) {
        let k = mid_cut(ws);
        lemma_best_cut_range(ws, ws.len() - 1);
        lemma_halves_words(c.text, k);
        let ps = piece_spans(c, halves(ws, k));
        let b = (budget - 1) as nat;
        assert(ps[0].text == halves(ws, k)[0]);
        assert(ps[1].text == halves(ws, k)[1]);
        lemma_bisect_leaves(ps[0], max_ms, b);
        lemma_bisect_leaves(ps[1], max_ms, b);
        let l = bisect_spans(ps[0], max_ms, b);
        let r = bisect_spans(ps[1], max_ms, b);
        assert(bisect_spans(c, max_ms, budget) == l + r);
        assert forall|i: int| 0 <= i < (l + r).len() implies {
            let x = #[trigger] (l + r)[i];
            x.end - x.start <= max_ms || word_count(x.text) <= 1
        } by {
            if i < l.len() {
                assert((l + r)[i] == l[i]);
            } else {
                assert((l + r)[i] == r[i - l.len()]);
            }
        }
    } else if budget == 0 {
        assert(ws.len() == 0);
    }
}

/// `bisect_all` keeps the word bound of its clips, and ends in pieces
/// within the time cap or of a single word.
proof fn lemma_bisect_all(ps: Seq<Span>, max_ms: int, bound: int)
    requires
        forall|i: int| 0 <= i < ps.len() ==> word_count(#[trigger] ps[i].text) <= bound,
    ensures
        forall|i: int| 0 <= i < bisect_all(ps, max_ms).len() ==> {
            let x = #[trigger] bisect_all(ps, max_ms)[i];
            &&& word_count(x.text) <= bound
            &&& x.end - x.start <= max_ms || word_count(x.text) <= 1
        },
    decreases ps.len(),
{
    if ps.len() > 0 {
        let last = ps.last();
        assert(word_count(ps[ps.len() - 1].text) <= bound);
        assert forall|i: int| 0 <= i < ps.drop_last().len() implies word_count(#[trigger] ps.drop_last()[i].text)
            <= bound by {
            assert(ps.drop_last()[i] == ps[i]);
        }
        lemma_bisect_all(ps.drop_last(), max_ms, bound);
        lemma_bisect_words(last, max_ms, word_count(last.text));
        lemma_bisect_leaves(last, max_ms, word_count(last.text));
        let a = bisect_all(ps.drop_last(), max_ms);
        let b = bisect_spans(last, max_ms, word_count(last.text));
        assert(bisect_all(ps, max_ms) == a + b);
        assert forall|i: int| 0 <= i < (a + b).len() implies {
            let x = #[trigger] (a + b)[i];
            &&& word_count(x.text) <= bound
            &&& x.end - x.start <= max_ms || word_count(x.text) <= 1
        } by {
            if i < a.len() {
                assert((a + b)[i] == a[i]);
            } else {
                assert((a + b)[i] == b[i - a.len()]);
            }
        }
    }
}

/// Law: after the split pass no clip has more than `max_w` words (when
/// `max_w` is at least one), and every clip lasts at most `max_ms` or
/// holds a single word (a single word cannot be cut at a word boundary):
/// a clip over the caps is cut into runs of at most `max_w` words, and a
/// run over the time cap is bisected at the word boundary nearest its
/// middle until its pieces fit.
pub proof fn lemma_split_word_cap(cs: Seq<Span>, max_w: int, max_ms: int)
    requires
        max_w >= 1,
    ensures
        forall|k: int| 0 <= k < enforce_max_spec(cs, max_w, max_ms).len() ==> {
            let x = #[trigger] enforce_max_spec(cs, max_w, max_ms)[k];
            &&& word_count(x.text) <= max_w
            &&& x.end - x.start <= max_ms || word_count(x.text) <= 1
        },
    decreases cs.len(),
{
    if cs.len() > 0 {
        lemma_split_word_cap(cs.drop_last(), max_w, max_ms);
        let prev = enforce_max_spec(cs.drop_last(), max_w, max_ms);
        let c = cs.last();
        let piece = max_spans(c, max_w, max_ms);
        if !(word_count(c.text) <= max_w && c.end - c.start <= max_ms) {
            lemma_pieces_word_cap(c.text, max_w as nat);
            let ps = piece_spans(c, text_pieces(c.text, max_w as nat));
            assert forall|i: int| 0 <= i < ps.len() implies word_count(#[trigger] ps[i].text) <= max_w by {
                assert(ps[i].text == text_pieces(c.text, max_w as nat)[i]);
            }
            lemma_bisect_all(ps, max_ms, max_w);
        }
        let all = prev + piece;
        assert forall|k: int| 0 <= k < all.len() implies {
            let x = #[trigger] all[k];
            &&& word_count(x.text) <= max_w
            &&& x.end - x.start <= max_ms || word_count(x.text) <= 1
        } by {
            if k < prev.len() {
                assert(all[k] == prev[k]);
            } else {
                assert(all[k] == piece[k - prev.len()]);
            }
        }
    }
}

proof fn lemma_total_len_single(x: Seq<char>)
    ensures
        total_len(seq![x]) == x.len(),
{
    assert(seq![x].drop_last() =~= Seq::<Seq<char>>::empty());
    assert(total_len(Seq::<Seq<char>>::empty()) == 0);
}

proof fn lemma_total_len_concat(a: Seq<Seq<char>>, b: Seq<Seq<char>>)
    ensures
        total_len(a + b) == total_len(a) + total_len(b),
    decreases b.len(),
{
    if b.len() > 0 {
        assert((a + b).drop_last() =~= a + b.drop_last());
        lemma_total_len_concat(a, b.drop_last());
    } else {
        assert(a + b =~= a);
    }
}

proof fn lemma_total_len_take(a: Seq<Seq<char>>, i: int)
    requires
        0 <= i <= a.len(),
    ensures
        total_len(a.take(i)) <= total_len(a),
{
    assert(a =~= a.take(i) + a.skip(i));
    lemma_total_len_concat(a.take(i), a.skip(i));
}

proof fn lemma_words_acc_size(s: Seq<char>, cur: Seq<char>)
    ensures
        total_len(words_acc(s, cur)) + words_acc(s, cur).len() <= s.len() + cur.len() + 1,
    decreases s.len(),
{
    if s.len() == 0 {
        if cur.len() > 0 {
            lemma_total_len_single(cur);
        }
    } else if unicode_white_space(s[0]) {
        lemma_words_acc_size(s.drop_first(), seq![]);
        let head: Seq<Seq<char>> = if cur.len() > 0 { seq![cur] } else { seq![] };
        lemma_total_len_concat(head, words_acc(s.drop_first(), seq![]));
        if cur.len() > 0 {
            lemma_total_len_single(cur);
        } else {
            assert(total_len(head) == 0);
        }
    } else {
        lemma_words_acc_size(s.drop_first(), cur.push(s[0]));
    }
}

proof fn lemma_join_len(c: Seq<Seq<char>>)
    requires
        c.len() > 0,
    ensures
        join(c, seq![' ']).len() == total_len(c) + c.len() - 1,
    decreases c.len(),
{
    if c.len() > 1 {
        lemma_join_len(c.drop_last());
    } else {
        assert(c =~= seq![c[0]]);
        lemma_total_len_single(c[0]);
    }
}

pub open spec fn chunk_texts(cs: Seq<Seq<Seq<char>>>) -> Seq<Seq<char>> {
    Seq::new(cs.len(), |i: int| terminate(join(cs[i], seq![' '])))
}

proof fn lemma_chunk_size(ws: Seq<Seq<char>>, m: nat)
    requires
        m > 0,
    ensures
        total_len(chunk_texts(chunk_words(ws, m))) <= total_len(ws) + ws.len(),
    decreases ws.len(),
{
    let cs = chunk_words(ws, m);
    if ws.len() == 0 {
        assert(chunk_texts(cs) =~= Seq::<Seq<char>>::empty());
    } else if ws.len() <= m {
        lemma_join_len(ws);
        assert(chunk_texts(cs) =~= seq![terminate(join(ws, seq![' ']))]);
        lemma_total_len_single(terminate(join(ws, seq![' '])));
    } else {
        let rest = chunk_words(ws.skip(m as int), m);
        lemma_chunk_size(ws.skip(m as int), m);
        lemma_join_len(ws.take(m as int));
        assert(chunk_texts(cs) =~= seq![terminate(join(ws.take(m as int), seq![' ']))] + chunk_texts(rest));
        lemma_total_len_concat(seq![terminate(join(ws.take(m as int), seq![' ']))], chunk_texts(rest));
        lemma_total_len_single(terminate(join(ws.take(m as int), seq![' '])));
        assert(ws =~= ws.take(m as int) + ws.skip(m as int));
        lemma_total_len_concat(ws.take(m as int), ws.skip(m as int));
    }
}

/// The pieces of a text hold at most one character more than the text.
proof fn lemma_pieces_size(text: Seq<char>, m: nat)
    requires
        m > 0,
    ensures
        total_len(text_pieces(text, m)) <= text.len() + 1,
{
    let ws = words(text);
    lemma_words_acc_size(text, seq![]);
    if ws.len() <= m {
        lemma_total_len_single(text);
    } else {
        lemma_chunk_size(ws, m);
        assert(text_pieces(text, m) =~= chunk_texts(chunk_words(ws, m)));
    }
}

proof fn lemma_round_pos_between(start: int, end: int, p: int, t: int)
    requires
        0 <= p <= t,
        1 <= t,
        0 <= start,
        0 <= end,
    ensures
        start <= end ==> start <= round_pos(start, end, p, t) <= end,
        end <= start ==> end <= round_pos(start, end, p, t) <= start,
{
    let x = start * t + (end - start) * p;
    assert(x == start * (t - p) + end * p) by (nonlinear_arith)
        requires x == start * t + (end - start) * p;
    if start <= end {
        assert(start * t <= x <= end * t) by (nonlinear_arith)
            requires x == start * (t - p) + end * p, 0 <= p <= t, start <= end, 0 <= start;
        assert(start * (2 * t) <= 2 * x + t) by (nonlinear_arith) requires start * t <= x, t >= 1;
        assert(2 * x + t < (end + 1) * (2 * t)) by (nonlinear_arith) requires x <= end * t, t >= 1;
    } else {
        assert(end * t <= x <= start * t) by (nonlinear_arith)
            requires x == start * (t - p) + end * p, 0 <= p <= t, end <= start, 0 <= end;
        assert(end * (2 * t) <= 2 * x + t) by (nonlinear_arith) requires end * t <= x, t >= 1;
        assert(2 * x + t < (start + 1) * (2 * t)) by (nonlinear_arith) requires x <= start * t, t >= 1;
    }
    let q = (2 * x + t) / (2 * t);
    assert(round_pos(start, end, p, t) == q);
    if start <= end {
        assert(start <= q <= end) by (nonlinear_arith)
            requires start * (2 * t) <= 2 * x + t, 2 * x + t < (end + 1) * (2 * t), t >= 1, q == (2 * x + t) / (2 * t);
    } else {
        assert(end <= q <= start) by (nonlinear_arith)
            requires end * (2 * t) <= 2 * x + t, 2 * x + t < (start + 1) * (2 * t), t >= 1, q == (2 * x + t) / (2 * t);
    }
}

pub fn piece_time(start: u32, end: u32, p: u128, t: u128) -> (r: u32)
    requires
        1 <= t <= 0x4_0000_0000_0000_0000,
        p <= t,
    ensures
        r as int == round_pos(start as int, end as int, p as int, t as int),
{
    proof {
        lemma_round_pos_between(start as int, end as int, p as int, t as int);
        assert(0 <= (start as int) * (t as int) <= 0x1_0000_0000 * 0x4_0000_0000_0000_0000) by (nonlinear_arith)
            requires 0 <= start <= 0xFFFF_FFFF, 0 <= t <= 0x4_0000_0000_0000_0000;
        assert(-0x1_0000_0000 * 0x4_0000_0000_0000_0000 <= ((end as int) - (start as int)) * (p as int) <= 0x1_0000_0000 * 0x4_0000_0000_0000_0000) by (nonlinear_arith)
            requires 0 <= start <= 0xFFFF_FFFF, 0 <= end <= 0xFFFF_FFFF, 0 <= p <= 0x4_0000_0000_0000_0000;
    }
    let a: i128 = (start as i128) * (t as i128);
    let b: i128 = (end as i128 - start as i128) * (p as i128);
    assert(a + b >= 0) by (nonlinear_arith)
        requires a == (start as int) * (t as int), b == ((end as int) - (start as int)) * (p as int),
            0 <= start, 0 <= end, 0 <= p <= t;
    let num: i128 = 2 * (a + b) + t as i128;
    let q: i128 = num / (2 * t as i128);
    assert(q == round_pos(start as int, end as int, p as int, t as int));
    q as u32
}

/// Moves the clips of `more` to the end of `out`.
fn append_clips(out: &mut Vec<Clip>, more: Vec<Clip>, Ghost(a): Ghost<Seq<Span>>, Ghost(b): Ghost<Seq<Span>>)
    requires
        clips_match(old(out)@, a),
        clips_match(more@, b),
    ensures
        clips_match(final(out)@, a + b),
{
    let mut more = more;
    let ghost m = more@;
    let ghost o = out@;
    let mut rev: Vec<Clip> = Vec::new();
    while more.len() > 0
        invariant
            more@.len() + rev@.len() == m.len(),
            forall|q: int| 0 <= q < more@.len() ==> more@[q] == m[q],
            forall|q: int| 0 <= q < rev@.len() ==> #[trigger] rev@[q] == m[m.len() - 1 - q],
        decreases more@.len(),
    {
        let c = more.pop().unwrap();
        rev.push(c);
    }
    let mut i: usize = 0;
    let n: usize = rev.len();
    while rev.len() > 0
        invariant
            rev@.len() + i == n,
            n == m.len(),
            forall|q: int| 0 <= q < rev@.len() ==> #[trigger] rev@[q] == m[m.len() - 1 - q],
            out@.len() == o.len() + i,
            forall|q: int| 0 <= q < o.len() ==> out@[q] == o[q],
            forall|q: int| 0 <= q < i ==> #[trigger] out@[o.len() + q] == m[q],
        decreases rev@.len(),
    {
        let c = rev.pop().unwrap();
        out.push(c);
        i += 1;
    }
    assert forall|q: int| 0 <= q < out@.len() implies #[trigger] clip_matches(out@[q], (a + b)[q]) by {
        if q < o.len() {
            assert(clip_matches(o[q], a[q]));
        } else {
            assert(out@[o.len() + (q - o.len())] == m[q - o.len()]);
            assert(clip_matches(m[q - o.len()], b[q - o.len()]));
        }
    }
}

/// The clips for the pieces `pieces` of `clip` (see `piece_spans`).
fn clips_of_pieces(clip: &Clip, pieces: &Vec<String>) -> (r: Vec<Clip>)
    requires
        total_len(string_seqs(pieces@)) <= clip.text@.len() + 1,
    ensures
        clips_match(r@, piece_spans(span_of(*clip), string_seqs(pieces@))),
{
    let text = chars_of(clip.text.as_str());
    let ghost pv = string_seqs(pieces@);
    let ghost target = piece_spans(span_of(*clip), pv);
    let tl: usize = text.len();
    assert(text@.len() == tl);
    let mut total: u128 = 0;
    let mut i: usize = 0;
    assert(pv.take(0) =~= Seq::<Seq<char>>::empty());
    while i < pieces.len()
        invariant
            i <= pieces@.len(),
            pv == string_seqs(pieces@),
            total == total_len(pv.take(i as int)),
            total_len(pv) <= text@.len() + 1,
            text@.len() <= usize::MAX,
        decreases pieces@.len() - i,
    {
        proof {
            lemma_total_len_take(pv, i + 1);
            assert(pv.take(i + 1).drop_last() =~= pv.take(i as int));
        }
        let n = chars_of(pieces[i].as_str()).len();
        total = total + n as u128;
        i += 1;
    }
    assert(pv.take(pieces@.len() as int) =~= pv);
    let t: u128 = if total == 0 { 1 } else { total };
    let mut out: Vec<Clip> = Vec::new();
    let mut prefix: u128 = 0;
    let mut j: usize = 0;
    assert(pv.take(0) =~= Seq::<Seq<char>>::empty());
    while j < pieces.len()
        invariant
            j <= pieces@.len(),
            pv == string_seqs(pieces@),
            prefix == total_len(pv.take(j as int)),
            total == total_len(pv),
            t == (if total_len(pv) == 0 { 1 } else { total_len(pv) as int }),
            total_len(pv) <= text@.len() + 1,
            text@.len() <= usize::MAX,
            target == piece_spans(span_of(*clip), pv),
            out@.len() == j,
            forall|q: int| 0 <= q < j ==> #[trigger] clip_matches(out@[q], target[q]),
        decreases pieces@.len() - j,
    {
        proof {
            lemma_total_len_take(pv, j + 1);
            assert(pv.take(j + 1).drop_last() =~= pv.take(j as int));
        }
        let n = chars_of(pieces[j].as_str()).len();
        let next = prefix + n as u128;
        let s_ms = piece_time(clip.start_ms, clip.end_ms, prefix, t);
        let e_ms = piece_time(clip.start_ms, clip.end_ms, next, t);
        let ghost out1 = out@;
        out.push(Clip { id: new_clip_id(), start_ms: s_ms, end_ms: e_ms, text: pieces[j].clone() });
        proof {
            assert forall|q: int| 0 <= q < j + 1 implies #[trigger] clip_matches(out@[q], target[q]) by {
                if q < j {
                    assert(clip_matches(out1[q], target[q]));
                }
            }
        }
        prefix = next;
        j += 1;
    }
    out
}

/// The clips for the runs of at most `max_w` words of `clip`.
fn split_clip(clip: &Clip, max_w: usize) -> (r: Vec<Clip>)
    requires
        max_w > 0,
    ensures
        clips_match(r@, piece_spans(span_of(*clip), text_pieces(clip.text@, max_w as nat))),
{
    let pieces = split_text_into_pieces(clip.text.as_str(), max_w);
    proof {
        lemma_pieces_size(clip.text@, max_w as nat);
    }
    clips_of_pieces(clip, &pieces)
}

/// `s` with a period added unless it ends in `.`, `!` or `?`.
fn terminate_chars(v: &Vec<char>) -> (r: Vec<char>)
    ensures
        r@ == terminate(v@),
{
    let mut r = slice_chars(v, 0, v.len());
    assert(r@ =~= v@);
    if !(v.len() > 0 && (v[v.len() - 1] == '.' || v[v.len() - 1] == '!' || v[v.len() - 1] == '?')) {
        r.push('.');
    }
    r
}

/// Words `lo..hi` of `ws`, copied.
fn word_range_of(ws: &Vec<Vec<char>>, lo: usize, hi: usize) -> (r: Vec<Vec<char>>)
    requires
        lo <= hi <= ws@.len(),
    ensures
        char_seqs(r@) == char_seqs(ws@).subrange(lo as int, hi as int),
{
    let mut r: Vec<Vec<char>> = Vec::new();
    let mut j: usize = lo;
    while j < hi
        invariant
            lo <= j <= hi <= ws@.len(),
            char_seqs(r@) == char_seqs(ws@).subrange(lo as int, j as int),
        decreases hi - j,
    {
        let piece = slice_chars(&ws[j], 0, ws[j].len());
        assert(ws[j as int]@.subrange(0, ws[j as int]@.len() as int) =~= ws[j as int]@);
        let ghost before = char_seqs(r@);
        r.push(piece);
        assert(char_seqs(r@) =~= before.push(char_seqs(ws@)[j as int]));
        j += 1;
        assert(char_seqs(r@) =~= char_seqs(ws@).subrange(lo as int, j as int));
    }
    r
}

/// The two pieces of `ws` cut after `k` words (see `halves`).
fn halves_of(ws: &Vec<Vec<char>>, k: usize) -> (r: Vec<String>)
    requires
        k <= ws@.len(),
    ensures
        string_seqs(r@) == halves(char_seqs(ws@), k as int),
        r@.len() == 2,
{
    let ghost wv = char_seqs(ws@);
    let a = word_range_of(ws, 0, k);
    let b = word_range_of(ws, k, ws.len());
    assert(wv.subrange(0, k as int) =~= wv.take(k as int));
    assert(wv.subrange(k as int, wv.len() as int) =~= wv.skip(k as int));
    let ja = terminate_chars(&join_spaced(&a));
    let jb = terminate_chars(&join_spaced(&b));
    let mut r: Vec<String> = Vec::new();
    r.push(string_of(&ja));
    r.push(string_of(&jb));
    assert(string_seqs(r@) =~= halves(wv, k as int));
    r
}

/// The number of characters of `s`.
fn char_len(s: &String) -> (n: usize)
    ensures
        n == s@.len(),
{
    chars_of(s.as_str()).len()
}

/// The word boundary nearest the middle of the words `ws` (see `mid_cut`).
fn mid_cut_of(ws: &Vec<Vec<char>>) -> (k: usize)
    requires
        ws@.len() >= 2,
    ensures
        k as int == mid_cut(char_seqs(ws@)),
        1 <= k < ws@.len(),
{
    let ghost wv = char_seqs(ws@);
    let n = ws.len();
    let mut best: usize = 1;
    let h = halves_of(ws, 1);
    let mut best_gap: usize = {
        let a = char_len(&h[0]);
        let b = char_len(&h[1]);
        if a >= b { a - b } else { b - a }
    };
    assert(string_seqs(h@)[0] == h@[0]@ && string_seqs(h@)[1] == h@[1]@);
    let mut j: usize = 1;
    while j < n - 1
        invariant
            1 <= j <= n - 1,
            n == ws@.len(),
            wv == char_seqs(ws@),
            best as int == best_cut(wv, j as int),
            1 <= best <= j,
            best_gap as int == cut_gap(wv, best as int),
        decreases n - 1 - j,
    {
        j += 1;
        let h = halves_of(ws, j);
        assert(string_seqs(h@)[0] == h@[0]@ && string_seqs(h@)[1] == h@[1]@);
        let a = char_len(&h[0]);
        let b = char_len(&h[1]);
        let gap: usize = if a >= b { a - b } else { b - a };
        assert(gap as int == cut_gap(wv, j as int));
        if gap < best_gap {
            best = j;
            best_gap = gap;
        }
    }
    best
}

/// The halves of a text cut inside its words hold at most one character
/// more than the text.
proof fn lemma_halves_size(t: Seq<char>, k: int)
    requires
        1 <= k < words(t).len(),
    ensures
        total_len(halves(words(t), k)) <= t.len() + 1,
{
    let ws = words(t);
    lemma_words_acc_size(t, seq![]);
    let a = ws.take(k);
    let b = ws.skip(k);
    lemma_join_len(a);
    lemma_join_len(b);
    assert(ws =~= a + b);
    lemma_total_len_concat(a, b);
    let h = halves(ws, k);
    assert(h =~= seq![h[0]] + seq![h[1]]);
    lemma_total_len_concat(seq![h[0]], seq![h[1]]);
    lemma_total_len_single(h[0]);
    lemma_total_len_single(h[1]);
}

/// Bisecting depends only on the time span and text of a clip.
proof fn lemma_bisect_refines(a: Span, b: Span, max_ms: int, budget: nat)
    requires
        refines(a, b),
    ensures
        all_refine(bisect_spans(a, max_ms, budget), bisect_spans(b, max_ms, budget)),
{
    let ws = words(a.text);
    if !(budget == 0 || a.end - a.start <= max_ms || ws.len() <= 1) {
        let ps = piece_spans(a, halves(ws, mid_cut(ws)));
        assert(piece_spans(b, halves(ws, mid_cut(ws))) == ps);
        let x = bisect_spans(a, max_ms, budget);
        assert(bisect_spans(b, max_ms, budget) == x);
        assert forall|i: int| 0 <= i < x.len() implies #[trigger] refines(x[i], x[i]) by {}
    } else {
        assert(refines(seq![a][0], seq![b][0]));
    }
}

/// A clip over the time cap bisected near its middle (see `bisect_spans`).
fn bisect_clip(clip: &Clip, max_t: i64, budget: usize) -> (r: Vec<Clip>)
    ensures
        clips_match(r@, bisect_spans(span_of(*clip), max_t as int, budget as nat)),
    decreases budget,
{
    let text = chars_of(clip.text.as_str());
    let ws = split_words(&text);
    let dur = clip.end_ms as i64 - clip.start_ms as i64;
    if budget == 0 || dur <= max_t || ws.len() <= 1 {
        let mut r: Vec<Clip> = Vec::new();
        r.push(copy_clip(clip));
        assert(clip_matches(r@[0], seq![span_of(*clip)][0]));
        return r;
    }
    let ghost c = span_of(*clip);
    let ghost wv = words(c.text);
    let k = mid_cut_of(&ws);
    proof {
        lemma_halves_size(clip.text@, k as int);
    }
    let pieces = halves_of(&ws, k);
    let two = clips_of_pieces(clip, &pieces);
    let ghost ps = piece_spans(c, halves(wv, k as int));
    let ghost b = (budget - 1) as nat;
    assert(clip_matches(two@[0], ps[0]) && clip_matches(two@[1], ps[1]));
    let mut out = bisect_clip(&two[0], max_t, budget - 1);
    let more = bisect_clip(&two[1], max_t, budget - 1);
    proof {
        lemma_bisect_refines(span_of(two@[0]), ps[0], max_t as int, b);
        lemma_bisect_refines(span_of(two@[1]), ps[1], max_t as int, b);
        lemma_match_refines(out@, bisect_spans(span_of(two@[0]), max_t as int, b), bisect_spans(ps[0], max_t as int, b));
        lemma_match_refines(more@, bisect_spans(span_of(two@[1]), max_t as int, b), bisect_spans(ps[1], max_t as int, b));
    }
    append_clips(&mut out, more, Ghost(bisect_spans(ps[0], max_t as int, b)), Ghost(bisect_spans(ps[1], max_t as int, b)));
    out
}

/// One clip after the split pass (see `max_spans`).
fn max_one(clip: &Clip, max_w: usize, max_t: i64) -> (r: Vec<Clip>)
    requires
        max_w > 0,
    ensures
        clips_match(r@, max_spans(span_of(*clip), max_w as int, max_t as int)),
{
    let text = chars_of(clip.text.as_str());
    let wc = count_words(&text);
    let dur = clip.end_ms as i64 - clip.start_ms as i64;
    if wc <= max_w && dur <= max_t {
        let mut r: Vec<Clip> = Vec::new();
        r.push(copy_clip(clip));
        assert(clip_matches(r@[0], seq![span_of(*clip)][0]));
        r
    } else {
        let pieces = split_clip(clip, max_w);
        let ghost target = piece_spans(span_of(*clip), text_pieces(clip.text@, max_w as nat));
        let mut out: Vec<Clip> = Vec::new();
        let mut i: usize = 0;
        assert(target.take(0) =~= Seq::<Span>::empty());
        while i < pieces.len()
            invariant
                i <= pieces@.len(),
                clips_match(pieces@, target),
                clips_match(out@, bisect_all(target.take(i as int), max_t as int)),
            decreases pieces@.len() - i,
        {
            let ghost before = bisect_all(target.take(i as int), max_t as int);
            assert(target.take(i + 1).drop_last() =~= target.take(i as int));
            assert(target.take(i + 1).last() == target[i as int]);
            assert(clip_matches(pieces@[i as int], target[i as int]));
            let budget = count_words(&chars_of(pieces[i].text.as_str()));
            let more = bisect_clip(&pieces[i], max_t, budget);
            let ghost want = bisect_spans(target[i as int], max_t as int, word_count(target[i as int].text));
            proof {
                lemma_bisect_refines(span_of(pieces@[i as int]), target[i as int], max_t as int, budget as nat);
                lemma_match_refines(more@, bisect_spans(span_of(pieces@[i as int]), max_t as int, budget as nat), want);
            }
            append_clips(&mut out, more, Ghost(before), Ghost(want));
            i += 1;
        }
        assert(target.take(pieces@.len() as int) =~= target);
        out
    }
}

/// Splits every clip over `max(max_words, 4)` words or `max(max_ms, 1500)`
/// milliseconds into runs of at most that many words, bisecting a run over
/// the time cap at the word boundary nearest its middle (see `max_spans`).
/// Every clip that comes out is within the word cap, and within the time
/// cap unless it is a single word.
pub fn enforce_max(clips: Vec<Clip>, max_words: u32, max_ms: u32) -> (r: Vec<Clip>)
    ensures
        forall|i: int| 0 <= i < r@.len() ==> {
            &&& word_count((#[trigger] r@[i]).text@) <= (if max_words < 4 { 4 } else { max_words as int })
            &&& r@[i].end_ms - r@[i].start_ms <= (if max_ms < 1500 { 1500 } else { max_ms as int })
                || word_count(r@[i].text@) <= 1
        },
        clips_match(
            r@,
            enforce_max_spec(
                spans_of(clips@),
                if max_words < 4 { 4 } else { max_words as int },
                if max_ms < 1500 { 1500 } else { max_ms as int },
            ),
        ),
{
    let max_w: usize = if max_words < 4 { 4 } else { max_words as usize };
    let max_t: i64 = if max_ms < 1500 { 1500 } else { max_ms as i64 };
    let ghost all = spans_of(clips@);
    let mut out: Vec<Clip> = Vec::new();
    let mut k: usize = 0;
    assert(all.take(0) =~= Seq::<Span>::empty());
    while k < clips.len()
        invariant
            k <= clips@.len(),
            all == spans_of(clips@),
            max_w == (if max_words < 4 { 4 } else { max_words as int }),
            max_t == (if max_ms < 1500 { 1500 } else { max_ms as int }),
            clips_match(out@, enforce_max_spec(all.take(k as int), max_w as int, max_t as int)),
        decreases clips@.len() - k,
    {
        let ghost before = enforce_max_spec(all.take(k as int), max_w as int, max_t as int);
        assert(all.take(k + 1).drop_last() =~= all.take(k as int));
        assert(all.take(k + 1).last() == span_of(clips@[k as int]));
        let more = max_one(&clips[k], max_w, max_t);
        append_clips(&mut out, more, Ghost(before), Ghost(max_spans(span_of(clips@[k as int]), max_w as int, max_t as int)));
        k += 1;
    }
    assert(all.take(clips@.len() as int) =~= all);
    proof {
        let sp = enforce_max_spec(all, max_w as int, max_t as int);
        lemma_split_word_cap(all, max_w as int, max_t as int);
        assert forall|i: int| 0 <= i < out@.len() implies {
            &&& word_count((#[trigger] out@[i]).text@) <= max_w
            &&& out@[i].end_ms - out@[i].start_ms <= max_t || word_count(out@[i].text@) <= 1
        } by {
            assert(clip_matches(out@[i], sp[i]));
        }
    }
    out
}

// ───────────────────────── merging short clips ─────────────────────────

/// The caps and floors of the merge pass, after clamping.
pub struct MinParams {
    pub max_w: int,
    pub max_ms: int,
    pub min_w: int,
    pub min_ms: int,
    pub ends: Seq<u32>,
}

/// The caps and floors that `enforce_min` works with: the word cap is at
/// least 4, the time cap at least 1.5 s, the word floor between 1 and the
/// cap, the time floor at most the cap.
pub open spec fn min_params(max_words: u32, max_ms: u32, min_words: u32, min_ms: u32, ends: Seq<u32>) -> MinParams {
    let mw = if max_words < 4 { 4int } else { max_words as int };
    let ms = if max_ms < 1500 { 1500int } else { max_ms as int };
    MinParams {
        max_w: mw,
        max_ms: ms,
        min_w: if min_words < 1 { 1 } else if min_words > mw { mw } else { min_words as int },
        min_ms: if min_ms > ms { ms } else { min_ms as int },
        ends,
    }
}

pub open spec fn span_words(c: Span) -> int {
    word_count(c.text) as int
}

pub open spec fn span_dur(c: Span) -> int {
    c.end - c.start
}

/// `a` followed by `b`: `a`'s trailing `.`, `!` and `?` are dropped, a space
/// joins it to `b` without `b`'s leading white space, and the time span
/// covers both. The merged clip gets a fresh identifier.
pub open spec fn join_spans(a: Span, b: Span) -> Span {
    Span {
        id: None,
        start: if a.start <= b.start { a.start } else { b.start },
        end: if a.end >= b.end { a.end } else { b.end },
        text: trim_end(a.text, CharClass::SentenceEnd) + seq![' '] + trim_start(b.text, CharClass::WhiteSpace),
    }
}

pub open spec fn fits(w: int, d: int, p: MinParams) -> bool {
    w <= p.max_w && d <= p.max_ms
}

/// What the merge pass does with the current clip.
pub enum MinStep {
    /// Keep it as it is.
    Keep,
    /// Merge the next clip into it.
    WithNext,
    /// Merge it into the previous clip.
    WithPrev,
}

/// The cost of a merge over the relaxed caps (3 words, 1.5 s over), or
/// `None` when it does not fit even there: words over the cap plus tenths
/// of a second over the cap.
pub open spec fn relaxed_cost(w: int, d: int, p: MinParams) -> Option<int> {
    if w <= p.max_w + 3 && d <= p.max_ms + 1500 {
        Some((if w > p.max_w { w - p.max_w } else { 0 }) + (if d > p.max_ms { (d - p.max_ms) / 100 } else { 0 }))
    } else {
        None
    }
}

/// The merge policy for a clip `cur` below a floor: same-sentence forward,
/// same-sentence backward, cross-sentence forward, cross-sentence backward,
/// and as a last resort the cheaper direction within the relaxed caps.
pub open spec fn min_step(prev: Option<Span>, cur: Span, next: Option<Span>, p: MinParams) -> MinStep {
    let wc = span_words(cur);
    let dur = span_dur(cur);
    if wc >= p.min_w && dur >= p.min_ms {
        MinStep::Keep
    } else if !near_sentence_end(cur.end, p.ends) && next is Some
        && fits(wc + span_words(next->0), dur + span_dur(next->0), p) {
        MinStep::WithNext
    } else if prev is Some && !near_sentence_end(prev->0.end, p.ends)
        && fits(span_words(prev->0) + wc, span_dur(prev->0) + dur, p) {
        MinStep::WithPrev
    } else if next is Some && fits(wc + span_words(next->0), dur + span_dur(next->0), p) {
        MinStep::WithNext
    } else if prev is Some && fits(span_words(prev->0) + wc, span_dur(prev->0) + dur, p) {
        MinStep::WithPrev
    } else {
        let fwd = if next is Some {
            relaxed_cost(wc + span_words(next->0), dur + span_dur(next->0), p)
        } else {
            None
        };
        let bwd = if prev is Some {
            relaxed_cost(span_words(prev->0) + wc, span_dur(prev->0) + dur, p)
        } else {
            None
        };
        match (fwd, bwd) {
            (Some(fc), Some(bc)) => if fc <= bc { MinStep::WithNext } else { MinStep::WithPrev },
            (Some(_), None) => MinStep::WithNext,
            (None, Some(_)) => MinStep::WithPrev,
            (None, None) => MinStep::Keep,
        }
    }
}

/// Law: the merge policy for one clip. A clip at or over both floors is
/// kept. A clip under a floor that does not end a sentence (no sentence
/// end within 200 ms of its end) joins the next clip when the two fit the
/// caps together. Failing that, it joins the previous clip when that one
/// does not end a sentence and the two fit; only when no merge within the
/// sentence fits does it merge across a sentence end.
pub proof fn lemma_merge_policy(prev: Option<Span>, cur: Span, next: Option<Span>, p: MinParams)
    ensures
        (word_count(cur.text) >= p.min_w && cur.end - cur.start >= p.min_ms) ==> min_step(prev, cur, next, p)
            == MinStep::Keep,
        ({
            let below = !(word_count(cur.text) >= p.min_w && cur.end - cur.start >= p.min_ms);
            let cur_ends = exists|k: int| 0 <= k < p.ends.len() && -200 <= #[trigger] p.ends[k] - cur.end <= 200;
            let next_fits = next matches Some(n) && word_count(cur.text) + word_count(n.text) <= p.max_w
                && (cur.end - cur.start) + (n.end - n.start) <= p.max_ms;
            let prev_same = prev matches Some(q) && !(exists|k: int| 0 <= k < p.ends.len() && -200
                <= #[trigger] p.ends[k] - q.end <= 200) && word_count(q.text) + word_count(cur.text) <= p.max_w
                && (q.end - q.start) + (cur.end - cur.start) <= p.max_ms;
            &&& below && !cur_ends && next_fits ==> min_step(prev, cur, next, p) == MinStep::WithNext
            &&& below && !(!cur_ends && next_fits) && prev_same ==> min_step(prev, cur, next, p) == MinStep::WithPrev
        }),
{
}

pub open spec fn last_of(s: Seq<Span>) -> Option<Span> {
    if s.len() > 0 { Some(s.last()) } else { None }
}

pub open spec fn first_of(s: Seq<Span>) -> Option<Span> {
    if s.len() > 0 { Some(s[0]) } else { None }
}

/// The merge pass from the state: `done` emitted so far, `cur` being
/// looked at, `rest` not yet read.
pub open spec fn min_run(done: Seq<Span>, cur: Span, rest: Seq<Span>, p: MinParams) -> Seq<Span>
    decreases 2 * rest.len() + done.len(),
{
    match min_step(last_of(done), cur, first_of(rest), p) {
        MinStep::Keep => if rest.len() == 0 {
            done.push(cur)
        } else {
            min_run(done.push(cur), rest[0], rest.drop_first(), p)
        },
        MinStep::WithNext => if rest.len() > 0 {
            min_run(done, join_spans(cur, rest[0]), rest.drop_first(), p)
        } else {
            done.push(cur)
        },
        MinStep::WithPrev => if done.len() > 0 {
            min_run(done.drop_last(), join_spans(done.last(), cur), rest, p)
        } else {
            done.push(cur)
        },
    }
}

/// The clips after the merge pass.
pub open spec fn enforce_min_spec(clips: Seq<Span>, p: MinParams) -> Seq<Span> {
    if clips.len() == 0 {
        seq![]
    } else {
        min_run(seq![], clips[0], clips.drop_first(), p)
    }
}

proof fn lemma_min_run_len(done: Seq<Span>, cur: Span, rest: Seq<Span>, p: MinParams)
    ensures
        1 <= min_run(done, cur, rest, p).len() <= done.len() + 1 + rest.len(),
    decreases 2 * rest.len() + done.len(),
{
    match min_step(last_of(done), cur, first_of(rest), p) {
        MinStep::Keep => if rest.len() > 0 {
            lemma_min_run_len(done.push(cur), rest[0], rest.drop_first(), p);
        },
        MinStep::WithNext => if rest.len() > 0 {
            lemma_min_run_len(done, join_spans(cur, rest[0]), rest.drop_first(), p);
        },
        MinStep::WithPrev => if done.len() > 0 {
            lemma_min_run_len(done.drop_last(), join_spans(done.last(), cur), rest, p);
        },
    }
}

/// Law: merging never adds clips, and leaves at least one clip when there
/// was one.
pub proof fn lemma_enforce_min_count(clips: Seq<Span>, p: MinParams)
    ensures
        enforce_min_spec(clips, p).len() <= clips.len(),
        clips.len() > 0 ==> enforce_min_spec(clips, p).len() >= 1,
{
    if clips.len() > 0 {
        lemma_min_run_len(seq![], clips[0], clips.drop_first(), p);
    }
}

// ───────────────────────── the word cap of the merge pass ─────────────────────────

/// Words on both sides of a space are the words of each side.
proof fn lemma_words_split_at_space(x: Seq<char>, y: Seq<char>, cur: Seq<char>)
    ensures
        words_acc(x + seq![' '] + y, cur) == words_acc(x, cur) + words_acc(y, seq![]),
    decreases x.len(),
{
    lemma_white_space_examples();
    let s = x + seq![' '] + y;
    if x.len() == 0 {
        assert(s.drop_first() =~= y);
        assert(s[0] == ' ');
        if cur.len() == 0 {
            assert(words_acc(x, cur) =~= Seq::<Seq<char>>::empty());
        }
    } else {
        assert(s[0] == x[0]);
        assert(s.drop_first() =~= x.drop_first() + seq![' '] + y);
        if unicode_white_space(x[0]) {
            lemma_words_split_at_space(x.drop_first(), y, seq![]);
        } else {
            lemma_words_split_at_space(x.drop_first(), y, cur.push(x[0]));
        }
    }
}

/// Leading white space does not change the words.
proof fn lemma_words_trim_start(b: Seq<char>)
    ensures
        words_acc(trim_start(b, CharClass::WhiteSpace), seq![]) == words_acc(b, seq![]),
    decreases b.len(),
{
    if b.len() > 0 && unicode_white_space(b[0]) {
        lemma_words_trim_start(b.drop_first());
        assert(words_acc(b, seq![]) == Seq::<Seq<char>>::empty() + words_acc(b.drop_first(), seq![]));
        assert(Seq::<Seq<char>>::empty() + words_acc(b.drop_first(), seq![]) =~= words_acc(b.drop_first(), seq![]));
    }
}

/// Dropping a last character that is not white space never adds a word.
proof fn lemma_words_drop_last(x: Seq<char>, cur: Seq<char>)
    requires
        x.len() > 0,
        !unicode_white_space(x.last()),
    ensures
        words_acc(x.drop_last(), cur).len() <= words_acc(x, cur).len(),
    decreases x.len(),
{
    if x.len() == 1 {
        assert(x.drop_last() =~= Seq::<char>::empty());
        assert(x.drop_first() =~= Seq::<char>::empty());
        assert(words_acc(x, cur) == words_acc(x.drop_first(), cur.push(x[0])));
        assert(words_acc(x.drop_first(), cur.push(x[0])).len() == 1);
    } else {
        let y = x.drop_last();
        assert(y.drop_first() =~= x.drop_first().drop_last());
        assert(y[0] == x[0]);
        assert(x.drop_first().last() == x.last());
        if unicode_white_space(x[0]) {
            lemma_words_drop_last(x.drop_first(), seq![]);
            let h: Seq<Seq<char>> = if cur.len() > 0 { seq![cur] } else { seq![] };
            assert(words_acc(x, cur) == h + words_acc(x.drop_first(), seq![]));
            assert(words_acc(y, cur) == h + words_acc(y.drop_first(), seq![]));
        } else {
            lemma_words_drop_last(x.drop_first(), cur.push(x[0]));
            assert(words_acc(x, cur) == words_acc(x.drop_first(), cur.push(x[0])));
            assert(words_acc(y, cur) == words_acc(y.drop_first(), cur.push(x[0])));
        }
    }
}

/// Dropping trailing `.`, `!` and `?` never adds a word.
proof fn lemma_words_trim_end(a: Seq<char>)
    ensures
        word_count(trim_end(a, CharClass::SentenceEnd)) <= word_count(a),
    decreases a.len(),
{
    if a.len() > 0 && crate::text::in_class(CharClass::SentenceEnd, a.last()) {
        lemma_white_space_examples();
        lemma_words_drop_last(a, seq![]);
        lemma_words_trim_end(a.drop_last());
    }
}

/// A joined clip has no more words than its two parts together.
proof fn lemma_join_words(a: Span, b: Span)
    ensures
        span_words(join_spans(a, b)) <= span_words(a) + span_words(b),
{
    let x = trim_end(a.text, CharClass::SentenceEnd);
    let y = trim_start(b.text, CharClass::WhiteSpace);
    lemma_words_split_at_space(x, y, seq![]);
    lemma_words_trim_start(b.text);
    lemma_words_trim_end(a.text);
}

/// A merge step only joins clips whose words add up to at most three over
/// the cap.
proof fn lemma_step_word_cap(prev: Option<Span>, cur: Span, next: Option<Span>, p: MinParams)
    ensures
        min_step(prev, cur, next, p) is WithNext ==> next is Some && span_words(cur) + span_words(next->0) <= p.max_w + 3,
        min_step(prev, cur, next, p) is WithPrev ==> prev is Some && span_words(prev->0) + span_words(cur) <= p.max_w + 3,
{
}

proof fn lemma_min_run_word_cap(done: Seq<Span>, cur: Span, rest: Seq<Span>, p: MinParams)
    requires
        forall|i: int| 0 <= i < done.len() ==> span_words(#[trigger] done[i]) <= p.max_w + 3,
        span_words(cur) <= p.max_w + 3,
        forall|i: int| 0 <= i < rest.len() ==> span_words(#[trigger] rest[i]) <= p.max_w + 3,
    ensures
        forall|i: int| 0 <= i < min_run(done, cur, rest, p).len()
            ==> span_words(#[trigger] min_run(done, cur, rest, p)[i]) <= p.max_w + 3,
    decreases 2 * rest.len() + done.len(),
{
    let r = min_run(done, cur, rest, p);
    lemma_step_word_cap(last_of(done), cur, first_of(rest), p);
    match min_step(last_of(done), cur, first_of(rest), p) {
        MinStep::Keep => {
            if rest.len() == 0 {
                assert(r == done.push(cur));
                assert forall|i: int| 0 <= i < r.len() implies span_words(#[trigger] r[i]) <= p.max_w + 3 by {
                    if i < done.len() {
                        assert(r[i] == done[i]);
                    }
                }
            } else {
                let d2 = done.push(cur);
                assert forall|i: int| 0 <= i < d2.len() implies span_words(#[trigger] d2[i]) <= p.max_w + 3 by {
                    if i < done.len() {
                        assert(d2[i] == done[i]);
                    }
                }
                assert(span_words(rest[0]) <= p.max_w + 3);
                assert forall|i: int| 0 <= i < rest.drop_first().len() implies span_words(
                    #[trigger] rest.drop_first()[i],
                ) <= p.max_w + 3 by {
                    assert(rest.drop_first()[i] == rest[i + 1]);
                }
                lemma_min_run_word_cap(d2, rest[0], rest.drop_first(), p);
                assert(r == min_run(d2, rest[0], rest.drop_first(), p));
            }
        },
        MinStep::WithNext => {
            if rest.len() > 0 {
                lemma_join_words(cur, rest[0]);
                assert forall|i: int| 0 <= i < rest.drop_first().len() implies span_words(
                    #[trigger] rest.drop_first()[i],
                ) <= p.max_w + 3 by {
                    assert(rest.drop_first()[i] == rest[i + 1]);
                }
                lemma_min_run_word_cap(done, join_spans(cur, rest[0]), rest.drop_first(), p);
                assert(r == min_run(done, join_spans(cur, rest[0]), rest.drop_first(), p));
            } else {
                assert(r == done.push(cur));
                assert forall|i: int| 0 <= i < r.len() implies span_words(#[trigger] r[i]) <= p.max_w + 3 by {
                    if i < done.len() {
                        assert(r[i] == done[i]);
                    }
                }
            }
        },
        MinStep::WithPrev => {
            if done.len() > 0 {
                lemma_join_words(done.last(), cur);
                assert forall|i: int| 0 <= i < done.drop_last().len() implies span_words(
                    #[trigger] done.drop_last()[i],
                ) <= p.max_w + 3 by {
                    assert(done.drop_last()[i] == done[i]);
                }
                lemma_min_run_word_cap(done.drop_last(), join_spans(done.last(), cur), rest, p);
                assert(r == min_run(done.drop_last(), join_spans(done.last(), cur), rest, p));
            } else {
                assert(r == done.push(cur));
                assert forall|i: int| 0 <= i < r.len() implies span_words(#[trigger] r[i]) <= p.max_w + 3 by {
                    if i < done.len() {
                        assert(r[i] == done[i]);
                    }
                }
            }
        },
    }
}

/// A clip after merging is either one of the input clips `cs`, untouched,
/// or a merged clip (with a fresh identifier) of at most the word cap plus
/// three words.
pub open spec fn merge_origin(x: Span, cs: Seq<Span>, p: MinParams) -> bool {
    ||| (x.id is Some && cs.contains(x))
    ||| (x.id is None && span_words(x) <= p.max_w + 3)
}

proof fn lemma_min_run_origin(done: Seq<Span>, cur: Span, rest: Seq<Span>, cs: Seq<Span>, p: MinParams)
    requires
        forall|i: int| 0 <= i < done.len() ==> merge_origin(#[trigger] done[i], cs, p),
        merge_origin(cur, cs, p),
        forall|i: int| 0 <= i < rest.len() ==> merge_origin(#[trigger] rest[i], cs, p),
    ensures
        forall|i: int| 0 <= i < min_run(done, cur, rest, p).len()
            ==> merge_origin(#[trigger] min_run(done, cur, rest, p)[i], cs, p),
    decreases 2 * rest.len() + done.len(),
{
    let r = min_run(done, cur, rest, p);
    lemma_step_word_cap(last_of(done), cur, first_of(rest), p);
    match min_step(last_of(done), cur, first_of(rest), p) {
        MinStep::Keep => {
            if rest.len() == 0 {
                assert(r == done.push(cur));
                assert forall|i: int| 0 <= i < r.len() implies merge_origin(#[trigger] r[i], cs, p) by {
                    if i < done.len() {
                        assert(r[i] == done[i]);
                    }
                }
            } else {
                let d2 = done.push(cur);
                assert forall|i: int| 0 <= i < d2.len() implies merge_origin(#[trigger] d2[i], cs, p) by {
                    if i < done.len() {
                        assert(d2[i] == done[i]);
                    }
                }
                assert(merge_origin(rest[0], cs, p));
                assert forall|i: int| 0 <= i < rest.drop_first().len() implies merge_origin(
                    #[trigger] rest.drop_first()[i],
                    cs,
                    p,
                ) by {
                    assert(rest.drop_first()[i] == rest[i + 1]);
                }
                lemma_min_run_origin(d2, rest[0], rest.drop_first(), cs, p);
                assert(r == min_run(d2, rest[0], rest.drop_first(), p));
            }
        },
        MinStep::WithNext => {
            if rest.len() > 0 {
                lemma_join_words(cur, rest[0]);
                assert forall|i: int| 0 <= i < rest.drop_first().len() implies merge_origin(
                    #[trigger] rest.drop_first()[i],
                    cs,
                    p,
                ) by {
                    assert(rest.drop_first()[i] == rest[i + 1]);
                }
                lemma_min_run_origin(done, join_spans(cur, rest[0]), rest.drop_first(), cs, p);
                assert(r == min_run(done, join_spans(cur, rest[0]), rest.drop_first(), p));
            } else {
                assert(r == done.push(cur));
                assert forall|i: int| 0 <= i < r.len() implies merge_origin(#[trigger] r[i], cs, p) by {
                    if i < done.len() {
                        assert(r[i] == done[i]);
                    }
                }
            }
        },
        MinStep::WithPrev => {
            if done.len() > 0 {
                lemma_join_words(done.last(), cur);
                assert forall|i: int| 0 <= i < done.drop_last().len() implies merge_origin(
                    #[trigger] done.drop_last()[i],
                    cs,
                    p,
                ) by {
                    assert(done.drop_last()[i] == done[i]);
                }
                lemma_min_run_origin(done.drop_last(), join_spans(done.last(), cur), rest, cs, p);
                assert(r == min_run(done.drop_last(), join_spans(done.last(), cur), rest, p));
            } else {
                assert(r == done.push(cur));
                assert forall|i: int| 0 <= i < r.len() implies merge_origin(#[trigger] r[i], cs, p) by {
                    if i < done.len() {
                        assert(r[i] == done[i]);
                    }
                }
            }
        },
    }
}

/// Law: on any input whose clips carry identifiers, every clip after the
/// merge pass is an input clip left as it was, or a merged clip with a
/// fresh identifier and at most the word cap plus three words: a merge
/// never goes beyond the relaxed cap, whatever the input.
pub proof fn lemma_merge_origin(clips: Seq<Span>, p: MinParams)
    requires
        forall|i: int| 0 <= i < clips.len() ==> (#[trigger] clips[i]).id is Some,
    ensures
        forall|i: int| 0 <= i < enforce_min_spec(clips, p).len()
            ==> merge_origin(#[trigger] enforce_min_spec(clips, p)[i], clips, p),
{
    if clips.len() > 0 {
        assert(clips.contains(clips[0]));
        assert forall|i: int| 0 <= i < clips.drop_first().len() implies merge_origin(
            #[trigger] clips.drop_first()[i],
            clips,
            p,
        ) by {
            assert(clips.drop_first()[i] == clips[i + 1]);
            assert(clips.contains(clips[i + 1]));
        }
        lemma_min_run_origin(seq![], clips[0], clips.drop_first(), clips, p);
    }
}

/// The earliest start of the clips `a..b` of `cs`.
pub open spec fn run_start(cs: Seq<Span>, a: int, b: int) -> int
    decreases b - a,
{
    if b <= a + 1 {
        cs[a].start
    } else {
        let m = run_start(cs, a, b - 1);
        if m <= cs[b - 1].start { m } else { cs[b - 1].start }
    }
}

/// The latest end of the clips `a..b` of `cs`.
pub open spec fn run_end(cs: Seq<Span>, a: int, b: int) -> int
    decreases b - a,
{
    if b <= a + 1 {
        cs[a].end
    } else {
        let m = run_end(cs, a, b - 1);
        if m >= cs[b - 1].end { m } else { cs[b - 1].end }
    }
}

/// `x` stands for the run `a..b` of the clips `cs`: the clip itself when
/// the run has one clip, else a merged clip with a fresh identifier
/// spanning from the run's earliest start to its latest end.
pub open spec fn is_run(x: Span, cs: Seq<Span>, a: int, b: int) -> bool {
    &&& 0 <= a < b <= cs.len()
    &&& b == a + 1 ==> x == cs[a]
    &&& b > a + 1 ==> x.id is None && x.start == run_start(cs, a, b) && x.end == run_end(cs, a, b)
}

/// The clips `r` stand, in order, for consecutive runs of `cs` that start
/// at the clip boundaries `bd`.
pub open spec fn runs_of(r: Seq<Span>, cs: Seq<Span>, bd: Seq<int>) -> bool {
    &&& bd.len() == r.len() + 1
    &&& bd[0] == 0
    &&& forall|j: int| 0 <= j < r.len() ==> is_run(#[trigger] r[j], cs, bd[j], bd[j + 1])
}

proof fn lemma_run_split(cs: Seq<Span>, a: int, m: int, b: int)
    requires
        a < m < b,
    ensures
        run_start(cs, a, b) == (if run_start(cs, a, m) <= run_start(cs, m, b) { run_start(cs, a, m) } else {
            run_start(cs, m, b)
        }),
        run_end(cs, a, b) == (if run_end(cs, a, m) >= run_end(cs, m, b) { run_end(cs, a, m) } else {
            run_end(cs, m, b)
        }),
    decreases b - m,
{
    if b > m + 1 {
        lemma_run_split(cs, a, m, b - 1);
    }
}

proof fn lemma_join_runs(x: Span, y: Span, cs: Seq<Span>, a: int, m: int, b: int)
    requires
        is_run(x, cs, a, m),
        is_run(y, cs, m, b),
    ensures
        is_run(join_spans(x, y), cs, a, b),
{
    lemma_run_split(cs, a, m, b);
}

proof fn lemma_min_run_runs(done: Seq<Span>, bd: Seq<int>, cur: Span, q: int, rest: Seq<Span>, cs: Seq<Span>, p: MinParams)
    requires
        runs_of(done, cs, bd),
        is_run(cur, cs, bd.last(), q),
        rest == cs.subrange(q, cs.len() as int),
    ensures
        exists|bo: Seq<int>| runs_of(min_run(done, cur, rest, p), cs, bo) && bo.last() == cs.len(),
    decreases 2 * rest.len() + done.len(),
{
    let r = min_run(done, cur, rest, p);
    let n = cs.len() as int;
    match min_step(last_of(done), cur, first_of(rest), p) {
        MinStep::Keep => {
            let d2 = done.push(cur);
            let b2 = bd.push(q);
            assert(runs_of(d2, cs, b2)) by {
                assert forall|j: int| 0 <= j < d2.len() implies is_run(#[trigger] d2[j], cs, b2[j], b2[j + 1]) by {
                    if j < done.len() {
                        assert(d2[j] == done[j] && b2[j] == bd[j] && b2[j + 1] == bd[j + 1]);
                    }
                }
            }
            if rest.len() == 0 {
                assert(r == d2);
                assert(q == n) by {
                    if q < n {
                        assert(rest.len() > 0);
                    }
                }
                assert(runs_of(r, cs, b2) && b2.last() == n);
            } else {
                assert(rest[0] == cs[q]);
                assert(rest.drop_first() =~= cs.subrange(q + 1, n));
                assert(r == min_run(d2, rest[0], rest.drop_first(), p));
                lemma_min_run_runs(d2, b2, rest[0], q + 1, rest.drop_first(), cs, p);
            }
        },
        MinStep::WithNext => {
            if rest.len() > 0 {
                assert(rest[0] == cs[q]);
                assert(is_run(rest[0], cs, q, q + 1));
                lemma_join_runs(cur, rest[0], cs, bd.last(), q, q + 1);
                assert(rest.drop_first() =~= cs.subrange(q + 1, n));
                assert(r == min_run(done, join_spans(cur, rest[0]), rest.drop_first(), p));
                lemma_min_run_runs(done, bd, join_spans(cur, rest[0]), q + 1, rest.drop_first(), cs, p);
            } else {
                let d2 = done.push(cur);
                let b2 = bd.push(q);
                assert forall|j: int| 0 <= j < d2.len() implies is_run(#[trigger] d2[j], cs, b2[j], b2[j + 1]) by {
                    if j < done.len() {
                        assert(d2[j] == done[j] && b2[j] == bd[j] && b2[j + 1] == bd[j + 1]);
                    }
                }
                assert(r == d2);
                assert(q == n) by {
                    if q < n {
                        assert(rest.len() > 0);
                    }
                }
                assert(runs_of(r, cs, b2) && b2.last() == n);
            }
        },
        MinStep::WithPrev => {
            if done.len() > 0 {
                let k = done.len() - 1;
                assert(is_run(done[k], cs, bd[k], bd[k + 1]));
                lemma_join_runs(done.last(), cur, cs, bd[k], bd.last(), q);
                let d2 = done.drop_last();
                let b2 = bd.drop_last();
                assert forall|j: int| 0 <= j < d2.len() implies is_run(#[trigger] d2[j], cs, b2[j], b2[j + 1]) by {
                    assert(d2[j] == done[j] && b2[j] == bd[j] && b2[j + 1] == bd[j + 1]);
                }
                assert(b2.last() == bd[k]);
                assert(r == min_run(d2, join_spans(done.last(), cur), rest, p));
                lemma_min_run_runs(d2, b2, join_spans(done.last(), cur), q, rest, cs, p);
            } else {
                let d2 = done.push(cur);
                let b2 = bd.push(q);
                assert(d2 =~= seq![cur]);
                assert(is_run(d2[0], cs, b2[0], b2[1]));
                assert(r == d2);
                assert(q == n) by {
                    if q < n {
                        assert(rest.len() > 0);
                    }
                }
                assert(runs_of(r, cs, b2) && b2.last() == n);
            }
        },
    }
}

/// Law: the merge pass only joins neighbours, in order: its clips stand
/// for consecutive runs that together cover the input, a run of one clip
/// being that clip unchanged and a longer run a merged clip spanning from
/// the run's earliest start to its latest end.
pub proof fn lemma_merge_runs(clips: Seq<Span>, p: MinParams)
    requires
        clips.len() > 0,
    ensures
        exists|bd: Seq<int>| runs_of(enforce_min_spec(clips, p), clips, bd) && bd.last() == clips.len(),
{
    let bd: Seq<int> = seq![0];
    assert(runs_of(Seq::<Span>::empty(), clips, bd));
    assert(clips.drop_first() =~= clips.subrange(1, clips.len() as int));
    lemma_min_run_runs(seq![], bd, clips[0], 1, clips.drop_first(), clips, p);
}

/// Law: merging short clips never makes a clip more than three words over
/// the word cap (the last-resort merge allows exactly that much), as long
/// as no clip was over it to begin with; together with the split pass,
/// every clip after both passes has at most the cap plus three words.
pub proof fn lemma_merge_word_cap(clips: Seq<Span>, p: MinParams)
    requires
        forall|i: int| 0 <= i < clips.len() ==> span_words(#[trigger] clips[i]) <= p.max_w + 3,
    ensures
        forall|i: int| 0 <= i < enforce_min_spec(clips, p).len()
            ==> span_words(#[trigger] enforce_min_spec(clips, p)[i]) <= p.max_w + 3,
{
    if clips.len() > 0 {
        assert(span_words(clips[0]) <= p.max_w + 3);
        assert forall|i: int| 0 <= i < clips.drop_first().len() implies span_words(
            #[trigger] clips.drop_first()[i],
        ) <= p.max_w + 3 by {
            assert(clips.drop_first()[i] == clips[i + 1]);
        }
        lemma_min_run_word_cap(seq![], clips[0], clips.drop_first(), p);
    }
}

/// Law: after the split and merge passes, no clip has more words than the
/// word cap (at least 4) plus three.
pub proof fn lemma_split_merge_word_cap(
    clips: Seq<Span>,
    ends: Seq<u32>,
    max_words: u32,
    max_ms: u32,
    min_words: u32,
    min_ms: u32,
)
    ensures
        ({
            let mw = if max_words < 4 { 4int } else { max_words as int };
            let ms = if max_ms < 1500 { 1500int } else { max_ms as int };
            let merged = enforce_min_spec(
                enforce_max_spec(clips, mw, ms),
                min_params(max_words, max_ms, min_words, min_ms, ends),
            );
            forall|i: int| 0 <= i < merged.len() ==> span_words(#[trigger] merged[i]) <= mw + 3
        }),
{
    let mw = if max_words < 4 { 4int } else { max_words as int };
    let ms = if max_ms < 1500 { 1500int } else { max_ms as int };
    let split = enforce_max_spec(clips, mw, ms);
    let p = min_params(max_words, max_ms, min_words, min_ms, ends);
    lemma_split_word_cap(clips, mw, ms);
    assert forall|i: int| 0 <= i < split.len() implies span_words(#[trigger] split[i]) <= p.max_w + 3 by {
        assert(word_count(split[i].text) <= mw);
    }
    lemma_merge_word_cap(split, p);
}

/// Joins two clips (see `join_spans`).
pub fn join_clips(a: &Clip, b: &Clip) -> (r: Clip)
    ensures
        clip_matches(r, join_spans(span_of(*a), span_of(*b))),
{
    let at = trim_end_chars(&chars_of(a.text.as_str()), CharClass::SentenceEnd);
    let bt = trim_start_chars(&chars_of(b.text.as_str()), CharClass::WhiteSpace);
    let mut t = at;
    t.push(' ');
    append_chars(&mut t, &bt);
    assert(t@ =~= trim_end(a.text@, CharClass::SentenceEnd) + seq![' '] + trim_start(b.text@, CharClass::WhiteSpace));
    Clip {
        id: new_clip_id(),
        start_ms: if a.start_ms <= b.start_ms { a.start_ms } else { b.start_ms },
        end_ms: if a.end_ms >= b.end_ms { a.end_ms } else { b.end_ms },
        text: string_of(&t),
    }
}

fn clip_words(c: &Clip) -> (n: usize)
    ensures
        n == span_words(span_of(*c)),
{
    count_words(&chars_of(c.text.as_str()))
}

fn clip_dur(c: &Clip) -> (d: i64)
    ensures
        d == span_dur(span_of(*c)),
{
    c.end_ms as i64 - c.start_ms as i64
}

fn cost_of(w: u128, d: i64, max_w: u128, max_ms: i64) -> (r: Option<i64>)
    requires
        max_w <= u32::MAX as u128 + 4,
        1500 <= max_ms <= u32::MAX as i64,
        -(u32::MAX as i64) * 2 <= d <= (u32::MAX as i64) * 2,
    ensures
        ({
            let rc = relaxed_cost(w as int, d as int, MinParams { max_w: max_w as int, max_ms: max_ms as int, min_w: 0, min_ms: 0, ends: seq![] });
            match r {
                Some(x) => rc == Some(x as int),
                None => rc is None,
            }
        }),
{
    if w <= max_w + 3 && d <= max_ms + 1500 {
        let a: i64 = if w > max_w { (w - max_w) as i64 } else { 0 };
        let b: i64 = if d > max_ms { (d - max_ms) / 100 } else { 0 };
        Some(a + b)
    } else {
        None
    }
}

fn decide(prev: Option<&Clip>, cur: &Clip, next: Option<&Clip>, ends: &[u32], max_w: u128, max_ms: i64, min_w: u128, min_ms: i64)
    -> (r: MinStep)
    requires
        4 <= max_w <= u32::MAX as u128,
        1500 <= max_ms <= u32::MAX as i64,
    ensures
        r == min_step(
            match prev { Some(c) => Some(span_of(*c)), None => None },
            span_of(*cur),
            match next { Some(c) => Some(span_of(*c)), None => None },
            MinParams { max_w: max_w as int, max_ms: max_ms as int, min_w: min_w as int, min_ms: min_ms as int, ends: ends@ },
        ),
{
    let ghost p = MinParams { max_w: max_w as int, max_ms: max_ms as int, min_w: min_w as int, min_ms: min_ms as int, ends: ends@ };
    let wc = clip_words(cur) as u128;
    let dur = clip_dur(cur);
    if wc >= min_w && dur >= min_ms {
        return MinStep::Keep;
    }
    let cur_end = is_sentence_end(cur.end_ms, ends);
    let (nw, nd) = match next {
        Some(n) => (clip_words(n) as u128, clip_dur(n)),
        None => (0, 0),
    };
    let (pw, pd) = match prev {
        Some(q) => (clip_words(q) as u128, clip_dur(q)),
        None => (0, 0),
    };
    let next_fits = next.is_some() && wc + nw <= max_w && dur + nd <= max_ms;
    let prev_fits = prev.is_some() && pw + wc <= max_w && pd + dur <= max_ms;
    if !cur_end && next_fits {
        return MinStep::WithNext;
    }
    if prev_fits {
        let pe = match prev { Some(q) => is_sentence_end(q.end_ms, ends), None => true };
        if !pe {
            return MinStep::WithPrev;
        }
    }
    if next_fits {
        return MinStep::WithNext;
    }
    if prev_fits {
        return MinStep::WithPrev;
    }
    let fwd = if next.is_some() { cost_of(wc + nw, dur + nd, max_w, max_ms) } else { None };
    let bwd = if prev.is_some() { cost_of(pw + wc, pd + dur, max_w, max_ms) } else { None };
    match (fwd, bwd) {
        (Some(fc), Some(bc)) => if fc <= bc { MinStep::WithNext } else { MinStep::WithPrev },
        (Some(_), None) => MinStep::WithNext,
        (None, Some(_)) => MinStep::WithPrev,
        (None, None) => MinStep::Keep,
    }
}

pub open spec fn same_shape(a: Span, b: Span) -> bool {
    a.start == b.start && a.end == b.end && a.text == b.text
}

pub open spec fn same_shape_opt(a: Option<Span>, b: Option<Span>) -> bool {
    match (a, b) {
        (Some(x), Some(y)) => same_shape(x, y),
        (None, None) => true,
        _ => false,
    }
}

proof fn lemma_step_shape(
    a1: Option<Span>,
    a2: Option<Span>,
    c1: Span,
    c2: Span,
    n1: Option<Span>,
    n2: Option<Span>,
    p: MinParams,
)
    requires
        same_shape_opt(a1, a2),
        same_shape(c1, c2),
        same_shape_opt(n1, n2),
    ensures
        min_step(a1, c1, n1, p) == min_step(a2, c2, n2, p),
{
}

/// Merges clips below the word or time floor into a neighbour, in the order
/// of `min_step`, repeating until the clip reaches the floor or no merge
/// fits. A clip whose end lies within 200 ms of a time in
/// `sentence_end_ms` ends a sentence; merging across it is tried only after
/// the same-sentence merges. Times are in milliseconds.
pub fn enforce_min(
    clips: Vec<Clip>,
    sentence_end_ms: &[u32],
    max_words: u32,
    max_ms: u32,
    min_words: u32,
    min_ms: u32,
) -> (r: Vec<Clip>)
    ensures
        clips_match(
            r@,
            enforce_min_spec(
                spans_of(clips@),
                min_params(max_words, max_ms, min_words, min_ms, sentence_end_ms@),
            ),
        ),
{
    let ghost p = min_params(max_words, max_ms, min_words, min_ms, sentence_end_ms@);
    let ghost all = spans_of(clips@);
    if clips.len() == 0 {
        return clips;
    }
    let max_w: u128 = if max_words < 4 { 4 } else { max_words as u128 };
    let max_t: i64 = if max_ms < 1500 { 1500 } else { max_ms as i64 };
    let min_w: u128 = if min_words < 1 { 1 } else if min_words as u128 > max_w { max_w } else { min_words as u128 };
    let min_t: i64 = if min_ms as i64 > max_t { max_t } else { min_ms as i64 };
    assert(p == (MinParams { max_w: max_w as int, max_ms: max_t as int, min_w: min_w as int, min_ms: min_t as int, ends: sentence_end_ms@ }));
    let mut out: Vec<Clip> = Vec::new();
    let mut i: usize = 0;
    let mut cur = copy_clip(&clips[0]);
    let ghost mut done: Seq<Span> = seq![];
    let ghost mut cur_s: Span = all[0];
    assert(all.skip(1) =~= all.drop_first());
    loop
        invariant
            i < clips.len(),
            all == spans_of(clips@),
            p == min_params(max_words, max_ms, min_words, min_ms, sentence_end_ms@),
            p == (MinParams { max_w: max_w as int, max_ms: max_t as int, min_w: min_w as int, min_ms: min_t as int, ends: sentence_end_ms@ }),
            4 <= max_w <= u32::MAX as u128,
            1500 <= max_t <= u32::MAX as i64,
            clips_match(out@, done),
            clip_matches(cur, cur_s),
            enforce_min_spec(all, p) == min_run(done, cur_s, all.skip(i + 1), p),
        decreases 2 * (clips.len() - 1 - i) + out.len(),
    {
        let ghost rest = all.skip(i + 1);
        let prev: Option<&Clip> = if out.len() > 0 { Some(&out[out.len() - 1]) } else { None };
        let next: Option<&Clip> = if i + 1 < clips.len() { Some(&clips[i + 1]) } else { None };
        proof {
            let pa = match prev { Some(c) => Some(span_of(*c)), None => None };
            let na = match next { Some(c) => Some(span_of(*c)), None => None };
            if out.len() > 0 {
                assert(clip_matches(out@[out.len() - 1], done[out.len() - 1]));
            }
            if i + 1 < clips.len() {
                assert(rest[0] == all[i + 1]);
            }
            lemma_step_shape(pa, last_of(done), span_of(cur), cur_s, na, first_of(rest), p);
        }
        let step = decide(prev, &cur, next, sentence_end_ms, max_w, max_t, min_w, min_t);
        match step {
            MinStep::Keep => {
                let ghost out0 = out@;
                let ghost done0 = done;
                out.push(cur);
                proof {
                    assert(clip_matches(out@[out.len() - 1], cur_s));
                    done = done.push(cur_s);
                    assert forall|k: int| 0 <= k < out@.len() implies #[trigger] clip_matches(out@[k], done[k]) by {
                        if k < out@.len() - 1 {
                            assert(clip_matches(out0[k], done0[k]));
                        }
                    }
                }
                if i + 1 == clips.len() {
                    assert(rest.len() == 0);
                    assert(min_run(done0, cur_s, rest, p) == done0.push(cur_s));
                    assert(enforce_min_spec(all, p) == done);
                    return out;
                }
                i += 1;
                cur = copy_clip(&clips[i]);
                proof {
                    cur_s = all[i as int];
                    assert(rest[0] == all[i as int]);
                    assert(rest.drop_first() =~= all.skip(i + 1));
                }
            },
            MinStep::WithNext => {
                if i + 1 < clips.len() {
                    cur = join_clips(&cur, &clips[i + 1]);
                    proof {
                        assert(rest[0] == all[i + 1]);
                        cur_s = join_spans(cur_s, all[i + 1]);
                        assert(rest.drop_first() =~= all.skip(i + 2));
                    }
                    i += 1;
                } else {
                    proof { assert(false); }
                    out.push(cur);
                    return out;
                }
            },
            MinStep::WithPrev => {
                match out.pop() {
                    Some(pv) => {
                        proof {
                            assert(clip_matches(pv, done.last()));
                        }
                        cur = join_clips(&pv, &cur);
                        proof {
                            cur_s = join_spans(done.last(), cur_s);
                            done = done.drop_last();
                        }
                    },
                    None => {
                        proof { assert(false); }
                        out.push(cur);
                        return out;
                    },
                }
            },
        }
    }
}

// ───────────────────────── extending stop-word tails ─────────────────────────

/// The first word, from `i` on, that starts no earlier than 50 ms before
/// `start` or ends after it; -1 if none.
pub open spec fn first_word_from(ws: Seq<TimedWord>, start: int, i: int) -> int
    decreases ws.len() - i,
{
    if i < 0 || i >= ws.len() {
        -1
    } else if ws[i].start + 50 >= start || ws[i].end > start {
        i
    } else {
        first_word_from(ws, start, i + 1)
    }
}

/// The last word, at or before `j`, that ends no later than 50 ms after
/// `end`; -1 if none.
pub open spec fn last_word_to(ws: Seq<TimedWord>, end: int, j: int) -> int
    decreases j + 1,
{
    if j < 0 || j >= ws.len() {
        -1
    } else if ws[j].end <= end + 50 {
        j
    } else {
        last_word_to(ws, end, j - 1)
    }
}

/// The words a clip covers, as `(first, last)` indices.
pub open spec fn word_range(c: Span, ws: Seq<TimedWord>) -> Option<(int, int)> {
    let f = first_word_from(ws, c.start, 0);
    let l = last_word_to(ws, c.end, ws.len() - 1);
    if f < 0 || l < 0 || l < f {
        None
    } else {
        Some((f, l))
    }
}

/// Moves the last word `l` forward while it is a stop word, at most three
/// times in all, staying within `max_w` words and `max_ms` milliseconds
/// from word `f`; the new last word and the number of moves.
pub open spec fn extend_tail(ws: Seq<TimedWord>, f: int, l: int, ext: int, max_w: int, max_ms: int) -> (int, int)
    decreases 3 - ext,
{
    if ext < 3 && 0 <= l && l + 1 < ws.len() && forbidden_tail_word(check_word(ws[l].text))
        && l + 1 - f + 1 <= max_w && ws[l + 1].end - ws[f].start <= max_ms {
        extend_tail(ws, f, l + 1, ext + 1, max_w, max_ms)
    } else {
        (l, ext)
    }
}

/// One clip after the stop-word fix: if its last word is a stop word, its
/// tail takes in up to three more words (overlapping the next clip) until
/// it ends on a content word; its text is rebuilt from the words and its
/// end moved to the last word's end. Start and identifier stay.
pub open spec fn fix_tail(c: Span, ws: Seq<TimedWord>, max_w: int, max_ms: int) -> Span {
    match word_range(c, ws) {
        None => c,
        Some((f, l)) => {
            let (l2, ext) = extend_tail(ws, f, l, 0, max_w, max_ms);
            if ext == 0 {
                c
            } else {
                Span {
                    id: c.id,
                    start: c.start,
                    end: ws[l2].end,
                    text: capitalized_terminated(joined_words(ws, f, l2)),
                }
            }
        },
    }
}

/// Every clip of `cs` after the stop-word fix.
pub open spec fn fix_all(cs: Seq<Span>, ws: Seq<TimedWord>, max_w: int, max_ms: int) -> Seq<Span> {
    Seq::new(cs.len(), |k: int| fix_tail(cs[k], ws, max_w, max_ms))
}

/// Law: the stop-word fix keeps every clip, in order, with its identifier
/// and start; only a clip's end and text can change.
pub proof fn lemma_fix_keeps_clips(cs: Seq<Span>, ws: Seq<TimedWord>, max_w: int, max_ms: int)
    ensures
        fix_all(cs, ws, max_w, max_ms).len() == cs.len(),
        forall|k: int| 0 <= k < cs.len() ==> {
            &&& (#[trigger] fix_all(cs, ws, max_w, max_ms)[k]).id == cs[k].id
            &&& fix_all(cs, ws, max_w, max_ms)[k].start == cs[k].start
        },
{
}

proof fn lemma_extend_tail_bounds(ws: Seq<TimedWord>, f: int, l: int, ext: int, max_w: int, max_ms: int)
    requires
        0 <= f <= l < ws.len(),
        0 <= ext <= 3,
    ensures
        ({
            let (l2, e2) = extend_tail(ws, f, l, ext, max_w, max_ms);
            l <= l2 < ws.len() && ext <= e2 <= 3 && (e2 == ext ==> l2 == l)
        }),
    decreases 3 - ext,
{
    if ext < 3 && 0 <= l && l + 1 < ws.len() && forbidden_tail_word(check_word(ws[l].text))
        && l + 1 - f + 1 <= max_w && ws[l + 1].end - ws[f].start <= max_ms {
        lemma_extend_tail_bounds(ws, f, l + 1, ext + 1, max_w, max_ms);
    }
}

proof fn lemma_extend_tail_stop(ws: Seq<TimedWord>, f: int, l: int, ext: int, max_w: int, max_ms: int)
    requires
        0 <= f <= l < ws.len(),
        0 <= ext <= 3,
    ensures
        ({
            let (l2, e2) = extend_tail(ws, f, l, ext, max_w, max_ms);
            &&& l2 == l + (e2 - ext)
            &&& (e2 < 3 && l2 + 1 < ws.len() && l2 + 1 - f + 1 <= max_w && ws[l2 + 1].end - ws[f].start
                <= max_ms) ==> !forbidden_tail_word(check_word(ws[l2].text))
            &&& e2 > ext ==> {
                &&& l2 - f + 1 <= max_w
                &&& ws[l2].end - ws[f].start <= max_ms
                &&& forbidden_tail_word(check_word(ws[l2 - 1].text))
            }
        }),
    decreases 3 - ext,
{
    if ext < 3 && 0 <= l && l + 1 < ws.len() && forbidden_tail_word(check_word(ws[l].text))
        && l + 1 - f + 1 <= max_w && ws[l + 1].end - ws[f].start <= max_ms {
        lemma_extend_tail_stop(ws, f, l + 1, ext + 1, max_w, max_ms);
    }
}

proof fn lemma_first_word_range(ws: Seq<TimedWord>, start: int, i: int)
    requires
        0 <= i,
    ensures
        first_word_from(ws, start, i) == -1 || i <= first_word_from(ws, start, i) < ws.len(),
    decreases ws.len() - i,
{
    if i < ws.len() && !(ws[i].start + 50 >= start || ws[i].end > start) {
        lemma_first_word_range(ws, start, i + 1);
    }
}

proof fn lemma_last_word_range(ws: Seq<TimedWord>, end: int, j: int)
    ensures
        last_word_to(ws, end, j) == -1 || 0 <= last_word_to(ws, end, j) <= j,
        last_word_to(ws, end, j) < ws.len(),
    decreases j + 1,
{
    if 0 <= j < ws.len() && !(ws[j].end <= end + 50) {
        lemma_last_word_range(ws, end, j - 1);
    }
}

proof fn lemma_first_word_from(ws: Seq<TimedWord>, start: int, i: int)
    requires
        0 <= i,
    ensures
        ({
            let f = first_word_from(ws, start, i);
            &&& f == -1 ==> forall|k: int| i <= k < ws.len() ==> !((#[trigger] ws[k]).start + 50 >= start || ws[k].end > start)
            &&& f != -1 ==> i <= f < ws.len() && (ws[f].start + 50 >= start || ws[f].end > start)
                && forall|k: int| i <= k < f ==> !((#[trigger] ws[k]).start + 50 >= start || ws[k].end > start)
        }),
    decreases ws.len() - i,
{
    if i < ws.len() && !(ws[i].start + 50 >= start || ws[i].end > start) {
        lemma_first_word_from(ws, start, i + 1);
    }
}

proof fn lemma_last_word_to(ws: Seq<TimedWord>, end: int, j: int)
    requires
        j < ws.len(),
    ensures
        ({
            let l = last_word_to(ws, end, j);
            &&& l == -1 ==> forall|k: int| 0 <= k <= j ==> (#[trigger] ws[k]).end > end + 50
            &&& l != -1 ==> 0 <= l <= j && ws[l].end <= end + 50
                && forall|k: int| l < k <= j ==> (#[trigger] ws[k]).end > end + 50
        }),
    decreases j + 1,
{
    if 0 <= j && !(ws[j].end <= end + 50) {
        lemma_last_word_to(ws, end, j - 1);
    }
}

/// Law: the words a clip covers run from the first word that starts no
/// earlier than 50 ms before the clip's start or ends after it, to the last
/// word that ends no later than 50 ms after the clip's end. Every word
/// before the range starts more than 50 ms before the clip and ends at or
/// before its start; every word after it ends more than 50 ms after the
/// clip. A word that meets both tests puts the clip in range.
pub proof fn lemma_word_range(c: Span, ws: Seq<TimedWord>)
    ensures
        word_range(c, ws) matches Some((f, l)) ==> {
            &&& 0 <= f <= l < ws.len()
            &&& ws[f].start + 50 >= c.start || ws[f].end > c.start
            &&& forall|k: int| 0 <= k < f ==> (#[trigger] ws[k]).start + 50 < c.start && ws[k].end <= c.start
            &&& ws[l].end <= c.end + 50
            &&& forall|k: int| l < k < ws.len() ==> (#[trigger] ws[k]).end > c.end + 50
        },
        (exists|k: int| 0 <= k < ws.len() && ((#[trigger] ws[k]).start + 50 >= c.start || ws[k].end > c.start)
            && ws[k].end <= c.end + 50) ==> word_range(c, ws) is Some,
{
    lemma_first_word_from(ws, c.start, 0);
    lemma_last_word_to(ws, c.end, ws.len() - 1);
    if exists|k: int| 0 <= k < ws.len() && ((#[trigger] ws[k]).start + 50 >= c.start || ws[k].end > c.start)
        && ws[k].end <= c.end + 50 {
        let k = choose|k: int| 0 <= k < ws.len() && ((#[trigger] ws[k]).start + 50 >= c.start || ws[k].end > c.start)
            && ws[k].end <= c.end + 50;
        let f = first_word_from(ws, c.start, 0);
        let l = last_word_to(ws, c.end, ws.len() - 1);
        assert(f != -1);
        assert(l != -1);
        assert(f <= k);
        assert(k <= l);
    }
}

/// Law: a clip that the stop-word fix changes covers words `f..=l2` of the
/// clip's words `f..=l`: it took in one to three more words, stays within
/// `max_w` words and `max_ms` milliseconds from its first word, the word
/// before its new last word is a stop word, it ends at its new last word's
/// end, keeps its start and identifier, and its text (when not empty) ends
/// in `.`, `!` or `?`. A clip it does not extend stays as it was.
pub proof fn lemma_fix_tail_law(c: Span, ws: Seq<TimedWord>, max_w: int, max_ms: int)
    ensures
        match word_range(c, ws) {
            None => fix_tail(c, ws, max_w, max_ms) == c,
            Some((f, l)) => {
                let (l2, n) = extend_tail(ws, f, l, 0, max_w, max_ms);
                let x = fix_tail(c, ws, max_w, max_ms);
                &&& 0 <= f <= l < ws.len()
                &&& n == 0 ==> x == c
                &&& n > 0 ==> {
                    &&& l < l2 <= l + 3
                    &&& l2 - f + 1 <= max_w
                    &&& ws[l2].end - ws[f].start <= max_ms
                    &&& forbidden_tail_word(check_word(ws[l2 - 1].text))
                    &&& x.id == c.id && x.start == c.start && x.end == ws[l2].end
                    &&& (x.text.len() > 0 ==> ends_with_terminator(x.text))
                }
            },
        },
{
    lemma_first_word_range(ws, c.start, 0);
    lemma_last_word_range(ws, c.end, ws.len() - 1);
    if let Some((f, l)) = word_range(c, ws) {
        lemma_extend_tail_bounds(ws, f, l, 0, max_w, max_ms);
        lemma_extend_tail_stop(ws, f, l, 0, max_w, max_ms);
    }
}

/// Law: the stop-word fix takes in at most three more words, and it stops
/// before three only when the last word is a content word, no word
/// follows, or the next word would break the caps.
pub proof fn lemma_extend_tail_law(ws: Seq<TimedWord>, f: int, l: int, max_w: int, max_ms: int)
    requires
        0 <= f <= l < ws.len(),
    ensures
        ({
            let (l2, n) = extend_tail(ws, f, l, 0, max_w, max_ms);
            &&& 0 <= n <= 3
            &&& l2 == l + n
            &&& l2 < ws.len()
            &&& (n < 3 && l2 + 1 < ws.len() && l2 + 1 - f + 1 <= max_w && ws[l2 + 1].end - ws[f].start
                <= max_ms) ==> !forbidden_tail_word(check_word(ws[l2].text))
        }),
{
    lemma_extend_tail_bounds(ws, f, l, 0, max_w, max_ms);
    lemma_extend_tail_stop(ws, f, l, 0, max_w, max_ms);
}

fn find_word_range(clip: &Clip, words: &[WhisperWord]) -> (r: Option<(usize, usize)>)
    ensures
        match (r, word_range(span_of(*clip), timed_words(words@))) {
            (Some((f, l)), Some((f2, l2))) => f as int == f2 && l as int == l2,
            (None, None) => true,
            _ => false,
        },
        r matches Some((f, l)) ==> f <= l < words@.len(),
{
    let ghost tw = timed_words(words@);
    let ghost cs = span_of(*clip);
    let mut i: usize = 0;
    while i < words.len() && !(words[i].start_ms as u64 + 50 >= clip.start_ms as u64 || words[i].end_ms > clip.start_ms)
        invariant
            i <= words@.len(),
            tw == timed_words(words@),
            cs == span_of(*clip),
            first_word_from(tw, cs.start, 0) == first_word_from(tw, cs.start, i as int),
        decreases words@.len() - i,
    {
        i += 1;
    }
    if i == words.len() {
        return None;
    }
    let mut j: usize = words.len();
    while j > 0 && !(words[j - 1].end_ms as u64 <= clip.end_ms as u64 + 50)
        invariant
            j <= words@.len(),
            tw == timed_words(words@),
            cs == span_of(*clip),
            last_word_to(tw, cs.end, tw.len() - 1) == last_word_to(tw, cs.end, j - 1),
        decreases j,
    {
        j -= 1;
    }
    if j == 0 {
        return None;
    }
    let l = j - 1;
    if l < i {
        return None;
    }
    Some((i, l))
}

/// Extends every clip whose last word is a stop word (see `fix_tail`),
/// within `max_words + 3` words and `max_ms + 1500` milliseconds; a clip it
/// changes ends in `.`, `!` or `?`.
pub fn boundary_fix(clips: Vec<Clip>, words: &[WhisperWord], max_words: u32, max_ms: u32) -> (r: Vec<Clip>)
    ensures
        clips_match(r@, fix_all(spans_of(clips@), timed_words(words@), max_words + 3, max_ms + 1500)),
        r@.len() == clips@.len(),
        forall|i: int| 0 <= i < r@.len() && span_of(#[trigger] r@[i]) != span_of(clips@[i])
            ==> ends_with_terminator(r@[i].text@),
{
    let ghost tw = timed_words(words@);
    let ghost target = fix_all(spans_of(clips@), tw, max_words + 3, max_ms + 1500);
    let max_w: u64 = max_words as u64 + 3;
    let max_t: i64 = max_ms as i64 + 1500;
    let mut out: Vec<Clip> = Vec::new();
    let mut k: usize = 0;
    while k < clips.len()
        invariant
            k <= clips@.len(),
            tw == timed_words(words@),
            max_w == max_words + 3,
            max_t == max_ms + 1500,
            target == fix_all(spans_of(clips@), tw, max_words + 3, max_ms + 1500),
            out@.len() == k,
            forall|q: int| 0 <= q < k ==> #[trigger] clip_matches(out@[q], target[q]),
            forall|q: int| 0 <= q < k && span_of(#[trigger] out@[q]) != span_of(clips@[q])
                ==> ends_with_terminator(out@[q].text@),
        decreases clips@.len() - k,
    {
        let clip = &clips[k];
        let ghost cs = span_of(*clip);
        let ghost out0 = out@;
        match find_word_range(clip, words) {
            None => {
                out.push(copy_clip(clip));
            },
            Some((first, last0)) => {
                let mut last = last0;
                let mut ext: usize = 0;
                proof {
                    lemma_extend_tail_bounds(tw, first as int, last0 as int, 0, max_w as int, max_t as int);
                }
                while ext < 3 && last < words.len() - 1
                    invariant
                        first <= last0 <= last < words@.len(),
                        ext <= 3,
                        tw == timed_words(words@),
                        extend_tail(tw, first as int, last0 as int, 0, max_w as int, max_t as int)
                            == extend_tail(tw, first as int, last as int, ext as int, max_w as int, max_t as int),
                        ext == 0 ==> last == last0,
                        ext > 0 ==> first < last && trim(tw[last - 1].text).len() > 0,
                        max_w == max_words + 3,
                        max_t == max_ms + 1500,
                    ensures
                        ext > 0 ==> first < last && trim(tw[last - 1].text).len() > 0,
                        extend_tail(tw, first as int, last as int, ext as int, max_w as int, max_t as int)
                            == (last as int, ext as int),
                    decreases 3 - ext,
                {
                    let cur_last = strip_for_check_chars(&chars_of(words[last].word.as_str()));
                    if !is_forbidden_tail(&cur_last) {
                        break;
                    }
                    proof {
                        lemma_stop_word_not_empty(cur_last@);
                        assert(tw[last as int].text == words@[last as int].word@);
                    }
                    let new_last = last + 1;
                    let new_count = (new_last - first + 1) as u64;
                    if new_count > max_w || words[new_last].end_ms as i64 - words[first].start_ms as i64 > max_t {
                        break;
                    }
                    last = new_last;
                    ext += 1;
                }
                if ext == 0 {
                    out.push(copy_clip(clip));
                } else {
                    let joined = joined_words_chars(words, first, last);
                    proof {
                        lemma_joined_words_not_empty(tw, first as int, last as int, last - 1);
                    }
                    let text = capitalize_and_terminate_chars(&joined);
                    out.push(Clip {
                        id: clip.id.clone(),
                        start_ms: clip.start_ms,
                        end_ms: words[last].end_ms,
                        text: string_of(&text),
                    });
                }
            },
        }
        proof {
            assert forall|q: int| 0 <= q < k + 1 implies #[trigger] clip_matches(out@[q], target[q]) by {
                if q < k {
                    assert(clip_matches(out0[q], target[q]));
                }
            }
            assert forall|q: int| 0 <= q < k + 1 && span_of(#[trigger] out@[q]) != span_of(clips@[q])
                implies ends_with_terminator(out@[q].text@) by {
                if q < k {
                    assert(out@[q] == out0[q]);
                }
            }
        }
        k += 1;
    }
    out
}

// ───────────────────────── the whole pass ─────────────────────────

/// `a` has the shape of `b` and, where `b` names an identifier, that one.
pub open spec fn refines(a: Span, b: Span) -> bool {
    same_shape(a, b) && (b.id matches Some(x) ==> a.id == Some(x))
}

pub open spec fn all_refine(a: Seq<Span>, b: Seq<Span>) -> bool {
    a.len() == b.len() && forall|i: int| 0 <= i < a.len() ==> #[trigger] refines(a[i], b[i])
}

proof fn lemma_match_refines(cs: Seq<Clip>, a: Seq<Span>, b: Seq<Span>)
    requires
        clips_match(cs, a),
        all_refine(a, b),
    ensures
        clips_match(cs, b),
{
    assert forall|i: int| 0 <= i < cs.len() implies #[trigger] clip_matches(cs[i], b[i]) by {
        assert(clip_matches(cs[i], a[i]));
        assert(refines(a[i], b[i]));
    }
}

proof fn lemma_spans_refine(cs: Seq<Clip>, a: Seq<Span>)
    requires
        clips_match(cs, a),
    ensures
        all_refine(spans_of(cs), a),
{
    assert forall|i: int| 0 <= i < cs.len() implies #[trigger] refines(spans_of(cs)[i], a[i]) by {
        assert(clip_matches(cs[i], a[i]));
    }
}

proof fn lemma_min_run_refines(
    d1: Seq<Span>,
    c1: Span,
    r1: Seq<Span>,
    d2: Seq<Span>,
    c2: Span,
    r2: Seq<Span>,
    p: MinParams,
)
    requires
        all_refine(d1, d2),
        refines(c1, c2),
        all_refine(r1, r2),
    ensures
        all_refine(min_run(d1, c1, r1, p), min_run(d2, c2, r2, p)),
    decreases 2 * r1.len() + d1.len(),
{
    if d1.len() > 0 {
        assert(refines(d1[d1.len() - 1], d2[d2.len() - 1]));
    }
    if r1.len() > 0 {
        assert(refines(r1[0], r2[0]));
    }
    lemma_step_shape(last_of(d1), last_of(d2), c1, c2, first_of(r1), first_of(r2), p);
    match min_step(last_of(d1), c1, first_of(r1), p) {
        MinStep::Keep => if r1.len() == 0 {
            assert(all_refine(d1.push(c1), d2.push(c2)));
        } else {
            assert(all_refine(d1.push(c1), d2.push(c2)));
            assert(all_refine(r1.drop_first(), r2.drop_first()));
            lemma_min_run_refines(d1.push(c1), r1[0], r1.drop_first(), d2.push(c2), r2[0], r2.drop_first(), p);
        },
        MinStep::WithNext => if r1.len() > 0 {
            assert(all_refine(r1.drop_first(), r2.drop_first()));
            lemma_min_run_refines(d1, join_spans(c1, r1[0]), r1.drop_first(), d2, join_spans(c2, r2[0]), r2.drop_first(), p);
        } else {
            assert(all_refine(d1.push(c1), d2.push(c2)));
        },
        MinStep::WithPrev => if d1.len() > 0 {
            assert(all_refine(d1.drop_last(), d2.drop_last()));
            lemma_min_run_refines(d1.drop_last(), join_spans(d1.last(), c1), r1, d2.drop_last(), join_spans(d2.last(), c2), r2, p);
        } else {
            assert(all_refine(d1.push(c1), d2.push(c2)));
        },
    }
}

proof fn lemma_min_refines(a: Seq<Span>, b: Seq<Span>, p: MinParams)
    requires
        all_refine(a, b),
    ensures
        all_refine(enforce_min_spec(a, p), enforce_min_spec(b, p)),
{
    if a.len() > 0 {
        assert(refines(a[0], b[0]));
        assert(all_refine(a.drop_first(), b.drop_first()));
        lemma_min_run_refines(seq![], a[0], a.drop_first(), seq![], b[0], b.drop_first(), p);
    }
}

proof fn lemma_fix_refines(a: Seq<Span>, b: Seq<Span>, ws: Seq<TimedWord>, mw: int, ms: int)
    requires
        all_refine(a, b),
    ensures
        all_refine(fix_all(a, ws, mw, ms), fix_all(b, ws, mw, ms)),
{
    assert forall|k: int| 0 <= k < a.len() implies #[trigger] refines(fix_all(a, ws, mw, ms)[k], fix_all(b, ws, mw, ms)[k]) by {
        assert(refines(a[k], b[k]));
    }
}

/// The clips after all three passes: split, merge, and (when word timings
/// are known) the stop-word fix.
pub open spec fn bounds_spec(
    clips: Seq<Span>,
    ends: Seq<u32>,
    ws: Seq<TimedWord>,
    max_words: u32,
    max_ms: u32,
    min_words: u32,
    min_ms: u32,
) -> Seq<Span> {
    let split = enforce_max_spec(
        clips,
        if max_words < 4 { 4 } else { max_words as int },
        if max_ms < 1500 { 1500 } else { max_ms as int },
    );
    let merged = enforce_min_spec(split, min_params(max_words, max_ms, min_words, min_ms, ends));
    if ws.len() == 0 {
        merged
    } else {
        fix_all(merged, ws, max_words + 3, max_ms + 1500)
    }
}

/// The final pass over every clip list: split what is over the caps, merge
/// what is under the floors (sentence-aware), then extend clips ending on a
/// stop word; the last step is skipped when `words` is empty.
pub fn enforce_clip_bounds(
    clips: Vec<Clip>,
    sentence_end_ms: &[u32],
    words: &[WhisperWord],
    max_words: u32,
    max_ms: u32,
    min_words: u32,
    min_ms: u32,
) -> (r: Vec<Clip>)
    ensures
        clips_match(
            r@,
            bounds_spec(spans_of(clips@), sentence_end_ms@, timed_words(words@), max_words, max_ms, min_words, min_ms),
        ),
{
    let ghost mw = if max_words < 4 { 4 } else { max_words as int };
    let ghost ms = if max_ms < 1500 { 1500 } else { max_ms as int };
    let ghost p = min_params(max_words, max_ms, min_words, min_ms, sentence_end_ms@);
    let ghost split_s = enforce_max_spec(spans_of(clips@), mw, ms);
    let split = enforce_max(clips, max_words, max_ms);
    let ghost split_v = split@;
    let merged = enforce_min(split, sentence_end_ms, max_words, max_ms, min_words, min_ms);
    let ghost merged_s = enforce_min_spec(split_s, p);
    proof {
        lemma_spans_refine(split_v, split_s);
        lemma_min_refines(spans_of(split_v), split_s, p);
        lemma_match_refines(merged@, enforce_min_spec(spans_of(split_v), p), merged_s);
    }
    if words.len() == 0 {
        merged
    } else {
        let ghost merged_v = merged@;
        let fixed = boundary_fix(merged, words, max_words, max_ms);
        proof {
            lemma_spans_refine(merged_v, merged_s);
            lemma_fix_refines(spans_of(merged_v), merged_s, timed_words(words@), max_words + 3, max_ms + 1500);
            lemma_match_refines(
                fixed@,
                fix_all(spans_of(merged_v), timed_words(words@), max_words + 3, max_ms + 1500),
                fix_all(merged_s, timed_words(words@), max_words + 3, max_ms + 1500),
            );
        }
        fixed
    }
}

} // verus!
