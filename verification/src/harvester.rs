//! Sentence harvester: cuts sentence-shaped clips out of timed segments,
//! using the word timings to place the cuts.
//!
//! 1. Consecutive segments are grouped into raw sentences, a group closing
//!    at each segment that ends in `.`, `!` or `?`.
//! 2. Each group's text is split on interior terminators; each piece gets
//!    the share of the group's time span that its characters take, snapped
//!    to the word boundaries near it (±50 ms).
//! 3. A candidate over `MAX_WORDS` words or `MAX_DURATION_MS` is split
//!    greedily at clause breaks (comma, dash) or before a leading
//!    conjunction.
//! 4. Only clips of `MIN_DURATION_MS..=MAX_DURATION_MS` and
//!    `MIN_WORDS..=MAX_WORDS` words are kept.

use vstd::prelude::*;
use crate::text::{
    CharClass, chars_of, char_seqs, string_seqs, trim, trim_start, trim_end, trim_chars, is_white_space, lemma_trim_len,
    lemma_trim_start_shape, is_sentence_end_char, unicode_white_space, slice_chars, collapse,
    collapse_chars, join, join_spaced, ends_with_terminator, word_count, count_words, str_lower,
    lower_of, string_of, capitalized, capitalize_first_chars, in_class, char_in_class,
    lemma_white_space_examples, lemma_trim_empty_blank, lemma_trim_start_skips_blank,
};
use crate::model::{
    Clip, Span, TimedWord, WhisperSegment, WhisperWord, clip_matches, clips_match, new_clip_id,
    timed_segments, timed_words,
};
use crate::bounds::{
    total_len, round_pos, piece_time, ws_count, lemma_ws_count_concat, lemma_ws_count_single,
    lemma_word_count_bound, lemma_join_ws_count,
};
use crate::sentence::{normalized_sentence, normalize_sentence_chars, alnum_only, strip_punct_chars, strip_junk};
use crate::wordlists::{leading_conjunction, is_leading_conjunction};
use crate::wordspan::{joined_words, joined_words_chars, trimmed_texts};

verus! {

pub const MAX_WORDS: usize = 20;
pub const MIN_WORDS: usize = 3;
pub const MAX_DURATION_MS: i64 = 5000;
pub const MIN_DURATION_MS: i64 = 1000;
pub const SNAP_TOLERANCE_MS: i64 = 50;

// ───────────────────────── sentence pieces ─────────────────────────

/// The sentence pieces of `s` given the piece `cur` already begun: a piece
/// ends at a `.`, `!` or `?` that is followed by white space or the end of
/// the text, keeps that character, and the white space after it is skipped.
/// A last piece with only white space is dropped.
pub open spec fn sentences_acc(s: Seq<char>, cur: Seq<char>) -> Seq<Seq<char>>
    decreases s.len(),
{
    if s.len() == 0 {
        if trim(cur).len() > 0 { seq![cur] } else { seq![] }
    } else {
        let cur2 = cur.push(s[0]);
        if is_sentence_end_char(s[0]) && (s.len() == 1 || unicode_white_space(s[1])) {
            proof {
                lemma_trim_len(s.drop_first(), CharClass::WhiteSpace);
            }
            seq![cur2] + sentences_acc(trim_start(s.drop_first(), CharClass::WhiteSpace), seq![])
        } else {
            sentences_acc(s.drop_first(), cur2)
        }
    }
}

/// `text` split into sentence pieces (see `sentences_acc`).
pub open spec fn sentences(text: Seq<char>) -> Seq<Seq<char>> {
    sentences_acc(text, seq![])
}

/// Splits `text` on sentence terminators followed by white space or the
/// end; the terminator stays with its piece.
pub fn sentence_pieces(text: &Vec<char>) -> (r: Vec<Vec<char>>)
    ensures
        char_seqs(r@) == sentences(text@),
{
    let mut out: Vec<Vec<char>> = Vec::new();
    let mut cur: Vec<char> = Vec::new();
    let mut i: usize = 0;
    assert(text@.skip(0) =~= text@);
    while i < text.len()
        invariant
            i <= text.len(),
            sentences(text@) == char_seqs(out@) + sentences_acc(text@.skip(i as int), cur@),
        decreases text.len() - i,
    {
        let c = text[i];
        let ghost rest = text@.skip(i as int);
        assert(rest[0] == c);
        assert(rest.drop_first() =~= text@.skip(i + 1));
        cur.push(c);
        let is_term = c == '.' || c == '!' || c == '?';
        let boundary = i + 1 >= text.len() || is_white_space(text[i + 1]);
        if i + 1 < text.len() {
            assert(rest[1] == text@[i + 1]);
        }
        if is_term && boundary {
            let ghost o = char_seqs(out@);
            let ghost cv = cur@;
            out.push(cur);
            cur = Vec::new();
            assert(char_seqs(out@) =~= o.push(cv));
            i += 1;
            let ghost after = trim_start(text@.skip(i as int), CharClass::WhiteSpace);
            let ghost i1 = i;
            while i < text.len() && is_white_space(text[i])
                invariant
                    i1 <= i <= text.len(),
                    after == trim_start(text@.skip(i as int), CharClass::WhiteSpace),
                decreases text.len() - i,
            {
                assert(text@.skip(i as int).drop_first() =~= text@.skip(i + 1));
                i += 1;
            }
            assert(trim_start(text@.skip(i as int), CharClass::WhiteSpace) == text@.skip(i as int));
            assert(o + (seq![cv] + sentences_acc(after, seq![])) =~= o.push(cv) + sentences_acc(text@.skip(i as int), cur@));
        } else {
            i += 1;
        }
    }
    assert(text@.skip(i as int) =~= Seq::<char>::empty());
    let t = trim_chars(&cur, CharClass::WhiteSpace);
    if t.len() > 0 {
        let ghost o = char_seqs(out@);
        let ghost cv = cur@;
        out.push(cur);
        assert(char_seqs(out@) =~= o.push(cv));
        assert(o + seq![cv] =~= o.push(cv));
    } else {
        assert(char_seqs(out@) + Seq::<Seq<char>>::empty() =~= char_seqs(out@));
    }
    out
}

/// A text ending in a character that is not white space keeps it when
/// trimmed.
proof fn lemma_trim_keeps_last(x: Seq<char>)
    requires
        x.len() > 0,
        !unicode_white_space(x.last()),
    ensures
        trim(x).len() > 0,
        trim(x).last() == x.last(),
    decreases x.len(),
{
    if unicode_white_space(x[0]) {
        assert(x.drop_first().last() == x.last());
        lemma_trim_keeps_last(x.drop_first());
        assert(trim_start(x, CharClass::WhiteSpace) == trim_start(x.drop_first(), CharClass::WhiteSpace));
    } else {
        assert(trim_start(x, CharClass::WhiteSpace) == x);
    }
}

/// A text of white space only trims to nothing.
proof fn lemma_trim_blank(x: Seq<char>)
    requires
        forall|i: int| 0 <= i < x.len() ==> unicode_white_space(#[trigger] x[i]),
    ensures
        trim(x).len() == 0,
    decreases x.len(),
{
    if x.len() > 0 {
        assert forall|i: int| 0 <= i < x.drop_first().len() implies unicode_white_space(
            #[trigger] x.drop_first()[i],
        ) by {
            assert(x.drop_first()[i] == x[i + 1]);
        }
        lemma_trim_blank(x.drop_first());
        assert(unicode_white_space(x[0]));
        assert(trim_start(x, CharClass::WhiteSpace) == trim_start(x.drop_first(), CharClass::WhiteSpace));
    } else {
        assert(trim_start(x, CharClass::WhiteSpace) == x);
    }
}

proof fn lemma_sentences_shape(s: Seq<char>, cur: Seq<char>)
    ensures
        forall|i: int| 0 <= i < sentences_acc(s, cur).len() ==> trim(#[trigger] sentences_acc(s, cur)[i]).len() > 0,
        forall|i: int| 0 <= i < sentences_acc(s, cur).len() - 1 ==> ends_with_terminator(
            #[trigger] sentences_acc(s, cur)[i],
        ),
    decreases s.len(),
{
    let r = sentences_acc(s, cur);
    if s.len() > 0 {
        let cur2 = cur.push(s[0]);
        if is_sentence_end_char(s[0]) && (s.len() == 1 || unicode_white_space(s[1])) {
            lemma_trim_len(s.drop_first(), CharClass::WhiteSpace);
            let rest = sentences_acc(trim_start(s.drop_first(), CharClass::WhiteSpace), seq![]);
            lemma_sentences_shape(trim_start(s.drop_first(), CharClass::WhiteSpace), seq![]);
            lemma_white_space_examples();
            lemma_trim_keeps_last(cur2);
            assert(r == seq![cur2] + rest);
            assert forall|i: int| 0 <= i < r.len() implies trim(#[trigger] r[i]).len() > 0 by {
                if i > 0 {
                    assert(r[i] == rest[i - 1]);
                }
            }
            assert forall|i: int| 0 <= i < r.len() - 1 implies ends_with_terminator(#[trigger] r[i]) by {
                if i > 0 {
                    assert(r[i] == rest[i - 1]);
                }
            }
        } else {
            lemma_sentences_shape(s.drop_first(), cur2);
            assert(r == sentences_acc(s.drop_first(), cur2));
        }
    } else {
        if trim(cur).len() > 0 {
            assert(r == seq![cur]);
        } else {
            assert(r.len() == 0);
        }
    }
}

proof fn lemma_sentences_blank(s: Seq<char>, cur: Seq<char>)
    requires
        forall|i: int| 0 <= i < s.len() ==> unicode_white_space(#[trigger] s[i]),
        forall|i: int| 0 <= i < cur.len() ==> unicode_white_space(#[trigger] cur[i]),
    ensures
        sentences_acc(s, cur).len() == 0,
    decreases s.len(),
{
    lemma_white_space_examples();
    if s.len() == 0 {
        lemma_trim_blank(cur);
    } else {
        assert(unicode_white_space(s[0]));
        let cur2 = cur.push(s[0]);
        assert forall|i: int| 0 <= i < cur2.len() implies unicode_white_space(#[trigger] cur2[i]) by {
            if i < cur.len() {
                assert(cur2[i] == cur[i]);
            }
        }
        assert forall|i: int| 0 <= i < s.drop_first().len() implies unicode_white_space(
            #[trigger] s.drop_first()[i],
        ) by {
            assert(s.drop_first()[i] == s[i + 1]);
        }
        assert(!is_sentence_end_char(s[0]));
        lemma_sentences_blank(s.drop_first(), cur2);
    }
}

/// `b` is `a` with some of its white-space characters left out (and
/// nothing else changed).
pub open spec fn drops_white(a: Seq<char>, b: Seq<char>) -> bool
    decreases a.len(),
{
    if a.len() == 0 {
        b.len() == 0
    } else {
        ||| (b.len() > 0 && b[0] == a[0] && drops_white(a.drop_first(), b.drop_first()))
        ||| (unicode_white_space(a[0]) && drops_white(a.drop_first(), b))
    }
}

proof fn lemma_drops_white_same(x: Seq<char>, a: Seq<char>, b: Seq<char>)
    requires
        drops_white(a, b),
    ensures
        drops_white(x + a, x + b),
    decreases x.len(),
{
    if x.len() > 0 {
        lemma_drops_white_same(x.drop_first(), a, b);
        assert((x + a).drop_first() =~= x.drop_first() + a);
        assert((x + b).drop_first() =~= x.drop_first() + b);
        assert((x + a)[0] == (x + b)[0]);
    } else {
        assert(x + a =~= a);
        assert(x + b =~= b);
    }
}

proof fn lemma_drops_white_blank(w: Seq<char>, a: Seq<char>, b: Seq<char>)
    requires
        forall|i: int| 0 <= i < w.len() ==> unicode_white_space(#[trigger] w[i]),
        drops_white(a, b),
    ensures
        drops_white(w + a, b),
    decreases w.len(),
{
    if w.len() > 0 {
        assert forall|i: int| 0 <= i < w.drop_first().len() implies unicode_white_space(
            #[trigger] w.drop_first()[i],
        ) by {
            assert(w.drop_first()[i] == w[i + 1]);
        }
        lemma_drops_white_blank(w.drop_first(), a, b);
        assert((w + a).drop_first() =~= w.drop_first() + a);
        assert(unicode_white_space((w + a)[0]));
    } else {
        assert(w + a =~= a);
    }
}

proof fn lemma_drops_white_refl(x: Seq<char>)
    ensures
        drops_white(x, x),
    decreases x.len(),
{
    if x.len() > 0 {
        lemma_drops_white_refl(x.drop_first());
    }
}

proof fn lemma_sentences_concat(s: Seq<char>, cur: Seq<char>)
    ensures
        drops_white(cur + s, sentences_acc(s, cur).flatten()),
    decreases s.len(),
{
    let r = sentences_acc(s, cur);
    if s.len() == 0 {
        assert(cur + s =~= cur);
        if trim(cur).len() > 0 {
            assert(r == seq![cur]);
            assert(r.drop_first() =~= Seq::<Seq<char>>::empty());
            assert(r.drop_first().flatten() == Seq::<char>::empty());
            assert(r.flatten() =~= cur);
            lemma_drops_white_refl(cur);
        } else {
            lemma_trim_empty_blank(cur);
            assert(r.flatten() == Seq::<char>::empty());
            lemma_drops_white_blank(cur, seq![], seq![]);
            assert(cur + Seq::<char>::empty() =~= cur);
        }
    } else {
        let cur2 = cur.push(s[0]);
        assert(cur + s =~= cur2 + s.drop_first());
        if is_sentence_end_char(s[0]) && (s.len() == 1 || unicode_white_space(s[1])) {
            let d = s.drop_first();
            let t = trim_start(d, CharClass::WhiteSpace);
            lemma_trim_len(d, CharClass::WhiteSpace);
            lemma_trim_start_skips_blank(d);
            let n = choose|n: int| {
                &&& 0 <= n <= d.len()
                &&& trim_start(d, CharClass::WhiteSpace) == d.skip(n)
                &&& forall|i: int| 0 <= i < n ==> unicode_white_space(#[trigger] d[i])
            };
            let w = d.take(n);
            assert(d =~= w + t);
            assert forall|i: int| 0 <= i < w.len() implies unicode_white_space(#[trigger] w[i]) by {
                assert(w[i] == d[i]);
            }
            let rest = sentences_acc(t, seq![]);
            lemma_sentences_concat(t, seq![]);
            assert(Seq::<char>::empty() + t =~= t);
            lemma_drops_white_blank(w, t, rest.flatten());
            lemma_drops_white_same(cur2, w + t, rest.flatten());
            assert(r == seq![cur2] + rest);
            assert(r.first() == cur2);
            assert(r.drop_first() =~= rest);
            assert(cur2 + (w + t) =~= cur + s);
        } else {
            lemma_sentences_concat(s.drop_first(), cur2);
        }
    }
}

/// Law: no sentence piece is blank, every piece but the last ends in `.`,
/// `!` or `?`, a text of white space only has no pieces, and the pieces put
/// back together are the text with only white space left out (the white
/// space after each splitting terminator, and a blank tail).
pub proof fn lemma_sentence_pieces(text: Seq<char>)
    ensures
        drops_white(text, sentences(text).flatten()),
        forall|i: int| 0 <= i < sentences(text).len() ==> trim(#[trigger] sentences(text)[i]).len() > 0,
        forall|i: int| 0 <= i < sentences(text).len() - 1 ==> ends_with_terminator(#[trigger] sentences(text)[i]),
        (forall|i: int| 0 <= i < text.len() ==> unicode_white_space(#[trigger] text[i])) ==> sentences(text).len()
            == 0,
{
    lemma_sentences_shape(text, seq![]);
    lemma_sentences_concat(text, seq![]);
    assert(Seq::<char>::empty() + text =~= text);
    if forall|i: int| 0 <= i < text.len() ==> unicode_white_space(#[trigger] text[i]) {
        lemma_sentences_blank(text, seq![]);
    }
}

proof fn lemma_sentences_size(s: Seq<char>, cur: Seq<char>)
    ensures
        total_len(sentences_acc(s, cur)) <= s.len() + cur.len(),
    decreases s.len(),
{
    if s.len() == 0 {
        if trim(cur).len() > 0 {
            assert(seq![cur].drop_last() =~= Seq::<Seq<char>>::empty());
            assert(total_len(Seq::<Seq<char>>::empty()) == 0);
        }
    } else {
        let cur2 = cur.push(s[0]);
        if is_sentence_end_char(s[0]) && (s.len() == 1 || unicode_white_space(s[1])) {
            lemma_trim_len(s.drop_first(), CharClass::WhiteSpace);
            let rest = trim_start(s.drop_first(), CharClass::WhiteSpace);
            lemma_sentences_size(rest, seq![]);
            lemma_total_len_cons(cur2, sentences_acc(rest, seq![]));
        } else {
            lemma_sentences_size(s.drop_first(), cur2);
        }
    }
}

proof fn lemma_total_len_cons(x: Seq<char>, rest: Seq<Seq<char>>)
    ensures
        total_len(seq![x] + rest) == x.len() + total_len(rest),
    decreases rest.len(),
{
    if rest.len() == 0 {
        assert(seq![x] + rest =~= seq![x]);
        assert(seq![x].drop_last() =~= Seq::<Seq<char>>::empty());
        assert(total_len(Seq::<Seq<char>>::empty()) == 0);
    } else {
        assert((seq![x] + rest).drop_last() =~= seq![x] + rest.drop_last());
        lemma_total_len_cons(x, rest.drop_last());
    }
}

proof fn lemma_total_len_prefix(a: Seq<Seq<char>>, i: int)
    requires
        0 <= i < a.len(),
    ensures
        total_len(a.take(i + 1)) == total_len(a.take(i)) + a[i].len(),
        total_len(a.take(i + 1)) <= total_len(a),
    decreases a.len() - i,
{
    assert(a.take(i + 1).drop_last() =~= a.take(i));
    if i + 1 < a.len() {
        lemma_total_len_prefix(a, i + 1);
    } else {
        assert(a.take(i + 1) =~= a);
    }
}

// ───────────────────────── candidates ─────────────────────────

/// A sentence candidate: its text and time span in milliseconds.
pub struct Cand {
    pub text: Seq<char>,
    pub start: int,
    pub end: int,
}

/// A segment closes a raw sentence when its trimmed text ends in `.`, `!`
/// or `?`.
pub open spec fn seg_closes(s: TimedWord) -> bool {
    ends_with_terminator(trim(s.text))
}

/// The raw sentences, as inclusive ranges of segment indices, from segment
/// `i` on, with the open group starting at `start`.
pub open spec fn group_bounds(segs: Seq<TimedWord>, i: int, start: int) -> Seq<(int, int)>
    decreases segs.len() - i,
{
    if i < 0 || i >= segs.len() {
        if 0 <= start < segs.len() { seq![(start, segs.len() - 1)] } else { seq![] }
    } else if seg_closes(segs[i]) {
        seq![(start, i)] + group_bounds(segs, i + 1, i + 1)
    } else {
        group_bounds(segs, i + 1, start)
    }
}

proof fn lemma_groups_from(segs: Seq<TimedWord>, i: int, start: int)
    requires
        0 <= start <= i <= segs.len(),
        forall|k: int| start <= k < i ==> !ends_with_terminator(trim(#[trigger] segs[k].text)),
    ensures
        ({
            let g = group_bounds(segs, i, start);
            &&& start < segs.len() ==> g.len() > 0 && g[0].0 == start && g.last().1 == segs.len() - 1
            &&& start == segs.len() ==> g.len() == 0
            &&& forall|j: int| 0 <= j < g.len() ==> start <= (#[trigger] g[j]).0 <= g[j].1 < segs.len()
            &&& forall|j: int| 0 < j < g.len() ==> (#[trigger] g[j]).0 == g[j - 1].1 + 1
            &&& forall|j: int, k: int| 0 <= j < g.len() && (#[trigger] g[j]).0 <= k < g[j].1
                ==> !ends_with_terminator(trim(#[trigger] segs[k].text))
            &&& forall|j: int| 0 <= j < g.len() - 1 ==> ends_with_terminator(trim(segs[(#[trigger] g[j]).1].text))
        }),
    decreases segs.len() - i,
{
    let g = group_bounds(segs, i, start);
    if i < segs.len() {
        if seg_closes(segs[i]) {
            lemma_groups_from(segs, i + 1, i + 1);
            let rest = group_bounds(segs, i + 1, i + 1);
            assert(g == seq![(start, i)] + rest);
            assert forall|j: int| 0 < j < g.len() implies (#[trigger] g[j]).0 == g[j - 1].1 + 1 by {
                assert(g[j] == rest[j - 1]);
                if j > 1 {
                    assert(g[j - 1] == rest[j - 2]);
                } else {
                    assert(g[0] == (start, i));
                    assert(rest.len() > 0);
                    assert(i + 1 < segs.len());
                }
            }
            assert forall|j: int, k: int| 0 <= j < g.len() && (#[trigger] g[j]).0 <= k < g[j].1
                implies !ends_with_terminator(trim(#[trigger] segs[k].text)) by {
                if j > 0 {
                    assert(g[j] == rest[j - 1]);
                }
            }
            assert forall|j: int| 0 <= j < g.len() - 1 implies ends_with_terminator(
                trim(segs[(#[trigger] g[j]).1].text),
            ) by {
                if j > 0 {
                    assert(g[j] == rest[j - 1]);
                }
            }
            assert forall|j: int| 0 <= j < g.len() implies start <= (#[trigger] g[j]).0 <= g[j].1 < segs.len() by {
                if j > 0 {
                    assert(g[j] == rest[j - 1]);
                }
            }
            if i + 1 < segs.len() {
                assert(g.last() == rest.last());
            }
        } else {
            lemma_groups_from(segs, i + 1, start);
        }
    } else {
        if start < segs.len() {
            assert(g == seq![(start, segs.len() - 1)]);
        }
    }
}

/// Law: the segments fall into raw sentences in order, every segment in
/// exactly one: a sentence closes at a segment whose trimmed text ends in
/// `.`, `!` or `?` and only there, so no segment but a sentence's last
/// ends in one, and every sentence but the final one does.
pub proof fn lemma_raw_sentences(segs: Seq<TimedWord>)
    ensures
        ({
            let g = group_bounds(segs, 0, 0);
            &&& segs.len() > 0 ==> g.len() > 0 && g[0].0 == 0 && g.last().1 == segs.len() - 1
            &&& segs.len() == 0 ==> g.len() == 0
            &&& forall|j: int| 0 <= j < g.len() ==> 0 <= (#[trigger] g[j]).0 <= g[j].1 < segs.len()
            &&& forall|j: int| 0 < j < g.len() ==> (#[trigger] g[j]).0 == g[j - 1].1 + 1
            &&& forall|j: int, k: int| 0 <= j < g.len() && (#[trigger] g[j]).0 <= k < g[j].1
                ==> !ends_with_terminator(trim(#[trigger] segs[k].text))
            &&& forall|j: int| 0 <= j < g.len() - 1 ==> ends_with_terminator(trim(segs[(#[trigger] g[j]).1].text))
        }),
{
    lemma_groups_from(segs, 0, 0);
}

/// The text of the segments `f..=l`: each trimmed, joined by spaces, double
/// spaces collapsed, trimmed.
pub open spec fn group_text(segs: Seq<TimedWord>, f: int, l: int) -> Seq<char> {
    trim(collapse(join(Seq::new((l - f + 1) as nat, |k: int| trim(segs[f + k].text)), seq![' ']), ' '))
}

/// `gs + (ge - gs) * c / t` times `t`: the exact position of character `c`
/// of `t` in the time span `gs..ge`, scaled by `t` so that it stays whole.
pub open spec fn scaled_pos(gs: int, ge: int, c: int, t: int) -> int {
    gs * t + (ge - gs) * c
}

/// First word from `i` that starts at most 50 ms before the scaled position
/// `a` and before the scaled position `b` (both scaled by `t`); -1 if none.
pub open spec fn first_snap(ws: Seq<TimedWord>, a: int, b: int, t: int, i: int) -> int
    decreases ws.len() - i,
{
    if i < 0 || i >= ws.len() {
        -1
    } else if ws[i].start * t + 50 * t >= a && ws[i].start * t < b {
        i
    } else {
        first_snap(ws, a, b, t, i + 1)
    }
}

/// Last word at or before `j` that ends after the scaled position `a` and at
/// most 50 ms after the scaled position `b` (both scaled by `t`); -1 if none.
pub open spec fn last_snap(ws: Seq<TimedWord>, a: int, b: int, t: int, j: int) -> int
    decreases j + 1,
{
    if j < 0 || j >= ws.len() {
        -1
    } else if ws[j].end * t > a && ws[j].end * t <= b + 50 * t {
        j
    } else {
        last_snap(ws, a, b, t, j - 1)
    }
}

/// The time span of the characters `c..n` of `t` in the span `gs..ge`,
/// snapped to the word boundaries within it (±50 ms), the positions being
/// compared exactly: `None` when the span is empty; with no words, the
/// positions rounded to the millisecond; else a start at the first word
/// that starts in it (or the rounded start) and an end at the last word
/// that ends in it (or the rounded end), kept at least 100 ms after the
/// start.
pub open spec fn snap(gs: int, ge: int, c: int, n: int, t: int, ws: Seq<TimedWord>) -> Option<(int, int)> {
    let a = scaled_pos(gs, ge, c, t);
    let b = scaled_pos(gs, ge, n, t);
    if b <= a {
        None
    } else if ws.len() == 0 {
        Some((round_pos(gs, ge, c, t), round_pos(gs, ge, n, t)))
    } else {
        let f = first_snap(ws, a, b, t, 0);
        let l = last_snap(ws, a, b, t, ws.len() - 1);
        let s = if f >= 0 { ws[f].start } else { round_pos(gs, ge, c, t) };
        let e = if l >= 0 { ws[l].end } else { round_pos(gs, ge, n, t) };
        Some((s, if e >= s + 100 { e } else { s + 100 }))
    }
}

/// Candidates for the pieces `k..` of a group spanning `gs..ge` whose text
/// has `total` characters, `cursor` characters already passed.
pub open spec fn piece_cands(
    pieces: Seq<Seq<char>>,
    k: int,
    cursor: int,
    gs: int,
    ge: int,
    total: int,
    ws: Seq<TimedWord>,
) -> Seq<Cand>
    decreases pieces.len() - k,
{
    if k < 0 || k >= pieces.len() {
        seq![]
    } else {
        let piece = pieces[k];
        let next = cursor + piece.len();
        let t = trim(piece);
        if t.len() == 0 {
            piece_cands(pieces, k + 1, next, gs, ge, total, ws)
        } else {
            match snap(gs, ge, cursor, next, total, ws) {
                None => piece_cands(pieces, k + 1, next, gs, ge, total, ws),
                Some((s, e)) => seq![Cand { text: normalized_sentence(t), start: s, end: e }] + piece_cands(
                    pieces,
                    k + 1,
                    next,
                    gs,
                    ge,
                    total,
                    ws,
                ),
            }
        }
    }
}

/// The candidates of the group of segments `f..=l`.
pub open spec fn group_cands(segs: Seq<TimedWord>, f: int, l: int, ws: Seq<TimedWord>) -> Seq<Cand> {
    let t = group_text(segs, f, l);
    if t.len() == 0 {
        seq![]
    } else {
        piece_cands(sentences(t), 0, 0, segs[f].start, segs[l].end, t.len() as int, ws)
    }
}

pub open spec fn all_group_cands(segs: Seq<TimedWord>, gs: Seq<(int, int)>, ws: Seq<TimedWord>) -> Seq<Cand>
    decreases gs.len(),
{
    if gs.len() == 0 {
        seq![]
    } else {
        all_group_cands(segs, gs.drop_last(), ws) + group_cands(segs, gs.last().0, gs.last().1, ws)
    }
}

// ───────────────────────── fitting long candidates ─────────────────────────

/// Word `w` lies within the candidate's span (±50 ms).
pub open spec fn inside_cand(w: TimedWord, c: Cand) -> bool {
    w.start + 50 >= c.start && w.end <= c.end + 50
}

/// The words that lie within the candidate, in order.
pub open spec fn words_inside(ws: Seq<TimedWord>, c: Cand) -> Seq<TimedWord>
    decreases ws.len(),
{
    if ws.len() == 0 {
        seq![]
    } else {
        words_inside(ws.drop_last(), c) + (if inside_cand(ws.last(), c) { seq![ws.last()] } else { seq![] })
    }
}

/// The word, letters and digits only, lower-cased, is a leading conjunction.
pub open spec fn is_conj(w: TimedWord) -> bool {
    leading_conjunction(str_lower(alnum_only(w.text)))
}

/// The trimmed word ends in a clause break: `,` `;` `-` `—`.
pub open spec fn ends_break(w: TimedWord) -> bool {
    let t = trim(w.text);
    t.len() > 0 && (t.last() == ',' || t.last() == ';' || t.last() == '-' || t.last() == '—')
}

/// The first index from `i` that is not a leading conjunction.
pub open spec fn skip_conj(ins: Seq<TimedWord>, i: int) -> int
    decreases ins.len() - i,
{
    if 0 <= i < ins.len() && is_conj(ins[i]) {
        skip_conj(ins, i + 1)
    } else {
        i
    }
}

/// Walks the words from `i` while the span from `start` stays within 20
/// words and 5 s; returns the last word that fits and the last preferred
/// cut (a clause break, or a word before a conjunction), -1 if none.
pub open spec fn scan_chunk(ins: Seq<TimedWord>, start: int, i: int, chunk_end: int, best: int) -> (int, int)
    decreases ins.len() - i,
{
    if i < 0 || i >= ins.len() {
        (chunk_end, best)
    } else if i - start + 1 > 20 || ins[i].end - ins[start].start > 5000 {
        (chunk_end, best)
    } else {
        let nb = if ends_break(ins[i]) || (i + 1 < ins.len() && is_conj(ins[i + 1])) { i } else { best };
        scan_chunk(ins, start, i + 1, i, nb)
    }
}

pub proof fn lemma_skip_conj(ins: Seq<TimedWord>, i: int)
    requires
        0 <= i,
    ensures
        skip_conj(ins, i) >= i,
        skip_conj(ins, i) < ins.len() ==> !is_conj(ins[skip_conj(ins, i)]),
    decreases ins.len() - i,
{
    if 0 <= i < ins.len() && is_conj(ins[i]) {
        lemma_skip_conj(ins, i + 1);
    }
}

pub proof fn lemma_scan_chunk(ins: Seq<TimedWord>, start: int, i: int, chunk_end: int, best: int)
    requires
        0 <= start <= chunk_end <= i,
        chunk_end < ins.len(),
        best == -1 || (start <= best < ins.len()),
    ensures
        start <= scan_chunk(ins, start, i, chunk_end, best).0 < ins.len(),
        scan_chunk(ins, start, i, chunk_end, best).1 == -1 || (start <= scan_chunk(ins, start, i, chunk_end, best).1 < ins.len()),
        chunk_end <= scan_chunk(ins, start, i, chunk_end, best).0,
    decreases ins.len() - i,
{
    if i < 0 || i >= ins.len() {
    } else if i - start + 1 > 20 || ins[i].end - ins[start].start > 5000 {
    } else {
        let nb = if ends_break(ins[i]) || (i + 1 < ins.len() && is_conj(ins[i + 1])) { i } else { best };
        lemma_scan_chunk(ins, start, i + 1, i, nb);
    }
}

/// The chunk cut after the conjunctions at `cursor`: its first word, last
/// word.
pub open spec fn chunk_cut(ins: Seq<TimedWord>, cursor: int) -> (int, int) {
    let c2 = skip_conj(ins, cursor);
    let (ce, best) = scan_chunk(ins, c2, c2, c2, -1);
    (c2, if best >= 0 { best } else { ce })
}

/// The greedy split of the words `ins` from `cursor`: largest spans within
/// 20 words and 5 s, cut at the last preferred break; spans under 3 words
/// are dropped.
pub open spec fn fit_chunks(ins: Seq<TimedWord>, cursor: int) -> Seq<Cand>
    decreases ins.len() - cursor,
{
    if cursor < 0 || cursor >= ins.len() {
        seq![]
    } else {
        let (c2, cut) = chunk_cut(ins, cursor);
        if c2 >= ins.len() {
            seq![]
        } else {
            proof {
                lemma_skip_conj(ins, cursor);
                lemma_scan_chunk(ins, c2, c2, c2, -1);
            }
            let rest = fit_chunks(ins, cut + 1);
            if cut - c2 + 1 >= 3 && ins[cut].end > ins[c2].start {
                seq![Cand {
                    text: capitalized(normalized_sentence(joined_words(ins, c2, cut))),
                    start: ins[c2].start,
                    end: ins[cut].end,
                }] + rest
            } else {
                rest
            }
        }
    }
}

/// Word `x` is within 20 words and 5 s of word `start`.
pub open spec fn fits_from(ins: Seq<TimedWord>, start: int, x: int) -> bool {
    x - start + 1 <= 20 && ins[x].end - ins[start].start <= 5000
}

proof fn lemma_scan_fits(ins: Seq<TimedWord>, start: int, i: int, chunk_end: int, best: int)
    ensures
        scan_chunk(ins, start, i, chunk_end, best).0 == chunk_end || fits_from(
            ins,
            start,
            scan_chunk(ins, start, i, chunk_end, best).0,
        ),
        scan_chunk(ins, start, i, chunk_end, best).1 == best || fits_from(
            ins,
            start,
            scan_chunk(ins, start, i, chunk_end, best).1,
        ),
    decreases ins.len() - i,
{
    if i < 0 || i >= ins.len() {
    } else if i - start + 1 > 20 || ins[i].end - ins[start].start > 5000 {
    } else {
        let nb = if ends_break(ins[i]) || (i + 1 < ins.len() && is_conj(ins[i + 1])) { i } else { best };
        lemma_scan_fits(ins, start, i + 1, i, nb);
    }
}

/// The text of a chunk of the words `a..=b` before its first letter is
/// upper-cased: the words as one line, normalized as a sentence.
pub open spec fn chunk_text(ins: Seq<TimedWord>, a: int, b: int) -> Seq<char> {
    normalized_sentence(joined_words(ins, a, b))
}

/// No word of `ins`, once trimmed, holds white space.
pub open spec fn blank_free(ins: Seq<TimedWord>) -> bool {
    forall|k: int| 0 <= k < ins.len() ==> ws_count(trim(#[trigger] ins[k].text)) == 0
}

/// `c` is the chunk of the words `a..=b` of `ins`, with `lo <= a`: it spans
/// from the first word's start to the last word's end, holds 3 to 20
/// words, lasts at most 5 s, does not begin with a leading conjunction,
/// and its text is theirs (see `chunk_text`), with at most 20 words when
/// no word holds white space.
pub open spec fn chunk_at(ins: Seq<TimedWord>, c: Cand, lo: int, a: int, b: int) -> bool {
    &&& lo <= a && a + 2 <= b < ins.len()
    &&& c.start == ins[a].start && c.end == ins[b].end
    &&& b - a + 1 <= 20
    &&& ins[a].start < ins[b].end <= ins[a].start + 5000
    &&& !is_conj(ins[a])
    &&& c.text == capitalized(chunk_text(ins, a, b))
    &&& blank_free(ins) ==> word_count(chunk_text(ins, a, b)) <= 20
}

/// `c` is a chunk of some words `a..=b` of `ins`, with `lo <= a` (see
/// `chunk_at`).
pub open spec fn chunk_of(ins: Seq<TimedWord>, c: Cand, lo: int) -> bool {
    exists|a: int, b: int| #[trigger] chunk_at(ins, c, lo, a, b)
}

proof fn lemma_ws_split(s: Seq<char>, n: int)
    requires
        0 <= n <= s.len(),
    ensures
        ws_count(s.take(n)) <= ws_count(s),
        ws_count(s.skip(n)) <= ws_count(s),
{
    assert(s.take(n) + s.skip(n) =~= s);
    lemma_ws_count_concat(s.take(n), s.skip(n));
}

proof fn lemma_ws_trim(s: Seq<char>)
    ensures
        ws_count(trim(s)) <= ws_count(s),
{
    lemma_trim_start_shape(s, CharClass::WhiteSpace);
    let n = choose|n: int| 0 <= n <= s.len() && trim_start(s, CharClass::WhiteSpace) == s.skip(n);
    lemma_ws_split(s, n);
    let t = trim_start(s, CharClass::WhiteSpace);
    crate::text::lemma_trim_end_shape(t, CharClass::WhiteSpace);
    let m = choose|m: int| 0 <= m <= t.len() && trim_end(t, CharClass::WhiteSpace) == t.take(m);
    lemma_ws_split(t, m);
}

proof fn lemma_ws_collapse(s: Seq<char>, x: char)
    ensures
        ws_count(collapse(s, x)) <= ws_count(s),
    decreases s.len(),
{
    if s.len() >= 2 {
        if s[0] == ' ' && s[1] == x {
            lemma_ws_collapse(s.skip(2), x);
            assert(s =~= seq![' '] + (seq![x] + s.skip(2)));
            lemma_ws_count_concat(seq![' '], seq![x] + s.skip(2));
            lemma_ws_count_concat(seq![x], s.skip(2));
            lemma_ws_count_concat(seq![x], collapse(s.skip(2), x));
        } else {
            lemma_ws_collapse(s.drop_first(), x);
            assert(s =~= seq![s[0]] + s.drop_first());
            lemma_ws_count_concat(seq![s[0]], s.drop_first());
            lemma_ws_count_concat(seq![s[0]], collapse(s.drop_first(), x));
        }
    }
}

proof fn lemma_ws_strip_junk(t: Seq<char>)
    ensures
        ws_count(strip_junk(t)) <= ws_count(t),
    decreases t.len(),
{
    if t.len() > 0 && in_class(CharClass::TrailingJunk, t.last()) {
        lemma_trim_len(t.drop_last(), CharClass::WhiteSpace);
        lemma_ws_strip_junk(trim(t.drop_last()));
        lemma_ws_trim(t.drop_last());
        lemma_ws_split(t, t.len() - 1);
        assert(t.take(t.len() - 1) =~= t.drop_last());
    }
}

/// The text of a chunk of the words `a..=b` has at most `b - a + 1` words
/// when no word holds white space.
proof fn lemma_chunk_text_words(ins: Seq<TimedWord>, a: int, b: int)
    requires
        0 <= a <= b < ins.len(),
        blank_free(ins),
    ensures
        word_count(chunk_text(ins, a, b)) <= b - a + 1,
{
    let ts = trimmed_texts(ins, a, b);
    assert forall|i: int| 0 <= i < ts.len() implies ws_count(#[trigger] ts[i]) == 0 by {
        assert(ts[i] == trim(ins[a + i].text));
    }
    lemma_join_ws_count(ts);
    let s0 = join(ts, seq![' ']);
    lemma_ws_collapse(s0, ',');
    let s1 = collapse(s0, ',');
    lemma_ws_collapse(s1, '.');
    let s2 = collapse(s1, '.');
    lemma_ws_collapse(s2, '!');
    let s3 = collapse(s2, '!');
    lemma_ws_collapse(s3, '?');
    let s4 = collapse(s3, '?');
    lemma_ws_collapse(s4, ' ');
    let j = joined_words(ins, a, b);
    lemma_ws_trim(collapse(s4, ' '));
    lemma_ws_strip_junk(j);
    let t = strip_junk(j);
    let n = chunk_text(ins, a, b);
    if t.len() > 0 && !is_sentence_end_char(t.last()) {
        assert(n =~= t + seq!['.']);
        lemma_ws_count_concat(t, seq!['.']);
        lemma_ws_count_single('.');
        lemma_white_space_examples();
    }
    lemma_word_count_bound(n, seq![]);
}

proof fn lemma_fit_chunks_law(ins: Seq<TimedWord>, cursor: int)
    requires
        0 <= cursor,
    ensures
        forall|k: int| 0 <= k < fit_chunks(ins, cursor).len() ==> chunk_of(ins, #[trigger] fit_chunks(ins, cursor)[k], cursor),
        (forall|i: int, j: int| 0 <= i < j < ins.len() ==> #[trigger] ins[i].end <= #[trigger] ins[j].start)
            ==> forall|k: int| 0 <= k < fit_chunks(ins, cursor).len() - 1
            ==> (#[trigger] fit_chunks(ins, cursor)[k]).end <= fit_chunks(ins, cursor)[k + 1].start,
    decreases ins.len() - cursor,
{
    if cursor < ins.len() {
        let (c2, cut) = chunk_cut(ins, cursor);
        if c2 < ins.len() {
            lemma_skip_conj(ins, cursor);
            lemma_scan_chunk(ins, c2, c2, c2, -1);
            lemma_scan_fits(ins, c2, c2, c2, -1);
            lemma_fit_chunks_law(ins, cut + 1);
            let rest = fit_chunks(ins, cut + 1);
            let r = fit_chunks(ins, cursor);
            assert forall|k: int| 0 <= k < rest.len() implies chunk_of(ins, #[trigger] rest[k], cursor) by {
                assert(chunk_of(ins, rest[k], cut + 1));
                let (a, b) = choose|a: int, b: int| #[trigger] chunk_at(ins, rest[k], cut + 1, a, b);
                assert(chunk_at(ins, rest[k], cursor, a, b));
            }
            if cut - c2 + 1 >= 3 && ins[cut].end > ins[c2].start {
                let head = r[0];
                assert(r == seq![head] + rest);
                assert(fits_from(ins, c2, cut));
                assert(chunk_of(ins, head, cursor)) by {
                    assert(cursor <= c2 && c2 + 2 <= cut < ins.len());
                    if blank_free(ins) {
                        lemma_chunk_text_words(ins, c2, cut);
                    }
                    assert(chunk_at(ins, head, cursor, c2, cut));
                }
                assert forall|k: int| 0 <= k < r.len() implies chunk_of(ins, #[trigger] r[k], cursor) by {
                    if k > 0 {
                        assert(r[k] == rest[k - 1]);
                    }
                }
                if forall|i: int, j: int| 0 <= i < j < ins.len() ==> #[trigger] ins[i].end <= #[trigger] ins[j].start {
                    assert forall|k: int| 0 <= k < r.len() - 1 implies (#[trigger] r[k]).end <= r[k + 1].start by {
                        if k == 0 {
                            assert(r[1] == rest[0]);
                            assert(chunk_of(ins, rest[0], cut + 1));
                            let (a, b) = choose|a: int, b: int| #[trigger] chunk_at(ins, rest[0], cut + 1, a, b);
                            assert(ins[cut].end <= ins[a].start);
                        } else {
                            assert(r[k] == rest[k - 1] && r[k + 1] == rest[k]);
                        }
                    }
                }
            } else {
                assert(r == rest);
            }
        }
    }
}

proof fn lemma_inside_blank_free(ws: Seq<TimedWord>, c: Cand)
    requires
        blank_free(ws),
    ensures
        blank_free(words_inside(ws, c)),
    decreases ws.len(),
{
    if ws.len() > 0 {
        assert forall|k: int| 0 <= k < ws.drop_last().len() implies ws_count(
            trim(#[trigger] ws.drop_last()[k].text),
        ) == 0 by {
            assert(ws.drop_last()[k] == ws[k]);
        }
        lemma_inside_blank_free(ws.drop_last(), c);
        let pre = words_inside(ws.drop_last(), c);
        let w = words_inside(ws, c);
        assert forall|k: int| 0 <= k < w.len() implies ws_count(trim(#[trigger] w[k].text)) == 0 by {
            if k < pre.len() {
                assert(w[k] == pre[k]);
            } else {
                assert(w[k] == ws.last());
                assert(ws_count(trim(ws[ws.len() - 1].text)) == 0);
            }
        }
    }
}

/// Law: the chunks of an over-long candidate each span 3 to 20 of the
/// words inside it, last more than nothing and at most 5 s, and never
/// begin with a leading conjunction (those are dropped); each chunk's text
/// is its words as a sentence with the first letter upper-cased, of at
/// most 20 words when no word holds white space; when the words come in
/// time order without overlap, the chunks do too.
pub proof fn lemma_split_to_fit_law(c: Cand, ws: Seq<TimedWord>)
    ensures
        blank_free(ws) ==> blank_free(words_inside(ws, c)),
        forall|k: int| 0 <= k < split_to_fit(c, ws).len() ==> chunk_of(words_inside(ws, c), #[trigger] split_to_fit(c, ws)[k], 0),
        (forall|i: int, j: int| 0 <= i < j < words_inside(ws, c).len() ==> #[trigger] words_inside(ws, c)[i].end
            <= #[trigger] words_inside(ws, c)[j].start) ==> forall|k: int| 0 <= k < split_to_fit(c, ws).len() - 1
            ==> (#[trigger] split_to_fit(c, ws)[k]).end <= split_to_fit(c, ws)[k + 1].start,
        words_inside(ws, c).len() < 3 ==> split_to_fit(c, ws).len() == 0,
{
    lemma_fit_chunks_law(words_inside(ws, c), 0);
    if blank_free(ws) {
        lemma_inside_blank_free(ws, c);
    }
}

/// A candidate over the caps, split at clause breaks using the words it
/// spans; none when it spans fewer than 3 words.
pub open spec fn split_to_fit(c: Cand, ws: Seq<TimedWord>) -> Seq<Cand> {
    let ins = words_inside(ws, c);
    if ins.len() < 3 { seq![] } else { fit_chunks(ins, 0) }
}

/// A candidate kept as is when within 20 words and 5 s, else split.
pub open spec fn expand(c: Cand, ws: Seq<TimedWord>) -> Seq<Cand> {
    if word_count(c.text) <= 20 && c.end - c.start <= 5000 { seq![c] } else { split_to_fit(c, ws) }
}

pub open spec fn expand_all(cs: Seq<Cand>, ws: Seq<TimedWord>) -> Seq<Cand>
    decreases cs.len(),
{
    if cs.len() == 0 { seq![] } else { expand_all(cs.drop_last(), ws) + expand(cs.last(), ws) }
}

/// Within 1–5 s and 3–20 words.
pub open spec fn keep(c: Cand) -> bool {
    1000 <= c.end - c.start <= 5000 && 3 <= word_count(c.text) <= 20
}

/// A time clamped to the clip range.
pub open spec fn clamp_ms(x: int) -> int {
    if x < 0 { 0 } else if x > u32::MAX { u32::MAX as int } else { x }
}

/// The kept candidates as clips with fresh identifiers.
pub open spec fn final_spans(cs: Seq<Cand>) -> Seq<Span>
    decreases cs.len(),
{
    if cs.len() == 0 {
        seq![]
    } else {
        final_spans(cs.drop_last()) + (if keep(cs.last()) {
            seq![Span { id: None, start: clamp_ms(cs.last().start), end: clamp_ms(cs.last().end), text: cs.last().text }]
        } else {
            seq![]
        })
    }
}

/// The harvested clips for `segs` and the word timings `ws`.
pub open spec fn harvest_spec(segs: Seq<TimedWord>, ws: Seq<TimedWord>) -> Seq<Span> {
    if segs.len() == 0 {
        seq![]
    } else {
        final_spans(expand_all(all_group_cands(segs, group_bounds(segs, 0, 0), ws), ws))
    }
}

// ───────────────────────── executable pipeline ─────────────────────────

/// A candidate clip while harvesting.
struct Candidate {
    text: Vec<char>,
    start: i64,
    end: i64,
}

spec fn cand_of(c: Candidate) -> Cand {
    Cand { text: c.text@, start: c.start as int, end: c.end as int }
}

spec fn cands_of(v: Seq<Candidate>) -> Seq<Cand> {
    Seq::new(v.len(), |i: int| cand_of(v[i]))
}

spec fn cand_in_range(c: Candidate) -> bool {
    &&& 0 <= c.start <= u32::MAX as int
    &&& 0 <= c.end
    &&& (c.end <= u32::MAX as int || c.end == c.start + 100)
    &&& (c.text@.len() > 0 ==> ends_with_terminator(c.text@))
}

spec fn all_in_range(v: Seq<Candidate>) -> bool {
    forall|i: int| 0 <= i < v.len() ==> #[trigger] cand_in_range(v[i])
}

fn push_cand(out: &mut Vec<Candidate>, c: Candidate)
    requires
        all_in_range(old(out)@),
        cand_in_range(c),
    ensures
        cands_of(final(out)@) == cands_of(old(out)@).push(cand_of(c)),
        all_in_range(final(out)@),
{
    let ghost o = out@;
    let ghost cc = c;
    out.push(c);
    assert(cands_of(out@) =~= cands_of(o).push(cand_of(cc)));
    assert forall|i: int| 0 <= i < out@.len() implies #[trigger] cand_in_range(out@[i]) by {
        if i < o.len() {
            assert(cand_in_range(o[i]));
        }
    }
}

fn append_cands(out: &mut Vec<Candidate>, more: Vec<Candidate>)
    requires
        all_in_range(old(out)@),
        all_in_range(more@),
    ensures
        cands_of(final(out)@) == cands_of(old(out)@) + cands_of(more@),
        all_in_range(final(out)@),
{
    let ghost o = cands_of(out@);
    let ghost m = more@;
    let mut more = more;
    let mut rev: Vec<Candidate> = Vec::new();
    while more.len() > 0
        invariant
            more@.len() + rev@.len() == m.len(),
            forall|q: int| 0 <= q < more@.len() ==> more@[q] == m[q],
            forall|q: int| 0 <= q < rev@.len() ==> #[trigger] rev@[q] == m[m.len() - 1 - q],
        decreases more@.len(),
    {
        let c = more.pop().unwrap();
        rev.push(c);
    }
    let ghost n = m.len();
    while rev.len() > 0
        invariant
            forall|q: int| 0 <= q < rev@.len() ==> #[trigger] rev@[q] == m[m.len() - 1 - q],
            rev@.len() <= n,
            n == m.len(),
            all_in_range(m),
            all_in_range(out@),
            cands_of(out@) == o + cands_of(m.take(n - rev@.len())),
        decreases rev@.len(),
    {
        let ghost k = n - rev@.len();
        let c = rev.pop().unwrap();
        assert(c == m[k]);
        assert(cand_in_range(m[k]));
        push_cand(out, c);
        assert(cands_of(m.take(k + 1)) =~= cands_of(m.take(k)).push(cand_of(m[k])));
    }
    assert(m.take(n as int) =~= m);
}

/// Whether the trimmed text of a segment ends in a terminator.
fn closes(seg: &WhisperSegment) -> (r: bool)
    ensures
        r == seg_closes(crate::model::timed_segment(*seg)),
{
    let t = trim_chars(&chars_of(seg.text.as_str()), CharClass::WhiteSpace);
    t.len() > 0 && char_in_class(CharClass::SentenceEnd, t[t.len() - 1])
}

/// Step 1: the raw sentences as inclusive segment ranges.
fn group_segments(segs: &[WhisperSegment]) -> (r: Vec<(usize, usize)>)
    ensures
        r@.len() == group_bounds(timed_segments(segs@), 0, 0).len(),
        forall|i: int| 0 <= i < r@.len() ==> #[trigger] r@[i].0 as int == group_bounds(timed_segments(segs@), 0, 0)[i].0
            && r@[i].1 as int == group_bounds(timed_segments(segs@), 0, 0)[i].1
            && r@[i].0 <= r@[i].1 < segs@.len(),
{
    let ghost ts = timed_segments(segs@);
    let ghost g = group_bounds(ts, 0, 0);
    let mut out: Vec<(usize, usize)> = Vec::new();
    let ghost mut done: Seq<(int, int)> = seq![];
    let mut start: usize = 0;
    let mut i: usize = 0;
    while i < segs.len()
        invariant
            i <= segs@.len(),
            start <= i,
            ts == timed_segments(segs@),
            g == group_bounds(ts, 0, 0),
            g == done + group_bounds(ts, i as int, start as int),
            out@.len() == done.len(),
            forall|k: int| 0 <= k < out@.len() ==> #[trigger] out@[k].0 as int == done[k].0 && out@[k].1 as int == done[k].1
                && out@[k].0 <= out@[k].1 < segs@.len(),
        decreases segs@.len() - i,
    {
        assert(ts[i as int] == crate::model::timed_segment(segs@[i as int]));
        if closes(&segs[i]) {
            let ghost d0 = done;
            out.push((start, i));
            proof {
                done = done.push((start as int, i as int));
                assert(d0 + (seq![(start as int, i as int)] + group_bounds(ts, i + 1, i + 1))
                    =~= done + group_bounds(ts, i + 1, i + 1));
            }
            start = i + 1;
        }
        i += 1;
    }
    if start < segs.len() {
        let ghost d0 = done;
        out.push((start, segs.len() - 1));
        proof {
            done = done.push((start as int, segs@.len() - 1));
            assert(d0 + seq![(start as int, segs@.len() - 1)] =~= done);
        }
    } else {
        assert(done + Seq::<(int, int)>::empty() =~= done);
    }
    out
}

/// The joined text of segments `f..=l` (see `group_text`).
fn group_text_chars(segs: &[WhisperSegment], f: usize, l: usize) -> (r: Vec<char>)
    requires
        f <= l < segs@.len(),
    ensures
        r@ == group_text(timed_segments(segs@), f as int, l as int),
{
    let ghost ts = timed_segments(segs@);
    let ghost parts_s = Seq::new((l - f + 1) as nat, |k: int| trim(ts[f + k].text));
    let mut parts: Vec<Vec<char>> = Vec::new();
    let mut k: usize = f;
    while k <= l
        invariant
            f <= k <= l + 1,
            l < segs@.len(),
            ts == timed_segments(segs@),
            char_seqs(parts@) == parts_s.take(k - f),
            parts_s == Seq::new((l - f + 1) as nat, |k: int| trim(ts[f + k].text)),
        decreases l + 1 - k,
    {
        let t = trim_chars(&chars_of(segs[k].text.as_str()), CharClass::WhiteSpace);
        let ghost before = char_seqs(parts@);
        let ghost tv = t@;
        assert(ts[k as int].text == segs@[k as int].text@);
        parts.push(t);
        assert(char_seqs(parts@) =~= before.push(tv));
        assert(parts_s.take(k + 1 - f) =~= parts_s.take(k - f).push(tv));
        k += 1;
    }
    assert(parts_s.take((l + 1 - f) as int) =~= parts_s);
    let j = join_spaced(&parts);
    let c = collapse_chars(&j, ' ');
    trim_chars(&c, CharClass::WhiteSpace)
}

/// `x * t`, exactly.
fn scaled(x: u32, t: u128) -> (r: i128)
    requires
        t <= u64::MAX,
    ensures
        r == (x as int) * (t as int),
        0 <= r <= 0x1_0000_0000 * 0x1_0000_0000_0000_0000,
{
    proof {
        assert(0 <= (x as int) * (t as int) <= 0x1_0000_0000 * 0x1_0000_0000_0000_0000) by (nonlinear_arith)
            requires 0 <= x <= 0xFFFF_FFFF, 0 <= t <= 0xFFFF_FFFF_FFFF_FFFF;
    }
    (x as i128) * (t as i128)
}

/// The position of character `c` of `t` in the span `gs..ge`, scaled by `t`.
fn scaled_position(gs: u32, ge: u32, c: u128, t: u128) -> (r: i128)
    requires
        c <= t <= u64::MAX,
    ensures
        r == scaled_pos(gs as int, ge as int, c as int, t as int),
        -0x1_0000_0000 * 0x1_0000_0000_0000_0000 <= r <= 2 * 0x1_0000_0000 * 0x1_0000_0000_0000_0000,
{
    let a = scaled(gs, t);
    proof {
        assert(-0x1_0000_0000 * 0x1_0000_0000_0000_0000 <= ((ge as int) - (gs as int)) * (c as int)
            <= 0x1_0000_0000 * 0x1_0000_0000_0000_0000) by (nonlinear_arith)
            requires 0 <= gs <= 0xFFFF_FFFF, 0 <= ge <= 0xFFFF_FFFF, 0 <= c <= 0xFFFF_FFFF_FFFF_FFFF;
    }
    let d: i128 = (ge as i128 - gs as i128) * (c as i128);
    a + d
}

/// Whether `w` starts at most 50 ms before the scaled position `a` and
/// before the scaled position `b`.
fn starts_within(w: &WhisperWord, a: i128, b: i128, t: u128) -> (r: bool)
    requires
        t <= u64::MAX,
    ensures
        r == ((w.start_ms as int) * (t as int) + 50 * (t as int) >= a && (w.start_ms as int) * (t as int) < b),
{
    let x = scaled(w.start_ms, t);
    let tol: i128 = 50 * (t as i128);
    x + tol >= a && x < b
}

/// Whether `w` ends after the scaled position `a` and at most 50 ms after
/// the scaled position `b`.
fn ends_within(w: &WhisperWord, a: i128, b: i128, t: u128) -> (r: bool)
    requires
        t <= u64::MAX,
        b <= 2 * 0x1_0000_0000 * 0x1_0000_0000_0000_0000,
    ensures
        r == ((w.end_ms as int) * (t as int) > a && (w.end_ms as int) * (t as int) <= b + 50 * (t as int)),
{
    let x = scaled(w.end_ms, t);
    let tol: i128 = 50 * (t as i128);
    x > a && x <= b + tol
}

/// The span of the characters `c..n` of `t` in `gs..ge`, snapped to the
/// word boundaries (see `snap`).
fn snap_to_words(gs: u32, ge: u32, c: u128, n: u128, t: u128, words: &[WhisperWord]) -> (r: Option<(i64, i64)>)
    requires
        c <= n <= t,
        1 <= t <= u64::MAX,
    ensures
        match r {
            Some(v) => snap(gs as int, ge as int, c as int, n as int, t as int, timed_words(words@))
                == Some((v.0 as int, v.1 as int)),
            None => snap(gs as int, ge as int, c as int, n as int, t as int, timed_words(words@)) is None,
        },
        r matches Some(v) ==> 0 <= v.0 <= u32::MAX && 0 <= v.1 && (v.1 <= u32::MAX || v.1 == v.0 + 100),
{
    let ghost tw = timed_words(words@);
    let a = scaled_position(gs, ge, c, t);
    let b = scaled_position(gs, ge, n, t);
    if b <= a {
        return None;
    }
    let rs = piece_time(gs, ge, c, t) as i64;
    let re = piece_time(gs, ge, n, t) as i64;
    if words.len() == 0 {
        return Some((rs, re));
    }
    let mut i: usize = 0;
    while i < words.len() && !starts_within(&words[i], a, b, t)
        invariant
            i <= words@.len(),
            t <= u64::MAX,
            tw == timed_words(words@),
            first_snap(tw, a as int, b as int, t as int, 0) == first_snap(tw, a as int, b as int, t as int, i as int),
        decreases words@.len() - i,
    {
        i += 1;
    }
    let mut j: usize = words.len();
    while j > 0 && !ends_within(&words[j - 1], a, b, t)
        invariant
            j <= words@.len(),
            t <= u64::MAX,
            b <= 2 * 0x1_0000_0000 * 0x1_0000_0000_0000_0000,
            tw == timed_words(words@),
            last_snap(tw, a as int, b as int, t as int, tw.len() - 1) == last_snap(tw, a as int, b as int, t as int, j - 1),
        decreases j,
    {
        j -= 1;
    }
    let s: i64 = if i < words.len() { words[i].start_ms as i64 } else { rs };
    let e: i64 = if j > 0 { words[j - 1].end_ms as i64 } else { re };
    Some((s, if e >= s + 100 { e } else { s + 100 }))
}

/// Step 2 for one group: its candidates.
fn group_candidates(segs: &[WhisperSegment], words: &[WhisperWord], f: usize, l: usize) -> (r: Vec<Candidate>)
    requires
        f <= l < segs@.len(),
    ensures
        cands_of(r@) == group_cands(timed_segments(segs@), f as int, l as int, timed_words(words@)),
        all_in_range(r@),
{
    let ghost ts = timed_segments(segs@);
    let ghost tw = timed_words(words@);
    let joined = group_text_chars(segs, f, l);
    let mut out: Vec<Candidate> = Vec::new();
    if joined.len() == 0 {
        return out;
    }
    let gs = segs[f].start_ms;
    let ge = segs[l].end_ms;
    assert(ts[f as int].start == gs && ts[l as int].end == ge);
    let pieces = sentence_pieces(&joined);
    let ghost pv = char_seqs(pieces@);
    proof {
        lemma_sentences_size(joined@, seq![]);
    }
    let total: u128 = joined.len() as u128;
    let mut cursor: u128 = 0;
    let mut k: usize = 0;
    assert(pv.take(0) =~= Seq::<Seq<char>>::empty());
    while k < pieces.len()
        invariant
            k <= pieces@.len(),
            pv == char_seqs(pieces@),
            pv == sentences(joined@),
            total == joined@.len(),
            1 <= total <= usize::MAX,
            cursor == total_len(pv.take(k as int)),
            total_len(pv) <= total,
            tw == timed_words(words@),
            all_in_range(out@),
            piece_cands(pv, 0, 0, gs as int, ge as int, total as int, tw)
                == cands_of(out@) + piece_cands(pv, k as int, cursor as int, gs as int, ge as int, total as int, tw),
        decreases pieces@.len() - k,
    {
        proof {
            lemma_total_len_prefix(pv, k as int);
        }
        let piece = &pieces[k];
        let plen = piece.len() as u128;
        let next = cursor + plen;
        let t = trim_chars(piece, CharClass::WhiteSpace);
        if t.len() > 0 {
            match snap_to_words(gs, ge, cursor, next, total, words) {
                Some((s, e)) => {
                    let text = normalize_sentence_chars(&t);
                    push_cand(&mut out, Candidate { text, start: s, end: e });
                },
                None => {},
            }
        }
        cursor = next;
        k += 1;
    }
    assert(piece_cands(pv, k as int, cursor as int, gs as int, ge as int, total as int, tw) =~= Seq::<Cand>::empty());
    assert(cands_of(out@) + Seq::<Cand>::empty() =~= cands_of(out@));
    out
}

fn copy_word(w: &WhisperWord) -> (r: WhisperWord)
    ensures
        crate::model::timed_word(r) == crate::model::timed_word(*w),
{
    WhisperWord { word: w.word.clone(), start_ms: w.start_ms, end_ms: w.end_ms }
}

fn word_is_conj(w: &WhisperWord) -> (r: bool)
    ensures
        r == is_conj(crate::model::timed_word(*w)),
{
    let letters = strip_punct_chars(&chars_of(w.word.as_str()));
    let s = string_of(&letters);
    let low = lower_of(s.as_str());
    is_leading_conjunction(&chars_of(low.as_str()))
}

fn word_ends_break(w: &WhisperWord) -> (r: bool)
    ensures
        r == ends_break(crate::model::timed_word(*w)),
{
    let t = trim_chars(&chars_of(w.word.as_str()), CharClass::WhiteSpace);
    if t.len() == 0 {
        return false;
    }
    let last = t[t.len() - 1];
    last == ',' || last == ';' || last == '-' || last == '—'
}

/// Step 3 for one candidate over the caps (see `split_to_fit`).
fn split_candidate(c: &Candidate, words: &[WhisperWord]) -> (r: Vec<Candidate>)
    requires
        cand_in_range(*c),
    ensures
        cands_of(r@) == split_to_fit(cand_of(*c), timed_words(words@)),
        all_in_range(r@),
{
    let ghost tw = timed_words(words@);
    let ghost cs = cand_of(*c);
    let mut ins: Vec<WhisperWord> = Vec::new();
    let mut i: usize = 0;
    assert(tw.take(0) =~= Seq::<TimedWord>::empty());
    assert(timed_words(ins@) =~= Seq::<TimedWord>::empty());
    while i < words.len()
        invariant
            i <= words@.len(),
            tw == timed_words(words@),
            cs == cand_of(*c),
            cand_in_range(*c),
            timed_words(ins@) == words_inside(tw.take(i as int), cs),
        decreases words@.len() - i,
    {
        assert(tw.take(i + 1).drop_last() =~= tw.take(i as int));
        assert(tw.take(i + 1).last() == tw[i as int]);
        let w = &words[i];
        if w.start_ms as i64 + 50 >= c.start && w.end_ms as i64 <= c.end + 50 {
            let ghost before = timed_words(ins@);
            let cw = copy_word(w);
            ins.push(cw);
            assert(timed_words(ins@) =~= before + seq![tw[i as int]]);
        } else {
            assert(words_inside(tw.take(i + 1), cs) =~= words_inside(tw.take(i as int), cs) + Seq::<TimedWord>::empty());
        }
        i += 1;
    }
    assert(tw.take(words@.len() as int) =~= tw);
    let ghost iw = timed_words(ins@);
    let mut out: Vec<Candidate> = Vec::new();
    if ins.len() < 3 {
        return out;
    }
    let n: usize = ins.len();
    let mut cursor: usize = 0;
    while cursor < n
        invariant
            n == ins@.len(),
            iw == timed_words(ins@),
            cursor <= n,
            all_in_range(out@),
            fit_chunks(iw, 0) == cands_of(out@) + fit_chunks(iw, cursor as int),
            iw == words_inside(tw, cs),
            tw == timed_words(words@),
            cs == cand_of(*c),
            n >= 3,
        decreases n - cursor,
    {
        let mut c2 = cursor;
        while c2 < n && word_is_conj(&ins[c2])
            invariant
                cursor <= c2 <= n,
                n == ins@.len(),
                iw == timed_words(ins@),
                skip_conj(iw, cursor as int) == skip_conj(iw, c2 as int),
            decreases n - c2,
        {
            c2 += 1;
        }
        if c2 >= n {
            assert(skip_conj(iw, c2 as int) == c2 as int);
            assert(fit_chunks(iw, cursor as int) =~= Seq::<Cand>::empty());
            assert(cands_of(out@) + Seq::<Cand>::empty() =~= cands_of(out@));
            return out;
        }
        let mut chunk_end: usize = c2;
        let mut best: usize = n;
        let mut j: usize = c2;
        while j < n
            invariant
                c2 <= chunk_end <= j <= n,
                c2 < n,
                chunk_end < n,
                best == n || (c2 <= best < n),
                n == ins@.len(),
                iw == timed_words(ins@),
                scan_chunk(iw, c2 as int, c2 as int, c2 as int, -1)
                    == scan_chunk(iw, c2 as int, j as int, chunk_end as int, if best == n { -1 } else { best as int }),
            ensures
                scan_chunk(iw, c2 as int, c2 as int, c2 as int, -1)
                    == (chunk_end as int, if best == n { -1 } else { best as int }),
            decreases n - j,
        {
            let dur = ins[j].end_ms as i64 - ins[c2].start_ms as i64;
            if j - c2 + 1 > 20 || dur > 5000 {
                break;
            }
            chunk_end = j;
            if word_ends_break(&ins[j]) || (j + 1 < n && word_is_conj(&ins[j + 1])) {
                best = j;
            }
            j += 1;
        }
        let cut = if best < n { best } else { chunk_end };
        proof {
            lemma_skip_conj(iw, cursor as int);
            lemma_scan_chunk(iw, c2 as int, c2 as int, c2 as int, -1);
        }
        assert(chunk_cut(iw, cursor as int) == (c2 as int, cut as int));
        let s = ins[c2].start_ms as i64;
        let e = ins[cut].end_ms as i64;
        if cut - c2 + 1 >= 3 && e > s {
            let raw = joined_words_chars(&ins, c2, cut);
            let norm = normalize_sentence_chars(&raw);
            let text = capitalize_first_chars(&norm);
            push_cand(&mut out, Candidate { text, start: s, end: e });
            proof {
                let head = Cand {
                    text: capitalized(normalized_sentence(joined_words(iw, c2 as int, cut as int))),
                    start: iw[c2 as int].start,
                    end: iw[cut as int].end,
                };
                assert(fit_chunks(iw, cursor as int) == seq![head] + fit_chunks(iw, cut + 1));
            }
        }
        cursor = cut + 1;
    }
    assert(fit_chunks(iw, cursor as int) =~= Seq::<Cand>::empty());
    assert(cands_of(out@) + Seq::<Cand>::empty() =~= cands_of(out@));
    out
}

fn copy_candidate(c: &Candidate) -> (r: Candidate)
    ensures
        cand_of(r) == cand_of(*c),
        cand_in_range(*c) ==> cand_in_range(r),
{
    let t = slice_chars(&c.text, 0, c.text.len());
    assert(t@ =~= c.text@);
    Candidate { text: t, start: c.start, end: c.end }
}

fn clamp_time(x: i64) -> (r: u32)
    ensures
        r as int == clamp_ms(x as int),
{
    if x < 0 {
        0
    } else if x > u32::MAX as i64 {
        u32::MAX
    } else {
        x as u32
    }
}

/// Harvests sentence-shaped clips of 1–5 s and 3–20 words from the timed
/// segments, cutting at the word timings (see the module notes).
pub fn harvest(segments: &[WhisperSegment], words: &[WhisperWord]) -> (r: Vec<Clip>)
    ensures
        clips_match(r@, harvest_spec(timed_segments(segments@), timed_words(words@))),
        forall|i: int| 0 <= i < r@.len() ==> {
            &&& 1000 <= #[trigger] r@[i].end_ms - r@[i].start_ms <= 5000
            &&& 3 <= word_count(r@[i].text@) <= 20
            &&& ends_with_terminator(r@[i].text@)
        },
{
    let ghost ts = timed_segments(segments@);
    let ghost tw = timed_words(words@);
    if segments.len() == 0 {
        return Vec::new();
    }
    let groups = group_segments(segments);
    let ghost gspec = group_bounds(ts, 0, 0);
    let mut cands: Vec<Candidate> = Vec::new();
    let mut gi: usize = 0;
    assert(gspec.take(0) =~= Seq::<(int, int)>::empty());
    while gi < groups.len()
        invariant
            gi <= groups@.len(),
            ts == timed_segments(segments@),
            tw == timed_words(words@),
            gspec == group_bounds(ts, 0, 0),
            groups@.len() == gspec.len(),
            forall|i: int| 0 <= i < groups@.len() ==> #[trigger] groups@[i].0 as int == gspec[i].0
                && groups@[i].1 as int == gspec[i].1 && groups@[i].0 <= groups@[i].1 < segments@.len(),
            all_in_range(cands@),
            cands_of(cands@) == all_group_cands(ts, gspec.take(gi as int), tw),
        decreases groups@.len() - gi,
    {
        let (f, l) = groups[gi];
        assert(gspec.take(gi + 1).drop_last() =~= gspec.take(gi as int));
        assert(gspec.take(gi + 1).last() == gspec[gi as int]);
        let more = group_candidates(segments, words, f, l);
        append_cands(&mut cands, more);
        gi += 1;
    }
    assert(gspec.take(groups@.len() as int) =~= gspec);
    let ghost all_c = cands_of(cands@);
    let mut expanded: Vec<Candidate> = Vec::new();
    let mut k: usize = 0;
    assert(all_c.take(0) =~= Seq::<Cand>::empty());
    while k < cands.len()
        invariant
            k <= cands@.len(),
            all_c == cands_of(cands@),
            all_in_range(cands@),
            all_in_range(expanded@),
            tw == timed_words(words@),
            cands_of(expanded@) == expand_all(all_c.take(k as int), tw),
        decreases cands@.len() - k,
    {
        assert(all_c.take(k + 1).drop_last() =~= all_c.take(k as int));
        assert(all_c.take(k + 1).last() == cand_of(cands@[k as int]));
        assert(cand_in_range(cands@[k as int]));
        let c = &cands[k];
        let wc = count_words(&c.text);
        if wc <= 20 && c.end - c.start <= 5000 {
            let ghost before = cands_of(expanded@);
            push_cand(&mut expanded, copy_candidate(c));
            assert(before.push(cand_of(*c)) =~= before + seq![cand_of(*c)]);
        } else {
            let more = split_candidate(c, words);
            append_cands(&mut expanded, more);
        }
        k += 1;
    }
    assert(all_c.take(cands@.len() as int) =~= all_c);
    let ghost ex = cands_of(expanded@);
    let mut out: Vec<Clip> = Vec::new();
    let ghost mut target: Seq<Span> = seq![];
    let mut q: usize = 0;
    assert(ex.take(0) =~= Seq::<Cand>::empty());
    while q < expanded.len()
        invariant
            q <= expanded@.len(),
            ex == cands_of(expanded@),
            target == final_spans(ex.take(q as int)),
            clips_match(out@, target),
            all_in_range(expanded@),
            forall|i: int| 0 <= i < out@.len() ==> {
                &&& 1000 <= #[trigger] out@[i].end_ms - out@[i].start_ms <= 5000
                &&& 3 <= word_count(out@[i].text@) <= 20
                &&& ends_with_terminator(out@[i].text@)
            },
        decreases expanded@.len() - q,
    {
        assert(cand_in_range(expanded@[q as int]));
        assert(ex.take(q + 1).drop_last() =~= ex.take(q as int));
        assert(ex.take(q + 1).last() == cand_of(expanded@[q as int]));
        let c = &expanded[q];
        let wc = count_words(&c.text);
        let dur = c.end - c.start;
        if dur >= 1000 && dur <= 5000 && wc >= 3 && wc <= 20 {
            let ghost o = out@;
            let ghost sp = Span { id: None, start: clamp_ms(c.start as int), end: clamp_ms(c.end as int), text: c.text@ };
            out.push(Clip { id: new_clip_id(), start_ms: clamp_time(c.start), end_ms: clamp_time(c.end), text: string_of(&c.text) });
            proof {
                target = target.push(sp);
                assert forall|i: int| 0 <= i < out@.len() implies #[trigger] clip_matches(out@[i], target[i]) by {
                    if i < o.len() {
                        assert(clip_matches(o[i], target[i]));
                    }
                }
                assert(final_spans(ex.take(q + 1)) =~= target);
            }
        } else {
            assert(final_spans(ex.take(q + 1)) =~= target);
        }
        q += 1;
    }
    assert(ex.take(expanded@.len() as int) =~= ex);
    out
}

// ───────────────────────── string-level helpers ─────────────────────────

/// Splits `text` on `.`, `!` or `?` followed by white space or the end of
/// the text; each terminator stays with its piece, the white space after it
/// is dropped, and a trailing piece of white space alone is not kept.
pub fn split_into_sentences(text: &str) -> (r: Vec<String>)
    ensures
        string_seqs(r@) == sentences(text@),
{
    let chars = chars_of(text);
    let pieces = sentence_pieces(&chars);
    let mut out: Vec<String> = Vec::new();
    let mut i: usize = 0;
    while i < pieces.len()
        invariant
            i <= pieces.len(),
            out@.len() == i,
            string_seqs(out@) == char_seqs(pieces@).take(i as int),
        decreases pieces.len() - i,
    {
        let s = string_of(&pieces[i]);
        let ghost o0 = out@;
        out.push(s);
        proof {
            assert(out@ == o0.push(s));
            assert(o0.len() == i);
            assert forall|j: int| 0 <= j <= i implies #[trigger] string_seqs(out@)[j]
                == char_seqs(pieces@)[j] by {
                if j < i {
                    assert(string_seqs(o0)[j] == char_seqs(pieces@).take(i as int)[j]);
                }
            }
        }
        i += 1;
        assert(string_seqs(out@) =~= char_seqs(pieces@).take(i as int));
    }
    assert(char_seqs(pieces@).take(i as int) =~= char_seqs(pieces@));
    out
}

/// Removes dangling clause punctuation from the end of `s` and adds a
/// period when it does not end in `.`, `!` or `?`.
pub fn normalize_sentence(s: &str) -> (r: String)
    ensures
        r@ == normalized_sentence(s@),
{
    let v = chars_of(s);
    string_of(&normalize_sentence_chars(&v))
}

/// The letters and digits of `s`, in order.
pub fn strip_punct(s: &str) -> (r: String)
    ensures
        r@ == alnum_only(s@),
{
    let v = chars_of(s);
    string_of(&strip_punct_chars(&v))
}

/// `s` with its first character upper-cased.
pub fn capitalize_first(s: &str) -> (r: String)
    ensures
        r@ == capitalized(s@),
{
    let v = chars_of(s);
    string_of(&capitalize_first_chars(&v))
}

} // verus!
