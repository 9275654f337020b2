//! Reader ("sound novel") segmentation: carving piped text into the
//! segments revealed one per Enter.
//!
//! All splitters first turn CRLF and lone CR into LF. Segments keep their
//! terminating punctuation and their interior white space; segments that
//! are blank (white space only) are dropped.

use vstd::prelude::*;

use crate::text::{
    all_whitespace, chars_of, decimal, grapheme_clusters, is_blank, is_single, is_ws, keep_nonblank,
    push_char, push_decimal, push_nonblank, split_graphemes, string_of_range, string_views,
    trim_bounds, trim_seq,
};

verus! {

/// How reader mode carves the input into segments.
#[derive(Debug, Clone, Copy, PartialEq, Eq, Structural)]
pub enum Unit {
    /// One sentence at a time: Japanese `。！？` plus any closing brackets
    /// after it, or English `. ! ?` followed by white space or the end.
    Sentence,
    /// One paragraph (text between blank lines) at a time.
    Paragraph,
    /// One line at a time.
    Line,
}

/// `s` with every CRLF and every lone CR turned into LF.
pub open spec fn normalize_newlines(s: Seq<char>) -> Seq<char>
    decreases s.len(),
{
    if s.len() == 0 {
        seq![]
    } else if s[0] == '\r' && s.len() >= 2 && s[1] == '\n' {
        seq!['\n'] + normalize_newlines(s.subrange(2, s.len() as int))
    } else if s[0] == '\r' {
        seq!['\n'] + normalize_newlines(s.drop_first())
    } else {
        seq![s[0]] + normalize_newlines(s.drop_first())
    }
}

/// The pieces of `s` between its `sep` chars (`str::split`): always at
/// least one piece, empty pieces included.
pub open spec fn split_on(s: Seq<char>, sep: char) -> Seq<Seq<char>>
    decreases s.len(),
{
    if s.len() == 0 {
        seq![seq![]]
    } else if s.last() == sep {
        split_on(s.drop_last(), sep).push(seq![])
    } else {
        let p = split_on(s.drop_last(), sep);
        p.update(p.len() - 1, p.last().push(s.last()))
    }
}

/// Index of the first `\n\n` in `s` at or after `from`.
pub open spec fn first_blank_line(s: Seq<char>, from: nat) -> Option<nat>
    decreases s.len() - from,
{
    if from + 1 >= s.len() {
        None
    } else if s[from as int] == '\n' && s[from + 1 as int] == '\n' {
        Some(from)
    } else {
        first_blank_line(s, from + 1)
    }
}

/// Index just past the run of `\n` that starts at `i`.
pub open spec fn newline_run_end(s: Seq<char>, i: nat) -> nat
    decreases s.len() - i,
{
    if i < s.len() && s[i as int] == '\n' {
        newline_run_end(s, i + 1)
    } else {
        i
    }
}

/// Bounds of a newline run.
pub proof fn lemma_run_end_bounds(s: Seq<char>, i: nat)
    ensures
        i <= s.len() ==> i <= newline_run_end(s, i) <= s.len(),
        i > s.len() ==> newline_run_end(s, i) == i,
        forall|k: int| i <= k < newline_run_end(s, i) ==> s[k] == '\n',
    decreases s.len() - i,
{
    if i < s.len() && s[i as int] == '\n' {
        lemma_run_end_bounds(s, i + 1);
    }
}

/// Where a blank line can be found.
pub proof fn lemma_first_blank_line_bounds(s: Seq<char>, from: nat)
    ensures
        first_blank_line(s, from) matches Some(i) ==> from <= i && i + 1 < s.len() && s[i as int]
            == '\n' && s[i + 1 as int] == '\n',
    decreases s.len() - from,
{
    if from + 1 < s.len() && !(s[from as int] == '\n' && s[from + 1 as int] == '\n') {
        lemma_first_blank_line_bounds(s, from + 1);
    }
}

/// The paragraphs of `s` from `p` on: the pieces between maximal runs of
/// two or more newlines (the runs themselves belong to no piece; a single
/// newline stays inside its piece).
pub open spec fn paragraph_pieces(s: Seq<char>, p: nat) -> Seq<Seq<char>>
    decreases s.len() - p,
{
    match first_blank_line(s, p) {
        None => seq![s.subrange(p as int, s.len() as int)],
        Some(i) => {
            proof {
                lemma_first_blank_line_bounds(s, p);
                lemma_run_end_bounds(s, i + 2);
            }
            seq![s.subrange(p as int, i as int)] + paragraph_pieces(s, newline_run_end(s, i + 2))
        },
    }
}

/// A Japanese sentence end: `。`, `！` or `？`.
pub open spec fn is_ja_end(g: Seq<char>) -> bool {
    g == seq!['。'] || g == seq!['！'] || g == seq!['？']
}

/// An English sentence end: `.`, `!` or `?`.
pub open spec fn is_ascii_end(g: Seq<char>) -> bool {
    g == seq!['.'] || g == seq!['!'] || g == seq!['?']
}

/// Closing punctuation pulled into the sentence it follows.
pub open spec fn is_closer_char(c: char) -> bool {
    c == '」' || c == '』' || c == '）' || c == ')' || c == '"' || c == '\'' || c == '”' || c == '’'
}

/// A grapheme that is one closing bracket or quote.
pub open spec fn is_closer(g: Seq<char>) -> bool {
    g.len() == 1 && is_closer_char(g[0])
}

/// A grapheme that is one ASCII digit.
pub open spec fn is_digit(g: Seq<char>) -> bool {
    g.len() == 1 && '0' <= g[0] <= '9'
}

/// Index just past the run of closers in `gs` that starts at `j`.
pub open spec fn closers_end(gs: Seq<Seq<char>>, j: nat) -> nat
    decreases gs.len() - j,
{
    if j < gs.len() && is_closer(gs[j as int]) {
        closers_end(gs, j + 1)
    } else {
        j
    }
}

/// If grapheme `t` ends a sentence, the index just past that sentence
/// (its closers included). A Japanese end always ends one; an English end
/// only when what follows its closers is white space or the end of the
/// text, and a `.` between two digits (a decimal point) never does.
pub open spec fn sentence_end_at(gs: Seq<Seq<char>>, t: nat) -> Option<nat> {
    if t >= gs.len() {
        None
    } else if is_ja_end(gs[t as int]) {
        Some(closers_end(gs, t + 1))
    } else if is_ascii_end(gs[t as int]) {
        let after = closers_end(gs, t + 1);
        let decimal_dot = gs[t as int] == seq!['.'] && t > 0 && is_digit(gs[t - 1]) && t + 1 < gs.len()
            && is_digit(gs[t + 1 as int]);
        let followed_by_break = after >= gs.len() || is_blank(gs[after as int]);
        if !decimal_dot && followed_by_break {
            Some(after)
        } else {
            None
        }
    } else {
        None
    }
}

/// The end of the first sentence that ends at or after grapheme `t`.
pub open spec fn next_sentence_end(gs: Seq<Seq<char>>, t: nat) -> Option<nat>
    decreases gs.len() - t,
{
    if t >= gs.len() {
        None
    } else {
        match sentence_end_at(gs, t) {
            Some(e) => Some(e),
            None => next_sentence_end(gs, t + 1),
        }
    }
}

/// Bounds of a run of closers.
pub proof fn lemma_closers_end_bounds(gs: Seq<Seq<char>>, j: nat)
    ensures
        j <= gs.len() ==> j <= closers_end(gs, j) <= gs.len(),
        j > gs.len() ==> closers_end(gs, j) == j,
        forall|k: int| j <= k < closers_end(gs, j) ==> is_closer(#[trigger] gs[k]),
    decreases gs.len() - j,
{
    if j < gs.len() && is_closer(gs[j as int]) {
        lemma_closers_end_bounds(gs, j + 1);
    }
}

/// A sentence end lies past where the search starts.
pub proof fn lemma_next_sentence_end_bounds(gs: Seq<Seq<char>>, t: nat)
    ensures
        next_sentence_end(gs, t) matches Some(e) ==> t < e <= gs.len(),
    decreases gs.len() - t,
{
    if t < gs.len() {
        lemma_closers_end_bounds(gs, t + 1);
        if sentence_end_at(gs, t) is None {
            lemma_next_sentence_end_bounds(gs, t + 1);
        }
    }
}

/// The sentences of `gs` from grapheme `p` on, each as its graphemes; the
/// text after the last sentence end is a final piece.
pub open spec fn sentence_pieces(gs: Seq<Seq<char>>, p: nat) -> Seq<Seq<Seq<char>>>
    decreases gs.len() - p,
{
    match next_sentence_end(gs, p) {
        None => seq![gs.subrange(p as int, gs.len() as int)],
        Some(e) => {
            proof {
                lemma_next_sentence_end_bounds(gs, p);
            }
            seq![gs.subrange(p as int, e as int)] + sentence_pieces(gs, e)
        },
    }
}

/// The text of each piece.
pub open spec fn piece_texts(ps: Seq<Seq<Seq<char>>>) -> Seq<Seq<char>> {
    ps.map_values(|p: Seq<Seq<char>>| p.flatten())
}

/// The segments of `text` for `unit`.
pub open spec fn segments_of(text: Seq<char>, unit: Unit) -> Seq<Seq<char>> {
    let t = normalize_newlines(text);
    match unit {
        Unit::Sentence => keep_nonblank(piece_texts(sentence_pieces(grapheme_clusters(t), 0))),
        Unit::Paragraph => keep_nonblank(paragraph_pieces(t, 0)),
        Unit::Line => keep_nonblank(split_on(t, '\n')),
    }
}

/// `s` with CRLF and lone CR turned into LF.
fn normalize(text: &str) -> (r: Vec<char>)
    ensures
        r@ == normalize_newlines(text@),
{
    let cs = chars_of(text);
    let n = cs.len();
    let mut out: Vec<char> = Vec::new();
    let mut i: usize = 0;
    assert(cs@.subrange(0, n as int) == cs@);
    while i < n
        invariant
            n == cs@.len(),
            cs@ == text@,
            i <= n,
            normalize_newlines(cs@) == out@ + normalize_newlines(cs@.subrange(i as int, n as int)),
        decreases n - i,
    {
        let ghost rest = cs@.subrange(i as int, n as int);
        assert(rest[0] == cs@[i as int]);
        if cs[i] == '\r' {
            out.push('\n');
            if i + 1 < n && cs[i + 1] == '\n' {
                assert(rest[1] == cs@[i + 1]);
                assert(rest.subrange(2, rest.len() as int) == cs@.subrange(i + 2, n as int));
                i = i + 2;
            } else {
                assert(rest.drop_first() == cs@.subrange(i + 1, n as int));
                i = i + 1;
            }
        } else {
            out.push(cs[i]);
            assert(rest.drop_first() == cs@.subrange(i + 1, n as int));
            i = i + 1;
        }
    }
    out
}

/// One segment per `\n`-delimited line, blank lines dropped.
fn segment_lines(t: &Vec<char>) -> (r: Vec<String>)
    ensures
        string_views(r@) == keep_nonblank(split_on(t@, '\n')),
{
    let n = t.len();
    let mut out: Vec<String> = Vec::new();
    let mut cur = String::new();
    let ghost mut done: Seq<Seq<char>> = seq![];
    assert(t@.take(0) == Seq::<char>::empty());
    let mut i: usize = 0;
    while i < n
        invariant
            n == t@.len(),
            i <= n,
            split_on(t@.take(i as int), '\n') == done.push(cur@),
            string_views(out@) == keep_nonblank(done),
        decreases n - i,
    {
        assert(t@.take(i + 1).drop_last() == t@.take(i as int));
        assert(t@.take(i + 1).last() == t@[i as int]);
        if t[i] == '\n' {
            let ghost piece = cur@;
            let finished = cur;
            push_nonblank(&mut out, Ghost(done), finished);
            proof {
                done = done.push(piece);
            }
            cur = String::new();
        } else {
            let ghost before = cur@;
            push_char(&mut cur, t[i]);
            proof {
                let p = done.push(before);
                assert(p.update(p.len() - 1, p.last().push(t@[i as int])) == done.push(cur@));
            }
        }
        i = i + 1;
    }
    assert(t@.take(n as int) == t@);
    push_nonblank(&mut out, Ghost(done), cur);
    out
}

/// Index of the first `\n\n` in `t` at or after `from`.
fn find_blank_line(t: &Vec<char>, from: usize) -> (r: Option<usize>)
    ensures
        r matches Some(i) ==> first_blank_line(t@, from as nat) == Some(i as nat),
        r is None ==> first_blank_line(t@, from as nat) is None,
{
    let mut j = from;
    while j < t.len() && j + 1 < t.len()
        invariant
            from <= j,
            first_blank_line(t@, from as nat) == first_blank_line(t@, j as nat),
        decreases t@.len() - j,
    {
        if t[j] == '\n' && t[j + 1] == '\n' {
            return Some(j);
        }
        j = j + 1;
    }
    None
}

/// Index just past the run of `\n` in `t` that starts at `i`.
fn run_end(t: &Vec<char>, i: usize) -> (r: usize)
    ensures
        r == newline_run_end(t@, i as nat),
{
    let mut j = i;
    while j < t.len() && t[j] == '\n'
        invariant
            i <= j,
            newline_run_end(t@, i as nat) == newline_run_end(t@, j as nat),
        decreases t@.len() - j,
    {
        j = j + 1;
    }
    j
}

/// One segment per paragraph, blank ones dropped.
fn segment_paragraphs(t: &Vec<char>) -> (r: Vec<String>)
    ensures
        string_views(r@) == keep_nonblank(paragraph_pieces(t@, 0)),
{
    let n = t.len();
    let mut out: Vec<String> = Vec::new();
    let ghost mut done: Seq<Seq<char>> = seq![];
    let mut p: usize = 0;
    loop
        invariant
            n == t@.len(),
            p <= n,
            paragraph_pieces(t@, 0) == done + paragraph_pieces(t@, p as nat),
            string_views(out@) == keep_nonblank(done),
        decreases n - p,
    {
        match find_blank_line(t, p) {
            None => {
                let piece = string_of_range(t, p, n);
                proof {
                    assert(paragraph_pieces(t@, p as nat) == seq![piece@]);
                    assert(done + seq![piece@] == done.push(piece@));
                }
                push_nonblank(&mut out, Ghost(done), piece);
                return out;
            },
            Some(i) => {
                proof {
                    lemma_first_blank_line_bounds(t@, p as nat);
                    lemma_run_end_bounds(t@, (i + 2) as nat);
                }
                let piece = string_of_range(t, p, i);
                let next = run_end(t, i + 2);
                proof {
                    assert(paragraph_pieces(t@, p as nat) == seq![piece@] + paragraph_pieces(t@, next as nat));
                    assert(done + (seq![piece@] + paragraph_pieces(t@, next as nat)) == done.push(piece@) + paragraph_pieces(t@, next as nat));
                }
                push_nonblank(&mut out, Ghost(done), piece);
                proof {
                    done = done.push(piece@);
                }
                p = next;
            },
        }
    }
}

/// True when the grapheme `g` is one closing bracket or quote.
fn is_closer_str(g: &str) -> (b: bool)
    ensures
        b == is_closer(g@),
{
    if g.unicode_len() != 1 {
        return false;
    }
    let c = g.get_char(0);
    c == '」' || c == '』' || c == '）' || c == ')' || c == '"' || c == '\'' || c == '”' || c == '’'
}

/// True when the grapheme `g` is one ASCII digit.
fn is_digit_str(g: &str) -> (b: bool)
    ensures
        b == is_digit(g@),
{
    if g.unicode_len() != 1 {
        return false;
    }
    let c = g.get_char(0);
    '0' <= c && c <= '9'
}

/// Index just past the run of closers in `gs` that starts at `j`.
fn closers_end_of(gs: &Vec<String>, j: usize) -> (r: usize)
    ensures
        r == closers_end(string_views(gs@), j as nat),
{
    let ghost v = string_views(gs@);
    let mut k = j;
    while k < gs.len() && is_closer_str(gs[k].as_str())
        invariant
            v == string_views(gs@),
            j <= k,
            closers_end(v, j as nat) == closers_end(v, k as nat),
        decreases gs@.len() - k,
    {
        k = k + 1;
    }
    k
}

/// If grapheme `t` ends a sentence, the index just past it.
fn sentence_end_of(gs: &Vec<String>, t: usize) -> (r: Option<usize>)
    requires
        t < gs@.len(),
    ensures
        r matches Some(e) ==> sentence_end_at(string_views(gs@), t as nat) == Some(e as nat),
        r is None ==> sentence_end_at(string_views(gs@), t as nat) is None,
{
    let ghost v = string_views(gs@);
    let _n = gs.len();
    let g = gs[t].as_str();
    assert(g@ == v[t as int]);
    if is_single(g, '。') || is_single(g, '！') || is_single(g, '？') {
        return Some(closers_end_of(gs, t + 1));
    }
    if is_single(g, '.') || is_single(g, '!') || is_single(g, '?') {
        let after = closers_end_of(gs, t + 1);
        let decimal_dot = is_single(g, '.') && t > 0 && is_digit_str(gs[t - 1].as_str()) && t + 1
            < gs.len() && is_digit_str(gs[t + 1].as_str());
        proof {
            if t > 0 {
                assert(gs@[t - 1]@ == v[t - 1]);
            }
            if t + 1 < gs@.len() {
                assert(gs@[t + 1]@ == v[t + 1]);
            }
        }
        let followed_by_break = after >= gs.len() || all_whitespace(gs[after].as_str());
        proof {
            if after < gs@.len() {
                assert(gs@[after as int]@ == v[after as int]);
            }
        }
        if !decimal_dot && followed_by_break {
            return Some(after);
        }
    }
    None
}

/// The end of the first sentence that ends at or after grapheme `t`.
fn next_end(gs: &Vec<String>, t: usize) -> (r: Option<usize>)
    ensures
        r matches Some(e) ==> next_sentence_end(string_views(gs@), t as nat) == Some(e as nat),
        r is None ==> next_sentence_end(string_views(gs@), t as nat) is None,
{
    let ghost v = string_views(gs@);
    let mut k = t;
    while k < gs.len()
        invariant
            v == string_views(gs@),
            t <= k,
            next_sentence_end(v, t as nat) == next_sentence_end(v, k as nat),
        decreases gs@.len() - k,
    {
        if let Some(e) = sentence_end_of(gs, k) {
            return Some(e);
        }
        k = k + 1;
    }
    None
}

/// The graphemes `gs[a..b]` joined into one `String`.
fn join_range(gs: &Vec<String>, a: usize, b: usize) -> (r: String)
    requires
        a <= b <= gs@.len(),
    ensures
        r@ == string_views(gs@).subrange(a as int, b as int).flatten(),
{
    let ghost v = string_views(gs@);
    let mut out = String::new();
    let mut i = a;
    assert(v.subrange(a as int, a as int) == Seq::<Seq<char>>::empty());
    while i < b
        invariant
            v == string_views(gs@),
            a <= i <= b,
            b <= gs@.len(),
            out@ == v.subrange(a as int, i as int).flatten(),
        decreases b - i,
    {
        out.append(gs[i].as_str());
        proof {
            assert(v.subrange(a as int, i + 1) == v.subrange(a as int, i as int).push(v[i as int]));
            v.subrange(a as int, i as int).lemma_flatten_push(v[i as int]);
        }
        i = i + 1;
    }
    out
}

/// One segment per sentence, blank ones dropped.
fn segment_sentences(t: &Vec<char>) -> (r: Vec<String>)
    ensures
        string_views(r@) == keep_nonblank(piece_texts(sentence_pieces(grapheme_clusters(t@), 0))),
{
    let text = string_of_range(t, 0, t.len());
    assert(t@.subrange(0, t@.len() as int) == t@);
    let gs = split_graphemes(text.as_str());
    let ghost v = string_views(gs@);
    let n = gs.len();
    let mut out: Vec<String> = Vec::new();
    let ghost mut done: Seq<Seq<Seq<char>>> = seq![];
    let mut p: usize = 0;
    loop
        invariant
            v == string_views(gs@),
            v == grapheme_clusters(t@),
            n == gs@.len(),
            p <= n,
            sentence_pieces(v, 0) == done + sentence_pieces(v, p as nat),
            string_views(out@) == keep_nonblank(piece_texts(done)),
        decreases n - p,
    {
        match next_end(&gs, p) {
            None => {
                let piece = join_range(&gs, p, n);
                proof {
                    assert(sentence_pieces(v, p as nat) == seq![v.subrange(p as int, n as int)]);
                    assert(done + seq![v.subrange(p as int, n as int)] == done.push(v.subrange(p as int, n as int)));
                    assert(piece_texts(done.push(v.subrange(p as int, n as int))) == piece_texts(done).push(piece@));
                }
                push_nonblank(&mut out, Ghost(piece_texts(done)), piece);
                return out;
            },
            Some(e) => {
                proof {
                    lemma_next_sentence_end_bounds(v, p as nat);
                }
                let piece = join_range(&gs, p, e);
                proof {
                    let x = v.subrange(p as int, e as int);
                    assert(sentence_pieces(v, p as nat) == seq![x] + sentence_pieces(v, e as nat));
                    assert(done + (seq![x] + sentence_pieces(v, e as nat)) == done.push(x) + sentence_pieces(v, e as nat));
                    assert(piece_texts(done.push(x)) == piece_texts(done).push(piece@));
                }
                push_nonblank(&mut out, Ghost(piece_texts(done)), piece);
                proof {
                    done = done.push(v.subrange(p as int, e as int));
                }
                p = e;
            },
        }
    }
}

/// Split `text` into reveal segments according to `unit`.
///
/// Newlines are normalized first (CRLF and lone CR become LF). Segments
/// keep their terminating punctuation and interior white space; blank
/// segments are dropped.
pub fn segment(text: &str, unit: Unit) -> (r: Vec<String>)
    ensures
        string_views(r@) == segments_of(text@, unit),
{
    let normalized = normalize(text);
    match unit {
        Unit::Sentence => segment_sentences(&normalized),
        Unit::Paragraph => segment_paragraphs(&normalized),
        Unit::Line => segment_lines(&normalized),
    }
}

/// The dim prompt shown between segments: `[ index/total ] Enter ▸`,
/// wrapped in SGR dim and reset.
pub open spec fn prompt_text(index: nat, total: nat) -> Seq<char> {
    "\x1b[2m[ "@ + decimal(index) + "/"@ + decimal(total) + " ] Enter \u{25b8}\x1b[0m"@
}

/// Build the "press Enter to continue" prompt; `index` is 1-based and
/// `total` is the segment count.
pub fn reader_prompt(index: usize, total: usize) -> (p: String)
    ensures
        p@ == prompt_text(index as nat, total as nat),
{
    let mut out = String::new();
    out.append("\x1b[2m[ ");
    push_decimal(&mut out, index as u64);
    out.append("/");
    push_decimal(&mut out, total as u64);
    out.append(" ] Enter \u{25b8}\x1b[0m");
    out
}

/// No segment is blank.
pub proof fn law_segments_are_not_blank(text: Seq<char>, unit: Unit)
    ensures
        forall|i: int| 0 <= i < segments_of(text, unit).len() ==> !is_blank(#[trigger] segments_of(text, unit)[i]),
{
    let t = normalize_newlines(text);
    match unit {
        Unit::Sentence => lemma_keep_nonblank(piece_texts(sentence_pieces(grapheme_clusters(t), 0))),
        Unit::Paragraph => lemma_keep_nonblank(paragraph_pieces(t, 0)),
        Unit::Line => lemma_keep_nonblank(split_on(t, '\n')),
    }
}

proof fn lemma_keep_nonblank(ps: Seq<Seq<char>>)
    ensures
        forall|i: int| 0 <= i < keep_nonblank(ps).len() ==> !is_blank(#[trigger] keep_nonblank(ps)[i]),
    decreases ps.len(),
{
    if ps.len() > 0 {
        lemma_keep_nonblank(ps.drop_last());
        let k = keep_nonblank(ps.drop_last());
        if !is_blank(ps.last()) {
            assert forall|i: int| 0 <= i < k.push(ps.last()).len() implies !is_blank(#[trigger] k.push(ps.last())[i]) by {
                if i < k.len() {
                    assert(k.push(ps.last())[i] == k[i]);
                }
            }
        }
    }
}

/// Normalized text holds no carriage return.
pub proof fn law_normalized_has_no_cr(s: Seq<char>)
    ensures
        !normalize_newlines(s).contains('\r'),
    decreases s.len(),
{
    if s.len() > 0 {
        if s[0] == '\r' && s.len() >= 2 && s[1] == '\n' {
            law_normalized_has_no_cr(s.subrange(2, s.len() as int));
        } else {
            law_normalized_has_no_cr(s.drop_first());
        }
        let n = normalize_newlines(s);
        assert(forall|i: int| 1 <= i < n.len() ==> n[i] == n.drop_first()[i - 1]);
    }
}

/// Sentence splitting loses and reorders nothing: the sentences from
/// grapheme `p` on, joined, are exactly the graphemes from `p` on.
pub proof fn law_sentences_cover_text(gs: Seq<Seq<char>>, p: nat)
    requires
        p <= gs.len(),
    ensures
        sentence_pieces(gs, p).flatten() == gs.subrange(p as int, gs.len() as int),
    decreases gs.len() - p,
{
    match next_sentence_end(gs, p) {
        None => {
            seq![gs.subrange(p as int, gs.len() as int)].lemma_flatten_singleton();
        },
        Some(e) => {
            lemma_next_sentence_end_bounds(gs, p);
            law_sentences_cover_text(gs, e);
            let x = gs.subrange(p as int, e as int);
            vstd::seq_lib::lemma_flatten_concat(seq![x], sentence_pieces(gs, e));
            seq![x].lemma_flatten_singleton();
            assert(x + gs.subrange(e as int, gs.len() as int) == gs.subrange(p as int, gs.len() as int));
        },
    }
}

/// `ps` joined with `sep` between consecutive pieces.
pub open spec fn join_with(ps: Seq<Seq<char>>, sep: char) -> Seq<char>
    decreases ps.len(),
{
    if ps.len() == 0 {
        seq![]
    } else if ps.len() == 1 {
        ps[0]
    } else {
        join_with(ps.drop_last(), sep).push(sep) + ps.last()
    }
}

/// Lines joined back with `\n` give the text back, and no line holds a
/// newline.
pub proof fn law_lines_rejoin(s: Seq<char>)
    ensures
        join_with(split_on(s, '\n'), '\n') == s,
        forall|i: int| 0 <= i < split_on(s, '\n').len() ==> !(#[trigger] split_on(s, '\n')[i]).contains('\n'),
        split_on(s, '\n').len() >= 1,
    decreases s.len(),
{
    if s.len() > 0 {
        let d = s.drop_last();
        law_lines_rejoin(d);
        let p = split_on(d, '\n');
        if s.last() == '\n' {
            let q = p.push(seq![]);
            assert(q.drop_last() == p);
            assert(join_with(q, '\n') == join_with(p, '\n').push('\n') + Seq::<char>::empty());
            assert(d.push('\n') == s);
            assert forall|i: int| 0 <= i < q.len() implies !(#[trigger] q[i]).contains('\n') by {
                if i < p.len() {
                    assert(q[i] == p[i]);
                }
            }
        } else {
            let q = p.update(p.len() - 1, p.last().push(s.last()));
            assert(q.last() == p.last().push(s.last()));
            assert forall|i: int| 0 <= i < q.len() implies !(#[trigger] q[i]).contains('\n') by {
                if i < p.len() - 1 {
                    assert(q[i] == p[i]);
                } else {
                    assert(!p.last().contains('\n'));
                    if q[i].contains('\n') {
                        let j = choose|j: int| 0 <= j < q[i].len() && q[i][j] == '\n';
                        if j < p.last().len() {
                            assert(p.last()[j] == '\n');
                        }
                    }
                }
            }
            if p.len() == 1 {
                assert(join_with(p, '\n') == p[0]);
                assert(q.len() == 1);
                assert(join_with(q, '\n') == q[0]);
                assert(d.push(s.last()) == s);
            } else {
                assert(q.drop_last() == p.drop_last());
                assert(join_with(p, '\n') == join_with(p.drop_last(), '\n').push('\n') + p.last());
                assert(join_with(q, '\n') == join_with(p.drop_last(), '\n').push('\n') + p.last().push(s.last()));
                assert(d.push(s.last()) == s);
                assert((join_with(p.drop_last(), '\n').push('\n') + p.last()).push(s.last())
                    == join_with(p.drop_last(), '\n').push('\n') + p.last().push(s.last()));
            }
        }
    }
}

/// A line typed at the reader prompt ends the session when it is `q`
/// (surrounding white space ignored); any other line advances.
pub fn ends_session(line: &str) -> (b: bool)
    ensures
        b == (trim_seq(line@) == seq!['q']),
{
    let v = chars_of(line);
    assert(v@.subrange(0, v@.len() as int) == v@);
    let (a, b) = trim_bounds(&v, 0, v.len());
    let r = b - a == 1 && v[a] == 'q';
    proof {
        let t = v@.subrange(a as int, b as int);
        assert(t.len() == b - a);
        if b - a == 1 {
            assert(t[0] == v@[a as int]);
            if v@[a as int] == 'q' {
                assert(t == seq!['q']);
            }
        }
    }
    r
}

/// The chars of `s` that are not white space, in order.
pub open spec fn ink(s: Seq<char>) -> Seq<char>
    decreases s.len(),
{
    if s.len() == 0 {
        seq![]
    } else if is_ws(s.last()) {
        ink(s.drop_last())
    } else {
        ink(s.drop_last()).push(s.last())
    }
}

proof fn lemma_ink_concat(a: Seq<char>, b: Seq<char>)
    ensures
        ink(a + b) == ink(a) + ink(b),
    decreases b.len(),
{
    if b.len() == 0 {
        assert(a + b == a);
        assert(ink(a) + ink(b) == ink(a));
    } else {
        lemma_ink_concat(a, b.drop_last());
        assert((a + b).drop_last() == a + b.drop_last());
        assert((a + b).last() == b.last());
        if !is_ws(b.last()) {
            assert((ink(a) + ink(b.drop_last())).push(b.last()) == ink(a) + ink(b.drop_last()).push(b.last()));
        }
    }
}

proof fn lemma_ink_blank(s: Seq<char>)
    requires
        is_blank(s),
    ensures
        ink(s) == Seq::<char>::empty(),
    decreases s.len(),
{
    if s.len() > 0 {
        assert(is_ws(s[s.len() - 1]));
        assert forall|i: int| 0 <= i < s.drop_last().len() implies is_ws(#[trigger] s.drop_last()[i]) by {
            assert(s.drop_last()[i] == s[i]);
        }
        lemma_ink_blank(s.drop_last());
    }
}

proof fn lemma_ink_single(c: char)
    ensures
        ink(seq![c]) == (if is_ws(c) { Seq::<char>::empty() } else { seq![c] }),
{
    assert(seq![c].drop_last() == Seq::<char>::empty());
    assert(seq![c].last() == c);
    assert(ink(Seq::<char>::empty()) == Seq::<char>::empty());
    assert(Seq::<char>::empty().push(c) == seq![c]);
}

/// Dropping blank pieces loses no ink.
proof fn lemma_ink_keep_nonblank(ps: Seq<Seq<char>>)
    ensures
        ink(keep_nonblank(ps).flatten()) == ink(ps.flatten()),
    decreases ps.len(),
{
    if ps.len() > 0 {
        let d = ps.drop_last();
        lemma_ink_keep_nonblank(d);
        assert(d.push(ps.last()) == ps);
        d.lemma_flatten_push(ps.last());
        lemma_ink_concat(d.flatten(), ps.last());
        let k = keep_nonblank(d);
        if is_blank(ps.last()) {
            lemma_ink_blank(ps.last());
            assert(ink(d.flatten()) + Seq::<char>::empty() == ink(d.flatten()));
        } else {
            k.lemma_flatten_push(ps.last());
            lemma_ink_concat(k.flatten(), ps.last());
        }
    }
}

/// Turning CR into LF changes no ink.
proof fn lemma_ink_normalize(s: Seq<char>)
    ensures
        ink(normalize_newlines(s)) == ink(s),
    decreases s.len(),
{
    if s.len() > 0 {
        assert(is_ws('\r') && is_ws('\n'));
        lemma_ink_single(s[0]);
        lemma_ink_single('\n');
        if s[0] == '\r' && s.len() >= 2 && s[1] == '\n' {
            let r = s.subrange(2, s.len() as int);
            lemma_ink_normalize(r);
            lemma_ink_concat(seq!['\n'], normalize_newlines(r));
            assert(s == seq![s[0]] + (seq![s[1]] + r));
            lemma_ink_single(s[1]);
            lemma_ink_concat(seq![s[1]], r);
            lemma_ink_concat(seq![s[0]], seq![s[1]] + r);
        } else {
            let r = s.drop_first();
            lemma_ink_normalize(r);
            assert(s == seq![s[0]] + r);
            lemma_ink_concat(seq![s[0]], r);
            if s[0] == '\r' {
                lemma_ink_concat(seq!['\n'], normalize_newlines(r));
            } else {
                lemma_ink_concat(seq![s[0]], normalize_newlines(r));
            }
        }
    }
}

/// Joining with a white-space separator adds no ink.
proof fn lemma_ink_join(ps: Seq<Seq<char>>, sep: char)
    requires
        is_ws(sep),
    ensures
        ink(join_with(ps, sep)) == ink(ps.flatten()),
    decreases ps.len(),
{
    if ps.len() == 1 {
        ps.lemma_flatten_singleton();
    } else if ps.len() > 1 {
        let d = ps.drop_last();
        lemma_ink_join(d, sep);
        assert(d.push(ps.last()) == ps);
        d.lemma_flatten_push(ps.last());
        lemma_ink_concat(d.flatten(), ps.last());
        let j = join_with(d, sep);
        assert(j.push(sep) == j + seq![sep]);
        lemma_ink_concat(j, seq![sep]);
        lemma_ink_single(sep);
        lemma_ink_concat(j.push(sep), ps.last());
        assert(ink(j) + Seq::<char>::empty() == ink(j));
    }
}

/// Paragraph splitting drops only the newline runs between paragraphs.
proof fn lemma_ink_paragraphs(s: Seq<char>, p: nat)
    requires
        p <= s.len(),
    ensures
        ink(paragraph_pieces(s, p).flatten()) == ink(s.subrange(p as int, s.len() as int)),
    decreases s.len() - p,
{
    match first_blank_line(s, p) {
        None => {
            seq![s.subrange(p as int, s.len() as int)].lemma_flatten_singleton();
        },
        Some(i) => {
            lemma_first_blank_line_bounds(s, p);
            lemma_run_end_bounds(s, i + 2);
            let e = newline_run_end(s, i + 2);
            lemma_ink_paragraphs(s, e);
            let x = s.subrange(p as int, i as int);
            vstd::seq_lib::lemma_flatten_concat(seq![x], paragraph_pieces(s, e));
            seq![x].lemma_flatten_singleton();
            lemma_ink_concat(x, paragraph_pieces(s, e).flatten());
            let gap = s.subrange(i as int, e as int);
            assert(is_blank(gap)) by {
                assert forall|k: int| 0 <= k < gap.len() implies is_ws(#[trigger] gap[k]) by {
                    assert(gap[k] == s[i + k]);
                    assert(is_ws('\n'));
                }
            }
            lemma_ink_blank(gap);
            let tail = s.subrange(e as int, s.len() as int);
            assert(s.subrange(p as int, s.len() as int) == x + (gap + tail));
            lemma_ink_concat(gap, tail);
            lemma_ink_concat(x, gap + tail);
            assert(Seq::<char>::empty() + ink(tail) == ink(tail));
        },
    }
}

/// The text of each piece, joined, is the pieces joined twice.
proof fn lemma_piece_texts_flatten(ps: Seq<Seq<Seq<char>>>)
    ensures
        piece_texts(ps).flatten() == ps.flatten().flatten(),
    decreases ps.len(),
{
    if ps.len() > 0 {
        let d = ps.drop_last();
        lemma_piece_texts_flatten(d);
        assert(d.push(ps.last()) == ps);
        assert(piece_texts(ps) == piece_texts(d).push(ps.last().flatten()));
        piece_texts(d).lemma_flatten_push(ps.last().flatten());
        d.lemma_flatten_push(ps.last());
        vstd::seq_lib::lemma_flatten_concat(d.flatten(), ps.last());
    } else {
        assert(piece_texts(ps) == Seq::<Seq<char>>::empty());
    }
}


proof fn lemma_contains_concat(a: Seq<char>, b: Seq<char>, c: char)
    ensures
        (a + b).contains(c) <==> (a.contains(c) || b.contains(c)),
{
    if (a + b).contains(c) {
        let j = choose|j: int| 0 <= j < (a + b).len() && (a + b)[j] == c;
        if j < a.len() {
            assert(a[j] == c);
        } else {
            assert(b[j - a.len()] == c);
        }
    }
    if a.contains(c) {
        let j = choose|j: int| 0 <= j < a.len() && a[j] == c;
        assert((a + b)[j] == c);
    }
    if b.contains(c) {
        let j = choose|j: int| 0 <= j < b.len() && b[j] == c;
        assert((a + b)[a.len() + j] == c);
    }
}

/// No piece holds `c`.
pub open spec fn pieces_avoid(ps: Seq<Seq<char>>, c: char) -> bool {
    forall|i: int| 0 <= i < ps.len() ==> !(#[trigger] ps[i]).contains(c)
}

proof fn lemma_flatten_avoids(ps: Seq<Seq<char>>, c: char)
    ensures
        !ps.flatten().contains(c) <==> pieces_avoid(ps, c),
    decreases ps.len(),
{
    if ps.len() > 0 {
        let r = ps.drop_first();
        lemma_flatten_avoids(r, c);
        lemma_contains_concat(ps.first(), r.flatten(), c);
        if pieces_avoid(ps, c) {
            assert forall|i: int| 0 <= i < r.len() implies !(#[trigger] r[i]).contains(c) by {
                assert(r[i] == ps[i + 1]);
            }
        }
        if pieces_avoid(r, c) && !ps[0].contains(c) {
            assert forall|i: int| 0 <= i < ps.len() implies !(#[trigger] ps[i]).contains(c) by {
                if i > 0 {
                    assert(ps[i] == r[i - 1]);
                }
            }
        }
    }
}

proof fn lemma_keep_avoids(ps: Seq<Seq<char>>, c: char)
    requires
        pieces_avoid(ps, c),
    ensures
        pieces_avoid(keep_nonblank(ps), c),
    decreases ps.len(),
{
    if ps.len() > 0 {
        let d = ps.drop_last();
        assert forall|i: int| 0 <= i < d.len() implies !(#[trigger] d[i]).contains(c) by {
            assert(d[i] == ps[i]);
        }
        lemma_keep_avoids(d, c);
        let k = keep_nonblank(d);
        assert(!ps[ps.len() - 1].contains(c));
        assert forall|i: int| 0 <= i < k.push(ps.last()).len() implies !(#[trigger] k.push(ps.last())[i]).contains(c) by {
            if i < k.len() {
                assert(k.push(ps.last())[i] == k[i]);
            }
        }
    }
}

proof fn lemma_split_avoids(s: Seq<char>, sep: char, c: char)
    requires
        !s.contains(c),
    ensures
        pieces_avoid(split_on(s, sep), c),
    decreases s.len(),
{
    if s.len() > 0 {
        let d = s.drop_last();
        assert(!d.contains(c)) by {
            if d.contains(c) {
                let j = choose|j: int| 0 <= j < d.len() && d[j] == c;
                assert(s[j] == c);
            }
        }
        lemma_split_avoids(d, sep, c);
        let p = split_on(d, sep);
        assert(p.len() >= 1) by {
            lemma_split_nonempty(d, sep);
        }
        if s.last() == sep {
            let q = p.push(seq![]);
            assert forall|i: int| 0 <= i < q.len() implies !(#[trigger] q[i]).contains(c) by {
                if i < p.len() {
                    assert(q[i] == p[i]);
                }
            }
        } else {
            assert(s[s.len() - 1] != c);
            let q = p.update(p.len() - 1, p.last().push(s.last()));
            assert forall|i: int| 0 <= i < q.len() implies !(#[trigger] q[i]).contains(c) by {
                if i < p.len() - 1 {
                    assert(q[i] == p[i]);
                } else {
                    assert(!p[p.len() - 1].contains(c));
                    assert(p.last().push(s.last()) == p.last() + seq![s.last()]);
                    lemma_contains_concat(p.last(), seq![s.last()], c);
                    assert(!seq![s.last()].contains(c)) by {
                        assert(seq![s.last()][0] == s.last());
                    }
                }
            }
        }
    }
}

proof fn lemma_split_nonempty(s: Seq<char>, sep: char)
    ensures
        split_on(s, sep).len() >= 1,
    decreases s.len(),
{
    if s.len() > 0 {
        lemma_split_nonempty(s.drop_last(), sep);
    }
}

proof fn lemma_paragraphs_avoid(s: Seq<char>, p: nat, c: char)
    requires
        !s.contains(c),
        p <= s.len(),
    ensures
        pieces_avoid(paragraph_pieces(s, p), c),
    decreases s.len() - p,
{
    assert forall|a: int, b: int| 0 <= a <= b <= s.len() implies !(#[trigger] s.subrange(a, b)).contains(c) by {
        if s.subrange(a, b).contains(c) {
            let j = choose|j: int| 0 <= j < s.subrange(a, b).len() && s.subrange(a, b)[j] == c;
            assert(s[a + j] == c);
        }
    }
    match first_blank_line(s, p) {
        None => {},
        Some(i) => {
            lemma_first_blank_line_bounds(s, p);
            lemma_run_end_bounds(s, i + 2);
            let e = newline_run_end(s, i + 2);
            lemma_paragraphs_avoid(s, e, c);
            let x = s.subrange(p as int, i as int);
            let ps = seq![x] + paragraph_pieces(s, e);
            assert forall|k: int| 0 <= k < ps.len() implies !(#[trigger] ps[k]).contains(c) by {
                if k > 0 {
                    assert(ps[k] == paragraph_pieces(s, e)[k - 1]);
                }
            }
        },
    }
}

/// Every grapheme of every sentence comes from `gs`.
proof fn lemma_sentences_avoid(gs: Seq<Seq<char>>, p: nat, c: char)
    requires
        pieces_avoid(gs, c),
        p <= gs.len(),
    ensures
        forall|k: int| 0 <= k < sentence_pieces(gs, p).len() ==> pieces_avoid(#[trigger] sentence_pieces(gs, p)[k], c),
    decreases gs.len() - p,
{
    assert forall|a: int, b: int| 0 <= a <= b <= gs.len() implies pieces_avoid(#[trigger] gs.subrange(a, b), c) by {
        assert forall|j: int| 0 <= j < gs.subrange(a, b).len() implies !(#[trigger] gs.subrange(a, b)[j]).contains(c) by {
            assert(gs.subrange(a, b)[j] == gs[a + j]);
        }
    }
    match next_sentence_end(gs, p) {
        None => {},
        Some(e) => {
            lemma_next_sentence_end_bounds(gs, p);
            lemma_sentences_avoid(gs, e, c);
            let x = gs.subrange(p as int, e as int);
            let ps = seq![x] + sentence_pieces(gs, e);
            assert forall|k: int| 0 <= k < ps.len() implies pieces_avoid(#[trigger] ps[k], c) by {
                if k > 0 {
                    assert(ps[k] == sentence_pieces(gs, e)[k - 1]);
                }
            }
        },
    }
}

/// Reader segments hold no carriage return, and between them they keep
/// every char of the input that is not white space, in order: only white
/// space (newlines, blank segments) is dropped. For sentences this rests
/// on the grapheme clusters of the normalized text joining back to it, as
/// [`split_graphemes`] states of every string.
pub proof fn law_segments_keep_ink(text: Seq<char>, unit: Unit)
    requires
        unit is Sentence ==> grapheme_clusters(normalize_newlines(text)).flatten() == normalize_newlines(text),
    ensures
        pieces_avoid(segments_of(text, unit), '\r'),
        ink(segments_of(text, unit).flatten()) == ink(text),
{
    let t = normalize_newlines(text);
    law_normalized_has_no_cr(t);
    law_normalized_has_no_cr(text);
    lemma_ink_normalize(text);
    match unit {
        Unit::Sentence => {
            let gs = grapheme_clusters(t);
            let sp = sentence_pieces(gs, 0);
            let ps = piece_texts(sp);
            lemma_flatten_avoids(gs, '\r');
            lemma_sentences_avoid(gs, 0, '\r');
            assert forall|k: int| 0 <= k < ps.len() implies !(#[trigger] ps[k]).contains('\r') by {
                assert(ps[k] == sp[k].flatten());
                lemma_flatten_avoids(sp[k], '\r');
            }
            lemma_keep_avoids(ps, '\r');
            lemma_ink_keep_nonblank(ps);
            lemma_piece_texts_flatten(sp);
            law_sentences_cover_text(gs, 0);
            assert(gs.subrange(0, gs.len() as int) == gs);
        },
        Unit::Paragraph => {
            lemma_paragraphs_avoid(t, 0, '\r');
            lemma_keep_avoids(paragraph_pieces(t, 0), '\r');
            lemma_ink_keep_nonblank(paragraph_pieces(t, 0));
            lemma_ink_paragraphs(t, 0);
            assert(t.subrange(0, t.len() as int) == t);
        },
        Unit::Line => {
            lemma_split_avoids(t, '\n', '\r');
            lemma_keep_avoids(split_on(t, '\n'), '\r');
            lemma_ink_keep_nonblank(split_on(t, '\n'));
            law_lines_rejoin(t);
            assert(is_ws('\n'));
            lemma_ink_join(split_on(t, '\n'), '\n');
        },
    }
}


/// A grapheme that is one of the sentence marks `。！？.!?`.
pub open spec fn is_mark(g: Seq<char>) -> bool {
    g == seq!['。'] || g == seq!['！'] || g == seq!['？'] || g == seq!['.'] || g == seq!['!'] || g
        == seq!['?']
}

proof fn lemma_closers_stop(gs: Seq<Seq<char>>, j: nat, k: nat)
    requires
        j <= k <= gs.len(),
        forall|i: int| j <= i < k ==> is_closer(#[trigger] gs[i]),
        k < gs.len() ==> !is_closer(gs[k as int]),
    ensures
        closers_end(gs, j) == k,
    decreases k - j,
{
    if j < k {
        lemma_closers_stop(gs, j + 1, k);
    }
}

proof fn lemma_no_end_before(gs: Seq<Seq<char>>, p: nat, t: nat)
    requires
        p <= t < gs.len(),
        forall|j: int| p <= j < t ==> !is_mark(#[trigger] gs[j]),
    ensures
        next_sentence_end(gs, p) == next_sentence_end(gs, t),
    decreases t - p,
{
    if p < t {
        assert(!is_mark(gs[p as int]));
        assert(sentence_end_at(gs, p) is None);
        lemma_no_end_before(gs, p + 1, t);
    }
}

/// An English sentence end `.`, `!` or `?`, with any closing brackets or
/// quotes after it, ends a sentence when what follows is white space
/// (any white space: a space, a tab, a newline, ...) or the end of the
/// text. From grapheme `p`, with no sentence mark before that end at `t`,
/// the first sentence is `gs[p .. t + 1 + c]` (`c` the closers), and the
/// sentences go on from there.
pub proof fn law_english_end_before_white_space(gs: Seq<Seq<char>>, p: nat, t: nat, c: nat)
    requires
        p <= t,
        t + 1 + c <= gs.len(),
        forall|j: int| p <= j < t ==> !is_mark(#[trigger] gs[j]),
        gs[t as int] == seq!['.'] || gs[t as int] == seq!['!'] || gs[t as int] == seq!['?'],
        forall|j: int| t + 1 <= j < t + 1 + c ==> is_closer(#[trigger] gs[j]),
        t + 1 + c < gs.len() ==> forall|k: int|
            0 <= k < gs[t + 1 + c as int].len() ==> is_ws(#[trigger] gs[t + 1 + c as int][k]),
    ensures
        sentence_pieces(gs, p) == seq![gs.subrange(p as int, t + 1 + c as int)] + sentence_pieces(
            gs,
            (t + 1 + c) as nat,
        ),
{
    let a = (t + 1 + c) as nat;
    if a < gs.len() {
        let w = gs[a as int];
        if w.len() == 1 {
            assert(is_ws(w[0]));
            assert(!is_closer_char(w[0]));
        }
        assert(!is_closer(w));
        assert(is_blank(w));
    }
    lemma_closers_stop(gs, t + 1, a);
    if t + 1 < gs.len() {
        let n = gs[t + 1 as int];
        if c > 0 {
            assert(is_closer(n));
        } else {
            if n.len() == 1 {
                assert(is_ws(n[0]));
            }
        }
        assert(!is_digit(n));
    }
    assert(sentence_end_at(gs, t) == Some(a));
    lemma_no_end_before(gs, p, t);
    assert(next_sentence_end(gs, t) == Some(a));
}


} // verus!
