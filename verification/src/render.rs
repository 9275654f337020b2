//! Tokenizer and frame builder for the reveal command.
//!
//! Input may already carry ANSI escape sequences (text colored by another
//! tool). It is split into a flat list of [`Token`]s: passthrough CSI
//! escape sequences and printable grapheme clusters. Each animation frame
//! is a pure function of the tokens, how many graphemes are visible and
//! their colors.

use vstd::prelude::*;

use crate::color::Rgb;
use crate::numeral::{all_digits, digit_value, digits_value, is_digit_char};
use crate::text::{
    chars_of, decimal, digit_char, first_grapheme, grapheme_clusters, push_char, push_decimal,
    split_after_chars, byte_len,
};

verus! {

/// One unit of tokenized input.
#[derive(Debug, Clone, PartialEq)]
pub enum Token {
    /// An ANSI CSI escape sequence (`ESC [ ... final`). It takes no reveal
    /// index and is emitted verbatim.
    Escape(String),
    /// A printable grapheme cluster (including `\n`). It takes one reveal
    /// index.
    Grapheme(String),
}

/// What a [`Token`] holds, as chars.
pub enum TokenView {
    /// An escape sequence.
    Escape(Seq<char>),
    /// A grapheme cluster.
    Grapheme(Seq<char>),
}

impl View for Token {
    type V = TokenView;

    open spec fn view(&self) -> TokenView {
        match self {
            Token::Escape(s) => TokenView::Escape(s@),
            Token::Grapheme(s) => TokenView::Grapheme(s@),
        }
    }
}

/// The chars a token stands for.
pub open spec fn token_text(t: TokenView) -> Seq<char> {
    match t {
        TokenView::Escape(s) => s,
        TokenView::Grapheme(s) => s,
    }
}

/// The views of a slice of tokens.
pub open spec fn token_views(ts: Seq<Token>) -> Seq<TokenView> {
    ts.map_values(|t: Token| t@)
}

/// Tokenized input plus whether it already carried escape sequences.
#[derive(Debug, Clone, PartialEq)]
pub struct Tokens {
    /// The tokens, in input order.
    pub tokens: Vec<Token>,
    /// True when at least one escape sequence was present: the input is
    /// already colored and no foreground of our own is imposed.
    pub has_input_color: bool,
}

/// A CSI final byte: `@` through `~`.
pub open spec fn is_final_char(c: char) -> bool {
    0x40 <= (c as u32) <= 0x7e
}

/// Index of the first final char of `s` at or after `j`.
pub open spec fn first_final(s: Seq<char>, j: nat) -> Option<nat>
    decreases s.len() - j,
{
    if j >= s.len() {
        None
    } else if is_final_char(s[j as int]) {
        Some(j)
    } else {
        first_final(s, j + 1)
    }
}

/// Length of the well-formed CSI escape sequence at the start of `s`:
/// `ESC [`, then any chars, up to and including the first final char.
pub open spec fn csi_length(s: Seq<char>) -> Option<nat> {
    if s.len() >= 2 && s[0] == '\x1b' && s[1] == '[' {
        match first_final(s, 2) {
            Some(j) => Some(j + 1),
            None => None,
        }
    } else {
        None
    }
}

/// The tokens of `s`: an escape sequence where one starts, otherwise the
/// first grapheme cluster of what is left. (The second branch of the
/// grapheme case, one char on its own, never arises: a cluster of a
/// non-empty string is a non-empty prefix of it.)
pub open spec fn tokens_of(s: Seq<char>) -> Seq<TokenView>
    decreases s.len(),
{
    if s.len() == 0 {
        seq![]
    } else {
        match csi_length(s) {
            Some(k) => if 0 < k <= s.len() {
                seq![TokenView::Escape(s.subrange(0, k as int))] + tokens_of(s.subrange(k as int, s.len() as int))
            } else {
                seq![]
            },
            None => {
                let g = grapheme_clusters(s)[0];
                if 0 < g.len() <= s.len() && s.subrange(0, g.len() as int) == g {
                    seq![TokenView::Grapheme(g)] + tokens_of(s.subrange(g.len() as int, s.len() as int))
                } else {
                    seq![TokenView::Grapheme(s.subrange(0, 1))] + tokens_of(s.subrange(1, s.len() as int))
                }
            },
        }
    }
}

/// True when some token is an escape sequence.
pub open spec fn has_escape(ts: Seq<TokenView>) -> bool {
    exists|i: int| 0 <= i < ts.len() && ts[i] is Escape
}

proof fn lemma_first_final_found(s: Seq<char>, m: nat, f: nat)
    requires
        m <= f < s.len(),
        is_final_char(s[f as int]),
        forall|k: int| m <= k < f ==> !is_final_char(#[trigger] s[k]),
    ensures
        first_final(s, m) == Some(f),
    decreases f - m,
{
    if m < f {
        lemma_first_final_found(s, m + 1, f);
    }
}

proof fn lemma_first_final_none(s: Seq<char>, m: nat)
    requires
        forall|k: int| m <= k < s.len() ==> !is_final_char(#[trigger] s[k]),
    ensures
        first_final(s, m) is None,
    decreases s.len() - m,
{
    if m < s.len() {
        lemma_first_final_none(s, m + 1);
    }
}

proof fn lemma_csi_length_bounds(s: Seq<char>)
    ensures
        csi_length(s) matches Some(k) ==> 2 < k <= s.len(),
{
    if s.len() >= 2 && s[0] == '\x1b' && s[1] == '[' {
        lemma_first_final_bounds(s, 2);
    }
}

proof fn lemma_first_final_bounds(s: Seq<char>, m: nat)
    ensures
        first_final(s, m) matches Some(j) ==> m <= j < s.len(),
    decreases s.len() - m,
{
    if m < s.len() && !is_final_char(s[m as int]) {
        lemma_first_final_bounds(s, m + 1);
    }
}

/// Index of the first final char of `chars` at or after `from`.
fn find_final(chars: &Vec<char>, from: usize) -> (r: Option<usize>)
    ensures
        r matches Some(j) ==> from <= j < chars@.len() && is_final_char(chars@[j as int])
            && forall|k: int| from <= k < j ==> !is_final_char(#[trigger] chars@[k]),
        r is None ==> forall|k: int| from <= k < chars@.len() ==> !is_final_char(#[trigger] chars@[k]),
{
    let mut j = from;
    while j < chars.len()
        invariant
            from <= j,
            forall|k: int| from <= k < j ==> !is_final_char(#[trigger] chars@[k]),
        decreases chars@.len() - j,
    {
        let code = chars[j] as u32;
        if 0x40 <= code && code <= 0x7e {
            return Some(j);
        }
        j = j + 1;
    }
    None
}

/// Split `input` into escape-sequence and grapheme tokens.
///
/// An escape sequence is `ESC [` followed by any chars up to and including
/// a final char in `@..=~`. A lone or unterminated `ESC` is ordinary
/// text, so nothing is dropped.
pub fn tokenize(input: &str) -> (r: Tokens)
    ensures
        token_views(r.tokens@) == tokens_of(input@),
        r.has_input_color == has_escape(tokens_of(input@)),
{
    let chars = chars_of(input);
    let n = chars.len();
    let mut tokens: Vec<Token> = Vec::new();
    let mut has_input_color = false;
    let mut rest: &str = input;
    let mut i: usize = 0;
    while i < n
        invariant
            n == chars@.len(),
            chars@ == input@,
            i <= n,
            rest@ == input@.subrange(i as int, n as int),
            tokens_of(input@) == token_views(tokens@) + tokens_of(rest@),
            has_input_color == has_escape(token_views(tokens@)),
        decreases n - i,
    {
        let ghost s = rest@;
        proof {
            lemma_csi_length_bounds(s);
        }
        if chars[i] == '\x1b' && i + 1 < n && chars[i + 1] == '[' {
            let found_at = find_final(&chars, i + 2);
            if let Some(j) = found_at {
                proof {
                    assert forall|k: int| 2 <= k < (j - i) implies !is_final_char(#[trigger] s[k]) by {
                        assert(chars@[i + k] == s[k]);
                        assert(s[k] == chars@[i + k]);
                    }
                    lemma_first_final_found(s, 2, (j - i) as nat);
                }
                let mut esc = String::new();
                let mut k = i;
                while k <= j
                    invariant
                        n == chars@.len(),
                        i <= k <= j + 1,
                        j < n,
                        esc@ == chars@.subrange(i as int, k as int),
                    decreases j + 1 - k,
                {
                    push_char(&mut esc, chars[k]);
                    proof {
                        assert(chars@.subrange(i as int, k + 1) == chars@.subrange(i as int, k as int).push(chars@[k as int]));
                    }
                    k = k + 1;
                }
                let ghost len = (j + 1 - i) as int;
                assert(esc@ == s.subrange(0, len));
                let nbytes = byte_len(esc.as_str());
                let (_, tail) = split_after_chars(rest, Ghost(len), nbytes);
                let ghost before = token_views(tokens@);
                tokens.push(Token::Escape(esc));
                proof {
                    assert(token_views(tokens@) == before.push(TokenView::Escape(s.subrange(0, len))));
                    assert(tokens_of(s) == seq![TokenView::Escape(s.subrange(0, len))] + tokens_of(tail@));
                    assert(token_views(tokens@)[token_views(tokens@).len() - 1] is Escape);
                }
                has_input_color = true;
                assert(has_escape(token_views(tokens@)));
                rest = tail;
                i = j + 1;
                proof {
                    assert(rest@ == input@.subrange(i as int, n as int));
                }
                continue;
            } else {
                proof {
                    assert forall|k: int| 2 <= k < s.len() implies !is_final_char(#[trigger] s[k]) by {
                        assert(s[k] == chars@[i + k]);
                    }
                    lemma_first_final_none(s, 2);
                }
            }
        }
        assert(csi_length(s) is None);
        {
            {
                let g = first_grapheme(rest).unwrap();
                let ghost glen = g@.len() as int;
                let nbytes = byte_len(g.as_str());
                let (_, tail) = split_after_chars(rest, Ghost(glen), nbytes);
                let gchars = g.as_str().unicode_len();
                let ghost before = token_views(tokens@);
                tokens.push(Token::Grapheme(g));
                proof {
                    assert(token_views(tokens@) == before.push(TokenView::Grapheme(g@)));
                    assert(tokens_of(s) == seq![TokenView::Grapheme(g@)] + tokens_of(tail@));
                    if has_escape(token_views(tokens@)) {
                        let w = choose|w: int| 0 <= w < token_views(tokens@).len() && token_views(tokens@)[w] is Escape;
                        assert(w < before.len());
                        assert(before[w] is Escape);
                    }
                    if has_escape(before) {
                        let w = choose|w: int| 0 <= w < before.len() && before[w] is Escape;
                        assert(token_views(tokens@)[w] is Escape);
                    }
                }
                rest = tail;
                i = i + gchars;
                proof {
                    assert(rest@ == input@.subrange(i as int, n as int));
                }
            }
        }
    }
    proof {
        assert(rest@.len() == 0);
    }
    Tokens { tokens, has_input_color }
}

/// The text shown for the graphemes of `ts`, escapes left out.
pub open spec fn plain_of(ts: Seq<TokenView>) -> Seq<char>
    decreases ts.len(),
{
    if ts.len() == 0 {
        seq![]
    } else {
        plain_of(ts.drop_last()) + match ts.last() {
            TokenView::Grapheme(g) => g,
            TokenView::Escape(_) => seq![],
        }
    }
}

/// The chars of all tokens of `ts`, in order.
pub open spec fn text_of(ts: Seq<TokenView>) -> Seq<char>
    decreases ts.len(),
{
    if ts.len() == 0 {
        seq![]
    } else {
        token_text(ts[0]) + text_of(ts.drop_first())
    }
}

/// The plain (escape-free) text used to drive reveal timing.
pub fn plain_text(tokens: &Tokens) -> (s: String)
    ensures
        s@ == plain_of(token_views(tokens.tokens@)),
{
    let mut out = String::new();
    let mut i: usize = 0;
    while i < tokens.tokens.len()
        invariant
            i <= tokens.tokens@.len(),
            out@ == plain_of(token_views(tokens.tokens@).take(i as int)),
        decreases tokens.tokens@.len() - i,
    {
        let ghost ts = token_views(tokens.tokens@);
        proof {
            assert(ts.take(i + 1).drop_last() == ts.take(i as int));
        }
        match &tokens.tokens[i] {
            Token::Grapheme(g) => {
                out.append(g.as_str());
            },
            Token::Escape(_) => {},
        }
        i = i + 1;
    }
    proof {
        assert(token_views(tokens.tokens@).take(i as int) == token_views(tokens.tokens@));
    }
    out
}

/// Number of grapheme tokens in `ts`.
pub open spec fn grapheme_count(ts: Seq<TokenView>) -> nat
    decreases ts.len(),
{
    if ts.len() == 0 {
        0
    } else {
        grapheme_count(ts.drop_last()) + if ts.last() is Grapheme { 1nat } else { 0nat }
    }
}

/// Index just past the last grapheme of `ts` that is among the first `k`
/// graphemes; zero when none is. Escapes after it are not shown.
pub open spec fn cut(ts: Seq<TokenView>, k: nat) -> nat
    decreases ts.len(),
{
    if ts.len() == 0 {
        0
    } else if ts.last() is Grapheme && grapheme_count(ts.drop_last()) < k {
        ts.len()
    } else {
        cut(ts.drop_last(), k)
    }
}

/// The SGR sequence that sets a 24-bit foreground color.
pub open spec fn sgr_foreground(c: Rgb) -> Seq<char> {
    "\x1b[38;2;"@ + decimal(c.0 as nat) + ";"@ + decimal(c.1 as nat) + ";"@ + decimal(c.2 as nat) + "m"@
}

/// What one token contributes to a frame; `gi` is the grapheme's index
/// among the graphemes.
pub open spec fn piece(t: TokenView, gi: nat, colors: Seq<Rgb>, has_input_color: bool) -> Seq<char> {
    match t {
        TokenView::Escape(e) => e,
        TokenView::Grapheme(g) => if !has_input_color && gi < colors.len() {
            sgr_foreground(colors[gi as int]) + g
        } else {
            g
        },
    }
}

/// The contributions of the first `u` tokens.
pub open spec fn emit(ts: Seq<TokenView>, u: nat, colors: Seq<Rgb>, has_input_color: bool) -> Seq<char>
    decreases u,
{
    if u == 0 || u > ts.len() {
        seq![]
    } else {
        emit(ts, (u - 1) as nat, colors, has_input_color) + piece(
            ts[u - 1],
            grapheme_count(ts.take(u - 1)),
            colors,
            has_input_color,
        )
    }
}

/// The SGR reset sequence that ends every frame.
pub open spec fn reset() -> Seq<char> {
    "\x1b[0m"@
}

/// One frame: the tokens up to the last visible grapheme, each grapheme
/// preceded by its color unless the input is already colored, then a reset.
pub open spec fn frame_of(ts: Seq<TokenView>, k: nat, colors: Seq<Rgb>, has_input_color: bool) -> Seq<char> {
    emit(ts, cut(ts, k), colors, has_input_color) + reset()
}

proof fn lemma_take_drop_last(ts: Seq<TokenView>, i: int)
    requires
        0 <= i < ts.len(),
    ensures
        ts.take(i + 1).drop_last() == ts.take(i),
        ts.take(i + 1).last() == ts[i],
{
    assert(ts.take(i + 1).drop_last() == ts.take(i));
}

proof fn lemma_grapheme_count_mono(ts: Seq<TokenView>, a: int, b: int)
    requires
        0 <= a <= b <= ts.len(),
    ensures
        grapheme_count(ts.take(a)) <= grapheme_count(ts.take(b)),
    decreases b - a,
{
    if a < b {
        lemma_take_drop_last(ts, b - 1);
        lemma_grapheme_count_mono(ts, a, b - 1);
    }
}

proof fn lemma_cut_stops(ts: Seq<TokenView>, k: nat, m: int)
    requires
        0 <= m <= ts.len(),
        grapheme_count(ts.take(m)) >= k,
    ensures
        cut(ts, k) == cut(ts.take(m), k),
    decreases ts.len() - m,
{
    if m < ts.len() {
        let d = ts.drop_last();
        assert(d.take(m) == ts.take(m));
        assert(ts.take(ts.len() - 1) == d);
        lemma_grapheme_count_mono(ts, m, ts.len() - 1);
        lemma_cut_stops(d, k, m);
    } else {
        assert(ts.take(m) == ts);
    }
}

proof fn lemma_cut_last(ts: Seq<TokenView>, k: nat)
    ensures
        cut(ts, k) <= ts.len(),
        cut(ts, k) > 0 ==> ts[cut(ts, k) - 1] is Grapheme && grapheme_count(ts.take(cut(ts, k) - 1)) < k,
    decreases ts.len(),
{
    if ts.len() > 0 {
        let d = ts.drop_last();
        assert(ts.take(ts.len() - 1) == d);
        if !(ts.last() is Grapheme && grapheme_count(d) < k) {
            lemma_cut_last(d, k);
            let c = cut(d, k);
            if c > 0 {
                assert(d.take(c - 1) == ts.take(c - 1));
            }
        }
    }
}

/// Build one frame string.
///
/// The first `visible_count` graphemes are shown; `colors[i]` is the
/// foreground of the `i`-th grapheme, used only when the input carries no
/// color of its own (a missing entry means no foreground). Escapes are
/// emitted while a visible grapheme still follows them. The frame always
/// ends with a reset (`ESC [0m`).
pub fn render_frame(tokens: &[Token], visible_count: usize, colors: &[Rgb], has_input_color: bool) -> (f: String)
    ensures
        f@ == frame_of(token_views(tokens@), visible_count as nat, colors@, has_input_color),
{
    let ghost ts = token_views(tokens@);
    let ghost k = visible_count as nat;
    assert(ts.len() == tokens@.len());
    assert(ts.take(ts.len() as int) == ts);
    let n = tokens.len();
    // index just past the last grapheme to show
    let mut last_visible: usize = 0;
    let mut seen: usize = 0;
    let mut idx: usize = 0;
    while idx < n
        invariant_except_break
            n == ts.len(),
            ts == token_views(tokens@),
            k == visible_count as nat,
            n == tokens@.len(),
            ts.take(n as int) == ts,
            idx <= n,
            seen == grapheme_count(ts.take(idx as int)),
            seen <= visible_count,
            last_visible == cut(ts.take(idx as int), k),
        ensures
            last_visible == cut(ts, k),
        decreases n - idx,
    {
        proof {
            lemma_take_drop_last(ts, idx as int);
            assert(ts[idx as int] == tokens@[idx as int]@);
        }
        if let Token::Grapheme(_) = &tokens[idx] {
            if seen < visible_count {
                last_visible = idx + 1;
                seen = seen + 1;
            } else {
                proof {
                    lemma_cut_stops(ts, k, idx as int);
                }
                break;
            }
        }
        idx = idx + 1;
    }
    proof {
        if idx == n {
            assert(ts.take(n as int) == ts);
        }
        lemma_cut_last(ts, k);
    }
    let mut out = String::new();
    let mut grapheme_idx: usize = 0;
    let mut idx: usize = 0;
    while idx < last_visible
        invariant
            n == ts.len(),
            ts == token_views(tokens@),
            k == visible_count as nat,
            n == tokens@.len(),
            last_visible == cut(ts, k),
            last_visible <= n,
            last_visible > 0 ==> grapheme_count(ts.take(last_visible - 1)) < k,
            idx <= last_visible,
            grapheme_idx == grapheme_count(ts.take(idx as int)),
            out@ == emit(ts, idx as nat, colors@, has_input_color),
        decreases last_visible - idx,
    {
        proof {
            lemma_take_drop_last(ts, idx as int);
            lemma_grapheme_count_mono(ts, idx as int, last_visible - 1);
            assert(ts[idx as int] == tokens@[idx as int]@);
        }
        match &tokens[idx] {
            Token::Escape(seq) => {
                out.append(seq.as_str());
            },
            Token::Grapheme(g) => {
                if grapheme_idx < visible_count {
                    if !has_input_color && grapheme_idx < colors.len() {
                        let c = colors[grapheme_idx];
                        out.append("\x1b[38;2;");
                        push_decimal(&mut out, c.0 as u64);
                        out.append(";");
                        push_decimal(&mut out, c.1 as u64);
                        out.append(";");
                        push_decimal(&mut out, c.2 as u64);
                        out.append("m");
                    }
                    out.append(g.as_str());
                    grapheme_idx = grapheme_idx + 1;
                }
            },
        }
        idx = idx + 1;
    }
    out.append("\x1b[0m");
    out
}

/// Rows taken by `\n` among the first `k` graphemes of `ts`.
pub open spec fn newline_rows(ts: Seq<TokenView>, k: nat) -> nat
    decreases ts.len(),
{
    if ts.len() == 0 {
        0
    } else {
        match ts[0] {
            TokenView::Escape(_) => newline_rows(ts.drop_first(), k),
            TokenView::Grapheme(g) => if k == 0 {
                0
            } else {
                (if g == seq!['\n'] { 1nat } else { 0nat }) + newline_rows(ts.drop_first(), (k - 1) as nat)
            },
        }
    }
}

/// True when `s` is exactly a newline.
fn is_newline(s: &str) -> (b: bool)
    ensures
        b == (s@ == seq!['\n']),
{
    if s.unicode_len() != 1 {
        return false;
    }
    let c = s.get_char(0);
    proof {
        if c == '\n' {
            assert(s@ == seq!['\n']);
        }
    }
    c == '\n'
}

/// Count the newlines among the first `visible_count` printable graphemes:
/// the rows the previous frame occupied.
pub fn visible_newline_rows(tokens: &[Token], visible_count: usize) -> (rows: usize)
    ensures
        rows == newline_rows(token_views(tokens@), visible_count as nat),
{
    let ghost ts = token_views(tokens@);
    assert(ts.len() == tokens@.len());
    assert(ts.skip(0) == ts);
    let mut seen: usize = 0;
    let mut rows: usize = 0;
    let mut idx: usize = 0;
    while idx < tokens.len()
        invariant_except_break
            idx <= tokens@.len(),
            ts.len() == tokens@.len(),
            ts == token_views(tokens@),
            seen <= visible_count,
            rows <= idx,
            rows + newline_rows(ts.skip(idx as int), (visible_count - seen) as nat) == newline_rows(ts, visible_count as nat),
        ensures
            rows == newline_rows(ts, visible_count as nat),
        decreases tokens@.len() - idx,
    {
        proof {
            assert(ts[idx as int] == tokens@[idx as int]@);
            assert(ts.skip(idx as int).drop_first() == ts.skip(idx + 1));
            assert(ts.skip(idx as int)[0] == ts[idx as int]);
        }
        if let Token::Grapheme(g) = &tokens[idx] {
            if seen >= visible_count {
                assert(newline_rows(ts.skip(idx as int), 0) == 0);
                break;
            }
            if is_newline(g.as_str()) {
                rows = rows + 1;
            }
            seen = seen + 1;
        }
        idx = idx + 1;
    }
    proof {
        if idx == tokens@.len() {
            assert(ts.skip(idx as int).len() == 0);
        }
    }
    rows
}

/// Tokenizing never loses input: the tokens, joined in order, give back
/// the input exactly.
pub proof fn law_tokenize_is_lossless(s: Seq<char>)
    ensures
        text_of(tokens_of(s)) == s,
    decreases s.len(),
{
    if s.len() > 0 {
        let ts = tokens_of(s);
        match csi_length(s) {
            Some(k) => {
                lemma_csi_length_bounds(s);
                let rest = s.subrange(k as int, s.len() as int);
                law_tokenize_is_lossless(rest);
                assert(ts.drop_first() == tokens_of(rest));
                assert(s.subrange(0, k as int) + rest == s);
            },
            None => {
                let g = grapheme_clusters(s)[0];
                if 0 < g.len() <= s.len() && s.subrange(0, g.len() as int) == g {
                    let rest = s.subrange(g.len() as int, s.len() as int);
                    law_tokenize_is_lossless(rest);
                    assert(ts.drop_first() == tokens_of(rest));
                    assert(g + rest == s);
                } else {
                    let rest = s.subrange(1, s.len() as int);
                    law_tokenize_is_lossless(rest);
                    assert(ts.drop_first() == tokens_of(rest));
                    assert(s.subrange(0, 1) + rest == s);
                }
            },
        }
    }
}

proof fn lemma_plain_prepend(t: TokenView, ts: Seq<TokenView>)
    ensures
        plain_of(seq![t] + ts) == (match t {
            TokenView::Grapheme(g) => g,
            TokenView::Escape(_) => seq![],
        }) + plain_of(ts),
    decreases ts.len(),
{
    if ts.len() > 0 {
        lemma_plain_prepend(t, ts.drop_last());
        assert((seq![t] + ts).drop_last() == seq![t] + ts.drop_last());
    } else {
        assert((seq![t] + ts).drop_last() == ts);
    }
}

/// Text without escape sequences drives the reveal unchanged: the plain
/// text of its tokens is the text itself.
pub proof fn law_plain_text_of_escape_free_input(s: Seq<char>)
    requires
        !has_escape(tokens_of(s)),
    ensures
        plain_of(tokens_of(s)) == s,
{
    law_tokenize_is_lossless(s);
    lemma_plain_is_text(tokens_of(s));
}

proof fn lemma_plain_is_text(ts: Seq<TokenView>)
    requires
        !has_escape(ts),
    ensures
        plain_of(ts) == text_of(ts),
    decreases ts.len(),
{
    if ts.len() > 0 {
        let r = ts.drop_first();
        assert forall|i: int| 0 <= i < r.len() implies !(r[i] is Escape) by {
            assert(r[i] == ts[i + 1]);
        }
        lemma_plain_is_text(r);
        assert(ts == seq![ts[0]] + r);
        lemma_plain_prepend(ts[0], r);
        assert(!(ts[0] is Escape));
    }
}

/// Every frame ends with the SGR reset.
pub proof fn law_frame_ends_with_reset(ts: Seq<TokenView>, k: nat, colors: Seq<Rgb>, has_input_color: bool)
    ensures
        frame_of(ts, k, colors, has_input_color).len() >= reset().len(),
        frame_of(ts, k, colors, has_input_color).subrange(
            frame_of(ts, k, colors, has_input_color).len() - reset().len(),
            frame_of(ts, k, colors, has_input_color).len() as int,
        ) == reset(),
{
    let e = emit(ts, cut(ts, k), colors, has_input_color);
    assert((e + reset()).subrange(e.len() as int, (e + reset()).len() as int) == reset());
}

proof fn lemma_emit_ignores_colors(ts: Seq<TokenView>, u: nat, c1: Seq<Rgb>, c2: Seq<Rgb>)
    ensures
        emit(ts, u, c1, true) == emit(ts, u, c2, true),
    decreases u,
{
    if u > 0 && u <= ts.len() {
        lemma_emit_ignores_colors(ts, (u - 1) as nat, c1, c2);
    }
}

/// When the input already carries color, the colors passed in are never
/// used: no foreground of our own is injected.
pub proof fn law_input_color_ignores_colors(ts: Seq<TokenView>, k: nat, c1: Seq<Rgb>, c2: Seq<Rgb>)
    ensures
        frame_of(ts, k, c1, true) == frame_of(ts, k, c2, true),
{
    lemma_emit_ignores_colors(ts, cut(ts, k), c1, c2);
}

proof fn lemma_cut_zero(ts: Seq<TokenView>)
    ensures
        cut(ts, 0) == 0,
    decreases ts.len(),
{
    if ts.len() > 0 {
        lemma_cut_zero(ts.drop_last());
    }
}

/// With nothing visible, a frame is only the reset.
pub proof fn law_nothing_visible_is_reset(ts: Seq<TokenView>, colors: Seq<Rgb>, has_input_color: bool)
    ensures
        frame_of(ts, 0, colors, has_input_color) == reset(),
{
    lemma_cut_zero(ts);
    assert(seq![] + reset() == reset());
}

/// The rows of a frame never exceed the graphemes it shows.
pub proof fn law_rows_at_most_visible(ts: Seq<TokenView>, k: nat)
    ensures
        newline_rows(ts, k) <= k,
    decreases ts.len(),
{
    if ts.len() > 0 {
        match ts[0] {
            TokenView::Escape(_) => law_rows_at_most_visible(ts.drop_first(), k),
            TokenView::Grapheme(_) => if k > 0 {
                law_rows_at_most_visible(ts.drop_first(), (k - 1) as nat);
            },
        }
    }
}

/// Joining tokens one more token at the end appends its text.
proof fn lemma_text_push(a: Seq<TokenView>, t: TokenView)
    ensures
        text_of(a.push(t)) == text_of(a) + token_text(t),
    decreases a.len(),
{
    if a.len() == 0 {
        assert(a.push(t).drop_first() == Seq::<TokenView>::empty());
        assert(a.push(t)[0] == t);
        assert(text_of(Seq::<TokenView>::empty()) == Seq::<char>::empty());
        assert(text_of(a.push(t)) =~= text_of(a) + token_text(t));
    } else {
        lemma_text_push(a.drop_first(), t);
        assert(a.push(t).drop_first() == a.drop_first().push(t));
        assert(a.push(t)[0] == a[0]);
        let h = token_text(a[0]);
        let m = text_of(a.drop_first());
        assert(text_of(a.push(t)) == h + (m + token_text(t)));
        assert(text_of(a) == h + m);
        assert(h + (m + token_text(t)) =~= (h + m) + token_text(t));
    }
}

/// Without colors of our own, the first `u` tokens are emitted verbatim.
proof fn lemma_emit_verbatim(ts: Seq<TokenView>, u: nat, colors: Seq<Rgb>)
    requires
        u <= ts.len(),
    ensures
        emit(ts, u, colors, true) == text_of(ts.take(u as int)),
    decreases u,
{
    if u == 0 {
        assert(ts.take(0) == Seq::<TokenView>::empty());
    } else {
        lemma_emit_verbatim(ts, (u - 1) as nat, colors);
        assert(ts.take(u as int) == ts.take(u - 1).push(ts[u - 1]));
        lemma_text_push(ts.take(u - 1), ts[u - 1]);
    }
}

/// When the input already carries color, a frame is the input itself, up
/// to its last visible grapheme, followed by the reset.
pub proof fn law_colored_frame_is_input_prefix(ts: Seq<TokenView>, k: nat, colors: Seq<Rgb>)
    ensures
        frame_of(ts, k, colors, true) == text_of(ts.take(cut(ts, k) as int)) + reset(),
{
    lemma_cut_last(ts, k);
    lemma_emit_verbatim(ts, cut(ts, k), colors);
}

proof fn lemma_cut_mono(ts: Seq<TokenView>, k1: nat, k2: nat)
    requires
        k1 <= k2,
    ensures
        cut(ts, k1) <= cut(ts, k2),
    decreases ts.len(),
{
    if ts.len() > 0 {
        let d = ts.drop_last();
        lemma_cut_mono(d, k1, k2);
        lemma_cut_last(d, k1);
    }
}

proof fn lemma_cut_saturates(ts: Seq<TokenView>, k: nat)
    requires
        k >= grapheme_count(ts),
    ensures
        cut(ts, k) == cut(ts, grapheme_count(ts)),
    decreases ts.len(),
{
    if ts.len() > 0 {
        let d = ts.drop_last();
        if !(ts.last() is Grapheme) {
            lemma_cut_saturates(d, k);
        }
    }
}

proof fn lemma_emit_prefix(ts: Seq<TokenView>, u1: nat, u2: nat, colors: Seq<Rgb>, has_input_color: bool)
    requires
        u1 <= u2 <= ts.len(),
    ensures
        emit(ts, u1, colors, has_input_color).len() <= emit(ts, u2, colors, has_input_color).len(),
        emit(ts, u2, colors, has_input_color).take(emit(ts, u1, colors, has_input_color).len() as int)
            == emit(ts, u1, colors, has_input_color),
    decreases u2,
{
    let e1 = emit(ts, u1, colors, has_input_color);
    if u1 < u2 {
        lemma_emit_prefix(ts, u1, (u2 - 1) as nat, colors, has_input_color);
        let a = emit(ts, (u2 - 1) as nat, colors, has_input_color);
        let p = piece(ts[u2 - 1], grapheme_count(ts.take(u2 - 1)), colors, has_input_color);
        assert((a + p).take(e1.len() as int) =~= a.take(e1.len() as int));
    } else {
        assert(e1.take(e1.len() as int) =~= e1);
    }
}

/// A frame without its closing reset.
pub open spec fn frame_body(ts: Seq<TokenView>, k: nat, colors: Seq<Rgb>, has_input_color: bool) -> Seq<char> {
    emit(ts, cut(ts, k), colors, has_input_color)
}

/// Revealing more only appends: with its reset taken off, the frame for
/// `k1` visible graphemes is a prefix of the frame for any `k2 >= k1`.
pub proof fn law_frames_grow_by_appending(
    ts: Seq<TokenView>,
    k1: nat,
    k2: nat,
    colors: Seq<Rgb>,
    has_input_color: bool,
)
    requires
        k1 <= k2,
    ensures
        frame_of(ts, k1, colors, has_input_color) == frame_body(ts, k1, colors, has_input_color) + reset(),
        frame_of(ts, k2, colors, has_input_color) == frame_body(ts, k2, colors, has_input_color) + reset(),
        frame_body(ts, k1, colors, has_input_color).len() <= frame_body(ts, k2, colors, has_input_color).len(),
        frame_body(ts, k2, colors, has_input_color).take(
            frame_body(ts, k1, colors, has_input_color).len() as int,
        ) == frame_body(ts, k1, colors, has_input_color),
{
    lemma_cut_mono(ts, k1, k2);
    lemma_cut_last(ts, k2);
    lemma_emit_prefix(ts, cut(ts, k1), cut(ts, k2), colors, has_input_color);
}

/// Once every grapheme is visible the frame stops changing: asking for
/// more than the grapheme count gives the frame for the count itself.
pub proof fn law_frames_stop_at_grapheme_count(
    ts: Seq<TokenView>,
    k: nat,
    colors: Seq<Rgb>,
    has_input_color: bool,
)
    requires
        k >= grapheme_count(ts),
    ensures
        frame_of(ts, k, colors, has_input_color) == frame_of(ts, grapheme_count(ts), colors, has_input_color),
{
    lemma_cut_saturates(ts, k);
}

/// The decimal numeral of `n` is a numeral for `n`: all digits, with the
/// value `n`, and no leading zero unless it is `0` itself.
pub proof fn law_decimal_spells_value(n: nat)
    ensures
        decimal(n).len() > 0,
        all_digits(decimal(n)),
        digits_value(decimal(n)) == n,
        decimal(n)[0] == '0' ==> n == 0,
    decreases n,
{
    lemma_digit_char_value(n % 10);
    if n < 10 {
        let e = seq![digit_char(n)];
        assert(e.drop_last() == Seq::<char>::empty());
        assert(digits_value(e) == digits_value(Seq::<char>::empty()) * 10 + digit_value(e.last()));
    } else {
        law_decimal_spells_value(n / 10);
        let d = decimal(n / 10);
        let e = d.push(digit_char(n % 10));
        assert(e.drop_last() == d);
        assert(digits_value(e) == digits_value(d) * 10 + digit_value(digit_char(n % 10)));
        assert(n == (n / 10) * 10 + n % 10);
        assert(e[0] == d[0]);
        assert forall|i: int| 0 <= i < e.len() implies is_digit_char(#[trigger] e[i]) by {
            if i < d.len() {
                assert(e[i] == d[i]);
            }
        }
    }
}

proof fn lemma_digit_char_value(d: nat)
    requires
        d < 10,
    ensures
        is_digit_char(digit_char(d)),
        digit_value(digit_char(d)) == d,
        digit_char(d) == '0' <==> d == 0,
{
}

/// A colored grapheme is preceded by the 24-bit foreground SGR with each
/// channel written out in full as a decimal numeral of its value: a
/// single visible grapheme `g` with color `c` is drawn as
/// `ESC[38;2;<r>;<g>;<b>m` `g` `ESC[0m`, `<r>`, `<g>`, `<b>` numerals of
/// `c.0`, `c.1`, `c.2`.
pub proof fn law_colored_grapheme_frame(g: Seq<char>, c: Rgb, rest: Seq<Rgb>)
    ensures
        frame_of(seq![TokenView::Grapheme(g)], 1, seq![c] + rest, false) == "\x1b[38;2;"@ + decimal(
            c.0 as nat,
        ) + ";"@ + decimal(c.1 as nat) + ";"@ + decimal(c.2 as nat) + "m"@ + g + "\x1b[0m"@,
        digits_value(decimal(c.0 as nat)) == c.0,
        digits_value(decimal(c.1 as nat)) == c.1,
        digits_value(decimal(c.2 as nat)) == c.2,
        all_digits(decimal(c.0 as nat)) && all_digits(decimal(c.1 as nat)) && all_digits(
            decimal(c.2 as nat),
        ),
{
    law_decimal_spells_value(c.0 as nat);
    law_decimal_spells_value(c.1 as nat);
    law_decimal_spells_value(c.2 as nat);
    let ts = seq![TokenView::Grapheme(g)];
    let colors = seq![c] + rest;
    assert(ts.drop_last() == Seq::<TokenView>::empty());
    assert(grapheme_count(Seq::<TokenView>::empty()) == 0);
    assert(cut(ts, 1) == 1);
    assert(ts.take(0) == Seq::<TokenView>::empty());
    assert(colors[0] == c);
    assert(emit(ts, 0, colors, false) == Seq::<char>::empty());
    assert(emit(ts, 1, colors, false) == Seq::<char>::empty() + piece(ts[0], 0, colors, false));
    assert(Seq::<char>::empty() + piece(ts[0], 0, colors, false) == piece(ts[0], 0, colors, false));
}

/// Every char from `@` (0x40) through `~` (0x7e) ends a CSI sequence:
/// `ESC [`, parameter chars `p` none of which is in that range, then such
/// a final char `f`, is one escape token, and tokenizing goes on after it.
pub proof fn law_csi_ends_at_final_char(p: Seq<char>, f: char, rest: Seq<char>)
    requires
        forall|i: int| 0 <= i < p.len() ==> !(0x40 <= (#[trigger] p[i] as u32) <= 0x7e),
        0x40 <= (f as u32) <= 0x7e,
    ensures
        tokens_of(seq!['\x1b', '['] + p + seq![f] + rest) == seq![
            TokenView::Escape(seq!['\x1b', '['] + p + seq![f]),
        ] + tokens_of(rest),
{
    let e = seq!['\x1b', '['] + p + seq![f];
    let s = e + rest;
    assert forall|j: int| 2 <= j < 2 + p.len() implies !is_final_char(#[trigger] s[j]) by {
        assert(s[j] == p[j - 2]);
    }
    assert(s[2 + p.len() as int] == f);
    lemma_first_final_skips(s, 2, (2 + p.len()) as nat);
    assert(s[0] == '\x1b' && s[1] == '[');
    assert(csi_length(s) == Some((3 + p.len()) as nat));
    assert(s.subrange(0, 3 + p.len() as int) == e);
    assert(s.subrange(3 + p.len() as int, s.len() as int) == rest);
}

proof fn lemma_first_final_skips(s: Seq<char>, j: nat, k: nat)
    requires
        j <= k < s.len(),
        is_final_char(s[k as int]),
        forall|i: int| j <= i < k ==> !is_final_char(#[trigger] s[i]),
    ensures
        first_final(s, j) == Some(k),
    decreases k - j,
{
    if j < k {
        lemma_first_final_skips(s, j + 1, k);
    }
}


} // verus!
