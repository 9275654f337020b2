//! What the reveal command writes to the terminal: whether to animate at
//! all, the text of each in-place frame (erasing the previous one first),
//! the final frame left in scrollback, the pause between frames, and the
//! verbatim pass-through used for pipes.
//!
//! The caller owns the loop: it reads the clock, asks the reveal what is
//! visible, writes what these functions return and sleeps.

use vstd::prelude::*;

use crate::color::Rgb;
use crate::render::{
    frame_of, newline_rows, plain_of, plain_text, render_frame, token_views, tokenize, tokens_of,
    visible_newline_rows, Token, TokenView,
};
use crate::text::{all_whitespace, decimal, is_blank, push_char, push_decimal};
use crate::time::Duration;

verus! {

/// Animate only on a terminal, and only when a fade or a stagger was
/// asked for; otherwise the input passes through verbatim.
pub fn should_animate(fade: Duration, stagger: Duration, is_tty: bool) -> (b: bool)
    ensures
        b == (is_tty && !(fade@ == 0 && stagger@ == 0)),
{
    is_tty && !(fade.is_zero() && stagger.is_zero())
}

/// What the command does with its input.
#[derive(Debug, Clone, Copy, PartialEq, Eq, Structural)]
pub enum OutputMode {
    /// Write the input verbatim (with a trailing newline).
    Passthrough,
    /// Reveal the whole input in place.
    Animate,
    /// Reveal one segment at a time, waiting for Enter in between.
    Reader,
}

/// Input with no grapheme to show (empty, or escape sequences only) is
/// passed through verbatim, so its escapes are not swallowed. Otherwise
/// reader mode needs a terminal on stdout and a readable controlling
/// terminal for keypresses, falling back to pass-through without them, and
/// the input is animated exactly when [`should_animate`] says so.
pub open spec fn mode_of(
    read: bool,
    fade: nat,
    stagger: nat,
    is_tty: bool,
    keys: bool,
    has_text: bool,
) -> OutputMode {
    if !has_text {
        OutputMode::Passthrough
    } else if read {
        if is_tty && keys {
            OutputMode::Reader
        } else {
            OutputMode::Passthrough
        }
    } else if is_tty && !(fade == 0 && stagger == 0) {
        OutputMode::Animate
    } else {
        OutputMode::Passthrough
    }
}

/// The input has a grapheme to show: its plain text is not empty.
pub open spec fn has_text(input: Seq<char>) -> bool {
    plain_of(tokens_of(input)).len() > 0
}

/// Chooses what to do with `input`: `read` is reader mode, `is_tty`
/// whether stdout is a terminal, `keys` whether keypresses can be read
/// from the controlling terminal.
pub fn output_mode(
    read: bool,
    fade: Duration,
    stagger: Duration,
    is_tty: bool,
    keys: bool,
    input: &str,
) -> (m: OutputMode)
    ensures
        m == mode_of(read, fade@, stagger@, is_tty, keys, has_text(input@)),
{
    let tokens = tokenize(input);
    let plain = plain_text(&tokens);
    if plain.unicode_len() == 0 {
        OutputMode::Passthrough
    } else if read {
        if is_tty && keys {
            OutputMode::Reader
        } else {
            OutputMode::Passthrough
        }
    } else if should_animate(fade, stagger, is_tty) {
        OutputMode::Animate
    } else {
        OutputMode::Passthrough
    }
}

/// The input as passed through: verbatim, with a trailing newline added
/// when it lacks one.
pub open spec fn passthrough_of(input: Seq<char>) -> Seq<char> {
    if input.len() > 0 && input.last() == '\n' {
        input
    } else {
        input.push('\n')
    }
}

/// The text written for the non-terminal or no-animation path.
pub fn passthrough_text(input: &str) -> (r: String)
    ensures
        r@ == passthrough_of(input@),
{
    let mut out = String::from_str(input);
    let n = input.unicode_len();
    if n == 0 || input.get_char(n - 1) != '\n' {
        push_char(&mut out, '\n');
    }
    out
}

/// Moves the cursor up `n` rows (`ESC [ n A`); nothing for zero rows.
pub open spec fn cursor_up(n: nat) -> Seq<char> {
    if n > 0 {
        seq!['\x1b', '['] + decimal(n) + seq!['A']
    } else {
        seq![]
    }
}

/// Erases a frame that took `rows` rows: back up over them, go to column
/// 0, clear to the end of the screen.
pub open spec fn erase_of(rows: nat) -> Seq<char> {
    cursor_up(rows) + seq!['\r', '\x1b', '[', 'J']
}

/// Appends [`erase_of`].
fn push_erase(out: &mut String, rows: usize)
    ensures
        final(out)@ == old(out)@ + erase_of(rows as nat),
{
    if rows > 0 {
        push_char(out, '\x1b');
        push_char(out, '[');
        push_decimal(out, rows as u64);
        push_char(out, 'A');
    }
    push_char(out, '\r');
    push_char(out, '\x1b');
    push_char(out, '[');
    push_char(out, 'J');
    assert(final(out)@ =~= old(out)@ + erase_of(rows as nat));
}

/// One in-place animation frame: erase the previous frame (`prev_rows`
/// rows), then draw the first `visible` graphemes in `colors`. Also
/// returns the rows this frame takes, for erasing it next time.
pub fn animation_frame(
    tokens: &[Token],
    prev_rows: usize,
    visible: usize,
    colors: &[Rgb],
    has_input_color: bool,
) -> (r: (String, usize))
    ensures
        r.0@ == erase_of(prev_rows as nat) + frame_of(
            token_views(tokens@),
            visible as nat,
            colors@,
            has_input_color,
        ),
        r.1 == newline_rows(token_views(tokens@), visible as nat),
{
    let mut out = String::new();
    push_erase(&mut out, prev_rows);
    let frame = render_frame(tokens, visible, colors, has_input_color);
    out.append(frame.as_str());
    let rows = visible_newline_rows(tokens, visible);
    (out, rows)
}

/// `n` copies of `c`.
pub open spec fn repeat_color(c: Rgb, n: nat) -> Seq<Rgb> {
    Seq::new(n, |i: int| c)
}

/// The final render that stays in scrollback: erase the last in-place
/// frame, re-enable line wrap (`ESC [?7h`), draw all `total` graphemes in
/// the end color `to`, and end the line.
pub fn final_screen(tokens: &[Token], prev_rows: usize, total: usize, to: Rgb, has_input_color: bool) -> (r:
    String)
    ensures
        r@ == erase_of(prev_rows as nat) + seq!['\x1b', '[', '?', '7', 'h'] + frame_of(
            token_views(tokens@),
            total as nat,
            repeat_color(to, total as nat),
            has_input_color,
        ) + seq!['\n'],
{
    let mut colors: Vec<Rgb> = Vec::new();
    let mut i: usize = 0;
    while i < total
        invariant
            i <= total,
            colors@ == repeat_color(to, i as nat),
        decreases total - i,
    {
        colors.push(to);
        assert(colors@ =~= repeat_color(to, (i + 1) as nat));
        i = i + 1;
    }
    let mut out = String::new();
    push_erase(&mut out, prev_rows);
    push_char(&mut out, '\x1b');
    push_char(&mut out, '[');
    push_char(&mut out, '?');
    push_char(&mut out, '7');
    push_char(&mut out, 'h');
    let frame = render_frame(tokens, total, colors.as_slice(), has_input_color);
    out.append(frame.as_str());
    push_char(&mut out, '\n');
    assert(out@ =~= erase_of(prev_rows as nat) + seq!['\x1b', '[', '?', '7', 'h'] + frame_of(
        token_views(tokens@),
        total as nat,
        repeat_color(to, total as nat),
        has_input_color,
    ) + seq!['\n']);
    out
}

/// Milliseconds between frames at `fps` frames per second.
pub fn frame_delay_millis(fps: u32) -> (ms: u64)
    requires
        fps > 0,
    ensures
        ms == 1000nat / (fps as nat),
{
    1000 / (fps as u64)
}

/// The grapheme clusters among the tokens, in order.
pub open spec fn grapheme_texts(ts: Seq<TokenView>) -> Seq<Seq<char>>
    decreases ts.len(),
{
    if ts.len() == 0 {
        seq![]
    } else {
        match ts.last() {
            TokenView::Grapheme(g) => grapheme_texts(ts.drop_last()).push(g),
            TokenView::Escape(_) => grapheme_texts(ts.drop_last()),
        }
    }
}

/// Some grapheme with a reveal index in `before..after` is not white
/// space: a frame that grows the visible count from `before` to `after`
/// brings new ink into view.
pub open spec fn new_ink(ts: Seq<TokenView>, before: nat, after: nat) -> bool {
    exists|i: int|
        before <= i < after && i < grapheme_texts(ts).len() && !is_blank(
            #[trigger] grapheme_texts(ts)[i],
        )
}

/// The graphemes of a prefix of the tokens are a prefix of the graphemes.
proof fn lemma_texts_prefix(ts: Seq<TokenView>, k: int)
    requires
        0 <= k <= ts.len(),
    ensures
        grapheme_texts(ts.take(k)) == grapheme_texts(ts).take(
            grapheme_texts(ts.take(k)).len() as int,
        ),
        grapheme_texts(ts.take(k)).len() <= grapheme_texts(ts).len(),
    decreases ts.len() - k,
{
    if k < ts.len() {
        lemma_texts_prefix(ts, k + 1);
        assert(ts.take(k + 1).drop_last() == ts.take(k));
        let a = grapheme_texts(ts.take(k));
        let b = grapheme_texts(ts.take(k + 1));
        let g = grapheme_texts(ts);
        assert(b.take(a.len() as int) == a);
        assert(g.take(b.len() as int).take(a.len() as int) == g.take(a.len() as int));
    } else {
        assert(ts.take(k) == ts);
    }
}

/// Whether growing the visible count from `before` to `after` shows a
/// grapheme that is not white space (the moment to play the typing
/// sound).
pub fn brings_new_ink(tokens: &[Token], before: usize, after: usize) -> (b: bool)
    ensures
        b == new_ink(token_views(tokens@), before as nat, after as nat),
{
    let ghost ts = token_views(tokens@);
    let ghost gs = grapheme_texts(ts);
    assert(ts.len() == tokens@.len());
    assert(ts.take(0) == Seq::<TokenView>::empty());
    let mut count: usize = 0;
    let mut k: usize = 0;
    while k < tokens.len()
        invariant
            k <= tokens@.len(),
            ts == token_views(tokens@),
            ts.len() == tokens@.len(),
            gs == grapheme_texts(ts),
            count == grapheme_texts(ts.take(k as int)).len(),
            count <= k,
            forall|i: int| before <= i < after && i < count ==> is_blank(#[trigger] gs[i]),
        decreases tokens@.len() - k,
    {
        proof {
            assert(ts.take(k + 1).drop_last() == ts.take(k as int));
            assert(ts.take(k + 1).last() == ts[k as int]);
            assert(ts[k as int] == tokens@[k as int]@);
            lemma_texts_prefix(ts, k + 1);
        }
        if let Token::Grapheme(g) = &tokens[k] {
            proof {
                assert(grapheme_texts(ts.take(k + 1)) == grapheme_texts(ts.take(k as int)).push(g@));
                assert(gs[count as int] == grapheme_texts(ts.take(k + 1))[count as int]);
            }
            if before <= count && count < after && !all_whitespace(g.as_str()) {
                return true;
            }
            count = count + 1;
        }
        k = k + 1;
    }
    proof {
        assert(ts.take(k as int) == ts);
    }
    false
}

} // verus!
