//! The argument grammar of the `jiwa` command.
//!
//! A small flag scanner plus value parsers for durations, colors, frame
//! rates and reader units. Value-taking long flags accept both
//! `--flag value` and `--flag=value`; repeated flags overwrite earlier
//! ones.

use vstd::prelude::*;

use crate::color::Rgb;
use crate::reader::Unit;
use crate::text::{
    chars_of, lemma_trim_is_part, lemma_trim_start_concat, lemma_trim_start_twice, range_eq_lit,
    string_of_range, trim_bounds, trim_end_seq, trim_seq, trim_start_seq,
};
use crate::numeral::{
    all_digits, digits_value, is_digit_char, lemma_digits_upper, lemma_digits_value_prefix,
    lemma_pow10_mono, lemma_pow10_pos, pow10,
};
use crate::decimal::{
    compare_scaled, compare_with, exceeds_f64, find_either, first_of, float_form, frac_digits,
    has_exponent, int_digits, lemma_first_of_bounds, lemma_limit_digits, lemma_significant_bounds,
    mantissa_text, mantissa_value, scale_of, scan_number, special_word, underflows_f64, unit_limit,
    unsigned_part, NumberScan, F64_HALF_TINY_DIGITS, F64_LIMIT_DIGITS, MILLIS_LIMIT_DIGITS,
    SECONDS_LIMIT_DIGITS,
};

verus! {

/// An ASCII hexadecimal digit, either case.
pub open spec fn is_hex_char(c: char) -> bool {
    ('0' <= c <= '9') || ('a' <= c <= 'f') || ('A' <= c <= 'F')
}

/// Value of an ASCII hexadecimal digit.
pub open spec fn hex_value(c: char) -> nat {
    if '0' <= c <= '9' {
        (c as u32 - '0' as u32) as nat
    } else if 'a' <= c <= 'f' {
        (c as u32 - 'a' as u32 + 10) as nat
    } else {
        (c as u32 - 'A' as u32 + 10) as nat
    }
}

/// The hex digits of a color argument: trimmed, one leading `#` dropped.
pub open spec fn color_body(s: Seq<char>) -> Seq<char> {
    let t = trim_seq(s);
    if t.len() > 0 && t[0] == '#' {
        t.drop_first()
    } else {
        t
    }
}

/// What a color argument parses to: `#rrggbb`, `rrggbb`, `#rgb` or `rgb`
/// (either case; a 3-digit form doubles each digit), or the error text.
pub open spec fn color_parse(s: Seq<char>) -> Result<Rgb, Seq<char>> {
    let h = color_body(s);
    if !(forall|i: int| 0 <= i < h.len() ==> is_hex_char(#[trigger] h[i])) {
        Err("`"@ + s + "` is not a hex color"@)
    } else if h.len() == 3 {
        Ok(Rgb((hex_value(h[0]) * 17) as u8, (hex_value(h[1]) * 17) as u8, (hex_value(h[2]) * 17) as u8))
    } else if h.len() == 6 {
        Ok(
            Rgb(
                (hex_value(h[0]) * 16 + hex_value(h[1])) as u8,
                (hex_value(h[2]) * 16 + hex_value(h[3])) as u8,
                (hex_value(h[4]) * 16 + hex_value(h[5])) as u8,
            ),
        )
    } else {
        Err("`"@ + s + "` must be 3 or 6 hex digits"@)
    }
}

fn hex_of(c: char) -> (r: u8)
    requires
        is_hex_char(c),
    ensures
        r == hex_value(c),
        r < 16,
{
    if '0' <= c && c <= '9' {
        (c as u32 - '0' as u32) as u8
    } else if 'a' <= c && c <= 'f' {
        (c as u32 - 'a' as u32 + 10) as u8
    } else {
        (c as u32 - 'A' as u32 + 10) as u8
    }
}

/// True when every char of `v[lo..hi]` is a hex digit.
fn all_hex(v: &Vec<char>, lo: usize, hi: usize) -> (b: bool)
    requires
        lo <= hi <= v@.len(),
    ensures
        b == forall|j: int| 0 <= j < hi - lo ==> is_hex_char(#[trigger] v@.subrange(lo as int, hi as int)[j]),
{
    let ghost h = v@.subrange(lo as int, hi as int);
    let mut i = lo;
    while i < hi
        invariant
            lo <= i <= hi,
            hi <= v@.len(),
            h == v@.subrange(lo as int, hi as int),
            forall|j: int| 0 <= j < i - lo ==> is_hex_char(#[trigger] h[j]),
        decreases hi - i,
    {
        let c = v[i];
        assert(h[i - lo] == c);
        if !(('0' <= c && c <= '9') || ('a' <= c && c <= 'f') || ('A' <= c && c <= 'F')) {
            return false;
        }
        i = i + 1;
    }
    true
}

/// Parse a hex color: `#rrggbb`, `rrggbb`, `#rgb` or `rgb`. The leading
/// `#` is optional; 3-digit forms double each digit (`#f0a` is `#ff00aa`).
pub fn parse_color(s: &str) -> (r: Result<Rgb, String>)
    ensures
        match r {
            Ok(c) => color_parse(s@) == Ok::<Rgb, Seq<char>>(c),
            Err(e) => color_parse(s@) == Err::<Rgb, Seq<char>>(e@),
        },
{
    let v = chars_of(s);
    let (lo0, hi) = trim_bounds(&v, 0, v.len());
    assert(v@.subrange(0, v@.len() as int) == v@);
    let lo = if lo0 < hi && v[lo0] == '#' {
        lo0 + 1
    } else {
        lo0
    };
    let ghost h = color_body(s@);
    assert(v@.subrange(lo as int, hi as int) == h) by {
        if lo0 < hi && v@[lo0 as int] == '#' {
            assert(v@.subrange(lo0 as int, hi as int).drop_first() == v@.subrange(lo as int, hi as int));
        }
    }
    if !all_hex(&v, lo, hi) {
        let mut e = String::new();
        e.append("`");
        e.append(s);
        e.append("` is not a hex color");
        return Err(e);
    }
    if hi - lo == 3 {
        let r = hex_of(v[lo]);
        let g = hex_of(v[lo + 1]);
        let b = hex_of(v[lo + 2]);
        assert(h[0] == v@[lo as int] && h[1] == v@[lo + 1] && h[2] == v@[lo + 2]);
        Ok(Rgb(r * 16 + r, g * 16 + g, b * 16 + b))
    } else if hi - lo == 6 {
        let r1 = hex_of(v[lo]);
        let r2 = hex_of(v[lo + 1]);
        let g1 = hex_of(v[lo + 2]);
        let g2 = hex_of(v[lo + 3]);
        let b1 = hex_of(v[lo + 4]);
        let b2 = hex_of(v[lo + 5]);
        assert(h[0] == v@[lo as int] && h[1] == v@[lo + 1] && h[2] == v@[lo + 2]);
        assert(h[3] == v@[lo + 3] && h[4] == v@[lo + 4] && h[5] == v@[lo + 5]);
        Ok(Rgb(r1 * 16 + r2, g1 * 16 + g2, b1 * 16 + b2))
    } else {
        let mut e = String::new();
        e.append("`");
        e.append(s);
        e.append("` must be 3 or 6 hex digits");
        Err(e)
    }
}

/// What a reader-unit argument parses to, or the error text.
pub open spec fn unit_parse(s: Seq<char>) -> Result<Unit, Seq<char>> {
    let t = trim_seq(s);
    if t == "sentence"@ {
        Ok(Unit::Sentence)
    } else if t == "paragraph"@ {
        Ok(Unit::Paragraph)
    } else if t == "line"@ {
        Ok(Unit::Line)
    } else {
        Err("`"@ + t + "` is not a unit (expected sentence, paragraph, or line)"@)
    }
}

/// Parse a reader segment unit: `sentence`, `paragraph` or `line`.
pub fn parse_unit(s: &str) -> (r: Result<Unit, String>)
    ensures
        match r {
            Ok(u) => unit_parse(s@) == Ok::<Unit, Seq<char>>(u),
            Err(e) => unit_parse(s@) == Err::<Unit, Seq<char>>(e@),
        },
{
    let v = chars_of(s);
    assert(v@.subrange(0, v@.len() as int) == v@);
    let (lo, hi) = trim_bounds(&v, 0, v.len());
    if range_eq_lit(&v, lo, hi, "sentence") {
        Ok(Unit::Sentence)
    } else if range_eq_lit(&v, lo, hi, "paragraph") {
        Ok(Unit::Paragraph)
    } else if range_eq_lit(&v, lo, hi, "line") {
        Ok(Unit::Line)
    } else {
        let mut e = String::new();
        e.append("`");
        let t = string_of_range(&v, lo, hi);
        e.append(t.as_str());
        e.append("` is not a unit (expected sentence, paragraph, or line)");
        Err(e)
    }
}

/// The digits of an unsigned integer literal: `s` without one leading `+`.
pub open spec fn unsigned_digits(s: Seq<char>) -> Seq<char> {
    if s.len() > 0 && s[0] == '+' {
        s.drop_first()
    } else {
        s
    }
}

/// What `u32::from_str` gives for `s`: an optional `+`, then one or more
/// ASCII digits whose value fits a `u32`.
pub open spec fn u32_parse(s: Seq<char>) -> Option<u32> {
    let d = unsigned_digits(s);
    if d.len() == 0 || !all_digits(d) {
        None
    } else if digits_value(d) > u32::MAX {
        None
    } else {
        Some(digits_value(d) as u32)
    }
}

/// Parse `v[a..b]` as `u32::from_str` does.
fn parse_u32_range(v: &Vec<char>, a: usize, b: usize) -> (r: Option<u32>)
    requires
        a <= b <= v@.len(),
    ensures
        r == u32_parse(v@.subrange(a as int, b as int)),
{
    let ghost s = v@.subrange(a as int, b as int);
    let ghost sv = s;
    let start = if a < b && v[a] == '+' {
        a + 1
    } else {
        a
    };
    let ghost d = v@.subrange(start as int, b as int);
    assert(d == (if s.len() > 0 && s[0] == '+' { s.drop_first() } else { s }));
    if start == b {
        return None;
    }
    let mut acc: u64 = 0;
    let mut i = start;
    while i < b
        invariant
            a <= start <= i <= b,
            b <= v@.len(),
            d == v@.subrange(start as int, b as int),
            sv == v@.subrange(a as int, b as int),
            d == (if sv.len() > 0 && sv[0] == '+' { sv.drop_first() } else { sv }),
            d.len() > 0,
            forall|j: int| start <= j < i ==> is_digit_char(#[trigger] v@[j]),
            acc == digits_value(v@.subrange(start as int, i as int)),
            acc <= u32::MAX,
        decreases b - i,
    {
        let c = v[i];
        if !('0' <= c && c <= '9') {
            assert(!is_digit_char(d[i - start]));
            assert(unsigned_digits(sv) == d);
            assert(!all_digits(d));
            return None;
        }
        proof {
            assert(v@.subrange(start as int, i + 1).drop_last() == v@.subrange(start as int, i as int));
        }
        acc = acc * 10 + (c as u32 - '0' as u32) as u64;
        if acc > u32::MAX as u64 {
            proof {
                assert(unsigned_digits(sv) == d);
                if forall|j: int| 0 <= j < d.len() ==> is_digit_char(#[trigger] d[j]) {
                    lemma_digits_value_prefix(d, i + 1 - start);
                    assert(d.subrange(0, i + 1 - start) == v@.subrange(start as int, i + 1));
                }
            }
            return None;
        }
        i = i + 1;
    }
    assert(v@.subrange(start as int, b as int) == d);
    assert(forall|j: int| 0 <= j < d.len() ==> is_digit_char(#[trigger] d[j])) by {
        assert forall|j: int| 0 <= j < d.len() implies is_digit_char(#[trigger] d[j]) by {
            assert(d[j] == v@[start + j]);
        }
    }
    Some(acc as u32)
}

/// A duration as written: its number, read by `f64::from_str`, and its
/// unit. The number is scaled by `1e-3` for milliseconds and handed to
/// `Duration::from_secs_f64`; that floating-point step is the caller's.
#[derive(Debug, Clone, PartialEq, Eq)]
pub struct DurationLiteral {
    /// The number, as written (sign included, white space around it dropped).
    pub number: String,
    /// True for seconds (`s`), false for milliseconds (`ms` or no unit).
    pub seconds: bool,
}

/// What a duration argument is.
pub enum DurationText {
    /// A valid duration: this number, in seconds (`true`) or milliseconds.
    Valid(Seq<char>, bool),
    /// Not a duration; the reason.
    Invalid(Seq<char>),
    /// A finite, non-negative number too large for a duration, where
    /// `Duration::from_secs_f64` panics.
    OutOfRange,
}

/// The number of a trimmed duration argument and whether its unit is
/// seconds: `ms` and a bare number count milliseconds, `s` counts seconds.
pub open spec fn duration_number(t: Seq<char>) -> (Seq<char>, bool) {
    if t.len() >= 2 && t[t.len() - 2] == 'm' && t[t.len() - 1] == 's' {
        (trim_seq(t.subrange(0, t.len() - 2)), false)
    } else if t.len() >= 1 && t[t.len() - 1] == 's' {
        (trim_seq(t.drop_last()), true)
    } else {
        (t, false)
    }
}

/// The reason given for a negative or non-finite duration.
pub open spec fn non_finite_reason() -> Seq<char> {
    "duration must be a non-negative finite number"@
}

/// What a duration argument is. The number is read as `f64::from_str`
/// reads it: a negative number counts only when it does not round to
/// zero, and a number rounding to infinity is not finite; a valid number
/// must stay below the least number of its unit whose scaled `f64` is out
/// of a duration's range.
pub open spec fn duration_parse(s: Seq<char>) -> DurationText {
    let t = trim_seq(s);
    let n = duration_number(t).0;
    let seconds = duration_number(t).1;
    let u = unsigned_part(n);
    let m = mantissa_value(u);
    let k = scale_of(u);
    if t.len() == 0 {
        DurationText::Invalid("empty duration"@)
    } else if n.len() == 0 {
        DurationText::Invalid("missing number"@)
    } else if !float_form(n) {
        DurationText::Invalid("`"@ + n + "` is not a number"@)
    } else if special_word(u) {
        DurationText::Invalid(non_finite_reason())
    } else if m == 0 {
        DurationText::Valid(n, seconds)
    } else if n[0] == '-' {
        if underflows_f64(m, k) {
            DurationText::Valid(n, seconds)
        } else {
            DurationText::Invalid(non_finite_reason())
        }
    } else if exceeds_f64(m, k) {
        DurationText::Invalid(non_finite_reason())
    } else if compare_scaled(m, k, unit_limit(seconds), 0) >= 0 {
        DurationText::OutOfRange
    } else {
        DurationText::Valid(n, seconds)
    }
}

/// Bounds of the number in the trimmed duration `v[lo..hi]`, and whether
/// its unit is seconds.
fn duration_parts(v: &Vec<char>, lo: usize, hi: usize) -> (r: (usize, usize, bool))
    requires
        lo < hi <= v@.len(),
    ensures
        lo <= r.0 <= r.1 <= hi,
        v@.subrange(r.0 as int, r.1 as int) == duration_number(v@.subrange(lo as int, hi as int)).0,
        r.2 == duration_number(v@.subrange(lo as int, hi as int)).1,
{
    let ghost t = v@.subrange(lo as int, hi as int);
    assert(t[t.len() - 1] == v@[hi - 1]);
    if hi - lo >= 2 && v[hi - 2] == 'm' && v[hi - 1] == 's' {
        assert(t[t.len() - 2] == v@[hi - 2]);
        assert(t.subrange(0, t.len() - 2) == v@.subrange(lo as int, hi - 2));
        let (a, b) = trim_bounds(v, lo, hi - 2);
        (a, b, false)
    } else if v[hi - 1] == 's' {
        proof {
            if hi - lo >= 2 {
                assert(t[t.len() - 2] == v@[hi - 2]);
            }
        }
        assert(t.drop_last() == v@.subrange(lo as int, hi - 1));
        let (a, b) = trim_bounds(v, lo, hi - 1);
        (a, b, true)
    } else {
        proof {
            if hi - lo >= 2 {
                assert(t[t.len() - 2] == v@[hi - 2]);
            }
        }
        (lo, hi, false)
    }
}

/// Reads a duration argument: `Some` of what [`parse_duration`] returns,
/// or `None` where the number is too large for a duration.
pub fn read_duration(s: &str) -> (r: Option<Result<DurationLiteral, String>>)
    ensures
        match r {
            None => duration_parse(s@) is OutOfRange,
            Some(Ok(d)) => duration_parse(s@) == DurationText::Valid(d.number@, d.seconds),
            Some(Err(e)) => duration_parse(s@) == DurationText::Invalid(e@),
        },
{
    let v = chars_of(s);
    assert(v@.subrange(0, v@.len() as int) == v@);
    let (lo, hi) = trim_bounds(&v, 0, v.len());
    if lo == hi {
        return Some(Err(String::from_str("empty duration")));
    }
    let (a, b, seconds) = duration_parts(&v, lo, hi);
    if a == b {
        return Some(Err(String::from_str("missing number")));
    }
    let ghost n = v@.subrange(a as int, b as int);
    let ghost u = unsigned_part(n);
    let valid = DurationLiteral { number: string_of_range(&v, a, b), seconds };
    match scan_number(&v, a, b) {
        NumberScan::NotANumber => {
            let mut e = String::from_str("`");
            let t = string_of_range(&v, a, b);
            e.append(t.as_str());
            e.append("` is not a number");
            Some(Err(e))
        },
        NumberScan::NonFinite => Some(
            Err(String::from_str("duration must be a non-negative finite number")),
        ),
        NumberScan::Zero => Some(Ok(valid)),
        NumberScan::Value { negative, digits, scale } => {
            proof {
                lemma_significant_bounds(digits@);
                lemma_pow10_pos((digits@.len() - 1) as nat);
                lemma_limit_digits();
            }
            if negative {
                let tiny = chars_of(F64_HALF_TINY_DIGITS);
                if compare_with(&digits, scale, Ghost(scale_of(u)), &tiny, -1075) <= 0 {
                    return Some(Ok(valid));
                }
                return Some(Err(String::from_str("duration must be a non-negative finite number")));
            }
            let limit = chars_of(F64_LIMIT_DIGITS);
            if compare_with(&digits, scale, Ghost(scale_of(u)), &limit, 0) >= 0 {
                return Some(Err(String::from_str("duration must be a non-negative finite number")));
            }
            let top = if seconds {
                chars_of(SECONDS_LIMIT_DIGITS)
            } else {
                chars_of(MILLIS_LIMIT_DIGITS)
            };
            if compare_with(&digits, scale, Ghost(scale_of(u)), &top, 0) >= 0 {
                None
            } else {
                Some(Ok(valid))
            }
        },
    }
}

/// Parse a duration: `200ms` is milliseconds, `1s` or `1.5s` seconds
/// (decimals allowed), and a bare number such as `50` milliseconds.
/// Surrounding white space is ignored. Negative, non-finite and
/// non-numeric inputs are errors. The result is the number and its unit;
/// turning it into a span is `Duration::from_secs_f64` of the number's
/// `f64`, scaled by `1e-3` for milliseconds, which stays in range.
pub fn parse_duration(s: &str) -> (r: Result<DurationLiteral, String>)
    requires
        !(duration_parse(s@) is OutOfRange),
    ensures
        match r {
            Ok(d) => duration_parse(s@) == DurationText::Valid(d.number@, d.seconds),
            Err(e) => duration_parse(s@) == DurationText::Invalid(e@),
        },
{
    match read_duration(s) {
        Some(r) => r,
        None => Err(String::new()),
    }
}

/// The help text printed by `--help`.
pub const USAGE: &'static str = "\
jiwa — terminal text reveal animations over a Unix pipe.

USAGE:
    jiwa [OPTIONS]

Reads all of stdin, then reveals it on stdout. With no animation flags
(or when stdout is not a TTY) the input is passed through verbatim, so
`jiwa ... | other` and `jiwa ... > file` stay clean.

OPTIONS:
    --fade <DUR>      Per-grapheme fade duration (e.g. 200ms, 1.5s, 50).
                      Default 0 (no fade). Also accepts `--fade=200ms`.
    --stagger <DUR>   Typewriter step between graphemes (e.g. 30ms).
                      Default 0 (all graphemes at once).
    --from <COLOR>    Fade start color (#rrggbb / rgb / #rgb). Default #282828.
    --to <COLOR>      Fade end color. Default #dcdcdc.
    --fps <N>         Animation frame rate, clamped to 1..=240. Default 60.
    --read            Interactive reader (sound-novel) mode: reveal one
                      segment at a time, pausing for Enter between them.
                      Reads keypresses from /dev/tty (stdin holds the text).
                      Requires a TTY stdout; otherwise the input is passed
                      through verbatim.
    --by <UNIT>       Reader segment unit: sentence (default) / paragraph /
                      line. Only meaningful with --read.
    --sound <SRC>     Play a short sound (a file path or an http(s) URL)
                      whenever new text comes into view while animating.
                      Best-effort: a missing file or player stays silent.
    -h, --help        Print this help and exit.
    -V, --version     Print version and exit.

Value-taking flags accept either a separate argument (`--fade 200ms`) or
an `=`-joined form (`--fade=200ms`).

READER MODE:
    `--read` turns a piped novel into a sound-novel reader: each segment
    reveals, then jiwa waits for you to press Enter before the next one.

        cat novel.txt | jiwa --read --stagger 40ms

    Press Enter to advance; `q` or Ctrl-D (EOF) ends the session. The
    waiting prompt is erased once you advance, so scrollback keeps only the
    novel text.

DURATION:
    Suffix `ms` for milliseconds, `s` for seconds (decimals allowed).
    A bare number is treated as milliseconds.

DISPLAY:
    During the animation jiwa disables line-wrap and redraws frames in
    place, so lines longer than the terminal are clipped; the final
    confirmed render re-enables wrap so long lines wrap normally in
    scrollback. If you interrupt the animation with Ctrl-C, the terminal
    may be left with the cursor hidden and wrap off (jiwa stays
    dependency-free and installs no signal handler); run `reset` to
    restore it.

COLOR:
    `#rrggbb`, `rrggbb`, `#rgb`, or `rgb`. The leading `#` is optional;
    3-digit forms expand each digit (#f0a -> #ff00aa).
";

/// Lowest frame rate `--fps` accepts; smaller values are raised to it.
pub const FPS_MIN: u32 = 1;

/// Highest frame rate `--fps` accepts; larger values are lowered to it.
pub const FPS_MAX: u32 = 240;

/// Fully parsed command-line options.
#[derive(Debug, Clone, PartialEq, Eq)]
pub struct CliOpts {
    /// Per-grapheme fade duration.
    pub fade: DurationLiteral,
    /// Typewriter step between graphemes.
    pub stagger: DurationLiteral,
    /// Fade start color.
    pub from: Rgb,
    /// Fade end color.
    pub to: Rgb,
    /// Animation frame rate, within `FPS_MIN..=FPS_MAX`.
    pub fps: u32,
    /// Interactive reader (sound-novel) mode: reveal one segment at a time,
    /// waiting for Enter between segments.
    pub read: bool,
    /// Segment unit used by reader mode.
    pub by: Unit,
    /// A sound (file path or `http(s)` URL) played as new text appears.
    pub sound: Option<String>,
}

/// The options as plain values; each duration is its literal: the number
/// text and whether it counts seconds (`true`) or milliseconds.
pub struct CliView {
    pub fade: (Seq<char>, bool),
    pub stagger: (Seq<char>, bool),
    pub from: Rgb,
    pub to: Rgb,
    pub fps: u32,
    pub read: bool,
    pub by: Unit,
    pub sound: Option<Seq<char>>,
}

impl View for CliOpts {
    type V = CliView;

    open spec fn view(&self) -> CliView {
        CliView {
            fade: (self.fade.number@, self.fade.seconds),
            stagger: (self.stagger.number@, self.stagger.seconds),
            from: self.from,
            to: self.to,
            fps: self.fps,
            read: self.read,
            by: self.by,
            sound: match self.sound {
                Some(x) => Some(x@),
                None => None,
            },
        }
    }
}

/// The options when no flag is given.
pub open spec fn default_view() -> CliView {
    CliView {
        fade: ("0"@, false),
        stagger: ("0"@, false),
        from: Rgb(40, 40, 40),
        to: Rgb(220, 220, 220),
        fps: 60,
        read: false,
        by: Unit::Sentence,
        sound: None,
    }
}

impl Default for CliOpts {
    /// No fade, no stagger, `#282828` to `#dcdcdc`, 60 fps, no reader
    /// mode, sentences, no sound.
    fn default() -> (o: Self)
        ensures
            o@ == default_view(),
    {
        CliOpts {
            fade: DurationLiteral { number: String::from_str("0"), seconds: false },
            stagger: DurationLiteral { number: String::from_str("0"), seconds: false },
            from: Rgb(40, 40, 40),
            to: Rgb(220, 220, 220),
            fps: 60,
            read: false,
            by: Unit::Sentence,
            sound: None,
        }
    }
}

/// What the program should do after parsing.
#[derive(Debug, PartialEq, Eq)]
pub enum Action {
    /// Print usage and exit 0.
    Help,
    /// Print version and exit 0.
    Version,
    /// Run the reveal with these options.
    Run(CliOpts),
}

/// The flags the program knows.
#[derive(Debug, Clone, Copy, PartialEq, Eq, Structural)]
pub enum FlagKind {
    Help,
    Version,
    Read,
    Fade,
    Stagger,
    From,
    To,
    Fps,
    By,
    Sound,
    Unknown,
}

/// Which flag `f` names.
pub open spec fn flag_kind(f: Seq<char>) -> FlagKind {
    if f == "-h"@ || f == "--help"@ {
        FlagKind::Help
    } else if f == "-V"@ || f == "--version"@ {
        FlagKind::Version
    } else if f == "--read"@ {
        FlagKind::Read
    } else if f == "--fade"@ {
        FlagKind::Fade
    } else if f == "--stagger"@ {
        FlagKind::Stagger
    } else if f == "--from"@ {
        FlagKind::From
    } else if f == "--to"@ {
        FlagKind::To
    } else if f == "--fps"@ {
        FlagKind::Fps
    } else if f == "--by"@ {
        FlagKind::By
    } else if f == "--sound"@ {
        FlagKind::Sound
    } else {
        FlagKind::Unknown
    }
}

/// The flag takes a value.
pub open spec fn takes_value(k: FlagKind) -> bool {
    match k {
        FlagKind::Fade | FlagKind::Stagger | FlagKind::From | FlagKind::To | FlagKind::Fps
        | FlagKind::By | FlagKind::Sound => true,
        _ => false,
    }
}

/// The argument starts with `--`.
pub open spec fn is_long(arg: Seq<char>) -> bool {
    arg.len() >= 2 && arg[0] == '-' && arg[1] == '-'
}

/// The argument is a long flag with an inline `=value`.
pub open spec fn has_inline(arg: Seq<char>) -> bool {
    is_long(arg) && first_of(arg, '=', '=') < arg.len()
}

/// The flag part of an argument: up to the first `=` of a long flag.
pub open spec fn flag_of(arg: Seq<char>) -> Seq<char> {
    if has_inline(arg) {
        arg.subrange(0, first_of(arg, '=', '=') as int)
    } else {
        arg
    }
}

/// The inline value of a long flag: after its first `=`.
pub open spec fn inline_of(arg: Seq<char>) -> Seq<char> {
    arg.subrange(first_of(arg, '=', '=') as int + 1, arg.len() as int)
}

/// The closing line of every error message.
pub open spec fn try_help() -> Seq<char> {
    "\nTry `jiwa --help`."@
}

/// Error for an argument the program does not know.
pub open spec fn unknown_argument(arg: Seq<char>) -> Seq<char> {
    "jiwa: unknown argument `"@ + arg + "`"@ + try_help()
}

/// Error for a value-taking flag at the end of the arguments.
pub open spec fn missing_value(flag: Seq<char>) -> Seq<char> {
    "jiwa: `"@ + flag + "` requires a value"@ + try_help()
}

/// Error for an inline value on a flag that takes none.
pub open spec fn unexpected_value(flag: Seq<char>, v: Seq<char>) -> Seq<char> {
    "jiwa: `"@ + flag + "` takes no value (got `="@ + v + "`)"@ + try_help()
}

/// Error for a value a flag does not accept.
pub open spec fn invalid_value(flag: Seq<char>, v: Seq<char>, why: Seq<char>) -> Seq<char> {
    "jiwa: invalid value `"@ + v + "` for `"@ + flag + "`: "@ + why + try_help()
}

/// `n` raised or lowered into `FPS_MIN..=FPS_MAX`.
pub open spec fn clamp_fps(n: u32) -> u32 {
    if n < FPS_MIN {
        FPS_MIN
    } else if n > FPS_MAX {
        FPS_MAX
    } else {
        n
    }
}

/// What a value does to the options.
pub enum FlagEffect {
    /// The options become these.
    Update(CliView),
    /// The value is refused, for this reason.
    Refused(Seq<char>),
    /// The value is a duration too large to hold.
    OutOfRange,
}

/// The effect of the value `v` given to the value-taking flag `k`.
pub open spec fn apply_value(k: FlagKind, v: Seq<char>, o: CliView) -> FlagEffect {
    match k {
        FlagKind::Fade => match duration_parse(v) {
            DurationText::Valid(n, sec) => FlagEffect::Update(CliView { fade: (n, sec), ..o }),
            DurationText::Invalid(w) => FlagEffect::Refused(w),
            DurationText::OutOfRange => FlagEffect::OutOfRange,
        },
        FlagKind::Stagger => match duration_parse(v) {
            DurationText::Valid(n, sec) => FlagEffect::Update(CliView { stagger: (n, sec), ..o }),
            DurationText::Invalid(w) => FlagEffect::Refused(w),
            DurationText::OutOfRange => FlagEffect::OutOfRange,
        },
        FlagKind::From => match color_parse(v) {
            Ok(c) => FlagEffect::Update(CliView { from: c, ..o }),
            Err(w) => FlagEffect::Refused(w),
        },
        FlagKind::To => match color_parse(v) {
            Ok(c) => FlagEffect::Update(CliView { to: c, ..o }),
            Err(w) => FlagEffect::Refused(w),
        },
        FlagKind::Fps => match u32_parse(trim_seq(v)) {
            Some(n) => FlagEffect::Update(CliView { fps: clamp_fps(n), ..o }),
            None => FlagEffect::Refused("expected an integer"@),
        },
        FlagKind::Sound => if v.len() == 0 {
            FlagEffect::Refused("expected a sound file path or URL"@)
        } else {
            FlagEffect::Update(CliView { sound: Some(v), ..o })
        },
        _ => match unit_parse(v) {
            Ok(u) => FlagEffect::Update(CliView { by: u, ..o }),
            Err(w) => FlagEffect::Refused(w),
        },
    }
}

/// What parsing the arguments gives.
pub enum ArgsParse {
    Help,
    Version,
    Run(CliView),
    Error(Seq<char>),
    /// A duration value too large to hold.
    OutOfRange,
}

/// Parses `args` from the front, starting from the options `o`.
pub open spec fn parse_from(args: Seq<Seq<char>>, o: CliView) -> ArgsParse
    decreases args.len(),
{
    if args.len() == 0 {
        ArgsParse::Run(o)
    } else {
        let arg = args[0];
        let flag = flag_of(arg);
        let k = flag_kind(flag);
        if k == FlagKind::Help || k == FlagKind::Version {
            if has_inline(arg) {
                ArgsParse::Error(unexpected_value(flag, inline_of(arg)))
            } else if k == FlagKind::Help {
                ArgsParse::Help
            } else {
                ArgsParse::Version
            }
        } else if k == FlagKind::Read {
            if has_inline(arg) {
                ArgsParse::Error(unexpected_value(flag, inline_of(arg)))
            } else {
                parse_from(args.subrange(1, args.len() as int), CliView { read: true, ..o })
            }
        } else if takes_value(k) {
            if !has_inline(arg) && args.len() < 2 {
                ArgsParse::Error(missing_value(flag))
            } else {
                let v = if has_inline(arg) {
                    inline_of(arg)
                } else {
                    args[1]
                };
                let used: int = if has_inline(arg) {
                    1
                } else {
                    2
                };
                match apply_value(k, v, o) {
                    FlagEffect::Update(o2) => parse_from(args.subrange(used, args.len() as int), o2),
                    FlagEffect::Refused(w) => ArgsParse::Error(invalid_value(flag, v, w)),
                    FlagEffect::OutOfRange => ArgsParse::OutOfRange,
                }
            }
        } else {
            ArgsParse::Error(unknown_argument(arg))
        }
    }
}

/// The views of a list of string arguments.
pub open spec fn arg_views(args: Seq<&str>) -> Seq<Seq<char>> {
    args.map_values(|a: &str| a@)
}

/// What parsing the program's arguments (without its name) gives.
pub open spec fn args_parse(args: Seq<Seq<char>>) -> ArgsParse {
    parse_from(args, default_view())
}

/// Which flag `v[0..fend]` names.
fn kind_of(v: &Vec<char>, fend: usize) -> (r: FlagKind)
    requires
        fend <= v@.len(),
    ensures
        r == flag_kind(v@.subrange(0, fend as int)),
{
    if range_eq_lit(v, 0, fend, "-h") || range_eq_lit(v, 0, fend, "--help") {
        FlagKind::Help
    } else if range_eq_lit(v, 0, fend, "-V") || range_eq_lit(v, 0, fend, "--version") {
        FlagKind::Version
    } else if range_eq_lit(v, 0, fend, "--read") {
        FlagKind::Read
    } else if range_eq_lit(v, 0, fend, "--fade") {
        FlagKind::Fade
    } else if range_eq_lit(v, 0, fend, "--stagger") {
        FlagKind::Stagger
    } else if range_eq_lit(v, 0, fend, "--from") {
        FlagKind::From
    } else if range_eq_lit(v, 0, fend, "--to") {
        FlagKind::To
    } else if range_eq_lit(v, 0, fend, "--fps") {
        FlagKind::Fps
    } else if range_eq_lit(v, 0, fend, "--by") {
        FlagKind::By
    } else if range_eq_lit(v, 0, fend, "--sound") {
        FlagKind::Sound
    } else {
        FlagKind::Unknown
    }
}

/// Builds [`unknown_argument`].
fn unknown_argument_text(arg: &str) -> (r: String)
    ensures
        r@ == unknown_argument(arg@),
{
    let mut e = String::from_str("jiwa: unknown argument `");
    e.append(arg);
    e.append("`");
    e.append("\nTry `jiwa --help`.");
    e
}

/// Builds [`missing_value`].
fn missing_value_text(flag: &str) -> (r: String)
    ensures
        r@ == missing_value(flag@),
{
    let mut e = String::from_str("jiwa: `");
    e.append(flag);
    e.append("` requires a value");
    e.append("\nTry `jiwa --help`.");
    e
}

/// Builds [`unexpected_value`].
fn reject_inline(flag: &str, v: &str) -> (r: String)
    ensures
        r@ == unexpected_value(flag@, v@),
{
    let mut e = String::from_str("jiwa: `");
    e.append(flag);
    e.append("` takes no value (got `=");
    e.append(v);
    e.append("`)");
    e.append("\nTry `jiwa --help`.");
    e
}

/// Builds [`invalid_value`].
fn flag_err(flag: &str, v: &str, why: &str) -> (r: String)
    ensures
        r@ == invalid_value(flag@, v@, why@),
{
    let mut e = String::from_str("jiwa: invalid value `");
    e.append(v);
    e.append("` for `");
    e.append(flag);
    e.append("`: ");
    e.append(why);
    e.append("\nTry `jiwa --help`.");
    e
}

/// What a value did to the options.
pub enum FlagResult {
    Applied(CliOpts),
    Refused(String),
    OutOfRange,
}

/// Gives the value `v` to the value-taking flag `k`.
fn apply_flag(k: FlagKind, v: &str, o: CliOpts) -> (r: FlagResult)
    requires
        takes_value(k),
    ensures
        match r {
            FlagResult::Applied(o2) => apply_value(k, v@, o@) == FlagEffect::Update(o2@),
            FlagResult::Refused(w) => apply_value(k, v@, o@) == FlagEffect::Refused(w@),
            FlagResult::OutOfRange => apply_value(k, v@, o@) is OutOfRange,
        },
{
    let mut o = o;
    match k {
        FlagKind::Fade => match read_duration(v) {
            Some(Ok(d)) => {
                o.fade = d;
                FlagResult::Applied(o)
            },
            Some(Err(w)) => FlagResult::Refused(w),
            None => FlagResult::OutOfRange,
        },
        FlagKind::Stagger => match read_duration(v) {
            Some(Ok(d)) => {
                o.stagger = d;
                FlagResult::Applied(o)
            },
            Some(Err(w)) => FlagResult::Refused(w),
            None => FlagResult::OutOfRange,
        },
        FlagKind::From => match parse_color(v) {
            Ok(c) => {
                o.from = c;
                FlagResult::Applied(o)
            },
            Err(w) => FlagResult::Refused(w),
        },
        FlagKind::To => match parse_color(v) {
            Ok(c) => {
                o.to = c;
                FlagResult::Applied(o)
            },
            Err(w) => FlagResult::Refused(w),
        },
        FlagKind::Fps => {
            let t = chars_of(v);
            assert(t@.subrange(0, t@.len() as int) == t@);
            let (a, b) = trim_bounds(&t, 0, t.len());
            match parse_u32_range(&t, a, b) {
                Some(n) => {
                    o.fps = if n < FPS_MIN {
                        FPS_MIN
                    } else if n > FPS_MAX {
                        FPS_MAX
                    } else {
                        n
                    };
                    FlagResult::Applied(o)
                },
                None => FlagResult::Refused(String::from_str("expected an integer")),
            }
        },
        FlagKind::Sound => {
            if v.unicode_len() == 0 {
                FlagResult::Refused(String::from_str("expected a sound file path or URL"))
            } else {
                o.sound = Some(String::from_str(v));
                FlagResult::Applied(o)
            }
        },
        _ => match parse_unit(v) {
            Ok(u) => {
                o.by = u;
                FlagResult::Applied(o)
            },
            Err(w) => FlagResult::Refused(w),
        },
    }
}

/// Parses the program's arguments (without its name): `Some` of what
/// [`parse_args`] returns, or `None` where a duration value is too large
/// to hold.
pub fn read_args(args: &[&str]) -> (r: Option<Result<Action, String>>)
    ensures
        match r {
            None => args_parse(arg_views(args@)) is OutOfRange,
            Some(Ok(Action::Help)) => args_parse(arg_views(args@)) is Help,
            Some(Ok(Action::Version)) => args_parse(arg_views(args@)) is Version,
            Some(Ok(Action::Run(o))) => args_parse(arg_views(args@)) == ArgsParse::Run(o@),
            Some(Err(e)) => args_parse(arg_views(args@)) == ArgsParse::Error(e@),
        },
{
    let ghost all = arg_views(args@);
    let mut opts = CliOpts::default();
    let mut i: usize = 0;
    assert(all.subrange(0, all.len() as int) == all);
    while i < args.len()
        invariant
            i <= args@.len(),
            all == arg_views(args@),
            all.len() == args@.len(),
            args_parse(all) == parse_from(all.subrange(i as int, all.len() as int), opts@),
        decreases args.len() - i,
    {
        let ghost rest = all.subrange(i as int, all.len() as int);
        let arg = args[i];
        assert(rest[0] == arg@);
        let v = chars_of(arg);
        let n = v.len();
        assert(v@.subrange(0, n as int) == v@);
        let long = n >= 2 && v[0] == '-' && v[1] == '-';
        let eq = find_either(&v, 0, n, '=', '=');
        let inline = long && eq < n;
        let fend = if inline {
            eq
        } else {
            n
        };
        assert(has_inline(arg@) == inline);
        assert(flag_of(arg@) == v@.subrange(0, fend as int));
        let kind = kind_of(&v, fend);
        let flag = string_of_range(&v, 0, fend);
        if kind == FlagKind::Help || kind == FlagKind::Version {
            if inline {
                let iv = string_of_range(&v, eq + 1, n);
                return Some(Err(reject_inline(flag.as_str(), iv.as_str())));
            }
            if kind == FlagKind::Help {
                return Some(Ok(Action::Help));
            }
            return Some(Ok(Action::Version));
        } else if kind == FlagKind::Read {
            if inline {
                let iv = string_of_range(&v, eq + 1, n);
                return Some(Err(reject_inline(flag.as_str(), iv.as_str())));
            }
            opts.read = true;
            assert(rest.subrange(1, rest.len() as int) == all.subrange(i + 1, all.len() as int));
            i = i + 1;
        } else if kind == FlagKind::Unknown {
            return Some(Err(unknown_argument_text(arg)));
        } else {
            let value: String = if inline {
                string_of_range(&v, eq + 1, n)
            } else if i + 1 < args.len() {
                assert(rest[1] == args@[i + 1]@);
                String::from_str(args[i + 1])
            } else {
                return Some(Err(missing_value_text(flag.as_str())));
            };
            let used: usize = if inline {
                1
            } else {
                2
            };
            match apply_flag(kind, value.as_str(), opts) {
                FlagResult::Applied(o2) => {
                    opts = o2;
                    assert(rest.subrange(used as int, rest.len() as int) == all.subrange(
                        i + used,
                        all.len() as int,
                    ));
                    i = i + used;
                },
                FlagResult::Refused(w) => {
                    return Some(
                        Err(flag_err(flag.as_str(), value.as_str(), w.as_str())),
                    );
                },
                FlagResult::OutOfRange => {
                    return None;
                },
            }
        }
    }
    Some(Ok(Action::Run(opts)))
}

/// Parse the program's arguments (without its name) into an [`Action`].
///
/// Returns `Err(message)` for unknown flags, missing values and invalid
/// values; the caller prints the message and exits with status 2.
pub fn parse_args(args: &[&str]) -> (r: Result<Action, String>)
    requires
        !(args_parse(arg_views(args@)) is OutOfRange),
    ensures
        match r {
            Ok(Action::Help) => args_parse(arg_views(args@)) is Help,
            Ok(Action::Version) => args_parse(arg_views(args@)) is Version,
            Ok(Action::Run(o)) => args_parse(arg_views(args@)) == ArgsParse::Run(o@),
            Err(e) => args_parse(arg_views(args@)) == ArgsParse::Error(e@),
        },
{
    match read_args(args) {
        Some(r) => r,
        None => Err(String::new()),
    }
}

/// Every `Run` comes with a frame rate in `FPS_MIN..=FPS_MAX` when the
/// starting options had one.
proof fn lemma_fps_kept(args: Seq<Seq<char>>, o: CliView)
    requires
        FPS_MIN <= o.fps <= FPS_MAX,
    ensures
        parse_from(args, o) matches ArgsParse::Run(r) ==> FPS_MIN <= r.fps <= FPS_MAX,
    decreases args.len(),
{
    if args.len() > 0 {
        let arg = args[0];
        let k = flag_kind(flag_of(arg));
        if k == FlagKind::Read && !has_inline(arg) {
            lemma_fps_kept(args.subrange(1, args.len() as int), CliView { read: true, ..o });
        } else if takes_value(k) && (has_inline(arg) || args.len() >= 2) {
            let v = if has_inline(arg) {
                inline_of(arg)
            } else {
                args[1]
            };
            let used: int = if has_inline(arg) {
                1
            } else {
                2
            };
            if let FlagEffect::Update(o2) = apply_value(k, v, o) {
                lemma_fps_kept(args.subrange(used, args.len() as int), o2);
            }
        }
    }
}

/// The frame rate of a run is always within `FPS_MIN..=FPS_MAX`: larger
/// and smaller `--fps` values are clamped.
pub proof fn law_fps_within_bounds(args: Seq<Seq<char>>)
    ensures
        args_parse(args) matches ArgsParse::Run(r) ==> FPS_MIN <= r.fps <= FPS_MAX,
{
    lemma_fps_kept(args, default_view());
}

/// The first `=` of `f + t` is that of `t`, shifted, when `f` has none.
proof fn lemma_first_of_concat(f: Seq<char>, t: Seq<char>, c1: char, c2: char)
    requires
        first_of(f, c1, c2) == f.len(),
    ensures
        first_of(f + t, c1, c2) == f.len() + first_of(t, c1, c2),
    decreases f.len(),
{
    if f.len() > 0 {
        assert((f + t)[0] == f[0]);
        assert((f + t).drop_first() == f.drop_first() + t);
        lemma_first_of_concat(f.drop_first(), t, c1, c2);
    } else {
        assert(f + t == t);
    }
}

/// `--flag=value` is the same as `--flag value`, for every value-taking
/// flag, value and remaining arguments.
pub proof fn law_inline_value_is_next_value(
    f: Seq<char>,
    v: Seq<char>,
    rest: Seq<Seq<char>>,
    o: CliView,
)
    requires
        is_long(f),
        first_of(f, '=', '=') == f.len(),
        takes_value(flag_kind(f)),
    ensures
        parse_from(seq![f + seq!['='] + v] + rest, o) == parse_from(seq![f, v] + rest, o),
{
    let a = f + seq!['='] + v;
    lemma_first_of_concat(f, seq!['='] + v, '=', '=');
    assert(f + seq!['='] + v == f + (seq!['='] + v));
    assert((seq!['='] + v)[0] == '=');
    assert(first_of(seq!['='] + v, '=', '=') == 0);
    assert(a[0] == f[0] && a[1] == f[1]);
    assert(has_inline(a));
    assert(flag_of(a) == f);
    assert(inline_of(a) == v);
    assert(!has_inline(f));
    assert(flag_of(f) == f);
    let l = seq![a] + rest;
    let r = seq![f, v] + rest;
    assert(l[0] == a);
    assert(r[0] == f && r[1] == v);
    assert(l.subrange(1, l.len() as int) == rest);
    assert(r.subrange(2, r.len() as int) == rest);
}

/// The scan of `args` from the options `o` ends on a value-taking flag
/// that still awaits its value: the flag is the last argument and has no
/// inline `=value`.
pub open spec fn awaits_value(args: Seq<Seq<char>>, o: CliView) -> bool
    decreases args.len(),
{
    if args.len() == 0 {
        false
    } else {
        let arg = args[0];
        let k = flag_kind(flag_of(arg));
        if k == FlagKind::Read && !has_inline(arg) {
            awaits_value(args.subrange(1, args.len() as int), CliView { read: true, ..o })
        } else if takes_value(k) {
            if !has_inline(arg) && args.len() < 2 {
                true
            } else {
                let v = if has_inline(arg) {
                    inline_of(arg)
                } else {
                    args[1]
                };
                let used: int = if has_inline(arg) {
                    1
                } else {
                    2
                };
                match apply_value(k, v, o) {
                    FlagEffect::Update(o2) => awaits_value(args.subrange(used, args.len() as int), o2),
                    _ => false,
                }
            }
        } else {
            false
        }
    }
}

/// Arguments after a prefix whose scan does not await a value are scanned
/// on their own: two tails that parse alike from every options parse alike
/// after the prefix.
proof fn lemma_prefix_scan(a: Seq<Seq<char>>, x: Seq<Seq<char>>, y: Seq<Seq<char>>, o: CliView)
    requires
        !awaits_value(a, o),
        forall|o2: CliView| #[trigger] parse_from(x, o2) == parse_from(y, o2),
    ensures
        parse_from(a + x, o) == parse_from(a + y, o),
    decreases a.len(),
{
    if a.len() == 0 {
        assert(a + x == x);
        assert(a + y == y);
        assert(parse_from(x, o) == parse_from(y, o));
    } else {
        let ax = a + x;
        let ay = a + y;
        let arg = a[0];
        assert(ax[0] == arg && ay[0] == arg);
        let k = flag_kind(flag_of(arg));
        if k == FlagKind::Read && !has_inline(arg) {
            let r = a.subrange(1, a.len() as int);
            assert(ax.subrange(1, ax.len() as int) == r + x);
            assert(ay.subrange(1, ay.len() as int) == r + y);
            lemma_prefix_scan(r, x, y, CliView { read: true, ..o });
        } else if takes_value(k) {
            assert(has_inline(arg) || a.len() >= 2);
            if !has_inline(arg) {
                assert(ax[1] == a[1] && ay[1] == a[1]);
            }
            let v = if has_inline(arg) {
                inline_of(arg)
            } else {
                a[1]
            };
            let used: int = if has_inline(arg) {
                1
            } else {
                2
            };
            if let FlagEffect::Update(o2) = apply_value(k, v, o) {
                let r = a.subrange(used, a.len() as int);
                assert(ax.subrange(used, ax.len() as int) == r + x);
                assert(ay.subrange(used, ay.len() as int) == r + y);
                lemma_prefix_scan(r, x, y, o2);
            }
        }
    }
}

/// `--flag=value` is the same as `--flag value` wherever it stands: after
/// any arguments whose scan does not leave a flag awaiting its value, and
/// before any others. Only the first `=` splits, so the value may hold `=`.
pub proof fn law_inline_value_anywhere(
    a: Seq<Seq<char>>,
    f: Seq<char>,
    v: Seq<char>,
    b: Seq<Seq<char>>,
)
    requires
        is_long(f),
        first_of(f, '=', '=') == f.len(),
        takes_value(flag_kind(f)),
        !awaits_value(a, default_view()),
    ensures
        args_parse(a + seq![f + seq!['='] + v] + b) == args_parse(a + seq![f, v] + b),
{
    let x = seq![f + seq!['='] + v] + b;
    let y = seq![f, v] + b;
    assert forall|o2: CliView| #[trigger] parse_from(x, o2) == parse_from(y, o2) by {
        law_inline_value_is_next_value(f, v, b, o2);
    }
    lemma_prefix_scan(a, x, y, default_view());
    assert(a + seq![f + seq!['='] + v] + b == a + x);
    assert(a + seq![f, v] + b == a + y);
}

/// A value-taking flag given twice keeps only its last value: the earlier
/// one is overwritten (when it was valid).
pub proof fn law_last_flag_wins(
    f: Seq<char>,
    v1: Seq<char>,
    v2: Seq<char>,
    rest: Seq<Seq<char>>,
    o: CliView,
)
    requires
        !has_inline(f),
        takes_value(flag_kind(f)),
        apply_value(flag_kind(f), v1, o) is Update,
    ensures
        parse_from(seq![f, v1, f, v2] + rest, o) == parse_from(seq![f, v2] + rest, o),
{
    let k = flag_kind(f);
    let l = seq![f, v1, f, v2] + rest;
    let r = seq![f, v2] + rest;
    assert(l[0] == f && l[1] == v1);
    assert(r[0] == f && r[1] == v2);
    assert(l.subrange(2, l.len() as int) == r);
    assert(r.subrange(2, r.len() as int) == rest);
    let o1 = apply_value(k, v1, o)->Update_0;
    assert(parse_from(l, o) == parse_from(r, o1));
    assert(parse_from(r, o1) == parse_from(r, o));
}

/// A bare number is a count of milliseconds: appending `ms` changes
/// nothing, white space around the number included.
pub proof fn law_bare_number_is_millis(x: Seq<char>)
    requires
        trim_seq(x).len() > 0,
        trim_seq(x).last() != 's',
    ensures
        duration_parse(x) == duration_parse(x + seq!['m', 's']),
{
    let ms = seq!['m', 's'];
    let st = trim_start_seq(x);
    assert(st.len() > 0);
    lemma_trim_start_concat(x, ms);
    let t = st + ms;
    assert(t.last() == 's');
    assert(trim_end_seq(t) == t);
    assert(trim_seq(x + ms) == t);
    assert(t.subrange(0, t.len() - 2) == st);
    assert(t[t.len() - 2] == 'm');
    lemma_trim_start_twice(x);
    assert(trim_seq(st) == trim_seq(x));
    assert(duration_number(t) == (trim_seq(x), false));
    let t0 = trim_seq(x);
    assert(t0[t0.len() - 1] != 's');
    assert(duration_number(t0) == (t0, false));
}

/// A 3-digit color doubles each digit: `rgb` is `rrggbb`.
pub proof fn law_color_short_form(a: char, b: char, c: char)
    requires
        is_hex_char(a),
        is_hex_char(b),
        is_hex_char(c),
    ensures
        color_parse(seq![a, b, c]) is Ok,
        color_parse(seq![a, b, c]) == color_parse(seq![a, a, b, b, c, c]),
{
    let s3 = seq![a, b, c];
    let s6 = seq![a, a, b, b, c, c];
    assert(trim_start_seq(s3) == s3);
    assert(trim_end_seq(s3) == s3);
    assert(trim_start_seq(s6) == s6);
    assert(trim_end_seq(s6) == s6);
    assert(color_body(s3) == s3);
    assert(color_body(s6) == s6);
}

/// The value of a hex digit char: `0`-`9` count 0 to 9, `a`-`f` and
/// `A`-`F` count 10 to 15.
pub proof fn law_hex_digit_values(c: char)
    requires
        is_hex_char(c),
    ensures
        hex_value(c) < 16,
        '0' <= c <= '9' ==> hex_value(c) == c as u32 - 0x30,
        'a' <= c <= 'f' ==> hex_value(c) == c as u32 - 0x61 + 10,
        'A' <= c <= 'F' ==> hex_value(c) == c as u32 - 0x41 + 10,
{
}

/// A 6-digit color reads each channel from two hex digits, the first the
/// high one (`16 * high + low`): `#123456` is `(0x12, 0x34, 0x56)`. A
/// 3-digit color reads each channel from one digit `d` as `17 * d`
/// (`0xdd`). The `#` is optional.
pub proof fn law_color_channels(h: Seq<char>)
    requires
        h.len() == 3 || h.len() == 6,
        forall|i: int| 0 <= i < h.len() ==> is_hex_char(#[trigger] h[i]),
    ensures
        color_parse(h) == color_parse(seq!['#'] + h),
        color_parse(h) is Ok,
        h.len() == 6 ==> (color_parse(h) matches Ok(c) && c.0 == 16 * hex_value(h[0]) + hex_value(
            h[1],
        ) && c.1 == 16 * hex_value(h[2]) + hex_value(h[3]) && c.2 == 16 * hex_value(h[4])
            + hex_value(h[5])),
        h.len() == 3 ==> (color_parse(h) matches Ok(c) && c.0 == 17 * hex_value(h[0]) && c.1 == 17
            * hex_value(h[1]) && c.2 == 17 * hex_value(h[2])),
{
    law_color_hash_optional(h);
    assert(is_hex_char(h[0]) && is_hex_char(h.last()));
    assert(trim_start_seq(h) == h);
    assert(trim_end_seq(h) == h);
    assert(color_body(h) == h);
    assert(hex_value(h[0]) < 16 && hex_value(h[1]) < 16 && hex_value(h[2]) < 16);
    if h.len() == 6 {
        assert(hex_value(h[3]) < 16 && hex_value(h[4]) < 16 && hex_value(h[5]) < 16);
    }
}

/// The leading `#` of a color is optional.
pub proof fn law_color_hash_optional(h: Seq<char>)
    requires
        h.len() == 3 || h.len() == 6,
        forall|i: int| 0 <= i < h.len() ==> is_hex_char(#[trigger] h[i]),
    ensures
        color_parse(h) is Ok,
        color_parse(seq!['#'] + h) == color_parse(h),
{
    let s = seq!['#'] + h;
    assert(s[0] == '#');
    assert(s.last() == h.last());
    assert(is_hex_char(h[0]) && is_hex_char(h.last()));
    assert(trim_start_seq(h) == h);
    assert(trim_end_seq(h) == h);
    assert(trim_start_seq(s) == s);
    assert(trim_end_seq(s) == s);
    assert(s.drop_first() == h);
    assert(color_body(h) == h);
    assert(color_body(s) == h);
}

/// A color depends only on the values of its hex digits, so letter case
/// does not matter.
pub proof fn law_color_ignores_case(h1: Seq<char>, h2: Seq<char>)
    requires
        h1.len() == h2.len(),
        h1.len() == 3 || h1.len() == 6,
        forall|i: int| 0 <= i < h1.len() ==> is_hex_char(#[trigger] h1[i]),
        forall|i: int| 0 <= i < h2.len() ==> is_hex_char(#[trigger] h2[i]),
        forall|i: int| 0 <= i < h1.len() ==> hex_value(#[trigger] h1[i]) == hex_value(h2[i]),
    ensures
        color_parse(h1) == color_parse(h2),
{
    assert(is_hex_char(h1[0]) && is_hex_char(h1.last()));
    assert(is_hex_char(h2[0]) && is_hex_char(h2.last()));
    assert(trim_start_seq(h1) == h1);
    assert(trim_end_seq(h1) == h1);
    assert(trim_start_seq(h2) == h2);
    assert(trim_end_seq(h2) == h2);
    assert(color_body(h1) == h1);
    assert(color_body(h2) == h2);
    assert(hex_value(h1[0]) == hex_value(h2[0]));
    assert(hex_value(h1[1]) == hex_value(h2[1]));
    assert(hex_value(h1[2]) == hex_value(h2[2]));
    if h1.len() == 6 {
        assert(hex_value(h1[3]) == hex_value(h2[3]));
        assert(hex_value(h1[4]) == hex_value(h2[4]));
        assert(hex_value(h1[5]) == hex_value(h2[5]));
    }
}

/// A part of `s` cut out by trimming, as its bounds.
proof fn lemma_trimmed_part(s: Seq<char>) -> (r: (int, int))
    ensures
        0 <= r.0 <= r.1 <= s.len(),
        trim_seq(s) == s.subrange(r.0, r.1),
{
    lemma_trim_is_part(s);
    choose|a: int, b: int| 0 <= a <= b <= s.len() && trim_seq(s) == s.subrange(a, b)
}

/// The number of a duration is a part of its text.
proof fn lemma_number_is_part(t: Seq<char>) -> (r: (int, int))
    ensures
        0 <= r.0 <= r.1 <= t.len(),
        duration_number(t).0 == t.subrange(r.0, r.1),
{
    if t.len() >= 2 && t[t.len() - 2] == 'm' && t[t.len() - 1] == 's' {
        let x = t.subrange(0, t.len() - 2);
        let (a, b) = lemma_trimmed_part(x);
        assert(x.subrange(a, b) == t.subrange(a, b));
        (a, b)
    } else if t.len() >= 1 && t[t.len() - 1] == 's' {
        let x = t.drop_last();
        let (a, b) = lemma_trimmed_part(x);
        assert(x.subrange(a, b) == t.subrange(a, b));
        (a, b)
    } else {
        assert(t.subrange(0, t.len() as int) == t);
        (0, t.len() as int)
    }
}

/// A duration of at most 19 characters (white space around it aside)
/// with no exponent always fits: parsing it is never out of range.
pub proof fn law_short_durations_fit(s: Seq<char>)
    requires
        trim_seq(s).len() <= 19,
        forall|i: int| 0 <= i < s.len() ==> #[trigger] s[i] != 'e' && s[i] != 'E',
    ensures
        !(duration_parse(s) is OutOfRange),
{
    let t = trim_seq(s);
    let (a, b) = lemma_trimmed_part(s);
    let (c, d) = lemma_number_is_part(t);
    let n = duration_number(t).0;
    let p = duration_number(t).1;
    let u = unsigned_part(n);
    let off: int = if n.len() > 0 && (n[0] == '+' || n[0] == '-') {
        1
    } else {
        0
    };
    assert(u == n.subrange(off, n.len() as int));
    assert forall|i: int| 0 <= i < u.len() implies #[trigger] u[i] != 'e' && u[i] != 'E' by {
        assert(u[i] == n[off + i]);
        assert(n[off + i] == t[c + off + i]);
        assert(t[c + off + i] == s[a + c + off + i]);
    }
    lemma_first_of_bounds(u, 'e', 'E');
    assert(!has_exponent(u));
    assert(mantissa_text(u) == u);
    lemma_first_of_bounds(u, '.', '.');
    let digits = int_digits(u) + frac_digits(u);
    assert(digits.len() <= 19);
    if duration_parse(s) is OutOfRange {
        let m = mantissa_value(u);
        let k = scale_of(u);
        assert(k == -(frac_digits(u).len() as int));
        assert(all_digits(digits)) by {
            assert forall|i: int| 0 <= i < digits.len() implies is_digit_char(#[trigger] digits[i]) by {
                if i < int_digits(u).len() {
                    assert(digits[i] == int_digits(u)[i]);
                } else {
                    assert(digits[i] == frac_digits(u)[i - int_digits(u).len()]);
                }
            }
        }
        lemma_digits_upper(digits);
        lemma_pow10_mono(digits.len(), 19);
        lemma_limit_digits();
        lemma_significant_bounds(SECONDS_LIMIT_DIGITS@);
        lemma_significant_bounds(MILLIS_LIMIT_DIGITS@);
        lemma_pow10_mono(19, 22);
        let lim = unit_limit(p);
        assert(lim >= pow10(19));
        let y = pow10((-k) as nat);
        lemma_pow10_pos((-k) as nat);
        assert(pow10(0) == 1);
        assert(lim * y >= lim) by (nonlinear_arith)
            requires
                y >= 1,
        ;
        assert(m * pow10(0) == m);
        assert(lim * pow10(0) == lim);
        assert(m < lim * y);
        assert(compare_scaled(m, k, lim, 0) == -1);
    }
}

} // verus!
