//! Typewriter reveal: which graphemes are visible at a given moment and
//! how long each has been visible.
//!
//! Timing model: the first grapheme is visible from the start (`t = 0`);
//! the `i`-th appears at `i * char_interval`; each then fades from
//! `fade_from` to `fade_to` over `fade_duration`. A zero `char_interval`
//! shows every grapheme at once; a zero `fade_duration` makes each appear
//! at its final color. Graphemes are extended grapheme clusters, so
//! combining marks and emoji sequences appear as one unit.

use vstd::prelude::*;

use crate::color::Rgb;
use crate::text::{grapheme_clusters, split_graphemes, string_views};
use crate::time::{instant_now, span_between, Duration, MAX_NANOS};

verus! {

/// Number of distinct values of a `u32`.
pub open spec fn u32_modulus() -> nat {
    0x1_0000_0000nat
}

/// How many of `n` graphemes are visible `elapsed` nanoseconds after the
/// start, when they appear `interval` nanoseconds apart.
pub open spec fn visible_after(n: nat, interval: nat, elapsed: nat) -> nat {
    if n == 0 {
        0
    } else if interval == 0 {
        n
    } else if elapsed / interval + 1 < n {
        elapsed / interval + 1
    } else {
        n
    }
}

/// The moment (in nanoseconds from the start) at which grapheme `i`
/// appears: `interval * i`, the index taken as a `u32` as the timing
/// arithmetic does.
pub open spec fn appearance(interval: nat, i: nat) -> nat {
    interval * (i % u32_modulus())
}

/// Time from the start until the last of `n > 0` graphemes has finished
/// fading.
pub open spec fn total_runtime(n: nat, interval: nat, fade: nat) -> nat {
    appearance(interval, (n - 1) as nat) + fade
}

/// True once all `n` graphemes have appeared and finished fading.
pub open spec fn done_after(n: nat, interval: nat, fade: nat, elapsed: nat) -> bool {
    n == 0 || elapsed >= total_runtime(n, interval, fade)
}

/// `a - b`, or zero when `b > a`.
pub open spec fn saturating_diff(a: nat, b: nat) -> nat {
    if a >= b { (a - b) as nat } else { 0 }
}

/// The reveal only moves forward: a later moment never shows fewer
/// graphemes than an earlier one.
pub proof fn law_visible_is_monotone(n: nat, interval: nat, early: nat, late: nat)
    requires
        early <= late,
    ensures
        visible_after(n, interval, early) <= visible_after(n, interval, late),
{
    if n > 0 && interval > 0 {
        vstd::arithmetic::div_mod::lemma_div_is_ordered(early as int, late as int, interval as int);
    }
}

/// The first grapheme is visible the moment the reveal starts, and with a
/// non-zero interval it is the only one.
pub proof fn law_first_grapheme_at_start(n: nat, interval: nat)
    requires
        n > 0,
    ensures
        visible_after(n, interval, 0) >= 1,
        interval > 0 ==> visible_after(n, interval, 0) == 1,
{
}

/// The typewriter advances one grapheme per interval: `k` intervals after
/// the start, `k + 1` graphemes are visible (at most all of them).
pub proof fn law_one_grapheme_per_interval(n: nat, interval: nat, k: nat)
    requires
        n > 0,
        interval > 0,
    ensures
        visible_after(n, interval, k * interval) == if k + 1 < n { k + 1 } else { n },
{
    assert(k * interval == interval * k) by (nonlinear_arith);
    vstd::arithmetic::div_mod::lemma_div_multiples_vanish(k as int, interval as int);
}

/// A reveal of empty text has no grapheme: nothing is ever visible, and
/// it is done from the start.
pub proof fn law_empty_text_reveals_nothing(interval: nat, fade: nat, elapsed: nat)
    ensures
        visible_after(0, interval, elapsed) == 0,
        done_after(0, interval, fade, elapsed),
{
}

/// A zero interval shows the whole text at once.
pub proof fn law_zero_interval_shows_all(n: nat, elapsed: nat)
    ensures
        visible_after(n, 0, elapsed) == n,
{
}

/// Once the reveal is done, every grapheme is visible (the count of
/// graphemes is within the range of the `u32` timing index).
pub proof fn law_done_shows_all(n: nat, interval: nat, fade: nat, elapsed: nat)
    requires
        n <= u32_modulus(),
        done_after(n, interval, fade, elapsed),
    ensures
        visible_after(n, interval, elapsed) == n,
{
    if n > 0 && interval > 0 {
        let k = (n - 1) as nat;
        assert(k % u32_modulus() == k) by {
            vstd::arithmetic::div_mod::lemma_small_mod(k, u32_modulus());
        }
        assert(elapsed >= interval * k);
        vstd::arithmetic::div_mod::lemma_div_multiples_vanish(k as int, interval as int);
        vstd::arithmetic::div_mod::lemma_div_is_ordered((interval * k) as int, elapsed as int, interval as int);
    }
}

/// Once done, a reveal stays done.
pub proof fn law_done_is_stable(n: nat, interval: nat, fade: nat, early: nat, late: nat)
    requires
        early <= late,
        done_after(n, interval, fade, early),
    ensures
        done_after(n, interval, fade, late),
{
}

/// Every visible grapheme has already appeared: its appearance time is
/// not after the moment asked about.
pub proof fn law_visible_graphemes_have_appeared(n: nat, interval: nat, elapsed: nat, i: nat)
    requires
        i < visible_after(n, interval, elapsed),
    ensures
        appearance(interval, i) <= elapsed,
{
    if interval > 0 {
        let w = i % u32_modulus();
        vstd::arithmetic::div_mod::lemma_mod_decreases(i, u32_modulus());
        vstd::arithmetic::div_mod::lemma_fundamental_div_mod(elapsed as int, interval as int);
        let q = elapsed / interval;
        assert(i <= q);
        assert(interval * w <= interval * q) by (nonlinear_arith)
            requires
                w <= i,
                i <= q,
        ;
    }
}

/// Tunables for one reveal animation.
#[derive(Debug, Clone, Copy)]
pub struct RevealOpts {
    /// Time between successive grapheme appearances; zero shows every
    /// grapheme at once.
    pub char_interval: Duration,
    /// How long each grapheme fades from `fade_from` to `fade_to`; zero
    /// shows each at `fade_to` at once.
    pub fade_duration: Duration,
    /// Color of a grapheme the moment it appears.
    pub fade_from: Rgb,
    /// Color of a grapheme once its fade is over.
    pub fade_to: Rgb,
}

impl RevealOpts {
    /// Preset for problem text on a dark terminal: 45 ms typewriter step,
    /// 320 ms fade from a deep gray to a soft green.
    pub fn soft_green() -> (o: Self)
        ensures
            o.char_interval@ == 45_000_000,
            o.fade_duration@ == 320_000_000,
            o.fade_from == Rgb(60, 60, 60),
            o.fade_to == Rgb(160, 220, 160),
    {
        RevealOpts {
            char_interval: Duration::from_millis(45),
            fade_duration: Duration::from_millis(320),
            fade_from: Rgb(60, 60, 60),
            fade_to: Rgb(160, 220, 160),
        }
    }
}

impl Default for RevealOpts {
    /// Same as [`RevealOpts::soft_green`].
    fn default() -> (o: Self)
        ensures
            o.char_interval@ == 45_000_000,
            o.fade_duration@ == 320_000_000,
            o.fade_from == Rgb(60, 60, 60),
            o.fade_to == Rgb(160, 220, 160),
    {
        Self::soft_green()
    }
}

/// One visible grapheme: its text and how long it has been visible.
#[derive(Debug, Clone)]
pub struct VisibleGrapheme {
    /// The grapheme cluster to draw.
    pub text: String,
    /// Time since this grapheme appeared.
    pub age: Duration,
}

/// One in-flight reveal.
#[derive(Debug)]
pub struct RevealHandle {
    graphemes: Vec<String>,
    started_at: std::time::Instant,
    opts: RevealOpts,
}

impl RevealHandle {
    /// The graphemes of the source text.
    pub closed spec fn graphemes_view(&self) -> Seq<Seq<char>> {
        string_views(self.graphemes@)
    }

    /// The options the reveal was started with.
    pub closed spec fn opts_view(&self) -> RevealOpts {
        self.opts
    }

    /// The clock reading the reveal is anchored to.
    pub closed spec fn started_view(&self) -> std::time::Instant {
        self.started_at
    }

    /// Number of graphemes.
    pub open spec fn len_view(&self) -> nat {
        self.graphemes_view().len()
    }

    /// The time until the reveal is done stays within the range of a
    /// duration: the last grapheme's appearance plus the fade fits.
    pub open spec fn timing_fits(&self) -> bool {
        self.len_view() > 0 ==> total_runtime(
            self.len_view(),
            self.opts_view().char_interval@,
            self.opts_view().fade_duration@,
        ) <= MAX_NANOS
    }

    /// Start a reveal of `text` anchored to `now`. Its graphemes are the
    /// extended grapheme clusters of `text`: none is empty, and joined in
    /// order they give `text` back (so empty text has none).
    pub fn start_at(text: &str, opts: RevealOpts, now: std::time::Instant) -> (h: Self)
        ensures
            h.graphemes_view() == grapheme_clusters(text@),
            h.graphemes_view().flatten() == text@,
            forall|i: int| 0 <= i < h.len_view() ==> (#[trigger] h.graphemes_view()[i]).len() > 0,
            h.len_view() == 0 <==> text@.len() == 0,
            h.opts_view() == opts,
            h.started_view() == now,
    {
        let graphemes = split_graphemes(text);
        let h = RevealHandle { graphemes, started_at: now, opts };
        proof {
            let gs = h.graphemes_view();
            assert(gs == string_views(h.graphemes@));
            assert forall|i: int| 0 <= i < gs.len() implies (#[trigger] gs[i]).len() > 0 by {
                assert(gs[i] == h.graphemes@[i]@);
            }
            if gs.len() > 0 {
                assert(gs.flatten() == gs.first() + gs.drop_first().flatten());
                assert(gs.first() == gs[0]);
            }
        }
        h
    }

    /// Start a reveal of `text` anchored to the current clock reading.
    pub fn start(text: &str, opts: RevealOpts) -> (h: Self)
        ensures
            h.graphemes_view() == grapheme_clusters(text@),
            h.graphemes_view().flatten() == text@,
            forall|i: int| 0 <= i < h.len_view() ==> (#[trigger] h.graphemes_view()[i]).len() > 0,
            h.len_view() == 0 <==> text@.len() == 0,
            h.opts_view() == opts,
    {
        Self::start_at(text, opts, instant_now())
    }

    /// Total grapheme count of the source text.
    pub fn total_graphemes(&self) -> (n: usize)
        ensures
            n == self.len_view(),
    {
        self.graphemes.len()
    }

    /// The options the reveal was started with.
    pub fn opts(&self) -> (o: RevealOpts)
        ensures
            o == self.opts_view(),
    {
        self.opts
    }

    /// True when the time until the reveal is done fits in a duration
    /// ([`RevealHandle::timing_fits`]); beyond it, `std::time::Duration`
    /// arithmetic would overflow.
    pub fn timing_in_range(&self) -> (b: bool)
        ensures
            b == self.timing_fits(),
    {
        let n = self.graphemes.len();
        if n == 0 {
            return true;
        }
        let last = (n - 1) as u64;
        let wrapped: u64 = last % 0x1_0000_0000u64;
        let iv = self.opts.char_interval.as_nanos();
        let fade = self.opts.fade_duration.as_nanos();
        let ghost interval = self.opts_view().char_interval@;
        assert(self.len_view() == n);
        assert((last as nat) % u32_modulus() == wrapped);
        if wrapped > 0 && iv > crate::time::MAX_NANOS / (wrapped as u128) {
            proof {
                let mx = MAX_NANOS as int;
                let t = wrapped as int;
                let x = iv as int;
                assert(x * t > mx) by (nonlinear_arith)
                    requires
                        t > 0,
                        mx >= 0,
                        x > mx / t,
                ;
            }
            return false;
        }
        proof {
            let mx = MAX_NANOS as int;
            let t = wrapped as int;
            let x = iv as int;
            assert(t == 0 || x <= mx / t);
            assert(x * t <= mx) by (nonlinear_arith)
                requires
                    t >= 0,
                    mx >= 0,
                    t == 0 || x <= mx / t,
            ;
        }
        let at_last = iv * (wrapped as u128);
        at_last <= crate::time::MAX_NANOS - fade
    }

    /// How many graphemes are visible `elapsed` after the start.
    pub fn visible_count_after(&self, elapsed: Duration) -> (n: usize)
        ensures
            n == visible_after(self.len_view(), self.opts_view().char_interval@, elapsed@),
    {
        let total = self.graphemes.len();
        if total == 0 {
            return 0;
        }
        if self.opts.char_interval.is_zero() {
            return total;
        }
        let steps = elapsed.as_nanos() / self.opts.char_interval.as_nanos();
        if steps < total as u128 - 1 {
            (steps + 1) as usize
        } else {
            total
        }
    }

    /// How many graphemes are visible at `now` (whether or not they have
    /// finished fading).
    pub fn visible_count(&self, now: std::time::Instant) -> (n: usize)
        ensures
            exists|elapsed: nat|
                n == #[trigger] visible_after(
                    self.len_view(),
                    self.opts_view().char_interval@,
                    elapsed,
                ),
            n <= self.len_view(),
            self.len_view() > 0 ==> n >= 1,
            self.opts_view().char_interval@ == 0 ==> n == self.len_view(),
            now == self.started_view() ==> n == visible_after(
                self.len_view(),
                self.opts_view().char_interval@,
                0,
            ),
    {
        let elapsed = span_between(now, self.started_at);
        self.visible_count_after(elapsed)
    }

    /// The visible graphemes `elapsed` after the start, each with the time
    /// since it appeared. Hidden graphemes are absent.
    pub fn frame_after(&self, elapsed: Duration) -> (f: Vec<VisibleGrapheme>)
        ensures
            f.len() == visible_after(self.len_view(), self.opts_view().char_interval@, elapsed@),
            forall|i: int|
                0 <= i < f.len() ==> {
                    &&& (#[trigger] f@[i]).text@ == self.graphemes_view()[i]
                    &&& f@[i].age@ == saturating_diff(
                        elapsed@,
                        appearance(self.opts_view().char_interval@, i as nat),
                    )
                },
    {
        let visible = self.visible_count_after(elapsed);
        // a duration never exceeds `MAX_NANOS`, which bounds every age below
        let _ = elapsed.as_nanos();
        let mut out: Vec<VisibleGrapheme> = Vec::new();
        let mut i: usize = 0;
        while i < visible
            invariant
                elapsed@ <= MAX_NANOS,
                visible == visible_after(self.len_view(), self.opts_view().char_interval@, elapsed@),
                visible <= self.len_view(),
                self.len_view() == self.graphemes@.len(),
                i <= visible,
                out.len() == i,
                forall|j: int|
                    0 <= j < i ==> {
                        &&& (#[trigger] out@[j]).text@ == self.graphemes_view()[j]
                        &&& out@[j].age@ == saturating_diff(
                            elapsed@,
                            appearance(self.opts_view().char_interval@, j as nat),
                        )
                    },
            decreases visible - i,
        {
            let i32 = (i as u64 % 0x1_0000_0000u64) as u32;
            proof {
                law_visible_graphemes_have_appeared(
                    self.len_view(),
                    self.opts_view().char_interval@,
                    elapsed@,
                    i as nat,
                );
            }
            let appeared = self.opts.char_interval.mul_u32(i32);
            let age = elapsed.saturating_sub(appeared);
            let text = self.graphemes[i].clone();
            out.push(VisibleGrapheme { text, age });
            i = i + 1;
        }
        out
    }

    /// The visible graphemes at `now`, each with the time since it
    /// appeared.
    pub fn frame(&self, now: std::time::Instant) -> (f: Vec<VisibleGrapheme>)
        ensures
            exists|elapsed: nat|
                f.len() == #[trigger] visible_after(
                    self.len_view(),
                    self.opts_view().char_interval@,
                    elapsed,
                ) && forall|i: int|
                    0 <= i < f.len() ==> (#[trigger] f@[i]).age@ == saturating_diff(
                        elapsed,
                        appearance(self.opts_view().char_interval@, i as nat),
                    ),
            forall|i: int| 0 <= i < f.len() ==> (#[trigger] f@[i]).text@ == self.graphemes_view()[i],
            now == self.started_view() ==> f.len() == visible_after(
                self.len_view(),
                self.opts_view().char_interval@,
                0,
            ),
    {
        let elapsed = span_between(now, self.started_at);
        self.frame_after(elapsed)
    }

    /// True once every grapheme has appeared and finished fading,
    /// `elapsed` after the start.
    pub fn is_done_after(&self, elapsed: Duration) -> (b: bool)
        requires
            self.timing_fits(),
        ensures
            b == done_after(
                self.len_view(),
                self.opts_view().char_interval@,
                self.opts_view().fade_duration@,
                elapsed@,
            ),
    {
        let total = self.graphemes.len();
        if total == 0 {
            return true;
        }
        let k = total - 1;
        // the index as a `u32`, wrapping as the cast does
        let k32 = (k as u64 % 0x1_0000_0000u64) as u32;
        let appearance_all = self.opts.char_interval.mul_u32(k32);
        let runtime = appearance_all.add(self.opts.fade_duration);
        elapsed.ge(runtime)
    }

    /// True once every grapheme has appeared and finished fading at `now`.
    pub fn is_done(&self, now: std::time::Instant) -> (b: bool)
        requires
            self.timing_fits(),
        ensures
            self.len_view() == 0 ==> b,
            exists|elapsed: nat|
                b == #[trigger] done_after(
                    self.len_view(),
                    self.opts_view().char_interval@,
                    self.opts_view().fade_duration@,
                    elapsed,
                ),
            now == self.started_view() ==> b == done_after(
                self.len_view(),
                self.opts_view().char_interval@,
                self.opts_view().fade_duration@,
                0,
            ),
    {
        let elapsed = span_between(now, self.started_at);
        self.is_done_after(elapsed)
    }
}

} // verus!
