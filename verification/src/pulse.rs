//! Single-symbol "breathing" animation.
//!
//! A [`PulseHandle`] cycles one symbol between a dim and a bright color.
//! The wave starts at the dim end, reaches the bright end at half a
//! period and is back at the dim end after a full period; it depends on
//! the elapsed time only through its phase within the period, which this
//! module computes exactly. A zero period pins the symbol at the bright
//! end.

use vstd::prelude::*;

use crate::color::Rgb;
use crate::time::{instant_now, span_between, Duration};

verus! {

/// Tunables for one pulse animation.
#[derive(Debug, Clone, Copy)]
pub struct PulseOpts {
    /// One full cycle: dim, bright, dim again. Zero means "static at the
    /// bright end".
    pub period: Duration,
    /// Color at the start of each cycle.
    pub color_dim: Rgb,
    /// Color at the middle of each cycle.
    pub color_bright: Rgb,
}

impl PulseOpts {
    /// About a 1.5 s breath from a muted teal to a bright cyan, for a "now
    /// playing" indicator on a dark terminal.
    pub fn cyan_breath() -> (o: Self)
        ensures
            o.period@ == 1_500_000_000,
            o.color_dim == Rgb(40, 60, 80),
            o.color_bright == Rgb(80, 200, 255),
    {
        PulseOpts {
            period: Duration::from_millis(1500),
            color_dim: Rgb(40, 60, 80),
            color_bright: Rgb(80, 200, 255),
        }
    }
}

impl Default for PulseOpts {
    /// Same as [`PulseOpts::cyan_breath`].
    fn default() -> (o: Self)
        ensures
            o.period@ == 1_500_000_000,
            o.color_dim == Rgb(40, 60, 80),
            o.color_bright == Rgb(80, 200, 255),
    {
        Self::cyan_breath()
    }
}

/// Where within its cycle a pulse of period `period` is, `elapsed` after
/// the start; `None` for a zero period, which has no cycle.
pub open spec fn phase_of(period: nat, elapsed: nat) -> Option<nat> {
    if period == 0 {
        None
    } else {
        Some(elapsed % period)
    }
}

/// The pulse repeats each period: one period later it is at the same
/// phase.
pub proof fn law_pulse_repeats_each_period(period: nat, elapsed: nat)
    ensures
        phase_of(period, elapsed + period) == phase_of(period, elapsed),
{
    if period > 0 {
        vstd::arithmetic::div_mod::lemma_mod_add_multiples_vanish(elapsed as int, period as int);
    }
}

/// The phase always lies within the period.
pub proof fn law_phase_within_period(period: nat, elapsed: nat)
    requires
        period > 0,
    ensures
        phase_of(period, elapsed) matches Some(p) && p < period,
{
}

/// One in-flight pulse.
#[derive(Debug)]
pub struct PulseHandle {
    text: String,
    started_at: std::time::Instant,
    opts: PulseOpts,
}

impl PulseHandle {
    /// The symbol being pulsed.
    pub closed spec fn text_view(&self) -> Seq<char> {
        self.text@
    }

    /// The options the pulse was started with.
    pub closed spec fn opts_view(&self) -> PulseOpts {
        self.opts
    }

    /// The clock reading the pulse is anchored to.
    pub closed spec fn started_view(&self) -> std::time::Instant {
        self.started_at
    }

    /// Anchor a pulse of `text` at `now`.
    pub fn start_at(text: &str, opts: PulseOpts, now: std::time::Instant) -> (h: Self)
        ensures
            h.text_view() == text@,
            h.opts_view() == opts,
            h.started_view() == now,
    {
        PulseHandle { text: text.to_owned(), started_at: now, opts }
    }

    /// Anchor a pulse of `text` at the current clock reading.
    pub fn start(text: &str, opts: PulseOpts) -> (h: Self)
        ensures
            h.text_view() == text@,
            h.opts_view() == opts,
    {
        Self::start_at(text, opts, instant_now())
    }

    /// The symbol being pulsed.
    pub fn text(&self) -> (t: &str)
        ensures
            t@ == self.text_view(),
    {
        self.text.as_str()
    }

    /// The options the pulse was started with.
    pub fn opts(&self) -> (o: PulseOpts)
        ensures
            o == self.opts_view(),
    {
        self.opts
    }

    /// Phase within the cycle `elapsed` after the start; `None` for a zero
    /// period.
    pub fn phase_after(&self, elapsed: Duration) -> (p: Option<Duration>)
        ensures
            p matches Some(d) ==> phase_of(self.opts_view().period@, elapsed@) == Some(d@),
            p is None <==> phase_of(self.opts_view().period@, elapsed@) is None,
    {
        if self.opts.period.is_zero() {
            None
        } else {
            Some(elapsed.rem(self.opts.period))
        }
    }

    /// Phase within the cycle at `now`; `None` for a zero period.
    pub fn phase(&self, now: std::time::Instant) -> (p: Option<Duration>)
        ensures
            p is None <==> self.opts_view().period@ == 0,
            p matches Some(d) ==> d@ < self.opts_view().period@,
            now == self.started_view() ==> (p matches Some(d) ==> d@ == 0),
    {
        let elapsed = span_between(now, self.started_at);
        self.phase_after(elapsed)
    }
}

} // verus!
