use std::time::{Duration as StdDuration, Instant};

use jiwa::color::Rgb;
use jiwa::pulse::{PulseHandle, PulseOpts};
use jiwa::time::Duration;

fn opts() -> PulseOpts {
    PulseOpts { period: Duration::from_millis(1000), color_dim: Rgb(0, 0, 0), color_bright: Rgb(200, 200, 200) }
}

#[test]
fn default_matches_cyan_breath_preset() {
    let a = PulseOpts::default();
    let b = PulseOpts::cyan_breath();
    assert_eq!(a.period, b.period);
    assert_eq!(a.color_dim, b.color_dim);
    assert_eq!(a.color_bright, b.color_bright);
}

#[test]
fn pulse_phase_starts_at_zero() {
    let now = Instant::now();
    let h = PulseHandle::start_at("♪", opts(), now);
    assert_eq!(h.phase(now), Some(Duration::zero()));
    assert_eq!(h.text(), "♪");
}

#[test]
fn pulse_phase_half_and_full_period() {
    let h = PulseHandle::start_at("♪", opts(), Instant::now());
    assert_eq!(h.phase_after(Duration::from_millis(500)), Some(Duration::from_millis(500)));
    assert_eq!(h.phase_after(Duration::from_millis(1000)), Some(Duration::zero()));
    assert_eq!(h.phase_after(Duration::from_millis(250)), Some(Duration::from_millis(250)));
}

#[test]
fn pulse_phase_repeats_each_period() {
    let h = PulseHandle::start_at("♪", opts(), Instant::now());
    assert_eq!(h.phase_after(Duration::from_millis(300)), h.phase_after(Duration::from_millis(1300)));
}

#[test]
fn pulse_zero_period_has_no_phase() {
    let mut o = opts();
    o.period = Duration::zero();
    let now = Instant::now();
    let h = PulseHandle::start_at("♪", o, now);
    assert_eq!(h.phase(now + StdDuration::from_millis(10)), None);
    assert_eq!(h.opts().color_bright, Rgb(200, 200, 200));
}

#[test]
fn pulse_text_is_passed_through() {
    let h = PulseHandle::start("●", opts());
    assert_eq!(h.text(), "●");
}
