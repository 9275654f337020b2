use std::time::{Duration as StdDuration, Instant};

use jiwa::color::Rgb;
use jiwa::time::Duration;
use jiwa::typewriter::{RevealHandle, RevealOpts};

fn opts() -> RevealOpts {
    RevealOpts {
        char_interval: Duration::from_millis(50),
        fade_duration: Duration::from_millis(100),
        fade_from: Rgb(0, 0, 0),
        fade_to: Rgb(200, 200, 200),
    }
}

fn epoch() -> Instant {
    Instant::now()
}

fn ms(n: u64) -> StdDuration {
    StdDuration::from_millis(n)
}

#[test]
fn typewriter_advances_one_grapheme_per_interval() {
    let now = epoch();
    let h = RevealHandle::start_at("abcd", opts(), now);
    assert_eq!(h.visible_count(now), 1);
    assert_eq!(h.visible_count(now + ms(50)), 2);
    assert_eq!(h.visible_count(now + ms(100)), 3);
    assert_eq!(h.visible_count(now + ms(150)), 4);
    assert_eq!(h.visible_count(now + ms(500)), 4);
}

#[test]
fn is_done_reports_when_last_grapheme_finishes_fading() {
    let now = epoch();
    let h = RevealHandle::start_at("abc", opts(), now);
    assert!(!h.is_done(now));
    assert!(!h.is_done(now + ms(150)));
    assert!(!h.is_done(now + ms(199)));
    assert!(h.is_done(now + ms(200)));
    assert!(h.is_done(now + ms(500)));
}

#[test]
fn default_matches_soft_green_preset() {
    let a = RevealOpts::default();
    let b = RevealOpts::soft_green();
    assert_eq!(a.char_interval, b.char_interval);
    assert_eq!(a.fade_duration, b.fade_duration);
    assert_eq!(a.fade_from, b.fade_from);
    assert_eq!(a.fade_to, b.fade_to);
}

// ---- visible graphemes and their ages ----

#[test]
fn first_grapheme_is_visible_with_age_zero_at_start() {
    let now = epoch();
    let h = RevealHandle::start_at("abc", opts(), now);
    let f = h.frame(now);
    assert_eq!(f.len(), 1);
    assert_eq!(f[0].text, "a");
    assert_eq!(f[0].age, Duration::zero());
}

#[test]
fn later_graphemes_age_from_their_own_appearance() {
    let h = RevealHandle::start_at("ab", opts(), epoch());
    let f = h.frame_after(Duration::from_millis(50));
    assert_eq!(f.len(), 2);
    assert_eq!(f[0].age, Duration::from_millis(50));
    assert_eq!(f[1].age, Duration::zero());
}

#[test]
fn iterates_grapheme_clusters_not_chars() {
    let now = epoch();
    let h = RevealHandle::start_at("e\u{0301}f", opts(), now);
    assert_eq!(h.total_graphemes(), 2);
    let f = h.frame(now);
    assert_eq!(f.len(), 1);
    assert_eq!(f[0].text, "e\u{0301}");
}

#[test]
fn handles_japanese_text() {
    let h = RevealHandle::start_at("東京特許許可局", opts(), epoch());
    assert_eq!(h.total_graphemes(), 7);
    let f = h.frame_after(Duration::from_millis(150));
    assert_eq!(f.len(), 4);
    assert_eq!(f[0].text, "東");
    assert_eq!(f[3].text, "許");
}

#[test]
fn empty_text_has_no_graphemes() {
    let now = epoch();
    let h = RevealHandle::start_at("", opts(), now);
    assert_eq!(h.total_graphemes(), 0);
    assert_eq!(h.visible_count(now), 0);
    assert!(h.is_done(now));
    assert!(h.frame(now).is_empty());
}

#[test]
fn zero_interval_shows_everything_at_once() {
    let mut o = opts();
    o.char_interval = Duration::zero();
    let h = RevealHandle::start_at("abcd", o, epoch());
    assert_eq!(h.visible_count_after(Duration::zero()), 4);
    let f = h.frame_after(Duration::from_millis(50));
    assert_eq!(f.len(), 4);
    for g in &f {
        assert_eq!(g.age, Duration::from_millis(50));
    }
}

#[test]
fn done_after_matches_last_appearance_plus_fade() {
    let h = RevealHandle::start_at("abc", opts(), epoch());
    assert!(!h.is_done_after(Duration::from_millis(199)));
    assert!(h.is_done_after(Duration::from_millis(200)));
}

#[test]
fn timing_in_range_checks_the_last_appearance() {
    let h = RevealHandle::start_at("abc", opts(), epoch());
    assert!(h.timing_in_range());
    let huge = RevealOpts {
        char_interval: Duration::from_secs(u64::MAX),
        fade_duration: Duration::zero(),
        fade_from: Rgb(0, 0, 0),
        fade_to: Rgb(0, 0, 0),
    };
    assert!(!RevealHandle::start_at("abc", huge, epoch()).timing_in_range());
    assert!(RevealHandle::start_at("a", huge, epoch()).timing_in_range());
    let h = RevealHandle::start_at("ab", huge, epoch());
    assert!(h.timing_in_range());
}

#[test]
fn opts_returns_the_start_options() {
    let h = RevealHandle::start_at("abc", opts(), epoch());
    assert_eq!(h.opts().fade_to, Rgb(200, 200, 200));
    assert_eq!(h.opts().char_interval, Duration::from_millis(50));
}

#[test]
fn law_examples_typewriter() {
    let h = RevealHandle::start_at("abcdef", opts(), epoch());
    // Monotone: later never shows fewer.
    let mut prev = 0;
    for t in 0..400 {
        let n = h.visible_count_after(Duration::from_millis(t));
        assert!(n >= prev);
        prev = n;
    }
    // Done is stable and shows everything.
    assert!(h.is_done_after(Duration::from_millis(350)));
    assert!(h.is_done_after(Duration::from_millis(351)));
    assert_eq!(h.visible_count_after(Duration::from_millis(350)), 6);
}

#[test]
fn full_frame_joins_back_to_the_text() {
    let text = "e\u{0301}\u{1F468}\u{200D}\u{1F469}\u{200D}\u{1F467} 東京";
    let h = RevealHandle::start_at(text, opts(), epoch());
    assert_eq!(h.total_graphemes(), 5);
    let f = h.frame_after(Duration::from_secs(10));
    assert_eq!(f.len(), h.total_graphemes());
    assert!(f.iter().all(|g| !g.text.is_empty()));
    assert_eq!(f.iter().map(|g| g.text.as_str()).collect::<String>(), text);
}
