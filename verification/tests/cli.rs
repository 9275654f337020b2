use jiwa::cli::{
    parse_args, parse_color, parse_duration, parse_unit, read_duration, Action, CliOpts, DurationLiteral,
    FPS_MAX, FPS_MIN,
};
use jiwa::color::Rgb;
use jiwa::reader::Unit;
use jiwa::time::Duration;

/// The span a checked literal stands for, as the program computes it: the
/// `f64` of the number, scaled to seconds, through `from_secs_f64`.
fn dur(lit: &DurationLiteral) -> Duration {
    let value: f64 = lit.number.parse().unwrap();
    let scale = if lit.seconds { 1.0 } else { 1e-3 };
    let span = std::time::Duration::from_secs_f64(value * scale);
    Duration::from_nanos_u128(span.as_nanos())
}

/// `parse_duration` followed by that float step.
fn pd(s: &str) -> Duration {
    dur(&parse_duration(s).unwrap())
}

#[test]
fn parse_duration_units() {
    assert_eq!(pd("200ms"), Duration::from_millis(200));
    assert_eq!(pd("1s"), Duration::from_secs(1));
    assert_eq!(pd("1.5s"), Duration::from_millis(1500));
    // Bare number is milliseconds.
    assert_eq!(pd("50"), Duration::from_millis(50));
    assert_eq!(pd("0"), Duration::zero());
}

#[test]
fn parse_duration_rejects_garbage() {
    assert!(parse_duration("").is_err());
    assert!(parse_duration("abc").is_err());
    assert!(parse_duration("-5ms").is_err());
    assert!(parse_duration("ms").is_err());
}

#[test]
fn parse_color_forms() {
    assert_eq!(parse_color("#ff00aa").unwrap(), Rgb(255, 0, 170));
    assert_eq!(parse_color("ff00aa").unwrap(), Rgb(255, 0, 170));
    assert_eq!(parse_color("#f0a").unwrap(), Rgb(255, 0, 170));
    assert_eq!(parse_color("f0a").unwrap(), Rgb(255, 0, 170));
}

#[test]
fn parse_color_rejects_garbage() {
    assert!(parse_color("#xyz").is_err());
    assert!(parse_color("12345").is_err());
    assert!(parse_color("").is_err());
}

#[test]
fn parse_args_defaults_to_run() {
    let empty: [&str; 0] = [];
    assert_eq!(parse_args(&empty).unwrap(), Action::Run(CliOpts::default()));
}

#[test]
fn parse_args_help_and_version() {
    assert_eq!(parse_args(&["--help"]).unwrap(), Action::Help);
    assert_eq!(parse_args(&["-h"]).unwrap(), Action::Help);
    assert_eq!(parse_args(&["--version"]).unwrap(), Action::Version);
    assert_eq!(parse_args(&["-V"]).unwrap(), Action::Version);
}

#[test]
fn parse_args_maps_flags() {
    let action = parse_args(&[
        "--fade",
        "200ms",
        "--stagger",
        "30ms",
        "--from",
        "#000",
        "--to",
        "#fff",
        "--fps",
        "30",
    ])
    .unwrap();
    let Action::Run(opts) = action else {
        panic!("expected Run");
    };
    assert_eq!(dur(&opts.fade), Duration::from_millis(200));
    assert_eq!(dur(&opts.stagger), Duration::from_millis(30));
    assert_eq!(opts.from, Rgb(0, 0, 0));
    assert_eq!(opts.to, Rgb(255, 255, 255));
    assert_eq!(opts.fps, 30);
}

#[test]
fn parse_args_clamps_fps() {
    let Action::Run(opts) = parse_args(&["--fps", "9999"]).unwrap() else {
        panic!();
    };
    assert_eq!(opts.fps, FPS_MAX);
    let Action::Run(opts) = parse_args(&["--fps", "0"]).unwrap() else {
        panic!();
    };
    assert_eq!(opts.fps, FPS_MIN);
}

#[test]
fn parse_args_rejects_unknown_and_missing() {
    assert!(parse_args(&["--nope"]).is_err());
    assert!(parse_args(&["--fade"]).is_err());
    assert!(parse_args(&["--fade", "bad"]).is_err());
}

#[test]
fn parse_duration_leading_dot() {
    // A bare-leading-dot decimal with a `s` suffix: `.5s` == 500ms.
    assert_eq!(pd(".5s"), Duration::from_millis(500));
}

#[test]
fn parse_duration_surrounding_whitespace() {
    // Outer whitespace is trimmed; a bare number is milliseconds.
    assert_eq!(pd(" 50 "), Duration::from_millis(50));
}

#[test]
fn parse_duration_rejects_multiple_dots() {
    assert!(parse_duration("1.2.3").is_err());
}

#[test]
fn parse_duration_rejects_non_finite() {
    // `inf`/`nan` parse as f64 but must be rejected as non-finite.
    assert!(parse_duration("inf").is_err());
    assert!(parse_duration("nan").is_err());
    assert!(parse_duration("NaN").is_err());
}

#[test]
fn parse_duration_seconds_decimal_zero() {
    // Zero in either unit collapses to the zero duration.
    assert_eq!(pd("0s"), Duration::zero());
    assert_eq!(pd("0ms"), Duration::zero());
}

#[test]
fn parse_color_case_insensitive() {
    // Hex letters are case-insensitive in both 6- and 3-digit forms.
    assert_eq!(
        parse_color("#FF00AA").unwrap(),
        parse_color("#ff00aa").unwrap()
    );
    assert_eq!(parse_color("#Ff0").unwrap(), Rgb(255, 255, 0));
}

#[test]
fn parse_color_three_digit_extremes() {
    assert_eq!(parse_color("#000").unwrap(), Rgb(0, 0, 0));
    assert_eq!(parse_color("#fff").unwrap(), Rgb(255, 255, 255));
}

#[test]
fn parse_color_rejects_4_and_5_digits() {
    // Only 3- or 6-digit hex is accepted.
    assert!(parse_color("#1234").is_err());
    assert!(parse_color("#12345").is_err());
}

#[test]
fn parse_color_rejects_bare_hash() {
    // A lone `#` strips to an empty (0-length) hex body.
    assert!(parse_color("#").is_err());
}

#[test]
fn parse_args_rejects_non_integer_fps() {
    // `--fps` parses as a u32; decimals and letters are rejected.
    assert!(parse_args(&["--fps", "1.5"]).is_err());
    assert!(parse_args(&["--fps", "abc"]).is_err());
}

#[test]
fn parse_args_last_flag_wins() {
    // Repeated flags overwrite earlier values (last-one-wins).
    let Action::Run(opts) = parse_args(&["--fade", "100ms", "--fade", "200ms"]).unwrap() else {
        panic!("expected Run");
    };
    assert_eq!(dur(&opts.fade), Duration::from_millis(200));
}

#[test]
fn parse_args_accepts_equals_form() {
    // `--flag=value` is equivalent to `--flag value`.
    let Action::Run(opts) = parse_args(&[
        "--fade=200ms",
        "--stagger=30ms",
        "--from=#000",
        "--to=#fff",
        "--fps=30",
    ])
    .unwrap() else {
        panic!("expected Run");
    };
    assert_eq!(dur(&opts.fade), Duration::from_millis(200));
    assert_eq!(dur(&opts.stagger), Duration::from_millis(30));
    assert_eq!(opts.from, Rgb(0, 0, 0));
    assert_eq!(opts.to, Rgb(255, 255, 255));
    assert_eq!(opts.fps, 30);
}

#[test]
fn parse_args_equals_form_empty_value_errors() {
    // `--fade=` supplies an empty value, which is an invalid duration.
    assert!(parse_args(&["--fade="]).is_err());
}

#[test]
fn parse_args_equals_form_value_with_equals() {
    // Only the first `=` splits flag from value; later `=` stay in the
    // value (colors/durations never contain `=`, but the rule is total).
    assert!(parse_args(&["--fps=1=2"]).is_err());
}

#[test]
fn parse_args_value_less_flag_rejects_inline_value() {
    // `--help`/`--version` take no value; a stray `=foo` must not be
    // silently discarded.
    assert!(parse_args(&["--help=foo"]).is_err());
    assert!(parse_args(&["--version=1"]).is_err());
    // The bare forms still work.
    assert_eq!(parse_args(&["--help"]).unwrap(), Action::Help);
    assert_eq!(parse_args(&["--version"]).unwrap(), Action::Version);
}

#[test]
fn parse_args_read_flag() {
    // `--read` is a value-less bool; default is false.
    let Action::Run(opts) = parse_args(&["--read"]).unwrap() else {
        panic!("expected Run");
    };
    assert!(opts.read);
    assert_eq!(opts.by, Unit::Sentence, "default unit is sentence");

    let Action::Run(opts) = parse_args(&[]).unwrap() else {
        panic!("expected Run");
    };
    assert!(!opts.read, "read defaults to false");
}

#[test]
fn parse_args_by_units() {
    for (arg, want) in [
        ("sentence", Unit::Sentence),
        ("paragraph", Unit::Paragraph),
        ("line", Unit::Line),
    ] {
        let Action::Run(opts) = parse_args(&["--by", arg]).unwrap() else {
            panic!("expected Run");
        };
        assert_eq!(opts.by, want);
    }
    // `=`-joined form works too.
    let Action::Run(opts) = parse_args(&["--by=line"]).unwrap() else {
        panic!("expected Run");
    };
    assert_eq!(opts.by, Unit::Line);
}

#[test]
fn parse_args_by_rejects_bad_unit_and_read_rejects_inline() {
    // An unknown unit errors (caller exits 2).
    assert!(parse_args(&["--by", "word"]).is_err());
    assert!(parse_args(&["--by"]).is_err());
    // `--read` takes no value.
    assert!(parse_args(&["--read=1"]).is_err());
}

#[test]
fn parse_args_missing_value_for_each_flag() {
    // A trailing value-taking flag with no following argument errors.
    assert!(parse_args(&["--from"]).is_err());
    assert!(parse_args(&["--to"]).is_err());
    assert!(parse_args(&["--stagger"]).is_err());
    assert!(parse_args(&["--fps"]).is_err());
}

// ---- further cases ----

#[test]
fn parse_duration_error_messages() {
    assert_eq!(parse_duration("   ").unwrap_err(), "empty duration");
    assert_eq!(parse_duration("ms").unwrap_err(), "missing number");
    assert_eq!(parse_duration(" s").unwrap_err(), "missing number");
    assert_eq!(parse_duration("abc").unwrap_err(), "`abc` is not a number");
    assert_eq!(parse_duration("1.2.3s").unwrap_err(), "`1.2.3` is not a number");
    assert_eq!(
        parse_duration("-5ms").unwrap_err(),
        "duration must be a non-negative finite number"
    );
    assert_eq!(
        parse_duration("infinity").unwrap_err(),
        "duration must be a non-negative finite number"
    );
    assert_eq!(
        parse_duration("-INF").unwrap_err(),
        "duration must be a non-negative finite number"
    );
}

#[test]
fn parse_duration_literal_forms() {
    assert_eq!(pd("1e3"), Duration::from_secs(1));
    assert_eq!(pd("2.5E-1s"), Duration::from_millis(250));
    assert_eq!(pd("+7ms"), Duration::from_millis(7));
    assert_eq!(pd("3.s"), Duration::from_secs(3));
    assert_eq!(pd("-0"), Duration::zero());
    assert_eq!(pd("0e999999999999999999999999"), Duration::zero());
    assert_eq!(pd("1 ms"), Duration::from_millis(1));
    assert_eq!(pd("0.001ms"), Duration::from_nanos(1000));
    assert!(parse_duration("1e").is_err());
    assert!(parse_duration("e5").is_err());
    assert!(parse_duration(".").is_err());
    assert!(parse_duration("1_000").is_err());
}

#[test]
fn parse_duration_keeps_the_literal() {
    // The number is kept as written (trimmed); the unit is read off the suffix.
    assert_eq!(
        parse_duration(" 1.5e-9 s ").unwrap(),
        DurationLiteral { number: "1.5e-9".to_string(), seconds: true }
    );
    assert_eq!(
        parse_duration("12.5").unwrap(),
        DurationLiteral { number: "12.5".to_string(), seconds: false }
    );
    assert_eq!(
        parse_duration("0.0000015ms").unwrap(),
        DurationLiteral { number: "0.0000015".to_string(), seconds: false }
    );
    // Far below a nanosecond: a finite number that spans nothing.
    assert_eq!(pd("1e-400s"), Duration::zero());
    // A negative number that reads as zero is accepted; one that does not is refused.
    assert_eq!(pd("-1e-400"), Duration::zero());
    assert_eq!(
        parse_duration("-1e-300").unwrap_err(),
        "duration must be a non-negative finite number"
    );
}

#[test]
fn parse_duration_huge_values() {
    // Beyond what f64 holds: not finite.
    assert_eq!(
        parse_duration("1e400s").unwrap_err(),
        "duration must be a non-negative finite number"
    );
    // The last literal whose span still fits, and the first that does not.
    assert_eq!(
        pd("18446744073709550591s").as_nanos(),
        18446744073709549568000000000u128
    );
    assert_eq!(read_duration("18446744073709550592s"), None);
    assert!(read_duration("18446744073709550567423ms").is_some());
    let _ = pd("18446744073709550567423ms");
    assert_eq!(read_duration("18446744073709550567424ms"), None);
    // Finite but too large: refused before any panic can happen.
    assert_eq!(jiwa::cli::read_duration("1e30s"), None);
    assert_eq!(jiwa::cli::read_duration("1e30ms"), None);
}

#[test]
fn parse_unit_forms_and_error() {
    assert_eq!(parse_unit(" paragraph ").unwrap(), Unit::Paragraph);
    assert_eq!(
        parse_unit(" word ").unwrap_err(),
        "`word` is not a unit (expected sentence, paragraph, or line)"
    );
}

#[test]
fn parse_color_error_messages() {
    assert_eq!(parse_color("#xyz").unwrap_err(), "`#xyz` is not a hex color");
    assert_eq!(parse_color("12345").unwrap_err(), "`12345` must be 3 or 6 hex digits");
    assert_eq!(parse_color(" #0a0 ").unwrap(), Rgb(0, 170, 0));
}

#[test]
fn parse_args_error_messages() {
    assert_eq!(
        parse_args(&["--nope=1"]).unwrap_err(),
        "jiwa: unknown argument `--nope=1`\nTry `jiwa --help`."
    );
    assert_eq!(
        parse_args(&["--fade"]).unwrap_err(),
        "jiwa: `--fade` requires a value\nTry `jiwa --help`."
    );
    assert_eq!(
        parse_args(&["--help=foo"]).unwrap_err(),
        "jiwa: `--help` takes no value (got `=foo`)\nTry `jiwa --help`."
    );
    assert_eq!(
        parse_args(&["--fps", "x"]).unwrap_err(),
        "jiwa: invalid value `x` for `--fps`: expected an integer\nTry `jiwa --help`."
    );
    assert_eq!(
        parse_args(&["--fade=bad"]).unwrap_err(),
        "jiwa: invalid value `bad` for `--fade`: `bad` is not a number\nTry `jiwa --help`."
    );
}

#[test]
fn parse_args_stops_at_help() {
    // Help wins as soon as it is reached; what follows is not looked at.
    assert_eq!(parse_args(&["--help", "--nope"]).unwrap(), Action::Help);
    assert!(parse_args(&["--nope", "--help"]).is_err());
}

#[test]
fn parse_args_fps_accepts_plus_and_spaces() {
    let Action::Run(opts) = parse_args(&["--fps", " +30 "]).unwrap() else {
        panic!("expected Run");
    };
    assert_eq!(opts.fps, 30);
    let Action::Run(opts) = parse_args(&["--fps", "4294967295"]).unwrap() else {
        panic!("expected Run");
    };
    assert_eq!(opts.fps, FPS_MAX);
    assert!(parse_args(&["--fps", "4294967296"]).is_err());
    assert!(parse_args(&["--fps", "-1"]).is_err());
}

#[test]
fn parse_args_sound_flag() {
    let Action::Run(opts) = parse_args(&["--sound", "/tmp/a.wav"]).unwrap() else {
        panic!("expected Run");
    };
    assert_eq!(opts.sound.as_deref(), Some("/tmp/a.wav"));
    let Action::Run(opts) = parse_args(&["--sound=https://x.test/blip.wav"]).unwrap() else {
        panic!("expected Run");
    };
    assert_eq!(opts.sound.as_deref(), Some("https://x.test/blip.wav"));
    assert!(parse_args(&["--sound"]).is_err());
    assert!(parse_args(&["--sound="]).is_err());
    assert!(parse_args(&["--sound", ""]).is_err());
    assert_eq!(CliOpts::default().sound, None);
}

#[test]
fn read_args_reports_out_of_range_duration() {
    assert_eq!(jiwa::cli::read_args(&["--fade", "1e30s"]), None);
    assert_eq!(
        jiwa::cli::read_args(&["--help", "--fade", "1e30s"]),
        Some(Ok(Action::Help))
    );
}

#[test]
fn defaults_are_documented_values() {
    let o = CliOpts::default();
    assert_eq!(dur(&o.fade), Duration::zero());
    assert_eq!(dur(&o.stagger), Duration::zero());
    assert_eq!(o.from, Rgb(40, 40, 40));
    assert_eq!(o.to, Rgb(220, 220, 220));
    assert_eq!(o.fps, 60);
    assert!(!o.read);
    assert_eq!(o.by, Unit::Sentence);
}

#[test]
fn usage_lists_the_flags() {
    for flag in ["--fade", "--stagger", "--from", "--to", "--fps", "--read", "--by", "--sound", "--help", "--version"] {
        assert!(jiwa::cli::USAGE.contains(flag), "{flag} missing from usage");
    }
}

#[test]
fn law_examples_cli() {
    // `--flag=value` is `--flag value`.
    assert_eq!(parse_args(&["--to=#abc"]), parse_args(&["--to", "#abc"]));
    // The last of two values wins.
    assert_eq!(
        parse_args(&["--stagger", "5", "--stagger", "7"]),
        parse_args(&["--stagger", "7"])
    );
    // A bare number counts milliseconds.
    assert_eq!(parse_duration("12.5"), parse_duration("12.5ms"));
    // Short colors double each digit; `#` is optional; case is ignored.
    assert_eq!(parse_color("1aF"), parse_color("11aaFF"));
    assert_eq!(parse_color("#123456"), parse_color("123456"));
    assert_eq!(parse_color("ABCDEF"), parse_color("abcdef"));
    // Frame rates stay within bounds.
    let Action::Run(opts) = parse_args(&["--fps", "0", "--fps=100000"]).unwrap() else {
        panic!("expected Run");
    };
    assert!(FPS_MIN <= opts.fps && opts.fps <= FPS_MAX);
}

#[test]
fn short_durations_always_fit() {
    for s in ["999999999999999999s", "9999999999999999999", "0.00000000000000001", "  1.5s  "] {
        assert!(jiwa::cli::read_duration(s).is_some(), "{s}");
    }
    assert!(parse_duration("999999999999999999s").is_ok());
}

#[test]
fn equals_form_is_the_same_after_any_complete_prefix() {
    let prefixes: [&[&str]; 4] = [&[], &["--read"], &["--fps", "30"], &["--from=#123", "--by", "line"]];
    let tails: [&[&str]; 3] = [&[], &["--to", "#fff"], &["--nope"]];
    for a in prefixes {
        for b in tails {
            for (f, v) in [("--fade", "200ms"), ("--fps", "1=2"), ("--by", "paragraph"), ("--sound", "x=y.wav")] {
                let joined = format!("{f}={v}");
                let mut l: Vec<&str> = a.to_vec();
                l.push(&joined);
                l.extend_from_slice(b);
                let mut r: Vec<&str> = a.to_vec();
                r.push(f);
                r.push(v);
                r.extend_from_slice(b);
                assert_eq!(parse_args(&l), parse_args(&r), "{l:?}");
            }
        }
    }
}
