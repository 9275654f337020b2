use jiwa::cli::{parse_duration, read_duration};
use jiwa::decimal::{
    F64_HALF_TINY_DIGITS, F64_LIMIT_DIGITS, MILLIS_LIMIT_DIGITS, SECONDS_LIMIT_DIGITS,
};

/// A decimal numeral plus one.
fn succ(s: &str) -> String {
    let mut d: Vec<u8> = s.bytes().collect();
    let mut i = d.len();
    loop {
        i -= 1;
        if d[i] == b'9' {
            d[i] = b'0';
        } else {
            d[i] += 1;
            break;
        }
    }
    String::from_utf8(d).unwrap()
}

/// A decimal numeral minus one (the numeral is positive and has no
/// leading zero that could be left over).
fn pred(s: &str) -> String {
    let mut d: Vec<u8> = s.bytes().collect();
    let mut i = d.len();
    loop {
        i -= 1;
        if d[i] == b'0' {
            d[i] = b'9';
        } else {
            d[i] -= 1;
            break;
        }
    }
    String::from_utf8(d).unwrap()
}

fn f(s: &str) -> f64 {
    s.parse().unwrap()
}

const NON_FINITE: &str = "duration must be a non-negative finite number";

#[test]
fn infinity_bound_matches_std() {
    let at = F64_LIMIT_DIGITS;
    let below = pred(at);
    assert!(f(at).is_infinite());
    assert!(f(&below).is_finite());
    assert_eq!(f(&below), f64::MAX);
    assert_eq!(parse_duration(&format!("{at}s")).unwrap_err(), NON_FINITE);
    // Finite, but far too long a span.
    assert_eq!(read_duration(&format!("{below}s")), None);
}

#[test]
fn zero_bound_matches_std() {
    let at = format!("{F64_HALF_TINY_DIGITS}e-1075");
    let above = format!("{}e-1075", succ(F64_HALF_TINY_DIGITS));
    assert_eq!(f(&at), 0.0);
    assert!(f(&above) > 0.0);
    assert!(f(&format!("-{at}")).is_sign_negative() && f(&format!("-{at}")) == 0.0);
    assert!(f(&format!("-{above}")) < 0.0);
    assert!(parse_duration(&format!("-{at}")).is_ok());
    assert_eq!(parse_duration(&format!("-{above}")).unwrap_err(), NON_FINITE);
    assert!(parse_duration(&above).is_ok());
}

#[test]
fn seconds_bound_matches_std() {
    let at = SECONDS_LIMIT_DIGITS;
    let below = pred(at);
    assert!(std::time::Duration::try_from_secs_f64(f(at)).is_err());
    assert!(std::time::Duration::try_from_secs_f64(f(&below)).is_ok());
    assert_eq!(read_duration(&format!("{at}s")), None);
    assert!(matches!(read_duration(&format!("{below}s")), Some(Ok(_))));
}

#[test]
fn millis_bound_matches_std() {
    let at = MILLIS_LIMIT_DIGITS;
    let below = pred(at);
    assert!(std::time::Duration::try_from_secs_f64(f(at) * 1e-3).is_err());
    assert!(std::time::Duration::try_from_secs_f64(f(&below) * 1e-3).is_ok());
    assert_eq!(read_duration(&format!("{at}ms")), None);
    assert!(matches!(read_duration(&format!("{below}ms")), Some(Ok(_))));
    assert_eq!(read_duration(at), None);
    assert!(matches!(read_duration(&below), Some(Ok(_))));
}
