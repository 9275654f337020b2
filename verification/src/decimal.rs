//! Decimal number literals as `f64::from_str` reads them, and their exact
//! values.
//!
//! A literal is an optional sign, then either one of the words `inf`,
//! `infinity`, `nan` (in any ASCII case), or digits with at most one `.`
//! (at least one digit in all) followed by an optional exponent: `e` or
//! `E`, an optional sign, and one or more digits. A finite literal stands
//! for `mantissa * 10^scale`, where the mantissa is the number spelled by
//! its digits with the `.` removed.
//!
//! Exact values also settle the three bounds that matter to a duration:
//! the value from which std reads a literal as infinite (halfway between
//! the largest `f64` and the next power of two), the value below which it
//! reads it as zero (half the smallest subnormal), and the values from
//! which a count of seconds or of milliseconds no longer fits in a span.

use vstd::prelude::*;

use crate::numeral::{
    all_digits, digit_value, digits_value, is_digit_char, lemma_digits_concat,
    lemma_digits_first_difference, lemma_digits_lower, lemma_digits_upper, lemma_leading_zeros,
    lemma_pow10_add, lemma_pow10_mono, lemma_pow10_pos, lemma_zeros_value, pow10,
};

verus! {

/// Index of the first char of `s` that is `c1` or `c2`; `s.len()` if none.
pub open spec fn first_of(s: Seq<char>, c1: char, c2: char) -> nat
    decreases s.len(),
{
    if s.len() == 0 {
        0
    } else if s[0] == c1 || s[0] == c2 {
        0
    } else {
        1 + first_of(s.drop_first(), c1, c2)
    }
}

/// The first match lies within `s`; without any match it is `s.len()`.
pub proof fn lemma_first_of_bounds(s: Seq<char>, c1: char, c2: char)
    ensures
        first_of(s, c1, c2) <= s.len(),
        (forall|i: int| 0 <= i < s.len() ==> #[trigger] s[i] != c1 && s[i] != c2) ==> first_of(
            s,
            c1,
            c2,
        ) == s.len(),
    decreases s.len(),
{
    if s.len() > 0 {
        let r = s.drop_first();
        lemma_first_of_bounds(r, c1, c2);
        if forall|i: int| 0 <= i < s.len() ==> #[trigger] s[i] != c1 && s[i] != c2 {
            assert(s[0] != c1 && s[0] != c2);
            assert forall|i: int| 0 <= i < r.len() implies #[trigger] r[i] != c1 && r[i] != c2 by {
                assert(r[i] == s[i + 1]);
            }
        }
    }
}

/// `c` is the lower-case ASCII letter `l`, written in either case.
pub open spec fn same_letter(c: char, l: char) -> bool {
    c == l || ('A' <= c <= 'Z' && c as u32 + 32 == l as u32)
}

/// `s` spells the lower-case word `w`, ignoring ASCII case.
pub open spec fn eq_ignore_case(s: Seq<char>, w: Seq<char>) -> bool {
    s.len() == w.len() && forall|i: int| 0 <= i < s.len() ==> same_letter(#[trigger] s[i], w[i])
}

/// `s` starts with `+` or `-`.
pub open spec fn has_sign(s: Seq<char>) -> bool {
    s.len() > 0 && (s[0] == '+' || s[0] == '-')
}

/// `s` without its leading sign, if it has one.
pub open spec fn unsigned_part(s: Seq<char>) -> Seq<char> {
    if has_sign(s) {
        s.drop_first()
    } else {
        s
    }
}

/// One of the words for a non-finite value.
pub open spec fn special_word(b: Seq<char>) -> bool {
    eq_ignore_case(b, "inf"@) || eq_ignore_case(b, "infinity"@) || eq_ignore_case(b, "nan"@)
}

/// Where the exponent marker of an unsigned literal stands.
pub open spec fn exp_mark(b: Seq<char>) -> nat {
    first_of(b, 'e', 'E')
}

/// The unsigned literal has an exponent part.
pub open spec fn has_exponent(b: Seq<char>) -> bool {
    exp_mark(b) < b.len()
}

/// Digits and `.` before the exponent.
pub open spec fn mantissa_text(b: Seq<char>) -> Seq<char> {
    b.subrange(0, exp_mark(b) as int)
}

/// The chars after the exponent marker (empty without one).
pub open spec fn exponent_text(b: Seq<char>) -> Seq<char> {
    if has_exponent(b) {
        b.subrange(exp_mark(b) as int + 1, b.len() as int)
    } else {
        seq![]
    }
}

/// The digits of the exponent, without its sign.
pub open spec fn exponent_digits(b: Seq<char>) -> Seq<char> {
    unsigned_part(exponent_text(b))
}

/// Digits before the `.`.
pub open spec fn int_digits(b: Seq<char>) -> Seq<char> {
    let m = mantissa_text(b);
    m.subrange(0, first_of(m, '.', '.') as int)
}

/// Digits after the `.` (empty without one).
pub open spec fn frac_digits(b: Seq<char>) -> Seq<char> {
    let m = mantissa_text(b);
    let i = first_of(m, '.', '.');
    if i < m.len() {
        m.subrange(i as int + 1, m.len() as int)
    } else {
        seq![]
    }
}

/// `b` (without sign) is a finite decimal literal.
pub open spec fn decimal_form(b: Seq<char>) -> bool {
    &&& all_digits(int_digits(b))
    &&& all_digits(frac_digits(b))
    &&& int_digits(b).len() + frac_digits(b).len() > 0
    &&& has_exponent(b) ==> exponent_digits(b).len() > 0 && all_digits(exponent_digits(b))
}

/// `n` is a literal that `f64::from_str` accepts.
pub open spec fn float_form(n: Seq<char>) -> bool {
    special_word(unsigned_part(n)) || decimal_form(unsigned_part(n))
}

/// The number spelled by the mantissa's digits, `.` removed.
pub open spec fn mantissa_value(b: Seq<char>) -> nat {
    digits_value(int_digits(b) + frac_digits(b))
}

/// The value of the exponent part (zero without one).
pub open spec fn exponent_value(b: Seq<char>) -> int {
    if !has_exponent(b) {
        0
    } else if exponent_text(b).len() > 0 && exponent_text(b)[0] == '-' {
        -digits_value(exponent_digits(b))
    } else {
        digits_value(exponent_digits(b)) as int
    }
}

/// The literal stands for `mantissa_value(b) * 10^scale_of(b)`.
pub open spec fn scale_of(b: Seq<char>) -> int {
    exponent_value(b) - frac_digits(b).len()
}

/// Digits that spell a positive number without leading zeros.
pub open spec fn significant(d: Seq<char>) -> bool {
    d.len() > 0 && all_digits(d) && d[0] != '0'
}

/// Scales beyond this size are held only by their sign.
pub const SCALE_BOUND: i128 = 100000000000000000000000000000i128;

/// Exponents are read exactly below this size.
pub const EXPONENT_CAP: u128 = 1000000000000000000000000000000u128;

/// `s` is the scale `t`, or both lie beyond the bound on the same side with
/// `t` the farther out.
pub open spec fn scale_close(s: int, t: int) -> bool {
    ||| s == t
    ||| (s >= SCALE_BOUND && t >= s)
    ||| (s <= -SCALE_BOUND && t <= s)
}

/// What a scan of a literal finds.
pub enum NumberScan {
    /// Not a literal `f64::from_str` accepts.
    NotANumber,
    /// `inf`, `infinity` or `nan`, with or without a sign.
    NonFinite,
    /// A finite literal whose mantissa is zero.
    Zero,
    /// A finite literal with a positive mantissa: its sign, the mantissa's
    /// significant digits and its scale.
    Value { negative: bool, digits: Vec<char>, scale: i128 },
}

/// Finds the first `c1` or `c2` in `v[a..b]`.
pub fn find_either(v: &Vec<char>, a: usize, b: usize, c1: char, c2: char) -> (r: usize)
    requires
        a <= b <= v@.len(),
    ensures
        a <= r <= b,
        r - a == first_of(v@.subrange(a as int, b as int), c1, c2),
{
    let mut i = a;
    while i < b && v[i] != c1 && v[i] != c2
        invariant
            a <= i <= b,
            b <= v@.len(),
            first_of(v@.subrange(a as int, b as int), c1, c2) == (i - a) + first_of(
                v@.subrange(i as int, b as int),
                c1,
                c2,
            ),
        decreases b - i,
    {
        assert(v@.subrange(i as int, b as int).drop_first() == v@.subrange(i + 1, b as int));
        i = i + 1;
    }
    if i < b {
        assert(v@.subrange(i as int, b as int)[0] == v@[i as int]);
    }
    i
}

/// True when every char of `v[a..b]` is a decimal digit.
pub fn range_all_digits(v: &Vec<char>, a: usize, b: usize) -> (r: bool)
    requires
        a <= b <= v@.len(),
    ensures
        r == all_digits(v@.subrange(a as int, b as int)),
{
    let ghost s = v@.subrange(a as int, b as int);
    let mut i = a;
    while i < b
        invariant
            a <= i <= b,
            b <= v@.len(),
            s == v@.subrange(a as int, b as int),
            forall|j: int| 0 <= j < i - a ==> is_digit_char(#[trigger] s[j]),
        decreases b - i,
    {
        if !('0' <= v[i] && v[i] <= '9') {
            assert(!is_digit_char(s[i - a]));
            return false;
        }
        i = i + 1;
    }
    true
}

/// True when `v[a..b]` spells the lower-case word `w` in any ASCII case.
pub fn range_eq_ignore_case(v: &Vec<char>, a: usize, b: usize, w: &str) -> (r: bool)
    requires
        a <= b <= v@.len(),
    ensures
        r == eq_ignore_case(v@.subrange(a as int, b as int), w@),
{
    let l = crate::text::chars_of(w);
    if b - a != l.len() {
        return false;
    }
    let ghost s = v@.subrange(a as int, b as int);
    let mut i: usize = 0;
    while i < l.len()
        invariant
            b - a == l@.len(),
            a <= b <= v@.len(),
            l@ == w@,
            s == v@.subrange(a as int, b as int),
            i <= l@.len(),
            forall|j: int| 0 <= j < i ==> same_letter(#[trigger] s[j], l@[j]),
        decreases l@.len() - i,
    {
        let c = v[a + i];
        let k = l[i];
        assert(s[i as int] == c);
        if !(c == k || ('A' <= c && c <= 'Z' && c as u32 + 32 == k as u32)) {
            return false;
        }
        i = i + 1;
    }
    true
}

/// The number spelled by `v[a..b]`, or `EXPONENT_CAP` when that is larger.
fn digits_capped(v: &Vec<char>, a: usize, b: usize) -> (r: u128)
    requires
        a <= b <= v@.len(),
        all_digits(v@.subrange(a as int, b as int)),
    ensures
        r == (if digits_value(v@.subrange(a as int, b as int)) >= EXPONENT_CAP {
            EXPONENT_CAP as nat
        } else {
            digits_value(v@.subrange(a as int, b as int))
        }),
{
    let mut acc: u128 = 0;
    let mut i = a;
    while i < b
        invariant
            a <= i <= b,
            b <= v@.len(),
            all_digits(v@.subrange(a as int, b as int)),
            acc == (if digits_value(v@.subrange(a as int, i as int)) >= EXPONENT_CAP {
                EXPONENT_CAP as nat
            } else {
                digits_value(v@.subrange(a as int, i as int))
            }),
        decreases b - i,
    {
        let ghost p = v@.subrange(a as int, i as int);
        let ghost q = v@.subrange(a as int, i + 1);
        assert(q.drop_last() == p);
        assert(q.last() == v@[i as int]);
        assert(is_digit_char(v@.subrange(a as int, b as int)[i - a]));
        let d = (v[i] as u32 - '0' as u32) as u128;
        assert(d == digit_value(v@[i as int]));
        if acc < EXPONENT_CAP {
            acc = acc * 10 + d;
            if acc > EXPONENT_CAP {
                acc = EXPONENT_CAP;
            }
        }
        i = i + 1;
    }
    acc
}

/// The digits of `v[i0..i1]` followed by `v[f0..f1]`, without leading zeros.
fn significant_digits(v: &Vec<char>, i0: usize, i1: usize, f0: usize, f1: usize) -> (r: Vec<char>)
    requires
        i0 <= i1 <= f0 <= f1 <= v@.len(),
        all_digits(v@.subrange(i0 as int, i1 as int)),
        all_digits(v@.subrange(f0 as int, f1 as int)),
    ensures
        all_digits(r@),
        r@.len() > 0 ==> r@[0] != '0',
        digits_value(r@) == digits_value(
            v@.subrange(i0 as int, i1 as int) + v@.subrange(f0 as int, f1 as int),
        ),
{
    let ghost whole = v@.subrange(i0 as int, i1 as int) + v@.subrange(f0 as int, f1 as int);
    let ni = i1 - i0;
    let total = ni + (f1 - f0);
    let mut r: Vec<char> = Vec::new();
    let mut k: usize = 0;
    let ghost mut z: int = 0;
    while k < total
        invariant
            i0 <= i1 <= v@.len(),
            f0 <= f1 <= v@.len(),
            ni == i1 - i0,
            total == ni + (f1 - f0),
            whole == v@.subrange(i0 as int, i1 as int) + v@.subrange(f0 as int, f1 as int),
            whole.len() == total,
            all_digits(whole),
            0 <= z <= k <= total,
            forall|j: int| 0 <= j < z ==> #[trigger] whole[j] == '0',
            r@ == whole.subrange(z, k as int),
            r@.len() == 0 ==> z == k,
            r@.len() > 0 ==> whole[z] != '0',
        decreases total - k,
    {
        let c = if k < ni {
            v[i0 + k]
        } else {
            v[f0 + (k - ni)]
        };
        assert(c == whole[k as int]);
        if r.len() == 0 && c == '0' {
            proof {
                z = k + 1;
            }
        } else {
            r.push(c);
            assert(whole.subrange(z, k + 1) == whole.subrange(z, k as int).push(c));
        }
        k = k + 1;
    }
    proof {
        let zs = whole.subrange(0, z);
        assert(zs + r@ == whole);
        assert forall|j: int| 0 <= j < zs.len() implies #[trigger] zs[j] == '0' by {
            assert(zs[j] == whole[j]);
        }
        lemma_leading_zeros(zs, r@);
        assert forall|j: int| 0 <= j < r@.len() implies is_digit_char(#[trigger] r@[j]) by {
            assert(r@[j] == whole[z + j]);
        }
    }
    r
}

/// `x` is the exponent `y`, or both are at least the cap on the same side.
pub open spec fn exponent_close(x: int, y: int) -> bool {
    ||| x == y
    ||| (x == EXPONENT_CAP && y >= EXPONENT_CAP)
    ||| (x == -EXPONENT_CAP && y <= -EXPONENT_CAP)
}

/// The value of an exponent written after its marker as `v[x0..b]`: a sign,
/// then one or more digits.
fn scan_exponent(v: &Vec<char>, x0: usize, b: usize) -> (r: Option<i128>)
    requires
        x0 <= b <= v@.len(),
    ensures
        ({
            let t = v@.subrange(x0 as int, b as int);
            let d = unsigned_part(t);
            &&& (r is None <==> !(d.len() > 0 && all_digits(d)))
            &&& (r matches Some(x) ==> -EXPONENT_CAP <= x <= EXPONENT_CAP)
            &&& (r matches Some(x) ==> exponent_close(
                x as int,
                if t.len() > 0 && t[0] == '-' {
                    -digits_value(d)
                } else {
                    digits_value(d) as int
                },
            ))
        }),
{
    let ghost t = v@.subrange(x0 as int, b as int);
    let signed = x0 < b && (v[x0] == '+' || v[x0] == '-');
    let negative = x0 < b && v[x0] == '-';
    let xs = if signed {
        x0 + 1
    } else {
        x0
    };
    assert(v@.subrange(xs as int, b as int) == unsigned_part(t)) by {
        if x0 < b {
            assert(t[0] == v@[x0 as int]);
        }
        if signed {
            assert(t.drop_first() == v@.subrange(xs as int, b as int));
        }
    }
    assert(negative == (t.len() > 0 && t[0] == '-')) by {
        if x0 < b {
            assert(t[0] == v@[x0 as int]);
        }
    }
    if xs == b || !range_all_digits(v, xs, b) {
        return None;
    }
    let mag = digits_capped(v, xs, b);
    if negative {
        Some(-(mag as i128))
    } else {
        Some(mag as i128)
    }
}

/// Reads an unsigned literal `v[s0..b]` (no sign) as `f64::from_str` would,
/// keeping its value exact.
fn scan_unsigned(v: &Vec<char>, s0: usize, b: usize) -> (r: NumberScan)
    requires
        s0 <= b <= v@.len(),
    ensures
        ({
            let u = v@.subrange(s0 as int, b as int);
            match r {
                NumberScan::NotANumber => !special_word(u) && !decimal_form(u),
                NumberScan::NonFinite => special_word(u),
                NumberScan::Zero => !special_word(u) && decimal_form(u) && mantissa_value(u) == 0,
                NumberScan::Value { negative, digits, scale } => {
                    &&& !special_word(u)
                    &&& decimal_form(u)
                    &&& !negative
                    &&& significant(digits@)
                    &&& digits_value(digits@) == mantissa_value(u)
                    &&& scale_close(scale as int, scale_of(u))
                    &&& -2 * EXPONENT_CAP <= scale <= EXPONENT_CAP
                },
            }
        }),
{
    let ghost u = v@.subrange(s0 as int, b as int);
    if range_eq_ignore_case(v, s0, b, "inf") || range_eq_ignore_case(v, s0, b, "infinity")
        || range_eq_ignore_case(v, s0, b, "nan") {
        return NumberScan::NonFinite;
    }
    let e = find_either(v, s0, b, 'e', 'E');
    assert(v@.subrange(s0 as int, e as int) == mantissa_text(u));
    let d = find_either(v, s0, e, '.', '.');
    let f0 = if d < e {
        d + 1
    } else {
        e
    };
    assert(v@.subrange(s0 as int, d as int) == int_digits(u));
    assert(v@.subrange(f0 as int, e as int) == frac_digits(u));
    if !range_all_digits(v, s0, d) || !range_all_digits(v, f0, e) || (d - s0) + (e - f0) == 0 {
        return NumberScan::NotANumber;
    }
    let mut exp: i128 = 0;
    if e < b {
        assert(v@.subrange(e + 1, b as int) == exponent_text(u));
        match scan_exponent(v, e + 1, b) {
            None => {
                return NumberScan::NotANumber;
            },
            Some(x) => {
                exp = x;
            },
        }
    }
    assert(decimal_form(u));
    assert(exponent_close(exp as int, exponent_value(u)));
    assert(-EXPONENT_CAP <= exp <= EXPONENT_CAP);
    let digits = significant_digits(v, s0, d, f0, e);
    if digits.len() == 0 {
        return NumberScan::Zero;
    }
    let scale = exp - ((e - f0) as i128);
    NumberScan::Value { negative: false, digits, scale }
}

/// Reads the literal `v[a..b]` as `f64::from_str` would, keeping its value
/// exact.
pub fn scan_number(v: &Vec<char>, a: usize, b: usize) -> (r: NumberScan)
    requires
        a < b <= v@.len(),
    ensures
        ({
            let n = v@.subrange(a as int, b as int);
            let u = unsigned_part(n);
            match r {
                NumberScan::NotANumber => !float_form(n),
                NumberScan::NonFinite => special_word(u),
                NumberScan::Zero => !special_word(u) && decimal_form(u) && mantissa_value(u) == 0,
                NumberScan::Value { negative, digits, scale } => {
                    &&& !special_word(u)
                    &&& decimal_form(u)
                    &&& negative == (n[0] == '-')
                    &&& significant(digits@)
                    &&& digits_value(digits@) == mantissa_value(u)
                    &&& scale_close(scale as int, scale_of(u))
                    &&& -2 * EXPONENT_CAP <= scale <= EXPONENT_CAP
                },
            }
        }),
{
    let ghost n = v@.subrange(a as int, b as int);
    let signed = v[a] == '+' || v[a] == '-';
    let negative = v[a] == '-';
    let s0 = if signed {
        a + 1
    } else {
        a
    };
    assert(n[0] == v@[a as int]);
    assert(v@.subrange(s0 as int, b as int) == unsigned_part(n)) by {
        if signed {
            assert(n.drop_first() == v@.subrange(s0 as int, b as int));
        }
    }
    match scan_unsigned(v, s0, b) {
        NumberScan::Value { negative: _, digits, scale } => NumberScan::Value { negative, digits, scale },
        other => other,
    }
}

/// How `m * 10^k` compares with `t * 10^tk`: `-1` below, `0` equal, `1`
/// above.
pub open spec fn compare_scaled(m: nat, k: int, t: nat, tk: int) -> int {
    let lo = if k < tk {
        k
    } else {
        tk
    };
    let a = m * pow10((k - lo) as nat);
    let b = t * pow10((tk - lo) as nat);
    if a < b {
        -1
    } else if a == b {
        0
    } else {
        1
    }
}

/// The decimal digits of `2^1024 - 2^970`, the least number that
/// `f64::from_str` reads as infinite (halfway between `f64::MAX` and
/// `2^1024`, where a tie rounds to the even, infinite, side).
pub const F64_LIMIT_DIGITS: &'static str = "179769313486231580793728971405303415079934132710037826936173778980444968292764750946649017977587207096330286416692887910946555547851940402630657488671505820681908902000708383676273854845817711531764475730270069855571366959622842914819860834936475292719074168444365510704342711559699508093042880177904174497792";

/// The least number that `f64::from_str` reads as infinite.
pub open spec fn f64_limit() -> nat {
    digits_value(F64_LIMIT_DIGITS@)
}

/// `m * 10^k` is read as infinite by `f64::from_str`.
pub open spec fn exceeds_f64(m: nat, k: int) -> bool {
    compare_scaled(m, k, f64_limit(), 0) >= 0
}

/// The decimal digits of `5^1075`: `5^1075 * 10^-1075` is `2^-1075`, half
/// the least positive `f64`. A positive number up to it is read as zero
/// (a tie rounds to the even zero), one above it is not.
pub const F64_HALF_TINY_DIGITS: &'static str = "24703282292062327208828439643411068618252990130716238221279284125033775363510437593264991818081799618989828234772285886546332835517796989819938739800539093906315035659515570226392290858392449105184435931802849936536152500319370457678249219365623669863658480757001585769269903706311928279558551332927834338409351978015531246597263579574622766465272827220056374006485499977096599470454020828166226237857393450736339007967761930577506740176324673600968951340535537458516661134223766678604162159680461914467291840300530057530849048765391711386591646239524912623653881879636239373280423891018672348497668235089863388587925628302755995657524455507255189313690836254779186948667994968324049705821028513185451396213837722826145437693412532098591327667236328125";

/// `m * 10^k` is read as zero by `f64::from_str`.
pub open spec fn underflows_f64(m: nat, k: int) -> bool {
    compare_scaled(m, k, digits_value(F64_HALF_TINY_DIGITS@), -1075) <= 0
}

/// The least number of seconds whose `f64` is `2^64` or more (halfway
/// between `2^64 - 2048` and `2^64`, a tie that rounds up to the even
/// `2^64`): from there on, `Duration::from_secs_f64` overflows.
pub const SECONDS_LIMIT_DIGITS: &'static str = "18446744073709550592";

/// The least number of milliseconds whose `f64`, multiplied by the `f64`
/// of `1e-3`, is `2^64` or more: from there on, `Duration::from_secs_f64`
/// overflows. Below it the product stays under `2^64`; this one is the
/// midpoint below the least such `f64`, whose mantissa is even.
pub const MILLIS_LIMIT_DIGITS: &'static str = "18446744073709550567424";

/// The least number of the given unit out of a duration's range.
pub open spec fn unit_limit(seconds: bool) -> nat {
    if seconds {
        digits_value(SECONDS_LIMIT_DIGITS@)
    } else {
        digits_value(MILLIS_LIMIT_DIGITS@)
    }
}

/// `n` zero digits.
pub open spec fn zeros(n: nat) -> Seq<char> {
    Seq::new(n, |i: int| '0')
}

/// The digit texts of the limits are significant numerals of the stated
/// lengths.
pub proof fn lemma_limit_digits()
    ensures
        significant(F64_LIMIT_DIGITS@),
        F64_LIMIT_DIGITS@.len() == 309,
        significant(F64_HALF_TINY_DIGITS@),
        F64_HALF_TINY_DIGITS@.len() == 752,
        significant(SECONDS_LIMIT_DIGITS@),
        SECONDS_LIMIT_DIGITS@.len() == 20,
        significant(MILLIS_LIMIT_DIGITS@),
        MILLIS_LIMIT_DIGITS@.len() == 23,
{
    reveal_strlit("179769313486231580793728971405303415079934132710037826936173778980444968292764750946649017977587207096330286416692887910946555547851940402630657488671505820681908902000708383676273854845817711531764475730270069855571366959622842914819860834936475292719074168444365510704342711559699508093042880177904174497792");
    reveal_strlit("24703282292062327208828439643411068618252990130716238221279284125033775363510437593264991818081799618989828234772285886546332835517796989819938739800539093906315035659515570226392290858392449105184435931802849936536152500319370457678249219365623669863658480757001585769269903706311928279558551332927834338409351978015531246597263579574622766465272827220056374006485499977096599470454020828166226237857393450736339007967761930577506740176324673600968951340535537458516661134223766678604162159680461914467291840300530057530849048765391711386591646239524912623653881879636239373280423891018672348497668235089863388587925628302755995657524455507255189313690836254779186948667994968324049705821028513185451396213837722826145437693412532098591327667236328125");
    reveal_strlit("18446744073709550592");
    reveal_strlit("18446744073709550567424");
    assert(all_digits(F64_LIMIT_DIGITS@));
    assert(all_digits(F64_HALF_TINY_DIGITS@));
    assert(all_digits(SECONDS_LIMIT_DIGITS@));
    assert(all_digits(MILLIS_LIMIT_DIGITS@));
}

/// A significant numeral of `n` digits lies in `[10^(n-1), 10^n)`.
pub proof fn lemma_significant_bounds(d: Seq<char>)
    requires
        significant(d),
    ensures
        pow10((d.len() - 1) as nat) <= digits_value(d) < pow10(d.len()),
{
    lemma_digits_upper(d);
    lemma_digits_lower(d);
}

/// Numbers of different magnitude compare by magnitude: `m` with `l`
/// digits against `t` with `n` digits, scaled by `10^k` and `10^tk`.
pub proof fn lemma_compare_by_magnitude(m: nat, l: nat, k: int, t: nat, n: nat, tk: int)
    requires
        l >= 1,
        n >= 1,
        pow10((l - 1) as nat) <= m < pow10(l),
        pow10((n - 1) as nat) <= t < pow10(n),
    ensures
        l + k > n + tk ==> compare_scaled(m, k, t, tk) == 1,
        l + k < n + tk ==> compare_scaled(m, k, t, tk) == -1,
{
    let lo = if k < tk {
        k
    } else {
        tk
    };
    let ek = (k - lo) as nat;
    let et = (tk - lo) as nat;
    let x = pow10(ek);
    let y = pow10(et);
    lemma_pow10_pos(ek);
    lemma_pow10_pos(et);
    if l + k > n + tk {
        lemma_pow10_add((l - 1) as nat, ek);
        lemma_pow10_add(n, et);
        lemma_pow10_mono(n + et, (l - 1) as nat + ek);
        let pl = pow10((l - 1) as nat);
        let pn = pow10(n);
        assert(m * x >= pl * x) by (nonlinear_arith)
            requires
                m >= pl,
                x >= 1,
        ;
        assert(t * y < pn * y) by (nonlinear_arith)
            requires
                t < pn,
                y >= 1,
        ;
    }
    if l + k < n + tk {
        lemma_pow10_add(l, ek);
        lemma_pow10_add((n - 1) as nat, et);
        lemma_pow10_mono(l + ek, (n - 1) as nat + et);
        let pl = pow10(l);
        let pn = pow10((n - 1) as nat);
        assert(m * x < pl * x) by (nonlinear_arith)
            requires
                m < pl,
                x >= 1,
        ;
        assert(t * y >= pn * y) by (nonlinear_arith)
            requires
                t >= pn,
                y >= 1,
        ;
    }
}

/// How the number `value of digits * 10^k` compares with
/// `value of t * 10^tk` (see [`compare_scaled`]), given the scale `k` as
/// [`scan_number`] reports it.
pub(crate) fn compare_with(
    digits: &Vec<char>,
    scale: i128,
    Ghost(k): Ghost<int>,
    t: &Vec<char>,
    tk: i128,
) -> (r: i8)
    requires
        significant(digits@),
        significant(t@),
        scale_close(scale as int, k),
        -2 * EXPONENT_CAP <= scale <= EXPONENT_CAP,
        t@.len() <= 1000,
        -2000 <= tk <= 2000,
    ensures
        r == compare_scaled(digits_value(digits@), k, digits_value(t@), tk as int),
{
    let ghost m = digits_value(digits@);
    let ghost tv = digits_value(t@);
    let len = digits.len();
    let n = t.len();
    proof {
        lemma_significant_bounds(digits@);
        lemma_significant_bounds(t@);
    }
    if scale >= SCALE_BOUND {
        proof {
            lemma_compare_by_magnitude(m, len as nat, k, tv, n as nat, tk as int);
        }
        return 1;
    }
    if scale <= -SCALE_BOUND {
        proof {
            lemma_compare_by_magnitude(m, len as nat, k, tv, n as nat, tk as int);
        }
        return -1;
    }
    assert(scale == k);
    let pd: i128 = (len as i128) + scale;
    let pt: i128 = (n as i128) + tk;
    if pd > pt {
        proof {
            lemma_compare_by_magnitude(m, len as nat, k, tv, n as nat, tk as int);
        }
        return 1;
    }
    if pd < pt {
        proof {
            lemma_compare_by_magnitude(m, len as nat, k, tv, n as nat, tk as int);
        }
        return -1;
    }
    let w: usize = if len > n {
        len
    } else {
        n
    };
    let ghost x = if scale >= tk {
        digits@ + zeros((scale - tk) as nat)
    } else {
        digits@
    };
    let ghost y = if scale >= tk {
        t@
    } else {
        t@ + zeros((tk - scale) as nat)
    };
    assert(x.len() == w && y.len() == w);
    assert(all_digits(x) && all_digits(y)) by {
        assert forall|i: int| 0 <= i < w implies is_digit_char(#[trigger] x[i]) && is_digit_char(
            y[i],
        ) by {
            if i < len {
                assert(x[i] == digits@[i]);
            } else {
                assert(x[i] == '0');
            }
            if i < n {
                assert(y[i] == t@[i]);
            } else {
                assert(y[i] == '0');
            }
        }
    }
    proof {
        assert(pow10(0) == 1);
        if scale >= tk {
            let z = zeros((scale - tk) as nat);
            lemma_digits_concat(digits@, z);
            lemma_zeros_value(z);
            assert(digits_value(x) == m * pow10((k - tk) as nat));
            assert(tv * pow10(0) == tv);
            assert(digits_value(y) == tv);
        } else {
            let z = zeros((tk - scale) as nat);
            lemma_digits_concat(t@, z);
            lemma_zeros_value(z);
            assert(digits_value(y) == tv * pow10((tk - k) as nat));
            assert(m * pow10(0) == m);
            assert(digits_value(x) == m);
        }
    }
    assert(compare_scaled(m, k, tv, tk as int) == (if digits_value(x) < digits_value(y) {
        -1int
    } else if digits_value(x) == digits_value(y) {
        0int
    } else {
        1int
    }));
    let mut j: usize = 0;
    while j < w
        invariant
            j <= w,
            w == x.len(),
            w == y.len(),
            len == digits@.len(),
            n == t@.len(),
            all_digits(x),
            all_digits(y),
            forall|i: int| 0 <= i < w ==> #[trigger] x[i] == (if i < len {
                digits@[i]
            } else {
                '0'
            }),
            forall|i: int| 0 <= i < w ==> #[trigger] y[i] == (if i < n {
                t@[i]
            } else {
                '0'
            }),
            x.subrange(0, j as int) == y.subrange(0, j as int),
            m == digits_value(digits@),
            tv == digits_value(t@),
            compare_scaled(m, k, tv, tk as int) == (if digits_value(x) < digits_value(y) {
                -1int
            } else if digits_value(x) == digits_value(y) {
                0int
            } else {
                1int
            }),
        decreases w - j,
    {
        let xj = if j < len {
            digits[j]
        } else {
            '0'
        };
        let yj = if j < n {
            t[j]
        } else {
            '0'
        };
        assert(xj == x[j as int] && yj == y[j as int]);
        if xj != yj {
            let gt = (xj as u32) > (yj as u32);
            proof {
                assert(is_digit_char(x[j as int]) && is_digit_char(y[j as int]));
                assert(gt == (digit_value(xj) > digit_value(yj)));
                assert(!gt == (digit_value(xj) < digit_value(yj)));
                if gt {
                    lemma_digits_first_difference(x, y, j as int);
                } else {
                    assert(y.subrange(0, j as int) == x.subrange(0, j as int));
                    lemma_digits_first_difference(y, x, j as int);
                }
            }
            if gt {
                return 1;
            } else {
                return -1;
            }
        }
        assert(x.subrange(0, j + 1) == y.subrange(0, j + 1)) by {
            let xs = x.subrange(0, j + 1);
            let ys = y.subrange(0, j + 1);
            assert forall|i: int| 0 <= i < j + 1 implies #[trigger] xs[i] == ys[i] by {
                if i < j {
                    assert(x.subrange(0, j as int)[i] == y.subrange(0, j as int)[i]);
                }
            }
        }
        j = j + 1;
    }
    assert(x == y) by {
        assert(x.subrange(0, w as int) == x);
        assert(y.subrange(0, w as int) == y);
    }
    0
}

} // verus!
