//! Decimal numerals: their values, powers of ten, and the facts that
//! relate digit strings to the numbers they stand for.

use vstd::prelude::*;

verus! {

/// An ASCII decimal digit.
pub open spec fn is_digit_char(c: char) -> bool {
    '0' <= c <= '9'
}

/// Value of an ASCII decimal digit.
pub open spec fn digit_value(c: char) -> nat {
    (c as u32 - '0' as u32) as nat
}

/// Every char of `d` is an ASCII digit.
pub open spec fn all_digits(d: Seq<char>) -> bool {
    forall|i: int| 0 <= i < d.len() ==> is_digit_char(#[trigger] d[i])
}

/// Value of a string of decimal digits (zero for the empty string).
pub open spec fn digits_value(d: Seq<char>) -> nat
    decreases d.len(),
{
    if d.len() == 0 {
        0
    } else {
        digits_value(d.drop_last()) * 10 + digit_value(d.last())
    }
}

/// `10^k`.
pub open spec fn pow10(k: nat) -> nat
    decreases k,
{
    if k == 0 {
        1
    } else {
        10 * pow10((k - 1) as nat)
    }
}

/// Powers of ten are positive and grow.
pub proof fn lemma_pow10_pos(k: nat)
    ensures
        pow10(k) >= 1,
    decreases k,
{
    if k > 0 {
        lemma_pow10_pos((k - 1) as nat);
    }
}

/// `10^(a+b) = 10^a * 10^b`.
pub proof fn lemma_pow10_add(a: nat, b: nat)
    ensures
        pow10(a + b) == pow10(a) * pow10(b),
    decreases b,
{
    if b > 0 {
        let c = (b - 1) as nat;
        lemma_pow10_add(a, c);
        assert(a + b == (a + c) + 1);
        assert(pow10(a + b) == 10 * pow10(a + c));
        assert(pow10(b) == 10 * pow10(c));
        let x = pow10(a);
        let y = pow10(c);
        assert(x * (10 * y) == 10 * (x * y)) by (nonlinear_arith);
        assert(pow10(a) * pow10(b) == x * (10 * y));
    } else {
        assert(a + b == a);
        assert(pow10(b) == 1);
        let x = pow10(a);
        assert(x * 1 == x);
    }
}

/// Powers of ten are ordered like their exponents.
pub proof fn lemma_pow10_mono(a: nat, b: nat)
    requires
        a <= b,
    ensures
        pow10(a) <= pow10(b),
    decreases b - a,
{
    if a < b {
        lemma_pow10_mono(a, (b - 1) as nat);
        lemma_pow10_pos((b - 1) as nat);
    }
}

/// A digit string of length `n` stands for less than `10^n`.
pub proof fn lemma_digits_upper(d: Seq<char>)
    requires
        all_digits(d),
    ensures
        digits_value(d) < pow10(d.len()),
    decreases d.len(),
{
    if d.len() > 0 {
        let p = d.drop_last();
        assert(all_digits(p)) by {
            assert forall|i: int| 0 <= i < p.len() implies is_digit_char(#[trigger] p[i]) by {
                assert(p[i] == d[i]);
            }
        }
        lemma_digits_upper(p);
        assert(is_digit_char(d[d.len() - 1]));
        let x = digits_value(p);
        let y = digit_value(d.last());
        let k = pow10(p.len());
        assert(x * 10 + y < 10 * k) by (nonlinear_arith)
            requires
                x < k,
                y < 10,
        ;
    }
}

/// `value(a ++ b) = value(a) * 10^|b| + value(b)`.
pub proof fn lemma_digits_concat(a: Seq<char>, b: Seq<char>)
    ensures
        digits_value(a + b) == digits_value(a) * pow10(b.len()) + digits_value(b),
    decreases b.len(),
{
    if b.len() == 0 {
        assert(a + b == a);
        assert(pow10(b.len()) == 1);
        let va = digits_value(a);
        assert(va * 1 == va);
    } else {
        let bp = b.drop_last();
        lemma_digits_concat(a, bp);
        assert((a + b).drop_last() == a + bp);
        assert((a + b).last() == b.last());
        let va = digits_value(a);
        let vb = digits_value(bp);
        let k = pow10(bp.len());
        let y = digit_value(b.last());
        assert(b.len() == bp.len() + 1);
        assert(pow10(b.len()) == 10 * k);
        assert(digits_value(b) == vb * 10 + y);
        assert(digits_value(a + b) == (va * k + vb) * 10 + y);
        assert((va * k + vb) * 10 + y == va * (10 * k) + (vb * 10 + y)) by (nonlinear_arith);
    }
}

/// A one-digit numeral stands for its digit.
pub proof fn lemma_single_digit(c: char)
    ensures
        digits_value(seq![c]) == digit_value(c),
{
    assert(seq![c].drop_last() == Seq::<char>::empty());
    assert(seq![c].last() == c);
    assert(digits_value(Seq::<char>::empty()) == 0);
}

/// A digit string that does not start with `0` stands for at least
/// `10^(n-1)`.
pub proof fn lemma_digits_lower(d: Seq<char>)
    requires
        all_digits(d),
        d.len() > 0,
        d[0] != '0',
    ensures
        digits_value(d) >= pow10((d.len() - 1) as nat),
{
    let head = d.subrange(0, 1);
    let tail = d.subrange(1, d.len() as int);
    assert(head + tail == d);
    lemma_digits_concat(head, tail);
    assert(head == seq![d[0]]);
    lemma_single_digit(d[0]);
    assert(digit_value(d[0]) >= 1);
    let k = pow10(tail.len());
    assert(digits_value(head) * k >= k) by (nonlinear_arith)
        requires
            digits_value(head) >= 1,
    ;
}

/// A prefix of a digit string stands for no more than the whole.
pub proof fn lemma_digits_value_prefix(d: Seq<char>, k: int)
    requires
        0 <= k <= d.len(),
    ensures
        digits_value(d.subrange(0, k)) <= digits_value(d),
    decreases d.len() - k,
{
    if k < d.len() {
        lemma_digits_value_prefix(d, k + 1);
        assert(d.subrange(0, k + 1).drop_last() == d.subrange(0, k));
    } else {
        assert(d.subrange(0, k) == d);
    }
}

/// Leading zeros do not change a numeral's value.
pub proof fn lemma_leading_zeros(z: Seq<char>, d: Seq<char>)
    requires
        forall|i: int| 0 <= i < z.len() ==> #[trigger] z[i] == '0',
    ensures
        digits_value(z + d) == digits_value(d),
{
    lemma_zeros_value(z);
    lemma_digits_concat(z, d);
}

/// A string of zeros stands for zero.
pub proof fn lemma_zeros_value(z: Seq<char>)
    requires
        forall|i: int| 0 <= i < z.len() ==> #[trigger] z[i] == '0',
    ensures
        digits_value(z) == 0,
    decreases z.len(),
{
    if z.len() > 0 {
        let p = z.drop_last();
        assert forall|i: int| 0 <= i < p.len() implies #[trigger] p[i] == '0' by {
            assert(p[i] == z[i]);
        }
        lemma_zeros_value(p);
        assert(z.last() == '0');
    }
}

/// Of two digit strings of equal length that first differ at `j`, the one
/// with the larger digit there stands for the larger number.
pub proof fn lemma_digits_first_difference(a: Seq<char>, b: Seq<char>, j: int)
    requires
        a.len() == b.len(),
        all_digits(a),
        all_digits(b),
        0 <= j < a.len(),
        a.subrange(0, j) == b.subrange(0, j),
        digit_value(a[j]) > digit_value(b[j]),
    ensures
        digits_value(a) > digits_value(b),
{
    let p = a.subrange(0, j);
    let ra = a.subrange(j + 1, a.len() as int);
    let rb = b.subrange(j + 1, b.len() as int);
    let xa = a.subrange(j, j + 1);
    let xb = b.subrange(j, j + 1);
    assert(a == p + xa + ra);
    assert(b == p + xb + rb);
    lemma_digits_concat(p + xa, ra);
    lemma_digits_concat(p + xb, rb);
    lemma_digits_concat(p, xa);
    lemma_digits_concat(p, xb);
    assert(xa == seq![a[j]]);
    assert(xb == seq![b[j]]);
    lemma_single_digit(a[j]);
    lemma_single_digit(b[j]);
    assert(p == b.subrange(0, j));
    assert(all_digits(rb)) by {
        assert forall|i: int| 0 <= i < rb.len() implies is_digit_char(#[trigger] rb[i]) by {
            assert(rb[i] == b[j + 1 + i]);
        }
    }
    lemma_digits_upper(rb);
    lemma_pow10_pos(1);
    let vp = digits_value(p);
    let k = pow10(ra.len());
    let da = digit_value(a[j]);
    let db = digit_value(b[j]);
    let vra = digits_value(ra);
    let vrb = digits_value(rb);
    assert(pow10(1) == 10) by {
        assert(pow10(0) == 1);
    }
    assert(xa.len() == 1 && xb.len() == 1);
    assert(ra.len() == rb.len());
    assert(digits_value(p + xa) == vp * 10 + da);
    assert(digits_value(p + xb) == vp * 10 + db);
    assert(digits_value(a) == (vp * 10 + da) * k + vra);
    assert(digits_value(b) == (vp * 10 + db) * k + vrb);
    assert((vp * 10 + da) * k + vra > (vp * 10 + db) * k + vrb) by (nonlinear_arith)
        requires
            da > db,
            vrb < k,
            vra >= 0,
    ;
}

} // verus!
