//! Text primitives shared by the rest of the library: extended grapheme
//! clusters (through `unicode_segmentation`), Unicode white space,
//! decimal and hexadecimal digits, and building `String`s char by char.

use unicode_segmentation::UnicodeSegmentation;
use vstd::prelude::*;
use vstd::utf8::*;
use vstd::string::StringSliceAdditionalSpecFns;

verus! {

/// The extended grapheme clusters (UAX #29) of `s`, in order, as
/// `unicode_segmentation`'s `graphemes(true)` yields them.
pub uninterp spec fn grapheme_clusters(s: Seq<char>) -> Seq<Seq<char>>;

/// The char views of a vector of strings.
pub open spec fn string_views(v: Seq<String>) -> Seq<Seq<char>> {
    v.map_values(|g: String| g@)
}

/// Splits `s` into its extended grapheme clusters
/// (`UnicodeSegmentation::graphemes(s, true)`, each cluster copied into a
/// `String`). Claimed of the result: it is `grapheme_clusters(s@)`; the
/// clusters are non-empty and, joined in order, give back `s` (the
/// iterator hands out consecutive slices `s[start..next]` with
/// `next > start`, from offset 0 to the end).
#[verifier::external_body]
pub(crate) fn split_graphemes(s: &str) -> (r: Vec<String>)
    ensures
        string_views(r@) == grapheme_clusters(s@),
        string_views(r@).flatten() == s@,
        forall|i: int| 0 <= i < r@.len() ==> (#[trigger] r@[i])@.len() > 0,
{
    s.graphemes(true).map(|g| g.to_string()).collect()
}

/// The first extended grapheme cluster of `s`
/// (`UnicodeSegmentation::graphemes(s, true).next()`, copied into a
/// `String`). Claimed: `None` exactly for the empty string; otherwise the
/// cluster is `grapheme_clusters(s@)[0]`, a non-empty prefix of `s`.
#[verifier::external_body]
pub(crate) fn first_grapheme(s: &str) -> (r: Option<String>)
    ensures
        r is None <==> s@.len() == 0,
        r matches Some(g) ==> {
            &&& g@ == grapheme_clusters(s@)[0]
            &&& g@.len() > 0
            &&& g@.len() <= s@.len()
            &&& s@.subrange(0, g@.len() as int) == g@
        },
{
    s.graphemes(true).next().map(|g| g.to_string())
}

/// The lowercase char of the hexadecimal digit `d < 16` (so also of the
/// decimal digit `d < 10`).
pub open spec fn digit_char(d: nat) -> char {
    if d == 0 { '0' }
    else if d == 1 { '1' }
    else if d == 2 { '2' }
    else if d == 3 { '3' }
    else if d == 4 { '4' }
    else if d == 5 { '5' }
    else if d == 6 { '6' }
    else if d == 7 { '7' }
    else if d == 8 { '8' }
    else if d == 9 { '9' }
    else if d == 10 { 'a' }
    else if d == 11 { 'b' }
    else if d == 12 { 'c' }
    else if d == 13 { 'd' }
    else if d == 14 { 'e' }
    else { 'f' }
}

/// The lowercase char of the hexadecimal digit `d`.
pub fn digit(d: u8) -> (c: char)
    requires
        d < 16,
    ensures
        c == digit_char(d as nat),
{
    if d == 0 { '0' }
    else if d == 1 { '1' }
    else if d == 2 { '2' }
    else if d == 3 { '3' }
    else if d == 4 { '4' }
    else if d == 5 { '5' }
    else if d == 6 { '6' }
    else if d == 7 { '7' }
    else if d == 8 { '8' }
    else if d == 9 { '9' }
    else if d == 10 { 'a' }
    else if d == 11 { 'b' }
    else if d == 12 { 'c' }
    else if d == 13 { 'd' }
    else if d == 14 { 'e' }
    else { 'f' }
}

/// Decimal representation of `n`, most significant digit first, no
/// leading zeros (`"0"` for zero).
pub open spec fn decimal(n: nat) -> Seq<char>
    decreases n,
{
    if n < 10 {
        seq![digit_char(n)]
    } else {
        decimal(n / 10).push(digit_char(n % 10))
    }
}

/// Appends the decimal representation of `n`.
pub fn push_decimal(s: &mut String, n: u64)
    ensures
        final(s)@ == old(s)@ + decimal(n as nat),
    decreases n,
{
    if n >= 10 {
        push_decimal(s, n / 10);
    }
    push_char(s, digit((n % 10) as u8));
}

/// The chars of `s`, in order.
pub fn chars_of(s: &str) -> (v: Vec<char>)
    ensures
        v@ == s@,
{
    let mut v: Vec<char> = Vec::new();
    broadcast use vstd::string::group_string_axioms;
    for c in it: s.chars()
        invariant
            it.seq() == s@,
            v@ == s@.take(it.index() as int),
    {
        v.push(c);
        assert(s@.take(it.index() + 1) == s@.take(it.index() as int).push(c));
    }
    assert(s@.take(s@.len() as int) == s@);
    v
}

/// UTF-8 encoding distributes over concatenation.
pub proof fn lemma_encode_concat(a: Seq<char>, b: Seq<char>)
    ensures
        encode_utf8(a + b) == encode_utf8(a) + encode_utf8(b),
    decreases a.len(),
{
    if a.len() == 0 {
        assert(a + b == b);
    } else {
        lemma_encode_concat(a.drop_first(), b);
        assert((a + b).drop_first() == a.drop_first() + b);
        assert((a + b)[0] == a[0]);
    }
}

/// The end of the encoding of a prefix is a char boundary of the encoding
/// of the whole.
pub proof fn lemma_prefix_boundary(a: Seq<char>, b: Seq<char>)
    ensures
        is_char_boundary(encode_utf8(a + b), encode_utf8(a).len() as int),
    decreases a.len(),
{
    let s = a + b;
    let bytes = encode_utf8(s);
    encode_utf8_valid_utf8(s);
    if a.len() == 0 {
    } else {
        encode_utf8_first_scalar(s);
        assert(s[0] == a[0]);
        assert(s.drop_first() == a.drop_first() + b);
        lemma_encode_concat(a.drop_first(), b);
        assert(pop_first_scalar(bytes) == encode_utf8(s.drop_first()));
        lemma_prefix_boundary(a.drop_first(), b);
        assert(encode_utf8(a).len() == encode_scalar(a[0] as u32).len() + encode_utf8(a.drop_first()).len());
    }
}

/// Splits `s` after its first `k` chars, given their byte count `nbytes`
/// (`str::split_at` at that byte offset).
pub(crate) fn split_after_chars<'a>(s: &'a str, Ghost(k): Ghost<int>, nbytes: usize) -> (r: (&'a str, &'a str))
    requires
        0 <= k <= s@.len(),
        nbytes == encode_utf8(s@.subrange(0, k)).len(),
    ensures
        r.0@ == s@.subrange(0, k),
        r.1@ == s@.subrange(k, s@.len() as int),
{
    let ghost a = s@.subrange(0, k);
    let ghost b = s@.subrange(k, s@.len() as int);
    proof {
        assert(s@ == a + b);
        lemma_prefix_boundary(a, b);
        lemma_encode_concat(a, b);
    }
    let r = s.split_at(nbytes);
    proof {
        assert(r.0.spec_bytes() == encode_utf8(a));
        assert(r.1.spec_bytes() == encode_utf8(b));
        encode_utf8_decode_utf8(r.0@);
        encode_utf8_decode_utf8(a);
        encode_utf8_decode_utf8(r.1@);
        encode_utf8_decode_utf8(b);
    }
    r
}

/// Number of bytes in the UTF-8 encoding of `s`.
pub fn byte_len(s: &str) -> (n: usize)
    ensures
        n == encode_utf8(s@).len(),
{
    s.as_bytes().len()
}

/// Unicode `White_Space` (the property `char::is_whitespace` tests):
/// U+0009..U+000D, U+0020, U+0085, U+00A0, U+1680, U+2000..U+200A,
/// U+2028, U+2029, U+202F, U+205F and U+3000.
pub open spec fn is_ws(c: char) -> bool {
    let u = c as u32;
    ||| 0x09 <= u <= 0x0d
    ||| u == 0x20
    ||| u == 0x85
    ||| u == 0xa0
    ||| u == 0x1680
    ||| 0x2000 <= u <= 0x200a
    ||| u == 0x2028
    ||| u == 0x2029
    ||| u == 0x202f
    ||| u == 0x205f
    ||| u == 0x3000
}

/// True for a Unicode white-space char.
pub fn is_whitespace(c: char) -> (b: bool)
    ensures
        b == is_ws(c),
{
    let u = c as u32;
    (0x09 <= u && u <= 0x0d) || u == 0x20 || u == 0x85 || u == 0xa0 || u == 0x1680 || (0x2000 <= u
        && u <= 0x200a) || u == 0x2028 || u == 0x2029 || u == 0x202f || u == 0x205f || u == 0x3000
}

/// Every char of `s` is white space (so `s` trims to nothing).
pub open spec fn is_blank(s: Seq<char>) -> bool {
    forall|i: int| 0 <= i < s.len() ==> is_ws(#[trigger] s[i])
}

/// True when `s` is empty or white space only.
pub fn all_whitespace(s: &str) -> (b: bool)
    ensures
        b == is_blank(s@),
{
    let cs = chars_of(s);
    let mut i: usize = 0;
    while i < cs.len()
        invariant
            cs@ == s@,
            i <= cs@.len(),
            forall|j: int| 0 <= j < i ==> is_ws(#[trigger] cs@[j]),
        decreases cs@.len() - i,
    {
        if !is_whitespace(cs[i]) {
            return false;
        }
        i = i + 1;
    }
    true
}

/// True when `s` is exactly the one char `c`.
pub fn is_single(s: &str, c: char) -> (b: bool)
    ensures
        b == (s@ == seq![c]),
{
    if s.unicode_len() != 1 {
        return false;
    }
    let d = s.get_char(0);
    proof {
        if d == c {
            assert(s@ == seq![c]);
        }
    }
    d == c
}

/// `s` without its leading white space.
pub open spec fn trim_start_seq(s: Seq<char>) -> Seq<char>
    decreases s.len(),
{
    if s.len() > 0 && is_ws(s[0]) {
        trim_start_seq(s.drop_first())
    } else {
        s
    }
}

/// `s` without its trailing white space.
pub open spec fn trim_end_seq(s: Seq<char>) -> Seq<char>
    decreases s.len(),
{
    if s.len() > 0 && is_ws(s.last()) {
        trim_end_seq(s.drop_last())
    } else {
        s
    }
}

/// Trimming the front keeps a suffix.
pub proof fn lemma_trim_start_suffix(s: Seq<char>)
    ensures
        trim_start_seq(s).len() <= s.len(),
        trim_start_seq(s) == s.subrange(s.len() - trim_start_seq(s).len(), s.len() as int),
    decreases s.len(),
{
    if s.len() > 0 && is_ws(s[0]) {
        lemma_trim_start_suffix(s.drop_first());
        let t = trim_start_seq(s.drop_first());
        assert(s.drop_first().subrange(s.len() - 1 - t.len(), s.len() - 1) == s.subrange(
            s.len() - t.len(),
            s.len() as int,
        ));
    } else {
        assert(s.subrange(0, s.len() as int) == s);
    }
}

/// Trimming the back keeps a prefix.
pub proof fn lemma_trim_end_prefix(s: Seq<char>)
    ensures
        trim_end_seq(s).len() <= s.len(),
        trim_end_seq(s) == s.subrange(0, trim_end_seq(s).len() as int),
    decreases s.len(),
{
    if s.len() > 0 && is_ws(s.last()) {
        lemma_trim_end_prefix(s.drop_last());
        let t = trim_end_seq(s.drop_last());
        assert(s.drop_last().subrange(0, t.len() as int) == s.subrange(0, t.len() as int));
    } else {
        assert(s.subrange(0, s.len() as int) == s);
    }
}

/// Trimming the front of a text that is not blank leaves what follows it
/// alone.
pub proof fn lemma_trim_start_concat(x: Seq<char>, y: Seq<char>)
    requires
        trim_start_seq(x).len() > 0,
    ensures
        trim_start_seq(x + y) == trim_start_seq(x) + y,
    decreases x.len(),
{
    assert(x.len() > 0);
    assert((x + y)[0] == x[0]);
    if is_ws(x[0]) {
        assert((x + y).drop_first() == x.drop_first() + y);
        lemma_trim_start_concat(x.drop_first(), y);
    }
}

/// Trimming the front twice is trimming it once.
pub proof fn lemma_trim_start_twice(x: Seq<char>)
    ensures
        trim_start_seq(trim_start_seq(x)) == trim_start_seq(x),
    decreases x.len(),
{
    if x.len() > 0 && is_ws(x[0]) {
        lemma_trim_start_twice(x.drop_first());
    }
}

/// Trimming keeps a contiguous part of the text.
pub proof fn lemma_trim_is_part(s: Seq<char>)
    ensures
        exists|a: int, b: int| 0 <= a <= b <= s.len() && trim_seq(s) == s.subrange(a, b),
{
    lemma_trim_start_suffix(s);
    let x = trim_start_seq(s);
    let a = s.len() - x.len();
    lemma_trim_end_prefix(x);
    let b = a + trim_end_seq(x).len();
    assert(trim_seq(s) == s.subrange(a, b));
}

/// `s` without leading and trailing white space (`str::trim`).
pub open spec fn trim_seq(s: Seq<char>) -> Seq<char> {
    trim_end_seq(trim_start_seq(s))
}

/// The chars of `v[a..b]` with white space trimmed from both ends, as a
/// pair of bounds into `v`.
pub fn trim_bounds(v: &Vec<char>, a: usize, b: usize) -> (r: (usize, usize))
    requires
        a <= b <= v@.len(),
    ensures
        a <= r.0 <= r.1 <= b,
        v@.subrange(r.0 as int, r.1 as int) == trim_seq(v@.subrange(a as int, b as int)),
{
    let mut lo = a;
    while lo < b && is_whitespace(v[lo])
        invariant
            a <= lo <= b,
            b <= v@.len(),
            trim_start_seq(v@.subrange(a as int, b as int)) == trim_start_seq(v@.subrange(lo as int, b as int)),
        decreases b - lo,
    {
        assert(v@.subrange(lo as int, b as int).drop_first() == v@.subrange(lo + 1, b as int));
        lo = lo + 1;
    }
    assert(trim_start_seq(v@.subrange(lo as int, b as int)) == v@.subrange(lo as int, b as int));
    let mut hi = b;
    while hi > lo && is_whitespace(v[hi - 1])
        invariant
            a <= lo <= hi <= b,
            b <= v@.len(),
            trim_end_seq(v@.subrange(lo as int, b as int)) == trim_end_seq(v@.subrange(lo as int, hi as int)),
        decreases hi - lo,
    {
        assert(v@.subrange(lo as int, hi as int).drop_last() == v@.subrange(lo as int, hi - 1));
        hi = hi - 1;
    }
    (lo, hi)
}

/// True when `v[a..b]` spells `lit`.
pub fn range_eq_lit(v: &Vec<char>, a: usize, b: usize, lit: &str) -> (r: bool)
    requires
        a <= b <= v@.len(),
    ensures
        r == (v@.subrange(a as int, b as int) == lit@),
{
    let l = chars_of(lit);
    if b - a != l.len() {
        return false;
    }
    let mut i: usize = 0;
    while i < l.len()
        invariant
            b - a == l@.len(),
            a <= b <= v@.len(),
            l@ == lit@,
            i <= l@.len(),
            forall|j: int| 0 <= j < i ==> v@[a + j] == #[trigger] l@[j],
        decreases l@.len() - i,
    {
        if v[a + i] != l[i] {
            assert(v@.subrange(a as int, b as int)[i as int] != lit@[i as int]);
            return false;
        }
        i = i + 1;
    }
    assert(v@.subrange(a as int, b as int) == lit@);
    true
}

/// A `String` holding `v[a..b]`.
pub fn string_of_range(v: &Vec<char>, a: usize, b: usize) -> (r: String)
    requires
        a <= b <= v@.len(),
    ensures
        r@ == v@.subrange(a as int, b as int),
{
    let mut out = String::new();
    let mut i = a;
    while i < b
        invariant
            a <= i <= b,
            b <= v@.len(),
            out@ == v@.subrange(a as int, i as int),
        decreases b - i,
    {
        push_char(&mut out, v[i]);
        assert(v@.subrange(a as int, i + 1) == v@.subrange(a as int, i as int).push(v@[i as int]));
        i = i + 1;
    }
    out
}

/// The pieces of `ps` that are not blank, in order.
pub open spec fn keep_nonblank(ps: Seq<Seq<char>>) -> Seq<Seq<char>>
    decreases ps.len(),
{
    if ps.len() == 0 {
        seq![]
    } else if is_blank(ps.last()) {
        keep_nonblank(ps.drop_last())
    } else {
        keep_nonblank(ps.drop_last()).push(ps.last())
    }
}

/// Appends `seg` to `out` unless it is blank. The stored segment keeps its
/// own leading and trailing white space.
pub(crate) fn push_nonblank(out: &mut Vec<String>, Ghost(done): Ghost<Seq<Seq<char>>>, seg: String)
    requires
        string_views(old(out)@) == keep_nonblank(done),
    ensures
        string_views(final(out)@) == keep_nonblank(done.push(seg@)),
{
    proof {
        assert(done.push(seg@).drop_last() == done);
    }
    if !all_whitespace(seg.as_str()) {
        let ghost before = old(out)@;
        out.push(seg);
        proof {
            assert(string_views(out@) == string_views(before).push(seg@));
        }
    }
}

/// Appends one char (`String::push`).
#[verifier::external_body]
pub(crate) fn push_char(s: &mut String, c: char)
    ensures
        final(s)@ == old(s)@.push(c),
{
    s.push(c);
}

} // verus!
