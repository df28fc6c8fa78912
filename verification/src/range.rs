//! Whether a JSON number lies beyond the range of an IEEE-754 binary64
//! double. RFC 8259 §6 lets an implementation limit the range of numbers;
//! this library, like a binary64 reader rounding to nearest, refuses a
//! number whose magnitude would round to infinity.
use vstd::prelude::*;
use vstd::utf8::is_ascii_chars_encode_utf8;

use crate::tokeniser::{byte_is, digit_at, digits_end, is_digit, number_end, skip_digits, text_bytes};

verus! {

// ---------------------------------------------------------------------
// Decimal digits.
// ---------------------------------------------------------------------

pub open spec fn pow10(k: nat) -> nat
    decreases k,
{
    if k == 0 {
        1
    } else {
        10 * pow10((k - 1) as nat)
    }
}

/// Every byte of `ds` is an ASCII decimal digit.
pub open spec fn all_digits(ds: Seq<u8>) -> bool {
    forall|i: int| 0 <= i < ds.len() ==> is_digit(#[trigger] ds[i])
}

/// The number that the ASCII decimal digits `ds` denote.
pub open spec fn digits_value(ds: Seq<u8>) -> nat
    decreases ds.len(),
{
    if ds.len() == 0 {
        0
    } else {
        digits_value(ds.drop_last()) * 10 + (ds.last() - 0x30) as nat
    }
}

/// `k` zero digits.
pub open spec fn zeros(k: nat) -> Seq<u8> {
    Seq::new(k, |i: int| 0x30u8)
}

/// The decimal digits of 2^1024 − 2^970: the least number that rounds to
/// infinity as a binary64 double (round to nearest, ties to even), the
/// largest finite double being (2^53 − 1) · 2^971.
pub const DOUBLE_LIMIT_DIGITS: &'static str = "179769313486231580793728971405303415079934132710037826936173778980444968292764750946649017977587207096330286416692887910946555547851940402630657488671505820681908902000708383676273854845817711531764475730270069855571366959622842914819860834936475292719074168444365510704342711559699508093042880177904174497792";

pub open spec fn limit_digits() -> Seq<u8> {
    text_bytes(DOUBLE_LIMIT_DIGITS@)
}

/// The least magnitude that rounds to infinity as a binary64 double.
pub open spec fn double_limit() -> nat {
    digits_value(limit_digits())
}

/// The magnitude `m · 10^e` is at least the limit.
pub open spec fn at_least_limit(m: nat, e: int) -> bool {
    if e >= 0 {
        m * pow10(e as nat) >= double_limit()
    } else {
        m >= double_limit() * pow10((-e) as nat)
    }
}

// ---------------------------------------------------------------------
// The parts of a number (RFC 8259 §6: [ minus ] int [ frac ] [ exp ]),
// read as `number_end` reads them from `start`, the number ending at `end`.
// ---------------------------------------------------------------------

pub open spec fn int_start(b: Seq<u8>, start: nat) -> nat {
    if byte_is(b, start, 0x2D) {
        start + 1
    } else {
        start
    }
}

pub open spec fn int_end(b: Seq<u8>, start: nat) -> nat {
    let i0 = int_start(b, start);
    if byte_is(b, i0, 0x30) {
        i0 + 1
    } else {
        digits_end(b, i0 + 1)
    }
}

pub open spec fn frac_end(b: Seq<u8>, start: nat) -> nat {
    let i1 = int_end(b, start);
    if byte_is(b, i1, 0x2E) {
        digits_end(b, i1 + 1)
    } else {
        i1
    }
}

pub open spec fn frac_digits(b: Seq<u8>, start: nat) -> Seq<u8> {
    let i1 = int_end(b, start);
    let i2 = frac_end(b, start);
    if i2 > i1 {
        b.subrange((i1 + 1) as int, i2 as int)
    } else {
        Seq::empty()
    }
}

/// The digits of the integer and fraction parts, which denote the number
/// once scaled by its exponent.
pub open spec fn mantissa_digits(b: Seq<u8>, start: nat) -> Seq<u8> {
    b.subrange(int_start(b, start) as int, int_end(b, start) as int) + frac_digits(b, start)
}

pub open spec fn exp_digits_start(b: Seq<u8>, start: nat) -> nat {
    let i2 = frac_end(b, start);
    if byte_is(b, i2 + 1, 0x2B) || byte_is(b, i2 + 1, 0x2D) {
        i2 + 2
    } else {
        i2 + 1
    }
}

/// The value of the exponent part (0 where there is none).
pub open spec fn exponent_value(b: Seq<u8>, start: nat, end: nat) -> int {
    let i2 = frac_end(b, start);
    if i2 < end {
        let x = digits_value(b.subrange(exp_digits_start(b, start) as int, end as int));
        if byte_is(b, i2 + 1, 0x2D) {
            -x
        } else {
            x as int
        }
    } else {
        0
    }
}

/// The power of ten that scales the mantissa digits to the number.
pub open spec fn scale(b: Seq<u8>, start: nat, end: nat) -> int {
    exponent_value(b, start, end) - frac_digits(b, start).len()
}

/// The number from `start` to `end` has a magnitude that rounds to infinity
/// as a binary64 double.
pub open spec fn too_large(b: Seq<u8>, start: nat, end: nat) -> bool {
    at_least_limit(digits_value(mantissa_digits(b, start)), scale(b, start, end))
}

// ---------------------------------------------------------------------
// Facts about decimal digits.
// ---------------------------------------------------------------------

pub proof fn lemma_pow10_adds(a: nat, b: nat)
    ensures
        pow10(a + b) == pow10(a) * pow10(b),
    decreases a,
{
    if a > 0 {
        let a1 = (a - 1) as nat;
        lemma_pow10_adds(a1, b);
        assert(a1 + b + 1 == a + b);
        assert(pow10(a + b) == 10 * pow10(a1 + b));
        assert(pow10(a) == 10 * pow10(a1));
        let x = pow10(a1);
        let y = pow10(b);
        assert(10 * (x * y) == (10 * x) * y) by (nonlinear_arith);
    } else {
        assert(pow10(0) == 1);
        assert(a + b == b);
        assert(1 * pow10(b) == pow10(b));
    }
}

pub proof fn lemma_pow10_positive(a: nat)
    ensures
        pow10(a) >= 1,
    decreases a,
{
    if a > 0 {
        lemma_pow10_positive((a - 1) as nat);
    }
}

pub proof fn lemma_pow10_monotone(a: nat, b: nat)
    requires
        a <= b,
    ensures
        pow10(a) <= pow10(b),
    decreases b,
{
    if a < b {
        lemma_pow10_monotone(a, (b - 1) as nat);
        lemma_pow10_positive((b - 1) as nat);
    }
}

pub proof fn lemma_digits_value_concat(a: Seq<u8>, b: Seq<u8>)
    ensures
        digits_value(a + b) == digits_value(a) * pow10(b.len()) + digits_value(b),
    decreases b.len(),
{
    if b.len() == 0 {
        assert(a + b =~= a);
        assert(pow10(0) == 1);
        assert(digits_value(b) == 0);
        assert(digits_value(a) * 1 == digits_value(a));
    } else {
        let b1 = b.drop_last();
        lemma_digits_value_concat(a, b1);
        assert((a + b).drop_last() =~= a + b1);
        assert((a + b).last() == b.last());
        let x = digits_value(a);
        let p = pow10(b1.len());
        let y = digits_value(b1);
        let d = (b.last() - 0x30) as nat;
        assert(digits_value(a + b) == digits_value(a + b1) * 10 + d);
        assert(digits_value(b) == y * 10 + d);
        assert(b1.len() + 1 == b.len());
        assert(pow10(b.len()) == 10 * p);
        assert((x * p + y) * 10 + d == x * (10 * p) + (y * 10 + d)) by (nonlinear_arith);
    }
}

pub proof fn lemma_digits_value_bound(a: Seq<u8>)
    requires
        all_digits(a),
    ensures
        digits_value(a) < pow10(a.len()),
    decreases a.len(),
{
    if a.len() > 0 {
        assert(is_digit(a[a.len() - 1]));
        assert(all_digits(a.drop_last()));
        lemma_digits_value_bound(a.drop_last());
        let y = digits_value(a.drop_last());
        let p = pow10(a.drop_last().len());
        let d = (a.last() - 0x30) as nat;
        assert(y * 10 + d < 10 * p) by (nonlinear_arith)
            requires
                y < p,
                d < 10,
        ;
    }
}

pub proof fn lemma_digits_value_zeros(k: nat)
    ensures
        digits_value(zeros(k)) == 0,
    decreases k,
{
    if k > 0 {
        assert(zeros(k).drop_last() =~= zeros((k - 1) as nat));
        lemma_digits_value_zeros((k - 1) as nat);
    }
}

/// Digits that begin with a non-zero digit denote at least `10^(len - 1)`.
pub proof fn lemma_digits_value_lower(a: Seq<u8>)
    requires
        a.len() > 0,
        all_digits(a),
        a[0] != 0x30,
    ensures
        digits_value(a) >= pow10((a.len() - 1) as nat),
{
    let head = seq![a[0]];
    let tail = a.drop_first();
    assert(head + tail =~= a);
    lemma_digits_value_concat(head, tail);
    assert(head.drop_last() =~= Seq::<u8>::empty());
    assert(is_digit(a[0]));
    assert(digits_value(head) >= 1);
    let p = pow10(tail.len());
    assert(digits_value(head) * p >= p) by (nonlinear_arith)
        requires
            digits_value(head) >= 1,
    ;
}

pub proof fn lemma_leading_zeros(a: Seq<u8>, z: nat)
    requires
        z <= a.len(),
        forall|i: int| 0 <= i < z ==> #[trigger] a[i] == 0x30,
    ensures
        digits_value(a) == digits_value(a.subrange(z as int, a.len() as int)),
{
    let head = a.subrange(0, z as int);
    let tail = a.subrange(z as int, a.len() as int);
    assert(head + tail =~= a);
    assert(head =~= zeros(z));
    lemma_digits_value_concat(head, tail);
    lemma_digits_value_zeros(z);
}

pub proof fn lemma_padded(a: Seq<u8>, k: nat)
    ensures
        digits_value(a + zeros(k)) == digits_value(a) * pow10(k),
{
    lemma_digits_value_concat(a, zeros(k));
    lemma_digits_value_zeros(k);
}

/// Of two runs of digits of one length, the one with the smaller digit at
/// the first place where they differ is the smaller number.
pub proof fn lemma_first_difference(a: Seq<u8>, b: Seq<u8>, i: nat)
    requires
        a.len() == b.len(),
        i < a.len(),
        all_digits(a),
        all_digits(b),
        forall|k: int| 0 <= k < i ==> #[trigger] a[k] == b[k],
        a[i as int] < b[i as int],
    ensures
        digits_value(a) < digits_value(b),
{
    let r = (a.len() - i - 1) as nat;
    let pa = a.subrange(0, i as int);
    let pb = b.subrange(0, i as int);
    assert(pa =~= pb);
    let ra = a.subrange((i + 1) as int, a.len() as int);
    let rb = b.subrange((i + 1) as int, b.len() as int);
    let ha = pa.push(a[i as int]);
    let hb = pa.push(b[i as int]);
    assert(ha + ra =~= a);
    assert(hb + rb =~= b);
    lemma_digits_value_concat(ha, ra);
    lemma_digits_value_concat(hb, rb);
    assert(ha.drop_last() =~= pa);
    assert(hb.drop_last() =~= pa);
    assert(all_digits(ra));
    lemma_digits_value_bound(ra);
    let x = digits_value(pa);
    let da = (a[i as int] - 0x30) as nat;
    let db = (b[i as int] - 0x30) as nat;
    assert(is_digit(a[i as int]) && is_digit(b[i as int]));
    let p = pow10(r);
    let ya = digits_value(ra);
    let yb = digits_value(rb);
    assert((x * 10 + da) * p + ya < (x * 10 + db) * p + yb) by (nonlinear_arith)
        requires
            da < db,
            ya < p,
    ;
}

// ---------------------------------------------------------------------
// Deciding the limit from the count of significant digits.
// ---------------------------------------------------------------------

pub proof fn lemma_limit_digits()
    ensures
        limit_digits().len() == 309,
        all_digits(limit_digits()),
        limit_digits()[0] == 0x31,
        pow10(308) <= double_limit() < pow10(309),
{
    reveal_strlit(
        "179769313486231580793728971405303415079934132710037826936173778980444968292764750946649017977587207096330286416692887910946555547851940402630657488671505820681908902000708383676273854845817711531764475730270069855571366959622842914819860834936475292719074168444365510704342711559699508093042880177904174497792",
    );
    let ld = limit_digits();
    assert(forall|i: int| 0 <= i < 309 ==> '0' <= #[trigger] DOUBLE_LIMIT_DIGITS@[i] <= '9');
    assert(all_digits(ld));
    lemma_digits_value_bound(ld);
    lemma_digits_value_lower(ld);
}

/// The significant digits `s` (the first not zero) scaled by `10^e`, their
/// leading digit standing at `10^(len s - 1 + e)`: at or beyond `10^309`
/// the number is too large, below `10^308` it is not.
pub proof fn lemma_limit_by_magnitude(s: Seq<u8>, e: int)
    requires
        s.len() > 0,
        all_digits(s),
        s[0] != 0x30,
    ensures
        s.len() - 1 + e >= 309 ==> at_least_limit(digits_value(s), e),
        s.len() - 1 + e <= 307 ==> !at_least_limit(digits_value(s), e),
{
    let n = s.len();
    let m = digits_value(s);
    lemma_limit_digits();
    lemma_digits_value_bound(s);
    lemma_digits_value_lower(s);
    let lim = double_limit();
    if n - 1 + e >= 309 {
        if e >= 0 {
            // m * 10^e >= 10^(n-1) * 10^e = 10^(n-1+e) >= 10^309 > lim
            lemma_pow10_adds((n - 1) as nat, e as nat);
            lemma_pow10_monotone(309, (n - 1 + e) as nat);
            assert(m * pow10(e as nat) >= pow10((n - 1) as nat) * pow10(e as nat)) by (nonlinear_arith)
                requires
                    m >= pow10((n - 1) as nat),
            ;
        } else {
            // m >= 10^(n-1) = 10^(n-1+e) * 10^(-e) >= 10^309 * 10^(-e) > lim * 10^(-e)
            let k = (-e) as nat;
            let t = (n - 1 + e) as nat;
            lemma_pow10_adds(t, k);
            lemma_pow10_monotone(309, t);
            lemma_pow10_positive(k);
            assert(pow10(t) * pow10(k) >= lim * pow10(k)) by (nonlinear_arith)
                requires
                    pow10(t) > lim,
                    pow10(k) >= 1,
            ;
        }
    }
    if n - 1 + e <= 307 {
        if e >= 0 {
            // m * 10^e < 10^n * 10^e = 10^(n+e) <= 10^308 <= lim
            lemma_pow10_adds(n, e as nat);
            lemma_pow10_monotone((n + e) as nat, 308);
            lemma_pow10_positive(e as nat);
            assert(m * pow10(e as nat) < pow10(n) * pow10(e as nat)) by (nonlinear_arith)
                requires
                    m < pow10(n),
                    pow10(e as nat) >= 1,
            ;
        } else {
            // m < 10^n <= 10^(308 - e) = 10^308 * 10^(-e) <= lim * 10^(-e)
            let k = (-e) as nat;
            lemma_pow10_adds(308, k);
            lemma_pow10_monotone(n, (308 + k) as nat);
            lemma_pow10_positive(k);
            assert(pow10(308) * pow10(k) <= lim * pow10(k)) by (nonlinear_arith)
                requires
                    pow10(308) <= lim,
            ;
        }
    }
}

/// At the leading place `10^308`, the number is too large exactly when its
/// significant digits, padded with zeros to a common length, are at least
/// the limit's.
pub proof fn lemma_limit_by_digits(s: Seq<u8>, e: int)
    requires
        s.len() > 0,
        s.len() - 1 + e == 308,
    ensures
        s.len() <= 309 ==> (at_least_limit(digits_value(s), e) <==> digits_value(
            s + zeros((309 - s.len()) as nat),
        ) >= digits_value(limit_digits())),
        s.len() > 309 ==> (at_least_limit(digits_value(s), e) <==> digits_value(s)
            >= digits_value(limit_digits() + zeros((s.len() - 309) as nat))),
{
    if s.len() <= 309 {
        lemma_padded(s, (309 - s.len()) as nat);
    } else {
        lemma_padded(limit_digits(), (s.len() - 309) as nat);
    }
}


// ---------------------------------------------------------------------
// The decision.
// ---------------------------------------------------------------------

pub proof fn lemma_digit_run(b: Seq<u8>, i: nat)
    ensures
        forall|k: int| i <= k < digits_end(b, i) ==> is_digit(#[trigger] b[k]),
        i <= digits_end(b, i),
        i <= b.len() ==> digits_end(b, i) <= b.len(),
    decreases b.len() - i,
{
    if digit_at(b, i) {
        lemma_digit_run(b, i + 1);
    }
}

/// The facts about the parts of a number that `number_end` reads whole.
pub proof fn lemma_number_parts(b: Seq<u8>, start: nat, end: nat)
    requires
        number_end(b, start) == Some(end),
    ensures
        start <= int_start(b, start) < int_end(b, start) <= frac_end(b, start) <= end <= b.len(),
        all_digits(mantissa_digits(b, start)),
        frac_end(b, start) > int_end(b, start) ==> byte_is(b, int_end(b, start), 0x2E)
            && frac_end(b, start) > int_end(b, start) + 1,
        frac_end(b, start) < end ==> frac_end(b, start) + 1 < end && exp_digits_start(b, start)
            < end && all_digits(b.subrange(exp_digits_start(b, start) as int, end as int)),
{
    let i0 = int_start(b, start);
    lemma_digit_run(b, i0 + 1);
    let i1 = int_end(b, start);
    lemma_digit_run(b, i1 + 1);
    let i2 = frac_end(b, start);
    let j = exp_digits_start(b, start);
    lemma_digit_run(b, j);
    lemma_digit_run(b, j + 1);
    lemma_digit_run(b, i1 + 2);
    if byte_is(b, i2, 0x65) || byte_is(b, i2, 0x45) {
        assert(digit_at(b, j));
        assert(end == digits_end(b, j));
    } else {
        assert(end == i2);
    }
    let m = mantissa_digits(b, start);
    let ip = b.subrange(i0 as int, i1 as int);
    let fp = frac_digits(b, start);
    assert forall|k: int| 0 <= k < m.len() implies is_digit(#[trigger] m[k]) by {
        if k < ip.len() {
            assert(m[k] == b[i0 + k]);
        } else {
            assert(m[k] == fp[k - ip.len()]);
            assert(fp[k - ip.len()] == b[i1 + 1 + (k - ip.len())]);
        }
    }
    if i2 < end {
        let x = b.subrange(j as int, end as int);
        assert forall|k: int| 0 <= k < x.len() implies is_digit(#[trigger] x[k]) by {
            assert(x[k] == b[j + k]);
        }
    }
}

/// The mantissa digits of the number: the integer part, then the fraction
/// part.
fn mantissa_of(input: &[u8], i0: usize, i1: usize, i2: usize) -> (m: Vec<u8>)
    requires
        i0 <= i1 <= i2 <= input@.len(),
        i2 > i1 ==> i2 > i1 + 1,
    ensures
        m@ == input@.subrange(i0 as int, i1 as int) + (if i2 > i1 {
            input@.subrange(i1 + 1, i2 as int)
        } else {
            Seq::empty()
        }),
{
    let ghost b = input@;
    let mut m: Vec<u8> = Vec::new();
    for k in i0..i1
        invariant
            b == input@,
            i1 <= b.len(),
            m@ == b.subrange(i0 as int, k as int),
    {
        m.push(input[k]);
        proof {
            assert(m@ =~= b.subrange(i0 as int, (k + 1) as int));
        }
    }
    let ghost ip = m@;
    if i2 > i1 {
        proof {
            assert(ip + b.subrange(i1 + 1, i1 + 1) =~= ip);
        }
        for k in i1 + 1..i2
            invariant
                b == input@,
                i2 <= b.len(),
                i1 + 1 <= k <= i2,
                ip == b.subrange(i0 as int, i1 as int),
                m@ == ip + b.subrange(i1 + 1, k as int),
        {
            m.push(input[k]);
            proof {
                assert(m@ =~= ip + b.subrange(i1 + 1, (k + 1) as int));
            }
        }
    } else {
        proof {
            assert(m@ =~= ip + Seq::<u8>::empty());
        }
    }
    m
}

/// The value of the digits from `j` to `end`, or `cap` where it is larger.
fn saturated_digits(input: &[u8], j: usize, end: usize, cap: u128) -> (x: u128)
    requires
        j <= end <= input@.len(),
        cap < u128::MAX / 16,
        all_digits(input@.subrange(j as int, end as int)),
    ensures
        x as int == if digits_value(input@.subrange(j as int, end as int)) < cap {
            digits_value(input@.subrange(j as int, end as int)) as int
        } else {
            cap as int
        },
{
    let ghost b = input@;
    let mut x: u128 = 0;
    let mut k = j;
    proof {
        assert(b.subrange(j as int, j as int) =~= Seq::<u8>::empty());
    }
    while k < end
        invariant
            b == input@,
            j <= k <= end <= b.len(),
            cap < u128::MAX / 16,
            all_digits(b.subrange(j as int, end as int)),
            x <= cap,
            x as int == if digits_value(b.subrange(j as int, k as int)) < cap {
                digits_value(b.subrange(j as int, k as int)) as int
            } else {
                cap as int
            },
        decreases end - k,
    {
        let ghost pre = b.subrange(j as int, k as int);
        assert(b.subrange(j as int, (k + 1) as int).drop_last() =~= pre);
        assert(b.subrange(j as int, (k + 1) as int).last() == b[k as int]);
        assert(b.subrange(j as int, end as int)[k - j] == b[k as int]);
        assert(is_digit(b[k as int]));
        let d = (input[k] - 0x30) as u128;
        if x < cap {
            x = x * 10 + d;
            if x > cap {
                x = cap;
            }
        }
        k = k + 1;
    }
    x
}

/// Whether the significant digits `m[z..]`, whose leading digit stands at
/// `10^308`, make a number at least the limit: their digits compared with
/// the limit's, both padded with zeros to a common length.
fn digits_reach_limit(m: &Vec<u8>, z: usize) -> (r: bool)
    requires
        z < m@.len(),
        all_digits(m@),
    ensures
        ({
            let sd = m@.subrange(z as int, m@.len() as int);
            let n = sd.len();
            r == if n <= 309 {
                digits_value(sd + zeros((309 - n) as nat)) >= digits_value(limit_digits())
            } else {
                digits_value(sd) >= digits_value(limit_digits() + zeros((n - 309) as nat))
            }
        }),
{
    let ghost sd = m@.subrange(z as int, m@.len() as int);
    let mlen = m.len();
    let n = mlen - z;
    let ld = DOUBLE_LIMIT_DIGITS.as_bytes();
    proof {
        lemma_limit_digits();
        reveal_strlit(
            "179769313486231580793728971405303415079934132710037826936173778980444968292764750946649017977587207096330286416692887910946555547851940402630657488671505820681908902000708383676273854845817711531764475730270069855571366959622842914819860834936475292719074168444365510704342711559699508093042880177904174497792",
        );
        is_ascii_chars_encode_utf8(DOUBLE_LIMIT_DIGITS@);
        assert(ld@ =~= limit_digits());
    }
    let total: usize = if n > 309 {
        n
    } else {
        309
    };
    let ghost pa = sd + zeros((total - n) as nat);
    let ghost pb = limit_digits() + zeros((total - 309) as nat);
    proof {
        assert forall|k: int| 0 <= k < pa.len() implies is_digit(#[trigger] pa[k]) by {
            if k < n {
                assert(pa[k] == m@[z + k]);
            }
        }
        assert forall|k: int| 0 <= k < pb.len() implies is_digit(#[trigger] pb[k]) by {
            if k < 309 {
                assert(pb[k] == limit_digits()[k]);
            }
        }
    }
    let mut i: usize = 0;
    while i < total
        invariant
            i <= total,
            z < m@.len(),
            mlen == m@.len(),
            n == sd.len(),
            z + n == m@.len(),
            sd == m@.subrange(z as int, m@.len() as int),
            ld@ == limit_digits(),
            limit_digits().len() == 309,
            total >= n && total >= 309,
            total == n || total == 309,
            pa == sd + zeros((total - n) as nat),
            pb == limit_digits() + zeros((total - 309) as nat),
            all_digits(pa),
            all_digits(pb),
            forall|k: int| 0 <= k < i ==> #[trigger] pa[k] == pb[k],
        decreases total - i,
    {
        let a = if i < n {
            assert(z + i < m@.len());
            m[z + i]
        } else {
            0x30
        };
        let c = if i < 309 {
            ld[i]
        } else {
            0x30
        };
        assert(a == pa[i as int]);
        assert(c == pb[i as int]);
        if a != c {
            proof {
                if a < c {
                    lemma_first_difference(pa, pb, i as nat);
                } else {
                    lemma_first_difference(pb, pa, i as nat);
                }
                assert(zeros(0) =~= Seq::<u8>::empty());
                if n <= 309 {
                    assert(pb =~= limit_digits());
                } else {
                    assert(pa =~= sd);
                }
            }
            return a > c;
        }
        i = i + 1;
    }
    proof {
        assert(pa =~= pb);
        assert(zeros(0) =~= Seq::<u8>::empty());
        if n <= 309 {
            assert(pb =~= limit_digits());
        } else {
            assert(pa =~= sd);
        }
    }
    true
}

/// Whether the JSON number from `start` to `end` has a magnitude that rounds
/// to infinity as a binary64 double.
#[verifier::spinoff_prover]
#[verifier::rlimit(40)]
pub(crate) fn number_too_large(input: &[u8], start: usize, end: usize) -> (r: bool)
    requires
        number_end(input@, start as nat) == Some(end as nat),
    ensures
        r == too_large(input@, start as nat, end as nat),
{
    let ghost b = input@;
    proof {
        lemma_number_parts(b, start as nat, end as nat);
        lemma_limit_digits();
    }
    let len = input.len();
    let i0 = if input[start] == 0x2D {
        start + 1
    } else {
        start
    };
    let i1 = if input[i0] == 0x30 {
        i0 + 1
    } else {
        skip_digits(input, i0 + 1)
    };
    let i2 = if i1 < len && input[i1] == 0x2E {
        skip_digits(input, i1 + 1)
    } else {
        i1
    };
    assert(i0 == int_start(b, start as nat));
    assert(i1 == int_end(b, start as nat));
    assert(i2 == frac_end(b, start as nat));
    let m = mantissa_of(input, i0, i1, i2);
    let f: usize = if i2 > i1 {
        i2 - i1 - 1
    } else {
        0
    };
    let ghost e = scale(b, start as nat, end as nat);
    proof {
        assert(m@ =~= mantissa_digits(b, start as nat));
        assert(frac_digits(b, start as nat).len() == f);
    }
    // The first significant digit.
    let mut z: usize = 0;
    while z < m.len() && m[z] == 0x30
        invariant
            z <= m@.len(),
            forall|k: int| 0 <= k < z ==> #[trigger] m@[k] == 0x30,
        decreases m@.len() - z,
    {
        z = z + 1;
    }
    let ghost sd = m@.subrange(z as int, m@.len() as int);
    proof {
        lemma_leading_zeros(m@, z as nat);
        assert forall|k: int| 0 <= k < sd.len() implies is_digit(#[trigger] sd[k]) by {
            assert(sd[k] == m@[z + k]);
        }
    }
    if z == m.len() {
        proof {
            assert(sd =~= Seq::<u8>::empty());
            if e < 0 {
                lemma_pow10_positive((-e) as nat);
                assert(double_limit() * pow10((-e) as nat) >= double_limit()) by (nonlinear_arith)
                    requires
                        pow10((-e) as nat) >= 1,
                ;
            }
            lemma_pow10_positive(308);
        }
        return false;
    }
    let n = m.len() - z;
    proof {
        assert(sd[0] == m@[z as int]);
        lemma_limit_by_magnitude(sd, e);
    }
    // The exponent, saturated where its size no longer changes the answer.
    let cap: u128 = (len as u128) + 310;
    let mut x: u128 = 0;
    let mut neg = false;
    if i2 < end {
        let j = if input[i2 + 1] == 0x2B || input[i2 + 1] == 0x2D {
            i2 + 2
        } else {
            i2 + 1
        };
        neg = input[i2 + 1] == 0x2D;
        assert(j == exp_digits_start(b, start as nat));
        x = saturated_digits(input, j, end, cap);
    }
    let me: i128 = if neg {
        (n as i128) - 1 - (x as i128) - (f as i128)
    } else {
        (n as i128) - 1 + (x as i128) - (f as i128)
    };
    if me >= 309 {
        return true;
    }
    if me <= 307 {
        return false;
    }
    proof {
        lemma_limit_by_digits(sd, e);
    }
    digits_reach_limit(&m, z)
}

} // verus!
