//! Decimal integers: the text an integer is written as, and the lenient reading of a
//! numeric token as an exact integer.
//!
//! A token reads as an integer when it is a decimal number (`[sign] digits [. digits]`
//! with an optional exponent introduced by `E`, `e`, `D` or `d`) whose value is a whole
//! number, so `20`, `+20`, `20.0`, `2.0E1` and `200D-1` all read as 20, while `20.5` and
//! `inf` read as nothing.

use vstd::prelude::*;

use crate::text::{
    all_ascii, ascii_chars, ascii_text, copy_range, extend_range, is_space, trim, trim_end, trim_range,
    trim_start,
};

verus! {

/// Exponents are read exactly up to this magnitude; beyond it every nonzero number is
/// either no whole number or too large for any integer type, so the rest does not matter.
const EXPONENT_CAP: u128 = 0x10_0000_0000_0000_0000_0000_0000;

/// `10` to the power `n`.
pub open spec fn pow10(n: nat) -> nat
    decreases n,
{
    if n == 0 {
        1
    } else {
        10 * pow10((n - 1) as nat)
    }
}

/// An ASCII decimal digit.
pub open spec fn is_digit(c: u8) -> bool {
    48u8 <= c && c <= 57u8
}

/// The value of a string of decimal digits (zero for the empty string).
pub open spec fn digits_value(s: Seq<u8>) -> nat
    decreases s.len(),
{
    if s.len() == 0 {
        0
    } else {
        10 * digits_value(s.drop_last()) + (s.last() - 48u8) as nat
    }
}

/// The decimal digits of `n`, most significant first, without leading zeros.
pub open spec fn digits(n: nat) -> Seq<u8>
    decreases n,
{
    if n < 10 {
        seq![(48 + n) as u8]
    } else {
        digits(n / 10).push((48 + n % 10) as u8)
    }
}

/// The text of the integer `v`: a `-` for negative values, then its digits.
pub open spec fn decimal(v: int) -> Seq<u8> {
    if v < 0 {
        seq![45u8] + digits((-v) as nat)
    } else {
        digits(v as nat)
    }
}

/// `m` with the sign that `neg` selects.
pub open spec fn signed(neg: bool, m: int) -> int {
    if neg {
        -m
    } else {
        m
    }
}

/// Where the run of digits in `s` that starts at `k` ends.
pub open spec fn digits_end(s: Seq<u8>, k: int) -> int
    decreases s.len() - k,
{
    if 0 <= k < s.len() && is_digit(s[k]) {
        digits_end(s, k + 1)
    } else {
        k
    }
}

/// How many bytes a leading `+` or `-` takes up.
pub open spec fn sign_len(s: Seq<u8>) -> int {
    if s.len() > 0 && (s[0] == 43u8 || s[0] == 45u8) {
        1
    } else {
        0
    }
}

/// Whether `s` starts with `-`.
pub open spec fn is_neg(s: Seq<u8>) -> bool {
    s.len() > 0 && s[0] == 45u8
}

/// The value of `s` when it is an optional sign followed by one or more digits.
pub open spec fn signed_integer(s: Seq<u8>) -> Option<int> {
    let k = sign_len(s);
    if k < s.len() && digits_end(s, k) == s.len() {
        Some(signed(is_neg(s), digits_value(s.subrange(k, s.len() as int)) as int))
    } else {
        None
    }
}

/// The letters that introduce an exponent: `E`, `e`, `D` (Fortran) and `d`.
pub open spec fn is_exp_marker(c: u8) -> bool {
    c == 69u8 || c == 101u8 || c == 68u8 || c == 100u8
}

/// The parts of a decimal number that makes up all of `s`: whether it is negative, its
/// integer digits, its fraction digits and its exponent. The form is an optional sign,
/// digits with an optional `.` and fraction (at least one digit in all), then optionally
/// an exponent marker and a signed integer.
pub open spec fn decimal_number(s: Seq<u8>) -> Option<(bool, Seq<u8>, Seq<u8>, int)> {
    let a = sign_len(s);
    let p = digits_end(s, a);
    let has_dot = p < s.len() && s[p] == 46u8;
    let q = if has_dot {
        digits_end(s, p + 1)
    } else {
        p
    };
    let ip = s.subrange(a, p);
    let fp = if has_dot {
        s.subrange(p + 1, q)
    } else {
        Seq::empty()
    };
    if ip.len() + fp.len() == 0 {
        None
    } else if q == s.len() {
        Some((is_neg(s), ip, fp, 0))
    } else if is_exp_marker(s[q]) {
        match signed_integer(s.subrange(q + 1, s.len() as int)) {
            Some(e) => Some((is_neg(s), ip, fp, e)),
            None => None,
        }
    } else {
        None
    }
}

/// `n` times ten to the power `x`, when that is a whole number.
pub open spec fn scaled(n: nat, x: int) -> Option<nat> {
    if x >= 0 {
        Some(n * pow10(x as nat))
    } else if n % pow10((-x) as nat) == 0 {
        Some(n / pow10((-x) as nat))
    } else {
        None
    }
}

/// The whole number that the token `s` (surrounding whitespace ignored) stands for: a
/// decimal number whose value is an integer.
pub open spec fn lenient_int(s: Seq<u8>) -> Option<int> {
    match decimal_number(trim(s)) {
        Some((neg, ip, fp, e)) => match scaled(digits_value(ip + fp), e - fp.len()) {
            Some(v) => Some(signed(neg, v as int)),
            None => None,
        },
        None => None,
    }
}

/// `o` when it lies within `lo..=hi`.
pub open spec fn narrowed(o: Option<int>, lo: int, hi: int) -> Option<int> {
    match o {
        Some(v) => if lo <= v && v <= hi {
            Some(v)
        } else {
            None
        },
        None => None,
    }
}

/// Beyond what 64 bits hold, whatever the sign.
pub open spec fn beyond_u64(v: int) -> bool {
    v > u64::MAX || v < -(u64::MAX as int)
}

pub proof fn lemma_pow10_positive(n: nat)
    ensures
        pow10(n) >= 1,
    decreases n,
{
    if n > 0 {
        lemma_pow10_positive((n - 1) as nat);
    }
}

pub proof fn lemma_pow10_monotonic(i: nat, j: nat)
    requires
        i <= j,
    ensures
        pow10(i) <= pow10(j),
    decreases j,
{
    if i < j {
        lemma_pow10_monotonic(i, (j - 1) as nat);
        lemma_pow10_positive((j - 1) as nat);
    }
}

pub proof fn lemma_digits_shape(n: nat)
    ensures
        digits(n).len() >= 1,
        all_ascii(digits(n)),
        forall|i: int| 0 <= i < digits(n).len() ==> is_digit(#[trigger] digits(n)[i]),
        digits_value(digits(n)) == n,
    decreases n,
{
    if n >= 10 {
        lemma_digits_shape(n / 10);
        let d = digits(n);
        assert(d.drop_last() =~= digits(n / 10));
        assert(d.last() == (48 + n % 10) as u8);
        assert(n == 10 * (n / 10) + n % 10) by {
            vstd::arithmetic::div_mod::lemma_fundamental_div_mod(n as int, 10);
        }
        assert(digits_value(d) == 10 * digits_value(d.drop_last()) + (d.last() - 48u8) as nat);
        assert((d.last() - 48u8) as nat == n % 10);
        assert(digits_value(d) == n);
    } else {
        assert(digits(n).drop_last() =~= Seq::<u8>::empty());
        assert(digits_value(digits(n)) == 10 * digits_value(Seq::<u8>::empty()) + (digits(n).last() - 48u8) as nat);
        assert(digits_value(digits(n)) == n);
    }
}

pub proof fn lemma_digits_end(s: Seq<u8>, k: int)
    requires
        0 <= k <= s.len(),
    ensures
        k <= digits_end(s, k) <= s.len(),
        forall|j: int| k <= j < digits_end(s, k) ==> is_digit(#[trigger] s[j]),
        digits_end(s, k) < s.len() ==> !is_digit(s[digits_end(s, k)]),
    decreases s.len() - k,
{
    if k < s.len() && is_digit(s[k]) {
        lemma_digits_end(s, k + 1);
    }
}

/// Multiplying by ten moves the exponent by one.
pub proof fn lemma_scaled_step(m: nat, x: int)
    ensures
        scaled(m * 10, x) == scaled(m, x + 1),
{
    if x >= 0 {
        assert(pow10((x + 1) as nat) == 10 * pow10(x as nat));
        assert(m * 10 * pow10(x as nat) == m * (10 * pow10(x as nat))) by (nonlinear_arith);
    } else if x == -1 {
        assert(pow10(1) == 10) by {
            assert(pow10(0) == 1);
        }
        vstd::arithmetic::div_mod::lemma_mod_multiples_basic(m as int, 10);
        vstd::arithmetic::div_mod::lemma_div_multiples_vanish(m as int, 10);
        assert(10 * m == m * 10) by (nonlinear_arith);
        assert(scaled(m * 10, x) == Some(m));
        assert(scaled(m, 0) == Some(m * pow10(0)));
        assert(m * 1 == m);
    } else {
        let k = (-x) as nat;
        let p = pow10((k - 1) as nat);
        lemma_pow10_positive((k - 1) as nat);
        assert(pow10(k) == 10 * p);
        vstd::arithmetic::div_mod::lemma_truncate_middle(m as int, 10, p as int);
        vstd::arithmetic::div_mod::lemma_div_multiples_vanish_quotient(10, m as int, p as int);
        assert(m * 10 == 10 * m) by (nonlinear_arith);
        assert((-(x + 1)) as nat == (k - 1) as nat);
        assert(((m * 10) % pow10(k) == 0) == (m % p == 0));
        assert(scaled(m, x + 1) == if m % p == 0 {
            Some(m / p)
        } else {
            None::<nat>
        });
    }
}

/// Trailing factors of ten move the exponent.
pub proof fn lemma_scaled_shift(n: nat, t: nat, x: int)
    ensures
        scaled(n * pow10(t), x) == scaled(n, x + t),
    decreases t,
{
    if t == 0 {
        assert(n * 1 == n);
    } else {
        let q = pow10((t - 1) as nat);
        assert(n * pow10(t) == (n * q) * 10) by (nonlinear_arith)
            requires
                pow10(t) == 10 * q,
        ;
        lemma_scaled_step(n * q, x);
        lemma_scaled_shift(n, (t - 1) as nat, x + 1);
    }
}

/// A number that does not end in a zero digit is no multiple of a power of ten.
pub proof fn lemma_not_whole(n: nat, k: nat)
    requires
        n % 10 != 0,
        k >= 1,
    ensures
        n % pow10(k) != 0,
{
    let p = pow10((k - 1) as nat);
    lemma_pow10_positive((k - 1) as nat);
    assert(pow10(k) == 10 * p);
    vstd::arithmetic::div_mod::lemma_mod_mod(n as int, 10, p as int);
}

/// Trailing zero digits multiply the value by ten each.
pub proof fn lemma_trailing_zeros(s: Seq<u8>, l: int, j: int)
    requires
        0 <= l <= j <= s.len(),
        forall|i: int| l <= i < j ==> s[i] == 48u8,
    ensures
        digits_value(s.take(j)) == digits_value(s.take(l)) * pow10((j - l) as nat),
    decreases j - l,
{
    if j == l {
        assert(digits_value(s.take(l)) * 1 == digits_value(s.take(l)));
    } else {
        lemma_trailing_zeros(s, l, j - 1);
        assert(s.take(j).drop_last() =~= s.take(j - 1));
        let a = digits_value(s.take(l));
        let q = pow10((j - 1 - l) as nat);
        assert(digits_value(s.take(j)) == 10 * (a * q));
        assert(pow10((j - l) as nat) == 10 * q);
        assert(10 * (a * q) == a * (10 * q)) by (nonlinear_arith);
    }
}

/// A prefix of a digit string is worth no more than the whole.
pub proof fn lemma_prefix_value(s: Seq<u8>, k: int)
    requires
        0 <= k <= s.len(),
    ensures
        digits_value(s.take(k)) <= digits_value(s),
    decreases s.len() - k,
{
    if k < s.len() {
        lemma_prefix_value(s, k + 1);
        assert(s.take(k + 1).drop_last() =~= s.take(k));
    } else {
        assert(s.take(k) =~= s);
    }
}

/// Appends the digits of `n` to `out`.
pub(crate) fn push_digits(out: &mut Vec<u8>, n: u64)
    ensures
        final(out)@ == old(out)@ + digits(n as nat),
    decreases n,
{
    if n >= 10 {
        push_digits(out, n / 10);
    }
    let d: u8 = (n % 10) as u8;
    out.push(48u8 + d);
    proof {
        if n >= 10 {
            assert(old(out)@ + digits(n as nat) =~= old(out)@ + digits((n / 10) as nat) + seq![
                (48 + n % 10) as u8,
            ]);
        } else {
            assert(digits(n as nat) =~= seq![(48 + n) as u8]);
        }
    }
}

/// The text of the integer with sign `neg` and magnitude `mag`.
pub fn integer_text(neg: bool, mag: u64) -> (s: String)
    requires
        neg ==> mag > 0,
    ensures
        s@ == ascii_chars(decimal(signed(neg, mag as int))),
{
    let mut out: Vec<u8> = Vec::new();
    if neg {
        out.push(45u8);
    }
    push_digits(&mut out, mag);
    proof {
        lemma_digits_shape(mag as nat);
        if neg {
            assert(out@ =~= seq![45u8] + digits(mag as nat));
        } else {
            assert(out@ =~= digits(mag as nat));
        }
        assert(all_ascii(out@));
    }
    ascii_text(out.as_slice())
}

/// The sign and magnitude of `v`.
pub fn magnitude(v: i64) -> (r: (bool, u64))
    ensures
        r.0 == (v < 0),
        signed(r.0, r.1 as int) == v,
{
    if v < 0 {
        let w: i128 = 0i128 - (v as i128);
        (true, w as u64)
    } else {
        (false, v as u64)
    }
}

/// Whether `c` is an ASCII decimal digit.
fn is_digit_byte(c: u8) -> (r: bool)
    ensures
        r == is_digit(c),
{
    48u8 <= c && c <= 57u8
}

/// Where the run of digits in `t` that starts at `k` ends.
fn digit_run(t: &[u8], k: usize) -> (e: usize)
    requires
        k <= t@.len(),
    ensures
        e as int == digits_end(t@, k as int),
        k <= e <= t@.len(),
{
    let mut e: usize = k;
    while e < t.len() && is_digit_byte(t[e])
        invariant
            k <= e <= t@.len(),
            digits_end(t@, k as int) == digits_end(t@, e as int),
        decreases t@.len() - e,
    {
        e = e + 1;
    }
    e
}

/// The exponent that makes up all of `t[k..]`: its sign and its magnitude, the magnitude
/// held at [`EXPONENT_CAP`] once it reaches it.
fn exponent_value(t: &[u8], k: usize) -> (r: Option<(bool, u128)>)
    requires
        k <= t@.len(),
    ensures
        match signed_integer(t@.subrange(k as int, t@.len() as int)) {
            None => r is None,
            Some(e) => match r {
                Some((neg, m)) => {
                    &&& m <= EXPONENT_CAP
                    &&& m < EXPONENT_CAP ==> signed(neg, m as int) == e
                    &&& m == EXPONENT_CAP ==> if neg {
                        e <= -(EXPONENT_CAP as int)
                    } else {
                        e >= EXPONENT_CAP
                    }
                },
                None => false,
            },
        },
{
    let s = copy_range(t, k, t.len());
    let n = s.len();
    let neg = n > 0 && s[0] == 45u8;
    let a: usize = if n > 0 && (s[0] == 43u8 || s[0] == 45u8) {
        1
    } else {
        0
    };
    if a >= n {
        return None;
    }
    let e = digit_run(s.as_slice(), a);
    if e != n {
        return None;
    }
    proof {
        lemma_digits_end(s@, a as int);
    }
    let mut m: u128 = 0;
    let mut j: usize = a;
    while j < n
        invariant
            a <= j <= n == s@.len(),
            forall|i: int| a <= i < n ==> is_digit(#[trigger] s@[i]),
            m == if digits_value(s@.subrange(a as int, j as int)) < EXPONENT_CAP {
                digits_value(s@.subrange(a as int, j as int))
            } else {
                EXPONENT_CAP as nat
            },
        decreases n - j,
    {
        assert(s@.subrange(a as int, j + 1).drop_last() =~= s@.subrange(a as int, j as int));
        assert(is_digit(s@[j as int]));
        let d: u128 = (s[j] - 48u8) as u128;
        if m < EXPONENT_CAP {
            let v = m * 10 + d;
            m = if v < EXPONENT_CAP {
                v
            } else {
                EXPONENT_CAP
            };
        }
        j = j + 1;
    }
    Some((neg, m))
}

/// Whether `c` introduces an exponent.
fn is_exp_marker_byte(c: u8) -> (r: bool)
    ensures
        r == is_exp_marker(c),
{
    c == 69u8 || c == 101u8 || c == 68u8 || c == 100u8
}

pub proof fn lemma_scaled_zero(x: int)
    ensures
        scaled(0, x) == Some(0nat),
{
    if x < 0 {
        lemma_pow10_positive((-x) as nat);
        vstd::arithmetic::div_mod::lemma_small_mod(0, pow10((-x) as nat));
        vstd::arithmetic::div_mod::lemma_basic_div(0, pow10((-x) as nat) as int);
    }
}

/// Every digit of a decimal number is a digit.
pub proof fn lemma_number_digits(s: Seq<u8>, i: int)
    requires
        decimal_number(s) is Some,
        0 <= i < decimal_number(s).unwrap().1.len() + decimal_number(s).unwrap().2.len(),
    ensures
        is_digit((decimal_number(s).unwrap().1 + decimal_number(s).unwrap().2)[i]),
{
    let a = sign_len(s);
    lemma_digits_end(s, a);
    let p = digits_end(s, a);
    if p < s.len() && s[p] == 46u8 {
        lemma_digits_end(s, p + 1);
    }
}

/// The exponent `(neg, m)` read with [`exponent_value`] stands for `e`.
spec fn exponent_fits(neg: bool, m: u128, e: int) -> bool {
    &&& m <= EXPONENT_CAP
    &&& m < EXPONENT_CAP ==> signed(neg, m as int) == e
    &&& m == EXPONENT_CAP ==> if neg {
        e <= -(EXPONENT_CAP as int)
    } else {
        e >= EXPONENT_CAP
    }
}

/// The parts of the decimal number that makes up all of `t`: its sign, its digits (integer
/// and fraction together), how many of them are fraction digits, and its exponent.
fn number_parts(t: &[u8]) -> (r: Option<(bool, Vec<u8>, usize, bool, u128)>)
    ensures
        match decimal_number(t@) {
            None => r is None,
            Some((neg, ip, fp, e)) => match r {
                Some((n2, d, fl, en, em)) => {
                    &&& n2 == neg
                    &&& d@ == ip + fp
                    &&& fl == fp.len()
                    &&& exponent_fits(en, em, e)
                },
                None => false,
            },
        },
{
    let n = t.len();
    let neg = n > 0 && t[0] == 45u8;
    let a: usize = if n > 0 && (t[0] == 43u8 || t[0] == 45u8) {
        1
    } else {
        0
    };
    let p = digit_run(t, a);
    let has_dot = p < n && t[p] == 46u8;
    let q = if has_dot {
        digit_run(t, p + 1)
    } else {
        p
    };
    let frac_len: usize = if has_dot {
        q - (p + 1)
    } else {
        0
    };
    let ghost ip = t@.subrange(a as int, p as int);
    let ghost fp = if has_dot {
        t@.subrange(p + 1, q as int)
    } else {
        Seq::<u8>::empty()
    };
    if (p - a) + frac_len == 0 {
        return None;
    }
    let mut exp_neg = false;
    let mut exp_mag: u128 = 0;
    if q < n {
        if !is_exp_marker_byte(t[q]) {
            return None;
        }
        match exponent_value(t, q + 1) {
            None => {
                return None;
            },
            Some((en, em)) => {
                exp_neg = en;
                exp_mag = em;
            },
        }
    }
    let mut d = copy_range(t, a, p);
    if has_dot {
        extend_range(&mut d, t, p + 1, q);
    }
    assert(d@ == ip + fp);
    Some((neg, d, frac_len, exp_neg, exp_mag))
}

/// The value of the digit string `d[..l]`, when it fits in 64 bits.
fn digits_u64(d: &[u8], l: usize) -> (r: Option<u64>)
    requires
        l <= d@.len(),
        forall|i: int| 0 <= i < d@.len() ==> is_digit(#[trigger] d@[i]),
    ensures
        match r {
            Some(v) => v == digits_value(d@.take(l as int)),
            None => digits_value(d@.take(l as int)) > u64::MAX,
        },
{
    let mut acc: u64 = 0;
    let mut j: usize = 0;
    while j < l
        invariant
            j <= l <= d@.len(),
            forall|i: int| 0 <= i < d@.len() ==> is_digit(#[trigger] d@[i]),
            acc == digits_value(d@.take(j as int)),
        decreases l - j,
    {
        assert(d@.take(j + 1).drop_last() =~= d@.take(j as int));
        assert(d@.take(l as int).take(j + 1) =~= d@.take(j + 1));
        assert(is_digit(d@[j as int]));
        let dig: u64 = (d[j] - 48u8) as u64;
        let grown = match acc.checked_mul(10) {
            Some(v) => v.checked_add(dig),
            None => None,
        };
        match grown {
            Some(w) => {
                acc = w;
            },
            None => {
                proof {
                    lemma_prefix_value(d@.take(l as int), j + 1);
                }
                return None;
            },
        }
        j = j + 1;
    }
    Some(acc)
}

/// `10` to the power `x`.
fn pow10_u64(x: u64) -> (p: u64)
    requires
        x <= 19,
    ensures
        p == pow10(x as nat),
{
    let mut p: u64 = 1;
    let mut i: u64 = 0;
    proof {
        assert(pow10(18) == 1000000000000000000nat) by {
            reveal_with_fuel(pow10, 19);
        }
    }
    while i < x
        invariant
            i <= x <= 19,
            p == pow10(i as nat),
            pow10(18) == 1000000000000000000nat,
        decreases x - i,
    {
        proof {
            lemma_pow10_monotonic(i as nat, 18);
        }
        p = p * 10;
        i = i + 1;
    }
    p
}

/// The whole number `digits × 10^(e - fl)`, for the digit string `d` and the exponent read
/// as `(exp_neg, exp_mag)`. `None` when it is no whole number or does not fit in 64 bits.
#[verifier::rlimit(40)]
fn whole_value(d: &[u8], fl: usize, exp_neg: bool, exp_mag: u128, Ghost(e): Ghost<int>) -> (r:
    Option<u64>)
    requires
        forall|i: int| 0 <= i < d@.len() ==> is_digit(#[trigger] d@[i]),
        exponent_fits(exp_neg, exp_mag, e),
    ensures
        match r {
            Some(v) => scaled(digits_value(d@), e - fl) == Some(v as nat),
            None => scaled(digits_value(d@), e - fl) is None || scaled(
                digits_value(d@),
                e - fl,
            ).unwrap() > u64::MAX,
        },
{
    let mut l: usize = d.len();
    while l > 0 && d[l - 1] == 48u8
        invariant
            l <= d@.len(),
            forall|i: int| l <= i < d@.len() ==> d@[i] == 48u8,
        decreases l,
    {
        l = l - 1;
    }
    let tz: usize = d.len() - l;
    let ghost dl = d@.take(l as int);
    let ghost x_true: int = e - fl + tz;
    proof {
        lemma_trailing_zeros(d@, l as int, d@.len() as int);
        assert(d@.take(d@.len() as int) =~= d@);
        lemma_scaled_shift(digits_value(dl), tz as nat, e - fl);
    }
    if l == 0 {
        proof {
            assert(dl =~= Seq::<u8>::empty());
            lemma_scaled_zero(x_true);
        }
        return Some(0);
    }
    proof {
        let r = (dl.last() - 48u8) as nat;
        assert(dl.last() == d@[l - 1]);
        assert(is_digit(d@[l - 1]));
        assert(1 <= r < 10);
        vstd::arithmetic::div_mod::lemma_fundamental_div_mod_converse(
            digits_value(dl) as int,
            10,
            digits_value(dl.drop_last()) as int,
            r as int,
        );
    }
    let e_signed: i128 = if exp_neg {
        0i128 - (exp_mag as i128)
    } else {
        exp_mag as i128
    };
    let x: i128 = e_signed - (fl as i128) + (tz as i128);
    proof {
        if exp_mag < EXPONENT_CAP {
            assert(x == x_true);
        } else if exp_neg {
            assert(x < 0 && x_true < 0);
        } else {
            assert(x > 19 && x_true > 19);
        }
    }
    if x < 0 {
        proof {
            lemma_not_whole(digits_value(dl), (-x_true) as nat);
        }
        return None;
    }
    let ghost nv = digits_value(dl);
    if x > 19 {
        proof {
            assert(pow10(20) == 100000000000000000000nat) by {
                reveal_with_fuel(pow10, 21);
            }
            lemma_pow10_monotonic(20, x_true as nat);
            let pv = pow10(x_true as nat);
            assert(nv * pv >= pv) by (nonlinear_arith)
                requires
                    nv >= 1,
            ;
        }
        return None;
    }
    let acc = match digits_u64(d, l) {
        Some(v) => v,
        None => {
            proof {
                lemma_pow10_positive(x_true as nat);
                let pv = pow10(x_true as nat);
                assert(nv * pv >= nv) by (nonlinear_arith)
                    requires
                        pv >= 1,
                ;
            }
            return None;
        },
    };
    let p10 = pow10_u64(x as u64);
    assert((acc as u128) * (p10 as u128) <= u128::MAX) by (nonlinear_arith)
        requires
            acc <= u64::MAX,
            p10 <= u64::MAX,
    ;
    let prod: u128 = (acc as u128) * (p10 as u128);
    if prod > 18446744073709551615u128 {
        return None;
    }
    Some(prod as u64)
}

/// The exact value the token `b` stands for, when it is a whole number: its sign and
/// magnitude. `None` when it is no whole number, no number, or too large for 64 bits
/// whatever the sign.
fn lenient_value(b: &[u8]) -> (r: Option<(bool, u64)>)
    ensures
        match r {
            Some((neg, m)) => lenient_int(b@) == Some(signed(neg, m as int)),
            None => lenient_int(b@) is None || beyond_u64(lenient_int(b@).unwrap()),
        },
{
    let (lo, hi) = trim_range(b, 0, b.len());
    let t = copy_range(b, lo, hi);
    assert(b@.subrange(0, b@.len() as int) =~= b@);
    match number_parts(t.as_slice()) {
        None => None,
        Some((neg, d, fl, en, em)) => {
            let ghost parts = decimal_number(t@).unwrap();
            proof {
                assert forall|i: int| 0 <= i < d@.len() implies is_digit(#[trigger] d@[i]) by {
                    lemma_number_digits(t@, i);
                }
            }
            match whole_value(d.as_slice(), fl, en, em, Ghost(parts.3)) {
                Some(v) => Some((neg, v)),
                None => None,
            }
        },
    }
}

/// The view of an optional wide integer.
pub open spec fn opt_int(o: Option<i128>) -> Option<int> {
    match o {
        Some(v) => Some(v as int),
        None => None,
    }
}

/// The whole number the token `b` stands for (see [`lenient_int`]), when it lies within
/// `lo..=hi`.
pub fn lenient_in_range(b: &[u8], lo: i128, hi: i128) -> (r: Option<i128>)
    requires
        -(u64::MAX as int) <= lo <= hi <= u64::MAX,
    ensures
        opt_int(r) == narrowed(lenient_int(b@), lo as int, hi as int),
{
    match lenient_value(b) {
        Some((neg, m)) => {
            let v: i128 = if neg {
                0i128 - (m as i128)
            } else {
                m as i128
            };
            if lo <= v && v <= hi {
                Some(v)
            } else {
                None
            }
        },
        None => None,
    }
}

pub proof fn lemma_all_digits_end(s: Seq<u8>, k: int)
    requires
        0 <= k <= s.len(),
        forall|j: int| k <= j < s.len() ==> is_digit(#[trigger] s[j]),
    ensures
        digits_end(s, k) == s.len(),
    decreases s.len() - k,
{
    if k < s.len() {
        lemma_all_digits_end(s, k + 1);
    }
}

/// The text of an integer has no surrounding whitespace.
pub proof fn lemma_decimal_trimmed(v: int)
    ensures
        trim(decimal(v)) == decimal(v),
{
    let m = if v < 0 {
        -v
    } else {
        v
    };
    lemma_digits_shape(m as nat);
    let s = decimal(v);
    let d = digits(m as nat);
    assert(s.len() > 0);
    assert(is_digit(d[d.len() - 1]));
    assert(s.last() == d[d.len() - 1]);
    assert(!is_space(s.last()));
    if v >= 0 {
        assert(is_digit(d[0]));
    }
    assert(!is_space(s[0]));
    assert(trim_start(s) == s);
    assert(trim_end(s) == s);
}

/// Writing an integer and reading the text back gives the same integer.
pub proof fn law_integer_text_reads_back(v: int)
    ensures
        lenient_int(decimal(v)) == Some(v),
{
    let m = (if v < 0 {
        -v
    } else {
        v
    }) as nat;
    lemma_digits_shape(m);
    lemma_decimal_trimmed(v);
    let s = decimal(v);
    let d = digits(m);
    let a: int = if v < 0 {
        1
    } else {
        0
    };
    if v >= 0 {
        assert(is_digit(d[0]));
    }
    assert(sign_len(s) == a);
    assert(is_neg(s) == (v < 0));
    assert(s.subrange(a, s.len() as int) =~= d);
    assert forall|j: int| a <= j < s.len() implies is_digit(#[trigger] s[j]) by {
        assert(s[j] == d[j - a]);
    }
    lemma_all_digits_end(s, a);
    assert(d + Seq::<u8>::empty() =~= d);
    assert(decimal_number(s) == Some((v < 0, d, Seq::<u8>::empty(), 0int)));
    assert(scaled(m, 0) == Some(m * 1));
}

} // verus!
