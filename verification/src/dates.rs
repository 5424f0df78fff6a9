//! FITS date/time interpretation.
//!
//! A FITS civil date/time reads `YYYY-MM-DD[Thh:mm:ss[.fff]]`, timezone-naive. Reading
//! one is left to `skymath::parse_date_obs`; writing one back is done here.

use vstd::prelude::*;

use crate::number::{digits, lemma_digits_shape, magnitude, push_digits};
use crate::text::{all_ascii, ascii_chars, ascii_text, extend_range};

verus! {

/// A civil date and time of day, timezone-naive, to the nanosecond.
#[derive(Clone, Copy, Debug, PartialEq, Eq, Structural, Hash, PartialOrd, Ord)]
pub struct DateTime {
    /// The calendar year.
    pub year: i32,
    /// The month, `1..=12`.
    pub month: u8,
    /// The day of the month, from 1.
    pub day: u8,
    /// The hour, `0..24`.
    pub hour: u8,
    /// The minute, `0..60`.
    pub minute: u8,
    /// The second, `0..60`.
    pub second: u8,
    /// The nanosecond within the second, `0..1_000_000_000`.
    pub nanosecond: u32,
}

impl View for DateTime {
    type V = DateTime;

    open spec fn view(&self) -> DateTime {
        *self
    }
}

impl DateTime {
    /// Every field lies in the range a civil date/time gives it, the year in `0..=9999`.
    pub open spec fn in_range(self) -> bool {
        &&& 0 <= self.year <= 9999
        &&& 1 <= self.month <= 12
        &&& 1 <= self.day <= 31
        &&& self.hour < 24
        &&& self.minute < 60
        &&& self.second < 60
        &&& self.nanosecond < 1_000_000_000
    }
}

/// What `skymath::parse_date_obs` reads from the text `s`, as plain fields.
pub uninterp spec fn date_obs(s: Seq<char>) -> Option<DateTime>;

/// Reads a FITS `DATE-OBS`-style value with `skymath::parse_date_obs`.
///
/// Trusted: the result is what that function returns on `s` (it depends on `s` alone),
/// its fields taken out one for one, and a date/time it accepts lies in range (the year
/// cannot carry a sign there, since `-` separates the date's fields, and `time`'s date
/// limit is 9999). What it accepts is not restated here.
#[verifier::external_body]
fn read_date_obs(s: &str) -> (r: Option<DateTime>)
    ensures
        r == date_obs(s@),
        r matches Some(d) ==> d.in_range(),
{
    match skymath::parse_date_obs(s) {
        Ok(dt) => Some(DateTime {
            year: dt.year(),
            month: dt.month() as u8,
            day: dt.day(),
            hour: dt.hour(),
            minute: dt.minute(),
            second: dt.second(),
            nanosecond: dt.nanosecond(),
        }),
        Err(_) => None,
    }
}

/// Parse a FITS civil date/time (`YYYY-MM-DD[Thh:mm:ss[.fff]]`), timezone-naive; a
/// date-only value means midnight. Quoted values, surrounding whitespace and a trailing
/// `Z` are tolerated.
pub fn parse_datetime(s: &str) -> (r: Option<DateTime>)
    ensures
        r == date_obs(s@),
        r matches Some(d) ==> d.in_range(),
{
    read_date_obs(s)
}

/// `k` zero digits.
pub open spec fn zeros(k: nat) -> Seq<u8> {
    Seq::new(k, |i: int| 48u8)
}

/// The digits of `n`, with zeros in front up to `w` digits in all.
pub open spec fn padded(n: nat, w: nat) -> Seq<u8> {
    let k = if digits(n).len() < w {
        (w - digits(n).len()) as nat
    } else {
        0nat
    };
    zeros(k) + digits(n)
}

/// `s` without its trailing zero digits.
pub open spec fn strip_zeros(s: Seq<u8>) -> Seq<u8>
    decreases s.len(),
{
    if s.len() > 0 && s.last() == 48u8 {
        strip_zeros(s.drop_last())
    } else {
        s
    }
}

/// A year as four digits, a negative one as `-` and three digits (wider years keep all
/// their digits).
pub open spec fn year_text(y: int) -> Seq<u8> {
    if y < 0 {
        seq![45u8] + padded((-y) as nat, 3)
    } else {
        padded(y as nat, 4)
    }
}

/// The sub-second part: nothing for zero, else `.` and the nine-digit nanoseconds without
/// trailing zeros.
pub open spec fn fraction_text(ns: nat) -> Seq<u8> {
    if ns == 0 {
        Seq::empty()
    } else {
        seq![46u8] + strip_zeros(padded(ns, 9))
    }
}

/// The FITS civil form of `d`: `YYYY-MM-DDThh:mm:ss[.fff]`.
pub open spec fn datetime_text(d: DateTime) -> Seq<u8> {
    year_text(d.year as int) + seq![45u8] + padded(d.month as nat, 2) + seq![45u8] + padded(
        d.day as nat,
        2,
    ) + seq![84u8] + padded(d.hour as nat, 2) + seq![58u8] + padded(d.minute as nat, 2)
        + seq![58u8] + padded(d.second as nat, 2) + fraction_text(d.nanosecond as nat)
}

/// Appends the digits of `n`, with zeros in front up to `w` digits in all.
fn push_padded(out: &mut Vec<u8>, n: u64, w: usize)
    ensures
        final(out)@ == old(out)@ + padded(n as nat, w as nat),
{
    let mut d: Vec<u8> = Vec::new();
    push_digits(&mut d, n);
    assert(d@ =~= digits(n as nat));
    let len = d.len();
    let mut k: usize = 0;
    let pad: usize = if len < w {
        w - len
    } else {
        0
    };
    while k < pad
        invariant
            k <= pad,
            out@ == old(out)@ + zeros(k as nat),
        decreases pad - k,
    {
        out.push(48u8);
        k = k + 1;
        assert(zeros(k as nat) =~= zeros((k - 1) as nat).push(48u8));
    }
    extend_range(out, d.as_slice(), 0, len);
    assert(d@.subrange(0, len as int) =~= d@);
    assert(out@ =~= old(out)@ + padded(n as nat, w as nat));
}

/// Appends `s` without its trailing zero digits.
fn push_stripped(out: &mut Vec<u8>, s: &[u8])
    ensures
        final(out)@ == old(out)@ + strip_zeros(s@),
{
    let mut e: usize = s.len();
    assert(s@.take(e as int) =~= s@);
    while e > 0 && s[e - 1] == 48u8
        invariant
            e <= s@.len(),
            strip_zeros(s@.take(e as int)) == strip_zeros(s@),
        decreases e,
    {
        assert(s@.take(e as int).drop_last() =~= s@.take(e - 1));
        e = e - 1;
    }
    extend_range(out, s, 0, e);
    assert(s@.subrange(0, e as int) =~= s@.take(e as int));
}

pub proof fn lemma_padded_ascii(n: nat, w: nat)
    ensures
        all_ascii(padded(n, w)),
{
    lemma_digits_shape(n);
    let p = padded(n, w);
    let k = p.len() - digits(n).len();
    assert forall|i: int| 0 <= i < p.len() implies p[i] < 128u8 by {
        if i >= k {
            assert(p[i] == digits(n)[i - k]);
        }
    }
}

pub proof fn lemma_strip_zeros_ascii(s: Seq<u8>)
    requires
        all_ascii(s),
    ensures
        all_ascii(strip_zeros(s)),
        strip_zeros(s).len() <= s.len(),
        forall|i: int| 0 <= i < strip_zeros(s).len() ==> strip_zeros(s)[i] == s[i],
    decreases s.len(),
{
    if s.len() > 0 && s.last() == 48u8 {
        lemma_strip_zeros_ascii(s.drop_last());
        assert forall|i: int| 0 <= i < strip_zeros(s).len() implies strip_zeros(s)[i] == s[i] by {
            assert(strip_zeros(s)[i] == s.drop_last()[i]);
        }
    }
}

/// Format a date/time in the FITS civil form (`YYYY-MM-DDThh:mm:ss[.fff]`), dropping a zero
/// sub-second part and the trailing zeros of any other.
pub fn format_datetime(dt: &DateTime) -> (s: String)
    ensures
        s@ == ascii_chars(datetime_text(*dt)),
{
    let mut out: Vec<u8> = Vec::new();
    let (neg, mag) = magnitude(dt.year as i64);
    if neg {
        out.push(45u8);
        push_padded(&mut out, mag, 3);
    } else {
        push_padded(&mut out, mag, 4);
    }
    assert(out@ =~= year_text(dt.year as int));
    out.push(45u8);
    push_padded(&mut out, dt.month as u64, 2);
    out.push(45u8);
    push_padded(&mut out, dt.day as u64, 2);
    out.push(84u8);
    push_padded(&mut out, dt.hour as u64, 2);
    out.push(58u8);
    push_padded(&mut out, dt.minute as u64, 2);
    out.push(58u8);
    push_padded(&mut out, dt.second as u64, 2);
    let ghost base = out@;
    if dt.nanosecond != 0 {
        out.push(46u8);
        let mut frac: Vec<u8> = Vec::new();
        push_padded(&mut frac, dt.nanosecond as u64, 9);
        assert(frac@ =~= padded(dt.nanosecond as nat, 9));
        push_stripped(&mut out, frac.as_slice());
    }
    assert(out@ =~= datetime_text(*dt));
    proof {
        let d = *dt;
        lemma_padded_ascii(mag as nat, 3);
        lemma_padded_ascii(mag as nat, 4);
        lemma_padded_ascii(d.month as nat, 2);
        lemma_padded_ascii(d.day as nat, 2);
        lemma_padded_ascii(d.hour as nat, 2);
        lemma_padded_ascii(d.minute as nat, 2);
        lemma_padded_ascii(d.second as nat, 2);
        lemma_padded_ascii(d.nanosecond as nat, 9);
        lemma_strip_zeros_ascii(padded(d.nanosecond as nat, 9));
        assert(all_ascii(datetime_text(d)));
    }
    ascii_text(out.as_slice())
}

} // verus!
