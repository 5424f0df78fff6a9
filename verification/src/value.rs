//! Typed reads (`FromCard`) and writes (`IntoValue`), plus lenient integer parsing.

use vstd::prelude::*;
use vstd::utf8::encode_utf8;

use crate::dates::{date_obs, parse_datetime, DateTime};
use crate::record::{KindView, Record, Value, ValueView};
use crate::number::{
    decimal, integer_text, law_integer_text_reads_back, lenient_in_range, lenient_int, magnitude,
    narrowed, opt_int,
};
use crate::text::{ascii_chars, lemma_ascii_decode, trim, trim_range, IntoText};

verus! {

/// The view of an optional value.
pub open spec fn opt_view<T: View>(o: Option<T>) -> Option<T::V> {
    match o {
        Some(t) => Some(t@),
        None => None,
    }
}

/// Convert a record's value into a Rust type. The extension point behind
/// [`Header::get`](crate::Header::get).
pub trait FromCard: Sized + View {
    /// What reading a record of this kind yields.
    spec fn card_spec(kind: KindView) -> Option<Self::V>;

    /// Extract `Self` from a record, or `None` if absent/unparseable.
    fn from_card(record: &Record) -> (r: Option<Self>)
        ensures
            opt_view(r) == Self::card_spec(record@.kind),
    ;
}

/// Convert a Rust value into a [`Value`]. The extension point behind
/// [`Header::set`](crate::Header::set) / [`append`](crate::Header::append).
pub trait IntoValue: Sized {
    /// The payload this value stands for.
    spec fn value_view(&self) -> ValueView;

    /// The value payload to store.
    fn into_value(self) -> (v: Value)
        ensures
            v@ == self.value_view(),
    ;
}

impl FromCard for String {
    open spec fn card_spec(kind: KindView) -> Option<Seq<char>> {
        kind.value_text()
    }

    fn from_card(record: &Record) -> (r: Option<String>) {
        match record.value_text() {
            Some(t) => Some(t.to_owned()),
            None => None,
        }
    }
}

/// The truth value a trimmed token spells: `T`/`1` or `F`/`0`.
pub open spec fn bool_token(t: Seq<u8>) -> Option<bool> {
    if t == seq![84u8] || t == seq![49u8] {
        Some(true)
    } else if t == seq![70u8] || t == seq![48u8] {
        Some(false)
    } else {
        None
    }
}

impl FromCard for bool {
    open spec fn card_spec(kind: KindView) -> Option<bool> {
        match kind.value_text() {
            Some(t) => bool_token(trim(encode_utf8(t))),
            None => None,
        }
    }

    fn from_card(record: &Record) -> (r: Option<bool>) {
        match record.value_text() {
            None => None,
            Some(t) => {
                let b = t.as_bytes();
                let (lo, hi) = trim_range(b, 0, b.len());
                assert(b@.subrange(0, b@.len() as int) =~= b@);
                let ghost tt = trim(encode_utf8(t@));
                assert(tt == b@.subrange(lo as int, hi as int));
                assert(<bool as FromCard>::card_spec(record@.kind) == bool_token(tt));
                if hi - lo != 1 {
                    assert(tt.len() != 1);
                    assert(bool_token(tt) is None);
                    return None;
                }
                let c = b[lo];
                assert(tt =~= seq![c]);
                assert(tt[0] == c);
                if c == 84u8 || c == 49u8 {
                    assert(bool_token(tt) == Some(true));
                    Some(true)
                } else if c == 70u8 || c == 48u8 {
                    assert(bool_token(tt) == Some(false));
                    Some(false)
                } else {
                    assert(bool_token(tt) is None);
                    None
                }
            },
        }
    }
}

impl<'a> IntoValue for &'a str {
    open spec fn value_view(&self) -> ValueView {
        ValueView::Str(self@)
    }

    fn into_value(self) -> (v: Value) {
        Value::Str(self.to_owned())
    }
}

impl IntoValue for String {
    open spec fn value_view(&self) -> ValueView {
        ValueView::Str(self@)
    }

    fn into_value(self) -> (v: Value) {
        Value::Str(self)
    }
}

impl<'a> IntoValue for &'a String {
    open spec fn value_view(&self) -> ValueView {
        ValueView::Str(self@)
    }

    fn into_value(self) -> (v: Value) {
        Value::Str(self.clone())
    }
}

impl IntoValue for Value {
    open spec fn value_view(&self) -> ValueView {
        self@
    }

    fn into_value(self) -> (v: Value) {
        self
    }
}

impl IntoValue for bool {
    open spec fn value_view(&self) -> ValueView {
        ValueView::Literal(if *self { "T"@ } else { "F"@ })
    }

    fn into_value(self) -> (v: Value) {
        Value::Literal(if self { "T".to_owned() } else { "F".to_owned() })
    }
}

/// Write a literal token verbatim (numeric text a vendor supplied, or a value you don't
/// want reformatted).
pub struct Literal<S: IntoText>(pub S);

impl<S: IntoText> IntoValue for Literal<S> {
    open spec fn value_view(&self) -> ValueView {
        ValueView::Literal(self.0.text_view())
    }

    fn into_value(self) -> (v: Value) {
        Value::Literal(self.0.into_text())
    }
}

/// What reading a record as an integer within `lo..=hi` yields: its value text read
/// leniently (see [`lenient_int`]), when that lies in range.
pub open spec fn int_card(kind: KindView, lo: int, hi: int) -> Option<int> {
    match kind.value_text() {
        Some(t) => narrowed(lenient_int(encode_utf8(t)), lo, hi),
        None => None,
    }
}

/// Reads `record` as an integer within `lo..=hi`.
fn card_int(record: &Record, lo: i128, hi: i128) -> (r: Option<i128>)
    requires
        -(u64::MAX as int) <= lo <= hi <= u64::MAX,
    ensures
        opt_int(r) == int_card(record@.kind, lo as int, hi as int),
{
    match record.value_text() {
        Some(t) => lenient_in_range(t.as_bytes(), lo, hi),
        None => None,
    }
}

/// Parse an integer, accepting decimal-form integers (`"20.0"` reads as 20, `"1e3"` as
/// 1000); a value with a fraction, or one outside the `i64` range, reads as `None`.
pub fn parse_i64(s: &str) -> (r: Option<i64>)
    ensures
        opt_view(r) == match narrowed(lenient_int(encode_utf8(s@)), i64::MIN as int, i64::MAX as int) {
            Some(v) => Some(v as i64),
            None => None,
        },
{
    match lenient_in_range(s.as_bytes(), i64::MIN as i128, i64::MAX as i128) {
        Some(v) => Some(v as i64),
        None => None,
    }
}

impl FromCard for i64 {
    open spec fn card_spec(kind: KindView) -> Option<i64> {
        match int_card(kind, i64::MIN as int, i64::MAX as int) {
            Some(v) => Some(v as i64),
            None => None,
        }
    }

    fn from_card(record: &Record) -> (r: Option<i64>) {
        match card_int(record, i64::MIN as i128, i64::MAX as i128) {
            Some(v) => Some(v as i64),
            None => None,
        }
    }
}

impl FromCard for i32 {
    open spec fn card_spec(kind: KindView) -> Option<i32> {
        match int_card(kind, i32::MIN as int, i32::MAX as int) {
            Some(v) => Some(v as i32),
            None => None,
        }
    }

    fn from_card(record: &Record) -> (r: Option<i32>) {
        match card_int(record, i32::MIN as i128, i32::MAX as i128) {
            Some(v) => Some(v as i32),
            None => None,
        }
    }
}

impl FromCard for u64 {
    open spec fn card_spec(kind: KindView) -> Option<u64> {
        match int_card(kind, 0, u64::MAX as int) {
            Some(v) => Some(v as u64),
            None => None,
        }
    }

    fn from_card(record: &Record) -> (r: Option<u64>) {
        match card_int(record, 0, u64::MAX as i128) {
            Some(v) => Some(v as u64),
            None => None,
        }
    }
}

impl FromCard for u32 {
    open spec fn card_spec(kind: KindView) -> Option<u32> {
        match int_card(kind, 0, u32::MAX as int) {
            Some(v) => Some(v as u32),
            None => None,
        }
    }

    fn from_card(record: &Record) -> (r: Option<u32>) {
        match card_int(record, 0, u32::MAX as i128) {
            Some(v) => Some(v as u32),
            None => None,
        }
    }
}

impl FromCard for i16 {
    open spec fn card_spec(kind: KindView) -> Option<i16> {
        match int_card(kind, i16::MIN as int, i16::MAX as int) {
            Some(v) => Some(v as i16),
            None => None,
        }
    }

    fn from_card(record: &Record) -> (r: Option<i16>) {
        match card_int(record, i16::MIN as i128, i16::MAX as i128) {
            Some(v) => Some(v as i16),
            None => None,
        }
    }
}

impl FromCard for u16 {
    open spec fn card_spec(kind: KindView) -> Option<u16> {
        match int_card(kind, 0, u16::MAX as int) {
            Some(v) => Some(v as u16),
            None => None,
        }
    }

    fn from_card(record: &Record) -> (r: Option<u16>) {
        match card_int(record, 0, u16::MAX as i128) {
            Some(v) => Some(v as u16),
            None => None,
        }
    }
}

impl FromCard for i8 {
    open spec fn card_spec(kind: KindView) -> Option<i8> {
        match int_card(kind, i8::MIN as int, i8::MAX as int) {
            Some(v) => Some(v as i8),
            None => None,
        }
    }

    fn from_card(record: &Record) -> (r: Option<i8>) {
        match card_int(record, i8::MIN as i128, i8::MAX as i128) {
            Some(v) => Some(v as i8),
            None => None,
        }
    }
}

impl FromCard for u8 {
    open spec fn card_spec(kind: KindView) -> Option<u8> {
        match int_card(kind, 0, u8::MAX as int) {
            Some(v) => Some(v as u8),
            None => None,
        }
    }

    fn from_card(record: &Record) -> (r: Option<u8>) {
        match card_int(record, 0, u8::MAX as i128) {
            Some(v) => Some(v as u8),
            None => None,
        }
    }
}

impl IntoValue for i64 {
    open spec fn value_view(&self) -> ValueView {
        ValueView::Literal(ascii_chars(decimal(*self as int)))
    }

    fn into_value(self) -> (v: Value) {
        let (neg, mag) = magnitude(self);
        Value::Literal(integer_text(neg, mag))
    }
}

impl IntoValue for i32 {
    open spec fn value_view(&self) -> ValueView {
        ValueView::Literal(ascii_chars(decimal(*self as int)))
    }

    fn into_value(self) -> (v: Value) {
        let (neg, mag) = magnitude(self as i64);
        Value::Literal(integer_text(neg, mag))
    }
}

impl IntoValue for u64 {
    open spec fn value_view(&self) -> ValueView {
        ValueView::Literal(ascii_chars(decimal(*self as int)))
    }

    fn into_value(self) -> (v: Value) {
        Value::Literal(integer_text(false, self as u64))
    }
}

impl IntoValue for u32 {
    open spec fn value_view(&self) -> ValueView {
        ValueView::Literal(ascii_chars(decimal(*self as int)))
    }

    fn into_value(self) -> (v: Value) {
        Value::Literal(integer_text(false, self as u64))
    }
}

impl IntoValue for i16 {
    open spec fn value_view(&self) -> ValueView {
        ValueView::Literal(ascii_chars(decimal(*self as int)))
    }

    fn into_value(self) -> (v: Value) {
        let (neg, mag) = magnitude(self as i64);
        Value::Literal(integer_text(neg, mag))
    }
}

impl IntoValue for u16 {
    open spec fn value_view(&self) -> ValueView {
        ValueView::Literal(ascii_chars(decimal(*self as int)))
    }

    fn into_value(self) -> (v: Value) {
        Value::Literal(integer_text(false, self as u64))
    }
}

impl IntoValue for i8 {
    open spec fn value_view(&self) -> ValueView {
        ValueView::Literal(ascii_chars(decimal(*self as int)))
    }

    fn into_value(self) -> (v: Value) {
        let (neg, mag) = magnitude(self as i64);
        Value::Literal(integer_text(neg, mag))
    }
}

impl IntoValue for u8 {
    open spec fn value_view(&self) -> ValueView {
        ValueView::Literal(ascii_chars(decimal(*self as int)))
    }

    fn into_value(self) -> (v: Value) {
        Value::Literal(integer_text(false, self as u64))
    }
}

impl IntoValue for usize {
    open spec fn value_view(&self) -> ValueView {
        ValueView::Literal(ascii_chars(decimal(*self as int)))
    }

    fn into_value(self) -> (v: Value) {
        Value::Literal(integer_text(false, self as u64))
    }
}

impl IntoValue for isize {
    open spec fn value_view(&self) -> ValueView {
        ValueView::Literal(ascii_chars(decimal(*self as int)))
    }

    fn into_value(self) -> (v: Value) {
        let (neg, mag) = magnitude(self as i64);
        Value::Literal(integer_text(neg, mag))
    }
}

/// An integer stored as a value card's literal reads back as the same integer, through
/// any integer type whose range holds it.
pub proof fn law_integer_value_reads_back(
    keyword: Seq<char>,
    comment: Option<Seq<char>>,
    v: int,
    lo: int,
    hi: int,
)
    requires
        lo <= v <= hi,
    ensures
        int_card(
            KindView::Value {
                keyword,
                value: ValueView::Literal(ascii_chars(decimal(v))),
                comment,
            },
            lo,
            hi,
        ) == Some(v),
{
    crate::number::lemma_digits_shape((if v < 0 {
        -v
    } else {
        v
    }) as nat);
    assert(crate::text::all_ascii(decimal(v)));
    lemma_ascii_decode(decimal(v));
    law_integer_text_reads_back(v);
}

/// An `i64` set on a header reads back as itself with `get::<i64>`.
pub proof fn law_i64_reads_back(keyword: Seq<char>, comment: Option<Seq<char>>, x: i64)
    ensures
        <i64 as FromCard>::card_spec(KindView::Value { keyword, value: x.value_view(), comment })
            == Some(x),
{
    law_integer_value_reads_back(keyword, comment, x as int, i64::MIN as int, i64::MAX as int);
}

/// The integer a record's value text reads as leniently, whatever its size.
pub open spec fn lenient_value(kind: KindView) -> Option<int> {
    match kind.value_text() {
        Some(t) => lenient_int(encode_utf8(t)),
        None => None,
    }
}

/// Every integer type reads a record the same way: the value text read leniently, when
/// that integer lies within the type's range (negative values included for the signed
/// types), and nothing otherwise.
pub proof fn law_integer_reads(kind: KindView)
    ensures
        <i64 as FromCard>::card_spec(kind) == match lenient_value(kind) {
            Some(v) => if i64::MIN as int <= v <= i64::MAX as int {
                Some(v as i64)
            } else {
                None
            },
            None => None,
        },
        <i32 as FromCard>::card_spec(kind) == match lenient_value(kind) {
            Some(v) => if i32::MIN as int <= v <= i32::MAX as int {
                Some(v as i32)
            } else {
                None
            },
            None => None,
        },
        <i16 as FromCard>::card_spec(kind) == match lenient_value(kind) {
            Some(v) => if i16::MIN as int <= v <= i16::MAX as int {
                Some(v as i16)
            } else {
                None
            },
            None => None,
        },
        <i8 as FromCard>::card_spec(kind) == match lenient_value(kind) {
            Some(v) => if i8::MIN as int <= v <= i8::MAX as int {
                Some(v as i8)
            } else {
                None
            },
            None => None,
        },
        <u64 as FromCard>::card_spec(kind) == match lenient_value(kind) {
            Some(v) => if 0 <= v <= u64::MAX as int {
                Some(v as u64)
            } else {
                None
            },
            None => None,
        },
        <u32 as FromCard>::card_spec(kind) == match lenient_value(kind) {
            Some(v) => if 0 <= v <= u32::MAX as int {
                Some(v as u32)
            } else {
                None
            },
            None => None,
        },
        <u16 as FromCard>::card_spec(kind) == match lenient_value(kind) {
            Some(v) => if 0 <= v <= u16::MAX as int {
                Some(v as u16)
            } else {
                None
            },
            None => None,
        },
        <u8 as FromCard>::card_spec(kind) == match lenient_value(kind) {
            Some(v) => if 0 <= v <= u8::MAX as int {
                Some(v as u8)
            } else {
                None
            },
            None => None,
        },
{
}

/// An `i32` set on a header reads back as itself with `get::<i32>`.
pub proof fn law_i32_reads_back(keyword: Seq<char>, comment: Option<Seq<char>>, x: i32)
    ensures
        <i32 as FromCard>::card_spec(KindView::Value { keyword, value: x.value_view(), comment })
            == Some(x),
{
    law_integer_value_reads_back(keyword, comment, x as int, i32::MIN as int, i32::MAX as int);
    law_integer_reads(KindView::Value { keyword, value: x.value_view(), comment });
}

/// An `i16` set on a header reads back as itself with `get::<i16>`.
pub proof fn law_i16_reads_back(keyword: Seq<char>, comment: Option<Seq<char>>, x: i16)
    ensures
        <i16 as FromCard>::card_spec(KindView::Value { keyword, value: x.value_view(), comment })
            == Some(x),
{
    law_integer_value_reads_back(keyword, comment, x as int, i16::MIN as int, i16::MAX as int);
    law_integer_reads(KindView::Value { keyword, value: x.value_view(), comment });
}

/// An `i8` set on a header reads back as itself with `get::<i8>`.
pub proof fn law_i8_reads_back(keyword: Seq<char>, comment: Option<Seq<char>>, x: i8)
    ensures
        <i8 as FromCard>::card_spec(KindView::Value { keyword, value: x.value_view(), comment })
            == Some(x),
{
    law_integer_value_reads_back(keyword, comment, x as int, i8::MIN as int, i8::MAX as int);
    law_integer_reads(KindView::Value { keyword, value: x.value_view(), comment });
}

/// An `u64` set on a header reads back as itself with `get::<u64>`.
pub proof fn law_u64_reads_back(keyword: Seq<char>, comment: Option<Seq<char>>, x: u64)
    ensures
        <u64 as FromCard>::card_spec(KindView::Value { keyword, value: x.value_view(), comment })
            == Some(x),
{
    law_integer_value_reads_back(keyword, comment, x as int, 0, u64::MAX as int);
    law_integer_reads(KindView::Value { keyword, value: x.value_view(), comment });
}

/// An `u32` set on a header reads back as itself with `get::<u32>`.
pub proof fn law_u32_reads_back(keyword: Seq<char>, comment: Option<Seq<char>>, x: u32)
    ensures
        <u32 as FromCard>::card_spec(KindView::Value { keyword, value: x.value_view(), comment })
            == Some(x),
{
    law_integer_value_reads_back(keyword, comment, x as int, 0, u32::MAX as int);
    law_integer_reads(KindView::Value { keyword, value: x.value_view(), comment });
}

/// An `u16` set on a header reads back as itself with `get::<u16>`.
pub proof fn law_u16_reads_back(keyword: Seq<char>, comment: Option<Seq<char>>, x: u16)
    ensures
        <u16 as FromCard>::card_spec(KindView::Value { keyword, value: x.value_view(), comment })
            == Some(x),
{
    law_integer_value_reads_back(keyword, comment, x as int, 0, u16::MAX as int);
    law_integer_reads(KindView::Value { keyword, value: x.value_view(), comment });
}

/// An `u8` set on a header reads back as itself with `get::<u8>`.
pub proof fn law_u8_reads_back(keyword: Seq<char>, comment: Option<Seq<char>>, x: u8)
    ensures
        <u8 as FromCard>::card_spec(KindView::Value { keyword, value: x.value_view(), comment })
            == Some(x),
{
    law_integer_value_reads_back(keyword, comment, x as int, 0, u8::MAX as int);
    law_integer_reads(KindView::Value { keyword, value: x.value_view(), comment });
}

impl FromCard for DateTime {
    open spec fn card_spec(kind: KindView) -> Option<DateTime> {
        match kind.value_text() {
            Some(t) => date_obs(t),
            None => None,
        }
    }

    fn from_card(record: &Record) -> (r: Option<DateTime>) {
        match record.value_text() {
            Some(t) => parse_datetime(t),
            None => None,
        }
    }
}

} // verus!
