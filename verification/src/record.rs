//! Header records (cards) and their value payloads.

use vstd::prelude::*;
use vstd::utf8::encode_utf8;

use crate::error::{ErrorView, FitsError};
use crate::text::{text_eq, IntoText};
use crate::CARD_LEN;
use vstd::std_specs::cmp::PartialEqSpecImpl;

verus! {

/// A value card's payload.
#[derive(Clone, Debug, PartialEq, Eq)]
pub enum Value {
    /// A single-quoted string; content is unescaped. `Str("")` is present-but-empty.
    Str(String),
    /// An unquoted literal token (number, `T`/`F`, ...), kept verbatim.
    Literal(String),
}

/// The mathematical content of a [`Value`].
pub enum ValueView {
    Str(Seq<char>),
    Literal(Seq<char>),
}

impl ValueView {
    /// The characters the payload holds, whichever its form.
    pub open spec fn chars(self) -> Seq<char> {
        match self {
            ValueView::Str(s) => s,
            ValueView::Literal(s) => s,
        }
    }
}

impl View for Value {
    type V = ValueView;

    open spec fn view(&self) -> ValueView {
        match self {
            Value::Str(s) => ValueView::Str(s@),
            Value::Literal(s) => ValueView::Literal(s@),
        }
    }
}

/// The semantic content of a [`Record`].
#[derive(Clone, Debug, PartialEq, Eq)]
pub enum RecordKind {
    /// An addressable value card: `KEYWORD = value / comment`.
    Value { keyword: String, value: Value, comment: Option<String> },
    /// A repeatable free-text card: `COMMENT`/`HISTORY`/blank keyword.
    Commentary { keyword: String, text: String },
    /// A preserved card that is not addressable as a keyword (`HIERARCH`, unrecognized,
    /// blank).
    Opaque { text: String },
}

/// The mathematical content of a [`RecordKind`].
pub enum KindView {
    Value { keyword: Seq<char>, value: ValueView, comment: Option<Seq<char>> },
    Commentary { keyword: Seq<char>, text: Seq<char> },
    Opaque { text: Seq<char> },
}

/// The view of an optional string.
pub open spec fn opt_text(o: Option<String>) -> Option<Seq<char>> {
    match o {
        Some(s) => Some(s@),
        None => None,
    }
}

impl View for RecordKind {
    type V = KindView;

    open spec fn view(&self) -> KindView {
        match self {
            RecordKind::Value { keyword, value, comment } => KindView::Value {
                keyword: keyword@,
                value: value@,
                comment: opt_text(*comment),
            },
            RecordKind::Commentary { keyword, text } => KindView::Commentary {
                keyword: keyword@,
                text: text@,
            },
            RecordKind::Opaque { text } => KindView::Opaque { text: text@ },
        }
    }
}

impl KindView {
    /// The addressable keyword, `None` for opaque cards.
    pub open spec fn keyword(self) -> Option<Seq<char>> {
        match self {
            KindView::Value { keyword, .. } => Some(keyword),
            KindView::Commentary { keyword, .. } => Some(keyword),
            KindView::Opaque { .. } => None,
        }
    }

    /// The value as text for typed reads: non-empty `Str` content, a `Literal` token, or
    /// commentary text.
    pub open spec fn value_text(self) -> Option<Seq<char>> {
        match self {
            KindView::Value { value, .. } => match value {
                ValueView::Str(s) => if s.len() == 0 {
                    None
                } else {
                    Some(s)
                },
                ValueView::Literal(l) => Some(l),
            },
            KindView::Commentary { text, .. } => Some(text),
            KindView::Opaque { .. } => None,
        }
    }

    /// The non-empty `Str` content of a value card.
    pub open spec fn str_content(self) -> Option<Seq<char>> {
        match self {
            KindView::Value { value: ValueView::Str(s), .. } => if s.len() == 0 {
                None
            } else {
                Some(s)
            },
            _ => None,
        }
    }

    /// The inline comment of a value card.
    pub open spec fn comment(self) -> Option<Seq<char>> {
        match self {
            KindView::Value { comment, .. } => comment,
            _ => None,
        }
    }

    /// The kind once its value (or commentary text) is replaced by `new`.
    pub open spec fn with_value(self, new: ValueView) -> KindView {
        match self {
            KindView::Value { keyword, comment, .. } => KindView::Value {
                keyword,
                value: new,
                comment,
            },
            KindView::Commentary { keyword, .. } => KindView::Commentary {
                keyword,
                text: new.chars(),
            },
            KindView::Opaque { text } => KindView::Opaque { text },
        }
    }
}

/// The bytes of a run of cards, in order.
pub open spec fn flatten(cards: Seq<[u8; 80]>) -> Seq<u8>
    decreases cards.len(),
{
    if cards.len() == 0 {
        Seq::empty()
    } else {
        flatten(cards.drop_last()) + cards.last()@
    }
}

pub proof fn lemma_flatten_one(a: [u8; 80])
    ensures
        flatten(seq![a]) == a@,
{
    let one = seq![a];
    assert(one.drop_last() =~= Seq::<[u8; 80]>::empty());
    assert(one.last() == a);
    assert(flatten(one) == flatten(one.drop_last()) + one.last()@);
    assert(Seq::<u8>::empty() + a@ =~= a@);
}

/// A run of cards holds 80 bytes per card.
pub proof fn lemma_flatten_len(cards: Seq<[u8; 80]>)
    ensures
        flatten(cards).len() == 80 * cards.len(),
    decreases cards.len(),
{
    if cards.len() > 0 {
        lemma_flatten_len(cards.drop_last());
    }
}

/// Whether a record's original bytes, when it has them, are whole 80-byte cards.
pub open spec fn raw_is_cards(r: RecordView) -> bool {
    r.raw matches Some(b) ==> b.len() % 80 == 0
}

/// The mathematical content of a [`Record`]: its kind and, when it is backed by the cards
/// it was parsed from, their bytes.
pub struct RecordView {
    pub kind: KindView,
    pub raw: Option<Seq<u8>>,
}

/// One header card. Carries its parsed [`RecordKind`] plus, when parsed and unmodified,
/// the original bytes of its physical card(s) so it can be serialized verbatim.
#[derive(Clone, Debug)]
pub struct Record {
    /// The semantic content.
    pub kind: RecordKind,
    /// Original physical card bytes: `Some` when parsed and unmodified; `None` once created
    /// or edited. Not part of equality.
    raw: Option<Vec<[u8; CARD_LEN]>>,
}

impl View for Record {
    type V = RecordView;

    closed spec fn view(&self) -> RecordView {
        RecordView {
            kind: self.kind@,
            raw: match self.raw {
                Some(v) => Some(flatten(v@)),
                None => None,
            },
        }
    }
}

impl Record {
    /// The original bytes of a byte-backed record are whole 80-byte cards.
    pub proof fn lemma_raw_is_cards(&self)
        ensures
            raw_is_cards(self@),
    {
        match self.raw {
            Some(v) => {
                lemma_flatten_len(v@);
                vstd::arithmetic::div_mod::lemma_mod_multiples_basic(v@.len() as int, 80);
            },
            None => {},
        }
    }

    /// The card count of the original bytes, when byte-backed.
    pub closed spec fn raw_card_count(&self) -> Option<nat> {
        match self.raw {
            Some(v) => Some(v@.len()),
            None => None,
        }
    }

    /// A new value card (not byte-backed; formatted on write).
    pub fn value<K: IntoText>(keyword: K, value: Value, comment: Option<String>) -> (r: Record)
        ensures
            r@ == (RecordView {
                kind: KindView::Value {
                    keyword: keyword.text_view(),
                    value: value@,
                    comment: opt_text(comment),
                },
                raw: None,
            }),
    {
        Record {
            kind: RecordKind::Value { keyword: keyword.into_text(), value, comment },
            raw: None,
        }
    }

    /// A new commentary card (not byte-backed; formatted on write).
    pub fn commentary<K: IntoText, T: IntoText>(keyword: K, text: T) -> (r: Record)
        ensures
            r@ == (RecordView {
                kind: KindView::Commentary { keyword: keyword.text_view(), text: text.text_view() },
                raw: None,
            }),
    {
        Record {
            kind: RecordKind::Commentary { keyword: keyword.into_text(), text: text.into_text() },
            raw: None,
        }
    }

    /// A record of the given kind, not byte-backed (formatted on write).
    pub fn from_kind(kind: RecordKind) -> (r: Record)
        ensures
            r@ == (RecordView { kind: kind@, raw: None }),
    {
        Record { kind, raw: None }
    }

    /// A record backed by original card bytes (parsed, unmodified).
    pub fn from_raw(kind: RecordKind, raw: Vec<[u8; CARD_LEN]>) -> (r: Record)
        ensures
            r@ == (RecordView { kind: kind@, raw: Some(flatten(raw@)) }),
            r.raw_card_count() == Some(raw@.len()),
    {
        Record { kind, raw: Some(raw) }
    }

    /// The semantic content.
    pub fn kind_ref(&self) -> (k: &RecordKind)
        ensures
            k@ == self@.kind,
    {
        &self.kind
    }

    /// The addressable keyword, or `None` for opaque cards.
    pub fn keyword(&self) -> (k: Option<&str>)
        ensures
            opt_str(k) == self@.kind.keyword(),
    {
        match &self.kind {
            RecordKind::Value { keyword, .. } => Some(keyword.as_str()),
            RecordKind::Commentary { keyword, .. } => Some(keyword.as_str()),
            RecordKind::Opaque { .. } => None,
        }
    }

    /// The value as text for typed reads: `Str` content (non-empty), a `Literal` token, or
    /// commentary text. `None` for empty strings and opaque cards.
    pub fn value_text(&self) -> (t: Option<&str>)
        ensures
            opt_str(t) == self@.kind.value_text(),
    {
        match &self.kind {
            RecordKind::Value { value, .. } => match value {
                Value::Str(s) => if s.as_str().is_empty() {
                    None
                } else {
                    Some(s.as_str())
                },
                Value::Literal(l) => Some(l.as_str()),
            },
            RecordKind::Commentary { text, .. } => Some(text.as_str()),
            RecordKind::Opaque { .. } => None,
        }
    }

    /// The `Str` content of a value card (non-empty).
    pub fn str_content(&self) -> (t: Option<&str>)
        ensures
            opt_str(t) == self@.kind.str_content(),
    {
        match &self.kind {
            RecordKind::Value { value: Value::Str(s), .. } => if s.as_str().is_empty() {
                None
            } else {
                Some(s.as_str())
            },
            _ => None,
        }
    }

    /// The inline comment of a value card.
    pub fn comment(&self) -> (c: Option<&str>)
        ensures
            opt_str(c) == self@.kind.comment(),
    {
        match &self.kind {
            RecordKind::Value { comment, .. } => match comment {
                Some(c) => Some(c.as_str()),
                None => None,
            },
            _ => None,
        }
    }

    /// Original card bytes when byte-backed (unmodified).
    pub fn raw_cards(&self) -> (r: Option<&[[u8; CARD_LEN]]>)
        ensures
            r is Some <==> self@.raw is Some,
            r matches Some(c) ==> self@.raw == Some(flatten(c@)),
    {
        match &self.raw {
            Some(v) => Some(v.as_slice()),
            None => None,
        }
    }

    /// Replace a value card's value (or a commentary card's text) and mark the record dirty
    /// so it is reformatted on write.
    pub fn replace_value(&mut self, new: Value)
        ensures
            final(self)@ == (RecordView { kind: old(self)@.kind.with_value(new@), raw: None }),
    {
        let mut kind = RecordKind::Opaque { text: String::new() };
        std::mem::swap(&mut kind, &mut self.kind);
        self.kind = match kind {
            RecordKind::Value { keyword, value: _, comment } => RecordKind::Value {
                keyword,
                value: new,
                comment,
            },
            RecordKind::Commentary { keyword, text: _ } => RecordKind::Commentary {
                keyword,
                text: match new {
                    Value::Str(s) => s,
                    Value::Literal(s) => s,
                },
            },
            RecordKind::Opaque { text } => RecordKind::Opaque { text },
        };
        self.raw = None;
    }

    /// Set or clear a value card's comment, marking it dirty. A no-op on other records.
    pub fn set_comment(&mut self, c: Option<String>)
        ensures
            final(self)@ == (match old(self)@.kind {
                KindView::Value { keyword, value, .. } => RecordView {
                    kind: KindView::Value { keyword, value, comment: opt_text(c) },
                    raw: None,
                },
                _ => old(self)@,
            }),
    {
        if let RecordKind::Value { .. } = &self.kind {
            let mut kind = RecordKind::Opaque { text: String::new() };
            std::mem::swap(&mut kind, &mut self.kind);
            self.kind = match kind {
                RecordKind::Value { keyword, value, comment: _ } => RecordKind::Value {
                    keyword,
                    value,
                    comment: c,
                },
                other => other,
            };
            self.raw = None;
        }
    }
}

fn text_same(a: &String, b: &String) -> (r: bool)
    ensures
        r == (a@ == b@),
{
    text_eq(a.as_str(), b.as_str())
}

fn value_same(a: &Value, b: &Value) -> (r: bool)
    ensures
        r == (a@ == b@),
{
    match (a, b) {
        (Value::Str(x), Value::Str(y)) => text_same(x, y),
        (Value::Literal(x), Value::Literal(y)) => text_same(x, y),
        _ => false,
    }
}

fn opt_text_same(a: &Option<String>, b: &Option<String>) -> (r: bool)
    ensures
        r == (opt_text(*a) == opt_text(*b)),
{
    match (a, b) {
        (Some(x), Some(y)) => text_same(x, y),
        (None, None) => true,
        _ => false,
    }
}

fn kind_same(a: &RecordKind, b: &RecordKind) -> (r: bool)
    ensures
        r == (a@ == b@),
{
    match (a, b) {
        (
            RecordKind::Value { keyword: k1, value: v1, comment: c1 },
            RecordKind::Value { keyword: k2, value: v2, comment: c2 },
        ) => text_same(k1, k2) && value_same(v1, v2) && opt_text_same(c1, c2),
        (
            RecordKind::Commentary { keyword: k1, text: t1 },
            RecordKind::Commentary { keyword: k2, text: t2 },
        ) => text_same(k1, k2) && text_same(t1, t2),
        (RecordKind::Opaque { text: t1 }, RecordKind::Opaque { text: t2 }) => text_same(t1, t2),
        _ => false,
    }
}

/// Two records are equal when their kinds are; retained bytes are not compared.
impl PartialEq for Record {
    fn eq(&self, other: &Self) -> (r: bool) {
        kind_same(&self.kind, &other.kind)
    }
}

impl PartialEqSpecImpl for Record {
    open spec fn obeys_eq_spec() -> bool {
        true
    }

    open spec fn eq_spec(&self, other: &Self) -> bool {
        self@.kind == other@.kind
    }
}

/// The views of a run of records.
pub open spec fn record_views(rs: Seq<Record>) -> Seq<RecordView> {
    rs.map_values(|r: Record| r@)
}

/// The view of an optional borrowed string.
pub open spec fn opt_str(o: Option<&str>) -> Option<Seq<char>> {
    match o {
        Some(s) => Some(s@),
        None => None,
    }
}

/// Keywords whose payload is free text: `COMMENT`, `HISTORY`, or blank.
pub open spec fn is_commentary(name: Seq<char>) -> bool {
    name.len() == 0 || name == "COMMENT"@ || name == "HISTORY"@
}

/// True for keywords whose payload is free text (`COMMENT`, `HISTORY`, or blank).
pub fn is_commentary_keyword(name: &str) -> (r: bool)
    ensures
        r == is_commentary(name@),
{
    name.is_empty() || text_eq(name, "COMMENT") || text_eq(name, "HISTORY")
}

/// A byte of the standard keyword set `A-Z 0-9 - _`.
pub open spec fn is_keyword_byte(b: u8) -> bool {
    (65u8 <= b && b <= 90u8) || (48u8 <= b && b <= 57u8) || b == 45u8 || b == 95u8
}

/// A printable ASCII byte.
pub open spec fn is_printable_byte(b: u8) -> bool {
    0x20u8 <= b && b <= 0x7eu8
}

/// A byte accepted in a standard (`raw == false`) or vendor (`raw == true`) keyword.
pub open spec fn keyword_byte_ok(b: u8, raw: bool) -> bool {
    if raw {
        is_printable_byte(b)
    } else {
        is_keyword_byte(b)
    }
}

/// The outcome of validating `name` as a keyword: standard (`raw == false`) or vendor
/// (`raw == true`). Length counts UTF-8 bytes.
pub open spec fn keyword_check(name: Seq<char>, raw: bool) -> Result<(), ErrorView> {
    let b = encode_utf8(name);
    if b.len() > 8 {
        Err(ErrorView::KeywordTooLong { keyword: name })
    } else if exists|j: int| 0 <= j < b.len() && !keyword_byte_ok(#[trigger] b[j], raw) {
        Err(ErrorView::InvalidKeyword { keyword: name })
    } else {
        Ok(())
    }
}

/// The view of a unit result.
pub open spec fn unit_result(r: Result<(), FitsError>) -> Result<(), ErrorView> {
    match r {
        Ok(()) => Ok(()),
        Err(e) => Err(e@),
    }
}

fn check_keyword(name: &str, raw: bool) -> (r: Result<(), FitsError>)
    ensures
        unit_result(r) == keyword_check(name@, raw),
{
    let b = name.as_bytes();
    if b.len() > 8 {
        return Err(FitsError::KeywordTooLong { keyword: name.to_owned() });
    }
    let mut i: usize = 0;
    while i < b.len()
        invariant
            b@ == encode_utf8(name@),
            b@.len() <= 8,
            i <= b@.len(),
            forall|j: int| 0 <= j < i ==> keyword_byte_ok(#[trigger] b@[j], raw),
        decreases b@.len() - i,
    {
        let x = b[i];
        let ok = if raw {
            0x20u8 <= x && x <= 0x7eu8
        } else {
            (65u8 <= x && x <= 90u8) || (48u8 <= x && x <= 57u8) || x == 45u8 || x == 95u8
        };
        if !ok {
            assert(!keyword_byte_ok(b@[i as int], raw));
            return Err(FitsError::InvalidKeyword { keyword: name.to_owned() });
        }
        i = i + 1;
    }
    Ok(())
}

/// Validate a standard FITS keyword: at most 8 bytes, each in `A-Z 0-9 - _`.
pub fn validate_keyword(name: &str) -> (r: Result<(), FitsError>)
    ensures
        unit_result(r) == keyword_check(name@, false),
{
    check_keyword(name, false)
}

/// Validate a vendor keyword escape hatch: at most 8 bytes, printable ASCII.
pub fn validate_keyword_raw(name: &str) -> (r: Result<(), FitsError>)
    ensures
        unit_result(r) == keyword_check(name@, true),
{
    check_keyword(name, true)
}

} // verus!
