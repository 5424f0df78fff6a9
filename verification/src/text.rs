//! Byte-level text helpers: whitespace trimming, searching, decoding and comparing.
//!
//! Card contents are examined as bytes; text that ends up in a record is the lossy UTF-8
//! decoding of the bytes that make it up. Whitespace is what `char::is_whitespace` accepts
//! (Unicode White_Space), recognised by its UTF-8 encoding; on valid UTF-8, trimming bytes
//! and then decoding gives what decoding and then trimming the characters gives
//! ([`crate::whitespace::law_trim_is_char_trim`]). Each field of a card (keyword, value,
//! comment, free text) is decoded on its own.

use vstd::prelude::*;
use vstd::utf8::{decode_utf8, encode_utf8, is_ascii_chars, valid_utf8};

verus! {

/// ASCII whitespace: space, tab, line feed, vertical tab, form feed, carriage return.
pub open spec fn is_space(b: u8) -> bool {
    b == 32u8 || (9u8 <= b && b <= 13u8)
}

/// The two-byte encodings of whitespace: U+0085 and U+00A0.
pub open spec fn is_space2(a: u8, b: u8) -> bool {
    a == 0xC2u8 && (b == 0x85u8 || b == 0xA0u8)
}

/// The three-byte encodings of whitespace: U+1680, U+2000 to U+200A, U+2028, U+2029,
/// U+202F, U+205F and U+3000.
pub open spec fn is_space3(a: u8, b: u8, c: u8) -> bool {
    ||| (a == 0xE1u8 && b == 0x9Au8 && c == 0x80u8)
    ||| (a == 0xE2u8 && b == 0x80u8 && ((0x80u8 <= c && c <= 0x8Au8) || c == 0xA8u8 || c
        == 0xA9u8 || c == 0xAFu8))
    ||| (a == 0xE2u8 && b == 0x81u8 && c == 0x9Fu8)
    ||| (a == 0xE3u8 && b == 0x80u8 && c == 0x80u8)
}

/// How many bytes the whitespace character that `s` starts with takes; 0 when `s` does
/// not start with one.
pub open spec fn lead_space(s: Seq<u8>) -> int {
    if s.len() >= 1 && is_space(s[0]) {
        1
    } else if s.len() >= 2 && is_space2(s[0], s[1]) {
        2
    } else if s.len() >= 3 && is_space3(s[0], s[1], s[2]) {
        3
    } else {
        0
    }
}

/// How many bytes the whitespace character that `s` ends with takes; 0 when `s` does not
/// end with one.
pub open spec fn trail_space(s: Seq<u8>) -> int {
    let n = s.len() as int;
    if n >= 1 && is_space(s[n - 1]) {
        1
    } else if n >= 2 && is_space2(s[n - 2], s[n - 1]) {
        2
    } else if n >= 3 && is_space3(s[n - 3], s[n - 2], s[n - 1]) {
        3
    } else {
        0
    }
}

/// `s` without its trailing whitespace.
pub open spec fn trim_end(s: Seq<u8>) -> Seq<u8>
    decreases s.len(),
{
    if trail_space(s) > 0 {
        trim_end(s.take(s.len() - trail_space(s)))
    } else {
        s
    }
}

/// `s` without its leading whitespace.
pub open spec fn trim_start(s: Seq<u8>) -> Seq<u8>
    decreases s.len(),
{
    if lead_space(s) > 0 {
        trim_start(s.skip(lead_space(s)))
    } else {
        s
    }
}

/// `s` without leading or trailing whitespace.
pub open spec fn trim(s: Seq<u8>) -> Seq<u8> {
    trim_end(trim_start(s))
}

/// `k` is the position of the first `x` in `s`, or `s.len()` when there is none.
pub open spec fn first_at(s: Seq<u8>, x: u8, k: int) -> bool {
    &&& 0 <= k <= s.len()
    &&& forall|j: int| 0 <= j < k ==> s[j] != x
    &&& k < s.len() ==> s[k] == x
}

/// The position of the first `x` in `s`, or `s.len()` when `s` holds none.
pub open spec fn index_of(s: Seq<u8>, x: u8) -> int {
    choose|k: int| first_at(s, x, k)
}

/// The characters that `String::from_utf8_lossy` makes of `b`, which is not valid UTF-8
/// (each invalid sequence replaced with U+FFFD).
pub uninterp spec fn replaced_utf8(b: Seq<u8>) -> Seq<char>;

/// The characters that the lossy UTF-8 decoding of `b` yields: its decoding when it is
/// valid UTF-8.
#[verifier::opaque]
pub open spec fn lossy_utf8(b: Seq<u8>) -> Seq<char> {
    if valid_utf8(b) {
        decode_utf8(b)
    } else {
        replaced_utf8(b)
    }
}

/// The characters of an ASCII byte string, one per byte.
pub open spec fn ascii_chars(b: Seq<u8>) -> Seq<char> {
    b.map_values(|x: u8| x as char)
}

/// Every byte of `b` is ASCII.
pub open spec fn all_ascii(b: Seq<u8>) -> bool {
    forall|i: int| 0 <= i < b.len() ==> b[i] < 128u8
}

pub proof fn lemma_first_at_unique(s: Seq<u8>, x: u8, k: int)
    requires
        first_at(s, x, k),
    ensures
        index_of(s, x) == k,
{
    let c = choose|k2: int| first_at(s, x, k2);
    assert(first_at(s, x, c));
    if c < k {
        assert(s[c] != x);
    } else if c > k {
        assert(s[k] != x);
    }
}

pub proof fn lemma_trim_end_step(s: Seq<u8>, k: int)
    requires
        0 <= k <= s.len(),
        trail_space(s.take(k)) > 0,
    ensures
        trim_end(s.take(k)) == trim_end(s.take(k - trail_space(s.take(k)))),
{
    assert(s.take(k).take(k - trail_space(s.take(k))) =~= s.take(k - trail_space(s.take(k))));
}

pub proof fn lemma_trim_start_step(s: Seq<u8>, k: int)
    requires
        0 <= k <= s.len(),
        lead_space(s.skip(k)) > 0,
    ensures
        trim_start(s.skip(k)) == trim_start(s.skip(k + lead_space(s.skip(k)))),
{
    assert(s.skip(k).skip(lead_space(s.skip(k))) =~= s.skip(k + lead_space(s.skip(k))));
}

/// An ASCII byte string decodes to its own bytes.
pub proof fn lemma_ascii_decode(b: Seq<u8>)
    requires
        all_ascii(b),
    ensures
        valid_utf8(b),
        decode_utf8(b) == ascii_chars(b),
        encode_utf8(ascii_chars(b)) == b,
{
    let chars = ascii_chars(b);
    assert(is_ascii_chars(chars));
    vstd::utf8::is_ascii_chars_encode_utf8(chars);
    assert(encode_utf8(chars) =~= b);
    vstd::utf8::encode_utf8_valid_utf8(chars);
    vstd::utf8::encode_utf8_decode_utf8(chars);
}

/// Encoding a concatenation encodes the parts one after the other.
pub proof fn lemma_encode_concat(a: Seq<char>, b: Seq<char>)
    ensures
        encode_utf8(a + b) == encode_utf8(a) + encode_utf8(b),
    decreases a.len(),
{
    if a.len() == 0 {
        assert(a + b =~= b);
        assert(Seq::<u8>::empty() + encode_utf8(b) =~= encode_utf8(b));
    } else {
        lemma_encode_concat(a.drop_first(), b);
        assert((a + b).drop_first() =~= a.drop_first() + b);
        assert((a + b)[0] == a[0]);
        let x = vstd::utf8::encode_scalar(a[0] as u32);
        assert(x + (encode_utf8(a.drop_first()) + encode_utf8(b)) =~= (x + encode_utf8(
            a.drop_first(),
        )) + encode_utf8(b));
    }
}

/// Appends the UTF-8 bytes of `s` to `out`.
pub fn push_text(out: &mut Vec<u8>, s: &str)
    ensures
        final(out)@ == old(out)@ + encode_utf8(s@),
{
    let b = s.as_bytes();
    extend_range(out, b, 0, b.len());
    assert(b@.subrange(0, b@.len() as int) =~= b@);
}

/// The text whose UTF-8 encoding `b` is.
pub fn utf8_text(b: &[u8], Ghost(chars): Ghost<Seq<char>>) -> (s: String)
    requires
        b@ == encode_utf8(chars),
    ensures
        s@ == chars,
{
    proof {
        vstd::utf8::encode_utf8_valid_utf8(chars);
        vstd::utf8::encode_utf8_decode_utf8(chars);
    }
    decode_lossy(b)
}

/// Decodes `b` as UTF-8 with `String::from_utf8_lossy`, replacing invalid sequences with
/// U+FFFD.
///
/// Trusted: valid UTF-8 decodes to its characters (as `std` documents); for invalid input
/// the result is named, not restated, and depends on `b` alone.
#[verifier::external_body]
pub(crate) fn decode_lossy(b: &[u8]) -> (s: String)
    ensures
        valid_utf8(b@) ==> s@ == decode_utf8(b@),
        !valid_utf8(b@) ==> s@ == replaced_utf8(b@),
{
    String::from_utf8_lossy(b).into_owned()
}

/// The text of `b[lo..hi]`, decoded.
pub fn text_of_range(b: &[u8], lo: usize, hi: usize) -> (s: String)
    requires
        lo <= hi <= b@.len(),
    ensures
        s@ == lossy_utf8(b@.subrange(lo as int, hi as int)),
        valid_utf8(b@.subrange(lo as int, hi as int)) ==> s@ == decode_utf8(
            b@.subrange(lo as int, hi as int),
        ),
{
    let v = copy_range(b, lo, hi);
    let s = decode_lossy(v.as_slice());
    proof {
        reveal(lossy_utf8);
    }
    s
}

/// The text of an ASCII byte string.
pub fn ascii_text(b: &[u8]) -> (s: String)
    requires
        all_ascii(b@),
    ensures
        s@ == ascii_chars(b@),
{
    let s = decode_lossy(b);
    proof {
        lemma_ascii_decode(b@);
    }
    s
}

/// A copy of `b[lo..hi]`.
pub fn copy_range(b: &[u8], lo: usize, hi: usize) -> (v: Vec<u8>)
    requires
        lo <= hi <= b@.len(),
    ensures
        v@ == b@.subrange(lo as int, hi as int),
{
    let mut v: Vec<u8> = Vec::new();
    let mut i: usize = lo;
    while i < hi
        invariant
            lo <= i <= hi <= b@.len(),
            v@ == b@.subrange(lo as int, i as int),
        decreases hi - i,
    {
        v.push(b[i]);
        i = i + 1;
    }
    v
}

/// Appends `b[lo..hi]` to `out`.
pub fn extend_range(out: &mut Vec<u8>, b: &[u8], lo: usize, hi: usize)
    requires
        lo <= hi <= b@.len(),
    ensures
        final(out)@ == old(out)@ + b@.subrange(lo as int, hi as int),
{
    let mut i: usize = lo;
    while i < hi
        invariant
            lo <= i <= hi <= b@.len(),
            out@ == old(out)@ + b@.subrange(lo as int, i as int),
        decreases hi - i,
    {
        out.push(b[i]);
        i = i + 1;
    }
}

/// Whether `b` is an ASCII whitespace byte.
pub fn is_space_byte(b: u8) -> (r: bool)
    ensures
        r == is_space(b),
{
    b == 32u8 || (9u8 <= b && b <= 13u8)
}

fn is_space2_bytes(a: u8, b: u8) -> (r: bool)
    ensures
        r == is_space2(a, b),
{
    a == 0xC2u8 && (b == 0x85u8 || b == 0xA0u8)
}

fn is_space3_bytes(a: u8, b: u8, c: u8) -> (r: bool)
    ensures
        r == is_space3(a, b, c),
{
    (a == 0xE1u8 && b == 0x9Au8 && c == 0x80u8) || (a == 0xE2u8 && b == 0x80u8 && ((0x80u8
        <= c && c <= 0x8Au8) || c == 0xA8u8 || c == 0xA9u8 || c == 0xAFu8)) || (a == 0xE2u8
        && b == 0x81u8 && c == 0x9Fu8) || (a == 0xE3u8 && b == 0x80u8 && c == 0x80u8)
}

/// How many bytes the whitespace character that `b[k..hi]` starts with takes.
fn lead_space_at(b: &[u8], k: usize, hi: usize) -> (t: usize)
    requires
        k <= hi <= b@.len(),
    ensures
        t as int == lead_space(b@.subrange(k as int, hi as int)),
        t <= hi - k,
{
    let ghost s = b@.subrange(k as int, hi as int);
    let n = hi - k;
    if n >= 1 && is_space_byte(b[k]) {
        1
    } else if n >= 2 && is_space2_bytes(b[k], b[k + 1]) {
        2
    } else if n >= 3 && is_space3_bytes(b[k], b[k + 1], b[k + 2]) {
        3
    } else {
        0
    }
}

/// How many bytes the whitespace character that `b[lo..e]` ends with takes.
fn trail_space_at(b: &[u8], lo: usize, e: usize) -> (t: usize)
    requires
        lo <= e <= b@.len(),
    ensures
        t as int == trail_space(b@.subrange(lo as int, e as int)),
        t <= e - lo,
{
    let ghost s = b@.subrange(lo as int, e as int);
    let n = e - lo;
    if n >= 1 && is_space_byte(b[e - 1]) {
        1
    } else if n >= 2 && is_space2_bytes(b[e - 2], b[e - 1]) {
        2
    } else if n >= 3 && is_space3_bytes(b[e - 3], b[e - 2], b[e - 1]) {
        3
    } else {
        0
    }
}

/// The end of `b[lo..hi]` once trailing whitespace is dropped.
pub fn trim_end_from(b: &[u8], lo: usize, hi: usize) -> (e: usize)
    requires
        lo <= hi <= b@.len(),
    ensures
        lo <= e <= hi,
        b@.subrange(lo as int, e as int) == trim_end(b@.subrange(lo as int, hi as int)),
{
    let ghost s = b@.subrange(lo as int, hi as int);
    let mut e: usize = hi;
    assert(s.take(hi - lo) =~= s);
    let mut t = trail_space_at(b, lo, e);
    while t > 0
        invariant
            lo <= e <= hi <= b@.len(),
            s == b@.subrange(lo as int, hi as int),
            trim_end(s.take(e - lo)) == trim_end(s),
            t as int == trail_space(b@.subrange(lo as int, e as int)),
            t <= e - lo,
        decreases e - lo,
    {
        proof {
            assert(s.take(e - lo) =~= b@.subrange(lo as int, e as int));
            lemma_trim_end_step(s, e - lo);
        }
        e = e - t;
        t = trail_space_at(b, lo, e);
    }
    assert(s.take(e - lo) =~= b@.subrange(lo as int, e as int));
    e
}

/// The start of `b[lo..hi]` once leading whitespace is dropped.
pub fn trim_start_from(b: &[u8], lo: usize, hi: usize) -> (s0: usize)
    requires
        lo <= hi <= b@.len(),
    ensures
        lo <= s0 <= hi,
        b@.subrange(s0 as int, hi as int) == trim_start(b@.subrange(lo as int, hi as int)),
{
    let ghost s = b@.subrange(lo as int, hi as int);
    let mut k: usize = lo;
    assert(s.skip(0) =~= s);
    let mut t = lead_space_at(b, k, hi);
    while t > 0
        invariant
            lo <= k <= hi <= b@.len(),
            s == b@.subrange(lo as int, hi as int),
            trim_start(s.skip(k - lo)) == trim_start(s),
            t as int == lead_space(b@.subrange(k as int, hi as int)),
            t <= hi - k,
        decreases hi - k,
    {
        proof {
            assert(s.skip(k - lo) =~= b@.subrange(k as int, hi as int));
            lemma_trim_start_step(s, k - lo);
        }
        k = k + t;
        t = lead_space_at(b, k, hi);
    }
    assert(s.skip(k - lo) =~= b@.subrange(k as int, hi as int));
    k
}

/// The bounds of `b[lo..hi]` with whitespace dropped at both ends.
pub fn trim_range(b: &[u8], lo: usize, hi: usize) -> (r: (usize, usize))
    requires
        lo <= hi <= b@.len(),
    ensures
        lo <= r.0 <= r.1 <= hi,
        b@.subrange(r.0 as int, r.1 as int) == trim(b@.subrange(lo as int, hi as int)),
{
    let s0 = trim_start_from(b, lo, hi);
    let e = trim_end_from(b, s0, hi);
    (s0, e)
}

/// The position of the first `x` in `b[lo..hi]` (relative to `lo`), or `hi - lo`.
pub fn find_byte(b: &[u8], lo: usize, hi: usize, x: u8) -> (k: usize)
    requires
        lo <= hi <= b@.len(),
    ensures
        k as int == index_of(b@.subrange(lo as int, hi as int), x),
        k <= hi - lo,
{
    let ghost s = b@.subrange(lo as int, hi as int);
    let mut k: usize = 0;
    while k < hi - lo && b[lo + k] != x
        invariant
            lo <= hi <= b@.len(),
            s == b@.subrange(lo as int, hi as int),
            k <= hi - lo,
            forall|j: int| 0 <= j < k ==> s[j] != x,
        decreases hi - lo - k,
    {
        k = k + 1;
    }
    proof {
        lemma_first_at_unique(s, x, k as int);
    }
    k
}

/// Whether two byte sequences are equal.
pub fn bytes_eq(a: &[u8], b: &[u8]) -> (r: bool)
    ensures
        r == (a@ == b@),
{
    if a.len() != b.len() {
        return false;
    }
    let mut i: usize = 0;
    while i < a.len()
        invariant
            a@.len() == b@.len(),
            i <= a@.len(),
            forall|j: int| 0 <= j < i ==> a@[j] == b@[j],
        decreases a@.len() - i,
    {
        if a[i] != b[i] {
            return false;
        }
        i = i + 1;
    }
    assert(a@ =~= b@);
    true
}

/// Whether two strings hold the same characters.
pub fn text_eq(a: &str, b: &str) -> (r: bool)
    ensures
        r == (a@ == b@),
{
    let r = bytes_eq(a.as_bytes(), b.as_bytes());
    proof {
        vstd::utf8::encode_utf8_decode_utf8(a@);
        vstd::utf8::encode_utf8_decode_utf8(b@);
    }
    r
}

} // verus!

verus! {

/// Anything that can become an owned string: `&str`, `String`, `&String`.
pub trait IntoText: Sized {
    /// The characters this value stands for.
    spec fn text_view(&self) -> Seq<char>;

    /// Converts into a `String`.
    fn into_text(self) -> (s: String)
        ensures
            s@ == self.text_view(),
    ;
}

impl<'a> IntoText for &'a str {
    open spec fn text_view(&self) -> Seq<char> {
        self@
    }

    fn into_text(self) -> (s: String) {
        self.to_owned()
    }
}

impl IntoText for String {
    open spec fn text_view(&self) -> Seq<char> {
        self@
    }

    fn into_text(self) -> (s: String) {
        self
    }
}

impl<'a> IntoText for &'a String {
    open spec fn text_view(&self) -> Seq<char> {
        self@
    }

    fn into_text(self) -> (s: String) {
        self.clone()
    }
}

} // verus!
