//! Unicode whitespace on characters, and the proof that the byte-level trims of
//! [`crate::text`] agree with it: on valid UTF-8, trimming the bytes and then decoding
//! gives what decoding and then trimming the characters gives.

use vstd::prelude::*;
use vstd::utf8::{
    decode_utf8, encode_scalar, encode_utf8, last_continuation_byte, leading_byte_width_1,
    leading_byte_width_2, leading_byte_width_3, leading_byte_width_4, second_last_continuation_byte,
    third_last_continuation_byte, valid_utf8,
};

use crate::text::{
    is_space, is_space2, is_space3, lead_space, lemma_encode_concat, trail_space, trim, trim_end,
    trim_start,
};

verus! {

/// The whitespace code points with a three-byte UTF-8 encoding.
pub open spec fn white3(v: u32) -> bool {
    v == 0x1680 || (0x2000 <= v && v <= 0x200A) || v == 0x2028 || v == 0x2029 || v == 0x202F
        || v == 0x205F || v == 0x3000
}

/// Unicode White_Space, the characters that `char::is_whitespace` accepts: U+0009 to
/// U+000D, U+0020, U+0085, U+00A0, U+1680, U+2000 to U+200A, U+2028, U+2029, U+202F,
/// U+205F and U+3000.
pub open spec fn is_white(c: char) -> bool {
    let v = c as u32;
    (9 <= v && v <= 13) || v == 32 || v == 0x85 || v == 0xA0 || white3(v)
}

proof fn lemma_bits_1(v: u32)
    requires
        v <= 0x7F,
    ensures
        leading_byte_width_1(v) == v,
{
    assert((v & 0x7F) == v) by (bit_vector)
        requires
            v <= 0x7F,
    ;
}

proof fn lemma_bits_2(v: u32)
    requires
        0x80 <= v <= 0x7FF,
    ensures
        0xC0u8 <= leading_byte_width_2(v) <= 0xDFu8,
        0x80u8 <= last_continuation_byte(v) <= 0xBFu8,
        is_space2(leading_byte_width_2(v), last_continuation_byte(v)) <==> (v == 0x85 || v == 0xA0),
{
    assert(0xC0u8 <= (0xC0u8 | ((v >> 6u32) & 0x1Fu32) as u8) <= 0xDFu8) by (bit_vector)
        requires
            0x80u32 <= v <= 0x7FFu32,
    ;
    assert(0x80u8 <= (0x80u8 | (v & 0x3Fu32) as u8) <= 0xBFu8) by (bit_vector);
    assert(((0xC0u8 | ((v >> 6u32) & 0x1Fu32) as u8) == 0xC2u8 && ((0x80u8 | (v & 0x3Fu32) as u8)
        == 0x85u8 || (0x80u8 | (v & 0x3Fu32) as u8) == 0xA0u8)) <==> (v == 0x85u32 || v
        == 0xA0u32)) by (bit_vector)
        requires
            0x80u32 <= v <= 0x7FFu32,
    ;
}

proof fn lemma_bits_3(v: u32)
    requires
        0x800 <= v <= 0xFFFF,
    ensures
        0xE0u8 <= leading_byte_width_3(v) <= 0xEFu8,
        0x80u8 <= second_last_continuation_byte(v) <= 0xBFu8,
        0x80u8 <= last_continuation_byte(v) <= 0xBFu8,
        is_space3(
            leading_byte_width_3(v),
            second_last_continuation_byte(v),
            last_continuation_byte(v),
        ) <==> white3(v),
{
    assert(0xE0u8 <= (0xE0u8 | ((v >> 12u32) & 0x0Fu32) as u8) <= 0xEFu8) by (bit_vector);
    assert(0x80u8 <= (0x80u8 | ((v >> 6u32) & 0x3Fu32) as u8) <= 0xBFu8) by (bit_vector);
    assert(0x80u8 <= (0x80u8 | (v & 0x3Fu32) as u8) <= 0xBFu8) by (bit_vector);
    let a = leading_byte_width_3(v);
    let b = second_last_continuation_byte(v);
    let c = last_continuation_byte(v);
    assert((a == 0xE1u8 && b == 0x9Au8 && c == 0x80u8) <==> v == 0x1680u32) by (bit_vector)
        requires
            0x800u32 <= v <= 0xFFFFu32,
            a == (0xE0u8 | ((v >> 12u32) & 0x0Fu32) as u8),
            b == (0x80u8 | ((v >> 6u32) & 0x3Fu32) as u8),
            c == (0x80u8 | (v & 0x3Fu32) as u8),
    ;
    assert((a == 0xE2u8 && b == 0x80u8 && ((0x80u8 <= c && c <= 0x8Au8) || c == 0xA8u8 || c
        == 0xA9u8 || c == 0xAFu8)) <==> ((0x2000u32 <= v && v <= 0x200Au32) || v == 0x2028u32
        || v == 0x2029u32 || v == 0x202Fu32)) by (bit_vector)
        requires
            0x800u32 <= v <= 0xFFFFu32,
            a == (0xE0u8 | ((v >> 12u32) & 0x0Fu32) as u8),
            b == (0x80u8 | ((v >> 6u32) & 0x3Fu32) as u8),
            c == (0x80u8 | (v & 0x3Fu32) as u8),
    ;
    assert((a == 0xE2u8 && b == 0x81u8 && c == 0x9Fu8) <==> v == 0x205Fu32) by (bit_vector)
        requires
            0x800u32 <= v <= 0xFFFFu32,
            a == (0xE0u8 | ((v >> 12u32) & 0x0Fu32) as u8),
            b == (0x80u8 | ((v >> 6u32) & 0x3Fu32) as u8),
            c == (0x80u8 | (v & 0x3Fu32) as u8),
    ;
    assert((a == 0xE3u8 && b == 0x80u8 && c == 0x80u8) <==> v == 0x3000u32) by (bit_vector)
        requires
            0x800u32 <= v <= 0xFFFFu32,
            a == (0xE0u8 | ((v >> 12u32) & 0x0Fu32) as u8),
            b == (0x80u8 | ((v >> 6u32) & 0x3Fu32) as u8),
            c == (0x80u8 | (v & 0x3Fu32) as u8),
    ;
}

proof fn lemma_bits_4(v: u32)
    requires
        0x10000 <= v <= 0x10FFFF,
    ensures
        0xF0u8 <= leading_byte_width_4(v),
        0x80u8 <= third_last_continuation_byte(v) <= 0xBFu8,
        0x80u8 <= second_last_continuation_byte(v) <= 0xBFu8,
        0x80u8 <= last_continuation_byte(v) <= 0xBFu8,
{
    assert(0xF0u8 <= (0xF0u8 | ((v >> 18u32) & 0x7u32) as u8)) by (bit_vector);
    assert(0x80u8 <= (0x80u8 | ((v >> 12u32) & 0x3Fu32) as u8) <= 0xBFu8) by (bit_vector);
    assert(0x80u8 <= (0x80u8 | ((v >> 6u32) & 0x3Fu32) as u8) <= 0xBFu8) by (bit_vector);
    assert(0x80u8 <= (0x80u8 | (v & 0x3Fu32) as u8) <= 0xBFu8) by (bit_vector);
}

/// `s` without its trailing whitespace characters.
pub open spec fn trim_end_chars(s: Seq<char>) -> Seq<char>
    decreases s.len(),
{
    if s.len() > 0 && is_white(s.last()) {
        trim_end_chars(s.drop_last())
    } else {
        s
    }
}

/// `s` without its leading whitespace characters.
pub open spec fn trim_start_chars(s: Seq<char>) -> Seq<char>
    decreases s.len(),
{
    if s.len() > 0 && is_white(s[0]) {
        trim_start_chars(s.drop_first())
    } else {
        s
    }
}

/// `s` without leading or trailing whitespace characters.
pub open spec fn trim_chars(s: Seq<char>) -> Seq<char> {
    trim_end_chars(trim_start_chars(s))
}

/// A character's encoding ends a byte string with whitespace exactly when the character
/// is whitespace, and then the whole encoding is that whitespace.
pub proof fn lemma_trail_encoding(x: Seq<u8>, c: char)
    ensures
        trail_space(x + encode_scalar(c as u32)) == if is_white(c) {
            encode_scalar(c as u32).len() as int
        } else {
            0
        },
{
    let v = c as u32;
    vstd::utf8::char_is_scalar(c);
    let e = encode_scalar(v);
    let s = x + e;
    let n = s.len() as int;
    if v <= 0x7F {
        lemma_bits_1(v);
        assert(s[n - 1] == e[0]);
    } else if v <= 0x7FF {
        lemma_bits_2(v);
        assert(s[n - 1] == e[1] && s[n - 2] == e[0]);
    } else if v <= 0xFFFF {
        lemma_bits_3(v);
        assert(s[n - 1] == e[2] && s[n - 2] == e[1] && s[n - 3] == e[0]);
    } else {
        lemma_bits_4(v);
        assert(s[n - 1] == e[3] && s[n - 2] == e[2] && s[n - 3] == e[1]);
    }
}

/// A character's encoding starts a byte string with whitespace exactly when the
/// character is whitespace, and then the whole encoding is that whitespace.
pub proof fn lemma_lead_encoding(c: char, y: Seq<u8>)
    ensures
        lead_space(encode_scalar(c as u32) + y) == if is_white(c) {
            encode_scalar(c as u32).len() as int
        } else {
            0
        },
{
    let v = c as u32;
    vstd::utf8::char_is_scalar(c);
    let e = encode_scalar(v);
    let s = e + y;
    if v <= 0x7F {
        lemma_bits_1(v);
        assert(s[0] == e[0]);
    } else if v <= 0x7FF {
        lemma_bits_2(v);
        assert(s[0] == e[0] && s[1] == e[1]);
    } else if v <= 0xFFFF {
        lemma_bits_3(v);
        assert(s[0] == e[0] && s[1] == e[1] && s[2] == e[2]);
    } else {
        lemma_bits_4(v);
        assert(s[0] == e[0]);
    }
}

/// Trimming the encoding of a string trims the string.
pub proof fn lemma_trim_end_encoding(s: Seq<char>)
    ensures
        trim_end(encode_utf8(s)) == encode_utf8(trim_end_chars(s)),
    decreases s.len(),
{
    if s.len() == 0 {
        assert(trail_space(encode_utf8(s)) == 0);
    } else {
        let init = s.drop_last();
        let c = s.last();
        lemma_encode_concat(init, seq![c]);
        assert(init + seq![c] =~= s);
        let one = seq![c];
        assert(one.drop_first() =~= Seq::<char>::empty());
        assert(one[0] == c);
        assert(encode_utf8(one.drop_first()) == Seq::<u8>::empty());
        assert(encode_utf8(one) == encode_scalar(c as u32) + encode_utf8(one.drop_first()));
        assert(encode_utf8(one) =~= encode_scalar(c as u32));
        let ei = encode_utf8(init);
        let es = encode_utf8(s);
        assert(es == ei + encode_scalar(c as u32));
        lemma_trail_encoding(ei, c);
        lemma_trim_end_encoding(init);
        if is_white(c) {
            assert(es.take(es.len() - trail_space(es)) =~= ei);
        }
    }
}

/// Trimming the start of the encoding of a string trims the start of the string.
pub proof fn lemma_trim_start_encoding(s: Seq<char>)
    ensures
        trim_start(encode_utf8(s)) == encode_utf8(trim_start_chars(s)),
    decreases s.len(),
{
    if s.len() == 0 {
        assert(lead_space(encode_utf8(s)) == 0);
    } else {
        let rest = s.drop_first();
        let c = s[0];
        let er = encode_utf8(rest);
        let es = encode_utf8(s);
        assert(es == encode_scalar(c as u32) + er);
        lemma_lead_encoding(c, er);
        lemma_trim_start_encoding(rest);
        if is_white(c) {
            assert(es.skip(lead_space(es)) =~= er);
        }
    }
}

/// Whitespace trimming on bytes is whitespace trimming on characters: for valid UTF-8,
/// trimming the bytes and decoding gives the decoded characters, trimmed of Unicode
/// whitespace (at the end, at the start, or both).
pub proof fn law_trim_is_char_trim(b: Seq<u8>)
    requires
        valid_utf8(b),
    ensures
        decode_utf8(trim_end(b)) == trim_end_chars(decode_utf8(b)),
        decode_utf8(trim_start(b)) == trim_start_chars(decode_utf8(b)),
        decode_utf8(trim(b)) == trim_chars(decode_utf8(b)),
        valid_utf8(trim_end(b)) && valid_utf8(trim_start(b)) && valid_utf8(trim(b)),
{
    let d = decode_utf8(b);
    vstd::utf8::decode_utf8_encode_utf8(b);
    assert(encode_utf8(d) == b);
    lemma_trim_end_encoding(d);
    lemma_trim_start_encoding(d);
    let ts = trim_start_chars(d);
    lemma_trim_end_encoding(ts);
    vstd::utf8::encode_utf8_decode_utf8(trim_end_chars(d));
    vstd::utf8::encode_utf8_decode_utf8(ts);
    vstd::utf8::encode_utf8_decode_utf8(trim_end_chars(ts));
    vstd::utf8::encode_utf8_valid_utf8(trim_end_chars(d));
    vstd::utf8::encode_utf8_valid_utf8(ts);
    vstd::utf8::encode_utf8_valid_utf8(trim_end_chars(ts));
}

/// A card whose keyword field is valid UTF-8 is the `END` card exactly when its keyword
/// field, decoded and trimmed of Unicode whitespace, reads `END`.
pub proof fn law_end_card_by_chars(c: Seq<u8>)
    requires
        c.len() >= 8,
        valid_utf8(c.subrange(0, 8)),
    ensures
        crate::parse::keyword_bytes(c) == crate::parse::end_word() <==> trim_chars(
            decode_utf8(c.subrange(0, 8)),
        ) == seq!['E', 'N', 'D'],
{
    let k = c.subrange(0, 8);
    let end = crate::parse::end_word();
    law_trim_is_char_trim(k);
    crate::text::lemma_ascii_decode(end);
    let chars = crate::text::ascii_chars(end);
    assert(chars =~= seq!['E', 'N', 'D']);
    if trim_chars(decode_utf8(k)) == seq!['E', 'N', 'D'] {
        vstd::utf8::decode_utf8_encode_utf8(trim(k));
        assert(trim(k) == encode_utf8(chars));
    }
}

} // verus!
