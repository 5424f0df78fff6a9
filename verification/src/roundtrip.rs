//! Writing a header and reading it back.
//!
//! Cards that a header writes afresh read back as the records they were written from,
//! for records whose text survives the card format unchanged (printable ASCII without
//! trailing spaces); a string too long for one card comes back from its `CONTINUE` run,
//! and the `LONGSTRN` card announcing the convention comes back as a record of its own.

use vstd::prelude::*;
use vstd::utf8::encode_utf8;

use crate::parse::{
    card_at, card_record, comment_word, continue_word, end_word, extract_comment, history_word,
    keyword_bytes, literal_parts, n_cards, parse_from, parse_spec, quoted, run, string_field,
    value_field,
};
use crate::record::{KindView, RecordView, ValueView};
use crate::text::{
    first_at, is_space, lead_space, lemma_encode_concat, lemma_first_at_unique, lossy_utf8,
    trail_space, trim, trim_end, trim_start,
};
use crate::write::{
    block_pad, cat, comment_part, commentary_spec, emit_spec, escape, escaped_width,
    has_longstrn_spec, header_bytes_spec, joined, kw_field, lemma_cat_one, literal_line,
    pad80_spec, piece_body, piece_card, piece_line, quotes, render_spec, spaces,
    string_cards_spec, string_line, continue_pieces, law_continue_pieces_fit, longstrn_line,
};

verus! {

/// Every character is printable ASCII (space to `~`).
pub open spec fn printable(s: Seq<char>) -> bool {
    forall|i: int| 0 <= i < s.len() ==> ' ' <= #[trigger] s[i] && s[i] <= '~'
}

/// Printable text is encoded one byte per character, none of them whitespace other than
/// the space itself, and reads back unchanged.
pub proof fn lemma_printable_bytes(s: Seq<char>)
    requires
        printable(s),
    ensures
        encode_utf8(s).len() == s.len(),
        forall|i: int|
            0 <= i < s.len() ==> (#[trigger] encode_utf8(s)[i]) == s[i] as u8 && 32u8 <= encode_utf8(s)[i]
                <= 126u8,
        lossy_utf8(encode_utf8(s)) == s,
{
    assert(vstd::utf8::is_ascii_chars(s));
    vstd::utf8::is_ascii_chars_encode_utf8(s);
    vstd::utf8::encode_utf8_valid_utf8(s);
    vstd::utf8::encode_utf8_decode_utf8(s);
    reveal(lossy_utf8);
}

pub proof fn lemma_trim_end_pad(x: Seq<u8>, n: int)
    ensures
        trim_end(x + spaces(n)) == trim_end(x),
    decreases n,
{
    if n > 0 {
        let y = x + spaces(n);
        assert(y.last() == 32u8);
        assert(y.drop_last() =~= x + spaces(n - 1));
        lemma_trim_end_pad(x, n - 1);
    } else {
        assert(x + spaces(n) =~= x);
    }
}

pub proof fn lemma_trim_start_pad(n: int, y: Seq<u8>)
    ensures
        trim_start(spaces(n) + y) == trim_start(y),
    decreases n,
{
    if n > 0 {
        let x = spaces(n) + y;
        assert(x[0] == 32u8);
        assert(x.drop_first() =~= spaces(n - 1) + y);
        lemma_trim_start_pad(n - 1, y);
    } else {
        assert(spaces(n) + y =~= y);
    }
}

/// Text that starts with an ASCII byte other than whitespace keeps its start.
pub proof fn lemma_trim_start_kept(x: Seq<u8>, y: Seq<u8>)
    requires
        x.len() > 0,
        !is_space(x[0]),
        x[0] < 128u8,
    ensures
        trim_start(x + y) == x + y,
{
    assert((x + y)[0] == x[0]);
    assert(lead_space(x + y) == 0);
}

/// Text that ends with an ASCII byte other than whitespace keeps its end.
pub proof fn lemma_trim_end_kept(x: Seq<u8>)
    requires
        x.len() == 0 || (!is_space(x.last()) && x.last() < 128u8),
    ensures
        trim_end(x) == x,
{
    if x.len() > 0 {
        assert(x[x.len() - 1] == x.last());
    }
    assert(trail_space(x) == 0);
}

/// A word with no whitespace at either end, followed by spaces, trims to the word.
pub proof fn lemma_trim_padded_word(x: Seq<u8>, n: int)
    requires
        x.len() > 0,
        !is_space(x[0]),
        !is_space(x.last()),
        x[0] < 128u8,
        x.last() < 128u8,
    ensures
        trim(x + spaces(n)) == x,
{
    lemma_trim_start_kept(x, spaces(n));
    lemma_trim_end_pad(x, n);
}

/// One byte as it is written inside quotes.
pub open spec fn escape1(a: u8) -> Seq<u8> {
    if a == 39u8 {
        seq![39u8, 39u8]
    } else {
        seq![a]
    }
}

pub proof fn lemma_escape_cons(a: u8, x: Seq<u8>)
    ensures
        escape(seq![a] + x) == escape1(a) + escape(x),
    decreases x.len(),
{
    let y = seq![a] + x;
    assert(escape(y) == escape(y.drop_last()) + escape1(y.last()));
    if x.len() == 0 {
        assert(y.drop_last() =~= Seq::<u8>::empty());
        assert(y.last() == a);
        assert(escape(Seq::<u8>::empty()) == Seq::<u8>::empty());
        assert(escape1(a) + Seq::<u8>::empty() =~= escape1(a));
        assert(Seq::<u8>::empty() + escape1(a) =~= escape1(a));
    } else {
        assert(y.drop_last() =~= seq![a] + x.drop_last());
        lemma_escape_cons(a, x.drop_last());
        assert(y.last() == x.last());
        assert(escape1(a) + escape(x.drop_last()) + escape1(x.last()) =~= escape1(a) + (escape(
            x.drop_last(),
        ) + escape1(x.last())));
        assert(escape(x) == escape(x.drop_last()) + escape1(x.last()));
        assert(escape(y) == escape1(a) + escape(x.drop_last()) + escape1(x.last()));
    }
}

pub proof fn lemma_escape_concat(x: Seq<u8>, y: Seq<u8>)
    ensures
        escape(x + y) == escape(x) + escape(y),
    decreases y.len(),
{
    if y.len() == 0 {
        assert(x + y =~= x);
        assert(escape(x) + Seq::<u8>::empty() =~= escape(x));
    } else {
        assert((x + y).drop_last() =~= x + y.drop_last());
        lemma_escape_concat(x, y.drop_last());
        assert(escape(x) + escape(y.drop_last()) + escape1(y.last()) =~= escape(x) + (escape(
            y.drop_last(),
        ) + escape1(y.last())));
        assert(escape(y) == escape(y.drop_last()) + escape1(y.last()));
        assert(escape(x + y) == escape((x + y).drop_last()) + escape1((x + y).last()));
    }
}

pub proof fn lemma_escape_spaces(n: int)
    ensures
        escape(spaces(n)) == spaces(n),
    decreases n,
{
    if n > 0 {
        assert(spaces(n).drop_last() =~= spaces(n - 1));
        lemma_escape_spaces(n - 1);
        assert(spaces(n - 1) + seq![32u8] =~= spaces(n));
        assert(escape(spaces(n)) == escape(spaces(n).drop_last()) + escape1(spaces(n).last()));
    } else {
        assert(spaces(n) =~= Seq::<u8>::empty());
    }
}

/// Quoted content written with its quotes doubled reads back as itself, up to the closing
/// quote.
pub proof fn lemma_quoted_escaped(x: Seq<u8>, tail: Seq<u8>)
    requires
        tail.len() == 0 || tail[0] != 39u8,
    ensures
        quoted(escape(x) + seq![39u8] + tail) == (x, (escape(x).len() + 1) as nat),
    decreases x.len(),
{
    if x.len() == 0 {
        assert(escape(x) =~= Seq::<u8>::empty());
        let r = seq![39u8] + tail;
        assert(escape(x) + seq![39u8] + tail =~= r);
        assert(r[0] == 39u8);
        assert(!(r.len() > 1 && r[1] == 39u8));
    } else {
        let a = x[0];
        let rest = x.drop_first();
        assert(x =~= seq![a] + rest);
        lemma_escape_cons(a, rest);
        lemma_quoted_escaped(rest, tail);
        let r = escape(x) + seq![39u8] + tail;
        let r2 = escape(rest) + seq![39u8] + tail;
        if a == 39u8 {
            assert(r =~= seq![39u8, 39u8] + r2);
            assert(r.skip(2) =~= r2);
            assert(seq![39u8] + rest =~= x);
        } else {
            assert(r =~= seq![a] + r2);
            assert(r.skip(1) =~= r2);
            assert(seq![a] + rest =~= x);
        }
    }
}

/// Spaces hold no comment.
pub proof fn lemma_no_comment_in_spaces(n: int)
    ensures
        extract_comment(spaces(n)) is None,
{
    let s = spaces(n);
    assert(first_at(s, 47u8, s.len() as int));
    lemma_first_at_unique(s, 47u8, s.len() as int);
}

pub proof fn lemma_escape_len(x: Seq<u8>)
    ensures
        escape(x).len() == x.len() + quotes(x),
    decreases x.len(),
{
    if x.len() > 0 {
        lemma_escape_len(x.drop_last());
    }
}

/// A keyword that a value card carries and reads back: printable, one to eight characters,
/// no space at either end, and neither `END` nor `CONTINUE`.
pub open spec fn plain_keyword(k: Seq<char>) -> bool {
    &&& 1 <= k.len() <= 8
    &&& printable(k)
    &&& k[0] != ' '
    &&& k.last() != ' '
    &&& encode_utf8(k) != end_word()
    &&& encode_utf8(k) != continue_word()
}

/// The keyword field of a card holding a plain keyword trims back to the keyword.
pub proof fn lemma_keyword_field(k: Seq<char>)
    requires
        1 <= k.len() <= 8,
        printable(k),
        k[0] != ' ',
        k.last() != ' ',
    ensures
        kw_field(k).len() == 8,
        trim(kw_field(k)) == encode_utf8(k),
        lossy_utf8(encode_utf8(k)) == k,
{
    lemma_printable_bytes(k);
    let e = encode_utf8(k);
    assert(e[0] == k[0] as u8);
    assert(e.last() == k.last() as u8);
    assert(e[e.len() - 1] == k[k.len() - 1] as u8);
    lemma_trim_padded_word(e, 8 - k.len());
}

/// A comment that a card carries and reads back: printable, not empty, and no space at
/// either end.
pub open spec fn plain_comment(c: Option<Seq<char>>) -> bool {
    match c {
        Some(c) => printable(c) && c.len() > 0 && c[0] != ' ' && c.last() != ' ',
        None => true,
    }
}

/// The bytes of an optional text.
pub open spec fn opt_enc(c: Option<Seq<char>>) -> Option<Seq<u8>> {
    match c {
        Some(c) => Some(encode_utf8(c)),
        None => None,
    }
}

/// ` / comment` followed by spaces holds the comment.
pub proof fn lemma_comment_read(c: Option<Seq<char>>, m: int)
    requires
        plain_comment(c),
        m >= 0,
    ensures
        extract_comment(comment_part(c) + spaces(m)) == opt_enc(c),
        crate::parse::opt_lossy(opt_enc(c)) == c,
        c is Some ==> extract_comment(seq![47u8, 32u8] + encode_utf8(c.unwrap()) + spaces(m))
            == opt_enc(c),
{
    match c {
        None => {
            assert(comment_part(c) + spaces(m) =~= spaces(m));
            lemma_no_comment_in_spaces(m);
        },
        Some(t) => {
            lemma_printable_bytes(t);
            let e = encode_utf8(t);
            assert(e[0] == t[0] as u8);
            assert(e.last() == e[e.len() - 1]);
            assert(e[e.len() - 1] == t[t.len() - 1] as u8);
            let x = comment_part(c) + spaces(m);
            assert(x =~= seq![32u8, 47u8, 32u8] + e + spaces(m));
            assert(first_at(x, 47u8, 1));
            lemma_first_at_unique(x, 47u8, 1);
            assert(x.skip(2) =~= spaces(1) + (e + spaces(m)));
            lemma_trim_start_pad(1, e + spaces(m));
            lemma_trim_padded_word(e, m);
            let y = seq![47u8, 32u8] + e + spaces(m);
            assert(first_at(y, 47u8, 0));
            lemma_first_at_unique(y, 47u8, 0);
            assert(y.skip(1) =~= spaces(1) + (e + spaces(m)));
        },
    }
}

/// A string value card written for a plain string reads back as that string and comment.
pub proof fn lemma_string_card(b: Seq<u8>, i: int, k: Seq<char>, s: Seq<char>, cm: Option<Seq<char>>)
    requires
        0 <= i < n_cards(b),
        plain_keyword(k),
        printable(s),
        s.len() == 0 || s.last() != ' ',
        plain_comment(cm),
        string_line(k, s, cm).len() <= 80,
        card_at(b, i) == pad80_spec(string_line(k, s, cm)),
        i + 1 < n_cards(b) ==> keyword_bytes(card_at(b, i + 1)) != continue_word(),
    ensures
        keyword_bytes(card_at(b, i)) == encode_utf8(k),
        card_record(b, i).0.kind == (KindView::Value {
            keyword: k,
            value: ValueView::Str(s),
            comment: cm,
        }),
        card_record(b, i).1 == i + 1,
{
    lemma_keyword_field(k);
    lemma_printable_bytes(s);
    let es = encode_utf8(s);
    let q = quotes(es);
    lemma_escape_len(es);
    let p = 8 - (s.len() + q);
    let line = string_line(k, s, cm);
    let esc = escape(es);
    let cp = comment_part(cm);
    assert(line =~= kw_field(k) + seq![61u8, 32u8, 39u8] + esc + spaces(p) + seq![39u8] + cp);
    let m = 80 - line.len();
    let c = card_at(b, i);
    assert(c =~= line + spaces(m));
    assert(c.subrange(0, 8) =~= kw_field(k));
    let x = es + spaces(p);
    lemma_escape_concat(es, spaces(p));
    lemma_escape_spaces(p);
    let tail = cp + spaces(m);
    let rest = escape(x) + seq![39u8] + tail;
    assert(c.subrange(10, 80) =~= seq![39u8] + rest);
    assert(value_field(c) == c.subrange(10, 80));
    let f = value_field(c);
    assert(f.skip(1) =~= rest);
    if cm is Some {
        assert(tail[0] == 32u8);
    }
    lemma_quoted_escaped(x, tail);
    assert(rest.skip((escape(x).len() + 1) as int) =~= tail);
    lemma_comment_read(cm, m);
    let sf = string_field(f);
    assert(sf.1 == opt_enc(cm));
    if x.len() > 0 && x.last() == 38u8 {
        assert(sf.0.push(38u8) =~= x);
    } else {
        assert(sf.0 == x);
    }
    lemma_trim_end_pad(es, p);
    if s.len() > 0 {
        assert(es.last() == es[es.len() - 1]);
        assert(es[es.len() - 1] == s[s.len() - 1] as u8);
    }
    lemma_trim_end_kept(es);
}

/// A literal value card written for a plain token reads back as that token and comment.
#[verifier::rlimit(40)]
pub proof fn lemma_literal_card(b: Seq<u8>, i: int, k: Seq<char>, t: Seq<char>, cm: Option<Seq<char>>)
    requires
        0 <= i < n_cards(b),
        plain_keyword(k),
        printable(t),
        t.len() == 0 || (t[0] != ' ' && t.last() != ' ' && t[0] != '\''),
        forall|j: int| 0 <= j < t.len() ==> t[j] != '/',
        plain_comment(cm),
        literal_line(k, t, cm).len() <= 80,
        card_at(b, i) == pad80_spec(literal_line(k, t, cm)),
    ensures
        keyword_bytes(card_at(b, i)) == encode_utf8(k),
        card_record(b, i).0.kind == (KindView::Value {
            keyword: k,
            value: ValueView::Literal(t),
            comment: cm,
        }),
        card_record(b, i).1 == i + 1,
{
    lemma_keyword_field(k);
    lemma_printable_bytes(t);
    let et = encode_utf8(t);
    let line = literal_line(k, t, cm);
    let cp = comment_part(cm);
    let tok = if et.len() <= 20 {
        spaces(20 - t.len()) + et
    } else {
        et
    };
    assert(line =~= kw_field(k) + seq![61u8, 32u8] + tok + cp);
    let m = 80 - line.len();
    let c = card_at(b, i);
    assert(c =~= line + spaces(m));
    assert(c.subrange(0, 8) =~= kw_field(k));
    let tail = cp + spaces(m);
    assert(c.subrange(10, 80) =~= tok + tail);
    if et.len() <= 20 {
        assert(tok + tail =~= spaces(20 - t.len()) + (et + tail));
        lemma_trim_start_pad(20 - t.len(), et + tail);
    }
    let f = value_field(c);
    lemma_comment_read(cm, m);
    if t.len() == 0 {
        assert(et =~= Seq::<u8>::empty());
        assert(et + tail =~= tail);
        match cm {
            None => {
                assert(tail =~= spaces(m) + Seq::<u8>::empty());
                lemma_trim_start_pad(m, Seq::<u8>::empty());
                assert(f =~= Seq::<u8>::empty());
                assert(first_at(f, 47u8, 0));
                lemma_first_at_unique(f, 47u8, 0);
                assert(literal_parts(f).0 =~= Seq::<u8>::empty());
            },
            Some(cc) => {
                let ec = encode_utf8(cc);
                assert(tail =~= spaces(1) + (seq![47u8, 32u8] + ec + spaces(m)));
                lemma_trim_start_pad(1, seq![47u8, 32u8] + ec + spaces(m));
                assert(f =~= seq![47u8, 32u8] + ec + spaces(m));
                assert(first_at(f, 47u8, 0));
                lemma_first_at_unique(f, 47u8, 0);
                assert(f.take(0) =~= Seq::<u8>::empty());
                assert(f.skip(0) =~= f);
                assert(trim(Seq::<u8>::empty()) =~= Seq::<u8>::empty());
            },
        }
    } else {
        assert(et[0] == t[0] as u8);
        lemma_trim_start_kept(et, tail);
        assert(f == et + tail);
        assert(f[0] != 39u8);
        assert(et.last() == et[et.len() - 1]);
        assert(et[et.len() - 1] == t[t.len() - 1] as u8);
        match cm {
            None => {
                assert(tail =~= spaces(m));
                assert(first_at(f, 47u8, f.len() as int)) by {
                    assert forall|j: int| 0 <= j < f.len() implies f[j] != 47u8 by {
                        if j < et.len() {
                            assert(f[j] == et[j]);
                            assert(et[j] == t[j] as u8);
                        }
                    }
                }
                lemma_first_at_unique(f, 47u8, f.len() as int);
                lemma_trim_padded_word(et, m);
            },
            Some(cc) => {
                let ec = encode_utf8(cc);
                let n = et.len() as int;
                assert(first_at(f, 47u8, n + 1)) by {
                    assert forall|j: int| 0 <= j < n + 1 implies f[j] != 47u8 by {
                        if j < n {
                            assert(f[j] == et[j]);
                            assert(et[j] == t[j] as u8);
                        }
                    }
                    assert(f[n + 1] == 47u8);
                }
                lemma_first_at_unique(f, 47u8, n + 1);
                assert(f.take(n + 1) =~= et + spaces(1));
                lemma_trim_padded_word(et, 1);
                assert(f.skip(n + 1) =~= seq![47u8, 32u8] + ec + spaces(m));
            },
        }
    }
}

/// A commentary keyword: `COMMENT` or `HISTORY`.
pub open spec fn commentary_keyword(k: Seq<char>) -> bool {
    &&& printable(k)
    &&& (encode_utf8(k) == comment_word() || encode_utf8(k) == history_word())
}

/// A commentary card written for plain text reads back as that text.
pub proof fn lemma_commentary_card(b: Seq<u8>, i: int, k: Seq<char>, t: Seq<char>)
    requires
        0 <= i < n_cards(b),
        commentary_keyword(k),
        printable(t),
        t.len() <= 72,
        t.len() == 0 || (t.last() != ' ' && t[0] != '='),
        card_at(b, i) == cat(commentary_spec(k, t)),
    ensures
        keyword_bytes(card_at(b, i)) == encode_utf8(k),
        card_record(b, i).0.kind == (KindView::Commentary { keyword: k, text: t }),
        card_record(b, i).1 == i + 1,
{
    lemma_printable_bytes(k);
    assert(k.len() == 7);
    let ek = encode_utf8(k);
    assert(ek[0] == 67u8 || ek[0] == 72u8);
    assert(ek[6] == 84u8 || ek[6] == 89u8);
    assert(k[0] != ' ' && k.last() != ' ');
    lemma_keyword_field(k);
    lemma_printable_bytes(t);
    let et = encode_utf8(t);
    let line = kw_field(k) + et;
    if t.len() == 0 {
        assert(commentary_spec(k, t) == seq![pad80_spec(kw_field(k))]);
        assert(line =~= kw_field(k));
    } else {
        assert(t.subrange(0, t.len() as int) =~= t);
        assert(commentary_spec(k, t) =~= seq![pad80_spec(line)]);
    }
    lemma_cat_one(pad80_spec(line));
    let m = 72 - t.len();
    let c = card_at(b, i);
    assert(c =~= kw_field(k) + et + spaces(m));
    assert(c.subrange(0, 8) =~= kw_field(k));
    assert(c.subrange(8, 80) =~= et + spaces(m));
    if t.len() > 0 {
        assert(c[8] == et[0]);
        assert(et[0] == t[0] as u8);
        assert(et.last() == et[et.len() - 1]);
        assert(et[et.len() - 1] == t[t.len() - 1] as u8);
    }
    lemma_trim_end_pad(et, m);
    lemma_trim_end_kept(et);
}

/// A record that a header writes on one card of its own and reads back unchanged: a value
/// card with a plain keyword holding printable text without trailing spaces (a string, or
/// a token without `/` that does not start with a quote) and an optional plain comment,
/// all on one card; or a `COMMENT`/`HISTORY` card with up to 72 printable characters that
/// do not start with `=` or end with a space. It is not byte-backed, so it is written
/// afresh.
pub open spec fn plain_record(r: RecordView) -> bool {
    &&& r.raw is None
    &&& match r.kind {
        KindView::Value { keyword, value: ValueView::Str(s), comment } => {
            &&& plain_keyword(keyword)
            &&& printable(s)
            &&& (s.len() == 0 || s.last() != ' ')
            &&& plain_comment(comment)
            &&& string_line(keyword, s, comment).len() <= 80
        },
        KindView::Value { keyword, value: ValueView::Literal(t), comment } => {
            &&& plain_keyword(keyword)
            &&& printable(t)
            &&& (t.len() == 0 || (t[0] != ' ' && t.last() != ' ' && t[0] != '\''))
            &&& forall|j: int| 0 <= j < t.len() ==> t[j] != '/'
            &&& plain_comment(comment)
            &&& literal_line(keyword, t, comment).len() <= 80
        },
        KindView::Commentary { keyword, text } => {
            &&& commentary_keyword(keyword)
            &&& printable(text)
            &&& text.len() <= 72
            &&& (text.len() == 0 || (text.last() != ' ' && text[0] != '='))
        },
        _ => false,
    }
}

/// The contents of a run of records.
pub open spec fn kinds(recs: Seq<RecordView>) -> Seq<KindView> {
    recs.map_values(|r: RecordView| r.kind)
}

/// A plain record is written as one card of its own, without the long-string convention.
pub proof fn lemma_plain_render(r: RecordView)
    requires
        plain_record(r),
    ensures
        render_spec(r).0.len() == 80,
        !render_spec(r).1,
{
    match r.kind {
        KindView::Value { keyword, value: ValueView::Str(s), comment } => {
            lemma_cat_one(pad80_spec(string_line(keyword, s, comment)));
        },
        KindView::Value { keyword, value: ValueView::Literal(t), comment } => {},
        KindView::Commentary { keyword, text } => {
            lemma_printable_bytes(keyword);
            lemma_printable_bytes(text);
            let line = kw_field(keyword) + encode_utf8(text);
            if text.len() == 0 {
                lemma_cat_one(pad80_spec(kw_field(keyword)));
            } else {
                assert(text.subrange(0, text.len() as int) =~= text);
                assert(commentary_spec(keyword, text) =~= seq![pad80_spec(line)]);
                lemma_cat_one(pad80_spec(line));
            }
        },
        _ => {},
    }
}

/// The card of a plain record reads back as the record, and its keyword is not `END`
/// (nor `CONTINUE`).
pub proof fn lemma_plain_card(b: Seq<u8>, i: int, r: RecordView)
    requires
        plain_record(r),
        0 <= i < n_cards(b),
        card_at(b, i) == render_spec(r).0,
        i + 1 < n_cards(b) ==> keyword_bytes(card_at(b, i + 1)) != continue_word(),
    ensures
        keyword_bytes(card_at(b, i)) != end_word(),
        keyword_bytes(card_at(b, i)) != continue_word(),
        card_record(b, i).0.kind == r.kind,
        card_record(b, i).1 == i + 1,
{
    match r.kind {
        KindView::Value { keyword, value: ValueView::Str(s), comment } => {
            lemma_cat_one(pad80_spec(string_line(keyword, s, comment)));
            lemma_string_card(b, i, keyword, s, comment);
        },
        KindView::Value { keyword, value: ValueView::Literal(t), comment } => {
            lemma_literal_card(b, i, keyword, t, comment);
        },
        KindView::Commentary { keyword, text } => {
            lemma_commentary_card(b, i, keyword, text);
            assert(comment_word()[0] != end_word()[0]);
            assert(history_word()[0] != end_word()[0]);
            assert(comment_word().len() != continue_word().len());
            assert(history_word()[0] != continue_word()[0]);
        },
        _ => {},
    }
}

/// The card of a plain record carries its keyword, which is neither `END` nor `CONTINUE`.
pub proof fn lemma_plain_keyword(c: Seq<u8>, r: RecordView)
    requires
        plain_record(r),
        c == render_spec(r).0,
    ensures
        keyword_bytes(c) != end_word(),
        keyword_bytes(c) != continue_word(),
{
    lemma_plain_render(r);
    match r.kind {
        KindView::Value { keyword, value: ValueView::Str(s), comment } => {
            lemma_keyword_field(keyword);
            lemma_cat_one(pad80_spec(string_line(keyword, s, comment)));
            assert(c.subrange(0, 8) =~= kw_field(keyword));
        },
        KindView::Value { keyword, value: ValueView::Literal(t), comment } => {
            lemma_keyword_field(keyword);
            assert(c.subrange(0, 8) =~= kw_field(keyword));
        },
        KindView::Commentary { keyword, text } => {
            lemma_printable_bytes(keyword);
            let ek = encode_utf8(keyword);
            assert(ek[0] == 67u8 || ek[0] == 72u8);
            assert(ek[6] == 84u8 || ek[6] == 89u8);
            lemma_keyword_field(keyword);
            lemma_printable_bytes(text);
            let line = kw_field(keyword) + encode_utf8(text);
            if text.len() == 0 {
                lemma_cat_one(pad80_spec(kw_field(keyword)));
            } else {
                assert(text.subrange(0, text.len() as int) =~= text);
                assert(commentary_spec(keyword, text) =~= seq![pad80_spec(line)]);
                lemma_cat_one(pad80_spec(line));
            }
            assert(c.subrange(0, 8) =~= kw_field(keyword));
            assert(comment_word()[0] != end_word()[0]);
            assert(history_word()[0] != end_word()[0]);
            assert(comment_word().len() != continue_word().len());
            assert(history_word()[0] != continue_word()[0]);
        },
        _ => {},
    }
}

/// The closing `END` card reads as `END`.
pub proof fn lemma_end_card()
    ensures
        keyword_bytes(pad80_spec(end_word())) == end_word(),
        end_word() != continue_word(),
{
    let c = pad80_spec(end_word());
    assert(c.subrange(0, 8) =~= end_word() + spaces(5));
    lemma_trim_padded_word(end_word(), 5);
    assert(end_word().len() != continue_word().len());
}

/// The escaped width of printable text is the length of its bytes with quotes doubled.
pub proof fn lemma_escaped_width(p: Seq<char>)
    requires
        printable(p),
    ensures
        escape(encode_utf8(p)).len() == escaped_width(p),
    decreases p.len(),
{
    lemma_printable_bytes(p);
    lemma_escape_len(encode_utf8(p));
    if p.len() > 0 {
        let q = p.drop_last();
        assert(printable(q));
        lemma_escaped_width(q);
        lemma_printable_bytes(q);
        lemma_escape_len(encode_utf8(q));
        let e = encode_utf8(p);
        assert(e.drop_last() =~= encode_utf8(q));
        assert(e.last() == e[e.len() - 1]);
        assert(e[e.len() - 1] == p[p.len() - 1] as u8);
        assert(p.last() == p[p.len() - 1]);
        assert(quotes(e) == quotes(e.drop_last()) + if e.last() == 39u8 {
            1nat
        } else {
            0nat
        });
        assert((p.last() == '\'') == (e.last() == 39u8));
    }
}

/// What the value field of a continuation piece reads as: its bytes, and whether it
/// continues (a trailing `&` of the last piece is taken for a continuation marker at
/// first).
pub open spec fn piece_read(p: Seq<char>, last: bool) -> (Seq<u8>, bool) {
    let e = encode_utf8(p);
    if !last {
        (e, true)
    } else if e.len() > 0 && e.last() == 38u8 {
        (e.drop_last(), true)
    } else {
        (e, false)
    }
}

/// The value field of a continuation piece, with the comment its card carries, reads
/// back as the piece and that comment.
pub proof fn lemma_piece_field(p: Seq<char>, last: bool, cc: Option<Seq<char>>, m: int)
    requires
        printable(p),
        plain_comment(cc),
        m >= 0,
    ensures
        string_field(piece_body(p, last) + comment_part(cc) + spaces(m)) == (
            piece_read(p, last).0,
            opt_enc(cc),
            piece_read(p, last).1,
        ),
{
    lemma_printable_bytes(p);
    let e = encode_utf8(p);
    let tail = comment_part(cc) + spaces(m);
    let f = piece_body(p, last) + tail;
    assert(piece_body(p, last) + comment_part(cc) + spaces(m) =~= f);
    lemma_comment_read(cc, m);
    if cc is Some {
        assert(tail[0] == 32u8);
    } else {
        assert(tail =~= spaces(m));
    }
    if last {
        assert(f =~= seq![39u8] + (escape(e) + seq![39u8] + tail));
        assert(f.skip(1) =~= escape(e) + seq![39u8] + tail);
        lemma_quoted_escaped(e, tail);
        assert(f.skip(1).skip((escape(e).len() + 1) as int) =~= tail);
        if e.len() > 0 && e.last() == 38u8 {
        } else {
        }
    } else {
        let x = e + seq![38u8];
        lemma_escape_concat(e, seq![38u8]);
        assert(seq![38u8] =~= seq![38u8].drop_last().push(38u8));
        assert(seq![38u8].drop_last() =~= Seq::<u8>::empty());
        assert(escape(seq![38u8]) == escape(Seq::<u8>::empty()) + escape1(38u8));
        assert(escape(seq![38u8]) =~= seq![38u8]);
        assert(f =~= seq![39u8] + (escape(x) + seq![39u8] + tail));
        assert(f.skip(1) =~= escape(x) + seq![39u8] + tail);
        lemma_quoted_escaped(x, tail);
        assert(f.skip(1).skip((escape(x).len() + 1) as int) =~= tail);
        assert(x.drop_last() =~= e);
    }
}

/// The comment that the `idx`-th card of a long string value carries: the value's
/// comment on the last card when it fits there, none otherwise.
pub open spec fn card_comment(k: Seq<char>, p: Seq<char>, idx: int, last: bool, c: Option<Seq<char>>) -> Option<Seq<char>> {
    if last && c is Some && (piece_line(k, p, idx, last) + comment_part(c)).len() <= 80 {
        c
    } else {
        None
    }
}

/// The comment that a long string value written as a `CONTINUE` run carries on its last
/// card.
pub open spec fn last_comment(k: Seq<char>, s: Seq<char>, c: Option<Seq<char>>) -> Option<Seq<char>> {
    let ps = continue_pieces(s);
    card_comment(k, ps[ps.len() - 1], ps.len() - 1, true, c)
}

/// The card of a continuation piece: 80 bytes, its value field at column 11 followed by
/// the comment it carries, its keyword field the record's keyword on the first card and
/// `CONTINUE` on the others.
pub proof fn lemma_piece_card(k: Seq<char>, p: Seq<char>, idx: int, last: bool, c: Option<Seq<char>>)
    requires
        plain_keyword(k),
        printable(p),
        escaped_width(p) <= 66,
        idx >= 0,
    ensures
        ({
            let cd = piece_card(k, p, idx, last, c);
            let cc = card_comment(k, p, idx, last, c);
            let m = 80 - (piece_line(k, p, idx, last) + comment_part(cc)).len();
            &&& cd.len() == 80
            &&& m >= 0
            &&& cd.subrange(10, 80) == piece_body(p, last) + comment_part(cc) + spaces(m)
            &&& idx == 0 ==> cd.subrange(0, 8) == kw_field(k) && cd[8] == 61u8 && cd[9] == 32u8
            &&& idx > 0 ==> cd.subrange(0, 8) == continue_word()
        }),
{
    lemma_keyword_field(k);
    lemma_escaped_width(p);
    let line = piece_line(k, p, idx, last);
    let body = piece_body(p, last);
    assert(body.len() <= 69);
    let cc = card_comment(k, p, idx, last, c);
    let full = line + comment_part(cc);
    if cc is None {
        assert(full =~= line);
    }
    let cd = piece_card(k, p, idx, last, c);
    assert(cd == pad80_spec(full));
    let m = 80 - full.len();
    assert(cd =~= full + spaces(m));
    if idx == 0 {
        assert(line =~= kw_field(k) + seq![61u8, 32u8] + body);
    } else {
        assert(line =~= continue_word() + seq![32u8, 32u8] + body);
    }
    assert(cd.subrange(10, 80) =~= body + comment_part(cc) + spaces(m));
}

pub proof fn lemma_joined_cons(a: Seq<char>, rest: Seq<Seq<char>>)
    ensures
        joined(seq![a] + rest) == a + joined(rest),
    decreases rest.len(),
{
    let all = seq![a] + rest;
    assert(joined(all) == joined(all.drop_last()) + all.last());
    if rest.len() == 0 {
        assert(all.drop_last() =~= Seq::<Seq<char>>::empty());
        assert(all.last() == a);
        assert(joined(Seq::<Seq<char>>::empty()) == Seq::<char>::empty());
        assert(joined(rest) == Seq::<char>::empty());
        assert(Seq::<char>::empty() + a =~= a);
        assert(a + Seq::<char>::empty() =~= a);
    } else {
        assert(all.drop_last() =~= seq![a] + rest.drop_last());
        assert(all.last() == rest.last());
        assert(joined(rest) == joined(rest.drop_last()) + rest.last());
        lemma_joined_cons(a, rest.drop_last());
        assert(a + joined(rest.drop_last()) + rest.last() =~= a + (joined(rest.drop_last())
            + rest.last()));
    }
}

/// The pieces of printable text are printable.
pub proof fn lemma_pieces_printable(ps: Seq<Seq<char>>)
    requires
        printable(joined(ps)),
    ensures
        forall|t: int| 0 <= t < ps.len() ==> printable(#[trigger] ps[t]),
    decreases ps.len(),
{
    if ps.len() > 0 {
        let j = joined(ps);
        assert(j == joined(ps.drop_last()) + ps.last());
        assert(printable(joined(ps.drop_last()))) by {
            assert forall|x: int| 0 <= x < joined(ps.drop_last()).len() implies ' ' <= #[trigger] joined(
                ps.drop_last(),
            )[x] && joined(ps.drop_last())[x] <= '~' by {
                assert(joined(ps.drop_last())[x] == j[x]);
            }
        }
        lemma_pieces_printable(ps.drop_last());
        assert forall|t: int| 0 <= t < ps.len() implies printable(#[trigger] ps[t]) by {
            if t < ps.len() - 1 {
                assert(ps[t] == ps.drop_last()[t]);
            } else {
                let off = joined(ps.drop_last()).len();
                assert forall|x: int| 0 <= x < ps[t].len() implies ' ' <= #[trigger] ps[t][x]
                    && ps[t][x] <= '~' by {
                    assert(ps[t][x] == j[off + x]);
                }
            }
        }
    }
}

/// The continuation cards from piece `j` on read back as the rest of the pieces, with the
/// comment the last card carries.
proof fn lemma_run_pieces(
    b: Seq<u8>,
    i: int,
    k: Seq<char>,
    ps: Seq<Seq<char>>,
    j: int,
    acc: Seq<u8>,
    c: Option<Seq<char>>,
)
    requires
        plain_keyword(k),
        plain_comment(c),
        1 <= j < ps.len(),
        0 <= i,
        i + ps.len() <= n_cards(b),
        forall|t: int| 0 <= t < ps.len() ==> printable(#[trigger] ps[t]) && escaped_width(ps[t]) <= 66,
        forall|t: int|
            #![trigger ps[t]]
            0 <= t < ps.len() ==> card_at(b, i + t) == piece_card(k, ps[t], t, t == ps.len() - 1, c),
        i + ps.len() < n_cards(b) ==> keyword_bytes(card_at(b, i + ps.len())) != continue_word(),
    ensures
        run(b, i + j, acc, None, true) == (
            acc + encode_utf8(joined(ps.subrange(j, ps.len() as int))),
            opt_enc(card_comment(k, ps[ps.len() - 1], ps.len() - 1, true, c)),
            i + ps.len(),
        ),
    decreases ps.len() - j,
{
    let n = ps.len() as int;
    let last = j == n - 1;
    let p = ps[j];
    let cd = card_at(b, i + j);
    assert(cd == piece_card(k, p, j, last, c));
    lemma_piece_card(k, p, j, last, c);
    let cc = card_comment(k, p, j, last, c);
    let m = 80 - (piece_line(k, p, j, last) + comment_part(cc)).len();
    assert(continue_word() + spaces(0) =~= continue_word());
    lemma_trim_padded_word(continue_word(), 0);
    assert(keyword_bytes(cd) == continue_word());
    let body = piece_body(p, last);
    assert(body[0] == 39u8);
    let vf = body + comment_part(cc) + spaces(m);
    assert(vf[0] == 39u8);
    assert(value_field(cd) == vf);
    assert(plain_comment(cc));
    lemma_piece_field(p, last, cc, m);
    lemma_printable_bytes(p);
    let e = encode_utf8(p);
    let pr = piece_read(p, last);
    let f = string_field(value_field(card_at(b, i + j)));
    assert(f == (pr.0, opt_enc(cc), pr.1));
    let nc = if f.1 is Some {
        f.1
    } else {
        None
    };
    assert(nc == opt_enc(cc));
    assert(run(b, i + j, acc, None, true) == run(b, i + j + 1, acc + pr.0, opt_enc(cc), pr.1));
    let rest = ps.subrange(j + 1, n);
    assert(ps.subrange(j, n) =~= seq![p] + rest);
    lemma_joined_cons(p, rest);
    lemma_encode_concat(p, joined(rest));
    if last {
        assert(rest =~= Seq::<Seq<char>>::empty());
        assert(joined(rest) =~= Seq::<char>::empty());
        assert(encode_utf8(joined(rest)) =~= Seq::<u8>::empty());
        assert(i + j + 1 == i + n);
        assert(run(b, i + n, acc + pr.0, opt_enc(cc), pr.1) == (
            if pr.1 {
                (acc + pr.0).push(38u8)
            } else {
                acc + pr.0
            },
            opt_enc(cc),
            i + n,
        ));
        if pr.1 {
            assert((acc + pr.0).push(38u8) =~= acc + e);
        }
        assert(acc + e + Seq::<u8>::empty() =~= acc + e);
    } else {
        assert(cc is None);
        lemma_run_pieces(b, i, k, ps, j + 1, acc + e, c);
        assert(acc + e + encode_utf8(joined(rest)) =~= acc + (e + encode_utf8(joined(rest))));
    }
}

/// A long string value written as a `CONTINUE` run reads back as that string, with the
/// comment its last card carries.
pub proof fn lemma_long_string_card(b: Seq<u8>, i: int, k: Seq<char>, s: Seq<char>, c: Option<Seq<char>>)
    requires
        plain_keyword(k),
        printable(s),
        s.len() == 0 || s.last() != ' ',
        plain_comment(c),
        0 <= i,
        i + continue_pieces(s).len() <= n_cards(b),
        forall|t: int|
            #![trigger continue_pieces(s)[t]]
            0 <= t < continue_pieces(s).len() ==> card_at(b, i + t) == piece_card(
                k,
                continue_pieces(s)[t],
                t,
                t == continue_pieces(s).len() - 1,
                c,
            ),
        i + continue_pieces(s).len() < n_cards(b) ==> keyword_bytes(
            card_at(b, i + continue_pieces(s).len()),
        ) != continue_word(),
    ensures
        keyword_bytes(card_at(b, i)) == encode_utf8(k),
        card_record(b, i).0.kind == (KindView::Value {
            keyword: k,
            value: ValueView::Str(s),
            comment: last_comment(k, s, c),
        }),
        card_record(b, i).1 == i + continue_pieces(s).len(),
{
    let ps = continue_pieces(s);
    let n = ps.len() as int;
    law_continue_pieces_fit(s);
    lemma_pieces_printable(ps);
    let p0 = ps[0];
    let last0 = n == 1;
    let cd = card_at(b, i);
    assert(cd == piece_card(k, p0, 0, last0, c));
    lemma_piece_card(k, p0, 0, last0, c);
    lemma_keyword_field(k);
    let cc0 = card_comment(k, p0, 0, last0, c);
    let m = 80 - (piece_line(k, p0, 0, last0) + comment_part(cc0)).len();
    let body = piece_body(p0, last0);
    assert(body[0] == 39u8);
    let vf = body + comment_part(cc0) + spaces(m);
    assert(vf[0] == 39u8);
    assert(value_field(cd) == vf);
    assert(plain_comment(cc0));
    lemma_piece_field(p0, last0, cc0, m);
    lemma_printable_bytes(p0);
    lemma_printable_bytes(s);
    let e0 = encode_utf8(p0);
    let pr = piece_read(p0, last0);
    let f = string_field(value_field(cd));
    assert(f == (pr.0, opt_enc(cc0), pr.1));
    let lc = last_comment(k, s, c);
    let rest = ps.subrange(1, n);
    assert(ps =~= seq![p0] + rest);
    lemma_joined_cons(p0, rest);
    lemma_encode_concat(p0, joined(rest));
    if last0 {
        assert(cc0 == lc);
        assert(rest =~= Seq::<Seq<char>>::empty());
        assert(joined(rest) =~= Seq::<char>::empty());
        assert(p0 + Seq::<char>::empty() =~= p0);
        assert(run(b, i + 1, pr.0, opt_enc(cc0), pr.1) == (
            if pr.1 {
                pr.0.push(38u8)
            } else {
                pr.0
            },
            opt_enc(cc0),
            i + 1,
        ));
        if pr.1 {
            assert(pr.0.push(38u8) =~= e0);
        }
    } else {
        assert(cc0 is None);
        lemma_run_pieces(b, i, k, ps, 1, e0, c);
    }
    assert(plain_comment(lc));
    lemma_comment_read(lc, 0);
    let es = encode_utf8(s);
    if s.len() > 0 {
        assert(es.last() == es[es.len() - 1]);
        assert(es[es.len() - 1] == s[s.len() - 1] as u8);
    }
    lemma_trim_end_kept(es);
}

/// What the card announcing the long-string convention reads back as.
pub open spec fn longstrn_kind() -> KindView {
    KindView::Value {
        keyword: "LONGSTRN"@,
        value: ValueView::Str("OGIP 1.0"@),
        comment: Some("The OGIP long string convention may be used."@),
    }
}

pub proof fn lemma_escape_no_quotes(x: Seq<u8>)
    requires
        forall|j: int| 0 <= j < x.len() ==> x[j] != 39u8,
    ensures
        escape(x) == x,
        quotes(x) == 0,
    decreases x.len(),
{
    if x.len() > 0 {
        lemma_escape_no_quotes(x.drop_last());
        assert(x.drop_last().push(x.last()) =~= x);
        assert(escape(x) == escape(x.drop_last()) + escape1(x.last()));
    }
}

/// The line announcing the long-string convention is a string value line: keyword
/// `LONGSTRN`, value `OGIP 1.0`, and a comment.
pub proof fn lemma_longstrn_line()
    ensures
        ({
            let k = "LONGSTRN"@;
            let v = "OGIP 1.0"@;
            let c = "The OGIP long string convention may be used."@;
            &&& encode_utf8(longstrn_line()) == string_line(k, v, Some(c))
            &&& plain_keyword(k)
            &&& printable(v)
            &&& v.last() != ' '
            &&& plain_comment(Some(c))
            &&& string_line(k, v, Some(c)).len() <= 80
        }),
{
    reveal_strlit("LONGSTRN");
    reveal_strlit("OGIP 1.0");
    reveal_strlit("The OGIP long string convention may be used.");
    reveal_strlit("LONGSTRN= 'OGIP 1.0' / The OGIP long string convention may be used.");
    let k = "LONGSTRN"@;
    let v = "OGIP 1.0"@;
    let c = "The OGIP long string convention may be used."@;
    let l = longstrn_line();
    let mid1 = seq!['=', ' ', '\''];
    let mid2 = seq!['\''];
    let mid3 = seq![' ', '/', ' '];
    assert(l =~= k + mid1 + v + mid2 + mid3 + c);
    lemma_printable_bytes(k);
    lemma_printable_bytes(v);
    lemma_printable_bytes(c);
    lemma_printable_bytes(mid1);
    lemma_printable_bytes(mid2);
    lemma_printable_bytes(mid3);
    lemma_encode_concat(k, mid1);
    lemma_encode_concat(k + mid1, v);
    lemma_encode_concat(k + mid1 + v, mid2);
    lemma_encode_concat(k + mid1 + v + mid2, mid3);
    lemma_encode_concat(k + mid1 + v + mid2 + mid3, c);
    assert(encode_utf8(mid1) =~= seq![61u8, 32u8, 39u8]);
    assert(encode_utf8(mid2) =~= seq![39u8]);
    assert(encode_utf8(mid3) =~= seq![32u8, 47u8, 32u8]);
    let ev = encode_utf8(v);
    lemma_escape_no_quotes(ev);
    assert(encode_utf8(k) != end_word()) by {
        assert(encode_utf8(k).len() != end_word().len());
    }
    assert(encode_utf8(k) != continue_word()) by {
        assert(encode_utf8(k)[0] != continue_word()[0]);
    }
    assert(kw_field(k) =~= encode_utf8(k));
    assert(string_line(k, v, Some(c)) =~= encode_utf8(l));
}

/// The card announcing the long-string convention carries the keyword `LONGSTRN`.
pub proof fn lemma_longstrn_keyword()
    ensures
        keyword_bytes(pad80_spec(encode_utf8(longstrn_line()))) == encode_utf8("LONGSTRN"@),
        encode_utf8("LONGSTRN"@) != end_word(),
        encode_utf8("LONGSTRN"@) != continue_word(),
        pad80_spec(encode_utf8(longstrn_line())).len() == 80,
{
    lemma_longstrn_line();
    let k = "LONGSTRN"@;
    lemma_keyword_field(k);
    let c = pad80_spec(encode_utf8(longstrn_line()));
    assert(c.subrange(0, 8) =~= kw_field(k));
}

/// The card announcing the long-string convention reads back as [`longstrn_kind`].
pub proof fn lemma_longstrn_card(b: Seq<u8>, i: int)
    requires
        0 <= i < n_cards(b),
        card_at(b, i) == pad80_spec(encode_utf8(longstrn_line())),
        i + 1 < n_cards(b) ==> keyword_bytes(card_at(b, i + 1)) != continue_word(),
    ensures
        card_record(b, i).0.kind == longstrn_kind(),
        card_record(b, i).1 == i + 1,
{
    lemma_longstrn_line();
    lemma_string_card(
        b,
        i,
        "LONGSTRN"@,
        "OGIP 1.0"@,
        Some("The OGIP long string convention may be used."@),
    );
}

/// A string value too long for one card, with a plain keyword, printable text without
/// trailing spaces and an optional plain comment that fits on the last card of its
/// `CONTINUE` run: a header writes it as a `CONTINUE` run and reads it back unchanged.
pub open spec fn long_record(r: RecordView) -> bool {
    &&& r.raw is None
    &&& match r.kind {
        KindView::Value { keyword, value: ValueView::Str(s), comment } => {
            &&& plain_keyword(keyword)
            &&& printable(s)
            &&& (s.len() == 0 || s.last() != ' ')
            &&& plain_comment(comment)
            &&& comment is Some ==> ({
                let ps = continue_pieces(s);
                (piece_line(keyword, ps[ps.len() - 1], ps.len() - 1, true) + comment_part(
                    comment,
                )).len() <= 80
            })
            &&& string_line(keyword, s, comment).len() > 80
        },
        _ => false,
    }
}

/// A record that a header writes afresh and reads back unchanged.
pub open spec fn readable_record(r: RecordView) -> bool {
    plain_record(r) || long_record(r)
}

/// The cards a record that is not byte-backed is written as.
pub open spec fn cards_of(r: RecordView) -> Seq<Seq<u8>> {
    match r.kind {
        KindView::Value { keyword, value: ValueView::Str(s), comment } => string_cards_spec(
            keyword,
            s,
            comment,
        ).0,
        KindView::Value { keyword, value: ValueView::Literal(t), comment } => seq![
            pad80_spec(literal_line(keyword, t, comment)),
        ],
        KindView::Commentary { keyword, text } => commentary_spec(keyword, text),
        KindView::Opaque { text } => seq![pad80_spec(encode_utf8(text))],
    }
}

/// Every card of a run is 80 bytes.
pub open spec fn whole_cards(cs: Seq<Seq<u8>>) -> bool {
    forall|j: int| 0 <= j < cs.len() ==> (#[trigger] cs[j]).len() == 80
}

/// A readable record is written as its cards, the long-string convention used exactly for
/// long strings; its first card carries a keyword that is neither `END` nor `CONTINUE`.
pub proof fn lemma_readable_cards(r: RecordView)
    requires
        readable_record(r),
    ensures
        render_spec(r) == (cat(cards_of(r)), long_record(r)),
        plain_record(r) ==> cards_of(r) == seq![render_spec(r).0],
        cards_of(r).len() >= 1,
        whole_cards(cards_of(r)),
        keyword_bytes(cards_of(r)[0]) != end_word(),
        keyword_bytes(cards_of(r)[0]) != continue_word(),
{
    if plain_record(r) {
        lemma_plain_render(r);
        lemma_plain_keyword(render_spec(r).0, r);
        match r.kind {
            KindView::Value { keyword, value: ValueView::Str(s), comment } => {
                lemma_cat_one(pad80_spec(string_line(keyword, s, comment)));
            },
            KindView::Value { keyword, value: ValueView::Literal(t), comment } => {
                lemma_cat_one(pad80_spec(literal_line(keyword, t, comment)));
            },
            KindView::Commentary { keyword, text } => {
                lemma_printable_bytes(keyword);
                lemma_printable_bytes(text);
                let line = kw_field(keyword) + encode_utf8(text);
                if text.len() == 0 {
                    lemma_cat_one(pad80_spec(kw_field(keyword)));
                } else {
                    assert(text.subrange(0, text.len() as int) =~= text);
                    assert(commentary_spec(keyword, text) =~= seq![pad80_spec(line)]);
                    lemma_cat_one(pad80_spec(line));
                }
            },
            _ => {},
        }
    } else {
        match r.kind {
            KindView::Value { keyword, value: ValueView::Str(s), comment } => {
                let ps = continue_pieces(s);
                law_continue_pieces_fit(s);
                lemma_pieces_printable(ps);
                let cs = cards_of(r);
                assert forall|j: int| 0 <= j < cs.len() implies (#[trigger] cs[j]).len() == 80 by {
                    lemma_piece_card(keyword, ps[j], j, j == ps.len() - 1, comment);
                }
                lemma_piece_card(keyword, ps[0], 0, 0 == ps.len() - 1, comment);
                lemma_keyword_field(keyword);
                assert(cs[0].subrange(0, 8) == kw_field(keyword));
            },
            _ => {},
        }
    }
}

/// The group of cards announcing the long-string convention, and what it reads back as.
pub open spec fn longstrn_group() -> (Seq<Seq<u8>>, KindView) {
    (seq![pad80_spec(encode_utf8(longstrn_line()))], longstrn_kind())
}

/// The groups of cards a header writes for its records (the long-string announcement
/// inserted before the first `CONTINUE` run unless `done`), each with what it reads back
/// as; and whether the convention is announced afterwards.
pub open spec fn groups(recs: Seq<RecordView>, done: bool) -> (Seq<(Seq<Seq<u8>>, KindView)>, bool)
    decreases recs.len(),
{
    if recs.len() == 0 {
        (Seq::empty(), done)
    } else {
        let (gs, d) = groups(recs.drop_last(), done);
        let r = recs.last();
        if render_spec(r).1 && !d {
            (gs.push(longstrn_group()).push((cards_of(r), r.kind)), true)
        } else {
            (gs.push((cards_of(r), r.kind)), d)
        }
    }
}

/// The cards of a run of groups, in order.
pub open spec fn flat(gs: Seq<(Seq<Seq<u8>>, KindView)>) -> Seq<Seq<u8>>
    decreases gs.len(),
{
    if gs.len() == 0 {
        Seq::empty()
    } else {
        flat(gs.drop_last()) + gs.last().0
    }
}

/// What a run of groups reads back as.
pub open spec fn group_kinds(gs: Seq<(Seq<Seq<u8>>, KindView)>) -> Seq<KindView> {
    gs.map_values(|g: (Seq<Seq<u8>>, KindView)| g.1)
}

/// What a header written for `recs` reads back as: the records' contents, with the
/// long-string announcement before the first string written as a `CONTINUE` run unless
/// `done` (the header already carries `LONGSTRN`); and whether it is announced afterwards.
pub open spec fn written_kinds(recs: Seq<RecordView>, done: bool) -> (Seq<KindView>, bool)
    decreases recs.len(),
{
    if recs.len() == 0 {
        (Seq::empty(), done)
    } else {
        let (ks, d) = written_kinds(recs.drop_last(), done);
        let r = recs.last();
        if render_spec(r).1 && !d {
            (ks.push(longstrn_kind()).push(r.kind), true)
        } else {
            (ks.push(r.kind), d)
        }
    }
}

/// A group that reads back as what it stands for.
pub open spec fn group_readable(g: (Seq<Seq<u8>>, KindView)) -> bool {
    ||| g == longstrn_group()
    ||| {
        let r = RecordView { kind: g.1, raw: None };
        readable_record(r) && g.0 == cards_of(r)
    }
}

pub proof fn lemma_cat_concat(a: Seq<Seq<u8>>, b: Seq<Seq<u8>>)
    ensures
        cat(a + b) == cat(a) + cat(b),
    decreases b.len(),
{
    if b.len() == 0 {
        assert(a + b =~= a);
        assert(cat(a) + Seq::<u8>::empty() =~= cat(a));
    } else {
        assert((a + b).drop_last() =~= a + b.drop_last());
        assert((a + b).last() == b.last());
        lemma_cat_concat(a, b.drop_last());
        assert(cat(a) + cat(b.drop_last()) + b.last() =~= cat(a) + (cat(b.drop_last())
            + b.last()));
    }
}

pub proof fn lemma_flat_concat(a: Seq<(Seq<Seq<u8>>, KindView)>, b: Seq<(Seq<Seq<u8>>, KindView)>)
    ensures
        flat(a + b) == flat(a) + flat(b),
    decreases b.len(),
{
    if b.len() == 0 {
        assert(a + b =~= a);
        assert(flat(a) + Seq::<Seq<u8>>::empty() =~= flat(a));
    } else {
        assert((a + b).drop_last() =~= a + b.drop_last());
        assert((a + b).last() == b.last());
        lemma_flat_concat(a, b.drop_last());
        assert(flat(a) + flat(b.drop_last()) + b.last().0 =~= flat(a) + (flat(b.drop_last())
            + b.last().0));
    }
}

/// The bytes of whole cards hold card `j` at `80 * j`.
pub proof fn lemma_cat_cards(cs: Seq<Seq<u8>>)
    requires
        whole_cards(cs),
    ensures
        cat(cs).len() == 80 * cs.len(),
        forall|j: int| 0 <= j < cs.len() ==> cat(cs).subrange(80 * j, 80 * j + 80) == #[trigger] cs[j],
    decreases cs.len(),
{
    if cs.len() > 0 {
        let init = cs.drop_last();
        assert(whole_cards(init)) by {
            assert forall|j: int| 0 <= j < init.len() implies (#[trigger] init[j]).len() == 80 by {
                assert(init[j] == cs[j]);
            }
        }
        lemma_cat_cards(init);
        let all = cat(cs);
        assert(all == cat(init) + cs.last());
        assert(cs.last() == cs[cs.len() - 1]);
        assert forall|j: int| 0 <= j < cs.len() implies all.subrange(80 * j, 80 * j + 80)
            == #[trigger] cs[j] by {
            if j < init.len() {
                assert(all.subrange(80 * j, 80 * j + 80) =~= cat(init).subrange(80 * j, 80 * j + 80));
                assert(init[j] == cs[j]);
            } else {
                assert(all.subrange(80 * j, 80 * j + 80) =~= cs.last());
            }
        }
    }
}

/// Adding a group keeps the bytes, contents and readability in step.
proof fn lemma_groups_push(gs: Seq<(Seq<Seq<u8>>, KindView)>, g: (Seq<Seq<u8>>, KindView))
    requires
        forall|x: int| 0 <= x < gs.len() ==> group_readable(#[trigger] gs[x]),
        group_readable(g),
    ensures
        cat(flat(gs.push(g))) == cat(flat(gs)) + cat(g.0),
        group_kinds(gs.push(g)) == group_kinds(gs).push(g.1),
        forall|x: int| 0 <= x < gs.push(g).len() ==> group_readable(#[trigger] gs.push(g)[x]),
{
    let ngs = gs.push(g);
    assert(ngs.drop_last() == gs);
    assert(ngs.last() == g);
    assert(flat(ngs) == flat(gs) + g.0);
    lemma_cat_concat(flat(gs), g.0);
    assert(group_kinds(ngs) =~= group_kinds(gs).push(g.1));
    assert forall|x: int| 0 <= x < ngs.len() implies group_readable(#[trigger] ngs[x]) by {
        if x < gs.len() {
            assert(ngs[x] == gs[x]);
        }
    }
}

/// What a header writes for readable records is its groups of cards, each readable.
pub proof fn lemma_emit_groups(recs: Seq<RecordView>, d: bool)
    requires
        forall|i: int| 0 <= i < recs.len() ==> readable_record(#[trigger] recs[i]),
    ensures
        emit_spec(recs, d) == (cat(flat(groups(recs, d).0)), groups(recs, d).1),
        written_kinds(recs, d) == (group_kinds(groups(recs, d).0), groups(recs, d).1),
        forall|g: int|
            0 <= g < groups(recs, d).0.len() ==> group_readable(#[trigger] groups(recs, d).0[g]),
    decreases recs.len(),
{
    if recs.len() == 0 {
        assert(group_kinds(Seq::<(Seq<Seq<u8>>, KindView)>::empty()) =~= Seq::<KindView>::empty());
    } else {
        let init = recs.drop_last();
        assert forall|i: int| 0 <= i < init.len() implies readable_record(#[trigger] init[i]) by {
            assert(init[i] == recs[i]);
        }
        lemma_emit_groups(init, d);
        let r = recs.last();
        assert(readable_record(r));
        lemma_readable_cards(r);
        let gs = groups(init, d).0;
        let dd = groups(init, d).1;
        let rg = (cards_of(r), r.kind);
        assert(RecordView { kind: r.kind, raw: None } == r);
        assert(group_readable(rg));
        let lg = longstrn_group();
        assert(group_readable(lg));
        lemma_cat_one(pad80_spec(encode_utf8(longstrn_line())));
        if render_spec(r).1 && !dd {
            lemma_groups_push(gs, lg);
            lemma_groups_push(gs.push(lg), rg);
        } else {
            lemma_groups_push(gs, rg);
        }
    }
}

/// The first card of a readable group carries a keyword that is neither `END` nor
/// `CONTINUE`, and all its cards are whole.
pub proof fn lemma_group_shape(g: (Seq<Seq<u8>>, KindView))
    requires
        group_readable(g),
    ensures
        g.0.len() >= 1,
        whole_cards(g.0),
        keyword_bytes(g.0[0]) != end_word(),
        keyword_bytes(g.0[0]) != continue_word(),
{
    if g == longstrn_group() {
        lemma_longstrn_keyword();
        assert(g.0[0] == pad80_spec(encode_utf8(longstrn_line())));
    } else {
        let r = RecordView { kind: g.1, raw: None };
        lemma_readable_cards(r);
    }
}

/// A readable group starting at card `i` reads back as what it stands for.
pub proof fn lemma_group_read(b: Seq<u8>, i: int, g: (Seq<Seq<u8>>, KindView))
    requires
        group_readable(g),
        0 <= i,
        i + g.0.len() <= n_cards(b),
        forall|t: int| 0 <= t < g.0.len() ==> card_at(b, i + t) == #[trigger] g.0[t],
        i + g.0.len() < n_cards(b) ==> keyword_bytes(card_at(b, i + g.0.len())) != continue_word(),
    ensures
        keyword_bytes(card_at(b, i)) != end_word(),
        card_record(b, i).0.kind == g.1,
        card_record(b, i).1 == i + g.0.len(),
{
    lemma_group_shape(g);
    assert(card_at(b, i + 0) == g.0[0]);
    assert(i + 0 == i);
    if g == longstrn_group() {
        lemma_longstrn_card(b, i);
    } else {
        let r = RecordView { kind: g.1, raw: None };
        lemma_readable_cards(r);
        if plain_record(r) {
            lemma_plain_card(b, i, r);
        } else {
            match r.kind {
                KindView::Value { keyword, value: ValueView::Str(s), comment } => {
                    let ps = continue_pieces(s);
                    assert forall|t: int|
                        #![trigger ps[t]]
                        0 <= t < ps.len() implies card_at(b, i + t) == piece_card(
                        keyword,
                        ps[t],
                        t,
                        t == ps.len() - 1,
                        comment,
                    ) by {
                        assert(card_at(b, i + t) == g.0[t]);
                    }
                    lemma_long_string_card(b, i, keyword, s, comment);
                },
                _ => {},
            }
        }
    }
}

proof fn lemma_flat_split(gs: Seq<(Seq<Seq<u8>>, KindView)>, g: int)
    requires
        0 <= g < gs.len(),
    ensures
        flat(gs) == flat(gs.take(g)) + gs[g].0 + flat(gs.skip(g + 1)),
        flat(gs.take(g + 1)) == flat(gs.take(g)) + gs[g].0,
{
    let one = seq![gs[g]];
    assert(one.drop_last() =~= Seq::<(Seq<Seq<u8>>, KindView)>::empty());
    assert(flat(one) == flat(one.drop_last()) + one.last().0);
    assert(flat(one) =~= gs[g].0);
    assert(gs =~= gs.take(g) + one + gs.skip(g + 1));
    assert(gs.take(g + 1) =~= gs.take(g) + one);
    lemma_flat_concat(gs.take(g) + one, gs.skip(g + 1));
    lemma_flat_concat(gs.take(g), one);
}

proof fn lemma_parse_groups(out: Seq<u8>, gs: Seq<(Seq<Seq<u8>>, KindView)>, g: int)
    requires
        forall|x: int| 0 <= x < gs.len() ==> group_readable(#[trigger] gs[x]),
        0 <= g <= gs.len(),
        n_cards(out) > flat(gs).len(),
        forall|j: int| 0 <= j < flat(gs).len() ==> card_at(out, j) == #[trigger] flat(gs)[j],
        card_at(out, flat(gs).len() as int) == pad80_spec(end_word()),
    ensures
        kinds(parse_from(out, flat(gs.take(g)).len() as int)) == group_kinds(gs.skip(g)),
    decreases gs.len() - g,
{
    lemma_end_card();
    let start = flat(gs.take(g)).len() as int;
    if g == gs.len() {
        assert(gs.take(g) =~= gs);
        assert(parse_from(out, start) == Seq::<RecordView>::empty());
        assert(gs.skip(g) =~= Seq::<(Seq<Seq<u8>>, KindView)>::empty());
        assert(group_kinds(gs.skip(g)) =~= Seq::<KindView>::empty());
        assert(kinds(Seq::<RecordView>::empty()) =~= Seq::<KindView>::empty());
    } else {
        let grp = gs[g];
        lemma_flat_split(gs, g);
        lemma_group_shape(grp);
        let n = grp.0.len() as int;
        let f = flat(gs);
        assert forall|t: int| 0 <= t < n implies card_at(out, start + t) == #[trigger] grp.0[t] by {
            assert(f[start + t] == grp.0[t]);
        }
        if g + 1 < gs.len() {
            lemma_flat_split(gs, g + 1);
            lemma_group_shape(gs[g + 1]);
            assert(f[start + n] == gs[g + 1].0[0]);
        } else {
            assert(gs.skip(g + 1) =~= Seq::<(Seq<Seq<u8>>, KindView)>::empty());
            assert(flat(gs.skip(g + 1)) =~= Seq::<Seq<u8>>::empty());
        }
        lemma_group_read(out, start, grp);
        lemma_parse_groups(out, gs, g + 1);
        let r = card_record(out, start);
        assert(parse_from(out, start) == seq![r.0] + parse_from(out, start + n));
        assert(gs.skip(g) =~= seq![grp] + gs.skip(g + 1));
        assert(kinds(parse_from(out, start)) =~= seq![r.0.kind] + kinds(parse_from(out, start + n)));
        assert(group_kinds(gs.skip(g)) =~= seq![grp.1] + group_kinds(gs.skip(g + 1)));
    }
}

proof fn lemma_flat_whole(gs: Seq<(Seq<Seq<u8>>, KindView)>)
    requires
        forall|x: int| 0 <= x < gs.len() ==> group_readable(#[trigger] gs[x]),
    ensures
        whole_cards(flat(gs)),
    decreases gs.len(),
{
    if gs.len() > 0 {
        let init = gs.drop_last();
        assert forall|x: int| 0 <= x < init.len() implies group_readable(#[trigger] init[x]) by {
            assert(init[x] == gs[x]);
        }
        lemma_flat_whole(init);
        lemma_group_shape(gs.last());
        let f = flat(gs);
        assert(f == flat(init) + gs.last().0);
        assert forall|j: int| 0 <= j < f.len() implies (#[trigger] f[j]).len() == 80 by {
            if j < flat(init).len() {
                assert(f[j] == flat(init)[j]);
            } else {
                assert(f[j] == gs.last().0[j - flat(init).len()]);
            }
        }
    }
}

/// Writing a header and reading it back gives its records' contents (compared as record
/// equality compares), with a `LONGSTRN` announcement before the first string written as a
/// `CONTINUE` run unless the header already carries one, when every record is readable:
/// a value card with a plain keyword holding printable text without trailing spaces and a
/// plain comment on one card, a string without comment too long for one card, or a short
/// `COMMENT`/`HISTORY` card.
pub proof fn law_written_header_reads_back(recs: Seq<RecordView>)
    requires
        forall|i: int| 0 <= i < recs.len() ==> readable_record(#[trigger] recs[i]),
    ensures
        kinds(parse_spec(header_bytes_spec(recs))) == written_kinds(
            recs,
            has_longstrn_spec(recs),
        ).0,
{
    let d = has_longstrn_spec(recs);
    lemma_emit_groups(recs, d);
    let gs = groups(recs, d).0;
    let f = flat(gs);
    lemma_flat_whole(gs);
    lemma_cat_cards(f);
    let body = cat(f);
    let endc = pad80_spec(end_word());
    let out = header_bytes_spec(recs);
    assert(endc.len() == 80);
    assert(out == body + endc + spaces(block_pad((body + endc).len())));
    assert forall|j: int| 0 <= j < f.len() implies card_at(out, j) == #[trigger] f[j] by {
        assert(card_at(out, j) =~= body.subrange(80 * j, 80 * j + 80));
    }
    assert(card_at(out, f.len() as int) =~= endc);
    lemma_parse_groups(out, gs, 0);
    assert(gs.take(0) =~= Seq::<(Seq<Seq<u8>>, KindView)>::empty());
    assert(flat(gs.take(0)) =~= Seq::<Seq<u8>>::empty());
    assert(gs.skip(0) =~= gs);
}

/// Without long strings nothing is announced: a header of one-card records reads back as
/// exactly its records' contents.
pub proof fn law_one_card_header_reads_back(recs: Seq<RecordView>)
    requires
        forall|i: int| 0 <= i < recs.len() ==> plain_record(#[trigger] recs[i]),
    ensures
        kinds(parse_spec(header_bytes_spec(recs))) == kinds(recs),
{
    assert forall|i: int| 0 <= i < recs.len() implies readable_record(#[trigger] recs[i]) by {}
    law_written_header_reads_back(recs);
    lemma_written_plain(recs, has_longstrn_spec(recs));
}

proof fn lemma_written_plain(recs: Seq<RecordView>, d: bool)
    requires
        forall|i: int| 0 <= i < recs.len() ==> plain_record(#[trigger] recs[i]),
    ensures
        written_kinds(recs, d) == (kinds(recs), d),
    decreases recs.len(),
{
    if recs.len() > 0 {
        let init = recs.drop_last();
        assert forall|i: int| 0 <= i < init.len() implies plain_record(#[trigger] init[i]) by {
            assert(init[i] == recs[i]);
        }
        lemma_written_plain(init, d);
        lemma_plain_render(recs.last());
        assert(kinds(recs) =~= kinds(init).push(recs.last().kind));
    } else {
        assert(kinds(recs) =~= Seq::<KindView>::empty());
    }
}

/// A long string value with a plain comment that fits on the last card of its
/// `CONTINUE` run is written with that comment and reads back as itself, comment
/// included.
pub proof fn law_long_string_comment_reads_back(r: RecordView)
    requires
        long_record(r),
    ensures
        parse_spec(header_bytes_spec(seq![r])).len() >= 1,
        parse_spec(header_bytes_spec(seq![r])).last().kind == r.kind,
{
    let recs = seq![r];
    assert(recs[0] == r);
    law_written_header_reads_back(recs);
    let d = has_longstrn_spec(recs);
    assert(recs.drop_last() =~= Seq::<RecordView>::empty());
    assert(recs.last() == r);
    let out = parse_spec(header_bytes_spec(recs));
    let wk = written_kinds(recs, d).0;
    assert(wk.len() >= 1 && wk.last() == r.kind);
    assert(kinds(out).len() == out.len());
    assert(kinds(out)[out.len() - 1] == out.last().kind);
}

/// A long string's comment goes on the last card of its `CONTINUE` run, when it fits
/// there: every other card of the run reads without a comment, and the last card reads
/// with the value's comment, or without one when it does not fit.
pub proof fn law_long_string_comment_on_last_card(k: Seq<char>, s: Seq<char>, c: Option<Seq<char>>)
    requires
        plain_keyword(k),
        printable(s),
        plain_comment(c),
        string_line(k, s, c).len() > 80,
    ensures
        ({
            let cs = string_cards_spec(k, s, c).0;
            let ps = continue_pieces(s);
            let fits = c is Some && (piece_line(k, ps[ps.len() - 1], ps.len() - 1, true)
                + comment_part(c)).len() <= 80;
            &&& cs.len() == ps.len()
            &&& forall|t: int|
                0 <= t < cs.len() - 1 ==> #[trigger] crate::parse::field_comment(cs[t]) is None
            &&& crate::parse::field_comment(cs[cs.len() - 1]) == (if fits {
                opt_enc(c)
            } else {
                None
            })
        }),
{
    let cs = string_cards_spec(k, s, c).0;
    let ps = continue_pieces(s);
    let n = ps.len() as int;
    law_continue_pieces_fit(s);
    lemma_pieces_printable(ps);
    assert forall|t: int| 0 <= t < n implies #[trigger] crate::parse::field_comment(cs[t]) == opt_enc(
        card_comment(k, ps[t], t, t == n - 1, c),
    ) by {
        let last = t == n - 1;
        let p = ps[t];
        lemma_piece_card(k, p, t, last, c);
        let cc = card_comment(k, p, t, last, c);
        let m = 80 - (piece_line(k, p, t, last) + comment_part(cc)).len();
        let body = piece_body(p, last);
        assert(body[0] == 39u8);
        let vf = body + comment_part(cc) + spaces(m);
        assert(vf[0] == 39u8);
        assert(cs[t] == piece_card(k, p, t, last, c));
        assert(value_field(cs[t]) == vf);
        assert(plain_comment(cc));
        lemma_piece_field(p, last, cc, m);
    }
    assert(cs[n - 1] == cs[cs.len() - 1]);
}

} // verus!
