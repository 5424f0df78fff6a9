//! Serialize a header back to bytes.

use vstd::prelude::*;
use vstd::utf8::encode_utf8;

use crate::header::Header;
use crate::parse::continue_word;
use crate::record::{
    flatten, opt_text, record_views, KindView, Record, RecordKind, RecordView, Value, ValueView,
};
use crate::{BLOCK_LEN, CARD_LEN};

verus! {

/// `n` spaces (none when `n` is not positive).
pub open spec fn spaces(n: int) -> Seq<u8> {
    Seq::new(if n > 0 { n as nat } else { 0 }, |i: int| 32u8)
}

/// A line left-justified into an 80-byte card: space-padded, or cut at 80 bytes.
pub open spec fn pad80_spec(line: Seq<u8>) -> Seq<u8> {
    if line.len() >= 80 {
        line.take(80)
    } else {
        line + spaces(80 - line.len())
    }
}

/// A keyword left-justified in an 8-character field.
pub open spec fn kw_field(k: Seq<char>) -> Seq<u8> {
    encode_utf8(k) + spaces(8 - k.len())
}

/// How many single quotes `b` holds.
pub open spec fn quotes(b: Seq<u8>) -> nat
    decreases b.len(),
{
    if b.len() == 0 {
        0
    } else {
        quotes(b.drop_last()) + if b.last() == 39u8 {
            1nat
        } else {
            0nat
        }
    }
}

/// `b` with every single quote doubled.
pub open spec fn escape(b: Seq<u8>) -> Seq<u8>
    decreases b.len(),
{
    if b.len() == 0 {
        Seq::empty()
    } else {
        escape(b.drop_last()) + if b.last() == 39u8 {
            seq![39u8, 39u8]
        } else {
            seq![b.last()]
        }
    }
}

/// ` / comment` when there is a comment.
pub open spec fn comment_part(c: Option<Seq<char>>) -> Seq<u8> {
    match c {
        Some(c) => seq![32u8, 47u8, 32u8] + encode_utf8(c),
        None => Seq::empty(),
    }
}

/// A literal value line: the token right-justified to column 30 when it fits 20 bytes,
/// else written as is.
pub open spec fn literal_line(k: Seq<char>, t: Seq<char>, c: Option<Seq<char>>) -> Seq<u8> {
    kw_field(k) + seq![61u8, 32u8] + (if encode_utf8(t).len() <= 20 {
        spaces(20 - t.len()) + encode_utf8(t)
    } else {
        encode_utf8(t)
    }) + comment_part(c)
}

/// A string value line: quotes doubled, content padded to at least 8 characters.
pub open spec fn string_line(k: Seq<char>, s: Seq<char>, c: Option<Seq<char>>) -> Seq<u8> {
    kw_field(k) + seq![61u8, 32u8, 39u8] + escape(encode_utf8(s)) + spaces(
        8 - (s.len() + quotes(encode_utf8(s))),
    ) + seq![39u8] + comment_part(c)
}

/// Left-justify `s` into an 80-byte card, space-padded (truncated at 80 bytes).
pub fn pad80(s: &str) -> (card: [u8; CARD_LEN])
    ensures
        card@ == pad80_spec(encode_utf8(s@)),
{
    pad80_bytes(s.as_bytes())
}

/// Left-justify bytes into an 80-byte card, space-padded (truncated at 80 bytes).
pub fn pad80_bytes(b: &[u8]) -> (card: [u8; CARD_LEN])
    ensures
        card@ == pad80_spec(b@),
{
    let mut card: [u8; CARD_LEN] = [32u8; CARD_LEN];
    let n = if b.len() < CARD_LEN {
        b.len()
    } else {
        CARD_LEN
    };
    let mut i: usize = 0;
    while i < n
        invariant
            n <= b@.len(),
            n <= 80,
            n == (if b@.len() < 80 { b@.len() } else { 80 }),
            i <= n,
            card@.len() == 80,
            forall|j: int| 0 <= j < i ==> card@[j] == b@[j],
            forall|j: int| i <= j < 80 ==> card@[j] == 32u8,
        decreases n - i,
    {
        card[i] = b[i];
        i = i + 1;
    }
    assert(card@ =~= pad80_spec(b@));
    card
}

fn push_spaces(out: &mut Vec<u8>, n: usize)
    ensures
        final(out)@ == old(out)@ + spaces(n as int),
{
    let mut i: usize = 0;
    while i < n
        invariant
            i <= n,
            out@ == old(out)@ + spaces(i as int),
        decreases n - i,
    {
        out.push(32u8);
        i = i + 1;
        assert(out@ =~= old(out)@ + spaces(i as int));
    }
}

fn push_bytes(out: &mut Vec<u8>, b: &[u8])
    ensures
        final(out)@ == old(out)@ + b@,
{
    let mut i: usize = 0;
    while i < b.len()
        invariant
            i <= b@.len(),
            out@ == old(out)@ + b@.take(i as int),
        decreases b@.len() - i,
    {
        out.push(b[i]);
        i = i + 1;
        assert(out@ =~= old(out)@ + b@.take(i as int));
    }
    assert(b@.take(b@.len() as int) =~= b@);
}

fn push_str(out: &mut Vec<u8>, s: &str)
    ensures
        final(out)@ == old(out)@ + encode_utf8(s@),
{
    push_bytes(out, s.as_bytes());
}

/// Appends a keyword left-justified to 8 characters.
fn push_kw_field(out: &mut Vec<u8>, keyword: &str)
    ensures
        final(out)@ == old(out)@ + kw_field(keyword@),
{
    push_str(out, keyword);
    let n = keyword.unicode_len();
    if n < 8 {
        push_spaces(out, 8 - n);
    } else {
        push_spaces(out, 0);
    }
    assert(out@ =~= old(out)@ + kw_field(keyword@));
}

fn push_comment(out: &mut Vec<u8>, comment: Option<&str>)
    ensures
        final(out)@ == old(out)@ + comment_part(opt_ref(comment)),
{
    match comment {
        Some(c) => {
            out.push(32u8);
            out.push(47u8);
            out.push(32u8);
            push_str(out, c);
            assert(out@ =~= old(out)@ + comment_part(opt_ref(comment)));
        },
        None => {
            assert(out@ =~= old(out)@ + comment_part(opt_ref(comment)));
        },
    }
}

/// The view of an optional borrowed string.
pub open spec fn opt_ref(o: Option<&str>) -> Option<Seq<char>> {
    match o {
        Some(s) => Some(s@),
        None => None,
    }
}

/// Appends `b` with every single quote doubled; returns how many quotes it held.
fn push_escaped(out: &mut Vec<u8>, b: &[u8]) -> (q: usize)
    ensures
        final(out)@ == old(out)@ + escape(b@),
        q == quotes(b@),
{
    let mut i: usize = 0;
    let mut q: usize = 0;
    while i < b.len()
        invariant
            i <= b@.len(),
            q == quotes(b@.take(i as int)),
            q <= i,
            out@ == old(out)@ + escape(b@.take(i as int)),
        decreases b@.len() - i,
    {
        assert(b@.take(i + 1).drop_last() =~= b@.take(i as int));
        if b[i] == 39u8 {
            out.push(39u8);
            out.push(39u8);
            q = q + 1;
        } else {
            out.push(b[i]);
        }
        i = i + 1;
        assert(out@ =~= old(out)@ + escape(b@.take(i as int)));
    }
    assert(b@.take(b@.len() as int) =~= b@);
    q
}

/// A literal value card: `KEYWORD = token / comment`, the token right-justified to
/// column 30 when it is at most 20 bytes long.
pub fn literal_card(keyword: &str, token: &str, comment: Option<&str>) -> (card: [u8; CARD_LEN])
    ensures
        card@ == pad80_spec(literal_line(keyword@, token@, opt_ref(comment))),
{
    let mut s: Vec<u8> = Vec::new();
    push_kw_field(&mut s, keyword);
    s.push(61u8);
    s.push(32u8);
    let ghost head = s@;
    let tb = token.as_bytes();
    if tb.len() <= 20 {
        let n = token.unicode_len();
        proof {
            lemma_chars_le_bytes(token@);
        }
        push_spaces(&mut s, 20 - n);
        push_bytes(&mut s, tb);
        assert(s@ =~= head + (spaces(20 - token@.len()) + encode_utf8(token@)));
    } else {
        push_bytes(&mut s, tb);
    }
    push_comment(&mut s, comment);
    assert(s@ =~= literal_line(keyword@, token@, opt_ref(comment)));
    pad80_bytes(s.as_slice())
}

/// A single-card string value line, or `None` when it does not fit in 80 bytes.
pub fn string_single(keyword: &str, content: &str, comment: Option<&str>) -> (card: Option<[u8; CARD_LEN]>)
    ensures
        ({
            let line = string_line(keyword@, content@, opt_ref(comment));
            match card {
                Some(c) => line.len() <= 80 && c@ == pad80_spec(line),
                None => line.len() > 80,
            }
        }),
{
    let mut s: Vec<u8> = Vec::new();
    push_kw_field(&mut s, keyword);
    s.push(61u8);
    s.push(32u8);
    s.push(39u8);
    let q = push_escaped(&mut s, content.as_bytes());
    let n = content.unicode_len();
    if n < 8 && q < 8 - n {
        push_spaces(&mut s, 8 - n - q);
    } else {
        push_spaces(&mut s, 0);
    }
    s.push(39u8);
    push_comment(&mut s, comment);
    assert(s@ =~= string_line(keyword@, content@, opt_ref(comment)));
    if s.len() <= CARD_LEN {
        Some(pad80_bytes(s.as_slice()))
    } else {
        None
    }
}

/// A string never has more characters than its UTF-8 encoding has bytes.
pub proof fn lemma_chars_le_bytes(s: Seq<char>)
    ensures
        s.len() <= encode_utf8(s).len(),
    decreases s.len(),
{
    if s.len() > 0 {
        lemma_chars_le_bytes(s.drop_first());
    }
}


/// The views of a run of cards.
pub open spec fn card_views(cards: Seq<[u8; 80]>) -> Seq<Seq<u8>> {
    cards.map_values(|a: [u8; 80]| a@)
}

/// The bytes of a run of cards, in order.
pub open spec fn cat(cards: Seq<Seq<u8>>) -> Seq<u8>
    decreases cards.len(),
{
    if cards.len() == 0 {
        Seq::empty()
    } else {
        cat(cards.drop_last()) + cards.last()
    }
}

pub proof fn lemma_cat_one(x: Seq<u8>)
    ensures
        cat(seq![x]) == x,
{
    let one = seq![x];
    assert(one.len() == 1);
    assert(one.last() == x);
    assert(one.drop_last() =~= Seq::<Seq<u8>>::empty());
    assert(cat(one.drop_last()) == Seq::<u8>::empty());
    assert(cat(one) == cat(one.drop_last()) + one.last());
    assert(Seq::<u8>::empty() + x =~= x);
}

pub proof fn lemma_flatten_cat(cards: Seq<[u8; 80]>)
    ensures
        flatten(cards) == cat(card_views(cards)),
    decreases cards.len(),
{
    if cards.len() > 0 {
        assert(card_views(cards).drop_last() =~= card_views(cards.drop_last()));
        lemma_flatten_cat(cards.drop_last());
    }
}

/// The views of a list of strings.
pub open spec fn texts(v: Seq<String>) -> Seq<Seq<char>> {
    v.map_values(|s: String| s@)
}

/// Greedy split of a long string into pieces whose escaped form fits a continuation
/// card (66 columns, a single quote counting twice): the finished pieces, the current
/// piece and its escaped length.
pub open spec fn chunk_state(s: Seq<char>) -> (Seq<Seq<char>>, Seq<char>, nat)
    decreases s.len(),
{
    if s.len() == 0 {
        (Seq::empty(), Seq::empty(), 0)
    } else {
        let (done, cur, n) = chunk_state(s.drop_last());
        let c = s.last();
        let add: nat = if c == '\'' {
            2
        } else {
            1
        };
        if n + add > 66 {
            (done.push(cur), seq![c], add)
        } else {
            (done, cur.push(c), n + add)
        }
    }
}

/// The pieces a long string is split into for `CONTINUE` cards.
pub open spec fn continue_pieces(s: Seq<char>) -> Seq<Seq<char>> {
    chunk_state(s).0.push(chunk_state(s).1)
}

/// How many bytes `p` takes once its single quotes are doubled (for ASCII text).
pub open spec fn escaped_width(p: Seq<char>) -> nat
    decreases p.len(),
{
    if p.len() == 0 {
        0
    } else {
        escaped_width(p.drop_last()) + if p.last() == '\'' {
            2nat
        } else {
            1nat
        }
    }
}

/// The pieces of a run, one after the other.
pub open spec fn joined(ps: Seq<Seq<char>>) -> Seq<char>
    decreases ps.len(),
{
    if ps.len() == 0 {
        Seq::empty()
    } else {
        joined(ps.drop_last()) + ps.last()
    }
}

proof fn lemma_chunk_state(s: Seq<char>)
    ensures
        chunk_state(s).2 == escaped_width(chunk_state(s).1),
        chunk_state(s).2 <= 66,
        forall|k: int|
            0 <= k < chunk_state(s).0.len() ==> escaped_width(#[trigger] chunk_state(s).0[k])
                <= 66,
        joined(chunk_state(s).0) + chunk_state(s).1 == s,
    decreases s.len(),
{
    if s.len() > 0 {
        let init = s.drop_last();
        lemma_chunk_state(init);
        let (done, cur, n) = chunk_state(init);
        let c = s.last();
        assert(s =~= init.push(c));
        if n + (if c == '\'' { 2nat } else { 1nat }) > 66 {
            assert(seq![c].drop_last() =~= Seq::<char>::empty());
            assert(escaped_width(seq![c]) == escaped_width(Seq::<char>::empty()) + (if c == '\'' {
                2nat
            } else {
                1nat
            }));
            assert(done.push(cur).drop_last() =~= done);
            assert(joined(done.push(cur)) == joined(done) + cur);
            assert(joined(done) + cur + seq![c] =~= (joined(done) + cur).push(c));
            assert forall|k: int| 0 <= k < done.push(cur).len() implies escaped_width(
                #[trigger] done.push(cur)[k],
            ) <= 66 by {
                if k < done.len() {
                    assert(done.push(cur)[k] == done[k]);
                }
            }
        } else {
            assert(cur.push(c).drop_last() =~= cur);
            assert(joined(done) + cur.push(c) =~= (joined(done) + cur).push(c));
        }
    }
}

/// Splitting a long string for `CONTINUE` cards loses nothing: its pieces, one after the
/// other, are the string, and each piece with its quotes doubled fits the 66 columns a
/// continuation card has for it.
pub proof fn law_continue_pieces_fit(s: Seq<char>)
    ensures
        joined(continue_pieces(s)) == s,
        forall|k: int|
            0 <= k < continue_pieces(s).len() ==> escaped_width(#[trigger] continue_pieces(s)[k])
                <= 66,
{
    lemma_chunk_state(s);
    let (done, cur, n) = chunk_state(s);
    assert(continue_pieces(s).drop_last() =~= done);
    assert forall|k: int| 0 <= k < continue_pieces(s).len() implies escaped_width(
        #[trigger] continue_pieces(s)[k],
    ) <= 66 by {
        if k < done.len() {
            assert(continue_pieces(s)[k] == done[k]);
        }
    }
}

/// Split content so each escaped piece fits a continuation card's value field.
pub fn chunk_for_continue(content: &str) -> (pieces: Vec<String>)
    ensures
        texts(pieces@) == continue_pieces(content@),
{
    let n = content.unicode_len();
    let mut pieces: Vec<String> = Vec::new();
    let mut start: usize = 0;
    let mut esc_len: usize = 0;
    let mut i: usize = 0;
    while i < n
        invariant
            n == content@.len(),
            start <= i <= n,
            esc_len <= 66,
            chunk_state(content@.take(i as int)) == (
                texts(pieces@),
                content@.subrange(start as int, i as int),
                esc_len as nat,
            ),
        decreases n - i,
    {
        let c = content.get_char(i);
        let add: usize = if c == '\'' {
            2
        } else {
            1
        };
        let ghost before = texts(pieces@);
        assert(content@.take(i + 1).drop_last() =~= content@.take(i as int));
        assert(content@.take(i + 1).last() == c);
        if esc_len + add > 66 {
            let piece = content.substring_char(start, i).to_owned();
            pieces.push(piece);
            assert(texts(pieces@) =~= before.push(content@.subrange(start as int, i as int)));
            start = i;
            esc_len = add;
        } else {
            esc_len = esc_len + add;
            assert(content@.subrange(start as int, i + 1) =~= content@.subrange(
                start as int,
                i as int,
            ).push(c));
        }
        i = i + 1;
        assert(content@.subrange(start as int, i as int) =~= (if start == i - 1 {
            seq![c]
        } else {
            content@.subrange(start as int, i - 1).push(c)
        }));
    }
    let ghost before = texts(pieces@);
    let last = content.substring_char(start, n).to_owned();
    pieces.push(last);
    assert(content@.take(n as int) =~= content@);
    assert(texts(pieces@) =~= before.push(content@.subrange(start as int, n as int)));
    pieces
}

/// The cards of a commentary record: the bare keyword when the text is empty, else the
/// text in 72-character chunks after the keyword field.
pub open spec fn commentary_spec(k: Seq<char>, t: Seq<char>) -> Seq<Seq<u8>> {
    if t.len() == 0 {
        seq![pad80_spec(kw_field(k))]
    } else {
        Seq::new(
            ((t.len() + 71) / 72) as nat,
            |i: int|
                pad80_spec(
                    kw_field(k) + encode_utf8(
                        t.subrange(72 * i, if 72 * i + 72 <= t.len() {
                            72 * i + 72
                        } else {
                            t.len() as int
                        }),
                    ),
                ),
        )
    }
}

/// The cards of a commentary record.
pub fn commentary_cards(keyword: &str, text: &str) -> (cards: Vec<[u8; CARD_LEN]>)
    ensures
        card_views(cards@) == commentary_spec(keyword@, text@),
{
    let n = text.unicode_len();
    let mut cards: Vec<[u8; CARD_LEN]> = Vec::new();
    if n == 0 {
        let mut s: Vec<u8> = Vec::new();
        push_kw_field(&mut s, keyword);
        cards.push(pad80_bytes(s.as_slice()));
        assert(card_views(cards@) =~= commentary_spec(keyword@, text@));
        return cards;
    }
    let total: usize = n / 72 + if n % 72 != 0 {
        1
    } else {
        0
    };
    assert(total == (n + 71) / 72);
    let mut k: usize = 0;
    while k < total
        invariant
            n == text@.len(),
            n > 0,
            total == (n + 71) / 72,
            k <= total,
            cards@.len() == k,
            forall|j: int|
                0 <= j < k ==> #[trigger] card_views(cards@)[j] == commentary_spec(keyword@, text@)[j],
        decreases total - k,
    {
        assert(72 * k < n);
        let start = 72 * k;
        let end = if n - start >= 72 {
            start + 72
        } else {
            n
        };
        let mut s: Vec<u8> = Vec::new();
        push_kw_field(&mut s, keyword);
        push_str(&mut s, text.substring_char(start, end));
        let ghost before = cards@;
        cards.push(pad80_bytes(s.as_slice()));
        assert(card_views(cards@)[k as int] == commentary_spec(keyword@, text@)[k as int]);
        assert forall|j: int| 0 <= j < k + 1 implies #[trigger] card_views(cards@)[j]
            == commentary_spec(keyword@, text@)[j] by {
            if j < k {
                assert(cards@[j] == before[j]);
                assert(card_views(before)[j] == before[j]@);
                assert(card_views(cards@)[j] == cards@[j]@);
            }
        }
        k = k + 1;
    }
    assert(card_views(cards@) =~= commentary_spec(keyword@, text@));
    cards
}


/// The quoted body of a continuation piece; every piece but the last ends in `&`.
pub open spec fn piece_body(p: Seq<char>, last: bool) -> Seq<u8> {
    seq![39u8] + escape(encode_utf8(p)) + if last {
        seq![39u8]
    } else {
        seq![38u8, 39u8]
    }
}

/// The line of the `idx`-th card of a long string value.
pub open spec fn piece_line(k: Seq<char>, p: Seq<char>, idx: int, last: bool) -> Seq<u8> {
    if idx == 0 {
        kw_field(k) + seq![61u8, 32u8] + piece_body(p, last)
    } else {
        continue_word() + seq![32u8, 32u8] + piece_body(p, last)
    }
}

/// The `idx`-th card of a long string value; the comment goes on the last card when it
/// fits there.
pub open spec fn piece_card(k: Seq<char>, p: Seq<char>, idx: int, last: bool, c: Option<Seq<char>>) -> Seq<u8> {
    let s = piece_line(k, p, idx, last);
    pad80_spec(
        if last && c is Some && (s + comment_part(c)).len() <= 80 {
            s + comment_part(c)
        } else {
            s
        },
    )
}

/// The cards of a string value, and whether they use the `CONTINUE` convention.
pub open spec fn string_cards_spec(k: Seq<char>, s: Seq<char>, c: Option<Seq<char>>) -> (Seq<Seq<u8>>, bool) {
    let line = string_line(k, s, c);
    if line.len() <= 80 {
        (seq![pad80_spec(line)], false)
    } else {
        let pieces = continue_pieces(s);
        (
            Seq::new(
                pieces.len(),
                |idx: int| piece_card(k, pieces[idx], idx, idx == pieces.len() - 1, c),
            ),
            true,
        )
    }
}

/// The cards of a string value: one card when it fits, else a `CONTINUE` run (and `true`).
pub fn string_cards(keyword: &str, content: &str, comment: Option<&str>) -> (r: (Vec<[u8; CARD_LEN]>, bool))
    ensures
        (card_views(r.0@), r.1) == string_cards_spec(keyword@, content@, opt_ref(comment)),
{
    if let Some(card) = string_single(keyword, content, comment) {
        let mut v: Vec<[u8; CARD_LEN]> = Vec::new();
        v.push(card);
        assert(card_views(v@) =~= seq![card@]);
        return (v, false);
    }
    let pieces = chunk_for_continue(content);
    let ghost ps = continue_pieces(content@);
    let mut cards: Vec<[u8; CARD_LEN]> = Vec::new();
    assert(texts(pieces@).len() == pieces@.len());
    let last_idx = pieces.len() - 1;
    let mut idx: usize = 0;
    while idx < pieces.len()
        invariant
            texts(pieces@) == ps,
            ps.len() == pieces@.len(),
            last_idx == pieces@.len() - 1,
            idx <= pieces@.len(),
            cards@.len() == idx,
            forall|j: int|
                0 <= j < idx ==> #[trigger] card_views(cards@)[j] == piece_card(
                    keyword@,
                    ps[j],
                    j,
                    j == ps.len() - 1,
                    opt_ref(comment),
                ),
        decreases pieces@.len() - idx,
    {
        let piece = pieces[idx].as_str();
        assert(piece@ == ps[idx as int]);
        let last = idx == last_idx;
        let mut s: Vec<u8> = Vec::new();
        if idx == 0 {
            push_kw_field(&mut s, keyword);
            s.push(61u8);
            s.push(32u8);
        } else {
            push_str(&mut s, "CONTINUE");
            proof {
                reveal_strlit("CONTINUE");
                crate::text::lemma_ascii_decode(continue_word());
                assert(crate::text::ascii_chars(continue_word()) =~= "CONTINUE"@);
            }
            s.push(32u8);
            s.push(32u8);
        }
        s.push(39u8);
        push_escaped(&mut s, piece.as_bytes());
        if last {
            s.push(39u8);
        } else {
            s.push(38u8);
            s.push(39u8);
        }
        assert(s@ =~= piece_line(keyword@, ps[idx as int], idx as int, last));
        let ghost line = s@;
        if last {
            if let Some(c) = comment {
                let mut with: Vec<u8> = Vec::new();
                push_bytes(&mut with, s.as_slice());
                push_comment(&mut with, comment);
                if with.len() <= CARD_LEN {
                    s = with;
                }
            }
        }
        let ghost before = cards@;
        cards.push(pad80_bytes(s.as_slice()));
        assert(card_views(cards@)[idx as int] == piece_card(
            keyword@,
            ps[idx as int],
            idx as int,
            idx == ps.len() - 1,
            opt_ref(comment),
        ));
        assert forall|j: int| 0 <= j < idx + 1 implies #[trigger] card_views(cards@)[j]
            == piece_card(keyword@, ps[j], j, j == ps.len() - 1, opt_ref(comment)) by {
            if j < idx {
                assert(cards@[j] == before[j]);
                assert(card_views(before)[j] == before[j]@);
                assert(card_views(cards@)[j] == cards@[j]@);
            }
        }
        idx = idx + 1;
    }
    assert(card_views(cards@) =~= string_cards_spec(keyword@, content@, opt_ref(comment)).0);
    (cards, true)
}


/// The bytes of a record's cards and whether they use the `CONTINUE` convention.
/// A byte-backed record gives back its original cards.
pub open spec fn render_spec(r: RecordView) -> (Seq<u8>, bool) {
    match r.raw {
        Some(b) => (b, false),
        None => match r.kind {
            KindView::Value { keyword, value: ValueView::Str(s), comment } => (
                cat(string_cards_spec(keyword, s, comment).0),
                string_cards_spec(keyword, s, comment).1,
            ),
            KindView::Value { keyword, value: ValueView::Literal(l), comment } => (
                pad80_spec(literal_line(keyword, l, comment)),
                false,
            ),
            KindView::Commentary { keyword, text } => (cat(commentary_spec(keyword, text)), false),
            KindView::Opaque { text } => (pad80_spec(encode_utf8(text)), false),
        },
    }
}

fn opt_as_str(o: &Option<String>) -> (r: Option<&str>)
    ensures
        opt_ref(r) == opt_text(*o),
{
    match o {
        Some(s) => Some(s.as_str()),
        None => None,
    }
}

/// The cards of one record, and whether they use the `CONTINUE` convention.
pub fn render_record(record: &Record) -> (r: (Vec<[u8; CARD_LEN]>, bool))
    ensures
        (cat(card_views(r.0@)), r.1) == render_spec(record@),
{
    if let Some(raw) = record.raw_cards() {
        let mut v: Vec<[u8; CARD_LEN]> = Vec::new();
        let mut i: usize = 0;
        while i < raw.len()
            invariant
                i <= raw@.len(),
                v@ == raw@.take(i as int),
            decreases raw@.len() - i,
        {
            v.push(raw[i]);
            i = i + 1;
            assert(v@ =~= raw@.take(i as int));
        }
        assert(raw@.take(raw@.len() as int) =~= raw@);
        proof {
            lemma_flatten_cat(v@);
        }
        return (v, false);
    }
    match record.kind_ref() {
        RecordKind::Value { keyword, value: Value::Str(s), comment } => string_cards(
            keyword.as_str(),
            s.as_str(),
            opt_as_str(comment),
        ),
        RecordKind::Value { keyword, value: Value::Literal(l), comment } => {
            let mut v: Vec<[u8; CARD_LEN]> = Vec::new();
            v.push(literal_card(keyword.as_str(), l.as_str(), opt_as_str(comment)));
            assert(card_views(v@) =~= seq![v@[0]@]);
            proof {
                lemma_cat_one(v@[0]@);
            }
            (v, false)
        },
        RecordKind::Commentary { keyword, text } => (
            commentary_cards(keyword.as_str(), text.as_str()),
            false,
        ),
        RecordKind::Opaque { text } => {
            let mut v: Vec<[u8; CARD_LEN]> = Vec::new();
            v.push(pad80(text.as_str()));
            assert(card_views(v@) =~= seq![v@[0]@]);
            proof {
                lemma_cat_one(v@[0]@);
            }
            (v, false)
        },
    }
}

/// The `LONGSTRN` line announcing the long-string convention.
pub open spec fn longstrn_line() -> Seq<char> {
    "LONGSTRN= 'OGIP 1.0' / The OGIP long string convention may be used."@
}

/// The card announcing the long-string convention.
pub fn longstrn_card() -> (card: [u8; CARD_LEN])
    ensures
        card@ == pad80_spec(encode_utf8(longstrn_line())),
{
    pad80("LONGSTRN= 'OGIP 1.0' / The OGIP long string convention may be used.")
}

/// Whether some record carries the keyword `LONGSTRN`.
pub open spec fn has_longstrn_spec(recs: Seq<RecordView>) -> bool {
    exists|i: int| 0 <= i < recs.len() && (#[trigger] recs[i]).kind.keyword() == Some("LONGSTRN"@)
}

/// Whether the header already carries a `LONGSTRN` card.
pub fn has_longstrn(header: &Header) -> (r: bool)
    ensures
        r == has_longstrn_spec(header@),
{
    let cards = header.cards();
    let mut i: usize = 0;
    while i < cards.len()
        invariant
            record_views(cards@) == header@,
            i <= cards@.len(),
            forall|j: int| 0 <= j < i ==> (#[trigger] header@[j]).kind.keyword() != Some("LONGSTRN"@),
        decreases cards@.len() - i,
    {
        assert(header@[i as int] == cards@[i as int]@);
        let hit = match cards[i].keyword() {
            Some(k) => crate::text::text_eq(k, "LONGSTRN"),
            None => false,
        };
        if hit {
            return true;
        }
        i = i + 1;
    }
    false
}

/// The bytes of the records' cards, a `LONGSTRN` card inserted before the first
/// `CONTINUE` run unless `done`; and whether the convention is announced afterwards.
pub open spec fn emit_spec(recs: Seq<RecordView>, done: bool) -> (Seq<u8>, bool)
    decreases recs.len(),
{
    if recs.len() == 0 {
        (Seq::empty(), done)
    } else {
        let (b, d) = emit_spec(recs.drop_last(), done);
        let (c, used) = render_spec(recs.last());
        if used && !d {
            (b + pad80_spec(encode_utf8(longstrn_line())) + c, true)
        } else {
            (b + c, d)
        }
    }
}

/// How many bytes pad `n` bytes out to a whole number of blocks.
pub open spec fn block_pad(n: nat) -> int {
    if n % 2880 == 0 {
        0
    } else {
        2880 - n % 2880
    }
}

/// The header block: every record's cards, `END`, space-padded to a 2880 multiple.
pub open spec fn header_bytes_spec(recs: Seq<RecordView>) -> Seq<u8> {
    let body = emit_spec(recs, has_longstrn_spec(recs)).0 + pad80_spec(seq![69u8, 78u8, 68u8]);
    body + spaces(block_pad(body.len()))
}

fn push_cards(out: &mut Vec<u8>, cards: &Vec<[u8; CARD_LEN]>)
    ensures
        final(out)@ == old(out)@ + cat(card_views(cards@)),
{
    let mut i: usize = 0;
    while i < cards.len()
        invariant
            i <= cards@.len(),
            out@ == old(out)@ + cat(card_views(cards@.take(i as int))),
        decreases cards@.len() - i,
    {
        let card = cards[i];
        let mut k: usize = 0;
        let ghost mid = out@;
        while k < CARD_LEN
            invariant
                k <= 80,
                out@ == mid + card@.take(k as int),
            decreases 80 - k,
        {
            out.push(card[k]);
            k = k + 1;
            assert(out@ =~= mid + card@.take(k as int));
        }
        assert(card@.take(80) =~= card@);
        assert(card_views(cards@.take(i + 1)).drop_last() =~= card_views(cards@.take(i as int)));
        i = i + 1;
    }
    assert(cards@.take(cards@.len() as int) =~= cards@);
}

fn emit_records(out: &mut Vec<u8>, records: &[Record], longstrn_present: bool)
    ensures
        final(out)@ == old(out)@ + emit_spec(record_views(records@), longstrn_present).0,
{
    let mut done = longstrn_present;
    let mut i: usize = 0;
    let ghost recs = record_views(records@);
    while i < records.len()
        invariant
            recs == record_views(records@),
            i <= records@.len(),
            (out@, done) == (
                old(out)@ + emit_spec(recs.take(i as int), longstrn_present).0,
                emit_spec(recs.take(i as int), longstrn_present).1,
            ),
        decreases records@.len() - i,
    {
        assert(recs.take(i + 1).drop_last() =~= recs.take(i as int));
        assert(recs.take(i + 1).last() == records@[i as int]@);
        let (cards, used_continue) = render_record(&records[i]);
        if used_continue && !done {
            let card = longstrn_card();
            let mut one: Vec<[u8; CARD_LEN]> = Vec::new();
            one.push(card);
            assert(card_views(one@) =~= seq![card@]);
            proof {
                lemma_cat_one(card@);
            }
            push_cards(out, &one);
            done = true;
        }
        push_cards(out, &cards);
        i = i + 1;
        assert(out@ =~= old(out)@ + emit_spec(recs.take(i as int), longstrn_present).0);
    }
    assert(recs.take(records@.len() as int) =~= recs);
}

/// Pads `out` with spaces to a whole number of blocks.
fn pad_to_block(out: &mut Vec<u8>)
    ensures
        final(out)@ == old(out)@ + spaces(block_pad(old(out)@.len())),
        final(out)@.len() % 2880 == 0,
{
    let ghost body = out@;
    while out.len() % BLOCK_LEN != 0
        invariant
            body.len() <= out@.len() < body.len() + 2880,
            out@ == body + spaces(out@.len() - body.len()),
            (out@.len() - body.len()) <= block_pad(body.len()),
            out@.len() % 2880 == (body.len() + (out@.len() - body.len())) % 2880,
        decreases block_pad(body.len()) - (out@.len() - body.len()),
    {
        out.push(32u8);
        assert(out@ =~= body + spaces(out@.len() - body.len()));
    }
}

/// Appends the `END` card and the block padding.
fn finish_header(out: &mut Vec<u8>)
    ensures
        final(out)@ == old(out)@ + pad80_spec(seq![69u8, 78u8, 68u8]) + spaces(
            block_pad((old(out)@ + pad80_spec(seq![69u8, 78u8, 68u8])).len()),
        ),
        final(out)@.len() % 2880 == 0,
{
    let mut end: Vec<u8> = Vec::new();
    end.push(69u8);
    end.push(78u8);
    end.push(68u8);
    let card = pad80_bytes(end.as_slice());
    assert(end@ =~= seq![69u8, 78u8, 68u8]);
    let mut one: Vec<[u8; CARD_LEN]> = Vec::new();
    one.push(card);
    assert(card_views(one@) =~= seq![card@]);
    proof {
        lemma_cat_one(card@);
    }
    push_cards(out, &one);
    pad_to_block(out);
}

/// Serialize the header block only (cards + `END`, padded to a 2880 multiple).
pub fn to_header_bytes(header: &Header) -> (out: Vec<u8>)
    ensures
        out@ == header_bytes_spec(header@),
        out@.len() % 2880 == 0,
        out@.len() >= 2880,
{
    let mut out: Vec<u8> = Vec::new();
    let present = has_longstrn(header);
    emit_records(&mut out, header.cards(), present);
    finish_header(&mut out);
    out
}

/// A line left-justified into a card is 80 bytes.
pub proof fn lemma_pad80_len(line: Seq<u8>)
    ensures
        pad80_spec(line).len() == 80,
{
}

/// The cards written for a record are whole 80-byte cards when its original bytes are.
pub proof fn lemma_render_whole(r: RecordView)
    requires
        crate::record::raw_is_cards(r),
    ensures
        render_spec(r).0.len() % 80 == 0,
{
    let cs: Seq<Seq<u8>> = match r.raw {
        Some(_) => seq![],
        None => match r.kind {
            KindView::Value { keyword, value: ValueView::Str(s), comment } => string_cards_spec(
                keyword,
                s,
                comment,
            ).0,
            KindView::Value { keyword, value: ValueView::Literal(l), comment } => seq![
                pad80_spec(literal_line(keyword, l, comment)),
            ],
            KindView::Commentary { keyword, text } => commentary_spec(keyword, text),
            KindView::Opaque { text } => seq![pad80_spec(encode_utf8(text))],
        },
    };
    if r.raw is None {
        assert(crate::roundtrip::whole_cards(cs)) by {
            assert forall|j: int| 0 <= j < cs.len() implies (#[trigger] cs[j]).len() == 80 by {
                match r.kind {
                    KindView::Value { keyword, value: ValueView::Str(s), comment } => {
                        let line = string_line(keyword, s, comment);
                        if line.len() <= 80 {
                            lemma_pad80_len(line);
                        } else {
                            let ps = continue_pieces(s);
                            let last = j == ps.len() - 1;
                            let pl = piece_line(keyword, ps[j], j, last);
                            lemma_pad80_len(pl);
                            lemma_pad80_len(pl + comment_part(comment));
                        }
                    },
                    KindView::Value { keyword, value: ValueView::Literal(l), comment } => {
                        lemma_pad80_len(literal_line(keyword, l, comment));
                    },
                    KindView::Commentary { keyword, text } => {
                        lemma_pad80_len(kw_field(keyword));
                        if text.len() > 0 {
                            let hi = if 72 * j + 72 <= text.len() {
                                72 * j + 72
                            } else {
                                text.len() as int
                            };
                            lemma_pad80_len(kw_field(keyword) + encode_utf8(text.subrange(72 * j, hi)));
                        }
                    },
                    KindView::Opaque { text } => {
                        lemma_pad80_len(encode_utf8(text));
                    },
                }
            }
        }
        crate::roundtrip::lemma_cat_cards(cs);
        vstd::arithmetic::div_mod::lemma_mod_multiples_basic(cs.len() as int, 80);
        match r.kind {
            KindView::Value { keyword, value: ValueView::Literal(l), comment } => {
                lemma_cat_one(pad80_spec(literal_line(keyword, l, comment)));
            },
            KindView::Opaque { text } => {
                lemma_cat_one(pad80_spec(encode_utf8(text)));
            },
            _ => {},
        }
    }
}

/// The bytes written for a run of records are whole 80-byte cards when every record's
/// original bytes are.
pub proof fn lemma_emit_whole(recs: Seq<RecordView>, done: bool)
    requires
        forall|i: int| 0 <= i < recs.len() ==> crate::record::raw_is_cards(#[trigger] recs[i]),
    ensures
        emit_spec(recs, done).0.len() % 80 == 0,
    decreases recs.len(),
{
    if recs.len() > 0 {
        let init = recs.drop_last();
        assert forall|i: int| 0 <= i < init.len() implies crate::record::raw_is_cards(
            #[trigger] init[i],
        ) by {
            assert(init[i] == recs[i]);
        }
        lemma_emit_whole(init, done);
        assert(recs.last() == recs[recs.len() - 1]);
        lemma_render_whole(recs.last());
        lemma_pad80_len(encode_utf8(longstrn_line()));
        let la = emit_spec(init, done).0.len() as int;
        let lc = render_spec(recs.last()).0.len() as int;
        assert((la + lc) % 80 == 0 && (la + 80 + lc) % 80 == 0) by (nonlinear_arith)
            requires
                la % 80 == 0,
                lc % 80 == 0,
        ;
    }
}

/// The header block is whole 80-byte cards: the records' cards, then the `END` card on a
/// card boundary, then only spaces, fewer than one block of them, up to a multiple of
/// 2880 bytes.
pub proof fn law_header_block_layout(h: Header)
    ensures
        ({
            let out = header_bytes_spec(h@);
            let body = emit_spec(h@, has_longstrn_spec(h@)).0;
            let k = (body.len() / 80) as int;
            &&& body.len() == 80 * k
            &&& out.subrange(0, 80 * k) == body
            &&& 80 * k + 80 <= out.len()
            &&& out.subrange(80 * k, 80 * k + 80) == pad80_spec(crate::parse::end_word())
            &&& forall|j: int| 80 * k + 80 <= j < out.len() ==> out[j] == 32u8
            &&& out.len() - (80 * k + 80) < 2880
            &&& out.len() % 2880 == 0
        }),
{
    h.lemma_raw_are_cards();
    let recs = h@;
    let body = emit_spec(recs, has_longstrn_spec(recs)).0;
    lemma_emit_whole(recs, has_longstrn_spec(recs));
    let end = pad80_spec(seq![69u8, 78u8, 68u8]);
    lemma_pad80_len(seq![69u8, 78u8, 68u8]);
    let full = body + end;
    let n = full.len() as int;
    let p = block_pad(full.len());
    let pad = spaces(p);
    let out = header_bytes_spec(recs);
    let k = (body.len() / 80) as int;
    assert(out == full + pad);
    assert(0 <= p < 2880 && (n + p) % 2880 == 0) by {
        if n % 2880 != 0 {
            assert((n + (2880 - n % 2880)) % 2880 == 0) by (nonlinear_arith)
                requires
                    n >= 0,
            ;
        }
    }
    assert(pad.len() == p);
    assert(out.len() == n + p);
    assert(out.subrange(0, 80 * k) =~= body);
    assert(out.subrange(80 * k, 80 * k + 80) =~= end);
    assert forall|j: int| 80 * k + 80 <= j < out.len() implies out[j] == 32u8 by {
        assert(out[j] == pad[j - n]);
    }
}

} // verus!
