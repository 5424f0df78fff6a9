//! Parse a FITS header unit from raw bytes.

use vstd::prelude::*;

use crate::error::FitsError;
use crate::header::Header;
use crate::record::{record_views, KindView, Record, RecordKind, RecordView, Value, ValueView};
use crate::text::{
    copy_range, find_byte, index_of, lossy_utf8, text_of_range, trim, trim_end,
    trim_end_from, trim_range, trim_start, trim_start_from,
};
use crate::CARD_LEN;

verus! {

/// How many whole 80-byte cards `b` holds.
pub open spec fn n_cards(b: Seq<u8>) -> int {
    b.len() as int / 80
}

/// The `i`-th card of `b`.
pub open spec fn card_at(b: Seq<u8>, i: int) -> Seq<u8> {
    b.subrange(80 * i, 80 * i + 80)
}

/// A card's keyword field (columns 1-8), trimmed.
pub open spec fn keyword_bytes(c: Seq<u8>) -> Seq<u8> {
    trim(c.subrange(0, 8))
}

/// `END`.
pub open spec fn end_word() -> Seq<u8> {
    seq![69u8, 78u8, 68u8]
}

/// `COMMENT`.
pub open spec fn comment_word() -> Seq<u8> {
    seq![67u8, 79u8, 77u8, 77u8, 69u8, 78u8, 84u8]
}

/// `HISTORY`.
pub open spec fn history_word() -> Seq<u8> {
    seq![72u8, 73u8, 83u8, 84u8, 79u8, 82u8, 89u8]
}

/// `CONTINUE`.
pub open spec fn continue_word() -> Seq<u8> {
    seq![67u8, 79u8, 78u8, 84u8, 73u8, 78u8, 85u8, 69u8]
}

/// A value card: `= ` in columns 9-10.
pub open spec fn is_value_card(c: Seq<u8>) -> bool {
    c[8] == 61u8 && c[9] == 32u8
}

/// The value field of a card (columns 11-80), leading whitespace dropped.
pub open spec fn value_field(c: Seq<u8>) -> Seq<u8> {
    trim_start(c.subrange(10, 80))
}

/// The unescaped content of a quoted string (the opening quote already consumed) and how
/// many bytes the content and its closing quote take up.
pub open spec fn quoted(r: Seq<u8>) -> (Seq<u8>, nat)
    decreases r.len(),
{
    if r.len() == 0 {
        (Seq::empty(), 0)
    } else if r[0] == 39u8 {
        if r.len() > 1 && r[1] == 39u8 {
            (seq![39u8] + quoted(r.skip(2)).0, quoted(r.skip(2)).1 + 2)
        } else {
            (Seq::empty(), 1)
        }
    } else {
        (seq![r[0]] + quoted(r.skip(1)).0, quoted(r.skip(1)).1 + 1)
    }
}

/// A comment after a value: the text following the first `/`, trimmed; none when empty.
pub open spec fn extract_comment(s: Seq<u8>) -> Option<Seq<u8>> {
    let i = index_of(s, 47u8);
    if i == s.len() {
        None
    } else if trim(s.skip(i + 1)).len() == 0 {
        None
    } else {
        Some(trim(s.skip(i + 1)))
    }
}

/// A quoted string field: its unescaped content (a trailing `&` continuation marker
/// removed), any inline comment, and whether the value continues.
pub open spec fn string_field(f: Seq<u8>) -> (Seq<u8>, Option<Seq<u8>>, bool) {
    if f.len() == 0 || f[0] != 39u8 {
        (Seq::empty(), None, false)
    } else {
        let rest = f.skip(1);
        let content = quoted(rest).0;
        let comment = extract_comment(rest.skip(quoted(rest).1 as int));
        let cont = content.len() > 0 && content.last() == 38u8;
        (
            if cont {
                content.drop_last()
            } else {
                content
            },
            comment,
            cont,
        )
    }
}

/// A literal field split into its trimmed token and optional comment.
pub open spec fn literal_parts(f: Seq<u8>) -> (Seq<u8>, Option<Seq<u8>>) {
    let i = index_of(f, 47u8);
    if i == f.len() {
        (trim(f), None)
    } else {
        (trim(f.take(i)), extract_comment(f.skip(i)))
    }
}

/// Follow a `CONTINUE` run from card `j`: the content gathered, the comment in force, and
/// the index of the first card after the run. A trailing `&` continues the value only when
/// a `CONTINUE` card follows; on the last card of a run it is part of the value.
pub open spec fn run(b: Seq<u8>, j: int, content: Seq<u8>, comment: Option<Seq<u8>>, cont: bool) -> (
    Seq<u8>,
    Option<Seq<u8>>,
    int,
)
    decreases n_cards(b) - j,
{
    if cont && 0 <= j < n_cards(b) && keyword_bytes(card_at(b, j)) == continue_word() {
        let f = string_field(value_field(card_at(b, j)));
        run(
            b,
            j + 1,
            content + f.0,
            if f.1 is Some {
                f.1
            } else {
                comment
            },
            f.2,
        )
    } else {
        (
            if cont {
                content.push(38u8)
            } else {
                content
            },
            comment,
            j,
        )
    }
}

/// The text of optional bytes.
pub open spec fn opt_lossy(o: Option<Seq<u8>>) -> Option<Seq<char>> {
    match o {
        Some(b) => Some(lossy_utf8(b)),
        None => None,
    }
}

/// The record that card `i` starts, and the index of the card after it.
pub open spec fn card_record(b: Seq<u8>, i: int) -> (RecordView, int) {
    let c = card_at(b, i);
    let kw = keyword_bytes(c);
    if is_value_card(c) {
        let f = value_field(c);
        if f.len() > 0 && f[0] == 39u8 {
            let s = string_field(f);
            let r = run(b, i + 1, s.0, s.1, s.2);
            (
                RecordView {
                    kind: KindView::Value {
                        keyword: lossy_utf8(kw),
                        value: ValueView::Str(lossy_utf8(trim_end(r.0))),
                        comment: opt_lossy(r.1),
                    },
                    raw: Some(b.subrange(80 * i, 80 * r.2)),
                },
                r.2,
            )
        } else {
            let l = literal_parts(f);
            (
                RecordView {
                    kind: KindView::Value {
                        keyword: lossy_utf8(kw),
                        value: ValueView::Literal(lossy_utf8(l.0)),
                        comment: opt_lossy(l.1),
                    },
                    raw: Some(c),
                },
                i + 1,
            )
        }
    } else if kw == comment_word() || kw == history_word() {
        (
            RecordView {
                kind: KindView::Commentary {
                    keyword: lossy_utf8(kw),
                    text: lossy_utf8(trim_end(c.subrange(8, 80))),
                },
                raw: Some(c),
            },
            i + 1,
        )
    } else if kw.len() == 0 {
        if trim(c.subrange(8, 80)).len() == 0 {
            (RecordView { kind: KindView::Opaque { text: Seq::empty() }, raw: Some(c) }, i + 1)
        } else {
            (
                RecordView {
                    kind: KindView::Commentary {
                        keyword: lossy_utf8(kw),
                        text: lossy_utf8(trim_end(c.subrange(8, 80))),
                    },
                    raw: Some(c),
                },
                i + 1,
            )
        }
    } else {
        (
            RecordView { kind: KindView::Opaque { text: lossy_utf8(trim_end(c)) }, raw: Some(c) },
            i + 1,
        )
    }
}

pub proof fn lemma_run_bounds(b: Seq<u8>, j: int, content: Seq<u8>, comment: Option<Seq<u8>>, cont: bool)
    requires
        0 <= j,
    ensures
        j <= run(b, j, content, comment, cont).2,
        run(b, j, content, comment, cont).2 <= (if j <= n_cards(b) {
            n_cards(b)
        } else {
            j
        }),
        forall|k: int|
            j <= k < run(b, j, content, comment, cont).2 ==> keyword_bytes(#[trigger] card_at(b, k))
                == continue_word(),
    decreases n_cards(b) - j,
{
    if cont && 0 <= j < n_cards(b) && keyword_bytes(card_at(b, j)) == continue_word() {
        let f = string_field(value_field(card_at(b, j)));
        lemma_run_bounds(
            b,
            j + 1,
            content + f.0,
            if f.1 is Some {
                f.1
            } else {
                comment
            },
            f.2,
        );
    }
}

/// The comment of a string field.
pub open spec fn field_comment(c: Seq<u8>) -> Option<Seq<u8>> {
    string_field(value_field(c)).1
}

/// Reading a `CONTINUE` run keeps the last comment found on its cards: when the run's
/// last card carries a comment, the run ends with it; an empty run keeps the comment it
/// started with; and the comment it ends with is the one it started with or that of one
/// of its cards.
pub proof fn law_run_keeps_last_comment(
    b: Seq<u8>,
    j: int,
    content: Seq<u8>,
    comment: Option<Seq<u8>>,
    cont: bool,
)
    requires
        0 <= j,
    ensures
        ({
            let r = run(b, j, content, comment, cont);
            &&& r.2 > j && field_comment(card_at(b, r.2 - 1)) is Some ==> r.1 == field_comment(
                card_at(b, r.2 - 1),
            )
            &&& r.2 == j ==> r.1 == comment
            &&& r.1 == comment || exists|t: int|
                j <= t < r.2 && r.1 is Some && #[trigger] field_comment(card_at(b, t)) == r.1
        }),
    decreases n_cards(b) - j,
{
    if cont && 0 <= j < n_cards(b) && keyword_bytes(card_at(b, j)) == continue_word() {
        let f = string_field(value_field(card_at(b, j)));
        let nc = if f.1 is Some {
            f.1
        } else {
            comment
        };
        lemma_run_bounds(b, j + 1, content + f.0, nc, f.2);
        law_run_keeps_last_comment(b, j + 1, content + f.0, nc, f.2);
        let r = run(b, j, content, comment, cont);
        assert(r == run(b, j + 1, content + f.0, nc, f.2));
        if r.1 != comment && r.1 == nc {
            assert(field_comment(card_at(b, j)) == r.1);
        }
    }
}

/// The records of the cards from `i` on, up to `END` or the end of the bytes.
pub open spec fn parse_from(b: Seq<u8>, i: int) -> Seq<RecordView>
    decreases n_cards(b) - i,
{
    if i < 0 || i >= n_cards(b) {
        Seq::empty()
    } else if keyword_bytes(card_at(b, i)) == end_word() {
        Seq::empty()
    } else {
        let r = card_record(b, i);
        proof {
            let c = card_at(b, i);
            let f = value_field(c);
            let s = string_field(f);
            lemma_run_bounds(b, i + 1, s.0, s.1, s.2);
        }
        seq![r.0] + parse_from(b, r.1)
    }
}

/// The records that parsing `b` yields.
pub open spec fn parse_spec(b: Seq<u8>) -> Seq<RecordView> {
    parse_from(b, 0)
}


/// The view of optional bytes.
pub open spec fn opt_bytes(o: Option<Vec<u8>>) -> Option<Seq<u8>> {
    match o {
        Some(v) => Some(v@),
        None => None,
    }
}

pub(crate) fn range_eq(b: &[u8], lo: usize, hi: usize, lit: &[u8]) -> (r: bool)
    requires
        lo <= hi <= b@.len(),
    ensures
        r == (b@.subrange(lo as int, hi as int) == lit@),
{
    if hi - lo != lit.len() {
        return false;
    }
    let mut k: usize = 0;
    while k < lit.len()
        invariant
            lo <= hi <= b@.len(),
            hi - lo == lit@.len(),
            k <= lit@.len(),
            forall|j: int| 0 <= j < k ==> b@[lo + j] == lit@[j],
        decreases lit@.len() - k,
    {
        if b[lo + k] != lit[k] {
            assert(b@.subrange(lo as int, hi as int)[k as int] != lit@[k as int]);
            return false;
        }
        k = k + 1;
    }
    assert(b@.subrange(lo as int, hi as int) =~= lit@);
    true
}

/// The unescaped content of the quoted string in `b[lo..hi]` (opening quote consumed)
/// and how many bytes it spans with its closing quote.
fn scan_quoted(b: &[u8], lo: usize, hi: usize) -> (r: (Vec<u8>, usize))
    requires
        lo <= hi <= b@.len(),
    ensures
        (r.0@, r.1 as nat) == quoted(b@.subrange(lo as int, hi as int)),
        r.1 <= hi - lo,
{
    let ghost s = b@.subrange(lo as int, hi as int);
    let mut content: Vec<u8> = Vec::new();
    let mut k: usize = 0;
    assert(s.skip(0) =~= s);
    while k < hi - lo
        invariant
            lo <= hi <= b@.len(),
            s == b@.subrange(lo as int, hi as int),
            k <= hi - lo,
            quoted(s).0 == content@ + quoted(s.skip(k as int)).0,
            quoted(s).1 == k + quoted(s.skip(k as int)).1,
        decreases hi - lo - k,
    {
        let ghost t = s.skip(k as int);
        assert(t[0] == b@[lo + k]);
        if b[lo + k] == 39u8 {
            if k + 1 < hi - lo && b[lo + k + 1] == 39u8 {
                assert(t[1] == b@[lo + k + 1]);
                assert(t.skip(2) =~= s.skip(k + 2));
                content.push(39u8);
                k = k + 2;
                assert(quoted(s).0 =~= content@ + quoted(s.skip(k as int)).0);
            } else {
                assert(quoted(t) == (Seq::<u8>::empty(), 1nat));
                assert(content@ + Seq::<u8>::empty() =~= content@);
                return (content, k + 1);
            }
        } else {
            assert(t.skip(1) =~= s.skip(k + 1));
            content.push(b[lo + k]);
            k = k + 1;
            assert(quoted(s).0 =~= content@ + quoted(s.skip(k as int)).0);
        }
    }
    assert(s.skip(k as int) =~= Seq::<u8>::empty());
    assert(content@ + Seq::<u8>::empty() =~= content@);
    (content, k)
}

/// The bounds of the comment in `b[lo..hi]`: the text after the first `/`, trimmed;
/// none when there is no `/` or the text is empty.
fn extract_comment_range(b: &[u8], lo: usize, hi: usize) -> (r: Option<(usize, usize)>)
    requires
        lo <= hi <= b@.len(),
    ensures
        match r {
            Some((x, y)) => lo <= x <= y <= hi && extract_comment(b@.subrange(lo as int, hi as int))
                == Some(b@.subrange(x as int, y as int)),
            None => extract_comment(b@.subrange(lo as int, hi as int)) is None,
        },
{
    let ghost s = b@.subrange(lo as int, hi as int);
    let i = find_byte(b, lo, hi, 47u8);
    if i == hi - lo {
        return None;
    }
    assert(s.skip(i + 1) =~= b@.subrange(lo + i + 1, hi as int));
    let (x, y) = trim_range(b, lo + i + 1, hi);
    if x == y {
        None
    } else {
        Some((x, y))
    }
}

/// A quoted string field in `b[lo..hi]`: content (continuation `&` removed), comment, and
/// whether the value continues.
fn parse_string_field(b: &[u8], lo: usize, hi: usize) -> (r: (Vec<u8>, Option<Vec<u8>>, bool))
    requires
        lo <= hi <= b@.len(),
    ensures
        (r.0@, opt_bytes(r.1), r.2) == string_field(b@.subrange(lo as int, hi as int)),
{
    let ghost f = b@.subrange(lo as int, hi as int);
    if lo == hi || b[lo] != 39u8 {
        return (Vec::new(), None, false);
    }
    assert(f.skip(1) =~= b@.subrange(lo + 1, hi as int));
    let (mut content, k) = scan_quoted(b, lo + 1, hi);
    assert(f.skip(1).skip(k as int) =~= b@.subrange(lo + 1 + k, hi as int));
    let comment = match extract_comment_range(b, lo + 1 + k, hi) {
        Some((x, y)) => Some(copy_range(b, x, y)),
        None => None,
    };
    let n = content.len();
    let cont = n > 0 && content[n - 1] == 38u8;
    if cont {
        let ghost before = content@;
        content.pop();
        assert(content@ =~= before.drop_last());
    }
    (content, comment, cont)
}

/// The token bounds and optional comment bounds of a literal field `b[lo..hi]`.
fn split_comment(b: &[u8], lo: usize, hi: usize) -> (r: ((usize, usize), Option<(usize, usize)>))
    requires
        lo <= hi <= b@.len(),
    ensures
        lo <= r.0.0 <= r.0.1 <= hi,
        literal_parts(b@.subrange(lo as int, hi as int)).0 == b@.subrange(r.0.0 as int, r.0.1 as int),
        match r.1 {
            Some((x, y)) => lo <= x <= y <= hi && literal_parts(b@.subrange(lo as int, hi as int)).1 == Some(
                b@.subrange(x as int, y as int),
            ),
            None => literal_parts(b@.subrange(lo as int, hi as int)).1 is None,
        },
{
    let ghost f = b@.subrange(lo as int, hi as int);
    let i = find_byte(b, lo, hi, 47u8);
    if i == hi - lo {
        let t = trim_range(b, lo, hi);
        return (t, None);
    }
    assert(f.take(i as int) =~= b@.subrange(lo as int, lo + i));
    assert(f.skip(i as int) =~= b@.subrange(lo + i, hi as int));
    let t = trim_range(b, lo, lo + i);
    let c = extract_comment_range(b, lo + i, hi);
    (t, c)
}

/// Card `j` of `b` as an array.
fn card_array(b: &[u8], j: usize) -> (c: [u8; CARD_LEN])
    requires
        80 * j + 80 <= b@.len(),
    ensures
        c@ == card_at(b@, j as int),
{
    let len = b.len();
    assert(80 * j + 80 <= len);
    let base = 80 * j;
    let mut c: [u8; CARD_LEN] = [32u8; CARD_LEN];
    let mut k: usize = 0;
    while k < CARD_LEN
        invariant
            base == 80 * j,
            len == b@.len(),
            base + 80 <= b@.len(),
            k <= 80,
            c@.len() == 80,
            forall|m: int| 0 <= m < k ==> c@[m] == b@[base + m],
        decreases 80 - k,
    {
        c[k] = b[base + k];
        k = k + 1;
    }
    assert(c@ =~= card_at(b@, j as int));
    c
}

/// Whether card `j` carries the keyword `kw`; also the bounds of its trimmed keyword.
pub(crate) fn card_keyword(b: &[u8], j: usize) -> (r: (usize, usize))
    requires
        80 * j + 80 <= b@.len(),
    ensures
        80 * j <= r.0 <= r.1 <= 80 * j + 8,
        b@.subrange(r.0 as int, r.1 as int) == keyword_bytes(card_at(b@, j as int)),
{
    let len = b.len();
    assert(80 * j + 80 <= len);
    let base = 80 * j;
    assert(card_at(b@, j as int).subrange(0, 8) =~= b@.subrange(base as int, base + 8));
    trim_range(b, base, base + 8)
}

fn is_continue_card(b: &[u8], j: usize) -> (r: bool)
    requires
        80 * j + 80 <= b@.len(),
    ensures
        r == (keyword_bytes(card_at(b@, j as int)) == continue_word()),
{
    let (k0, k1) = card_keyword(b, j);
    let lit: [u8; 8] = [67u8, 79u8, 78u8, 84u8, 73u8, 78u8, 85u8, 69u8];
    assert(lit@ =~= continue_word());
    range_eq(b, k0, k1, lit.as_slice())
}

fn decode_opt(o: &Option<Vec<u8>>) -> (r: Option<String>)
    ensures
        crate::record::opt_text(r) == opt_lossy(opt_bytes(*o)),
{
    match o {
        Some(v) => {
            assert(v@.subrange(0, v@.len() as int) =~= v@);
            Some(text_of_range(v.as_slice(), 0, v.len()))
        },
        None => None,
    }
}

/// Parse one FITS header unit from raw bytes.
///
/// Reads 80-byte cards in order, stops at `END`, and retains every card (including
/// commentary, `HIERARCH`, and unrecognized cards) so untouched cards serialize verbatim.
/// `CONTINUE` runs are reassembled into a single logical value. Parsing is lenient and
/// always succeeds.
pub fn parse(bytes: &[u8]) -> (r: Result<Header, FitsError>)
    ensures
        r matches Ok(h) && h@ == parse_spec(bytes@),
{
    let len = bytes.len();
    let n = len / CARD_LEN;
    let mut records: Vec<Record> = Vec::new();
    let mut i: usize = 0;
    let mut ended = false;
    assert(record_views(records@) + parse_from(bytes@, 0) =~= parse_spec(bytes@));
    while i < n && !ended
        invariant
            n == n_cards(bytes@),
            len == bytes@.len(),
            80 * n <= len,
            i <= n,
            parse_spec(bytes@) == record_views(records@) + parse_from(bytes@, i as int),
            ended ==> parse_from(bytes@, i as int) == Seq::<RecordView>::empty(),
        decreases (n - i) * 2 + if ended {
            0int
        } else {
            1int
        },
    {
        let ghost b = bytes@;
        let base = 80 * i;
        let ghost c = card_at(b, i as int);
        let (k0, k1) = card_keyword(bytes, i);
        let end_lit: [u8; 3] = [69u8, 78u8, 68u8];
        assert(end_lit@ =~= end_word());
        if range_eq(bytes, k0, k1, end_lit.as_slice()) {
            ended = true;
        } else {
            let ghost step = card_record(b, i as int);
            let ghost before = record_views(records@);
            assert(c[8] == bytes@[base + 8] && c[9] == bytes@[base + 9]);
            let keyword = text_of_range(bytes, k0, k1);
            if bytes[base + 8] == 61u8 && bytes[base + 9] == 32u8 {
                assert(c.subrange(10, 80) =~= b.subrange(base + 10, base + 80));
                let f0 = trim_start_from(bytes, base + 10, base + 80);
                if f0 < base + 80 && bytes[f0] == 39u8 {
                    let (mut content, mut comment, mut cont) = parse_string_field(
                        bytes,
                        f0,
                        base + 80,
                    );
                    let mut raw: Vec<[u8; CARD_LEN]> = Vec::new();
                    raw.push(card_array(bytes, i));
                    let mut j: usize = i + 1;
                    let ghost s0 = string_field(value_field(c));
                    assert(b.subrange(80 * i, 80 * j) =~= c);
                    proof {
                        crate::record::lemma_flatten_one(raw@[0]);
                        assert(raw@ =~= seq![raw@[0]]);
                    }
                    while cont && j < n && is_continue_card(bytes, j)
                        invariant
                            n == n_cards(b),
                            b == bytes@,
                            len == bytes@.len(),
                            80 * n <= len,
                            i < j <= n,
                            run(b, i + 1, s0.0, s0.1, s0.2) == run(
                                b,
                                j as int,
                                content@,
                                opt_bytes(comment),
                                cont,
                            ),
                            crate::record::flatten(raw@) == b.subrange(80 * i, 80 * j),
                        decreases n - j,
                    {
                        let nb = 80 * j;
                        let ghost cj = card_at(b, j as int);
                        assert(cj.subrange(10, 80) =~= b.subrange(nb + 10, nb + 80));
                        let g0 = trim_start_from(bytes, nb + 10, nb + 80);
                        let (piece, c2, cont2) = parse_string_field(bytes, g0, nb + 80);
                        let ghost old_content = content@;
                        let mut pi: usize = 0;
                        while pi < piece.len()
                            invariant
                                pi <= piece@.len(),
                                content@ == old_content + piece@.take(pi as int),
                            decreases piece@.len() - pi,
                        {
                            content.push(piece[pi]);
                            pi = pi + 1;
                            assert(content@ =~= old_content + piece@.take(pi as int));
                        }
                        assert(piece@.take(piece@.len() as int) =~= piece@);
                        if c2.is_some() {
                            comment = c2;
                        }
                        cont = cont2;
                        let ghost old_raw = raw@;
                        raw.push(card_array(bytes, j));
                        assert(raw@.drop_last() =~= old_raw);
                        assert(b.subrange(80 * i, 80 * (j + 1)) =~= b.subrange(80 * i, 80 * j) + cj);
                        j = j + 1;
                    }
                    if cont {
                        content.push(38u8);
                    }
                    let e = trim_end_from(content.as_slice(), 0, content.len());
                    assert(content@.subrange(0, content@.len() as int) =~= content@);
                    let text = text_of_range(content.as_slice(), 0, e);
                    let cmt = decode_opt(&comment);
                    let rec = Record::from_raw(
                        RecordKind::Value { keyword, value: Value::Str(text), comment: cmt },
                        raw,
                    );
                    records.push(rec);
                    assert(record_views(records@) =~= before.push(step.0));
                    assert(step.1 == j);
                    i = j;
                } else {
                    let ((t0, t1), cm) = split_comment(bytes, f0, base + 80);
                    let token = text_of_range(bytes, t0, t1);
                    let cmt = match cm {
                        Some((x, y)) => Some(text_of_range(bytes, x, y)),
                        None => None,
                    };
                    let mut raw: Vec<[u8; CARD_LEN]> = Vec::new();
                    raw.push(card_array(bytes, i));
                    proof {
                        crate::record::lemma_flatten_one(raw@[0]);
                        assert(raw@ =~= seq![raw@[0]]);
                    }
                    let rec = Record::from_raw(
                        RecordKind::Value { keyword, value: Value::Literal(token), comment: cmt },
                        raw,
                    );
                    records.push(rec);
                    assert(record_views(records@) =~= before.push(step.0));
                    i = i + 1;
                }
            } else {
                let comment_lit: [u8; 7] = [67u8, 79u8, 77u8, 77u8, 69u8, 78u8, 84u8];
                let history_lit: [u8; 7] = [72u8, 73u8, 83u8, 84u8, 79u8, 82u8, 89u8];
                assert(comment_lit@ =~= comment_word());
                assert(history_lit@ =~= history_word());
                let mut raw: Vec<[u8; CARD_LEN]> = Vec::new();
                raw.push(card_array(bytes, i));
                proof {
                    crate::record::lemma_flatten_one(raw@[0]);
                    assert(raw@ =~= seq![raw@[0]]);
                }
                assert(c.subrange(8, 80) =~= b.subrange(base + 8, base + 80));
                let kind = if range_eq(bytes, k0, k1, comment_lit.as_slice()) || range_eq(
                    bytes,
                    k0,
                    k1,
                    history_lit.as_slice(),
                ) {
                    let te = trim_end_from(bytes, base + 8, base + 80);
                    RecordKind::Commentary { keyword, text: text_of_range(bytes, base + 8, te) }
                } else if k0 == k1 {
                    let (r0, r1) = trim_range(bytes, base + 8, base + 80);
                    if r0 == r1 {
                        RecordKind::Opaque { text: String::new() }
                    } else {
                        let te = trim_end_from(bytes, base + 8, base + 80);
                        RecordKind::Commentary { keyword, text: text_of_range(bytes, base + 8, te) }
                    }
                } else {
                    assert(c =~= b.subrange(base as int, base + 80));
                    let te = trim_end_from(bytes, base, base + 80);
                    RecordKind::Opaque { text: text_of_range(bytes, base, te) }
                };
                let rec = Record::from_raw(kind, raw);
                records.push(rec);
                assert(record_views(records@) =~= before.push(step.0));
                i = i + 1;
            }
        }
    }
    assert(record_views(records@) + Seq::<RecordView>::empty() =~= record_views(records@));
    Ok(Header::from_records(records))
}


/// `e` is the index of the first `END` card of `b`, or the card count when there is none.
pub open spec fn first_end(b: Seq<u8>, e: int) -> bool {
    &&& 0 <= e <= n_cards(b)
    &&& forall|k: int| 0 <= k < e ==> keyword_bytes(#[trigger] card_at(b, k)) != end_word()
    &&& e < n_cards(b) ==> keyword_bytes(card_at(b, e)) == end_word()
}

/// The index of the first `END` card of `b`, or the card count when there is none.
pub open spec fn end_index(b: Seq<u8>) -> int {
    choose|e: int| first_end(b, e)
}

pub proof fn lemma_end_index(b: Seq<u8>)
    ensures
        first_end(b, end_index(b)),
    decreases n_cards(b),
{
    assert(exists|e: int| first_end(b, e)) by {
        lemma_first_end_exists(b, 0);
    }
}

/// There is only one first `END` card.
pub proof fn lemma_first_end_unique(b: Seq<u8>, e1: int, e2: int)
    requires
        first_end(b, e1),
        first_end(b, e2),
    ensures
        e1 == e2,
{
    if e1 < e2 {
        assert(keyword_bytes(card_at(b, e1)) == end_word());
    } else if e2 < e1 {
        assert(keyword_bytes(card_at(b, e2)) == end_word());
    }
}

proof fn lemma_first_end_exists(b: Seq<u8>, start: int)
    requires
        0 <= start <= n_cards(b),
        forall|k: int| 0 <= k < start ==> keyword_bytes(#[trigger] card_at(b, k)) != end_word(),
    ensures
        exists|e: int| first_end(b, e),
    decreases n_cards(b) - start,
{
    if start == n_cards(b) {
        assert(first_end(b, start));
    } else if keyword_bytes(card_at(b, start)) == end_word() {
        assert(first_end(b, start));
    } else {
        assert forall|k: int| 0 <= k < start + 1 implies keyword_bytes(#[trigger] card_at(b, k))
            != end_word() by {}
        lemma_first_end_exists(b, start + 1);
    }
}

/// Every record holds the bytes it was parsed from.
pub open spec fn all_raw(recs: Seq<RecordView>) -> bool {
    forall|k: int| 0 <= k < recs.len() ==> (#[trigger] recs[k]).raw is Some
}

/// The retained bytes of the records, in order.
pub open spec fn raws(recs: Seq<RecordView>) -> Seq<u8>
    decreases recs.len(),
{
    if recs.len() == 0 {
        Seq::empty()
    } else {
        raws(recs.drop_last()) + recs.last().raw.unwrap()
    }
}

pub proof fn lemma_raws_prepend(r: RecordView, rest: Seq<RecordView>)
    ensures
        raws(seq![r] + rest) == r.raw.unwrap() + raws(rest),
    decreases rest.len(),
{
    let x = r.raw.unwrap();
    let all = seq![r] + rest;
    if rest.len() == 0 {
        assert(all =~= seq![r]);
        assert(all.drop_last() =~= Seq::<RecordView>::empty());
        assert(all.last() == r);
        assert(raws(all) == raws(all.drop_last()) + x);
        assert(raws(rest) == Seq::<u8>::empty());
        assert(x + Seq::<u8>::empty() =~= x);
        assert(Seq::<u8>::empty() + x =~= x);
    } else {
        assert(all.drop_last() =~= seq![r] + rest.drop_last());
        assert(all.last() == rest.last());
        lemma_raws_prepend(r, rest.drop_last());
        assert(raws(all) == raws(all.drop_last()) + rest.last().raw.unwrap());
        assert(raws(rest) == raws(rest.drop_last()) + rest.last().raw.unwrap());
        assert(x + raws(rest.drop_last()) + rest.last().raw.unwrap() =~= x + (raws(
            rest.drop_last(),
        ) + rest.last().raw.unwrap()));
    }
}

pub proof fn lemma_emit_raw(recs: Seq<RecordView>, done: bool)
    requires
        all_raw(recs),
    ensures
        crate::write::emit_spec(recs, done) == (raws(recs), done),
    decreases recs.len(),
{
    if recs.len() > 0 {
        assert(all_raw(recs.drop_last()));
        lemma_emit_raw(recs.drop_last(), done);
        assert(recs[recs.len() - 1].raw is Some);
    }
}

pub proof fn lemma_parse_from_raws(b: Seq<u8>, i: int)
    requires
        0 <= i <= end_index(b),
    ensures
        all_raw(parse_from(b, i)),
        raws(parse_from(b, i)) == b.subrange(80 * i, 80 * end_index(b)),
    decreases n_cards(b) - i,
{
    let e = end_index(b);
    lemma_end_index(b);
    if i == e {
        assert(parse_from(b, i) =~= Seq::<RecordView>::empty());
        assert(b.subrange(80 * i, 80 * e) =~= Seq::<u8>::empty());
    } else {
        assert(keyword_bytes(card_at(b, i)) != end_word());
        let c = card_at(b, i);
        let f = value_field(c);
        let s = string_field(f);
        lemma_run_bounds(b, i + 1, s.0, s.1, s.2);
        let r = card_record(b, i);
        let j = r.1;
        if j > e {
            if e < n_cards(b) {
                assert(keyword_bytes(card_at(b, e)) == continue_word());
                assert(continue_word()[0] != end_word()[0]);
            }
        }
        assert(j <= e);
        lemma_parse_from_raws(b, j);
        assert(parse_from(b, i) == seq![r.0] + parse_from(b, j));
        lemma_raws_prepend(r.0, parse_from(b, j));
        assert(r.0.raw == Some(b.subrange(80 * i, 80 * j)));
        assert(b.subrange(80 * i, 80 * e) =~= b.subrange(80 * i, 80 * j) + b.subrange(80 * j, 80 * e));
        assert forall|k: int| 0 <= k < parse_from(b, i).len() implies (#[trigger] parse_from(b, i)[k]).raw is Some by {
            if k > 0 {
                assert(parse_from(b, i)[k] == parse_from(b, j)[k - 1]);
            }
        }
    }
}

/// The cards a record was read from: whole 80-byte cards, at least one; more than one
/// only for a string value card, whose further cards are all `CONTINUE` cards.
pub open spec fn card_group(r: RecordView) -> bool {
    &&& r.raw is Some
    &&& r.raw.unwrap().len() >= 80
    &&& r.raw.unwrap().len() % 80 == 0
    &&& r.raw.unwrap().len() > 80 ==> {
        &&& r.kind matches KindView::Value { value: ValueView::Str(_), .. }
        &&& is_value_card(r.raw.unwrap())
        &&& forall|j: int|
            1 <= j < r.raw.unwrap().len() / 80 ==> keyword_bytes(
                #[trigger] card_at(r.raw.unwrap(), j),
            ) == continue_word()
    }
}

/// The record that a card starts holds that card and, for a string value, the
/// `CONTINUE` cards its run takes; it ends after its first card.
pub proof fn lemma_card_record_group(b: Seq<u8>, i: int)
    requires
        0 <= i < n_cards(b),
    ensures
        card_group(card_record(b, i).0),
        i < card_record(b, i).1 <= n_cards(b),
{
    let c = card_at(b, i);
    let f = value_field(c);
    let s = string_field(f);
    lemma_run_bounds(b, i + 1, s.0, s.1, s.2);
    let r = card_record(b, i);
    let j2 = r.1;
    let raw = r.0.raw.unwrap();
    assert(80 * i + 80 <= b.len()) by (nonlinear_arith)
        requires
            0 <= i < b.len() as int / 80,
    ;
    if is_value_card(c) && f.len() > 0 && f[0] == 39u8 {
        assert(80 * j2 <= b.len()) by (nonlinear_arith)
            requires
                j2 <= b.len() as int / 80,
        ;
        assert(raw == b.subrange(80 * i, 80 * j2));
        assert(raw.len() == 80 * (j2 - i));
        vstd::arithmetic::div_mod::lemma_mod_multiples_basic(j2 - i, 80);
        assert(raw.len() / 80 == j2 - i) by (nonlinear_arith)
            requires
                raw.len() == 80 * (j2 - i),
                j2 - i >= 1,
        ;
        assert(raw[8] == c[8] && raw[9] == c[9]);
        assert forall|j: int| 1 <= j < raw.len() / 80 implies keyword_bytes(
            #[trigger] card_at(raw, j),
        ) == continue_word() by {
            assert(card_at(raw, j) =~= card_at(b, i + j));
        }
    } else {
        assert(raw == c);
        assert(raw.len() == 80);
    }
}

/// Every record read from the cards from `i` on is a card group.
pub proof fn lemma_parse_from_groups(b: Seq<u8>, i: int)
    requires
        0 <= i,
    ensures
        forall|k: int| 0 <= k < parse_from(b, i).len() ==> card_group(#[trigger] parse_from(b, i)[k]),
    decreases n_cards(b) - i,
{
    if i < n_cards(b) && keyword_bytes(card_at(b, i)) != end_word() {
        let r = card_record(b, i);
        lemma_card_record_group(b, i);
        lemma_parse_from_groups(b, r.1);
        assert(parse_from(b, i) == seq![r.0] + parse_from(b, r.1));
        assert forall|k: int| 0 <= k < parse_from(b, i).len() implies card_group(
            #[trigger] parse_from(b, i)[k],
        ) by {
            if k > 0 {
                assert(parse_from(b, i)[k] == parse_from(b, r.1)[k - 1]);
            }
        }
    }
}

/// Parsing keeps the cards faithfully grouped: every card before the first `END` card is
/// kept exactly once and in order, nothing from `END` on is kept, and only a string
/// value card and the `CONTINUE` cards that follow it share one record; every other
/// record holds exactly one card.
pub proof fn law_parse_groups_cards(b: Seq<u8>)
    ensures
        all_raw(parse_spec(b)),
        raws(parse_spec(b)) == b.subrange(0, 80 * end_index(b)),
        forall|k: int| 0 <= k < parse_spec(b).len() ==> card_group(#[trigger] parse_spec(b)[k]),
{
    lemma_end_index(b);
    lemma_parse_from_raws(b, 0);
    lemma_parse_from_groups(b, 0);
}

/// Faithful retention: serializing a freshly parsed header gives back every card before
/// `END` byte for byte, followed by an `END` card and the block padding.
pub proof fn law_parse_then_serialize(b: Seq<u8>)
    ensures
        ({
            let body = b.subrange(0, 80 * end_index(b)) + crate::write::pad80_spec(end_word());
            crate::write::header_bytes_spec(parse_spec(b)) == body + crate::write::spaces(
                crate::write::block_pad(body.len()),
            )
        }),
{
    lemma_end_index(b);
    lemma_parse_from_raws(b, 0);
    lemma_emit_raw(parse_spec(b), crate::write::has_longstrn_spec(parse_spec(b)));
}

/// Stable re-serialization: parsing a serialized header and serializing it again gives
/// the same bytes, provided no card before the closing `END` itself reads as `END` (a
/// record keyed `END` would end the header early).
pub proof fn law_reserialize_is_stable(recs: Seq<crate::record::RecordView>)
    requires
        ({
            let body = crate::write::emit_spec(recs, crate::write::has_longstrn_spec(recs)).0;
            &&& body.len() % 80 == 0
            &&& first_end(crate::write::header_bytes_spec(recs), (body.len() / 80) as int)
        }),
    ensures
        crate::write::header_bytes_spec(parse_spec(crate::write::header_bytes_spec(recs)))
            == crate::write::header_bytes_spec(recs),
{
    let out = crate::write::header_bytes_spec(recs);
    let body = crate::write::emit_spec(recs, crate::write::has_longstrn_spec(recs)).0;
    let e = (body.len() / 80) as int;
    lemma_end_index(out);
    lemma_first_end_unique(out, e, end_index(out));
    law_parse_then_serialize(out);
    assert(out.subrange(0, 80 * e) =~= body);
}

} // verus!
