//! Locating the header region at the start of a FITS file and replacing it.
//!
//! A file's header is the run of cards up to and including `END`, padded to whole
//! 2880-byte blocks; everything after it (the data unit, later HDUs) is kept byte for
//! byte when the header is rewritten.

use vstd::prelude::*;

use crate::error::{ErrorView, FitsError};
use crate::header::Header;
use crate::parse::{
    card_at, card_keyword, card_record, continue_word, end_index, end_word, first_end,
    keyword_bytes, law_parse_then_serialize, lemma_end_index, lemma_first_end_unique,
    lemma_run_bounds, n_cards, parse, parse_from, parse_spec, range_eq, run, string_field,
    value_field,
};
use crate::text::{copy_range, extend_range};
use crate::write::{block_pad, header_bytes_spec, pad80_spec, spaces};
use crate::BLOCK_LEN;

verus! {

/// `b` holds an `END` card.
pub open spec fn has_end(b: Seq<u8>) -> bool {
    end_index(b) < n_cards(b)
}

/// The length of the header region of `b`: its cards up to and including the first `END`,
/// rounded up to a whole number of 2880-byte blocks.
pub open spec fn region_len(b: Seq<u8>) -> int {
    let raw = 80 * (end_index(b) + 1);
    raw + block_pad(raw as nat)
}

/// The byte length of the header region at the start of `bytes`: cards up to and including
/// `END`, rounded up to a multiple of [`BLOCK_LEN`]. It scans the same way parsing does, so
/// it always agrees with what parsing would consume. Errors with `MissingEnd` when there is
/// no `END` card.
pub fn header_region_len(bytes: &[u8]) -> (r: Result<usize, FitsError>)
    requires
        bytes@.len() + 2880 <= usize::MAX,
    ensures
        match r {
            Ok(n) => has_end(bytes@) && n == region_len(bytes@),
            Err(e) => !has_end(bytes@) && e@ == ErrorView::MissingEnd,
        },
{
    let n = bytes.len() / 80;
    let mut i: usize = 0;
    let end_lit: [u8; 3] = [69u8, 78u8, 68u8];
    assert(end_lit@ =~= end_word());
    while i < n
        invariant
            n == n_cards(bytes@),
            80 * n <= bytes@.len(),
            i <= n,
            end_lit@ == end_word(),
            bytes@.len() + 2880 <= usize::MAX,
            forall|k: int| 0 <= k < i ==> keyword_bytes(#[trigger] card_at(bytes@, k)) != end_word(),
        decreases n - i,
    {
        let (lo, hi) = card_keyword(bytes, i);
        if range_eq(bytes, lo, hi, end_lit.as_slice()) {
            proof {
                assert(first_end(bytes@, i as int));
                lemma_end_index(bytes@);
                lemma_first_end_unique(bytes@, i as int, end_index(bytes@));
            }
            let raw: usize = (i + 1) * 80;
            let rem: usize = raw % BLOCK_LEN;
            if rem == 0 {
                return Ok(raw);
            } else {
                return Ok(raw + (BLOCK_LEN - rem));
            }
        }
        i = i + 1;
    }
    proof {
        assert(first_end(bytes@, n as int));
        lemma_end_index(bytes@);
        lemma_first_end_unique(bytes@, n as int, end_index(bytes@));
    }
    Err(FitsError::MissingEnd)
}

/// Locates the header at the start of a file's bytes: the parsed header region and its
/// length. Errors with `MissingEnd` when there is no `END` card, and with
/// `TruncatedHeader` when there is one but the bytes end before its last block does.
pub fn locate_header(bytes: &[u8]) -> (r: Result<(Header, usize), FitsError>)
    requires
        bytes@.len() + 2880 <= usize::MAX,
    ensures
        match r {
            Ok((h, n)) => {
                &&& has_end(bytes@)
                &&& n == region_len(bytes@)
                &&& n <= bytes@.len()
                &&& h@ == parse_spec(bytes@.subrange(0, n as int))
            },
            Err(e) => if !has_end(bytes@) {
                e@ == ErrorView::MissingEnd
            } else {
                region_len(bytes@) > bytes@.len() && e@ == ErrorView::TruncatedHeader
            },
        },
{
    let n = match header_region_len(bytes) {
        Ok(n) => n,
        Err(e) => {
            return Err(e);
        },
    };
    if n > bytes.len() {
        return Err(FitsError::TruncatedHeader);
    }
    let region = copy_range(bytes, 0, n);
    match parse(region.as_slice()) {
        Ok(h) => Ok((h, n)),
        Err(e) => Err(e),
    }
}

/// A file's bytes with the header region `bytes[..region]` replaced by `header`'s header
/// block, and every byte after the region kept as it was.
pub fn splice_header(header: &Header, bytes: &[u8], region: usize) -> (out: Vec<u8>)
    requires
        region <= bytes@.len(),
    ensures
        out@ == header_bytes_spec(header@) + bytes@.subrange(region as int, bytes@.len() as int),
{
    let mut out = header.to_header_bytes();
    extend_range(&mut out, bytes, region, bytes.len());
    out
}

/// The header region of `b` has the same first `END` card as `b`.
proof fn lemma_region_end(b: Seq<u8>)
    requires
        has_end(b),
        region_len(b) <= b.len(),
    ensures
        end_index(b.subrange(0, region_len(b))) == end_index(b),
{
    let e = end_index(b);
    let r = b.subrange(0, region_len(b));
    lemma_end_index(b);
    assert(n_cards(r) >= e + 1);
    assert forall|k: int| 0 <= k <= e implies #[trigger] card_at(r, k) == card_at(b, k) by {
        assert(card_at(r, k) =~= card_at(b, k));
    }
    assert forall|k: int| 0 <= k < e implies keyword_bytes(#[trigger] card_at(r, k))
        != end_word() by {
        assert(card_at(r, k) == card_at(b, k));
    }
    assert(card_at(r, e) == card_at(b, e));
    assert(first_end(r, e));
    lemma_end_index(r);
    lemma_first_end_unique(r, e, end_index(r));
}

/// A file whose `END` card is the plain `END` card and whose header padding is spaces comes
/// back byte for byte when its header is parsed and written back unedited.
pub proof fn law_unedited_header_reproduces_file(b: Seq<u8>)
    requires
        has_end(b),
        region_len(b) <= b.len(),
        card_at(b, end_index(b)) == pad80_spec(end_word()),
        b.subrange(80 * (end_index(b) + 1), region_len(b)) == spaces(region_len(b) - 80 * (
        end_index(b) + 1)),
    ensures
        header_bytes_spec(parse_spec(b.subrange(0, region_len(b)))) + b.subrange(
            region_len(b),
            b.len() as int,
        ) == b,
{
    let e = end_index(b);
    let n = region_len(b);
    let r = b.subrange(0, n);
    lemma_end_index(b);
    lemma_region_end(b);
    law_parse_then_serialize(r);
    let body = r.subrange(0, 80 * e) + pad80_spec(end_word());
    assert(body.len() == 80 * (e + 1));
    assert(body + spaces(block_pad(body.len())) =~= r);
    assert(r + b.subrange(n, b.len() as int) =~= b);
}

/// A prefix of `b` holding its cards up to the first `END` card.
spec fn covers_header(b: Seq<u8>, r: Seq<u8>) -> bool {
    &&& has_end(b)
    &&& r.len() <= b.len()
    &&& r == b.subrange(0, r.len() as int)
    &&& r.len() >= 80 * (end_index(b) + 1)
}

proof fn lemma_prefix_cards(b: Seq<u8>, r: Seq<u8>, k: int)
    requires
        covers_header(b, r),
        0 <= k <= end_index(b),
    ensures
        card_at(r, k) == card_at(b, k),
        k < n_cards(r),
{
    assert(card_at(r, k) =~= card_at(b, k));
}

proof fn lemma_prefix_run(
    b: Seq<u8>,
    r: Seq<u8>,
    j: int,
    content: Seq<u8>,
    comment: Option<Seq<u8>>,
    cont: bool,
)
    requires
        covers_header(b, r),
        0 <= j <= end_index(b),
    ensures
        run(r, j, content, comment, cont) == run(b, j, content, comment, cont),
    decreases end_index(b) - j,
{
    let e = end_index(b);
    lemma_end_index(b);
    lemma_prefix_cards(b, r, j);
    if j == e {
        assert(end_word()[0] != continue_word()[0]);
    } else if cont && keyword_bytes(card_at(b, j)) == continue_word() {
        let f = string_field(value_field(card_at(b, j)));
        lemma_prefix_run(
            b,
            r,
            j + 1,
            content + f.0,
            if f.1 is Some {
                f.1
            } else {
                comment
            },
            f.2,
        );
    }
}

proof fn lemma_prefix_parse(b: Seq<u8>, r: Seq<u8>, i: int)
    requires
        covers_header(b, r),
        0 <= i <= end_index(b),
    ensures
        parse_from(r, i) == parse_from(b, i),
    decreases end_index(b) - i,
{
    let e = end_index(b);
    lemma_end_index(b);
    lemma_prefix_cards(b, r, i);
    if i < e {
        let c = card_at(b, i);
        let f = value_field(c);
        let sf = string_field(f);
        lemma_prefix_run(b, r, i + 1, sf.0, sf.1, sf.2);
        lemma_run_bounds(b, i + 1, sf.0, sf.1, sf.2);
        let nx = run(b, i + 1, sf.0, sf.1, sf.2).2;
        if nx > e {
            assert(keyword_bytes(card_at(b, e)) == continue_word());
            assert(continue_word()[0] != end_word()[0]);
        }
        assert(r.subrange(80 * i, 80 * nx) =~= b.subrange(80 * i, 80 * nx));
        assert(card_record(r, i) == card_record(b, i));
        lemma_prefix_parse(b, r, card_record(b, i).1);
    }
}

/// The header region is all that parsing reads: parsing it alone gives the same records
/// as parsing the whole file.
pub proof fn law_region_parses_like_file(b: Seq<u8>)
    requires
        has_end(b),
        region_len(b) <= b.len(),
    ensures
        parse_spec(b.subrange(0, region_len(b))) == parse_spec(b),
{
    lemma_end_index(b);
    let r = b.subrange(0, region_len(b));
    assert(r =~= b.subrange(0, r.len() as int));
    lemma_prefix_parse(b, r, 0);
}

} // verus!
