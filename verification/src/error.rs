//! Error type for fallible header operations.

use vstd::prelude::*;
use vstd::utf8::encode_utf8;

use crate::number::{digits, lemma_digits_shape, push_digits};
use crate::text::{ascii_chars, lemma_ascii_decode, lemma_encode_concat, push_text, utf8_text};

verus! {

/// Errors from validated header mutations, ambiguous lookups, and locating a header
/// inside a file.
///
/// Parsing is lenient and does not produce these; header-only serialization is
/// infallible.
#[derive(Debug, Clone, PartialEq, Eq)]
#[non_exhaustive]
pub enum FitsError {
    /// A bare-name `get`/`set`/`remove` addressed a keyword that occurs more than once.
    AmbiguousKeyword { keyword: String, count: usize },
    /// A keyword longer than the 8-character FITS field.
    KeywordTooLong { keyword: String },
    /// A keyword containing bytes outside the accepted keyword set.
    InvalidKeyword { keyword: String },
    /// An `(name, occurrence)` key targeted an occurrence that does not exist.
    OccurrenceOutOfRange { keyword: String, occurrence: usize, count: usize },
    /// A file holds no `END` card, so its header region cannot be located.
    MissingEnd,
    /// A file has an `END` card but ends before the header's last block is complete.
    TruncatedHeader,
    /// An I/O failure, carried as its message.
    Io(String),
}

/// The mathematical content of a [`FitsError`].
pub enum ErrorView {
    AmbiguousKeyword { keyword: Seq<char>, count: nat },
    KeywordTooLong { keyword: Seq<char> },
    InvalidKeyword { keyword: Seq<char> },
    OccurrenceOutOfRange { keyword: Seq<char>, occurrence: nat, count: nat },
    MissingEnd,
    TruncatedHeader,
    Io(Seq<char>),
}

impl View for FitsError {
    type V = ErrorView;

    open spec fn view(&self) -> ErrorView {
        match self {
            FitsError::AmbiguousKeyword { keyword, count } => ErrorView::AmbiguousKeyword {
                keyword: keyword@,
                count: *count as nat,
            },
            FitsError::KeywordTooLong { keyword } => ErrorView::KeywordTooLong { keyword: keyword@ },
            FitsError::InvalidKeyword { keyword } => ErrorView::InvalidKeyword { keyword: keyword@ },
            FitsError::OccurrenceOutOfRange { keyword, occurrence, count } =>
                ErrorView::OccurrenceOutOfRange {
                keyword: keyword@,
                occurrence: *occurrence as nat,
                count: *count as nat,
            },
            FitsError::MissingEnd => ErrorView::MissingEnd,
            FitsError::TruncatedHeader => ErrorView::TruncatedHeader,
            FitsError::Io(m) => ErrorView::Io(m@),
        }
    }
}

/// The decimal text of a count.
pub open spec fn count_text(n: nat) -> Seq<char> {
    ascii_chars(digits(n))
}

/// The message that describes an error.
pub open spec fn message(e: ErrorView) -> Seq<char> {
    match e {
        ErrorView::AmbiguousKeyword { keyword, count } => "keyword '"@ + keyword + "' occurs "@
            + count_text(count) + " times; select an occurrence"@,
        ErrorView::KeywordTooLong { keyword } => "keyword '"@ + keyword
            + "' exceeds 8 characters"@,
        ErrorView::InvalidKeyword { keyword } => "keyword '"@ + keyword
            + "' contains characters outside A-Z 0-9 - _"@,
        ErrorView::OccurrenceOutOfRange { keyword, occurrence, count } => "keyword '"@ + keyword
            + "' has no occurrence "@ + count_text(occurrence) + " (found "@ + count_text(count)
            + ")"@,
        ErrorView::MissingEnd => "no END card found in the header"@,
        ErrorView::TruncatedHeader => "the data ends before the header's last block is complete"@,
        ErrorView::Io(m) => "I/O error: "@ + m,
    }
}

/// Appends the decimal text of `n`.
fn push_count(out: &mut Vec<u8>, n: usize)
    ensures
        final(out)@ == old(out)@ + encode_utf8(count_text(n as nat)),
{
    push_digits(out, n as u64);
    proof {
        lemma_digits_shape(n as nat);
        lemma_ascii_decode(digits(n as nat));
    }
}

impl FitsError {
    /// The message that describes this error.
    pub fn to_string(&self) -> (s: String)
        ensures
            s@ == message(self@),
    {
        let mut out: Vec<u8> = Vec::new();
        match self {
            FitsError::AmbiguousKeyword { keyword, count } => {
                push_text(&mut out, "keyword '");
                push_text(&mut out, keyword.as_str());
                push_text(&mut out, "' occurs ");
                push_count(&mut out, *count);
                push_text(&mut out, " times; select an occurrence");
                proof {
                    let a = "keyword '"@;
                    let b = keyword@;
                    let c = "' occurs "@;
                    let d = count_text(*count as nat);
                    let e = " times; select an occurrence"@;
                    lemma_encode_concat(a, b);
                    lemma_encode_concat(a + b, c);
                    lemma_encode_concat(a + b + c, d);
                    lemma_encode_concat(a + b + c + d, e);
                    assert(out@ =~= encode_utf8(a + b + c + d + e));
                }
            },
            FitsError::KeywordTooLong { keyword } => {
                push_text(&mut out, "keyword '");
                push_text(&mut out, keyword.as_str());
                push_text(&mut out, "' exceeds 8 characters");
                proof {
                    let a = "keyword '"@;
                    let b = keyword@;
                    let c = "' exceeds 8 characters"@;
                    lemma_encode_concat(a, b);
                    lemma_encode_concat(a + b, c);
                    assert(out@ =~= encode_utf8(a + b + c));
                }
            },
            FitsError::InvalidKeyword { keyword } => {
                push_text(&mut out, "keyword '");
                push_text(&mut out, keyword.as_str());
                push_text(&mut out, "' contains characters outside A-Z 0-9 - _");
                proof {
                    let a = "keyword '"@;
                    let b = keyword@;
                    let c = "' contains characters outside A-Z 0-9 - _"@;
                    lemma_encode_concat(a, b);
                    lemma_encode_concat(a + b, c);
                    assert(out@ =~= encode_utf8(a + b + c));
                }
            },
            FitsError::OccurrenceOutOfRange { keyword, occurrence, count } => {
                push_text(&mut out, "keyword '");
                push_text(&mut out, keyword.as_str());
                push_text(&mut out, "' has no occurrence ");
                push_count(&mut out, *occurrence);
                push_text(&mut out, " (found ");
                push_count(&mut out, *count);
                push_text(&mut out, ")");
                proof {
                    let a = "keyword '"@;
                    let b = keyword@;
                    let c = "' has no occurrence "@;
                    let d = count_text(*occurrence as nat);
                    let e = " (found "@;
                    let f = count_text(*count as nat);
                    let g = ")"@;
                    lemma_encode_concat(a, b);
                    lemma_encode_concat(a + b, c);
                    lemma_encode_concat(a + b + c, d);
                    lemma_encode_concat(a + b + c + d, e);
                    lemma_encode_concat(a + b + c + d + e, f);
                    lemma_encode_concat(a + b + c + d + e + f, g);
                    assert(out@ =~= encode_utf8(a + b + c + d + e + f + g));
                }
            },
            FitsError::MissingEnd => {
                push_text(&mut out, "no END card found in the header");
            },
            FitsError::TruncatedHeader => {
                push_text(&mut out, "the data ends before the header's last block is complete");
            },
            FitsError::Io(m) => {
                push_text(&mut out, "I/O error: ");
                push_text(&mut out, m.as_str());
                proof {
                    lemma_encode_concat("I/O error: "@, m@);
                }
            },
        }
        utf8_text(out.as_slice(), Ghost(message(self@)))
    }
}

} // verus!
