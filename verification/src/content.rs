//! The header fields that describe the content of a response.
use std::ops::Range;
use vstd::prelude::*;

use crate::text::append_decimal;

verus! {

/// The `Content-Length` of a response.
#[derive(Debug, Clone, Copy, PartialEq, Eq)]
pub struct ContentLength(pub u64);

/// The `Content-Range` of a response.
#[derive(Debug, Clone, PartialEq, Eq)]
pub struct ContentRange {
    /// First and last bytes of the range, omitted if the request could not be satisfied.
    pub range: Option<(u64, u64)>,
    /// Total length of the body, omitted if unknown.
    pub complete_length: Option<u64>,
}

/// The text of a range of positions, both included.
pub open spec fn positions_text(first: u64, last: u64) -> Seq<char> {
    crate::text::decimal(first as nat) + "-"@ + crate::text::decimal(last as nat)
}

impl ContentRange {
    /// The value of the header field.
    pub open spec fn spec_text(self) -> Seq<char> {
        "bytes "@ + (match self.range {
            Some((first, last)) => positions_text(first, last),
            None => "*"@,
        }) + "/"@ + (match self.complete_length {
            Some(n) => crate::text::decimal(n as nat),
            None => "*"@,
        })
    }

    /// The range of the bytes that `range` holds, in a body of `complete_length` bytes.
    pub fn bytes(range: Range<u64>, complete_length: u64) -> (content_range: ContentRange)
        requires
            range.end > 0,
        ensures
            content_range.range == Some((range.start, (range.end - 1) as u64)),
            content_range.complete_length == Some(complete_length),
    {
        ContentRange {
            range: Some((range.start, range.end - 1)),
            complete_length: Some(complete_length),
        }
    }

    /// States that no range of a body of `complete_length` bytes could be served.
    pub fn unsatisfied_bytes(complete_length: u64) -> (content_range: ContentRange)
        ensures
            content_range.range is None,
            content_range.complete_length == Some(complete_length),
    {
        ContentRange { range: None, complete_length: Some(complete_length) }
    }

    /// The first and the last byte of the range, where there is one.
    pub fn bytes_range(&self) -> (range: Option<(u64, u64)>)
        ensures
            range == self.range,
    {
        self.range
    }

    /// The value of the header field.
    pub fn header_text(&self) -> (text: String)
        ensures
            text@ == self.spec_text(),
    {
        let mut text = "bytes ".to_owned();
        match self.range {
            Some((first, last)) => {
                append_positions(&mut text, first, last);
            },
            None => {
                text.append("*");
            },
        }
        text.append("/");
        match self.complete_length {
            Some(n) => {
                append_decimal(&mut text, n as u128);
            },
            None => {
                text.append("*");
            },
        }
        text
    }
}

/// Writes a range of positions, both included, behind `out`.
pub(crate) fn append_positions(out: &mut String, first: u64, last: u64)
    ensures
        final(out)@ == old(out)@ + positions_text(first, last),
{
    append_decimal(out, first as u128);
    out.append("-");
    append_decimal(out, last as u128);
    assert(out@ =~= old(out)@ + positions_text(first, last));
}

} // verus!
