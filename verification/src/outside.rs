//! What the library takes from other crates and from the clock.
use axum_extra::headers::{Header, HeaderValue, Range};
use vstd::prelude::*;

use crate::byte_range::Bound;

verus! {

/// Whether `text` can stand as the value of a header field that text can be read back from:
/// visible ASCII characters, spaces and tabs only.
pub open spec fn is_header_text(text: Seq<char>) -> bool {
    forall|i: int| 0 <= i < text.len() ==> is_header_char(#[trigger] text[i])
}

/// Whether `c` can stand in such a value.
pub open spec fn is_header_char(c: char) -> bool {
    ' ' <= c <= '~' || c == '\t'
}

/// The bound that `text` denotes: none where it is empty, else the position it gives.
pub open spec fn bound(text: Seq<char>) -> Option<Bound<u64>> {
    if text.len() == 0 {
        Some(Bound::Unbounded)
    } else {
        match crate::header::position(text) {
            Some(n) => Some(Bound::Included(n as u64)),
            None => None,
        }
    }
}

/// The bounds that one range specification has in a body of `len` bytes. A suffix of the body
/// becomes an open range; one that is longer than the body has no bounds.
pub open spec fn satisfiable_bounds(spec: Seq<char>, len: u64) -> Option<
    (Bound<u64>, Bound<u64>),
> {
    let s = crate::text::trimmed(spec);
    let first = crate::text::before(s, '-');
    if first.len() == s.len() {
        None
    } else {
        match (bound(first), bound(s.skip((first.len() + 1) as int))) {
            (Some(Bound::Unbounded), Some(Bound::Included(n))) => if n <= len {
                Some((Bound::Included((len - n) as u64), Bound::Unbounded))
            } else {
                None
            },
            (Some(from), Some(to)) => Some((from, to)),
            _ => None,
        }
    }
}

/// The bounds of those of `specs` that have any, in order.
pub open spec fn all_satisfiable(specs: Seq<Seq<char>>, len: u64) -> Seq<(Bound<u64>, Bound<u64>)>
    decreases specs.len(),
{
    if specs.len() == 0 {
        Seq::empty()
    } else {
        let front = all_satisfiable(specs.drop_last(), len);
        match satisfiable_bounds(specs.last(), len) {
            Some(bounds) => front.push(bounds),
            None => front,
        }
    }
}

/// Calls `Range::satisfiable_ranges` of the `headers` crate on the `Range` header with the value
/// `text`.
///
/// Trusted: a value that begins with `bytes=` and holds header text decodes; the call then splits
/// what follows at its commas, drops the white space around each piece, reads what stands before
/// and behind its first dash as a bound each, and gives the pairs in order. It leaves out a piece
/// without a dash, one with a bound that is neither empty nor a number, and a suffix that is
/// longer than the body.
#[verifier::external_body]
pub(crate) fn satisfiable_ranges(text: &str, len: u64) -> (bounds: Vec<(Bound<u64>, Bound<u64>)>)
    requires
        crate::text::starts_with(text@, crate::header::bytes_unit()),
        is_header_text(text@),
    ensures
        bounds@ == all_satisfiable(crate::header::specifications(text@), len),
{
    let value = HeaderValue::from_str(text).unwrap();
    let range = Range::decode(&mut std::iter::once(&value)).unwrap();
    range.satisfiable_ranges(len).map(|(from, to)| (match from {
        std::ops::Bound::Included(n) => Bound::Included(n),
        std::ops::Bound::Excluded(n) => Bound::Excluded(n),
        std::ops::Bound::Unbounded => Bound::Unbounded,
    }, match to {
        std::ops::Bound::Included(n) => Bound::Included(n),
        std::ops::Bound::Excluded(n) => Bound::Excluded(n),
        std::ops::Bound::Unbounded => Bound::Unbounded,
    })).collect()
}

/// The media type that `mime_guess` gives to files with an extension, and
/// `application/octet-stream` where it gives none.
pub uninterp spec fn media_type_of(extension: Seq<char>) -> Seq<char>;

/// Calls `mime_guess::from_ext` and takes the first guess, or `application/octet-stream`.
///
/// Trusted: the outcome is a function of the extension alone, and `application/octet-stream` for
/// an empty one. Which type belongs to which other extension is left unsaid: it is a table of the
/// `mime_guess` crate.
#[verifier::external_body]
pub(crate) fn guess_media_type(extension: &str) -> (media_type: String)
    ensures
        media_type@ == media_type_of(extension@),
        extension@.len() == 0 ==> media_type@ == "application/octet-stream"@,
{
    mime_guess::from_ext(extension).first_or_octet_stream().to_string()
}

/// Calls `SystemTime::elapsed` on the Unix epoch: the time on the system clock, in nanoseconds.
///
/// Trusted: nothing is claimed of the outcome, which depends on the clock. There is none where the
/// clock stands before the epoch.
#[verifier::external_body]
pub(crate) fn nanoseconds_since_epoch() -> (time: Option<u128>) {
    std::time::UNIX_EPOCH.elapsed().ok().map(|elapsed| elapsed.as_nanos())
}

} // verus!
