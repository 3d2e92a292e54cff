//! The boundary between the parts of a multipart response.
use vstd::prelude::*;

use crate::outside::nanoseconds_since_epoch;
use crate::text::{append_decimal, begins_with, characters};

verus! {

/// The boundary that belongs to a point in time.
pub open spec fn boundary_text(timestamp: u128) -> Seq<char> {
    "RANGE_BOUNDARY-"@ + crate::text::decimal(timestamp as nat) + "----"@
}

/// The media type of a multipart response.
pub open spec fn multipart_media_type(boundary: Seq<char>) -> Seq<char> {
    "multipart/byteranges; boundary="@ + boundary
}

/// What follows the first `boundary=` in a media type.
pub open spec fn boundary_parameter(media_type: Seq<char>) -> Option<Seq<char>>
    decreases media_type.len(),
{
    if crate::text::starts_with(media_type, "boundary="@) {
        Some(media_type.skip("boundary="@.len() as int))
    } else if media_type.len() == 0 {
        None
    } else {
        boundary_parameter(media_type.skip(1))
    }
}

/// The boundary that belongs to `timestamp`, a number of nanoseconds since the Unix epoch.
pub fn boundary_at(timestamp: u128) -> (boundary: String)
    ensures
        boundary@ == boundary_text(timestamp),
{
    let mut boundary = "RANGE_BOUNDARY-".to_owned();
    append_decimal(&mut boundary, timestamp);
    boundary.append("----");
    boundary
}

/// generate a unique boundary string for multipart responses
///
/// It is made from the time on the system clock; a clock that stands before the Unix epoch counts
/// as standing at it.
pub fn generate_boundary() -> (boundary: String)
    ensures
        exists|timestamp: u128| boundary@ == #[trigger] boundary_text(timestamp),
{
    let timestamp: u128 = match nanoseconds_since_epoch() {
        Some(elapsed) => elapsed,
        None => 0,
    };
    boundary_at(timestamp)
}

/// The boundary that a `Content-Type` header of a multipart response names.
pub fn extract_boundary(content_type: &str) -> (boundary: Option<String>)
    ensures
        match boundary_parameter(content_type@) {
            Some(b) => boundary matches Some(s) && s@ == b,
            None => boundary is None,
        },
{
    proof {
        reveal_strlit("boundary=");
    }
    let n: usize = characters(content_type).len();
    let mut i: usize = 0;
    assert(content_type@.skip(0) =~= content_type@);
    while i < n
        invariant
            i <= n,
            n == content_type@.len(),
            "boundary="@.len() == 9,
            boundary_parameter(content_type@) == boundary_parameter(content_type@.skip(i as int)),
        decreases n - i,
    {
        let rest = content_type.substring_char(i, n);
        assert(rest@ =~= content_type@.skip(i as int));
        if begins_with(rest, "boundary=") {
            let found = content_type.substring_char(i + 9, n);
            assert(found@ =~= rest@.skip(9));
            return Some(found.to_owned());
        }
        assert(rest@.skip(1) =~= content_type@.skip(i + 1));
        i = i + 1;
    }
    None
}

/// Boundaries that are made at different times differ.
pub proof fn law_boundaries_are_unique(a: u128, b: u128)
    requires
        boundary_text(a) == boundary_text(b),
    ensures
        a == b,
{
    let da = crate::text::decimal(a as nat);
    let db = crate::text::decimal(b as nat);
    let front = "RANGE_BOUNDARY-"@.len() as int;
    let back = "----"@.len() as int;
    let text = boundary_text(a);
    assert(boundary_text(a).len() == front + da.len() + back);
    assert(boundary_text(b).len() == front + db.len() + back);
    assert(text.subrange(front, text.len() - back) =~= da);
    assert(text.subrange(front, text.len() - back) =~= db);
    crate::text::lemma_decimal_digits(a as nat);
    crate::text::lemma_decimal_digits(b as nat);
}

/// The boundary of a multipart response can be read back from its media type.
pub proof fn law_boundary_can_be_extracted(boundary: Seq<char>)
    ensures
        boundary_parameter(multipart_media_type(boundary)) == Some(boundary),
{
    reveal_strlit("multipart/byteranges; boundary=");
    reveal_strlit("boundary=");
    let text = multipart_media_type(boundary);
    let mark = "boundary="@;
    assert forall|k: int| 0 <= k < 22 implies !crate::text::starts_with(
        #[trigger] text.skip(k),
        mark,
    ) by {
        let rest = text.skip(k);
        if k == 10 {
            assert(rest.take(9)[1] == 'y');
        } else {
            assert(rest.take(9)[0] == text[k]);
        }
    }
    assert(text.skip(22).take(9) =~= mark);
    lemma_boundary_parameter(text, 22);
    assert(text.skip(31) =~= boundary);
}

/// The parameter stands behind the first mark.
pub(crate) proof fn lemma_boundary_parameter(text: Seq<char>, n: int)
    requires
        0 <= n <= text.len(),
        forall|k: int| 0 <= k < n ==> !crate::text::starts_with(#[trigger] text.skip(k), "boundary="@),
        crate::text::starts_with(text.skip(n), "boundary="@),
    ensures
        boundary_parameter(text) == Some(text.skip(n + "boundary="@.len())),
    decreases n,
{
    assert(text.skip(0) =~= text);
    if n > 0 {
        let rest = text.skip(1);
        assert(rest.skip(n - 1) =~= text.skip(n));
        assert forall|k: int| 0 <= k < n - 1 implies !crate::text::starts_with(
            #[trigger] rest.skip(k),
            "boundary="@,
        ) by {
            assert(rest.skip(k) =~= text.skip(k + 1));
        }
        lemma_boundary_parameter(rest, n - 1);
        assert(rest.skip(n - 1 + "boundary="@.len()) =~= text.skip(n + "boundary="@.len()));
    }
}

} // verus!
