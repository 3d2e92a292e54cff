//! What goes over the wire: the texts of header fields and of multipart documents.
use vstd::prelude::*;

use crate::byte_range::ByteRange;
use crate::content::ContentRange;

verus! {

/// The bytes of `data` from `first` to before `end`, as far as there are any.
pub open spec fn bytes_between(data: Seq<u8>, first: int, end: int) -> Seq<u8> {
    Seq::new(
        (if data.len() < end {
            data.len() as int
        } else {
            end
        } - if data.len() < first {
            data.len() as int
        } else {
            first
        }) as nat,
        |i: int| data[first + i],
    )
}

/// What stands before the bytes of a part: a line with the boundary, behind a line break unless it
/// is the first, and the headers that name the range, both ends included, and the size of the body.
pub open spec fn part_front(
    first_part: bool,
    boundary: Seq<char>,
    media_type: Seq<char>,
    first: int,
    last: int,
    total_size: u64,
) -> Seq<u8> {
    vstd::utf8::encode_utf8(
        if first_part {
            "--"@ + boundary + "\r\n"@
        } else {
            "\r\n--"@ + boundary + "\r\n"@
        },
    ) + vstd::utf8::encode_utf8(
        "Content-Type: "@ + media_type + "\r\nContent-Range: bytes "@ + (crate::text::decimal(
            first as nat,
        ) + "-"@ + crate::text::decimal(last as nat)) + "/"@ + crate::text::decimal(
            total_size as nat,
        ) + "\r\n\r\n"@,
    )
}

/// The line at the end of a document.
pub open spec fn last_line(boundary: Seq<char>) -> Seq<u8> {
    vstd::utf8::encode_utf8("\r\n--"@ + boundary + "--\r\n"@)
}

/// A document without parts is its last line.
pub proof fn law_document_without_parts(
    total_size: u64,
    boundary: Seq<char>,
    media_type: Seq<char>,
    data: Seq<u8>,
)
    ensures
        crate::multipart::document(Seq::empty(), total_size, boundary, media_type, data)
            == last_line(boundary),
{
}

/// One more range in the list is one more part in the document: behind all the others and before
/// the last line stand the line and the headers of the new part and the bytes of its range.
pub proof fn law_document_has_a_part_for_each_range(
    ranges: Seq<ByteRange>,
    range: ByteRange,
    total_size: u64,
    boundary: Seq<char>,
    media_type: Seq<char>,
    data: Seq<u8>,
)
    requires
        range.start <= range.end_exclusive,
        range.end_exclusive > 0,
    ensures
        ({
            let old = crate::multipart::document(ranges, total_size, boundary, media_type, data);
            let new = crate::multipart::document(
                ranges.push(range),
                total_size,
                boundary,
                media_type,
                data,
            );
            let end = last_line(boundary);
            let others = old.take(old.len() - end.len());
            &&& old == others + end
            &&& new == others + part_front(
                ranges.len() == 0,
                boundary,
                media_type,
                range.start as int,
                range.end_exclusive - 1,
                total_size,
            ) + bytes_between(data, range.start as int, range.end_exclusive as int) + end
        }),
{
    let end = last_line(boundary);
    let old = crate::multipart::document(ranges, total_size, boundary, media_type, data);
    let p = crate::multipart::beginning(ranges, total_size, boundary, media_type);
    let others = parts_alone(p, 0, true, data);
    lemma_parts_alone(p, range, 0, true, data);
    lemma_one_part(p, range, ranges.len() == 0, data);
    assert(old.take(old.len() - end.len()) =~= others);
    let front = part_front(
        ranges.len() == 0,
        boundary,
        media_type,
        range.start as int,
        range.end_exclusive - 1,
        total_size,
    );
    let bytes = bytes_between(data, range.start as int, range.end_exclusive as int);
    assert(others + (front + bytes) + end =~= others + front + bytes + end);
}

/// One part: what stands before its bytes, and its bytes.
spec fn one_part(
    p: crate::multipart::Progress,
    range: ByteRange,
    first: bool,
    data: Seq<u8>,
) -> Seq<u8> {
    vstd::utf8::encode_utf8(crate::multipart::delimiter(p.boundary, first))
        + vstd::utf8::encode_utf8(
        crate::multipart::part_headers(p.media_type, range, p.total_size),
    ) + crate::multipart::slice(data, range)
}

proof fn lemma_one_part(
    p: crate::multipart::Progress,
    range: ByteRange,
    first: bool,
    data: Seq<u8>,
)
    requires
        range.start <= range.end_exclusive,
        range.end_exclusive > 0,
    ensures
        one_part(p, range, first, data) == part_front(
            first,
            p.boundary,
            p.media_type,
            range.start as int,
            range.end_exclusive - 1,
            p.total_size,
        ) + bytes_between(data, range.start as int, range.end_exclusive as int),
{
    assert(crate::multipart::slice(data, range) =~= bytes_between(
        data,
        range.start as int,
        range.end_exclusive as int,
    ));
}

/// The parts from `index` on without the last line.
spec fn parts_alone(p: crate::multipart::Progress, index: int, first: bool, data: Seq<u8>) -> Seq<u8>
    decreases p.ranges.len() - index,
{
    if index < p.ranges.len() {
        one_part(p, p.ranges[index], first, data) + parts_alone(p, index + 1, false, data)
    } else {
        Seq::empty()
    }
}

/// The parts from `index` on begin with the one at `index`.
proof fn lemma_parts_from(p: crate::multipart::Progress, index: int, first: bool, data: Seq<u8>)
    ensures
        crate::multipart::parts_from(p, index, first, data) == if index < p.ranges.len() {
            one_part(p, p.ranges[index], first, data) + crate::multipart::parts_from(
                p,
                index + 1,
                false,
                data,
            )
        } else {
            last_line(p.boundary)
        },
{
}

proof fn lemma_parts_alone(
    p: crate::multipart::Progress,
    range: ByteRange,
    index: int,
    first: bool,
    data: Seq<u8>,
)
    requires
        0 <= index <= p.ranges.len(),
    ensures
        crate::multipart::parts_from(p, index, first, data) == parts_alone(p, index, first, data)
            + last_line(p.boundary),
        crate::multipart::parts_from(
            crate::multipart::Progress { ranges: p.ranges.push(range), ..p },
            index,
            first,
            data,
        ) == parts_alone(p, index, first, data) + one_part(
            p,
            range,
            first && index == p.ranges.len(),
            data,
        ) + last_line(p.boundary),
    decreases p.ranges.len() - index,
{
    let q = crate::multipart::Progress { ranges: p.ranges.push(range), ..p };
    let end = last_line(p.boundary);
    lemma_parts_from(p, index, first, data);
    lemma_parts_from(q, index, first, data);
    if index < p.ranges.len() {
        let here = one_part(p, p.ranges[index], first, data);
        let rest = parts_alone(p, index + 1, false, data);
        let new = one_part(p, range, false, data);
        assert(q.ranges[index] == p.ranges[index]);
        lemma_parts_alone(p, range, index + 1, false, data);
        assert(here + (rest + end) =~= here + rest + end);
        assert(here + (rest + new + end) =~= here + rest + new + end);
    } else {
        let none = Seq::<u8>::empty();
        let new = one_part(p, range, first, data);
        lemma_parts_from(q, index + 1, false, data);
        assert(none + end =~= end);
        assert(none + new + end =~= new + end);
    }
}

/// A document has as many bytes as its parts with their lines and headers, and its last line: each
/// range adds its own.
pub proof fn law_document_length(
    ranges: Seq<ByteRange>,
    range: ByteRange,
    total_size: u64,
    boundary: Seq<char>,
    media_type: Seq<char>,
    data: Seq<u8>,
)
    requires
        range.start <= range.end_exclusive <= data.len(),
        range.end_exclusive > 0,
    ensures
        crate::multipart::document(
            ranges.push(range),
            total_size,
            boundary,
            media_type,
            data,
        ).len() == crate::multipart::document(
            ranges,
            total_size,
            boundary,
            media_type,
            data,
        ).len() + part_front(
            ranges.len() == 0,
            boundary,
            media_type,
            range.start as int,
            range.end_exclusive - 1,
            total_size,
        ).len() + (range.end_exclusive - range.start),
{
    law_document_has_a_part_for_each_range(
        ranges,
        range,
        total_size,
        boundary,
        media_type,
        data,
    );
}

/// The `Content-Length` of a multipart stream that has sent nothing yet is that of its document, in
/// a body that holds its ranges.
pub proof fn law_multipart_length_is_that_of_the_document(
    ranges: Seq<ByteRange>,
    total_size: u64,
    boundary: Seq<char>,
    media_type: Seq<char>,
    data: Seq<u8>,
)
    requires
        forall|i: int|
            0 <= i < ranges.len() ==> (#[trigger] ranges[i]).start <= ranges[i].end_exclusive
                <= data.len() && ranges[i].end_exclusive > 0,
    ensures
        ({
            let n = crate::multipart::document(
                ranges,
                total_size,
                boundary,
                media_type,
                data,
            ).len();
            crate::multipart::spec_content_len(
                crate::multipart::beginning(ranges, total_size, boundary, media_type),
            ) == if n <= u64::MAX {
                Some(n as u64)
            } else {
                None
            }
        }),
{
    crate::multipart::law_content_length_is_outstanding(
        crate::multipart::beginning(ranges, total_size, boundary, media_type),
        data,
    );
}

/// A `Content-Range` field names the first and the last byte and the size of the body, and has a
/// star in place of what it does not have.
pub proof fn law_content_range_text(first: u64, last: u64, size: u64)
    ensures
        (ContentRange { range: Some((first, last)), complete_length: Some(size) }).spec_text()
            == "bytes "@ + crate::text::decimal(first as nat) + "-"@ + crate::text::decimal(
            last as nat,
        ) + "/"@ + crate::text::decimal(size as nat),
        (ContentRange { range: None, complete_length: Some(size) }).spec_text() == "bytes */"@
            + crate::text::decimal(size as nat),
        (ContentRange { range: Some((first, last)), complete_length: None }).spec_text() == "bytes "@
            + crate::text::decimal(first as nat) + "-"@ + crate::text::decimal(last as nat) + "/*"@,
        (ContentRange { range: None, complete_length: None }).spec_text() == "bytes */*"@,
{
    reveal_strlit("bytes ");
    reveal_strlit("/");
    reveal_strlit("*");
    reveal_strlit("/*");
    reveal_strlit("bytes */");
    reveal_strlit("bytes */*");
    let (a, b, n) = (
        crate::text::decimal(first as nat),
        crate::text::decimal(last as nat),
        crate::text::decimal(size as nat),
    );
    assert("bytes "@ + (a + "-"@ + b) + "/"@ + n =~= "bytes "@ + a + "-"@ + b + "/"@ + n);
    assert("bytes "@ + (a + "-"@ + b) + "/"@ + "*"@ =~= "bytes "@ + a + "-"@ + b + "/*"@);
    assert("bytes "@ + "*"@ + "/"@ + n =~= "bytes */"@ + n);
    assert("bytes "@ + "*"@ + "/"@ + "*"@ =~= "bytes */*"@);
}

/// A boundary begins and ends with marks and holds the time between them.
pub proof fn law_boundary_text(timestamp: u128)
    ensures
        crate::boundary::boundary_text(timestamp) == "RANGE_BOUNDARY-"@ + crate::text::decimal(
            timestamp as nat,
        ) + "----"@,
{
}

/// The boundary that a media type names is what follows the first mark in it.
pub proof fn law_boundary_follows_the_first_mark(before: Seq<char>, boundary: Seq<char>)
    requires
        forall|k: int|
            0 <= k < before.len() ==> !crate::text::starts_with(
                #[trigger] (before + "boundary="@ + boundary).skip(k),
                "boundary="@,
            ),
    ensures
        crate::boundary::boundary_parameter(before + "boundary="@ + boundary) == Some(boundary),
{
    let text = before + "boundary="@ + boundary;
    let n = before.len() as int;
    let mark = "boundary="@;
    assert(text.skip(n).take(mark.len() as int) =~= mark);
    crate::boundary::lemma_boundary_parameter(text, n);
    assert(text.skip(n + mark.len()) =~= boundary);
}

/// A media type without the mark names no boundary.
pub proof fn law_no_boundary_without_a_mark(text: Seq<char>)
    requires
        forall|k: int|
            0 <= k <= text.len() ==> !crate::text::starts_with(
                #[trigger] text.skip(k),
                "boundary="@,
            ),
    ensures
        crate::boundary::boundary_parameter(text) is None,
    decreases text.len(),
{
    assert(text.skip(0) =~= text);
    if text.len() > 0 {
        let rest = text.skip(1);
        assert forall|k: int| 0 <= k <= rest.len() implies !crate::text::starts_with(
            #[trigger] rest.skip(k),
            "boundary="@,
        ) by {
            assert(rest.skip(k) =~= text.skip(k + 1));
        }
        law_no_boundary_without_a_mark(rest);
    }
}

/// The media type of a multipart response is `multipart/byteranges` and names the boundary.
pub proof fn law_multipart_media_type(boundary: Seq<char>)
    ensures
        crate::boundary::multipart_media_type(boundary) == "multipart/byteranges; boundary="@
            + boundary,
{
}

/// A file has the media type that belongs to its extension, and that of arbitrary bytes where it has
/// none.
pub proof fn law_file_media_type(extension: Seq<char>)
    ensures
        crate::body::file_media_type(Some(extension)) == crate::outside::media_type_of(extension),
        crate::body::file_media_type(None) == "application/octet-stream"@,
{
}

} // verus!
