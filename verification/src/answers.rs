//! What a request gets: status, header fields and bytes.
use vstd::prelude::*;

use crate::byte_range::ByteRange;
use crate::multipart::{MultipartStream, Step};
use crate::respond::{RangeNotSatisfiable, RangedResponse, Reply};
use crate::response::{Response, ResponseBody};
use crate::stream::{RangedStream, StreamAction, StreamEvent};

verus! {

/// The media type to name for a body, by default that of arbitrary bytes.
pub open spec fn named_type(media_type: Option<String>) -> Seq<char> {
    match media_type {
        Some(t) => t@,
        None => "application/octet-stream"@,
    }
}

/// Whether `result` is what a request for a body of `size` bytes is given, and `response` what it is
/// put together to.
pub open spec fn answered<B>(
    header: Option<Seq<char>>,
    size: u64,
    block_len: u64,
    body: B,
    media_type: Option<String>,
    separator: Seq<char>,
    result: Result<RangedResponse<B>, RangeNotSatisfiable>,
    response: Response<B>,
) -> bool {
    &&& crate::respond::gives(
        result,
        crate::respond::reply(header, size, block_len),
        body,
        size,
        media_type,
        separator,
    )
    &&& crate::response::responds(response, result)
}

/// Whether a stream can hand out `sent` up to its end, from a body with the bytes `data`.
pub open spec fn stream_arrives<B>(stream: RangedStream<B>, data: Seq<u8>, sent: Seq<u8>) -> bool {
    exists|position: int, events: Seq<StreamEvent>|
        {
            let run = #[trigger] crate::sending::run_after(
                stream.spec_state(),
                stream.spec_length(),
                position,
                events,
                data,
            );
            &&& crate::sending::can_run(
                stream.spec_state(),
                stream.spec_length(),
                position,
                events,
                data,
            )
            &&& run.asked == StreamAction::Finish
            &&& run.sent == sent
        }
}

/// Whether a multipart stream can hand out `sent` up to its end, from a body with the bytes `data`.
pub open spec fn multipart_arrives<B>(
    stream: MultipartStream<B>,
    data: Seq<u8>,
    sent: Seq<u8>,
) -> bool {
    exists|position: int, events: Seq<StreamEvent>|
        {
            let run = #[trigger] crate::sending::multipart_run_after(
                stream.progress(),
                position,
                events,
                data,
            );
            &&& crate::sending::can_run_parts(stream.progress(), position, events, data)
            &&& run.asked == Step::Finish
            &&& run.sent == sent
        }
}

/// Whether the body of a response can hand out `sent` up to its end.
pub open spec fn arrives<B>(body: ResponseBody<B>, data: Seq<u8>, sent: Seq<u8>) -> bool {
    match body {
        ResponseBody::Empty => sent == Seq::<u8>::empty(),
        ResponseBody::Ranged(stream) => stream_arrives(stream, data, sent),
        ResponseBody::Multipart(stream) => multipart_arrives(stream, data, sent),
    }
}

/// Whether `response` refuses a request for a body of `size` bytes: it says so, names the size, and
/// has no body.
pub open spec fn refuses<B>(response: Response<B>, size: u64) -> bool {
    &&& response.status == 416
    &&& crate::response::fields(response.headers@) == seq![
        ("Content-Range"@, "bytes */"@ + crate::text::decimal(size as nat)),
    ]
    &&& response.body == ResponseBody::<B>::Empty
}

/// Whether `response` has all of a body of `size` bytes.
pub open spec fn serves_all<B>(
    response: Response<B>,
    size: u64,
    media_type: Option<String>,
) -> bool {
    &&& response.status == 200
    &&& crate::response::fields(response.headers@) == seq![
        ("Accept-Ranges"@, "bytes"@),
        ("Content-Length"@, crate::text::decimal(size as nat)),
        ("Content-Type"@, named_type(media_type)),
    ]
}

/// Whether `response` names the bytes from `first` to before `end` of a body of `size` bytes.
pub open spec fn serves_range<B>(
    response: Response<B>,
    first: int,
    end: int,
    size: u64,
    media_type: Option<String>,
) -> bool {
    &&& response.status == 206
    &&& crate::response::fields(response.headers@) == seq![
        ("Accept-Ranges"@, "bytes"@),
        (
            "Content-Range"@,
            "bytes "@ + crate::text::decimal(first as nat) + "-"@ + crate::text::decimal(
                (end - 1) as nat,
            ) + "/"@ + crate::text::decimal(size as nat),
        ),
        ("Content-Type"@, named_type(media_type)),
    ]
}

/// A response with all of a body: `200 OK`, the length of the body, and the media type that was
/// given.
pub proof fn law_full_response<B>(r: RangedResponse<B>)
    requires
        r is Full,
    ensures
        r.spec_status() == 200,
        r.spec_fields() == seq![
            ("Accept-Ranges"@, "bytes"@),
            ("Content-Length"@, crate::text::decimal((r->Full_content_length).0 as nat)),
            ("Content-Type"@, named_type(r->Full_content_type)),
        ],
        r.spec_response_body() == ResponseBody::Ranged(r->Full_stream),
{
}

/// A response with one range: its first and last byte, and the media type that was given; and
/// `206 Partial Content`, unless there is no content or as much as lies between the two.
pub proof fn law_single_response<B>(r: RangedResponse<B>)
    requires
        r matches RangedResponse::Single {
            content_range,
            content_length,
            stream,
            content_type,
        } && content_range.range is Some,
    ensures
        ({
            let (first, last) = (r->content_range).range->Some_0;
            let length = (r->Single_content_length).0;
            &&& r.spec_status() == if length == 0 {
                204u16
            } else if length == last - first {
                200u16
            } else {
                206u16
            }
            &&& r.spec_fields() == seq![
                ("Accept-Ranges"@, "bytes"@),
                (
                    "Content-Range"@,
                    "bytes "@ + crate::text::decimal(first as nat) + "-"@ + crate::text::decimal(
                        last as nat,
                    ) + "/"@ + crate::text::decimal(length as nat),
                ),
                ("Content-Type"@, named_type(r->Single_content_type)),
            ]
            &&& r.spec_response_body() == ResponseBody::Ranged(r->Single_stream)
        }),
{
    let (first, last) = (r->content_range).range->Some_0;
    crate::wire::law_content_range_text(first, last, (r->Single_content_length).0);
}

/// A response with several ranges: `206 Partial Content` and the boundary, with the length of the
/// document where it is known.
pub proof fn law_multiple_response<B>(r: RangedResponse<B>)
    requires
        r is Multiple,
    ensures
        r.spec_status() == 206,
        r.spec_fields() == seq![
            ("Accept-Ranges"@, "bytes"@),
            ("Content-Type"@, "multipart/byteranges; boundary="@ + (r->boundary)@),
        ] + match crate::multipart::spec_content_len((r->Multiple_stream).progress()) {
            Some(n) => seq![("Content-Length"@, crate::text::decimal(n as nat))],
            None => Seq::empty(),
        },
        r.spec_response_body() == ResponseBody::Multipart(r->Multiple_stream),
{
}

/// The one media type that a response with all of a body, or with one range of it, names is the one
/// that was given for the body.
pub proof fn law_response_names_the_media_type<B>(
    header: Option<Seq<char>>,
    size: u64,
    block_len: u64,
    body: B,
    media_type: Option<String>,
    separator: Seq<char>,
    result: Result<RangedResponse<B>, RangeNotSatisfiable>,
    response: Response<B>,
    i: int,
)
    requires
        answered(header, size, block_len, body, media_type, separator, result, response),
        response.body is Ranged,
        0 <= i < crate::response::fields(response.headers@).len(),
    ensures
        crate::response::fields(response.headers@).contains(
            ("Content-Type"@, named_type(media_type)),
        ),
        crate::response::fields(response.headers@)[i].0 == "Content-Type"@
            ==> crate::response::fields(response.headers@)[i].1 == named_type(media_type),
{
    reveal_strlit("Content-Type");
    reveal_strlit("Content-Range");
    reveal_strlit("Content-Length");
    reveal_strlit("Accept-Ranges");
    let given = crate::response::fields(response.headers@);
    assert("Content-Type"@[8] == 'T' && "Content-Range"@[8] == 'R' && "Content-Length"@[8] == 'L'
        && "Accept-Ranges"@[0] == 'A' && "Content-Type"@[0] == 'C');
    assert(given[2] == ("Content-Type"@, named_type(media_type)));
}

/// What stands in `headers` are the fields, one for one.
pub proof fn law_fields(headers: Seq<(String, String)>, i: int)
    ensures
        crate::response::fields(headers).len() == headers.len(),
        0 <= i < headers.len() ==> crate::response::fields(headers)[i] == (
            headers[i].0@,
            headers[i].1@,
        ),
{
}

/// A refused request is given the size of the body and nothing else.
pub(crate) proof fn lemma_refused<B>(
    header: Option<Seq<char>>,
    size: u64,
    block_len: u64,
    body: B,
    media_type: Option<String>,
    separator: Seq<char>,
    result: Result<RangedResponse<B>, RangeNotSatisfiable>,
    response: Response<B>,
)
    requires
        answered(header, size, block_len, body, media_type, separator, result, response),
        crate::respond::reply(header, size, block_len) == Reply::Unsatisfiable,
    ensures
        result is Err,
        refuses(response, size),
{
    crate::wire::law_content_range_text(0, 0, size);
}

/// A reply with one range is put together to a response that names and sends it.
pub(crate) proof fn lemma_one_range<B>(
    header: Option<Seq<char>>,
    size: u64,
    block_len: u64,
    body: B,
    media_type: Option<String>,
    separator: Seq<char>,
    result: Result<RangedResponse<B>, RangeNotSatisfiable>,
    response: Response<B>,
    range: ByteRange,
    data: Seq<u8>,
    sent: Seq<u8>,
)
    requires
        answered(header, size, block_len, body, media_type, separator, result, response),
        data.len() == size,
        range.start < range.end_exclusive <= size,
        ({
            let reply = crate::respond::reply(header, size, block_len);
            reply == Reply::Part(range) || (reply == Reply::Full && range.start == 0
                && range.end_exclusive == size)
        }),
        arrives(response.body, data, sent),
    ensures
        sent == data.subrange(range.start as int, range.end_exclusive as int),
        match crate::respond::reply(header, size, block_len) {
            Reply::Full => serves_all(response, size, media_type),
            _ => serves_range(
                response,
                range.start as int,
                range.end_exclusive as int,
                size,
                media_type,
            ),
        },
        response.body matches ResponseBody::Ranged(stream) && stream.spec_body() == body
            && stream.spec_length() == range.end_exclusive - range.start,
{
    let stream = response.body->Ranged_0;
    let (position, events) = choose|position: int, events: Seq<StreamEvent>|
        {
            let run = #[trigger] crate::sending::run_after(
                stream.spec_state(),
                stream.spec_length(),
                position,
                events,
                data,
            );
            &&& crate::sending::can_run(
                stream.spec_state(),
                stream.spec_length(),
                position,
                events,
                data,
            )
            &&& run.asked == StreamAction::Finish
            &&& run.sent == sent
        };
    let length = (range.end_exclusive - range.start) as u64;
    crate::sending::law_finished_run_sent_the_range(range.start, length, position, events, data);
    crate::wire::law_content_range_text(range.start, (range.end_exclusive - 1) as u64, size);
}

/// A request without a range header is never refused: it gets the whole body where a block holds
/// it, and the first block of it otherwise.
pub proof fn law_plain_request<B>(
    size: u64,
    block_len: u64,
    body: B,
    media_type: Option<String>,
    separator: Seq<char>,
    result: Result<RangedResponse<B>, RangeNotSatisfiable>,
    response: Response<B>,
    data: Seq<u8>,
    sent: Seq<u8>,
)
    requires
        size > 0,
        block_len > 0,
        data.len() == size,
        answered(None, size, block_len, body, media_type, separator, result, response),
        arrives(response.body, data, sent),
    ensures
        result is Ok,
        size <= block_len ==> {
            &&& result->Ok_0 is Full
            &&& serves_all(response, size, media_type)
            &&& sent == data
        },
        size > block_len ==> {
            &&& result->Ok_0 is Single
            &&& serves_range(response, 0, block_len as int, size, media_type)
            &&& sent == data.take(block_len as int)
        },
{
    let range = ByteRange {
        start: 0,
        end_exclusive: if size <= block_len {
            size
        } else {
            block_len
        },
    };
    lemma_one_range(
        None,
        size,
        block_len,
        body,
        media_type,
        separator,
        result,
        response,
        range,
        data,
        sent,
    );
    assert(data.subrange(0, size as int) =~= data);
    if size > block_len {
        assert(data.subrange(0, block_len as int) =~= data.take(block_len as int));
    }
}

/// An empty body satisfies no request.
pub proof fn law_empty_body<B>(
    header: Option<Seq<char>>,
    block_len: u64,
    body: B,
    media_type: Option<String>,
    separator: Seq<char>,
    result: Result<RangedResponse<B>, RangeNotSatisfiable>,
    response: Response<B>,
)
    requires
        answered(header, 0, block_len, body, media_type, separator, result, response),
    ensures
        result is Err,
        refuses(response, 0),
{
    lemma_refused(header, 0, block_len, body, media_type, separator, result, response);
}

/// Whether `response`, with `sent` as its content, is the answer with the bytes from `first` to
/// before `end`: as the whole body where it is all of it, and as a range of it otherwise.
pub open spec fn answers_with<B>(
    response: Response<B>,
    first: int,
    end: int,
    size: u64,
    media_type: Option<String>,
    data: Seq<u8>,
    sent: Seq<u8>,
) -> bool {
    &&& sent == data.subrange(first, end)
    &&& if end - first == size {
        serves_all(response, size, media_type)
    } else {
        serves_range(response, first, end, size, media_type)
    }
}

/// The smallest of three numbers.
pub open spec fn least(a: int, b: int, c: int) -> int {
    if a <= b && a <= c {
        a
    } else if b <= c {
        b
    } else {
        c
    }
}

/// `bytes=first-last` gets the bytes from the first to the last, as far as the body and a block
/// reach, and is refused where it begins behind the body or ends before it begins.
pub proof fn law_request_for_a_range<B>(
    first: u64,
    last: u64,
    size: u64,
    block_len: u64,
    body: B,
    media_type: Option<String>,
    separator: Seq<char>,
    result: Result<RangedResponse<B>, RangeNotSatisfiable>,
    response: Response<B>,
    data: Seq<u8>,
    sent: Seq<u8>,
)
    requires
        size > 0,
        block_len > 0,
        data.len() == size,
        answered(
            Some(
                "bytes="@ + crate::text::decimal(first as nat) + "-"@ + crate::text::decimal(
                    last as nat,
                ),
            ),
            size,
            block_len,
            body,
            media_type,
            separator,
            result,
            response,
        ),
        arrives(response.body, data, sent),
    ensures
        first > last || first >= size ==> result is Err && refuses(response, size),
        first <= last && first < size ==> result is Ok && answers_with(
            response,
            first as int,
            least(last + 1, size as int, first + block_len),
            size,
            media_type,
            data,
            sent,
        ),
{
    let a = crate::text::decimal(first as nat);
    let b = crate::text::decimal(last as nat);
    let header = "bytes="@ + a + "-"@ + b;
    reveal_strlit("-");
    reveal_with_fuel(crate::text::join, 2);
    assert(header =~= crate::laws::request(
        seq![crate::laws::closed_spec(first as nat, last as nat)],
    ));
    crate::laws::law_closed_range(first, last, size, block_len);
    if first > last || first >= size {
        lemma_refused(
            Some(header),
            size,
            block_len,
            body,
            media_type,
            separator,
            result,
            response,
        );
    } else {
        let range = ByteRange {
            start: first,
            end_exclusive: least(last + 1, size as int, first + block_len) as u64,
        };
        lemma_one_range(
            Some(header),
            size,
            block_len,
            body,
            media_type,
            separator,
            result,
            response,
            range,
            data,
            sent,
        );
    }
}

/// `bytes=first-` gets the rest of the body from the first byte on, as far as a block reaches, and is
/// refused where it begins behind the body.
pub proof fn law_request_for_the_rest<B>(
    first: u64,
    size: u64,
    block_len: u64,
    body: B,
    media_type: Option<String>,
    separator: Seq<char>,
    result: Result<RangedResponse<B>, RangeNotSatisfiable>,
    response: Response<B>,
    data: Seq<u8>,
    sent: Seq<u8>,
)
    requires
        size > 0,
        block_len > 0,
        data.len() == size,
        answered(
            Some("bytes="@ + crate::text::decimal(first as nat) + "-"@),
            size,
            block_len,
            body,
            media_type,
            separator,
            result,
            response,
        ),
        arrives(response.body, data, sent),
    ensures
        first >= size ==> result is Err && refuses(response, size),
        first < size ==> result is Ok && answers_with(
            response,
            first as int,
            least(size as int, size as int, first + block_len),
            size,
            media_type,
            data,
            sent,
        ),
{
    let header = "bytes="@ + crate::text::decimal(first as nat) + "-"@;
    reveal_strlit("-");
    reveal_with_fuel(crate::text::join, 2);
    assert(header =~= crate::laws::request(seq![crate::laws::open_spec(first as nat)]));
    crate::laws::law_open_range(first, size, block_len);
    if first >= size {
        lemma_refused(
            Some(header),
            size,
            block_len,
            body,
            media_type,
            separator,
            result,
            response,
        );
    } else {
        let range = ByteRange {
            start: first,
            end_exclusive: least(size as int, size as int, first + block_len) as u64,
        };
        lemma_one_range(
            Some(header),
            size,
            block_len,
            body,
            media_type,
            separator,
            result,
            response,
            range,
            data,
            sent,
        );
    }
}

/// `bytes=-length` gets that many bytes at the end of the body, as far as a block reaches from the
/// first of them on. Where the body is shorter it gets all of it, in the same measure, as a range of
/// it. No bytes at the end cannot be had.
pub proof fn law_request_for_the_end<B>(
    length: u64,
    size: u64,
    block_len: u64,
    body: B,
    media_type: Option<String>,
    separator: Seq<char>,
    result: Result<RangedResponse<B>, RangeNotSatisfiable>,
    response: Response<B>,
    data: Seq<u8>,
    sent: Seq<u8>,
)
    requires
        size > 0,
        block_len > 0,
        data.len() == size,
        answered(
            Some("bytes=-"@ + crate::text::decimal(length as nat)),
            size,
            block_len,
            body,
            media_type,
            separator,
            result,
            response,
        ),
        arrives(response.body, data, sent),
    ensures
        length == 0 ==> result is Err && refuses(response, size),
        0 < length <= size ==> result is Ok && answers_with(
            response,
            size - length,
            least(size as int, size as int, size - length + block_len),
            size,
            media_type,
            data,
            sent,
        ),
        length > size ==> {
            let end = least(size as int, size as int, block_len as int);
            &&& result is Ok
            &&& serves_range(response, 0, end, size, media_type)
            &&& sent == data.take(end)
        },
{
    let header = "bytes=-"@ + crate::text::decimal(length as nat);
    reveal_strlit("bytes=-");
    reveal_strlit("bytes=");
    reveal_with_fuel(crate::text::join, 2);
    assert(header =~= crate::laws::request(seq![crate::laws::suffix_spec(length as nat)]));
    crate::laws::law_suffix_range(length, size, block_len);
    if length == 0 {
        lemma_refused(
            Some(header),
            size,
            block_len,
            body,
            media_type,
            separator,
            result,
            response,
        );
    } else {
        let start: u64 = if length <= size {
            (size - length) as u64
        } else {
            0
        };
        let range = ByteRange {
            start,
            end_exclusive: least(size as int, size as int, start + block_len) as u64,
        };
        lemma_one_range(
            Some(header),
            size,
            block_len,
            body,
            media_type,
            separator,
            result,
            response,
            range,
            data,
            sent,
        );
        if length > size {
            assert(sent =~= data.take(range.end_exclusive as int));
        }
    }
}

} // verus!
