//! Responses with their status code and header fields.
use vstd::prelude::*;

use crate::body::RangeBody;
use crate::boundary::generate_boundary;
use crate::content::ContentRange;
use crate::multipart::MultipartStream;
use crate::respond::{RangeNotSatisfiable, Ranged, RangedResponse, Reply};
use crate::stream::RangedStream;
use crate::text::{append_decimal, characters};

verus! {

/// `200 OK`.
pub const OK: u16 = 200;

/// `204 No Content`.
pub const NO_CONTENT: u16 = 204;

/// `206 Partial Content`.
pub const PARTIAL_CONTENT: u16 = 206;

/// `416 Range Not Satisfiable`.
pub const RANGE_NOT_SATISFIABLE: u16 = 416;

/// The body of a response.
#[derive(Debug)]
pub enum ResponseBody<B> {
    /// Nothing.
    Empty,
    /// One range of a body.
    Ranged(RangedStream<B>),
    /// Several ranges of a body.
    Multipart(MultipartStream<B>),
}

/// A response.
#[derive(Debug)]
pub struct Response<B> {
    /// The status code.
    pub status: u16,
    /// The header fields, each a name and a value.
    pub headers: Vec<(String, String)>,
    /// The body.
    pub body: ResponseBody<B>,
}

/// The views of header fields.
pub open spec fn fields(headers: Seq<(String, String)>) -> Seq<(Seq<char>, Seq<char>)> {
    headers.map_values(|h: (String, String)| (h.0@, h.1@))
}

/// The field that says which range unit is served.
pub open spec fn accept_ranges() -> (Seq<char>, Seq<char>) {
    ("Accept-Ranges"@, "bytes"@)
}

/// The status of a response with the bytes from `first` to `last` of a content of `length` bytes.
pub open spec fn range_status(length: u64, first: u64, last: u64) -> u16 {
    if length == 0 {
        NO_CONTENT
    } else if length != last - first {
        PARTIAL_CONTENT
    } else {
        OK
    }
}

/// Whether `text` can be the value of a header field: it holds no control character but tabs.
pub open spec fn is_field_value(text: Seq<char>) -> bool {
    forall|i: int| 0 <= i < text.len() ==> is_field_char(#[trigger] text[i])
}

/// Whether `c` can stand in the value of a header field.
pub open spec fn is_field_char(c: char) -> bool {
    (' ' <= c && c != '\u{7f}') || c == '\t'
}

/// Whether `text` can be the value of a header field.
pub fn fits_field(text: &str) -> (b: bool)
    ensures
        b == is_field_value(text@),
{
    let cs = characters(text);
    let mut i: usize = 0;
    while i < cs.len()
        invariant
            i <= cs@.len(),
            cs@ == text@,
            forall|j: int| 0 <= j < i ==> is_field_char(#[trigger] text@[j]),
        decreases cs@.len() - i,
    {
        let c = cs[i];
        if !((' ' <= c && c != '\u{7f}') || c == '\t') {
            assert(!is_field_char(text@[i as int]));
            return false;
        }
        i = i + 1;
    }
    true
}

/// Whether a media type, or the one that stands in where there is none, can be a field value.
pub open spec fn is_field_media_type(content_type: Option<String>) -> bool {
    content_type matches Some(t) ==> is_field_value(t@)
}

impl<B> RangedResponse<B> {
    /// Whether the response can be put together: what goes into its fields can stand there, and a
    /// response with one range names that range, first byte first.
    pub open spec fn well_formed(&self) -> bool {
        match self {
            RangedResponse::Full { content_length, stream, content_type } => is_field_media_type(
                *content_type,
            ),
            RangedResponse::Single { content_range, content_length, stream, content_type } => {
                &&& is_field_media_type(*content_type)
                &&& content_range.range matches Some((first, last))
                &&& content_length.0 != 0 ==> first <= last
            },
            RangedResponse::Multiple { stream, boundary, content_length, content_type } =>
                is_field_value(boundary@),
        }
    }

    /// Whether the response can be put together.
    pub fn can_be_put_together(&self) -> (b: bool)
        ensures
            b == self.well_formed(),
    {
        match self {
            RangedResponse::Full { content_length, stream, content_type } => media_type_fits(
                content_type,
            ),
            RangedResponse::Single { content_range, content_length, stream, content_type } => {
                media_type_fits(content_type) && match content_range.bytes_range() {
                    Some((first, last)) => content_length.0 == 0 || first <= last,
                    None => false,
                }
            },
            RangedResponse::Multiple { stream, boundary, content_length, content_type } =>
                fits_field(boundary.as_str()),
        }
    }

    /// The status code of the response.
    pub open spec fn spec_status(&self) -> u16 {
        match self {
            RangedResponse::Full { .. } => OK,
            RangedResponse::Single { content_range, content_length, stream, content_type } => {
                let (first, last) = content_range.range->Some_0;
                range_status(content_length.0, first, last)
            },
            RangedResponse::Multiple { .. } => PARTIAL_CONTENT,
        }
    }

    /// The header fields of the response. The `Content-Length` of one with several ranges is that
    /// of the multipart document, and left out where that cannot be sent or told; one with a
    /// single range gives none.
    pub open spec fn spec_fields(&self) -> Seq<(Seq<char>, Seq<char>)> {
        match self {
            RangedResponse::Full { content_length, stream, content_type } => seq![
                accept_ranges(),
                ("Content-Length"@, crate::text::decimal(content_length.0 as nat)),
                ("Content-Type"@, crate::multipart::media_type_or_default(*content_type)),
            ],
            RangedResponse::Single { content_range, content_length, stream, content_type } => seq![
                accept_ranges(),
                (
                    "Content-Range"@,
                    ContentRange {
                        range: content_range.range,
                        complete_length: Some(content_length.0),
                    }.spec_text(),
                ),
                ("Content-Type"@, crate::multipart::media_type_or_default(*content_type)),
            ],
            RangedResponse::Multiple { stream, boundary, content_length, content_type } => {
                let described = seq![
                    accept_ranges(),
                    ("Content-Type"@, crate::boundary::multipart_media_type(boundary@)),
                ];
                match crate::multipart::spec_content_len(stream.progress()) {
                    Some(n) => described.push(
                        ("Content-Length"@, crate::text::decimal(n as nat)),
                    ),
                    None => described,
                }
            },
        }
    }

    /// The body of the response.
    pub open spec fn spec_response_body(&self) -> ResponseBody<B> {
        match self {
            RangedResponse::Full { content_length, stream, content_type } => ResponseBody::Ranged(
                *stream,
            ),
            RangedResponse::Single { content_range, content_length, stream, content_type } =>
                ResponseBody::Ranged(*stream),
            RangedResponse::Multiple { stream, boundary, content_length, content_type } =>
                ResponseBody::Multipart(*stream),
        }
    }

    /// Puts the response together.
    pub fn into_response(self) -> (response: Response<B>)
        requires
            self.well_formed(),
        ensures
            response.status == self.spec_status(),
            fields(response.headers@) == self.spec_fields(),
            response.body == self.spec_response_body(),
    {
        let ghost wanted = self.spec_fields();
        let mut headers: Vec<(String, String)> = Vec::new();
        headers.push(("Accept-Ranges".to_owned(), "bytes".to_owned()));
        match self {
            RangedResponse::Full { content_length, stream, content_type } => {
                headers.push(("Content-Length".to_owned(), decimal_text(content_length.0)));
                headers.push(("Content-Type".to_owned(), media_type_text(content_type)));
                assert(fields(headers@) =~= wanted);
                Response { status: OK, headers, body: ResponseBody::Ranged(stream) }
            },
            RangedResponse::Single { content_range, content_length, stream, content_type } => {
                let described = ContentRange {
                    range: content_range.bytes_range(),
                    complete_length: Some(content_length.0),
                };
                headers.push(("Content-Range".to_owned(), described.header_text()));
                headers.push(("Content-Type".to_owned(), media_type_text(content_type)));
                assert(fields(headers@) =~= wanted);
                let status: u16 = if content_length.0 == 0 {
                    NO_CONTENT
                } else {
                    match content_range.bytes_range() {
                        Some((first, last)) => if content_length.0 != last - first {
                            PARTIAL_CONTENT
                        } else {
                            OK
                        },
                        None => PARTIAL_CONTENT,
                    }
                };
                Response { status, headers, body: ResponseBody::Ranged(stream) }
            },
            RangedResponse::Multiple { stream, boundary, content_length, content_type } => {
                let mut media_type = "multipart/byteranges; boundary=".to_owned();
                media_type.append(boundary.as_str());
                headers.push(("Content-Type".to_owned(), media_type));
                if let Some(n) = stream.content_len() {
                    headers.push(("Content-Length".to_owned(), decimal_text(n)));
                }
                assert(fields(headers@) =~= wanted);
                Response {
                    status: PARTIAL_CONTENT,
                    headers,
                    body: ResponseBody::Multipart(stream),
                }
            },
        }
    }
}

impl RangeNotSatisfiable {
    /// Puts the response together: one that names the size of the body and has none itself.
    pub fn into_response<B>(self) -> (response: Response<B>)
        ensures
            response.status == RANGE_NOT_SATISFIABLE,
            fields(response.headers@) == seq![("Content-Range"@, self.0.spec_text())],
            response.body == ResponseBody::<B>::Empty,
    {
        let mut headers: Vec<(String, String)> = Vec::new();
        headers.push(("Content-Range".to_owned(), self.0.header_text()));
        assert(fields(headers@) =~= seq![("Content-Range"@, self.0.spec_text())]);
        Response { status: RANGE_NOT_SATISFIABLE, headers, body: ResponseBody::Empty }
    }
}

/// Whether `response` is what `result` is put together to.
pub open spec fn responds<B>(
    response: Response<B>,
    result: Result<RangedResponse<B>, RangeNotSatisfiable>,
) -> bool {
    match result {
        Ok(r) => {
            &&& response.status == r.spec_status()
            &&& fields(response.headers@) == r.spec_fields()
            &&& response.body == r.spec_response_body()
        },
        Err(e) => {
            &&& response.status == RANGE_NOT_SATISFIABLE
            &&& fields(response.headers@) == seq![("Content-Range"@, e.0.spec_text())]
            &&& response.body == ResponseBody::<B>::Empty
        },
    }
}

/// Whether a reply can be put together with a body of this media type: it can stand in a header
/// field, and a single range has a first and a last byte.
pub open spec fn presentable(reply: Reply, content_type: Option<String>, block_len: u64) -> bool {
    match reply {
        Reply::Full => is_field_media_type(content_type),
        Reply::Part(range) => {
            &&& is_field_media_type(content_type)
            &&& block_len == 0 ==> range.start < range.end_exclusive
        },
        _ => true,
    }
}

impl<B: RangeBody> Ranged<B> {
    /// Responds to the request and puts the response together, with `boundary` between the parts
    /// of a response that has several.
    pub fn into_response_with(self, boundary: String) -> (response: Response<B>)
        requires
            self.spec_answerable(),
            presentable(
                self.spec_reply(),
                self.spec_content_type(),
                self.spec_body().spec_block_len(),
            ),
            self.spec_reply() is Parts ==> is_field_value(boundary@),
        ensures
            exists|result: Result<RangedResponse<B>, RangeNotSatisfiable>|
                {
                    &&& #[trigger] responds(response, result)
                    &&& crate::respond::gives(
                        result,
                        self.spec_reply(),
                        self.spec_body(),
                        self.spec_body().spec_byte_size(),
                        self.spec_content_type(),
                        boundary@,
                    )
                },
    {
        let ghost header = self.spec_range();
        let ghost size = self.spec_body().spec_byte_size();
        let ghost block_len = self.spec_body().spec_block_len();
        let result = self.try_respond_with(boundary);
        let ghost given = result;
        proof {
            if block_len > 0 {
                lemma_reply_nonempty(header, size, block_len);
            }
        }
        let response = match result {
            Ok(r) => r.into_response(),
            Err(e) => e.into_response(),
        };
        assert(responds(response, given));
        response
    }

    /// Responds to the request and puts the response together.
    pub fn into_response(self) -> (response: Response<B>)
        requires
            self.spec_answerable(),
            presentable(
                self.spec_reply(),
                self.spec_content_type(),
                self.spec_body().spec_block_len(),
            ),
        ensures
            exists|result: Result<RangedResponse<B>, RangeNotSatisfiable>, timestamp: u128|
                {
                    &&& #[trigger] responds(response, result)
                    &&& crate::respond::gives(
                        result,
                        self.spec_reply(),
                        self.spec_body(),
                        self.spec_body().spec_byte_size(),
                        self.spec_content_type(),
                        #[trigger] crate::boundary::boundary_text(timestamp),
                    )
                },
    {
        let boundary = generate_boundary();
        proof {
            let timestamp = choose|timestamp: u128|
                boundary@ == #[trigger] crate::boundary::boundary_text(timestamp);
            lemma_boundary_is_field_value(timestamp);
        }
        self.into_response_with(boundary)
    }
}

/// A single range that a request is answered with is not empty.
proof fn lemma_reply_nonempty(header: Option<Seq<char>>, size: u64, block_len: u64)
    requires
        block_len > 0,
    ensures
        crate::respond::reply(header, size, block_len) matches Reply::Part(r) ==> r.start
            < r.end_exclusive,
{
    if size > 0 && header is Some {
        crate::respond::lemma_chosen_within(header->Some_0, size, block_len);
    }
}

/// A boundary that is made from a point in time can stand in a header field.
proof fn lemma_boundary_is_field_value(timestamp: u128)
    ensures
        is_field_value(crate::boundary::boundary_text(timestamp)),
{
    reveal_strlit("RANGE_BOUNDARY-");
    reveal_strlit("----");
    crate::text::lemma_decimal_digits(timestamp as nat);
    let text = crate::boundary::boundary_text(timestamp);
    assert forall|i: int| 0 <= i < text.len() implies is_field_char(#[trigger] text[i]) by {
        let digits = crate::text::decimal(timestamp as nat);
        if 15 <= i < 15 + digits.len() {
            assert(text[i] == digits[i - 15]);
        }
    }
}

/// Whether a media type, or the one that stands in where there is none, can be a field value.
fn media_type_fits(content_type: &Option<String>) -> (b: bool)
    ensures
        b == is_field_media_type(*content_type),
{
    match content_type {
        Some(t) => fits_field(t.as_str()),
        None => true,
    }
}

/// The decimal text of `n`.
fn decimal_text(n: u64) -> (text: String)
    ensures
        text@ == crate::text::decimal(n as nat),
{
    let mut text = String::new();
    append_decimal(&mut text, n as u128);
    assert(text@ =~= crate::text::decimal(n as nat));
    text
}

/// The media type to name, by default that of arbitrary bytes.
fn media_type_text(content_type: Option<String>) -> (text: String)
    ensures
        text@ == crate::multipart::media_type_or_default(content_type),
{
    match content_type {
        Some(t) => t,
        None => "application/octet-stream".to_owned(),
    }
}

} // verus!
