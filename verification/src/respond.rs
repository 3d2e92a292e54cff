//! Responding to a request for ranges of a body.
use vstd::prelude::*;

use crate::body::RangeBody;
use crate::boundary::generate_boundary;
use crate::byte_range::ByteRange;
use crate::content::{ContentLength, ContentRange};
use crate::multipart::MultipartStream;
use crate::selection::{asks_for_long_suffix, select_ranges, RangeHeader};
use crate::stream::RangedStream;

verus! {

/// What a request is answered with.
pub enum Reply {
    /// No range of the body satisfies the request.
    Unsatisfiable,
    /// The whole body.
    Full,
    /// One range of the body.
    Part(ByteRange),
    /// Several ranges of the body.
    Parts(Seq<ByteRange>),
}

/// What a request for the ranges of `header` is answered with, from a body of `size` bytes that is
/// sent in blocks of `block_len` bytes. A single range that makes up the whole body is sent as
/// such, unless the request asks for more bytes from the end than there are.
pub open spec fn reply_to_ranges(header: Seq<char>, size: u64, block_len: u64) -> Reply {
    match crate::selection::chosen_ranges(header, size, block_len) {
        Some(ranges) => if ranges.len() > 1 {
            Reply::Parts(ranges)
        } else if ranges.len() == 1 {
            if ranges[0].spec_len() == size && !crate::selection::has_long_suffix(header, size) {
                Reply::Full
            } else {
                Reply::Part(ranges[0])
            }
        } else {
            Reply::Unsatisfiable
        },
        None => Reply::Unsatisfiable,
    }
}

/// What a request is answered with. Without a range header it is the whole body, or the first
/// block of it. An empty body satisfies no request.
pub open spec fn reply(header: Option<Seq<char>>, size: u64, block_len: u64) -> Reply {
    if size == 0 {
        Reply::Unsatisfiable
    } else {
        match header {
            None => if size <= block_len {
                Reply::Full
            } else {
                Reply::Part(ByteRange { start: 0, end_exclusive: block_len })
            },
            Some(text) => reply_to_ranges(text, size, block_len),
        }
    }
}

/// Whether a request has an answer: a body that is sent in blocks of no bytes has neither a first
/// block to send nor a `Content-Range` for a range without bytes at its very beginning.
pub open spec fn answerable(header: Option<Seq<char>>, size: u64, block_len: u64) -> bool {
    size > 0 && block_len == 0 ==> header is Some && (reply(header, size, block_len) matches
        Reply::Part(range) ==> range.end_exclusive > 0)
}

/// The main responder type.
#[derive(Debug, Clone, PartialEq)]
pub struct Ranged<B: RangeBody> {
    range: Option<RangeHeader>,
    body: B,
    content_type: Option<String>,
}

/// Error type indicating that the requested range was not satisfiable.
#[derive(Debug, Clone, PartialEq)]
pub struct RangeNotSatisfiable(pub ContentRange);

/// Data type containing computed headers and body for a range response.
#[derive(Debug)]
pub enum RangedResponse<B> {
    /// Full content response.
    Full { content_length: ContentLength, stream: RangedStream<B>, content_type: Option<String> },
    /// Response with one range of the content.
    Single {
        content_range: ContentRange,
        content_length: ContentLength,
        stream: RangedStream<B>,
        content_type: Option<String>,
    },
    /// Response with several ranges of the content.
    Multiple {
        stream: MultipartStream<B>,
        boundary: String,
        content_length: ContentLength,
        content_type: Option<String>,
    },
}

/// Whether `result` is `reply`, made of `body`, a body of `size` bytes.
pub open spec fn gives<B>(
    result: Result<RangedResponse<B>, RangeNotSatisfiable>,
    reply: Reply,
    body: B,
    size: u64,
    media_type: Option<String>,
    separator: Seq<char>,
) -> bool {
    match reply {
        Reply::Unsatisfiable => {
            &&& result matches Err(e)
            &&& e.0 == (ContentRange { range: None, complete_length: Some(size) })
        },
        Reply::Full => {
            &&& result matches Ok(RangedResponse::Full { content_length, stream, content_type })
            &&& content_length.0 == size
            &&& stream.sends(body, 0, size)
            &&& content_type == media_type
        },
        Reply::Part(range) => {
            &&& result matches Ok(
                RangedResponse::Single { content_range, content_length, stream, content_type },
            )
            &&& content_range == (ContentRange {
                range: Some((range.start, (range.end_exclusive - 1) as u64)),
                complete_length: Some(size),
            })
            &&& content_length.0 == size
            &&& stream.sends(body, range.start, range.spec_len() as u64)
            &&& content_type == media_type
        },
        Reply::Parts(ranges) => {
            &&& result matches Ok(
                RangedResponse::Multiple { stream, boundary, content_length, content_type },
            )
            &&& stream.progress() == crate::multipart::beginning(
                ranges,
                size,
                separator,
                crate::multipart::media_type_or_default(media_type),
            )
            &&& stream.spec_body() == body
            &&& boundary@ == separator
            &&& content_length.0 == size
            &&& content_type == media_type
        },
    }
}

impl<B: RangeBody> Ranged<B> {
    /// The range header of the request.
    pub closed spec fn spec_range(&self) -> Option<Seq<char>> {
        match self.range {
            Some(r) => Some(r@),
            None => None,
        }
    }

    /// The body to respond with.
    pub closed spec fn spec_body(&self) -> B {
        self.body
    }

    /// The media type of the body.
    pub closed spec fn spec_content_type(&self) -> Option<String> {
        self.content_type
    }

    /// What the request is answered with.
    pub open spec fn spec_reply(&self) -> Reply {
        reply(
            self.spec_range(),
            self.spec_body().spec_byte_size(),
            self.spec_body().spec_block_len(),
        )
    }

    /// Whether the request has an answer.
    pub open spec fn spec_answerable(&self) -> bool {
        answerable(
            self.spec_range(),
            self.spec_body().spec_byte_size(),
            self.spec_body().spec_block_len(),
        )
    }

    /// Construct a ranged response over any type implementing [`RangeBody`]
    /// and an optional [`RangeHeader`].
    pub fn new(range: Option<RangeHeader>, body: B, content_type: Option<String>) -> (ranged: Self)
        ensures
            ranged.spec_range() == (match range {
                Some(r) => Some(r@),
                None => None,
            }),
            ranged.spec_body() == body,
            ranged.spec_content_type() == content_type,
    {
        Ranged { range, body, content_type }
    }

    /// Whether the request has an answer.
    pub fn has_answer(&self) -> (b: bool)
        ensures
            b == self.spec_answerable(),
    {
        let total_bytes: u64 = self.body.byte_size();
        let block_len: u64 = self.body.block_len();
        if total_bytes == 0 || block_len > 0 {
            return true;
        }
        match &self.range {
            None => false,
            Some(range) => match select_ranges(range, total_bytes, block_len) {
                Some(ranges) => {
                    proof {
                        lemma_chosen_within(range@, total_bytes, block_len);
                    }
                    ranges.len() != 1 || ranges[0].end_exclusive > 0
                },
                None => true,
            },
        }
    }

    /// Responds to the request as [`Ranged::try_respond`] does, with `boundary` between the parts
    /// of a response that has several.
    pub fn try_respond_with(self, boundary: String) -> (result: Result<
        RangedResponse<B>,
        RangeNotSatisfiable,
    >)
        requires
            self.spec_answerable(),
        ensures
            gives(
                result,
                self.spec_reply(),
                self.spec_body(),
                self.spec_body().spec_byte_size(),
                self.spec_content_type(),
                boundary@,
            ),
    {
        let total_bytes: u64 = self.body.byte_size();
        if total_bytes == 0 {
            return Err(RangeNotSatisfiable(ContentRange::unsatisfied_bytes(total_bytes)));
        }
        let block_len: u64 = self.body.block_len();
        match self.range {
            None => {
                if total_bytes <= block_len {
                    Ok(whole(self.body, total_bytes, self.content_type))
                } else {
                    Ok(
                        single(
                            self.body,
                            ByteRange::new(0, block_len),
                            total_bytes,
                            self.content_type,
                        ),
                    )
                }
            },
            Some(range) => {
                let ranges = match select_ranges(&range, total_bytes, block_len) {
                    Some(ranges) => ranges,
                    None => {
                        return Err(
                            RangeNotSatisfiable(ContentRange::unsatisfied_bytes(total_bytes)),
                        );
                    },
                };
                proof {
                    lemma_chosen_within(range@, total_bytes, block_len);
                }
                if ranges.len() == 0 {
                    return Err(RangeNotSatisfiable(ContentRange::unsatisfied_bytes(total_bytes)));
                }
                if ranges.len() == 1 {
                    let chosen = ranges[0];
                    if chosen.len() == total_bytes && !asks_for_long_suffix(&range, total_bytes) {
                        Ok(whole(self.body, total_bytes, self.content_type))
                    } else {
                        Ok(single(self.body, chosen, total_bytes, self.content_type))
                    }
                } else {
                    let stream = MultipartStream::new(
                        self.body,
                        ranges,
                        total_bytes,
                        boundary.clone(),
                        copy_of(&self.content_type),
                    );
                    Ok(
                        RangedResponse::Multiple {
                            stream,
                            boundary,
                            content_length: ContentLength(total_bytes),
                            content_type: self.content_type,
                        },
                    )
                }
            },
        }
    }

    /// Responds to the request, returning headers and body as
    /// [`RangedResponse`]. Returns [`RangeNotSatisfiable`] error if requested
    /// range in header was not satisfiable.
    pub fn try_respond(self) -> (result: Result<RangedResponse<B>, RangeNotSatisfiable>)
        requires
            self.spec_answerable(),
        ensures
            exists|timestamp: u128|
                gives(
                    result,
                    self.spec_reply(),
                    self.spec_body(),
                    self.spec_body().spec_byte_size(),
                    self.spec_content_type(),
                    #[trigger] crate::boundary::boundary_text(timestamp),
                ),
    {
        self.try_respond_with(generate_boundary())
    }
}

/// A copy of an optional text.
fn copy_of(text: &Option<String>) -> (copy: Option<String>)
    ensures
        copy == *text,
{
    match text {
        Some(t) => Some(t.clone()),
        None => None,
    }
}

/// The response with all of a body.
fn whole<B>(body: B, total_bytes: u64, content_type: Option<String>) -> (response: RangedResponse<
    B,
>)
    ensures
        gives(
            Ok(response),
            Reply::Full,
            body,
            total_bytes,
            content_type,
            Seq::empty(),
        ),
{
    RangedResponse::Full {
        content_length: ContentLength(total_bytes),
        stream: RangedStream::new(body, 0, total_bytes),
        content_type,
    }
}

/// The response with one range of a body.
fn single<B>(body: B, range: ByteRange, total_bytes: u64, content_type: Option<String>) -> (response:
    RangedResponse<B>)
    requires
        range.start <= range.end_exclusive,
        range.end_exclusive > 0,
    ensures
        gives(
            Ok(response),
            Reply::Part(range),
            body,
            total_bytes,
            content_type,
            Seq::empty(),
        ),
{
    RangedResponse::Single {
        content_range: ContentRange::bytes(range.start..range.end_exclusive, total_bytes),
        content_length: ContentLength(total_bytes),
        stream: RangedStream::new(body, range.start, range.len()),
        content_type,
    }
}

/// Every range that is chosen lies in the body, with at least one byte unless blocks hold none, and
/// all of them together hold no more than a block.
pub proof fn lemma_chosen_within(header: Seq<char>, size: u64, block_len: u64)
    requires
        size > 0,
    ensures
        crate::selection::chosen_ranges(header, size, block_len) matches Some(ranges) ==> {
            &&& crate::selection::total_len(ranges) <= block_len
            &&& forall|i: int|
                0 <= i < ranges.len() ==> {
                    let range = #[trigger] ranges[i];
                    &&& range.start <= range.end_exclusive <= size
                    &&& range.spec_len() <= block_len
                    &&& block_len > 0 ==> range.start < range.end_exclusive
                }
        },
{
    let list = crate::selection::elements(header);
    let asked = crate::selection::asked_ranges(list, size);
    crate::selection::lemma_asked_within(list, size);
    assert forall|i: int| 0 <= i < asked.len() implies (#[trigger] asked[i]).start
        < asked[i].end_exclusive by {
        assert(asked[i].within(size as int));
    }
    crate::selection::lemma_within_block(asked, block_len);
    let held = crate::selection::within_block(asked, block_len);
    assert forall|i: int| 0 <= i < held.len() implies (#[trigger] held[i]).end_exclusive <= size by {
        assert(asked[i].within(size as int));
    }
}

} // verus!
