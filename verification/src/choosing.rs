//! What is chosen of a body for a list of ranges, and how it is answered.
use vstd::prelude::*;

use crate::body::RangeBody;
use crate::byte_range::{Bound, ByteRange};
use crate::content::ContentRange;
use crate::multipart::{MultipartState, Step};
use crate::respond::{RangeNotSatisfiable, Ranged, RangedResponse, Reply};
use crate::response::{Response, ResponseBody};
use crate::stream::{StreamEvent, StreamState};

verus! {

/// The number of bytes in a list of ranges is that of all of them.
pub proof fn law_total_len(ranges: Seq<ByteRange>, range: ByteRange)
    ensures
        crate::selection::total_len(Seq::empty()) == 0,
        crate::selection::total_len(ranges.push(range)) == crate::selection::total_len(ranges) + (
        range.end_exclusive - range.start),
{
    assert(ranges.push(range).drop_last() =~= ranges);
}

/// What is chosen for a list that begins with `chosen` and goes on with `spec`: nothing new for a
/// specification that asks for nothing in the body, the beginning of what it asks for as far as it
/// fits into what is left of the block, and nothing at all where it makes no sense.
pub open spec fn chosen_with(
    chosen: Option<Seq<ByteRange>>,
    spec: Seq<char>,
    size: u64,
    block_len: u64,
) -> Option<Seq<ByteRange>> {
    let asked = crate::header::requested(spec, size);
    if spec.len() > 0 && asked is None && !crate::selection::starts_behind(spec, size) {
        None
    } else if asked is None || !spec.contains('-') {
        chosen
    } else {
        match chosen {
            Some(ranges) => {
                let range = asked->Some_0;
                let left = block_len - crate::selection::total_len(ranges);
                if block_len == 0 && crate::selection::is_open_ended(spec) {
                    None
                } else if block_len > 0 && left == 0 {
                    Some(ranges)
                } else {
                    Some(
                        ranges.push(
                            ByteRange {
                                start: range.start,
                                end_exclusive: if range.start + left < range.end_exclusive {
                                    (range.start + left) as u64
                                } else {
                                    range.end_exclusive
                                },
                            },
                        ),
                    )
                }
            },
            None => None,
        }
    }
}

/// Every specification of a list counts, whatever its length: what is chosen for a list that grows
/// by one is what was chosen before with what that one adds.
pub proof fn law_every_specification_is_chosen_from(
    specs: Seq<Seq<char>>,
    spec: Seq<char>,
    size: u64,
    block_len: u64,
)
    requires
        size > 0,
        specs.len() > 0,
        forall|i: int|
            0 <= i < specs.len() ==> !(#[trigger] specs[i]).contains(',')
                && crate::laws::is_tight(specs[i]),
        !spec.contains(','),
        crate::laws::is_tight(spec),
    ensures
        crate::selection::chosen_ranges(crate::laws::request(seq![spec]), size, block_len)
            == chosen_with(Some(Seq::empty()), spec, size, block_len),
        crate::selection::chosen_ranges(crate::laws::request(specs.push(spec)), size, block_len)
            == chosen_with(
            crate::selection::chosen_ranges(crate::laws::request(specs), size, block_len),
            spec,
            size,
            block_len,
        ),
{
    let one = seq![spec];
    let more = specs.push(spec);
    assert forall|i: int| 0 <= i < more.len() implies !(#[trigger] more[i]).contains(',')
        && crate::laws::is_tight(more[i]) by {
        if i < specs.len() {
            assert(more[i] == specs[i]);
        }
    }
    crate::laws::lemma_request(one);
    crate::laws::lemma_request(specs);
    crate::laws::lemma_request(more);
    assert(more.drop_last() =~= specs);
    assert(one.drop_last() =~= Seq::<Seq<char>>::empty());
    lemma_chosen_grows(specs, spec, size, block_len);
    lemma_chosen_grows(Seq::empty(), spec, size, block_len);
    assert(Seq::<Seq<char>>::empty().push(spec) =~= one);
}

/// What is chosen for a list.
spec fn chosen_of(list: Seq<Seq<char>>, size: u64, block_len: u64) -> Option<Seq<ByteRange>> {
    if !crate::selection::all_readable(list, size) || (block_len == 0
        && crate::selection::some_open_ended(list, size)) {
        None
    } else {
        Some(
            crate::selection::within_block(crate::selection::asked_ranges(list, size), block_len),
        )
    }
}

proof fn lemma_chosen_grows(list: Seq<Seq<char>>, spec: Seq<char>, size: u64, block_len: u64)
    requires
        size > 0,
    ensures
        chosen_of(Seq::empty(), size, block_len) == Some(Seq::<ByteRange>::empty()),
        chosen_of(list.push(spec), size, block_len) == chosen_with(
            chosen_of(list, size, block_len),
            spec,
            size,
            block_len,
        ),
{
    let more = list.push(spec);
    let asked = crate::header::requested(spec, size);
    assert(more.drop_last() =~= list);
    assert(crate::selection::within_block(
        crate::selection::asked_ranges(Seq::empty(), size),
        block_len,
    ) =~= Seq::<ByteRange>::empty());
    assert(crate::selection::all_readable(more, size) == (crate::selection::all_readable(list, size)
        && crate::selection::is_readable(spec, size))) by {
        if crate::selection::all_readable(more, size) {
            assert(more[list.len() as int] == spec);
            assert forall|i: int| 0 <= i < list.len() implies crate::selection::is_readable(
                #[trigger] list[i],
                size,
            ) by {
                assert(more[i] == list[i]);
            }
        }
    }
    crate::selection::lemma_some_open_ended(more, size);
    crate::selection::lemma_asked_within(list, size);
    crate::laws::lemma_asked_nonempty(list, size);
    let front = crate::selection::asked_ranges(list, size);
    crate::selection::lemma_within_block(front, block_len);
    assert(asked is Some ==> (spec.contains('-') <==> crate::text::split(spec, '-').len() == 2)) by {
        if asked is Some {
            if spec.contains('-') {
                if crate::text::split(spec, '-').len() == 1 {
                    crate::text::lemma_split_pieces(spec, '-');
                    crate::text::lemma_join_split(spec, '-');
                }
            } else {
                crate::text::lemma_split_whole(spec, '-');
            }
        }
    }
    if crate::selection::starts_behind(spec, size) {
        assert(asked is None);
    }
    if spec.len() == 0 {
        assert(spec =~= Seq::empty());
        crate::text::lemma_split_whole(spec, '-');
        crate::text_laws::law_no_number(spec, u64::MAX as nat, 0);
        assert(asked is None);
    }
    if crate::selection::has_own_range(spec, size) {
        let all = crate::selection::asked_ranges(more, size);
        assert(all == front.push(asked->Some_0));
        assert(all.drop_last() =~= front);
    }
}

/// A request for which two ranges or more are chosen gets them as one multipart document, which is
/// announced with its boundary and, where that can be told, with its length.
pub proof fn law_request_for_several_ranges<B>(
    header: Seq<char>,
    ranges: Seq<ByteRange>,
    size: u64,
    block_len: u64,
    body: B,
    media_type: Option<String>,
    separator: Seq<char>,
    result: Result<RangedResponse<B>, RangeNotSatisfiable>,
    response: Response<B>,
    data: Seq<u8>,
    sent: Seq<u8>,
)
    requires
        size > 0,
        block_len > 0,
        data.len() == size,
        crate::selection::chosen_ranges(header, size, block_len) == Some(ranges),
        ranges.len() > 1,
        crate::answers::answered(
            Some(header),
            size,
            block_len,
            body,
            media_type,
            separator,
            result,
            response,
        ),
        crate::answers::arrives(response.body, data, sent),
    ensures
        result is Ok,
        result->Ok_0 is Multiple,
        response.status == 206,
        sent == crate::multipart::document(
            ranges,
            size,
            separator,
            crate::answers::named_type(media_type),
            data,
        ),
        sent.len() <= u64::MAX ==> crate::response::fields(response.headers@) == seq![
            ("Accept-Ranges"@, "bytes"@),
            ("Content-Type"@, "multipart/byteranges; boundary="@ + separator),
            ("Content-Length"@, crate::text::decimal(sent.len())),
        ],
        response.body matches ResponseBody::Multipart(stream) && stream.spec_body() == body,
{
    crate::respond::lemma_chosen_within(header, size, block_len);
    let stream = response.body->Multipart_0;
    let (position, events) = choose|position: int, events: Seq<StreamEvent>|
        {
            let run = #[trigger] crate::sending::multipart_run_after(
                stream.progress(),
                position,
                events,
                data,
            );
            &&& crate::sending::can_run_parts(stream.progress(), position, events, data)
            &&& run.asked == Step::Finish
            &&& run.sent == sent
        };
    let named = crate::answers::named_type(media_type);
    crate::sending::law_multipart_run_sends_its_document(
        ranges,
        size,
        separator,
        named,
        position,
        events,
        data,
    );
    crate::wire::law_multipart_length_is_that_of_the_document(ranges, size, separator, named, data);
    crate::answers::law_multiple_response(result->Ok_0);
    assert(crate::response::fields(response.headers@) == (result->Ok_0).spec_fields());
    if sent.len() <= u64::MAX {
        assert((result->Ok_0).spec_fields() =~= seq![
            ("Accept-Ranges"@, "bytes"@),
            ("Content-Type"@, "multipart/byteranges; boundary="@ + separator),
            ("Content-Length"@, crate::text::decimal(sent.len())),
        ]);
    }
}

/// A request for which one range is chosen gets it, as the whole body where it is all of it and
/// nothing longer was asked for; one for which none is chosen is refused.
pub proof fn law_request_for_one_range_or_none<B>(
    header: Seq<char>,
    size: u64,
    block_len: u64,
    body: B,
    media_type: Option<String>,
    separator: Seq<char>,
    result: Result<RangedResponse<B>, RangeNotSatisfiable>,
    response: Response<B>,
    data: Seq<u8>,
    sent: Seq<u8>,
)
    requires
        size > 0,
        block_len > 0,
        data.len() == size,
        crate::answers::answered(
            Some(header),
            size,
            block_len,
            body,
            media_type,
            separator,
            result,
            response,
        ),
        crate::answers::arrives(response.body, data, sent),
    ensures
        match crate::selection::chosen_ranges(header, size, block_len) {
            Some(ranges) => {
                &&& ranges.len() == 0 ==> result is Err && crate::answers::refuses(response, size)
                &&& ranges.len() == 1 ==> result is Ok && if exists|i: int|
                    0 <= i < crate::selection::elements(header).len()
                        && crate::selection::is_long_suffix(
                        #[trigger] crate::selection::elements(header)[i],
                        size,
                    ) {
                    &&& sent == data.subrange(
                        ranges[0].start as int,
                        ranges[0].end_exclusive as int,
                    )
                    &&& crate::answers::serves_range(
                        response,
                        ranges[0].start as int,
                        ranges[0].end_exclusive as int,
                        size,
                        media_type,
                    )
                } else {
                    crate::answers::answers_with(
                        response,
                        ranges[0].start as int,
                        ranges[0].end_exclusive as int,
                        size,
                        media_type,
                        data,
                        sent,
                    )
                }
            },
            None => result is Err && crate::answers::refuses(response, size),
        },
{
    crate::respond::lemma_chosen_within(header, size, block_len);
    match crate::selection::chosen_ranges(header, size, block_len) {
        Some(ranges) => {
            if ranges.len() == 0 {
                crate::answers::lemma_refused(
                    Some(header),
                    size,
                    block_len,
                    body,
                    media_type,
                    separator,
                    result,
                    response,
                );
            } else if ranges.len() == 1 {
                crate::answers::lemma_one_range(
                    Some(header),
                    size,
                    block_len,
                    body,
                    media_type,
                    separator,
                    result,
                    response,
                    ranges[0],
                    data,
                    sent,
                );
            }
        },
        None => {
            crate::answers::lemma_refused(
                Some(header),
                size,
                block_len,
                body,
                media_type,
                separator,
                result,
                response,
            );
        },
    }
}

/// What a result holds: the size of the body as its length, the media type as it was given, and the
/// body, from the first byte of the range on.
pub proof fn law_result<B>(
    result: Result<RangedResponse<B>, RangeNotSatisfiable>,
    reply: Reply,
    body: B,
    size: u64,
    media_type: Option<String>,
    separator: Seq<char>,
)
    requires
        crate::respond::gives(result, reply, body, size, media_type, separator),
        reply matches Reply::Part(range) ==> range.start <= range.end_exclusive
            && range.end_exclusive > 0,
    ensures
        match reply {
            Reply::Unsatisfiable => result matches Err(e) && e.0 == (ContentRange {
                range: None,
                complete_length: Some(size),
            }),
            Reply::Full => {
                &&& result matches Ok(RangedResponse::Full { content_length, stream, content_type })
                &&& content_length.0 == size
                &&& content_type == media_type
                &&& stream.spec_state() == StreamState::Seek { start: 0 }
                &&& stream.spec_length() == size
                &&& stream.spec_body() == body
            },
            Reply::Part(range) => {
                &&& result matches Ok(
                    RangedResponse::Single { content_range, content_length, stream, content_type },
                )
                &&& content_range.range == Some((range.start, (range.end_exclusive - 1) as u64))
                &&& content_range.complete_length == Some(size)
                &&& content_length.0 == size
                &&& content_type == media_type
                &&& stream.spec_state() == StreamState::Seek { start: range.start }
                &&& stream.spec_length() == range.end_exclusive - range.start
                &&& stream.spec_body() == body
            },
            Reply::Parts(ranges) => {
                &&& result matches Ok(
                    RangedResponse::Multiple { stream, boundary, content_length, content_type },
                )
                &&& stream.progress().state == (MultipartState::WritingBoundary { first: true })
                &&& stream.progress().ranges == ranges
                &&& stream.progress().index == 0
                &&& stream.progress().total_size == size
                &&& stream.progress().boundary == separator
                &&& stream.progress().media_type == crate::answers::named_type(media_type)
                &&& stream.spec_body() == body
                &&& boundary@ == separator
                &&& content_length.0 == size
                &&& content_type == media_type
            },
        },
{
}

/// Where blocks hold bytes every request has an answer, and it can be put together where the media
/// type can stand in a header field.
pub proof fn law_every_request_has_an_answer(
    header: Option<Seq<char>>,
    size: u64,
    block_len: u64,
    media_type: Option<String>,
)
    requires
        block_len > 0 || size == 0,
    ensures
        crate::respond::answerable(header, size, block_len),
        (media_type matches Some(t) ==> forall|i: int|
            0 <= i < t@.len() ==> (' ' <= #[trigger] t@[i] && t@[i] != '\u{7f}') || t@[i] == '\t')
            ==> crate::response::presentable(
            crate::respond::reply(header, size, block_len),
            media_type,
            block_len,
        ),
{
}

/// A header field holds no control characters but tabs.
pub proof fn law_field_value(text: Seq<char>)
    ensures
        crate::response::is_field_value(text) <==> forall|i: int|
            0 <= i < text.len() ==> (' ' <= #[trigger] text[i] && text[i] != '\u{7f}') || text[i]
                == '\t',
{
    if forall|i: int|
        0 <= i < text.len() ==> (' ' <= #[trigger] text[i] && text[i] != '\u{7f}') || text[i]
            == '\t' {
        assert forall|i: int| 0 <= i < text.len() implies crate::response::is_field_char(
            #[trigger] text[i],
        ) by {}
    }
    if crate::response::is_field_value(text) {
        assert forall|i: int| 0 <= i < text.len() implies (' ' <= #[trigger] text[i] && text[i]
            != '\u{7f}') || text[i] == '\t' by {
            assert(crate::response::is_field_char(text[i]));
        }
    }
}

/// A range header asks for bytes and holds visible ASCII characters, spaces and tabs only.
pub proof fn law_byte_range_header(text: Seq<char>)
    ensures
        crate::selection::is_byte_range_header(text) <==> {
            &&& exists|rest: Seq<char>| text == #[trigger] ("bytes="@ + rest)
            &&& forall|i: int| 0 <= i < text.len() ==> ' ' <= #[trigger] text[i] <= '~' || text[i]
                == '\t'
        },
{
    crate::text_laws::law_starts_with(text, "bytes="@);
    if forall|i: int| 0 <= i < text.len() ==> ' ' <= #[trigger] text[i] <= '~' || text[i] == '\t' {
        assert forall|i: int| 0 <= i < text.len() implies crate::outside::is_header_char(
            #[trigger] text[i],
        ) by {}
    }
    if crate::outside::is_header_text(text) {
        assert forall|i: int| 0 <= i < text.len() implies ' ' <= #[trigger] text[i] <= '~'
            || text[i] == '\t' by {
            assert(crate::outside::is_header_char(text[i]));
        }
    }
}

/// The range that a pair of bounds comes to begins where they begin, ends where they end or where the
/// body or the block does, and is none where it would begin behind the body or hold nothing.
pub proof fn law_bounded_range(from: Bound<u64>, to: Bound<u64>, size: u64, block_len: u64)
    ensures
        ({
            let start = if from is Included {
                from->Included_0 as int
            } else {
                0
            };
            let end = match to {
                Bound::Included(last) => last + 1,
                Bound::Excluded(end) => end as int,
                Bound::Unbounded => start + block_len,
            };
            match crate::selection::bounded_range((from, to), size, block_len) {
                Some(range) => {
                    &&& start < size
                    &&& start < end
                    &&& range.start == start
                    &&& range.end_exclusive == crate::answers::least(
                        end,
                        size as int,
                        start + block_len,
                    )
                },
                None => start >= size || start >= end,
            }
        }),
{
}

/// The ranges of a list of bounds are those of each of them, whatever its length, and none where one
/// of them comes to none.
pub proof fn law_bounded_ranges(
    bounds: Seq<(Bound<u64>, Bound<u64>)>,
    pair: (Bound<u64>, Bound<u64>),
    size: u64,
    block_len: u64,
)
    ensures
        crate::selection::bounded_ranges(Seq::empty(), size, block_len) == Some(
            Seq::<ByteRange>::empty(),
        ),
        crate::selection::bounded_ranges(bounds.push(pair), size, block_len) == match (
            crate::selection::bounded_ranges(bounds, size, block_len),
            crate::selection::bounded_range(pair, size, block_len),
        ) {
            (Some(ranges), Some(range)) => Some(ranges.push(range)),
            _ => None,
        },
{
    assert(bounds.push(pair).drop_last() =~= bounds);
}

/// The elements of a list are what stands between its commas, without the white space beside them:
/// before the first and behind the last there is no comma.
pub proof fn law_elements(pieces: Seq<Seq<char>>, i: int)
    requires
        forall|j: int| 0 <= j < pieces.len() ==> !(#[trigger] pieces[j]).contains(','),
        0 <= i < pieces.len(),
    ensures
        crate::selection::elements(crate::laws::request(pieces)).len() == pieces.len(),
        crate::selection::elements(crate::laws::request(pieces))[i] == if pieces.len() == 1 {
            pieces[i]
        } else if i == 0 {
            crate::text::trim_end(pieces[i])
        } else if i == pieces.len() - 1 {
            crate::text::trim_start(pieces[i])
        } else {
            crate::text::trimmed(pieces[i])
        },
{
    crate::laws::lemma_request(pieces);
}

/// What is chosen of a body decides the reply: several ranges are several parts, one is a part or the
/// whole body, and none refuses the request.
pub proof fn law_reply_follows_the_choice(header: Seq<char>, size: u64, block_len: u64)
    requires
        size > 0,
    ensures
        crate::respond::reply(Some(header), size, block_len) == match
            crate::selection::chosen_ranges(header, size, block_len) {
            Some(ranges) => if ranges.len() == 0 {
                Reply::Unsatisfiable
            } else if ranges.len() > 1 {
                Reply::Parts(ranges)
            } else if ranges[0].end_exclusive - ranges[0].start == size && !(exists|i: int|
                0 <= i < crate::selection::elements(header).len()
                    && crate::selection::is_long_suffix(
                    #[trigger] crate::selection::elements(header)[i],
                    size,
                )) {
                Reply::Full
            } else {
                Reply::Part(ranges[0])
            },
            None => Reply::Unsatisfiable,
        },
{
    assert(crate::selection::has_long_suffix(header, size) <==> exists|i: int|
        0 <= i < crate::selection::elements(header).len() && crate::selection::is_long_suffix(
            #[trigger] crate::selection::elements(header)[i],
            size,
        ));
}

/// The reply to a request without a header: all of the body where a block holds it, and its first
/// block otherwise; nothing of an empty body, whatever is asked for.
pub proof fn law_reply_without_a_header(header: Option<Seq<char>>, size: u64, block_len: u64)
    ensures
        crate::respond::reply(header, 0, block_len) == Reply::Unsatisfiable,
        0 < size <= block_len ==> crate::respond::reply(None, size, block_len) == Reply::Full,
        size > block_len ==> crate::respond::reply(None, size, block_len) == Reply::Part(
            ByteRange { start: 0, end_exclusive: block_len },
        ),
{
}

/// A request is left without an answer only where blocks hold no bytes: where it names no range, or
/// one without bytes at the very beginning.
pub proof fn law_request_without_an_answer(header: Option<Seq<char>>, size: u64, block_len: u64)
    ensures
        !crate::respond::answerable(header, size, block_len) <==> {
            &&& size > 0
            &&& block_len == 0
            &&& header is None || (crate::respond::reply(header, size, block_len) matches Reply::Part(
                range,
            ) && range.end_exclusive == 0)
        },
{
}

/// A response can be put together where its media type and its boundary can stand in a header field
/// and a single range is named with its first byte first.
pub proof fn law_response_can_be_put_together<B>(r: RangedResponse<B>)
    ensures
        r.well_formed() <==> match r {
            RangedResponse::Full { content_length, stream, content_type } => content_type matches
                Some(t) ==> crate::response::is_field_value(t@),
            RangedResponse::Single { content_range, content_length, stream, content_type } => {
                &&& content_type matches Some(t) ==> crate::response::is_field_value(t@)
                &&& content_range.range is Some
                &&& content_length.0 == 0 || content_range.range->Some_0.0
                    <= content_range.range->Some_0.1
            },
            RangedResponse::Multiple { stream, boundary, content_length, content_type } =>
                crate::response::is_field_value(boundary@),
        },
{
}

/// A responder answers with what its header, the size of its body and its block length come to, and
/// with nothing else in the balance.
pub proof fn law_responder_replies<B: RangeBody>(ranged: Ranged<B>)
    ensures
        ranged.spec_reply() == crate::respond::reply(
            ranged.spec_range(),
            ranged.spec_body().spec_byte_size(),
            ranged.spec_body().spec_block_len(),
        ),
        ranged.spec_answerable() == crate::respond::answerable(
            ranged.spec_range(),
            ranged.spec_body().spec_byte_size(),
            ranged.spec_body().spec_block_len(),
        ),
{
}

} // verus!
