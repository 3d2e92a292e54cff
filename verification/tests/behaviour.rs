use axum_extra::headers::{Header, HeaderValue};
use axum_range::{
    boundary_at, byte_ranges, extract_boundary, fits_field, generate_boundary, Bound, ByteRange, ContentLength,
    ContentRange, KnownSize, MultipartAction, MultipartStream, RangeBody, RangeHeader,
    RangeNotSatisfiable, Ranged, RangedResponse, RangedStream, Response, ResponseBody, StreamAction,
    StreamEvent,
};

const ALPHABET: &str = "0123456789ABCDEFGHIJKLMNOPQRSTUVWXYZabcdefghijklmnopqrstuvwxyz";

type Body = KnownSize<Vec<u8>>;

/// Hands out everything that a stream sends from its body, in reads of at most `limit` bytes.
fn collect_in_reads(stream: RangedStream<Body>, limit: usize) -> String {
    let (body, mut stream) = stream.into_parts();
    let bytes = body.into_body();
    let mut position = 0;
    let mut sent: Vec<u8> = Vec::new();
    let mut read: Vec<u8> = Vec::new();
    let mut event = StreamEvent::Poll;
    loop {
        event = match stream.poll_next(event) {
            StreamAction::StartSeek(to) => {
                position = to as usize;
                StreamEvent::SeekStarted
            }
            StreamAction::CompleteSeek => StreamEvent::SeekCompleted,
            StreamAction::Read(n) => {
                let n = n.min(limit).min(bytes.len().saturating_sub(position));
                let from = position.min(bytes.len());
                read = bytes[from..from + n].to_vec();
                position += n;
                StreamEvent::BytesRead(n)
            }
            StreamAction::Yield => {
                sent.append(&mut read);
                StreamEvent::Poll
            }
            StreamAction::Finish => return String::from_utf8(sent).unwrap(),
        };
    }
}

fn collect_stream(stream: RangedStream<Body>) -> String {
    collect_in_reads(stream, usize::MAX)
}

/// Hands out the document that a multipart stream sends, in reads of at most `limit` bytes.
fn collect_document(stream: MultipartStream<Body>, limit: usize) -> String {
    let (body, mut stream) = stream.into_parts();
    let bytes = body.into_body();
    let mut position = 0;
    let mut sent: Vec<u8> = Vec::new();
    let mut read: Vec<u8> = Vec::new();
    let mut event = StreamEvent::Poll;
    loop {
        event = match stream.poll_next(event) {
            MultipartAction::Write(text) => {
                sent.extend_from_slice(text.as_bytes());
                StreamEvent::Poll
            }
            MultipartAction::StartSeek(to) => {
                position = to as usize;
                StreamEvent::SeekStarted
            }
            MultipartAction::CompleteSeek => StreamEvent::SeekCompleted,
            MultipartAction::Read(n) => {
                let n = n.min(limit).min(bytes.len().saturating_sub(position));
                let from = position.min(bytes.len());
                read = bytes[from..from + n].to_vec();
                position += n;
                StreamEvent::BytesRead(n)
            }
            MultipartAction::Yield => {
                sent.append(&mut read);
                StreamEvent::Poll
            }
            MultipartAction::Finish => return String::from_utf8(sent).unwrap(),
        };
    }
}

fn blocks(content: &str, block_len: u64) -> Body {
    KnownSize::sized_blocks(content.as_bytes().to_vec(), content.len() as u64, block_len)
}

fn request(header: &str, block_len: u64) -> Ranged<Body> {
    let range = RangeHeader::decode(header).unwrap();
    Ranged::new(Some(range), blocks(ALPHABET, block_len), None)
}

/// The status, the header fields and the content of a response, with `SEP` between parts.
fn answer(ranged: Ranged<Body>) -> (u16, Vec<(String, String)>, String) {
    let Response { status, headers, body } = ranged.into_response_with("SEP".to_string());
    let content = match body {
        ResponseBody::Empty => String::new(),
        ResponseBody::Ranged(stream) => collect_stream(stream),
        ResponseBody::Multipart(stream) => collect_document(stream, usize::MAX),
    };
    (status, headers, content)
}

fn fields(pairs: &[(&str, &str)]) -> Vec<(String, String)> {
    pairs.iter().map(|(n, v)| (n.to_string(), v.to_string())).collect()
}

fn partial(range: &str) -> Vec<(String, String)> {
    fields(&[
        ("Accept-Ranges", "bytes"),
        ("Content-Range", range),
        ("Content-Type", "application/octet-stream"),
    ])
}

fn refused() -> (u16, Vec<(String, String)>, String) {
    (416, fields(&[("Content-Range", "bytes */62")]), String::new())
}

#[test]
fn one_range_is_partial_content() {
    assert_eq!(
        answer(request("bytes=10-19", 62)),
        (206, partial("bytes 10-19/62"), "ABCDEFGHIJ".to_string())
    );
}

#[test]
fn the_whole_body_is_ok() {
    let expected = (
        200,
        fields(&[
            ("Accept-Ranges", "bytes"),
            ("Content-Length", "62"),
            ("Content-Type", "application/octet-stream"),
        ]),
        ALPHABET.to_string(),
    );
    assert_eq!(answer(Ranged::new(None, blocks(ALPHABET, 62), None)), expected);
    assert_eq!(answer(request("bytes=0-", 62)), expected);
    assert_eq!(answer(request("bytes=0-61", 62)), expected);
    assert_eq!(answer(request("bytes=-62", 62)), expected);
}

#[test]
fn a_suffix_longer_than_the_body_is_partial_content() {
    let expected = (206, partial("bytes 0-61/62"), ALPHABET.to_string());
    assert_eq!(answer(request("bytes=-63", 62)), expected);
    assert_eq!(answer(request("bytes=-100", 100)), expected);
    assert_eq!(answer(request("bytes=99-,-100", 62)), expected);
    assert_eq!(
        answer(request("bytes=-100", 10)),
        (206, partial("bytes 0-9/62"), "0123456789".to_string())
    );
}

#[test]
fn requests_that_cannot_be_satisfied_are_refused() {
    for header in [
        "bytes=62-",
        "bytes=30-20",
        "bytes=-0",
        "bytes=x",
        "bytes=5",
        "bytes=99-,62-70,-0",
        "bytes=0-4,9-5",
        "bytes=0-4,99-98",
        "bytes=0-4,x",
        "bytes=0-9,99",
        "bytes=, ,",
        "bytes= 0-4",
        "bytes=0 - 4,6-9",
        "bytes=",
        "bytes=0-4-5",
        "bytes=5-/62",
    ] {
        assert_eq!(answer(request(header, 62)), refused(), "{}", header);
    }
}

#[test]
fn an_empty_body_satisfies_no_request() {
    let (status, headers, content) = answer(Ranged::new(None, blocks("", 0), None));
    assert_eq!(status, 416);
    assert_eq!(headers, fields(&[("Content-Range", "bytes */0")]));
    assert_eq!(content, "");
    let range = RangeHeader::decode("bytes=0-").unwrap();
    assert_eq!(answer(Ranged::new(Some(range), blocks("", 5), None)).0, 416);
}

#[test]
fn several_ranges_make_a_multipart_document() {
    let (status, headers, content) = answer(request("bytes=40-41,0-0", 62));
    assert_eq!(status, 206);
    assert_eq!(
        headers,
        fields(&[
            ("Accept-Ranges", "bytes"),
            ("Content-Type", "multipart/byteranges; boundary=SEP"),
            ("Content-Length", "174"),
        ])
    );
    assert_eq!(
        content,
        "--SEP\r\nContent-Type: application/octet-stream\r\nContent-Range: bytes 40-41/62\r\n\r\n\
         ef\r\n--SEP\r\nContent-Type: application/octet-stream\r\n\
         Content-Range: bytes 0-0/62\r\n\r\n0\r\n--SEP--\r\n"
    );
}

#[test]
fn the_content_length_is_that_of_the_document() {
    for header in ["bytes=0-9,20-29,-5", "bytes=0-0,-1", "bytes=5-,0-3,-100"] {
        let (_, headers, content) = answer(request(header, 1000));
        assert_eq!(headers[2], ("Content-Length".to_string(), content.len().to_string()));
    }
    let range = RangeHeader::decode("bytes=0-0,-1").unwrap();
    let ranged = Ranged::new(Some(range), blocks(ALPHABET, 62), Some("text/\u{e9}".to_string()));
    let (_, headers, content) = answer(ranged);
    assert_eq!(headers[2].1, content.len().to_string());
}

#[test]
fn the_content_length_shrinks_as_a_stream_is_sent() {
    let ranges = vec![ByteRange::new(3, 7), ByteRange::new(0, 2)];
    let mut stream = MultipartStream::new((), ranges, 62, "SEP".to_string(), None);
    let whole = stream.content_len().unwrap();
    let mut sent = 0;
    let mut event = StreamEvent::Poll;
    loop {
        event = match stream.poll_next(event) {
            MultipartAction::Write(text) => {
                sent += text.len() as u64;
                StreamEvent::Poll
            }
            MultipartAction::StartSeek(_) => StreamEvent::SeekStarted,
            MultipartAction::CompleteSeek => StreamEvent::SeekCompleted,
            MultipartAction::Read(_) => {
                sent += 1;
                StreamEvent::BytesRead(1)
            }
            MultipartAction::Yield => StreamEvent::Poll,
            MultipartAction::Finish => break,
        };
        if event == StreamEvent::Poll {
            assert_eq!(stream.content_len(), Some(whole - sent));
        }
    }
    assert_eq!(stream.content_len(), Some(0));
}

#[test]
fn a_document_that_is_too_long_has_no_content_length() {
    let long = || ByteRange::new(0, u64::MAX);
    let stream = MultipartStream::new((), vec![long(), long()], 62, "SEP".to_string(), None);
    assert_eq!(stream.content_len(), None);
    let empty = vec![ByteRange::new(0, 0), ByteRange::new(0, 1)];
    assert_eq!(MultipartStream::new((), empty, 62, "SEP".to_string(), None).content_len(), None);
}

#[test]
fn responses_that_cannot_be_put_together_are_told() {
    let stream = || RangedStream::new((), 0, 1);
    let full = |content_type: Option<String>| {
        RangedResponse::Full { content_length: ContentLength(1), stream: stream(), content_type }
            .can_be_put_together()
    };
    assert!(full(None));
    assert!(full(Some("text/plain".to_string())));
    assert!(!full(Some("text\n".to_string())));
    let single = |range: Option<(u64, u64)>, length: u64, content_type: Option<String>| {
        RangedResponse::Single {
            content_range: ContentRange { range, complete_length: None },
            content_length: ContentLength(length),
            stream: stream(),
            content_type,
        }
        .can_be_put_together()
    };
    assert!(single(Some((3, 3)), 9, None));
    assert!(single(Some((3, 2)), 0, None));
    assert!(!single(Some((3, 2)), 9, None));
    assert!(!single(None, 9, None));
    assert!(!single(Some((3, 3)), 9, Some("\r".to_string())));
    let multiple = |boundary: &str| {
        RangedResponse::Multiple {
            stream: MultipartStream::new((), vec![], 9, boundary.to_string(), None),
            boundary: boundary.to_string(),
            content_length: ContentLength(9),
            content_type: None,
        }
        .can_be_put_together()
    };
    assert!(multiple("SEP"));
    assert!(!multiple("S\0P"));
}

#[test]
fn parts_carry_the_media_type_of_the_body() {
    let range = RangeHeader::decode("bytes=0-0,-1").unwrap();
    let ranged = Ranged::new(Some(range), blocks(ALPHABET, 62), Some("text/plain".to_string()));
    let (_, headers, content) = answer(ranged);
    assert_eq!(headers[1].1, "multipart/byteranges; boundary=SEP");
    assert_eq!(content.matches("Content-Type: text/plain\r\n").count(), 2);
}

#[test]
fn reads_of_any_size_give_the_same_document() {
    let document = |limit: usize| match request("bytes=0-9,20-29,-5", 62)
        .try_respond_with("SEP".to_string())
        .unwrap()
    {
        RangedResponse::Multiple { stream, boundary, content_length, .. } => {
            assert_eq!(boundary, "SEP");
            assert_eq!(content_length, ContentLength(62));
            collect_document(stream, limit)
        }
        _ => panic!("Expected a multiple range response"),
    };
    assert_eq!(document(1), document(usize::MAX));
    assert_eq!(document(3), document(usize::MAX));
}

#[test]
fn a_total_length_has_no_effect() {
    for (marked, plain) in [
        ("bytes=0-4,-1/*", "bytes=0-4,-1"),
        ("bytes=0-4/62,-1", "bytes=0-4,-1"),
        ("bytes=10-19/99", "bytes=10-19"),
        ("bytes=-3/", "bytes=-3"),
    ] {
        assert_eq!(answer(request(marked, 62)), answer(request(plain, 62)), "{}", marked);
    }
}

#[test]
fn the_last_bytes_can_be_asked_for_by_position() {
    for (suffix, open) in [("bytes=-10", "bytes=52-"), ("bytes=-62", "bytes=0-")] {
        assert_eq!(answer(request(suffix, 62)), answer(request(open, 62)));
        assert_eq!(answer(request(suffix, 7)), answer(request(open, 7)));
    }
    assert_eq!(answer(request("bytes=52-61", 62)), answer(request("bytes=52-", 62)));
    assert_eq!(answer(request("bytes=52-18446744073709551615", 62)), answer(request("bytes=52-", 62)));
}

#[test]
fn one_range_is_no_longer_than_a_block() {
    assert_eq!(
        answer(Ranged::new(None, blocks(ALPHABET, 10), None)),
        (206, partial("bytes 0-9/62"), "0123456789".to_string())
    );
    assert_eq!(
        answer(request("bytes=50-", 10)),
        (206, partial("bytes 50-59/62"), "opqrstuvwx".to_string())
    );
    assert_eq!(
        answer(request("bytes=-12", 10)),
        (206, partial("bytes 50-59/62"), "opqrstuvwx".to_string())
    );
}

/// The `Content-Range` of each part of a response, with its content.
fn parts(ranged: Ranged<Body>) -> Vec<(String, String)> {
    let (status, _, content) = answer(ranged);
    assert_eq!(status, 206);
    let mut found = Vec::new();
    for part in content.split("--SEP\r\n").skip(1) {
        let (head, body) = part.split_once("\r\n\r\n").unwrap();
        let (_, range) = head.split_once("Content-Range: ").unwrap();
        let (body, _) = body.split_once("\r\n").unwrap();
        found.push((range.to_string(), body.to_string()));
    }
    found
}

#[test]
fn all_ranges_together_are_no_longer_than_a_block() {
    assert_eq!(
        answer(request("bytes=0-9,20-29", 10)),
        (206, partial("bytes 0-9/62"), "0123456789".to_string())
    );
    assert_eq!(
        answer(request("bytes=0-20,30-", 10)),
        (206, partial("bytes 0-9/62"), "0123456789".to_string())
    );
    assert_eq!(
        parts(request("bytes=0-3,30-,50-", 10)),
        fields(&[("bytes 0-3/62", "0123"), ("bytes 30-35/62", "UVWXYZ")])
    );
    assert_eq!(
        parts(request("bytes=0-3,30-32,50-", 10)),
        fields(&[("bytes 0-3/62", "0123"), ("bytes 30-32/62", "UVW"), ("bytes 50-52/62", "opq")])
    );
}

#[test]
fn ranges_behind_the_body_are_left_out() {
    let expected = (206, partial("bytes 0-9/62"), "0123456789".to_string());
    for header in [
        "bytes=0-9,100-200",
        "bytes=100-200,0-9",
        "bytes=62-,0-9,-0",
        "bytes=0-9,5",
    ] {
        assert_eq!(answer(request(header, 62)), expected, "{}", header);
    }
    assert_eq!(
        parts(request("bytes=0-0,100-,-1", 62)),
        fields(&[("bytes 0-0/62", "0"), ("bytes 61-61/62", "z")])
    );
}

#[test]
fn white_space_and_empty_elements_are_left_out() {
    let expected = fields(&[("bytes 0-4/62", "01234"), ("bytes 6-9/62", "6789")]);
    for header in [
        "bytes=0-4,6-9",
        "bytes=0-4, 6-9",
        "bytes=0-4 \t,\t 6-9",
        "bytes=,0-4,, ,6-9,",
        "bytes=0-4/ , 6-9/62",
    ] {
        assert_eq!(parts(request(header, 62)), expected, "{}", header);
    }
}

#[test]
fn a_long_suffix_beside_another_range_is_all_of_the_body() {
    assert_eq!(
        parts(request("bytes=0-4,-100", 100)),
        fields(&[("bytes 0-4/62", "01234"), ("bytes 0-61/62", ALPHABET)])
    );
    assert_eq!(
        parts(request("bytes=0-4,-100", 8)),
        fields(&[("bytes 0-4/62", "01234"), ("bytes 0-2/62", "012")])
    );
}

#[test]
fn blocks_without_bytes_leave_open_ranges_unsatisfied() {
    assert_eq!(answer(request("bytes=5-", 0)), refused());
    assert_eq!(answer(request("bytes=-5", 0)), refused());
    assert_eq!(answer(request("bytes=99-", 0)), refused());
    assert_eq!(answer(request("bytes=-100", 0)), refused());
    assert!(request("bytes=5-9", 0).has_answer());
    assert!(!request("bytes=0-9", 0).has_answer());
    assert!(!Ranged::new(None, blocks(ALPHABET, 0), None).has_answer());
    assert!(Ranged::new(None, blocks("", 0), None).has_answer());
    assert!(request("bytes=0-9", 1).has_answer());
    match request("bytes=5-9", 0).try_respond().unwrap() {
        RangedResponse::Single { content_range, stream, .. } => {
            assert_eq!(content_range, ContentRange { range: Some((5, 4)), complete_length: Some(62) });
            assert_eq!(collect_stream(stream), "");
        }
        _ => panic!("Expected a single range response"),
    }
}

#[test]
fn only_byte_range_headers_are_read() {
    assert!(RangeHeader::decode("lines=0-4").is_none());
    assert!(RangeHeader::decode("").is_none());
    assert!(RangeHeader::decode("bytes=0-\n").is_none());
    assert!(RangeHeader::decode("bytes=0-\u{e9}").is_none());
    let header = RangeHeader::decode("bytes=0-4, 6-9").unwrap();
    assert_eq!(header.as_str(), "bytes=0-4, 6-9");
    assert_eq!(header.clone(), header);
}

#[test]
fn bounds_come_to_ranges() {
    let bounds = vec![
        (Bound::Included(0), Bound::Included(4)),
        (Bound::Included(60), Bound::Included(u64::MAX)),
        (Bound::Excluded(3), Bound::Excluded(2)),
        (Bound::Included(5), Bound::Unbounded),
    ];
    assert_eq!(
        byte_ranges(&bounds, 62, 10),
        Some(vec![
            ByteRange::new(0, 5),
            ByteRange::new(60, 62),
            ByteRange::new(0, 2),
            ByteRange::new(5, 15),
        ])
    );
    assert_eq!(byte_ranges(&vec![(Bound::Included(62), Bound::Unbounded)], 62, 10), None);
    assert_eq!(byte_ranges(&vec![(Bound::Included(5), Bound::Included(4))], 62, 10), None);
    assert_eq!(
        byte_ranges(&vec![(Bound::Unbounded, Bound::Unbounded)], 62, u64::MAX),
        Some(vec![ByteRange::new(0, 62)])
    );
}

#[test]
fn byte_ranges_have_a_length() {
    assert_eq!(ByteRange::new(5, 9).len(), 4);
    assert_eq!(ByteRange::new(5, 5).len(), 0);
}

#[test]
fn media_types_follow_the_extension() {
    let content_type = |extension: Option<&str>| KnownSize::file((), 1, extension).content_type();
    assert_eq!(content_type(Some("txt")), Some("text/plain".to_string()));
    assert_eq!(content_type(Some("mp4")), Some("video/mp4".to_string()));
    assert_eq!(content_type(Some("PNG")), Some("image/png".to_string()));
    assert_eq!(content_type(Some("no-such-extension")), Some("application/octet-stream".to_string()));
    assert_eq!(content_type(Some("")), Some("application/octet-stream".to_string()));
    assert_eq!(content_type(None), Some("application/octet-stream".to_string()));
    assert_eq!(
        KnownSize::file_blocks((), 1, Some("html"), 1).content_type(),
        Some("text/html".to_string())
    );
    assert_eq!(KnownSize::sized((), 1).content_type(), None);
}

#[test]
fn bodies_know_their_size_and_their_blocks() {
    let sizes = |body: KnownSize<u8>| (body.byte_size(), body.block_len(), body.into_body());
    assert_eq!(sizes(KnownSize::file(1, 54, None)), (54, 54, 1));
    assert_eq!(sizes(KnownSize::file_blocks(2, 54, None, 10)), (54, 10, 2));
    assert_eq!(sizes(KnownSize::sized(3, 54)), (54, 54, 3));
    assert_eq!(sizes(KnownSize::sized_blocks(4, 54, 10)), (54, 10, 4));
    assert_eq!(sizes(KnownSize::seek(5, 54)), (54, 54, 5));
    assert_eq!(sizes(KnownSize::seek_blocks(6, 54, 10)), (54, 10, 6));
    let body = KnownSize::sized_blocks(7, 54, 10);
    assert_eq!(RangeBody::block_len(&body), 10);
}

#[test]
fn content_ranges_read_as_the_headers_crate_writes_them() {
    let written = |range: axum_extra::headers::ContentRange| {
        let mut values: Vec<HeaderValue> = Vec::new();
        range.encode(&mut values);
        values[0].to_str().unwrap().to_string()
    };
    assert_eq!(
        ContentRange::bytes(0..30, 54).header_text(),
        written(axum_extra::headers::ContentRange::bytes(0..30, 54).unwrap())
    );
    assert_eq!(
        ContentRange::unsatisfied_bytes(54).header_text(),
        written(axum_extra::headers::ContentRange::unsatisfied_bytes(54))
    );
    assert_eq!(
        ContentRange { range: Some((3, 4)), complete_length: None }.header_text(),
        written(axum_extra::headers::ContentRange::bytes(3..5, None).unwrap())
    );
    assert_eq!(ContentRange::bytes(7..9, 10).bytes_range(), Some((7, 8)));
    assert_eq!(ContentRange::unsatisfied_bytes(10).bytes_range(), None);
}

#[test]
fn boundaries_are_made_from_the_time() {
    assert_eq!(boundary_at(0), "RANGE_BOUNDARY-0----");
    assert_eq!(boundary_at(1700000000123456789), "RANGE_BOUNDARY-1700000000123456789----");
    assert_ne!(boundary_at(10), boundary_at(11));
    let boundary = generate_boundary();
    let time = boundary.strip_prefix("RANGE_BOUNDARY-").unwrap().strip_suffix("----").unwrap();
    assert!(time.parse::<u128>().unwrap() > 1_600_000_000_000_000_000);
}

#[test]
fn boundaries_can_be_extracted() {
    let range = RangeHeader::decode("bytes=0-4,-1").unwrap();
    let response = Ranged::new(Some(range), blocks(ALPHABET, 62), None).into_response();
    let boundary = extract_boundary(&response.headers[1].1).unwrap();
    assert!(boundary.starts_with("RANGE_BOUNDARY-"));
    assert_eq!(extract_boundary("multipart/byteranges; boundary=SEP"), Some("SEP".to_string()));
    assert_eq!(extract_boundary("text/plain"), None);
}

#[test]
fn an_empty_content_has_no_content() {
    let response = RangedResponse::Single {
        content_range: ContentRange { range: Some((0, 0)), complete_length: Some(0) },
        content_length: ContentLength(0),
        stream: RangedStream::new(blocks("", 0), 0, 0),
        content_type: Some("text/plain".to_string()),
    }
    .into_response();
    assert_eq!(response.status, 204);
    assert_eq!(response.headers[1].1, "bytes 0-0/0");
    assert_eq!(response.headers[2].1, "text/plain");
}

#[test]
fn a_range_as_long_as_the_content_is_ok() {
    let response = RangedResponse::Single {
        content_range: ContentRange { range: Some((2, 7)), complete_length: Some(62) },
        content_length: ContentLength(5),
        stream: RangedStream::new(blocks(ALPHABET, 62), 2, 5),
        content_type: None,
    }
    .into_response();
    assert_eq!(response.status, 200);
    assert_eq!(response.headers[1].1, "bytes 2-7/5");
}

#[test]
fn a_refusal_names_the_size() {
    let response: Response<()> =
        RangeNotSatisfiable(ContentRange::unsatisfied_bytes(7)).into_response();
    assert_eq!(response.status, 416);
    assert_eq!(response.headers, fields(&[("Content-Range", "bytes */7")]));
    assert!(matches!(response.body, ResponseBody::Empty));
}

#[test]
fn a_stream_asks_for_no_more_than_its_buffer() {
    let length: u64 = 100_000;
    let mut stream = RangedStream::new((), 7, length);
    assert_eq!(stream.size_hint(), length);
    assert_eq!(stream.poll_next(StreamEvent::Poll), StreamAction::StartSeek(7));
    assert_eq!(stream.poll_next(StreamEvent::Poll), StreamAction::StartSeek(7));
    assert_eq!(stream.poll_next(StreamEvent::SeekStarted), StreamAction::CompleteSeek);
    assert_eq!(stream.poll_next(StreamEvent::Poll), StreamAction::CompleteSeek);
    assert_eq!(stream.poll_next(StreamEvent::SeekCompleted), StreamAction::Read(65536));
    assert_eq!(stream.poll_next(StreamEvent::BytesRead(65536)), StreamAction::Yield);
    assert_eq!(stream.poll_next(StreamEvent::Poll), StreamAction::Read(34464));
    assert_eq!(stream.poll_next(StreamEvent::BytesRead(34464)), StreamAction::Yield);
    assert_eq!(stream.poll_next(StreamEvent::Poll), StreamAction::Read(0));
    assert_eq!(stream.poll_next(StreamEvent::BytesRead(0)), StreamAction::Finish);
}

#[test]
fn a_stream_ends_with_a_body_that_is_too_short() {
    let body = KnownSize::sized(b"abc".to_vec(), 10);
    assert_eq!(collect_stream(RangedStream::new(body, 1, 9)), "bc");
    let body = KnownSize::sized(b"abc".to_vec(), 10);
    assert_eq!(collect_stream(RangedStream::new(body, 5, 2)), "");
}

#[test]
fn a_part_ends_with_a_body_that_is_too_short() {
    let body = KnownSize::sized(b"abc".to_vec(), 10);
    let ranges = vec![ByteRange::new(1, 9), ByteRange::new(5, 7), ByteRange::new(0, 1)];
    let stream = MultipartStream::new(body, ranges, 10, "SEP".to_string(), None);
    let head = "Content-Type: application/octet-stream\r\nContent-Range: bytes";
    assert_eq!(
        collect_document(stream, usize::MAX),
        format!(
            "--SEP\r\n{head} 1-8/10\r\n\r\nbc\r\n--SEP\r\n{head} 5-6/10\r\n\r\n\
             \r\n--SEP\r\n{head} 0-0/10\r\n\r\na\r\n--SEP--\r\n"
        )
    );
}

#[test]
fn reads_of_any_size_give_the_same_range() {
    for limit in [1, 2, 7, 100] {
        let stream = RangedStream::new(blocks(ALPHABET, 62), 10, 10);
        assert_eq!(collect_in_reads(stream, limit), "ABCDEFGHIJ");
    }
}

#[test]
fn a_finished_multipart_stream_stays_finished() {
    let mut stream =
        MultipartStream::new((), vec![], 62, "SEP".to_string(), None);
    assert_eq!(
        stream.poll_next(StreamEvent::Poll),
        MultipartAction::Write("\r\n--SEP--\r\n".to_string())
    );
    assert_eq!(stream.poll_next(StreamEvent::Poll), MultipartAction::Finish);
    assert_eq!(stream.poll_next(StreamEvent::Poll), MultipartAction::Finish);
}

#[test]
fn field_values_hold_no_control_characters() {
    for text in ["", "text/plain", "a\tb", "\u{e9}", "a\nb", "\u{7f}", "\r", "\u{1f}", "~"] {
        assert_eq!(fits_field(text), HeaderValue::from_str(text).is_ok(), "{:?}", text);
    }
}

#[test]
fn part_headers_name_no_range_before_the_first_byte() {
    let nameable = |ranges: Vec<ByteRange>| {
        MultipartStream::new((), ranges, 62, "SEP".to_string(), None).has_nameable_ranges()
    };
    assert!(nameable(vec![]));
    assert!(nameable(vec![ByteRange::new(0, 1), ByteRange::new(5, 5)]));
    assert!(!nameable(vec![ByteRange::new(0, 1), ByteRange::new(0, 0)]));
    assert!(!nameable(vec![ByteRange::new(4, 3)]));
}
