use axum_range::{
    ContentLength, ContentRange, KnownSize, MultipartAction, MultipartStream, RangeBody, RangeHeader,
    Ranged, RangedResponse, RangedStream, ResponseBody, StreamAction, StreamEvent,
};

const FIXTURE: &str = "Hello world this is a file to test range requests on!\n";
const ALPHABET: &str = "0123456789ABCDEFGHIJKLMNOPQRSTUVWXYZabcdefghijklmnopqrstuvwxyz";

type Body = KnownSize<Vec<u8>>;

/// Hands out everything that a stream sends from its body, in reads of at most `limit` bytes.
fn collect_in_reads(stream: RangedStream<Body>, limit: usize) -> String {
    let (body, mut stream) = stream.into_parts();
    let bytes = body.into_body();
    let mut position = 0;
    let mut sent: Vec<u8> = Vec::new();
    let mut read: Vec<u8> = Vec::new();
    let mut event = StreamEvent::Poll;
    loop {
        event = match stream.poll_next(event) {
            StreamAction::StartSeek(to) => {
                position = to as usize;
                StreamEvent::SeekStarted
            }
            StreamAction::CompleteSeek => StreamEvent::SeekCompleted,
            StreamAction::Read(n) => {
                let n = n.min(limit).min(bytes.len() - position);
                read = bytes[position..position + n].to_vec();
                position += n;
                StreamEvent::BytesRead(n)
            }
            StreamAction::Yield => {
                sent.append(&mut read);
                StreamEvent::Poll
            }
            StreamAction::Finish => return String::from_utf8(sent).unwrap(),
        };
    }
}

fn collect_stream(stream: RangedStream<Body>) -> String {
    collect_in_reads(stream, usize::MAX)
}

/// Hands out the document that a multipart stream sends, in reads of at most `limit` bytes.
fn collect_document(stream: MultipartStream<Body>, limit: usize) -> String {
    let (body, mut stream) = stream.into_parts();
    let bytes = body.into_body();
    let mut position = 0;
    let mut sent: Vec<u8> = Vec::new();
    let mut read: Vec<u8> = Vec::new();
    let mut event = StreamEvent::Poll;
    loop {
        event = match stream.poll_next(event) {
            MultipartAction::Write(text) => {
                sent.extend_from_slice(text.as_bytes());
                StreamEvent::Poll
            }
            MultipartAction::StartSeek(to) => {
                position = to as usize;
                StreamEvent::SeekStarted
            }
            MultipartAction::CompleteSeek => StreamEvent::SeekCompleted,
            MultipartAction::Read(n) => {
                let n = n.min(limit).min(bytes.len() - position);
                read = bytes[position..position + n].to_vec();
                position += n;
                StreamEvent::BytesRead(n)
            }
            MultipartAction::Yield => {
                sent.append(&mut read);
                StreamEvent::Poll
            }
            MultipartAction::Finish => return String::from_utf8(sent).unwrap(),
        };
    }
}

/// The contents of the parts of a multipart document, one after the other.
fn collect_multipart_stream(stream: MultipartStream<Body>, boundary: &str) -> String {
    let mut content = String::new();
    let buffer = collect_document(stream, usize::MAX);
    let full_boundary = format!("--{}", boundary);
    let parts: Vec<&str> = buffer.split(&full_boundary).collect();
    for part in parts.iter().skip(1) {
        if part.trim().starts_with("--\r\n") || part.is_empty() {
            continue;
        }
        if let Some(idx) = part.find("\r\n\r\n") {
            let body = &part[idx + 4..];
            content.push_str(body.trim_end_matches("\r\n"));
        }
    }
    content
}

fn range(header: &str) -> Option<RangeHeader> {
    Some(RangeHeader::decode(header).unwrap())
}

fn file(content: &str) -> Body {
    KnownSize::file(content.as_bytes().to_vec(), content.len() as u64, Some("txt"))
}

fn file_blocks(content: &str, block_len: u64) -> Body {
    KnownSize::file_blocks(content.as_bytes().to_vec(), content.len() as u64, Some("txt"), block_len)
}

fn field<'a>(headers: &'a [(String, String)], name: &str) -> Option<&'a str> {
    headers.iter().find(|(n, _)| n == name).map(|(_, v)| v.as_str())
}

#[test]
fn test_file_size() {
    let known_size = file(FIXTURE);
    assert_eq!(54, known_size.byte_size());
}

#[test]
fn test_seek_size() {
    let known_size = file(FIXTURE);
    assert_eq!(54, known_size.byte_size());
}

#[test]
fn lib_test_full_response() {
    let ranged = Ranged::new(None, file(FIXTURE), None);
    let r = ranged.try_respond().expect("try_respond should return Ok");
    let response = r.into_response();
    assert_eq!(200, response.status);
    assert_eq!(Some("bytes"), field(&response.headers, "Accept-Ranges"));
    assert_eq!(Some("54"), field(&response.headers, "Content-Length"));
    match response.body {
        ResponseBody::Ranged(stream) => assert_eq!(
            "Hello world this is a file to test range requests on!\n",
            collect_stream(stream)
        ),
        _ => panic!("Expected a body with one range"),
    }
}

#[test]
fn test_full_response() {
    let ranged = Ranged::new(None, file(ALPHABET), None);
    let response = ranged.try_respond().expect("try_respond should return Ok");
    match response {
        RangedResponse::Full { content_length, stream, .. } => {
            assert_eq!(ContentLength(62), content_length);
            assert_eq!(
                "0123456789ABCDEFGHIJKLMNOPQRSTUVWXYZabcdefghijklmnopqrstuvwxyz",
                collect_stream(stream)
            );
        }
        _ => panic!("Expected a full range response"),
    }
}

#[test]
fn test_partial_response_1() {
    let ranged = Ranged::new(range("bytes=0-29"), file(FIXTURE), None);
    let response = ranged.try_respond().expect("try_respond should return Ok");
    match response {
        RangedResponse::Single { content_range, content_length, stream, .. } => {
            assert_eq!(ContentLength(54), content_length);
            assert_eq!(ContentRange::bytes(0..30, 54), content_range);
            assert_eq!("Hello world this is a file to ", collect_stream(stream));
        }
        _ => panic!("Expected a single range response"),
    }
}

#[test]
fn test_partial_response_2() {
    let ranged = Ranged::new(range("bytes=30-53"), file(FIXTURE), None);
    let response = ranged.try_respond().expect("try_respond should return Ok");
    match response {
        RangedResponse::Single { content_range, content_length, stream, .. } => {
            assert_eq!(ContentLength(54), content_length);
            assert_eq!(ContentRange::bytes(30..54, 54), content_range);
            assert_eq!("test range requests on!\n", collect_stream(stream));
        }
        _ => panic!("Expected a single range response"),
    }
}

#[test]
fn test_unbounded_start_response() {
    let ranged = Ranged::new(range("bytes=-20"), file(FIXTURE), None);
    let response = ranged.try_respond().expect("try_respond should return Ok");
    match response {
        RangedResponse::Single { content_range, content_length, stream, .. } => {
            assert_eq!(ContentLength(54), content_length);
            assert_eq!(ContentRange::bytes(34..54, 54), content_range);
            assert_eq!(" range requests on!\n", collect_stream(stream));
        }
        _ => panic!("Expected a single range response"),
    }
}

#[test]
fn test_unbounded_end_response() {
    let ranged = Ranged::new(range("bytes=40-"), file(FIXTURE), None);
    let response = ranged.try_respond().expect("try_respond should return Ok");
    match response {
        RangedResponse::Single { content_range, content_length, stream, .. } => {
            assert_eq!(ContentLength(54), content_length);
            assert_eq!(ContentRange::bytes(40..54, 54), content_range);
            assert_eq!(" requests on!\n", collect_stream(stream));
        }
        _ => panic!("Expected a single range response"),
    }
}

#[test]
fn test_one_byte_response() {
    let ranged = Ranged::new(range("bytes=30-30"), file(FIXTURE), None);
    let response = ranged.try_respond().expect("try_respond should return Ok");
    match response {
        RangedResponse::Single { content_range, content_length, stream, .. } => {
            assert_eq!(ContentLength(54), content_length);
            assert_eq!(ContentRange::bytes(30..31, 54), content_range);
            assert_eq!("t", collect_stream(stream));
        }
        _ => panic!("Expected a single range response"),
    }
}

#[test]
fn test_invalid_range() {
    let ranged = Ranged::new(range("bytes=30-29"), file(FIXTURE), None);
    let result = ranged.try_respond();
    assert!(result.is_err());
    let err = result.err().expect("try_respond should return Err");
    assert_eq!(ContentRange::unsatisfied_bytes(54), err.0);
}

#[test]
fn test_range_end_exceed_length() {
    let ranged = Ranged::new(range("bytes=30-99"), file(FIXTURE), None);
    let response = ranged.try_respond().expect("try_respond should return Ok");
    match response {
        RangedResponse::Single { content_range, content_length, stream, .. } => {
            assert_eq!(ContentLength(54), content_length);
            assert_eq!(ContentRange::bytes(30..54, 54), content_range);
            assert_eq!("test range requests on!\n", collect_stream(stream));
        }
        _ => panic!("Expected a single range response"),
    }
}

#[test]
fn test_range_start_exceed_length() {
    let ranged = Ranged::new(range("bytes=99-"), file(FIXTURE), None);
    let result = ranged.try_respond();
    assert!(result.is_err());
    let err = result.err().expect("try_respond should return Err");
    assert_eq!(ContentRange::unsatisfied_bytes(54), err.0);
}

#[test]
fn test_single_byte_range() {
    let ranged = Ranged::new(range("bytes=0-9"), file(ALPHABET), None);
    let response = ranged.try_respond().expect("try_respond should return Ok");
    match response {
        RangedResponse::Single { content_range, content_length, stream, .. } => {
            assert_eq!(ContentLength(62), content_length);
            assert_eq!(ContentRange::bytes(0..10, 62), content_range);
            assert_eq!("0123456789", collect_stream(stream));
        }
        _ => panic!("Expected a single range response"),
    }
}

#[test]
fn test_range_end_exceeds_length() {
    let ranged = Ranged::new(range("bytes=50-999"), file(ALPHABET), None);
    let response = ranged.try_respond().expect("try_respond should return Ok");
    match response {
        RangedResponse::Single { content_range, content_length, stream, .. } => {
            assert_eq!(ContentLength(62), content_length);
            assert_eq!(ContentRange::bytes(50..62, 62), content_range);
            assert_eq!("opqrstuvwxyz", collect_stream(stream));
        }
        _ => panic!("Expected a single range response"),
    }
}

#[test]
fn test_range_start_exceeds_length() {
    let ranged = Ranged::new(range("bytes=100-"), file(ALPHABET), None);
    let result = ranged.try_respond();
    assert!(result.is_err());
    let err = result.err().expect("try_respond should return Err");
    assert_eq!(ContentRange::unsatisfied_bytes(62), err.0);
}

#[test]
fn test_suffix_range() {
    let ranged = Ranged::new(range("bytes=-10"), file(ALPHABET), None);
    let response = ranged.try_respond().expect("try_respond should return Ok");
    match response {
        RangedResponse::Single { content_range, content_length, stream, .. } => {
            assert_eq!(ContentLength(62), content_length);
            assert_eq!(ContentRange::bytes(52..62, 62), content_range);
            assert_eq!("qrstuvwxyz", collect_stream(stream));
        }
        _ => panic!("Expected a single range response"),
    }
}

#[test]
fn test_suffix_range_exceeds_length() {
    let ranged = Ranged::new(range("bytes=-100"), file(ALPHABET), None);
    let response = ranged.try_respond().expect("try_respond should return Ok");
    match response {
        RangedResponse::Single { content_range, content_length, stream, .. } => {
            assert_eq!(ContentLength(62), content_length);
            assert_eq!(ContentRange::bytes(0..62, 62), content_range);
            assert_eq!("0123456789ABCDEFGHIJKLMNOPQRSTUVWXYZabcdefghijklmnopqrstuvwxyz", collect_stream(stream));
        }
        _ => panic!("Expected a single range response"),
    }
}

#[test]
fn test_range_start_greater_than_end() {
    let ranged = Ranged::new(range("bytes=30-20"), file(ALPHABET), None);
    let result = ranged.try_respond();
    assert!(result.is_err());
    let err = result.err().expect("try_respond should return Err");
    assert_eq!(ContentRange::unsatisfied_bytes(62), err.0);
}

#[test]
fn test_first_and_last_byte() {
    let ranged = Ranged::new(range("bytes=0-0,-1"), file(ALPHABET), None);
    println!("Testing first and last byte range : ranged={:?}", ranged);
    let response = ranged.try_respond().expect("try_respond should return Ok");
    match response {
        RangedResponse::Multiple { stream, boundary, .. } => {
            assert_eq!("RANGE_BOUNDARY-", &boundary[..15]);
            let content = collect_multipart_stream(stream, &boundary);
            assert_eq!("0z", &content);
        }
        _ => panic!("Expected a multiple range response"),
    }
}

#[test]
fn test_multiple_ranges() {
    let ranged = Ranged::new(range("bytes=0-9,20-29,40-49"), file(ALPHABET), None);
    let response = ranged.try_respond().expect("try_respond should return Ok");
    match response {
        RangedResponse::Multiple { stream, boundary, .. } => {
            assert!(boundary.starts_with("RANGE_BOUNDARY-"));
            let content = collect_multipart_stream(stream, &boundary);
            assert_eq!("0123456789KLMNOPQRSTefghijklmn", &content);
        }
        _ => panic!("Expected a multiple range response"),
    }
}

#[test]
fn test_zero_length_range() {
    let ranged = Ranged::new(range("bytes=10-9"), file(ALPHABET), None);
    let result = ranged.try_respond();
    assert!(result.is_err());
    let err = result.err().expect("try_respond should return Err");
    assert_eq!(ContentRange::unsatisfied_bytes(62), err.0);
}

#[test]
fn test_range_only_start() {
    let ranged = Ranged::new(range("bytes=50-"), file(ALPHABET), None);
    let response = ranged.try_respond().expect("try_respond should return Ok");
    match response {
        RangedResponse::Single { content_range, content_length, stream, .. } => {
            assert_eq!(ContentLength(62), content_length);
            assert_eq!(ContentRange::bytes(50..62, 62), content_range);
            assert_eq!("opqrstuvwxyz", collect_stream(stream));
        }
        _ => panic!("Expected a single range response"),
    }
}

#[test]
fn test_invalid_range_format() {
    let ranged = Ranged::new(None, file(ALPHABET), None);
    let response = ranged.try_respond().expect("try_respond should return Ok");
    match response {
        RangedResponse::Full { content_length, stream, .. } => {
            assert_eq!(ContentLength(62), content_length);
            assert_eq!(
                "0123456789ABCDEFGHIJKLMNOPQRSTUVWXYZabcdefghijklmnopqrstuvwxyz",
                collect_stream(stream)
            );
        }
        RangedResponse::Single { .. } => {
            panic!("Expected a full response, got single range response");
        }
        RangedResponse::Multiple { .. } => {
            panic!("Expected a full response, got multiple ranges response");
        }
    }
}

#[test]
fn test_block_ranges() {
    let ranged = Ranged::new(range("bytes=0-29"), file_blocks(ALPHABET, 10), None);
    let response = ranged.try_respond().expect("try_respond should return Ok");
    match response {
        RangedResponse::Single { content_range, content_length, stream, .. } => {
            assert_eq!(ContentLength(62), content_length);
            assert_eq!(ContentRange::bytes(0..10, 62), content_range);
            assert_eq!("0123456789", collect_stream(stream));
        }
        _ => panic!("Expected a single range response"),
    }
}

#[test]
fn test_block_ranges_mid() {
    let ranged = Ranged::new(range("bytes=10-29"), file_blocks(ALPHABET, 10), None);
    let response = ranged.try_respond().expect("try_respond should return Ok");
    match response {
        RangedResponse::Single { content_range, content_length, stream, .. } => {
            assert_eq!(ContentLength(62), content_length);
            assert_eq!(ContentRange::bytes(10..20, 62), content_range);
            assert_eq!("ABCDEFGHIJ", collect_stream(stream));
        }
        _ => panic!("Expected a single range response"),
    }
}

#[test]
fn test_first_500_bytes() {
    let content = "# This file is automatically @generated by Cargo.\n".repeat(100);
    let file_length = content.len() as u64;
    let body = KnownSize::file(content.as_bytes().to_vec(), file_length, Some("lock"));
    let ranged = Ranged::new(range("bytes=0-499"), body, None);
    let response = ranged.try_respond().expect("try_respond should return Ok");
    match response {
        RangedResponse::Single { content_range, content_length, stream, .. } => {
            assert_eq!(ContentLength(file_length), content_length);
            assert_eq!(ContentRange::bytes(0..500, file_length), content_range);
            assert_eq!(&content[..500], collect_stream(stream));
        }
        _ => panic!("Expected a single range response: {:?}", response),
    }
}
