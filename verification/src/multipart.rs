//! Sending several ranges of a body as one multipart document.
use vstd::prelude::*;

use crate::byte_range::ByteRange;
use crate::content::append_positions;
use crate::stream::{next_read_size, StreamEvent};
use crate::text::append_decimal;

verus! {

/// What to do next.
#[derive(Debug, Clone, PartialEq, Eq)]
pub enum MultipartAction {
    /// Hand out this text as the next chunk.
    Write(String),
    /// Have the body begin to seek to this position.
    StartSeek(u64),
    /// Wait for the body to finish seeking.
    CompleteSeek,
    /// Read at most this many bytes from the body.
    Read(usize),
    /// Hand out the bytes just read as the next chunk.
    Yield,
    /// There are no more chunks.
    Finish,
}

/// The view of a [`MultipartAction`].
pub enum Step {
    Write(Seq<char>),
    StartSeek(u64),
    CompleteSeek,
    Read(usize),
    Yield,
    Finish,
}

impl View for MultipartAction {
    type V = Step;

    open spec fn view(&self) -> Step {
        match self {
            MultipartAction::Write(text) => Step::Write(text@),
            MultipartAction::StartSeek(position) => Step::StartSeek(*position),
            MultipartAction::CompleteSeek => Step::CompleteSeek,
            MultipartAction::Read(n) => Step::Read(*n),
            MultipartAction::Yield => Step::Yield,
            MultipartAction::Finish => Step::Finish,
        }
    }
}

/// How far a multipart stream has come.
#[derive(Debug, Clone, Copy, PartialEq, Eq)]
pub enum MultipartState {
    WritingBoundary { first: bool },
    WritingHeaders,
    Seek { start: u64 },
    Seeking { remaining: u64 },
    Reading { remaining: u64 },
    WritingFinalBoundary,
    Finished,
}

/// A multipart stream without its body.
pub struct Progress {
    /// How far the stream has come.
    pub state: MultipartState,
    /// The ranges to send.
    pub ranges: Seq<ByteRange>,
    /// The range at hand.
    pub index: int,
    /// The number of bytes in the body.
    pub total_size: u64,
    /// The boundary between the parts.
    pub boundary: Seq<char>,
    /// The media type of the body.
    pub media_type: Seq<char>,
}

/// The line that stands before a part.
pub open spec fn delimiter(boundary: Seq<char>, first: bool) -> Seq<char> {
    if first {
        "--"@ + boundary + "\r\n"@
    } else {
        "\r\n--"@ + boundary + "\r\n"@
    }
}

/// The line that stands behind the last part.
pub open spec fn closing(boundary: Seq<char>) -> Seq<char> {
    "\r\n--"@ + boundary + "--\r\n"@
}

/// The headers of the part that holds `range` of a body of `total_size` bytes.
pub open spec fn part_headers(media_type: Seq<char>, range: ByteRange, total_size: u64) -> Seq<
    char,
> {
    "Content-Type: "@ + media_type + "\r\nContent-Range: bytes "@ + crate::content::positions_text(
        range.start,
        (range.end_exclusive - 1) as u64,
    ) + "/"@ + crate::text::decimal(total_size as nat) + "\r\n\r\n"@
}

/// Whether the headers of a part can name each of `ranges`: none ends before it starts, or before
/// the first byte.
pub open spec fn nameable(ranges: Seq<ByteRange>) -> bool {
    forall|i: int|
        0 <= i < ranges.len() ==> (#[trigger] ranges[i]).start <= ranges[i].end_exclusive
            && ranges[i].end_exclusive > 0
}

impl Progress {
    /// Whether the ranges can be sent and the state belongs to the range at hand.
    pub open spec fn well_formed(self) -> bool {
        &&& nameable(self.ranges)
        &&& 0 <= self.index <= self.ranges.len()
        &&& match self.state {
            MultipartState::WritingHeaders => self.index < self.ranges.len(),
            MultipartState::Seek { start } => {
                &&& self.index < self.ranges.len()
                &&& start == self.ranges[self.index].start
            },
            MultipartState::Seeking { remaining } => {
                &&& self.index < self.ranges.len()
                &&& remaining == self.ranges[self.index].spec_len()
            },
            MultipartState::Reading { remaining } => {
                &&& self.index < self.ranges.len()
                &&& remaining <= self.ranges[self.index].spec_len()
            },
            _ => true,
        }
    }

    /// The stream turned to the next range.
    pub open spec fn next_part(self) -> Progress {
        Progress {
            state: MultipartState::WritingBoundary { first: false },
            index: self.index + 1,
            ..self
        }
    }

    /// The stream and what it does at a boundary.
    pub open spec fn at_boundary(self, first: bool) -> (Progress, Step) {
        if self.index < self.ranges.len() {
            (
                Progress { state: MultipartState::WritingHeaders, ..self },
                Step::Write(delimiter(self.boundary, first)),
            )
        } else {
            (
                Progress { state: MultipartState::Finished, ..self },
                Step::Write(closing(self.boundary)),
            )
        }
    }

    /// The stream and what it does when it goes on by itself.
    pub open spec fn go_on(self) -> (Progress, Step) {
        match self.state {
            MultipartState::WritingBoundary { first } => self.at_boundary(first),
            MultipartState::WritingHeaders => (
                Progress {
                    state: MultipartState::Seek { start: self.ranges[self.index].start },
                    ..self
                },
                Step::Write(
                    part_headers(self.media_type, self.ranges[self.index], self.total_size),
                ),
            ),
            MultipartState::Seek { start } => (self, Step::StartSeek(start)),
            MultipartState::Seeking { remaining } => (self, Step::CompleteSeek),
            MultipartState::Reading { remaining } => if remaining == 0 {
                self.next_part().at_boundary(false)
            } else {
                (self, Step::Read(crate::stream::read_size(remaining)))
            },
            MultipartState::WritingFinalBoundary => (
                Progress { state: MultipartState::Finished, ..self },
                Step::Write(closing(self.boundary)),
            ),
            MultipartState::Finished => (self, Step::Finish),
        }
    }

    /// The stream after an event and what the event leads to. An event that the state does not
    /// wait for has the stream go on by itself.
    pub open spec fn step(self, event: StreamEvent) -> (Progress, Step) {
        match (self.state, event) {
            (MultipartState::Seek { start }, StreamEvent::SeekStarted) => Progress {
                state: MultipartState::Seeking {
                    remaining: self.ranges[self.index].spec_len() as u64,
                },
                ..self
            }.go_on(),
            (MultipartState::Seeking { remaining }, StreamEvent::SeekCompleted) => Progress {
                state: MultipartState::Reading { remaining },
                ..self
            }.go_on(),
            (MultipartState::Reading { remaining }, StreamEvent::BytesRead(n)) => if remaining
                == 0 {
                self.go_on()
            } else if n == 0 {
                self.next_part().go_on()
            } else {
                (
                    Progress {
                        state: MultipartState::Reading { remaining: (remaining - n) as u64 },
                        ..self
                    },
                    Step::Yield,
                )
            },
            _ => self.go_on(),
        }
    }

    /// Whether `event` reports no more bytes than were asked for.
    pub open spec fn within_request(self, event: StreamEvent) -> bool {
        match (self.state, event) {
            (MultipartState::Reading { remaining }, StreamEvent::BytesRead(n)) => n
                <= crate::stream::read_size(remaining),
            _ => true,
        }
    }
}

/// Multipart response body stream for multiple byte ranges.
#[derive(Debug)]
pub struct MultipartStream<B> {
    state: MultipartState,
    ranges: Vec<ByteRange>,
    current_range_index: usize,
    total_size: u64,
    boundary: String,
    content_type: Option<String>,
    body: B,
}

/// The media type of a body, by default that of arbitrary bytes.
pub open spec fn media_type_or_default(content_type: Option<String>) -> Seq<char> {
    match content_type {
        Some(t) => t@,
        None => "application/octet-stream"@,
    }
}

impl<B> MultipartStream<B> {
    /// The stream without its body.
    pub closed spec fn progress(&self) -> Progress {
        Progress {
            state: self.state,
            ranges: self.ranges@,
            index: self.current_range_index as int,
            total_size: self.total_size,
            boundary: self.boundary@,
            media_type: media_type_or_default(self.content_type),
        }
    }

    /// The body that the bytes come from.
    pub closed spec fn spec_body(&self) -> B {
        self.body
    }

    /// A stream of `ranges` of `body`, a body of `total_size` bytes.
    pub fn new(
        body: B,
        ranges: Vec<ByteRange>,
        total_size: u64,
        boundary: String,
        content_type: Option<String>,
    ) -> (stream: Self)
        ensures
            stream.progress() == beginning(
                ranges@,
                total_size,
                boundary@,
                media_type_or_default(content_type),
            ),
            stream.spec_body() == body,
    {
        MultipartStream {
            state: MultipartState::WritingBoundary { first: true },
            ranges,
            current_range_index: 0,
            total_size,
            boundary,
            content_type,
            body,
        }
    }

    /// Takes the body out of the stream, which goes on without it.
    pub fn into_parts(self) -> (parts: (B, MultipartStream<()>))
        ensures
            parts.0 == self.spec_body(),
            parts.1.progress() == self.progress(),
    {
        (
            self.body,
            MultipartStream {
                state: self.state,
                ranges: self.ranges,
                current_range_index: self.current_range_index,
                total_size: self.total_size,
                boundary: self.boundary,
                content_type: self.content_type,
                body: (),
            },
        )
    }

    /// Whether the headers of a part can name each range.
    pub fn has_nameable_ranges(&self) -> (b: bool)
        ensures
            b == nameable(self.progress().ranges),
    {
        let mut i: usize = 0;
        while i < self.ranges.len()
            invariant
                i <= self.ranges@.len(),
                nameable(self.ranges@.take(i as int)),
            decreases self.ranges@.len() - i,
        {
            let range = self.ranges[i];
            if range.start > range.end_exclusive || range.end_exclusive == 0 {
                assert(self.progress().ranges[i as int] == range);
                return false;
            }
            assert(self.ranges@.take(i + 1) =~= self.ranges@.take(i as int).push(range));
            i = i + 1;
        }
        assert(self.ranges@.take(i as int) =~= self.ranges@);
        true
    }

    /// Whether the ranges can be sent and the state belongs to the range at hand.
    fn is_well_formed(&self) -> (b: bool)
        ensures
            b == self.progress().well_formed(),
    {
        let index: usize = self.current_range_index;
        if !self.has_nameable_ranges() || index > self.ranges.len() {
            return false;
        }
        match self.state {
            MultipartState::WritingHeaders => index < self.ranges.len(),
            MultipartState::Seek { start } => index < self.ranges.len() && start
                == self.ranges[index].start,
            MultipartState::Seeking { remaining } => index < self.ranges.len() && remaining
                == self.ranges[index].len(),
            MultipartState::Reading { remaining } => index < self.ranges.len() && remaining
                <= self.ranges[index].len(),
            _ => true,
        }
    }

    /// The number of bytes in the parts from `from` on, none of them the first, with the line
    /// behind the last of them.
    fn length_from(&self, from: usize) -> (n: Option<u64>)
        requires
            self.progress().well_formed(),
            from <= self.progress().ranges.len(),
        ensures
            n == fitting(parts_len(self.progress(), from as int, false)),
    {
        let ghost p = self.progress();
        let mut n: Option<u64> = Some(byte_len(&self.closing_text()));
        let mut i: usize = self.ranges.len();
        while i > from
            invariant
                p == self.progress(),
                p.well_formed(),
                from <= i <= p.ranges.len(),
                p.ranges == self.ranges@,
                n == fitting(parts_len(p, i as int, false)),
            decreases i,
        {
            i = i - 1;
            proof {
                lemma_parts_len(p, i + 1, false);
            }
            n = self.length_of_part(i, false, n);
        }
        n
    }

    /// The number of bytes in the part at `i`, with `rest` behind it.
    fn length_of_part(&self, i: usize, first: bool, rest: Option<u64>) -> (n: Option<u64>)
        requires
            self.progress().well_formed(),
            i < self.progress().ranges.len(),
            rest == fitting(parts_len(self.progress(), i + 1, false)),
        ensures
            n == fitting(parts_len(self.progress(), i as int, first)),
    {
        proof {
            lemma_parts_len(self.progress(), i + 1, false);
        }
        let range = self.ranges[i];
        let delimiter_len: u64 = byte_len(&self.delimiter_text(first));
        let headers_len: u64 = byte_len(&self.part_header_text(range));
        plus(plus(plus(rest, range.len()), headers_len), delimiter_len)
    }

    /// The number of bytes that the stream still has to hand out, where they can be sent and their
    /// number fits.
    pub fn content_len(&self) -> (n: Option<u64>)
        ensures
            n == spec_content_len(self.progress()),
    {
        if !self.is_well_formed() {
            return None;
        }
        let index: usize = self.current_range_index;
        proof {
            lemma_parts_len(self.progress(), index + 1, false);
            assert(self.ranges@.len() == self.ranges.len());
        }
        match self.state {
            MultipartState::WritingBoundary { first } => {
                if index < self.ranges.len() {
                    self.length_of_part(index, first, self.length_from(index + 1))
                } else {
                    Some(byte_len(&self.closing_text()))
                }
            },
            MultipartState::WritingHeaders => {
                let range = self.ranges[index];
                let headers_len: u64 = byte_len(&self.part_header_text(range));
                plus(plus(self.length_from(index + 1), range.len()), headers_len)
            },
            MultipartState::Reading { remaining } => plus(self.length_from(index + 1), remaining),
            MultipartState::WritingFinalBoundary => Some(byte_len(&self.closing_text())),
            MultipartState::Finished => Some(0),
            _ => plus(self.length_from(index + 1), self.ranges[index].len()),
        }
    }

    /// Takes note of what happened and says what to do next.
    pub fn poll_next(&mut self, event: StreamEvent) -> (action: MultipartAction)
        requires
            old(self).progress().well_formed(),
            old(self).progress().within_request(event),
        ensures
            (final(self).progress(), action@) == old(self).progress().step(event),
            final(self).progress().well_formed(),
            final(self).spec_body() == old(self).spec_body(),
    {
        match (self.state, event) {
            (MultipartState::Seek { start }, StreamEvent::SeekStarted) => {
                let remaining: u64 = self.ranges[self.current_range_index].len();
                self.state = MultipartState::Seeking { remaining };
            },
            (MultipartState::Seeking { remaining }, StreamEvent::SeekCompleted) => {
                self.state = MultipartState::Reading { remaining };
            },
            (MultipartState::Reading { remaining }, StreamEvent::BytesRead(n)) => {
                if remaining > 0 {
                    if n > 0 {
                        self.state = MultipartState::Reading { remaining: remaining - n as u64 };
                        return MultipartAction::Yield;
                    }
                    assert(self.current_range_index < self.ranges.len());
                    self.current_range_index = self.current_range_index + 1;
                    self.state = MultipartState::WritingBoundary { first: false };
                }
            },
            _ => {},
        }
        self.proceed()
    }

    /// What the stream does when it goes on by itself.
    fn proceed(&mut self) -> (action: MultipartAction)
        requires
            old(self).progress().well_formed(),
        ensures
            (final(self).progress(), action@) == old(self).progress().go_on(),
            final(self).progress().well_formed(),
            final(self).spec_body() == old(self).spec_body(),
    {
        match self.state {
            MultipartState::WritingBoundary { first } => self.write_boundary(first),
            MultipartState::WritingHeaders => {
                let range = self.ranges[self.current_range_index];
                let text = self.part_header_text(range);
                self.state = MultipartState::Seek { start: range.start };
                MultipartAction::Write(text)
            },
            MultipartState::Seek { start } => MultipartAction::StartSeek(start),
            MultipartState::Seeking { remaining } => MultipartAction::CompleteSeek,
            MultipartState::Reading { remaining } => {
                if remaining == 0 {
                    assert(self.current_range_index < self.ranges.len());
                    self.current_range_index = self.current_range_index + 1;
                    self.state = MultipartState::WritingBoundary { first: false };
                    self.write_boundary(false)
                } else {
                    MultipartAction::Read(next_read_size(remaining))
                }
            },
            MultipartState::WritingFinalBoundary => self.write_final_boundary(),
            MultipartState::Finished => MultipartAction::Finish,
        }
    }

    /// Writes the line before a part, or the last line where no part is left.
    fn write_boundary(&mut self, first: bool) -> (action: MultipartAction)
        requires
            old(self).progress().well_formed(),
        ensures
            (final(self).progress(), action@) == old(self).progress().at_boundary(first),
            final(self).progress().well_formed(),
            final(self).spec_body() == old(self).spec_body(),
    {
        if self.current_range_index >= self.ranges.len() {
            return self.write_final_boundary();
        }
        let line = self.delimiter_text(first);
        self.state = MultipartState::WritingHeaders;
        MultipartAction::Write(line)
    }

    /// Writes the line behind the last part.
    fn write_final_boundary(&mut self) -> (action: MultipartAction)
        requires
            old(self).progress().well_formed(),
        ensures
            final(self).progress() == (Progress {
                state: MultipartState::Finished,
                ..old(self).progress()
            }),
            action@ == Step::Write(closing(old(self).progress().boundary)),
            final(self).progress().well_formed(),
            final(self).spec_body() == old(self).spec_body(),
    {
        let line = self.closing_text();
        self.state = MultipartState::Finished;
        MultipartAction::Write(line)
    }

    /// The line before a part.
    fn delimiter_text(&self, first: bool) -> (line: String)
        ensures
            line@ == delimiter(self.progress().boundary, first),
    {
        let mut line = if first {
            "--".to_owned()
        } else {
            "\r\n--".to_owned()
        };
        line.append(self.boundary.as_str());
        line.append("\r\n");
        line
    }

    /// The line behind the last part.
    fn closing_text(&self) -> (line: String)
        ensures
            line@ == closing(self.progress().boundary),
    {
        let mut line = "\r\n--".to_owned();
        line.append(self.boundary.as_str());
        line.append("--\r\n");
        line
    }

    /// The headers of the part that holds `range`.
    fn part_header_text(&self, range: ByteRange) -> (text: String)
        requires
            range.end_exclusive > 0,
        ensures
            text@ == part_headers(self.progress().media_type, range, self.progress().total_size),
    {
        let mut text = "Content-Type: ".to_owned();
        match &self.content_type {
            Some(t) => {
                text.append(t.as_str());
            },
            None => {
                text.append("application/octet-stream");
            },
        }
        text.append("\r\nContent-Range: bytes ");
        append_positions(&mut text, range.start, range.end_exclusive - 1);
        text.append("/");
        append_decimal(&mut text, self.total_size as u128);
        text.append("\r\n\r\n");
        text
    }
}

/// A multipart stream that has sent nothing yet.
pub open spec fn beginning(
    ranges: Seq<ByteRange>,
    total_size: u64,
    boundary: Seq<char>,
    media_type: Seq<char>,
) -> Progress {
    Progress {
        state: MultipartState::WritingBoundary { first: true },
        ranges,
        index: 0,
        total_size,
        boundary,
        media_type,
    }
}

/// The bytes of `range` in `body`, as far as it has them.
pub open spec fn slice(body: Seq<u8>, range: ByteRange) -> Seq<u8> {
    crate::stream::available(body, range.start as int, range.end_exclusive as int)
}

/// The parts from `index` on, with the line behind the last of them.
pub open spec fn parts_from(p: Progress, index: int, first: bool, body: Seq<u8>) -> Seq<u8>
    decreases p.ranges.len() - index,
{
    if index < p.ranges.len() {
        vstd::utf8::encode_utf8(delimiter(p.boundary, first)) + vstd::utf8::encode_utf8(
            part_headers(p.media_type, p.ranges[index], p.total_size),
        ) + slice(body, p.ranges[index]) + parts_from(p, index + 1, false, body)
    } else {
        vstd::utf8::encode_utf8(closing(p.boundary))
    }
}

/// The multipart document that holds `ranges` of `body`: for each range a delimiter line, the
/// headers of the part and the bytes of the range, as far as the body has them, and a closing line
/// at the end.
pub open spec fn document(
    ranges: Seq<ByteRange>,
    total_size: u64,
    boundary: Seq<char>,
    media_type: Seq<char>,
    body: Seq<u8>,
) -> Seq<u8> {
    parts_from(beginning(ranges, total_size, boundary, media_type), 0, true, body)
}

/// A multipart stream at work on the bytes of its body.
pub struct MultipartSession {
    /// How far the stream has come.
    pub progress: Progress,
    /// Where the body stands.
    pub position: int,
    /// What has been handed out.
    pub sent: Seq<u8>,
}

/// A session of a stream that has sent nothing yet.
pub open spec fn opening(progress: Progress) -> MultipartSession {
    MultipartSession { progress, position: 0, sent: Seq::empty() }
}

/// Whether `event` can come from a body with the bytes `body`: it seeks and reads only what it was
/// asked to, and gives no bytes exactly where none were asked for or none are left.
pub open spec fn from_body(session: MultipartSession, event: StreamEvent, body: Seq<u8>) -> bool {
    match (session.progress.state, event) {
        (MultipartState::Reading { remaining }, StreamEvent::BytesRead(n)) => {
            &&& n <= crate::stream::read_size(remaining)
            &&& n > 0 ==> session.position + n <= body.len()
            &&& n == 0 ==> remaining == 0 || session.position >= body.len()
        },
        _ => true,
    }
}

/// What becomes of a session.
pub open spec fn session_step(
    session: MultipartSession,
    event: StreamEvent,
    body: Seq<u8>,
) -> MultipartSession {
    let (progress, step) = session.progress.step(event);
    let position = match (session.progress.state, event) {
        (MultipartState::Seek { start }, StreamEvent::SeekStarted) => start as int,
        (MultipartState::Reading { remaining }, StreamEvent::BytesRead(n)) => session.position + n,
        _ => session.position,
    };
    let chunk = match step {
        Step::Write(text) => vstd::utf8::encode_utf8(text),
        Step::Yield => crate::stream::available(body, session.position, position),
        _ => Seq::empty(),
    };
    MultipartSession { progress, position, sent: session.sent + chunk }
}

/// The session after `events`.
pub open spec fn session_after(
    progress: Progress,
    events: Seq<StreamEvent>,
    body: Seq<u8>,
) -> MultipartSession
    decreases events.len(),
{
    if events.len() == 0 {
        opening(progress)
    } else {
        session_step(session_after(progress, events.drop_last(), body), events.last(), body)
    }
}

/// Whether every one of `events` can come from a body with the bytes `body`.
pub open spec fn all_from_body(progress: Progress, events: Seq<StreamEvent>, body: Seq<u8>) -> bool
    decreases events.len(),
{
    events.len() > 0 ==> {
        &&& all_from_body(progress, events.drop_last(), body)
        &&& from_body(session_after(progress, events.drop_last(), body), events.last(), body)
    }
}

/// What a stream still has to hand out.
pub open spec fn outstanding(p: Progress, body: Seq<u8>) -> Seq<u8> {
    match p.state {
        MultipartState::WritingBoundary { first } => parts_from(p, p.index, first, body),
        MultipartState::WritingHeaders => vstd::utf8::encode_utf8(
            part_headers(p.media_type, p.ranges[p.index], p.total_size),
        ) + slice(body, p.ranges[p.index]) + parts_from(p, p.index + 1, false, body),
        MultipartState::Reading { remaining } => crate::stream::available(
            body,
            p.ranges[p.index].end_exclusive - remaining,
            p.ranges[p.index].end_exclusive as int,
        ) + parts_from(p, p.index + 1, false, body),
        MultipartState::WritingFinalBoundary => vstd::utf8::encode_utf8(closing(p.boundary)),
        MultipartState::Finished => Seq::empty(),
        _ => slice(body, p.ranges[p.index]) + parts_from(p, p.index + 1, false, body),
    }
}

/// The number of bytes in the parts from `index` on, with the line behind the last of them.
pub open spec fn parts_len(p: Progress, index: int, first: bool) -> int
    decreases p.ranges.len() - index,
{
    if index < p.ranges.len() {
        vstd::utf8::encode_utf8(delimiter(p.boundary, first)).len() + vstd::utf8::encode_utf8(
            part_headers(p.media_type, p.ranges[index], p.total_size),
        ).len() + p.ranges[index].spec_len() + parts_len(p, index + 1, false)
    } else {
        vstd::utf8::encode_utf8(closing(p.boundary)).len() as int
    }
}

/// The number of bytes that a stream still has to hand out.
pub open spec fn outstanding_len(p: Progress) -> int {
    match p.state {
        MultipartState::WritingBoundary { first } => parts_len(p, p.index, first),
        MultipartState::WritingHeaders => vstd::utf8::encode_utf8(
            part_headers(p.media_type, p.ranges[p.index], p.total_size),
        ).len() + p.ranges[p.index].spec_len() + parts_len(p, p.index + 1, false),
        MultipartState::Reading { remaining } => remaining + parts_len(p, p.index + 1, false),
        MultipartState::WritingFinalBoundary => vstd::utf8::encode_utf8(
            closing(p.boundary),
        ).len() as int,
        MultipartState::Finished => 0,
        _ => p.ranges[p.index].spec_len() + parts_len(p, p.index + 1, false),
    }
}

/// `n`, where it fits a length.
pub open spec fn fitting(n: int) -> Option<u64> {
    if n <= u64::MAX {
        Some(n as u64)
    } else {
        None
    }
}

/// The number of bytes that a stream still has to hand out, where they can be sent and their
/// number fits.
pub open spec fn spec_content_len(p: Progress) -> Option<u64> {
    if p.well_formed() {
        fitting(outstanding_len(p))
    } else {
        None
    }
}

/// The number of bytes in `text`.
fn byte_len(text: &String) -> (n: u64)
    ensures
        n == vstd::utf8::encode_utf8(text@).len(),
{
    text.as_str().as_bytes().len() as u64
}

/// The sum of two lengths, where it fits a length.
fn plus(a: Option<u64>, b: u64) -> (sum: Option<u64>)
    ensures
        sum == match a {
            Some(a) => fitting(a + b),
            None => None,
        },
{
    match a {
        Some(a) => a.checked_add(b),
        None => None,
    }
}

/// The number of bytes in parts is not negative.
proof fn lemma_parts_len(p: Progress, index: int, first: bool)
    requires
        nameable(p.ranges),
        0 <= index,
    ensures
        parts_len(p, index, first) >= 0,
    decreases p.ranges.len() - index,
{
    if index < p.ranges.len() {
        lemma_parts_len(p, index + 1, false);
    }
}

/// Whether the body stands where the stream takes it to stand.
pub open spec fn in_step(session: MultipartSession) -> bool {
    let p = session.progress;
    &&& p.well_formed()
    &&& match p.state {
        MultipartState::Seeking { remaining } => session.position == p.ranges[p.index].start,
        MultipartState::Reading { remaining } => session.position
            == p.ranges[p.index].end_exclusive - remaining,
        _ => true,
    }
}

/// What is outstanding depends on no more of the stream than its settings and where it stands.
proof fn lemma_parts_from_settings(p: Progress, q: Progress, index: int, first: bool, body: Seq<u8>)
    requires
        p.ranges == q.ranges,
        p.total_size == q.total_size,
        p.boundary == q.boundary,
        p.media_type == q.media_type,
    ensures
        parts_from(p, index, first, body) == parts_from(q, index, first, body),
    decreases p.ranges.len() - index,
{
    if index < p.ranges.len() {
        lemma_parts_from_settings(p, q, index + 1, false, body);
    }
}

/// What is sent and what is outstanding make up the same whole before and after going on.
pub(crate) proof fn lemma_go_on(p: Progress, body: Seq<u8>)
    requires
        p.well_formed(),
    ensures
        ({
            let (q, step) = p.go_on();
            &&& q.well_formed()
            &&& q.ranges == p.ranges
            &&& step !is Yield
            &&& match step {
                Step::Write(text) => vstd::utf8::encode_utf8(text) + outstanding(q, body)
                    == outstanding(p, body),
                Step::Finish => q == p && outstanding(p, body).len() == 0,
                _ => q == p,
            }
        }),
{
    let (q, step) = p.go_on();
    lemma_parts_from_settings(p, q, p.index, false, body);
    lemma_parts_from_settings(p, q, p.index + 1, false, body);
    lemma_parts_from_settings(p, q, p.index + 2, false, body);
    match p.state {
        MultipartState::WritingBoundary { first } => {
            lemma_parts_from_settings(p, q, p.index, first, body);
            assert(vstd::utf8::encode_utf8(step->Write_0) + outstanding(q, body) =~= outstanding(
                p,
                body,
            ));
        },
        MultipartState::WritingHeaders => {
            assert(vstd::utf8::encode_utf8(step->Write_0) + outstanding(q, body) =~= outstanding(
                p,
                body,
            ));
        },
        MultipartState::Reading { remaining } => {
            if remaining == 0 {
                assert(vstd::utf8::encode_utf8(step->Write_0) + outstanding(q, body)
                    =~= outstanding(p, body));
            }
        },
        MultipartState::WritingFinalBoundary => {
            assert(vstd::utf8::encode_utf8(step->Write_0) + outstanding(q, body) =~= outstanding(
                p,
                body,
            ));
        },
        _ => {},
    }
}

/// What is sent and what is outstanding make up the same whole before and after a step.
pub(crate) proof fn lemma_session_step(session: MultipartSession, event: StreamEvent, body: Seq<u8>)
    requires
        in_step(session),
        from_body(session, event, body),
    ensures
        in_step(session_step(session, event, body)),
        session_step(session, event, body).sent + outstanding(
            session_step(session, event, body).progress,
            body,
        ) == session.sent + outstanding(session.progress, body),
{
    let p = session.progress;
    let after = session_step(session, event, body);
    match (p.state, event) {
        (MultipartState::Seek { start }, StreamEvent::SeekStarted) => {
            let q = Progress {
                state: MultipartState::Seeking {
                    remaining: p.ranges[p.index].spec_len() as u64,
                },
                ..p
            };
            lemma_go_on(q, body);
            lemma_parts_from_settings(p, q, p.index + 1, false, body);
        },
        (MultipartState::Seeking { remaining }, StreamEvent::SeekCompleted) => {
            let q = Progress { state: MultipartState::Reading { remaining }, ..p };
            lemma_go_on(q, body);
            lemma_parts_from_settings(p, q, p.index + 1, false, body);
        },
        (MultipartState::Reading { remaining }, StreamEvent::BytesRead(n)) => {
            if remaining == 0 {
                lemma_go_on(p, body);
            } else {
                let q = after.progress;
                let end = p.ranges[p.index].end_exclusive as int;
                if n == 0 {
                    assert(crate::stream::available(body, end - remaining, end)
                        =~= Seq::<u8>::empty());
                    lemma_go_on(p.next_part(), body);
                    lemma_parts_from_settings(p, p.next_part(), p.index + 1, false, body);
                } else {
                    lemma_parts_from_settings(p, q, p.index + 1, false, body);
                    assert(crate::stream::available(body, end - remaining, end)
                        =~= crate::stream::available(body, session.position, session.position + n)
                        + crate::stream::available(body, session.position + n, end));
                }
            }
        },
        _ => {
            lemma_go_on(p, body);
        },
    }
    assert(after.sent + outstanding(after.progress, body) =~= session.sent + outstanding(p, body));
}

/// Whatever a body does, a multipart stream hands out its document from the beginning on: what it
/// has sent, with what is outstanding, is always the whole document.
pub proof fn law_multipart_sends_its_document(
    ranges: Seq<ByteRange>,
    total_size: u64,
    boundary: Seq<char>,
    media_type: Seq<char>,
    events: Seq<StreamEvent>,
    body: Seq<u8>,
)
    requires
        nameable(ranges),
        all_from_body(beginning(ranges, total_size, boundary, media_type), events, body),
    ensures
        ({
            let session = session_after(
                beginning(ranges, total_size, boundary, media_type),
                events,
                body,
            );
            &&& in_step(session)
            &&& session.sent + outstanding(session.progress, body) == document(
                ranges,
                total_size,
                boundary,
                media_type,
                body,
            )
        }),
    decreases events.len(),
{
    let start = beginning(ranges, total_size, boundary, media_type);
    if events.len() == 0 {
        assert(Seq::<u8>::empty() + document(ranges, total_size, boundary, media_type, body)
            =~= document(ranges, total_size, boundary, media_type, body));
    } else {
        law_multipart_sends_its_document(
            ranges,
            total_size,
            boundary,
            media_type,
            events.drop_last(),
            body,
        );
        lemma_session_step(
            session_after(start, events.drop_last(), body),
            events.last(),
            body,
        );
    }
}

/// A multipart stream that says it has finished has handed out its whole document.
pub proof fn law_finished_multipart_sent_its_document(
    ranges: Seq<ByteRange>,
    total_size: u64,
    boundary: Seq<char>,
    media_type: Seq<char>,
    events: Seq<StreamEvent>,
    last: StreamEvent,
    body: Seq<u8>,
)
    requires
        nameable(ranges),
        all_from_body(beginning(ranges, total_size, boundary, media_type), events, body),
        session_after(
            beginning(ranges, total_size, boundary, media_type),
            events,
            body,
        ).progress.step(last).1 == Step::Finish,
    ensures
        session_after(beginning(ranges, total_size, boundary, media_type), events, body).sent
            == document(ranges, total_size, boundary, media_type, body),
{
    law_multipart_sends_its_document(ranges, total_size, boundary, media_type, events, body);
    let session = session_after(beginning(ranges, total_size, boundary, media_type), events, body);
    assert(session.sent + Seq::<u8>::empty() =~= session.sent);
}

/// A multipart stream does not stop short: it says that it has finished only once its last line is
/// written, asks for at least one byte whenever it asks for any, and hands out no chunk of the
/// body without a byte in it.
pub proof fn law_multipart_makes_progress(progress: Progress, event: StreamEvent)
    ensures
        progress.step(event).1 == Step::Finish <==> progress.state == MultipartState::Finished,
        progress.step(event).1 matches Step::Read(n) ==> n > 0,
        progress.step(event).1 == Step::Yield ==> (event matches StreamEvent::BytesRead(n) && n > 0),
{
}

/// The number of bytes that a stream has to hand out is known beforehand, where the body holds all
/// of its ranges.
pub proof fn law_content_length_is_outstanding(p: Progress, body: Seq<u8>)
    requires
        p.well_formed(),
        forall|i: int|
            0 <= i < p.ranges.len() ==> (#[trigger] p.ranges[i]).end_exclusive <= body.len(),
    ensures
        outstanding(p, body).len() == outstanding_len(p),
{
    match p.state {
        MultipartState::WritingBoundary { first } => {
            lemma_parts_from_len(p, p.index, first, body);
        },
        _ => {
            lemma_parts_from_len(p, p.index + 1, false, body);
        },
    }
}

/// The parts have as many bytes as they should.
proof fn lemma_parts_from_len(p: Progress, index: int, first: bool, body: Seq<u8>)
    requires
        nameable(p.ranges),
        0 <= index,
        forall|i: int|
            0 <= i < p.ranges.len() ==> (#[trigger] p.ranges[i]).end_exclusive <= body.len(),
    ensures
        parts_from(p, index, first, body).len() == parts_len(p, index, first),
    decreases p.ranges.len() - index,
{
    if index < p.ranges.len() {
        lemma_parts_from_len(p, index + 1, false, body);
        assert(p.ranges[index].end_exclusive <= body.len());
    }
}

} // verus!
