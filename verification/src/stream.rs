//! Sending one range of a body.
//!
//! A stream decides what to do with its body and when; whoever holds both does it and reports
//! back. [`RangedStream::poll_next`] takes the report and gives the next thing to do.
use vstd::prelude::*;

verus! {

/// The largest number of bytes to read at once.
pub const IO_BUFFER_SIZE: usize = 64 * 1024;

/// What happened since the last [`StreamAction`].
#[derive(Debug, Clone, Copy, PartialEq, Eq)]
pub enum StreamEvent {
    /// The next chunk is wanted.
    Poll,
    /// The body began to seek.
    SeekStarted,
    /// The body finished seeking.
    SeekCompleted,
    /// The body gave this many bytes.
    BytesRead(usize),
}

/// What to do next.
#[derive(Debug, Clone, Copy, PartialEq, Eq)]
pub enum StreamAction {
    /// Have the body begin to seek to this position.
    StartSeek(u64),
    /// Wait for the body to finish seeking.
    CompleteSeek,
    /// Read at most this many bytes from the body.
    Read(usize),
    /// Hand out the bytes just read as the next chunk.
    Yield,
    /// There are no more chunks.
    Finish,
}

/// How far a stream has come.
#[derive(Debug, Clone, Copy, PartialEq, Eq)]
pub enum StreamState {
    Seek { start: u64 },
    Seeking { remaining: u64 },
    Reading { remaining: u64 },
}

/// How many bytes to ask for when `remaining` are still to be sent.
pub open spec fn read_size(remaining: u64) -> usize {
    if remaining < IO_BUFFER_SIZE {
        remaining as usize
    } else {
        IO_BUFFER_SIZE
    }
}

/// The state after an event and the action that it leads to, in a stream of `length` bytes. An
/// event that the state does not wait for has the last action asked for again.
pub open spec fn stream_step(state: StreamState, length: u64, event: StreamEvent) -> (
    StreamState,
    StreamAction,
) {
    match (state, event) {
        (StreamState::Seek { start }, StreamEvent::SeekStarted) => (
            StreamState::Seeking { remaining: length },
            StreamAction::CompleteSeek,
        ),
        (StreamState::Seek { start }, _) => (state, StreamAction::StartSeek(start)),
        (StreamState::Seeking { remaining }, StreamEvent::SeekCompleted) => (
            StreamState::Reading { remaining },
            StreamAction::Read(read_size(remaining)),
        ),
        (StreamState::Seeking { remaining }, _) => (state, StreamAction::CompleteSeek),
        (StreamState::Reading { remaining }, StreamEvent::BytesRead(n)) => if n == 0 {
            (state, StreamAction::Finish)
        } else {
            (StreamState::Reading { remaining: (remaining - n) as u64 }, StreamAction::Yield)
        },
        (StreamState::Reading { remaining }, _) => (
            state,
            StreamAction::Read(read_size(remaining)),
        ),
    }
}

/// Whether `event` reports no more bytes than a stream in `state` asked for.
pub open spec fn within_request(state: StreamState, event: StreamEvent) -> bool {
    match (state, event) {
        (StreamState::Reading { remaining }, StreamEvent::BytesRead(n)) => n <= read_size(
            remaining,
        ),
        _ => true,
    }
}

/// How many bytes to ask for when `remaining` are still to be sent.
pub(crate) fn next_read_size(remaining: u64) -> (n: usize)
    ensures
        n == read_size(remaining),
{
    if remaining < IO_BUFFER_SIZE as u64 {
        remaining as usize
    } else {
        IO_BUFFER_SIZE
    }
}

/// Response body stream.
#[derive(Debug)]
pub struct RangedStream<B> {
    state: StreamState,
    length: u64,
    body: B,
}

impl<B> RangedStream<B> {
    /// How far the stream has come.
    pub closed spec fn spec_state(&self) -> StreamState {
        self.state
    }

    /// The number of bytes that the stream sends.
    pub closed spec fn spec_length(&self) -> u64 {
        self.length
    }

    /// The body that the bytes come from.
    pub closed spec fn spec_body(&self) -> B {
        self.body
    }

    /// Whether this stream is about to send `length` bytes of `body`, from `start` on.
    pub open spec fn sends(&self, body: B, start: u64, length: u64) -> bool {
        &&& self.spec_state() == StreamState::Seek { start }
        &&& self.spec_length() == length
        &&& self.spec_body() == body
    }

    /// A stream of `length` bytes of `body`, from `start` on.
    pub fn new(body: B, start: u64, length: u64) -> (stream: Self)
        ensures
            stream.sends(body, start, length),
    {
        RangedStream { state: StreamState::Seek { start }, length, body }
    }

    /// The exact number of bytes that the stream sends.
    pub fn size_hint(&self) -> (n: u64)
        ensures
            n == self.spec_length(),
    {
        self.length
    }

    /// Takes the body out of the stream, which goes on without it.
    pub fn into_parts(self) -> (parts: (B, RangedStream<()>))
        ensures
            parts.0 == self.spec_body(),
            parts.1.spec_state() == self.spec_state(),
            parts.1.spec_length() == self.spec_length(),
    {
        (self.body, RangedStream { state: self.state, length: self.length, body: () })
    }

    /// Takes note of what happened and says what to do next.
    pub fn poll_next(&mut self, event: StreamEvent) -> (action: StreamAction)
        requires
            within_request(old(self).spec_state(), event),
        ensures
            (final(self).spec_state(), action) == stream_step(
                old(self).spec_state(),
                old(self).spec_length(),
                event,
            ),
            final(self).spec_length() == old(self).spec_length(),
            final(self).spec_body() == old(self).spec_body(),
    {
        match self.state {
            StreamState::Seek { start } => match event {
                StreamEvent::SeekStarted => {
                    self.state = StreamState::Seeking { remaining: self.length };
                    StreamAction::CompleteSeek
                },
                _ => StreamAction::StartSeek(start),
            },
            StreamState::Seeking { remaining } => match event {
                StreamEvent::SeekCompleted => {
                    self.state = StreamState::Reading { remaining };
                    StreamAction::Read(next_read_size(remaining))
                },
                _ => StreamAction::CompleteSeek,
            },
            StreamState::Reading { remaining } => match event {
                StreamEvent::BytesRead(n) => {
                    if n == 0 {
                        StreamAction::Finish
                    } else {
                        self.state = StreamState::Reading { remaining: remaining - n as u64 };
                        StreamAction::Yield
                    }
                },
                _ => StreamAction::Read(next_read_size(remaining)),
            },
        }
    }
}

/// A stream at work on the bytes of its body.
pub struct Session {
    /// How far the stream has come.
    pub state: StreamState,
    /// Where the body stands.
    pub position: int,
    /// What has been handed out.
    pub sent: Seq<u8>,
}

/// A stream that is about to send from `start` on.
pub open spec fn opening(start: u64) -> Session {
    Session { state: StreamState::Seek { start }, position: 0, sent: Seq::empty() }
}

/// Whether `event` can come from a body with the bytes `body`: it seeks and reads only what it was
/// asked to, and gives no bytes exactly where none were asked for or none are left.
pub open spec fn from_body(session: Session, event: StreamEvent, body: Seq<u8>) -> bool {
    match (session.state, event) {
        (StreamState::Reading { remaining }, StreamEvent::BytesRead(n)) => {
            &&& n <= read_size(remaining)
            &&& n > 0 ==> session.position + n <= body.len()
            &&& n == 0 ==> remaining == 0 || session.position >= body.len()
        },
        _ => true,
    }
}

/// The bytes of `body` from `from` to before `to`, as far as it has them.
pub open spec fn available(body: Seq<u8>, from: int, to: int) -> Seq<u8> {
    let end = body.len() as int;
    body.subrange(
        if from < end {
            from
        } else {
            end
        },
        if to < end {
            to
        } else {
            end
        },
    )
}

/// What becomes of a session of a stream of `length` bytes.
pub open spec fn session_step(
    session: Session,
    length: u64,
    event: StreamEvent,
    body: Seq<u8>,
) -> Session {
    let state = stream_step(session.state, length, event).0;
    match (session.state, event) {
        (StreamState::Seek { start }, StreamEvent::SeekStarted) => Session {
            state,
            position: start as int,
            ..session
        },
        (StreamState::Reading { remaining }, StreamEvent::BytesRead(n)) => Session {
            state,
            position: session.position + n,
            sent: session.sent + available(body, session.position, session.position + n),
        },
        _ => Session { state, ..session },
    }
}

/// The session after `events`.
pub open spec fn session_after(
    start: u64,
    length: u64,
    events: Seq<StreamEvent>,
    body: Seq<u8>,
) -> Session
    decreases events.len(),
{
    if events.len() == 0 {
        opening(start)
    } else {
        session_step(session_after(start, length, events.drop_last(), body), length, events.last(), body)
    }
}

/// Whether every one of `events` can come from a body with the bytes `body`.
pub open spec fn all_from_body(
    start: u64,
    length: u64,
    events: Seq<StreamEvent>,
    body: Seq<u8>,
) -> bool
    decreases events.len(),
{
    events.len() > 0 ==> {
        &&& all_from_body(start, length, events.drop_last(), body)
        &&& from_body(session_after(start, length, events.drop_last(), body), events.last(), body)
    }
}

/// Whatever a body does, a stream hands out the bytes of its range in order and none twice: what
/// it has sent is the beginning of what the body has of the range.
pub proof fn law_sent_is_a_prefix(start: u64, length: u64, events: Seq<StreamEvent>, body: Seq<u8>)
    requires
        all_from_body(start, length, events, body),
    ensures
        ({
            let session = session_after(start, length, events, body);
            &&& session.sent.len() <= length
            &&& session.sent == available(body, start as int, start + session.sent.len())
            &&& match session.state {
                StreamState::Seek { start: s } => s == start && session.sent.len() == 0,
                StreamState::Seeking { remaining } => {
                    &&& remaining == length
                    &&& session.sent.len() == 0
                    &&& session.position == start
                },
                StreamState::Reading { remaining } => {
                    &&& remaining == length - session.sent.len()
                    &&& session.position == start + session.sent.len()
                },
            }
        }),
    decreases events.len(),
{
    if events.len() == 0 {
        assert(available(body, start as int, start as int) =~= Seq::<u8>::empty());
    } else {
        law_sent_is_a_prefix(start, length, events.drop_last(), body);
        let after = session_after(start, length, events, body);
        assert(after.sent =~= available(body, start as int, start + after.sent.len()));
    }
}

/// A stream that says it has finished has handed out exactly the bytes of its range, as far as the
/// body has them.
pub proof fn law_finished_stream_sent_its_range(
    start: u64,
    length: u64,
    events: Seq<StreamEvent>,
    last: StreamEvent,
    body: Seq<u8>,
)
    requires
        all_from_body(start, length, events.push(last), body),
        stream_step(session_after(start, length, events, body).state, length, last).1
            == StreamAction::Finish,
    ensures
        session_after(start, length, events.push(last), body).sent == available(
            body,
            start as int,
            start + length,
        ),
{
    assert(events.push(last).drop_last() =~= events);
    law_sent_is_a_prefix(start, length, events, body);
    law_sent_is_a_prefix(start, length, events.push(last), body);
}

/// A stream does not stop short: as long as bytes of the range are missing, it asks for more, and
/// every chunk that it hands out holds at least one byte.
pub proof fn law_stream_makes_progress(state: StreamState, length: u64, event: StreamEvent)
    requires
        within_request(state, event),
    ensures
        stream_step(state, length, event).1 == StreamAction::Finish ==> event
            == StreamEvent::BytesRead(0),
        stream_step(state, length, event).1 == StreamAction::Yield ==> (event matches StreamEvent::BytesRead(n) && n > 0),
        state matches StreamState::Reading { remaining } ==> remaining > 0 ==> (stream_step(
            state,
            length,
            StreamEvent::Poll,
        ).1 matches StreamAction::Read(n) && n > 0),
{
}

} // verus!
