//! Streams at work on a body that does what it is asked to.
//!
//! A run follows the actions that a stream hands out and what the body reports back. Where the
//! body stands is known from the seeks that were asked for, and what is sent from the chunks that
//! were handed out.
use vstd::prelude::*;

use crate::byte_range::ByteRange;
use crate::multipart::{MultipartAction, MultipartState, Progress, Step};
use crate::stream::{StreamAction, StreamEvent, StreamState};

verus! {

/// A stream and the body that it works on.
pub struct Run {
    /// How far the stream has come.
    pub state: StreamState,
    /// What the stream asked for last.
    pub asked: StreamAction,
    /// Where the body stands.
    pub position: int,
    /// What was read last.
    pub read: Seq<u8>,
    /// What has been handed out.
    pub sent: Seq<u8>,
}

/// A run of a stream in `state` that is polled for the first time, with a body that stands at
/// `position`.
pub open spec fn first_poll(state: StreamState, length: u64, position: int) -> Run {
    let (state, asked) = crate::stream::stream_step(state, length, StreamEvent::Poll);
    Run { state, asked, position, read: Seq::empty(), sent: Seq::empty() }
}

/// Whether a body with the bytes `data` that was asked for something can report `event`: that it
/// has done it, or that it is polled again. It reads no more than it was asked to, and nothing
/// only where nothing was asked for or it has no more.
pub open spec fn can_report(run: Run, event: StreamEvent, data: Seq<u8>) -> bool {
    match (run.asked, event) {
        (_, StreamEvent::Poll) => true,
        (StreamAction::StartSeek(_), StreamEvent::SeekStarted) => true,
        (StreamAction::CompleteSeek, StreamEvent::SeekCompleted) => true,
        (StreamAction::Read(n), StreamEvent::BytesRead(k)) => {
            &&& k <= n
            &&& k > 0 ==> 0 <= run.position && run.position + k <= data.len()
            &&& k == 0 ==> n == 0 || run.position >= data.len()
        },
        _ => false,
    }
}

/// What a report makes of a run.
pub open spec fn report(run: Run, length: u64, event: StreamEvent, data: Seq<u8>) -> Run {
    let (state, asked) = crate::stream::stream_step(run.state, length, event);
    let position = match (run.asked, event) {
        (StreamAction::StartSeek(p), StreamEvent::SeekStarted) => p as int,
        (_, StreamEvent::BytesRead(k)) => run.position + k,
        _ => run.position,
    };
    let read = match event {
        StreamEvent::BytesRead(k) => if k > 0 {
            data.subrange(run.position, run.position + k)
        } else {
            Seq::empty()
        },
        _ => run.read,
    };
    let sent = if asked == StreamAction::Yield {
        run.sent + read
    } else {
        run.sent
    };
    Run { state, asked, position, read, sent }
}

/// The run after `events`.
pub open spec fn run_after(
    state: StreamState,
    length: u64,
    position: int,
    events: Seq<StreamEvent>,
    data: Seq<u8>,
) -> Run
    decreases events.len(),
{
    if events.len() == 0 {
        first_poll(state, length, position)
    } else {
        report(run_after(state, length, position, events.drop_last(), data), length, events.last(), data)
    }
}

/// Whether a body with the bytes `data` can report `events`, one after the other.
pub open spec fn can_run(
    state: StreamState,
    length: u64,
    position: int,
    events: Seq<StreamEvent>,
    data: Seq<u8>,
) -> bool
    decreases events.len(),
{
    events.len() > 0 ==> {
        &&& can_run(state, length, position, events.drop_last(), data)
        &&& can_report(
            run_after(state, length, position, events.drop_last(), data),
            events.last(),
            data,
        )
    }
}

/// A stream has its body seek to the first byte of its range and nowhere else, reads on from there
/// without a gap, asks for all that is missing as far as its buffer holds it, and hands out every
/// chunk that it reads once. It says that it has finished only where nothing more is to be had.
pub proof fn law_stream_sends_its_range(
    start: u64,
    length: u64,
    position: int,
    events: Seq<StreamEvent>,
    data: Seq<u8>,
)
    requires
        can_run(StreamState::Seek { start }, length, position, events, data),
    ensures
        ({
            let run = run_after(StreamState::Seek { start }, length, position, events, data);
            let done = run.sent.len() as int;
            &&& done <= length
            &&& done > 0 ==> start + done <= data.len()
            &&& forall|i: int| 0 <= i < done ==> #[trigger] run.sent[i] == data[start + i]
            &&& match run.asked {
                StreamAction::StartSeek(p) => p == start && done == 0,
                StreamAction::CompleteSeek => run.position == start && done == 0,
                StreamAction::Read(n) => {
                    &&& run.position == start + done
                    &&& n == if length - done < 65536 {
                        length - done
                    } else {
                        65536
                    }
                },
                StreamAction::Yield => run.position == start + done && run.read.len() > 0,
                StreamAction::Finish => {
                    &&& run.position == start + done
                    &&& done == length || start + done >= data.len()
                },
            }
            &&& events.len() > 0 ==> match events.last() {
                StreamEvent::Poll => true,
                StreamEvent::SeekStarted => run.asked == StreamAction::CompleteSeek,
                StreamEvent::SeekCompleted => run.asked is Read,
                StreamEvent::BytesRead(k) => run.asked == if k > 0 {
                    StreamAction::Yield
                } else {
                    StreamAction::Finish
                },
            }
            &&& match run.asked {
                StreamAction::StartSeek(p) => run.state == StreamState::Seek { start },
                StreamAction::CompleteSeek => run.state == StreamState::Seeking {
                    remaining: length,
                },
                _ => run.state == StreamState::Reading { remaining: (length - done) as u64 },
            }
        }),
    decreases events.len(),
{
    let state = StreamState::Seek { start };
    if events.len() > 0 {
        law_stream_sends_its_range(start, length, position, events.drop_last(), data);
    }
}

/// A stream that says that it has finished has handed out its range, to the last byte that the body
/// has of it.
pub proof fn law_finished_run_sent_the_range(
    start: u64,
    length: u64,
    position: int,
    events: Seq<StreamEvent>,
    data: Seq<u8>,
)
    requires
        start + length <= data.len(),
        can_run(StreamState::Seek { start }, length, position, events, data),
        run_after(StreamState::Seek { start }, length, position, events, data).asked
            == StreamAction::Finish,
    ensures
        run_after(StreamState::Seek { start }, length, position, events, data).sent
            == data.subrange(start as int, start + length),
{
    law_stream_sends_its_range(start, length, position, events, data);
    let sent = run_after(StreamState::Seek { start }, length, position, events, data).sent;
    assert(sent =~= data.subrange(start as int, start + length));
}

/// Whether a body reports something new each time it is asked for it, until the stream says that it
/// has finished.
pub open spec fn goes_on(
    state: StreamState,
    length: u64,
    position: int,
    events: Seq<StreamEvent>,
    data: Seq<u8>,
) -> bool
    decreases events.len(),
{
    events.len() > 0 ==> {
        let before = run_after(state, length, position, events.drop_last(), data);
        &&& goes_on(state, length, position, events.drop_last(), data)
        &&& can_report(before, events.last(), data)
        &&& before.asked != StreamAction::Finish
        &&& events.last() == StreamEvent::Poll <==> before.asked == StreamAction::Yield
    }
}

/// A stream comes to its end: the body has no more to report than the two steps of the seek, two
/// for each chunk, and the end.
pub proof fn law_stream_comes_to_its_end(
    start: u64,
    length: u64,
    position: int,
    events: Seq<StreamEvent>,
    data: Seq<u8>,
)
    requires
        goes_on(StreamState::Seek { start }, length, position, events, data),
    ensures
        events.len() <= 2 * length + 3,
{
    lemma_stream_rank(start, length, position, events, data);
    lemma_goes_on(StreamState::Seek { start }, length, position, events, data);
    law_stream_sends_its_range(start, length, position, events, data);
}

proof fn lemma_goes_on(
    state: StreamState,
    length: u64,
    position: int,
    events: Seq<StreamEvent>,
    data: Seq<u8>,
)
    requires
        goes_on(state, length, position, events, data),
    ensures
        can_run(state, length, position, events, data),
    decreases events.len(),
{
    if events.len() > 0 {
        lemma_goes_on(state, length, position, events.drop_last(), data);
    }
}

proof fn lemma_stream_rank(
    start: u64,
    length: u64,
    position: int,
    events: Seq<StreamEvent>,
    data: Seq<u8>,
)
    requires
        goes_on(StreamState::Seek { start }, length, position, events, data),
    ensures
        ({
            let run = run_after(StreamState::Seek { start }, length, position, events, data);
            let left = length - run.sent.len();
            events.len() <= 2 * length + 3 - match run.asked {
                StreamAction::StartSeek(_) => 2 * length + 3,
                StreamAction::CompleteSeek => 2 * length + 2,
                StreamAction::Read(_) => 2 * left + 1,
                StreamAction::Yield => 2 * left + 2,
                StreamAction::Finish => 0,
            }
        }),
    decreases events.len(),
{
    let state = StreamState::Seek { start };
    lemma_goes_on(state, length, position, events, data);
    law_stream_sends_its_range(start, length, position, events, data);
    if events.len() > 0 {
        lemma_stream_rank(start, length, position, events.drop_last(), data);
        law_stream_sends_its_range(start, length, position, events.drop_last(), data);
    }
}

/// A multipart stream and the body that it works on.
pub struct MultipartRun {
    /// How far the stream has come.
    pub progress: Progress,
    /// What the stream asked for last.
    pub asked: Step,
    /// Where the body stands.
    pub position: int,
    /// What was read last.
    pub read: Seq<u8>,
    /// What has been handed out.
    pub sent: Seq<u8>,
}

/// What is handed out with `asked`.
pub open spec fn handed_out(asked: Step, read: Seq<u8>) -> Seq<u8> {
    match asked {
        Step::Write(text) => vstd::utf8::encode_utf8(text),
        Step::Yield => read,
        _ => Seq::empty(),
    }
}

/// A run of a multipart stream that is polled for the first time, with a body that stands at
/// `position`.
pub open spec fn first_multipart_poll(progress: Progress, position: int) -> MultipartRun {
    let (progress, asked) = progress.step(StreamEvent::Poll);
    MultipartRun {
        progress,
        asked,
        position,
        read: Seq::empty(),
        sent: handed_out(asked, Seq::empty()),
    }
}

/// Whether a body with the bytes `data` that was asked for something can report `event`.
pub open spec fn can_report_part(run: MultipartRun, event: StreamEvent, data: Seq<u8>) -> bool {
    match (run.asked, event) {
        (_, StreamEvent::Poll) => true,
        (Step::StartSeek(_), StreamEvent::SeekStarted) => true,
        (Step::CompleteSeek, StreamEvent::SeekCompleted) => true,
        (Step::Read(n), StreamEvent::BytesRead(k)) => {
            &&& k <= n
            &&& k > 0 ==> 0 <= run.position && run.position + k <= data.len()
            &&& k == 0 ==> n == 0 || run.position >= data.len()
        },
        _ => false,
    }
}

/// What a report makes of a run.
pub open spec fn report_part(run: MultipartRun, event: StreamEvent, data: Seq<u8>) -> MultipartRun {
    let (progress, asked) = run.progress.step(event);
    let position = match (run.asked, event) {
        (Step::StartSeek(p), StreamEvent::SeekStarted) => p as int,
        (_, StreamEvent::BytesRead(k)) => run.position + k,
        _ => run.position,
    };
    let read = match event {
        StreamEvent::BytesRead(k) => if k > 0 {
            data.subrange(run.position, run.position + k)
        } else {
            Seq::empty()
        },
        _ => run.read,
    };
    MultipartRun { progress, asked, position, read, sent: run.sent + handed_out(asked, read) }
}

/// The run after `events`.
pub open spec fn multipart_run_after(
    progress: Progress,
    position: int,
    events: Seq<StreamEvent>,
    data: Seq<u8>,
) -> MultipartRun
    decreases events.len(),
{
    if events.len() == 0 {
        first_multipart_poll(progress, position)
    } else {
        report_part(
            multipart_run_after(progress, position, events.drop_last(), data),
            events.last(),
            data,
        )
    }
}

/// Whether a body with the bytes `data` can report `events`, one after the other.
pub open spec fn can_run_parts(
    progress: Progress,
    position: int,
    events: Seq<StreamEvent>,
    data: Seq<u8>,
) -> bool
    decreases events.len(),
{
    events.len() > 0 ==> {
        &&& can_run_parts(progress, position, events.drop_last(), data)
        &&& can_report_part(
            multipart_run_after(progress, position, events.drop_last(), data),
            events.last(),
            data,
        )
    }
}

/// What a run has sent, together with what the stream has still to hand out, is the document.
spec fn in_hand(run: MultipartRun, data: Seq<u8>, whole: Seq<u8>) -> bool {
    let p = run.progress;
    &&& p.well_formed()
    &&& run.sent + crate::multipart::outstanding(p, data) == whole
    &&& match run.asked {
        Step::Write(_) => !(p.state is Reading) && !(p.state is Seeking),
        Step::StartSeek(s) => p.state == MultipartState::Seek { start: s },
        Step::CompleteSeek => p.state is Seeking && run.position == p.ranges[p.index].start,
        Step::Read(n) => {
            &&& p.state matches MultipartState::Reading { remaining }
            &&& n == if remaining < 65536 {
                remaining as int
            } else {
                65536
            }
            &&& n > 0
            &&& run.position == p.ranges[p.index].end_exclusive - remaining
        },
        Step::Yield => {
            &&& p.state matches MultipartState::Reading { remaining }
            &&& run.position == p.ranges[p.index].end_exclusive - remaining
        },
        Step::Finish => p.state is Finished,
    }
}

/// A report leaves the document as it is.
proof fn lemma_report_part(run: MultipartRun, event: StreamEvent, data: Seq<u8>, whole: Seq<u8>)
    requires
        in_hand(run, data, whole),
        can_report_part(run, event, data),
    ensures
        in_hand(report_part(run, event, data), data, whole),
{
    let session = crate::multipart::MultipartSession {
        progress: run.progress,
        position: run.position,
        sent: run.sent,
    };
    let after = report_part(run, event, data);
    if event is Poll || run.asked is StartSeek || run.asked is CompleteSeek || run.asked is Read {
        crate::multipart::lemma_session_step(session, event, data);
    }
    let stepped = crate::multipart::session_step(session, event, data);
    assert(after.sent =~= stepped.sent);
}

/// A multipart stream hands out its document from the beginning on, and all of it once it says that
/// it has finished.
pub proof fn law_multipart_run_sends_its_document(
    ranges: Seq<ByteRange>,
    total_size: u64,
    boundary: Seq<char>,
    media_type: Seq<char>,
    position: int,
    events: Seq<StreamEvent>,
    data: Seq<u8>,
)
    requires
        forall|i: int|
            0 <= i < ranges.len() ==> (#[trigger] ranges[i]).start <= ranges[i].end_exclusive
                && ranges[i].end_exclusive > 0,
        can_run_parts(
            crate::multipart::beginning(ranges, total_size, boundary, media_type),
            position,
            events,
            data,
        ),
    ensures
        ({
            let whole = crate::multipart::document(ranges, total_size, boundary, media_type, data);
            let run = multipart_run_after(
                crate::multipart::beginning(ranges, total_size, boundary, media_type),
                position,
                events,
                data,
            );
            &&& run.sent.len() <= whole.len()
            &&& run.sent == whole.take(run.sent.len() as int)
            &&& run.asked == Step::Finish ==> run.sent == whole
        }),
{
    let p = crate::multipart::beginning(ranges, total_size, boundary, media_type);
    let whole = crate::multipart::document(ranges, total_size, boundary, media_type, data);
    lemma_multipart_run(p, position, events, data, whole);
    let run = multipart_run_after(p, position, events, data);
    let rest = crate::multipart::outstanding(run.progress, data);
    assert(run.sent =~= (run.sent + rest).take(run.sent.len() as int));
    if run.asked == Step::Finish {
        assert(run.sent + rest =~= run.sent);
    }
}

proof fn lemma_multipart_run(
    p: Progress,
    position: int,
    events: Seq<StreamEvent>,
    data: Seq<u8>,
    whole: Seq<u8>,
)
    requires
        p.well_formed(),
        p.state is WritingBoundary,
        whole == crate::multipart::outstanding(p, data),
        can_run_parts(p, position, events, data),
    ensures
        in_hand(multipart_run_after(p, position, events, data), data, whole),
    decreases events.len(),
{
    if events.len() == 0 {
        crate::multipart::lemma_go_on(p, data);
        let run = first_multipart_poll(p, position);
        assert(run.sent + crate::multipart::outstanding(run.progress, data) =~= whole);
    } else {
        lemma_multipart_run(p, position, events.drop_last(), data, whole);
        lemma_report_part(
            multipart_run_after(p, position, events.drop_last(), data),
            events.last(),
            data,
            whole,
        );
    }
}

/// Whether a body reports something new each time it is asked for it, until the multipart stream
/// says that it has finished.
pub open spec fn parts_go_on(
    progress: Progress,
    position: int,
    events: Seq<StreamEvent>,
    data: Seq<u8>,
) -> bool
    decreases events.len(),
{
    events.len() > 0 ==> {
        let before = multipart_run_after(progress, position, events.drop_last(), data);
        &&& parts_go_on(progress, position, events.drop_last(), data)
        &&& can_report_part(before, events.last(), data)
        &&& before.asked != Step::Finish
        &&& events.last() == StreamEvent::Poll <==> (before.asked is Write || before.asked is Yield)
    }
}

/// The most that a body has to report once the line before the part at `i`, or the last line, is
/// handed out.
pub open spec fn reports_from(ranges: Seq<ByteRange>, i: int) -> int
    decreases ranges.len() - i,
{
    if i < ranges.len() {
        4 + 2 * (ranges[i].end_exclusive - ranges[i].start) + reports_from(ranges, i + 1)
    } else {
        1
    }
}

/// A multipart stream comes to its end: the body has no more to report than four steps for each
/// part, two for each byte of it, and the end.
pub proof fn law_multipart_comes_to_its_end(
    ranges: Seq<ByteRange>,
    total_size: u64,
    boundary: Seq<char>,
    media_type: Seq<char>,
    position: int,
    events: Seq<StreamEvent>,
    data: Seq<u8>,
)
    requires
        forall|i: int|
            0 <= i < ranges.len() ==> (#[trigger] ranges[i]).start <= ranges[i].end_exclusive
                && ranges[i].end_exclusive > 0,
        parts_go_on(
            crate::multipart::beginning(ranges, total_size, boundary, media_type),
            position,
            events,
            data,
        ),
    ensures
        events.len() <= reports_from(ranges, 0),
{
    let p = crate::multipart::beginning(ranges, total_size, boundary, media_type);
    lemma_multipart_rank(p, position, events, data);
    let run = multipart_run_after(p, position, events, data);
    lemma_reports_positive(ranges, run.progress.index);
    lemma_reports_positive(ranges, run.progress.index + 1);
}

proof fn lemma_reports_positive(ranges: Seq<ByteRange>, i: int)
    requires
        crate::multipart::nameable(ranges),
        0 <= i,
    ensures
        reports_from(ranges, i) >= 1,
    decreases ranges.len() - i,
{
    if i < ranges.len() {
        lemma_reports_positive(ranges, i + 1);
    }
}

proof fn lemma_parts_go_on(p: Progress, position: int, events: Seq<StreamEvent>, data: Seq<u8>)
    requires
        parts_go_on(p, position, events, data),
    ensures
        can_run_parts(p, position, events, data),
    decreases events.len(),
{
    if events.len() > 0 {
        lemma_parts_go_on(p, position, events.drop_last(), data);
    }
}

/// How much a body has still to report at most.
spec fn rank(run: MultipartRun) -> int {
    let p = run.progress;
    let len = p.ranges[p.index].spec_len();
    let rest = reports_from(p.ranges, p.index + 1);
    match run.asked {
        Step::Write(_) => match p.state {
            MultipartState::WritingHeaders => 4 + 2 * len + rest,
            MultipartState::Finished => 1,
            _ => 3 + 2 * len + rest,
        },
        Step::StartSeek(_) => 2 + 2 * len + rest,
        Step::CompleteSeek => 1 + 2 * len + rest,
        Step::Read(_) => 2 * (p.state->Reading_remaining) + rest,
        Step::Yield => 2 * (p.state->Reading_remaining) + 1 + rest,
        Step::Finish => 0,
    }
}

proof fn lemma_multipart_rank(p: Progress, position: int, events: Seq<StreamEvent>, data: Seq<u8>)
    requires
        p.well_formed(),
        p.state == (MultipartState::WritingBoundary { first: true }),
        p.index == 0,
        parts_go_on(p, position, events, data),
    ensures
        ({
            let run = multipart_run_after(p, position, events, data);
            &&& run.progress.ranges == p.ranges
            &&& run.progress.well_formed()
            &&& rank(run) >= 0
            &&& events.len() + rank(run) <= reports_from(p.ranges, 0)
            &&& run.asked is Write ==> run.progress.state is WritingHeaders
                || run.progress.state is Seek || run.progress.state is Finished
        }),
    decreases events.len(),
{
    let whole = crate::multipart::outstanding(p, data);
    lemma_parts_go_on(p, position, events, data);
    lemma_multipart_run(p, position, events, data, whole);
    let run = multipart_run_after(p, position, events, data);
    if events.len() > 0 {
        lemma_multipart_rank(p, position, events.drop_last(), data);
        let before = multipart_run_after(p, position, events.drop_last(), data);
        lemma_multipart_run(p, position, events.drop_last(), data, whole);
        lemma_reports_positive(p.ranges, before.progress.index + 1);
        lemma_reports_positive(p.ranges, run.progress.index + 1);
        assert(reports_from(p.ranges, run.progress.index) >= 1) by {
            lemma_reports_positive(p.ranges, run.progress.index);
        }
    } else {
        lemma_reports_positive(p.ranges, 1);
    }
}

/// A stream can be told of any event but of more bytes than it asked for.
pub proof fn law_stream_takes_any_report(state: StreamState, event: StreamEvent)
    ensures
        crate::stream::within_request(state, event) <==> (state is Reading && event is BytesRead
            ==> event->BytesRead_0 <= state->Reading_remaining && event->BytesRead_0 <= 65536),
{
}

/// A report that a stream does not wait for has it ask again, and changes nothing.
pub proof fn law_stray_reports_change_nothing(state: StreamState, length: u64, event: StreamEvent)
    requires
        match state {
            StreamState::Seek { start } => event != StreamEvent::SeekStarted,
            StreamState::Seeking { remaining } => event != StreamEvent::SeekCompleted,
            StreamState::Reading { remaining } => !(event is BytesRead),
        },
    ensures
        crate::stream::stream_step(state, length, event).0 == state,
        crate::stream::stream_step(state, length, event).1 == match state {
            StreamState::Seek { start } => StreamAction::StartSeek(start),
            StreamState::Seeking { remaining } => StreamAction::CompleteSeek,
            StreamState::Reading { remaining } => StreamAction::Read(
                if remaining < 65536 {
                    remaining as usize
                } else {
                    65536
                },
            ),
        },
{
}

/// A multipart stream can be told of any event but of more bytes than it asked for.
pub proof fn law_multipart_takes_any_report(progress: Progress, event: StreamEvent)
    ensures
        progress.within_request(event) <==> (progress.state is Reading && event is BytesRead
            ==> event->BytesRead_0 <= progress.state->Reading_remaining && event->BytesRead_0
            <= 65536),
{
}

/// A report that a multipart stream does not wait for is as good as being polled.
pub proof fn law_stray_reports_are_polls(progress: Progress, event: StreamEvent)
    requires
        match progress.state {
            MultipartState::Seek { start } => event != StreamEvent::SeekStarted,
            MultipartState::Seeking { remaining } => event != StreamEvent::SeekCompleted,
            MultipartState::Reading { remaining } => !(event is BytesRead) || remaining == 0,
            _ => true,
        },
    ensures
        progress.step(event) == progress.step(StreamEvent::Poll),
{
}

/// The ranges of a multipart stream can be sent where none ends before it starts or before the first
/// byte, and a stream that has sent nothing yet is in order exactly then.
pub proof fn law_multipart_can_be_sent(
    ranges: Seq<ByteRange>,
    total_size: u64,
    boundary: Seq<char>,
    media_type: Seq<char>,
)
    ensures
        crate::multipart::nameable(ranges) <==> forall|i: int|
            0 <= i < ranges.len() ==> (#[trigger] ranges[i]).start <= ranges[i].end_exclusive
                && ranges[i].end_exclusive > 0,
        crate::multipart::beginning(ranges, total_size, boundary, media_type).well_formed()
            <==> crate::multipart::nameable(ranges),
{
}

/// At every point of a run, the number of bytes that a multipart stream has still to hand out is what
/// is missing of its document.
pub proof fn law_length_is_what_is_missing(
    ranges: Seq<ByteRange>,
    total_size: u64,
    boundary: Seq<char>,
    media_type: Seq<char>,
    position: int,
    events: Seq<StreamEvent>,
    data: Seq<u8>,
)
    requires
        forall|i: int|
            0 <= i < ranges.len() ==> (#[trigger] ranges[i]).start <= ranges[i].end_exclusive
                <= data.len() && ranges[i].end_exclusive > 0,
        can_run_parts(
            crate::multipart::beginning(ranges, total_size, boundary, media_type),
            position,
            events,
            data,
        ),
    ensures
        ({
            let run = multipart_run_after(
                crate::multipart::beginning(ranges, total_size, boundary, media_type),
                position,
                events,
                data,
            );
            let missing = crate::multipart::document(
                ranges,
                total_size,
                boundary,
                media_type,
                data,
            ).len() - run.sent.len();
            crate::multipart::spec_content_len(run.progress) == if missing <= u64::MAX {
                Some(missing as u64)
            } else {
                None
            }
        }),
{
    let p = crate::multipart::beginning(ranges, total_size, boundary, media_type);
    let whole = crate::multipart::document(ranges, total_size, boundary, media_type, data);
    let run = multipart_run_after(p, position, events, data);
    lemma_multipart_run(p, position, events, data, whole);
    lemma_same_ranges(p, position, events, data);
    crate::multipart::law_content_length_is_outstanding(run.progress, data);
}

/// The ranges of a stream do not change.
proof fn lemma_same_ranges(p: Progress, position: int, events: Seq<StreamEvent>, data: Seq<u8>)
    ensures
        multipart_run_after(p, position, events, data).progress.ranges == p.ranges,
    decreases events.len(),
{
    if events.len() > 0 {
        lemma_same_ranges(p, position, events.drop_last(), data);
    }
}

/// An action of a multipart stream is seen as what it is.
pub proof fn law_multipart_actions(text: String, position: u64, n: usize)
    ensures
        MultipartAction::Write(text)@ == Step::Write(text@),
        MultipartAction::StartSeek(position)@ == Step::StartSeek(position),
        MultipartAction::CompleteSeek@ == Step::CompleteSeek,
        MultipartAction::Read(n)@ == Step::Read(n),
        MultipartAction::Yield@ == Step::Yield,
        MultipartAction::Finish@ == Step::Finish,
{
}

} // verus!
