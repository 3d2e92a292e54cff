//! Reading the byte ranges that a `Range` request header asks for.
use vstd::prelude::*;

use crate::byte_range::{Bound, ByteRange};
use crate::coalesce::coalesce;
use crate::text::{before_char, begins_with, parse_number, split_at_char, trim};

verus! {

/// Why a text does not denote byte ranges. Each variant holds the text at fault.
#[derive(Debug, Clone, PartialEq)]
pub enum ParseRangesError {
    /// The text as a whole has another form.
    InvalidRange(String),
    /// A range is malformed or lies outside the body.
    InvalidByteRange(String),
    /// The length of a suffix range is malformed.
    InvalidSuffixRange(String),
}

/// The view of a [`ParseRangesError`].
pub enum Refusal {
    InvalidRange(Seq<char>),
    InvalidByteRange(Seq<char>),
    InvalidSuffixRange(Seq<char>),
}

impl View for ParseRangesError {
    type V = Refusal;

    open spec fn view(&self) -> Refusal {
        match self {
            ParseRangesError::InvalidRange(s) => Refusal::InvalidRange(s@),
            ParseRangesError::InvalidByteRange(s) => Refusal::InvalidByteRange(s@),
            ParseRangesError::InvalidSuffixRange(s) => Refusal::InvalidSuffixRange(s@),
        }
    }
}

/// What a byte range request begins with.
pub open spec fn bytes_unit() -> Seq<char> {
    "bytes="@
}

/// The range specifications of a request, in order.
pub open spec fn specifications(header: Seq<char>) -> Seq<Seq<char>> {
    crate::text::split(header.skip(bytes_unit().len() as int), ',')
}

/// The number that `s` denotes, where it fits a position.
pub open spec fn position(s: Seq<char>) -> Option<nat> {
    crate::text::number(s, u64::MAX as nat)
}

/// From the byte at `first` to the end of a body of `size` bytes.
pub open spec fn open_range(first: Option<nat>, size: u64) -> Option<ByteRange> {
    match first {
        Some(a) => if a < size {
            Some(ByteRange { start: a as u64, end_exclusive: size })
        } else {
            None
        },
        None => None,
    }
}

/// From the byte at `first` to the byte at `last`, both included, as far as a body of `size`
/// bytes reaches.
pub open spec fn closed_range(first: Option<nat>, last: Option<nat>, size: u64) -> Option<
    ByteRange,
> {
    match (first, last) {
        (Some(a), Some(b)) => if a < size && a <= b {
            Some(
                ByteRange {
                    start: a as u64,
                    end_exclusive: if b < size {
                        (b + 1) as u64
                    } else {
                        size
                    },
                },
            )
        } else {
            None
        },
        _ => None,
    }
}

/// The last `length` bytes of a body of `size` bytes, or all of it where it is shorter.
pub open spec fn suffix_range(length: Option<nat>, size: u64) -> Option<ByteRange> {
    match length {
        Some(n) => if n > 0 {
            Some(
                ByteRange {
                    start: if n < size {
                        (size - n) as u64
                    } else {
                        0
                    },
                    end_exclusive: size,
                },
            )
        } else {
            None
        },
        None => None,
    }
}

/// The bytes that one specification asks for in a body of `size` bytes: `first-last`, `first-`,
/// `-length`, or a bare `first`. A total length may follow behind a slash and has no effect.
pub open spec fn requested(spec: Seq<char>, size: u64) -> Option<ByteRange> {
    let pieces = crate::text::split(spec, '-');
    if pieces.len() == 1 {
        open_range(position(pieces[0]), size)
    } else if pieces.len() == 2 {
        let last = position(crate::text::before(pieces[1], '/'));
        if pieces[0].len() == 0 {
            suffix_range(last, size)
        } else if pieces[1].len() == 0 {
            open_range(position(pieces[0]), size)
        } else {
            closed_range(position(pieces[0]), last, size)
        }
    } else {
        None
    }
}

/// How a specification that asks for no bytes is refused.
pub open spec fn refusal(spec: Seq<char>) -> Refusal {
    if crate::text::split(spec, '-').len() > 2 {
        Refusal::InvalidRange(spec)
    } else {
        Refusal::InvalidByteRange(spec)
    }
}

/// What each of `specs` asks for, or the refusal of the first that asks for nothing.
pub open spec fn all_requested(specs: Seq<Seq<char>>, size: u64) -> Result<Seq<ByteRange>, Refusal>
    decreases specs.len(),
{
    if specs.len() == 0 {
        Ok(Seq::empty())
    } else {
        match all_requested(specs.drop_last(), size) {
            Ok(front) => match requested(specs.last(), size) {
                Some(range) => Ok(front.push(range)),
                None => Err(refusal(specs.last())),
            },
            Err(e) => Err(e),
        }
    }
}

/// The ranges that `header` asks for in a body of `size` bytes, as they stand in it. An empty
/// header asks for the whole body.
pub open spec fn header_ranges(header: Seq<char>, size: u64) -> Result<Seq<ByteRange>, Refusal> {
    if header.len() == 0 {
        Ok(seq![ByteRange { start: 0, end_exclusive: size }])
    } else if !crate::text::starts_with(header, bytes_unit()) {
        Err(Refusal::InvalidRange(header))
    } else {
        all_requested(specifications(header), size)
    }
}

/// `range` as a pair of bounds that both belong to it.
pub open spec fn inclusive(range: ByteRange) -> (Bound<u64>, Bound<u64>) {
    (Bound::Included(range.start), Bound::Included((range.end_exclusive - 1) as u64))
}

/// Reads one range specification.
pub(crate) fn parse_specification(spec: &str, size: u64) -> (result: Result<ByteRange, ParseRangesError>)
    requires
        size > 0,
    ensures
        match requested(spec@, size) {
            Some(range) => result == Ok::<ByteRange, ParseRangesError>(range),
            None => result matches Err(e) && e@ == refusal(spec@),
        },
{
    let pieces = split_at_char(spec, '-');
    let ghost parts = crate::text::split(spec@, '-');
    assert(parts.len() == pieces@.len());
    assert(parts[0] == pieces@[0]@);
    if pieces.len() > 2 {
        return Err(ParseRangesError::InvalidRange(spec.to_owned()));
    }
    let whole_rest = pieces.len() == 1 || (!pieces[0].is_empty() && pieces[1].is_empty());
    if pieces.len() == 2 {
        assert(parts[1] == pieces@[1]@);
    }
    if whole_rest {
        if let Some(first) = parse_number(pieces[0], u64::MAX) {
            if first < size {
                return Ok(ByteRange::new(first, size));
            }
        }
    } else {
        let last = parse_number(before_char(pieces[1], '/'), u64::MAX);
        if pieces[0].is_empty() {
            if let Some(length) = last {
                if length > 0 {
                    let start: u64 = if length < size {
                        size - length
                    } else {
                        0
                    };
                    return Ok(ByteRange::new(start, size));
                }
            }
        } else if let Some(first) = parse_number(pieces[0], u64::MAX) {
            if let Some(last) = last {
                if first < size && first <= last {
                    let end: u64 = if last < size {
                        last + 1
                    } else {
                        size
                    };
                    return Ok(ByteRange::new(first, end));
                }
            }
        }
    }
    Err(ParseRangesError::InvalidByteRange(spec.to_owned()))
}

/// Every range that a list of specifications asks for holds at least one byte of the body.
pub proof fn lemma_requested_within(specs: Seq<Seq<char>>, size: u64)
    requires
        size > 0,
        all_requested(specs, size) is Ok,
    ensures
        all_requested(specs, size)->Ok_0.len() == specs.len(),
        forall|i: int|
            0 <= i < specs.len() ==> requested(#[trigger] specs[i], size) == Some(
                all_requested(specs, size)->Ok_0[i],
            ),
        forall|i: int|
            0 <= i < specs.len() ==> (#[trigger] all_requested(specs, size)->Ok_0[i]).within(
                size as int,
            ),
    decreases specs.len(),
{
    if specs.len() > 0 {
        lemma_requested_within(specs.drop_last(), size);
        let front = all_requested(specs.drop_last(), size)->Ok_0;
        let ranges = all_requested(specs, size)->Ok_0;
        assert(ranges == front.push(requested(specs.last(), size)->Some_0));
        assert forall|i: int| 0 <= i < specs.len() implies requested(#[trigger] specs[i], size)
            == Some(ranges[i]) && ranges[i].within(size as int) by {
            if i < specs.len() - 1 {
                assert(specs[i] == specs.drop_last()[i]);
                assert(front[i].within(size as int));
            }
        }
    }
}

/// Reads the ranges that `range_header` asks for in a body of `target_size` bytes, joins those
/// that overlap and gives them in ascending order, both ends included.
pub fn parse_range_header(range_header: &str, target_size: u64) -> (result: Result<
    Vec<(Bound<u64>, Bound<u64>)>,
    ParseRangesError,
>)
    requires
        target_size > 0,
    ensures
        match header_ranges(range_header@, target_size) {
            Ok(ranges) => {
                &&& result matches Ok(bounds)
                &&& bounds@ == crate::coalesce::coalescence(ranges).map_values(
                    |r: ByteRange| inclusive(r),
                )
                &&& crate::coalesce::coalesced(crate::coalesce::coalescence(ranges), ranges)
            },
            Err(e) => result matches Err(x) && x@ == e,
        },
{
    proof {
        reveal_strlit("bytes=");
    }
    let mut ranges: Vec<ByteRange> = Vec::new();
    if range_header.is_empty() {
        ranges.push(ByteRange::new(0, target_size));
        assert(ranges@ =~= seq![ByteRange { start: 0, end_exclusive: target_size }]);
    } else if !begins_with(range_header, "bytes=") {
        return Err(ParseRangesError::InvalidRange(range_header.to_owned()));
    } else {
        let set = range_header.substring_char(6, range_header.unicode_len());
        let specs = split_at_char(set, ',');
        let ghost texts = crate::text::views(specs@);
        assert(set@ =~= range_header@.skip(6));
        assert(texts == specifications(range_header@));
        let mut i: usize = 0;
        while i < specs.len()
            invariant
                target_size > 0,
                i <= specs@.len(),
                texts == crate::text::views(specs@),
                all_requested(texts.take(i as int), target_size) == Ok::<
                    Seq<ByteRange>,
                    Refusal,
                >(ranges@),
                header_ranges(range_header@, target_size) == all_requested(texts, target_size),
            decreases specs@.len() - i,
        {
            assert(texts.take(i + 1).drop_last() =~= texts.take(i as int));
            assert(texts.take(i + 1).last() == specs@[i as int]@);
            match parse_specification(specs[i], target_size) {
                Ok(range) => {
                    ranges.push(range);
                },
                Err(e) => {
                    proof {
                        lemma_refused_early(texts, i + 1, target_size);
                    }
                    return Err(e);
                },
            }
            i = i + 1;
        }
        assert(texts.take(i as int) =~= texts);
        proof {
            lemma_requested_within(texts, target_size);
        }
    }
    let joined = coalesce(&ranges);
    let mut bounds: Vec<(Bound<u64>, Bound<u64>)> = Vec::new();
    let mut i: usize = 0;
    while i < joined.len()
        invariant
            i <= joined@.len(),
            crate::coalesce::all_nonempty(joined@),
            bounds@ == joined@.take(i as int).map_values(|r: ByteRange| inclusive(r)),
        decreases joined@.len() - i,
    {
        bounds.push((Bound::Included(joined[i].start), Bound::Included(joined[i].end_exclusive - 1)));
        assert(bounds@ =~= joined@.take(i + 1).map_values(|r: ByteRange| inclusive(r)));
        i = i + 1;
    }
    assert(joined@.take(i as int) =~= joined@);
    Ok(bounds)
}

/// A list is refused as soon as a front part of it is.
proof fn lemma_refused_early(specs: Seq<Seq<char>>, n: int, size: u64)
    requires
        0 <= n <= specs.len(),
        all_requested(specs.take(n), size) is Err,
    ensures
        all_requested(specs, size) == all_requested(specs.take(n), size),
    decreases specs.len(),
{
    if n == specs.len() {
        assert(specs.take(n) =~= specs);
    } else {
        assert(specs.drop_last().take(n) =~= specs.take(n));
        lemma_refused_early(specs.drop_last(), n, size);
    }
}

/// One element of a set of ranges.
pub enum Element {
    /// Nothing but white space.
    Blank,
    /// A range from a first position.
    Range(Bound<i64>, Bound<i64>),
    /// The last bytes of the body, this many.
    Suffix(u64),
}

/// The number that `s` denotes, where it fits a signed position.
pub open spec fn signed_position(s: Seq<char>) -> Option<nat> {
    crate::text::number(s, i64::MAX as nat)
}

/// What one element of a set of ranges denotes. The end of a range is given one past its last
/// byte.
pub open spec fn element(text: Seq<char>) -> Result<Element, Refusal> {
    let e = crate::text::trimmed(text);
    let pieces = crate::text::split(e, '-');
    if e.len() == 0 {
        Ok(Element::Blank)
    } else if pieces.len() != 2 {
        Err(Refusal::InvalidRange(e))
    } else if pieces[0].len() == 0 {
        match position(pieces[1]) {
            Some(n) => Ok(Element::Suffix(n as u64)),
            None => Err(Refusal::InvalidSuffixRange(e)),
        }
    } else {
        match (signed_position(pieces[0]), signed_position(pieces[1])) {
            (Some(a), Some(b)) if a <= b && b < i64::MAX => Ok(
                Element::Range(Bound::Included(a as i64), Bound::Included((b + 1) as i64)),
            ),
            (Some(a), _) if pieces[1].len() == 0 => Ok(
                Element::Range(Bound::Included(a as i64), Bound::Unbounded),
            ),
            _ => Err(Refusal::InvalidByteRange(e)),
        }
    }
}

/// What a set of elements denotes: its ranges, in order, and the length of its last suffix
/// range.
pub open spec fn element_set(texts: Seq<Seq<char>>) -> Result<
    (Seq<(Bound<i64>, Bound<i64>)>, Option<Option<u64>>),
    Refusal,
>
    decreases texts.len(),
{
    if texts.len() == 0 {
        Ok((Seq::empty(), None))
    } else {
        match element_set(texts.drop_last()) {
            Ok((ranges, suffix)) => match element(texts.last()) {
                Ok(Element::Blank) => Ok((ranges, suffix)),
                Ok(Element::Range(from, to)) => Ok((ranges.push((from, to)), suffix)),
                Ok(Element::Suffix(n)) => Ok((ranges, Some(Some(n)))),
                Err(e) => Err(e),
            },
            Err(e) => Err(e),
        }
    }
}

/// What a set of ranges denotes where no total length is given, or one above zero.
pub open spec fn sized_set(set: Seq<char>) -> Result<
    (Seq<(Bound<i64>, Bound<i64>)>, Option<Option<u64>>),
    Refusal,
> {
    if !crate::text::starts_with(set, bytes_unit()) {
        Err(Refusal::InvalidRange(set))
    } else {
        match element_set(specifications(set)) {
            Ok((ranges, suffix)) => if ranges.len() == 0 && suffix is None {
                Err(Refusal::InvalidRange(set))
            } else {
                Ok((ranges, suffix))
            },
            Err(e) => Err(e),
        }
    }
}

/// What a set of ranges denotes, with the total length that may follow behind a slash. Of a body
/// of no bytes there are no ranges.
pub open spec fn range_set(text: Seq<char>) -> Result<
    (Seq<(Bound<i64>, Bound<i64>)>, Option<Option<u64>>),
    Refusal,
> {
    let sections = crate::text::split(crate::text::trimmed(text), '/');
    if sections[0].len() == 0 {
        Err(Refusal::InvalidRange(sections[0]))
    } else if sections.len() == 1 {
        sized_set(sections[0])
    } else {
        match position(sections[1]) {
            None => Err(Refusal::InvalidRange(sections[1])),
            Some(total) => if total == 0 {
                Ok((Seq::empty(), Some(None)))
            } else {
                sized_set(sections[0])
            },
        }
    }
}

/// Reads a set of ranges such as `bytes=0-99,200-299` or `bytes=-100`, with the total length of
/// the body behind a slash where it is known. Gives the ranges with an end one past their last
/// byte, and the length of a suffix range where there is one; `Some(None)` stands for a body of
/// no bytes.
pub fn parse_ranges(range_str: String) -> (result: Result<
    (Vec<(Bound<i64>, Bound<i64>)>, Option<Option<u64>>),
    ParseRangesError,
>)
    ensures
        match range_set(range_str@) {
            Ok((ranges, suffix)) => result matches Ok(r) && r.0@ == ranges && r.1 == suffix,
            Err(e) => result matches Err(x) && x@ == e,
        },
{
    let sections = split_at_char(trim(range_str.as_str()), '/');
    let ghost texts = crate::text::split(crate::text::trimmed(range_str@), '/');
    assert(texts == crate::text::views(sections@));
    assert(texts[0] == sections@[0]@);
    let set = sections[0];
    if set.is_empty() {
        return Err(ParseRangesError::InvalidRange(set.to_owned()));
    }
    if sections.len() > 1 {
        assert(texts[1] == sections@[1]@);
        match parse_number(sections[1], u64::MAX) {
            None => {
                return Err(ParseRangesError::InvalidRange(sections[1].to_owned()));
            },
            Some(total) => {
                if total == 0 {
                    return Ok((Vec::new(), Some(None)));
                }
            },
        }
    }
    proof {
        reveal_strlit("bytes=");
    }
    if !begins_with(set, "bytes=") {
        return Err(ParseRangesError::InvalidRange(set.to_owned()));
    }
    let elements = split_at_char(set.substring_char(6, set.unicode_len()), ',');
    let ghost parts = crate::text::views(elements@);
    assert(set@.subrange(6, set@.len() as int) =~= set@.skip(6));
    assert(parts == specifications(set@));
    let mut ranges: Vec<(Bound<i64>, Bound<i64>)> = Vec::new();
    let mut suffix: Option<Option<u64>> = None;
    let mut i: usize = 0;
    while i < elements.len()
        invariant
            i <= elements@.len(),
            parts == crate::text::views(elements@),
            parts == specifications(set@),
            crate::text::starts_with(set@, bytes_unit()),
            range_set(range_str@) == sized_set(set@),
            element_set(parts.take(i as int)) == Ok::<
                (Seq<(Bound<i64>, Bound<i64>)>, Option<Option<u64>>),
                Refusal,
            >((ranges@, suffix)),
        decreases elements@.len() - i,
    {
        assert(parts.take(i + 1).drop_last() =~= parts.take(i as int));
        assert(parts.take(i + 1).last() == elements@[i as int]@);
        match parse_element(elements[i]) {
            Ok(Element::Blank) => {},
            Ok(Element::Range(from, to)) => {
                ranges.push((from, to));
            },
            Ok(Element::Suffix(n)) => {
                suffix = Some(Some(n));
            },
            Err(e) => {
                proof {
                    lemma_set_refused_early(parts, i + 1);
                }
                return Err(e);
            },
        }
        i = i + 1;
    }
    assert(parts.take(i as int) =~= parts);
    if ranges.len() == 0 && suffix.is_none() {
        return Err(ParseRangesError::InvalidRange(set.to_owned()));
    }
    Ok((ranges, suffix))
}

/// Reads one element of a set of ranges.
fn parse_element(text: &str) -> (result: Result<Element, ParseRangesError>)
    ensures
        match element(text@) {
            Ok(e) => result == Ok::<Element, ParseRangesError>(e),
            Err(e) => result matches Err(x) && x@ == e,
        },
{
    let e = trim(text);
    if e.is_empty() {
        return Ok(Element::Blank);
    }
    let pieces = split_at_char(e, '-');
    let ghost parts = crate::text::split(e@, '-');
    assert(parts == crate::text::views(pieces@));
    if pieces.len() != 2 {
        return Err(ParseRangesError::InvalidRange(e.to_owned()));
    }
    assert(parts[0] == pieces@[0]@);
    assert(parts[1] == pieces@[1]@);
    if pieces[0].is_empty() {
        return match parse_number(pieces[1], u64::MAX) {
            Some(n) => Ok(Element::Suffix(n)),
            None => Err(ParseRangesError::InvalidSuffixRange(e.to_owned())),
        };
    }
    let max: u64 = i64::MAX as u64;
    if let Some(from) = parse_number(pieces[0], max) {
        let first: i64 = from as i64;
        if pieces[1].is_empty() {
            return Ok(Element::Range(Bound::Included(first), Bound::Unbounded));
        }
        if let Some(to) = parse_number(pieces[1], max) {
            if from <= to && to < max {
                let end: i64 = to as i64 + 1;
                return Ok(Element::Range(Bound::Included(first), Bound::Included(end)));
            }
        }
    }
    Err(ParseRangesError::InvalidByteRange(e.to_owned()))
}

/// A set is refused as soon as a front part of it is.
proof fn lemma_set_refused_early(texts: Seq<Seq<char>>, n: int)
    requires
        0 <= n <= texts.len(),
        element_set(texts.take(n)) is Err,
    ensures
        element_set(texts) == element_set(texts.take(n)),
    decreases texts.len(),
{
    if n == texts.len() {
        assert(texts.take(n) =~= texts);
    } else {
        assert(texts.drop_last().take(n) =~= texts.take(n));
        lemma_set_refused_early(texts.drop_last(), n);
    }
}

} // verus!
