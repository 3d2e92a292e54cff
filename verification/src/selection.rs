//! Choosing the ranges of a body to send for a request.
use vstd::prelude::*;

use crate::byte_range::{Bound, ByteRange};
use crate::header::parse_specification;
use crate::outside::satisfiable_ranges;
use crate::text::{
    before_char, begins_with, characters, parse_number, split_at_char, trim_back, trim_front,
};

verus! {

/// The value of a `Range` request header that asks for byte ranges.
#[derive(Debug, PartialEq, Eq)]
pub struct RangeHeader {
    text: String,
}

/// Whether `text` is the value of a header that asks for byte ranges.
pub open spec fn is_byte_range_header(text: Seq<char>) -> bool {
    crate::text::starts_with(text, crate::header::bytes_unit()) && crate::outside::is_header_text(
        text,
    )
}

impl View for RangeHeader {
    type V = Seq<char>;

    closed spec fn view(&self) -> Seq<char> {
        self.text@
    }
}

impl Clone for RangeHeader {
    fn clone(&self) -> (copy: Self)
        ensures
            copy@ == self@,
    {
        proof {
            use_type_invariant(self);
        }
        RangeHeader { text: self.text.clone() }
    }
}

impl RangeHeader {
    #[verifier::type_invariant]
    spec fn type_invariant(self) -> bool {
        is_byte_range_header(self.text@)
    }

    /// Reads the value of a `Range` header. There is nothing to read where it asks for another
    /// unit than bytes, or holds characters that are not visible ASCII.
    pub fn decode(text: &str) -> (header: Option<RangeHeader>)
        ensures
            match header {
                Some(h) => is_byte_range_header(text@) && h@ == text@,
                None => !is_byte_range_header(text@),
            },
    {
        if !begins_with(text, "bytes=") {
            return None;
        }
        let cs = characters(text);
        let mut i: usize = 0;
        while i < cs.len()
            invariant
                i <= cs@.len(),
                cs@ == text@,
                forall|j: int| 0 <= j < i ==> crate::outside::is_header_char(#[trigger] text@[j]),
            decreases cs@.len() - i,
        {
            let c = cs[i];
            if !((' ' <= c && c <= '~') || c == '\t') {
                assert(!crate::outside::is_header_char(text@[i as int]));
                return None;
            }
            i = i + 1;
        }
        Some(RangeHeader { text: text.to_owned() })
    }

    /// The value of the header.
    pub fn as_str(&self) -> (text: &str)
        ensures
            text@ == self@,
            is_byte_range_header(text@),
    {
        proof {
            use_type_invariant(self);
        }
        self.text.as_str()
    }
}

/// `range`, cut off behind its first `block_len` bytes.
pub open spec fn first_block(range: ByteRange, block_len: u64) -> ByteRange {
    if range.end_exclusive - range.start > block_len {
        ByteRange { start: range.start, end_exclusive: (range.start + block_len) as u64 }
    } else {
        range
    }
}

/// A piece of a list without the white space that stands beside a comma.
pub open spec fn stripped(piece: Seq<char>, comma_before: bool, comma_behind: bool) -> Seq<char> {
    let s = if comma_before {
        crate::text::trim_start(piece)
    } else {
        piece
    };
    if comma_behind {
        crate::text::trim_end(s)
    } else {
        s
    }
}

/// The elements of the list in `header`: what stands between its commas, without the white space
/// beside them.
pub open spec fn elements(header: Seq<char>) -> Seq<Seq<char>> {
    let pieces = crate::header::specifications(header);
    Seq::new(pieces.len(), |i: int| stripped(pieces[i], i > 0, i < pieces.len() - 1))
}

/// Whether a specification asks for more bytes from the end than a body of `size` bytes has.
pub open spec fn is_long_suffix(spec: Seq<char>, size: u64) -> bool {
    let pieces = crate::text::split(spec, '-');
    &&& pieces.len() == 2
    &&& pieces[0].len() == 0
    &&& match crate::header::position(crate::text::before(pieces[1], '/')) {
        Some(n) => n > size,
        None => false,
    }
}

/// Whether a well-formed specification starts at or behind the end of a body of `size` bytes. A
/// bare position is not well-formed.
pub open spec fn starts_behind(spec: Seq<char>, size: u64) -> bool {
    let pieces = crate::text::split(spec, '-');
    let first = crate::header::position(pieces[0]);
    if pieces.len() == 2 {
        let last = crate::header::position(crate::text::before(pieces[1], '/'));
        if pieces[0].len() == 0 {
            last == Some(0nat)
        } else if pieces[1].len() == 0 {
            first matches Some(a) && a >= size
        } else {
            first matches Some(a) && last matches Some(b) && size <= a <= b
        }
    } else {
        false
    }
}

/// Whether an element of a list can be made sense of: it is empty, asks for bytes of a body of
/// `size` bytes, or for bytes behind it.
pub open spec fn is_readable(element: Seq<char>, size: u64) -> bool {
    ||| element.len() == 0
    ||| crate::header::requested(element, size) is Some
    ||| starts_behind(element, size)
}

/// Whether all of `list` can be made sense of.
pub open spec fn all_readable(list: Seq<Seq<char>>, size: u64) -> bool {
    forall|i: int| 0 <= i < list.len() ==> is_readable(#[trigger] list[i], size)
}

/// Whether an element is answered with a range of its own: it has a dash, and asks for bytes of a
/// body of `size` bytes.
pub open spec fn has_own_range(element: Seq<char>, size: u64) -> bool {
    &&& crate::text::split(element, '-').len() == 2
    &&& crate::header::requested(element, size) is Some
}

/// Whether a specification gives no last position: `first-` or `-length`.
pub open spec fn is_open_ended(spec: Seq<char>) -> bool {
    let pieces = crate::text::split(spec, '-');
    pieces.len() == 2 && (pieces[0].len() == 0 || pieces[1].len() == 0)
}

/// Whether one element of `list` is answered with an open-ended range of its own.
pub open spec fn some_open_ended(list: Seq<Seq<char>>, size: u64) -> bool {
    exists|i: int|
        0 <= i < list.len() && is_open_ended(#[trigger] list[i]) && has_own_range(list[i], size)
}

/// The ranges of a body of `size` bytes that the elements of `list` ask for, in order. Those that
/// have no range of their own are left out.
pub open spec fn asked_ranges(list: Seq<Seq<char>>, size: u64) -> Seq<ByteRange>
    decreases list.len(),
{
    if list.len() == 0 {
        Seq::empty()
    } else {
        let front = asked_ranges(list.drop_last(), size);
        if has_own_range(list.last(), size) {
            front.push(crate::header::requested(list.last(), size)->Some_0)
        } else {
            front
        }
    }
}

/// The number of bytes in all of `ranges`.
pub open spec fn total_len(ranges: Seq<ByteRange>) -> int
    decreases ranges.len(),
{
    if ranges.len() == 0 {
        0
    } else {
        total_len(ranges.drop_last()) + ranges.last().spec_len()
    }
}

/// As much of `ranges` as one block of `block_len` bytes holds: each in turn is cut to what the ones
/// before it have left of the block, and dropped where they fill it.
pub open spec fn within_block(ranges: Seq<ByteRange>, block_len: u64) -> Seq<ByteRange>
    decreases ranges.len(),
{
    if ranges.len() == 0 {
        Seq::empty()
    } else {
        let front = within_block(ranges.drop_last(), block_len);
        let left = block_len - total_len(front);
        if block_len > 0 && left <= 0 {
            front
        } else {
            front.push(first_block(ranges.last(), left as u64))
        }
    }
}

/// The ranges of a body of `size` bytes to send for `header`: what its elements ask for, as far as
/// one block holds it. There is nothing to choose where an element makes no sense, or is
/// open-ended where blocks hold no bytes.
pub open spec fn chosen_ranges(header: Seq<char>, size: u64, block_len: u64) -> Option<
    Seq<ByteRange>,
> {
    let list = elements(header);
    if !all_readable(list, size) || (block_len == 0 && some_open_ended(list, size)) {
        None
    } else {
        Some(within_block(asked_ranges(list, size), block_len))
    }
}

/// Whether some element of `header` asks for more bytes from the end than a body of `size` bytes
/// has.
pub open spec fn has_long_suffix(header: Seq<char>, size: u64) -> bool {
    exists|i: int|
        0 <= i < elements(header).len() && is_long_suffix(#[trigger] elements(header)[i], size)
}

/// The range of a body of `total_bytes` bytes that a pair of bounds comes to: an end beyond the
/// body moves to its end, and no more than `block_len` bytes are left.
pub open spec fn bounded_range(
    bounds: (Bound<u64>, Bound<u64>),
    total_bytes: u64,
    block_len: u64,
) -> Option<ByteRange> {
    let start = match bounds.0 {
        Bound::Included(start) => start,
        _ => 0,
    };
    let end = match bounds.1 {
        Bound::Included(end) => end + 1,
        Bound::Excluded(end) => end as int,
        Bound::Unbounded => start + block_len,
    };
    if start >= total_bytes || start >= end {
        None
    } else {
        Some(
            first_block(
                ByteRange {
                    start,
                    end_exclusive: if end < total_bytes {
                        end as u64
                    } else {
                        total_bytes
                    },
                },
                block_len,
            ),
        )
    }
}

/// The ranges that all of `bounds` come to, or nothing where one of them comes to none.
pub open spec fn bounded_ranges(
    bounds: Seq<(Bound<u64>, Bound<u64>)>,
    total_bytes: u64,
    block_len: u64,
) -> Option<Seq<ByteRange>>
    decreases bounds.len(),
{
    if bounds.len() == 0 {
        Some(Seq::empty())
    } else {
        match bounded_ranges(bounds.drop_last(), total_bytes, block_len) {
            Some(front) => match bounded_range(bounds.last(), total_bytes, block_len) {
                Some(range) => Some(front.push(range)),
                None => None,
            },
            None => None,
        }
    }
}

/// The range that a pair of bounds comes to.
fn resolve_bounds(from: &Bound<u64>, to: &Bound<u64>, total_bytes: u64, block_len: u64) -> (range:
    Option<ByteRange>)
    ensures
        range == bounded_range((*from, *to), total_bytes, block_len),
{
    let start: u64 = match from {
        Bound::Included(start) => *start,
        _ => 0,
    };
    if start >= total_bytes {
        return None;
    }
    let rest: u64 = total_bytes - start;
    let block: u64 = if block_len < rest {
        block_len
    } else {
        rest
    };
    let end: u64 = match to {
        Bound::Included(end) => {
            if *end < start {
                return None;
            }
            if *end < total_bytes {
                *end + 1
            } else {
                total_bytes
            }
        },
        Bound::Excluded(end) => {
            if *end <= start {
                return None;
            }
            if *end < total_bytes {
                *end
            } else {
                total_bytes
            }
        },
        Bound::Unbounded => {
            if block_len == 0 {
                return None;
            }
            start + block
        },
    };
    if end - start > block_len {
        Some(ByteRange::new(start, start + block_len))
    } else {
        Some(ByteRange::new(start, end))
    }
}

/// The ranges of a body of `total_bytes` bytes that `bounds` come to, each of at most `block_len`
/// bytes. There are none where one of them begins behind the body or ends before it begins.
pub fn byte_ranges(
    bounds: &Vec<(Bound<u64>, Bound<u64>)>,
    total_bytes: u64,
    block_len: u64,
) -> (ranges: Option<Vec<ByteRange>>)
    ensures
        match bounded_ranges(bounds@, total_bytes, block_len) {
            Some(rs) => ranges matches Some(v) && v@ == rs,
            None => ranges is None,
        },
{
    let mut ranges: Vec<ByteRange> = Vec::new();
    let mut i: usize = 0;
    while i < bounds.len()
        invariant
            i <= bounds@.len(),
            bounded_ranges(bounds@.take(i as int), total_bytes, block_len) == Some(ranges@),
        decreases bounds@.len() - i,
    {
        assert(bounds@.take(i + 1).drop_last() =~= bounds@.take(i as int));
        match resolve_bounds(&bounds[i].0, &bounds[i].1, total_bytes, block_len) {
            Some(range) => {
                ranges.push(range);
            },
            None => {
                proof {
                    lemma_unbounded_early(bounds@, i + 1, total_bytes, block_len);
                }
                return None;
            },
        }
        i = i + 1;
    }
    assert(bounds@.take(i as int) =~= bounds@);
    Some(ranges)
}

proof fn lemma_unbounded_early(
    bounds: Seq<(Bound<u64>, Bound<u64>)>,
    n: int,
    total_bytes: u64,
    block_len: u64,
)
    requires
        0 <= n <= bounds.len(),
        bounded_ranges(bounds.take(n), total_bytes, block_len) is None,
    ensures
        bounded_ranges(bounds, total_bytes, block_len) is None,
    decreases bounds.len(),
{
    if n == bounds.len() {
        assert(bounds.take(n) =~= bounds);
    } else {
        assert(bounds.drop_last().take(n) =~= bounds.take(n));
        lemma_unbounded_early(bounds.drop_last(), n, total_bytes, block_len);
    }
}

/// The elements of the list in `header`.
fn list_elements<'a>(header: &'a str) -> (list: Vec<&'a str>)
    requires
        is_byte_range_header(header@),
    ensures
        crate::text::views(list@) == elements(header@),
{
    proof {
        reveal_strlit("bytes=");
    }
    let set = header.substring_char(6, header.unicode_len());
    let pieces = split_at_char(set, ',');
    let ghost texts = crate::text::views(pieces@);
    assert(set@ =~= header@.skip(6));
    assert(texts == crate::header::specifications(header@));
    let mut list: Vec<&'a str> = Vec::new();
    let mut i: usize = 0;
    while i < pieces.len()
        invariant
            i <= pieces@.len(),
            texts == crate::text::views(pieces@),
            texts == crate::header::specifications(header@),
            crate::text::views(list@) == elements(header@).take(i as int),
        decreases pieces@.len() - i,
    {
        assert(texts[i as int] == pieces@[i as int]@);
        let ghost shorter = crate::text::views(list@);
        let front = if i > 0 {
            trim_front(pieces[i])
        } else {
            pieces[i]
        };
        let element = if i < pieces.len() - 1 {
            trim_back(front)
        } else {
            front
        };
        list.push(element);
        assert(crate::text::views(list@) =~= shorter.push(element@));
        assert(elements(header@).take(i + 1) =~= elements(header@).take(i as int).push(element@));
        i = i + 1;
    }
    assert(elements(header@).take(i as int) =~= elements(header@));
    list
}

/// Whether `spec` asks for more bytes from the end than the body has.
fn long_suffix(spec: &str, size: u64) -> (b: bool)
    ensures
        b == is_long_suffix(spec@, size),
{
    let pieces = split_at_char(spec, '-');
    let ghost parts = crate::text::split(spec@, '-');
    assert(parts == crate::text::views(pieces@));
    if pieces.len() != 2 {
        return false;
    }
    assert(parts[0] == pieces@[0]@);
    assert(parts[1] == pieces@[1]@);
    if !pieces[0].is_empty() {
        return false;
    }
    match parse_number(before_char(pieces[1], '/'), u64::MAX) {
        Some(n) => n > size,
        None => false,
    }
}

/// Whether `spec` is well-formed and starts at or behind the end of the body.
fn behind_body(spec: &str, size: u64) -> (b: bool)
    ensures
        b == starts_behind(spec@, size),
{
    let pieces = split_at_char(spec, '-');
    let ghost parts = crate::text::split(spec@, '-');
    assert(parts == crate::text::views(pieces@));
    assert(parts[0] == pieces@[0]@);
    let first = parse_number(pieces[0], u64::MAX);
    if pieces.len() != 2 {
        return false;
    }
    assert(parts[1] == pieces@[1]@);
    let last = parse_number(before_char(pieces[1], '/'), u64::MAX);
    if pieces[0].is_empty() {
        match last {
            Some(n) => n == 0,
            None => false,
        }
    } else if pieces[1].is_empty() {
        match first {
            Some(a) => a >= size,
            None => false,
        }
    } else {
        match (first, last) {
            (Some(a), Some(b)) => size <= a && a <= b,
            _ => false,
        }
    }
}

/// Whether some element of `header` asks for more bytes from the end than the body has.
pub fn asks_for_long_suffix(header: &RangeHeader, size: u64) -> (b: bool)
    ensures
        b == has_long_suffix(header@, size),
{
    let list = list_elements(header.as_str());
    let ghost texts = elements(header@);
    let mut i: usize = 0;
    while i < list.len()
        invariant
            i <= list@.len(),
            texts == crate::text::views(list@),
            texts == elements(header@),
            forall|j: int| 0 <= j < i ==> !is_long_suffix(#[trigger] texts[j], size),
        decreases list@.len() - i,
    {
        assert(texts[i as int] == list@[i as int]@);
        if long_suffix(list[i], size) {
            return true;
        }
        i = i + 1;
    }
    false
}

/// An element in the form in which its bounds are read: without a total length behind a slash, and
/// with all of the body in place of a suffix that is longer.
pub open spec fn plain_element(element: Seq<char>, size: u64) -> Seq<char> {
    if is_long_suffix(element, size) {
        "0-"@
    } else {
        crate::text::before(element, '/')
    }
}

/// The elements of `list` that have a range of their own, in the form in which their bounds are
/// read.
pub open spec fn plain_elements(list: Seq<Seq<char>>, size: u64) -> Seq<Seq<char>>
    decreases list.len(),
{
    if list.len() == 0 {
        Seq::empty()
    } else {
        let front = plain_elements(list.drop_last(), size);
        if has_own_range(list.last(), size) {
            front.push(plain_element(list.last(), size))
        } else {
            front
        }
    }
}

/// A request for the elements of `header` that have a range of their own, or nothing where an
/// element makes no sense.
fn plain_request(header: &str, size: u64) -> (plain: Option<String>)
    requires
        is_byte_range_header(header@),
        size > 0,
    ensures
        match plain {
            Some(text) => {
                &&& all_readable(elements(header@), size)
                &&& text@ == crate::header::bytes_unit() + crate::text::join(
                    plain_elements(elements(header@), size),
                    ',',
                )
            },
            None => !all_readable(elements(header@), size),
        },
{
    let list = list_elements(header);
    let ghost texts = elements(header@);
    let mut plain = "bytes=".to_owned();
    let mut first: bool = true;
    let mut i: usize = 0;
    proof {
        reveal_strlit(",");
        assert(texts.take(0) =~= Seq::<Seq<char>>::empty());
        assert(plain@ =~= "bytes="@ + crate::text::join(
            plain_elements(texts.take(0), size),
            ',',
        ));
    }
    while i < list.len()
        invariant
            size > 0,
            i <= list@.len(),
            texts == crate::text::views(list@),
            texts == elements(header@),
            ","@ == seq![','],
            forall|j: int| 0 <= j < i ==> is_readable(#[trigger] texts[j], size),
            first == (plain_elements(texts.take(i as int), size).len() == 0),
            plain@ == "bytes="@ + crate::text::join(
                plain_elements(texts.take(i as int), size),
                ',',
            ),
        decreases list@.len() - i,
    {
        let element = list[i];
        let ghost before = plain_elements(texts.take(i as int), size);
        let ghost after = plain_elements(texts.take(i + 1), size);
        assert(texts[i as int] == element@);
        assert(texts.take(i + 1).drop_last() =~= texts.take(i as int));
        assert(texts.take(i + 1).last() == element@);
        if !element.is_empty() && parse_specification(element, size).is_err() && !behind_body(
            element,
            size,
        ) {
            assert(!is_readable(texts[i as int], size));
            return None;
        }
        if own_range(element, size) {
            if !first {
                plain.append(",");
            }
            if long_suffix(element, size) {
                plain.append("0-");
            } else {
                plain.append(before_char(element, '/'));
            }
            first = false;
            assert(after.drop_last() =~= before);
            assert(plain@ =~= "bytes="@ + crate::text::join(after, ','));
        }
        i = i + 1;
    }
    assert(texts.take(i as int) =~= texts);
    Some(plain)
}

/// Whether `element` is answered with a range of its own.
fn own_range(element: &str, size: u64) -> (b: bool)
    requires
        size > 0,
    ensures
        b == has_own_range(element@, size),
{
    let pieces = split_at_char(element, '-');
    assert(crate::text::split(element@, '-') == crate::text::views(pieces@));
    pieces.len() == 2 && parse_specification(element, size).is_ok()
}

/// Whether `text` holds nothing but digits, signs and dashes.
spec fn is_plain(text: Seq<char>) -> bool {
    forall|i: int|
        0 <= i < text.len() ==> crate::text::is_digit(#[trigger] text[i]) || text[i] == '+'
            || text[i] == '-'
}

/// A specification with one dash, without the total length behind its slash: the texts on either
/// side of the dash, with nothing to trim.
proof fn lemma_dashed_specification(spec: Seq<char>, size: u64)
    requires
        crate::header::requested(spec, size) is Some,
        crate::text::split(spec, '-').len() == 2,
    ensures
        ({
            let pieces = crate::text::split(spec, '-');
            let plain = crate::text::before(spec, '/');
            &&& crate::text::trimmed(plain) == plain
            &&& plain == pieces[0].push('-') + crate::text::before(pieces[1], '/')
            &&& crate::text::before(plain, '-') == pieces[0]
            &&& pieces[1].len() == 0 <==> crate::text::before(pieces[1], '/').len() == 0
            &&& is_plain(plain)
        }),
{
    let pieces = crate::text::split(spec, '-');
    let plain = crate::text::before(spec, '/');
    let first = pieces[0];
    let last = pieces[1];
    let end = crate::text::before(last, '/');
    assert(!first.contains('-')) by {
        crate::text::lemma_split_pieces(spec, '-');
    }
    assert(spec =~= first.push('-') + last) by {
        crate::text::lemma_join_split(spec, '-');
        reveal_with_fuel(crate::text::join, 2);
        assert(pieces.drop_last()[0] == first);
    }
    assert(is_plain(first)) by {
        if first.len() > 0 {
            crate::text::lemma_number_chars(first, u64::MAX as nat);
        }
    }
    assert(is_plain(end) && (last.len() == 0 <==> end.len() == 0)) by {
        if last.len() == 0 {
            crate::text::lemma_split_whole(last, '/');
        } else {
            crate::text::lemma_number_chars(end, u64::MAX as nat);
        }
    }
    assert(plain == first.push('-') + end) by {
        assert forall|i: int| 0 <= i < first.len() implies first[i] != '/' by {}
        crate::text::lemma_before_prefix(first.push('-'), last, '/');
    }
    assert(is_plain(plain)) by {
        assert forall|i: int| 0 <= i < plain.len() implies crate::text::is_digit(
            #[trigger] plain[i],
        ) || plain[i] == '+' || plain[i] == '-' by {
            if i < first.len() {
                assert(plain[i] == first[i]);
            } else if i > first.len() {
                assert(plain[i] == end[i - first.len() - 1]);
            }
        }
    }
    assert(!crate::text::is_white_space(plain[0]));
    assert(plain.last() == plain[plain.len() - 1]);
    crate::text::lemma_trimmed_unchanged(plain);
    crate::text::lemma_before(first, end, '-');
}

/// The bounds of an element with a range of its own come to the first block of that range.
proof fn lemma_plain_element(element: Seq<char>, size: u64, block_len: u64)
    requires
        size > 0,
        has_own_range(element, size),
    ensures
        is_plain(plain_element(element, size)),
        ({
            let bounds = crate::outside::satisfiable_bounds(plain_element(element, size), size);
            &&& bounds is Some
            &&& bounded_range(bounds->Some_0, size, block_len) == if block_len == 0
                && is_open_ended(element) {
                None
            } else {
                Some(first_block(crate::header::requested(element, size)->Some_0, block_len))
            }
        }),
{
    let pieces = crate::text::split(element, '-');
    let plain = plain_element(element, size);
    if is_long_suffix(element, size) {
        reveal_strlit("0-");
        let zero = seq!['0'];
        assert(plain =~= zero.push('-') + Seq::empty());
        crate::text::lemma_trimmed_unchanged(plain);
        crate::text::lemma_before(zero, Seq::empty(), '-');
        assert(plain.skip(2) =~= Seq::<char>::empty());
        crate::text::law_number_reads_decimal(0, u64::MAX as nat);
        assert(crate::text::decimal(0) =~= zero);
    } else {
        lemma_dashed_specification(element, size);
        let end = crate::text::before(pieces[1], '/');
        assert(plain.skip((pieces[0].len() + 1) as int) =~= end);
    }
}

/// The first blocks of what a list asks for.
spec fn first_blocks(ranges: Seq<ByteRange>, block_len: u64) -> Seq<ByteRange> {
    ranges.map_values(|r: ByteRange| first_block(r, block_len))
}

/// The bounds of the plain elements of a list come to the first blocks of what it asks for.
proof fn lemma_plain_elements(list: Seq<Seq<char>>, size: u64, block_len: u64)
    requires
        size > 0,
    ensures
        forall|i: int|
            0 <= i < plain_elements(list, size).len() ==> is_plain(
                #[trigger] plain_elements(list, size)[i],
            ),
        bounded_ranges(
            crate::outside::all_satisfiable(plain_elements(list, size), size),
            size,
            block_len,
        ) == if block_len == 0 && some_open_ended(list, size) {
            None
        } else {
            Some(first_blocks(asked_ranges(list, size), block_len))
        },
    decreases list.len(),
{
    if list.len() > 0 {
        let front = list.drop_last();
        let last = list.last();
        lemma_plain_elements(front, size, block_len);
        lemma_some_open_ended(list, size);
        if has_own_range(last, size) {
            lemma_plain_element(last, size, block_len);
            let plain = plain_elements(list, size);
            let front_bounds = crate::outside::all_satisfiable(plain_elements(front, size), size);
            assert(plain.drop_last() =~= plain_elements(front, size));
            let bounds = crate::outside::all_satisfiable(plain, size);
            assert(bounds.drop_last() =~= front_bounds);
            assert(first_blocks(asked_ranges(list, size), block_len) =~= first_blocks(
                asked_ranges(front, size),
                block_len,
            ).push(first_block(crate::header::requested(last, size)->Some_0, block_len)));
        }
    } else {
        assert(first_blocks(asked_ranges(list, size), block_len) =~= Seq::empty());
    }
}

/// The last element of a list may be the open-ended one.
pub(crate) proof fn lemma_some_open_ended(list: Seq<Seq<char>>, size: u64)
    requires
        list.len() > 0,
    ensures
        some_open_ended(list, size) == (some_open_ended(list.drop_last(), size) || (is_open_ended(
            list.last(),
        ) && has_own_range(list.last(), size))),
{
    let front = list.drop_last();
    if some_open_ended(front, size) {
        let i = choose|i: int|
            0 <= i < front.len() && is_open_ended(#[trigger] front[i]) && has_own_range(
                front[i],
                size,
            );
        assert(list[i] == front[i]);
    }
    if some_open_ended(list, size) {
        let i = choose|i: int|
            0 <= i < list.len() && is_open_ended(#[trigger] list[i]) && has_own_range(
                list[i],
                size,
            );
        if i < front.len() {
            assert(front[i] == list[i]);
        }
    }
    assert(list.last() == list[list.len() - 1]);
}

/// Every range that a list asks for holds at least one byte of the body.
pub proof fn lemma_asked_within(list: Seq<Seq<char>>, size: u64)
    requires
        size > 0,
    ensures
        forall|i: int|
            0 <= i < asked_ranges(list, size).len() ==> (#[trigger] asked_ranges(
                list,
                size,
            )[i]).within(size as int),
    decreases list.len(),
{
    if list.len() > 0 {
        lemma_asked_within(list.drop_last(), size);
        let front = asked_ranges(list.drop_last(), size);
        assert forall|i: int| 0 <= i < asked_ranges(list, size).len() implies (
        #[trigger] asked_ranges(list, size)[i]).within(size as int) by {
            if i < front.len() {
                assert(asked_ranges(list, size)[i] == front[i]);
            }
        }
    }
}

/// What one block holds of `ranges` has no more bytes than the block, and each range of it is the
/// beginning of the one in its place, with at least one byte unless blocks hold none. Ranges are
/// dropped only behind others that fill the block.
pub proof fn lemma_within_block(ranges: Seq<ByteRange>, block_len: u64)
    requires
        crate::coalesce::all_nonempty(ranges),
    ensures
        ({
            let held = within_block(ranges, block_len);
            &&& held.len() <= ranges.len()
            &&& held.len() == ranges.len() || (block_len > 0 && total_len(held) == block_len)
            &&& 0 <= total_len(held) <= block_len
            &&& total_len(held) <= total_len(ranges)
            &&& ranges.len() > 0 ==> held.len() > 0
            &&& total_len(ranges) <= block_len ==> held == ranges
        }),
        forall|i: int|
            0 <= i < within_block(ranges, block_len).len() ==> {
                let range = #[trigger] within_block(ranges, block_len)[i];
                &&& range.start == ranges[i].start
                &&& range.start <= range.end_exclusive <= ranges[i].end_exclusive
                &&& range.spec_len() <= block_len
                &&& block_len > 0 ==> range.start < range.end_exclusive
            },
    decreases ranges.len(),
{
    if ranges.len() > 0 {
        let front = ranges.drop_last();
        let last = ranges.last();
        assert forall|i: int| 0 <= i < front.len() implies (#[trigger] front[i]).start
            < front[i].end_exclusive by {
            assert(front[i] == ranges[i]);
        }
        lemma_within_block(front, block_len);
        let shorter = within_block(front, block_len);
        let held = within_block(ranges, block_len);
        let left = block_len - total_len(shorter);
        assert(last == ranges[ranges.len() - 1]);
        if block_len == 0 || left > 0 {
            assert(shorter.len() == front.len());
            assert(held == shorter.push(first_block(last, left as u64)));
            assert(held.drop_last() =~= shorter);
            if total_len(ranges) <= block_len {
                assert(front.push(last) =~= ranges);
            }
        }
        assert forall|i: int| 0 <= i < held.len() implies {
            let range = #[trigger] held[i];
            &&& range.start == ranges[i].start
            &&& range.start <= range.end_exclusive <= ranges[i].end_exclusive
            &&& range.spec_len() <= block_len
            &&& block_len > 0 ==> range.start < range.end_exclusive
        } by {
            if i < shorter.len() {
                assert(held[i] == shorter[i]);
                assert(front[i] == ranges[i]);
            }
        }
    } else {
        assert(within_block(ranges, block_len) =~= ranges);
    }
}

/// To cut ranges to a block each does not change what one block holds of them.
proof fn lemma_first_blocks(ranges: Seq<ByteRange>, block_len: u64)
    requires
        crate::coalesce::all_nonempty(ranges),
    ensures
        within_block(first_blocks(ranges, block_len), block_len) == within_block(ranges, block_len),
    decreases ranges.len(),
{
    if ranges.len() > 0 {
        let front = ranges.drop_last();
        assert forall|i: int| 0 <= i < front.len() implies (#[trigger] front[i]).start
            < front[i].end_exclusive by {
            assert(front[i] == ranges[i]);
        }
        lemma_first_blocks(front, block_len);
        lemma_within_block(front, block_len);
        assert(first_blocks(ranges, block_len).drop_last() =~= first_blocks(front, block_len));
        assert(ranges.last() == ranges[ranges.len() - 1]);
    } else {
        assert(first_blocks(ranges, block_len) =~= ranges);
    }
}

/// A request for plain elements has their bounds.
proof fn lemma_plain_header(pieces: Seq<Seq<char>>, size: u64)
    requires
        forall|i: int| 0 <= i < pieces.len() ==> is_plain(#[trigger] pieces[i]),
    ensures
        ({
            let text = crate::header::bytes_unit() + crate::text::join(pieces, ',');
            &&& is_byte_range_header(text)
            &&& crate::outside::all_satisfiable(crate::header::specifications(text), size)
                == crate::outside::all_satisfiable(pieces, size)
        }),
{
    reveal_strlit("bytes=");
    let joined = crate::text::join(pieces, ',');
    let text = crate::header::bytes_unit() + joined;
    assert(text.take(6) =~= crate::header::bytes_unit());
    assert(text.skip(6) =~= joined);
    assert forall|i: int| 0 <= i < pieces.len() implies !(#[trigger] pieces[i]).contains(',')
        && crate::outside::is_header_text(pieces[i]) by {
        assert(is_plain(pieces[i]));
    }
    lemma_join_header_text(pieces);
    assert forall|k: int| 0 <= k < text.len() implies crate::outside::is_header_char(
        #[trigger] text[k],
    ) by {
        if k >= 6 {
            assert(text[k] == joined[k - 6]);
        }
    }
    if pieces.len() == 0 {
        let none = Seq::<char>::empty();
        assert(crate::header::specifications(text) =~= seq![none]);
        assert(seq![none].drop_last() =~= Seq::<Seq<char>>::empty());
        reveal_with_fuel(crate::outside::all_satisfiable, 2);
        crate::text::lemma_trimmed_unchanged(none);
        assert(crate::text::before(none, '-') =~= none);
    } else {
        crate::text::lemma_split_join(pieces, ',');
    }
}

/// Header text joined with commas is header text.
proof fn lemma_join_header_text(pieces: Seq<Seq<char>>)
    requires
        forall|i: int| 0 <= i < pieces.len() ==> crate::outside::is_header_text(#[trigger] pieces[i]),
    ensures
        crate::outside::is_header_text(crate::text::join(pieces, ',')),
    decreases pieces.len(),
{
    if pieces.len() == 1 {
        assert(crate::outside::is_header_text(pieces[0]));
    } else if pieces.len() > 1 {
        let front = pieces.drop_last();
        assert forall|i: int| 0 <= i < front.len() implies crate::outside::is_header_text(
            #[trigger] front[i],
        ) by {
            assert(front[i] == pieces[i]);
        }
        lemma_join_header_text(front);
        let f = crate::text::join(front, ',');
        let last = pieces[pieces.len() - 1];
        let whole = crate::text::join(pieces, ',');
        assert(crate::outside::is_header_text(last));
        assert(whole == f.push(',') + last);
        assert forall|k: int| 0 <= k < whole.len() implies crate::outside::is_header_char(
            #[trigger] whole[k],
        ) by {
            if k < f.len() {
                assert(whole[k] == f[k]);
            } else if k > f.len() {
                assert(whole[k] == last[k - f.len() - 1]);
            }
        }
    }
}

/// As much of `ranges` as one block holds.
fn one_block(ranges: &Vec<ByteRange>, block_len: u64) -> (held: Vec<ByteRange>)
    requires
        forall|i: int|
            0 <= i < ranges@.len() ==> (#[trigger] ranges@[i]).start <= ranges@[i].end_exclusive,
    ensures
        held@ == within_block(ranges@, block_len),
{
    let mut held: Vec<ByteRange> = Vec::new();
    let mut left: u64 = block_len;
    let mut i: usize = 0;
    while i < ranges.len()
        invariant
            i <= ranges@.len(),
            forall|j: int|
                0 <= j < ranges@.len() ==> (#[trigger] ranges@[j]).start
                    <= ranges@[j].end_exclusive,
            held@ == within_block(ranges@.take(i as int), block_len),
            left == block_len - total_len(held@),
        decreases ranges@.len() - i,
    {
        assert(ranges@.take(i + 1).drop_last() =~= ranges@.take(i as int));
        if block_len == 0 || left > 0 {
            let range = ranges[i];
            let cut = if range.len() > left {
                ByteRange::new(range.start, range.start + left)
            } else {
                range
            };
            let ghost shorter = held@;
            held.push(cut);
            assert(held@.drop_last() =~= shorter);
            left = left - cut.len();
        }
        i = i + 1;
    }
    assert(ranges@.take(i as int) =~= ranges@);
    held
}

/// The ranges of a body of `total_bytes` bytes to send for `header`, in one block of `block_len`
/// bytes. There is nothing to choose where an element of the header makes no sense, or is
/// open-ended where blocks hold no bytes.
pub fn select_ranges(header: &RangeHeader, total_bytes: u64, block_len: u64) -> (ranges: Option<
    Vec<ByteRange>,
>)
    requires
        total_bytes > 0,
    ensures
        match chosen_ranges(header@, total_bytes, block_len) {
            Some(rs) => ranges matches Some(v) && v@ == rs,
            None => ranges is None,
        },
{
    let text = header.as_str();
    let ghost list = elements(header@);
    let plain = match plain_request(text, total_bytes) {
        Some(plain) => plain,
        None => {
            return None;
        },
    };
    proof {
        lemma_plain_elements(list, total_bytes, block_len);
        lemma_plain_header(plain_elements(list, total_bytes), total_bytes);
    }
    let bounds = satisfiable_ranges(plain.as_str(), total_bytes);
    match byte_ranges(&bounds, total_bytes, block_len) {
        Some(ranges) => {
            proof {
                lemma_asked_within(list, total_bytes);
                assert forall|i: int| 0 <= i < ranges@.len() implies (#[trigger] ranges@[i]).start
                    <= ranges@[i].end_exclusive by {
                    assert(asked_ranges(list, total_bytes)[i].within(total_bytes as int));
                }
                lemma_first_blocks(asked_ranges(list, total_bytes), block_len);
            }
            Some(one_block(&ranges, block_len))
        },
        None => None,
    }
}

} // verus!
