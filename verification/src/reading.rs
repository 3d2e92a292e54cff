//! What holds of the ranges that are read from request headers.
use vstd::prelude::*;

use crate::byte_range::{Bound, ByteRange};
use crate::header::{Element, ParseRangesError, Refusal};

verus! {

/// The number that a text gives as a position, if it is one.
pub open spec fn read_position(text: Seq<char>) -> Option<nat> {
    crate::text::number(text, 0xffff_ffff_ffff_ffff)
}

/// Two texts with a dash between them.
pub open spec fn dashed(first: Seq<char>, last: Seq<char>) -> Seq<char> {
    first + seq!['-'] + last
}

/// `text`, or `text` with a slash and a total length behind it.
pub open spec fn with_length(text: Seq<char>, length: Option<Seq<char>>) -> Seq<char> {
    match length {
        Some(length) => text + seq!['/'] + length,
        None => text,
    }
}

proof fn lemma_dashed(first: Seq<char>, last: Seq<char>, length: Option<Seq<char>>)
    requires
        !first.contains('-'),
        !last.contains('-'),
        !last.contains('/'),
        length matches Some(l) ==> !l.contains('-'),
    ensures
        ({
            let pieces = crate::text::split(dashed(first, with_length(last, length)), '-');
            &&& pieces.len() == 2
            &&& pieces[0] == first
            &&& pieces[1] == with_length(last, length)
            &&& crate::text::before(pieces[1], '/') == last
            &&& pieces[1].len() == 0 <==> last.len() == 0 && length is None
        }),
{
    let end = with_length(last, length);
    assert forall|i: int| 0 <= i < end.len() implies end[i] != '-' by {
        if i < last.len() {
            assert(end[i] == last[i]);
        } else if i > last.len() {
            assert(end[i] == length->Some_0[i - last.len() - 1]);
        }
    }
    assert(dashed(first, end) =~= first.push('-') + end);
    crate::laws::lemma_two_pieces(first, end);
    crate::text_laws::law_before(
        last,
        if length is Some {
            length->Some_0
        } else {
            Seq::empty()
        },
        '/',
    );
}

/// A specification `first-last` asks for the bytes from the first position to the last, both
/// included and none behind the body, where both are numbers, the body reaches to the first, and the
/// last does not come before it. A total length behind it has no effect.
pub proof fn law_closed_specification(
    first: Seq<char>,
    last: Seq<char>,
    length: Option<Seq<char>>,
    size: u64,
)
    requires
        !first.contains('-'),
        !last.contains('-'),
        !last.contains('/'),
        length matches Some(l) ==> !l.contains('-'),
        first.len() > 0,
        last.len() > 0 || length is Some,
    ensures
        crate::header::requested(dashed(first, with_length(last, length)), size) == match (
            read_position(first),
            read_position(last),
        ) {
            (Some(a), Some(b)) => if a < size && a <= b {
                Some(
                    ByteRange {
                        start: a as u64,
                        end_exclusive: if b < size {
                            (b + 1) as u64
                        } else {
                            size
                        },
                    },
                )
            } else {
                None
            },
            _ => None,
        },
        crate::selection::starts_behind(dashed(first, with_length(last, length)), size) <==> (
        read_position(first) matches Some(a) && read_position(last) matches Some(b) && size <= a
            <= b),
        !crate::selection::is_long_suffix(dashed(first, with_length(last, length)), size),
        !crate::selection::is_open_ended(dashed(first, with_length(last, length))),
        crate::selection::has_own_range(dashed(first, with_length(last, length)), size)
            <==> crate::header::requested(dashed(first, with_length(last, length)), size) is Some,
{
    lemma_dashed(first, last, length);
}

/// A specification `first-` asks for the rest of the body from the first position on.
pub proof fn law_open_specification(first: Seq<char>, size: u64)
    requires
        !first.contains('-'),
        first.len() > 0,
    ensures
        crate::header::requested(dashed(first, Seq::empty()), size) == match read_position(first) {
            Some(a) => if a < size {
                Some(ByteRange { start: a as u64, end_exclusive: size })
            } else {
                None
            },
            None => None,
        },
        crate::selection::starts_behind(dashed(first, Seq::empty()), size) <==> (read_position(
            first,
        ) matches Some(a) && size <= a),
        !crate::selection::is_long_suffix(dashed(first, Seq::empty()), size),
        crate::selection::is_open_ended(dashed(first, Seq::empty())),
        crate::selection::has_own_range(dashed(first, Seq::empty()), size)
            <==> crate::header::requested(dashed(first, Seq::empty()), size) is Some,
{
    lemma_dashed(first, Seq::empty(), None);
}

/// A specification `-length` asks for that many bytes at the end of the body, or for all of it where
/// it is shorter. A total length behind it has no effect.
pub proof fn law_suffix_specification(last: Seq<char>, length: Option<Seq<char>>, size: u64)
    requires
        !last.contains('-'),
        !last.contains('/'),
        length matches Some(l) ==> !l.contains('-'),
    ensures
        crate::header::requested(dashed(Seq::empty(), with_length(last, length)), size)
            == match read_position(last) {
            Some(n) => if n == 0 {
                None
            } else {
                Some(
                    ByteRange {
                        start: if n <= size {
                            (size - n) as u64
                        } else {
                            0
                        },
                        end_exclusive: size,
                    },
                )
            },
            None => None,
        },
        crate::selection::starts_behind(dashed(Seq::empty(), with_length(last, length)), size)
            <==> read_position(last) == Some(0nat),
        crate::selection::is_long_suffix(dashed(Seq::empty(), with_length(last, length)), size) <==> (
        read_position(last) matches Some(n) && n > size),
        crate::selection::is_open_ended(dashed(Seq::empty(), with_length(last, length))),
        crate::selection::has_own_range(dashed(Seq::empty(), with_length(last, length)), size)
            <==> crate::header::requested(
            dashed(Seq::empty(), with_length(last, length)),
            size,
        ) is Some,
{
    lemma_dashed(Seq::empty(), last, length);
}

/// A position without a dash asks for the rest of the body, as a header is read, but is answered
/// with no range of its own.
pub proof fn law_bare_position(text: Seq<char>, size: u64)
    requires
        !text.contains('-'),
    ensures
        crate::header::requested(text, size) == match read_position(text) {
            Some(a) => if a < size {
                Some(ByteRange { start: a as u64, end_exclusive: size })
            } else {
                None
            },
            None => None,
        },
        !crate::selection::starts_behind(text, size),
        !crate::selection::is_long_suffix(text, size),
        !crate::selection::is_open_ended(text),
        !crate::selection::has_own_range(text, size),
{
    crate::text::lemma_split_whole(text, '-');
}

/// A specification with two dashes or more asks for nothing.
pub proof fn law_two_dashes(first: Seq<char>, second: Seq<char>, rest: Seq<char>, size: u64)
    ensures
        crate::header::requested(dashed(dashed(first, second), rest), size) is None,
        !crate::selection::starts_behind(dashed(dashed(first, second), rest), size),
        !crate::selection::is_long_suffix(dashed(dashed(first, second), rest), size),
        !crate::selection::is_open_ended(dashed(dashed(first, second), rest)),
        !crate::selection::has_own_range(dashed(dashed(first, second), rest), size),
        crate::header::refusal(dashed(dashed(first, second), rest)) == Refusal::InvalidRange(
            dashed(dashed(first, second), rest),
        ),
{
    lemma_dashes(first, second, rest);
}

/// Every dash begins one more piece.
proof fn lemma_dashes(first: Seq<char>, second: Seq<char>, rest: Seq<char>)
    ensures
        crate::text::split(dashed(dashed(first, second), rest), '-').len() > 2,
    decreases rest.len(), second.len(),
{
    let s = dashed(dashed(first, second), rest);
    if rest.len() > 0 {
        assert(s.drop_last() =~= dashed(dashed(first, second), rest.drop_last()));
        lemma_dashes(first, second, rest.drop_last());
    } else {
        assert(s.drop_last() =~= dashed(first, second));
        assert(s.last() == '-');
        lemma_one_dash(first, second);
    }
}

proof fn lemma_one_dash(first: Seq<char>, second: Seq<char>)
    ensures
        crate::text::split(dashed(first, second), '-').len() > 1,
    decreases second.len(),
{
    let s = dashed(first, second);
    if second.len() > 0 {
        assert(s.drop_last() =~= dashed(first, second.drop_last()));
        lemma_one_dash(first, second.drop_last());
    } else {
        assert(s.drop_last() =~= first);
        assert(s.last() == '-');
        crate::text::lemma_split_nonempty(first, '-');
    }
}

/// How a specification is refused that has fewer than two dashes: by its text.
pub proof fn law_refusal(spec: Seq<char>)
    requires
        crate::text::split(spec, '-').len() <= 2,
    ensures
        crate::header::refusal(spec) == Refusal::InvalidByteRange(spec),
{
}

/// Everything that a list of specifications asks for is read, whatever its length: a list that
/// grows by a specification grows by what that asks for, or is refused for it.
pub proof fn law_every_specification_is_read(
    specs: Seq<Seq<char>>,
    spec: Seq<char>,
    size: u64,
)
    requires
        specs.len() > 0,
        forall|i: int| 0 <= i < specs.len() ==> !(#[trigger] specs[i]).contains(','),
        !spec.contains(','),
    ensures
        crate::header::header_ranges(crate::laws::request(seq![spec]), size) == match
            crate::header::requested(spec, size) {
            Some(range) => Ok(seq![range]),
            None => Err(crate::header::refusal(spec)),
        },
        crate::header::header_ranges(crate::laws::request(specs.push(spec)), size) == match
            crate::header::header_ranges(crate::laws::request(specs), size) {
            Ok(ranges) => match crate::header::requested(spec, size) {
                Some(range) => Ok(ranges.push(range)),
                None => Err(crate::header::refusal(spec)),
            },
            Err(e) => Err(e),
        },
{
    reveal_strlit("bytes=");
    let one = seq![spec];
    let more = specs.push(spec);
    assert forall|i: int| 0 <= i < more.len() implies !(#[trigger] more[i]).contains(',') by {
        if i < specs.len() {
            assert(more[i] == specs[i]);
        }
    }
    crate::laws::lemma_request(one);
    crate::laws::lemma_request(specs);
    crate::laws::lemma_request(more);
    assert(one.drop_last() =~= Seq::<Seq<char>>::empty());
    assert(more.drop_last() =~= specs);
    reveal_with_fuel(crate::header::all_requested, 2);
    assert(Seq::<ByteRange>::empty().push(crate::header::requested(spec, size)->Some_0) =~= seq![
        crate::header::requested(spec, size)->Some_0,
    ]);
}

/// A header of another unit is refused, and an empty one asks for the whole body.
pub proof fn law_other_headers(header: Seq<char>, size: u64)
    ensures
        header.len() == 0 ==> crate::header::header_ranges(header, size) == Ok::<
            Seq<ByteRange>,
            Refusal,
        >(seq![ByteRange { start: 0, end_exclusive: size }]),
        header.len() > 0 && !(exists|rest: Seq<char>| header == #[trigger] ("bytes="@ + rest))
            ==> crate::header::header_ranges(header, size) == Err::<Seq<ByteRange>, Refusal>(
            Refusal::InvalidRange(header),
        ),
{
    crate::text_laws::law_starts_with(header, "bytes="@);
}

/// Whether some of `bounds` has `position` between its ends, both included.
pub open spec fn bounds_hold(bounds: Seq<(Bound<u64>, Bound<u64>)>, position: int) -> bool {
    exists|k: int|
        0 <= k < bounds.len() && (#[trigger] bounds[k]).0 is Included && bounds[k].1 is Included
            && bounds[k].0->Included_0 <= position <= bounds[k].1->Included_0
}

/// Whether some of `bounds` has both `position` and the one before it between its ends.
pub open spec fn bounds_join(bounds: Seq<(Bound<u64>, Bound<u64>)>, position: int) -> bool {
    exists|k: int|
        0 <= k < bounds.len() && (#[trigger] bounds[k]).0 is Included && bounds[k].1 is Included
            && bounds[k].0->Included_0 < position <= bounds[k].1->Included_0
}

/// Neighbouring bytes stay together in what is read from a header exactly where one of its
/// specifications asks for both: ranges that overlap are joined, and those that merely touch are
/// not.
pub proof fn law_read_ranges_join_what_overlaps(specs: Seq<Seq<char>>, size: u64, position: int)
    requires
        size > 0,
        specs.len() > 0,
        forall|i: int|
            0 <= i < specs.len() ==> !(#[trigger] specs[i]).contains(',')
                && crate::header::requested(specs[i], size) is Some,
    ensures
        bounds_join(
            crate::coalesce::coalescence(
                crate::header::header_ranges(crate::laws::request(specs), size)->Ok_0,
            ).map_values(|r: ByteRange| crate::header::inclusive(r)),
            position,
        ) <==> exists|i: int|
            0 <= i < specs.len() && {
                let range = crate::header::requested(#[trigger] specs[i], size)->Some_0;
                range.start < position < range.end_exclusive
            },
{
    crate::laws::lemma_request(specs);
    lemma_all_ok(specs, size);
    crate::header::lemma_requested_within(specs, size);
    let ranges = crate::header::all_requested(specs, size)->Ok_0;
    assert forall|i: int| 0 <= i < ranges.len() implies (#[trigger] ranges[i]).start
        < ranges[i].end_exclusive by {
        assert(ranges[i].within(size as int));
    }
    crate::coalesce::law_coalescence_exists(ranges);
    let joined = crate::coalesce::coalescence(ranges);
    let bounds = joined.map_values(|r: ByteRange| crate::header::inclusive(r));
    assert(crate::coalesce::connects(joined, position) <==> crate::coalesce::connects(
        ranges,
        position,
    ));
    if bounds_join(bounds, position) {
        let k = choose|k: int|
            0 <= k < bounds.len() && (#[trigger] bounds[k]).0 is Included && bounds[k].1 is Included
                && bounds[k].0->Included_0 < position <= bounds[k].1->Included_0;
        assert(joined[k].start < joined[k].end_exclusive);
        assert(joined[k].start < position < joined[k].end_exclusive);
        assert(crate::coalesce::connects(joined, position));
        let i = choose|i: int|
            0 <= i < ranges.len() && (#[trigger] ranges[i]).start < position
                < ranges[i].end_exclusive;
        assert(crate::header::requested(specs[i], size) == Some(ranges[i]));
    }
    if exists|i: int|
        0 <= i < specs.len() && {
            let range = crate::header::requested(#[trigger] specs[i], size)->Some_0;
            range.start < position < range.end_exclusive
        } {
        let i = choose|i: int|
            0 <= i < specs.len() && {
                let range = crate::header::requested(#[trigger] specs[i], size)->Some_0;
                range.start < position < range.end_exclusive
            };
        assert(ranges[i].start < position < ranges[i].end_exclusive);
        assert(crate::coalesce::connects(ranges, position));
        let k = choose|k: int|
            0 <= k < joined.len() && (#[trigger] joined[k]).start < position
                < joined[k].end_exclusive;
        assert(bounds[k] == crate::header::inclusive(joined[k]));
    }
}

/// What is read from a header holds a byte exactly where one of its specifications asks for it,
/// whichever that is, and its ranges stand in ascending order without overlap.
pub proof fn law_read_ranges_hold_what_is_asked_for(
    specs: Seq<Seq<char>>,
    size: u64,
    position: int,
)
    requires
        size > 0,
        specs.len() > 0,
        forall|i: int|
            0 <= i < specs.len() ==> !(#[trigger] specs[i]).contains(',')
                && crate::header::requested(specs[i], size) is Some,
    ensures
        ({
            let read = crate::header::header_ranges(crate::laws::request(specs), size);
            let bounds = crate::coalesce::coalescence(read->Ok_0).map_values(
                |r: ByteRange| crate::header::inclusive(r),
            );
            &&& read is Ok
            &&& bounds_hold(bounds, position) <==> exists|i: int|
                0 <= i < specs.len() && {
                    let range = crate::header::requested(#[trigger] specs[i], size)->Some_0;
                    range.start <= position < range.end_exclusive
                }
            &&& forall|j: int, k: int|
                0 <= j < k < bounds.len() ==> (#[trigger] bounds[j]).1->Included_0 < (
                #[trigger] bounds[k]).0->Included_0
            &&& forall|k: int|
                0 <= k < bounds.len() ==> {
                    let b = #[trigger] bounds[k];
                    &&& b.0 is Included
                    &&& b.1 is Included
                    &&& b.0->Included_0 <= b.1->Included_0 < size
                }
        }),
{
    crate::laws::lemma_request(specs);
    lemma_all_ok(specs, size);
    crate::header::lemma_requested_within(specs, size);
    let ranges = crate::header::all_requested(specs, size)->Ok_0;
    assert forall|i: int| 0 <= i < ranges.len() implies (#[trigger] ranges[i]).start
        < ranges[i].end_exclusive by {
        assert(ranges[i].within(size as int));
    }
    crate::coalesce::law_coalescence_exists(ranges);
    let joined = crate::coalesce::coalescence(ranges);
    let bounds = joined.map_values(|r: ByteRange| crate::header::inclusive(r));
    assert(crate::coalesce::covers(joined, position) <==> crate::coalesce::covers(ranges, position));
    assert forall|k: int| 0 <= k < joined.len() implies (#[trigger] joined[k]).end_exclusive
        <= size by {
        let p = joined[k].end_exclusive - 1;
        assert(joined[k].holds(p));
        assert(crate::coalesce::covers(joined, p));
        assert(crate::coalesce::covers(ranges, p));
        let i = choose|i: int| 0 <= i < ranges.len() && (#[trigger] ranges[i]).holds(p);
        assert(ranges[i].within(size as int));
    }
    if bounds_hold(bounds, position) {
        let k = choose|k: int|
            0 <= k < bounds.len() && (#[trigger] bounds[k]).0 is Included && bounds[k].1 is Included
                && bounds[k].0->Included_0 <= position <= bounds[k].1->Included_0;
        assert(joined[k].holds(position));
        assert(crate::coalesce::covers(ranges, position));
        let i = choose|i: int| 0 <= i < ranges.len() && (#[trigger] ranges[i]).holds(position);
        assert(crate::header::requested(specs[i], size) == Some(ranges[i]));
    }
    if exists|i: int|
        0 <= i < specs.len() && {
            let range = crate::header::requested(#[trigger] specs[i], size)->Some_0;
            range.start <= position < range.end_exclusive
        } {
        let i = choose|i: int|
            0 <= i < specs.len() && {
                let range = crate::header::requested(#[trigger] specs[i], size)->Some_0;
                range.start <= position < range.end_exclusive
            };
        assert(ranges[i].holds(position));
        assert(crate::coalesce::covers(joined, position));
        let k = choose|k: int| 0 <= k < joined.len() && (#[trigger] joined[k]).holds(position);
        assert(bounds[k] == crate::header::inclusive(joined[k]));
    }
    assert forall|j: int, k: int| 0 <= j < k < bounds.len() implies (
    #[trigger] bounds[j]).1->Included_0 < (#[trigger] bounds[k]).0->Included_0 by {
        assert(joined[j].end_exclusive <= joined[k].start);
        assert(joined[j].start < joined[j].end_exclusive);
    }
    assert forall|k: int| 0 <= k < bounds.len() implies {
        let b = #[trigger] bounds[k];
        &&& b.0 is Included
        &&& b.1 is Included
        &&& b.0->Included_0 <= b.1->Included_0 < size
    } by {
        assert(joined[k].start < joined[k].end_exclusive <= size);
    }
}

proof fn lemma_all_ok(specs: Seq<Seq<char>>, size: u64)
    requires
        forall|i: int|
            0 <= i < specs.len() ==> crate::header::requested(#[trigger] specs[i], size) is Some,
    ensures
        crate::header::all_requested(specs, size) is Ok,
    decreases specs.len(),
{
    if specs.len() > 0 {
        let front = specs.drop_last();
        assert forall|i: int| 0 <= i < front.len() implies crate::header::requested(
            #[trigger] front[i],
            size,
        ) is Some by {
            assert(front[i] == specs[i]);
        }
        lemma_all_ok(front, size);
        assert(specs.last() == specs[specs.len() - 1]);
    }
}

/// An element of a set of ranges, with white space around it.
pub open spec fn padded(before: Seq<char>, text: Seq<char>, behind: Seq<char>) -> Seq<char> {
    before + text + behind
}

/// An element of nothing but white space denotes nothing.
pub proof fn law_blank_element(blank: Seq<char>)
    requires
        crate::laws::is_blank(blank),
    ensures
        crate::header::element(blank) == Ok::<Element, Refusal>(Element::Blank),
{
    crate::text_laws::law_trimmed(blank, Seq::empty(), Seq::empty());
    assert(blank + Seq::<char>::empty() + Seq::<char>::empty() =~= blank);
}

/// An element `first-last` denotes the range from the first position to the one past the last,
/// where both are numbers and stand in order; `first-` has no end, and `-length` is a suffix.
pub proof fn law_dashed_element(
    before: Seq<char>,
    first: Seq<char>,
    last: Seq<char>,
    behind: Seq<char>,
)
    requires
        crate::laws::is_blank(before),
        crate::laws::is_blank(behind),
        !first.contains('-'),
        !last.contains('-'),
        crate::laws::is_tight(dashed(first, last)),
    ensures
        crate::header::element(padded(before, dashed(first, last), behind)) == if first.len() == 0 {
            match read_position(last) {
                Some(n) => Ok(Element::Suffix(n as u64)),
                None => Err(Refusal::InvalidSuffixRange(dashed(first, last))),
            }
        } else {
            let most = 0x7fff_ffff_ffff_ffff;
            match crate::text::number(first, most) {
                Some(a) => if last.len() == 0 {
                    Ok(Element::Range(Bound::Included(a as i64), Bound::Unbounded))
                } else {
                    match crate::text::number(last, most) {
                        Some(b) => if a <= b < most {
                            Ok(
                                Element::Range(
                                    Bound::Included(a as i64),
                                    Bound::Included((b + 1) as i64),
                                ),
                            )
                        } else {
                            Err(Refusal::InvalidByteRange(dashed(first, last)))
                        },
                        None => Err(Refusal::InvalidByteRange(dashed(first, last))),
                    }
                },
                None => Err(Refusal::InvalidByteRange(dashed(first, last))),
            }
        },
{
    let e = dashed(first, last);
    assert(e.last() == e[e.len() - 1]);
    crate::text_laws::law_trimmed(before, e, behind);
    assert(e =~= first.push('-') + last);
    crate::laws::lemma_two_pieces(first, last);
    crate::text_laws::law_no_number(Seq::empty(), 0x7fff_ffff_ffff_ffff, 0);
    if last.len() == 0 {
        assert(last =~= Seq::empty());
    }
}

/// An element without a dash, or with two and more, denotes nothing and is refused.
pub proof fn law_other_element(
    before: Seq<char>,
    text: Seq<char>,
    behind: Seq<char>,
    first: Seq<char>,
    second: Seq<char>,
    rest: Seq<char>,
)
    requires
        crate::laws::is_blank(before),
        crate::laws::is_blank(behind),
        text.len() > 0,
        crate::laws::is_tight(text),
        !text.contains('-') || text == dashed(dashed(first, second), rest),
    ensures
        crate::header::element(padded(before, text, behind)) == Err::<Element, Refusal>(
            Refusal::InvalidRange(text),
        ),
{
    assert(text.last() == text[text.len() - 1]);
    crate::text_laws::law_trimmed(before, text, behind);
    if text.contains('-') {
        lemma_dashes(first, second, rest);
    } else {
        crate::text::lemma_split_whole(text, '-');
    }
}

/// A set of elements that grows by one grows by what that denotes, whatever its length: by a range
/// at the end, by the length of a suffix, by nothing, or it is refused for it.
pub proof fn law_every_element_is_read(texts: Seq<Seq<char>>, text: Seq<char>)
    ensures
        crate::header::element_set(Seq::empty()) == Ok::<
            (Seq<(Bound<i64>, Bound<i64>)>, Option<Option<u64>>),
            Refusal,
        >((Seq::empty(), None)),
        crate::header::element_set(texts.push(text)) == match crate::header::element_set(texts) {
            Ok(set) => match crate::header::element(text) {
                Ok(Element::Blank) => Ok(set),
                Ok(Element::Range(from, to)) => Ok((set.0.push((from, to)), set.1)),
                Ok(Element::Suffix(n)) => Ok((set.0, Some(Some(n)))),
                Err(e) => Err(e),
            },
            Err(e) => Err(e),
        },
{
    assert(texts.push(text).drop_last() =~= texts);
}

/// A set of ranges is read from its elements, which stand between commas behind the unit; without
/// any range or suffix it is refused, and so is one of another unit.
pub proof fn law_set_of_elements(list: Seq<Seq<char>>, other: Seq<char>)
    requires
        list.len() > 0,
        forall|i: int| 0 <= i < list.len() ==> !(#[trigger] list[i]).contains(','),
        !(exists|rest: Seq<char>| other == #[trigger] ("bytes="@ + rest)),
    ensures
        crate::header::sized_set(crate::laws::request(list)) == match crate::header::element_set(
            list,
        ) {
            Ok(set) => if set.0.len() > 0 || set.1 is Some {
                Ok(set)
            } else {
                Err(Refusal::InvalidRange(crate::laws::request(list)))
            },
            Err(e) => Err(e),
        },
        crate::header::sized_set(other) == Err::<
            (Seq<(Bound<i64>, Bound<i64>)>, Option<Option<u64>>),
            Refusal,
        >(Refusal::InvalidRange(other)),
{
    crate::laws::lemma_request(list);
    crate::text_laws::law_starts_with(other, "bytes="@);
}

/// White space around a set of ranges has no effect. A total length behind a slash has to be a
/// number; zero stands for a body of no bytes, any other has no effect.
pub proof fn law_set_with_total(
    before: Seq<char>,
    set: Seq<char>,
    total: Seq<char>,
    behind: Seq<char>,
)
    requires
        crate::laws::is_blank(before),
        crate::laws::is_blank(behind),
        !set.contains('/'),
        !total.contains('/'),
        crate::laws::is_tight(set),
        crate::laws::is_tight(set + seq!['/'] + total),
    ensures
        crate::header::range_set(padded(before, set, behind)) == if set.len() == 0 {
            Err(Refusal::InvalidRange(set))
        } else {
            crate::header::sized_set(set)
        },
        crate::header::range_set(padded(before, set + seq!['/'] + total, behind)) == if set.len()
            == 0 {
            Err(Refusal::InvalidRange(set))
        } else {
            match read_position(total) {
                Some(n) => if n == 0 {
                    Ok((Seq::empty(), Some(None)))
                } else {
                    crate::header::sized_set(set)
                },
                None => Err(Refusal::InvalidRange(total)),
            }
        },
{
    let whole = set + seq!['/'] + total;
    assert(set.len() > 0 ==> set.last() == set[set.len() - 1]);
    assert(whole.last() == whole[whole.len() - 1]);
    crate::text_laws::law_trimmed(before, set, behind);
    crate::text_laws::law_trimmed(before, whole, behind);
    crate::text::lemma_split_whole(set, '/');
    assert(whole =~= set.push('/') + total);
    crate::text::lemma_split_append(set, total, '/');
}

/// An error is seen as what it is, with the text that it holds.
pub proof fn law_errors(text: String)
    ensures
        ParseRangesError::InvalidRange(text)@ == Refusal::InvalidRange(text@),
        ParseRangesError::InvalidByteRange(text)@ == Refusal::InvalidByteRange(text@),
        ParseRangesError::InvalidSuffixRange(text)@ == Refusal::InvalidSuffixRange(text@),
{
}

/// What stands behind a second slash has no effect.
pub proof fn law_set_with_more_behind_its_total(
    before: Seq<char>,
    set: Seq<char>,
    total: Seq<char>,
    more: Seq<char>,
    behind: Seq<char>,
)
    requires
        crate::laws::is_blank(before),
        crate::laws::is_blank(behind),
        !set.contains('/'),
        !total.contains('/'),
        crate::laws::is_tight(set),
        crate::laws::is_tight(set + seq!['/'] + total),
        crate::laws::is_tight(set + seq!['/'] + total + seq!['/'] + more),
    ensures
        crate::header::range_set(
            padded(before, set + seq!['/'] + total + seq!['/'] + more, behind),
        ) == crate::header::range_set(padded(before, set + seq!['/'] + total, behind)),
{
    let whole = set + seq!['/'] + total + seq!['/'] + more;
    assert(whole.last() == whole[whole.len() - 1]);
    crate::text_laws::law_trimmed(before, whole, behind);
    law_set_with_total(before, set, total, behind);
    lemma_second_section(set, total, more);
}

/// The first two sections of a text with two slashes.
proof fn lemma_second_section(set: Seq<char>, total: Seq<char>, more: Seq<char>)
    requires
        !set.contains('/'),
        !total.contains('/'),
    ensures
        ({
            let pieces = crate::text::split(
                set + seq!['/'] + total + seq!['/'] + more,
                '/',
            );
            pieces.len() > 2 && pieces[0] == set && pieces[1] == total
        }),
    decreases more.len(),
{
    let s = set + seq!['/'] + total + seq!['/'] + more;
    if more.len() > 0 {
        assert(s.drop_last() =~= set + seq!['/'] + total + seq!['/'] + more.drop_last());
        lemma_second_section(set, total, more.drop_last());
    } else {
        let front = set.push('/') + total;
        assert(s.drop_last() =~= front);
        assert(s.last() == '/');
        crate::text::lemma_split_whole(set, '/');
        crate::text::lemma_split_append(set, total, '/');
    }
}

} // verus!
