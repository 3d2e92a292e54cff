//! What holds of requests and their replies as a whole.
use vstd::prelude::*;

use crate::byte_range::{Bound, ByteRange};
use crate::multipart::MultipartStream;
use crate::respond::{RangeNotSatisfiable, RangedResponse, Reply};
use crate::response::{Response, ResponseBody};
use crate::stream::{RangedStream, StreamAction, StreamEvent, StreamState};

verus! {

/// A request header with these range specifications.
pub open spec fn request(specs: Seq<Seq<char>>) -> Seq<char> {
    crate::header::bytes_unit() + crate::text::join(specs, ',')
}

/// The specification of the bytes from `first` to `last`.
pub open spec fn closed_spec(first: nat, last: nat) -> Seq<char> {
    crate::text::decimal(first).push('-') + crate::text::decimal(last)
}

/// The specification of the bytes from `first` on.
pub open spec fn open_spec(first: nat) -> Seq<char> {
    crate::text::decimal(first).push('-')
}

/// The specification of the last `length` bytes.
pub open spec fn suffix_spec(length: nat) -> Seq<char> {
    seq!['-'] + crate::text::decimal(length)
}

/// The reply with one range of a body of `size` bytes.
pub open spec fn one_range(range: ByteRange, size: u64) -> Reply {
    if range.spec_len() == size {
        Reply::Full
    } else {
        Reply::Part(range)
    }
}

/// Whether `text` neither begins nor ends with white space.
pub open spec fn is_tight(text: Seq<char>) -> bool {
    text.len() > 0 ==> !crate::text::is_white_space(text[0]) && !crate::text::is_white_space(
        text.last(),
    )
}

/// A request is made of its specifications.
pub(crate) proof fn lemma_request(specs: Seq<Seq<char>>)
    requires
        specs.len() > 0,
        forall|i: int| 0 <= i < specs.len() ==> !(#[trigger] specs[i]).contains(','),
    ensures
        crate::header::specifications(request(specs)) == specs,
        crate::text::starts_with(request(specs), crate::header::bytes_unit()),
        specs.len() == 1 ==> crate::selection::elements(request(specs)) == specs,
        (forall|i: int| 0 <= i < specs.len() ==> is_tight(#[trigger] specs[i]))
            ==> crate::selection::elements(request(specs)) == specs,
{
    reveal_strlit("bytes=");
    let joined = crate::text::join(specs, ',');
    assert(request(specs).skip(6) =~= joined);
    assert(request(specs).take(6) =~= crate::header::bytes_unit());
    crate::text::lemma_split_join(specs, ',');
    let list = crate::selection::elements(request(specs));
    if specs.len() == 1 {
        assert(list =~= specs);
    }
    if forall|i: int| 0 <= i < specs.len() ==> is_tight(#[trigger] specs[i]) {
        assert forall|i: int| 0 <= i < specs.len() implies #[trigger] list[i] == specs[i] by {
            assert(is_tight(specs[i]));
        }
        assert(list =~= specs);
    }
}

/// Decimal text holds no separator.
proof fn lemma_decimal_plain(n: nat)
    ensures
        crate::text::decimal(n).len() > 0,
        !crate::text::decimal(n).contains('-'),
        !crate::text::decimal(n).contains('/'),
        !crate::text::decimal(n).contains(','),
        crate::text::before(crate::text::decimal(n), '/') == crate::text::decimal(n),
{
    let d = crate::text::decimal(n);
    crate::text::lemma_decimal_digits(n);
    assert forall|i: int| 0 <= i < d.len() implies crate::text::is_digit(#[trigger] d[i]) by {}
    crate::text::lemma_split_whole(d, '/');
}

/// The pieces of a specification with one dash.
pub(crate) proof fn lemma_two_pieces(first: Seq<char>, last: Seq<char>)
    requires
        !first.contains('-'),
        !last.contains('-'),
    ensures
        crate::text::split(first.push('-') + last, '-') == seq![first, last],
{
    crate::text::lemma_split_whole(first, '-');
    crate::text::lemma_split_append(first, last, '-');
    assert(seq![first].push(last) =~= seq![first, last]);
}

/// The reply to a single specification.
proof fn lemma_single_specification(spec: Seq<char>, size: u64, block_len: u64)
    requires
        !spec.contains(','),
        spec.contains('-'),
        size > 0,
        block_len > 0,
    ensures
        ({
            let reply = crate::respond::reply(Some(request(seq![spec])), size, block_len);
            match crate::header::requested(spec, size) {
                Some(range) => {
                    let block = crate::selection::first_block(range, block_len);
                    if crate::selection::is_long_suffix(spec, size) {
                        reply == Reply::Part(block)
                    } else {
                        reply == one_range(block, size)
                    }
                },
                None => reply == Reply::Unsatisfiable,
            }
        }),
{
    let specs = seq![spec];
    let header = request(specs);
    lemma_request(specs);
    let list = crate::selection::elements(header);
    assert(list[0] == spec);
    assert(specs.drop_last() =~= Seq::<Seq<char>>::empty());
    reveal_with_fuel(crate::selection::asked_ranges, 2);
    reveal_with_fuel(crate::selection::within_block, 2);
    reveal_with_fuel(crate::selection::total_len, 2);
    assert(crate::text::split(spec, '-').len() != 1) by {
        crate::text::lemma_split_pieces(spec, '-');
        crate::text::lemma_join_split(spec, '-');
    }
    match crate::header::requested(spec, size) {
        Some(range) => {
            let asked = seq![range];
            assert(crate::selection::asked_ranges(specs, size) =~= asked);
            assert(asked.drop_last() =~= Seq::<ByteRange>::empty());
            assert(crate::selection::within_block(asked, block_len) =~= seq![
                crate::selection::first_block(range, block_len),
            ]);
            assert(crate::selection::has_long_suffix(header, size)
                == crate::selection::is_long_suffix(spec, size));
        },
        None => {},
    }
}

/// A request for the bytes from `first` to `last` is answered with them: the range ends with the
/// body where `last` lies beyond it, and no more than its first block is sent. It cannot be
/// satisfied where `last` comes before `first`, or where `first` lies beyond the body.
pub proof fn law_closed_range(first: u64, last: u64, size: u64, block_len: u64)
    requires
        size > 0,
        block_len > 0,
    ensures
        crate::respond::reply(
            Some(request(seq![closed_spec(first as nat, last as nat)])),
            size,
            block_len,
        ) == if first > last || first >= size {
            Reply::Unsatisfiable
        } else {
            one_range(
                crate::selection::first_block(
                    ByteRange {
                        start: first,
                        end_exclusive: if last < size {
                            (last + 1) as u64
                        } else {
                            size
                        },
                    },
                    block_len,
                ),
                size,
            )
        },
{
    let a = crate::text::decimal(first as nat);
    let b = crate::text::decimal(last as nat);
    let spec = closed_spec(first as nat, last as nat);
    lemma_decimal_plain(first as nat);
    lemma_decimal_plain(last as nat);
    lemma_two_pieces(a, b);
    crate::text::law_number_reads_decimal(first as nat, u64::MAX as nat);
    crate::text::law_number_reads_decimal(last as nat, u64::MAX as nat);
    lemma_not_joined(a, b, ',');
    assert(spec[a.len() as int] == '-');
    lemma_single_specification(spec, size, block_len);
}

/// A request for the bytes from `first` on is answered with the rest of the body, and no more than
/// its first block is sent. It cannot be satisfied where `first` lies beyond the body.
pub proof fn law_open_range(first: u64, size: u64, block_len: u64)
    requires
        size > 0,
        block_len > 0,
    ensures
        crate::respond::reply(Some(request(seq![open_spec(first as nat)])), size, block_len)
            == if first >= size {
            Reply::Unsatisfiable
        } else {
            one_range(
                crate::selection::first_block(
                    ByteRange { start: first, end_exclusive: size },
                    block_len,
                ),
                size,
            )
        },
{
    let a = crate::text::decimal(first as nat);
    let spec = open_spec(first as nat);
    let none = Seq::<char>::empty();
    assert(spec =~= a.push('-') + none);
    lemma_decimal_plain(first as nat);
    lemma_two_pieces(a, none);
    crate::text::law_number_reads_decimal(first as nat, u64::MAX as nat);
    lemma_not_joined(a, none, ',');
    assert(spec[a.len() as int] == '-');
    lemma_single_specification(spec, size, block_len);
}

/// A request for the last `length` bytes is answered with them, and no more than their first block
/// is sent. Where the body is shorter it is answered with all of the body, or the first block of
/// it. The last zero bytes cannot be had.
pub proof fn law_suffix_range(length: u64, size: u64, block_len: u64)
    requires
        size > 0,
        block_len > 0,
    ensures
        crate::respond::reply(Some(request(seq![suffix_spec(length as nat)])), size, block_len)
            == if length == 0 {
            Reply::Unsatisfiable
        } else if length > size {
            Reply::Part(
                crate::selection::first_block(
                    ByteRange { start: 0, end_exclusive: size },
                    block_len,
                ),
            )
        } else {
            one_range(
                crate::selection::first_block(
                    ByteRange { start: (size - length) as u64, end_exclusive: size },
                    block_len,
                ),
                size,
            )
        },
{
    let n = crate::text::decimal(length as nat);
    let spec = suffix_spec(length as nat);
    let none = Seq::<char>::empty();
    assert(spec =~= none.push('-') + n);
    lemma_decimal_plain(length as nat);
    lemma_two_pieces(none, n);
    crate::text::law_number_reads_decimal(length as nat, u64::MAX as nat);
    lemma_not_joined(none, n, ',');
    assert(spec[0] == '-');
    lemma_single_specification(spec, size, block_len);
}

/// The last `length` bytes of a body can be asked for by their number or by the position of the
/// first of them.
pub proof fn law_suffix_is_open_range(length: u64, size: u64, block_len: u64)
    requires
        0 < length <= size,
        block_len > 0,
    ensures
        crate::respond::reply(Some(request(seq![suffix_spec(length as nat)])), size, block_len)
            == crate::respond::reply(
            Some(request(seq![open_spec((size - length) as nat)])),
            size,
            block_len,
        ),
{
    law_suffix_range(length, size, block_len);
    law_open_range((size - length) as u64, size, block_len);
}

/// A last position beyond the body is as good as none.
pub proof fn law_end_beyond_body_is_open(first: u64, last: u64, size: u64, block_len: u64)
    requires
        size > 0,
        block_len > 0,
        first <= last,
        last >= size - 1,
    ensures
        crate::respond::reply(
            Some(request(seq![closed_spec(first as nat, last as nat)])),
            size,
            block_len,
        ) == crate::respond::reply(
            Some(request(seq![open_spec(first as nat)])),
            size,
            block_len,
        ),
{
    law_closed_range(first, last, size, block_len);
    law_open_range(first, size, block_len);
}

/// Two texts without a character hold none of it when a dash joins them.
proof fn lemma_not_joined(first: Seq<char>, last: Seq<char>, c: char)
    requires
        c != '-',
        !first.contains(c),
        !last.contains(c),
    ensures
        !(first.push('-') + last).contains(c),
{
    let s = first.push('-') + last;
    assert forall|i: int| 0 <= i < s.len() implies s[i] != c by {
        if i < first.len() {
            assert(first[i] == s[i]);
        } else if i > first.len() {
            assert(last[i - first.len() - 1] == s[i]);
        }
    }
}

/// The reply depends on no more of a header than what its elements ask for.
proof fn lemma_same_reply(a: Seq<char>, b: Seq<char>, size: u64, block_len: u64)
    requires
        ({
            let la = crate::selection::elements(a);
            let lb = crate::selection::elements(b);
            &&& crate::selection::all_readable(la, size) == crate::selection::all_readable(lb, size)
            &&& crate::selection::some_open_ended(la, size) == crate::selection::some_open_ended(
                lb,
                size,
            )
            &&& crate::selection::asked_ranges(la, size) == crate::selection::asked_ranges(lb, size)
        }),
        crate::selection::has_long_suffix(a, size) == crate::selection::has_long_suffix(b, size),
    ensures
        crate::respond::reply(Some(a), size, block_len) == crate::respond::reply(
            Some(b),
            size,
            block_len,
        ),
{
}

/// A well-formed specification that starts at or behind the end of the body is left out of the
/// request, and so is an empty one.
pub proof fn law_unsatisfiable_specification_is_left_out(
    specs: Seq<Seq<char>>,
    i: int,
    size: u64,
    block_len: u64,
)
    requires
        specs.len() > 1,
        0 <= i < specs.len(),
        forall|j: int|
            0 <= j < specs.len() ==> !(#[trigger] specs[j]).contains(',') && is_tight(specs[j]),
        specs[i].len() == 0 || crate::selection::starts_behind(specs[i], size),
    ensures
        crate::respond::reply(Some(request(specs)), size, block_len) == crate::respond::reply(
            Some(request(specs.remove(i))),
            size,
            block_len,
        ),
{
    let rest = specs.remove(i);
    assert forall|j: int| 0 <= j < rest.len() implies !(#[trigger] rest[j]).contains(',')
        && is_tight(rest[j]) by {
        assert(rest[j] == specs[if j < i { j } else { j + 1 }]);
    }
    lemma_request(specs);
    lemma_request(rest);
    assert(!crate::selection::has_own_range(specs[i], size));
    assert(!crate::selection::is_long_suffix(specs[i], size));
    assert(crate::selection::is_readable(specs[i], size));
    lemma_asked_without(specs, i, size);
    assert(crate::selection::all_readable(specs, size) == crate::selection::all_readable(
        rest,
        size,
    )) by {
        if crate::selection::all_readable(rest, size) {
            assert forall|j: int| 0 <= j < specs.len() implies crate::selection::is_readable(
                #[trigger] specs[j],
                size,
            ) by {
                if j != i {
                    assert(crate::selection::is_readable(rest[if j < i { j } else { j - 1 }], size));
                }
            }
        }
        if crate::selection::all_readable(specs, size) {
            assert forall|j: int| 0 <= j < rest.len() implies crate::selection::is_readable(
                #[trigger] rest[j],
                size,
            ) by {
                assert(rest[j] == specs[if j < i { j } else { j + 1 }]);
            }
        }
    }
    assert(crate::selection::some_open_ended(specs, size) == crate::selection::some_open_ended(
        rest,
        size,
    )) by {
        if crate::selection::some_open_ended(specs, size) {
            let j = choose|j: int|
                0 <= j < specs.len() && crate::selection::is_open_ended(#[trigger] specs[j])
                    && crate::selection::has_own_range(specs[j], size);
            assert(rest[if j < i { j } else { j - 1 }] == specs[j]);
        }
        if crate::selection::some_open_ended(rest, size) {
            let j = choose|j: int|
                0 <= j < rest.len() && crate::selection::is_open_ended(#[trigger] rest[j])
                    && crate::selection::has_own_range(rest[j], size);
            assert(specs[if j < i { j } else { j + 1 }] == rest[j]);
        }
    }
    assert(crate::selection::has_long_suffix(request(specs), size)
        == crate::selection::has_long_suffix(request(rest), size)) by {
        if crate::selection::has_long_suffix(request(specs), size) {
            let j = choose|j: int|
                0 <= j < specs.len() && crate::selection::is_long_suffix(#[trigger] specs[j], size);
            assert(rest[if j < i { j } else { j - 1 }] == specs[j]);
        }
        if crate::selection::has_long_suffix(request(rest), size) {
            let j = choose|j: int|
                0 <= j < rest.len() && crate::selection::is_long_suffix(#[trigger] rest[j], size);
            assert(specs[if j < i { j } else { j + 1 }] == rest[j]);
        }
    }
    lemma_same_reply(request(specs), request(rest), size, block_len);
}

/// An element without a range of its own adds nothing to what a list asks for.
proof fn lemma_asked_without(list: Seq<Seq<char>>, i: int, size: u64)
    requires
        0 <= i < list.len(),
        !crate::selection::has_own_range(list[i], size),
    ensures
        crate::selection::asked_ranges(list.remove(i), size) == crate::selection::asked_ranges(
            list,
            size,
        ),
    decreases list.len(),
{
    let rest = list.remove(i);
    if i == list.len() - 1 {
        assert(rest =~= list.drop_last());
    } else {
        assert(rest.drop_last() =~= list.drop_last().remove(i));
        assert(rest.last() == list.last());
        lemma_asked_without(list.drop_last(), i, size);
    }
}

/// A request cannot be satisfied exactly where one of its elements makes no sense, or none of them
/// asks for a range of the body.
pub proof fn law_unsatisfiable(header: Seq<char>, size: u64, block_len: u64)
    requires
        size > 0,
        block_len > 0,
    ensures
        crate::respond::reply(Some(header), size, block_len) == Reply::Unsatisfiable <==> {
            let list = crate::selection::elements(header);
            ||| exists|i: int|
                0 <= i < list.len() && !crate::selection::is_readable(#[trigger] list[i], size)
            ||| forall|i: int|
                0 <= i < list.len() ==> !crate::selection::has_own_range(#[trigger] list[i], size)
        },
{
    let list = crate::selection::elements(header);
    let asked = crate::selection::asked_ranges(list, size);
    lemma_asked_nonempty(list, size);
    crate::selection::lemma_within_block(asked, block_len);
    lemma_asked_none(list, size);
}

/// Every range that a list asks for holds a byte.
pub(crate) proof fn lemma_asked_nonempty(list: Seq<Seq<char>>, size: u64)
    requires
        size > 0,
    ensures
        crate::coalesce::all_nonempty(crate::selection::asked_ranges(list, size)),
{
    let asked = crate::selection::asked_ranges(list, size);
    crate::selection::lemma_asked_within(list, size);
    assert forall|i: int| 0 <= i < asked.len() implies (#[trigger] asked[i]).start
        < asked[i].end_exclusive by {
        assert(asked[i].within(size as int));
    }
}

/// A list asks for nothing exactly where no element has a range of its own.
proof fn lemma_asked_none(list: Seq<Seq<char>>, size: u64)
    ensures
        crate::selection::asked_ranges(list, size).len() == 0 <==> forall|i: int|
            0 <= i < list.len() ==> !crate::selection::has_own_range(#[trigger] list[i], size),
    decreases list.len(),
{
    if list.len() > 0 {
        let front = list.drop_last();
        lemma_asked_none(front, size);
        assert(list.last() == list[list.len() - 1]);
        assert forall|i: int| 0 <= i < front.len() implies #[trigger] front[i] == list[i] by {}
        if crate::selection::asked_ranges(list, size).len() == 0 {
            assert forall|i: int| 0 <= i < list.len() implies !crate::selection::has_own_range(
                #[trigger] list[i],
                size,
            ) by {
                if i < front.len() {
                    assert(front[i] == list[i]);
                }
            }
        }
    }
}

/// A request with several specifications is answered with a part for each of them, in the order of
/// the request, where all of them together fit into a block.
pub proof fn law_parts_follow_the_request(specs: Seq<Seq<char>>, size: u64, block_len: u64)
    requires
        specs.len() > 1,
        size > 0,
        forall|i: int|
            0 <= i < specs.len() ==> {
                let spec = #[trigger] specs[i];
                &&& !spec.contains(',')
                &&& is_tight(spec)
                &&& crate::selection::has_own_range(spec, size)
            },
        crate::selection::total_len(requested_ranges(specs, size)) <= block_len,
    ensures
        crate::respond::reply(Some(request(specs)), size, block_len) == Reply::Parts(
            requested_ranges(specs, size),
        ),
{
    lemma_request(specs);
    lemma_all_own_ranges(specs, size);
    let asked = requested_ranges(specs, size);
    lemma_asked_nonempty(specs, size);
    crate::selection::lemma_within_block(asked, block_len);
    assert(crate::selection::total_len(asked) > 0) by {
        lemma_total_positive(asked);
    }
}

/// What each of `specs` asks for.
pub open spec fn requested_ranges(specs: Seq<Seq<char>>, size: u64) -> Seq<ByteRange> {
    Seq::new(specs.len(), |i: int| crate::header::requested(specs[i], size)->Some_0)
}

/// Ranges that hold bytes hold some together.
proof fn lemma_total_positive(ranges: Seq<ByteRange>)
    requires
        crate::coalesce::all_nonempty(ranges),
    ensures
        crate::selection::total_len(ranges) >= ranges.len(),
    decreases ranges.len(),
{
    if ranges.len() > 0 {
        let front = ranges.drop_last();
        assert forall|i: int| 0 <= i < front.len() implies (#[trigger] front[i]).start
            < front[i].end_exclusive by {
            assert(front[i] == ranges[i]);
        }
        lemma_total_positive(front);
        assert(ranges.last() == ranges[ranges.len() - 1]);
    }
}

/// What a list asks for where every element has a range of its own.
proof fn lemma_all_own_ranges(specs: Seq<Seq<char>>, size: u64)
    requires
        forall|i: int|
            0 <= i < specs.len() ==> crate::selection::has_own_range(#[trigger] specs[i], size),
    ensures
        crate::selection::asked_ranges(specs, size) == requested_ranges(specs, size),
    decreases specs.len(),
{
    if specs.len() > 0 {
        let front = specs.drop_last();
        assert forall|i: int| 0 <= i < front.len() implies crate::selection::has_own_range(
            #[trigger] front[i],
            size,
        ) by {
            assert(front[i] == specs[i]);
        }
        lemma_all_own_ranges(front, size);
        assert(specs.last() == specs[specs.len() - 1]);
    }
    assert(crate::selection::asked_ranges(specs, size) =~= requested_ranges(specs, size));
}

/// What is sent lies in the body, holds at least one byte of it, and all of it together is no more
/// than a block.
pub proof fn law_served_ranges(header: Option<Seq<char>>, size: u64, block_len: u64)
    requires
        block_len > 0,
    ensures
        match crate::respond::reply(header, size, block_len) {
            Reply::Unsatisfiable => true,
            Reply::Full => 0 < size <= block_len,
            Reply::Part(range) => range.within(size as int) && range.spec_len() <= block_len,
            Reply::Parts(ranges) => {
                &&& ranges.len() > 1
                &&& crate::selection::total_len(ranges) <= block_len
                &&& forall|i: int|
                    0 <= i < ranges.len() ==> (#[trigger] ranges[i]).within(size as int)
            },
        },
{
    if size > 0 && header is Some {
        crate::respond::lemma_chosen_within(header->Some_0, size, block_len);
    }
}

/// Whether a reply sends the byte at `position` of a body of `size` bytes.
pub open spec fn sends(reply: Reply, size: u64, position: int) -> bool {
    match reply {
        Reply::Unsatisfiable => false,
        Reply::Full => 0 <= position < size,
        Reply::Part(range) => range.holds(position),
        Reply::Parts(ranges) => crate::coalesce::covers(ranges, position),
    }
}

/// No byte is sent that no element of the request asks for.
pub proof fn law_only_requested_bytes_are_sent(
    header: Seq<char>,
    size: u64,
    block_len: u64,
    position: int,
)
    requires
        sends(crate::respond::reply(Some(header), size, block_len), size, position),
    ensures
        exists|j: int|
            0 <= j < crate::selection::elements(header).len() && (crate::header::requested(
                #[trigger] crate::selection::elements(header)[j],
                size,
            ) matches Some(range) && range.holds(position)),
{
    let list = crate::selection::elements(header);
    let asked = crate::selection::asked_ranges(list, size);
    let held = crate::selection::within_block(asked, block_len);
    lemma_asked_nonempty(list, size);
    crate::selection::lemma_within_block(asked, block_len);
    crate::respond::lemma_chosen_within(header, size, block_len);
    if held.len() == 1 {
        assert(held[0].holds(position));
    }
    let i = choose|i: int| 0 <= i < held.len() && (#[trigger] held[i]).holds(position);
    assert(asked[i].holds(position));
    lemma_asked_by(list, size, i);
}

/// Every range that a list asks for is that of one of its elements.
proof fn lemma_asked_by(list: Seq<Seq<char>>, size: u64, i: int)
    requires
        0 <= i < crate::selection::asked_ranges(list, size).len(),
    ensures
        exists|j: int|
            0 <= j < list.len() && crate::header::requested(#[trigger] list[j], size) == Some(
                crate::selection::asked_ranges(list, size)[i],
            ),
    decreases list.len(),
{
    let front = list.drop_last();
    if i < crate::selection::asked_ranges(front, size).len() {
        lemma_asked_by(front, size, i);
        let j = choose|j: int|
            0 <= j < front.len() && crate::header::requested(#[trigger] front[j], size) == Some(
                crate::selection::asked_ranges(front, size)[i],
            );
        assert(front[j] == list[j]);
    } else {
        assert(list.last() == list[list.len() - 1]);
    }
}

/// Every byte that an element with a range of its own asks for is sent, where every element makes
/// sense and all that is asked for fits into a block.
pub proof fn law_all_requested_bytes_are_sent(
    header: Seq<char>,
    size: u64,
    block_len: u64,
    j: int,
    position: int,
)
    requires
        size > 0,
        crate::selection::all_readable(crate::selection::elements(header), size),
        crate::selection::total_len(
            crate::selection::asked_ranges(crate::selection::elements(header), size),
        ) <= block_len,
        0 <= j < crate::selection::elements(header).len(),
        crate::selection::has_own_range(crate::selection::elements(header)[j], size),
        (crate::header::requested(
            crate::selection::elements(header)[j],
            size,
        )->Some_0).holds(position),
    ensures
        sends(crate::respond::reply(Some(header), size, block_len), size, position),
{
    let list = crate::selection::elements(header);
    let asked = crate::selection::asked_ranges(list, size);
    lemma_asked_nonempty(list, size);
    lemma_total_positive(asked);
    crate::selection::lemma_within_block(asked, block_len);
    lemma_own_range_is_asked(list, size, j);
    let i = choose|i: int|
        0 <= i < asked.len() && #[trigger] asked[i] == crate::header::requested(
            list[j],
            size,
        )->Some_0;
    assert(asked[i].holds(position));
    crate::selection::lemma_asked_within(list, size);
    assert(asked[i].within(size as int));
}

/// The range of an element is among those that the list asks for.
proof fn lemma_own_range_is_asked(list: Seq<Seq<char>>, size: u64, j: int)
    requires
        0 <= j < list.len(),
        crate::selection::has_own_range(list[j], size),
    ensures
        exists|i: int|
            0 <= i < crate::selection::asked_ranges(list, size).len()
                && #[trigger] crate::selection::asked_ranges(list, size)[i]
                == crate::header::requested(list[j], size)->Some_0,
    decreases list.len(),
{
    let front = list.drop_last();
    let asked = crate::selection::asked_ranges(list, size);
    if j < front.len() {
        assert(front[j] == list[j]);
        lemma_own_range_is_asked(front, size, j);
        let before = crate::selection::asked_ranges(front, size);
        let i = choose|i: int|
            0 <= i < before.len() && #[trigger] before[i] == crate::header::requested(
                front[j],
                size,
            )->Some_0;
        assert(asked[i] == before[i]);
    } else {
        assert(list.last() == list[j]);
        assert(asked[asked.len() - 1] == crate::header::requested(list[j], size)->Some_0);
    }
}

/// Whether `text` holds nothing but white space.
pub open spec fn is_blank(text: Seq<char>) -> bool {
    forall|i: int| 0 <= i < text.len() ==> crate::text::is_white_space(#[trigger] text[i])
}

/// White space in front is trimmed away.
pub(crate) proof fn lemma_trim_start(blank: Seq<char>, text: Seq<char>)
    requires
        is_blank(blank),
        text.len() > 0 ==> !crate::text::is_white_space(text[0]),
    ensures
        crate::text::trim_start(blank + text) == text,
    decreases blank.len(),
{
    let s = blank + text;
    if blank.len() > 0 {
        assert(s[0] == blank[0]);
        assert(s.skip(1) =~= blank.skip(1) + text);
        lemma_trim_start(blank.skip(1), text);
    } else {
        assert(s =~= text);
    }
}

/// White space behind a text is trimmed away.
pub(crate) proof fn lemma_trim_end(text: Seq<char>, blank: Seq<char>)
    requires
        is_blank(blank),
        text.len() > 0 ==> !crate::text::is_white_space(text.last()),
    ensures
        crate::text::trim_end(text + blank) == text,
    decreases blank.len(),
{
    let s = text + blank;
    if blank.len() > 0 {
        assert(s.last() == blank[blank.len() - 1]);
        assert(s.drop_last() =~= text + blank.drop_last());
        lemma_trim_end(text, blank.drop_last());
    } else {
        assert(s =~= text);
    }
}

/// White space beside the commas of a request has no effect.
pub proof fn law_white_space_beside_commas_has_no_effect(
    specs: Seq<Seq<char>>,
    before: Seq<Seq<char>>,
    behind: Seq<Seq<char>>,
    size: u64,
    block_len: u64,
)
    requires
        specs.len() > 0,
        before.len() == specs.len(),
        behind.len() == specs.len(),
        before[0].len() == 0,
        behind[specs.len() - 1].len() == 0,
        forall|i: int|
            0 <= i < specs.len() ==> {
                &&& !(#[trigger] specs[i]).contains(',')
                &&& is_tight(specs[i])
                &&& is_blank(before[i])
                &&& is_blank(behind[i])
            },
    ensures
        crate::respond::reply(
            Some(request(Seq::new(specs.len(), |i: int| before[i] + specs[i] + behind[i]))),
            size,
            block_len,
        ) == crate::respond::reply(Some(request(specs)), size, block_len),
{
    let n = specs.len() as int;
    let padded = Seq::new(specs.len(), |i: int| before[i] + specs[i] + behind[i]);
    assert forall|i: int| 0 <= i < n implies !(#[trigger] padded[i]).contains(',')
        && crate::selection::stripped(padded[i], i > 0, i < n - 1) == specs[i] by {
        let (l, s, r) = (before[i], specs[i], behind[i]);
        assert(!s.contains(',') && is_tight(s) && is_blank(l) && is_blank(r));
        assert forall|k: int| 0 <= k < padded[i].len() implies padded[i][k] != ',' by {
            if k < l.len() {
                assert(padded[i][k] == l[k]);
            } else if k < l.len() + s.len() {
                assert(padded[i][k] == s[k - l.len()]);
            } else {
                assert(padded[i][k] == r[k - l.len() - s.len()]);
            }
        }
        assert(l + s + r =~= l + (s + r));
        if s.len() > 0 {
            lemma_trim_start(l, s + r);
            lemma_trim_end(s, r);
            assert((s + r)[0] == s[0]);
        } else {
            let all = l + r;
            assert(padded[i] =~= all);
            assert(is_blank(all)) by {
                assert forall|k: int| 0 <= k < all.len() implies crate::text::is_white_space(
                    #[trigger] all[k],
                ) by {
                    if k >= l.len() {
                        assert(all[k] == r[k - l.len()]);
                    }
                }
            }
            assert(all + s =~= all);
            assert(s + all =~= all);
            lemma_trim_start(all, s);
            lemma_trim_end(s, all);
            lemma_trim_end(s, s);
            assert(s + s =~= s);
        }
        if i == 0 {
            assert(l + (s + r) =~= s + r);
        }
        if i == n - 1 {
            assert(s + r =~= s);
        }
    }
    lemma_request(padded);
    lemma_request(specs);
    assert(crate::selection::elements(request(padded)) =~= specs);
    lemma_same_reply(request(padded), request(specs), size, block_len);
}

/// Whether two elements ask for the same.
spec fn alike(a: Seq<char>, b: Seq<char>, size: u64) -> bool {
    &&& crate::header::requested(a, size) == crate::header::requested(b, size)
    &&& crate::selection::is_readable(a, size) == crate::selection::is_readable(b, size)
    &&& crate::selection::has_own_range(a, size) == crate::selection::has_own_range(b, size)
    &&& crate::selection::is_open_ended(a) == crate::selection::is_open_ended(b)
    &&& crate::selection::is_long_suffix(a, size) == crate::selection::is_long_suffix(b, size)
}

/// Lists whose elements ask for the same ask for the same.
proof fn lemma_alike(a: Seq<Seq<char>>, b: Seq<Seq<char>>, size: u64)
    requires
        a.len() == b.len(),
        forall|i: int| 0 <= i < a.len() ==> alike(#[trigger] a[i], b[i], size),
    ensures
        crate::selection::asked_ranges(a, size) == crate::selection::asked_ranges(b, size),
    decreases a.len(),
{
    if a.len() > 0 {
        let fa = a.drop_last();
        let fb = b.drop_last();
        assert forall|i: int| 0 <= i < fa.len() implies alike(#[trigger] fa[i], fb[i], size) by {
            assert(alike(a[i], b[i], size));
        }
        lemma_alike(fa, fb, size);
        assert(alike(a[a.len() - 1], b[b.len() - 1], size));
    }
}

/// Lists whose elements ask for the same have the same kinds among them.
proof fn lemma_alike_kinds(a: Seq<Seq<char>>, b: Seq<Seq<char>>, size: u64)
    requires
        a.len() == b.len(),
        forall|i: int| 0 <= i < a.len() ==> alike(#[trigger] a[i], b[i], size),
    ensures
        crate::selection::all_readable(b, size) ==> crate::selection::all_readable(a, size),
        crate::selection::some_open_ended(a, size) ==> crate::selection::some_open_ended(b, size),
        (exists|i: int| 0 <= i < a.len() && crate::selection::is_long_suffix(#[trigger] a[i], size))
            ==> (exists|i: int|
            0 <= i < b.len() && crate::selection::is_long_suffix(#[trigger] b[i], size)),
{
    if crate::selection::all_readable(b, size) {
        assert forall|i: int| 0 <= i < a.len() implies crate::selection::is_readable(
            #[trigger] a[i],
            size,
        ) by {
            assert(alike(a[i], b[i], size));
            assert(crate::selection::is_readable(b[i], size));
        }
    }
    if crate::selection::some_open_ended(a, size) {
        let i = choose|i: int|
            0 <= i < a.len() && crate::selection::is_open_ended(#[trigger] a[i])
                && crate::selection::has_own_range(a[i], size);
        assert(alike(a[i], b[i], size));
        assert(crate::selection::is_open_ended(b[i]));
    }
    if exists|i: int| 0 <= i < a.len() && crate::selection::is_long_suffix(#[trigger] a[i], size) {
        let i = choose|i: int|
            0 <= i < a.len() && crate::selection::is_long_suffix(#[trigger] a[i], size);
        assert(alike(a[i], b[i], size));
        assert(crate::selection::is_long_suffix(b[i], size));
    }
}

/// Trimming a text with a slash in it leaves the slash.
proof fn lemma_trim_end_slash(front: Seq<char>, rest: Seq<char>)
    ensures
        crate::text::trim_end(front.push('/') + rest) == front.push('/') + crate::text::trim_end(
            rest,
        ),
        crate::text::trim_end(rest).len() <= rest.len(),
        forall|i: int|
            0 <= i < crate::text::trim_end(rest).len() ==> #[trigger] crate::text::trim_end(rest)[i]
                == rest[i],
    decreases rest.len(),
{
    let s = front.push('/') + rest;
    if rest.len() > 0 {
        assert(s.last() == rest.last());
        assert(s.drop_last() =~= front.push('/') + rest.drop_last());
        lemma_trim_end_slash(front, rest.drop_last());
    } else {
        assert(s =~= front.push('/'));
        assert(front.push('/') + rest =~= s);
    }
}

/// A total length behind a range or a suffix has no effect, whatever it is.
pub proof fn law_total_length_has_no_effect(
    specs: Seq<Seq<char>>,
    i: int,
    first: Seq<char>,
    last: Seq<char>,
    length: Seq<char>,
    size: u64,
    block_len: u64,
)
    requires
        forall|j: int|
            0 <= j < specs.len() ==> !(#[trigger] specs[j]).contains(',') && is_tight(specs[j]),
        0 <= i < specs.len(),
        specs[i] == first.push('-') + last,
        !first.contains('-'),
        !last.contains('-'),
        !last.contains('/'),
        last.len() > 0,
        !length.contains('-'),
        !length.contains(','),
    ensures
        crate::respond::reply(
            Some(request(specs.update(i, specs[i].push('/') + length))),
            size,
            block_len,
        ) == crate::respond::reply(Some(request(specs)), size, block_len),
{
    let plain = specs[i];
    let marked = plain.push('/') + length;
    let others = specs.update(i, marked);
    assert forall|k: int| 0 <= k < marked.len() implies marked[k] != ',' by {
        if k < plain.len() {
            assert(marked[k] == plain[k]);
            assert(!specs[i].contains(','));
        } else if k > plain.len() {
            assert(marked[k] == length[k - plain.len() - 1]);
        }
    }
    assert forall|j: int| 0 <= j < others.len() implies !(#[trigger] others[j]).contains(',') by {
        if j != i {
            assert(others[j] == specs[j]);
        }
    }
    lemma_request(specs);
    lemma_request(others);
    let list = crate::selection::elements(request(others));
    let trimmed = crate::text::trim_end(length);
    lemma_trim_end_slash(plain, length);
    assert(is_tight(plain));
    assert(marked[0] == plain[0]);
    lemma_marked(first, last, length, size);
    assert forall|k: int| 0 <= k < trimmed.len() implies trimmed[k] != '-' by {
        assert(length[k] == trimmed[k]);
    }
    lemma_marked(first, last, trimmed, size);
    assert forall|j: int| 0 <= j < list.len() implies alike(#[trigger] list[j], specs[j], size) by {
        assert(is_tight(specs[j]));
        if j != i {
            assert(list[j] == specs[j]);
        }
    }
    assert forall|j: int| 0 <= j < list.len() implies alike(#[trigger] specs[j], list[j], size) by {
        assert(alike(list[j], specs[j], size));
    }
    lemma_alike(list, specs, size);
    lemma_alike_kinds(list, specs, size);
    lemma_alike_kinds(specs, list, size);
    lemma_same_reply(request(others), request(specs), size, block_len);
}

/// A specification asks for the same with a total length behind it.
proof fn lemma_marked(first: Seq<char>, last: Seq<char>, length: Seq<char>, size: u64)
    requires
        !first.contains('-'),
        !last.contains('-'),
        !last.contains('/'),
        last.len() > 0,
        !length.contains('-'),
    ensures
        alike((first.push('-') + last).push('/') + length, first.push('-') + last, size),
{
    let plain = first.push('-') + last;
    let marked = plain.push('/') + length;
    let end = last.push('/') + length;
    assert(marked =~= first.push('-') + end);
    assert forall|k: int| 0 <= k < end.len() implies end[k] != '-' by {
        if k < last.len() {
            assert(end[k] == last[k]);
        } else if k > last.len() {
            assert(end[k] == length[k - last.len() - 1]);
        }
    }
    lemma_two_pieces(first, last);
    lemma_two_pieces(first, end);
    crate::text::lemma_split_whole(last, '/');
    crate::text::lemma_before(last, length, '/');
}

/// Whether a stream can come to its end having handed out `sent`, from a body with the bytes
/// `data`.
pub open spec fn ranged_stream_delivers<B>(
    stream: RangedStream<B>,
    data: Seq<u8>,
    sent: Seq<u8>,
) -> bool {
    &&& stream.spec_state() matches StreamState::Seek { start }
    &&& exists|events: Seq<StreamEvent>, last: StreamEvent|
        {
            let length = stream.spec_length();
            let all = #[trigger] events.push(last);
            &&& crate::stream::all_from_body(start, length, all, data)
            &&& crate::stream::stream_step(
                crate::stream::session_after(start, length, events, data).state,
                length,
                last,
            ).1 == StreamAction::Finish
            &&& crate::stream::session_after(start, length, all, data).sent == sent
        }
}

/// Whether a multipart stream can come to its end having handed out `sent`, from a body with the
/// bytes `data`.
pub open spec fn multipart_stream_delivers<B>(
    stream: MultipartStream<B>,
    data: Seq<u8>,
    sent: Seq<u8>,
) -> bool {
    exists|events: Seq<StreamEvent>, last: StreamEvent|
        {
            &&& crate::multipart::all_from_body(stream.progress(), events, data)
            &&& (#[trigger] crate::multipart::session_after(
                stream.progress(),
                events,
                data,
            ).progress.step(last)).1 == crate::multipart::Step::Finish
            &&& crate::multipart::session_after(stream.progress(), events, data).sent == sent
        }
}

/// Whether the body of a response can come to its end having handed out `sent`.
pub open spec fn delivers<B>(body: ResponseBody<B>, data: Seq<u8>, sent: Seq<u8>) -> bool {
    match body {
        ResponseBody::Empty => sent.len() == 0,
        ResponseBody::Ranged(stream) => ranged_stream_delivers(stream, data, sent),
        ResponseBody::Multipart(stream) => multipart_stream_delivers(stream, data, sent),
    }
}

/// The bytes that a reply for a body of `size` bytes consists of, where the body has the bytes
/// `data`. What the body does not have after all is missing.
pub open spec fn content(
    reply: Reply,
    size: u64,
    data: Seq<u8>,
    media_type: Seq<char>,
    separator: Seq<char>,
) -> Seq<u8> {
    match reply {
        Reply::Unsatisfiable => Seq::empty(),
        Reply::Full => crate::stream::available(data, 0, size as int),
        Reply::Part(range) => crate::multipart::slice(data, range),
        Reply::Parts(ranges) => crate::multipart::document(
            ranges,
            size,
            separator,
            media_type,
            data,
        ),
    }
}

/// Whatever the body does, a response that comes to its end has delivered the bytes that the
/// request is answered with, and nothing else.
pub proof fn law_response_delivers_its_content<B>(
    header: Option<Seq<char>>,
    size: u64,
    block_len: u64,
    body: B,
    media_type: Option<String>,
    separator: Seq<char>,
    result: Result<RangedResponse<B>, RangeNotSatisfiable>,
    response: Response<B>,
    data: Seq<u8>,
    sent: Seq<u8>,
)
    requires
        block_len > 0,
        crate::respond::gives(
            result,
            crate::respond::reply(header, size, block_len),
            body,
            size,
            media_type,
            separator,
        ),
        crate::response::responds(response, result),
        delivers(response.body, data, sent),
    ensures
        sent == content(
            crate::respond::reply(header, size, block_len),
            size,
            data,
            crate::multipart::media_type_or_default(media_type),
            separator,
        ),
{
    let reply = crate::respond::reply(header, size, block_len);
    law_served_ranges(header, size, block_len);
    match response.body {
        ResponseBody::Empty => {
            assert(sent =~= Seq::<u8>::empty());
        },
        ResponseBody::Ranged(stream) => {
            let start = stream.spec_state()->start;
            let length = stream.spec_length();
            let (events, last) = choose|events: Seq<StreamEvent>, last: StreamEvent|
                {
                    let all = #[trigger] events.push(last);
                    &&& crate::stream::all_from_body(start, length, all, data)
                    &&& crate::stream::stream_step(
                        crate::stream::session_after(start, length, events, data).state,
                        length,
                        last,
                    ).1 == StreamAction::Finish
                    &&& crate::stream::session_after(start, length, all, data).sent == sent
                };
            crate::stream::law_finished_stream_sent_its_range(start, length, events, last, data);
        },
        ResponseBody::Multipart(stream) => {
            let (events, last) = choose|events: Seq<StreamEvent>, last: StreamEvent|
                {
                    &&& crate::multipart::all_from_body(stream.progress(), events, data)
                    &&& (#[trigger] crate::multipart::session_after(
                        stream.progress(),
                        events,
                        data,
                    ).progress.step(last)).1 == crate::multipart::Step::Finish
                    &&& crate::multipart::session_after(stream.progress(), events, data).sent
                        == sent
                };
            crate::multipart::law_finished_multipart_sent_its_document(
                reply->Parts_0,
                size,
                separator,
                crate::multipart::media_type_or_default(media_type),
                events,
                last,
                data,
            );
        },
    }
}

/// The `Content-Length` of a response with all of a body, or with several ranges of it, is the
/// number of bytes that it delivers, where the body is as long as it should be.
pub proof fn law_content_length_is_delivered<B>(
    header: Option<Seq<char>>,
    size: u64,
    block_len: u64,
    body: B,
    media_type: Option<String>,
    separator: Seq<char>,
    result: Result<RangedResponse<B>, RangeNotSatisfiable>,
    response: Response<B>,
    data: Seq<u8>,
    sent: Seq<u8>,
)
    requires
        block_len > 0,
        data.len() == size,
        ({
            let reply = crate::respond::reply(header, size, block_len);
            &&& reply is Full || reply is Parts
            &&& crate::respond::gives(result, reply, body, size, media_type, separator)
        }),
        crate::response::responds(response, result),
        delivers(response.body, data, sent),
        sent.len() <= u64::MAX,
    ensures
        crate::response::fields(response.headers@).contains(
            ("Content-Length"@, crate::text::decimal(sent.len())),
        ),
{
    let reply = crate::respond::reply(header, size, block_len);
    let given = crate::response::fields(response.headers@);
    law_served_ranges(header, size, block_len);
    law_response_delivers_its_content(
        header,
        size,
        block_len,
        body,
        media_type,
        separator,
        result,
        response,
        data,
        sent,
    );
    match reply {
        Reply::Parts(ranges) => {
            let p = crate::multipart::beginning(
                ranges,
                size,
                separator,
                crate::multipart::media_type_or_default(media_type),
            );
            assert forall|i: int| 0 <= i < ranges.len() implies (
            #[trigger] ranges[i]).start <= ranges[i].end_exclusive <= data.len()
                && ranges[i].end_exclusive > 0 by {
                assert(ranges[i].within(size as int));
            }
            crate::multipart::law_content_length_is_outstanding(p, data);
            assert(given[2] == ("Content-Length"@, crate::text::decimal(sent.len())));
        },
        _ => {
            assert(given[1] == ("Content-Length"@, crate::text::decimal(sent.len())));
        },
    }
}

/// A response is `200 OK` with all of a body, `206 Partial Content` with some of it, and
/// `416 Range Not Satisfiable` where the request cannot be satisfied.
pub proof fn law_status<B>(
    header: Option<Seq<char>>,
    size: u64,
    block_len: u64,
    body: B,
    media_type: Option<String>,
    separator: Seq<char>,
    result: Result<RangedResponse<B>, RangeNotSatisfiable>,
    response: Response<B>,
)
    requires
        block_len > 0,
        crate::respond::gives(
            result,
            crate::respond::reply(header, size, block_len),
            body,
            size,
            media_type,
            separator,
        ),
        crate::response::responds(response, result),
    ensures
        response.status == match crate::respond::reply(header, size, block_len) {
            Reply::Unsatisfiable => crate::response::RANGE_NOT_SATISFIABLE,
            Reply::Full => crate::response::OK,
            Reply::Part(_) => crate::response::PARTIAL_CONTENT,
            Reply::Parts(_) => crate::response::PARTIAL_CONTENT,
        },
{
    law_served_ranges(header, size, block_len);
}

/// A request header can be read as a set of ranges as it stands: it begins and ends with other
/// characters than white space and names no total length.
proof fn lemma_plain_set(spec: Seq<char>)
    requires
        spec.len() > 0,
        !crate::text::is_white_space(spec[0]),
        !crate::text::is_white_space(spec.last()),
        !spec.contains(','),
        !spec.contains('/'),
    ensures
        crate::header::range_set(request(seq![spec])) == match crate::header::element(spec) {
            Ok(crate::header::Element::Blank) => Err(
                crate::header::Refusal::InvalidRange(request(seq![spec])),
            ),
            Ok(crate::header::Element::Range(from, to)) => Ok((seq![(from, to)], None)),
            Ok(crate::header::Element::Suffix(n)) => Ok((Seq::empty(), Some(Some(n)))),
            Err(e) => Err(e),
        },
{
    reveal_strlit("bytes=");
    let specs = seq![spec];
    let text = request(specs);
    lemma_request(specs);
    assert(text =~= crate::header::bytes_unit() + spec);
    assert(text.last() == spec.last());
    crate::text::lemma_trimmed_unchanged(text);
    assert forall|i: int| 0 <= i < text.len() implies text[i] != '/' by {
        if i >= 6 {
            assert(text[i] == spec[i - 6]);
        }
    }
    crate::text::lemma_split_whole(text, '/');
    assert(specs.drop_last() =~= Seq::<Seq<char>>::empty());
    reveal_with_fuel(crate::header::element_set, 2);
    match crate::header::element(spec) {
        Ok(crate::header::Element::Range(from, to)) => {
            assert(Seq::empty().push((from, to)) =~= seq![(from, to)]);
        },
        _ => {},
    }
}

/// A set of ranges gives back the range that was written into it, with the position one past its
/// last byte.
pub proof fn law_range_set_reads_closed_range(first: i64, last: i64)
    requires
        0 <= first <= last < i64::MAX,
    ensures
        crate::header::range_set(request(seq![closed_spec(first as nat, last as nat)])) == Ok::<
            (Seq<(Bound<i64>, Bound<i64>)>, Option<Option<u64>>),
            crate::header::Refusal,
        >((seq![(Bound::Included(first), Bound::Included((last + 1) as i64))], None)),
{
    let a = crate::text::decimal(first as nat);
    let b = crate::text::decimal(last as nat);
    let spec = closed_spec(first as nat, last as nat);
    lemma_decimal_plain(first as nat);
    lemma_decimal_plain(last as nat);
    crate::text::lemma_decimal_digits(first as nat);
    crate::text::lemma_decimal_digits(last as nat);
    lemma_two_pieces(a, b);
    crate::text::law_number_reads_decimal(first as nat, i64::MAX as nat);
    crate::text::law_number_reads_decimal(last as nat, i64::MAX as nat);
    lemma_not_joined(a, b, ',');
    assert(crate::text::is_digit(a[0]));
    assert(crate::text::is_digit(b[b.len() - 1]));
    assert(spec[0] == a[0]);
    assert(spec.last() == b[b.len() - 1]);
    lemma_not_joined(a, b, '/');
    lemma_plain_set(spec);
    crate::text::lemma_trimmed_unchanged(spec);
}

/// A set of ranges gives back the length of the suffix that was written into it.
pub proof fn law_range_set_reads_suffix(length: u64)
    ensures
        crate::header::range_set(request(seq![suffix_spec(length as nat)])) == Ok::<
            (Seq<(Bound<i64>, Bound<i64>)>, Option<Option<u64>>),
            crate::header::Refusal,
        >((Seq::empty(), Some(Some(length)))),
{
    let n = crate::text::decimal(length as nat);
    let none = Seq::<char>::empty();
    let spec = suffix_spec(length as nat);
    assert(spec =~= none.push('-') + n);
    lemma_decimal_plain(length as nat);
    crate::text::lemma_decimal_digits(length as nat);
    lemma_two_pieces(none, n);
    crate::text::law_number_reads_decimal(length as nat, u64::MAX as nat);
    lemma_not_joined(none, n, ',');
    lemma_not_joined(none, n, '/');
    assert(crate::text::is_digit(n[n.len() - 1]));
    assert(spec.last() == n[n.len() - 1]);
    lemma_plain_set(spec);
    crate::text::lemma_trimmed_unchanged(spec);
}

} // verus!
