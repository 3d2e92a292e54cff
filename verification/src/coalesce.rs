//! Joining byte ranges that overlap.
use vstd::prelude::*;

use crate::byte_range::ByteRange;

verus! {

/// Whether some range of `ranges` holds the byte at `position`.
pub open spec fn covers(ranges: Seq<ByteRange>, position: int) -> bool {
    exists|i: int| 0 <= i < ranges.len() && (#[trigger] ranges[i]).holds(position)
}

/// Whether some range of `ranges` holds both the byte at `position` and the one before it.
pub open spec fn connects(ranges: Seq<ByteRange>, position: int) -> bool {
    exists|i: int|
        0 <= i < ranges.len() && (#[trigger] ranges[i]).start < position
            < ranges[i].end_exclusive
}

/// Whether every range of `ranges` holds at least one byte.
pub open spec fn all_nonempty(ranges: Seq<ByteRange>) -> bool {
    forall|i: int| 0 <= i < ranges.len() ==> (#[trigger] ranges[i]).start < ranges[i].end_exclusive
}

/// Whether no range of `ranges` begins before an earlier one has ended.
pub open spec fn in_order(ranges: Seq<ByteRange>) -> bool {
    forall|i: int, j: int|
        0 <= i < j < ranges.len() ==> (#[trigger] ranges[i]).end_exclusive <= (
        #[trigger] ranges[j]).start
}

/// Whether `joined` is `ranges` with all that overlap joined: its ranges stand in ascending
/// order without overlap, hold the same bytes, and keep two neighbouring bytes together exactly
/// where some range of `ranges` does. Ranges that merely touch stay apart.
pub open spec fn coalesced(joined: Seq<ByteRange>, ranges: Seq<ByteRange>) -> bool {
    &&& all_nonempty(joined)
    &&& in_order(joined)
    &&& forall|p: int| #[trigger] covers(joined, p) <==> covers(ranges, p)
    &&& forall|p: int| #[trigger] connects(joined, p) <==> connects(ranges, p)
}

/// `ranges` with all that overlap joined.
pub open spec fn coalescence(ranges: Seq<ByteRange>) -> Seq<ByteRange> {
    choose|joined: Seq<ByteRange>| coalesced(joined, ranges)
}

/// Joining overlapping ranges has one outcome: two sequences that both are `ranges` joined are
/// the same.
pub proof fn law_coalesced_is_unique(a: Seq<ByteRange>, b: Seq<ByteRange>, ranges: Seq<ByteRange>)
    requires
        coalesced(a, ranges),
        coalesced(b, ranges),
    ensures
        a == b,
        a == coalescence(ranges),
{
    let c = coalescence(ranges);
    assert forall|p: int| #[trigger] covers(a, p) <==> covers(b, p) by {
        assert(covers(a, p) <==> covers(ranges, p));
    }
    assert forall|p: int| #[trigger] connects(a, p) <==> connects(b, p) by {
        assert(connects(a, p) <==> connects(ranges, p));
    }
    lemma_same_cover_same_ranges(a, b);
    assert forall|p: int| #[trigger] covers(a, p) <==> covers(c, p) by {
        assert(covers(a, p) <==> covers(ranges, p));
    }
    assert forall|p: int| #[trigger] connects(a, p) <==> connects(c, p) by {
        assert(connects(a, p) <==> connects(ranges, p));
    }
    lemma_same_cover_same_ranges(a, c);
}

proof fn lemma_same_cover_same_ranges(a: Seq<ByteRange>, b: Seq<ByteRange>)
    requires
        all_nonempty(a),
        all_nonempty(b),
        in_order(a),
        in_order(b),
        forall|p: int| #[trigger] covers(a, p) <==> covers(b, p),
        forall|p: int| #[trigger] connects(a, p) <==> connects(b, p),
    ensures
        a == b,
    decreases a.len(),
{
    if a.len() == 0 {
        if b.len() > 0 {
            assert(b[0].holds(b[0].start as int));
            assert(covers(b, b[0].start as int));
            assert(covers(a, b[0].start as int));
        }
        assert(a =~= b);
    } else {
        assert(a[0].holds(a[0].start as int));
        assert(covers(a, a[0].start as int));
        assert(covers(b, a[0].start as int));
        assert(b.len() > 0);
        assert(b[0].holds(b[0].start as int));
        assert(covers(b, b[0].start as int));
        assert(covers(a, b[0].start as int));
        lemma_first_is_lowest(a, b[0].start as int);
        lemma_first_is_lowest(b, a[0].start as int);
        lemma_first_reaches(a, b);
        lemma_first_reaches(b, a);
        lemma_tail(a);
        lemma_tail(b);
        let ta = a.drop_first();
        let tb = b.drop_first();
        assert forall|p: int| #[trigger] covers(ta, p) <==> covers(tb, p) by {
            assert(covers(a, p) <==> covers(b, p));
            assert(covers(tb, p) <==> covers(b, p) && p >= b[0].end_exclusive);
        }
        assert forall|p: int| #[trigger] connects(ta, p) <==> connects(tb, p) by {
            assert(connects(a, p) <==> connects(b, p));
            assert(connects(tb, p) <==> connects(b, p) && p > b[0].end_exclusive);
        }
        lemma_same_cover_same_ranges(ta, tb);
        assert(a =~= seq![a[0]] + ta);
        assert(b =~= seq![b[0]] + tb);
    }
}

proof fn lemma_first_is_lowest(a: Seq<ByteRange>, p: int)
    requires
        all_nonempty(a),
        in_order(a),
        covers(a, p),
    ensures
        a.len() > 0,
        a[0].start <= p,
{
    let i = choose|i: int| 0 <= i < a.len() && (#[trigger] a[i]).holds(p);
    if i > 0 {
        assert(a[0].end_exclusive <= a[i].start);
    }
}

proof fn lemma_first_reaches(a: Seq<ByteRange>, b: Seq<ByteRange>)
    requires
        a.len() > 0,
        b.len() > 0,
        all_nonempty(a),
        all_nonempty(b),
        in_order(a),
        a[0].start == b[0].start,
        forall|p: int| #[trigger] connects(a, p) <==> connects(b, p),
    ensures
        b[0].end_exclusive <= a[0].end_exclusive,
{
    let p = a[0].end_exclusive as int;
    if p < b[0].end_exclusive {
        assert(b[0].start < p < b[0].end_exclusive);
        assert(connects(b, p));
        assert(connects(a, p));
        let i = choose|i: int| 0 <= i < a.len() && (#[trigger] a[i]).start < p < a[i].end_exclusive;
        assert(a[0].end_exclusive <= a[i].start);
    }
}

proof fn lemma_tail(a: Seq<ByteRange>)
    requires
        a.len() > 0,
        all_nonempty(a),
        in_order(a),
    ensures
        all_nonempty(a.drop_first()),
        in_order(a.drop_first()),
        forall|p: int|
            #[trigger] covers(a.drop_first(), p) <==> covers(a, p) && p >= a[0].end_exclusive,
        forall|p: int|
            #[trigger] connects(a.drop_first(), p) <==> connects(a, p) && p > a[0].end_exclusive,
{
    let t = a.drop_first();
    assert forall|i: int| 0 <= i < t.len() implies #[trigger] t[i] == a[i + 1] by {}
    assert forall|p: int| #[trigger] covers(t, p) <==> covers(a, p) && p >= a[0].end_exclusive by {
        if covers(t, p) {
            let i = choose|i: int| 0 <= i < t.len() && (#[trigger] t[i]).holds(p);
            assert(a[i + 1].holds(p));
            assert(a[0].end_exclusive <= a[i + 1].start);
        }
        if covers(a, p) && p >= a[0].end_exclusive {
            let i = choose|i: int| 0 <= i < a.len() && (#[trigger] a[i]).holds(p);
            assert(t[i - 1].holds(p));
        }
    }
    assert forall|p: int| #[trigger] connects(t, p) <==> connects(a, p) && p > a[0].end_exclusive by {
        if connects(t, p) {
            let i = choose|i: int| 0 <= i < t.len() && (#[trigger] t[i]).start < p < t[i].end_exclusive;
            assert(a[i + 1].start < p < a[i + 1].end_exclusive);
            assert(a[0].end_exclusive <= a[i + 1].start);
        }
        if connects(a, p) && p > a[0].end_exclusive {
            let i = choose|i: int| 0 <= i < a.len() && (#[trigger] a[i]).start < p < a[i].end_exclusive;
            assert(t[i - 1].start < p < t[i - 1].end_exclusive);
        }
    }
}

/// Whether the starts of `ranges` ascend.
pub open spec fn starts_ascend(ranges: Seq<ByteRange>) -> bool {
    forall|i: int, j: int|
        0 <= i < j < ranges.len() ==> (#[trigger] ranges[i]).start <= (#[trigger] ranges[j]).start
}

/// Whether `a` and `b` hold the same ranges, in whatever order.
pub open spec fn same_ranges(a: Seq<ByteRange>, b: Seq<ByteRange>) -> bool {
    forall|r: ByteRange| #[trigger] a.contains(r) <==> b.contains(r)
}

proof fn lemma_same_ranges(a: Seq<ByteRange>, b: Seq<ByteRange>)
    requires
        same_ranges(a, b),
    ensures
        forall|p: int| #[trigger] covers(a, p) <==> covers(b, p),
        forall|p: int| #[trigger] connects(a, p) <==> connects(b, p),
        all_nonempty(a) ==> all_nonempty(b),
{
    assert forall|i: int| 0 <= i < a.len() implies exists|j: int|
        0 <= j < b.len() && #[trigger] b[j] == #[trigger] a[i] by {
        assert(a.contains(a[i]));
    }
    assert forall|i: int| 0 <= i < b.len() implies exists|j: int|
        0 <= j < a.len() && #[trigger] a[j] == #[trigger] b[i] by {
        assert(b.contains(b[i]));
        assert(a.contains(b[i]));
    }
}

/// The ranges of `ranges`, by ascending start.
fn sorted_by_start(ranges: &Vec<ByteRange>) -> (sorted: Vec<ByteRange>)
    ensures
        starts_ascend(sorted@),
        same_ranges(sorted@, ranges@),
{
    let mut sorted: Vec<ByteRange> = Vec::new();
    let mut i: usize = 0;
    while i < ranges.len()
        invariant
            i <= ranges@.len(),
            starts_ascend(sorted@),
            same_ranges(sorted@, ranges@.take(i as int)),
        decreases ranges@.len() - i,
    {
        let range = ranges[i];
        let mut at: usize = sorted.len();
        while at > 0 && sorted[at - 1].start > range.start
            invariant
                at <= sorted@.len(),
                forall|j: int| at <= j < sorted@.len() ==> (#[trigger] sorted@[j]).start > range.start,
            decreases at,
        {
            at = at - 1;
        }
        let ghost shorter = sorted@;
        sorted.insert(at, range);
        proof {
            assert(sorted@ == shorter.insert(at as int, range));
            assert(ranges@.take(i + 1) =~= ranges@.take(i as int).push(range));
            lemma_insert_and_push(shorter, ranges@.take(i as int), at as int, range);
        }
        i = i + 1;
    }
    assert(ranges@.take(i as int) =~= ranges@);
    sorted
}

proof fn lemma_insert_and_push(a: Seq<ByteRange>, b: Seq<ByteRange>, at: int, range: ByteRange)
    requires
        same_ranges(a, b),
        0 <= at <= a.len(),
    ensures
        same_ranges(a.insert(at, range), b.push(range)),
{
    assert forall|r: ByteRange| #[trigger] a.insert(at, range).contains(r) <==> b.push(
        range,
    ).contains(r) by {
        let inserted = a.insert(at, range);
        let pushed = b.push(range);
        if inserted.contains(r) {
            let i = choose|i: int| 0 <= i < inserted.len() && inserted[i] == r;
            if i == at {
                assert(pushed[b.len() as int] == r);
            } else {
                assert(a[if i < at { i } else { i - 1 }] == r);
                assert(a.contains(r));
                let j = choose|j: int| 0 <= j < b.len() && b[j] == r;
                assert(pushed[j] == r);
            }
        }
        if pushed.contains(r) {
            let j = choose|j: int| 0 <= j < pushed.len() && pushed[j] == r;
            if j == b.len() {
                assert(inserted[at] == r);
            } else {
                assert(b[j] == r);
                assert(a.contains(r));
                let i = choose|i: int| 0 <= i < a.len() && a[i] == r;
                assert(inserted[if i < at { i } else { i + 1 }] == r);
            }
        }
    }
}

/// Joins the ranges that overlap.
pub fn coalesce(ranges: &Vec<ByteRange>) -> (joined: Vec<ByteRange>)
    requires
        all_nonempty(ranges@),
    ensures
        coalesced(joined@, ranges@),
        joined@ == coalescence(ranges@),
{
    let sorted = sorted_by_start(ranges);
    proof {
        lemma_same_ranges(ranges@, sorted@);
    }
    let mut joined: Vec<ByteRange> = Vec::new();
    let mut i: usize = 0;
    while i < sorted.len()
        invariant
            i <= sorted@.len(),
            all_nonempty(sorted@),
            starts_ascend(sorted@),
            coalesced(joined@, sorted@.take(i as int)),
            i > 0 ==> joined@.len() > 0,
            joined@.len() > 0 ==> i > 0 && joined@.last().start <= sorted@[i - 1].start,
        decreases sorted@.len() - i,
    {
        let range = sorted[i];
        let ghost shorter = joined@;
        let ghost done = sorted@.take(i as int);
        proof {
            assert(sorted@.take(i + 1) =~= done.push(range));
        }
        if joined.len() == 0 || range.start >= joined[joined.len() - 1].end_exclusive {
            joined.push(range);
            proof {
                lemma_coalesced_push(shorter, done, range);
            }
        } else {
            let n: usize = joined.len();
            let last = joined[n - 1];
            if range.end_exclusive > last.end_exclusive {
                joined.set(n - 1, ByteRange::new(last.start, range.end_exclusive));
            }
            proof {
                assert(joined@ =~= widened(shorter, range));
                lemma_coalesced_widen(shorter, done, range);
            }
        }
        i = i + 1;
    }
    proof {
        assert(sorted@.take(i as int) =~= sorted@);
        lemma_same_ranges(sorted@, ranges@);
        law_coalesced_is_unique(joined@, joined@, ranges@);
    }
    joined
}

/// `joined` with its last range reaching as far as `range` does.
spec fn widened(joined: Seq<ByteRange>, range: ByteRange) -> Seq<ByteRange> {
    let last = joined.last();
    joined.drop_last().push(
        ByteRange {
            start: last.start,
            end_exclusive: if range.end_exclusive > last.end_exclusive {
                range.end_exclusive
            } else {
                last.end_exclusive
            },
        },
    )
}

proof fn lemma_covers_push(ranges: Seq<ByteRange>, range: ByteRange)
    ensures
        forall|p: int| #[trigger] covers(ranges.push(range), p) <==> covers(ranges, p) || range.holds(p),
        forall|p: int|
            #[trigger] connects(ranges.push(range), p) <==> connects(ranges, p) || range.start < p
                < range.end_exclusive,
{
    let longer = ranges.push(range);
    let n = ranges.len() as int;
    assert(longer[n] == range);
    assert forall|p: int| #[trigger] covers(longer, p) <==> covers(ranges, p) || range.holds(p) by {
        if covers(longer, p) && !range.holds(p) {
            let i = choose|i: int| 0 <= i < longer.len() && (#[trigger] longer[i]).holds(p);
            assert(ranges[i].holds(p));
        }
        if covers(ranges, p) {
            let i = choose|i: int| 0 <= i < ranges.len() && (#[trigger] ranges[i]).holds(p);
            assert(longer[i].holds(p));
        }
        if range.holds(p) {
            assert(longer[n].holds(p));
        }
    }
    assert forall|p: int|
        #[trigger] connects(longer, p) <==> connects(ranges, p) || range.start < p
            < range.end_exclusive by {
        if connects(longer, p) && !(range.start < p < range.end_exclusive) {
            let i = choose|i: int|
                0 <= i < longer.len() && (#[trigger] longer[i]).start < p < longer[i].end_exclusive;
            assert(ranges[i].start < p < ranges[i].end_exclusive);
        }
        if connects(ranges, p) {
            let i = choose|i: int|
                0 <= i < ranges.len() && (#[trigger] ranges[i]).start < p < ranges[i].end_exclusive;
            assert(longer[i].start < p < longer[i].end_exclusive);
        }
    }
}

proof fn lemma_coalesced_push(joined: Seq<ByteRange>, done: Seq<ByteRange>, range: ByteRange)
    requires
        coalesced(joined, done),
        range.start < range.end_exclusive,
        joined.len() > 0 ==> range.start >= joined.last().end_exclusive,
    ensures
        coalesced(joined.push(range), done.push(range)),
{
    lemma_covers_push(joined, range);
    lemma_covers_push(done, range);
    assert forall|i: int, j: int| 0 <= i < j < joined.push(range).len() implies (
    #[trigger] joined.push(range)[i]).end_exclusive <= (#[trigger] joined.push(range)[j]).start by {
        if j == joined.len() && i < joined.len() - 1 {
            assert(joined[i].end_exclusive <= joined[joined.len() - 1].start);
        }
    }
}

proof fn lemma_coalesced_widen(joined: Seq<ByteRange>, done: Seq<ByteRange>, range: ByteRange)
    requires
        coalesced(joined, done),
        range.start < range.end_exclusive,
        joined.len() > 0,
        joined.last().start <= range.start < joined.last().end_exclusive,
    ensures
        coalesced(widened(joined, range), done.push(range)),
{
    let front = joined.drop_last();
    let wide = widened(joined, range);
    assert(joined =~= front.push(joined.last()));
    lemma_covers_push(front, joined.last());
    lemma_covers_push(front, wide.last());
    lemma_covers_push(done, range);
    assert forall|p: int| #[trigger] covers(wide, p) <==> covers(done.push(range), p) by {
        assert(covers(joined, p) <==> covers(done, p));
        assert(covers(front.push(wide.last()), p) <==> covers(front, p) || wide.last().holds(p));
    }
    assert forall|p: int| #[trigger] connects(wide, p) <==> connects(done.push(range), p) by {
        assert(connects(joined, p) <==> connects(done, p));
        assert(connects(front.push(wide.last()), p) <==> connects(front, p) || wide.last().start < p
            < wide.last().end_exclusive);
    }
    assert forall|i: int, j: int| 0 <= i < j < wide.len() implies (
    #[trigger] wide[i]).end_exclusive <= (#[trigger] wide[j]).start by {
        assert(joined[i].end_exclusive <= joined[j].start);
    }
}

/// Ranges that hold bytes can always be joined, and `coalescence` is the outcome.
pub proof fn law_coalescence_exists(ranges: Seq<ByteRange>)
    requires
        all_nonempty(ranges),
    ensures
        coalesced(coalescence(ranges), ranges),
{
    let leq = |a: ByteRange, b: ByteRange|
        a.start < b.start || (a.start == b.start && a.end_exclusive <= b.end_exclusive);
    let sorted = ranges.sort_by(leq);
    ranges.lemma_sort_by_ensures(leq);
    assert forall|r: ByteRange| #[trigger] sorted.contains(r) <==> ranges.contains(r) by {
        assert(sorted.to_multiset().count(r) == ranges.to_multiset().count(r));
        sorted.to_multiset_ensures();
        ranges.to_multiset_ensures();
    }
    lemma_same_ranges(ranges, sorted);
    assert forall|i: int, j: int| 0 <= i < j < sorted.len() implies (#[trigger] sorted[i]).start
        <= (#[trigger] sorted[j]).start by {
        assert(leq(sorted[i], sorted[j]));
    }
    let joined = lemma_joined_exists(sorted);
    lemma_same_ranges(sorted, ranges);
    assert(coalesced(joined, ranges));
    law_coalesced_is_unique(joined, joined, ranges);
}

/// Ranges by ascending start can be joined.
proof fn lemma_joined_exists(sorted: Seq<ByteRange>) -> (joined: Seq<ByteRange>)
    requires
        all_nonempty(sorted),
        starts_ascend(sorted),
    ensures
        coalesced(joined, sorted),
        sorted.len() > 0 ==> joined.len() > 0 && joined.last().start <= sorted.last().start,
    decreases sorted.len(),
{
    if sorted.len() == 0 {
        sorted
    } else {
        let front = sorted.drop_last();
        let range = sorted.last();
        assert(range == sorted[sorted.len() - 1]);
        assert forall|i: int| 0 <= i < front.len() implies (#[trigger] front[i]).start
            < front[i].end_exclusive by {
            assert(front[i] == sorted[i]);
        }
        assert forall|i: int, j: int| 0 <= i < j < front.len() implies (#[trigger] front[i]).start
            <= (#[trigger] front[j]).start by {
            assert(sorted[i].start <= sorted[j].start);
        }
        let shorter = lemma_joined_exists(front);
        assert(front.push(range) =~= sorted);
        if shorter.len() == 0 || range.start >= shorter.last().end_exclusive {
            lemma_coalesced_push(shorter, front, range);
            shorter.push(range)
        } else {
            if front.len() == 0 {
                assert(shorter[0].holds(shorter[0].start as int)) by {
                    assert(shorter[0].start < shorter[0].end_exclusive);
                }
                assert(covers(shorter, shorter[0].start as int));
                assert(covers(front, shorter[0].start as int));
            }
            assert(front.last() == sorted[front.len() - 1]);
            lemma_coalesced_widen(shorter, front, range);
            widened(shorter, range)
        }
    }
}

} // verus!
