//! What holds of the short texts that header fields are made of.
use vstd::prelude::*;

verus! {

/// Texts that are joined stand one behind the other, with a separator between neighbours.
pub proof fn law_join(pieces: Seq<Seq<char>>, last: Seq<char>, sep: char)
    ensures
        crate::text::join(seq![last], sep) == last,
        pieces.len() > 0 ==> crate::text::join(pieces.push(last), sep) == crate::text::join(
            pieces,
            sep,
        ) + seq![sep] + last,
{
    assert(pieces.push(last).drop_last() =~= pieces);
    if pieces.len() > 0 {
        let front = crate::text::join(pieces, sep);
        assert(front.push(sep) + last =~= front + seq![sep] + last);
    }
}

/// Texts without the separator, and no others, are what splitting gives, and they joined are the
/// text again: splitting loses nothing and leaves no separator.
pub proof fn law_split(text: Seq<char>, sep: char, i: int, j: int)
    ensures
        crate::text::split(text, sep).len() > 0,
        crate::text::join(crate::text::split(text, sep), sep) == text,
        0 <= i < crate::text::split(text, sep).len() && 0 <= j < crate::text::split(
            text,
            sep,
        )[i].len() ==> crate::text::split(text, sep)[i][j] != sep,
{
    crate::text::lemma_join_split(text, sep);
    crate::text::lemma_split_pieces(text, sep);
    let pieces = crate::text::split(text, sep);
    if 0 <= i < pieces.len() && 0 <= j < pieces[i].len() {
        assert(!pieces[i].contains(sep));
    }
}

/// There is one way to split a text: pieces without the separator that make it up when joined.
pub proof fn law_split_has_one_outcome(pieces: Seq<Seq<char>>, sep: char)
    requires
        pieces.len() > 0,
        forall|i: int, j: int|
            0 <= i < pieces.len() && 0 <= j < pieces[i].len() ==> #[trigger] pieces[i][j] != sep,
    ensures
        crate::text::split(crate::text::join(pieces, sep), sep) == pieces,
{
    assert forall|i: int| 0 <= i < pieces.len() implies !(#[trigger] pieces[i]).contains(sep) by {
        if pieces[i].contains(sep) {
            let j = choose|j: int| 0 <= j < pieces[i].len() && pieces[i][j] == sep;
            assert(pieces[i][j] != sep);
        }
    }
    crate::text::lemma_split_join(pieces, sep);
}

/// What stands before a separator: all of a text without one, and the beginning of one that has it.
pub proof fn law_before(front: Seq<char>, rest: Seq<char>, sep: char)
    requires
        !front.contains(sep),
    ensures
        crate::text::before(front, sep) == front,
        crate::text::before(front + seq![sep] + rest, sep) == front,
{
    crate::text::lemma_split_whole(front, sep);
    assert(front + seq![sep] + rest =~= front.push(sep) + rest);
    crate::text::lemma_before(front, rest, sep);
}

/// A text begins with another exactly where it is that text and something behind it.
pub proof fn law_starts_with(text: Seq<char>, prefix: Seq<char>)
    ensures
        crate::text::starts_with(text, prefix) <==> exists|rest: Seq<char>|
            text == #[trigger] (prefix + rest),
{
    if crate::text::starts_with(text, prefix) {
        let rest = text.skip(prefix.len() as int);
        assert(text =~= prefix + rest);
    }
    if exists|rest: Seq<char>| text == #[trigger] (prefix + rest) {
        let rest = choose|rest: Seq<char>| text == #[trigger] (prefix + rest);
        assert(text.take(prefix.len() as int) =~= prefix);
    }
}

/// Of the ASCII characters, the tab, the line breaks with the two beside them, and the space are
/// white space.
pub proof fn law_white_space(c: char)
    requires
        c <= '\u{7f}',
    ensures
        crate::text::is_white_space(c) <==> (c == ' ' || c == '\u{9}' || c == '\u{a}' || c == '\u{b}'
            || c == '\u{c}' || c == '\u{d}'),
{
}

/// Trimming takes away the white space around a text and nothing else.
pub proof fn law_trimmed(before: Seq<char>, text: Seq<char>, behind: Seq<char>)
    requires
        forall|i: int| 0 <= i < before.len() ==> crate::text::is_white_space(#[trigger] before[i]),
        forall|i: int| 0 <= i < behind.len() ==> crate::text::is_white_space(#[trigger] behind[i]),
        text.len() > 0 ==> !crate::text::is_white_space(text[0]) && !crate::text::is_white_space(
            text[text.len() - 1],
        ),
    ensures
        crate::text::trimmed(before + text + behind) == text,
        crate::text::trim_end(text + behind) == text,
        crate::text::trim_start(before + text) == text,
{
    assert(text.len() > 0 ==> text.last() == text[text.len() - 1]);
    crate::laws::lemma_trim_end(text, behind);
    crate::laws::lemma_trim_start(before, text);
    assert(before + text + behind =~= before + (text + behind));
    if text.len() > 0 {
        assert((text + behind)[0] == text[0]);
        crate::laws::lemma_trim_start(before, text + behind);
    } else {
        let all = before + behind;
        assert(before + text + behind =~= all);
        assert forall|i: int| 0 <= i < all.len() implies crate::text::is_white_space(
            #[trigger] all[i],
        ) by {
            if i >= before.len() {
                assert(all[i] == behind[i - before.len()]);
            }
        }
        assert(all + text =~= all);
        crate::laws::lemma_trim_start(all, text);
        crate::laws::lemma_trim_end(text, Seq::empty());
        assert(text + Seq::<char>::empty() =~= text);
    }
}

/// Each digit counts ten times what the one behind it does.
pub proof fn law_digits_value(digits: Seq<char>, digit: char)
    requires
        '0' <= digit <= '9',
    ensures
        crate::text::digits_value(Seq::empty()) == 0,
        crate::text::digits_value(digits.push(digit)) == 10 * crate::text::digits_value(digits) + (
        digit as int - '0' as int),
{
    assert(digits.push(digit).drop_last() =~= digits);
}

/// A number is read from one or more digits, with at most one plus sign before them.
pub proof fn law_number(digits: Seq<char>, max: nat)
    requires
        digits.len() > 0,
        forall|i: int| 0 <= i < digits.len() ==> '0' <= #[trigger] digits[i] <= '9',
    ensures
        crate::text::number(digits, max) == if crate::text::digits_value(digits) <= max {
            Some(crate::text::digits_value(digits))
        } else {
            None
        },
        crate::text::number(seq!['+'] + digits, max) == crate::text::number(digits, max),
{
    assert forall|i: int| 0 <= i < digits.len() implies crate::text::is_digit(
        #[trigger] digits[i],
    ) by {}
    assert(digits[0] != '+');
    let signed = seq!['+'] + digits;
    assert(signed[0] == '+');
    assert(signed.skip(1) =~= digits);
}

/// Nothing else is a number.
pub proof fn law_no_number(text: Seq<char>, max: nat, i: int)
    requires
        text.len() == 0 || text == seq!['+'] || (0 <= i < text.len() && !('0' <= text[i] <= '9')
            && !(i == 0 && text[0] == '+')),
    ensures
        crate::text::number(text, max) is None,
{
    if text.len() > 0 && text != seq!['+'] {
        let digits = crate::text::unsigned_part(text);
        if text[0] == '+' {
            assert(digits[i - 1] == text[i]);
            assert(!crate::text::is_digit(digits[i - 1]));
        } else {
            assert(!crate::text::is_digit(digits[i]));
        }
    } else if text == seq!['+'] {
        assert(crate::text::unsigned_part(text) =~= Seq::empty());
    }
}

/// The decimal text of a number holds digits only, denotes the number, and has no leading zero.
pub proof fn law_decimal(n: nat)
    ensures
        crate::text::decimal(n).len() > 0,
        forall|i: int|
            0 <= i < crate::text::decimal(n).len() ==> '0' <= #[trigger] crate::text::decimal(n)[i]
                <= '9',
        crate::text::digits_value(crate::text::decimal(n)) == n,
        n > 0 ==> crate::text::decimal(n)[0] != '0',
        n == 0 ==> crate::text::decimal(n).len() == 1,
    decreases n,
{
    crate::text::lemma_decimal_digits(n);
    let d = crate::text::decimal(n);
    assert forall|i: int| 0 <= i < d.len() implies '0' <= #[trigger] d[i] <= '9' by {
        assert(crate::text::is_digit(d[i]));
    }
    if n >= 10 {
        law_decimal(n / 10);
        assert(d[0] == crate::text::decimal(n / 10)[0]);
    }
}

/// Of the other characters, the next line, the no-break spaces, the Ogham space, the spaces of
/// various widths, the two separators and the ideographic space are white space.
pub proof fn law_wide_white_space(c: char)
    requires
        c > '\u{7f}',
    ensures
        crate::text::is_white_space(c) <==> {
            let n = c as int;
            n == 0x85 || n == 0xa0 || n == 0x1680 || 0x2000 <= n <= 0x200a || n == 0x2028 || n
                == 0x2029 || n == 0x202f || n == 0x205f || n == 0x3000
        },
{
}

} // verus!
