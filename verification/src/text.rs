//! Reading and writing the short texts that header fields are made of.
//!
//! Every function is specified over `Seq<char>`, the view of `str` and `String`.
use vstd::prelude::*;

verus! {

/// The pieces of `s` between the occurrences of `sep`, in order. An empty text has one empty
/// piece, and neighbouring separators have an empty piece between them.
pub open spec fn split(s: Seq<char>, sep: char) -> Seq<Seq<char>>
    decreases s.len(),
{
    if s.len() == 0 {
        seq![Seq::<char>::empty()]
    } else {
        let front = split(s.drop_last(), sep);
        if s.last() == sep {
            front.push(Seq::<char>::empty())
        } else {
            front.drop_last().push(front.last().push(s.last()))
        }
    }
}

/// `pieces` put one after the other with `sep` between neighbours.
pub open spec fn join(pieces: Seq<Seq<char>>, sep: char) -> Seq<char>
    decreases pieces.len(),
{
    if pieces.len() == 0 {
        Seq::empty()
    } else if pieces.len() == 1 {
        pieces[0]
    } else {
        join(pieces.drop_last(), sep).push(sep) + pieces.last()
    }
}

/// What stands before the first `sep`, or all of `s` where there is none.
pub open spec fn before(s: Seq<char>, sep: char) -> Seq<char> {
    split(s, sep)[0]
}

/// Whether `s` begins with `prefix`.
pub open spec fn starts_with(s: Seq<char>, prefix: Seq<char>) -> bool {
    prefix.len() <= s.len() && s.take(prefix.len() as int) == prefix
}

/// The characters that Unicode calls white space.
pub open spec fn is_white_space(c: char) -> bool {
    ||| '\u{9}' <= c <= '\u{d}'
    ||| c == ' '
    ||| c == '\u{85}'
    ||| c == '\u{a0}'
    ||| c == '\u{1680}'
    ||| '\u{2000}' <= c <= '\u{200a}'
    ||| c == '\u{2028}'
    ||| c == '\u{2029}'
    ||| c == '\u{202f}'
    ||| c == '\u{205f}'
    ||| c == '\u{3000}'
}

/// `s` without the white space at its beginning.
pub open spec fn trim_start(s: Seq<char>) -> Seq<char>
    decreases s.len(),
{
    if s.len() > 0 && is_white_space(s[0]) {
        trim_start(s.skip(1))
    } else {
        s
    }
}

/// `s` without the white space at its end.
pub open spec fn trim_end(s: Seq<char>) -> Seq<char>
    decreases s.len(),
{
    if s.len() > 0 && is_white_space(s.last()) {
        trim_end(s.drop_last())
    } else {
        s
    }
}

/// `s` without the white space at either end.
pub open spec fn trimmed(s: Seq<char>) -> Seq<char> {
    trim_end(trim_start(s))
}

/// Whether `c` is a decimal digit.
pub open spec fn is_digit(c: char) -> bool {
    '0' <= c <= '9'
}

/// The value of a decimal digit.
pub open spec fn digit_value(c: char) -> nat {
    (c as int - '0' as int) as nat
}

/// Whether `s` holds decimal digits only.
pub open spec fn all_digits(s: Seq<char>) -> bool {
    forall|i: int| 0 <= i < s.len() ==> is_digit(#[trigger] s[i])
}

/// The number that a text of decimal digits denotes.
pub open spec fn digits_value(s: Seq<char>) -> nat
    decreases s.len(),
{
    if s.len() == 0 {
        0
    } else {
        digits_value(s.drop_last()) * 10 + digit_value(s.last())
    }
}

/// `s` without one leading plus sign.
pub open spec fn unsigned_part(s: Seq<char>) -> Seq<char> {
    if s.len() > 0 && s[0] == '+' {
        s.skip(1)
    } else {
        s
    }
}

/// The number that `s` denotes: one or more decimal digits, after at most one plus sign, whose
/// value is at most `max`.
pub open spec fn number(s: Seq<char>, max: nat) -> Option<nat> {
    let digits = unsigned_part(s);
    if digits.len() > 0 && all_digits(digits) && digits_value(digits) <= max {
        Some(digits_value(digits))
    } else {
        None
    }
}

/// The decimal digit with value `d`.
pub open spec fn digit_char(d: nat) -> char {
    (d + '0' as int) as char
}

/// The decimal text of `n`, without leading zeros.
pub open spec fn decimal(n: nat) -> Seq<char>
    decreases n,
{
    if n < 10 {
        seq![digit_char(n)]
    } else {
        decimal(n / 10).push(digit_char(n % 10))
    }
}

/// The views of a sequence of string slices.
pub open spec fn views(pieces: Seq<&str>) -> Seq<Seq<char>> {
    pieces.map_values(|p: &str| p@)
}

/// The characters of `s`.
pub fn characters(s: &str) -> (cs: Vec<char>)
    ensures
        cs@ == s@,
{
    let mut cs: Vec<char> = Vec::new();
    for c in it: s.chars()
        invariant
            it.seq() == s@,
            cs@ == s@.take(it.index()),
    {
        cs.push(c);
        assert(s@.take(it.index() + 1) =~= s@.take(it.index()).push(c));
    }
    assert(s@.take(s@.len() as int) =~= s@);
    cs
}

/// Splits `s` at every `sep`.
pub fn split_at_char<'a>(s: &'a str, sep: char) -> (pieces: Vec<&'a str>)
    ensures
        views(pieces@) == split(s@, sep),
        pieces@.len() > 0,
{
    let cs = characters(s);
    let mut pieces: Vec<&'a str> = Vec::new();
    let mut from: usize = 0;
    let mut i: usize = 0;
    assert(s@.take(0) =~= Seq::<char>::empty());
    assert(s@.subrange(0, 0) =~= Seq::<char>::empty());
    assert(views(pieces@).push(s@.subrange(0, 0)) =~= split(s@.take(0), sep));
    while i < cs.len()
        invariant
            cs@ == s@,
            from <= i <= cs@.len(),
            views(pieces@).push(s@.subrange(from as int, i as int)) == split(s@.take(i as int), sep),
        decreases cs@.len() - i,
    {
        let ghost before_views = views(pieces@);
        let ghost open = s@.subrange(from as int, i as int);
        assert(s@.take(i + 1).drop_last() =~= s@.take(i as int));
        assert(s@.take(i + 1).last() == s@[i as int]);
        if cs[i] == sep {
            pieces.push(s.substring_char(from, i));
            assert(views(pieces@) =~= before_views.push(open));
            from = i + 1;
            assert(s@.subrange(from as int, from as int) =~= Seq::<char>::empty());
        } else {
            assert(before_views.push(open).drop_last() =~= before_views);
            assert(s@.subrange(from as int, i + 1) =~= open.push(s@[i as int]));
        }
        i = i + 1;
    }
    let ghost before_views = views(pieces@);
    pieces.push(s.substring_char(from, i));
    assert(s@.take(i as int) =~= s@);
    assert(views(pieces@) =~= before_views.push(s@.subrange(from as int, i as int)));
    pieces
}

/// What stands in `s` before the first `sep`, or all of it where there is none.
pub fn before_char<'a>(s: &'a str, sep: char) -> (front: &'a str)
    ensures
        front@ == before(s@, sep),
{
    let pieces = split_at_char(s, sep);
    assert(views(pieces@)[0] == pieces@[0]@);
    pieces[0]
}

/// Whether `s` begins with `prefix`.
pub fn begins_with(s: &str, prefix: &str) -> (b: bool)
    ensures
        b == starts_with(s@, prefix@),
{
    let cs = characters(s);
    let ps = characters(prefix);
    if ps.len() > cs.len() {
        return false;
    }
    let mut i: usize = 0;
    while i < ps.len()
        invariant
            cs@ == s@,
            ps@ == prefix@,
            i <= ps@.len() <= cs@.len(),
            forall|j: int| 0 <= j < i ==> cs@[j] == ps@[j],
        decreases ps@.len() - i,
    {
        if cs[i] != ps[i] {
            assert(s@.take(prefix@.len() as int)[i as int] != prefix@[i as int]);
            return false;
        }
        i = i + 1;
    }
    assert(s@.take(prefix@.len() as int) =~= prefix@);
    true
}

/// Whether `c` is white space.
pub fn white_space(c: char) -> (b: bool)
    ensures
        b == is_white_space(c),
{
    ('\u{9}' <= c && c <= '\u{d}') || c == ' ' || c == '\u{85}' || c == '\u{a0}' || c == '\u{1680}'
        || ('\u{2000}' <= c && c <= '\u{200a}') || c == '\u{2028}' || c == '\u{2029}' || c
        == '\u{202f}' || c == '\u{205f}' || c == '\u{3000}'
}

/// `s` without the white space at its beginning.
pub fn trim_front<'a>(s: &'a str) -> (t: &'a str)
    ensures
        t@ == trim_start(s@),
{
    let cs = characters(s);
    let mut from: usize = 0;
    assert(s@.skip(0) =~= s@);
    while from < cs.len() && white_space(cs[from])
        invariant
            cs@ == s@,
            from <= cs@.len(),
            trim_start(s@) == trim_start(s@.skip(from as int)),
        decreases cs@.len() - from,
    {
        assert(s@.skip(from as int).skip(1) =~= s@.skip(from + 1));
        from = from + 1;
    }
    let t = s.substring_char(from, cs.len());
    assert(t@ =~= s@.skip(from as int));
    t
}

/// `s` without the white space at its end.
pub fn trim_back<'a>(s: &'a str) -> (t: &'a str)
    ensures
        t@ == trim_end(s@),
{
    let cs = characters(s);
    let mut to: usize = cs.len();
    assert(s@.take(to as int) =~= s@);
    while to > 0 && white_space(cs[to - 1])
        invariant
            cs@ == s@,
            to <= cs@.len(),
            trim_end(s@) == trim_end(s@.take(to as int)),
        decreases to,
    {
        assert(s@.take(to as int).drop_last() =~= s@.take(to - 1));
        to = to - 1;
    }
    let t = s.substring_char(0, to);
    assert(t@ =~= s@.take(to as int));
    t
}

/// `s` without the white space at either end.
pub fn trim<'a>(s: &'a str) -> (t: &'a str)
    ensures
        t@ == trimmed(s@),
{
    trim_back(trim_front(s))
}

/// The digits of a prefix denote no more than the digits of the whole.
proof fn lemma_digits_value_grows(s: Seq<char>, n: int)
    requires
        0 <= n <= s.len(),
    ensures
        digits_value(s.take(n)) <= digits_value(s),
    decreases s.len(),
{
    if n == s.len() {
        assert(s.take(n) =~= s);
    } else {
        assert(s.drop_last().take(n) =~= s.take(n));
        lemma_digits_value_grows(s.drop_last(), n);
    }
}

/// Reads `s` as a decimal number of at most `max`.
pub fn parse_number(s: &str, max: u64) -> (n: Option<u64>)
    ensures
        match number(s@, max as nat) {
            Some(v) => n == Some(v as u64) && v <= max,
            None => n is None,
        },
{
    let cs = characters(s);
    let from: usize = if cs.len() > 0 && cs[0] == '+' {
        1
    } else {
        0
    };
    let ghost digits = unsigned_part(s@);
    assert(digits =~= s@.skip(from as int));
    if from == cs.len() {
        return None;
    }
    let mut value: u64 = 0;
    let mut i: usize = from;
    while i < cs.len()
        invariant
            cs@ == s@,
            from <= i <= cs@.len(),
            digits == s@.skip(from as int),
            digits == unsigned_part(s@),
            forall|j: int| 0 <= j < i - from ==> is_digit(#[trigger] digits[j]),
            value == digits_value(digits.take(i - from)),
            value <= max,
        decreases cs@.len() - i,
    {
        let c = cs[i];
        assert(c == digits[i - from]);
        if !('0' <= c && c <= '9') {
            assert(!is_digit(digits[i - from]));
            return None;
        }
        let digit: u64 = (c as u32 - '0' as u32) as u64;
        assert(digits.take(i - from + 1).drop_last() =~= digits.take(i - from));
        assert(digits_value(digits.take(i - from + 1)) == value * 10 + digit);
        if digit > max || value > (max - digit) / 10 {
            proof {
                lemma_digits_value_grows(digits, i - from + 1);
            }
            return None;
        }
        value = value * 10 + digit;
        i = i + 1;
    }
    assert(digits.take(i - from) =~= digits);
    assert(all_digits(digits));
    Some(value)
}

/// The text of one decimal digit.
fn digit_text(d: u8) -> (t: &'static str)
    requires
        d < 10,
    ensures
        t@ == seq![digit_char(d as nat)],
{
    proof {
        reveal_strlit("0");
        reveal_strlit("1");
        reveal_strlit("2");
        reveal_strlit("3");
        reveal_strlit("4");
        reveal_strlit("5");
        reveal_strlit("6");
        reveal_strlit("7");
        reveal_strlit("8");
        reveal_strlit("9");
    }
    let t = match d {
        0 => "0",
        1 => "1",
        2 => "2",
        3 => "3",
        4 => "4",
        5 => "5",
        6 => "6",
        7 => "7",
        8 => "8",
        _ => "9",
    };
    assert(t@ =~= seq![digit_char(d as nat)]);
    t
}

/// Writes the decimal text of `n` behind `out`.
pub fn append_decimal(out: &mut String, n: u128)
    ensures
        final(out)@ == old(out)@ + decimal(n as nat),
    decreases n,
{
    if n >= 10 {
        append_decimal(out, n / 10);
    }
    let ghost front = out@;
    out.append(digit_text((n % 10) as u8));
    assert(out@ =~= old(out)@ + decimal(n as nat));
}

/// A decimal text holds digits, at least one, and they denote the number.
pub proof fn lemma_decimal_digits(n: nat)
    ensures
        decimal(n).len() > 0,
        all_digits(decimal(n)),
        digits_value(decimal(n)) == n,
    decreases n,
{
    let d = n % 10;
    assert(is_digit(digit_char(d)) && digit_value(digit_char(d)) == d);
    if n >= 10 {
        let front = decimal(n / 10);
        lemma_decimal_digits(n / 10);
        assert(decimal(n).drop_last() =~= front);
        assert forall|i: int| 0 <= i < decimal(n).len() implies is_digit(
            #[trigger] decimal(n)[i],
        ) by {
            if i < front.len() {
                assert(decimal(n)[i] == front[i]);
            }
        }
    } else {
        reveal_with_fuel(digits_value, 2);
    }
}

/// Reading a number gives back what writing it wrote, where it is not too large to be read.
pub proof fn law_number_reads_decimal(n: nat, max: nat)
    ensures
        number(decimal(n), max) == if n <= max {
            Some(n)
        } else {
            None
        },
{
    lemma_decimal_digits(n);
    assert(is_digit(decimal(n)[0]));
}

/// There is always a first piece.
pub proof fn lemma_split_nonempty(s: Seq<char>, sep: char)
    ensures
        split(s, sep).len() > 0,
    decreases s.len(),
{
    if s.len() > 0 {
        lemma_split_nonempty(s.drop_last(), sep);
    }
}

/// The pieces hold no separator and no character that the text does not hold.
pub proof fn lemma_split_pieces(s: Seq<char>, sep: char)
    ensures
        split(s, sep).len() > 0,
        forall|i: int| 0 <= i < split(s, sep).len() ==> !(#[trigger] split(s, sep)[i]).contains(sep),
        forall|i: int, j: int|
            0 <= i < split(s, sep).len() && 0 <= j < split(s, sep)[i].len() ==> s.contains(
                #[trigger] split(s, sep)[i][j],
            ),
    decreases s.len(),
{
    lemma_split_nonempty(s, sep);
    if s.len() > 0 {
        let front = s.drop_last();
        lemma_split_pieces(front, sep);
        let pieces = split(s, sep);
        let before_pieces = split(front, sep);
        assert forall|c: char| front.contains(c) implies #[trigger] s.contains(c) by {
            let k = choose|k: int| 0 <= k < front.len() && front[k] == c;
            assert(s[k] == c);
        }
        assert(s.contains(s.last())) by {
            assert(s[s.len() - 1] == s.last());
        }
        assert forall|i: int| 0 <= i < pieces.len() implies !(#[trigger] pieces[i]).contains(sep) by {
            if s.last() != sep && i == pieces.len() - 1 {
                let p = before_pieces.last();
                assert(p == before_pieces[before_pieces.len() - 1]);
                if pieces[i].contains(sep) {
                    let k = choose|k: int| 0 <= k < pieces[i].len() && pieces[i][k] == sep;
                    assert(p[k] == sep);
                    assert(p.contains(sep));
                }
            } else if i < before_pieces.len() {
                assert(pieces[i] == before_pieces[i]);
            }
        }
        assert forall|i: int, j: int|
            0 <= i < pieces.len() && 0 <= j < pieces[i].len() implies s.contains(
            #[trigger] pieces[i][j],
        ) by {
            if s.last() != sep && i == pieces.len() - 1 {
                let p = before_pieces.last();
                if j < p.len() {
                    assert(before_pieces[before_pieces.len() - 1][j] == pieces[i][j]);
                    assert(front.contains(pieces[i][j]));
                }
            } else if i < before_pieces.len() {
                assert(before_pieces[i][j] == pieces[i][j]);
                assert(front.contains(pieces[i][j]));
            }
        }
    }
}

/// A text without the separator is its only piece.
pub proof fn lemma_split_whole(s: Seq<char>, sep: char)
    requires
        !s.contains(sep),
    ensures
        split(s, sep) == seq![s],
    decreases s.len(),
{
    if s.len() > 0 {
        assert forall|i: int| 0 <= i < s.drop_last().len() implies s.drop_last()[i] != sep by {
            assert(s[i] != sep);
        }
        lemma_split_whole(s.drop_last(), sep);
        assert(s[s.len() - 1] != sep);
        assert(s.drop_last().push(s.last()) =~= s);
        assert(split(s, sep) =~= seq![s]);
    } else {
        assert(s =~= Seq::<char>::empty());
    }
}

/// A piece that follows a separator is the last piece.
pub proof fn lemma_split_append(a: Seq<char>, piece: Seq<char>, sep: char)
    requires
        !piece.contains(sep),
    ensures
        split(a.push(sep) + piece, sep) == split(a, sep).push(piece),
    decreases piece.len(),
{
    let s = a.push(sep) + piece;
    if piece.len() == 0 {
        assert(s =~= a.push(sep));
        assert(s.drop_last() =~= a);
        assert(piece =~= Seq::<char>::empty());
    } else {
        let q = piece.drop_last();
        assert forall|i: int| 0 <= i < q.len() implies q[i] != sep by {
            assert(piece[i] != sep);
        }
        lemma_split_append(a, q, sep);
        assert(s.drop_last() =~= a.push(sep) + q);
        assert(piece[piece.len() - 1] != sep);
        assert(split(a, sep).push(q).drop_last() =~= split(a, sep));
        assert(q.push(piece.last()) =~= piece);
    }
}

/// Splitting undoes joining.
pub proof fn lemma_split_join(pieces: Seq<Seq<char>>, sep: char)
    requires
        pieces.len() > 0,
        forall|i: int| 0 <= i < pieces.len() ==> !(#[trigger] pieces[i]).contains(sep),
    ensures
        split(join(pieces, sep), sep) == pieces,
    decreases pieces.len(),
{
    if pieces.len() == 1 {
        lemma_split_whole(pieces[0], sep);
        assert(seq![pieces[0]] =~= pieces);
    } else {
        let front = pieces.drop_last();
        assert forall|i: int| 0 <= i < front.len() implies !(#[trigger] front[i]).contains(sep) by {
            assert(front[i] == pieces[i]);
        }
        lemma_split_join(front, sep);
        assert(!pieces[pieces.len() - 1].contains(sep));
        lemma_split_append(join(front, sep), pieces.last(), sep);
        assert(front.push(pieces.last()) =~= pieces);
    }
}

/// Joining undoes splitting.
pub proof fn lemma_join_split(s: Seq<char>, sep: char)
    ensures
        join(split(s, sep), sep) == s,
    decreases s.len(),
{
    if s.len() > 0 {
        let front = split(s.drop_last(), sep);
        lemma_split_nonempty(s.drop_last(), sep);
        lemma_join_split(s.drop_last(), sep);
        let pieces = split(s, sep);
        if s.last() == sep {
            assert(pieces.drop_last() =~= front);
            assert(join(pieces, sep) =~= s);
        } else {
            assert(pieces.drop_last() =~= front.drop_last());
            assert(join(pieces, sep) =~= join(front, sep).push(s.last()));
            assert(s.drop_last().push(s.last()) =~= s);
        }
    }
}

/// What stands before a separator, in a text that begins with a piece and the separator.
pub proof fn lemma_before(a: Seq<char>, rest: Seq<char>, sep: char)
    requires
        !a.contains(sep),
    ensures
        before(a.push(sep) + rest, sep) == a,
    decreases rest.len(),
{
    let s = a.push(sep) + rest;
    if rest.len() == 0 {
        assert(s.drop_last() =~= a);
        lemma_split_whole(a, sep);
        assert(split(s, sep)[0] == a);
    } else {
        lemma_before(a, rest.drop_last(), sep);
        assert(s.drop_last() =~= a.push(sep) + rest.drop_last());
        lemma_before_or_more(a, rest.drop_last(), sep);
    }
}

/// A separator in the text means more than one piece.
proof fn lemma_before_or_more(a: Seq<char>, rest: Seq<char>, sep: char)
    ensures
        split(a.push(sep) + rest, sep).len() > 1,
    decreases rest.len(),
{
    let s = a.push(sep) + rest;
    if rest.len() == 0 {
        assert(s.drop_last() =~= a);
        lemma_split_nonempty(a, sep);
    } else {
        assert(s.drop_last() =~= a.push(sep) + rest.drop_last());
        lemma_before_or_more(a, rest.drop_last(), sep);
    }
}

/// A beginning without the separator stays in front.
pub proof fn lemma_before_prefix(a: Seq<char>, b: Seq<char>, sep: char)
    requires
        !a.contains(sep),
    ensures
        before(a + b, sep) == a + before(b, sep),
{
    lemma_split_pieces(b, sep);
    lemma_join_split(b, sep);
    let pieces = split(b, sep);
    let first = pieces[0];
    assert(!first.contains(sep));
    assert forall|i: int| 0 <= i < (a + first).len() implies (a + first)[i] != sep by {
        if i < a.len() {
            assert(a[i] != sep);
        } else {
            assert(first[i - a.len()] != sep);
        }
    }
    assert(!(a + first).contains(sep));
    if pieces.len() == 1 {
        assert(a + b =~= a + first);
        lemma_split_whole(a + first, sep);
    } else {
        lemma_join_first(pieces, sep);
        let rest = b.skip((first.len() + 1) as int);
        assert(a + b =~= (a + first).push(sep) + rest);
        lemma_before(a + first, rest, sep);
    }
}

/// Two or more pieces joined begin with the first and a separator.
pub proof fn lemma_join_first(pieces: Seq<Seq<char>>, sep: char)
    requires
        pieces.len() > 1,
    ensures
        ({
            let s = join(pieces, sep);
            let n = pieces[0].len();
            &&& s.len() > n
            &&& s =~= pieces[0].push(sep) + s.skip((n + 1) as int)
        }),
    decreases pieces.len(),
{
    let s = join(pieces, sep);
    let front = pieces.drop_last();
    if pieces.len() == 2 {
        assert(front.len() == 1);
        assert(s =~= pieces[0].push(sep) + pieces[1]);
    } else {
        lemma_join_first(front, sep);
        assert(front[0] == pieces[0]);
        let f = join(front, sep);
        assert(f == pieces[0].push(sep) + f.skip((pieces[0].len() + 1) as int));
        assert(s =~= pieces[0].push(sep) + s.skip((pieces[0].len() + 1) as int));
    }
}

/// Trimming leaves a text alone that begins and ends with other characters.
pub proof fn lemma_trimmed_unchanged(s: Seq<char>)
    requires
        s.len() > 0 ==> !is_white_space(s[0]) && !is_white_space(s.last()),
    ensures
        trimmed(s) == s,
{
}

/// A number holds digits and at most one plus sign.
pub proof fn lemma_number_chars(s: Seq<char>, max: nat)
    requires
        number(s, max) is Some,
    ensures
        s.len() > 0,
        forall|i: int| 0 <= i < s.len() ==> is_digit(#[trigger] s[i]) || s[i] == '+',
{
    let digits = unsigned_part(s);
    assert forall|i: int| 0 <= i < s.len() implies is_digit(#[trigger] s[i]) || s[i] == '+' by {
        if digits.len() < s.len() {
            if i > 0 {
                assert(digits[i - 1] == s[i]);
            }
        } else {
            assert(digits[i] == s[i]);
        }
    }
}

} // verus!
