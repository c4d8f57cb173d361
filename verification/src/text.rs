//! Character sequences: comparing, splitting on a separator, joining, and
//! the decimal text of an integer.

use vstd::prelude::*;
use vstd::std_specs::iter::IteratorSpec;

verus! {

/// The pieces of `s` between the occurrences of `sep`, in order. There is
/// always at least one piece, and a piece may be empty.
pub open spec fn split(s: Seq<char>, sep: char) -> Seq<Seq<char>>
    decreases s.len(),
{
    if s.len() == 0 {
        seq![Seq::<char>::empty()]
    } else {
        let before = split(s.drop_last(), sep);
        if s.last() == sep {
            before.push(Seq::<char>::empty())
        } else {
            before.drop_last().push(before.last().push(s.last()))
        }
    }
}

/// The pieces written one after the other with `sep` between neighbours.
pub open spec fn join(pieces: Seq<Seq<char>>, sep: char) -> Seq<char>
    decreases pieces.len(),
{
    if pieces.len() == 0 {
        Seq::<char>::empty()
    } else if pieces.len() == 1 {
        pieces[0]
    } else {
        join(pieces.drop_last(), sep).push(sep) + pieces.last()
    }
}

/// Every piece followed by `mark`, written one after the other.
pub open spec fn terminate_each(pieces: Seq<Seq<char>>, mark: Seq<char>) -> Seq<char>
    decreases pieces.len(),
{
    if pieces.len() == 0 {
        Seq::<char>::empty()
    } else {
        terminate_each(pieces.drop_last(), mark) + pieces.last() + mark
    }
}

/// Whether `c` occurs nowhere in `s`.
pub open spec fn free_of(s: Seq<char>, c: char) -> bool {
    forall|i: int| 0 <= i < s.len() ==> s[i] != c
}

/// Whether `c` occurs in none of the pieces.
pub open spec fn all_free_of(pieces: Seq<Seq<char>>, c: char) -> bool {
    forall|k: int| 0 <= k < pieces.len() ==> free_of(#[trigger] pieces[k], c)
}

/// Splitting yields at least one piece, and no piece holds the separator.
pub proof fn lemma_split_pieces(s: Seq<char>, sep: char)
    ensures
        split(s, sep).len() >= 1,
        all_free_of(split(s, sep), sep),
    decreases s.len(),
{
    if s.len() > 0 {
        lemma_split_pieces(s.drop_last(), sep);
    }
}

/// Joining the pieces of a text gives the text back.
pub proof fn lemma_join_split(s: Seq<char>, sep: char)
    ensures
        join(split(s, sep), sep) == s,
    decreases s.len(),
{
    if s.len() == 0 {
        assert(join(split(s, sep), sep) =~= s);
    } else {
        let front = s.drop_last();
        let before = split(front, sep);
        lemma_join_split(front, sep);
        lemma_split_pieces(front, sep);
        if s.last() == sep {
            let now = before.push(Seq::<char>::empty());
            assert(now.drop_last() =~= before);
            assert(join(now, sep) =~= front.push(sep));
            assert(front.push(sep) =~= s);
        } else {
            let grown = before.last().push(s.last());
            let now = before.drop_last().push(grown);
            assert(now.drop_last() =~= before.drop_last());
            if before.len() == 1 {
                assert(join(now, sep) =~= front.push(s.last()));
            } else {
                assert(join(now, sep) =~= (join(before.drop_last(), sep).push(sep)
                    + before.last()).push(s.last()));
            }
            assert(front.push(s.last()) =~= s);
        }
    }
}

/// Splitting a text that ends in a separator-free piece: the piece comes
/// last, after the pieces of what stands before the separator.
pub proof fn lemma_split_append(head: Seq<char>, tail: Seq<char>, sep: char)
    requires
        free_of(tail, sep),
    ensures
        split(head.push(sep) + tail, sep) == split(head, sep).push(tail),
    decreases tail.len(),
{
    let whole = head.push(sep) + tail;
    if tail.len() == 0 {
        assert(whole =~= head.push(sep));
        assert(whole.drop_last() =~= head);
        assert(tail =~= Seq::<char>::empty());
    } else {
        let shorter = tail.drop_last();
        lemma_split_append(head, shorter, sep);
        assert(whole.drop_last() =~= head.push(sep) + shorter);
        assert(whole.last() == tail.last());
        let before = split(head, sep).push(shorter);
        assert(before.drop_last() =~= split(head, sep));
        assert(shorter.push(tail.last()) =~= tail);
    }
}

/// Splitting what was joined gives the pieces back, as long as there is at
/// least one piece and none of them holds the separator.
pub proof fn lemma_split_join(pieces: Seq<Seq<char>>, sep: char)
    requires
        pieces.len() >= 1,
        all_free_of(pieces, sep),
    ensures
        split(join(pieces, sep), sep) == pieces,
    decreases pieces.len(),
{
    if pieces.len() == 1 {
        lemma_split_single(pieces[0], sep);
        assert(seq![pieces[0]] =~= pieces);
    } else {
        let front = pieces.drop_last();
        assert(all_free_of(front, sep)) by {
            assert forall|k: int| 0 <= k < front.len() implies free_of(#[trigger] front[k], sep) by {
                assert(front[k] == pieces[k]);
            }
        }
        lemma_split_join(front, sep);
        lemma_split_append(join(front, sep), pieces.last(), sep);
        assert(front.push(pieces.last()) =~= pieces);
    }
}

/// A text without the separator is its own single piece.
pub proof fn lemma_split_single(s: Seq<char>, sep: char)
    requires
        free_of(s, sep),
    ensures
        split(s, sep) == seq![s],
    decreases s.len(),
{
    if s.len() == 0 {
        assert(s =~= Seq::<char>::empty());
    } else {
        lemma_split_single(s.drop_last(), sep);
        let before = seq![s.drop_last()];
        assert(before.drop_last().push(before.last().push(s.last())) =~= seq![s]) by {
            assert(s.drop_last().push(s.last()) =~= s);
        }
    }
}

/// Whether two string slices hold the same characters.
pub fn same_text(a: &str, b: &str) -> (same: bool)
    ensures
        same == (a@ == b@),
{
    let mut left = a.chars();
    let mut right = b.chars();
    let ghost mut seen: int = 0;
    loop
        invariant
            left.obeys_prophetic_iter_laws(),
            right.obeys_prophetic_iter_laws(),
            0 <= seen <= a@.len(),
            seen <= b@.len(),
            left.remaining() == a@.skip(seen),
            right.remaining() == b@.skip(seen),
            a@.take(seen) == b@.take(seen),
        decreases a@.len() - seen,
    {
        let x = left.next();
        let y = right.next();
        match (x, y) {
            (Some(c), Some(d)) => {
                if c != d {
                    assert(a@[seen] != b@[seen]);
                    return false;
                }
                proof {
                    assert(a@.take(seen + 1) =~= a@.take(seen).push(c));
                    assert(b@.take(seen + 1) =~= b@.take(seen).push(d));
                    assert(a@.skip(seen + 1) =~= a@.skip(seen).drop_first());
                    assert(b@.skip(seen + 1) =~= b@.skip(seen).drop_first());
                    seen = seen + 1;
                }
            },
            (None, None) => {
                assert(a@ =~= a@.take(seen));
                assert(b@ =~= b@.take(seen));
                return true;
            },
            _ => {
                assert(a@.len() != b@.len());
                return false;
            },
        }
    }
}

/// Splits `text` on `sep`.
pub fn split_text(text: &str, sep: char) -> (pieces: Vec<String>)
    ensures
        pieces.deep_view() == split(text@, sep),
{
    let n: usize = text.unicode_len();
    let mut pieces: Vec<String> = Vec::new();
    let mut chars = text.chars();
    let mut start: usize = 0;
    let mut i: usize = 0;
    assert(text@.take(0) =~= Seq::<char>::empty());
    assert(text@.subrange(0, 0) =~= Seq::<char>::empty());
    assert(pieces.deep_view() =~= split(text@.take(0), sep).drop_last());
    while i < n
        invariant
            n == text@.len(),
            start <= i <= n,
            chars.obeys_prophetic_iter_laws(),
            chars.remaining() == text@.skip(i as int),
            split(text@.take(i as int), sep).len() >= 1,
            pieces.deep_view() == split(text@.take(i as int), sep).drop_last(),
            text@.subrange(start as int, i as int) == split(text@.take(i as int), sep).last(),
        decreases n - i,
    {
        let ghost before = split(text@.take(i as int), sep);
        let ghost old_pieces = pieces.deep_view();
        proof {
            assert(text@.take(i + 1).drop_last() =~= text@.take(i as int));
            assert(text@.take(i + 1).last() == text@[i as int]);
            assert(text@.skip(i + 1) =~= text@.skip(i as int).drop_first());
        }
        let next = chars.next();
        if next == Some(sep) {
            let piece = text.substring_char(start, i).to_owned();
            pieces.push(piece);
            start = i + 1;
            proof {
                let now = before.push(Seq::<char>::empty());
                assert(pieces.deep_view() =~= old_pieces.push(piece@));
                assert(old_pieces.push(before.last()) =~= before);
                assert(now.drop_last() =~= before);
                assert(text@.subrange(i + 1, i + 1) =~= Seq::<char>::empty());
            }
        } else {
            proof {
                let now = before.drop_last().push(before.last().push(text@[i as int]));
                assert(now.drop_last() =~= before.drop_last());
                assert(text@.subrange(start as int, i + 1) =~= text@.subrange(
                    start as int,
                    i as int,
                ).push(text@[i as int]));
            }
        }
        i = i + 1;
    }
    let ghost all = split(text@, sep);
    let ghost old_pieces = pieces.deep_view();
    assert(text@.take(n as int) =~= text@);
    let piece = text.substring_char(start, i).to_owned();
    pieces.push(piece);
    proof {
        assert(pieces.deep_view() =~= old_pieces.push(piece@));
        assert(all.drop_last().push(all.last()) =~= all);
    }
    pieces
}

/// Writes every piece followed by `mark`, one after the other.
pub fn terminate_each_text(pieces: &Vec<String>, mark: &str) -> (text: String)
    ensures
        text@ == terminate_each(pieces.deep_view(), mark@),
{
    let mut text = String::new();
    let mut k: usize = 0;
    assert(pieces.deep_view().take(0) =~= Seq::<Seq<char>>::empty());
    while k < pieces.len()
        invariant
            k <= pieces.len(),
            text@ == terminate_each(pieces.deep_view().take(k as int), mark@),
        decreases pieces.len() - k,
    {
        let ghost done = pieces.deep_view().take(k as int);
        let ghost more = pieces.deep_view().take(k + 1);
        text.append(pieces[k].as_str());
        text.append(mark);
        proof {
            assert(more.drop_last() =~= done);
            assert(more.last() == pieces[k as int]@);
        }
        k = k + 1;
    }
    assert(pieces.deep_view().take(k as int) =~= pieces.deep_view());
    text
}

/// The character of a decimal digit.
pub open spec fn digit_char(d: int) -> char {
    if d == 0 {
        '0'
    } else if d == 1 {
        '1'
    } else if d == 2 {
        '2'
    } else if d == 3 {
        '3'
    } else if d == 4 {
        '4'
    } else if d == 5 {
        '5'
    } else if d == 6 {
        '6'
    } else if d == 7 {
        '7'
    } else if d == 8 {
        '8'
    } else {
        '9'
    }
}

/// The decimal digits of a natural number, most significant first, without
/// leading zeros.
pub open spec fn decimal_digits(n: nat) -> Seq<char>
    decreases n,
{
    if n < 10 {
        seq![digit_char(n as int)]
    } else {
        decimal_digits(n / 10).push(digit_char((n % 10) as int))
    }
}

/// The decimal text of an integer: a minus sign for a negative number, then
/// the digits of its magnitude.
pub open spec fn decimal_text(n: int) -> Seq<char> {
    if n < 0 {
        seq!['-'] + decimal_digits((-n) as nat)
    } else {
        decimal_digits(n as nat)
    }
}

/// Whether `c` is a decimal digit or the minus sign.
pub open spec fn is_decimal_char(c: char) -> bool {
    c == '-' || c == '0' || c == '1' || c == '2' || c == '3' || c == '4' || c == '5' || c == '6'
        || c == '7' || c == '8' || c == '9'
}

/// A decimal text is never empty and holds only digits and the minus sign.
pub proof fn lemma_decimal_chars(n: int)
    ensures
        decimal_text(n).len() >= 1,
        forall|i: int| 0 <= i < decimal_text(n).len() ==> is_decimal_char(#[trigger] decimal_text(n)[i]),
{
    if n < 0 {
        lemma_digit_chars((-n) as nat);
    } else {
        lemma_digit_chars(n as nat);
    }
}

proof fn lemma_digit_chars(n: nat)
    ensures
        decimal_digits(n).len() >= 1,
        forall|i: int| 0 <= i < decimal_digits(n).len() ==> is_decimal_char(#[trigger] decimal_digits(n)[i]),
    decreases n,
{
    if n >= 10 {
        lemma_digit_chars(n / 10);
    }
}

fn digit_text(d: u32) -> (text: &'static str)
    requires
        d < 10,
    ensures
        text@ == seq![digit_char(d as int)],
{
    proof {
        reveal_strlit("0");
        reveal_strlit("1");
        reveal_strlit("2");
        reveal_strlit("3");
        reveal_strlit("4");
        reveal_strlit("5");
        reveal_strlit("6");
        reveal_strlit("7");
        reveal_strlit("8");
        reveal_strlit("9");
    }
    let text = if d == 0 {
        "0"
    } else if d == 1 {
        "1"
    } else if d == 2 {
        "2"
    } else if d == 3 {
        "3"
    } else if d == 4 {
        "4"
    } else if d == 5 {
        "5"
    } else if d == 6 {
        "6"
    } else if d == 7 {
        "7"
    } else if d == 8 {
        "8"
    } else {
        "9"
    };
    assert(text@ =~= seq![digit_char(d as int)]);
    text
}

fn append_digits(n: u32, out: &mut String)
    ensures
        final(out)@ == old(out)@ + decimal_digits(n as nat),
    decreases n,
{
    if n >= 10 {
        append_digits(n / 10, out);
    }
    out.append(digit_text(n % 10));
    proof {
        if n >= 10 {
            assert(out@ =~= old(out)@ + decimal_digits((n / 10) as nat).push(
                digit_char((n % 10) as int),
            ));
        } else {
            assert(out@ =~= old(out)@ + seq![digit_char(n as int)]);
        }
    }
}

/// The decimal text of `n`.
pub fn decimal_string(n: i32) -> (text: String)
    ensures
        text@ == decimal_text(n as int),
{
    let mut text = String::new();
    if n < 0 {
        proof {
            reveal_strlit("-");
        }
        text.append("-");
        let wide: i64 = n as i64;
        let magnitude: u32 = (0 - wide) as u32;
        append_digits(magnitude, &mut text);
        assert(text@ =~= seq!['-'] + decimal_digits((-n) as nat));
    } else {
        append_digits(n as u32, &mut text);
        assert(text@ =~= decimal_digits(n as nat));
    }
    text
}

/// The characters of a string slice.
pub fn chars_of(text: &str) -> (chars: Vec<char>)
    ensures
        chars@ == text@,
{
    let mut chars: Vec<char> = Vec::new();
    let mut rest = text.chars();
    loop
        invariant
            rest.obeys_prophetic_iter_laws(),
            chars@.len() <= text@.len(),
            rest.remaining() == text@.skip(chars@.len() as int),
            chars@ == text@.take(chars@.len() as int),
        decreases text@.len() - chars@.len(),
    {
        let ghost seen = chars@.len() as int;
        match rest.next() {
            Some(c) => {
                chars.push(c);
                proof {
                    assert(text@.take(seen + 1) =~= text@.take(seen).push(c));
                    assert(text@.skip(seen + 1) =~= text@.skip(seen).drop_first());
                }
            },
            None => {
                assert(text@.take(seen) =~= text@);
                return chars;
            },
        }
    }
}

/// Whether `c` is white space: a character that Unicode classes as
/// `White_Space`.
pub open spec fn is_space(c: char) -> bool {
    let code: u32 = c as u32;
    ||| 0x09 <= code <= 0x0D
    ||| code == 0x20
    ||| code == 0x85
    ||| code == 0xA0
    ||| code == 0x1680
    ||| 0x2000 <= code <= 0x200A
    ||| code == 0x2028
    ||| code == 0x2029
    ||| code == 0x202F
    ||| code == 0x205F
    ||| code == 0x3000
}

/// `s` without the white space at its start.
pub open spec fn trim_start(s: Seq<char>) -> Seq<char>
    decreases s.len(),
{
    if s.len() > 0 && is_space(s[0]) {
        trim_start(s.drop_first())
    } else {
        s
    }
}

/// `s` without the white space at its end.
pub open spec fn trim_end(s: Seq<char>) -> Seq<char>
    decreases s.len(),
{
    if s.len() > 0 && is_space(s.last()) {
        trim_end(s.drop_last())
    } else {
        s
    }
}

/// `s` without the white space at its start and at its end.
pub open spec fn trimmed(s: Seq<char>) -> Seq<char> {
    trim_end(trim_start(s))
}

/// The value of a decimal digit, and nothing for any other character.
pub open spec fn digit_value(c: char) -> Option<nat> {
    if c == '0' {
        Some(0)
    } else if c == '1' {
        Some(1)
    } else if c == '2' {
        Some(2)
    } else if c == '3' {
        Some(3)
    } else if c == '4' {
        Some(4)
    } else if c == '5' {
        Some(5)
    } else if c == '6' {
        Some(6)
    } else if c == '7' {
        Some(7)
    } else if c == '8' {
        Some(8)
    } else if c == '9' {
        Some(9)
    } else {
        None
    }
}

/// Whether every character is a decimal digit.
pub open spec fn all_digits(s: Seq<char>) -> bool {
    forall|i: int| 0 <= i < s.len() ==> digit_value(#[trigger] s[i]) is Some
}

/// The number that a sequence of decimal digits denotes; 0 for the empty
/// sequence.
pub open spec fn digits_value(s: Seq<char>) -> nat
    decreases s.len(),
{
    if s.len() == 0 {
        0
    } else {
        digits_value(s.drop_last()) * 10 + digit_value(s.last()).unwrap_or(0)
    }
}

/// The natural number that a text denotes: an optional plus sign and then
/// one or more decimal digits, nothing before, between or after them.
pub open spec fn unsigned_of_text(s: Seq<char>) -> Option<nat> {
    let digits = if s.len() > 0 && s[0] == '+' {
        s.drop_first()
    } else {
        s
    };
    if digits.len() > 0 && all_digits(digits) {
        Some(digits_value(digits))
    } else {
        None
    }
}

/// The count that a text denotes, white space around it aside: the number
/// it denotes where that fits the machine's word, and nothing otherwise.
pub open spec fn count_of_text(s: Seq<char>) -> Option<usize> {
    match unsigned_of_text(trimmed(s)) {
        Some(value) => if value <= usize::MAX {
            Some(value as usize)
        } else {
            None
        },
        None => None,
    }
}

/// A longer sequence of digits denotes no smaller number than its start.
proof fn lemma_digits_value_grows(s: Seq<char>, k: int)
    requires
        0 <= k <= s.len(),
    ensures
        digits_value(s.take(k)) <= digits_value(s),
    decreases s.len() - k,
{
    if k == s.len() {
        assert(s.take(k) =~= s);
    } else {
        lemma_digits_value_grows(s, k + 1);
        assert(s.take(k + 1).drop_last() =~= s.take(k));
    }
}

fn space(c: char) -> (yes: bool)
    ensures
        yes == is_space(c),
{
    let code: u32 = c as u32;
    (0x09 <= code && code <= 0x0D) || code == 0x20 || code == 0x85 || code == 0xA0 || code
        == 0x1680 || (0x2000 <= code && code <= 0x200A) || code == 0x2028 || code == 0x2029
        || code == 0x202F || code == 0x205F || code == 0x3000
}

fn digit_of(c: char) -> (digit: Option<usize>)
    ensures
        match digit {
            Some(d) => digit_value(c) == Some(d as nat) && d < 10,
            None => digit_value(c) is None,
        },
{
    if c == '0' {
        Some(0)
    } else if c == '1' {
        Some(1)
    } else if c == '2' {
        Some(2)
    } else if c == '3' {
        Some(3)
    } else if c == '4' {
        Some(4)
    } else if c == '5' {
        Some(5)
    } else if c == '6' {
        Some(6)
    } else if c == '7' {
        Some(7)
    } else if c == '8' {
        Some(8)
    } else if c == '9' {
        Some(9)
    } else {
        None
    }
}

/// Reads a count from a text, ignoring white space around it.
pub fn parse_count(text: &str) -> (count: Option<usize>)
    ensures
        count == count_of_text(text@),
{
    let chars = chars_of(text);
    let ghost s = chars@;
    let mut lo: usize = 0;
    assert(s.skip(0) =~= s);
    while lo < chars.len() && space(chars[lo])
        invariant
            lo <= chars.len(),
            chars@ == s,
            trim_start(s) == trim_start(s.skip(lo as int)),
        decreases chars.len() - lo,
    {
        assert(s.skip(lo as int).drop_first() =~= s.skip(lo + 1));
        lo = lo + 1;
    }
    assert(trim_start(s) == s.skip(lo as int));
    let mut hi: usize = chars.len();
    assert(s.subrange(lo as int, hi as int) =~= s.skip(lo as int));
    while hi > lo && space(chars[hi - 1])
        invariant
            lo <= hi <= chars.len(),
            chars@ == s,
            trimmed(s) == trim_end(s.subrange(lo as int, hi as int)),
        decreases hi,
    {
        assert(s.subrange(lo as int, hi as int).drop_last() =~= s.subrange(lo as int, hi - 1));
        hi = hi - 1;
    }
    let ghost body = s.subrange(lo as int, hi as int);
    assert(trimmed(s) == body);
    let mut from: usize = lo;
    if from < hi && chars[from] == '+' {
        from = from + 1;
        assert(body.drop_first() =~= s.subrange(from as int, hi as int));
    }
    let ghost digits = s.subrange(from as int, hi as int);
    assert(unsigned_of_text(body) == if digits.len() > 0 && all_digits(digits) {
        Some(digits_value(digits))
    } else {
        None
    });
    if from == hi {
        return None;
    }
    let mut value: usize = 0;
    let mut k: usize = from;
    assert(digits.take(0) =~= Seq::<char>::empty());
    while k < hi
        invariant
            from <= k <= hi <= chars.len(),
            chars@ == s,
            digits == s.subrange(from as int, hi as int),
            count_of_text(text@) == if all_digits(digits) && digits_value(digits) <= usize::MAX {
                Some(digits_value(digits) as usize)
            } else {
                None
            },
            all_digits(digits.take(k - from)),
            value == digits_value(digits.take(k - from)),
        decreases hi - k,
    {
        let ghost seen = digits.take(k - from);
        let ghost more = digits.take(k - from + 1);
        proof {
            assert(more.drop_last() =~= seen);
            assert(more.last() == chars@[k as int]);
            lemma_digits_value_grows(digits, k - from + 1);
        }
        match digit_of(chars[k]) {
            None => {
                assert(digit_value(digits[k - from]) is None);
                return None;
            },
            Some(d) => {
                if value > (usize::MAX - d) / 10 {
                    assert(digits_value(more) > usize::MAX);
                    return None;
                }
                value = value * 10 + d;
                proof {
                    assert forall|i: int| 0 <= i < more.len() implies digit_value(
                        #[trigger] more[i],
                    ) is Some by {
                        if i < seen.len() {
                            assert(more[i] == seen[i]);
                        }
                    }
                }
            },
        }
        k = k + 1;
    }
    assert(digits.take(hi - from) =~= digits);
    Some(value)
}

} // verus!
