//! Text: decimal numbers, lines and fields.

use vstd::prelude::*;
use vstd::string::*;
use vstd::utf8::*;

verus! {

/// The character that writes the digit `d`.
pub open spec fn digit(d: nat) -> char {
    ('0' as u32 + d) as char
}

/// The decimal digits of `n`, most significant first.
pub open spec fn decimal(n: nat) -> Seq<char>
    decreases n,
{
    if n < 10 {
        seq![digit(n)]
    } else {
        decimal(n / 10).push(digit(n % 10))
    }
}

/// A number that may be negative, in decimal.
pub open spec fn signed_decimal(n: int) -> Seq<char> {
    if n < 0 {
        seq!['-'] + decimal((-n) as nat)
    } else {
        decimal(n as nat)
    }
}

/// How many bytes a text takes up.
pub open spec fn byte_len(text: Seq<char>) -> nat {
    encode_utf8(text).len()
}

/// Where `mark` first stands in `text`: the length of `text` if it does not.
pub open spec fn find(text: Seq<char>, mark: char) -> int
    decreases text.len(),
{
    if text.len() == 0 || text[0] == mark {
        0
    } else {
        1 + find(text.skip(1), mark)
    }
}

/// A line without the carriage return at its end, if there is one.
pub open spec fn without_return(line: Seq<char>) -> Seq<char> {
    if line.len() > 0 && line.last() == '\r' {
        line.drop_last()
    } else {
        line
    }
}

/// The lines of a text. A line ends with a line feed, which a carriage return may precede; the
/// last line needs no ending.
pub open spec fn lines(text: Seq<char>) -> Seq<Seq<char>>
    decreases text.len(),
{
    if text.len() == 0 {
        Seq::empty()
    } else {
        let end = find(text, '\n');
        if 0 <= end < text.len() {
            seq![without_return(text.take(end))] + lines(text.skip(end + 1))
        } else {
            seq![text]
        }
    }
}

/// The fields of a line, which `mark` separates.
pub open spec fn fields(line: Seq<char>, mark: char) -> Seq<Seq<char>>
    decreases line.len(),
{
    let end = find(line, mark);
    if 0 <= end < line.len() {
        seq![line.take(end)] + fields(line.skip(end + 1), mark)
    } else {
        seq![line]
    }
}

/// Whether all characters are decimal digits.
pub open spec fn all_digits(text: Seq<char>) -> bool {
    forall|i: int| 0 <= i < text.len() ==> '0' <= #[trigger] text[i] <= '9'
}

/// The number that a run of digits writes.
pub open spec fn value_of(digits: Seq<char>) -> nat
    decreases digits.len(),
{
    if digits.len() == 0 {
        0
    } else {
        value_of(digits.drop_last()) * 10 + (digits.last() as u32 - '0' as u32) as nat
    }
}

/// The number that a text writes: at least one digit, after an optional plus sign, and nothing
/// else. A number that is too large for the machine is none.
pub open spec fn number(text: Seq<char>) -> Option<usize> {
    let digits = if text.len() > 0 && text[0] == '+' {
        text.skip(1)
    } else {
        text
    };
    if digits.len() > 0 && all_digits(digits) && value_of(digits) <= usize::MAX {
        Some(value_of(digits) as usize)
    } else {
        None
    }
}

/// The views of some pieces of text.
pub open spec fn views(pieces: Seq<&str>) -> Seq<Seq<char>> {
    pieces.map_values(|piece: &str| piece@)
}

/// The bytes of two texts in a row are the bytes of both.
pub proof fn lemma_encode_concat(a: Seq<char>, b: Seq<char>)
    ensures
        encode_utf8(a + b) == encode_utf8(a) + encode_utf8(b),
    decreases a.len(),
{
    if a.len() == 0 {
        assert(a + b =~= b);
        assert(encode_utf8(a) + encode_utf8(b) =~= encode_utf8(b));
    } else {
        lemma_encode_concat(a.drop_first(), b);
        assert((a + b).drop_first() =~= a.drop_first() + b);
        assert(encode_utf8(a + b) =~= encode_utf8(a) + encode_utf8(b));
    }
}

/// Different texts have different bytes.
pub proof fn lemma_encode_injective(a: Seq<char>, b: Seq<char>)
    requires
        encode_utf8(a) == encode_utf8(b),
    ensures
        a == b,
{
    encode_utf8_decode_utf8(a);
    encode_utf8_decode_utf8(b);
}

/// An ASCII character is one byte, which stands where the characters before it end.
pub proof fn lemma_ascii_byte(text: Seq<char>, at: int, mark: char)
    requires
        0 <= at < text.len(),
        text[at] == mark,
        mark <= '\u{7f}',
    ensures
        encode_utf8(text.take(at)).len() < encode_utf8(text).len(),
        encode_utf8(text)[encode_utf8(text.take(at)).len() as int] == mark as u8,
{
    let single = seq![mark];
    let front = text.take(at);
    let back = text.skip(at + 1);
    assert(is_ascii_chars(single));
    is_ascii_chars_encode_utf8(single);
    assert(text =~= front + (single + back));
    lemma_encode_concat(single, back);
    lemma_encode_concat(front, single + back);
    assert(single[0] as u8 == encode_utf8(single)[0]);
}

/// A scan from the front finds the first mark.
pub proof fn lemma_find(text: Seq<char>, mark: char, at: int)
    requires
        0 <= at <= text.len(),
        forall|i: int| 0 <= i < at ==> #[trigger] text[i] != mark,
        at < text.len() ==> text[at] == mark,
    ensures
        find(text, mark) == at,
    decreases at,
{
    if at > 0 {
        assert(text[0] != mark);
        let rest = text.skip(1);
        assert forall|i: int| 0 <= i < at - 1 implies #[trigger] rest[i] != mark by {
            assert(rest[i] == text[i + 1]);
        }
        lemma_find(rest, mark, at - 1);
    }
}

/// The mark stands where it is found, and nowhere before.
pub proof fn lemma_find_is_first(text: Seq<char>, mark: char)
    ensures
        0 <= find(text, mark) <= text.len(),
        find(text, mark) < text.len() ==> text[find(text, mark)] == mark,
        forall|i: int| 0 <= i < find(text, mark) ==> #[trigger] text[i] != mark,
    decreases text.len(),
{
    if text.len() > 0 && text[0] != mark {
        let rest = text.skip(1);
        lemma_find_is_first(rest, mark);
        assert forall|i: int| 0 <= i < find(text, mark) implies #[trigger] text[i] != mark by {
            if i > 0 {
                assert(rest[i - 1] == text[i]);
            }
        }
    }
}

/// What precedes a line feed is a line.
pub proof fn lemma_first_line(line: Seq<char>, rest: Seq<char>)
    requires
        !line.contains('\n'),
    ensures
        lines(line + "\n"@ + rest) == seq![without_return(line)] + lines(rest),
{
    reveal_strlit("\n");
    let all = line + "\n"@ + rest;
    lemma_find(all, '\n', line.len() as int);
    assert(all.take(line.len() as int) =~= line);
    assert(all.skip(line.len() as int + 1) =~= rest);
}

/// A number in decimal is a run of digits that writes it.
pub proof fn lemma_decimal(n: nat)
    ensures
        decimal(n).len() > 0,
        all_digits(decimal(n)),
        value_of(decimal(n)) == n,
    decreases n,
{
    reveal_with_fuel(value_of, 2);
    if n < 10 {
        assert(decimal(n).drop_last() =~= Seq::empty());
    } else {
        lemma_decimal(n / 10);
        let front = decimal(n / 10);
        assert(decimal(n).drop_last() =~= front);
        assert forall|i: int| 0 <= i < decimal(n).len() implies '0' <= #[trigger] decimal(n)[i]
            <= '9' by {
            if i < front.len() {
                assert(decimal(n)[i] == front[i]);
            }
        }
    }
}

/// A number in decimal is read as that number, if the machine can hold it.
pub proof fn lemma_number_of_decimal(n: nat)
    requires
        n <= usize::MAX,
    ensures
        number(decimal(n)) == Some(n as usize),
{
    lemma_decimal(n);
    assert('0' <= decimal(n)[0]);
}

/// What comes before the first mark, and what comes after it: `None` if there is no mark.
pub fn split_once(text: &str, mark: u8) -> (parts: Option<(&str, &str)>)
    requires
        mark < 128,
    ensures
        match parts {
            Some((front, back)) => {
                &&& 0 <= find(text@, mark as char) < text@.len()
                &&& front@ == text@.take(find(text@, mark as char))
                &&& back@ == text@.skip(find(text@, mark as char) + 1)
            },
            None => find(text@, mark as char) == text@.len(),
        },
{
    let bytes = text.as_bytes();
    let mut at: usize = 0;
    while at < bytes.len() && bytes[at] != mark
        invariant
            at <= bytes@.len(),
            forall|i: int| 0 <= i < at ==> #[trigger] bytes@[i] != mark,
        decreases bytes@.len() - at,
    {
        at += 1;
    }
    proof {
        encode_utf8_valid_utf8(text@);
        encode_utf8_decode_utf8(text@);
    }
    if at >= bytes.len() {
        proof {
            assert forall|i: int| 0 <= i < text@.len() implies #[trigger] text@[i]
                != mark as char by {
                if text@[i] == mark as char {
                    lemma_ascii_byte(text@, i, mark as char);
                }
            }
            lemma_find(text@, mark as char, text@.len() as int);
        }
        return None;
    }
    proof {
        is_char_boundary_iff_not_is_continuation_byte(bytes@, at as int);
    }
    let (front, rest) = text.split_at(at);
    proof {
        encode_utf8_valid_utf8(rest@);
        encode_utf8_decode_utf8(rest@);
        encode_utf8_decode_utf8(front@);
        decode_utf8_split(bytes@, at as int);
        assert(rest.spec_bytes()[0] == mark);
        reveal_with_fuel(is_char_boundary, 2);
        assert(is_char_boundary(rest.spec_bytes(), 1));
    }
    let (one, back) = rest.split_at(1);
    proof {
        encode_utf8_decode_utf8(one@);
        encode_utf8_decode_utf8(back@);
        decode_utf8_split(rest.spec_bytes(), 1);
        let single = seq![mark as char];
        assert(is_ascii_chars(single));
        is_ascii_chars_encode_utf8(single);
        assert(one.spec_bytes() =~= encode_utf8(single));
        lemma_encode_injective(one@, single);
        assert(text@ == front@ + single + back@);
        assert forall|i: int| 0 <= i < front@.len() implies #[trigger] text@[i]
            != mark as char by {
            if front@[i] == mark as char {
                lemma_ascii_byte(front@, i, mark as char);
            }
        }
        lemma_find(text@, mark as char, front@.len() as int);
        assert(front@ =~= text@.take(front@.len() as int));
        assert(back@ =~= text@.skip(front@.len() as int + 1));
    }
    Some((front, back))
}

/// A text without its first character, if that is the given mark.
pub fn strip_mark(text: &str, mark: u8) -> (rest: Option<&str>)
    requires
        mark < 128,
    ensures
        match rest {
            Some(rest) => text@.len() > 0 && text@[0] == mark as char && rest@ == text@.skip(1),
            None => !(text@.len() > 0 && text@[0] == mark as char),
        },
{
    let bytes = text.as_bytes();
    if bytes.len() == 0 || bytes[0] != mark {
        proof {
            if text@.len() > 0 && text@[0] == mark as char {
                lemma_ascii_byte(text@, 0, mark as char);
                assert(text@.take(0) =~= Seq::empty());
            }
        }
        return None;
    }
    proof {
        encode_utf8_valid_utf8(text@);
        encode_utf8_decode_utf8(text@);
        reveal_with_fuel(is_char_boundary, 2);
        assert(is_char_boundary(bytes@, 1));
    }
    let (one, rest) = text.split_at(1);
    proof {
        encode_utf8_decode_utf8(one@);
        encode_utf8_decode_utf8(rest@);
        decode_utf8_split(bytes@, 1);
        let single = seq![mark as char];
        assert(is_ascii_chars(single));
        is_ascii_chars_encode_utf8(single);
        assert(one.spec_bytes() =~= encode_utf8(single));
        lemma_encode_injective(one@, single);
        assert(text@ == single + rest@);
        assert(rest@ =~= text@.skip(1));
    }
    Some(rest)
}

/// A line without the carriage return at its end, if there is one.
pub fn strip_return(line: &str) -> (rest: &str)
    ensures
        rest@ == without_return(line@),
{
    let bytes = line.as_bytes();
    let length: usize = bytes.len();
    if length == 0 || bytes[length - 1] != 13 {
        proof {
            if line@.len() > 0 && line@.last() == '\r' {
                lemma_last_byte(line@, '\r');
            }
        }
        return line;
    }
    proof {
        encode_utf8_valid_utf8(line@);
        encode_utf8_decode_utf8(line@);
        is_char_boundary_iff_not_is_continuation_byte(bytes@, length - 1);
    }
    let (rest, one) = line.split_at(length - 1);
    proof {
        encode_utf8_decode_utf8(one@);
        encode_utf8_decode_utf8(rest@);
        decode_utf8_split(bytes@, length - 1);
        let single = seq!['\r'];
        assert(is_ascii_chars(single));
        is_ascii_chars_encode_utf8(single);
        assert(one.spec_bytes() =~= encode_utf8(single));
        lemma_encode_injective(one@, single);
        assert(line@ == rest@ + single);
        assert(rest@ =~= line@.drop_last());
    }
    rest
}

/// The last byte of a text that ends with an ASCII character is that character.
proof fn lemma_last_byte(text: Seq<char>, last: char)
    requires
        text.len() > 0,
        text.last() == last,
        last <= '\u{7f}',
    ensures
        encode_utf8(text).len() > 0,
        encode_utf8(text).last() == last as u8,
{
    let single = seq![last];
    assert(is_ascii_chars(single));
    is_ascii_chars_encode_utf8(single);
    assert(text =~= text.drop_last() + single);
    lemma_encode_concat(text.drop_last(), single);
    assert(single[0] as u8 == encode_utf8(single)[0]);
}

/// The lines of a text.
pub fn split_lines(text: &str) -> (pieces: Vec<&str>)
    ensures
        views(pieces@) == lines(text@),
{
    let mut pieces: Vec<&str> = Vec::new();
    let mut rest: &str = text;
    proof {
        assert(views(pieces@) + lines(rest@) =~= lines(text@));
    }
    while !rest.is_empty()
        invariant
            views(pieces@) + lines(rest@) == lines(text@),
        decreases rest@.len(),
    {
        let ghost before = pieces@;
        let ghost left = rest@;
        match split_once(rest, 10) {
            Some((line, after)) => {
                let piece: &str = strip_return(line);
                pieces.push(piece);
                rest = after;
                proof {
                    assert(views(pieces@) =~= views(before).push(piece@));
                    assert(views(pieces@) + lines(rest@) =~= views(before) + lines(left));
                }
            },
            None => {
                pieces.push(rest);
                proof {
                    assert(views(pieces@) =~= views(before).push(rest@));
                    assert(lines(left) =~= seq![left]);
                    assert(views(pieces@) =~= views(before) + lines(left));
                }
                return pieces;
            },
        }
    }
    proof {
        assert(views(pieces@) + lines(rest@) =~= views(pieces@));
    }
    pieces
}

/// The fields of a line, which `mark` separates.
pub fn split_fields(line: &str, mark: u8) -> (pieces: Vec<&str>)
    requires
        mark < 128,
    ensures
        views(pieces@) == fields(line@, mark as char),
{
    let mut pieces: Vec<&str> = Vec::new();
    let mut rest: &str = line;
    proof {
        assert(views(pieces@) + fields(rest@, mark as char) =~= fields(line@, mark as char));
    }
    loop
        invariant
            mark < 128,
            views(pieces@) + fields(rest@, mark as char) == fields(line@, mark as char),
        decreases rest@.len(),
    {
        let ghost before = pieces@;
        let ghost left = rest@;
        match split_once(rest, mark) {
            Some((field, after)) => {
                pieces.push(field);
                rest = after;
                proof {
                    assert(views(pieces@) =~= views(before).push(field@));
                    assert(views(pieces@) + fields(rest@, mark as char) =~= views(before) + fields(
                        left,
                        mark as char,
                    ));
                }
            },
            None => {
                pieces.push(rest);
                proof {
                    assert(views(pieces@) =~= views(before).push(rest@));
                    assert(fields(left, mark as char) =~= seq![left]);
                    assert(views(pieces@) =~= views(before) + fields(left, mark as char));
                }
                return pieces;
            },
        }
    }
}

/// Whether two texts are the same.
pub fn same_text(a: &str, b: &str) -> (same: bool)
    ensures
        same == (a@ == b@),
{
    let left = a.as_bytes();
    let right = b.as_bytes();
    if left.len() != right.len() {
        return false;
    }
    let mut i: usize = 0;
    while i < left.len()
        invariant
            left@ == encode_utf8(a@),
            right@ == encode_utf8(b@),
            left@.len() == right@.len(),
            i <= left@.len(),
            forall|j: int| 0 <= j < i ==> left@[j] == right@[j],
        decreases left@.len() - i,
    {
        if left[i] != right[i] {
            return false;
        }
        i += 1;
    }
    proof {
        assert(left@ =~= right@);
        lemma_encode_injective(a@, b@);
    }
    true
}

/// One more digit does not make a number smaller.
proof fn lemma_value_of_prefix(digits: Seq<char>, length: int)
    requires
        0 <= length <= digits.len(),
        all_digits(digits),
    ensures
        value_of(digits.take(length)) <= value_of(digits),
    decreases digits.len() - length,
{
    if length == digits.len() {
        assert(digits.take(length) =~= digits);
    } else {
        lemma_value_of_prefix(digits, length + 1);
        assert(digits.take(length + 1).drop_last() =~= digits.take(length));
    }
}

/// The number that a text writes, if it writes one.
pub fn parse_number(text: &str) -> (result: Option<usize>)
    ensures
        result == number(text@),
{
    if !text.is_ascii() {
        proof {
            if number(text@) is Some {
                assert(is_ascii_chars(text@)) by {
                    assert forall|i: int| 0 <= i < text@.len() implies '\0' <= #[trigger] text@[i]
                        <= '\u{7f}' by {
                        if text@[0] == '+' && i > 0 {
                            assert(text@.skip(1)[i - 1] == text@[i]);
                        }
                    }
                }
            }
        }
        return None;
    }
    proof {
        is_ascii_spec_bytes(text);
    }
    let bytes = text.as_bytes();
    let start: usize = if bytes.len() > 0 && bytes[0] == 43 { 1 } else { 0 };
    let ghost digits = if text@.len() > 0 && text@[0] == '+' {
        text@.skip(1)
    } else {
        text@
    };
    proof {
        assert(digits =~= text@.skip(start as int));
    }
    if start >= bytes.len() {
        return None;
    }
    let mut value: usize = 0;
    let mut i: usize = start;
    while i < bytes.len()
        invariant
            start <= i <= bytes@.len(),
            start <= 1,
            is_ascii_chars(text@),
            bytes@ =~= Seq::new(text@.len(), |i: int| text@[i] as u8),
            digits == text@.skip(start as int),
            number(text@) == (if digits.len() > 0 && all_digits(digits) && value_of(digits)
                <= usize::MAX {
                Some(value_of(digits) as usize)
            } else {
                None
            }),
            all_digits(digits.take(i - start)),
            value == value_of(digits.take(i - start)),
        decreases bytes@.len() - i,
    {
        let byte: u8 = bytes[i];
        let ghost next = digits.take(i + 1 - start);
        proof {
            assert(next.drop_last() =~= digits.take(i - start));
            assert(next.last() == digits[i - start]);
            assert(digits[i - start] == text@[i as int]);
            assert(byte == text@[i as int] as u8);
        }
        if byte < 48 || byte > 57 {
            return None;
        }
        proof {
            assert forall|j: int| 0 <= j < next.len() implies '0' <= #[trigger] next[j] <= '9' by {
                if j < i - start {
                    assert(digits.take(i - start)[j] == next[j]);
                }
            }
            if all_digits(digits) {
                lemma_value_of_prefix(digits, i + 1 - start);
            }
        }
        match value.checked_mul(10) {
            Some(tenfold) => match tenfold.checked_add((byte - 48) as usize) {
                Some(sum) => {
                    value = sum;
                },
                None => {
                    return None;
                },
            },
            None => {
                return None;
            },
        }
        i += 1;
    }
    proof {
        assert(digits.take(i - start) =~= digits);
    }
    Some(value)
}

/// Append a number in decimal.
pub fn push_decimal(out: &mut String, n: u64)
    ensures
        final(out)@ == old(out)@ + decimal(n as nat),
    decreases n,
{
    if n >= 10 {
        push_decimal(out, n / 10);
    }
    let d: u64 = n % 10;
    proof {
        reveal_strlit("0");
        reveal_strlit("1");
        reveal_strlit("2");
        reveal_strlit("3");
        reveal_strlit("4");
        reveal_strlit("5");
        reveal_strlit("6");
        reveal_strlit("7");
        reveal_strlit("8");
        reveal_strlit("9");
    }
    let one: &str = if d == 0 {
        "0"
    } else if d == 1 {
        "1"
    } else if d == 2 {
        "2"
    } else if d == 3 {
        "3"
    } else if d == 4 {
        "4"
    } else if d == 5 {
        "5"
    } else if d == 6 {
        "6"
    } else if d == 7 {
        "7"
    } else if d == 8 {
        "8"
    } else {
        "9"
    };
    assert(one@ =~= seq![digit(d as nat)]);
    out.append(one);
    proof {
        assert(out@ =~= old(out)@ + decimal(n as nat));
    }
}

/// Append a number that may be negative in decimal.
pub fn push_signed_decimal(out: &mut String, n: i64)
    ensures
        final(out)@ == old(out)@ + signed_decimal(n as int),
{
    if n < 0 {
        proof {
            reveal_strlit("-");
        }
        out.append("-");
        let magnitude: u64 = if n == i64::MIN { 9223372036854775808 } else { (-n) as u64 };
        push_decimal(out, magnitude);
        proof {
            assert("-"@ =~= seq!['-']);
            assert(out@ =~= old(out)@ + signed_decimal(n as int));
        }
    } else {
        push_decimal(out, n as u64);
    }
}

/// Whether the bytes `a` come before the bytes `b` in the order of the dictionary.
pub open spec fn bytes_before(a: Seq<u8>, b: Seq<u8>) -> bool
    decreases a.len(),
{
    if b.len() == 0 {
        false
    } else if a.len() == 0 {
        true
    } else {
        a[0] < b[0] || (a[0] == b[0] && bytes_before(a.drop_first(), b.drop_first()))
    }
}

/// Whether the text `a` comes before the text `b`: the order is that of their bytes.
pub open spec fn comes_before(a: Seq<char>, b: Seq<char>) -> bool {
    bytes_before(encode_utf8(a), encode_utf8(b))
}

proof fn lemma_bytes_before_total(a: Seq<u8>, b: Seq<u8>)
    ensures
        bytes_before(a, b) || bytes_before(b, a) || a == b,
        !(bytes_before(a, b) && bytes_before(b, a)),
        a == b ==> !bytes_before(a, b),
    decreases a.len(),
{
    if a.len() > 0 && b.len() > 0 {
        lemma_bytes_before_total(a.drop_first(), b.drop_first());
        if a[0] == b[0] && a.drop_first() == b.drop_first() {
            assert(a =~= seq![a[0]] + a.drop_first());
            assert(b =~= seq![b[0]] + b.drop_first());
        }
    } else if a.len() == 0 && b.len() == 0 {
        assert(a =~= b);
    }
}

proof fn lemma_bytes_before_transitive(a: Seq<u8>, b: Seq<u8>, c: Seq<u8>)
    requires
        bytes_before(a, b),
        bytes_before(b, c),
    ensures
        bytes_before(a, c),
    decreases a.len(),
{
    if a.len() > 0 && b.len() > 0 && c.len() > 0 && a[0] == b[0] && b[0] == c[0] {
        lemma_bytes_before_transitive(a.drop_first(), b.drop_first(), c.drop_first());
    }
}

/// Of two texts, one comes before the other, or they are the same, and never both.
pub proof fn lemma_order_total(a: Seq<char>, b: Seq<char>)
    ensures
        comes_before(a, b) || comes_before(b, a) || a == b,
        !(comes_before(a, b) && comes_before(b, a)),
        a == b ==> !comes_before(a, b),
{
    lemma_bytes_before_total(encode_utf8(a), encode_utf8(b));
    if encode_utf8(a) == encode_utf8(b) {
        lemma_encode_injective(a, b);
    }
}

/// What comes before something comes before all that comes after it.
pub proof fn lemma_order_transitive(a: Seq<char>, b: Seq<char>, c: Seq<char>)
    requires
        comes_before(a, b),
        comes_before(b, c),
    ensures
        comes_before(a, c),
{
    lemma_bytes_before_transitive(encode_utf8(a), encode_utf8(b), encode_utf8(c));
}

/// How one text stands to another.
#[derive(Debug, Clone, Copy, PartialEq, Eq, Structural)]
pub enum Order {
    Before,
    Same,
    After,
}

/// How the text `a` stands to the text `b`.
pub fn order_of(a: &str, b: &str) -> (order: Order)
    ensures
        order == Order::Before <==> comes_before(a@, b@),
        order == Order::Same <==> a@ == b@,
        order == Order::After <==> comes_before(b@, a@),
{
    let left = a.as_bytes();
    let right = b.as_bytes();
    let mut i: usize = 0;
    proof {
        lemma_order_total(a@, b@);
        assert(left@.skip(0) =~= left@);
        assert(right@.skip(0) =~= right@);
    }
    while i < left.len() && i < right.len() && left[i] == right[i]
        invariant
            i <= left@.len(),
            i <= right@.len(),
            bytes_before(left@, right@) == bytes_before(left@.skip(i as int), right@.skip(i as int)),
            bytes_before(right@, left@) == bytes_before(right@.skip(i as int), left@.skip(i as int)),
            left@.take(i as int) == right@.take(i as int),
        decreases left@.len() - i,
    {
        proof {
            assert(left@.skip(i as int).drop_first() =~= left@.skip(i + 1));
            assert(right@.skip(i as int).drop_first() =~= right@.skip(i + 1));
            assert(left@.take(i + 1) =~= left@.take(i as int).push(left@[i as int]));
            assert(right@.take(i + 1) =~= right@.take(i as int).push(right@[i as int]));
        }
        i += 1;
    }
    if i < left.len() {
        if i < right.len() {
            if left[i] < right[i] {
                Order::Before
            } else {
                Order::After
            }
        } else {
            Order::After
        }
    } else if i < right.len() {
        Order::Before
    } else {
        proof {
            assert(left@ =~= left@.take(i as int));
            assert(right@ =~= right@.take(i as int));
            lemma_encode_injective(a@, b@);
        }
        Order::Same
    }
}

/// A number below ten is written as its digit, and any larger one as what it has of tens, followed
/// by the digit of the rest.
pub proof fn law_decimals_are_written_digit_by_digit(n: nat, d: nat)
    requires
        d < 10,
    ensures
        decimal(d).len() == 1,
        decimal(d)[0] as u32 == 48 + d,
        n > 0 ==> decimal(10 * n + d) == decimal(n).push(decimal(d)[0]),
{
    assert((10 * n + d) / 10 == n);
    assert((10 * n + d) % 10 == d);
}

/// A negative number is written with a sign before it, any other as it is.
pub proof fn law_signs_are_written_before_numbers(n: nat)
    ensures
        signed_decimal(n as int) == decimal(n),
        n > 0 ==> signed_decimal(-(n as int)) == seq!['-'] + decimal(n),
{
}

/// A number is read digit by digit: each digit adds to ten times what was read before, unless that
/// is more than the machine holds. Anything but a digit spoils the number. A plus sign before it
/// counts for nothing, and there is no number without a digit.
pub proof fn law_numbers_are_read_digit_by_digit(text: Seq<char>, c: char)
    ensures
        number(Seq::empty()) is None,
        '0' <= c <= '9' ==> number(seq![c]) == Some((c as u32 - 48) as usize),
        !('0' <= c <= '9') ==> number(seq![c]) is None,
        text.len() > 0 && !('0' <= c <= '9') ==> number(text.push(c)) is None,
        text.len() > 0 && '0' <= c <= '9' ==> match number(text) {
            Some(n) => if 10 * n + (c as u32 - 48) <= usize::MAX {
                number(text.push(c)) == Some((10 * n + (c as u32 - 48)) as usize)
            } else {
                number(text.push(c)) is None
            },
            None => text != seq!['+'] ==> number(text.push(c)) is None,
        },
        text.len() > 0 && text[0] != '+' ==> number(seq!['+'] + text) == number(text),
{
    let one = seq![c];
    reveal_with_fuel(value_of, 2);
    assert(one.drop_last() =~= Seq::empty());
    if '0' <= c <= '9' {
        assert(all_digits(one));
        assert(value_of(one) == (c as u32 - 48) as nat);
    } else {
        assert(one[0] == c);
        assert(one.skip(1) =~= Seq::empty());
    }
    if text.len() > 0 {
        let longer = text.push(c);
        let signed = text[0] == '+';
        let digits = if signed {
            text.skip(1)
        } else {
            text
        };
        let more = digits.push(c);
        if signed {
            assert(longer.skip(1) =~= more);
        }
        assert(more.drop_last() =~= digits);
        assert(more[more.len() - 1] == c);
        if '0' <= c <= '9' {
            assert forall|i: int| 0 <= i < more.len() implies (#[trigger] more[i] == if i
                < digits.len() {
                digits[i]
            } else {
                c
            }) by {}
            if all_digits(digits) {
                assert(all_digits(more));
            }
            if all_digits(more) {
                assert forall|i: int| 0 <= i < digits.len() implies '0' <= #[trigger] digits[i]
                    <= '9' by {
                    assert(more[i] == digits[i]);
                }
            }
            if digits.len() == 0 {
                assert(text =~= seq!['+']);
            }
        }
        if !signed {
            assert((seq!['+'] + text).skip(1) =~= text);
        }
    }
}

/// The size of a text is that of its bytes. Texts in a row have the sizes of both together, and a
/// character of ASCII is one byte.
pub proof fn law_sizes_are_counted_in_bytes(a: Seq<char>, b: Seq<char>, c: char)
    ensures
        byte_len(a) == encode_utf8(a).len(),
        byte_len(Seq::empty()) == 0,
        byte_len(a + b) == byte_len(a) + byte_len(b),
        c <= '\u{7f}' ==> byte_len(seq![c]) == 1,
{
    lemma_encode_concat(a, b);
    if c <= '\u{7f}' {
        assert(is_ascii_chars(seq![c]));
        is_ascii_chars_encode_utf8(seq![c]);
    }
}

/// A text is cut into lines at its line feeds. A carriage return just before one belongs to the
/// ending; what comes after the last line feed is a line if it is not empty.
pub proof fn law_lines_end_at_line_feeds(line: Seq<char>, rest: Seq<char>)
    requires
        !line.contains('\n'),
    ensures
        lines(Seq::empty()).len() == 0,
        line.len() > 0 ==> lines(line) == seq![line],
        lines(line + seq!['\r', '\n'] + rest) == seq![line] + lines(rest),
        line.len() == 0 || line[line.len() - 1] != '\r' ==> lines(line + seq!['\n'] + rest)
            == seq![line] + lines(rest),
{
    reveal_strlit("\n");
    assert("\n"@ =~= seq!['\n']);
    if line.len() > 0 {
        assert forall|i: int| 0 <= i < line.len() implies #[trigger] line[i] != '\n' by {
            if line[i] == '\n' {
                assert(line.contains('\n'));
            }
        }
        lemma_find(line, '\n', line.len() as int);
    }
    let returned = line.push('\r');
    assert(!returned.contains('\n')) by {
        if returned.contains('\n') {
            let i = choose|i: int| 0 <= i < returned.len() && returned[i] == '\n';
            assert(line[i] == '\n');
        }
    }
    lemma_first_line(returned, rest);
    assert(returned + "\n"@ + rest =~= line + seq!['\r', '\n'] + rest);
    assert(without_return(returned) =~= line);
    lemma_first_line(line, rest);
}

/// A line is cut into fields at each mark.
pub proof fn law_fields_end_at_marks(field: Seq<char>, rest: Seq<char>, mark: char)
    requires
        !field.contains(mark),
    ensures
        fields(field, mark) == seq![field],
        fields(field + seq![mark] + rest, mark) == seq![field] + fields(rest, mark),
{
    let all = field + seq![mark] + rest;
    assert forall|i: int| 0 <= i < field.len() implies #[trigger] field[i] != mark && all[i]
        == field[i] by {
        if field[i] == mark {
            assert(field.contains(mark));
        }
    }
    lemma_find(field, mark, field.len() as int);
    assert forall|i: int| 0 <= i < field.len() implies #[trigger] all[i] != mark by {
        assert(field[i] != mark);
    }
    lemma_find(all, mark, field.len() as int);
    assert(all.take(field.len() as int) =~= field);
    assert(all.skip(field.len() as int + 1) =~= rest);
}

/// Texts are ordered by the first byte in which they differ; what a text starts with comes before
/// it.
pub proof fn law_order_is_that_of_the_first_difference(
    front: Seq<u8>,
    x: u8,
    y: u8,
    a: Seq<u8>,
    b: Seq<u8>,
)
    ensures
        bytes_before(front, front + seq![x] + a),
        !bytes_before(front + seq![x] + a, front),
        !bytes_before(front, front),
        x != y ==> (bytes_before(front + seq![x] + a, front + seq![y] + b) <==> x < y),
    decreases front.len(),
{
    let p = front + seq![x] + a;
    let q = front + seq![y] + b;
    if front.len() > 0 {
        let rest = front.drop_first();
        law_order_is_that_of_the_first_difference(rest, x, y, a, b);
        assert(p.drop_first() =~= rest + seq![x] + a);
        assert(q.drop_first() =~= rest + seq![y] + b);
    }
}

/// One text comes before another exactly if its bytes do.
pub proof fn law_texts_are_ordered_by_their_bytes(a: Seq<char>, b: Seq<char>)
    ensures
        comes_before(a, b) <==> bytes_before(encode_utf8(a), encode_utf8(b)),
        comes_before(a, b) ==> !comes_before(b, a),
        a != b ==> comes_before(a, b) || comes_before(b, a),
{
    lemma_order_total(a, b);
}

} // verus!
