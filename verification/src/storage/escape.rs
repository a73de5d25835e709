//! Texts on one line: the characters that would break a line or a field, escaped.

use crate::text;
use crate::text::{split_once, strip_mark};
use vstd::prelude::*;
use vstd::string::*;
use vstd::utf8::encode_utf8;

verus! {

/// What stands for a character in an escaped text.
pub open spec fn code(c: char) -> Seq<char> {
    if c == '\\' {
        seq!['\\', '\\']
    } else if c == '|' {
        seq!['\\', 'p']
    } else if c == '\n' {
        seq!['\\', 'n']
    } else if c == '\r' {
        seq!['\\', 'r']
    } else {
        seq![c]
    }
}

/// A text in which a backslash escapes backslashes, bars, line feeds and carriage returns.
pub open spec fn escaped(text: Seq<char>) -> Seq<char>
    decreases text.len(),
{
    if text.len() == 0 {
        Seq::empty()
    } else {
        code(text[0]) + escaped(text.skip(1))
    }
}

/// The character that a letter stands for after a backslash, if it stands for one.
pub open spec fn decoded(letter: char) -> Option<char> {
    if letter == '\\' {
        Some('\\')
    } else if letter == 'p' {
        Some('|')
    } else if letter == 'n' {
        Some('\n')
    } else if letter == 'r' {
        Some('\r')
    } else {
        None
    }
}

/// The text that an escaped text stands for. A backslash that escapes nothing stands for itself.
pub open spec fn unescaped(text: Seq<char>) -> Seq<char>
    decreases text.len(),
{
    if text.len() == 0 {
        Seq::empty()
    } else if text[0] == '\\' && text.len() > 1 && decoded(text[1]) is Some {
        seq![decoded(text[1])->0] + unescaped(text.skip(2))
    } else {
        seq![text[0]] + unescaped(text.skip(1))
    }
}

/// A text with every occurrence of a character replaced.
spec fn replaced(text: Seq<char>, mark: char, with: Seq<char>) -> Seq<char>
    decreases text.len(),
{
    if text.len() == 0 {
        Seq::empty()
    } else {
        (if text[0] == mark {
            with
        } else {
            seq![text[0]]
        }) + replaced(text.skip(1), mark, with)
    }
}

/// Two texts in a row are replaced one after the other.
proof fn lemma_replaced_concat(a: Seq<char>, b: Seq<char>, mark: char, with: Seq<char>)
    ensures
        replaced(a + b, mark, with) == replaced(a, mark, with) + replaced(b, mark, with),
    decreases a.len(),
{
    if a.len() == 0 {
        assert(a + b =~= b);
        assert(replaced(a, mark, with) + replaced(b, mark, with) =~= replaced(b, mark, with));
    } else {
        lemma_replaced_concat(a.skip(1), b, mark, with);
        assert((a + b).skip(1) =~= a.skip(1) + b);
        assert(replaced(a + b, mark, with) =~= replaced(a, mark, with) + replaced(b, mark, with));
    }
}

/// A text without the character stays as it is.
proof fn lemma_replaced_none(text: Seq<char>, mark: char, with: Seq<char>)
    requires
        forall|i: int| 0 <= i < text.len() ==> #[trigger] text[i] != mark,
    ensures
        replaced(text, mark, with) == text,
    decreases text.len(),
{
    if text.len() > 0 {
        assert(text[0] != mark);
        let rest = text.skip(1);
        assert forall|i: int| 0 <= i < rest.len() implies #[trigger] rest[i] != mark by {
            assert(rest[i] == text[i + 1]);
        }
        lemma_replaced_none(rest, mark, with);
        assert(seq![text[0]] + rest =~= text);
    } else {
        assert(replaced(text, mark, with) =~= text);
    }
}

/// A single character is replaced or stays.
proof fn lemma_replaced_one(c: char, mark: char, with: Seq<char>)
    ensures
        replaced(seq![c], mark, with) == (if c == mark {
            with
        } else {
            seq![c]
        }),
{
    reveal_with_fuel(replaced, 2);
    assert(seq![c].skip(1) =~= Seq::empty());
    assert(with + Seq::empty() =~= with);
    assert(seq![c] + Seq::empty() =~= seq![c]);
}

/// Replace every occurrence of a character.
fn replace_all(text: &str, mark: u8, with: &str) -> (out: String)
    requires
        mark < 128,
    ensures
        out@ == replaced(text@, mark as char, with@),
{
    let mut out: String = String::new();
    let mut rest: &str = text;
    proof {
        assert(out@ + replaced(rest@, mark as char, with@) =~= replaced(
            text@,
            mark as char,
            with@,
        ));
    }
    loop
        invariant
            mark < 128,
            out@ + replaced(rest@, mark as char, with@) == replaced(text@, mark as char, with@),
        decreases rest@.len(),
    {
        let ghost before = out@;
        let ghost left = rest@;
        match split_once(rest, mark) {
            Some((front, back)) => {
                out.append(front);
                out.append(with);
                rest = back;
                proof {
                    let single = seq![mark as char];
                    text::lemma_find_is_first(left, mark as char);
                    assert forall|i: int| 0 <= i < front@.len() implies #[trigger] front@[i]
                        != mark as char by {
                        assert(front@[i] == left[i]);
                    }
                    assert(left =~= front@ + (single + back@));
                    lemma_replaced_none(front@, mark as char, with@);
                    lemma_replaced_one(mark as char, mark as char, with@);
                    lemma_replaced_concat(single, back@, mark as char, with@);
                    lemma_replaced_concat(front@, single + back@, mark as char, with@);
                    assert(out@ + replaced(back@, mark as char, with@) =~= before + replaced(
                        left,
                        mark as char,
                        with@,
                    ));
                }
            },
            None => {
                out.append(rest);
                proof {
                    text::lemma_find_is_first(left, mark as char);
                    lemma_replaced_none(left, mark as char, with@);
                }
                return out;
            },
        }
    }
}

/// The four replacements, one after the other.
spec fn in_passes(text: Seq<char>) -> Seq<char> {
    replaced(
        replaced(
            replaced(
                replaced(text, '\\', seq!['\\', '\\']),
                '|',
                seq!['\\', 'p'],
            ),
            '\n',
            seq!['\\', 'n'],
        ),
        '\r',
        seq!['\\', 'r'],
    )
}

/// Two characters that are not to be replaced stay.
proof fn lemma_replaced_pair(a: char, b: char, mark: char, with: Seq<char>)
    requires
        a != mark,
        b != mark,
    ensures
        replaced(seq![a, b], mark, with) == seq![a, b],
{
    lemma_replaced_none(seq![a, b], mark, with);
}

/// The four replacements escape a single character.
proof fn lemma_passes_one(c: char)
    ensures
        in_passes(seq![c]) == code(c),
{
    lemma_replaced_one(c, '\\', seq!['\\', '\\']);
    lemma_replaced_one(c, '|', seq!['\\', 'p']);
    lemma_replaced_one(c, '\n', seq!['\\', 'n']);
    lemma_replaced_one(c, '\r', seq!['\\', 'r']);
    lemma_replaced_pair('\\', '\\', '|', seq!['\\', 'p']);
    lemma_replaced_pair('\\', '\\', '\n', seq!['\\', 'n']);
    lemma_replaced_pair('\\', '\\', '\r', seq!['\\', 'r']);
    lemma_replaced_pair('\\', 'p', '\n', seq!['\\', 'n']);
    lemma_replaced_pair('\\', 'p', '\r', seq!['\\', 'r']);
    lemma_replaced_pair('\\', 'n', '\r', seq!['\\', 'r']);
}

/// The four replacements escape a text.
proof fn lemma_passes(text: Seq<char>)
    ensures
        in_passes(text) == escaped(text),
    decreases text.len(),
{
    if text.len() > 0 {
        let one = seq![text[0]];
        let rest = text.skip(1);
        lemma_passes(rest);
        lemma_passes_one(text[0]);
        assert(text =~= one + rest);
        let a1 = replaced(one, '\\', seq!['\\', '\\']);
        let b1 = replaced(rest, '\\', seq!['\\', '\\']);
        lemma_replaced_concat(one, rest, '\\', seq!['\\', '\\']);
        let a2 = replaced(a1, '|', seq!['\\', 'p']);
        let b2 = replaced(b1, '|', seq!['\\', 'p']);
        lemma_replaced_concat(a1, b1, '|', seq!['\\', 'p']);
        let a3 = replaced(a2, '\n', seq!['\\', 'n']);
        let b3 = replaced(b2, '\n', seq!['\\', 'n']);
        lemma_replaced_concat(a2, b2, '\n', seq!['\\', 'n']);
        lemma_replaced_concat(a3, b3, '\r', seq!['\\', 'r']);
    }
}

/// Escape a text.
pub fn escape(text: &str) -> (out: String)
    ensures
        out@ == escaped(text@),
{
    proof {
        reveal_strlit("\\\\");
        reveal_strlit("\\p");
        reveal_strlit("\\n");
        reveal_strlit("\\r");
        assert("\\\\"@ =~= seq!['\\', '\\']);
        assert("\\p"@ =~= seq!['\\', 'p']);
        assert("\\n"@ =~= seq!['\\', 'n']);
        assert("\\r"@ =~= seq!['\\', 'r']);
        lemma_passes(text@);
    }
    let slashes: String = replace_all(text, 92, "\\\\");
    let bars: String = replace_all(slashes.as_str(), 124, "\\p");
    let feeds: String = replace_all(bars.as_str(), 10, "\\n");
    replace_all(feeds.as_str(), 13, "\\r")
}

/// What precedes the first backslash stands for itself.
proof fn lemma_unescaped_front(front: Seq<char>, rest: Seq<char>)
    requires
        forall|i: int| 0 <= i < front.len() ==> #[trigger] front[i] != '\\',
    ensures
        unescaped(front + rest) == front + unescaped(rest),
    decreases front.len(),
{
    if front.len() == 0 {
        assert(front + rest =~= rest);
        assert(front + unescaped(rest) =~= unescaped(rest));
    } else {
        assert(front[0] != '\\');
        let later = front.skip(1);
        assert forall|i: int| 0 <= i < later.len() implies #[trigger] later[i] != '\\' by {
            assert(later[i] == front[i + 1]);
        }
        lemma_unescaped_front(later, rest);
        assert((front + rest).skip(1) =~= later + rest);
        assert(unescaped(front + rest) =~= front + unescaped(rest));
    }
}

/// Read an escaped text.
pub fn unescape(text: &str) -> (out: String)
    ensures
        out@ == unescaped(text@),
{
    let mut out: String = String::new();
    let mut rest: &str = text;
    proof {
        reveal_strlit("\\");
        reveal_strlit("|");
        reveal_strlit("\n");
        reveal_strlit("\r");
        assert(out@ + unescaped(rest@) =~= unescaped(text@));
    }
    loop
        invariant
            out@ + unescaped(rest@) == unescaped(text@),
            "\\"@ =~= seq!['\\'],
            "|"@ =~= seq!['|'],
            "\n"@ =~= seq!['\n'],
            "\r"@ =~= seq!['\r'],
        decreases rest@.len(),
    {
        let ghost before = out@;
        let ghost left = rest@;
        proof {
            text::lemma_find_is_first(left, '\\');
        }
        match split_once(rest, 92) {
            Some((front, back)) => {
                out.append(front);
                let ghost escape = left.skip(front@.len() as int);
                proof {
                    assert forall|i: int| 0 <= i < front@.len() implies #[trigger] front@[i]
                        != '\\' by {
                        assert(front@[i] == left[i]);
                    }
                    assert(left =~= front@ + escape);
                    lemma_unescaped_front(front@, escape);
                    assert(escape[0] == '\\');
                    assert(escape.skip(1) =~= back@);
                    if back@.len() > 0 {
                        assert(escape.skip(2) =~= back@.skip(1));
                        assert(escape[1] == back@[0]);
                    }
                }
                if let Some(after) = strip_mark(back, 92) {
                    out.append("\\");
                    rest = after;
                } else if let Some(after) = strip_mark(back, 112) {
                    out.append("|");
                    rest = after;
                } else if let Some(after) = strip_mark(back, 110) {
                    out.append("\n");
                    rest = after;
                } else if let Some(after) = strip_mark(back, 114) {
                    out.append("\r");
                    rest = after;
                } else {
                    out.append("\\");
                    rest = back;
                }
                assert(out@ + unescaped(rest@) =~= before + unescaped(left));
            },
            None => {
                out.append(rest);
                proof {
                    lemma_unescaped_front(left, Seq::empty());
                    assert(left + Seq::empty() =~= left);
                    assert(left + unescaped(Seq::empty()) =~= left);
                }
                return out;
            },
        }
    }
}

/// An escaped text is read back as it was.
pub proof fn law_escaped_text_is_read_back(text: Seq<char>)
    ensures
        unescaped(escaped(text)) == text,
    decreases text.len(),
{
    if text.len() == 0 {
        assert(unescaped(escaped(text)) =~= text);
    } else {
        let rest = escaped(text.skip(1));
        law_escaped_text_is_read_back(text.skip(1));
        let all = code(text[0]) + rest;
        if code(text[0]).len() == 2 {
            assert(all.skip(2) =~= rest);
        } else {
            assert(all.skip(1) =~= rest);
        }
        assert(seq![text[0]] + text.skip(1) =~= text);
    }
}

/// An escaped text fits on one line and in one field.
pub proof fn law_escaped_text_is_one_field(text: Seq<char>)
    ensures
        !escaped(text).contains('|'),
        !escaped(text).contains('\n'),
        !escaped(text).contains('\r'),
    decreases text.len(),
{
    if text.len() > 0 {
        law_escaped_text_is_one_field(text.skip(1));
        let rest = escaped(text.skip(1));
        let front = code(text[0]);
        let all = front + rest;
        assert forall|i: int| 0 <= i < all.len() implies #[trigger] all[i] != '|' && all[i] != '\n'
            && all[i] != '\r' by {
            if i < front.len() {
                assert(all[i] == front[i]);
            } else {
                assert(all[i] == rest[i - front.len()]);
                assert(rest.contains(all[i]));
            }
        }
    }
}

/// What an escaped text stands for takes up no more bytes.
pub proof fn lemma_unescaped_len(text: Seq<char>)
    ensures
        text::byte_len(unescaped(text)) <= text::byte_len(text),
    decreases text.len(),
{
    if text.len() > 0 {
        if text[0] == '\\' && text.len() > 1 && decoded(text[1]) is Some {
            let one = seq![decoded(text[1])->0];
            let rest = text.skip(2);
            lemma_unescaped_len(rest);
            text::lemma_encode_concat(one, unescaped(rest));
            let two = seq![text[0]] + seq![text[1]];
            assert(text =~= two + rest);
            text::lemma_encode_concat(two, rest);
            text::lemma_encode_concat(seq![text[0]], seq![text[1]]);
            lemma_ascii_len(decoded(text[1])->0);
            lemma_ascii_len('\\');
        } else {
            let one = seq![text[0]];
            let rest = text.skip(1);
            lemma_unescaped_len(rest);
            text::lemma_encode_concat(one, unescaped(rest));
            assert(text =~= one + rest);
            text::lemma_encode_concat(one, rest);
        }
    }
}

/// An ASCII character takes up one byte.
proof fn lemma_ascii_len(c: char)
    requires
        c <= '\u{7f}',
    ensures
        encode_utf8(seq![c]).len() == 1,
{
    let single = seq![c];
    assert(vstd::utf8::is_ascii_chars(single));
    vstd::utf8::is_ascii_chars_encode_utf8(single);
}

/// A text is escaped character by character: a backslash becomes two, a bar, a line feed and a
/// carriage return become a backslash and a letter, and all else stays.
pub proof fn law_texts_are_escaped_character_by_character(c: char, rest: Seq<char>)
    ensures
        escaped(Seq::empty()).len() == 0,
        escaped(seq![c] + rest) == (if c == '\\' {
            seq!['\\', '\\']
        } else if c == '|' {
            seq!['\\', 'p']
        } else if c == '\n' {
            seq!['\\', 'n']
        } else if c == '\r' {
            seq!['\\', 'r']
        } else {
            seq![c]
        }) + escaped(rest),
{
    assert((seq![c] + rest).skip(1) =~= rest);
}

/// A text without the four characters that are escaped stands for itself, escaped or not.
pub proof fn law_plain_texts_stand_for_themselves(text: Seq<char>)
    requires
        !text.contains('\\'),
        !text.contains('|'),
        !text.contains('\n'),
        !text.contains('\r'),
    ensures
        escaped(text) == text,
        unescaped(text) == text,
    decreases text.len(),
{
    if text.len() == 0 {
        assert(escaped(text) =~= text);
        assert(unescaped(text) =~= text);
    } else {
        let rest = text.skip(1);
        assert(text.contains(text[0]));
        assert forall|c: char| #[trigger] rest.contains(c) implies text.contains(c) by {
            let i = choose|i: int| 0 <= i < rest.len() && rest[i] == c;
            assert(text[i + 1] == c);
        }
        law_plain_texts_stand_for_themselves(rest);
        assert(seq![text[0]] + rest =~= text);
    }
}

} // verus!
