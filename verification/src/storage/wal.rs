//! The write-ahead log: one line of text for every mutation.
//!
//! A mutation whose key and value fit on a line is recorded as `PUT|key|value` or `DELETE|key`. One
//! that does not, because a text holds a bar or a line feed or would end the line with a carriage
//! return, is recorded with its texts escaped, as `ESCAPED-PUT|key|value` or `ESCAPED-DELETE|key`.

use super::escape;
use super::escape::escape;
use super::escape::unescape;
use crate::text;
use crate::text::same_text;
use crate::text::split_fields;
use crate::text::split_lines;
use crate::text::split_once;
use crate::text::strip_return;
use vstd::prelude::*;
use vstd::string::*;

verus! {

/// The kind of a mutation.
#[derive(Debug, Clone, Copy, PartialEq, Eq, Structural)]
pub enum Operation {
    Put,
    Delete,
}

/// A mutation, as the log records it.
#[derive(Debug)]
pub struct WalEntry {
    pub operation: Operation,
    pub key: String,
    /// The value of a put; a delete has none.
    pub value: Option<String>,
}

/// What a [`WalEntry`] says.
#[verifier::ext_equal]
pub struct WalView {
    pub operation: Operation,
    pub key: Seq<char>,
    pub value: Option<Seq<char>>,
}

impl View for WalEntry {
    type V = WalView;

    open spec fn view(&self) -> WalView {
        WalView {
            operation: self.operation,
            key: self.key@,
            value: super::memtable::text_of(self.value),
        }
    }
}

impl Clone for WalEntry {
    fn clone(&self) -> (copy: Self)
        ensures
            copy@ == self@,
    {
        WalEntry {
            operation: self.operation,
            key: self.key.clone(),
            value: match &self.value {
                Some(value) => Some(value.clone()),
                None => None,
            },
        }
    }
}

/// What some entries say.
pub open spec fn entry_views(entries: Seq<WalEntry>) -> Seq<WalView> {
    entries.map_values(|entry: WalEntry| entry@)
}

/// Whether a text has neither of the two characters that structure the log.
pub open spec fn is_plain(text: Seq<char>) -> bool {
    !text.contains('|') && !text.contains('\n')
}

/// Whether a text ends with a carriage return.
pub open spec fn ends_with_return(text: Seq<char>) -> bool {
    text.len() > 0 && text.last() == '\r'
}

impl WalView {
    /// The value that a put writes: an entry without a value writes the empty text.
    pub open spec fn text(self) -> Seq<char> {
        match self.value {
            Some(value) => value,
            None => Seq::empty(),
        }
    }

    /// The text with which the line ends.
    pub open spec fn last_text(self) -> Seq<char> {
        match self.operation {
            Operation::Put => self.text(),
            Operation::Delete => self.key,
        }
    }

    /// Whether key and value fit on a line as they are.
    pub open spec fn fits_a_line(self) -> bool {
        is_plain(self.key) && is_plain(self.last_text()) && !ends_with_return(self.last_text())
    }

    /// The line that records the entry.
    pub open spec fn line(self) -> Seq<char> {
        match (self.operation, self.fits_a_line()) {
            (Operation::Put, true) => "PUT|"@ + self.key + "|"@ + self.text() + "\n"@,
            (Operation::Delete, true) => "DELETE|"@ + self.key + "\n"@,
            (Operation::Put, false) => "ESCAPED-PUT|"@ + escape::escaped(self.key) + "|"@
                + escape::escaped(self.text()) + "\n"@,
            (Operation::Delete, false) => "ESCAPED-DELETE|"@ + escape::escaped(self.key) + "\n"@,
        }
    }

    /// How many bytes of key and value the entry brings into memory.
    pub open spec fn weight(self) -> nat {
        match self.operation {
            Operation::Put => text::byte_len(self.key) + text::byte_len(self.text()),
            Operation::Delete => text::byte_len(self.key),
        }
    }
}

/// The entry that a line records: none if the line is malformed.
pub open spec fn recorded(line: Seq<char>) -> Option<WalView> {
    let parts = text::fields(line, '|');
    if parts.len() == 3 && parts[0] == "PUT"@ {
        Some(WalView { operation: Operation::Put, key: parts[1], value: Some(parts[2]) })
    } else if parts.len() == 2 && parts[0] == "DELETE"@ {
        Some(WalView { operation: Operation::Delete, key: parts[1], value: None })
    } else if parts.len() == 3 && parts[0] == "ESCAPED-PUT"@ {
        Some(
            WalView {
                operation: Operation::Put,
                key: escape::unescaped(parts[1]),
                value: Some(escape::unescaped(parts[2])),
            },
        )
    } else if parts.len() == 2 && parts[0] == "ESCAPED-DELETE"@ {
        Some(
            WalView {
                operation: Operation::Delete,
                key: escape::unescaped(parts[1]),
                value: None,
            },
        )
    } else {
        None
    }
}

/// The entries that some lines record, in order, malformed lines left out.
pub open spec fn recorded_in(lines: Seq<Seq<char>>) -> Seq<WalView>
    decreases lines.len(),
{
    if lines.len() == 0 {
        Seq::empty()
    } else {
        let front = recorded_in(lines.drop_last());
        match recorded(lines.last()) {
            Some(entry) => front.push(entry),
            None => front,
        }
    }
}

/// The entries that the contents of a log record.
pub open spec fn replayed(contents: Seq<char>) -> Seq<WalView> {
    recorded_in(text::lines(contents))
}

/// The contents of a log to which some entries were appended, one after the other.
pub open spec fn contents_of(entries: Seq<WalView>) -> Seq<char>
    decreases entries.len(),
{
    if entries.len() == 0 {
        Seq::empty()
    } else {
        contents_of(entries.drop_last()) + entries.last().line()
    }
}

/// How many bytes of keys and values some entries bring into memory.
pub open spec fn weight_of(entries: Seq<WalView>) -> nat
    decreases entries.len(),
{
    if entries.len() == 0 {
        0
    } else {
        weight_of(entries.drop_last()) + entries.last().weight()
    }
}

/// Whether a text has neither a bar nor a line feed.
fn check_plain(text: &str) -> (plain: bool)
    ensures
        plain == is_plain(text@),
{
    proof {
        text::lemma_find_is_first(text@, '|');
        text::lemma_find_is_first(text@, '\n');
    }
    split_once(text, 124).is_none() && split_once(text, 10).is_none()
}

/// Whether a text has neither a bar nor a line feed, nor ends with a carriage return.
fn check_last(text: &str) -> (fits: bool)
    ensures
        fits == (is_plain(text@) && !ends_with_return(text@)),
{
    check_plain(text) && same_text(strip_return(text), text)
}

/// The line to append to the log for an entry.
pub fn serialize_entry(entry: &WalEntry) -> (line: String)
    ensures
        line@ == entry@.line(),
{
    let mut line: String = String::new();
    match entry.operation {
        Operation::Put => {
            proof {
                reveal_strlit("");
                assert(""@ =~= Seq::empty());
            }
            let value: &str = match &entry.value {
                Some(value) => value.as_str(),
                None => "",
            };
            if check_plain(entry.key.as_str()) && check_last(value) {
                line.append("PUT|");
                line.append(entry.key.as_str());
                line.append("|");
                line.append(value);
            } else {
                line.append("ESCAPED-PUT|");
                line.append(escape(entry.key.as_str()).as_str());
                line.append("|");
                line.append(escape(value).as_str());
            }
            line.append("\n");
        },
        Operation::Delete => {
            if check_last(entry.key.as_str()) {
                line.append("DELETE|");
                line.append(entry.key.as_str());
            } else {
                line.append("ESCAPED-DELETE|");
                line.append(escape(entry.key.as_str()).as_str());
            }
            line.append("\n");
        },
    }
    assert(line@ =~= entry@.line());
    line
}

/// The entry that a line records: `None` if the line is malformed.
fn parse_line(line: &str) -> (entry: Option<WalEntry>)
    ensures
        match entry {
            Some(entry) => recorded(line@) == Some(entry@),
            None => recorded(line@) is None,
        },
{
    let parts: Vec<&str> = split_fields(line, 124);
    let ghost views = text::fields(line@, '|');
    proof {
        assert(text::views(parts@).len() == parts@.len());
        assert forall|i: int| 0 <= i < parts@.len() implies (#[trigger] parts@[i])@ == views[i] by {
            assert(text::views(parts@)[i] == parts@[i]@);
        }
    }
    if parts.len() == 3 && same_text(parts[0], "PUT") {
        Some(
            WalEntry {
                operation: Operation::Put,
                key: parts[1].to_owned(),
                value: Some(parts[2].to_owned()),
            },
        )
    } else if parts.len() == 2 && same_text(parts[0], "DELETE") {
        Some(
            WalEntry { operation: Operation::Delete, key: parts[1].to_owned(), value: None },
        )
    } else if parts.len() == 3 && same_text(parts[0], "ESCAPED-PUT") {
        Some(
            WalEntry {
                operation: Operation::Put,
                key: unescape(parts[1]),
                value: Some(unescape(parts[2])),
            },
        )
    } else if parts.len() == 2 && same_text(parts[0], "ESCAPED-DELETE") {
        Some(WalEntry { operation: Operation::Delete, key: unescape(parts[1]), value: None })
    } else {
        None
    }
}

/// The fields of a line together are no longer than the line.
proof fn lemma_fields_weight(line: Seq<char>, mark: char)
    ensures
        total_len(text::fields(line, mark)) <= text::byte_len(line),
    decreases line.len(),
{
    let end = text::find(line, mark);
    if 0 <= end < line.len() {
        lemma_fields_weight(line.skip(end + 1), mark);
        let front = line.take(end);
        let rest = line.skip(end + 1);
        let one = line.subrange(end, end + 1);
        assert(line =~= front + (one + rest));
        text::lemma_encode_concat(one, rest);
        text::lemma_encode_concat(front, one + rest);
        lemma_total_len_prepend(front, text::fields(rest, mark));
    } else {
        lemma_total_len_prepend(line, Seq::empty());
        assert(text::fields(line, mark) =~= seq![line] + Seq::empty());
    }
}

/// How many bytes some texts take up together.
spec fn total_len(texts: Seq<Seq<char>>) -> nat
    decreases texts.len(),
{
    if texts.len() == 0 {
        0
    } else {
        total_len(texts.drop_last()) + text::byte_len(texts.last())
    }
}

proof fn lemma_total_len_prepend(first: Seq<char>, rest: Seq<Seq<char>>)
    ensures
        total_len(seq![first] + rest) == text::byte_len(first) + total_len(rest),
    decreases rest.len(),
{
    if rest.len() == 0 {
        assert((seq![first] + rest).drop_last() =~= Seq::empty());
        assert((seq![first] + rest).last() == first);
        reveal_with_fuel(total_len, 2);
    } else {
        lemma_total_len_prepend(first, rest.drop_last());
        assert((seq![first] + rest).drop_last() =~= seq![first] + rest.drop_last());
        assert((seq![first] + rest).last() == rest.last());
    }
}

/// The lines of a text together are no longer than the text.
proof fn lemma_lines_weight(contents: Seq<char>)
    ensures
        total_len(text::lines(contents)) <= text::byte_len(contents),
    decreases contents.len(),
{
    if contents.len() > 0 {
        let end = text::find(contents, '\n');
        if 0 <= end < contents.len() {
            let rest = contents.skip(end + 1);
            lemma_lines_weight(rest);
            let front = contents.take(end);
            let one = contents.subrange(end, end + 1);
            assert(contents =~= front + (one + rest));
            text::lemma_encode_concat(one, rest);
            text::lemma_encode_concat(front, one + rest);
            let line = text::without_return(front);
            if line != front {
                assert(front =~= front.drop_last() + seq![front.last()]);
                text::lemma_encode_concat(front.drop_last(), seq![front.last()]);
            }
            lemma_total_len_prepend(line, text::lines(rest));
        } else {
            lemma_total_len_prepend(contents, Seq::empty());
            assert(text::lines(contents) =~= seq![contents] + Seq::empty());
        }
    }
}

/// A line brings no more into memory than it holds.
proof fn lemma_recorded_weight(line: Seq<char>)
    ensures
        recorded(line) matches Some(entry) ==> entry.weight() <= text::byte_len(line),
{
    lemma_fields_weight(line, '|');
    let parts = text::fields(line, '|');
    reveal_with_fuel(total_len, 4);
    if parts.len() >= 2 {
        escape::lemma_unescaped_len(parts[1]);
    }
    if parts.len() == 3 {
        escape::lemma_unescaped_len(parts[2]);
    }
}

/// All lines together bring no more into memory than they hold.
proof fn lemma_weight(lines: Seq<Seq<char>>)
    ensures
        weight_of(recorded_in(lines)) <= total_len(lines),
    decreases lines.len(),
{
    if lines.len() > 0 {
        lemma_weight(lines.drop_last());
        lemma_recorded_weight(lines.last());
        let front = recorded_in(lines.drop_last());
        if let Some(entry) = recorded(lines.last()) {
            assert(front.push(entry).drop_last() =~= front);
        }
    }
}

/// Read all entries of a log, in order. Malformed lines are skipped.
pub fn replay(contents: &str) -> (entries: Vec<WalEntry>)
    ensures
        entry_views(entries@) == replayed(contents@),
        weight_of(replayed(contents@)) <= usize::MAX,
{
    let _size: usize = contents.as_bytes().len();
    let lines: Vec<&str> = split_lines(contents);
    let ghost all = text::lines(contents@);
    let mut entries: Vec<WalEntry> = Vec::new();
    let mut i: usize = 0;
    proof {
        assert(entry_views(entries@) =~= recorded_in(all.take(0)));
        assert(text::views(lines@).len() == lines@.len());
    }
    while i < lines.len()
        invariant
            i <= lines@.len(),
            text::views(lines@) == all,
            lines@.len() == all.len(),
            entry_views(entries@) == recorded_in(all.take(i as int)),
        decreases lines@.len() - i,
    {
        proof {
            assert(all.take(i + 1).drop_last() =~= all.take(i as int));
            assert(text::views(lines@)[i as int] == lines@[i as int]@);
            assert(all.take(i + 1).last() == lines@[i as int]@);
        }
        let ghost before = entries@;
        match parse_line(lines[i]) {
            Some(entry) => {
                entries.push(entry);
                assert(entry_views(entries@) =~= entry_views(before).push(entry@));
            },
            None => {},
        }
        i += 1;
    }
    proof {
        assert(all.take(i as int) =~= all);
        lemma_weight(all);
        lemma_lines_weight(contents@);
        assert(text::byte_len(contents@) == _size);
    }
    entries
}

impl WalView {
    /// The entry is whole: a put has a value, a delete has none.
    pub open spec fn is_storable(self) -> bool {
        match self.operation {
            Operation::Put => self.value is Some,
            Operation::Delete => self.value is None,
        }
    }
}

/// What precedes a mark is a field.
proof fn lemma_first_field(field: Seq<char>, rest: Seq<char>)
    requires
        !field.contains('|'),
    ensures
        text::fields(field + "|"@ + rest, '|') == seq![field] + text::fields(rest, '|'),
{
    reveal_strlit("|");
    let all = field + "|"@ + rest;
    text::lemma_find(all, '|', field.len() as int);
    assert(all.take(field.len() as int) =~= field);
    assert(all.skip(field.len() as int + 1) =~= rest);
}

/// A text without a mark is one field.
proof fn lemma_only_field(field: Seq<char>)
    requires
        !field.contains('|'),
    ensures
        text::fields(field, '|') == seq![field],
{
    text::lemma_find(field, '|', field.len() as int);
}

/// A text that fits, with a line feed behind it, is one line.
proof fn lemma_one_line(line: Seq<char>)
    requires
        !line.contains('\n'),
        !ends_with_return(line),
    ensures
        text::lines(line + "\n"@) == seq![line],
{
    text::lemma_first_line(line, Seq::empty());
    assert(line + "\n"@ + Seq::empty() =~= line + "\n"@);
    assert(text::lines(line + "\n"@) =~= seq![line]);
}

/// A word and two texts that fit are one line of three fields.
proof fn lemma_three_fields(word: Seq<char>, a: Seq<char>, b: Seq<char>)
    requires
        is_plain(word),
        is_plain(a),
        is_plain(b),
        !ends_with_return(b),
    ensures
        text::lines(word + "|"@ + a + "|"@ + b + "\n"@) == seq![word + "|"@ + a + "|"@ + b],
        text::fields(word + "|"@ + a + "|"@ + b, '|') == seq![word, a, b],
{
    reveal_strlit("|");
    let line = word + "|"@ + a + "|"@ + b;
    assert(!line.contains('\n')) by {
        if line.contains('\n') {
            let i = choose|i: int| 0 <= i < line.len() && line[i] == '\n';
            let start = word.len() as int + 1;
            let later = start + a.len() + 1;
            if i < word.len() {
                assert(word[i] == '\n');
            } else if start <= i < start + a.len() {
                assert(a[i - start] == '\n');
            } else if i >= later {
                assert(b[i - later] == '\n');
            }
        }
    }
    assert(!ends_with_return(line)) by {
        if b.len() > 0 {
            assert(line.last() == b.last());
        } else {
            assert(line.last() == '|');
        }
    }
    lemma_one_line(line);
    lemma_first_field(word, a + "|"@ + b);
    lemma_first_field(a, b);
    lemma_only_field(b);
    assert(line =~= word + "|"@ + (a + "|"@ + b));
    assert(text::fields(line, '|') =~= seq![word, a, b]);
}

/// A word and a text that fits are one line of two fields.
proof fn lemma_two_fields(word: Seq<char>, a: Seq<char>)
    requires
        is_plain(word),
        is_plain(a),
        !ends_with_return(a),
    ensures
        text::lines(word + "|"@ + a + "\n"@) == seq![word + "|"@ + a],
        text::fields(word + "|"@ + a, '|') == seq![word, a],
{
    reveal_strlit("|");
    let line = word + "|"@ + a;
    assert(!line.contains('\n')) by {
        if line.contains('\n') {
            let i = choose|i: int| 0 <= i < line.len() && line[i] == '\n';
            if i < word.len() {
                assert(word[i] == '\n');
            } else if i > word.len() {
                assert(a[i - word.len() - 1] == '\n');
            }
        }
    }
    assert(!ends_with_return(line)) by {
        if a.len() > 0 {
            assert(line.last() == a.last());
        } else {
            assert(line.last() == '|');
        }
    }
    lemma_one_line(line);
    lemma_first_field(word, a);
    lemma_only_field(a);
    assert(text::fields(line, '|') =~= seq![word, a]);
}

/// An escaped text fits on a line.
proof fn lemma_escaped_fits(text: Seq<char>)
    ensures
        is_plain(escape::escaped(text)),
        !ends_with_return(escape::escaped(text)),
{
    escape::law_escaped_text_is_one_field(text);
    let line = escape::escaped(text);
    if ends_with_return(line) {
        assert(line[line.len() - 1] == '\r');
    }
}

/// Every entry is one line, which records exactly that entry.
pub proof fn law_line_is_read_back(entry: WalView)
    requires
        entry.is_storable(),
    ensures
        replayed(entry.line()) == seq![entry],
{
    reveal_strlit("PUT|");
    reveal_strlit("PUT");
    reveal_strlit("DELETE|");
    reveal_strlit("DELETE");
    reveal_strlit("ESCAPED-PUT|");
    reveal_strlit("ESCAPED-PUT");
    reveal_strlit("ESCAPED-DELETE|");
    reveal_strlit("ESCAPED-DELETE");
    reveal_strlit("|");
    let key = escape::escaped(entry.key);
    let value = escape::escaped(entry.text());
    lemma_escaped_fits(entry.key);
    lemma_escaped_fits(entry.text());
    escape::law_escaped_text_is_read_back(entry.key);
    escape::law_escaped_text_is_read_back(entry.text());
    let line = match (entry.operation, entry.fits_a_line()) {
        (Operation::Put, true) => {
            lemma_three_fields("PUT"@, entry.key, entry.text());
            "PUT"@ + "|"@ + entry.key + "|"@ + entry.text()
        },
        (Operation::Delete, true) => {
            lemma_two_fields("DELETE"@, entry.key);
            "DELETE"@ + "|"@ + entry.key
        },
        (Operation::Put, false) => {
            lemma_three_fields("ESCAPED-PUT"@, key, value);
            "ESCAPED-PUT"@ + "|"@ + key + "|"@ + value
        },
        (Operation::Delete, false) => {
            lemma_two_fields("ESCAPED-DELETE"@, key);
            "ESCAPED-DELETE"@ + "|"@ + key
        },
    };
    assert("PUT|"@ =~= "PUT"@ + "|"@);
    assert("DELETE|"@ =~= "DELETE"@ + "|"@);
    assert("ESCAPED-PUT|"@ =~= "ESCAPED-PUT"@ + "|"@);
    assert("ESCAPED-DELETE|"@ =~= "ESCAPED-DELETE"@ + "|"@);
    assert(entry.line() =~= line + "\n"@);
    assert("PUT"@.len() != "ESCAPED-PUT"@.len());
    assert("DELETE"@.len() != "ESCAPED-DELETE"@.len());
    assert(recorded(line) == Some(entry));
    reveal_with_fuel(recorded_in, 2);
    assert(seq![line].drop_last() =~= Seq::empty());
    assert(recorded_in(seq![line]) =~= seq![entry]);
}

/// The lines of a text that ends a line, followed by another text, are the lines of both.
proof fn lemma_lines_append(front: Seq<char>, back: Seq<char>)
    requires
        front.len() == 0 || front.last() == '\n',
    ensures
        text::lines(front + back) == text::lines(front) + text::lines(back),
    decreases front.len(),
{
    if front.len() == 0 {
        assert(front + back =~= back);
        assert(text::lines(front) + text::lines(back) =~= text::lines(back));
    } else {
        let end = text::find(front, '\n');
        text::lemma_find_is_first(front, '\n');
        assert(front[front.len() - 1] == '\n');
        let all = front + back;
        assert forall|i: int| 0 <= i < end implies #[trigger] all[i] != '\n' by {
            assert(all[i] == front[i]);
        }
        text::lemma_find(all, '\n', end);
        let rest = front.skip(end + 1);
        lemma_lines_append(rest, back);
        assert(all.take(end) =~= front.take(end));
        assert(all.skip(end + 1) =~= rest + back);
        assert(text::lines(all) =~= text::lines(front) + text::lines(back));
    }
}

/// What two runs of lines record is what each records.
proof fn lemma_recorded_append(front: Seq<Seq<char>>, back: Seq<Seq<char>>)
    ensures
        recorded_in(front + back) == recorded_in(front) + recorded_in(back),
    decreases back.len(),
{
    if back.len() == 0 {
        assert(front + back =~= front);
        assert(recorded_in(front) + recorded_in(back) =~= recorded_in(front));
    } else {
        lemma_recorded_append(front, back.drop_last());
        assert((front + back).drop_last() =~= front + back.drop_last());
        assert(recorded_in(front + back) =~= recorded_in(front) + recorded_in(back));
    }
}

/// The contents of a log end a line.
proof fn lemma_contents_end(entries: Seq<WalView>)
    ensures
        contents_of(entries).len() == 0 || contents_of(entries).last() == '\n',
{
    reveal_strlit("\n");
    if entries.len() > 0 {
        let line = entries.last().line();
        assert(line.last() == '\n');
        assert(contents_of(entries).last() == line.last());
    }
}

/// What is appended to a log comes after what is there, whatever is there: the entry is read back
/// last, and the entries before it are read back as before.
pub proof fn law_append_is_read_back(entries: Seq<WalView>, entry: WalView)
    requires
        entry.is_storable(),
    ensures
        replayed(contents_of(entries.push(entry))) == replayed(contents_of(entries)).push(entry),
{
    assert(entries.push(entry).drop_last() =~= entries);
    lemma_contents_end(entries);
    lemma_lines_append(contents_of(entries), entry.line());
    lemma_recorded_append(text::lines(contents_of(entries)), text::lines(entry.line()));
    law_line_is_read_back(entry);
}

/// A log reads back exactly the entries that were appended to it, in order.
pub proof fn law_replay_gives_back_what_was_appended(entries: Seq<WalView>)
    requires
        forall|i: int| 0 <= i < entries.len() ==> (#[trigger] entries[i]).is_storable(),
    ensures
        replayed(contents_of(entries)) == entries,
    decreases entries.len(),
{
    if entries.len() == 0 {
        assert(replayed(contents_of(entries)) =~= entries);
    } else {
        let front = entries.drop_last();
        assert forall|i: int| 0 <= i < front.len() implies (#[trigger] front[i]).is_storable() by {
            assert(front[i] == entries[i]);
        }
        law_replay_gives_back_what_was_appended(front);
        assert(entries[entries.len() - 1].is_storable());
        law_append_is_read_back(front, entries.last());
        assert(front.push(entries.last()) =~= entries);
    }
}

/// A mutation whose texts fit on a line is recorded as `PUT`, the key and the value, or as `DELETE`
/// and the key, with bars between; any other is recorded in the same form under another word, with
/// its texts escaped. Each is one line.
pub proof fn law_mutations_are_recorded_as_lines(key: Seq<char>, value: Seq<char>)
    ensures
        ({
            let put = WalView { operation: Operation::Put, key, value: Some(value) };
            let del = WalView { operation: Operation::Delete, key, value: None };
            let key_is_plain = !key.contains('|') && !key.contains('\n');
            let value_is_plain = !value.contains('|') && !value.contains('\n');
            let key_ends_line = key.len() > 0 && key[key.len() - 1] == '\r';
            let value_ends_line = value.len() > 0 && value[value.len() - 1] == '\r';
            let plain_put = key_is_plain && value_is_plain && !value_ends_line;
            let plain_del = key_is_plain && !key_ends_line;
            &&& plain_put ==> put.line() == seq!['P', 'U', 'T', '|'] + key + seq!['|'] + value
                + seq!['\n']
            &&& !plain_put ==> put.line() == "ESCAPED-PUT|"@ + escape::escaped(key) + seq!['|']
                + escape::escaped(value) + seq!['\n']
            &&& plain_del ==> del.line() == seq!['D', 'E', 'L', 'E', 'T', 'E', '|'] + key + seq![
                '\n',
            ]
            &&& !plain_del ==> del.line() == "ESCAPED-DELETE|"@ + escape::escaped(key) + seq!['\n']
            &&& put.weight() == text::byte_len(key) + text::byte_len(value)
            &&& del.weight() == text::byte_len(key)
        }),
{
    reveal_strlit("PUT|");
    reveal_strlit("DELETE|");
    reveal_strlit("|");
    reveal_strlit("\n");
    assert("PUT|"@ =~= seq!['P', 'U', 'T', '|']);
    assert("DELETE|"@ =~= seq!['D', 'E', 'L', 'E', 'T', 'E', '|']);
    assert("|"@ =~= seq!['|']);
    assert("\n"@ =~= seq!['\n']);
}

/// A line records a mutation exactly if it is one of the known words with as many fields as go with
/// it. A line that is malformed records nothing, and the others are read as if it were not there.
pub proof fn law_malformed_lines_are_left_out(line: Seq<char>, front: Seq<Seq<char>>)
    ensures
        ({
            let parts = text::fields(line, '|');
            let entry = recorded(line);
            let is_put = parts.len() == 3 && (parts[0] == "PUT"@ || parts[0] == "ESCAPED-PUT"@);
            let is_del = parts.len() == 2 && (parts[0] == "DELETE"@ || parts[0]
                == "ESCAPED-DELETE"@);
            &&& entry is Some <==> is_put || is_del
            &&& is_put && parts[0] == "PUT"@ ==> entry == Some(
                WalView { operation: Operation::Put, key: parts[1], value: Some(parts[2]) },
            )
            &&& is_del && parts[0] == "DELETE"@ ==> entry == Some(
                WalView { operation: Operation::Delete, key: parts[1], value: None },
            )
            &&& is_put && parts[0] == "ESCAPED-PUT"@ ==> entry == Some(
                WalView {
                    operation: Operation::Put,
                    key: escape::unescaped(parts[1]),
                    value: Some(escape::unescaped(parts[2])),
                },
            )
            &&& is_del && parts[0] == "ESCAPED-DELETE"@ ==> entry == Some(
                WalView {
                    operation: Operation::Delete,
                    key: escape::unescaped(parts[1]),
                    value: None,
                },
            )
            &&& recorded_in(Seq::empty()).len() == 0
            &&& recorded_in(front.push(line)) == (match entry {
                Some(entry) => recorded_in(front).push(entry),
                None => recorded_in(front),
            })
        }),
{
    reveal_strlit("PUT");
    reveal_strlit("ESCAPED-PUT");
    reveal_strlit("DELETE");
    reveal_strlit("ESCAPED-DELETE");
    assert("PUT"@.len() == 3);
    assert("ESCAPED-PUT"@.len() == 11);
    assert("DELETE"@.len() == 6);
    assert("ESCAPED-DELETE"@.len() == 14);
    assert(front.push(line).drop_last() =~= front);
}

/// A log is read from its first line to its last.
pub proof fn law_logs_are_read_line_by_line(contents: Seq<char>, entries: Seq<WalView>, entry: WalView)
    ensures
        replayed(contents) == recorded_in(text::lines(contents)),
        contents_of(Seq::empty()).len() == 0,
        contents_of(entries.push(entry)) == contents_of(entries) + entry.line(),
        weight_of(Seq::empty()) == 0,
        weight_of(entries.push(entry)) == weight_of(entries) + entry.weight(),
{
    assert(entries.push(entry).drop_last() =~= entries);
}

} // verus!
