//! RESP, the wire protocol of Redis: requests are arrays of bulk strings.

use crate::text;
use crate::text::{parse_number, push_decimal, push_signed_decimal, same_text, split_lines, strip_mark};
use vstd::prelude::*;
use vstd::string::*;
use vstd::utf8::{encode_utf8, is_ascii_chars};

verus! {

/// A request of a client.
#[derive(Debug)]
pub enum Command {
    Get { key: String },
    Put { key: String, value: String },
    Del { key: String },
    Ping,
    Unknown { name: String },
}

/// What a [`Command`] says.
pub enum CommandView {
    Get { key: Seq<char> },
    Put { key: Seq<char>, value: Seq<char> },
    Del { key: Seq<char> },
    Ping,
    Unknown { name: Seq<char> },
}

impl View for Command {
    type V = CommandView;

    open spec fn view(&self) -> CommandView {
        match self {
            Command::Get { key } => CommandView::Get { key: key@ },
            Command::Put { key, value } => CommandView::Put { key: key@, value: value@ },
            Command::Del { key } => CommandView::Del { key: key@ },
            Command::Ping => CommandView::Ping,
            Command::Unknown { name } => CommandView::Unknown { name: name@ },
        }
    }
}

/// What a command says, if there is one.
pub open spec fn command_view(command: Option<Command>) -> Option<CommandView> {
    match command {
        Some(command) => Some(command@),
        None => None,
    }
}

/// A reply to a client.
#[derive(Debug)]
pub enum Response {
    /// `+OK\r\n`
    SimpleString(String),
    /// `$<bytes>\r\n<text>\r\n`
    BulkString(String),
    /// `$-1\r\n`
    Null,
    /// `-ERR <message>\r\n`
    Error(String),
    /// `:<number>\r\n`
    Integer(i64),
}

/// What a [`Response`] says.
pub enum ResponseView {
    SimpleString(Seq<char>),
    BulkString(Seq<char>),
    Null,
    Error(Seq<char>),
    Integer(i64),
}

impl View for Response {
    type V = ResponseView;

    open spec fn view(&self) -> ResponseView {
        match self {
            Response::SimpleString(text) => ResponseView::SimpleString(text@),
            Response::BulkString(text) => ResponseView::BulkString(text@),
            Response::Null => ResponseView::Null,
            Response::Error(message) => ResponseView::Error(message@),
            Response::Integer(number) => ResponseView::Integer(*number),
        }
    }
}

impl ResponseView {
    /// The reply on the wire.
    pub open spec fn wire(self) -> Seq<char> {
        match self {
            ResponseView::SimpleString(text) => "+"@ + text + "\r\n"@,
            ResponseView::BulkString(text) => "$"@ + text::decimal(text::byte_len(text)) + "\r\n"@
                + text + "\r\n"@,
            ResponseView::Null => "$-1\r\n"@,
            ResponseView::Error(message) => "-ERR "@ + message + "\r\n"@,
            ResponseView::Integer(number) => ":"@ + text::signed_decimal(number as int) + "\r\n"@,
        }
    }
}

/// The views of some texts.
pub open spec fn texts(strings: Seq<String>) -> Seq<Seq<char>> {
    strings.map_values(|string: String| string@)
}

/// The upper case of a text, as Unicode defines it: what `str::to_uppercase` returns.
pub uninterp spec fn uppercase(text: Seq<char>) -> Seq<char>;

/// The upper case of an ASCII character.
pub open spec fn ascii_upper(c: char) -> char {
    if 'a' <= c <= 'z' {
        (c as u32 - 32) as char
    } else {
        c
    }
}

/// The upper case of an ASCII text.
pub open spec fn ascii_uppercase(text: Seq<char>) -> Seq<char> {
    text.map_values(|c: char| ascii_upper(c))
}

/// Calls `str::to_uppercase`. The result is the text's upper case, which depends on the text alone;
/// of an ASCII text, every letter from `a` to `z` becomes its capital and nothing else changes.
#[verifier::external_body]
pub(crate) fn to_uppercase(text: &str) -> (upper: String)
    ensures
        upper@ == uppercase(text@),
        is_ascii_chars(text@) ==> upper@ == ascii_uppercase(text@),
{
    text.to_uppercase()
}

/// Whether a text starts with a mark.
pub open spec fn starts_with(line: Seq<char>, mark: char) -> bool {
    line.len() > 0 && line[0] == mark
}

/// How many arguments a request announces in its first line: `*` and a number.
pub open spec fn announced(line: Seq<char>) -> Option<usize> {
    if starts_with(line, '*') {
        text::number(line.skip(1))
    } else {
        None
    }
}

/// Whether the lines begin with `count` arguments: each is a line that starts with `$` and a line
/// of data.
pub open spec fn has_args(lines: Seq<Seq<char>>, count: nat) -> bool {
    &&& 2 * count <= lines.len()
    &&& forall|i: int| 0 <= i < count ==> starts_with(#[trigger] lines[2 * i], '$')
}

/// The data of the first `count` arguments.
pub open spec fn args_in(lines: Seq<Seq<char>>, count: nat) -> Seq<Seq<char>> {
    Seq::new(count, |i: int| lines[2 * i + 1])
}

/// The arguments of a request.
pub open spec fn request_args(lines: Seq<Seq<char>>) -> Option<Seq<Seq<char>>> {
    if lines.len() == 0 {
        None
    } else {
        match announced(lines[0]) {
            Some(count) => if has_args(lines.skip(1), count as nat) {
                Some(args_in(lines.skip(1), count as nat))
            } else {
                None
            },
            None => None,
        }
    }
}

/// The command with the given name, in upper case, and arguments, the first of which is the name
/// as it was sent. A known command with the wrong number of arguments is none.
pub open spec fn command_named(name: Seq<char>, args: Seq<Seq<char>>) -> Option<CommandView> {
    if name == "GET"@ {
        if args.len() == 2 {
            Some(CommandView::Get { key: args[1] })
        } else {
            None
        }
    } else if name == "SET"@ {
        if args.len() == 3 {
            Some(CommandView::Put { key: args[1], value: args[2] })
        } else {
            None
        }
    } else if name == "DEL"@ {
        if args.len() == 2 {
            Some(CommandView::Del { key: args[1] })
        } else {
            None
        }
    } else if name == "PING"@ {
        Some(CommandView::Ping)
    } else {
        Some(CommandView::Unknown { name })
    }
}

impl Command {
    /// Parse a request.
    ///
    /// A request is an array of bulk strings: `*<count>\r\n`, and for each argument
    /// `$<length>\r\n<data>\r\n`. `SET name uday` arrives as
    /// `*3\r\n$3\r\nSET\r\n$4\r\nname\r\n$4\r\nuday\r\n`. The lengths are not read: an argument is
    /// a line. The case of the command's name does not matter.
    pub fn parse(input: &str) -> (command: Option<Command>)
        ensures
            match request_args(text::lines(input@)) {
                Some(args) => if args.len() > 0 {
                    &&& command_view(command) == command_named(uppercase(args[0]), args)
                    &&& is_ascii_chars(args[0]) ==> command_view(command) == command_named(
                        ascii_uppercase(args[0]),
                        args,
                    )
                } else {
                    command is None
                },
                None => command is None,
            },
    {
        let args: Vec<String> = match Command::read_args(input) {
            Some(args) => args,
            None => {
                return None;
            },
        };
        if args.len() == 0 {
            return None;
        }
        assert(texts(args@)[0] == args@[0]@);
        let name: String = to_uppercase(args[0].as_str());
        Command::named(name, &args)
    }

    /// The arguments of a request.
    fn read_args(input: &str) -> (args: Option<Vec<String>>)
        ensures
            match request_args(text::lines(input@)) {
                Some(expected) => args matches Some(args) && texts(args@) == expected,
                None => args is None,
            },
    {
        let lines: Vec<&str> = split_lines(input);
        let ghost all = text::lines(input@);
        assert(lines@.len() == all.len());
        assert forall|i: int| 0 <= i < all.len() implies all[i] == (#[trigger] lines@[i])@ by {
            assert(text::views(lines@)[i] == lines@[i]@);
        }
        if lines.len() == 0 {
            return None;
        }
        let count: usize = match strip_mark(lines[0], 42) {
            Some(rest) => match parse_number(rest) {
                Some(count) => count,
                None => {
                    return None;
                },
            },
            None => {
                return None;
            },
        };
        let ghost rest = all.skip(1);
        let mut args: Vec<String> = Vec::new();
        let mut i: usize = 0;
        let mut at: usize = 1;
        while i < count
            invariant
                lines@.len() == all.len(),
                forall|j: int| 0 <= j < all.len() ==> all[j] == (#[trigger] lines@[j])@,
                rest == all.skip(1),
                all.len() > 0,
                announced(all[0]) == Some(count),
                all == text::lines(input@),
                i <= count,
                at == 1 + 2 * i,
                at <= lines@.len(),
                has_args(rest, i as nat),
                texts(args@) == args_in(rest, i as nat),
            decreases count - i,
        {
            if lines.len() - at < 2 {
                return None;
            }
            assert(rest[2 * i] == lines@[at as int]@);
            assert(rest[2 * i + 1] == lines@[at + 1]@);
            if strip_mark(lines[at], 36).is_none() {
                proof {
                    if has_args(rest, count as nat) {
                        assert(starts_with(rest[2 * (i as int)], '$'));
                    }
                }
                return None;
            }
            let ghost before = args@;
            args.push(lines[at + 1].to_owned());
            i += 1;
            at += 2;
            assert(texts(args@) =~= texts(before).push(rest[2 * i - 1]));
            assert(texts(args@) =~= args_in(rest, i as nat));
        }
        Some(args)
    }

    /// The command with the given name, in upper case, and arguments, the first of which is the
    /// name as it was sent. A known command with the wrong number of arguments is none.
    pub fn named(name: String, args: &Vec<String>) -> (command: Option<Command>)
        ensures
            command_view(command) == command_named(name@, texts(args@)),
    {
        assert forall|i: int| 0 <= i < args@.len() implies texts(args@)[i] == (
        #[trigger] args@[i])@ by {}
        if same_text(name.as_str(), "GET") {
            if args.len() != 2 {
                return None;
            }
            Some(Command::Get { key: args[1].clone() })
        } else if same_text(name.as_str(), "SET") {
            if args.len() != 3 {
                return None;
            }
            Some(Command::Put { key: args[1].clone(), value: args[2].clone() })
        } else if same_text(name.as_str(), "DEL") {
            if args.len() != 2 {
                return None;
            }
            Some(Command::Del { key: args[1].clone() })
        } else if same_text(name.as_str(), "PING") {
            Some(Command::Ping)
        } else {
            Some(Command::Unknown { name })
        }
    }
}

impl Response {
    /// The reply on the wire.
    pub fn serialize(&self) -> (wire: String)
        ensures
            wire@ == self@.wire(),
    {
        let mut wire: String = String::new();
        match self {
            Response::SimpleString(text) => {
                wire.append("+");
                wire.append(text.as_str());
                wire.append("\r\n");
            },
            Response::BulkString(text) => {
                let bytes: usize = text.as_str().as_bytes().len();
                wire.append("$");
                push_decimal(&mut wire, bytes as u64);
                wire.append("\r\n");
                wire.append(text.as_str());
                wire.append("\r\n");
            },
            Response::Null => {
                wire.append("$-1\r\n");
            },
            Response::Error(message) => {
                wire.append("-ERR ");
                wire.append(message.as_str());
                wire.append("\r\n");
            },
            Response::Integer(number) => {
                wire.append(":");
                push_signed_decimal(&mut wire, *number);
                wire.append("\r\n");
            },
        }
        assert(wire@ =~= self@.wire());
        wire
    }
}

/// An argument on the wire.
pub open spec fn arg_text(arg: Seq<char>) -> Seq<char> {
    "$"@ + text::decimal(text::byte_len(arg)) + "\r\n"@ + arg + "\r\n"@
}

/// Arguments on the wire.
pub open spec fn args_text(args: Seq<Seq<char>>) -> Seq<char>
    decreases args.len(),
{
    if args.len() == 0 {
        Seq::empty()
    } else {
        arg_text(args[0]) + args_text(args.drop_first())
    }
}

/// A request on the wire, as a client sends it.
pub open spec fn request_text(args: Seq<Seq<char>>) -> Seq<char> {
    "*"@ + text::decimal(args.len()) + "\r\n"@ + args_text(args)
}

/// A marked number is one line.
proof fn lemma_number_line(mark: Seq<char>, n: nat, rest: Seq<char>)
    requires
        mark == "$"@ || mark == "*"@,
    ensures
        text::lines(mark + text::decimal(n) + "\r\n"@ + rest) == seq![mark + text::decimal(n)]
            + text::lines(rest),
{
    reveal_strlit("$");
    reveal_strlit("*");
    reveal_strlit("\r\n");
    reveal_strlit("\n");
    text::lemma_decimal(n);
    let number = mark + text::decimal(n);
    let line = number.push('\r');
    assert forall|i: int| 0 <= i < line.len() implies #[trigger] line[i] != '\n' by {
        if 1 <= i < number.len() {
            assert('0' <= text::decimal(n)[i - 1] <= '9');
        }
    }
    text::lemma_first_line(line, rest);
    assert(mark + text::decimal(n) + "\r\n"@ + rest =~= line + "\n"@ + rest);
    assert(text::without_return(line) =~= number);
}

/// An argument is two lines, the second of which is its data.
proof fn lemma_arg_lines(arg: Seq<char>, rest: Seq<char>)
    requires
        !arg.contains('\n'),
    ensures
        text::lines(arg_text(arg) + rest) == seq![
            "$"@ + text::decimal(text::byte_len(arg)),
            arg,
        ] + text::lines(rest),
{
    reveal_strlit("\r\n");
    reveal_strlit("\n");
    let data = arg.push('\r');
    assert(!data.contains('\n')) by {
        if data.contains('\n') {
            let i = choose|i: int| 0 <= i < data.len() && data[i] == '\n';
            assert(arg[i] == '\n');
        }
    }
    let after = data + "\n"@ + rest;
    lemma_number_line("$"@, text::byte_len(arg), after);
    text::lemma_first_line(data, rest);
    assert(text::without_return(data) =~= arg);
    assert(arg_text(arg) + rest =~= "$"@ + text::decimal(text::byte_len(arg)) + "\r\n"@ + after);
    assert(text::lines(arg_text(arg) + rest) =~= seq![
        "$"@ + text::decimal(text::byte_len(arg)),
        arg,
    ] + text::lines(rest));
}

/// Arguments are read back from their lines.
proof fn lemma_args_lines(args: Seq<Seq<char>>)
    requires
        forall|i: int| 0 <= i < args.len() ==> !(#[trigger] args[i]).contains('\n'),
    ensures
        has_args(text::lines(args_text(args)), args.len()),
        args_in(text::lines(args_text(args)), args.len()) == args,
    decreases args.len(),
{
    let lines = text::lines(args_text(args));
    if args.len() > 0 {
        let rest = args.drop_first();
        assert forall|i: int| 0 <= i < rest.len() implies !(#[trigger] rest[i]).contains('\n') by {
            assert(rest[i] == args[i + 1]);
        }
        lemma_args_lines(rest);
        lemma_arg_lines(args[0], args_text(rest));
        let after = text::lines(args_text(rest));
        let first = "$"@ + text::decimal(text::byte_len(args[0]));
        assert(lines == seq![first, args[0]] + after);
        reveal_strlit("$");
        assert forall|i: int| 0 <= i < args.len() implies starts_with(
            #[trigger] lines[2 * i],
            '$',
        ) by {
            if i > 0 {
                assert(lines[2 * i] == after[2 * (i - 1)]);
            }
        }
        assert forall|i: int| 0 <= i < args.len() implies lines[2 * i + 1] == args[i] by {
            if i > 0 {
                assert(lines[2 * i + 1] == after[2 * (i - 1) + 1]);
                assert(args_in(after, rest.len())[i - 1] == rest[i - 1]);
            }
        }
    }
    assert(args_in(lines, args.len()) =~= args);
}

/// A request is read back as the arguments that were sent, if none of them holds a line feed.
pub proof fn law_request_is_read_back(args: Seq<Seq<char>>)
    requires
        args.len() <= usize::MAX,
        forall|i: int| 0 <= i < args.len() ==> !(#[trigger] args[i]).contains('\n'),
    ensures
        request_args(text::lines(request_text(args))) == Some(args),
{
    reveal_strlit("*");
    lemma_args_lines(args);
    lemma_number_line("*"@, args.len(), args_text(args));
    let lines = text::lines(request_text(args));
    let first = "*"@ + text::decimal(args.len());
    assert(lines == seq![first] + text::lines(args_text(args)));
    assert(lines.skip(1) =~= text::lines(args_text(args)));
    assert(first.skip(1) =~= text::decimal(args.len()));
    text::lemma_number_of_decimal(args.len());
}

/// The character that tells what kind of reply follows.
spec fn kind_of(response: ResponseView) -> char {
    match response {
        ResponseView::SimpleString(_) => '+',
        ResponseView::BulkString(_) => '$',
        ResponseView::Null => '$',
        ResponseView::Error(_) => '-',
        ResponseView::Integer(_) => ':',
    }
}

/// A reply starts with the character that tells its kind.
proof fn lemma_kind(response: ResponseView)
    ensures
        response.wire().len() > 0,
        response.wire()[0] == kind_of(response),
{
    reveal_strlit("+");
    reveal_strlit("$");
    reveal_strlit("-ERR ");
    reveal_strlit(":");
    reveal_strlit("$-1\r\n");
}

/// Different replies differ on the wire.
pub proof fn law_replies_are_told_apart(a: ResponseView, b: ResponseView)
    requires
        a.wire() == b.wire(),
    ensures
        a == b,
{
    reveal_strlit("$");
    reveal_strlit("$-1\r\n");
    lemma_kind(a);
    lemma_kind(b);
    match (a, b) {
        (ResponseView::SimpleString(x), ResponseView::SimpleString(y)) => {
            lemma_framed("+"@, x, y);
        },
        (ResponseView::Error(x), ResponseView::Error(y)) => {
            lemma_framed("-ERR "@, x, y);
        },
        (ResponseView::Integer(x), ResponseView::Integer(y)) => {
            lemma_framed(":"@, text::signed_decimal(x as int), text::signed_decimal(y as int));
            lemma_signed_decimal_injective(x as int, y as int);
        },
        (ResponseView::BulkString(x), ResponseView::BulkString(y)) => {
            lemma_bulk(x, y);
        },
        (ResponseView::BulkString(x), ResponseView::Null) => {
            text::lemma_decimal(text::byte_len(x));
            assert(a.wire()[1] == text::decimal(text::byte_len(x))[0]);
            assert(b.wire()[1] == '-');
        },
        (ResponseView::Null, ResponseView::BulkString(y)) => {
            text::lemma_decimal(text::byte_len(y));
            assert(b.wire()[1] == text::decimal(text::byte_len(y))[0]);
            assert(a.wire()[1] == '-');
        },
        _ => {},
    }
}

/// What stands between the same two texts is the same.
proof fn lemma_framed(front: Seq<char>, x: Seq<char>, y: Seq<char>)
    requires
        front + x + "\r\n"@ == front + y + "\r\n"@,
    ensures
        x == y,
{
    reveal_strlit("\r\n");
    let a = front + x + "\r\n"@;
    let b = front + y + "\r\n"@;
    assert(a.len() == b.len());
    assert(x =~= a.subrange(front.len() as int, a.len() - 2));
    assert(y =~= b.subrange(front.len() as int, b.len() - 2));
}

/// Different numbers are written differently.
proof fn lemma_signed_decimal_injective(x: int, y: int)
    requires
        text::signed_decimal(x) == text::signed_decimal(y),
    ensures
        x == y,
{
    let magnitude_x = if x < 0 {
        (-x) as nat
    } else {
        x as nat
    };
    let magnitude_y = if y < 0 {
        (-y) as nat
    } else {
        y as nat
    };
    text::lemma_decimal(magnitude_x);
    text::lemma_decimal(magnitude_y);
    assert('0' <= text::decimal(magnitude_x)[0]);
    assert('0' <= text::decimal(magnitude_y)[0]);
    assert(text::signed_decimal(x)[0] == text::signed_decimal(y)[0]);
    if x < 0 {
        assert(text::decimal(magnitude_x) =~= text::signed_decimal(x).skip(1));
        assert(text::decimal(magnitude_y) =~= text::signed_decimal(y).skip(1));
    }
}

/// Different texts make different bulk strings: the length ends at the first carriage return.
proof fn lemma_bulk(x: Seq<char>, y: Seq<char>)
    requires
        ResponseView::BulkString(x).wire() == ResponseView::BulkString(y).wire(),
    ensures
        x == y,
{
    reveal_strlit("$");
    reveal_strlit("\r\n");
    let length_x = text::decimal(text::byte_len(x));
    let length_y = text::decimal(text::byte_len(y));
    let a = ResponseView::BulkString(x).wire();
    let b = ResponseView::BulkString(y).wire();
    text::lemma_decimal(text::byte_len(x));
    text::lemma_decimal(text::byte_len(y));
    assert(a[1 + length_x.len() as int] == '\r');
    assert(b[1 + length_y.len() as int] == '\r');
    assert(length_x.len() == length_y.len()) by {
        if length_x.len() < length_y.len() {
            assert('0' <= length_y[length_x.len() as int]);
            assert(b[1 + length_x.len() as int] == length_y[length_x.len() as int]);
        }
        if length_y.len() < length_x.len() {
            assert('0' <= length_x[length_y.len() as int]);
            assert(a[1 + length_y.len() as int] == length_x[length_y.len() as int]);
        }
    }
    let start = 3 + length_x.len() as int;
    assert(x =~= a.subrange(start, a.len() - 2));
    assert(y =~= b.subrange(start, b.len() - 2));
}

/// Every reply has the form that the protocol gives it: a character that tells its kind, what it
/// says, and a line ending.
pub proof fn law_replies_have_the_form_of_the_protocol(text: Seq<char>, number: i64)
    ensures
        ResponseView::SimpleString(text).wire() == seq!['+'] + text + seq!['\r', '\n'],
        ResponseView::Error(text).wire() == seq!['-', 'E', 'R', 'R', ' '] + text + seq![
            '\r',
            '\n',
        ],
        ResponseView::Null.wire() == seq!['$', '-', '1', '\r', '\n'],
        number >= 0 ==> ResponseView::Integer(number).wire() == seq![':'] + text::decimal(
            number as nat,
        ) + seq!['\r', '\n'],
        number < 0 ==> ResponseView::Integer(number).wire() == seq![':', '-'] + text::decimal(
            (-number) as nat,
        ) + seq!['\r', '\n'],
{
    reveal_strlit("+");
    reveal_strlit("-ERR ");
    reveal_strlit(":");
    reveal_strlit("\r\n");
    reveal_strlit("$-1\r\n");
    assert(ResponseView::SimpleString(text).wire() =~= seq!['+'] + text + seq!['\r', '\n']);
    assert(ResponseView::Error(text).wire() =~= seq!['-', 'E', 'R', 'R', ' '] + text + seq![
        '\r',
        '\n',
    ]);
    assert(ResponseView::Null.wire() =~= seq!['$', '-', '1', '\r', '\n']);
    if number >= 0 {
        assert(ResponseView::Integer(number).wire() =~= seq![':'] + text::decimal(number as nat)
            + seq!['\r', '\n']);
    } else {
        assert(ResponseView::Integer(number).wire() =~= seq![':', '-'] + text::decimal(
            (-number) as nat,
        ) + seq!['\r', '\n']);
    }
}

/// A value can be read back from its reply: after `$` and up to the first carriage return stands a
/// number. After that line come exactly as many bytes as the number says, they are those of the
/// value, and a line ending follows, whatever the value holds.
pub proof fn law_value_is_read_back_from_its_reply(value: Seq<char>)
    requires
        encode_utf8(value).len() <= usize::MAX,
    ensures
        ({
            let wire = ResponseView::BulkString(value).wire();
            let end = text::find(wire, '\r');
            let body = encode_utf8(wire.skip(end + 2));
            let count = text::number(wire.subrange(1, end));
            &&& wire[0] == '$'
            &&& 1 < end < wire.len() - 1
            &&& wire[end] == '\r' && wire[end + 1] == '\n'
            &&& forall|i: int| 0 <= i < end ==> #[trigger] wire[i] != '\r'
            &&& count == Some(encode_utf8(value).len() as usize)
            &&& body.len() == encode_utf8(value).len() + 2
            &&& body.take(encode_utf8(value).len() as int) == encode_utf8(value)
            &&& body.skip(encode_utf8(value).len() as int) == seq![13u8, 10u8]
        }),
{
    reveal_strlit("$");
    reveal_strlit("\r\n");
    let n = encode_utf8(value).len();
    let digits = text::decimal(n);
    let wire = ResponseView::BulkString(value).wire();
    let end = 1 + digits.len() as int;
    text::lemma_decimal(n);
    text::lemma_number_of_decimal(n);
    assert forall|i: int| 0 <= i < end implies #[trigger] wire[i] != '\r' by {
        if i > 0 {
            assert(wire[i] == digits[i - 1]);
            assert('0' <= digits[i - 1] <= '9');
        }
    }
    text::lemma_find(wire, '\r', end);
    assert(wire.subrange(1, end) =~= digits);
    let ending = seq!['\r', '\n'];
    assert("\r\n"@ =~= ending);
    assert(wire.skip(end + 2) =~= value + ending);
    text::lemma_encode_concat(value, ending);
    assert(is_ascii_chars(ending));
    vstd::utf8::is_ascii_chars_encode_utf8(ending);
    assert(encode_utf8(ending) =~= seq![13u8, 10u8]);
    let body = encode_utf8(value + ending);
    assert(body.take(n as int) =~= encode_utf8(value));
    assert(body.skip(n as int) =~= seq![13u8, 10u8]);
}

/// A request is read exactly if its first line is a star and a number, and for each of so many
/// arguments a line that starts with a dollar sign and one more line follow. The arguments are
/// these other lines.
pub proof fn law_requests_are_arrays_of_lines(lines: Seq<Seq<char>>)
    ensures
        ({
            let is_announced = lines.len() > 0 && lines[0].len() > 0 && lines[0][0] == '*';
            let count = text::number(lines[0].skip(1));
            let is_whole = is_announced && (count matches Some(n) && lines.len() >= 1 + 2 * n
                && forall|i: int|
                0 <= i < n ==> (#[trigger] lines[1 + 2 * i]).len() > 0 && lines[1 + 2 * i][0]
                    == '$');
            &&& request_args(lines) is Some <==> is_whole
            &&& request_args(lines) matches Some(args) ==> args.len() == count->0 && forall|i: int|
                0 <= i < args.len() ==> #[trigger] args[i] == lines[2 + 2 * i]
        }),
{
    if lines.len() > 0 {
        let rest = lines.skip(1);
        if let Some(n) = announced(lines[0]) {
            if lines.len() >= 1 + 2 * n {
                assert forall|i: int| 0 <= i < n implies #[trigger] rest[2 * i] == lines[1 + 2
                    * i] by {}
                assert forall|i: int| 0 <= i < n implies #[trigger] lines[1 + 2 * i] == rest[2
                    * i] by {}
                if forall|i: int|
                    0 <= i < n ==> (#[trigger] lines[1 + 2 * i]).len() > 0 && lines[1 + 2 * i][0]
                        == '$' {
                    assert forall|i: int| 0 <= i < n implies starts_with(
                        #[trigger] rest[2 * i],
                        '$',
                    ) by {
                        assert(lines[1 + 2 * i].len() > 0);
                    }
                    assert(has_args(rest, n as nat));
                }
                if has_args(rest, n as nat) {
                    assert forall|i: int| 0 <= i < n implies (
                    #[trigger] lines[1 + 2 * i]).len() > 0 && lines[1 + 2 * i][0] == '$' by {
                        assert(starts_with(rest[2 * i], '$'));
                    }
                    let args = args_in(rest, n as nat);
                    assert forall|i: int| 0 <= i < args.len() implies #[trigger] args[i]
                        == lines[2 + 2 * i] by {
                        assert(rest[2 * i + 1] == lines[2 + 2 * i]);
                    }
                }
            }
        }
    }
}

/// The commands are known by their names in capitals, and each takes its own number of arguments:
/// with any other number it is none. Every other name is an unknown command.
pub proof fn law_commands_are_known_by_name(name: Seq<char>, args: Seq<Seq<char>>)
    ensures
        ({
            let command = command_named(name, args);
            &&& name == seq!['G', 'E', 'T'] ==> command == (if args.len() == 2 {
                Some(CommandView::Get { key: args[1] })
            } else {
                None
            })
            &&& name == seq!['S', 'E', 'T'] ==> command == (if args.len() == 3 {
                Some(CommandView::Put { key: args[1], value: args[2] })
            } else {
                None
            })
            &&& name == seq!['D', 'E', 'L'] ==> command == (if args.len() == 2 {
                Some(CommandView::Del { key: args[1] })
            } else {
                None
            })
            &&& name == seq!['P', 'I', 'N', 'G'] ==> command == Some(CommandView::Ping)
            &&& name != seq!['G', 'E', 'T'] && name != seq!['S', 'E', 'T'] && name != seq![
                'D',
                'E',
                'L',
            ] && name != seq!['P', 'I', 'N', 'G'] ==> command == Some(
                CommandView::Unknown { name },
            )
        }),
{
    reveal_strlit("GET");
    reveal_strlit("SET");
    reveal_strlit("DEL");
    reveal_strlit("PING");
    assert("GET"@ =~= seq!['G', 'E', 'T']);
    assert("SET"@ =~= seq!['S', 'E', 'T']);
    assert("DEL"@ =~= seq!['D', 'E', 'L']);
    assert("PING"@ =~= seq!['P', 'I', 'N', 'G']);
    assert("GET"@[0] != "SET"@[0]);
    assert("GET"@[0] != "DEL"@[0]);
    assert("SET"@[0] != "DEL"@[0]);
    assert("PING"@.len() == 4);
}

/// The case of a name does not matter: small letters become their capitals, and all else stays.
pub proof fn law_case_does_not_matter(name: Seq<char>, word: Seq<char>)
    requires
        name.len() == word.len(),
        forall|i: int|
            0 <= i < name.len() ==> !('a' <= #[trigger] word[i] <= 'z') && (name[i] == word[i] || (
            'A' <= word[i] <= 'Z' && name[i] as u32 == word[i] as u32 + 32)),
    ensures
        ascii_uppercase(name) == word,
{
    assert forall|i: int| 0 <= i < name.len() implies #[trigger] ascii_uppercase(name)[i]
        == word[i] by {
        assert(!('a' <= word[i] <= 'z'));
    }
    assert(ascii_uppercase(name) =~= word);
}

} // verus!
