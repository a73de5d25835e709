//! The wire protocol and the connections of clients.

use raftkv::network::protocol::{Command, Response};
use raftkv::network::server::{RequestReader, Step};

/// A request on the wire.
fn request(args: &[&str]) -> String {
    let mut text = format!("*{}\r\n", args.len());
    for arg in args {
        text.push_str(&format!("${}\r\n{}\r\n", arg.len(), arg));
    }
    text
}

fn describe(command: Option<Command>) -> String {
    match command {
        Some(command) => describe_one(command),
        None => "none".to_string(),
    }
}

fn describe_one(command: Command) -> String {
    match command {
        Command::Get { key } => format!("get {}", key),
        Command::Put { key, value } => format!("set {}={}", key, value),
        Command::Del { key } => format!("del {}", key),
        Command::Ping => "ping".to_string(),
        Command::Unknown { name } => format!("unknown {}", name),
    }
}

fn parse(text: &str) -> String {
    describe(Command::parse(text))
}

#[test]
fn requests_are_parsed() {
    assert_eq!(parse("*3\r\n$3\r\nSET\r\n$4\r\nname\r\n$4\r\nuday\r\n"), "set name=uday");
    assert_eq!(parse("*2\r\n$3\r\nGET\r\n$4\r\nname\r\n"), "get name");
    assert_eq!(parse("*2\r\n$3\r\nDEL\r\n$4\r\nname\r\n"), "del name");
    assert_eq!(parse("*1\r\n$4\r\nPING\r\n"), "ping");
    assert_eq!(parse("*2\r\n$4\r\nPING\r\n$1\r\nx\r\n"), "ping");
    assert_eq!(parse("*1\r\n$5\r\nfetch\r\n"), "unknown FETCH");
}

#[test]
fn the_case_of_a_command_does_not_matter() {
    for name in ["set", "Set", "SET", "sEt"] {
        assert_eq!(parse(&request(&[name, "k", "v"])), "set k=v");
    }
    // A name that is not ASCII has an upper case too.
    assert_eq!(parse(&request(&["größe"])), "unknown GRÖSSE");
}

#[test]
fn broken_requests_are_not_parsed() {
    for text in [
        "",
        "GET name",
        "*x\r\n",
        "*\r\n",
        "*-1\r\n",
        "*99999999999999999999999\r\n",
        "*0\r\n",
        "*2\r\n$3\r\nGET\r\n",
        "*2\r\n$3\r\nGET\r\n$4\r\n",
        "*2\r\n$3\r\nGET\r\nname\r\n",
        "*18446744073709551615\r\n$3\r\nGET\r\n",
    ] {
        assert_eq!(parse(text), "none", "{}", text);
    }
    // A known command with the wrong number of arguments is none either.
    assert_eq!(parse(&request(&["GET"])), "none");
    assert_eq!(parse(&request(&["GET", "a", "b"])), "none");
    assert_eq!(parse(&request(&["SET", "a"])), "none");
    assert_eq!(parse(&request(&["DEL", "a", "b"])), "none");
}

#[test]
fn the_count_of_a_request_may_have_a_plus_sign() {
    assert_eq!(parse("*+1\r\n$4\r\nPING\r\n"), "ping");
    assert_eq!(parse("*007\r\n$4\r\nPING\r\n"), "none");
    assert_eq!(parse("*01\r\n$4\r\nPING\r\n"), "ping");
}

#[test]
fn requests_are_read_back() {
    assert_eq!(parse(&request(&["SET", "a b|c", "$5\r"])), "set a b|c=$5\r");
    assert_eq!(parse(&request(&["GET", ""])), "get ");
    assert_eq!(parse(&request(&["GET", "ключ"])), "get ключ");
}

#[test]
fn a_line_feed_ends_an_argument() {
    assert_eq!(parse(&request(&["GET", "a\nb"])), "get a");
}

#[test]
fn a_command_can_be_chosen_by_name() {
    let args = vec!["get".to_string(), "k".to_string()];
    assert_eq!(describe(Command::named("GET".to_string(), &args)), "get k");
    assert_eq!(describe(Command::named("get".to_string(), &args)), "unknown get");
    assert_eq!(describe(Command::named("SET".to_string(), &args)), "none");
    assert_eq!(describe_one(RequestReader::named("SET".to_string(), &args)), "unknown SET");
    assert_eq!(describe_one(RequestReader::named("DEL".to_string(), &args)), "del k");
}

#[test]
fn replies_have_a_fixed_form() {
    assert_eq!(Response::SimpleString("OK".to_string()).serialize(), "+OK\r\n");
    assert_eq!(Response::BulkString("uday".to_string()).serialize(), "$4\r\nuday\r\n");
    assert_eq!(Response::BulkString(String::new()).serialize(), "$0\r\n\r\n");
    assert_eq!(Response::BulkString("é\r\n".to_string()).serialize(), "$4\r\né\r\n\r\n");
    assert_eq!(Response::Null.serialize(), "$-1\r\n");
    assert_eq!(Response::Error("bad".to_string()).serialize(), "-ERR bad\r\n");
    assert_eq!(Response::Integer(1).serialize(), ":1\r\n");
    assert_eq!(Response::Integer(0).serialize(), ":0\r\n");
    assert_eq!(Response::Integer(-40).serialize(), ":-40\r\n");
    assert_eq!(Response::Integer(i64::MIN).serialize(), ":-9223372036854775808\r\n");
    assert_eq!(Response::Integer(i64::MAX).serialize(), ":9223372036854775807\r\n");
}

#[test]
fn different_replies_differ_on_the_wire() {
    let replies = [
        Response::Null,
        Response::BulkString("-1".to_string()),
        Response::BulkString(String::new()),
        Response::SimpleString("1".to_string()),
        Response::Integer(1),
        Response::Integer(-1),
        Response::Error("1".to_string()),
    ];
    for (i, a) in replies.iter().enumerate() {
        for (j, b) in replies.iter().enumerate() {
            assert_eq!(a.serialize() == b.serialize(), i == j);
        }
    }
}

/// What a connection does with some lines.
fn feed(reader: &mut RequestReader, lines: &[&str]) -> Vec<String> {
    lines.iter().map(|line| outcome(reader.on_line(line))).collect()
}

fn outcome(step: Step) -> String {
    match step {
        Step::Read => "read".to_string(),
        Step::Reply(response) => response.serialize(),
        Step::Run(command) => describe_one(command),
        Step::Close => "close".to_string(),
    }
}

#[test]
fn a_connection_reads_request_after_request() {
    let mut reader = RequestReader::new();
    assert_eq!(
        feed(&mut reader, &["*3", "$3", "set", "$1", "k", "$1", "v"]),
        vec!["read", "read", "read", "read", "read", "read", "set k=v"]
    );
    assert_eq!(feed(&mut reader, &["*1", "$4", "ping"]), vec!["read", "read", "ping"]);
    assert_eq!(outcome(reader.on_end()), "close");
}

#[test]
fn a_connection_answers_what_it_cannot_read() {
    let mut reader = RequestReader::new();
    assert_eq!(feed(&mut reader, &["hello"]), vec!["-ERR invalid protocol\r\n"]);
    assert_eq!(feed(&mut reader, &[""]), vec!["-ERR invalid protocol\r\n"]);
    assert_eq!(feed(&mut reader, &["*many"]), vec!["-ERR invalid argument count\r\n"]);
    assert_eq!(feed(&mut reader, &["*0"]), vec!["-ERR protocol parse error\r\n"]);
    assert_eq!(
        feed(&mut reader, &["*2", "$3", "GET", "name"]),
        vec!["read", "read", "read", "-ERR protocol parse error\r\n"]
    );
    // The next request is read as if nothing had happened.
    assert_eq!(feed(&mut reader, &["*1", "$4", "PING"]), vec!["read", "read", "ping"]);
}

#[test]
fn a_request_that_breaks_off_is_answered() {
    let mut reader = RequestReader::new();
    feed(&mut reader, &["*2", "$3"]);
    assert_eq!(outcome(reader.on_end()), "-ERR protocol parse error\r\n");
    assert_eq!(outcome(reader.on_end()), "close");
}

#[test]
fn a_wrong_number_of_arguments_makes_a_command_unknown() {
    let mut reader = RequestReader::new();
    let steps = feed(&mut reader, &["*2", "$3", "set", "$1", "k"]);
    assert_eq!(steps[4], "unknown SET");
    let steps = feed(&mut reader, &["*1", "$1", "ß"]);
    assert_eq!(steps[2], "unknown SS");
}

#[test]
fn the_reader_agrees_with_the_parser() {
    for args in [vec!["GET", "a"], vec!["set", "x", "y z"], vec!["PING"], vec!["what", "now"]] {
        let text = request(&args);
        let lines: Vec<&str> = text.lines().collect();
        let mut reader = RequestReader::new();
        let steps = feed(&mut reader, &lines);
        assert_eq!(steps.last().unwrap(), &parse(&text));
        assert!(steps[..steps.len() - 1].iter().all(|step| step == "read"));
        assert_eq!(outcome(reader.on_end()), "close");
    }
}
