//! A client connection: how its lines become commands, and when a reply may go out.

use super::protocol;
use super::protocol::{Command, CommandView, Response, ResponseView, to_uppercase};
use crate::cluster::Progress;
use crate::durable::DurableNode;
use crate::text;
use crate::text::{parse_number, strip_mark};
use vstd::prelude::*;
use vstd::string::*;
use vstd::utf8::is_ascii_chars;

verus! {

/// The command with the given name, in upper case, and arguments, the first of which is the name
/// as it was sent. A known command with the wrong number of arguments is an unknown one.
pub open spec fn command_or_unknown(name: Seq<char>, args: Seq<Seq<char>>) -> CommandView {
    match protocol::command_named(name, args) {
        Some(command) => command,
        None => CommandView::Unknown { name },
    }
}

/// A request of which some lines are still to come.
pub struct PartialRequest {
    /// How many arguments are still to come, the current one included.
    pub remaining: usize,
    /// Whether the next line is the data of the current argument.
    pub at_data: bool,
    /// The arguments so far.
    pub args: Vec<String>,
}

/// What a [`PartialRequest`] holds.
#[verifier::ext_equal]
pub struct PartialView {
    pub remaining: usize,
    pub at_data: bool,
    pub args: Seq<Seq<char>>,
}

impl View for PartialRequest {
    type V = PartialView;

    open spec fn view(&self) -> PartialView {
        PartialView {
            remaining: self.remaining,
            at_data: self.at_data,
            args: protocol::texts(self.args@),
        }
    }
}

/// What to do next on a connection.
#[derive(Debug)]
pub enum Step {
    /// Read another line.
    Read,
    /// Send a reply, and go on reading.
    Reply(Response),
    /// Carry out a command, send the reply to it, and go on reading.
    Run(Command),
    /// Close the connection.
    Close,
}

/// What a line means for a connection.
pub enum StepView {
    Read,
    Reply(ResponseView),
    /// A request is complete, with these arguments.
    Complete(Seq<Seq<char>>),
    Close,
}

/// What is read of a connection: nothing since the last request, or part of a request.
pub type ReaderView = Option<PartialView>;

/// The reply to a first line that does not announce an array.
pub open spec fn invalid_protocol() -> ResponseView {
    ResponseView::Error("invalid protocol"@)
}

/// The reply to a first line whose number cannot be read.
pub open spec fn invalid_count() -> ResponseView {
    ResponseView::Error("invalid argument count"@)
}

/// The reply to a request that breaks off, or has no arguments.
pub open spec fn parse_error() -> ResponseView {
    ResponseView::Error("protocol parse error"@)
}

/// The reader after a line, and what the line means.
pub open spec fn after_line(reader: ReaderView, line: Seq<char>) -> (ReaderView, StepView) {
    match reader {
        None => if !protocol::starts_with(line, '*') {
            (None, StepView::Reply(invalid_protocol()))
        } else {
            match text::number(line.skip(1)) {
                None => (None, StepView::Reply(invalid_count())),
                Some(count) => if count == 0 {
                    (None, StepView::Reply(parse_error()))
                } else {
                    (
                        Some(
                            PartialView { remaining: count, at_data: false, args: Seq::empty() },
                        ),
                        StepView::Read,
                    )
                },
            }
        },
        Some(partial) => if !partial.at_data {
            if protocol::starts_with(line, '$') {
                (Some(PartialView { at_data: true, ..partial }), StepView::Read)
            } else {
                (None, StepView::Reply(parse_error()))
            }
        } else {
            let args = partial.args.push(line);
            if partial.remaining == 1 {
                (None, StepView::Complete(args))
            } else {
                (
                    Some(
                        PartialView {
                            remaining: (partial.remaining - 1) as usize,
                            at_data: false,
                            args,
                        },
                    ),
                    StepView::Read,
                )
            }
        },
    }
}

/// The reader at the end of the stream, and what that means: a request that breaks off is still
/// answered.
pub open spec fn at_end(reader: ReaderView) -> (ReaderView, StepView) {
    match reader {
        Some(partial) => (None, StepView::Reply(parse_error())),
        None => (None, StepView::Close),
    }
}

/// Whether a step is what a line means. A complete request is run as the command that the upper
/// case of its first argument names.
pub open spec fn carries_out(step: Step, meaning: StepView) -> bool {
    match meaning {
        StepView::Read => step is Read,
        StepView::Reply(reply) => step matches Step::Reply(response) && response@ == reply,
        StepView::Complete(args) => {
            &&& step matches Step::Run(command)
            &&& command@ == command_or_unknown(protocol::uppercase(args[0]), args)
            &&& is_ascii_chars(args[0]) ==> command@ == command_or_unknown(
                protocol::ascii_uppercase(args[0]),
                args,
            )
        },
        StepView::Close => step is Close,
    }
}

/// Reads the requests of a connection, line by line.
pub struct RequestReader {
    partial: Option<PartialRequest>,
}

impl View for RequestReader {
    type V = ReaderView;

    closed spec fn view(&self) -> ReaderView {
        match self.partial {
            Some(partial) => Some(partial@),
            None => None,
        }
    }
}

impl RequestReader {
    /// A request that is not complete lacks at least one argument.
    pub closed spec fn wf(&self) -> bool {
        self.partial matches Some(partial) ==> partial.remaining > 0
    }

    /// A reader at the start of a connection.
    pub fn new() -> (reader: Self)
        ensures
            reader.wf(),
            reader@ is None,
    {
        RequestReader { partial: None }
    }

    /// Take the next line, without its ending.
    pub fn on_line(&mut self, line: &str) -> (step: Step)
        requires
            old(self).wf(),
        ensures
            final(self).wf(),
            final(self)@ == after_line(old(self)@, line@).0,
            carries_out(step, after_line(old(self)@, line@).1),
    {
        let mut partial: Option<PartialRequest> = None;
        std::mem::swap(&mut partial, &mut self.partial);
        match partial {
            None => self.on_first_line(line),
            Some(partial) => {
                let ghost before = partial@;
                let mut partial = partial;
                if !partial.at_data {
                    if strip_mark(line, 36).is_none() {
                        return Step::Reply(Response::Error("protocol parse error".to_owned()));
                    }
                    partial.at_data = true;
                    self.partial = Some(partial);
                    return Step::Read;
                }
                partial.args.push(line.to_owned());
                assert(partial@.args =~= before.args.push(line@));
                if partial.remaining == 1 {
                    return Step::Run(RequestReader::command(&partial.args));
                }
                partial.remaining -= 1;
                partial.at_data = false;
                self.partial = Some(partial);
                Step::Read
            },
        }
    }

    /// Take the line that announces a request.
    fn on_first_line(&mut self, line: &str) -> (step: Step)
        requires
            old(self)@ is None,
        ensures
            final(self).wf(),
            final(self)@ == after_line(None, line@).0,
            carries_out(step, after_line(None, line@).1),
    {
        let rest: &str = match strip_mark(line, 42) {
            Some(rest) => rest,
            None => {
                return Step::Reply(Response::Error("invalid protocol".to_owned()));
            },
        };
        match parse_number(rest) {
            None => Step::Reply(Response::Error("invalid argument count".to_owned())),
            Some(count) => {
                if count == 0 {
                    return Step::Reply(Response::Error("protocol parse error".to_owned()));
                }
                let partial = PartialRequest {
                    remaining: count,
                    at_data: false,
                    args: Vec::new(),
                };
                assert(partial@.args =~= Seq::empty());
                self.partial = Some(partial);
                Step::Read
            },
        }
    }

    /// Take note that no more lines come.
    pub fn on_end(&mut self) -> (step: Step)
        ensures
            final(self).wf(),
            final(self)@ == at_end(old(self)@).0,
            carries_out(step, at_end(old(self)@).1),
    {
        let broken: bool = self.partial.is_some();
        self.partial = None;
        if broken {
            Step::Reply(Response::Error("protocol parse error".to_owned()))
        } else {
            Step::Close
        }
    }

    /// The command that a complete request asks for.
    fn command(args: &Vec<String>) -> (command: Command)
        requires
            args@.len() > 0,
        ensures
            carries_out(Step::Run(command), StepView::Complete(protocol::texts(args@))),
    {
        assert(protocol::texts(args@)[0] == args@[0]@);
        let name: String = to_uppercase(args[0].as_str());
        RequestReader::named(name, args)
    }

    /// The command with the given name, in upper case, and arguments, the first of which is the
    /// name as it was sent. A known command with the wrong number of arguments is an unknown one.
    pub fn named(name: String, args: &Vec<String>) -> (command: Command)
        ensures
            command@ == command_or_unknown(name@, protocol::texts(args@)),
    {
        match Command::named(name.clone(), args) {
            Some(command) => command,
            None => Command::Unknown { name },
        }
    }
}

/// The reader after some lines, and what each of them means.
pub open spec fn after_lines(reader: ReaderView, lines: Seq<Seq<char>>) -> (
    ReaderView,
    Seq<StepView>,
)
    decreases lines.len(),
{
    if lines.len() == 0 {
        (reader, Seq::empty())
    } else {
        let (before, steps) = after_lines(reader, lines.drop_last());
        let (after, step) = after_line(before, lines.last());
        (after, steps.push(step))
    }
}

/// Whether all steps but the last ask for another line.
pub open spec fn reads_on(steps: Seq<StepView>) -> bool {
    forall|i: int| 0 <= i < steps.len() - 1 ==> #[trigger] steps[i] is Read
}

/// What is read of a request after its first line and some lines of arguments.
proof fn lemma_partial(lines: Seq<Seq<char>>, count: usize, taken: int)
    requires
        lines.len() > 0,
        protocol::announced(lines[0]) == Some(count),
        protocol::has_args(lines.skip(1), count as nat),
        count > 0,
        0 <= taken < 2 * count,
    ensures
        ({
            let (reader, steps) = after_lines(None, lines.take(1 + taken));
            &&& reader == Some(
                PartialView {
                    remaining: (count - taken / 2) as usize,
                    at_data: taken % 2 == 1,
                    args: protocol::args_in(lines.skip(1), (taken / 2) as nat),
                },
            )
            &&& steps.len() == 1 + taken
            &&& forall|i: int| 0 <= i < steps.len() ==> #[trigger] steps[i] is Read
        }),
    decreases taken,
{
    let front = lines.take(1 + taken);
    let rest = lines.skip(1);
    if taken == 0 {
        reveal_with_fuel(after_lines, 2);
        assert(front.drop_last() =~= Seq::empty());
        assert(front.last() == lines[0]);
        assert(protocol::args_in(rest, 0) =~= Seq::empty());
    } else {
        lemma_partial(lines, count, taken - 1);
        assert(front.drop_last() =~= lines.take(taken));
        let line = front.last();
        assert(line == rest[taken - 1]);
        let (before, steps) = after_lines(None, lines.take(taken));
        if taken % 2 == 1 {
            let arg = taken / 2;
            assert(taken - 1 == 2 * arg);
            assert(protocol::starts_with(rest[2 * arg], '$'));
            assert((taken - 1) / 2 == arg);
        } else {
            let arg = taken / 2 - 1;
            assert(taken - 1 == 2 * arg + 1);
            assert(protocol::args_in(rest, arg as nat).push(line) =~= protocol::args_in(
                rest,
                (arg + 1) as nat,
            ));
        }
    }
}

/// The reader, which takes one line at a time, reads the same arguments as the parser, which takes
/// a whole request: every line but the last asks for another, the last completes the request, and
/// the reader is back where it began.
pub proof fn law_reader_agrees_with_parser(lines: Seq<Seq<char>>, args: Seq<Seq<char>>)
    requires
        protocol::request_args(lines) == Some(args),
        args.len() > 0,
        lines.len() == 1 + 2 * args.len(),
    ensures
        ({
            let (reader, steps) = after_lines(None, lines);
            &&& reader is None
            &&& steps.len() == lines.len()
            &&& reads_on(steps)
            &&& steps.last() == StepView::Complete(args)
        }),
{
    let count = protocol::announced(lines[0])->0;
    let taken = 2 * count - 1;
    lemma_partial(lines, count, taken);
    assert(lines.take(1 + taken) =~= lines.drop_last());
    let rest = lines.skip(1);
    assert(taken / 2 == count - 1);
    assert(lines.last() == rest[2 * (count - 1) + 1]);
    assert(protocol::args_in(rest, (count - 1) as nat).push(lines.last()) =~= args);
}

/// A reply that waits for a write to be done.
#[derive(Debug)]
pub struct PendingReply {
    /// The index of the write.
    pub index: usize,
    /// The term in which the leader has appended the write. Where another leader replaces it, the
    /// entry at the index is one of another term.
    pub term: u64,
    /// What the client is told once the write is done.
    pub reply: Response,
}

/// Whether a reply may go out.
#[derive(Debug)]
pub enum Poll {
    /// It may: this one.
    Ready(Response),
    /// Not yet.
    Wait(PendingReply),
}

/// The reply to a write that was not committed in time.
pub open spec fn timed_out() -> ResponseView {
    ResponseView::Error("TIMEOUT - entry appended but not committed by a majority"@)
}

/// The reply to a write that another leader has replaced.
pub open spec fn replaced() -> ResponseView {
    ResponseView::Error("REPLACED - another leader committed a different entry"@)
}

/// The reply to a write that the write-ahead log could not record.
pub open spec fn not_logged() -> ResponseView {
    ResponseView::Error("NOTLOGGED - entry committed but not written to the log"@)
}

impl PendingReply {
    /// Hold a reply until the write at `pending`, which was appended in `term`, is done, if there
    /// is one.
    pub fn hold(pending: Option<usize>, term: u64, reply: Response) -> (poll: Poll)
        ensures
            match pending {
                Some(index) => poll == Poll::Wait(PendingReply { index, term, reply }),
                None => poll == Poll::Ready(reply),
            },
    {
        match pending {
            Some(index) => Poll::Wait(PendingReply { index, term, reply }),
            None => Poll::Ready(reply),
        }
    }

    /// Look again at the node that holds the write, and at the time, which, as `expired` says, has
    /// run out. A write that is done is confirmed even then. It is done when it is committed, is
    /// still the entry that was appended, and is in the write-ahead log.
    pub fn poll(self, node: &DurableNode, expired: bool) -> (poll: Poll)
        requires
            node.wf(),
        ensures
            match node@.progress(self.index, self.term) {
                Progress::Done => poll == Poll::Ready(self.reply),
                Progress::Replaced => poll matches Poll::Ready(response) && response@
                    == replaced(),
                Progress::Unlogged => poll matches Poll::Ready(response) && response@
                    == not_logged(),
                Progress::Waiting => if expired {
                    poll matches Poll::Ready(response) && response@ == timed_out()
                } else {
                    poll == Poll::Wait(self)
                },
            },
    {
        match node.progress(self.index, self.term) {
            Progress::Done => Poll::Ready(self.reply),
            Progress::Replaced => Poll::Ready(
                Response::Error("REPLACED - another leader committed a different entry".to_owned()),
            ),
            Progress::Unlogged => Poll::Ready(
                Response::Error("NOTLOGGED - entry committed but not written to the log".to_owned()),
            ),
            Progress::Waiting => if expired {
                Poll::Ready(
                    Response::Error(
                        "TIMEOUT - entry appended but not committed by a majority".to_owned(),
                    ),
                )
            } else {
                Poll::Wait(self)
            },
        }
    }
}

/// The first line of a request is a star and the number of its arguments. Without the star, without
/// a number, and with no arguments, the client is told what is wrong, and the next line is a first
/// line again. Otherwise the arguments follow.
pub proof fn law_first_line_announces_the_arguments(line: Seq<char>)
    ensures
        ({
            let (reader, step) = after_line(None, line);
            let count = text::number(line.skip(1));
            let has_star = line.len() > 0 && line[0] == '*';
            &&& !has_star ==> reader is None && step == StepView::Reply(
                ResponseView::Error("invalid protocol"@),
            )
            &&& has_star && count is None ==> reader is None && step == StepView::Reply(
                ResponseView::Error("invalid argument count"@),
            )
            &&& has_star && count == Some(0usize) ==> reader is None && step == StepView::Reply(
                ResponseView::Error("protocol parse error"@),
            )
            &&& has_star && (count matches Some(n) && n > 0) ==> {
                &&& step is Read
                &&& reader matches Some(partial)
                &&& partial.remaining == count->0
                &&& !partial.at_data
                &&& partial.args.len() == 0
            }
        }),
{
}

/// Each argument is a line that starts with a dollar sign and a line of data, which is taken as it
/// is. The data of the last argument completes the request, and the next line is a first line
/// again. A line without the dollar sign breaks the request off, and the client is told.
pub proof fn law_arguments_are_pairs_of_lines(partial: PartialView, line: Seq<char>)
    requires
        partial.remaining > 0,
    ensures
        ({
            let (reader, step) = after_line(Some(partial), line);
            let has_dollar = line.len() > 0 && line[0] == '$';
            &&& !partial.at_data && has_dollar ==> step is Read && reader == Some(
                PartialView { at_data: true, ..partial },
            )
            &&& !partial.at_data && !has_dollar ==> reader is None && step == StepView::Reply(
                ResponseView::Error("protocol parse error"@),
            )
            &&& partial.at_data && partial.remaining == 1 ==> reader is None && step
                == StepView::Complete(partial.args.push(line))
            &&& partial.at_data && partial.remaining > 1 ==> {
                &&& step is Read
                &&& reader matches Some(next)
                &&& next.remaining == partial.remaining - 1
                &&& !next.at_data
                &&& next.args == partial.args.push(line)
            }
        }),
{
}

/// A connection that ends within a request is told so; one that ends between requests is closed.
pub proof fn law_end_of_a_connection(reader: ReaderView)
    ensures
        at_end(reader).0 is None,
        reader is None ==> at_end(reader).1 is Close,
        reader is Some ==> at_end(reader).1 == StepView::Reply(
            ResponseView::Error("protocol parse error"@),
        ),
{
}

/// A command that is complete is carried out as what its name says; with the wrong number of
/// arguments it is an unknown command of that name. What else a line means is done as it is.
pub proof fn law_complete_requests_are_carried_out(
    step: Step,
    meaning: StepView,
    name: Seq<char>,
    args: Seq<Seq<char>>,
)
    ensures
        carries_out(step, meaning) ==> {
            &&& meaning is Read ==> step is Read
            &&& meaning is Close ==> step is Close
            &&& meaning matches StepView::Reply(reply) ==> (step matches Step::Reply(response)
                && response@ == reply)
            &&& meaning matches StepView::Complete(sent) ==> {
                &&& step matches Step::Run(command)
                &&& is_ascii_chars(sent[0]) ==> command@ == command_or_unknown(
                    protocol::ascii_uppercase(sent[0]),
                    sent,
                )
            }
        },
        command_or_unknown(name, args) == (match protocol::command_named(name, args) {
            Some(command) => command,
            None => CommandView::Unknown { name },
        }),
{
}

} // verus!
