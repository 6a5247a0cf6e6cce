//! What the program is asked to do to the world around it, one step after the other.
use crate::text;
use vstd::prelude::*;

verus! {

/// One step. The steps of a list are taken in order; the first one that fails ends the list.
#[derive(Debug)]
pub enum Step {
    /// Adds a line to the log.
    Log(String),
    /// Adds a line to the log, where that can be done.
    Note(String),
    /// Adds a title and the lines of a text to the log.
    LogBlock(String, String),
    /// Adds a title and the lines of a text to the log, where that can be done.
    NoteBlock(String, String),
    /// Prints a line.
    Print(String),
    /// Runs the registry tool with the given arguments.
    Registry(Vec<String>),
    /// Asks for the recent events of a channel.
    Query(String),
    /// Waits for some seconds.
    Sleep(u64),
    /// Deletes the credential of a target.
    DeleteCredential(String),
    /// Writes a file with the given name and content.
    Write(String, String),
    /// Starts the remote desktop client.
    Launch,
    /// Ends with a message.
    Fail(String),
}

/// The model of a step.
#[verifier::ext_equal]
pub enum Act {
    Log(Seq<char>),
    Note(Seq<char>),
    LogBlock(Seq<char>, Seq<char>),
    NoteBlock(Seq<char>, Seq<char>),
    Print(Seq<char>),
    Registry(Seq<Seq<char>>),
    Query(Seq<char>),
    Sleep(nat),
    DeleteCredential(Seq<char>),
    Write(Seq<char>, Seq<char>),
    Launch,
    Fail(Seq<char>),
}

impl View for Step {
    type V = Act;

    open spec fn view(&self) -> Act {
        match self {
            Step::Log(line) => Act::Log(line@),
            Step::Note(line) => Act::Note(line@),
            Step::LogBlock(title, body) => Act::LogBlock(title@, body@),
            Step::NoteBlock(title, body) => Act::NoteBlock(title@, body@),
            Step::Print(line) => Act::Print(line@),
            Step::Registry(args) => Act::Registry(text::string_views(args@)),
            Step::Query(channel) => Act::Query(channel@),
            Step::Sleep(seconds) => Act::Sleep(*seconds as nat),
            Step::DeleteCredential(target) => Act::DeleteCredential(target@),
            Step::Write(name, content) => Act::Write(name@, content@),
            Step::Launch => Act::Launch,
            Step::Fail(message) => Act::Fail(message@),
        }
    }
}

/// The models of a list of steps.
pub open spec fn acts(steps: Seq<Step>) -> Seq<Act> {
    steps.map_values(|s: Step| s@)
}

/// Adds `more` at the end of `steps`.
pub fn extend(steps: &mut Vec<Step>, more: Vec<Step>)
    ensures
        acts(final(steps)@) == acts(old(steps)@) + acts(more@),
{
    let mut more = more;
    let ghost start = steps@;
    let ghost added = more@;
    steps.append(&mut more);
    assert(acts(start + added) =~= acts(start) + acts(added));
}

// ---------------------------------------------------------------------------
// The log
// ---------------------------------------------------------------------------

/// The name of the time `seconds` after the start of the Unix epoch; the start itself where the
/// clock stands before it.
pub open spec fn time_name(seconds: Option<nat>) -> Seq<char> {
    "unix:"@ + text::decimal(
        match seconds {
            Some(n) => n,
            None => 0,
        },
    )
}

/// A line of the log.
pub open spec fn log_line_of(time: Seq<char>, message: Seq<char>) -> Seq<char> {
    "["@ + time + "] "@ + message
}

/// The lines of the log for a title and a text.
pub open spec fn log_block_of(time: Seq<char>, title: Seq<char>, body: Seq<char>) -> Seq<
    Seq<char>,
> {
    let lines = text::lines_of(body);
    seq![log_line_of(time, title + ":"@)] + Seq::new(
        lines.len(),
        |i: int| log_line_of(time, "  "@ + lines[i]),
    )
}

/// The name of the time `seconds` after the start of the Unix epoch; the start itself where the
/// clock stands before it.
pub fn timestamp(seconds: Option<u64>) -> (r: String)
    ensures
        r@ == time_name(
            match seconds {
                Some(n) => Some(n as nat),
                None => None,
            },
        ),
{
    let n: u64 = match seconds {
        Some(n) => n,
        None => 0,
    };
    text::concat("unix:", text::to_decimal(n).as_str())
}

/// A line of the log.
pub fn log_line(time: &str, message: &str) -> (r: String)
    ensures
        r@ == log_line_of(time@, message@),
{
    let mut line = text::concat("[", time);
    text::append(&mut line, "] ");
    text::append(&mut line, message);
    line
}

/// The lines of the log for a title and a text.
pub fn log_block(time: &str, title: &str, body: &str) -> (r: Vec<String>)
    ensures
        text::string_views(r@) == log_block_of(time@, title@, body@),
{
    let lines = text::lines(body);
    let ghost all = text::lines_of(body@);
    let ghost wanted = log_block_of(time@, title@, body@);
    let mut out: Vec<String> = Vec::new();
    out.push(log_line(time, text::concat(title, ":").as_str()));
    assert(text::string_views(out@) =~= wanted.take(1));
    for i in 0..lines.len()
        invariant
            text::views(lines@) == all,
            all == text::lines_of(body@),
            wanted == log_block_of(time@, title@, body@),
            text::string_views(out@) == wanted.take(i + 1),
    {
        let ghost done = text::string_views(out@);
        let line = log_line(time, text::concat("  ", lines[i]).as_str());
        assert(all[i as int] == lines@[i as int]@);
        out.push(line);
        assert(text::string_views(out@) =~= done.push(line@));
        assert(wanted.take(i + 2) =~= wanted.take(i + 1).push(wanted[i + 1]));
    }
    assert(all.len() == lines@.len());
    assert(wanted.take(wanted.len() as int) =~= wanted);
    out
}

} // verus!
