//! The interactive client's commands: one line of words, the first naming
//! the command and the rest its arguments.
use vstd::prelude::*;
use crate::text::{split_whitespace, string_is, ws_words};

verus! {

/// A command typed at the client's prompt.
#[derive(Debug, PartialEq, Eq)]
pub enum Command {
    Put { key: String, value: String },
    Get { key: String },
    Delete { key: String },
    Subscribe { key: String },
    Unsubscribe { key: String },
    Quit,
    Help,
    /// A known command missing an argument, with the line to print.
    Usage(String),
    /// A first word that names no command.
    Unknown,
    /// A line without words.
    Nothing,
}

pub ghost enum CommandView {
    Put(Seq<char>, Seq<char>),
    Get(Seq<char>),
    Delete(Seq<char>),
    Subscribe(Seq<char>),
    Unsubscribe(Seq<char>),
    Quit,
    Help,
    Usage(Seq<char>),
    Unknown,
    Nothing,
}

impl View for Command {
    type V = CommandView;

    open spec fn view(&self) -> CommandView {
        match self {
            Command::Put { key, value } => CommandView::Put(key@, value@),
            Command::Get { key } => CommandView::Get(key@),
            Command::Delete { key } => CommandView::Delete(key@),
            Command::Subscribe { key } => CommandView::Subscribe(key@),
            Command::Unsubscribe { key } => CommandView::Unsubscribe(key@),
            Command::Quit => CommandView::Quit,
            Command::Help => CommandView::Help,
            Command::Usage(m) => CommandView::Usage(m@),
            Command::Unknown => CommandView::Unknown,
            Command::Nothing => CommandView::Nothing,
        }
    }
}

/// The command a line's words stand for: `PUT key value`, `GET key`,
/// `DELETE key`, `SUBSCRIBE key`, `UNSUBSCRIBE key`, `QUIT` or `HELP`;
/// words past the arguments are ignored. A command without its arguments
/// gives the usage line to print (for `UNSUBSCRIBE` it is the one of
/// `SUBSCRIBE`).
pub open spec fn command_of(words: Seq<Seq<char>>) -> CommandView {
    let key_usage = |cmd: Seq<char>| cmd + " requires a key"@;
    if words.len() == 0 {
        CommandView::Nothing
    } else if words[0] == "PUT"@ {
        if words.len() >= 3 {
            CommandView::Put(words[1], words[2])
        } else {
            CommandView::Usage("PUT requires a key and a value"@)
        }
    } else if words[0] == "GET"@ {
        if words.len() >= 2 { CommandView::Get(words[1]) } else { CommandView::Usage(key_usage("GET"@)) }
    } else if words[0] == "DELETE"@ {
        if words.len() >= 2 { CommandView::Delete(words[1]) } else { CommandView::Usage(key_usage("DELETE"@)) }
    } else if words[0] == "SUBSCRIBE"@ {
        if words.len() >= 2 {
            CommandView::Subscribe(words[1])
        } else {
            CommandView::Usage(key_usage("SUBSCRIBE"@))
        }
    } else if words[0] == "UNSUBSCRIBE"@ {
        if words.len() >= 2 {
            CommandView::Unsubscribe(words[1])
        } else {
            CommandView::Usage(key_usage("SUBSCRIBE"@))
        }
    } else if words[0] == "QUIT"@ {
        CommandView::Quit
    } else if words[0] == "HELP"@ {
        CommandView::Help
    } else {
        CommandView::Unknown
    }
}

/// `<cmd> requires a key`.
fn key_usage(cmd: &str) -> (s: String)
    ensures
        s@ == cmd@ + " requires a key"@,
{
    let mut s = cmd.to_owned();
    s.append(" requires a key");
    s
}

/// Reads a command line (see `command_of`).
pub fn parse_command(line: &str) -> (c: Command)
    ensures
        c@ == command_of(ws_words(line@)),
{
    let words = split_whitespace(line);
    let ghost w = ws_words(line@);
    assert(words@.len() == w.len());
    if words.len() == 0 {
        return Command::Nothing;
    }
    assert(words@[0]@ == w[0]);
    if words.len() >= 2 {
        assert(words@[1]@ == w[1]);
    }
    if words.len() >= 3 {
        assert(words@[2]@ == w[2]);
    }
    let cmd = &words[0];
    if string_is(cmd, "PUT") {
        if words.len() >= 3 {
            Command::Put { key: words[1].clone(), value: words[2].clone() }
        } else {
            Command::Usage("PUT requires a key and a value".to_owned())
        }
    } else if string_is(cmd, "GET") {
        if words.len() >= 2 {
            Command::Get { key: words[1].clone() }
        } else {
            Command::Usage(key_usage("GET"))
        }
    } else if string_is(cmd, "DELETE") {
        if words.len() >= 2 {
            Command::Delete { key: words[1].clone() }
        } else {
            Command::Usage(key_usage("DELETE"))
        }
    } else if string_is(cmd, "SUBSCRIBE") {
        if words.len() >= 2 {
            Command::Subscribe { key: words[1].clone() }
        } else {
            Command::Usage(key_usage("SUBSCRIBE"))
        }
    } else if string_is(cmd, "UNSUBSCRIBE") {
        if words.len() >= 2 {
            Command::Unsubscribe { key: words[1].clone() }
        } else {
            Command::Usage(key_usage("SUBSCRIBE"))
        }
    } else if string_is(cmd, "QUIT") {
        Command::Quit
    } else if string_is(cmd, "HELP") {
        Command::Help
    } else {
        Command::Unknown
    }
}

} // verus!
