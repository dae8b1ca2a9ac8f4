//! What the command line asks for, and the messages for what goes wrong.

use vstd::prelude::*;
use vstd::string::StringExecFns;

verus! {

/// What the command line asks for.
#[derive(Debug, PartialEq, Eq)]
pub enum Command {
    /// Dump the file of this name.
    Hexdump { filename: String },
}

/// A command line that asks for nothing that can be done.
#[derive(Debug, PartialEq, Eq)]
pub enum UsageError {
    /// There are not exactly two arguments after the program's name.
    WrongArgumentCount,
    /// The first argument names no command; it is kept as it was given.
    UnknownCommand(String),
}

/// The name of the only command.
pub open spec fn hexdump_word() -> Seq<char> {
    "hexdump"@
}

/// What a command line asks for, read from its words.
pub open spec fn spec_parse_args(args: Seq<Seq<char>>) -> Result<Seq<char>, Option<Seq<char>>> {
    if args.len() != 3 {
        Err(None)
    } else if args[1] == hexdump_word() {
        Ok(args[2])
    } else {
        Err(Some(args[1]))
    }
}

/// The words of a command line as character sequences.
pub open spec fn words_view(args: Seq<String>) -> Seq<Seq<char>> {
    args.map_values(|s: String| s@)
}

/// The mathematical content of what `parse_args` returns.
pub open spec fn outcome_view(outcome: Result<Command, UsageError>) -> Result<
    Seq<char>,
    Option<Seq<char>>,
> {
    match outcome {
        Ok(Command::Hexdump { filename }) => Ok(filename@),
        Err(UsageError::WrongArgumentCount) => Err(None),
        Err(UsageError::UnknownCommand(word)) => Err(Some(word@)),
    }
}

/// Reads the command line, the program's name included: the name, the
/// command `hexdump`, and the name of a file.
pub fn parse_args(args: &Vec<String>) -> (outcome: Result<Command, UsageError>)
    ensures
        outcome_view(outcome) == spec_parse_args(words_view(args@)),
{
    if args.len() != 3 {
        return Err(UsageError::WrongArgumentCount);
    }
    let word = String::from_str("hexdump");
    if args[1] == word {
        Ok(Command::Hexdump { filename: args[2].clone() })
    } else {
        Err(UsageError::UnknownCommand(args[1].clone()))
    }
}

/// The line that tells how the program is called.
pub open spec fn spec_usage_message(program: Seq<char>) -> Seq<char> {
    "Usage: "@ + program + " hexdump <filename>"@
}

/// The line that tells that a command is not known.
pub open spec fn spec_unknown_command_message(word: Seq<char>) -> Seq<char> {
    "unknown command: "@ + word
}

/// The line that tells that a file could not be opened, and why.
pub open spec fn spec_open_error_message(filename: Seq<char>, cause: Seq<char>) -> Seq<char> {
    "Error opening file "@ + filename + ": "@ + cause
}

/// The line that tells that a read failed, and why.
pub open spec fn spec_read_error_message(cause: Seq<char>) -> Seq<char> {
    "Error reading file: "@ + cause
}

/// The line that tells how the program is called.
pub fn usage_message(program: &str) -> (message: String)
    ensures
        message@ == spec_usage_message(program@),
{
    let mut message = String::from_str("Usage: ");
    message.append(program);
    message.append(" hexdump <filename>");
    message
}

/// The line that tells that a command is not known.
pub fn unknown_command_message(word: &str) -> (message: String)
    ensures
        message@ == spec_unknown_command_message(word@),
{
    let mut message = String::from_str("unknown command: ");
    message.append(word);
    message
}

/// The line that tells that a file could not be opened, and why.
pub fn open_error_message(filename: &str, cause: &str) -> (message: String)
    ensures
        message@ == spec_open_error_message(filename@, cause@),
{
    let mut message = String::from_str("Error opening file ");
    message.append(filename);
    message.append(": ");
    message.append(cause);
    message
}

/// The line that tells that a read failed, and why.
pub fn read_error_message(cause: &str) -> (message: String)
    ensures
        message@ == spec_read_error_message(cause@),
{
    let mut message = String::from_str("Error reading file: ");
    message.append(cause);
    message
}

impl UsageError {
    /// The line to print for this error, given the program's name.
    pub fn message(&self, program: &str) -> (message: String)
        ensures
            message@ == match *self {
                UsageError::WrongArgumentCount => spec_usage_message(program@),
                UsageError::UnknownCommand(word) => spec_unknown_command_message(word@),
            },
    {
        match self {
            UsageError::WrongArgumentCount => usage_message(program),
            UsageError::UnknownCommand(word) => unknown_command_message(word.as_str()),
        }
    }
}

} // verus!
