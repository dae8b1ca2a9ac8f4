use hexdump::cli::{
    open_error_message, parse_args, read_error_message, unknown_command_message, usage_message,
    Command, UsageError,
};

fn words(args: &[&str]) -> Vec<String> {
    args.iter().map(|s| s.to_string()).collect()
}

#[test]
fn hexdump_with_a_filename_is_accepted() {
    assert_eq!(
        parse_args(&words(&["prog", "hexdump", "data.bin"])),
        Ok(Command::Hexdump { filename: "data.bin".to_string() })
    );
}

#[test]
fn wrong_number_of_arguments_is_a_usage_error() {
    assert_eq!(parse_args(&words(&[])), Err(UsageError::WrongArgumentCount));
    assert_eq!(parse_args(&words(&["prog"])), Err(UsageError::WrongArgumentCount));
    assert_eq!(parse_args(&words(&["prog", "hexdump"])), Err(UsageError::WrongArgumentCount));
    assert_eq!(
        parse_args(&words(&["prog", "hexdump", "a", "b"])),
        Err(UsageError::WrongArgumentCount)
    );
}

#[test]
fn unknown_command_is_reported_by_its_name() {
    assert_eq!(
        parse_args(&words(&["prog", "dump", "data.bin"])),
        Err(UsageError::UnknownCommand("dump".to_string()))
    );
    assert_eq!(
        parse_args(&words(&["prog", "Hexdump", "data.bin"])),
        Err(UsageError::UnknownCommand("Hexdump".to_string()))
    );
    assert_eq!(
        parse_args(&words(&["prog", "", "data.bin"])),
        Err(UsageError::UnknownCommand(String::new()))
    );
}

#[test]
fn messages_read_as_expected() {
    assert_eq!(usage_message("prog"), "Usage: prog hexdump <filename>");
    assert_eq!(unknown_command_message("dump"), "unknown command: dump");
    assert_eq!(
        open_error_message("missing.bin", "No such file or directory (os error 2)"),
        "Error opening file missing.bin: No such file or directory (os error 2)"
    );
    assert_eq!(read_error_message("broken pipe"), "Error reading file: broken pipe");
}

#[test]
fn usage_errors_have_their_messages() {
    assert_eq!(
        UsageError::WrongArgumentCount.message("prog"),
        "Usage: prog hexdump <filename>"
    );
    assert_eq!(
        UsageError::UnknownCommand("dump".to_string()).message("prog"),
        "unknown command: dump"
    );
}
