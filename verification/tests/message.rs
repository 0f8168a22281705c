use text_buffer::message;
use text_buffer::message::{format_message, FormatError};

fn args(texts: &[&str]) -> Vec<String> {
    texts.iter().map(|text| text.to_string()).collect()
}

#[test]
fn test_format() {
    assert_eq!(&message::format("%s", &args(&["1"])).unwrap(), "1");
    assert_eq!(&message::format("foo-%s", &args(&["2"])).unwrap(), "foo-2");
    assert_eq!(&message::format("%%", &args(&[])).unwrap(), "%");
    assert_eq!(&message::format("_%%_", &args(&[])).unwrap(), "_%_");
    assert_eq!(&message::format("foo-%s %s", &args(&["3", "4"])).unwrap(), "foo-3 4");
    assert_eq!(&message::format("%s", &args(&["function"])).unwrap(), "function");

    assert!(&message::format("%s", &args(&[])).is_err());
    assert!(&message::format("%s", &args(&["1", "2"])).is_err());

    assert!(message::format("`%s' %s%s%s", &args(&["0", "1", "2", "3"])).is_ok());
}

#[test]
fn format_errors() {
    assert_eq!(message::format("%", &args(&[])), Err(FormatError::EndsInSpecifier));
    assert_eq!(message::format("abc%", &args(&["1"])), Err(FormatError::EndsInSpecifier));
    assert_eq!(message::format("%s %s", &args(&["1"])), Err(FormatError::NotEnoughArguments));
    assert_eq!(message::format("%s", &args(&["1", "2"])), Err(FormatError::TooManyArguments));
    assert_eq!(message::format("", &args(&["1"])), Err(FormatError::TooManyArguments));
    // The first thing that is wrong decides.
    assert_eq!(message::format("%s%", &args(&[])), Err(FormatError::NotEnoughArguments));
    assert_eq!(message::format("%s%", &args(&["1", "2"])), Err(FormatError::EndsInSpecifier));
}

#[test]
fn format_error_messages() {
    assert_eq!(
        FormatError::EndsInSpecifier.message(),
        "Format string ends in middle of format specifier"
    );
    assert_eq!(FormatError::NotEnoughArguments.message(), "Not enough arguments for format string");
    assert_eq!(FormatError::TooManyArguments.message(), "Too many arguments for format string");
}

#[test]
fn format_escapes() {
    assert_eq!(message::format("", &args(&[])).unwrap(), "");
    assert_eq!(message::format("plain", &args(&[])).unwrap(), "plain");
    // An escaped `%` stands for itself, with its backslash.
    assert_eq!(message::format("\\%s", &args(&[])).unwrap(), "\\%s");
    assert_eq!(message::format("\\%", &args(&[])).unwrap(), "\\%");
    // A backslash escapes a backslash, so the `%` after the two is a specifier.
    assert_eq!(message::format("\\\\%s", &args(&["x"])).unwrap(), "\\\\x");
    assert_eq!(message::format("a\\b%%\\", &args(&[])).unwrap(), "a\\b%\\");
    // Any character after `%` but `%` takes an argument.
    assert_eq!(message::format("%d-%S-%Θ", &args(&["1", "two", "3"])).unwrap(), "1-two-3");
    assert_eq!(message::format("%%%s%%", &args(&["Θ"])).unwrap(), "%Θ%");
    // In an argument nothing is special.
    assert_eq!(message::format("[%s]", &args(&["%s \\ %"])).unwrap(), "[%s \\ %]");
}

#[test]
fn format_message_requotes() {
    assert_eq!(format_message("`%s' is %s", &args(&["x", "'y'"])).unwrap(), "\"x\" is \"y\"");
    assert_eq!(format_message("no quotes", &args(&[])).unwrap(), "no quotes");
    assert_eq!(format_message("%s", &args(&[])), Err(FormatError::NotEnoughArguments));
}
