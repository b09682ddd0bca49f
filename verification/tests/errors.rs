use csv2html::errors::{Error, ErrorCategory};

#[test]
fn io_errors_messages_and_category() {
    let e = Error::OpenInput {
        filename: String::from("in.csv"),
        cause: String::from("No such file or directory (os error 2)"),
    };
    assert_eq!(e.category(), ErrorCategory::Io);
    assert_eq!(
        e.message(),
        "Can not open the input file \"in.csv\": No such file or directory (os error 2)"
    );

    let e = Error::OpenOutput {
        filename: String::from("out.html"),
        cause: String::from("Permission denied (os error 13)"),
    };
    assert_eq!(e.category(), ErrorCategory::Io);
    assert_eq!(
        e.message(),
        "Can not open the output file \"out.html\": Permission denied (os error 13)"
    );

    let e = Error::WriteOutput {
        cause: String::from("No space left on device (os error 28)"),
    };
    assert_eq!(e.category(), ErrorCategory::Io);
    assert_eq!(
        e.message(),
        "Can not write to the output file: No space left on device (os error 28)"
    );
}

#[test]
fn data_errors_messages_and_category() {
    let e = Error::ParseHeader {
        cause: String::from("unterminated quoted field"),
    };
    assert_eq!(e.category(), ErrorCategory::Data);
    assert_eq!(e.message(), "Can not parse the CSV header: unterminated quoted field");

    let e = Error::ParseRow {
        cause: String::from("invalid UTF-8 in a field"),
    };
    assert_eq!(e.category(), ErrorCategory::Data);
    assert_eq!(e.message(), "Can not parse a CSV row: invalid UTF-8 in a field");
}

#[test]
fn cli_errors_messages_and_category() {
    let e = Error::CLIStart {
        cause: String::from("invalid digit found in string"),
    };
    assert_eq!(e.category(), ErrorCategory::Software);
    assert_eq!(e.message(), "Invalid start row argument: invalid digit found in string");

    let e = Error::CLIDelimiter {
        delimiter: String::from(";;"),
    };
    assert_eq!(e.category(), ErrorCategory::Software);
    assert_eq!(e.message(), "Invalid delimiter: \";;\"");
}
