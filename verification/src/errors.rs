//! The failure taxonomy: a closed sum type with one variant per failing
//! stage, each carrying the text of its root cause, plus the mapping of
//! variants onto the three process exit categories.

use vstd::prelude::*;

verus! {

/// Everything that can end a run early. The `cause` and `delimiter`
/// payloads carry the text shown to the user.
#[derive(Debug)]
pub enum Error {
    CLIStart { cause: String },
    CLIDelimiter { delimiter: String },
    OpenInput { filename: String, cause: String },
    OpenOutput { filename: String, cause: String },
    ParseHeader { cause: String },
    ParseRow { cause: String },
    WriteOutput { cause: String },
}

/// The three exit categories: input/output failures, malformed data, and
/// invalid command-line arguments.
#[derive(Clone, Copy, PartialEq, Eq, Structural, Debug)]
pub enum ErrorCategory {
    Io,
    Data,
    Software,
}

impl Error {
    /// The descriptive text of the error, naming the failing stage and its
    /// underlying cause.
    pub open spec fn spec_message(&self) -> Seq<char> {
        match self {
            Error::CLIStart { cause } => "Invalid start row argument: "@ + cause@,
            Error::CLIDelimiter { delimiter } => "Invalid delimiter: \""@ + delimiter@ + "\""@,
            Error::OpenInput { filename, cause } => "Can not open the input file \""@ + filename@
                + "\": "@ + cause@,
            Error::OpenOutput { filename, cause } => "Can not open the output file \""@ + filename@
                + "\": "@ + cause@,
            Error::ParseHeader { cause } => "Can not parse the CSV header: "@ + cause@,
            Error::ParseRow { cause } => "Can not parse a CSV row: "@ + cause@,
            Error::WriteOutput { cause } => "Can not write to the output file: "@ + cause@,
        }
    }

    /// Builds the message text.
    pub fn message(&self) -> (m: String)
        ensures
            m@ == self.spec_message(),
    {
        match self {
            Error::CLIStart { cause } => {
                let mut m = String::from_str("Invalid start row argument: ");
                m.append(cause.as_str());
                m
            },
            Error::CLIDelimiter { delimiter } => {
                let mut m = String::from_str("Invalid delimiter: \"");
                m.append(delimiter.as_str());
                m.append("\"");
                m
            },
            Error::OpenInput { filename, cause } => {
                let mut m = String::from_str("Can not open the input file \"");
                m.append(filename.as_str());
                m.append("\": ");
                m.append(cause.as_str());
                proof {
                    assert(m@ =~= self.spec_message());
                }
                m
            },
            Error::OpenOutput { filename, cause } => {
                let mut m = String::from_str("Can not open the output file \"");
                m.append(filename.as_str());
                m.append("\": ");
                m.append(cause.as_str());
                proof {
                    assert(m@ =~= self.spec_message());
                }
                m
            },
            Error::ParseHeader { cause } => {
                let mut m = String::from_str("Can not parse the CSV header: ");
                m.append(cause.as_str());
                m
            },
            Error::ParseRow { cause } => {
                let mut m = String::from_str("Can not parse a CSV row: ");
                m.append(cause.as_str());
                m
            },
            Error::WriteOutput { cause } => {
                let mut m = String::from_str("Can not write to the output file: ");
                m.append(cause.as_str());
                m
            },
        }
    }

    /// Which exit category the error belongs to: failures to open or write
    /// a file are input/output errors, failures to parse the input are data
    /// errors, and bad command-line arguments are software errors.
    pub open spec fn spec_category(&self) -> ErrorCategory {
        match self {
            Error::OpenInput { .. } => ErrorCategory::Io,
            Error::OpenOutput { .. } => ErrorCategory::Io,
            Error::WriteOutput { .. } => ErrorCategory::Io,
            Error::ParseHeader { .. } => ErrorCategory::Data,
            Error::ParseRow { .. } => ErrorCategory::Data,
            Error::CLIStart { .. } => ErrorCategory::Software,
            Error::CLIDelimiter { .. } => ErrorCategory::Software,
        }
    }

    /// Maps the error onto its exit category.
    pub fn category(&self) -> (c: ErrorCategory)
        ensures
            c == self.spec_category(),
    {
        match self {
            Error::OpenInput { .. } => ErrorCategory::Io,
            Error::OpenOutput { .. } => ErrorCategory::Io,
            Error::WriteOutput { .. } => ErrorCategory::Io,
            Error::ParseHeader { .. } => ErrorCategory::Data,
            Error::ParseRow { .. } => ErrorCategory::Data,
            Error::CLIStart { .. } => ErrorCategory::Software,
            Error::CLIDelimiter { .. } => ErrorCategory::Software,
        }
    }
}

} // verus!
