//! Errors that stop a run.
use vstd::prelude::*;

verus! {

/// What went wrong with a line.
#[derive(Clone, Copy, Debug, PartialEq, Eq, Structural)]
pub enum ErrorKind {
    /// The first line is not the report's header.
    UnexpectedHeader,
    /// The function name is not enclosed in double quotes.
    MalformedFunctionName,
    /// A number field is missing, badly grouped, not an integer, or too large.
    MalformedNumber,
    /// A line is more than one level deeper than the line before it.
    TreeStructureViolation,
}

/// An error, with the text of the line that caused it.
#[derive(Debug)]
pub struct FoldError {
    pub kind: ErrorKind,
    pub line: String,
}

impl FoldError {
    /// Whether this error is of kind `kind` and names the line `line`.
    pub open spec fn is(self, kind: ErrorKind, line: Seq<char>) -> bool {
        self.kind == kind && self.line@ == line
    }

    /// An error of kind `kind` about `line`.
    pub fn new(kind: ErrorKind, line: &str) -> (r: FoldError)
        ensures
            r.is(kind, line@),
    {
        FoldError { kind, line: line.to_owned() }
    }

    /// A short description of the error, followed by the line.
    pub fn message(&self) -> (r: String)
        ensures
            r@ == label_of(self.kind)@ + self.line@,
    {
        let mut r = String::from_str(label(self.kind));
        r.append(self.line.as_str());
        r
    }
}

/// The description that starts the message of an error of kind `kind`.
pub open spec fn label_of(kind: ErrorKind) -> &'static str {
    match kind {
        ErrorKind::UnexpectedHeader => "Expected first line to be header line, but instead got: ",
        ErrorKind::MalformedFunctionName => "Unable to parse function name from line: ",
        ErrorKind::MalformedNumber => "Invalid number in line: ",
        ErrorKind::TreeStructureViolation => "Line is more than one level deeper than the one before: ",
    }
}

fn label(kind: ErrorKind) -> (r: &'static str)
    ensures
        r == label_of(kind),
{
    match kind {
        ErrorKind::UnexpectedHeader => "Expected first line to be header line, but instead got: ",
        ErrorKind::MalformedFunctionName => "Unable to parse function name from line: ",
        ErrorKind::MalformedNumber => "Invalid number in line: ",
        ErrorKind::TreeStructureViolation => "Line is more than one level deeper than the one before: ",
    }
}

} // verus!
