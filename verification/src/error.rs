//! The ways in which compiling or running a program can fail.

use vstd::prelude::*;

verus! {

/// Why a program was refused or a run was aborted.
#[derive(Clone, Copy, Debug, PartialEq, Eq, Structural)]
pub enum ErrorKind {
    /// A rule's pattern is degenerate: it is empty, or a continuing rule
    /// would rewrite it to itself.
    PatternError,
    /// The run made as many continuing applications as the configuration
    /// allows and was still running.
    StepLimitExceeded,
    /// The buffer grew longer than the configuration allows.
    LengthLimitExceeded,
    /// The program's source text could not be read. The engine never reports
    /// this one: it is for the host that reads the source.
    SourceUnreadable,
}

impl ErrorKind {
    /// The diagnostic line that describes this error.
    pub open spec fn message_text(self) -> Seq<char> {
        match self {
            ErrorKind::PatternError => "Error: Rule has Degenerate Pattern"@,
            ErrorKind::StepLimitExceeded => "Error: Step Limit Exceeded"@,
            ErrorKind::LengthLimitExceeded => "Error: Length Limit Exceeded"@,
            ErrorKind::SourceUnreadable => "Cannot read source"@,
        }
    }

    /// A human-readable diagnostic for this error.
    pub fn message(&self) -> (r: String)
        ensures
            r@ == self.message_text(),
    {
        match self {
            ErrorKind::PatternError => String::from_str("Error: Rule has Degenerate Pattern"),
            ErrorKind::StepLimitExceeded => String::from_str("Error: Step Limit Exceeded"),
            ErrorKind::LengthLimitExceeded => String::from_str("Error: Length Limit Exceeded"),
            ErrorKind::SourceUnreadable => String::from_str("Cannot read source"),
        }
    }
}

} // verus!
