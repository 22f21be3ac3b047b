use vstd::prelude::*;
use vstd::string::StringExecFns;

verus! {

/// A failure against one of the two persisted files, carrying its
/// diagnostic text.
#[derive(Debug)]
pub enum MoodError {
    ConfigFileError(String),
    JournalFileError(String),
}

impl MoodError {
    /// The human-readable description of the failure.
    pub fn message(&self) -> (r: String)
        ensures
            (match *self {
                MoodError::ConfigFileError(s) => r@
                    == "Failed an operation related to the configuration file: "@ + s@,
                MoodError::JournalFileError(s) => r@
                    == "Failed an operation related to the journal file: "@ + s@,
            }),
    {
        match self {
            MoodError::ConfigFileError(s) => (
            "Failed an operation related to the configuration file: ".to_owned()).concat(
                s.as_str(),
            ),
            MoodError::JournalFileError(s) => (
            "Failed an operation related to the journal file: ".to_owned()).concat(s.as_str()),
        }
    }
}

} // verus!
