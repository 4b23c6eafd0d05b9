//! The failures that the two operations can end in.

use vstd::prelude::*;
use vstd::string::*;

verus! {

/// Why an operation failed. Each variant carries the text that tells the user
/// what went wrong: the message of the underlying failure, or the path that
/// was at fault.
#[derive(Debug, PartialEq, Eq)]
pub enum AppError {
    /// Reading, writing or copying a file failed.
    IoError(String),
    /// The report could not be written as, or read from, its stored form.
    SerdeError(String),
    /// The path to scan is not a directory.
    InvalidDirectory(String),
    /// The report file is not there.
    FileNotFound(String),
    /// The report file does not hold a report.
    InvalidDeduplicationReport(String),
}

/// The text that `{:?}` gives for a string: the string between double quotes,
/// with the characters that need it escaped.
pub uninterp spec fn debug_text(text: Seq<char>) -> Seq<char>;

/// Formats a string with `{:?}`, the `Debug` impl of `str` in std. The
/// contract gives the result a name and claims nothing else of it.
#[verifier::external_body]
pub(crate) fn debug_string(text: &str) -> (quoted: String)
    ensures
        quoted@ == debug_text(text@),
{
    format!("{:?}", text)
}

/// The message for a missing directory, given the quoted form of its path.
pub fn missing_directory_text(quoted: &str) -> (text: String)
    ensures
        text@ == "Directory `"@ + quoted@ + "` does not exist"@,
{
    String::from_str("Directory `").concat(quoted).concat("` does not exist")
}

/// The message of an error, as shown to the user after the word `error:`.
pub open spec fn error_text(error: AppError) -> Seq<char> {
    match error {
        AppError::IoError(cause) => "I/O error: "@ + cause@,
        AppError::SerdeError(cause) => "Serialization error: "@ + cause@,
        AppError::InvalidDirectory(directory) => "Directory `"@ + debug_text(directory@)
            + "` does not exist"@,
        AppError::FileNotFound(file) => "File `"@ + file@ + "` not found"@,
        AppError::InvalidDeduplicationReport(cause) => "Invalid deduplication report: "@ + cause@,
    }
}

impl Clone for AppError {
    fn clone(&self) -> (copy: Self)
        ensures
            copy == *self,
    {
        match self {
            AppError::IoError(cause) => AppError::IoError(cause.clone()),
            AppError::SerdeError(cause) => AppError::SerdeError(cause.clone()),
            AppError::InvalidDirectory(directory) => AppError::InvalidDirectory(directory.clone()),
            AppError::FileNotFound(file) => AppError::FileNotFound(file.clone()),
            AppError::InvalidDeduplicationReport(cause) => AppError::InvalidDeduplicationReport(
                cause.clone(),
            ),
        }
    }
}

impl AppError {
    /// Renders the error for the user.
    pub fn message(&self) -> (text: String)
        ensures
            text@ == error_text(*self),
    {
        match self {
            AppError::IoError(cause) => String::from_str("I/O error: ").concat(cause.as_str()),
            AppError::SerdeError(cause) => String::from_str("Serialization error: ").concat(
                cause.as_str(),
            ),
            AppError::InvalidDirectory(directory) => {
                let quoted = debug_string(directory.as_str());
                missing_directory_text(quoted.as_str())
            },
            AppError::FileNotFound(file) => String::from_str("File `").concat(
                file.as_str(),
            ).concat("` not found"),
            AppError::InvalidDeduplicationReport(cause) => String::from_str(
                "Invalid deduplication report: ",
            ).concat(cause.as_str()),
        }
    }
}

} // verus!
