//! The errors of a merge.

use vstd::prelude::*;

verus! {

/// What was found wrong with the data of a scratch file.
#[derive(Clone, Copy, Debug, PartialEq, Eq, Structural)]
pub enum Corruption {
    /// The file is too short to hold the length of its used part.
    ShortHeader,
    /// The file declares more used bytes than could be read from it.
    TruncatedFile,
    /// A record runs past the used part of the file.
    TruncatedRecord,
    /// The key of a record is not UTF-8.
    InvalidUtf8,
    /// The key of a record is not the JSON form of a sample key.
    InvalidKey,
    /// The name of a gauge file does not give its multiprocess mode.
    InvalidFileName,
    /// A record of a gauge file whose name gives no process id.
    MissingPid,
    /// The threshold of a histogram bucket is not a number.
    InvalidThreshold,
}

/// Why a merge failed.
#[derive(Debug)]
pub enum MergeError {
    /// A file could not be opened or read; the text is that of the failure.
    IoFailure(String),
    /// A file was read, and its content is inconsistent.
    DataCorruption(Corruption),
}

/// What an error holds.
pub enum ErrorView {
    IoFailure(Seq<char>),
    DataCorruption(Corruption),
}

impl View for MergeError {
    type V = ErrorView;

    open spec fn view(&self) -> ErrorView {
        match self {
            MergeError::IoFailure(text) => ErrorView::IoFailure(text@),
            MergeError::DataCorruption(c) => ErrorView::DataCorruption(*c),
        }
    }
}

impl MergeError {
    /// A text for the error, as a caller may show it: for a failed read, the
    /// text of the failure as it came; for a corruption, the text that
    /// describes its kind.
    pub fn message(&self) -> (text: String)
        ensures
            self matches MergeError::IoFailure(m) ==> text@ == m@,
            self matches MergeError::DataCorruption(c) ==> text@ == corruption_words(*c),
    {
        match self {
            MergeError::IoFailure(m) => m.clone(),
            MergeError::DataCorruption(c) => corruption_text(*c).to_owned(),
        }
    }
}

/// Whether `r` is the failure of a merge on corruption of the kind `c`.
pub open spec fn fails_with<T>(r: Result<T, MergeError>, c: Corruption) -> bool {
    r matches Err(e) && e == MergeError::DataCorruption(c)
}

/// The text for a file that is too short to hold the length of its used part.
pub const SHORT_HEADER_TEXT: &'static str = "file too short to hold its used length";

/// The text for a file that declares more used bytes than could be read.
pub const TRUNCATED_FILE_TEXT: &'static str = "file shorter than its used length";

/// The text for a record that runs past the used part of the file.
pub const TRUNCATED_RECORD_TEXT: &'static str = "record runs past the used length";

/// The text for a key that is not UTF-8.
pub const INVALID_UTF8_TEXT: &'static str = "record key is not UTF-8";

/// The text for a key that is not the JSON form of a sample key.
pub const INVALID_KEY_TEXT: &'static str = "record key is not a JSON sample key";

/// The text for the name of a gauge file that does not give its mode.
pub const INVALID_FILE_NAME_TEXT: &'static str = "gauge file name gives no multiprocess mode";

/// The text for a record of a gauge file whose name gives no process id.
pub const MISSING_PID_TEXT: &'static str = "gauge file name gives no process id";

/// The text for a bucket threshold that is not a number.
pub const INVALID_THRESHOLD_TEXT: &'static str = "histogram bucket threshold is not a number";

/// The words that describe a kind of corruption.
pub open spec fn corruption_words(c: Corruption) -> Seq<char> {
    match c {
        Corruption::ShortHeader => SHORT_HEADER_TEXT@,
        Corruption::TruncatedFile => TRUNCATED_FILE_TEXT@,
        Corruption::TruncatedRecord => TRUNCATED_RECORD_TEXT@,
        Corruption::InvalidUtf8 => INVALID_UTF8_TEXT@,
        Corruption::InvalidKey => INVALID_KEY_TEXT@,
        Corruption::InvalidFileName => INVALID_FILE_NAME_TEXT@,
        Corruption::MissingPid => MISSING_PID_TEXT@,
        Corruption::InvalidThreshold => INVALID_THRESHOLD_TEXT@,
    }
}

/// The text that describes a kind of corruption.
pub fn corruption_text(c: Corruption) -> (text: &'static str)
    ensures
        text@ == corruption_words(c),
{
    match c {
        Corruption::ShortHeader => SHORT_HEADER_TEXT,
        Corruption::TruncatedFile => TRUNCATED_FILE_TEXT,
        Corruption::TruncatedRecord => TRUNCATED_RECORD_TEXT,
        Corruption::InvalidUtf8 => INVALID_UTF8_TEXT,
        Corruption::InvalidKey => INVALID_KEY_TEXT,
        Corruption::InvalidFileName => INVALID_FILE_NAME_TEXT,
        Corruption::MissingPid => MISSING_PID_TEXT,
        Corruption::InvalidThreshold => INVALID_THRESHOLD_TEXT,
    }
}

} // verus!
