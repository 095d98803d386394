use vstd::prelude::*;

verus! {

/// Why an upgrade attempt was given up. Every failure is final for the
/// response it concerns.
#[derive(Clone, Copy, Debug, PartialEq, Eq, Structural)]
pub enum UpgradeError {
    /// The status line does not begin with `HTTP/1.1 101 `.
    InvalidStatusLine,
    /// The header block cannot be read as name/value pairs.
    MalformedHeaders,
    /// The header block holds more header lines than the parser has room for.
    TooManyHeaders,
    /// Bytes were written after the response had been completed.
    UseAfterComplete,
}

impl UpgradeError {
    /// The text that describes the failure.
    pub open spec fn text(self) -> Seq<char> {
        match self {
            UpgradeError::InvalidStatusLine => "invalid HTTP status line"@,
            UpgradeError::MalformedHeaders => "invalid headers"@,
            UpgradeError::TooManyHeaders => "too many headers"@,
            UpgradeError::UseAfterComplete => "attempted to write to completed upgrade buffer"@,
        }
    }

    /// A description of the failure for a reader.
    pub fn message(&self) -> (message: &'static str)
        ensures
            message@ == self.text(),
    {
        match self {
            UpgradeError::InvalidStatusLine => "invalid HTTP status line",
            UpgradeError::MalformedHeaders => "invalid headers",
            UpgradeError::TooManyHeaders => "too many headers",
            UpgradeError::UseAfterComplete => "attempted to write to completed upgrade buffer",
        }
    }
}

} // verus!
