//! The closed set of error kinds shared across the crate.

use vstd::prelude::*;

verus! {

/// Every failure the store or the protocol layer can report.
#[derive(Debug)]
pub enum KvsError {
    /// Filesystem or network failure, carried as a message.
    Io(String),
    /// Malformed record on disk or malformed protocol payload.
    Serde(String),
    /// Failure reported by the alternate `sled`-backed engine.
    Sled(String),
    /// Stored bytes were not valid UTF-8.
    Utf8,
    /// An index entry pointed at a record that did not decode to a `Set`.
    BrokenCommand,
    /// The persisted engine-selection file is not recognized.
    BrokenEngine,
    /// In-memory index bookkeeping was found inconsistent.
    BrokenIndex,
    /// `remove` was called for a key that is not present.
    KeyNotFound,
    /// Protocol-carried server-side error surfaced to the client.
    OtherError(String),
}

impl KvsError {
    /// A human-readable description of the error.
    pub fn message(&self) -> (r: String)
        ensures
            self matches KvsError::Io(m) ==> r@ == "io error "@ + m@,
            self matches KvsError::Serde(m) ==> r@ == "serde_json error "@ + m@,
            self matches KvsError::Sled(m) ==> r@ == "sled error "@ + m@,
            self matches KvsError::Utf8 ==> r@ == "Utf8 error"@,
            self matches KvsError::BrokenCommand ==> r@ == "broken command"@,
            self matches KvsError::BrokenEngine ==> r@ == "broken engine log file"@,
            self matches KvsError::BrokenIndex ==> r@ == "broken Index"@,
            self matches KvsError::KeyNotFound ==> r@ == "Key not found"@,
            self matches KvsError::OtherError(m) ==> r@ == "other error "@ + m@,
    {
        match self {
            KvsError::Io(m) => {
                let mut s = String::from_str("io error ");
                s.append(m.as_str());
                s
            },
            KvsError::Serde(m) => {
                let mut s = String::from_str("serde_json error ");
                s.append(m.as_str());
                s
            },
            KvsError::Sled(m) => {
                let mut s = String::from_str("sled error ");
                s.append(m.as_str());
                s
            },
            KvsError::Utf8 => String::from_str("Utf8 error"),
            KvsError::BrokenCommand => String::from_str("broken command"),
            KvsError::BrokenEngine => String::from_str("broken engine log file"),
            KvsError::BrokenIndex => String::from_str("broken Index"),
            KvsError::KeyNotFound => String::from_str("Key not found"),
            KvsError::OtherError(m) => {
                let mut s = String::from_str("other error ");
                s.append(m.as_str());
                s
            },
        }
    }
}

} // verus!
