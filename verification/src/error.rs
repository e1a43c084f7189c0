//! The errors of the library.
use vstd::prelude::*;

verus! {

/// What can go wrong while an index is built, kept or searched. Each kind
/// but `NoIndex` carries the words of its cause.
#[derive(Debug)]
pub enum LgrepError {
    /// Reading or writing failed.
    Io(String),
    /// The embedding model could not be loaded or run.
    Embedding(String),
    /// The index refused an operation.
    Index(String),
    /// The sidecar of the index could not be written or read back.
    Serialization(String),
    /// A JSON document could not be written or read back.
    Json(String),
    /// There is no index where one was expected.
    NoIndex,
    /// A path is not usable.
    InvalidPath(String),
    /// Watching the file tree failed.
    Watch(String),
    /// A setting is not usable.
    Config(String),
}

/// `head` followed by `tail`.
pub fn concat(head: &str, tail: &str) -> (r: String)
    ensures
        r@ == head@ + tail@,
{
    let mut s = head.to_owned();
    s.append(tail);
    s
}

impl LgrepError {
    /// The message of the error: the kind, then the cause.
    pub open spec fn spec_message(&self) -> Seq<char> {
        match self {
            LgrepError::Io(cause) => "IO error: "@ + cause@,
            LgrepError::Embedding(cause) => "Embedding error: "@ + cause@,
            LgrepError::Index(cause) => "Index error: "@ + cause@,
            LgrepError::Serialization(cause) => "Serialization error: "@ + cause@,
            LgrepError::Json(cause) => "JSON error: "@ + cause@,
            LgrepError::NoIndex => "No index found. Run `lgrep index` first."@,
            LgrepError::InvalidPath(cause) => "Invalid path: "@ + cause@,
            LgrepError::Watch(cause) => "Watch error: "@ + cause@,
            LgrepError::Config(cause) => "Configuration error: "@ + cause@,
        }
    }

    /// The message of the error.
    pub fn message(&self) -> (r: String)
        ensures
            r@ == self.spec_message(),
    {
        match self {
            LgrepError::Io(cause) => concat("IO error: ", cause.as_str()),
            LgrepError::Embedding(cause) => concat("Embedding error: ", cause.as_str()),
            LgrepError::Index(cause) => concat("Index error: ", cause.as_str()),
            LgrepError::Serialization(cause) => concat("Serialization error: ", cause.as_str()),
            LgrepError::Json(cause) => concat("JSON error: ", cause.as_str()),
            LgrepError::NoIndex => "No index found. Run `lgrep index` first.".to_owned(),
            LgrepError::InvalidPath(cause) => concat("Invalid path: ", cause.as_str()),
            LgrepError::Watch(cause) => concat("Watch error: ", cause.as_str()),
            LgrepError::Config(cause) => concat("Configuration error: ", cause.as_str()),
        }
    }
}

} // verus!
