//! The errors of the store.

use vstd::prelude::*;

verus! {

#[verifier::external_type_specification]
#[verifier::external_body]
pub struct ExIoError(std::io::Error);

/// Why an operation of the store failed.
#[derive(Debug)]
pub enum StoreError {
    /// A read or write of segment data failed.
    Io(std::io::Error),
    /// The index map of a segment could not be built or opened.
    Fst(fst::Error),
    /// A value the caller gave cannot be stored, decoded or used with the layout.
    InvalidInput(String),
    /// A segment's index file has no values file beside it.
    CorruptSegment(String),
}

pub type StoreResult<T> = Result<T, StoreError>;

impl From<std::io::Error> for StoreError {
    fn from(err: std::io::Error) -> (e: Self)
    {
        StoreError::Io(err)
    }
}

impl vstd::std_specs::convert::FromSpecImpl<std::io::Error> for StoreError {
    open spec fn obeys_from_spec() -> bool {
        true
    }

    open spec fn from_spec(err: std::io::Error) -> Self {
        StoreError::Io(err)
    }
}

impl From<fst::Error> for StoreError {
    fn from(err: fst::Error) -> (e: Self)
    {
        StoreError::Fst(err)
    }
}

impl vstd::std_specs::convert::FromSpecImpl<fst::Error> for StoreError {
    open spec fn obeys_from_spec() -> bool {
        true
    }

    open spec fn from_spec(err: fst::Error) -> Self {
        StoreError::Fst(err)
    }
}

/// `text` starts with `head`.
pub open spec fn starts(head: Seq<char>, text: Seq<char>) -> bool {
    head.len() <= text.len() && text.subrange(0, head.len() as int) == head
}

/// The text that an `std::io::Error` displays (`Display`, through `format!`).
#[verifier::external_body]
fn io_error_text(err: &std::io::Error) -> String {
    format!("{err}")
}

/// The text that an `fst::Error` displays (`Display`, through `format!`).
#[verifier::external_body]
fn index_error_text(err: &fst::Error) -> String {
    format!("{err}")
}

impl StoreError {
    /// The error in words: the kind of the error, a colon, and the message
    /// or what the underlying error displays.
    pub fn describe(&self) -> (text: String)
        ensures
            match self {
                StoreError::Io(_) => starts("io error: "@, text@),
                StoreError::Fst(_) => starts("fst error: "@, text@),
                StoreError::InvalidInput(msg) => text@ == "invalid input: "@ + msg@,
                StoreError::CorruptSegment(msg) => text@ == "corrupt segment: "@ + msg@,
            },
    {
        match self {
            StoreError::Io(err) => {
                let tail = io_error_text(err);
                let text = String::from_str("io error: ").concat(tail.as_str());
                assert(text@.subrange(0, "io error: "@.len() as int) =~= "io error: "@);
                text
            },
            StoreError::Fst(err) => {
                let tail = index_error_text(err);
                let text = String::from_str("fst error: ").concat(tail.as_str());
                assert(text@.subrange(0, "fst error: "@.len() as int) =~= "fst error: "@);
                text
            },
            StoreError::InvalidInput(msg) => String::from_str("invalid input: ").concat(msg.as_str()),
            StoreError::CorruptSegment(msg) => String::from_str("corrupt segment: ").concat(msg.as_str()),
        }
    }
}

/// `std::io::Error::from` on `ErrorKind::UnexpectedEof`: the error that a
/// read past the end of its source gives.
#[verifier::external_body]
pub(crate) fn unexpected_eof() -> std::io::Error {
    std::io::Error::from(std::io::ErrorKind::UnexpectedEof)
}

/// An `InvalidInput` error with the given message.
pub fn invalid_input(msg: &str) -> (e: StoreError)
    ensures
        e matches StoreError::InvalidInput(m) && m@ == msg@,
{
    StoreError::InvalidInput(String::from_str(msg))
}

/// A `CorruptSegment` error with the given message.
pub fn corrupt_segment(msg: &str) -> (e: StoreError)
    ensures
        e matches StoreError::CorruptSegment(m) && m@ == msg@,
{
    StoreError::CorruptSegment(String::from_str(msg))
}

} // verus!
