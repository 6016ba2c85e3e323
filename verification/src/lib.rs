//! A single-writer embedded byte store with append-only checksummed records.
//!
//! The library holds the record format, log recovery, the in-memory index and
//! the decisions of the store; the program around it performs the file I/O.
use vstd::prelude::*;
use vstd::string::*;

pub mod cli;
pub mod format;
pub mod index;
pub mod store;
pub mod recovery;

pub use format::{MAX_KEY, MAX_VALUE};
pub use store::{inspect, Stats, Store};

verus! {

/// Declares `std::io::Error`, which `Error::Io` carries without looking inside.
#[verifier::external_type_specification]
#[verifier::external_body]
pub struct ExIoError(std::io::Error);

/// Everything that can go wrong in the store.
#[derive(Debug)]
pub enum Error {
    /// An operating-system error raised by the surrounding file handling.
    Io(std::io::Error),
    /// Another handle holds the store's lock.
    Locked,
    /// The request is outside what the store accepts.
    InvalidInput(&'static str),
    /// The log holds bytes that are not a valid record at `offset`.
    Corruption { offset: u64, reason: &'static str },
    /// An earlier persistence step failed; the handle must be reopened.
    Poisoned,
}

/// `e` is `InvalidInput` with the message `msg`.
pub open spec fn is_invalid_input(e: Error, msg: Seq<char>) -> bool {
    e matches Error::InvalidInput(m) && m@ == msg
}

/// `e` is `Corruption` at `offset` for `reason`.
pub open spec fn is_corruption(e: Error, offset: int, reason: Seq<char>) -> bool {
    e matches Error::Corruption { offset: o, reason: r } && o == offset && r@ == reason
}

impl Error {
    /// A sentence that describes the error.
    pub fn message(&self) -> (r: String)
        ensures
            self matches Error::Io(_) ==> "I/O error: "@.is_prefix_of(r@),
            self is Locked ==> r@ == "store is locked by another handle"@,
            self matches Error::InvalidInput(m) ==> r@ == "invalid input: "@ + m@,
            self matches Error::Corruption { offset, reason } ==> r@ == "corruption at byte "@
                + cli::decimal(offset as nat) + ": "@ + reason@,
            self is Poisoned ==> r@
                == "handle requires reopening after a failed persistence operation"@,
    {
        match self {
            Error::Io(e) => {
                let mut out = String::from_str("I/O error: ");
                let detail = e.to_string();
                out.append(detail.as_str());
                out
            },
            Error::Locked => String::from_str("store is locked by another handle"),
            Error::InvalidInput(m) => {
                let mut out = String::from_str("invalid input: ");
                out.append(m);
                out
            },
            Error::Corruption { offset, reason } => {
                let mut out = String::from_str("corruption at byte ");
                cli::push_decimal(&mut out, *offset);
                out.append(": ");
                out.append(reason);
                out
            },
            Error::Poisoned => String::from_str(
                "handle requires reopening after a failed persistence operation",
            ),
        }
    }
}

impl From<std::io::Error> for Error {
    fn from(e: std::io::Error) -> (r: Error) {
        Error::Io(e)
    }
}

impl vstd::std_specs::convert::FromSpecImpl<std::io::Error> for Error {
    open spec fn obeys_from_spec() -> bool {
        true
    }

    open spec fn from_spec(e: std::io::Error) -> Error {
        Error::Io(e)
    }
}

} // verus!
