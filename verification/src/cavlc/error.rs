//! Why an edit or a batch was refused.

use super::Version;
use crate::quote::{quote, quoted};
use crate::text::{decimal, decimal_text};
use vstd::prelude::*;

verus! {

#[derive(Clone, Debug, PartialEq, Eq)]
pub enum Error {
    RootMustBeObject,
    /// The batch was opened on another store.
    ForeignBatch,
    /// The batch was opened on another version.
    Conflict { expected: Version, actual: Version },
    VersionOverflow,
    InvalidVersion { expected: Version, actual: Version },
    InvalidPatch(Flaw),
}

/// What is wrong with a patch.
#[derive(Clone, Debug, PartialEq, Eq)]
pub enum Flaw {
    KeyExists(String),
    NoSuchKey(String),
    NotAnObject,
    /// A batch in a log without a patch in it.
    EmptyBatch,
    /// A patch in a log that changes nothing.
    Identity,
}

impl Flaw {
    pub open spec fn text(self) -> Seq<char> {
        match self {
            Flaw::KeyExists(key) => "key "@ + quoted(key@) + " already exists"@,
            Flaw::NoSuchKey(key) => "no key "@ + quoted(key@),
            Flaw::NotAnObject => "not an object"@,
            Flaw::EmptyBatch => "empty batch in log"@,
            Flaw::Identity => "identity patch in batch log"@,
        }
    }

    /// The flaw, in words.
    pub fn message(&self) -> (r: String)
        ensures
            r@ == self.text(),
    {
        match self {
            Flaw::KeyExists(key) => {
                let mut out = String::from_str("key ");
                out.append(quote(key.as_str()).as_str());
                out.append(" already exists");
                out
            },
            Flaw::NoSuchKey(key) => {
                let mut out = String::from_str("no key ");
                out.append(quote(key.as_str()).as_str());
                out
            },
            Flaw::NotAnObject => String::from_str("not an object"),
            Flaw::EmptyBatch => String::from_str("empty batch in log"),
            Flaw::Identity => String::from_str("identity patch in batch log"),
        }
    }
}

impl Error {
    pub open spec fn text(self) -> Seq<char> {
        match self {
            Error::RootMustBeObject => "the root must be an object"@,
            Error::ForeignBatch => "the batch belongs to another store"@,
            Error::Conflict { expected, actual } => "the batch is based on version "@ + decimal(
                expected as nat,
            ) + ", the store is at "@ + decimal(actual as nat),
            Error::VersionOverflow => "versions are exhausted"@,
            Error::InvalidVersion { expected, actual } => "expected version "@ + decimal(
                expected as nat,
            ) + ", got "@ + decimal(actual as nat),
            Error::InvalidPatch(flaw) => "invalid patch: "@ + flaw.text(),
        }
    }

    /// The failure, in words.
    pub fn message(&self) -> (r: String)
        ensures
            r@ == self.text(),
    {
        match self {
            Error::RootMustBeObject => String::from_str("the root must be an object"),
            Error::ForeignBatch => String::from_str("the batch belongs to another store"),
            Error::Conflict { expected, actual } => {
                let mut out = String::from_str("the batch is based on version ");
                out.append(decimal_text(*expected).as_str());
                out.append(", the store is at ");
                out.append(decimal_text(*actual).as_str());
                out
            },
            Error::VersionOverflow => String::from_str("versions are exhausted"),
            Error::InvalidVersion { expected, actual } => {
                let mut out = String::from_str("expected version ");
                out.append(decimal_text(*expected).as_str());
                out.append(", got ");
                out.append(decimal_text(*actual).as_str());
                out
            },
            Error::InvalidPatch(flaw) => {
                let mut out = String::from_str("invalid patch: ");
                out.append(flaw.message().as_str());
                out
            },
        }
    }
}

} // verus!
