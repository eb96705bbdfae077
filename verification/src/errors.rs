//! Error kinds of the profile manager.

use vstd::prelude::*;
use vstd::string::StringExecFns;

verus! {

/// Everything a profile operation can fail with.
#[derive(Debug)]
pub enum Error {
    /// A profile of this name already exists for the tool.
    ProfileExists { name: String },
    /// No profile of this name exists for the tool.
    ProfileNotFound { name: String },
    /// The string is not a valid profile name.
    InvalidName { name: String },
    /// An operation needed the tool's live configuration directory and
    /// it does not exist.
    NoConfigFound { what: String },
    /// Malformed content met during extraction; collected, never fatal.
    ParseFailure { message: String },
    /// An underlying filesystem failure, reported by the caller that
    /// performs real I/O.
    Io { message: String },
    /// A failure handling the manager's own settings.
    Config { message: String },
}

impl Error {
    /// What the message of each error kind says.
    pub open spec fn message_view(&self) -> Seq<char> {
        match self {
            Error::ProfileExists { name } => "profile already exists: "@ + name@,
            Error::ProfileNotFound { name } => "profile not found: "@ + name@,
            Error::InvalidName { name } => "invalid profile name: "@ + name@,
            Error::NoConfigFound { what } => "no configuration found: "@ + what@,
            Error::ParseFailure { message } => "parse failure: "@ + message@,
            Error::Io { message } => "io error: "@ + message@,
            Error::Config { message } => "configuration error: "@ + message@,
        }
    }

    /// A human-readable description of the error: the kind, then what
    /// it concerns.
    pub fn message(&self) -> (r: String)
        ensures
            r@ == self.message_view(),
    {
        let mut s: String;
        match self {
            Error::ProfileExists { name } => {
                s = String::from_str("profile already exists: ");
                s.append(name.as_str());
            },
            Error::ProfileNotFound { name } => {
                s = String::from_str("profile not found: ");
                s.append(name.as_str());
            },
            Error::InvalidName { name } => {
                s = String::from_str("invalid profile name: ");
                s.append(name.as_str());
            },
            Error::NoConfigFound { what } => {
                s = String::from_str("no configuration found: ");
                s.append(what.as_str());
            },
            Error::ParseFailure { message } => {
                s = String::from_str("parse failure: ");
                s.append(message.as_str());
            },
            Error::Io { message } => {
                s = String::from_str("io error: ");
                s.append(message.as_str());
            },
            Error::Config { message } => {
                s = String::from_str("configuration error: ");
                s.append(message.as_str());
            },
        }
        s
    }
}

} // verus!
