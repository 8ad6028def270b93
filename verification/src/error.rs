//! The error taxonomy of the engine's public surface.

use vstd::prelude::*;
use vstd::string::StringExecFns;

verus! {

/// What went wrong in the engine, from the caller's point of view.
#[derive(Debug, Clone, PartialEq, Eq)]
pub enum FixgError {
    /// An I/O operation failed; the text carries the system's words.
    Io(String),
    /// A collaborator task has gone away.
    ChannelClosed,
    /// A builder was missing a required setting.
    InvalidConfig(String),
    /// A FIX frame or rule was violated.
    Protocol(String),
    /// A session-level failure.
    Session(String),
}

impl FixgError {
    /// A short text for logs and messages.
    pub fn message(&self) -> String {
        match self {
            FixgError::Io(s) => "I/O error: ".to_owned().concat(s.as_str()),
            FixgError::ChannelClosed => "Channel closed unexpectedly".to_owned(),
            FixgError::InvalidConfig(s) => "Invalid configuration: ".to_owned().concat(s.as_str()),
            FixgError::Protocol(s) => "Protocol error: ".to_owned().concat(s.as_str()),
            FixgError::Session(s) => "Session error: ".to_owned().concat(s.as_str()),
        }
    }
}

} // verus!
