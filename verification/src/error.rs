//! The errors of the bridge.

use crate::text::joined;
use vstd::prelude::*;

verus! {

/// Why the bridge could not do what it was asked.
///
/// `Request` and `Io` hold the text of the error that an HTTP client or the
/// operating system gave.
#[derive(Debug)]
pub enum RZError {
    Cancelled,
    Auth(String),
    Config(String),
    Validation(String),
    ParseError(String),
    System(String),
    RoomzinUnreachable(String),
    NoLeaderAvailable,
    NoFollowerNodeAvailable,
    Http(String),
    Resolver(String),
    Timeout,
    Request(String),
    Io(String),
}

/// An [`RZError`] with its text as characters.
pub enum ErrorView {
    Cancelled,
    Auth(Seq<char>),
    Config(Seq<char>),
    Validation(Seq<char>),
    ParseError(Seq<char>),
    System(Seq<char>),
    RoomzinUnreachable(Seq<char>),
    NoLeaderAvailable,
    NoFollowerNodeAvailable,
    Http(Seq<char>),
    Resolver(Seq<char>),
    Timeout,
    Request(Seq<char>),
    Io(Seq<char>),
}

impl View for RZError {
    type V = ErrorView;

    open spec fn view(&self) -> ErrorView {
        match *self {
            RZError::Cancelled => ErrorView::Cancelled,
            RZError::Auth(m) => ErrorView::Auth(m@),
            RZError::Config(m) => ErrorView::Config(m@),
            RZError::Validation(m) => ErrorView::Validation(m@),
            RZError::ParseError(m) => ErrorView::ParseError(m@),
            RZError::System(m) => ErrorView::System(m@),
            RZError::RoomzinUnreachable(m) => ErrorView::RoomzinUnreachable(m@),
            RZError::NoLeaderAvailable => ErrorView::NoLeaderAvailable,
            RZError::NoFollowerNodeAvailable => ErrorView::NoFollowerNodeAvailable,
            RZError::Http(m) => ErrorView::Http(m@),
            RZError::Resolver(m) => ErrorView::Resolver(m@),
            RZError::Timeout => ErrorView::Timeout,
            RZError::Request(m) => ErrorView::Request(m@),
            RZError::Io(m) => ErrorView::Io(m@),
        }
    }
}

impl ErrorView {
    /// What is shown to an operator.
    pub open spec fn message(self) -> Seq<char> {
        match self {
            ErrorView::Cancelled => "Operation cancelled"@,
            ErrorView::Auth(m) => "Authentication error: "@ + m,
            ErrorView::Config(m) => "Config error: "@ + m,
            ErrorView::Validation(m) => "Validation error: "@ + m,
            ErrorView::ParseError(m) => "Parse error: "@ + m,
            ErrorView::System(m) => "Internal error: "@ + m,
            ErrorView::RoomzinUnreachable(m) => "roomzin node unreachable: "@ + m,
            ErrorView::NoLeaderAvailable => "no leader found in cluster"@,
            ErrorView::NoFollowerNodeAvailable => "no follower node found in cluster"@,
            ErrorView::Http(m) => "HTTP error: "@ + m,
            ErrorView::Resolver(m) => "Identity resolution error: "@ + m,
            ErrorView::Timeout => "Request timeout"@,
            ErrorView::Request(m) => "request failed: "@ + m,
            ErrorView::Io(m) => "internal error: "@ + m,
        }
    }
}

impl RZError {
    /// The text that is shown to an operator.
    pub fn message(&self) -> (text: String)
        ensures
            text@ == self@.message(),
    {
        match self {
            RZError::Cancelled => "Operation cancelled".to_owned(),
            RZError::Auth(m) => joined("Authentication error: ", m.as_str()),
            RZError::Config(m) => joined("Config error: ", m.as_str()),
            RZError::Validation(m) => joined("Validation error: ", m.as_str()),
            RZError::ParseError(m) => joined("Parse error: ", m.as_str()),
            RZError::System(m) => joined("Internal error: ", m.as_str()),
            RZError::RoomzinUnreachable(m) => joined("roomzin node unreachable: ", m.as_str()),
            RZError::NoLeaderAvailable => "no leader found in cluster".to_owned(),
            RZError::NoFollowerNodeAvailable => "no follower node found in cluster".to_owned(),
            RZError::Http(m) => joined("HTTP error: ", m.as_str()),
            RZError::Resolver(m) => joined("Identity resolution error: ", m.as_str()),
            RZError::Timeout => "Request timeout".to_owned(),
            RZError::Request(m) => joined("request failed: ", m.as_str()),
            RZError::Io(m) => joined("internal error: ", m.as_str()),
        }
    }
}

} // verus!
