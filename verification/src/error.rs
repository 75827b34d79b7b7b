//! Error type shared by the bus-level API.
use vstd::prelude::*;
use vstd::string::*;

use crate::external::io_error_text;

verus! {

/// Base error type for all CAN-related errors.
#[derive(Debug)]
pub enum CanError {
    /// The requested interface has no implementation.
    InterfaceNotImplemented {
        /// Human-readable error message.
        message: String,
    },
    /// Bus or adapter initialization failed.
    InitializationError {
        /// Human-readable error message.
        message: String,
    },
    /// A bus operation failed.
    OperationError {
        /// Human-readable error message.
        message: String,
    },
    /// A bus operation timed out.
    TimeoutError {
        /// Human-readable error message.
        message: String,
    },
    /// A feature is not supported by the selected bus or adapter.
    NotSupported {
        /// Unsupported feature name.
        feature: String,
        /// Explanation of why the feature is unavailable.
        reason: String,
    },
    /// Wrapped input/output error.
    Io(std::io::Error),
    /// Internal invariant violation.
    Internal(String),
}

impl CanError {
    /// Creates an interface-not-implemented error.
    pub fn interface_not_implemented(message: &str) -> (e: Self)
        ensures
            e matches CanError::InterfaceNotImplemented { message: m } && m@ == message@,
    {
        CanError::InterfaceNotImplemented { message: message.to_owned() }
    }

    /// Creates an initialization error.
    pub fn initialization(message: &str) -> (e: Self)
        ensures
            e matches CanError::InitializationError { message: m } && m@ == message@,
    {
        CanError::InitializationError { message: message.to_owned() }
    }

    /// Creates an operation error.
    pub fn operation(message: &str) -> (e: Self)
        ensures
            e matches CanError::OperationError { message: m } && m@ == message@,
    {
        CanError::OperationError { message: message.to_owned() }
    }

    /// Creates a timeout error.
    pub fn timeout(message: &str) -> (e: Self)
        ensures
            e matches CanError::TimeoutError { message: m } && m@ == message@,
    {
        CanError::TimeoutError { message: message.to_owned() }
    }

    /// Creates a not-supported error.
    pub fn not_supported(feature: &str, reason: &str) -> (e: Self)
        ensures
            e matches CanError::NotSupported { feature: f, reason: r } && f@ == feature@
                && r@ == reason@,
    {
        CanError::NotSupported { feature: feature.to_owned(), reason: reason.to_owned() }
    }

    /// The user-visible message of an error, for every variant but `Io`,
    /// whose text comes from the wrapped error.
    pub open spec fn spec_message(&self) -> Seq<char>
        recommends
            !(self is Io),
    {
        match self {
            CanError::InterfaceNotImplemented { message } => message@,
            CanError::InitializationError { message } => message@,
            CanError::OperationError { message } => message@,
            CanError::TimeoutError { message } => message@,
            CanError::NotSupported { feature, reason } => feature@ + " is not supported: "@
                + reason@,
            CanError::Io(_) => Seq::empty(),
            CanError::Internal(text) => "Internal error: "@ + text@,
        }
    }

    /// Formats the error for display to a user.
    pub fn message(&self) -> (s: String)
        ensures
            !(self is Io) ==> s@ == self.spec_message(),
            self is Io ==> s@.len() >= 11 && s@.subrange(0, 11) == "I/O error: "@,
    {
        match self {
            CanError::InterfaceNotImplemented { message } => message.clone(),
            CanError::InitializationError { message } => message.clone(),
            CanError::OperationError { message } => message.clone(),
            CanError::TimeoutError { message } => message.clone(),
            CanError::NotSupported { feature, reason } => {
                let s = feature.clone();
                let s = s.concat(" is not supported: ");
                s.concat(reason.as_str())
            },
            CanError::Io(error) => {
                let text = io_error_text(error);
                let s = String::from_str("I/O error: ");
                proof {
                    reveal_strlit("I/O error: ");
                }
                s.concat(text.as_str())
            },
            CanError::Internal(text) => {
                let s = String::from_str("Internal error: ");
                s.concat(text.as_str())
            },
        }
    }
}

impl From<std::io::Error> for CanError {
    fn from(error: std::io::Error) -> (e: Self) {
        CanError::Io(error)
    }
}

impl vstd::std_specs::convert::FromSpecImpl<std::io::Error> for CanError {
    open spec fn obeys_from_spec() -> bool {
        true
    }

    open spec fn from_spec(error: std::io::Error) -> Self {
        CanError::Io(error)
    }
}

} // verus!
