//! The error taxonomy shared by every fallible operation of the crate.

use vstd::prelude::*;

verus! {

/// The class an error belongs to.
///
/// `Config` covers mistakes in a configuration (an unknown filter or
/// mode name, mutually exclusive arguments both set); it is surfaced
/// when the configuration is interpreted, never later.  `Io` covers a
/// missing or unreadable input named by a caller.  `Format` covers a
/// corrupt binary dictionary or a schema mismatch in tabular source
/// data.  `Segmentation` is reserved for unrecoverable states of the
/// segmenter itself.
#[derive(Clone, Copy, Debug, PartialEq, Eq, Structural)]
pub enum LinderaErrorKind {
    Config,
    Io,
    Format,
    Segmentation,
}

/// An error: its class together with a human-readable message.
#[derive(Clone, Debug)]
pub struct LinderaError {
    pub kind: LinderaErrorKind,
    pub message: String,
}

impl LinderaError {
    /// Builds an error of the given class.
    pub fn new(kind: LinderaErrorKind, message: String) -> (r: LinderaError)
        ensures
            r.kind == kind,
            r.message == message,
    {
        LinderaError { kind, message }
    }

    /// The class of this error.
    pub fn kind(&self) -> (r: LinderaErrorKind)
        ensures
            r == self.kind,
    {
        self.kind
    }

    /// The human-readable message of this error.
    pub fn message(&self) -> (r: &str)
        ensures
            r@ == self.message@,
    {
        self.message.as_str()
    }
}

} // verus!
