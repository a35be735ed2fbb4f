//! Errors
use vstd::prelude::*;

verus! {

/// An error.
#[derive(Debug, Clone, Copy)]
pub enum Error {
    /// A general application error: misuse of the registry, such as a
    /// duplicate or an unknown name.
    App(&'static str),
    /// A termination signal could not be sent.
    TriggerSend,
    /// An I/O error of the host.
    Io,
}

/// `r` failed with an application error.
pub open spec fn is_app_error<T>(r: Result<T, Error>) -> bool {
    r matches Err(Error::App(_))
}

} // verus!
