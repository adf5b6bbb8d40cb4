//! Error taxonomy of the monitoring engine.
//!
//! Configuration problems are fatal at load time; resolution and fetch
//! problems are scoped to a single (branch, remote) check and are rendered
//! into the status message for that remote instead of halting the engine.

use vstd::prelude::*;

verus! {

/// Everything that can go wrong inside the engine or at its boundary.
#[derive(Debug, Clone)]
pub enum Error {
    /// An interval string does not match the interval grammar (or its value
    /// in milliseconds does not fit in the machine word). Carries the
    /// offending string.
    InvalidIntervalFormat(String),
    /// A malformed configuration document or a dangling remote reference.
    /// Carries a description of the offending part.
    ConfigError(String),
    /// No branch of the requested name resolved in the requested scope.
    RefNotFound,
    /// Several branches of the requested name resolved to distinct commits.
    AmbiguousRef,
    /// Exactly one branch matched but its reference points nowhere.
    UnresolvableRef,
    /// The credential provider could not produce credentials of the
    /// requested kind.
    AuthenticationFailed,
    /// A network or protocol failure during fetch. Carries the reason.
    FetchFailed(String),
    /// The underlying repository is unreadable or corrupt.
    RepositoryAccessError(String),
}

impl Error {
    /// The text that stands for this error inside a status message.
    pub open spec fn spec_text(&self) -> Seq<char> {
        match self {
            Error::InvalidIntervalFormat(s) => "invalid interval: "@ + s@,
            Error::ConfigError(s) => "configuration error: "@ + s@,
            Error::RefNotFound => "reference not found"@,
            Error::AmbiguousRef => "ambiguous reference"@,
            Error::UnresolvableRef => "unresolvable reference"@,
            Error::AuthenticationFailed => "authentication failed"@,
            Error::FetchFailed(s) => "fetch failed: "@ + s@,
            Error::RepositoryAccessError(s) => "repository access error: "@ + s@,
        }
    }

    /// Render the error as the explanatory string used in status messages.
    pub fn text(&self) -> (r: String)
        ensures
            r@ == self.spec_text(),
    {
        match self {
            Error::InvalidIntervalFormat(s) => {
                let mut t = "invalid interval: ".to_owned();
                t.append(s.as_str());
                t
            },
            Error::ConfigError(s) => {
                let mut t = "configuration error: ".to_owned();
                t.append(s.as_str());
                t
            },
            Error::RefNotFound => "reference not found".to_owned(),
            Error::AmbiguousRef => "ambiguous reference".to_owned(),
            Error::UnresolvableRef => "unresolvable reference".to_owned(),
            Error::AuthenticationFailed => "authentication failed".to_owned(),
            Error::FetchFailed(s) => {
                let mut t = "fetch failed: ".to_owned();
                t.append(s.as_str());
                t
            },
            Error::RepositoryAccessError(s) => {
                let mut t = "repository access error: ".to_owned();
                t.append(s.as_str());
                t
            },
        }
    }
}

} // verus!
