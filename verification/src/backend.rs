//! What a backend can answer besides label log-probabilities: its errors.
use vstd::prelude::*;

use crate::text::owned;

verus! {

/// Why a backend gave no reading.
#[derive(Debug, Clone)]
pub enum BackendError {
    /// The backend could not be reached, or failed underway.
    Http(String),
    /// The backend answered something unreadable.
    Malformed(String),
    /// The request itself was refused (the caller's to fix: a 422).
    Rejected(String),
}

impl BackendError {
    /// The error as it is shown: its kind, then its detail.
    pub open spec fn text(&self) -> Seq<char> {
        match self {
            BackendError::Http(m) => "backend http: "@ + m@,
            BackendError::Malformed(m) => "backend returned malformed output: "@ + m@,
            BackendError::Rejected(m) => "request rejected: "@ + m@,
        }
    }

    /// The error as it is shown.
    pub fn message(&self) -> (out: String)
        ensures
            out@ == self.text(),
    {
        match self {
            BackendError::Http(m) => {
                let mut out = owned("backend http: ");
                out.append(m.as_str());
                out
            },
            BackendError::Malformed(m) => {
                let mut out = owned("backend returned malformed output: ");
                out.append(m.as_str());
                out
            },
            BackendError::Rejected(m) => {
                let mut out = owned("request rejected: ");
                out.append(m.as_str());
                out
            },
        }
    }
}

} // verus!
