use vstd::prelude::*;

verus! {

/// Failure categories surfaced by the resource engine.
#[derive(Debug, Clone, Copy, PartialEq, Eq, Structural)]
pub enum ErrorKind {
    /// Unknown resource key or history id.
    NotFound,
    /// Duplicate key on create, or a history id not owned by the named resource.
    Conflict,
    /// A kind-specific payload failed its checks before persistence.
    Validation,
    /// Transient transaction or timeout failure.
    Store,
    /// The backing storage could not be reached.
    Unavailable,
}

impl ErrorKind {
    /// Whether a caller may retry the request that produced this error.
    pub open spec fn spec_is_retryable(self) -> bool {
        self is Store || self is Unavailable
    }

    pub fn is_retryable(&self) -> (r: bool)
        ensures
            r == self.spec_is_retryable(),
    {
        match self {
            ErrorKind::Store | ErrorKind::Unavailable => true,
            _ => false,
        }
    }
}

} // verus!
