use vstd::prelude::*;

verus! {

/// Why an admission was rejected: the payload was empty, or the queue was
/// built with a capacity bound and is full. Both are recoverable and are
/// surfaced to the submitter synchronously.
#[derive(Clone, Copy, Debug, PartialEq, Eq, Structural)]
pub enum SubmitError {
    EmptyPayload,
    QueueFull,
}

/// Errors of the surrounding client: each variant carries the collaborating
/// transport's own description of what went wrong.
#[derive(Clone, Debug, PartialEq, Eq)]
pub enum GrokError {
    Auth(String),
    Connection(String),
    Session(String),
    Authorization(String),
    Invocation(String),
    Io(String),
    Bot(String),
}

impl GrokError {
    /// A short name for the error's category.
    pub fn kind(&self) -> (s: &'static str)
        ensures
            s@ == match self {
                GrokError::Auth(_) => "authentication"@,
                GrokError::Connection(_) => "connection"@,
                GrokError::Session(_) => "session"@,
                GrokError::Authorization(_) => "authorization"@,
                GrokError::Invocation(_) => "invocation"@,
                GrokError::Io(_) => "io"@,
                GrokError::Bot(_) => "bot"@,
            },
    {
        match self {
            GrokError::Auth(_) => "authentication",
            GrokError::Connection(_) => "connection",
            GrokError::Session(_) => "session",
            GrokError::Authorization(_) => "authorization",
            GrokError::Invocation(_) => "invocation",
            GrokError::Io(_) => "io",
            GrokError::Bot(_) => "bot",
        }
    }
}

} // verus!
