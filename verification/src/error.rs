//! What can go wrong on the way from an origin to a client.

use crate::text::{decimal, decimal_text, join2, join3};
use vstd::prelude::*;
use vstd::string::*;

verus! {

#[derive(Debug)]
pub enum ProxyError {
    TaskNotFound(String),
    NoUpstream,
    /// The request to the origin failed, with what the HTTP client said.
    Upstream(String),
    InvalidRange(String),
    BadStatus(u16),
    /// The origin is asking for less load: 429 or 503, optionally with the wait
    /// (milliseconds) that it asked for.
    Throttled { status: u16, retry_after: Option<u64> },
    /// A file operation failed, with what the system said.
    Io(String),
    /// A URL served a different `ETag` than it did earlier, so the entity changed
    /// under us.
    ContentChanged { url: String },
    Internal(String),
}

impl ProxyError {
    /// The error as it is shown.
    pub open spec fn shown(self) -> Seq<char> {
        match self {
            ProxyError::TaskNotFound(id) => "task not found: "@ + id@,
            ProxyError::NoUpstream => "no upstream URL available"@,
            ProxyError::Upstream(e) => "upstream HTTP error: "@ + e@,
            ProxyError::InvalidRange(v) => "invalid range header: "@ + v@,
            ProxyError::BadStatus(s) => "upstream returned non-success status: "@ + decimal(
                s as nat,
            ),
            ProxyError::Throttled { status, .. } => "upstream is throttling (status "@ + decimal(
                status as nat,
            ) + ")"@,
            ProxyError::Io(e) => "io error: "@ + e@,
            ProxyError::ContentChanged { url } => "upstream content changed mid-download: "@ + url@,
            ProxyError::Internal(e) => "internal: "@ + e@,
        }
    }

    pub fn message(&self) -> (out: String)
        ensures
            out@ == self.shown(),
    {
        match self {
            ProxyError::TaskNotFound(id) => join2("task not found: ", id.as_str()),
            ProxyError::NoUpstream => "no upstream URL available".to_owned(),
            ProxyError::Upstream(e) => join2("upstream HTTP error: ", e.as_str()),
            ProxyError::InvalidRange(v) => join2("invalid range header: ", v.as_str()),
            ProxyError::BadStatus(s) => join2(
                "upstream returned non-success status: ",
                decimal_text(*s as u64).as_str(),
            ),
            ProxyError::Throttled { status, .. } => join3(
                "upstream is throttling (status ",
                decimal_text(*status as u64).as_str(),
                ")",
            ),
            ProxyError::Io(e) => join2("io error: ", e.as_str()),
            ProxyError::ContentChanged { url } => join2(
                "upstream content changed mid-download: ",
                url.as_str(),
            ),
            ProxyError::Internal(e) => join2("internal: ", e.as_str()),
        }
    }

    /// The origin asks for less concurrency rather than reporting a broken
    /// transfer.
    pub fn is_overload(&self) -> (out: bool)
        ensures
            out == self.overloads(),
    {
        match self {
            ProxyError::Throttled { .. } => true,
            ProxyError::BadStatus(s) => *s == 429 || *s == 503,
            _ => false,
        }
    }

    /// How long (milliseconds) the origin asked us to wait, if it said so at all.
    pub fn retry_after(&self) -> (out: Option<u64>)
        ensures
            out == self.wait_hint(),
    {
        match self {
            ProxyError::Throttled { retry_after, .. } => *retry_after,
            _ => None,
        }
    }

    /// The entity changed under us.
    pub fn is_content_changed(&self) -> (out: bool)
        ensures
            out == (self is ContentChanged),
    {
        matches!(self, ProxyError::ContentChanged { .. })
    }

    /// The origin asks for less load: it is busy, not broken.
    pub open spec fn overloads(self) -> bool {
        self is Throttled || self == ProxyError::BadStatus(429) || self == ProxyError::BadStatus(
            503,
        )
    }

    /// The wait (milliseconds) that the origin asked for.
    pub open spec fn wait_hint(self) -> Option<u64> {
        match self {
            ProxyError::Throttled { retry_after, .. } => retry_after,
            _ => None,
        }
    }

    /// The status that a client is answered with. A status of the origin is passed
    /// on where it is one that can be sent.
    pub open spec fn answered_with(self) -> u16 {
        match self {
            ProxyError::TaskNotFound(_) => 404,
            ProxyError::NoUpstream => 502,
            ProxyError::Upstream(_) => 502,
            ProxyError::InvalidRange(_) => 416,
            ProxyError::BadStatus(s) => if 100 <= s <= 999 {
                s
            } else {
                502
            },
            ProxyError::Throttled { status, .. } => if 100 <= status <= 999 {
                status
            } else {
                503
            },
            ProxyError::Io(_) => 500,
            ProxyError::ContentChanged { .. } => 502,
            ProxyError::Internal(_) => 500,
        }
    }

    pub fn http_status(&self) -> (out: u16)
        ensures
            out == self.answered_with(),
            100 <= out <= 999,
    {
        match self {
            ProxyError::TaskNotFound(_) => 404,
            ProxyError::NoUpstream => 502,
            ProxyError::Upstream(_) => 502,
            ProxyError::InvalidRange(_) => 416,
            ProxyError::BadStatus(s) => if 100 <= *s && *s <= 999 {
                *s
            } else {
                502
            },
            ProxyError::Throttled { status, .. } => if 100 <= *status && *status <= 999 {
                *status
            } else {
                503
            },
            ProxyError::Io(_) => 500,
            ProxyError::ContentChanged { .. } => 502,
            ProxyError::Internal(_) => 500,
        }
    }
}

} // verus!
