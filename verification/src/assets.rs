//! The files of the dashboard.

use crate::names::reads_alike;
use crate::text::{
    begins_with, chars_of, drop_front, join2, same_text, starts_with, string_of, without_front,
};
use vstd::prelude::*;
use vstd::string::*;

verus! {

/// What a request for a file of the dashboard is answered with.
#[derive(Debug, PartialEq, Eq)]
pub enum AssetAnswer {
    /// There is no such endpoint; the client gets the words as JSON.
    NoEndpoint(String),
    /// The method is not one that reads.
    MethodNotAllowed,
    /// This file, or the shell where it is not there.
    File(String),
}

/// The path without the slashes in front.
pub open spec fn asset_path(path: Seq<char>) -> Seq<char> {
    without_front(path, '/')
}

/// A path of the control interface or of a stream.
pub open spec fn is_endpoint(path: Seq<char>) -> bool {
    begins_with(path, "api/"@) || begins_with(path, "stream/"@)
}

/// Settles the answer. A path of the interface that nothing else answers gets no
/// document: the client could not read it.
pub fn asset_answer(path: &str, reads: bool) -> (out: AssetAnswer)
    ensures
        ({
            let p = asset_path(path@);
            match out {
                AssetAnswer::NoEndpoint(m) => is_endpoint(p) && m@ == "no such endpoint: /"@ + p,
                AssetAnswer::MethodNotAllowed => !is_endpoint(p) && !reads,
                AssetAnswer::File(f) => !is_endpoint(p) && reads && f@ == if p.len() == 0 {
                    "index.html"@
                } else {
                    p
                },
            }
        }),
{
    let p: Vec<char> = drop_front(&chars_of(path), '/');
    let api: Vec<char> = chars_of("api/");
    let stream: Vec<char> = chars_of("stream/");
    if starts_with(&p, &api) || starts_with(&p, &stream) {
        return AssetAnswer::NoEndpoint(join2("no such endpoint: /", string_of(&p).as_str()));
    }
    if !reads {
        return AssetAnswer::MethodNotAllowed;
    }
    if p.len() == 0 {
        AssetAnswer::File("index.html".to_owned())
    } else {
        AssetAnswer::File(string_of(&p))
    }
}

/// How long a client may keep a file. The shell is asked for anew each time; the
/// names of all others change with what is in them.
pub fn cache_control(path: &str) -> (out: &'static str)
    ensures
        out@ == if path@ == "index.html"@ {
            "no-cache"@
        } else {
            "public, max-age=31536000, immutable"@
        },
{
    if same_text(path, "index.html") {
        "no-cache"
    } else {
        "public, max-age=31536000, immutable"
    }
}

/// The type that `mime_guess` gives to a file of this name, with parameters.
pub uninterp spec fn full_mime_of(path: Seq<char>) -> Seq<char>;

/// Guesses a type. Calls `mime_guess::from_path` and `first_or_octet_stream`. Which
/// part of a name is its extension is for the system to say, so nothing is said of
/// a name that systems take apart in different ways.
#[verifier::external_body]
fn guess_full_mime(path: &str) -> (out: String)
    ensures
        reads_alike(path@) ==> out@ == full_mime_of(path@),
{
    mime_guess::from_path(path).first_or_octet_stream().to_string()
}

/// The headers that a file is served with.
pub struct AssetHeaders {
    pub content_type: String,
    pub cache_control: &'static str,
}

/// Puts the headers together from the type that was guessed.
pub fn headers_for(path: &str, content_type: String) -> (out: AssetHeaders)
    ensures
        out.content_type == content_type,
        out.cache_control@ == if path@ == "index.html"@ {
            "no-cache"@
        } else {
            "public, max-age=31536000, immutable"@
        },
{
    AssetHeaders { content_type, cache_control: cache_control(path) }
}

/// The headers that a file is served with.
pub fn asset_headers(path: &str) -> (out: AssetHeaders)
    ensures
        reads_alike(path@) ==> out.content_type@ == full_mime_of(path@),
        out.cache_control@ == if path@ == "index.html"@ {
            "no-cache"@
        } else {
            "public, max-age=31536000, immutable"@
        },
{
    headers_for(path, guess_full_mime(path))
}

} // verus!
