//! What a stream request is answered with.

use crate::cache::{CacheMeta, BLOCK_SIZE};
use crate::engine::{parse_range_header, range_asked};
use crate::error::ProxyError;
use crate::headers::{is_sendable, sendable};
use crate::models::task::{tidy, TaskEntry};
use crate::models::{ContentDispositionMode, TaskConfig};
use crate::names::{percent_decoded, reads_alike};
use crate::num::{imax, imin};
use crate::order::{in_order, sorted_texts, utf8_views};
use crate::probe::{ProbeView, UpstreamProbe};
use crate::text::{
    append_chars, chars_of, clone_opt, decimal, decimal_chars, join2, join3, lower_chars, lowered,
    opt_view, same_text, string_of, trim, trim_chars, trimmed, views,
};
use vstd::prelude::*;
use vstd::string::*;
use vstd::utf8::*;

verus! {

/// How long a probe is used again, in nanoseconds.
pub const PROBE_CACHE_TTL: u64 = 300_000_000_000;

/// The type of a file of which nothing is known.
pub open spec fn octet_stream() -> Seq<char> {
    "application/octet-stream"@
}

/// The file name that is served: with `auto_filename` the one that was detected,
/// else the one that was set, else the task's name; without it only the one that
/// was set.
pub open spec fn served_name(
    auto: bool,
    detected: Option<Seq<char>>,
    output: Option<Seq<char>>,
    name: Option<Seq<char>>,
) -> Option<Seq<char>> {
    if !auto {
        tidy(output)
    } else if detected is Some {
        detected
    } else if tidy(output) is Some {
        tidy(output)
    } else {
        tidy(name)
    }
}

fn tidy_copy(s: &Option<String>) -> (out: Option<String>)
    ensures
        opt_view(out) == tidy(opt_view(*s)),
{
    match s {
        Some(t) => {
            let t: String = trim(t.as_str());
            if t.as_str().is_empty() {
                None
            } else {
                Some(t)
            }
        },
        None => None,
    }
}

/// Settles the file name that is served.
pub fn resolve_served_filename(cfg: &TaskConfig, detected: Option<String>) -> (out: Option<String>)
    ensures
        opt_view(out) == served_name(
            cfg@.auto_filename,
            opt_view(detected),
            cfg@.output_filename,
            cfg@.name,
        ),
{
    if !cfg.auto_filename {
        return tidy_copy(&cfg.output_filename);
    }
    if detected.is_some() {
        return detected;
    }
    let set: Option<String> = tidy_copy(&cfg.output_filename);
    if set.is_some() {
        return set;
    }
    tidy_copy(&cfg.name)
}

/// The type that `mime_guess` gives to a file of this name, without parameters;
/// a name that it knows nothing about is an octet stream.
pub uninterp spec fn mime_of(name: Seq<char>) -> Seq<char>;

/// Guesses a type. Calls `mime_guess::from_path`, `first_or_octet_stream` and
/// `essence_str`. Which part of a name is its extension is for the system to say,
/// so nothing is said of a name that systems take apart in different ways.
#[verifier::external_body]
fn guess_mime(name: &str) -> (out: String)
    ensures
        reads_alike(name@) ==> out@ == mime_of(name@),
{
    mime_guess::from_path(name).first_or_octet_stream().essence_str().to_string()
}

/// The content type that is served where the guess for the file's name is
/// `guess`: the guess takes the place of a type that says nothing.
pub open spec fn forced_type(content_type: Option<Seq<char>>, guess: Seq<char>) -> Option<Seq<char>> {
    let says_nothing = match content_type {
        Some(t) => lowered(t) == octet_stream(),
        None => true,
    };
    if says_nothing && guess != octet_stream() {
        Some(guess)
    } else {
        content_type
    }
}

/// Puts a guess in the place of a content type that says nothing.
pub fn force_type(content_type: Option<String>, guess: String) -> (out: Option<String>)
    ensures
        opt_view(out) == forced_type(opt_view(content_type), guess@),
{
    let says_nothing: bool = match &content_type {
        Some(t) => same_text(
            string_of(&lower_chars(&chars_of(t.as_str()))).as_str(),
            "application/octet-stream",
        ),
        None => true,
    };
    if says_nothing && !same_text(guess.as_str(), "application/octet-stream") {
        Some(guess)
    } else {
        content_type
    }
}

/// Some plugin is switched on among the first `n`.
pub open spec fn plugin_on(l: Seq<crate::models::SlotView>, n: int) -> bool
    decreases n,
{
    n > 0 && (l[n - 1].enabled || plugin_on(l, n - 1))
}

/// The content type is taken from the file's name: where a plugin changes the
/// bytes the origin's type is that of other bytes, and where a preview is asked
/// for a type that says nothing would not give one.
pub fn forces_type(cfg: &TaskConfig) -> (out: bool)
    ensures
        out == (plugin_on(cfg@.plugins, cfg@.plugins.len() as int) || cfg@.content_disposition
            == ContentDispositionMode::Inline),
{
    let ghost l = cfg@.plugins;
    let mut n: usize = cfg.plugins.len();
    let mut on: bool = false;
    while n > 0 && !on
        invariant
            n <= cfg.plugins@.len(),
            l == crate::models::slot_views(cfg.plugins@),
            on ==> plugin_on(l, l.len() as int),
            !on ==> plugin_on(l, l.len() as int) == plugin_on(l, n as int),
        decreases n,
    {
        assert(l[n - 1] == crate::models::slot_view(cfg.plugins@[n - 1]));
        if cfg.plugins[n - 1].enabled {
            on = true;
        }
        n = n - 1;
    }
    on || cfg.content_disposition == ContentDispositionMode::Inline
}

/// The content type that is served.
pub fn served_type(cfg: &TaskConfig, filename: &Option<String>, content_type: Option<String>) -> (out:
    Option<String>)
    ensures
        ({
            let forced = plugin_on(cfg@.plugins, cfg@.plugins.len() as int)
                || cfg@.content_disposition == ContentDispositionMode::Inline;
            match *filename {
                Some(name) if forced => reads_alike(name@) ==> opt_view(out) == forced_type(
                    opt_view(content_type),
                    mime_of(name@),
                ),
                _ => out == content_type,
            }
        }),
        exists|guess: Seq<char>|
            opt_view(out) == #[trigger] forced_type(opt_view(content_type), guess),
{
    if forces_type(cfg) {
        if let Some(name) = filename {
            let guess: String = guess_mime(name.as_str());
            let out: Option<String> = force_type(content_type, guess);
            assert(opt_view(out) == forced_type(opt_view(content_type), guess@));
            return out;
        }
    }
    assert(forced_type(opt_view(content_type), octet_stream()) == opt_view(content_type));
    content_type
}

/// A byte that stands for itself in an extended header parameter.
pub open spec fn attr_byte(b: u8) -> bool {
    (48 <= b <= 57) || (65 <= b <= 90) || (97 <= b <= 122) || b == 33 || b == 35 || b == 36 || b
        == 38 || b == 43 || b == 45 || b == 46 || b == 94 || b == 95 || b == 96 || b == 124 || b
        == 126
}

/// The upper-case hexadecimal digit of a value below 16.
pub open spec fn upper_hex(v: int) -> char {
    if v < 10 {
        ((48 + v) as u8) as char
    } else {
        ((55 + v) as u8) as char
    }
}

/// Bytes in percent coding.
pub open spec fn percent_encoded(bytes: Seq<u8>) -> Seq<char>
    decreases bytes.len(),
{
    if bytes.len() == 0 {
        Seq::empty()
    } else {
        let b = bytes.last();
        percent_encoded(bytes.drop_last()) + if attr_byte(b) {
            seq![b as char]
        } else {
            seq!['%', upper_hex(b as int / 16), upper_hex(b as int % 16)]
        }
    }
}

fn hex_char(v: u8) -> (out: char)
    requires
        v < 16,
    ensures
        out == upper_hex(v as int),
{
    if v < 10 {
        (48 + v) as char
    } else {
        (55 + v) as char
    }
}

/// Writes a text in percent coding.
pub fn percent_encode_rfc5987(s: &str) -> (out: String)
    ensures
        out@ == percent_encoded(encode_utf8(s@)),
{
    let bytes: &[u8] = s.as_bytes();
    let mut out: Vec<char> = Vec::new();
    let mut i: usize = 0;
    assert(out@ =~= percent_encoded(bytes@.take(0)));
    while i < bytes.len()
        invariant
            i <= bytes@.len(),
            out@ == percent_encoded(bytes@.take(i as int)),
        decreases bytes.len() - i,
    {
        let b: u8 = bytes[i];
        let ghost had = out@;
        proof {
            assert(bytes@.take(i + 1).drop_last() =~= bytes@.take(i as int));
        }
        if (48 <= b && b <= 57) || (65 <= b && b <= 90) || (97 <= b && b <= 122) || b == 33 || b
            == 35 || b == 36 || b == 38 || b == 43 || b == 45 || b == 46 || b == 94 || b == 95 || b
            == 96 || b == 124 || b == 126 {
            out.push(b as char);
            assert(out@ =~= had + seq![b as char]);
        } else {
            out.push('%');
            out.push(hex_char(b / 16));
            out.push(hex_char(b % 16));
            assert(out@ =~= had + seq!['%', upper_hex(b as int / 16), upper_hex(b as int % 16)]);
        }
        i = i + 1;
    }
    assert(bytes@.take(bytes@.len() as int) =~= bytes@);
    string_of(&out)
}

/// A text in percent coding decodes to the bytes of the text.
pub proof fn law_an_encoded_name_decodes(s: Seq<char>)
    ensures
        percent_decoded(encode_utf8(percent_encoded(encode_utf8(s)))) == encode_utf8(s),
{
    let t = percent_encoded(encode_utf8(s));
    lemma_encoded_ascii(encode_utf8(s));
    is_ascii_chars_encode_utf8(t);
    assert(encode_utf8(t) =~= t.map_values(|c: char| c as u8));
    lemma_decodes(encode_utf8(s), Seq::empty());
    assert(encode_utf8(t) + Seq::<u8>::empty() =~= encode_utf8(t));
    assert(encode_utf8(s) + percent_decoded(Seq::<u8>::empty()) =~= encode_utf8(s));
}

proof fn lemma_encoded_ascii(bytes: Seq<u8>)
    ensures
        is_ascii_chars(percent_encoded(bytes)),
    decreases bytes.len(),
{
    if bytes.len() > 0 {
        lemma_encoded_ascii(bytes.drop_last());
        let t = percent_encoded(bytes);
        let front = percent_encoded(bytes.drop_last());
        assert forall|i: int| 0 <= i < t.len() implies '\0' <= #[trigger] t[i] <= '\u{7f}' by {
            if i < front.len() {
                assert(t[i] == front[i]);
            }
        }
    }
}

/// What stands behind decodes as before.
proof fn lemma_decodes(bytes: Seq<u8>, rest: Seq<u8>)
    ensures
        percent_decoded(percent_encoded(bytes).map_values(|c: char| c as u8) + rest) == bytes
            + percent_decoded(rest),
    decreases bytes.len(),
{
    let t = percent_encoded(bytes).map_values(|c: char| c as u8);
    if bytes.len() == 0 {
        assert(t + rest =~= rest);
        assert(bytes + percent_decoded(rest) =~= percent_decoded(rest));
    } else {
        let b = bytes.last();
        let front = percent_encoded(bytes.drop_last()).map_values(|c: char| c as u8);
        let step = if attr_byte(b) {
            seq![b as char]
        } else {
            seq!['%', upper_hex(b as int / 16), upper_hex(b as int % 16)]
        };
        let code = step.map_values(|c: char| c as u8);
        assert(t =~= front + code);
        assert(t + rest =~= front + (code + rest));
        lemma_decodes(bytes.drop_last(), code + rest);
        let tail = code + rest;
        if attr_byte(b) {
            assert(tail[0] == b);
            assert(tail.skip(1) =~= rest);
            assert(percent_decoded(tail) == seq![b] + percent_decoded(rest));
        } else {
            let hi = upper_hex(b as int / 16) as u8;
            let lo = upper_hex(b as int % 16) as u8;
            assert(tail[0] == 37 && tail[1] == hi && tail[2] == lo);
            assert(crate::codec::hex_value(hi) == Some(b as int / 16));
            assert(crate::codec::hex_value(lo) == Some(b as int % 16));
            assert(tail.skip(3) =~= rest);
            assert(percent_decoded(tail) == seq![b] + percent_decoded(rest));
        }
        assert(bytes.drop_last() + (seq![b] + percent_decoded(rest)) =~= bytes + percent_decoded(
            rest,
        ));
    }
}

/// A character that a quoted file name can hold as it is.
pub open spec fn quotable(c: char) -> bool {
    32 <= c as u32 && c as u32 <= 126 && c != '"' && c != '\\'
}

/// The file name for clients that know no other form.
pub open spec fn plain_form(name: Seq<char>) -> Seq<char> {
    name.map_values(
        |c: char|
            if quotable(c) {
                c
            } else {
                '_'
            },
    )
}

/// The name has to be given in the extended form as well.
pub open spec fn needs_extended(name: Seq<char>) -> bool {
    exists|i: int|
        0 <= i < name.len() && ((#[trigger] name[i]) as u32 > 127 || (name[i] as u32) < 32
            || name[i] == '"' || name[i] == '\\')
}

/// The `Content-Disposition` for a file name.
pub open spec fn disposition_value(filename: Seq<char>, mode: ContentDispositionMode) -> Option<
    Seq<char>,
> {
    let name = trimmed(filename);
    let token = if mode == ContentDispositionMode::Attachment {
        "attachment"@
    } else {
        "inline"@
    };
    if name.len() == 0 {
        None
    } else {
        let plain = token + "; filename=\""@ + plain_form(name);
        if needs_extended(name) {
            Some(plain + "\"; filename*=UTF-8''"@ + percent_encoded(encode_utf8(name)))
        } else {
            Some(plain + "\""@)
        }
    }
}

/// Writes the `Content-Disposition` for a file name: a plain form that every
/// client reads and, where that does not say all, the extended one.
pub fn build_content_disposition(filename: &str, disposition: ContentDispositionMode) -> (out: Option<
    String,
>)
    ensures
        opt_view(out) == disposition_value(filename@, disposition),
{
    let name: Vec<char> = trim_chars(&chars_of(filename));
    if name.len() == 0 {
        return None;
    }
    let token: &str = if disposition == ContentDispositionMode::Attachment {
        "attachment"
    } else {
        "inline"
    };
    let mut extended: bool = false;
    let mut plain: Vec<char> = Vec::new();
    let mut i: usize = 0;
    while i < name.len()
        invariant
            i <= name@.len(),
            plain@.len() == i,
            forall|k: int| 0 <= k < i ==> #[trigger] plain@[k] == plain_form(name@)[k],
            extended ==> needs_extended(name@),
            !extended ==> forall|k: int|
                0 <= k < i ==> !((#[trigger] name@[k]) as u32 > 127 || (name@[k] as u32) < 32
                    || name@[k] == '"' || name@[k] == '\\'),
        decreases name.len() - i,
    {
        let c: char = name[i];
        let u: u32 = c as u32;
        if u > 127 || u < 32 || c == '"' || c == '\\' {
            assert(name@[i as int] == c);
            extended = true;
        }
        if 32 <= u && u <= 126 && c != '"' && c != '\\' {
            plain.push(c);
        } else {
            plain.push('_');
        }
        i = i + 1;
    }
    assert(plain@ =~= plain_form(name@));
    let front: String = join3(token, "; filename=\"", string_of(&plain).as_str());
    if extended {
        let encoded: String = percent_encode_rfc5987(string_of(&name).as_str());
        Some(join3(front.as_str(), "\"; filename*=UTF-8''", encoded.as_str()))
    } else {
        Some(join2(front.as_str(), "\""))
    }
}

/// A plain name is quoted without anything that could end the quotes.
pub proof fn law_a_quoted_name_stays_in_its_quotes(name: Seq<char>, i: int)
    requires
        0 <= i < plain_form(name).len(),
    ensures
        plain_form(name)[i] != '"',
        plain_form(name)[i] != '\\',
        32 <= plain_form(name)[i] as u32 <= 126,
        plain_form(name).len() == name.len(),
{
}

/// The `Content-Disposition` of a task's exported settings; none where a header
/// cannot carry the task's id.
pub fn export_disposition(task_id: &str) -> (out: Option<String>)
    ensures
        opt_view(out) == if sendable(
            "attachment; filename=\"hydraria-task-"@ + task_id@ + ".json\""@,
        ) {
            Some("attachment; filename=\"hydraria-task-"@ + task_id@ + ".json\""@)
        } else {
            None
        },
{
    let value: String = join3("attachment; filename=\"hydraria-task-", task_id, ".json\"");
    if is_sendable(value.as_str()) {
        Some(value)
    } else {
        None
    }
}

/// What a response carries.
pub enum ServeBody {
    Empty,
    /// The origin's own body, from its first byte.
    Passthrough,
    /// These bytes of the file, both ends counted. `open_ended` says that the
    /// client named no last byte, so that a seek is likely to come.
    Range { start: u64, end: u64, open_ended: bool },
}

pub struct Header {
    pub name: &'static str,
    pub value: String,
}

#[verifier::ext_equal]
pub ghost struct HeaderView {
    pub name: Seq<char>,
    pub value: Seq<char>,
}

impl View for Header {
    type V = HeaderView;

    open spec fn view(&self) -> HeaderView {
        HeaderView { name: self.name@, value: self.value@ }
    }
}

pub open spec fn header_views(l: Seq<Header>) -> Seq<HeaderView> {
    l.map_values(|h: Header| h@)
}

/// How a stream request is answered.
pub struct ServePlan {
    pub status: u16,
    pub headers: Vec<Header>,
    pub body: ServeBody,
}

/// A header for an optional text; none where a header cannot carry it.
pub open spec fn optional_header(name: Seq<char>, value: Option<Seq<char>>) -> Seq<HeaderView> {
    match value {
        Some(v) => if sendable(v) {
            seq![HeaderView { name, value: v }]
        } else {
            Seq::empty()
        },
        None => Seq::empty(),
    }
}

/// The headers of every answer.
pub open spec fn common_headers(probe: ProbeView, mode: ContentDispositionMode, task_id: Seq<char>) -> Seq<
    HeaderView,
> {
    optional_header("content-type"@, probe.content_type) + optional_header("etag"@, probe.etag)
        + optional_header("last-modified"@, probe.last_modified) + optional_header(
        "content-disposition"@,
        match probe.filename {
            Some(n) => disposition_value(n, mode),
            None => None,
        },
    ) + seq![
        HeaderView {
            name: "accept-ranges"@,
            value: if probe.accepts_ranges {
                "bytes"@
            } else {
                "none"@
            },
        },
        HeaderView { name: "x-hydraria-task"@, value: task_id },
    ]
}

pub open spec fn length_header(n: int) -> HeaderView {
    HeaderView { name: "content-length"@, value: decimal(n as nat) }
}

/// The part of a file that is served: its ends, and whether the request named no
/// last byte.
pub open spec fn served_range(range: Option<Seq<char>>, total: u64) -> Result<(int, int, bool), Seq<char>> {
    match range {
        None => Ok((0, imax(total - 1, 0), true)),
        Some(r) => match range_asked(r, Some(total)) {
            Err(e) => Err(e),
            Ok((s, e)) => {
                let end = match e {
                    Some(e) => imin(e, total - 1),
                    None => total - 1,
                };
                if s > end {
                    Err(r)
                } else {
                    Ok((s, end, e is None))
                }
            },
        },
    }
}

fn add_header(l: &mut Vec<Header>, name: &'static str, value: &Option<String>)
    ensures
        header_views(final(l)@) == header_views(old(l)@) + optional_header(
            name@,
            opt_view(*value),
        ),
{
    let ghost was = l@;
    if let Some(v) = value {
        if is_sendable(v.as_str()) {
            let h: Header = Header { name, value: v.clone() };
            l.push(h);
            assert(header_views(l@) =~= header_views(was) + seq![h@]);
            return;
        }
    }
    assert(header_views(l@) =~= header_views(was) + Seq::empty());
}

fn push_header(l: &mut Vec<Header>, name: &'static str, value: String)
    ensures
        header_views(final(l)@) == header_views(old(l)@) + seq![
            HeaderView { name: name@, value: value@ },
        ],
{
    let ghost was = l@;
    l.push(Header { name, value });
    assert(header_views(l@) =~= header_views(was) + seq![HeaderView { name: name@, value: value@ }]);
}

fn start_headers(probe: &UpstreamProbe, disposition: ContentDispositionMode, task_id: &str) -> (out: Vec<
    Header,
>)
    ensures
        header_views(out@) == common_headers(probe@, disposition, task_id@),
{
    let mut out: Vec<Header> = Vec::new();
    assert(header_views(out@) =~= Seq::empty());
    add_header(&mut out, "content-type", &probe.content_type);
    add_header(&mut out, "etag", &probe.etag);
    add_header(&mut out, "last-modified", &probe.last_modified);
    let cd: Option<String> = match &probe.filename {
        Some(n) => build_content_disposition(n.as_str(), disposition),
        None => None,
    };
    add_header(&mut out, "content-disposition", &cd);
    let ranges: &str = if probe.accepts_ranges {
        "bytes"
    } else {
        "none"
    };
    push_header(&mut out, "accept-ranges", ranges.to_owned());
    push_header(&mut out, "x-hydraria-task", task_id.to_owned());
    assert(header_views(out@) =~= common_headers(probe@, disposition, task_id@));
    out
}

/// The answer to a request that is served in full: the origin knows no ranges, or
/// the size is not known.
pub open spec fn passes_through(probe: ProbeView) -> bool {
    !probe.accepts_ranges || probe.total_size is None
}

/// How a stream request is answered: in full where ranges cannot be served, with
/// the part that is asked for where they can, or with a refusal.
pub open spec fn is_answer(
    out: Result<ServePlan, ProxyError>,
    probe: ProbeView,
    range: Option<Seq<char>>,
    head_only: bool,
    mode: ContentDispositionMode,
    task_id: Seq<char>,
) -> bool {
    let common = common_headers(probe, mode, task_id);
    if passes_through(probe) {
        &&& out is Ok
        &&& (out->Ok_0).status == 200
        &&& header_views((out->Ok_0).headers@) == common + match probe.total_size {
            Some(n) => seq![length_header(n as int)],
            None => Seq::empty(),
        }
        &&& (out->Ok_0).body == if head_only {
            ServeBody::Empty
        } else {
            ServeBody::Passthrough
        }
    } else {
        let total = probe.total_size->0;
        match (out, served_range(range, total)) {
            (Err(ProxyError::InvalidRange(m)), Err(e)) => m@ == e,
            (Ok(p), Ok((s, e, open))) => {
                &&& p.status == if range is Some {
                    206u16
                } else {
                    200u16
                }
                &&& header_views(p.headers@) == common + seq![length_header(e - s + 1)] + if range
                    is Some {
                    seq![
                        HeaderView {
                            name: "content-range"@,
                            value: content_range(s, e, total as int),
                        },
                    ]
                } else {
                    Seq::empty()
                }
                &&& match p.body {
                    ServeBody::Empty => head_only,
                    ServeBody::Passthrough => false,
                    ServeBody::Range { start, end, open_ended } => !head_only && start == s && end
                        == e && open_ended == open,
                }
            },
            _ => false,
        }
    }
}

/// Settles how a stream request is answered.
pub fn plan_response(
    probe: &UpstreamProbe,
    range_header: Option<&str>,
    head_only: bool,
    disposition: ContentDispositionMode,
    task_id: &str,
) -> (out: Result<ServePlan, ProxyError>)
    requires
        !passes_through(probe@) && probe@.total_size == Some(0u64) && range_header is Some
            ==> range_asked(range_header->0@, Some(0u64)) is Err,
    ensures
        is_answer(
            out,
            probe@,
            match range_header {
                Some(r) => Some(r@),
                None => None,
            },
            head_only,
            disposition,
            task_id@,
        ),
{
    let mut headers: Vec<Header> = start_headers(probe, disposition, task_id);
    let ghost common = common_headers(probe@, disposition, task_id@);
    let total: u64 = match probe.total_size {
        Some(t) => {
            if !probe.accepts_ranges {
                push_header(&mut headers, "content-length", string_of(&decimal_chars(t)));
                return Ok(ServePlan { status: 200, headers, body: whole_body(head_only) });
            }
            t
        },
        None => {
            assert(common + Seq::<HeaderView>::empty() =~= common);
            return Ok(ServePlan { status: 200, headers, body: whole_body(head_only) });
        },
    };
    let mut open_ended: bool = true;
    let mut start: u64 = 0;
    let mut end: u64 = total.saturating_sub(1);
    if let Some(r) = range_header {
        match parse_range_header(r, Some(total)) {
            Err(e) => {
                return Err(e);
            },
            Ok((s, e)) => {
                assert(total > 0);
                open_ended = e.is_none();
                end = match e {
                    Some(e) => e.min(total - 1),
                    None => total - 1,
                };
                start = s;
                if s > end {
                    return Err(ProxyError::InvalidRange(r.to_owned()));
                }
            },
        }
    }
    push_header(&mut headers, "content-length", string_of(&decimal_chars(end - start + 1)));
    let mut status: u16 = 200;
    if range_header.is_some() {
        push_header(&mut headers, "content-range", range_text(start, end, total));
        status = 206;
    }
    proof {
        let l = seq![length_header(end - start + 1)];
        assert(common + l + Seq::<HeaderView>::empty() =~= common + l);
    }
    if head_only {
        Ok(ServePlan { status, headers, body: ServeBody::Empty })
    } else {
        Ok(ServePlan { status, headers, body: ServeBody::Range { start, end, open_ended } })
    }
}

fn whole_body(head_only: bool) -> (out: ServeBody)
    ensures
        out == if head_only {
            ServeBody::Empty
        } else {
            ServeBody::Passthrough
        },
{
    if head_only {
        ServeBody::Empty
    } else {
        ServeBody::Passthrough
    }
}

/// Which part of how much, as a header says it.
pub open spec fn content_range(start: int, end: int, total: int) -> Seq<char> {
    "bytes "@ + decimal(start as nat) + (seq!['-'] + decimal(end as nat) + (seq!['/'] + decimal(
        total as nat,
    )))
}

fn range_text(start: u64, end: u64, total: u64) -> (out: String)
    ensures
        out@ == content_range(start as int, end as int, total as int),
{
    let mut t: Vec<char> = chars_of("bytes ");
    append_chars(&mut t, &decimal_chars(start));
    t.push('-');
    append_chars(&mut t, &decimal_chars(end));
    t.push('/');
    append_chars(&mut t, &decimal_chars(total));
    assert(t@ =~= content_range(start as int, end as int, total as int));
    string_of(&t)
}

/// What is served lies in the file, and the length that is announced is that of
/// the bytes that are sent.
pub proof fn law_a_served_range_lies_in_the_file(range: Option<Seq<char>>, total: u64)
    requires
        total > 0,
        served_range(range, total) is Ok,
    ensures
        ({
            let (s, e, _) = served_range(range, total)->Ok_0;
            0 <= s <= e < total
        }),
{
    if let Some(r) = range {
        crate::engine::lemma_range_asked(r, Some(total));
    }
}

/// Without a range the whole file is served.
pub proof fn law_without_a_range_the_whole_file_is_served(total: u64)
    requires
        total > 0,
    ensures
        served_range(None, total) == Ok::<(int, int, bool), Seq<char>>((0, total - 1, true)),
{
}

/// What becomes of a stream request before its origin is asked.
pub enum StreamGate {
    /// The task is paused, and the client is told so.
    Paused { status: u16, message: String },
    Open,
}

/// Lets a stream request in unless the task is paused.
pub fn stream_gate(entry: &TaskEntry, task_id: &str) -> (out: StreamGate)
    ensures
        match out {
            StreamGate::Paused { status, message } => entry.paused && status == 503 && message@
                == "task "@ + task_id@ + " is paused"@,
            StreamGate::Open => !entry.paused,
        },
{
    if entry.paused {
        StreamGate::Paused { status: 503, message: join3("task ", task_id, " is paused") }
    } else {
        StreamGate::Open
    }
}

/// Where the bytes of a stream come from.
#[derive(Debug, Clone, Copy, PartialEq, Eq, Structural)]
pub enum Substrate {
    /// Nothing is sent.
    Nothing,
    /// The task's coordinator, which is made where there is none.
    Shared,
    /// A file for this content: a cache that stays, or scratch.
    Staging,
}

/// The substrate of a stream: the coordinator serves a task that is cached or
/// that has one already.
pub fn substrate(head_only: bool, cache: bool, has_job: bool) -> (out: Substrate)
    ensures
        out == if head_only {
            Substrate::Nothing
        } else if cache || has_job {
            Substrate::Shared
        } else {
            Substrate::Staging
        },
{
    if head_only {
        Substrate::Nothing
    } else if cache || has_job {
        Substrate::Shared
    } else {
        Substrate::Staging
    }
}

/// The task's probe can be used again: there is one, and it is not too old.
pub fn probe_is_fresh(entry: &TaskEntry, now: u64) -> (out: bool)
    ensures
        out == (entry.probe_cache matches Some(p) && now - p.1 < PROBE_CACHE_TTL),
        entry.probe_cache is None ==> !out,
        entry.probe_cache is Some && now - (entry.probe_cache->Some_0).1 < 300_000_000_000 ==> out,
        entry.probe_cache is Some && now - (entry.probe_cache->Some_0).1 >= 300_000_000_000 ==> !out,
{
    match &entry.probe_cache {
        Some(p) => now < p.1 || now - p.1 < PROBE_CACHE_TTL,
        None => false,
    }
}

/// The size that a file can be staged at: known, not nothing, and of an origin
/// that serves ranges.
pub fn staging_size(probe: &UpstreamProbe) -> (out: Option<u64>)
    ensures
        out == match probe@.total_size {
            Some(n) if n > 0 && probe@.accepts_ranges => Some(n),
            _ => None,
        },
{
    match probe.total_size {
        Some(n) => if n > 0 && probe.accepts_ranges {
            Some(n)
        } else {
            None
        },
        None => None,
    }
}

/// Why a file cannot be cached, if it cannot.
pub open spec fn cache_fault(probe: ProbeView) -> Option<Seq<char>> {
    match probe.probe_error {
        Some(reason) => Some("cannot reach the upstream: "@ + reason),
        None => if !probe.accepts_ranges {
            Some("upstream does not support byte ranges; full caching needs ranges"@)
        } else if probe.total_size is None || probe.total_size == Some(0u64) {
            Some("upstream did not report a cacheable size"@)
        } else {
            None
        },
    }
}

/// The size that a file can be cached at, or why it cannot be.
pub fn cacheable_size(probe: &UpstreamProbe) -> (out: Result<u64, ProxyError>)
    ensures
        match out {
            Ok(n) => cache_fault(probe@) is None && probe@.total_size == Some(n) && n > 0,
            Err(ProxyError::Internal(e)) => cache_fault(probe@) == Some(e@),
            Err(_) => false,
        },
{
    if let Some(reason) = &probe.probe_error {
        return Err(ProxyError::Internal(join2("cannot reach the upstream: ", reason.as_str())));
    }
    if !probe.accepts_ranges {
        return Err(
            ProxyError::Internal(
                "upstream does not support byte ranges; full caching needs ranges".to_owned(),
            ),
        );
    }
    match probe.total_size {
        Some(n) => if n > 0 {
            return Ok(n);
        },
        None => {},
    }
    Err(ProxyError::Internal("upstream did not report a cacheable size".to_owned()))
}

/// What a cache entry for this file says of it. The URLs are noted in order, each
/// once.
pub fn cache_meta(cfg: &TaskConfig, probe: &UpstreamProbe, total: u64) -> (out: CacheMeta)
    ensures
        opt_view(out.etag) == probe@.etag,
        opt_view(out.last_modified) == probe@.last_modified,
        out.total_size == total,
        opt_view(out.content_type) == probe@.content_type,
        out.block_size == BLOCK_SIZE,
        out.block_size == 1_048_576,
        utf8_views(out.urls@) == in_order(
            crate::cache::encoded(
                crate::models::first_seen(crate::models::all_urls(cfg@.volumes)),
            ),
        ),
{
    let urls: Vec<String> = cfg.urls();
    proof {
        assert(crate::cache::encoded(views(urls@)) =~= utf8_views(urls@));
    }
    CacheMeta {
        etag: clone_opt(&probe.etag),
        last_modified: clone_opt(&probe.last_modified),
        total_size: total,
        content_type: clone_opt(&probe.content_type),
        block_size: BLOCK_SIZE,
        urls: sorted_texts(&urls),
    }
}

} // verus!
