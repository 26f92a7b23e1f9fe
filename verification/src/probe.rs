//! What origins say of a file before any of it is fetched.

use crate::cache::url_lines;
use crate::codec::{hex_encode, hex_of, sha256, sha256_of};
use crate::engine::VolumeMeta;
use crate::error::ProxyError;
use crate::names::{
    behind_last, extract_filename, filename_from_url, header_filename, merge_volume_filenames,
    merged_filename, opt_views, url_filename,
};

use crate::order::utf8_views;
use crate::text::{
    chars_of, clone_opt, clone_strings, decimal, decimal_text, join2, join3, lower_chars, lowered,
    number, opt_view, parse_number, rfind_char, same_chars, slice_of, trim_chars, trimmed, views,
};
use vstd::prelude::*;
use vstd::string::*;
use vstd::utf8::*;

verus! {

/// The head of an answer: the status and the headers that matter. A header whose
/// value is no visible ASCII text counts as absent, but for Content-Disposition,
/// which is kept as it came.
#[derive(Debug, Clone)]
pub struct ResponseHead {
    pub status: u16,
    pub accept_ranges: Option<String>,
    pub content_length: Option<String>,
    pub content_range: Option<String>,
    pub content_type: Option<String>,
    pub etag: Option<String>,
    pub last_modified: Option<String>,
    pub content_disposition: Option<Vec<u8>>,
}

#[derive(Debug, Clone)]
pub struct UpstreamProbe {
    pub total_size: Option<u64>,
    pub accepts_ranges: bool,
    pub content_type: Option<String>,
    pub etag: Option<String>,
    pub last_modified: Option<String>,
    pub filename: Option<String>,
    /// The layout, once it is known.
    pub volumes: Option<Vec<VolumeMeta>>,
    /// Why the origin could not be reached, when it could not.
    pub probe_error: Option<String>,
}

/// What a probe says, but for the layout.
pub struct ProbeView {
    pub total_size: Option<u64>,
    pub accepts_ranges: bool,
    pub content_type: Option<Seq<char>>,
    pub etag: Option<Seq<char>>,
    pub last_modified: Option<Seq<char>>,
    pub filename: Option<Seq<char>>,
    pub probe_error: Option<Seq<char>>,
}

impl View for UpstreamProbe {
    type V = ProbeView;

    open spec fn view(&self) -> ProbeView {
        ProbeView {
            total_size: self.total_size,
            accepts_ranges: self.accepts_ranges,
            content_type: opt_view(self.content_type),
            etag: opt_view(self.etag),
            last_modified: opt_view(self.last_modified),
            filename: opt_view(self.filename),
            probe_error: opt_view(self.probe_error),
        }
    }
}

/// The number that an optional header spells.
pub open spec fn header_number(s: Option<Seq<char>>) -> Option<u64> {
    match s {
        Some(t) => match number(t, u64::MAX as int) {
            Some(n) => Some(n as u64),
            None => None,
        },
        None => None,
    }
}

fn read_number(s: &Option<String>) -> (out: Option<u64>)
    ensures
        out == header_number(opt_view(*s)),
{
    match s {
        Some(t) => parse_number(&chars_of(t.as_str()), u64::MAX),
        None => None,
    }
}

/// The total that a Content-Range gives: the number behind its last slash.
pub open spec fn range_total(s: Option<Seq<char>>) -> Option<u64> {
    match s {
        Some(t) => header_number(Some(trimmed(behind_last(t, '/')))),
        None => None,
    }
}

fn read_range_total(s: &Option<String>) -> (out: Option<u64>)
    ensures
        out == range_total(opt_view(*s)),
{
    match s {
        Some(t) => {
            let chars: Vec<char> = chars_of(t.as_str());
            let n: usize = chars.len();
            let from: usize = match rfind_char(&chars, '/') {
                Some(i) => i + 1,
                None => 0,
            };
            let tail: Vec<char> = slice_of(&chars, from, n);
            assert(tail@ =~= behind_last(t@, '/'));
            parse_number(&trim_chars(&tail), u64::MAX)
        },
        None => None,
    }
}

/// The header says that ranges are served.
pub open spec fn says_bytes(s: Option<Seq<char>>) -> bool {
    match s {
        Some(t) => lowered(t) == "bytes"@,
        None => false,
    }
}

fn read_says_bytes(s: &Option<String>) -> (out: bool)
    ensures
        out == says_bytes(opt_view(*s)),
{
    match s {
        Some(t) => {
            let low: Vec<char> = lower_chars(&chars_of(t.as_str()));
            let word: Vec<char> = chars_of("bytes");
            same_chars(&low, &word)
        },
        None => false,
    }
}

/// The name in an optional Content-Disposition.
pub open spec fn head_filename(h: ResponseHead) -> Option<Seq<char>> {
    match h.content_disposition {
        Some(raw) => header_filename(raw@),
        None => None,
    }
}

fn read_filename(h: &ResponseHead) -> (out: Option<String>)
    ensures
        opt_view(out) == head_filename(*h),
{
    match &h.content_disposition {
        Some(raw) => extract_filename(raw),
        None => None,
    }
}

/// The first of two that is there.
pub open spec fn either<T>(a: Option<T>, b: Option<T>) -> Option<T> {
    if a is Some {
        a
    } else {
        b
    }
}

/// What two answers say of a URL: that to HEAD, where it was successful, and that
/// to a request for the first byte, where one came. HEAD comes first, but the total
/// of a Content-Range is believed over a Content-Length, and only a 206 proves that
/// ranges are served. Without either answer the URL cannot be used.
pub open spec fn probed(
    url: Seq<char>,
    head: Option<ResponseHead>,
    ranged: Option<ResponseHead>,
) -> Option<ProbeView> {
    let h_total = match head {
        Some(h) => header_number(opt_view(h.content_length)),
        None => None,
    };
    let total = match ranged {
        Some(r) => {
            let t = either(range_total(opt_view(r.content_range)), h_total);
            if t is None && r.status == 200 {
                header_number(opt_view(r.content_length))
            } else {
                t
            }
        },
        None => h_total,
    };
    if head is None && ranged is None {
        None
    } else {
        let h = head->0;
        let r = ranged->0;
        Some(
            ProbeView {
                total_size: total,
                accepts_ranges: (head is Some && says_bytes(opt_view(h.accept_ranges))) || (
                ranged is Some && r.status == 206),
                content_type: either(
                    if head is Some {
                        opt_view(h.content_type)
                    } else {
                        None
                    },
                    if ranged is Some {
                        opt_view(r.content_type)
                    } else {
                        None
                    },
                ),
                etag: either(
                    if head is Some {
                        opt_view(h.etag)
                    } else {
                        None
                    },
                    if ranged is Some {
                        opt_view(r.etag)
                    } else {
                        None
                    },
                ),
                last_modified: either(
                    if head is Some {
                        opt_view(h.last_modified)
                    } else {
                        None
                    },
                    if ranged is Some {
                        opt_view(r.last_modified)
                    } else {
                        None
                    },
                ),
                filename: either(
                    either(
                        if head is Some {
                            head_filename(h)
                        } else {
                            None
                        },
                        if ranged is Some {
                            head_filename(r)
                        } else {
                            None
                        },
                    ),
                    url_filename(url),
                ),
                probe_error: None,
            },
        )
    }
}

pub open spec fn opt_head(h: Option<&ResponseHead>) -> Option<ResponseHead> {
    match h {
        Some(r) => Some(*r),
        None => None,
    }
}

/// Merges the two answers of one URL.
pub fn probe_one(url: &str, head: Option<&ResponseHead>, ranged: Option<&ResponseHead>) -> (out:
    Result<UpstreamProbe, ProxyError>)
    ensures
        match (out, probed(url@, opt_head(head), opt_head(ranged))) {
            (Ok(p), Some(v)) => p@ == v && p.volumes is None,
            (Err(e), None) => e == ProxyError::NoUpstream,
            _ => false,
        },
{
    let mut total_size: Option<u64> = None;
    let mut content_type: Option<String> = None;
    let mut etag: Option<String> = None;
    let mut last_modified: Option<String> = None;
    let mut filename: Option<String> = None;
    let mut accepts_ranges: bool = false;
    if let Some(h) = head {
        accepts_ranges = read_says_bytes(&h.accept_ranges);
        total_size = read_number(&h.content_length);
        content_type = clone_opt(&h.content_type);
        etag = clone_opt(&h.etag);
        last_modified = clone_opt(&h.last_modified);
        filename = read_filename(h);
    }
    if let Some(r) = ranged {
        if r.status == 206 {
            accepts_ranges = true;
        }
        if let Some(t) = read_range_total(&r.content_range) {
            total_size = Some(t);
        }
        if content_type.is_none() {
            content_type = clone_opt(&r.content_type);
        }
        if etag.is_none() {
            etag = clone_opt(&r.etag);
        }
        if last_modified.is_none() {
            last_modified = clone_opt(&r.last_modified);
        }
        if filename.is_none() {
            filename = read_filename(r);
        }
        if total_size.is_none() && r.status == 200 {
            total_size = read_number(&r.content_length);
        }
    }
    if head.is_none() && ranged.is_none() {
        return Err(ProxyError::NoUpstream);
    }
    if filename.is_none() {
        filename = filename_from_url(url);
    }
    Ok(
        UpstreamProbe {
            total_size,
            accepts_ranges,
            content_type,
            etag,
            last_modified,
            filename,
            volumes: None,
            probe_error: None,
        },
    )
}

// ---------------------------------------------------------------------------
// The layout

/// The first eight bytes of the digest of the parts, a newline behind each, in
/// hexadecimal.
pub open spec fn digest_text(parts: Seq<Seq<char>>) -> Seq<char> {
    hex_of(sha256_of(url_lines(parts.map_values(|s: Seq<char>| encode_utf8(s)))).take(8))
}

/// Short digest used to fold a list of per-volume identity strings into one.
pub fn short_digest(parts: &Vec<String>) -> (out: String)
    ensures
        out@ == digest_text(views(parts@)),
{
    let ghost lines = utf8_views(parts@);
    let mut data: Vec<u8> = Vec::new();
    let mut i: usize = 0;
    assert(data@ =~= url_lines(lines.take(0)));
    while i < parts.len()
        invariant
            i <= parts@.len(),
            lines == utf8_views(parts@),
            data@ == url_lines(lines.take(i as int)),
        decreases parts.len() - i,
    {
        let ghost before = data@;
        let bytes: Vec<u8> = crate::cache::copy_bytes(parts[i].as_str().as_bytes());
        let mut more: Vec<u8> = bytes;
        data.append(&mut more);
        data.push(10);
        proof {
            assert(lines.take(i + 1).drop_last() =~= lines.take(i as int));
            assert(lines.take(i + 1).last() == encode_utf8(parts@[i as int]@));
            assert(data@ =~= url_lines(lines.take(i + 1)));
        }
        i = i + 1;
    }
    assert(lines.take(lines.len() as int) =~= lines);
    assert(lines =~= views(parts@).map_values(|s: Seq<char>| encode_utf8(s)));
    let digest: Vec<u8> = sha256(&data);
    let mut head: Vec<u8> = Vec::new();
    let mut k: usize = 0;
    while k < 8
        invariant
            k <= 8,
            digest@.len() == 32,
            head@ == digest@.take(k as int),
        decreases 8 - k,
    {
        head.push(digest[k]);
        proof {
            assert(digest@.take(k as int).push(digest@[k as int]) =~= digest@.take(k + 1));
        }
        k = k + 1;
    }
    hex_encode(&head)
}

/// Why a mirror that answered cannot be used: volumes can only be stitched from
/// ranges, and only with known sizes.
pub open spec fn rejection(multi_volume: bool, p: ProbeView) -> Option<Seq<char>> {
    if multi_volume && !p.accepts_ranges {
        Some("no Range support; skipping for multi-volume task"@)
    } else if multi_volume && p.total_size is None {
        Some("no Content-Length; can't stitch volumes without known sizes"@)
    } else {
        None
    }
}

pub fn reject_mirror(multi_volume: bool, p: &UpstreamProbe) -> (out: Option<&'static str>)
    ensures
        match (out, rejection(multi_volume, p@)) {
            (Some(m), Some(n)) => m@ == n,
            (None, None) => true,
            _ => false,
        },
{
    if multi_volume {
        if !p.accepts_ranges {
            return Some("no Range support; skipping for multi-volume task");
        }
        if p.total_size.is_none() {
            return Some("no Content-Length; can't stitch volumes without known sizes");
        }
    }
    None
}

/// A volume for which a mirror has been settled on.
#[derive(Debug, Clone)]
pub struct ProbedVolume {
    pub url: String,
    pub probe: UpstreamProbe,
}

/// Sum of the known sizes of the first `n` volumes; an unknown size counts as 0.
pub open spec fn sizes_before(chosen: Seq<ProbedVolume>, n: int) -> int
    decreases n,
{
    if n <= 0 {
        0
    } else {
        sizes_before(chosen, n - 1) + size_of_volume(chosen[n - 1])
    }
}

pub open spec fn size_of_volume(v: ProbedVolume) -> int {
    match v.probe.total_size {
        Some(s) => s as int,
        None => 0,
    }
}

/// What tells one version of a volume from another: its ETag, or the date where it
/// has none. Where it has neither, nothing does.
pub open spec fn identity(p: ProbeView) -> Seq<char> {
    if p.etag is Some && p.etag->0.len() > 0 {
        p.etag->0
    } else if p.last_modified is Some {
        p.last_modified->0
    } else {
        seq![]
    }
}

/// The identities of the volumes.
pub open spec fn identities(chosen: Seq<ProbedVolume>) -> Seq<Seq<char>> {
    chosen.map_values(|v: ProbedVolume| identity(v.probe@))
}

/// The layout of the volumes: each with its mirrors, behind the one before it.
pub open spec fn is_layout(
    volumes: Seq<VolumeMeta>,
    layout: Seq<Vec<String>>,
    chosen: Seq<ProbedVolume>,
) -> bool {
    &&& volumes.len() == layout.len()
    &&& forall|i: int|
        0 <= i < volumes.len() ==> {
            &&& views((#[trigger] volumes[i]).urls@) == views(layout[i]@)
            &&& volumes[i].offset == sizes_before(chosen, i)
            &&& volumes[i].size == size_of_volume(chosen[i])
        }
}

/// `p` describes the file stitched out of the volumes. A single volume keeps its
/// identity headers; several fold theirs into one ETag, so that a change in any of
/// them shows. The date that clients are told is that of the first volume.
pub open spec fn is_stitched(
    p: UpstreamProbe,
    layout: Seq<Vec<String>>,
    chosen: Seq<ProbedVolume>,
) -> bool {
    let n = chosen.len() as int;
    let first = chosen[0].probe@;
    let multi = n > 1;
    let parts = identities(chosen);
    &&& p.volumes is Some
    &&& is_layout(p.volumes->0@, layout, chosen)
    &&& p.total_size == if forall|i: int|
        0 <= i < n ==> (#[trigger] chosen[i]).probe.total_size is Some {
        Some(sizes_before(chosen, n) as u64)
    } else {
        None
    }
    &&& p.accepts_ranges == forall|i: int|
        0 <= i < n ==> (#[trigger] chosen[i]).probe.accepts_ranges
    &&& opt_view(p.content_type) == first.content_type
    &&& opt_view(p.probe_error) == if multi {
        None
    } else {
        first.probe_error
    }
    &&& multi ==> match p.etag {
        Some(e) => (exists|i: int| 0 <= i < n && (#[trigger] parts[i]).len() > 0) && e@
            == "\"vols-"@ + digest_text(parts) + "\""@,
        None => forall|i: int| 0 <= i < n ==> (#[trigger] parts[i]).len() == 0,
    }
    &&& !multi ==> opt_view(p.etag) == first.etag
    &&& opt_view(p.last_modified) == if multi && first.last_modified is Some
        && first.last_modified->0.len() == 0 {
        None
    } else {
        first.last_modified
    }
    &&& opt_view(p.filename) == if multi {
        either(
            merged_filename(
                Seq::new(chosen.len(), |i: int| opt_view(chosen[i].probe.filename)),
                Seq::new(chosen.len(), |i: int| chosen[i].url@),
            ),
            first.filename,
        )
    } else {
        first.filename
    }
}

fn identity_of(p: &UpstreamProbe) -> (out: String)
    ensures
        out@ == identity(p@),
{
    if let Some(e) = &p.etag {
        if !e.as_str().is_empty() {
            return e.clone();
        }
    }
    match &p.last_modified {
        Some(d) => d.clone(),
        None => {
            let none: String = String::new();
            assert(none@ =~= seq![]);
            none
        },
    }
}

/// Stitches the probes of all volumes into one.
pub fn stitch(layout: &Vec<Vec<String>>, chosen: &Vec<ProbedVolume>) -> (out: Result<
    UpstreamProbe,
    ProxyError,
>)
    requires
        layout@.len() == chosen@.len(),
        chosen@.len() > 0,
    ensures
        match out {
            Ok(p) => sizes_before(chosen@, chosen@.len() as int) <= u64::MAX && is_stitched(
                p,
                layout@,
                chosen@,
            ),
            Err(e) => sizes_before(chosen@, chosen@.len() as int) > u64::MAX && e is Internal
                && e->Internal_0@ == "volume sizes overflow u64"@,
        },
{
    let n: usize = chosen.len();
    let multi: bool = n > 1;
    let mut volumes: Vec<VolumeMeta> = Vec::new();
    let mut tags: Vec<String> = Vec::new();
    let mut names: Vec<Option<String>> = Vec::new();
    let mut urls: Vec<String> = Vec::new();
    let mut accepts_ranges: bool = true;
    let mut size_known: bool = true;
    let mut any_tag: bool = false;
    let mut total: u64 = 0;
    let ghost parts = identities(chosen@);
    let mut i: usize = 0;
    while i < n
        invariant
            i <= n,
            n == chosen@.len(),
            n == layout@.len(),
            parts == identities(chosen@),
            total == sizes_before(chosen@, i as int),
            volumes@.len() == i,
            tags@.len() == i,
            names@.len() == i,
            urls@.len() == i,
            forall|k: int|
                0 <= k < i ==> {
                    &&& views((#[trigger] volumes@[k]).urls@) == views(layout@[k]@)
                    &&& volumes@[k].offset == sizes_before(chosen@, k)
                    &&& volumes@[k].size == size_of_volume(chosen@[k])
                },
            forall|k: int| 0 <= k < i ==> (#[trigger] tags@[k])@ == parts[k],
            forall|k: int|
                0 <= k < i ==> opt_view(#[trigger] names@[k]) == opt_view(chosen@[k].probe.filename),
            forall|k: int| 0 <= k < i ==> (#[trigger] urls@[k])@ == chosen@[k].url@,
            accepts_ranges == forall|k: int|
                0 <= k < i ==> (#[trigger] chosen@[k]).probe.accepts_ranges,
            size_known == forall|k: int|
                0 <= k < i ==> (#[trigger] chosen@[k]).probe.total_size is Some,
            any_tag == exists|k: int| 0 <= k < i && (#[trigger] parts[k]).len() > 0,
        decreases n - i,
    {
        let v: &ProbedVolume = &chosen[i];
        let size: u64 = match v.probe.total_size {
            Some(s) => s,
            None => {
                assert(chosen@[i as int].probe.total_size is None);
                size_known = false;
                0
            },
        };
        if !v.probe.accepts_ranges {
            assert(!chosen@[i as int].probe.accepts_ranges);
            accepts_ranges = false;
        }
        let tag: String = identity_of(&v.probe);
        assert(tag@ == parts[i as int]);
        if !tag.as_str().is_empty() {
            assert(parts[i as int].len() > 0);
            any_tag = true;
        }
        tags.push(tag);
        names.push(clone_opt(&v.probe.filename));
        urls.push(v.url.clone());
        volumes.push(VolumeMeta { urls: clone_strings(&layout[i]), offset: total, size });
        if size > u64::MAX - total {
            proof {
                lemma_sizes_grow(chosen@, i + 1, n as int);
            }
            return Err(ProxyError::Internal("volume sizes overflow u64".to_owned()));
        }
        total = total + size;
        i = i + 1;
    }
    proof {
        assert(views(tags@) =~= parts);
        assert(opt_views(names@) =~= Seq::new(
            chosen@.len(),
            |i: int| opt_view(chosen@[i].probe.filename),
        ));
        assert(views(urls@) =~= Seq::new(chosen@.len(), |i: int| chosen@[i].url@));
    }
    let first: &UpstreamProbe = &chosen[0].probe;
    let etag: Option<String> = if multi {
        if any_tag {
            Some(join3("\"vols-", short_digest(&tags).as_str(), "\""))
        } else {
            None
        }
    } else {
        clone_opt(&first.etag)
    };
    let last_modified: Option<String> = match &first.last_modified {
        Some(lm) => if multi && lm.as_str().is_empty() {
            None
        } else {
            Some(lm.clone())
        },
        None => None,
    };
    let filename: Option<String> = if multi {
        match merge_volume_filenames(&names, &urls) {
            Some(name) => Some(name),
            None => clone_opt(&first.filename),
        }
    } else {
        clone_opt(&first.filename)
    };
    Ok(
        UpstreamProbe {
            total_size: if size_known {
                Some(total)
            } else {
                None
            },
            accepts_ranges,
            content_type: clone_opt(&first.content_type),
            etag,
            last_modified,
            filename,
            volumes: Some(volumes),
            probe_error: if multi {
                None
            } else {
                clone_opt(&first.probe_error)
            },
        },
    )
}

proof fn lemma_sizes_grow(chosen: Seq<ProbedVolume>, m: int, n: int)
    requires
        0 <= m <= n,
    ensures
        sizes_before(chosen, m) <= sizes_before(chosen, n),
    decreases n - m,
{
    if m < n {
        lemma_sizes_grow(chosen, m, n - 1);
    }
}

/// Probing a layout: volume after volume, and the mirrors of each in the order in
/// which they are listed, until one of them can be used.
#[derive(Debug)]
pub struct LayoutProbe {
    pub layout: Vec<Vec<String>>,
    /// How many mirrors of the current volume have been tried.
    pub off: usize,
    /// What was last wrong with a mirror of the current volume.
    pub last_error: Option<ProxyError>,
    /// The volumes that have been settled.
    pub chosen: Vec<ProbedVolume>,
}

/// What the last mirror of a volume came to, as it is shown.
pub open spec fn shown_cause(e: Option<ProxyError>) -> Seq<char> {
    match e {
        Some(e) => e.shown(),
        None => ProxyError::NoUpstream.shown(),
    }
}

impl LayoutProbe {
    pub open spec fn wf(self) -> bool {
        self.chosen@.len() <= self.layout@.len()
    }

    pub open spec fn settled(self) -> bool {
        self.chosen@.len() == self.layout@.len()
    }

    /// The mirrors of the volume that is being probed.
    pub open spec fn mirrors(self) -> Seq<String> {
        self.layout@[self.chosen@.len() as int]@
    }

    pub fn new(layout: Vec<Vec<String>>) -> (out: Self)
        ensures
            out.wf(),
            out.layout == layout,
            out.off == 0,
            out.last_error is None,
            out.chosen@.len() == 0,
    {
        LayoutProbe { layout, off: 0, last_error: None, chosen: Vec::new() }
    }

    /// The mirror to ask next, the first that has not been tried, or `None` once every volume is settled. When all
    /// mirrors of a volume are used up, several volumes cannot be stitched: that is
    /// an error. A single file is settled on its first mirror, without size or
    /// ranges, so that it can still be passed through.
    pub fn next(&mut self) -> (out: Result<Option<String>, ProxyError>)
        requires
            old(self).wf(),
        ensures
            final(self).wf(),
            final(self).layout == old(self).layout,
            ({
                let was = *old(self);
                let n = was.mirrors().len();
                if was.settled() {
                    out is Ok && out->Ok_0 is None && *final(self) == was
                } else if was.off < n {
                    out is Ok && out->Ok_0 is Some && out->Ok_0->0@ == was.mirrors()[was.off as int]@
                        && *final(self) == was
                } else if was.layout@.len() > 1 {
                    out is Err && out->Err_0 is Internal && out->Err_0->Internal_0@ == "volume "@
                        + decimal((was.chosen@.len() + 1) as nat)
                        + " probe failed across all "@ + decimal(n) + " mirror(s): "@
                        + shown_cause(was.last_error)
                } else {
                    &&& out is Ok && out->Ok_0 is None
                    &&& final(self).settled()
                    &&& final(self).chosen@.len() == 1
                    &&& final(self).chosen@[0].url@ == if n > 0 {
                        was.mirrors()[0]@
                    } else {
                        seq![]
                    }
                    &&& final(self).chosen@[0].probe@ == (ProbeView {
                        total_size: None,
                        accepts_ranges: false,
                        content_type: None,
                        etag: None,
                        last_modified: None,
                        filename: None,
                        probe_error: Some(shown_cause(was.last_error)),
                    })
                    &&& final(self).chosen@[0].probe.volumes is None
                }
            }),
    {
        let vi: usize = self.chosen.len();
        if vi == self.layout.len() {
            return Ok(None);
        }
        let n: usize = self.layout[vi].len();
        if self.off < n {
            return Ok(Some(self.layout[vi][self.off].clone()));
        }
        let cause: String = match &self.last_error {
            Some(e) => e.message(),
            None => ProxyError::NoUpstream.message(),
        };
        if self.layout.len() > 1 {
            let a: String = join3(
                "volume ",
                decimal_text((vi + 1) as u64).as_str(),
                " probe failed across all ",
            );
            let b: String = join3(
                a.as_str(),
                decimal_text(n as u64).as_str(),
                " mirror(s): ",
            );
            return Err(ProxyError::Internal(join2(b.as_str(), cause.as_str())));
        }
        let url: String = if n > 0 {
            self.layout[vi][0].clone()
        } else {
            String::new()
        };
        self.chosen.push(
            ProbedVolume {
                url,
                probe: UpstreamProbe {
                    total_size: None,
                    accepts_ranges: false,
                    content_type: None,
                    etag: None,
                    last_modified: None,
                    filename: None,
                    volumes: None,
                    probe_error: Some(cause),
                },
            },
        );
        self.off = 0;
        self.last_error = None;
        Ok(None)
    }

    /// What came of asking the mirror whose turn it is. Gives what is to be put on
    /// record against it, if it cannot be used.
    pub fn note(&mut self, outcome: Result<UpstreamProbe, ProxyError>) -> (out: Option<String>)
        requires
            old(self).wf(),
            !old(self).settled(),
            old(self).off < old(self).mirrors().len(),
        ensures
            final(self).wf(),
            final(self).layout == old(self).layout,
            ({
                let was = *old(self);
                let url = was.mirrors()[was.off as int]@;
                match outcome {
                    Ok(p) => match rejection(was.layout@.len() > 1, p@) {
                        None => {
                            &&& out is None
                            &&& final(self).chosen@ == was.chosen@.push(
                                ProbedVolume { url: final(self).chosen@.last().url, probe: p },
                            )
                            &&& final(self).chosen@.last().url@ == url
                            &&& final(self).off == 0
                            &&& final(self).last_error is None
                        },
                        Some(reason) => {
                            &&& opt_view(out) == Some(reason)
                            &&& final(self).chosen@ == was.chosen@
                            &&& final(self).off == was.off + 1
                            &&& final(self).last_error is Some
                            &&& final(self).last_error->0 is Internal
                            &&& final(self).last_error->0->Internal_0@ == reason + " ("@ + url
                                + ")"@
                        },
                    },
                    Err(e) => {
                        &&& opt_view(out) == Some(e.shown())
                        &&& final(self).chosen@ == was.chosen@
                        &&& final(self).off == was.off + 1
                        &&& final(self).last_error == Some(e)
                    },
                }
            }),
    {
        let vi: usize = self.chosen.len();
        assert(self.off < self.layout@[vi as int].len());
        let url: String = self.layout[vi][self.off].clone();
        match outcome {
            Ok(p) => match reject_mirror(self.layout.len() > 1, &p) {
                None => {
                    self.chosen.push(ProbedVolume { url, probe: p });
                    self.off = 0;
                    self.last_error = None;
                    None
                },
                Some(reason) => {
                    let text: String = join3(reason, " (", url.as_str());
                    self.last_error = Some(ProxyError::Internal(join2(text.as_str(), ")")));
                    self.off = self.off + 1;
                    Some(reason.to_owned())
                },
            },
            Err(e) => {
                let shown: String = e.message();
                self.last_error = Some(e);
                self.off = self.off + 1;
                Some(shown)
            },
        }
    }

    /// The file stitched out of the volumes.
    pub fn finish(&self) -> (out: Result<UpstreamProbe, ProxyError>)
        requires
            self.settled(),
            self.layout@.len() > 0,
        ensures
            match out {
                Ok(p) => sizes_before(self.chosen@, self.chosen@.len() as int) <= u64::MAX
                    && is_stitched(p, self.layout@, self.chosen@),
                Err(e) => sizes_before(self.chosen@, self.chosen@.len() as int) > u64::MAX
                    && e is Internal && e->Internal_0@ == "volume sizes overflow u64"@,
            },
    {
        stitch(&self.layout, &self.chosen)
    }
}

/// The layout of a stitched file can be planned over: each volume begins where
/// those before it end.
pub proof fn law_a_stitched_layout_is_seamless(
    p: UpstreamProbe,
    layout: Seq<Vec<String>>,
    chosen: Seq<ProbedVolume>,
)
    requires
        chosen.len() == layout.len(),
        chosen.len() > 0,
        sizes_before(chosen, chosen.len() as int) <= u64::MAX,
        is_stitched(p, layout, chosen),
    ensures
        crate::engine::stitched(p.volumes->0@),
        crate::engine::volumes_fit(p.volumes->0@),
        crate::engine::prefix_end(p.volumes->0@, chosen.len() as int) == sizes_before(
            chosen,
            chosen.len() as int,
        ),
{
    let v = p.volumes->0@;
    assert forall|i: int| 0 <= i < v.len() implies (#[trigger] v[i]).offset
        == crate::engine::prefix_end(v, i) by {
        lemma_prefix_is_sizes(v, layout, chosen, i);
    }
    assert forall|i: int| 0 <= i < v.len() implies (#[trigger] v[i]).offset + v[i].size
        <= u64::MAX by {
        lemma_sizes_grow(chosen, i + 1, chosen.len() as int);
    }
    lemma_prefix_is_sizes(v, layout, chosen, chosen.len() as int);
}

/// Two versions of a file of several volumes have one ETag only where the digests
/// over the identities of all their volumes are one, and no ETag only where no
/// volume has an identity.
pub proof fn law_every_volume_counts_in_the_identity(
    p: UpstreamProbe,
    q: UpstreamProbe,
    layout: Seq<Vec<String>>,
    chosen: Seq<ProbedVolume>,
    later: Seq<ProbedVolume>,
)
    requires
        chosen.len() > 1,
        later.len() == chosen.len(),
        is_stitched(p, layout, chosen),
        is_stitched(q, layout, later),
        opt_view(p.etag) == opt_view(q.etag),
    ensures
        p.etag is Some ==> digest_text(identities(chosen)) == digest_text(identities(later)),
        p.etag is None ==> identities(chosen) == identities(later),
{
    if p.etag is Some {
        let a = digest_text(identities(chosen));
        let b = digest_text(identities(later));
        let head = "\"vols-"@;
        let tail = "\""@;
        assert(p.etag->0@ == q.etag->0@);
        let x = head + a + tail;
        let y = head + b + tail;
        assert(x == y);
        assert(a.len() == b.len());
        assert(x.subrange(head.len() as int, (head.len() + a.len()) as int) =~= a);
        assert(y.subrange(head.len() as int, (head.len() + b.len()) as int) =~= b);
    } else {
        assert forall|i: int| 0 <= i < chosen.len() implies (#[trigger] identities(chosen)[i])
            == identities(later)[i] by {
            assert(identities(chosen)[i].len() == 0);
            assert(identities(later)[i].len() == 0);
            assert(identities(chosen)[i] =~= identities(later)[i]);
        }
        assert(identities(chosen) =~= identities(later));
    }
}

proof fn lemma_prefix_is_sizes(
    v: Seq<VolumeMeta>,
    layout: Seq<Vec<String>>,
    chosen: Seq<ProbedVolume>,
    n: int,
)
    requires
        is_layout(v, layout, chosen),
        chosen.len() == layout.len(),
        0 <= n <= chosen.len(),
    ensures
        crate::engine::prefix_end(v, n) == sizes_before(chosen, n),
    decreases n,
{
    if n > 0 {
        lemma_prefix_is_sizes(v, layout, chosen, n - 1);
        assert(v[n - 1].size == size_of_volume(chosen[n - 1]));
    }
}

} // verus!
