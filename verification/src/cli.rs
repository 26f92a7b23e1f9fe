//! What the command line asks for.

use crate::address::{socket_chars, socket_text, IpAddress, IpView, SocketAddress};
use crate::headers::{put_pair, with_pair};
use crate::models::{
    default_per_volume, parse_size, pair_views, Algorithm, ConfigView, ContentDispositionMode,
    TaskConfig,
};
use crate::num::imin;
use crate::sizes::size_asked;
use crate::text::{
    chars_of, clone_strings, decimal, decimal_chars, find_char, index_from, join2, slice_of,
    string_of, trim_chars, trimmed, views, views2,
};
use vstd::prelude::*;
use vstd::string::*;

verus! {

/// The headers that the first `n` arguments name, or the first that is none.
pub open spec fn headers_of(l: Seq<Seq<char>>, n: int) -> Result<
    Seq<(Seq<char>, Seq<char>)>,
    Seq<char>,
>
    decreases n,
{
    if n <= 0 {
        Ok(Seq::empty())
    } else {
        match (headers_of(l, n - 1), index_from(l[n - 1], ':', 0)) {
            (Err(e), _) => Err(e),
            (Ok(_), None) => Err("header must be `Name: value`, got: "@ + l[n - 1]),
            (Ok(h), Some(k)) => Ok(
                with_pair(h, trimmed(l[n - 1].take(k)), trimmed(l[n - 1].skip(k + 1))),
            ),
        }
    }
}

/// Reads header arguments: a name, a colon and a value.
pub fn parse_header_args(raw: &Vec<String>) -> (out: Result<Vec<(String, String)>, String>)
    ensures
        match out {
            Ok(h) => headers_of(views(raw@), raw@.len() as int) == Ok::<
                Seq<(Seq<char>, Seq<char>)>,
                Seq<char>,
            >(pair_views(h@)),
            Err(e) => headers_of(views(raw@), raw@.len() as int) == Err::<
                Seq<(Seq<char>, Seq<char>)>,
                Seq<char>,
            >(e@),
        },
{
    let ghost all = views(raw@);
    let mut out: Vec<(String, String)> = Vec::new();
    assert(pair_views(out@) =~= Seq::empty());
    let mut i: usize = 0;
    while i < raw.len()
        invariant
            i <= raw@.len(),
            all == views(raw@),
            headers_of(all, i as int) == Ok::<Seq<(Seq<char>, Seq<char>)>, Seq<char>>(
                pair_views(out@),
            ),
        decreases raw.len() - i,
    {
        assert(all[i as int] == raw@[i as int]@);
        let h: Vec<char> = chars_of(raw[i].as_str());
        match find_char(&h, ':', 0) {
            None => {
                proof {
                    lemma_headers_error(all, i + 1, all.len() as int);
                }
                return Err(join2("header must be `Name: value`, got: ", raw[i].as_str()));
            },
            Some(k) => {
                let name: Vec<char> = slice_of(&h, 0, k);
                let value: Vec<char> = slice_of(&h, k + 1, h.len());
                assert(name@ =~= h@.take(k as int));
                assert(value@ =~= h@.skip(k + 1));
                put_pair(
                    &mut out,
                    string_of(&trim_chars(&name)),
                    string_of(&trim_chars(&value)),
                );
            },
        }
        i = i + 1;
    }
    Ok(out)
}

proof fn lemma_headers_error(l: Seq<Seq<char>>, i: int, n: int)
    requires
        0 <= i <= n,
        headers_of(l, i) is Err,
    ensures
        headers_of(l, n) == headers_of(l, i),
    decreases n - i,
{
    if i < n {
        lemma_headers_error(l, i, n - 1);
    }
}

/// The layout of the URLs on the command line: parts in order, or copies of one.
pub open spec fn command_layout(urls: Seq<Seq<char>>, parts: bool) -> Seq<Seq<Seq<char>>> {
    if parts {
        urls.map_values(|u: Seq<char>| seq![u])
    } else {
        seq![urls]
    }
}

fn layout_of(urls: &Vec<String>, parts: bool) -> (out: Vec<Vec<String>>)
    ensures
        views2(out@) == command_layout(views(urls@), parts),
{
    let mut out: Vec<Vec<String>> = Vec::new();
    if parts {
        let mut i: usize = 0;
        while i < urls.len()
            invariant
                i <= urls@.len(),
                out@.len() == i,
                forall|k: int| 0 <= k < i ==> views((#[trigger] out@[k])@) == seq![urls@[k]@],
            decreases urls.len() - i,
        {
            let one: Vec<String> = vec![urls[i].clone()];
            assert(views(one@) =~= seq![urls@[i as int]@]);
            out.push(one);
            i = i + 1;
        }
        assert(views2(out@) =~= command_layout(views(urls@), parts));
    } else {
        let all: Vec<String> = clone_strings(urls);
        out.push(all);
        assert(views2(out@) =~= seq![views(urls@)]);
    }
    out
}

/// The settings that a download from the command line runs with. The URLs are
/// looked at first, then the headers, then the size.
pub fn download_config(
    urls: &Vec<String>,
    raw_headers: &Vec<String>,
    threads: usize,
    split: &str,
    parts: bool,
    cache: bool,
) -> (out: Result<TaskConfig, String>)
    ensures
        match (out, headers_of(views(raw_headers@), raw_headers@.len() as int), size_asked(
            split@,
        )) {
            (Ok(c), Ok(h), Ok(n)) => urls@.len() > 0 && c@ == (ConfigView {
                volumes: command_layout(views(urls@), parts),
                max_threads: threads,
                max_per_volume: 4,
                max_split: n as u64,
                cache,
                headers: h,
                name: None,
                output_filename: None,
                auto_filename: true,
                rate_limit_bps: 0,
                rate_limit_algorithm: Algorithm::TokenBucket,
                persist: false,
                plugins: Seq::empty(),
                content_disposition: ContentDispositionMode::Auto,
                host_mappings: Seq::empty(),
            }).normal(),
            (Err(e), h, r) => if urls@.len() == 0 {
                e@ == "at least one URL is required (pass URLs as positional arguments)"@
            } else if h is Err {
                e@ == h->Err_0
            } else {
                r == Err::<int, Seq<char>>(e@)
            },
            _ => false,
        },
{
    if urls.len() == 0 {
        return Err("at least one URL is required (pass URLs as positional arguments)".to_owned());
    }
    let headers: Vec<(String, String)> = match parse_header_args(raw_headers) {
        Ok(h) => h,
        Err(e) => {
            return Err(e);
        },
    };
    let max_split: u64 = match parse_size(split) {
        Ok(n) => n,
        Err(e) => {
            return Err(e);
        },
    };
    let mut cfg: TaskConfig = TaskConfig {
        volumes: layout_of(urls, parts),
        max_threads: threads,
        max_per_volume: default_per_volume(),
        max_split,
        cache,
        headers,
        name: None,
        output_filename: None,
        auto_filename: true,
        rate_limit_bps: 0,
        rate_limit_algorithm: Algorithm::TokenBucket,
        persist: false,
        plugins: Vec::new(),
        content_disposition: ContentDispositionMode::Auto,
        host_mappings: Vec::new(),
    };
    assert(cfg@.plugins =~= Seq::empty());
    assert(cfg@.host_mappings =~= Seq::empty());
    cfg.normalize();
    Ok(cfg)
}

/// The size that a download from the command line needs to know.
pub fn download_size(total: Option<u64>) -> (out: Result<u64, String>)
    ensures
        match out {
            Ok(n) => total == Some(n) && n > 0,
            Err(e) => (total is None || total == Some(0u64)) && e@
                == "cannot download: upstream did not report a total size and passthrough downloads aren't supported via the CLI yet"@,
        },
{
    match total {
        Some(n) => if n > 0 {
            return Ok(n);
        },
        None => {},
    }
    Err(
        "cannot download: upstream did not report a total size and passthrough downloads aren't supported via the CLI yet".to_owned(),
    )
}

/// How much of a download is done, in percent.
pub fn percent(written: u64, total: u64) -> (out: u64)
    requires
        written <= u64::MAX / 100,
    ensures
        out == if total > 0 {
            (written * 100) / total as int
        } else {
            0
        },
{
    if total > 0 {
        (written * 100) / total
    } else {
        0
    }
}

/// The width of the bar.
pub const BAR_WIDTH: usize = 30;

/// The bar that shows a percentage.
pub open spec fn bar_for(pct: int) -> Seq<char> {
    Seq::new(
        BAR_WIDTH as nat,
        |i: int|
            if i < imin(pct * BAR_WIDTH / 100, BAR_WIDTH as int) {
                '='
            } else {
                ' '
            },
    )
}

/// Draws the bar.
pub fn progress_bar(pct: u64) -> (out: String)
    ensures
        out@ == bar_for(pct as int),
{
    let filled: usize = if pct >= 100 {
        BAR_WIDTH
    } else {
        (pct as usize) * BAR_WIDTH / 100
    };
    let mut bar: Vec<char> = Vec::new();
    let mut i: usize = 0;
    while i < BAR_WIDTH
        invariant
            i <= BAR_WIDTH,
            filled == imin(pct * BAR_WIDTH / 100, BAR_WIDTH as int),
            bar@ == bar_for(pct as int).take(i as int),
        decreases BAR_WIDTH - i,
    {
        let c: char = if i < filled {
            '='
        } else {
            ' '
        };
        bar.push(c);
        assert(bar@ =~= bar_for(pct as int).take(i + 1));
        i = i + 1;
    }
    assert(bar@ =~= bar_for(pct as int));
    string_of(&bar)
}

/// An address that stands for every address of the machine.
pub open spec fn unspecified(ip: IpView) -> bool {
    match ip {
        IpView::V4(a) => a[0] == 0 && a[1] == 0 && a[2] == 0 && a[3] == 0,
        IpView::V6(a) => a[0] == 0 && a[1] == 0 && a[2] == 0 && a[3] == 0 && a[4] == 0 && a[5] == 0
            && a[6] == 0 && a[7] == 0,
    }
}

fn is_unspecified(ip: &IpAddress) -> (out: bool)
    ensures
        out == unspecified(ip@),
{
    match ip {
        IpAddress::V4(a) => a[0] == 0 && a[1] == 0 && a[2] == 0 && a[3] == 0,
        IpAddress::V6(a) => a[0] == 0 && a[1] == 0 && a[2] == 0 && a[3] == 0 && a[4] == 0 && a[5]
            == 0 && a[6] == 0 && a[7] == 0,
    }
}

/// Where the dashboard is found: an address that stands for every address cannot
/// be opened, so the machine's own takes its place.
pub fn dashboard_url(addr: &SocketAddress) -> (out: String)
    ensures
        out@ == "http://"@ + (if unspecified(addr@.ip) {
            "127.0.0.1:"@ + decimal(addr@.port as nat)
        } else {
            socket_text(addr@)
        }) + "/"@,
{
    let host: String = if is_unspecified(&addr.ip) {
        join2("127.0.0.1:", string_of(&decimal_chars(addr.port as u64)).as_str())
    } else {
        string_of(&socket_chars(addr))
    };
    crate::text::join3("http://", host.as_str(), "/")
}

} // verus!
