use hydraria::assets::{asset_answer, asset_headers, AssetAnswer};
use hydraria::cli::{
    dashboard_url, download_config, download_size, parse_header_args, percent, progress_bar,
};
use hydraria::address::{IpAddress, SocketAddress};
use hydraria::error::ProxyError;
use hydraria::fs_pick::{is_supported, pick, pick_command, PickKind, PickOutcome, PickRequest, Platform};
use hydraria::headers::is_sendable;
use hydraria::models::{Algorithm, ContentDispositionMode, TaskConfig, TaskEntry};
use hydraria::names::{parse_content_disposition_filename, percent_decode};
use hydraria::plugins::TaskPluginConfig;
use hydraria::probe::UpstreamProbe;
use hydraria::serve::{
    build_content_disposition, cache_meta, cacheable_size, force_type,
    percent_encode_rfc5987, plan_response, probe_is_fresh, resolve_served_filename, served_type,
    staging_size, stream_gate, substrate, ServeBody, ServePlan, StreamGate, Substrate,
};

fn probe() -> UpstreamProbe {
    UpstreamProbe {
        total_size: Some(1000),
        accepts_ranges: true,
        content_type: Some("video/mp4".into()),
        etag: Some("\"e\"".into()),
        last_modified: None,
        filename: Some("a.mp4".into()),
        volumes: None,
        probe_error: None,
    }
}

fn config() -> TaskConfig {
    TaskConfig {
        volumes: vec![vec!["http://b/f".into(), "http://a/f".into()]],
        max_threads: 8,
        max_per_volume: 4,
        max_split: 0,
        cache: false,
        headers: vec![],
        name: Some(" task ".into()),
        output_filename: None,
        auto_filename: true,
        rate_limit_bps: 0,
        rate_limit_algorithm: Algorithm::TokenBucket,
        persist: true,
        plugins: vec![],
        content_disposition: ContentDispositionMode::Auto,
        host_mappings: vec![],
    }
}

fn header<'a>(p: &'a ServePlan, name: &str) -> Option<&'a str> {
    p.headers.iter().find(|h| h.name == name).map(|h| h.value.as_str())
}

fn plan(range: Option<&str>, head: bool) -> Result<ServePlan, ProxyError> {
    plan_response(&probe(), range, head, ContentDispositionMode::Auto, "abc")
}

#[test]
fn a_request_without_a_range_gets_the_whole_file() {
    let p = plan(None, false).unwrap();
    assert_eq!(p.status, 200);
    assert!(matches!(p.body, ServeBody::Range { start: 0, end: 999, open_ended: true }));
    assert_eq!(header(&p, "content-length"), Some("1000"));
    assert_eq!(header(&p, "content-range"), None);
    assert_eq!(header(&p, "accept-ranges"), Some("bytes"));
    assert_eq!(header(&p, "x-hydraria-task"), Some("abc"));
    assert_eq!(header(&p, "content-type"), Some("video/mp4"));
    assert_eq!(header(&p, "etag"), Some("\"e\""));
    assert_eq!(header(&p, "last-modified"), None);
    assert_eq!(header(&p, "content-disposition"), Some("inline; filename=\"a.mp4\""));
}

#[test]
fn a_range_gets_a_partial_answer() {
    let p = plan(Some("bytes=0-"), false).unwrap();
    assert_eq!(p.status, 206);
    assert!(matches!(p.body, ServeBody::Range { start: 0, end: 999, open_ended: true }));
    assert_eq!(header(&p, "content-range"), Some("bytes 0-999/1000"));
    let p = plan(Some("bytes=10-5000"), false).unwrap();
    assert!(matches!(p.body, ServeBody::Range { start: 10, end: 999, open_ended: false }));
    assert_eq!(header(&p, "content-length"), Some("990"));
    let p = plan(Some("bytes=-100"), true).unwrap();
    assert!(matches!(p.body, ServeBody::Empty));
    assert_eq!(header(&p, "content-range"), Some("bytes 900-999/1000"));
    assert!(matches!(plan(Some("bytes=1000-"), false), Err(ProxyError::InvalidRange(m)) if m == "bytes=1000-"));
    assert!(plan(Some("lines=1-2"), false).is_err());
}

#[test]
fn without_ranges_the_origin_is_passed_through() {
    let mut q = probe();
    q.accepts_ranges = false;
    let p = plan_response(&q, Some("bytes=5-"), false, ContentDispositionMode::Auto, "t").unwrap();
    assert_eq!(p.status, 200);
    assert!(matches!(p.body, ServeBody::Passthrough));
    assert_eq!(header(&p, "content-length"), Some("1000"));
    assert_eq!(header(&p, "accept-ranges"), Some("none"));
    q.total_size = None;
    q.content_type = Some("bad\nvalue".into());
    let p = plan_response(&q, None, true, ContentDispositionMode::Auto, "t").unwrap();
    assert!(matches!(p.body, ServeBody::Empty));
    assert_eq!(header(&p, "content-length"), None);
    assert_eq!(header(&p, "content-type"), None);
    assert!(is_sendable("é\tx"));
    assert!(!is_sendable("\u{7f}"));
}

#[test]
fn a_disposition_has_a_plain_and_an_extended_form() {
    let attachment = ContentDispositionMode::Attachment;
    let inline = ContentDispositionMode::Inline;
    assert_eq!(
        build_content_disposition(" a b.mp4 ", attachment).as_deref(),
        Some("attachment; filename=\"a b.mp4\"")
    );
    assert_eq!(
        build_content_disposition("电影\".mkv", inline).as_deref(),
        Some("inline; filename=\"___.mkv\"; filename*=UTF-8''%E7%94%B5%E5%BD%B1%22.mkv")
    );
    assert_eq!(build_content_disposition("  ", inline), None);
    for s in ["plain", "a b%c", "ü/\\'()*!#$&+-.^_`|~", "電影 1"] {
        assert_eq!(percent_decode(&percent_encode_rfc5987(s)), s.as_bytes());
    }
    assert_eq!(percent_encode_rfc5987("a b'*"), "a%20b%27%2A");
}

#[test]
fn the_served_name_follows_the_settings() {
    let mut c = config();
    assert_eq!(resolve_served_filename(&c, Some("up.bin".into())).as_deref(), Some("up.bin"));
    assert_eq!(resolve_served_filename(&c, None).as_deref(), Some("task"));
    c.output_filename = Some(" set.mkv ".into());
    assert_eq!(resolve_served_filename(&c, None).as_deref(), Some("set.mkv"));
    c.auto_filename = false;
    assert_eq!(resolve_served_filename(&c, Some("up.bin".into())).as_deref(), Some("set.mkv"));
    c.output_filename = Some("  ".into());
    assert_eq!(resolve_served_filename(&c, Some("up.bin".into())), None);
}

#[test]
fn a_type_that_says_nothing_is_replaced() {
    let mut c = config();
    let name = Some("movie.mp4".to_string());
    let generic = || Some("Application/Octet-Stream".to_string());
    assert_eq!(served_type(&c, &name, generic()), generic());
    c.content_disposition = ContentDispositionMode::Inline;
    assert_eq!(served_type(&c, &name, generic()).as_deref(), Some("video/mp4"));
    assert_eq!(served_type(&c, &name, None).as_deref(), Some("video/mp4"));
    assert_eq!(served_type(&c, &name, Some("text/html".into())).as_deref(), Some("text/html"));
    assert_eq!(served_type(&c, &Some("noext".into()), None), None);
    c.content_disposition = ContentDispositionMode::Auto;
    c.plugins = vec![TaskPluginConfig { id: "p".into(), enabled: true, config: "{}".into() }];
    assert_eq!(served_type(&c, &name, None).as_deref(), Some("video/mp4"));
    c.plugins[0].enabled = false;
    assert_eq!(served_type(&c, &name, None), None);
    assert_eq!(force_type(None, "application/octet-stream".into()), None);
}

#[test]
fn a_paused_task_is_answered_at_the_gate() {
    let mut e = TaskEntry::new(config(), 1, 0);
    assert!(matches!(stream_gate(&e, "abc"), StreamGate::Open));
    e.paused = true;
    assert!(matches!(stream_gate(&e, "abc"),
        StreamGate::Paused { status: 503, message } if message == "task abc is paused"));
    assert_eq!(substrate(true, true, true), Substrate::Nothing);
    assert_eq!(substrate(false, true, false), Substrate::Shared);
    assert_eq!(substrate(false, false, true), Substrate::Shared);
    assert_eq!(substrate(false, false, false), Substrate::Staging);
    assert!(!probe_is_fresh(&e, 0));
    e.probe_cache = Some((probe(), 5));
    assert!(probe_is_fresh(&e, 300_000_000_004));
    assert!(!probe_is_fresh(&e, 300_000_000_005));
}

#[test]
fn why_a_file_cannot_be_cached_is_told() {
    let mut p = probe();
    assert_eq!(cacheable_size(&p).unwrap(), 1000);
    assert_eq!(staging_size(&p), Some(1000));
    p.total_size = Some(0);
    assert_eq!(staging_size(&p), None);
    assert_eq!(
        cacheable_size(&p).err().unwrap().message(),
        "internal: upstream did not report a cacheable size"
    );
    p.accepts_ranges = false;
    assert_eq!(
        cacheable_size(&p).err().unwrap().message(),
        "internal: upstream does not support byte ranges; full caching needs ranges"
    );
    p.probe_error = Some("refused".into());
    assert_eq!(
        cacheable_size(&p).err().unwrap().message(),
        "internal: cannot reach the upstream: refused"
    );
    let m = cache_meta(&config(), &probe(), 1000);
    assert_eq!(m.urls, vec!["http://a/f", "http://b/f"]);
    assert_eq!((m.total_size, m.block_size), (1000, 1 << 20));
}

#[test]
fn dialogs_are_scripted() {
    let req = PickRequest {
        kind: PickKind::SaveFile,
        default_name: Some("x\"y".into()),
        title: Some("a\\b".into()),
    };
    let mac = pick_command(&req, Platform::Mac).ok().unwrap();
    assert_eq!(mac.program, "osascript");
    assert_eq!(
        mac.args,
        vec![
            "-e",
            "POSIX path of (choose file name with prompt \"a\\\\b\" default name \"x\\\"y\")"
        ]
    );
    let plain = PickRequest { kind: PickKind::OpenDirectory, default_name: None, title: None };
    assert_eq!(
        pick_command(&plain, Platform::Mac).ok().unwrap().args[1],
        "POSIX path of (choose folder with prompt \"选择文件\")"
    );
    let win = pick_command(&req, Platform::Windows).ok().unwrap();
    assert_eq!(win.args[..4], ["-NoProfile", "-NonInteractive", "-STA", "-Command"]);
    assert_eq!(
        win.args[4],
        "Add-Type -AssemblyName System.Windows.Forms | Out-Null\n$f = New-Object System.Windows.Forms.SaveFileDialog\n$f.Title = \"a\\b\"\n$f.FileName = \"x`\"y\"\nif ($f.ShowDialog() -eq [System.Windows.Forms.DialogResult]::OK) { Write-Output $f.FileName }"
    );
    assert!(pick_command(&req, Platform::Other).is_err());
    assert!(is_supported(Platform::Mac) && !is_supported(Platform::Other));
    assert_eq!(PickKind::default(), PickKind::OpenFile);
}

#[test]
fn the_outcome_of_a_dialog_is_read() {
    let done = |s: &str| pick(Platform::Mac, &PickOutcome::Done(s.into())).unwrap().path;
    assert_eq!(done("/a/b\n").as_deref(), Some("/a/b"));
    assert_eq!(done(" \n"), None);
    let failed = |p, s: &str| pick(p, &PickOutcome::Failed(s.into()));
    assert_eq!(failed(Platform::Mac, "User canceled. (-128)").unwrap().path, None);
    assert_eq!(failed(Platform::Mac, " ").unwrap().path, None);
    assert_eq!(failed(Platform::Mac, " boom ").unwrap_err(), "osascript: boom");
    assert_eq!(failed(Platform::Windows, "x (-128)").unwrap_err(), "powershell: x (-128)");
    assert_eq!(
        pick(Platform::Windows, &PickOutcome::NotStarted("gone".into())).unwrap_err(),
        "powershell spawn: gone"
    );
}

#[test]
fn dashboard_files_are_told_from_endpoints() {
    assert_eq!(asset_answer("/", true), AssetAnswer::File("index.html".into()));
    assert_eq!(asset_answer("//a/b.js", true), AssetAnswer::File("a/b.js".into()));
    assert_eq!(
        asset_answer("/api/x", false),
        AssetAnswer::NoEndpoint("no such endpoint: /api/x".into())
    );
    assert_eq!(asset_answer("/apix", false), AssetAnswer::MethodNotAllowed);
    let h = asset_headers("index.html");
    assert_eq!((h.content_type.as_str(), h.cache_control), ("text/html", "no-cache"));
    let h = asset_headers("x/y.svg");
    assert_eq!(h.content_type, "image/svg+xml");
    assert_eq!(h.cache_control, "public, max-age=31536000, immutable");
}

#[test]
fn the_command_line_is_read() {
    let raw: Vec<String> = vec!["A: b:c ".into(), "X:1".into(), " A :z".into()];
    assert_eq!(
        parse_header_args(&raw).unwrap(),
        vec![("A".to_string(), "z".to_string()), ("X".to_string(), "1".to_string())]
    );
    assert_eq!(
        parse_header_args(&vec!["nope".into()]).unwrap_err(),
        "header must be `Name: value`, got: nope"
    );
    let urls: Vec<String> = vec!["u".into(), "v".into()];
    let c = download_config(&urls, &vec![], 16, "1M", true, false).unwrap();
    assert_eq!(c.volumes, vec![vec!["u".to_string()], vec!["v".to_string()]]);
    assert_eq!((c.max_split, c.max_threads, c.persist), (1 << 20, 8, false));
    let c = download_config(&urls, &vec![], 16, "5M", false, true).unwrap();
    assert_eq!(c.volumes, vec![urls.clone()]);
    let bad = vec!["nonsense".to_string()];
    assert_eq!(
        download_config(&vec![], &bad, 1, "5M", false, true).unwrap_err(),
        "at least one URL is required (pass URLs as positional arguments)"
    );
    assert_eq!(
        download_config(&urls, &bad, 1, "5X", false, true).unwrap_err(),
        "header must be `Name: value`, got: nonsense"
    );
    assert_eq!(
        download_config(&urls, &vec![], 1, "5X", false, true).unwrap_err(),
        "unknown size unit: X"
    );
    assert_eq!(download_size(Some(5)), Ok(5));
    assert!(download_size(Some(0)).is_err() && download_size(None).is_err());
    assert_eq!((percent(50, 200), percent(1, 0)), (25, 0));
    assert_eq!(progress_bar(50), format!("{}{}", "=".repeat(15), " ".repeat(15)));
    assert_eq!(progress_bar(250), "=".repeat(30));
    let any = SocketAddress { ip: IpAddress::V4([0; 4]), port: 9, scope: 0 };
    assert_eq!(dashboard_url(&any), "http://127.0.0.1:9/");
    let one = SocketAddress { ip: IpAddress::V6([0, 0, 0, 0, 0, 0, 0, 1]), port: 9, scope: 0 };
    assert_eq!(dashboard_url(&one), "http://[::1]:9/");
}

#[test]
fn a_disposition_reads_back() {
    for name in ["movie.mkv", "a b.txt", "電影; part 1.mkv", "say \"hi\".txt", "x; filename*=UTF-8''y é"] {
        for mode in [ContentDispositionMode::Attachment, ContentDispositionMode::Inline] {
            let value = build_content_disposition(&format!(" {name} "), mode).unwrap();
            assert_eq!(parse_content_disposition_filename(&value).as_deref(), Some(name));
        }
    }
    // What may not stand in a file name is left out.
    let value = build_content_disposition("a/b\\c", ContentDispositionMode::Inline).unwrap();
    assert_eq!(parse_content_disposition_filename(&value).as_deref(), Some("abc"));
    // A semicolon ends a parameter of the plain form.
    let value = build_content_disposition("a;b", ContentDispositionMode::Inline).unwrap();
    assert_eq!(parse_content_disposition_filename(&value).as_deref(), Some("a"));
}
