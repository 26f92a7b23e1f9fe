use hydraria::error::ProxyError;
use hydraria::headers::{build_headers, judge_passthrough};
use hydraria::models::{AppState, GlobalSettings, Saver, TaskEntry, TaskConfig, Algorithm, ContentDispositionMode};
use hydraria::download::PersistedDownload;
use hydraria::plugins::chacha20::{ChaCha20Plugin, TaskCfg};
use hydraria::plugins::{build_pipeline, transform_outgoing, SharedTransform, TaskPluginConfig, TransformPipeline};
use hydraria::serve::export_disposition;
use std::sync::Arc;

fn pair(a: &str, b: &str) -> (String, String) {
    (a.to_string(), b.to_string())
}

#[test]
fn a_request_carries_the_headers_of_its_task() {
    let set = vec![pair("Cookie", "a=b"), pair("RANGE", "bytes=9-"), pair("cookie", "c=d")];
    assert_eq!(
        build_headers(&set, Some((5, 10))).unwrap(),
        vec![pair("cookie", "c=d"), pair("range", "bytes=5-10")]
    );
    assert_eq!(
        build_headers(&set, None).unwrap(),
        vec![pair("cookie", "c=d"), pair("range", "bytes=9-")]
    );
}

#[test]
fn what_is_no_header_is_refused() {
    for bad in ["", "a b", "a:b", "ü"] {
        let err = build_headers(&vec![pair(bad, "x")], None).unwrap_err();
        assert_eq!(
            err.message(),
            format!("internal: bad header name {bad}: invalid HTTP header name")
        );
        assert!(reqwest::header::HeaderName::from_bytes(bad.as_bytes()).is_err());
    }
    let err = build_headers(&vec![pair("a", "x\ny")], None).unwrap_err();
    assert_eq!(err.message(), "internal: bad header value: failed to parse header value");
}

#[test]
fn names_and_values_are_judged_as_the_client_judges_them() {
    for code in 0..=255u32 {
        let c = char::from_u32(code).unwrap();
        let s = format!("x{c}");
        let name = reqwest::header::HeaderName::from_bytes(s.as_bytes());
        let ours = build_headers(&vec![pair(&s, "v")], None);
        assert_eq!(ours.is_ok(), name.is_ok(), "{code}");
        if let (Ok(h), Ok(n)) = (ours, name) {
            assert_eq!(h[0].0, n.as_str());
        }
        let value = reqwest::header::HeaderValue::from_str(&s);
        assert_eq!(build_headers(&vec![pair("n", &s)], None).is_ok(), value.is_ok(), "{code}");
    }
}

#[test]
fn only_success_is_passed_through() {
    assert!(judge_passthrough(200).is_ok() && judge_passthrough(206).is_ok());
    for s in [199, 300, 404, 503] {
        assert!(matches!(judge_passthrough(s), Err(ProxyError::BadStatus(t)) if t == s));
    }
}

fn built(secret: &str) -> Result<SharedTransform, String> {
    let t = ChaCha20Plugin.build_transform(&TaskCfg {
        secret: Some(secret.into()),
        key: None,
        nonce: None,
    })?;
    Ok(SharedTransform { inner: Arc::new(t) })
}

#[test]
fn a_pipeline_is_built_or_the_bad_slot_named() {
    let configs = vec![
        TaskPluginConfig { id: "off".into(), enabled: false, config: "{}".into() },
        TaskPluginConfig { id: "chacha20".into(), enabled: true, config: "{}".into() },
    ];
    let p = build_pipeline(&vec![(1, 0)], &configs, vec![built(&"00".repeat(44))]).ok().unwrap();
    assert_eq!(p.len(), 1);
    let err = build_pipeline(&vec![(1, 0)], &configs, vec![built("zz")]).err().unwrap();
    assert_eq!(
        err,
        "plugin 'chacha20' build failed: secret hex decode: Invalid character 'z' at position 0"
    );
    let plain = b"some bytes".to_vec();
    let sent = transform_outgoing(Some(&p), 3, plain.clone());
    assert_ne!(sent, plain);
    assert_eq!(transform_outgoing(Some(&p), 3, sent), plain);
    assert_eq!(transform_outgoing(None, 3, plain.clone()), plain);
    assert_eq!(transform_outgoing(Some(&TransformPipeline::new()), 3, plain.clone()), plain);
}

fn state() -> AppState {
    let mut s = AppState::new("b".into(), GlobalSettings::default());
    let cfg = TaskConfig {
        volumes: vec![vec!["u".into()]],
        max_threads: 1,
        max_per_volume: 1,
        max_split: 0,
        cache: false,
        headers: vec![],
        name: None,
        output_filename: None,
        auto_filename: true,
        rate_limit_bps: 0,
        rate_limit_algorithm: Algorithm::TokenBucket,
        persist: true,
        plugins: vec![],
        content_disposition: ContentDispositionMode::Auto,
        host_mappings: vec![],
    };
    s.insert("t".into(), TaskEntry::new(cfg, 1, 0));
    s
}

#[test]
fn what_a_plugin_keeps_is_read_back() {
    let mut s = state();
    assert_eq!(s.plugin_global("p"), None);
    s.set_plugin_global("p".into(), "1".into());
    s.set_plugin_global("q".into(), "2".into());
    s.set_plugin_global("p".into(), "3".into());
    assert_eq!(s.plugin_global("p").as_deref(), Some("3"));
    assert_eq!(s.plugin_global("q").as_deref(), Some("2"));
    assert_eq!(s.settings.plugin_globals.len(), 2);
}

#[test]
fn coordinators_at_work_go_on() {
    let s = state();
    let saved = |id: &str, was_running: bool| PersistedDownload {
        task_id: id.into(),
        out_dir: String::new(),
        filename: String::new(),
        threads: 1,
        was_running,
    };
    let list = vec![saved("t", false), saved("gone", true), saved("t", true)];
    assert_eq!(s.resumable(&list), vec![2]);
}

#[test]
fn saving_waits_for_its_time_and_for_a_change() {
    let mut s = state();
    let mut w = Saver::new(0);
    assert!(!w.due(&s, &vec![], 4999));
    assert!(w.due(&s, &vec![], 5000));
    assert!(!w.due(&s, &vec![], 10_000));
    s.tasks[0].entry.paused = true;
    assert!(!w.due(&s, &vec![], 14_999));
    assert!(w.due(&s, &vec![], 15_000));
}

#[test]
fn an_export_is_named_after_its_task() {
    assert_eq!(
        export_disposition("abc").as_deref(),
        Some("attachment; filename=\"hydraria-task-abc.json\"")
    );
    assert_eq!(export_disposition("a\nb"), None);
}
