use hydraria::error::ProxyError;
use hydraria::hostmap::{install, HostMapping, UrlParts};
use hydraria::models::{AppState, Algorithm, ContentDispositionMode, GlobalSettings, TaskConfig, TaskEntry};
use hydraria::requests::{
    accept_task, body_starts_cache, coerce_url_aliases, draft_table, host_asked, new_task_id,
    probe_config, probe_host, reject_unknown_fields, reject_unknown_fields_for_update, saved_table,
    start_cache, suggest_name, takes_id, Field, Json, ResolveScope,
};

fn text(s: &str) -> Json {
    Json::Text(s.into())
}

fn list(l: Vec<Json>) -> Json {
    Json::List(l)
}

fn field(name: &str, value: Json) -> Field {
    Field { name: name.into(), value }
}

fn get<'a>(body: &'a [Field], name: &str) -> Option<&'a Json> {
    body.iter().find(|f| f.name == name).map(|f| &f.value)
}

fn coerce(mut body: Vec<Field>) -> Result<(bool, Vec<Field>), String> {
    let touched = coerce_url_aliases(&mut body)?;
    Ok((touched, body))
}

#[test]
fn url_aliases_all_land_on_the_same_volume_layout() {
    let one = list(vec![list(vec![text("https://a/f.mp4")])]);
    for body in [
        vec![field("url", text("https://a/f.mp4"))],
        vec![field("urls", list(vec![text("https://a/f.mp4")]))],
        vec![field("uri", text("https://a/f.mp4"))],
        vec![field("uris", list(vec![text("https://a/f.mp4")]))],
        vec![field("volumes", text("https://a/f.mp4"))],
        vec![field("volumes", list(vec![text("https://a/f.mp4")]))],
        vec![field("volumes", list(vec![list(vec![text("https://a/f.mp4")])]))],
    ] {
        let (touched, out) = coerce(body).expect("valid");
        assert!(touched, "the body mentions URLs");
        assert_eq!(get(&out, "volumes"), Some(&one));
        for key in ["url", "urls", "uri", "uris"] {
            assert!(get(&out, key).is_none(), "{key} 应当已被吸收");
        }
    }

    let (_, out) = coerce(vec![field("urls", list(vec![text("https://a/f"), text("https://b/f")]))])
        .unwrap();
    assert_eq!(
        get(&out, "volumes"),
        Some(&list(vec![list(vec![text("https://a/f"), text("https://b/f")])]))
    );

    let two = list(vec![
        list(vec![text("https://a/1")]),
        list(vec![text("https://a/2")]),
    ]);
    let (_, out) = coerce(vec![field(
        "volumes",
        list(vec![list(vec![text("https://a/1")]), list(vec![text("https://a/2")])]),
    )])
    .unwrap();
    assert_eq!(get(&out, "volumes"), Some(&two));
}

#[test]
fn a_patch_that_never_mentions_urls_leaves_them_alone() {
    let (touched, out) = coerce(vec![field("cache", Json::Bool(true))]).expect("valid");
    assert!(!touched);
    assert!(get(&out, "volumes").is_none());
    assert_eq!(get(&out, "cache"), Some(&Json::Bool(true)));
}

#[test]
fn ambiguous_or_malformed_url_fields_are_rejected() {
    assert!(coerce(vec![field(
        "urls",
        list(vec![text("https://a/f"), list(vec![text("https://b/f")])])
    )])
    .is_err());
    assert!(coerce(vec![field("url", Json::Number("42".into()))]).is_err());
    assert!(coerce(vec![field(
        "urls",
        list(vec![Json::Object(vec![field("u", text("x"))])])
    )])
    .is_err());
    assert_eq!(
        coerce(vec![field("url", Json::Number("42".into()))]).unwrap_err(),
        "'url' must be a URL string, a list of URLs, or a list of volumes"
    );
    assert_eq!(
        coerce(vec![field("uris", list(vec![Json::Null]))]).unwrap_err(),
        "'uris' must contain URL strings"
    );
    assert_eq!(
        coerce(vec![field("volumes", list(vec![list(vec![]), text("a")]))]).unwrap_err(),
        "'volumes' mixes URL strings and volume arrays — use either [\"url\", …] for mirrors of one file or [[\"url\"], …] for volumes"
    );
}

#[test]
fn explicit_volumes_beat_the_aliases() {
    let (_, out) = coerce(vec![
        field("volumes", list(vec![list(vec![text("https://real/1")])])),
        field("url", text("https://leftover/0")),
    ])
    .unwrap();
    assert_eq!(
        get(&out, "volumes"),
        Some(&list(vec![list(vec![text("https://real/1")])]))
    );

    let (_, out) = coerce(vec![
        field("volumes", list(vec![])),
        field("url", text("https://a/f")),
    ])
    .unwrap();
    assert_eq!(
        get(&out, "volumes"),
        Some(&list(vec![list(vec![text("https://a/f")])]))
    );
    let (touched, out) = coerce(vec![field("volumes", Json::Null)]).unwrap();
    assert!(touched);
    assert_eq!(get(&out, "volumes"), Some(&list(vec![])));
}

fn mapping(from: &str, to: &str) -> HostMapping {
    HostMapping { from: from.into(), to: to.into(), enabled: true }
}

fn state() -> AppState {
    AppState::new("127.0.0.1:9527".into(), GlobalSettings::default())
}

#[test]
fn testing_a_draft_rule_reflects_the_edit_not_the_saved_value() {
    let mut s = state();
    install(&mut s.hosts, &vec![mapping("cdn.example.com", "1.1.1.1")]).unwrap();

    let edited = vec![mapping("cdn.example.com", "2.2.2.2")];
    for scope in [ResolveScope::Task, ResolveScope::Global] {
        let table = draft_table(&s, &edited, scope).unwrap();
        assert_eq!(
            table.explain("cdn.example.com").as_deref(),
            Some("2.2.2.2"),
            "改了 target 就要报新的那个",
        );
    }

    let table = draft_table(
        &s,
        &vec![mapping("cdn.example.com", "2.2.2.2"), mapping("", "")],
        ResolveScope::Task,
    )
    .unwrap();
    assert_eq!(table.explain("cdn.example.com").as_deref(), Some("2.2.2.2"));

    install(&mut s.hosts, &vec![]).unwrap();
}

#[test]
fn a_task_draft_layers_over_global_while_a_global_draft_replaces_it() {
    let mut s = state();
    install(
        &mut s.hosts,
        &vec![
            mapping("a.example.com", "1.1.1.1"),
            mapping("b.example.com", "2.2.2.2"),
        ],
    )
    .unwrap();

    let task = draft_table(&s, &vec![mapping("b.example.com", "9.9.9.9")], ResolveScope::Task).unwrap();
    assert_eq!(task.explain("a.example.com").as_deref(), Some("1.1.1.1"));
    assert_eq!(task.explain("b.example.com").as_deref(), Some("9.9.9.9"));

    let global =
        draft_table(&s, &vec![mapping("b.example.com", "9.9.9.9")], ResolveScope::Global).unwrap();
    assert_eq!(global.explain("a.example.com"), None);
    assert_eq!(global.explain("b.example.com").as_deref(), Some("9.9.9.9"));

    install(&mut s.hosts, &vec![]).unwrap();
}

#[test]
fn an_invalid_draft_rule_surfaces_as_an_error() {
    let err = draft_table(
        &state(),
        &vec![mapping("cdn.example.com", "https://backup.example.com")],
        ResolveScope::Global,
    )
    .expect_err("URL 不是合法的映射目标");
    assert!(err.contains("bare host"), "{err}");
}

fn config(volumes: Vec<Vec<String>>) -> TaskConfig {
    TaskConfig {
        volumes,
        max_threads: 8,
        max_per_volume: 4,
        max_split: 0,
        cache: false,
        headers: vec![],
        name: None,
        output_filename: None,
        auto_filename: true,
        rate_limit_bps: 0,
        rate_limit_algorithm: Algorithm::TokenBucket,
        persist: true,
        plugins: vec![],
        content_disposition: ContentDispositionMode::Auto,
        host_mappings: vec![],
    }
}

#[test]
fn the_saved_table_is_that_of_the_task() {
    let mut s = state();
    install(&mut s.hosts, &vec![mapping("a.com", "1.1.1.1")]).unwrap();
    let mut c = config(vec![vec!["u".into()]]);
    c.host_mappings = vec![mapping("b.com", "2.2.2.2")];
    s.insert("t".into(), TaskEntry::new(c, 1, 0));
    assert_eq!(saved_table(&s, None).unwrap().explain("b.com"), None);
    let t = saved_table(&s, Some("t")).unwrap();
    assert_eq!(t.explain("a.com").as_deref(), Some("1.1.1.1"));
    assert_eq!(t.explain("b.com").as_deref(), Some("2.2.2.2"));
    assert_eq!(
        saved_table(&s, Some("x")).err().unwrap().message(),
        "internal: no such task: x"
    );
}

#[test]
fn unknown_fields_are_named() {
    assert!(reject_unknown_fields(&vec![field("cache", Json::Null), field("start_cache", Json::Null)])
        .is_ok());
    let body = vec![
        field("cache", Json::Null),
        field("max_treads", Json::Null),
        field("start_cache", Json::Null),
    ];
    let err = reject_unknown_fields_for_update(&body).unwrap_err();
    assert!(err.starts_with("unknown field(s): max_treads, start_cache — accepted fields are: volumes, max_threads, "));
    assert!(err.ends_with("host_mappings, url, urls, uri, uris"));
    let err = reject_unknown_fields(&body).unwrap_err();
    assert!(err.starts_with("unknown field(s): max_treads — "));
    assert!(err.ends_with("uris, start_cache"));
}

#[test]
fn caching_at_once_is_asked_for() {
    assert!(!start_cache(None));
    for v in ["1", "true", "", "yes", "ON"] {
        assert!(start_cache(Some(v)), "{v}");
    }
    for v in ["0", "False", " no ", "OFF"] {
        assert!(!start_cache(Some(v)), "{v}");
    }
    assert!(body_starts_cache(&vec![field("start_cache", Json::Bool(true))]));
    assert!(!body_starts_cache(&vec![field("start_cache", Json::Number("1".into()))]));
}

#[test]
fn a_new_task_is_checked() {
    let ok = accept_task(config(vec![vec!["u".into(), " ".into()]])).unwrap();
    assert_eq!(ok.volumes, vec![vec!["u".to_string()]]);
    assert_eq!(ok.max_threads, 4);
    assert_eq!(
        accept_task(config(vec![vec![" ".into()]])).err().unwrap().message(),
        "internal: at least one URL is required — pass \"url\", \"urls\" or \"volumes\""
    );
    let mut bad = config(vec![vec!["u".into()]]);
    bad.max_per_volume = 0;
    assert!(matches!(accept_task(bad), Err(ProxyError::Internal(m)) if m == "max_per_volume must be >= 1"));
    assert!(probe_config(vec![vec![]], vec![], vec![]).is_err());
    let c = probe_config(vec![vec!["u".into()]], vec![], vec![]).unwrap();
    assert_eq!((c.max_split, c.persist, c.max_threads), (5 << 20, false, 1));
}

#[test]
fn several_volumes_share_a_name() {
    let l = vec![
        vec!["http://a/movie.part01".to_string()],
        vec!["http://a/movie.part02".to_string()],
    ];
    assert_eq!(suggest_name(&l, &Some("x".into())).as_deref(), Some("movie"));
    assert_eq!(suggest_name(&l[..1].to_vec(), &Some("x".into())).as_deref(), Some("x"));
}

#[test]
fn a_question_may_hold_a_whole_url() {
    assert_eq!(probe_host(" https://CDN.example.com:8/x?y ").unwrap(), "cdn.example.com");
    assert_eq!(probe_host("cdn.example.com").unwrap(), "cdn.example.com");
    assert_eq!(probe_host(" ").err().unwrap().message(), "internal: host must not be empty");
    let parts = UrlParts { host: Some("h".into()), port: None };
    assert_eq!(host_asked("x", Some(parts)).unwrap(), "h");
    assert_eq!(host_asked(" x ", None).unwrap(), "x");
}

#[test]
fn ids_that_are_taken_are_drawn_again() {
    let mut s = state();
    s.insert("abcdef".into(), TaskEntry::new(config(vec![]), 1, 0));
    assert!(takes_id(&s, "zzzzzz", 0));
    assert!(!takes_id(&s, "abcdef", 5));
    assert!(takes_id(&s, "abcdef", 6));
    assert_eq!(new_task_id(&s).len(), 6);
}
