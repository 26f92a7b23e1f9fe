use hydraria::cache::CacheStore;
use hydraria::download::PersistedDownload;
use hydraria::hostmap::HostMapping;
use hydraria::models::health::rate;
use hydraria::models::{
    default_split, default_threads, deserialize_opt_size, deserialize_size, order_tasks,
    parse_size, persist_hash, restore_task, short_id, short_id_from, task_info, Algorithm,
    AppState, ContentDispositionMode, GlobalSettings, GlobalSettingsUpdate, PersistedTask,
    TaskConfig, TaskEntry, TaskSlot, TaskUpdate, ThroughputSampler, UrlHealthAcc, MAX_THREADS,
};
use hydraria::plugins::chacha20::SizeValue;
use hydraria::plugins::TaskPluginConfig;
use hydraria::probe::UpstreamProbe;
use hydraria::engine::VolumeMeta;

fn blank_config() -> TaskConfig {
    TaskConfig {
        volumes: vec![],
        max_threads: 8,
        max_per_volume: 4,
        max_split: 0,
        cache: false,
        headers: vec![],
        name: None,
        output_filename: None,
        auto_filename: true,
        rate_limit_bps: 0,
        rate_limit_algorithm: Algorithm::TokenBucket,
        persist: true,
        plugins: vec![],
        content_disposition: ContentDispositionMode::Auto,
        host_mappings: vec![],
    }
}

fn config(name: &str) -> TaskConfig {
    let mut c = blank_config();
    c.volumes = vec![vec!["https://example.invalid/a".into()]];
    c.name = Some(name.into());
    c
}

fn rule(from: &str, to: &str) -> HostMapping {
    HostMapping { from: from.into(), to: to.into(), enabled: true }
}

fn strings(l: &[&str]) -> Vec<String> {
    l.iter().map(|s| s.to_string()).collect()
}

const NOW: u64 = 1_700_000_000;

#[test]
fn effective_volumes_filters_empties() {
    let mut cfg = blank_config();
    cfg.volumes = vec![
        vec!["a1".into(), "  ".into(), "a2".into()],
        vec!["".into()],
        vec!["b1".into()],
    ];
    cfg.max_threads = 8;
    cfg.max_per_volume = 4;
    cfg.max_split = 5 * 1024 * 1024;
    cfg.persist = false;
    assert_eq!(
        cfg.effective_volumes(),
        vec![vec!["a1".to_string(), "a2".into()], vec!["b1".into()]],
    );
}

#[test]
fn flat_unique_urls_dedupes_preserving_order() {
    let layout = vec![
        vec!["a".to_string(), "b".into()],
        vec!["b".to_string(), "c".into()],
    ];
    assert_eq!(
        TaskConfig::flat_unique_urls(&layout),
        vec!["a".to_string(), "b".into(), "c".into()],
    );
}

#[test]
fn an_edit_stamps_the_task_and_a_rejected_one_does_not() {
    let mut entry = TaskEntry::new(config("before"), NOW, 0);
    let created = entry.updated_at;
    assert_eq!(created, entry.created_at, "an unedited task reads as created");

    entry.updated_at = created - 60;
    entry
        .apply_update(
            TaskUpdate { name: Some(Some("after".into())), ..Default::default() },
            NOW,
        )
        .expect("renaming is valid");
    let edited = entry.updated_at;
    assert!(edited > created - 60, "a successful edit must restamp");

    entry.updated_at = edited - 60;
    assert!(entry
        .apply_update(TaskUpdate { max_per_volume: Some(0), ..Default::default() }, NOW)
        .is_err());
    assert_eq!(
        entry.updated_at,
        edited - 60,
        "a rejected edit must not reorder the list",
    );
}

#[test]
fn threads_are_derived_from_per_volume_and_volume_count() {
    let two_volumes = vec![
        vec!["http://a/1".to_string()],
        vec!["http://a/2".to_string()],
    ];
    let mut cfg = config("derive");
    cfg.volumes = two_volumes.clone();
    cfg.max_threads = 999;
    cfg.max_per_volume = 4;
    cfg.normalize();
    assert_eq!(cfg.max_threads, 8, "4 × 2 卷");

    cfg.volumes = vec![vec!["http://a/1".to_string()]];
    cfg.normalize();
    assert_eq!(cfg.max_threads, 4);

    let mut seed = config("derive");
    seed.volumes = two_volumes;
    seed.max_per_volume = 4;
    let mut entry = TaskEntry::new(seed, NOW, 0);
    entry
        .apply_update(
            TaskUpdate {
                max_per_volume: Some(8),
                max_threads: Some(3),
                ..Default::default()
            },
            NOW,
        )
        .expect("valid");
    assert_eq!(entry.config.max_threads, 16, "8 × 2 卷，忽略 PATCH 的 3");

    let mut huge = config("derive");
    huge.volumes = (0..100).map(|i| vec![format!("http://a/{i}")]).collect();
    huge.max_per_volume = 8;
    huge.normalize();
    assert_eq!(huge.max_threads, MAX_THREADS);
}

#[test]
fn a_null_clears_a_nullable_field_while_an_absent_one_leaves_it_alone() {
    let mut cfg = config("named");
    cfg.output_filename = Some("movie.mkv".into());
    let mut entry = TaskEntry::new(cfg, NOW, 0);

    entry
        .apply_update(TaskUpdate { cache: Some(true), ..Default::default() }, NOW)
        .unwrap();
    assert_eq!(entry.config.name.as_deref(), Some("named"));
    assert_eq!(entry.config.output_filename.as_deref(), Some("movie.mkv"));

    entry
        .apply_update(
            TaskUpdate { name: Some(None), output_filename: Some(None), ..Default::default() },
            NOW,
        )
        .unwrap();
    assert_eq!(entry.config.name, None);
    assert_eq!(entry.config.output_filename, None);

    entry
        .apply_update(TaskUpdate { name: Some(Some("  ".into())), ..Default::default() }, NOW)
        .unwrap();
    assert_eq!(entry.config.name, None);
}

#[test]
fn new_volumes_keep_the_records_of_urls_that_stay() {
    let mut cfg = config("x");
    cfg.volumes = vec![strings(&["u1", "u2"])];
    let mut entry = TaskEntry::new(cfg, NOW, 0);
    entry.url_health[1].record_bytes(77);
    entry.head_unsupported.push("u1".into());
    entry
        .apply_update(
            TaskUpdate {
                volumes: Some(vec![strings(&["u3", " "]), strings(&["u2"])]),
                ..Default::default()
            },
            NOW + 5,
        )
        .unwrap();
    assert_eq!(entry.config.volumes, vec![strings(&["u3"]), strings(&["u2"])]);
    assert_eq!(entry.url_health.len(), 2);
    assert_eq!(entry.url_health[0].bytes_contributed, 0);
    assert_eq!(entry.url_health[1].bytes_contributed, 77);
    assert!(entry.head_unsupported.is_empty());
    assert_eq!(entry.updated_at, NOW + 5);
    assert_eq!(entry.url_health_for("u2"), Some(1));
    assert_eq!(entry.url_health_for("u1"), None);
    let err = entry
        .apply_update(TaskUpdate { volumes: Some(vec![vec![]]), ..Default::default() }, NOW)
        .unwrap_err();
    assert_eq!(err, "at least one URL is required across all volumes");
}

#[test]
fn making_and_editing_refuse_the_same() {
    let cases: Vec<(TaskConfig, TaskUpdate, Option<&str>)> = vec![
        (
            TaskConfig { max_per_volume: 0, ..config("a") },
            TaskUpdate { max_per_volume: Some(0), ..Default::default() },
            Some("max_per_volume must be >= 1"),
        ),
        (
            TaskConfig { max_split: 65535, ..config("a") },
            TaskUpdate { max_split: Some(65535), ..Default::default() },
            Some("max_split must be 0 (auto) or >= 64K"),
        ),
        (
            TaskConfig { max_split: 65536, ..config("a") },
            TaskUpdate { max_split: Some(65536), ..Default::default() },
            None,
        ),
        (
            TaskConfig { host_mappings: vec![rule("a", "http://x")], ..config("a") },
            TaskUpdate { host_mappings: Some(vec![rule("a", "http://x")]), ..Default::default() },
            Some("host mapping: target 'http://x' must be a bare host or IP, not a URL"),
        ),
    ];
    for (cfg, upd, want) in cases {
        assert_eq!(cfg.validate().err().as_deref(), want);
        let mut entry = TaskEntry::new(config("a"), NOW, 0);
        assert_eq!(entry.apply_update(upd, NOW).err().as_deref(), want);
    }
    // A row that was not filled in to its end is dropped, not refused.
    let mut entry = TaskEntry::new(config("a"), NOW, 0);
    entry
        .apply_update(
            TaskUpdate { host_mappings: Some(vec![rule(" ", ""), rule("a.com", "")]), ..Default::default() },
            NOW,
        )
        .unwrap();
    assert!(entry.config.host_mappings.is_empty());
}

#[test]
fn shaping_twice_is_shaping_once() {
    let mut c = config("x");
    c.volumes = vec![vec![], strings(&["", "a"]), strings(&[" "])];
    c.host_mappings = vec![rule("", ""), rule("a", "1.1.1.1"), rule("a.com", ""), rule(" ", "b")];
    c.normalize();
    assert_eq!(c.host_mappings.len(), 1);
    let once = format!("{c:?}");
    c.normalize();
    assert_eq!(format!("{c:?}"), once);
    assert_eq!(c.volumes, vec![strings(&["a"])]);
    assert_eq!(TaskConfig::derive_threads(0, 0), 1);
    assert_eq!(TaskConfig::derive_threads(usize::MAX, usize::MAX), 128);
    assert_eq!((default_threads(), default_split()), (8, 0));
}

#[test]
fn sizes_in_requests_are_read() {
    assert_eq!(deserialize_size(&SizeValue::Text("5M".into())), Ok(5 << 20));
    assert_eq!(deserialize_size(&SizeValue::Number(Some(9))), Ok(9));
    assert_eq!(deserialize_size(&SizeValue::Number(None)).unwrap_err(), "invalid number");
    assert_eq!(
        deserialize_size(&SizeValue::Null).unwrap_err(),
        "expected number or string for size"
    );
    assert_eq!(deserialize_opt_size(&SizeValue::Null), Ok(None));
    assert_eq!(deserialize_opt_size(&SizeValue::Text("1K".into())), Ok(Some(1024)));
    assert_eq!(parse_size("2G"), Ok(2 << 30));
}

#[test]
fn a_sampler_keeps_the_latest_rates() {
    let mut s = ThroughputSampler::new(3);
    assert_eq!(s.current(), 0);
    assert_eq!(s.recent_mean(4), 0);
    for v in [10, 20, 30, 41] {
        s.push(v);
    }
    assert_eq!(s.snapshot(), vec![20, 30, 41]);
    assert_eq!(s.current(), 41);
    assert_eq!(s.recent_mean(2), 35);
    assert_eq!(s.recent_mean(9), 30);
    assert_eq!(s.recent_mean(0), 0);
}

#[test]
fn ticks_turn_bytes_into_rates() {
    assert_eq!(rate(1000, 500_000_000), 2000);
    assert_eq!(rate(5, 0), 5000);
    assert_eq!(rate(u64::MAX, 1), u64::MAX);
    let mut e = TaskEntry::new(config("t"), NOW, 2_000_000_000);
    e.count_bytes(300);
    e.url_health[0].record_bytes(600);
    e.tick_throughput(5_000_000_000);
    assert_eq!(e.throughput.current(), 100);
    assert_eq!(e.url_health[0].current_speed_bps, 200);
    assert_eq!((e.bytes_served, e.window_bytes), (300, 0));
    e.connect();
    e.connect();
    e.disconnect();
    assert_eq!(e.active_connections, 1);
    e.disconnect();
    e.disconnect();
    assert_eq!(e.active_connections, 0);
}

#[test]
fn a_record_is_shown_without_what_is_not_known() {
    let mut h = UrlHealthAcc::new("u".into());
    let s = h.snapshot();
    assert_eq!((s.last_latency_ms, s.last_used_at, s.last_status), (None, None, None));
    h.record_failure(Some(503), "busy", 9);
    h.record_success(206, 12, 10);
    h.begin_request();
    let s = h.snapshot();
    assert_eq!((s.last_latency_ms, s.last_used_at, s.last_status), (Some(12), Some(10), Some(206)));
    assert_eq!((s.last_error, s.failed_requests, s.successful_requests), (None, 1, 1));
    assert_eq!(s.in_flight_requests, 1);
    h.end_request();
    assert_eq!(h.snapshot().in_flight_requests, 0);
}

fn slot(id: &str, updated_at: u64) -> TaskSlot {
    let mut entry = TaskEntry::new(config(id), NOW, 0);
    entry.updated_at = updated_at;
    TaskSlot { id: id.into(), entry }
}

#[test]
fn tasks_are_listed_by_their_last_edit() {
    let l = vec![slot("b", 5), slot("a", 9), slot("c", 7), slot("d", 5), slot("a0", 5)];
    assert_eq!(order_tasks(&l), vec![1, 2, 4, 0, 3]);
}

#[test]
fn tasks_are_found_replaced_and_removed() {
    let mut s = AppState::new("1.2.3.4:5".into(), GlobalSettings::default());
    s.insert("a".into(), TaskEntry::new(config("one"), NOW, 0));
    s.insert("b".into(), TaskEntry::new(config("two"), NOW, 0));
    s.insert("a".into(), TaskEntry::new(config("three"), NOW, 0));
    assert_eq!(s.tasks.len(), 2);
    let i = s.get("a").unwrap();
    assert_eq!(s.tasks[i].entry.config.name.as_deref(), Some("three"));
    s.tasks[i].entry.connect();
    s.tasks[i].entry.count_bytes(10);
    s.count_bytes_global(10);
    s.tick_global_throughput(1_000_000_000);
    let g = s.global_state(3, 4);
    assert_eq!((g.active_connections, g.bytes_served_total, g.task_count), (1, 10, 2));
    assert_eq!((g.cache_fill_speed_bps, g.cache_total_bytes, g.current_speed_bps), (3, 4, 10));
    assert!(s.remove("a").is_some());
    assert!(s.remove("a").is_none());
    assert_eq!(s.list(), vec![0]);
}

#[test]
fn a_task_is_shown_with_the_sizes_of_its_volumes() {
    let mut e = TaskEntry::new(config("t"), NOW, 0);
    e.probe_cache = Some((
        UpstreamProbe {
            total_size: Some(7),
            accepts_ranges: true,
            content_type: None,
            etag: None,
            last_modified: None,
            filename: None,
            volumes: Some(vec![VolumeMeta {
                urls: strings(&["https://example.invalid/a"]),
                offset: 0,
                size: 7,
            }]),
            probe_error: None,
        },
        0,
    ));
    let i = task_info("127.0.0.1:9527", "abc", &e, None, None);
    assert_eq!(i.proxy_url, "http://127.0.0.1:9527/stream/abc");
    assert_eq!(i.url_health[0].volume_size, Some(7));
    assert_eq!(i.config.name.as_deref(), Some("t"));
}

fn no_update() -> GlobalSettingsUpdate {
    GlobalSettingsUpdate {
        global_rate_limit_bps: None,
        global_rate_limit_algorithm: None,
        plugin_globals: None,
        download_dir: None,
        host_mappings: None,
        dns: None,
    }
}

#[test]
fn settings_are_edited_and_bad_ones_refused() {
    let mut s = AppState::new("x".into(), GlobalSettings::default());
    let out = s
        .update_settings(
            GlobalSettingsUpdate {
                global_rate_limit_bps: Some(9),
                download_dir: Some(" /d ".into()),
                host_mappings: Some(vec![rule("a.com", "1.1.1.1"), rule("", " ")]),
                dns: Some("1.1.1.1".into()),
                plugin_globals: Some(vec![("p".into(), "{}".into())]),
                ..no_update()
            },
            &vec![None],
            Ok(()),
        )
        .unwrap();
    assert_eq!(out.global_rate_limit_bps, 9);
    assert_eq!(out.download_dir.as_deref(), Some("/d"));
    assert_eq!(out.host_mappings.len(), 1);
    assert_eq!(out.dns.as_deref(), Some("tls://1.1.1.1"));
    assert_eq!(s.hosts.generation, 2);

    let before = format!("{:?}", s.settings);
    let err = s
        .update_settings(
            GlobalSettingsUpdate {
                global_rate_limit_bps: Some(1),
                host_mappings: Some(vec![rule("a.com", "http://x")]),
                ..no_update()
            },
            &vec![],
            Ok(()),
        )
        .unwrap_err();
    assert_eq!(err, "host mapping: target 'http://x' must be a bare host or IP, not a URL");
    assert!(s
        .update_settings(
            GlobalSettingsUpdate { global_rate_limit_bps: Some(1), dns: Some("x".into()), ..no_update() },
            &vec![],
            Ok(()),
        )
        .is_err());
    assert_eq!(format!("{:?}", s.settings), before);

    let err = s
        .update_settings(
            GlobalSettingsUpdate {
                global_rate_limit_bps: Some(1),
                plugin_globals: Some(vec![("p".into(), "1".into()), ("q".into(), "2".into())]),
                ..no_update()
            },
            &vec![None, Some("bad".into())],
            Ok(()),
        )
        .unwrap_err();
    assert_eq!(err, "plugin 'q' global config: bad");
    let err = s
        .update_settings(
            GlobalSettingsUpdate {
                global_rate_limit_bps: Some(1),
                dns: Some("8.8.8.8".into()),
                ..no_update()
            },
            &vec![],
            Err("no TLS".into()),
        )
        .unwrap_err();
    assert_eq!(err, "no TLS");
    assert_eq!(format!("{:?}", s.settings), before);
    assert_eq!(s.settings.dns.as_deref(), Some("tls://1.1.1.1"));
}

#[test]
fn what_is_saved_comes_back() {
    let mut s = AppState::new("x".into(), GlobalSettings::default());
    let mut keep = TaskEntry::new(config("keep"), NOW, 0);
    keep.paused = true;
    keep.updated_at = NOW + 3;
    s.insert("k".into(), keep);
    let mut drop = config("drop");
    drop.persist = false;
    s.insert("d".into(), TaskEntry::new(drop, NOW, 0));
    let saved = s.persisted_tasks();
    assert_eq!(saved.len(), 1);

    let mut t = AppState::new("x".into(), GlobalSettings::default());
    assert_eq!(t.restore_tasks(saved, NOW + 100, 0), 1);
    let e = &t.tasks[0].entry;
    assert_eq!((e.created_at, e.updated_at, e.paused), (NOW, NOW + 3, true));
    assert_eq!(e.config.name.as_deref(), Some("keep"));

    let old = restore_task(
        PersistedTask {
            id: "o".into(),
            config: config("old"),
            created_at: 0,
            updated_at: 0,
            paused: false,
        },
        NOW,
        7,
    );
    assert_eq!(old.entry.last_sample, 7);
    assert_eq!((old.entry.created_at, old.entry.updated_at), (1, 1));

    // A bad rule or resolver does not stop the rest.
    t.restore_settings(
        GlobalSettings {
            global_rate_limit_bps: 5,
            host_mappings: vec![rule("a", "")],
            dns: Some("bogus".into()),
            ..GlobalSettings::default()
        },
        Ok(()),
    );
    assert_eq!(t.settings.global_rate_limit_bps, 5);
    assert_eq!(t.hosts.generation, 0);
}

#[test]
fn the_fingerprint_moves_with_what_is_saved() {
    let mut s = AppState::new("x".into(), GlobalSettings::default());
    s.insert("k".into(), TaskEntry::new(config("keep"), NOW, 0));
    let mut quiet = config("quiet");
    quiet.persist = false;
    s.insert("q".into(), TaskEntry::new(quiet, NOW, 0));
    let a = persist_hash(&s, &vec![]);
    assert_eq!(persist_hash(&s, &vec![]), a);
    s.tasks[1].entry.paused = true;
    assert_eq!(persist_hash(&s, &vec![]), a, "a task that is not saved leaves no trace");
    s.tasks[0].entry.updated_at += 1;
    let b = persist_hash(&s, &vec![]);
    assert_ne!(a, b);
    s.tasks[0].entry.config.plugins.push(TaskPluginConfig {
        id: "p".into(),
        enabled: true,
        config: "{}".into(),
    });
    assert_ne!(persist_hash(&s, &vec![]), b);
    let c = persist_hash(&s, &vec![]);
    s.settings.plugin_globals = vec![("a".into(), "1".into()), ("b".into(), "2".into())];
    let d = persist_hash(&s, &vec![]);
    assert_ne!(c, d);
    s.settings.plugin_globals.reverse();
    assert_eq!(persist_hash(&s, &vec![]), d, "the order of plugins does not count");
    s.settings.dns = Some("tls://1.1.1.1".into());
    let e = persist_hash(&s, &vec![]);
    assert_ne!(e, d, "a change of the resolver alone is saved");
    let job = PersistedDownload {
        task_id: "k".into(),
        out_dir: String::new(),
        filename: String::new(),
        threads: 4,
        was_running: true,
    };
    let mut jobs = vec![job];
    let f = persist_hash(&s, &jobs);
    assert_ne!(f, e);
    jobs[0].was_running = false;
    assert_ne!(persist_hash(&s, &jobs), f);
}

#[test]
fn a_restored_task_takes_the_place_of_one_of_its_id() {
    let mut saved = AppState::new("x".into(), GlobalSettings::default());
    for (id, name) in [("b", "new b"), ("c", "c")] {
        saved.insert(id.into(), TaskEntry::new(config(name), NOW, 0));
    }
    let mut s = AppState::new("x".into(), GlobalSettings::default());
    for id in ["a", "b"] {
        let mut t = TaskEntry::new(config(id), NOW, 0);
        t.count_bytes(7);
        s.insert(id.into(), t);
    }
    assert_eq!(s.restore_tasks(saved.persisted_tasks(), NOW, 0), 2);
    let got: Vec<_> = s
        .tasks
        .iter()
        .map(|t| (t.id.as_str(), t.entry.config.name.as_deref().unwrap(), t.entry.bytes_served))
        .collect();
    assert_eq!(got, vec![("a", "a", 7), ("b", "new b", 0), ("c", "c", 0)]);
}

#[test]
fn ids_are_letters_and_digits() {
    let mut bytes = [0u8; 16];
    bytes[1] = 25;
    bytes[2] = 26;
    bytes[3] = 35;
    bytes[4] = 36;
    bytes[5] = 255;
    assert_eq!(short_id_from(&bytes), "az09ad");
    let a = short_id();
    assert_eq!(a.len(), 6);
    assert!(a.chars().all(|c| c.is_ascii_lowercase() || c.is_ascii_digit()));
    assert!((0..8).any(|_| short_id() != a));
}

#[test]
fn the_key_of_a_task_is_that_of_its_layout() {
    let mut c = config("x");
    c.volumes = vec![strings(&["b", "a", " "]), vec![]];
    assert_eq!(
        CacheStore::<u8>::key_for_task(&c),
        CacheStore::<u8>::key_for_urls(&strings(&["a", "b"]))
    );
    c.volumes = vec![strings(&["b"]), strings(&["a"])];
    assert_eq!(
        CacheStore::<u8>::key_for_task(&c),
        CacheStore::<u8>::key_for_volume_layout(&c.volumes)
    );
    c.volumes = vec![];
    assert_eq!(
        CacheStore::<u8>::key_for_task(&c),
        CacheStore::<u8>::key_for_urls(&vec![])
    );
}

#[test]
fn an_edit_that_asks_for_nothing_changes_nothing() {
    let mut entry = TaskEntry::new(config("t"), NOW, 0);
    entry.url_health[0].record_bytes(5);
    let before = format!("{:?}{:?}", entry.config, entry.url_health);
    entry.apply_update(TaskUpdate::default(), NOW + 1).unwrap();
    assert_eq!(format!("{:?}{:?}", entry.config, entry.url_health), before);
    assert_eq!(entry.updated_at, NOW + 1);
}

#[test]
fn an_edit_that_is_refused_changes_nothing() {
    let mut entry = TaskEntry::new(config("t"), NOW, 0);
    let before = (entry.config.max_per_volume, entry.config.max_threads);
    let err = entry
        .apply_update(
            TaskUpdate {
                max_per_volume: Some(2),
                max_split: Some(1),
                cache: Some(true),
                ..Default::default()
            },
            NOW + 1,
        )
        .unwrap_err();
    assert_eq!(err, "max_split must be 0 (auto) or >= 64K");
    assert_eq!((entry.config.max_per_volume, entry.config.max_threads), before);
    assert!(!entry.config.cache);
    assert_eq!(entry.updated_at, NOW);

    let mut cfg = config("t");
    cfg.volumes = vec![strings(&["http://a/1"])];
    let mut entry = TaskEntry::new(cfg, NOW, 0);
    entry.head_unsupported.push("http://a/1".into());
    let upd = TaskUpdate { volumes: Some(vec![]), ..Default::default() };
    let err = entry.apply_update(upd, NOW + 1).unwrap_err();
    assert_eq!(err, "at least one URL is required across all volumes");
    assert_eq!(entry.config_snapshot().volumes, vec![strings(&["http://a/1"])]);
    let err = entry
        .apply_update(
            TaskUpdate {
                volumes: Some(vec![strings(&["http://b/1"])]),
                headers: Some(vec![]),
                host_mappings: Some(vec![rule("a.com", "http://x")]),
                ..Default::default()
            },
            NOW + 1,
        )
        .unwrap_err();
    assert_eq!(err, "host mapping: target 'http://x' must be a bare host or IP, not a URL");
    assert_eq!(entry.config_snapshot().volumes, vec![strings(&["http://a/1"])]);
    assert_eq!(entry.head_unsupported.len(), 1);
    assert_eq!(entry.updated_at, NOW);
}
