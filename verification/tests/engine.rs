use hydraria::cache::{CacheEntry, CacheMeta};
use hydraria::engine::{
    filename_from_url, merge_volume_filenames, mirror_weight, parse_content_disposition_filename,
    parse_range_header, pick_weighted, plan_chunks, plan_chunks_with_head, plan_volume_indices,
    sanitize_filename, slice_span_by_volumes, suggest_volume_filename, Engine, VolumeMeta,
};
use hydraria::error::ProxyError;
use hydraria::fetch::{
    judge_cached_status, judge_status, next_run, piece_window, refusal, BlockWalk, ChunkFetch, Drain,
    DrainStep, Drained, FetchStep, FetchWindow, Passthrough, PieceStep, StatusVerdict,
    RETRY_AFTER_MAX,
};
use hydraria::models::UrlHealth;

#[test]
fn parses_plain_filename() {
    let s = parse_content_disposition_filename("attachment; filename=\"hello.bin\"");
    assert_eq!(s.as_deref(), Some("hello.bin"));
}

#[test]
fn parses_rfc5987_utf8_filename() {
    let s = parse_content_disposition_filename(
        "attachment; filename=\"file.bin\"; filename*=UTF-8''%E4%B8%AD%E6%96%87.mp4",
    );
    assert_eq!(s.as_deref(), Some("中文.mp4"));
}

#[test]
fn rfc5987_overrides_plain() {
    let s = parse_content_disposition_filename(
        "attachment; filename=\"ascii.bin\"; filename*=UTF-8''real%2Ename.bin",
    );
    assert_eq!(s.as_deref(), Some("real.name.bin"));
}

#[test]
fn extended_names_may_be_latin_one() {
    assert_eq!(
        parse_content_disposition_filename("inline; filename*=iso-8859-1''caf%E9.txt").as_deref(),
        Some("café.txt")
    );
    // No charset at all, and bytes that are no UTF-8.
    assert_eq!(
        parse_content_disposition_filename("inline; filename*=caf%E9").as_deref(),
        Some("café")
    );
    // UTF-8 that came through as one character per byte is put right.
    assert_eq!(
        parse_content_disposition_filename("inline; filename=\"\u{e4}\u{b8}\u{ad}\"").as_deref(),
        Some("中")
    );
    assert_eq!(parse_content_disposition_filename("inline; filename=\"\""), None);
    assert_eq!(parse_content_disposition_filename("inline"), None);
}

#[test]
fn falls_back_to_url_path() {
    assert_eq!(
        filename_from_url("https://cdn.example.com/path/to/movie.mp4?token=abc"),
        Some("movie.mp4".to_string())
    );
    assert_eq!(
        filename_from_url("https://cdn.example.com/%E4%B8%AD%E6%96%87.mp4"),
        Some("中文.mp4".to_string())
    );
    assert_eq!(filename_from_url("https://cdn.example.com/"), None);
}

#[test]
fn sanitize_strips_path_separators() {
    assert_eq!(sanitize_filename("../etc/passwd".to_string()), "..etcpasswd");
}

fn vol(url: &str, offset: u64, size: u64) -> VolumeMeta {
    VolumeMeta {
        urls: vec![url.to_string()],
        offset,
        size,
    }
}

#[test]
fn plan_mirror_mode_splits_by_size() {
    let plan = plan_chunks(0, 99, 30, None);
    assert_eq!(plan, vec![(0, 29), (30, 59), (60, 89), (90, 99)]);
}

#[test]
fn head_split_is_noop_when_no_head_requested() {
    let p1 = plan_chunks(0, 99, 30, None);
    let p2 = plan_chunks_with_head(0, 99, 30, None, None);
    assert_eq!(p1, p2);
}

#[test]
fn head_split_carves_small_prefix_from_oversize_first_chunk() {
    let split = 10 * 1024 * 1024u64;
    let small = 256 * 1024u64;
    let plan = plan_chunks_with_head(0, split - 1, split, None, Some((small, 4)));
    assert_eq!(plan[0], (0, small - 1));
    assert_eq!(plan[1], (small, 2 * small - 1));
    assert_eq!(plan[2], (2 * small, 3 * small - 1));
    assert_eq!(plan[3], (3 * small, 4 * small - 1));
    // Remainder is one big chunk that goes back to the original split size.
    assert_eq!(plan[4], (4 * small, split - 1));
    assert_eq!(plan.len(), 5);
}

#[test]
fn head_split_keeps_natural_small_chunks_intact() {
    let plan = plan_chunks_with_head(0, 99, 30, None, Some((50 * 1024, 4)));
    // Original plan: (0,29) (30,59) (60,89) (90,99) — all under 50K.
    assert_eq!(plan, vec![(0, 29), (30, 59), (60, 89), (90, 99)]);
}

#[test]
fn head_split_respects_volume_boundaries() {
    let vols = vec![vol("a", 0, 100), vol("b", 100, 150)];
    let plan = plan_chunks_with_head(0, 249, 80, Some(&vols), Some((30, 2)));
    assert_eq!(plan[0], (0, 29));
    assert_eq!(plan[1], (30, 59));
    assert_eq!(plan[2], (60, 79));
    assert_eq!(plan[3], (80, 99));
    assert_eq!(plan[4], (100, 179));
    assert_eq!(plan[5], (180, 249));
    // No chunk crosses a volume boundary.
    for (cs, ce) in &plan {
        for v in &vols {
            let v_end = v.offset + v.size - 1;
            if *cs >= v.offset && *cs < v.offset + v.size {
                assert!(*ce <= v_end, "chunk ({}..={}) leaks across volume", cs, ce);
            }
        }
    }
}

#[test]
fn plan_volume_mode_breaks_at_boundaries() {
    let vols = vec![vol("a", 0, 100), vol("b", 100, 150)];
    let plan = plan_chunks(0, 249, 80, Some(&vols));
    assert_eq!(plan, vec![(0, 79), (80, 99), (100, 179), (180, 249)]);
}

#[test]
fn plan_volume_mode_partial_range_inside_one_volume() {
    let vols = vec![vol("a", 0, 100), vol("b", 100, 150)];
    let plan = plan_chunks(120, 180, 200, Some(&vols));
    assert_eq!(plan, vec![(120, 180)]);
}

#[test]
fn plan_volume_mode_range_spans_boundary() {
    let vols = vec![vol("a", 0, 100), vol("b", 100, 150)];
    let plan = plan_chunks(80, 160, 200, Some(&vols));
    assert_eq!(plan, vec![(80, 99), (100, 160)]);
}

#[test]
fn plan_volume_mode_skips_empty_volumes() {
    let vols = vec![vol("a", 0, 50), vol("empty", 50, 0), vol("c", 50, 50)];
    let plan = plan_chunks(0, 99, 200, Some(&vols));
    assert_eq!(plan, vec![(0, 49), (50, 99)]);
}

#[test]
fn suggest_filename_lcp_trims_part_suffix() {
    let urls = vec![
        "https://cdn.example.com/movie.part01.mp4".to_string(),
        "https://cdn.example.com/movie.part02.mp4".to_string(),
        "https://cdn.example.com/movie.part03.mp4".to_string(),
    ];
    assert_eq!(suggest_volume_filename(&urls).as_deref(), Some("movie"));
}

#[test]
fn suggest_filename_lcp_handles_zip_style() {
    let urls = vec![
        "https://cdn.example.com/big.zip.001".to_string(),
        "https://cdn.example.com/big.zip.002".to_string(),
    ];
    assert_eq!(suggest_volume_filename(&urls).as_deref(), Some("big.zip"));
}

#[test]
fn suggest_filename_single_url_returns_as_is() {
    let urls = vec!["https://cdn.example.com/movie.mp4".to_string()];
    assert_eq!(suggest_volume_filename(&urls).as_deref(), Some("movie.mp4"));
}

#[test]
fn suggest_filename_no_common_prefix_falls_back() {
    let urls = vec![
        "https://cdn.example.com/alpha.bin".to_string(),
        "https://cdn.example.com/beta.bin".to_string(),
    ];
    // No useful common prefix → fall back to first.
    assert_eq!(suggest_volume_filename(&urls).as_deref(), Some("alpha.bin"));
}

#[test]
fn suggest_filename_handles_utf8_safely() {
    let urls = vec![
        "https://cdn.example.com/%E7%94%B5%E5%BD%B1.part1.mp4".to_string(),
        "https://cdn.example.com/%E7%94%B5%E5%BD%B1.part2.mp4".to_string(),
    ];
    assert_eq!(suggest_volume_filename(&urls).as_deref(), Some("电影"));
}

#[test]
fn merge_filenames_prefers_lcp_of_detected_names() {
    let per_vol = vec![
        Some("t.mkv.01".to_string()),
        Some("t.mkv.02".to_string()),
        Some("t.mkv.03".to_string()),
    ];
    let urls = vec![
        "http://host/t.mkv.01".to_string(),
        "http://host/t.mkv.02".to_string(),
        "http://host/t.mkv.03".to_string(),
    ];
    assert_eq!(merge_volume_filenames(&per_vol, &urls).as_deref(), Some("t.mkv"));
}

#[test]
fn merge_filenames_falls_back_to_urls_when_detection_sparse() {
    let per_vol = vec![Some("ignored.part01".to_string()), None, None];
    let urls = vec![
        "http://host/movie.part01.mp4".to_string(),
        "http://host/movie.part02.mp4".to_string(),
        "http://host/movie.part03.mp4".to_string(),
    ];
    assert_eq!(merge_volume_filenames(&per_vol, &urls).as_deref(), Some("movie"));
}

#[test]
fn merge_filenames_falls_back_when_lcp_is_empty() {
    let per_vol = vec![Some("alpha.bin".into()), Some("beta.bin".into())];
    let urls = vec![
        "http://host/x.part01".to_string(),
        "http://host/x.part02".to_string(),
    ];
    assert_eq!(merge_volume_filenames(&per_vol, &urls).as_deref(), Some("x"));
}

/// The chunks that are started before any is delivered: the window is filled, then
/// untouched volumes are warmed up.
fn initial_spawn_set(vol_of: &[usize], max_threads: usize, vol_count: usize) -> Vec<usize> {
    let mut w = FetchWindow::from_layout(vol_of.to_vec(), max_threads, max_threads, vol_count);
    let mut spawned = w.fill();
    spawned.extend(w.warm_up(false));
    spawned
}

#[test]
fn warmup_covers_all_volumes_when_initial_window_only_hits_first() {
    let vol_of: Vec<usize> = [0; 5].into_iter().chain([1; 5]).chain([2; 5]).collect();
    let spawned = initial_spawn_set(&vol_of, 2, 3);
    assert!(spawned.contains(&0), "initial chunk 0 must spawn");
    assert!(spawned.contains(&1), "initial chunk 1 must spawn");
    assert!(spawned.contains(&5), "v1's first chunk (idx=5) must be warmed up");
    assert!(spawned.contains(&10), "v2's first chunk (idx=10) must be warmed up");
    assert_eq!(spawned.len(), 4);
}

#[test]
fn warmup_is_noop_when_initial_window_already_covers_all_volumes() {
    let vol_of: Vec<usize> = [0; 20].into_iter().chain([1; 20]).chain([2; 20]).collect();
    let spawned = initial_spawn_set(&vol_of, 8, 3);
    // Initial window is all in v0; warm-up adds v1's first (idx=20) and v2's first
    // (idx=40).
    assert_eq!(spawned.len(), 10);
    assert!(spawned.contains(&20));
    assert!(spawned.contains(&40));
}

#[test]
fn warmup_skips_volumes_already_covered_by_initial() {
    let vol_of: Vec<usize> = [0, 0, 1, 1, 1, 1].to_vec();
    // max_threads=4 covers chunks 0..4 which span v0 and v1.
    let spawned = initial_spawn_set(&vol_of, 4, 2);
    assert_eq!(spawned, vec![0, 1, 2, 3]);
}

#[test]
fn warmup_noop_for_single_volume_tasks() {
    let vol_of: Vec<usize> = vec![0; 10];
    let spawned = initial_spawn_set(&vol_of, 4, 1);
    assert_eq!(spawned, vec![0, 1, 2, 3]);
}

#[test]
fn warmup_chunk_zero_always_first() {
    let vol_of: Vec<usize> = [0; 3].into_iter().chain([1; 3]).chain([2; 3]).collect();
    let spawned = initial_spawn_set(&vol_of, 1, 3);
    assert!(spawned.contains(&0));
    // Warm-up adds first chunk of v1 (idx=3) and v2 (idx=6).
    assert!(spawned.contains(&3));
    assert!(spawned.contains(&6));
}

#[test]
fn a_client_about_to_seek_warms_one_volume_only() {
    let vol_of: Vec<usize> = [0; 3].into_iter().chain([1; 3]).chain([2; 3]).collect();
    let mut w = FetchWindow::from_layout(vol_of, 1, 1, 3);
    assert_eq!(w.fill(), vec![0]);
    assert_eq!(w.warm_up(true), vec![3]);
    assert_eq!(w.in_flight, 2);
    assert!(w.fill().is_empty(), "every slot is taken");
    w.release(0);
    w.release(1);
    assert_eq!(w.fill(), vec![1]);
}

fn simulate_spawn_set(
    vol_of: &[usize],
    max_threads: usize,
    max_per_volume: usize,
    vol_count: usize,
) -> Vec<usize> {
    FetchWindow::from_layout(vol_of.to_vec(), max_threads, max_per_volume, vol_count).fill()
}

#[test]
fn overflow_fills_idle_slots_when_only_one_volume_in_plan() {
    let vol_of: Vec<usize> = vec![0; 10];
    let spawned = simulate_spawn_set(&vol_of, 8, 4, 1);
    assert_eq!(spawned.len(), 8, "expected 8 fetchers, got {}", spawned.len());
    assert_eq!(spawned, vec![0, 1, 2, 3, 4, 5, 6, 7]);
}

#[test]
fn strict_pass_spreads_across_volumes_before_overflow() {
    let vol_of: Vec<usize> = [0; 10].into_iter().chain([1; 10]).collect();
    let spawned = simulate_spawn_set(&vol_of, 8, 4, 2);
    assert_eq!(spawned.len(), 8);
    let v0_count = spawned.iter().filter(|&&i| vol_of[i] == 0).count();
    let v1_count = spawned.iter().filter(|&&i| vol_of[i] == 1).count();
    assert_eq!(v0_count, 4, "v0 should hit its cap exactly");
    assert_eq!(v1_count, 4, "v1 should hit its cap exactly");
}

#[test]
fn overflow_kicks_in_only_after_other_volumes_exhausted() {
    let vol_of: Vec<usize> = [0; 10].into_iter().chain([1; 2]).collect();
    let spawned = simulate_spawn_set(&vol_of, 8, 4, 2);
    assert_eq!(spawned.len(), 8);
    let v0_count = spawned.iter().filter(|&&i| vol_of[i] == 0).count();
    let v1_count = spawned.iter().filter(|&&i| vol_of[i] == 1).count();
    assert_eq!(v1_count, 2, "v1 contributes its only 2 chunks");
    assert_eq!(v0_count, 6, "remaining 6 slots overflow into v0");
}

#[test]
fn no_overflow_when_total_chunks_below_max_threads() {
    let vol_of: Vec<usize> = vec![0, 0, 0];
    let spawned = simulate_spawn_set(&vol_of, 8, 4, 1);
    assert_eq!(spawned, vec![0, 1, 2]);
}

#[test]
fn plan_volume_indices_mirror_mode_all_zero() {
    let plan = vec![(0, 99), (100, 199), (200, 299)];
    assert_eq!(plan_volume_indices(&plan, None), vec![0, 0, 0]);
}

#[test]
fn plan_volume_indices_volume_mode_maps_by_offset() {
    // Volumes: [0..100), [100..250), [250..400)
    let vols = vec![vol("a", 0, 100), vol("b", 100, 150), vol("c", 250, 150)];
    let plan = plan_chunks(0, 399, 80, Some(&vols));
    let mapped = plan_volume_indices(&plan, Some(&vols));
    for ((cs, _ce), &vi) in plan.iter().zip(mapped.iter()) {
        let v = &vols[vi];
        assert!(
            *cs >= v.offset && *cs < v.offset + v.size,
            "chunk start {} not in volume {} [{},{})",
            cs,
            vi,
            v.offset,
            v.offset + v.size
        );
    }
}

#[test]
fn plan_volume_indices_skips_empty_volumes() {
    let vols = vec![vol("a", 0, 50), vol("empty", 50, 0), vol("c", 50, 50)];
    let plan = plan_chunks(0, 99, 200, Some(&vols));
    let mapped = plan_volume_indices(&plan, Some(&vols));
    assert!(!mapped.contains(&1), "empty volume must not appear in mapping");
}

#[test]
fn slice_span_single_volume_returns_unchanged() {
    let vols = vec![vol("a", 0, 1000)];
    assert_eq!(slice_span_by_volumes(Some(&vols), 100, 500), vec![(100, 500)]);
}

#[test]
fn slice_span_mirror_mode_returns_unchanged() {
    assert_eq!(slice_span_by_volumes(None, 100, 500), vec![(100, 500)]);
}

#[test]
fn slice_span_splits_across_two_volumes() {
    let vols = vec![vol("a", 0, 100), vol("b", 100, 150)];
    // Span 50..199 crosses the boundary at 100.
    assert_eq!(
        slice_span_by_volumes(Some(&vols), 50, 199),
        vec![(50, 99), (100, 199)],
    );
}

#[test]
fn slice_span_splits_across_three_volumes() {
    let vols = vec![vol("a", 0, 100), vol("b", 100, 100), vol("c", 200, 100)];
    // Span spans all three.
    assert_eq!(
        slice_span_by_volumes(Some(&vols), 50, 250),
        vec![(50, 99), (100, 199), (200, 250)],
    );
}

#[test]
fn slice_span_skips_empty_volumes() {
    let vols = vec![vol("a", 0, 100), vol("empty", 100, 0), vol("c", 100, 100)];
    assert_eq!(
        slice_span_by_volumes(Some(&vols), 50, 150),
        vec![(50, 99), (100, 150)],
    );
}

#[test]
fn slice_span_boundary_exactly_at_volume_edge() {
    let vols = vec![vol("a", 0, 100), vol("b", 100, 100)];
    // 99 is last byte of vol a, 100 is first of vol b.
    assert_eq!(
        slice_span_by_volumes(Some(&vols), 99, 100),
        vec![(99, 99), (100, 100)],
    );
}

#[test]
fn mirror_weight_unknown_mirror_is_neutral() {
    // Brand-new mirror: should get a baseline so it's sampled.
    assert_eq!(mirror_weight(0, 0, 0), 100);
}

#[test]
fn mirror_weight_fast_outweighs_slow() {
    let fast = mirror_weight(10 * 1024 * 1024, 0, 5);
    let slow = mirror_weight(100 * 1024, 0, 5);
    assert!(fast > slow * 10, "fast={} slow={}", fast, slow);
    assert_eq!((fast, slow), (10245, 105));
}

#[test]
fn mirror_weight_failures_sharply_discount() {
    let healthy = mirror_weight(1024 * 1024, 0, 10);
    let flaky = mirror_weight(1024 * 1024, 10, 10);
    assert!(healthy > flaky * 5, "healthy={} flaky={}", healthy, flaky);
}

#[test]
fn mirror_weight_never_returns_zero() {
    assert!(mirror_weight(0, 1000, 0) >= 1);
    assert_eq!(mirror_weight(5, u64::MAX, 0), 1);
}

#[test]
fn weighted_picks_walk_the_distribution() {
    let w = vec![2, 0, 3];
    let picks: Vec<usize> = (0..6).map(|i| pick_weighted(&w, i)).collect();
    assert_eq!(picks, vec![0, 0, 2, 2, 2, 0]);
    assert_eq!(pick_weighted(&vec![0, 0], 3), 1);
}

#[test]
fn range_headers_are_read() {
    let ok = |s: &str| parse_range_header(s, Some(1000)).unwrap();
    assert_eq!(ok("bytes=100-200"), (100, Some(200)));
    assert_eq!(ok(" bytes=100- "), (100, None));
    assert_eq!(ok("bytes=-50"), (950, Some(999)));
    assert_eq!(ok("bytes=-5000"), (0, Some(999)));
    assert_eq!(ok("bytes= 5 - 7 , 9-"), (5, Some(7)));
}

#[test]
fn malformed_ranges_are_refused() {
    for s in ["items=0-1", "bytes=-", "bytes=-0", "bytes=a-b", "bytes=9-5", "bytes=5-x", ""] {
        match parse_range_header(s, Some(1000)) {
            Err(ProxyError::InvalidRange(m)) => assert_eq!(m, s.trim()),
            other => panic!("{s}: {other:?}"),
        }
    }
    match parse_range_header("bytes=-5", None) {
        Err(ProxyError::InvalidRange(m)) => assert_eq!(m, "suffix range without total"),
        other => panic!("{other:?}"),
    }
    // One more than a machine word holds.
    assert!(parse_range_header("bytes=18446744073709551616-", None).is_err());
    assert_eq!(
        parse_range_header("bytes=18446744073709551615-", None).unwrap(),
        (u64::MAX, None)
    );
}

fn health(url: &str, speed: u64, failed: u64, ok: u64) -> UrlHealth {
    UrlHealth {
        url: url.to_string(),
        last_status: None,
        last_error: None,
        last_latency_ms: None,
        bytes_contributed: 0,
        successful_requests: ok,
        failed_requests: failed,
        current_speed_bps: speed,
        last_used_at: None,
        in_flight_requests: 0,
        volume_size: None,
    }
}

#[test]
fn targets_are_clipped_to_their_volume() {
    let e = Engine {
        volumes: Some(vec![vol("a", 0, 100), vol("b", 100, 150)]),
        urls: vec!["a".into(), "b".into()],
        health: vec![],
    };
    let t = e.resolve_target(0, 0, 120, 50, 400).unwrap().unwrap();
    assert_eq!((t.url.as_str(), t.local_start, t.local_end, t.merged_start), ("b", 0, 149, 100));
    assert!(e.resolve_target(0, 0, 120, 0, 99).unwrap().is_none());
    assert!(matches!(e.resolve_target(0, 0, 250, 0, 99), Err(ProxyError::NoUpstream)));
    assert_eq!(e.fetch_attempts(10), 2);
    assert!(e.is_multi_volume());
    let flat = Engine { volumes: None, urls: vec!["x".into(), "y".into()], health: vec![] };
    assert_eq!(flat.resolve_target(1, 2, 0, 5, 9).unwrap().unwrap().url, "y");
    assert_eq!(flat.fetch_attempts(0), 4);
    let none = Engine { volumes: None, urls: vec![], health: vec![] };
    assert!(matches!(none.resolve_target(0, 0, 0, 0, 1), Err(ProxyError::NoUpstream)));
}

#[test]
fn the_first_attempt_goes_by_weight_and_retries_go_round() {
    let e = Engine {
        volumes: Some(vec![VolumeMeta {
            urls: vec!["slow".into(), "fast".into()],
            offset: 0,
            size: 100,
        }]),
        urls: vec![],
        health: vec![health("slow", 1024, 0, 0), health("fast", 9 * 1024, 0, 0)],
    };
    // Weights 1 and 9.
    assert_eq!(e.resolve_target(0, 0, 0, 0, 9).unwrap().unwrap().url, "slow");
    assert_eq!(e.resolve_target(1, 0, 0, 0, 9).unwrap().unwrap().url, "fast");
    assert_eq!(e.resolve_target(0, 1, 0, 0, 9).unwrap().unwrap().url, "fast");
    assert_eq!(e.resolve_target(0, 2, 0, 0, 9).unwrap().unwrap().url, "slow");
}

#[test]
fn a_chunk_resumes_behind_what_was_delivered() {
    let e = Engine {
        volumes: Some(vec![vol("a", 0, 1000)]),
        urls: vec!["a".into()],
        health: vec![],
    };
    let mut f = ChunkFetch::new(&e, 3, 100, 299);
    match f.next(&e).unwrap() {
        FetchStep::Ask(t) => assert_eq!((t.local_start, t.local_end), (100, 299)),
        other => panic!("{other:?}"),
    }
    f.answered(false);
    assert_eq!(f.piece(50), PieceStep::Pass { lo: 0, hi: 50, at: 100 });
    f.fail(ProxyError::BadStatus(500));
    match f.next(&e).unwrap() {
        FetchStep::Ask(t) => assert_eq!((t.local_start, t.merged_start), (150, 150)),
        other => panic!("{other:?}"),
    }
    f.fail(ProxyError::BadStatus(404));
    assert!(matches!(f.next(&e).unwrap(), FetchStep::Exhausted(ProxyError::BadStatus(404))));
    assert!(matches!(f.next(&e).unwrap(), FetchStep::Exhausted(ProxyError::NoUpstream)));
}

/// Asks once more and takes the answer.
fn ask(f: &mut ChunkFetch, e: &Engine, whole: bool) {
    assert!(matches!(f.next(e).unwrap(), FetchStep::Ask(_)));
    f.answered(whole);
}

#[test]
fn a_body_that_ends_early_leaves_its_chunk_open() {
    let e = Engine {
        volumes: Some(vec![vol("a", 0, 1000)]),
        urls: vec!["a".into()],
        health: vec![],
    };
    let mut f = ChunkFetch::new(&e, 0, 100, 199);
    ask(&mut f, &e, false);
    assert_eq!(f.piece(60), PieceStep::Pass { lo: 0, hi: 60, at: 100 });
    assert!(f.ended());
    ask(&mut f, &e, false);
    // What the origin sends past the range is left.
    assert_eq!(f.piece(60), PieceStep::Pass { lo: 0, hi: 40, at: 160 });
    assert_eq!(f.piece(10), PieceStep::Stop);
    assert!(!f.ended());
    assert!(matches!(f.next(&e).unwrap(), FetchStep::Done));

    let mut f = ChunkFetch::new(&e, 0, 100, 199);
    for _ in 0..2 {
        ask(&mut f, &e, false);
        assert!(f.ended());
    }
    match f.next(&e).unwrap() {
        FetchStep::Exhausted(ProxyError::Upstream(m)) => {
            assert_eq!(m, "the body ended before the range was complete")
        }
        other => panic!("{other:?}"),
    }
    // Without a body nothing is wanted.
    assert_eq!(f.piece(1), PieceStep::Stop);
}

#[test]
fn a_range_is_cut_out_of_a_whole_file() {
    let e = Engine {
        volumes: None,
        urls: vec!["a".into()],
        health: vec![],
    };
    let mut f = ChunkFetch::new(&e, 0, 5, 7);
    ask(&mut f, &e, true);
    assert_eq!(f.piece(5), PieceStep::Skip);
    assert_eq!(f.piece(1), PieceStep::Pass { lo: 0, hi: 1, at: 5 });
    assert!(f.ended());
    ask(&mut f, &e, true);
    assert_eq!(f.piece(100), PieceStep::Pass { lo: 6, hi: 8, at: 6 });
    assert_eq!(f.piece(100), PieceStep::Stop);
    assert!(matches!(f.next(&e).unwrap(), FetchStep::Done));
}

#[test]
fn statuses_are_judged_by_where_the_bytes_go() {
    assert!(matches!(judge_cached_status(206), StatusVerdict::Range));
    match judge_cached_status(200) {
        StatusVerdict::Refused(m) => assert_eq!(m, "expected 206, got 200"),
        other => panic!("{other:?}"),
    }
    assert!(matches!(judge_status(206, true), StatusVerdict::Range));
    assert!(matches!(judge_status(200, false), StatusVerdict::Whole));
    match judge_status(200, true) {
        StatusVerdict::Refused(m) => assert_eq!(m, "volume returned 200 OK to a ranged request"),
        other => panic!("{other:?}"),
    }
    match judge_status(404, false) {
        StatusVerdict::Refused(m) => assert_eq!(m, "status 404"),
        other => panic!("{other:?}"),
    }
}

#[test]
fn pieces_are_cut_to_the_chunk() {
    assert_eq!(piece_window(0, 10, 5, 7), Some((5, 8)));
    assert_eq!(piece_window(6, 10, 5, 7), Some((0, 2)));
    assert_eq!(piece_window(8, 10, 5, 7), None);
    assert_eq!(piece_window(0, 5, 5, 7), None);
    assert_eq!(piece_window(5, 0, 5, 7), None);
    // However a span is cut, a chunk gets its own part of it.
    for step in 1..12u64 {
        let mut got = vec![];
        let mut at = 0;
        while at < 12 {
            let len = step.min(12 - at);
            if let Some((lo, hi)) = piece_window(at, len, 3, 9) {
                got.extend(at + lo..at + hi);
            }
            at += len;
        }
        assert_eq!(got, (3..=9).collect::<Vec<u64>>());
    }
}

#[test]
fn a_cached_chunk_is_served_in_runs() {
    let meta = CacheMeta {
        etag: None,
        last_modified: None,
        total_size: 200,
        content_type: None,
        block_size: 64,
        urls: vec![],
    };
    // Blocks 0 and 1 there, 2 and 3 missing.
    let e = CacheEntry::open_at("k", meta, vec![0b11], false);
    let a = next_run(&e, 0, 10, 150);
    assert!(a.hit);
    assert_eq!((a.last, a.span_start, a.span_end), (1, 10, 127));
    let b = next_run(&e, 2, 10, 150);
    assert!(!b.hit);
    assert_eq!((b.last, b.span_start, b.span_end), (2, 128, 150));
    assert_eq!((b.from, b.to), (128, 191));
    assert_eq!(next_run(&e, 2, 10, 199).to, 199);
}

#[test]
fn a_stream_window_is_planned_from_the_request() {
    let mib = 1024 * 1024;
    let w = FetchWindow::new(0, 10 * mib - 1, true, 4 * mib, 8, 2, None);
    assert_eq!(w.plan.len(), 7);
    assert_eq!(w.plan[0], (0, 256 * 1024 - 1));
    assert_eq!(w.plan[4], (mib, 4 * mib - 1));
    let bounded = FetchWindow::new(0, 10 * mib - 1, false, 4 * mib, 0, 0, None);
    assert_eq!(bounded.plan.len(), 3);
    assert_eq!((bounded.max_threads, bounded.max_per_volume), (1, 1));
    // A split below the floor is raised to it.
    let tiny = FetchWindow::new(0, 128 * 1024 - 1, false, 1, 1, 1, None);
    assert_eq!(tiny.plan.len(), 2);
}

#[test]
fn an_offset_is_found_in_its_volume() {
    let e = Engine {
        volumes: Some(vec![vol("a", 0, 100), vol("b", 100, 150)]),
        urls: vec![],
        health: vec![],
    };
    assert_eq!(e.volume_at(99), Some(0));
    assert_eq!(e.volume_at(100), Some(1));
    assert_eq!(e.volume_at(250), None);
}

#[test]
fn an_origin_that_asks_for_less_load_is_told_apart() {
    assert!(matches!(
        refusal(429, Some(" 7 ")),
        ProxyError::Throttled { status: 429, retry_after: Some(7000) }
    ));
    assert!(matches!(
        refusal(503, Some("Wed, 21 Oct 2015 07:28:00 GMT")),
        ProxyError::Throttled { status: 503, retry_after: None }
    ));
    assert!(matches!(refusal(404, Some("7")), ProxyError::BadStatus(404)));
    assert!(matches!(
        refusal(429, Some("18446744073709551615")),
        ProxyError::Throttled { retry_after: Some(RETRY_AFTER_MAX), .. }
    ));
}

fn piece(at: u64, len: u64) -> Drained {
    Drained::Piece { at, len }
}

#[test]
fn a_client_reads_the_range_in_order() {
    let mut d = Drain::new(&vec![(10, 19), (20, 24)]);
    assert_eq!(d.turn(), Some(0));
    assert_eq!(d.took(piece(10, 4)), DrainStep::Forward);
    assert_eq!(d.took(piece(14, 6)), DrainStep::Forward);
    assert_eq!(d.took(Drained::End), DrainStep::Skip);
    assert_eq!(d.turn(), Some(1));
    assert_eq!(d.took(piece(20, 5)), DrainStep::Forward);
    assert_eq!(d.took(Drained::End), DrainStep::Skip);
    assert_eq!((d.turn(), d.stopped, d.next), (None, false, 25));

    // A failure is passed on and is the last thing.
    let mut d = Drain::new(&vec![(10, 19)]);
    assert_eq!(d.took(Drained::Failure), DrainStep::ForwardAndStop);
    assert_eq!(d.turn(), None);
    assert_eq!(d.took(piece(10, 1)), DrainStep::Stop);

    // Nothing is passed on that leaves a gap, comes twice or goes too far, and no
    // chunk ends early.
    for bad in [piece(11, 1), piece(9, 1), piece(10, 11), Drained::End] {
        let mut d = Drain::new(&vec![(10, 19), (20, 24)]);
        assert_eq!(d.took(bad), DrainStep::FailAndStop);
        assert!(d.stopped);
    }

    let mut d = Drain::new(&vec![(10, 19)]);
    assert_eq!(d.client_gone(), DrainStep::Stop);
    assert_eq!(d.turn(), None);
}

#[test]
fn a_stream_is_put_together_out_of_short_answers() {
    let e = Engine {
        volumes: Some(vec![vol("a", 0, 100)]),
        urls: vec!["a".into(), "b".into()],
        health: vec![],
    };
    let file: Vec<u8> = (0..100).collect();
    let window = FetchWindow::new(3, 90, false, 0, 2, 2, e.volumes.as_ref());
    let mut drain = Drain::new(&window.plan);
    let mut read: Vec<u8> = vec![];
    while let Some(k) = drain.turn() {
        let (lo, hi) = window.plan[k];
        let mut f = ChunkFetch::new(&e, k, lo, hi);
        while let FetchStep::Ask(t) = f.next(&e).unwrap() {
            f.answered(false);
            // The origin gives two pieces and goes away.
            let body = &file[t.local_start as usize..];
            for part in body.chunks(22).take(2) {
                if let PieceStep::Pass { lo, hi, at } = f.piece(part.len() as u64) {
                    let data = &part[lo as usize..hi as usize];
                    assert_eq!(drain.took(piece(at, data.len() as u64)), DrainStep::Forward);
                    read.extend(data);
                }
            }
            f.ended();
        }
        assert_eq!(drain.took(Drained::End), DrainStep::Skip);
    }
    assert!(!drain.stopped);
    assert_eq!(read, file[3..=90]);
}

#[test]
fn a_walk_over_blocks_leaves_nothing_out() {
    let meta = CacheMeta {
        etag: None,
        last_modified: None,
        total_size: 200,
        content_type: None,
        block_size: 64,
        urls: vec![],
    };
    let e = CacheEntry::open_at("k", meta, vec![0b101], false);
    let mut w = BlockWalk::new(&e, 10, 180);
    let mut spans = vec![];
    while let Some(r) = w.next(&e) {
        spans.push((r.hit, r.span_start, r.span_end));
    }
    assert_eq!(spans, vec![(true, 10, 63), (false, 64, 127), (true, 128, 180)]);
}

#[test]
fn a_body_that_is_passed_through_lies_from_the_first_byte_on() {
    let mut p = Passthrough::new();
    assert_eq!((p.piece(10), p.piece(0), p.piece(5)), (Some(0), Some(10), Some(10)));
    assert_eq!((p.piece(u64::MAX), p.at), (None, 15));
}
