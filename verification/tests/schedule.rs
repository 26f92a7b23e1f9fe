use hydraria::engine::VolumeMeta;
use hydraria::schedule::{
    Claim, ClaimWall, Scheduler, Strategy, CLAIM_WALL_TTL, DEAD_CLAIM_WINDOW, MIN_CLAIM,
    MIN_FRAGMENT, OVERLOAD_BACKOFF_MAX, OVERLOAD_STRIKES_MAX, RECOVERY_CLAIM,
};
use std::sync::Arc;

fn vol(offset: u64, size: u64) -> VolumeMeta {
    VolumeMeta {
        urls: vec!["u".to_string()],
        offset,
        size,
    }
}

fn sched(strategy: Strategy, threads: usize, cap: Option<u64>) -> Scheduler {
    Scheduler::new(
        0,
        100 * MIN_CLAIM - 1,
        strategy,
        None,
        threads,
        threads,
        cap,
        &[],
    )
}

/// The claim of `worker` as it stands.
fn now_of(s: &Scheduler, worker: usize) -> Claim {
    s.claim_of(worker).expect("a live claim")
}

/// Hand out a claim, deliver nothing, and report the failure. Returns the claim's
/// issued length and whether the failure was charged.
fn fail_empty(s: &mut Scheduler, worker: usize) -> (u64, bool) {
    let c = s.claim(worker).expect("a claim to fail");
    s.finish(worker, c.cursor());
    (c.issued_len(), s.note_claim_outcome(false, &c))
}

/// Hand out a claim, deliver all of it, and report success.
fn succeed(s: &mut Scheduler, worker: usize) -> u64 {
    let c = s.claim(worker).expect("a claim to run");
    s.advance_to(worker, c.end() + 1);
    let c = now_of(s, worker);
    s.finish(worker, c.cursor());
    s.note_claim_outcome(true, &c);
    c.issued_len()
}

#[test]
fn a_healthy_scheduler_never_makes_a_worker_wait() {
    let s = sched(Strategy::Throughput, 8, None);
    assert_eq!(s.overload_strikes(), 0);
    for worker in 0..8 {
        assert_eq!(s.overload_backoff(worker), None);
    }
}

#[test]
fn overload_backoff_grows_multiplicatively_and_caps() {
    let mut s = sched(Strategy::Throughput, 8, None);
    let mut last = 0;
    for _ in 0..OVERLOAD_STRIKES_MAX {
        s.note_overload(None);
        // Worker 0's jitter offset is 0, so it reads the base pause exactly.
        let now = s.overload_backoff(0).unwrap();
        assert!(now >= last, "backoff must not shrink while strikes climb");
        last = now;
    }
    assert_eq!(s.overload_strikes(), OVERLOAD_STRIKES_MAX);
    for _ in 0..4 {
        s.note_overload(None);
    }
    assert_eq!(s.overload_strikes(), OVERLOAD_STRIKES_MAX);
    assert_eq!(s.overload_backoff(0).unwrap(), OVERLOAD_BACKOFF_MAX);
}

#[test]
fn the_backoff_ladder_doubles_from_a_quarter_second() {
    let mut s = sched(Strategy::Throughput, 8, None);
    for pause in [250, 500, 1000, 2000, 4000, 8000, 8000] {
        s.note_overload(None);
        assert_eq!(s.overload_backoff(0), Some(pause));
    }
    // 3 × 2654435761 mod 8000 = 3283.
    assert_eq!(s.overload_backoff(3), Some(8000 + 3283));
}

#[test]
fn overload_backoff_staggers_workers_instead_of_pausing_them_together() {
    let mut s = sched(Strategy::Throughput, 8, None);
    s.note_overload(None);
    s.note_overload(None);
    let waits: std::collections::HashSet<_> =
        (0..8).map(|w| s.overload_backoff(w).unwrap()).collect();
    assert!(
        waits.len() > 1,
        "all workers got the same pause, so they will resynchronise: {waits:?}"
    );
}

#[test]
fn a_successful_claim_works_off_one_strike() {
    let mut s = sched(Strategy::Throughput, 4, None);
    s.note_overload(None);
    s.note_overload(None);
    assert_eq!(s.overload_strikes(), 2);

    let c = s.claim(0).expect("a fresh scheduler has work");
    s.finish(0, c.end());
    s.note_claim_outcome(true, &c);
    assert_eq!(s.overload_strikes(), 1, "success is evidence, so decay by one");

    let c = s.claim(0).expect("still work left");
    s.finish(0, c.end());
    s.note_claim_outcome(true, &c);
    assert_eq!(s.overload_strikes(), 0);
    assert_eq!(s.overload_backoff(0), None, "recovered pools do not wait");
}

#[test]
fn a_fresh_wall_remembers_nothing() {
    let mut w = ClaimWall::new();
    assert_eq!(w.get(), None);
    let plain = sched(Strategy::Throughput, 8, None);
    let seeded = sched(Strategy::Throughput, 8, None).with_claim_wall(ClaimWall::new());
    assert_eq!(seeded.auto_limit(), plain.auto_limit());
    assert_eq!(seeded.auto_claim_len(), plain.auto_claim_len());
}

#[test]
fn the_wall_only_tightens() {
    let mut w = ClaimWall::new();
    w.record(32 * MIN_CLAIM);
    w.record(8 * MIN_CLAIM);
    assert_eq!(w.get(), Some(8 * MIN_CLAIM));
    // A later, larger failure says nothing new — it must not widen.
    w.record(64 * MIN_CLAIM);
    assert_eq!(w.get(), Some(8 * MIN_CLAIM));
    w.clear();
    assert_eq!(w.get(), None);
}

#[test]
fn a_learned_wall_seeds_the_next_scheduler() {
    let wall = ClaimWall::new();

    // First request: a big claim times out having delivered nothing.
    let mut first = sched(Strategy::Throughput, 4, None).with_claim_wall(wall);
    let c = first.claim(0).expect("fresh scheduler has work");
    first.finish(0, c.start);
    first.note_claim_outcome(false, &c);
    let mut wall = first.claim_wall().expect("the wall is shared");
    let learned = wall.get().expect("the failure must be remembered");

    let second = sched(Strategy::Throughput, 4, None).with_claim_wall(wall);
    assert_eq!(second.auto_limit(), Some(RECOVERY_CLAIM.min(learned)));
    assert!(
        second.auto_claim_len() <= learned,
        "a seeded scheduler must not re-issue a claim above the wall"
    );
}

#[test]
fn the_wall_expires_so_one_bad_minute_is_not_permanent() {
    let mut w = ClaimWall::new();
    w.record(MIN_CLAIM);
    assert_eq!(w.get(), Some(MIN_CLAIM));
    w.set_now(CLAIM_WALL_TTL + 1_000_000_000);
    assert_eq!(w.get(), None);
}

#[test]
fn a_retry_after_hint_raises_the_floor_but_never_lowers_it() {
    // Server asks for much longer than our first-strike pause.
    let mut generous = sched(Strategy::Throughput, 4, None);
    generous.note_overload(Some(30_000));
    assert!(
        generous.overload_backoff(0).unwrap() >= 30_000,
        "an explicit Retry-After must be honoured when it exceeds our ladder"
    );

    let mut stingy = sched(Strategy::Throughput, 4, None);
    for _ in 0..OVERLOAD_STRIKES_MAX {
        stingy.note_overload(Some(1));
    }
    let ours = OVERLOAD_BACKOFF_MAX;
    assert!(
        stingy.overload_backoff(0).unwrap() >= ours,
        "a tiny Retry-After must not undercut the escalation we earned"
    );
}

#[test]
fn a_retry_after_hint_is_still_jittered() {
    let mut s = sched(Strategy::Throughput, 8, None);
    s.note_overload(Some(10_000));
    let waits: std::collections::HashSet<_> =
        (0..8).map(|w| s.overload_backoff(w).unwrap()).collect();
    assert!(waits.len() > 1, "server-dictated waits resynchronised the pool");
}

#[test]
fn recovery_forgets_the_retry_after_hint() {
    let mut s = sched(Strategy::Throughput, 4, None);
    s.note_overload(Some(45_000));

    let c = s.claim(0).expect("fresh scheduler has work");
    s.finish(0, c.end());
    s.note_claim_outcome(true, &c);
    assert_eq!(s.overload_strikes(), 0);
    assert_eq!(s.overload_backoff(0), None);

    s.note_overload(None);
    assert!(s.overload_backoff(0).unwrap() < 45_000);
}

#[test]
fn the_first_claim_is_already_a_full_even_split() {
    let mut s = sched(Strategy::Throughput, 4, None);
    let first = s.claim(0).unwrap();
    assert_eq!(
        first.issued_len(),
        25 * MIN_CLAIM,
        "100 MiB over 4 workers is 25 MiB each, from the very first claim",
    );
}

#[test]
fn throughput_splits_request_across_threads() {
    let mut s = sched(Strategy::Throughput, 4, None);
    let a = s.claim(0).unwrap();
    assert_eq!(a.start, 0);
    assert_eq!(a.end() - a.start + 1, 25 * MIN_CLAIM);
    let b = s.claim(1).unwrap();
    assert_eq!(b.start, a.end() + 1);
    let c = s.claim(2).unwrap();
    let d = s.claim(3).unwrap();
    assert_eq!(d.end(), 100 * MIN_CLAIM - 1);
    assert_eq!(s.unclaimed_bytes(), 0);
    // Claims tile the request exactly.
    assert_eq!(b.end() + 1, c.start);
    assert_eq!(c.end() + 1, d.start);
}

#[test]
fn explicit_split_cap_is_honoured() {
    let mut s = sched(Strategy::Throughput, 4, Some(4 * MIN_CLAIM));
    let a = s.claim(0).unwrap();
    assert_eq!(a.end() - a.start + 1, 4 * MIN_CLAIM);
}

#[test]
fn an_explicit_split_cap_bounds_playback_claims_too() {
    let mut s = Scheduler::new(
        0,
        1000 * MIN_CLAIM - 1,
        Strategy::Latency {
            critical_window: 8 * MIN_CLAIM,
            head_claim: 2 * MIN_CLAIM,
        },
        None,
        8,
        8,
        Some(3 * MIN_CLAIM),
        &[],
    );
    s.set_read_head(500 * MIN_CLAIM);
    for w in 0..6 {
        let c = s.claim(w).unwrap();
        assert!(
            c.issued_len() <= 3 * MIN_CLAIM,
            "claim {} ran past the configured ceiling at {} B",
            w,
            c.issued_len(),
        );
    }
}

#[test]
fn a_claim_that_delivers_nothing_drops_sizing_in_one_step() {
    let mut s = sched(Strategy::Throughput, 4, None);
    let (issued, charged) = fail_empty(&mut s, 0);
    assert_eq!(issued, 25 * MIN_CLAIM);
    assert_eq!(s.auto_limit(), Some(RECOVERY_CLAIM));
    assert_eq!(s.claim(0).unwrap().issued_len(), RECOVERY_CLAIM);
    assert!(
        !charged,
        "a failure the scheduler answers by resizing is its own to absorb",
    );
}

#[test]
fn one_bad_round_neither_compounds_nor_exhausts_the_budget() {
    let mut s = sched(Strategy::Throughput, 4, None);
    let claims: Vec<Claim> = (0..4).map(|w| s.claim(w).unwrap()).collect();
    let mut charged = 0;
    for (worker, c) in claims.iter().enumerate() {
        s.finish(worker, c.cursor());
        if s.note_claim_outcome(false, c) {
            charged += 1;
        }
    }
    assert_eq!(charged, 0);
    assert_eq!(s.auto_limit(), Some(RECOVERY_CLAIM));
}

#[test]
fn recovery_climbs_back_but_never_past_the_wall() {
    let mut s = sched(Strategy::Throughput, 4, None);
    let (issued, _) = fail_empty(&mut s, 0);
    let wall = issued / 2;
    assert_eq!(s.auto_limit(), Some(RECOVERY_CLAIM));
    for _ in 0..3 {
        succeed(&mut s, 0);
    }
    assert_eq!(s.auto_limit(), Some(wall));
}

#[test]
fn repeated_empty_failures_bottom_out_at_min_claim() {
    let mut s = sched(Strategy::Throughput, 4, None);
    for _ in 0..20 {
        fail_empty(&mut s, 0);
    }
    assert_eq!(s.auto_limit(), Some(MIN_CLAIM));
    assert_eq!(s.claim(0).unwrap().issued_len(), MIN_CLAIM);
}

#[test]
fn a_failure_after_real_progress_is_charged_and_leaves_sizing_alone() {
    let mut s = sched(Strategy::Throughput, 4, None);
    let c = s.claim(0).unwrap();
    s.advance_to(0, c.start + MIN_FRAGMENT);
    let c = now_of(&s, 0);
    s.finish(0, c.cursor());
    assert!(s.note_claim_outcome(false, &c));
    assert_eq!(s.auto_limit(), None);
}

#[test]
fn a_failure_after_any_progress_at_all_is_charged() {
    let mut s = Scheduler::new(0, 104_857_599, Strategy::Throughput, None, 4, 4, None, &[]);
    s.claim(0).unwrap();
    s.advance_to(0, 1_048_576);
    let c = now_of(&s, 0);
    s.finish(0, 1_048_576);
    assert!(s.note_claim_outcome(false, &c));
    assert_eq!(s.auto_limit(), None);
}

#[test]
fn unlimited_split_can_exceed_any_fixed_size() {
    let mut s = sched(Strategy::Throughput, 1, None);
    let a = s.claim(0).unwrap();
    assert_eq!(a.start, 0);
    let len = a.end() - a.start + 1;
    assert_eq!(len, 100 * MIN_CLAIM);
    assert!(len > 5 * 1024 * 1024 * 10, "must dwarf the old 5 MiB default");
}

#[test]
fn latency_packs_the_pool_into_equal_claims_behind_the_reader() {
    let mut s = Scheduler::new(
        0,
        1000 * MIN_CLAIM - 1,
        Strategy::Latency {
            critical_window: 8 * MIN_CLAIM,
            head_claim: 2 * MIN_CLAIM,
        },
        None,
        8,
        8,
        None,
        &[],
    );
    s.set_read_head(500 * MIN_CLAIM);
    let mut at = 500 * MIN_CLAIM;
    for worker in 0..5 {
        let c = s.claim(worker).unwrap();
        assert_eq!(c.start, at, "claims must tile forward from the read head");
        assert_eq!(
            c.issued_len(),
            2 * MIN_CLAIM,
            "every worker takes the same short claim, not a longer one further out",
        );
        at = c.end() + 1;
    }
}

#[test]
fn latency_claims_grow_with_the_readers_buffer() {
    let threads = 8;
    let mut s = Scheduler::new(
        0,
        1000 * MIN_CLAIM - 1,
        Strategy::Latency {
            critical_window: 8 * MIN_CLAIM,
            head_claim: 2 * MIN_CLAIM,
        },
        None,
        threads,
        threads,
        None,
        &[],
    );
    s.set_read_head(100 * MIN_CLAIM);
    assert_eq!(s.claim(0).unwrap().issued_len(), 2 * MIN_CLAIM, "no buffer");

    s.set_reader_buffer(80 * MIN_CLAIM);
    assert_eq!(
        s.claim(1).unwrap().issued_len(),
        10 * MIN_CLAIM,
        "80 MiB of runway over 8 workers is a 10 MiB claim each",
    );

    s.set_read_head(300 * MIN_CLAIM);
    assert_eq!(
        s.claim(2).unwrap().issued_len(),
        2 * MIN_CLAIM,
        "moving the read head must reset sizing to the short claim",
    );
}

#[test]
fn latency_window_is_at_least_as_deep_as_the_worker_pool() {
    let threads = 8;
    let mut s = Scheduler::new(
        0,
        1000 * MIN_CLAIM - 1,
        Strategy::Latency {
            // Deliberately tiny: the pool depth must win.
            critical_window: MIN_CLAIM,
            head_claim: MIN_CLAIM,
        },
        None,
        threads,
        threads,
        None,
        &[],
    );
    s.set_read_head(500 * MIN_CLAIM);
    for w in 0..threads {
        let c = s.claim(w).unwrap();
        assert!(
            c.start >= 500 * MIN_CLAIM,
            "worker {} was pushed out of the window to {}",
            w,
            c.start,
        );
    }
}

#[test]
fn latency_prefetches_elsewhere_once_the_window_is_full() {
    let mut s = Scheduler::new(
        0,
        100 * MIN_CLAIM - 1,
        Strategy::Latency {
            critical_window: 4 * MIN_CLAIM,
            head_claim: MIN_CLAIM,
        },
        None,
        1,
        4,
        None,
        &[],
    );
    s.set_read_head(50 * MIN_CLAIM);
    for (i, worker) in (0..4).enumerate() {
        let c = s.claim(worker).unwrap();
        assert_eq!(c.start, (50 + i as u64) * MIN_CLAIM);
        assert_eq!(c.issued_len(), MIN_CLAIM);
    }
    let d = s.claim(4).unwrap();
    assert_eq!(d.start, 0, "prefetch starts at the earliest gap");
}

#[test]
fn a_work_limit_keeps_the_pool_ahead_of_the_reader() {
    let mut s = Scheduler::new(
        0,
        100 * MIN_CLAIM - 1,
        Strategy::Latency {
            critical_window: 2 * MIN_CLAIM,
            head_claim: MIN_CLAIM,
        },
        None,
        1,
        4,
        Some(MIN_CLAIM),
        &[],
    );
    s.set_read_head(50 * MIN_CLAIM);
    s.set_work_limit(Some(4 * MIN_CLAIM));
    for i in 0..4 {
        let c = s.claim(i).unwrap();
        assert_eq!(c.start, (50 + i as u64) * MIN_CLAIM);
    }
    assert!(
        s.claim(9).is_none(),
        "a bounded pool must not wander outside the reader's horizon",
    );
}

#[test]
fn lifting_the_work_limit_opens_up_the_whole_file() {
    let mut s = sched(Strategy::Throughput, 1, Some(MIN_CLAIM));
    s.set_read_head(50 * MIN_CLAIM);
    s.set_work_limit(Some(MIN_CLAIM));
    let inside = s.claim(0).unwrap();
    assert_eq!(inside.start, 50 * MIN_CLAIM);
    assert!(s.claim(1).is_none(), "horizon is one claim deep");
    s.set_work_limit(None);
    assert_eq!(s.claim(1).unwrap().start, 0);
}

/// A latency-mode scheduler over a 1000 MiB request with a 4 MiB head claim.
fn playback_sched(threads: usize, cap: Option<u64>) -> Scheduler {
    Scheduler::new(
        0,
        1000 * MIN_CLAIM - 1,
        Strategy::Latency {
            critical_window: 8 * MIN_CLAIM,
            head_claim: 4 * MIN_CLAIM,
        },
        None,
        threads,
        threads,
        cap,
        &[],
    )
}

#[test]
fn refocusing_keeps_delivered_bytes() {
    let mut s = playback_sched(4, Some(4 * MIN_CLAIM));
    let far = s.claim(0).unwrap();
    let near = s.claim(1).unwrap();
    assert_eq!(far.start, 0);
    // Worker 0 delivered the first megabyte of its claim before the seek.
    s.advance_to(0, MIN_CLAIM);

    s.set_read_head(near.start);
    let stale = s.refocus_on_reader(MIN_CLAIM);
    assert_eq!(stale, vec![0], "only the far worker is reclaimed");

    assert!(
        s.unclaimed_ranges().contains(&(MIN_CLAIM, 4 * MIN_CLAIM - 1)),
        "refetching must resume at the cursor, not at the claim's start; unclaimed = {:?}",
        s.unclaimed_ranges(),
    );
}

#[test]
fn refocusing_leaves_the_reader_s_own_request_alone() {
    let mut s = playback_sched(4, Some(4 * MIN_CLAIM));
    let first = s.claim(0).unwrap();
    s.set_read_head(first.start);
    assert!(
        s.refocus_on_reader(8 * MIN_CLAIM).is_empty(),
        "a claim the reader is sitting on must not be cancelled",
    );
}

/// A throughput-sized claim handed out before any reader existed, with the
/// strategy then flipped to playback.
fn downloading_then_playing(threads: usize) -> (Scheduler, Claim) {
    let mut s = Scheduler::new(
        0,
        1000 * MIN_CLAIM - 1,
        Strategy::Throughput,
        None,
        threads,
        threads,
        None,
        &[],
    );
    let big = s.claim(0).unwrap();
    s.set_strategy(Strategy::Latency {
        critical_window: 8 * MIN_CLAIM,
        head_claim: 4 * MIN_CLAIM,
    });
    (s, big)
}

#[test]
fn a_reader_never_waits_out_the_claim_it_is_stuck_behind() {
    let (mut s, big) = downloading_then_playing(4);
    assert_eq!(big.issued_len(), 250 * MIN_CLAIM, "a full even share");
    s.advance_to(0, 200 * MIN_CLAIM);

    s.set_read_head(220 * MIN_CLAIM);
    assert_eq!(s.refocus_on_reader(32 * MIN_CLAIM), vec![0]);

    let next = s.claim(0).unwrap();
    assert_eq!(next.start, 220 * MIN_CLAIM);
    assert_eq!(next.issued_len(), 4 * MIN_CLAIM, "a head claim, not a slab");
}

#[test]
fn a_claim_the_reader_is_about_to_reach_is_left_running() {
    let (mut s, _big) = downloading_then_playing(4);
    s.advance_to(0, 199 * MIN_CLAIM);
    s.set_read_head(200 * MIN_CLAIM);
    assert!(
        s.refocus_on_reader(32 * MIN_CLAIM).is_empty(),
        "a claim within a head claim's reach of the reader must keep going",
    );
}

#[test]
fn over_long_claims_ahead_of_the_reader_are_shortened_not_killed() {
    let (mut s, big) = downloading_then_playing(4);
    let before = big.end();
    s.advance_to(0, 4 * MIN_CLAIM);
    s.set_read_head(0);

    assert!(
        s.refocus_on_reader(32 * MIN_CLAIM).is_empty(),
        "shortening must not abort the worker",
    );
    // Shortened to one claim's worth from the cursor.
    assert_eq!(now_of(&s, 0).end(), 8 * MIN_CLAIM - 1);
    assert!(
        s.unclaimed_ranges()
            .iter()
            .any(|&(start, end)| start == 8 * MIN_CLAIM && end >= before),
        "the surrendered tail must be claimable again; unclaimed = {:?}",
        s.unclaimed_ranges(),
    );
    let next = s.claim(1).unwrap();
    assert_eq!(next.start, 8 * MIN_CLAIM);
    assert_eq!(next.issued_len(), 4 * MIN_CLAIM);
}

#[test]
fn latency_window_follows_the_read_head() {
    let mut s = Scheduler::new(
        0,
        100 * MIN_CLAIM - 1,
        Strategy::Latency {
            critical_window: 4 * MIN_CLAIM,
            head_claim: MIN_CLAIM,
        },
        None,
        8,
        8,
        None,
        &[],
    );
    let a = s.claim(0).unwrap();
    assert_eq!(a.start, 0);
    s.set_read_head(70 * MIN_CLAIM);
    let b = s.claim(1).unwrap();
    assert_eq!(b.start, 70 * MIN_CLAIM);
}

#[test]
fn claims_never_span_a_volume_boundary() {
    let vols = Arc::new(vec![
        vol(0, 10 * MIN_CLAIM),
        vol(10 * MIN_CLAIM, 10 * MIN_CLAIM),
    ]);
    let mut s = Scheduler::new(
        0,
        20 * MIN_CLAIM - 1,
        Strategy::Throughput,
        Some(vols),
        1,
        4,
        None,
        &[],
    );
    let a = s.claim(0).unwrap();
    assert_eq!(a.start, 0);
    assert_eq!(a.end(), 10 * MIN_CLAIM - 1);
    assert_eq!(a.volume, 0);
    let b = s.claim(0).unwrap();
    assert_eq!(b.start, 10 * MIN_CLAIM);
    assert_eq!(b.volume, 1);
}

#[test]
fn per_volume_cap_overflows_inside_the_critical_window() {
    let vols = Arc::new(vec![
        vol(0, 10 * MIN_CLAIM),
        vol(10 * MIN_CLAIM, 10 * MIN_CLAIM),
        vol(20 * MIN_CLAIM, 10 * MIN_CLAIM),
    ]);
    let mut s = Scheduler::new(
        0,
        30 * MIN_CLAIM - 1,
        Strategy::Latency {
            critical_window: 8 * MIN_CLAIM,
            head_claim: MIN_CLAIM,
        },
        Some(vols),
        8,
        2,
        None,
        &[],
    );
    let claims: Vec<Claim> = (0..4).filter_map(|w| s.claim(w)).collect();
    assert_eq!(claims.len(), 4);
    assert!(
        claims.iter().all(|c| c.volume == 0),
        "all four must stay in the window's volume, got {:?}",
        claims.iter().map(|c| c.volume).collect::<Vec<_>>(),
    );
}

#[test]
fn the_volume_cap_sends_a_download_to_another_volume() {
    let vols = Arc::new(vec![
        vol(0, 20 * MIN_CLAIM),
        vol(20 * MIN_CLAIM, 10 * MIN_CLAIM),
    ]);
    let mut s = Scheduler::new(
        0,
        30 * MIN_CLAIM - 1,
        Strategy::Throughput,
        Some(vols),
        4,
        1,
        Some(2 * MIN_CLAIM),
        &[],
    );
    assert_eq!(s.claim(0).unwrap().volume, 0);
    // The only gap now begins in volume 0, which has its share: the strict look
    // finds nothing and the loose one takes it all the same.
    assert_eq!(s.claim(1).unwrap().start, 2 * MIN_CLAIM);
}

#[test]
fn steals_the_back_half_when_nothing_is_unclaimed() {
    let mut s = Scheduler::new(
        0,
        32 * MIN_CLAIM - 1,
        Strategy::Throughput,
        None,
        1,
        1,
        None,
        &[],
    );
    let victim = s.claim(0).unwrap();
    assert_eq!(s.unclaimed_bytes(), 0, "one worker took everything");
    let original_end = victim.end();

    let thief = s.claim(1).unwrap();
    let victim = now_of(&s, 0);
    assert_eq!(victim.end(), original_end / 2, "victim was cut in half");
    assert_eq!(thief.start, victim.end() + 1);
    assert_eq!(thief.end(), original_end);
    // The victim must notice its shrunken end rather than overrunning.
    s.advance_to(0, victim.end() + 1);
    assert!(now_of(&s, 0).is_complete());
}

#[test]
fn stealing_accounts_for_delivered_bytes() {
    let mut s = Scheduler::new(
        0,
        32 * MIN_CLAIM - 1,
        Strategy::Throughput,
        None,
        1,
        1,
        None,
        &[],
    );
    let victim = s.claim(0).unwrap();
    let end = victim.end();
    s.advance_to(0, end - 10 * MIN_CLAIM + 1); // 10 MiB left
    let thief = s.claim(1).unwrap();
    assert_eq!(thief.end(), end);
    assert_eq!(now_of(&s, 0).end(), end - 5 * MIN_CLAIM);
    assert_eq!(thief.start, end - 5 * MIN_CLAIM + 1);
}

#[test]
fn refuses_to_steal_slivers() {
    let mut s = Scheduler::new(0, MIN_CLAIM, Strategy::Throughput, None, 1, 1, None, &[]);
    let _only = s.claim(0).unwrap();
    assert!(s.claim(1).is_none());
}

#[test]
fn already_staged_ranges_are_not_refetched() {
    let mut s = Scheduler::new(
        0,
        10 * MIN_CLAIM - 1,
        Strategy::Throughput,
        None,
        4,
        4,
        None,
        &[(0, 4 * MIN_CLAIM - 1)],
    );
    assert_eq!(s.unclaimed_bytes(), 6 * MIN_CLAIM);
    let a = s.claim(0).unwrap();
    assert_eq!(a.start, 4 * MIN_CLAIM, "resumes past the staged prefix");
}

#[test]
fn finish_returns_undelivered_tail_to_the_pool() {
    let mut s = sched(Strategy::Throughput, 4, None);
    let a = s.claim(0).unwrap();
    let end = a.end();
    // Worker died after delivering 1 MiB.
    s.finish(0, a.start + MIN_CLAIM);
    assert_eq!(s.unclaimed_bytes(), 100 * MIN_CLAIM - MIN_CLAIM);
    // The give-back is reusable and contiguous with what followed it.
    let b = s.claim(1).unwrap();
    assert_eq!(b.start, MIN_CLAIM);
    let _ = end;
}

#[test]
fn finish_after_full_delivery_adds_nothing_back() {
    let mut s = sched(Strategy::Throughput, 4, None);
    let a = s.claim(0).unwrap();
    let before = s.unclaimed_bytes();
    s.finish(0, a.end() + 1);
    assert_eq!(s.unclaimed_bytes(), before);
}

#[test]
fn drains_and_then_returns_none() {
    let mut s = Scheduler::new(
        0,
        2 * MIN_CLAIM - 1,
        Strategy::Throughput,
        None,
        2,
        2,
        None,
        &[],
    );
    let a = s.claim(0).unwrap();
    let b = s.claim(1).unwrap();
    assert!(!s.is_drained());
    s.advance_to(0, a.end() + 1);
    s.finish(0, a.end() + 1);
    s.advance_to(1, b.end() + 1);
    s.finish(1, b.end() + 1);
    assert!(s.is_drained());
    assert!(s.claim(0).is_none());
}

/// A request whose ledger already has holes punched in it: two narrow gaps low in
/// the file, one wide gap high up.
fn fragmented(strategy: Strategy) -> Scheduler {
    Scheduler::new(
        0,
        600 * MIN_CLAIM - 1,
        strategy,
        None,
        4,
        4,
        Some(4 * MIN_CLAIM),
        &[
            (2 * MIN_CLAIM, 3 * MIN_CLAIM - 1),
            (5 * MIN_CLAIM, 100 * MIN_CLAIM - 1),
        ],
    )
}

#[test]
fn claims_come_out_of_the_largest_gap() {
    let mut s = fragmented(Strategy::Throughput);
    assert_eq!(
        s.claim(0).unwrap().start,
        100 * MIN_CLAIM,
        "expected the 500 MiB gap, not one of the 2 MiB slivers below it",
    );
}

#[test]
fn the_critical_window_still_takes_the_nearest_gap() {
    let mut s = fragmented(Strategy::Latency {
        critical_window: 600 * MIN_CLAIM,
        head_claim: MIN_CLAIM,
    });
    assert_eq!(
        s.claim(0).unwrap().start,
        0,
        "the reader's window must be filled front-to-back, not widest-first",
    );
}

#[test]
fn the_tail_relaxes_fragments_to_one_megabyte() {
    let mut s = Scheduler::new(
        0,
        32 * MIN_CLAIM - 1,
        Strategy::Throughput,
        None,
        1,
        1,
        None,
        &[],
    );
    let victim = s.claim(0).unwrap();
    s.advance_to(0, victim.end() - 12 * MIN_CLAIM + 1);
    assert!(s.in_tail(), "32 MiB left is inside the endgame threshold");
    let thief = s.claim(1).expect("tail fragments relax to MIN_CLAIM");
    assert_eq!(thief.end() - thief.start + 1, 6 * MIN_CLAIM);
}

#[test]
fn playback_is_not_held_to_the_download_fragment_floor() {
    let mut s = Scheduler::new(
        0,
        4000 * MIN_CLAIM - 1,
        Strategy::Latency {
            critical_window: 4 * MIN_CLAIM,
            head_claim: 4 * MIN_CLAIM,
        },
        None,
        1,
        1,
        Some(4 * MIN_CLAIM),
        &[],
    );
    let victim = s.claim(0).unwrap();
    assert_eq!(victim.end() - victim.start + 1, 4 * MIN_CLAIM);
    s.set_work_limit(Some(4 * MIN_CLAIM));
    assert!(!s.in_tail(), "a 4 GiB file is nowhere near its tail");
    let thief = s
        .claim(1)
        .expect("a 4 MiB head claim must still be splittable");
    assert_eq!(thief.end() - thief.start + 1, 2 * MIN_CLAIM);
}

#[test]
fn a_steal_starts_after_whatever_the_victim_reserved() {
    let mut s = Scheduler::new(
        0,
        32 * MIN_CLAIM - 1,
        Strategy::Throughput,
        None,
        1,
        1,
        None,
        &[],
    );
    let victim = s.claim(0).unwrap();
    let split = victim.end() - victim.remaining() / 2;
    // In-flight write that will land past where the thief would cut.
    s.reserve(0, split + MIN_CLAIM);

    let thief = s.claim(1).unwrap();
    assert_eq!(
        thief.start,
        split + MIN_CLAIM,
        "the thief must start past the victim's committed write",
    );
}

#[test]
fn a_dead_claim_is_re_cut_and_its_worker_restarted() {
    let mut s = sched(Strategy::Throughput, 4, None);
    let stuck = s.claim(0).unwrap();
    let live = s.claim(1).unwrap();
    s.advance_to(0, stuck.start + MIN_CLAIM); // delivered, then stopped
    s.reclaim_stalled(); // arms the progress baseline

    // Nothing has moved since; the window elapses.
    s.set_now(DEAD_CLAIM_WINDOW);
    s.advance_to(1, live.start + MIN_CLAIM); // this one is still working

    assert_eq!(s.reclaim_stalled(), vec![0], "only the dead claim is re-cut");
    assert!(
        s.unclaimed_ranges()
            .contains(&(stuck.start + MIN_CLAIM, stuck.end())),
        "the undelivered part of a dead claim goes back on the pool",
    );
}

#[test]
fn the_endgame_hedges_on_a_budget_and_cuts_the_loser_short() {
    let mut s = Scheduler::new(
        0,
        400 * MIN_CLAIM - 1,
        Strategy::Throughput,
        None,
        1,
        1,
        None,
        &[],
    );
    let mut primary = s.claim(0).unwrap();
    while s.unclaimed_bytes() > 0 {
        s.finish(0, u64::MAX);
        primary = s.claim(0).unwrap();
    }
    // Too little left to steal, so taking and stealing are both exhausted.
    s.advance_to(0, primary.end() - MIN_CLAIM + 1);
    let primary = now_of(&s, 0);
    assert!(s.in_tail());

    let hedge = s.claim(1).expect("the endgame must find work");
    assert_eq!(hedge.start, primary.cursor(), "hedges race from the cursor");
    assert_eq!(hedge.end(), primary.end());

    // Duplication factor two: one copy of a claim, never a third.
    assert!(s.claim(2).is_none());

    // Primary wins: the hedge is told it is already done.
    s.advance_to(0, primary.end() + 1);
    s.finish(0, primary.end() + 1);
    assert!(now_of(&s, 1).is_complete(), "the loser must be cut short");
}

#[test]
fn the_endgame_budget_is_spent_not_refilled() {
    let mut s = Scheduler::new(
        0,
        32 * MIN_CLAIM - 1,
        Strategy::Throughput,
        None,
        1,
        1,
        None,
        &[],
    );
    let only = s.claim(0).unwrap();
    s.advance_to(0, only.end() - MIN_CLAIM + 1);
    assert!(s.in_tail());
    assert!(
        s.claim(1).is_none(),
        "0.5% of 32 MiB is 168 KiB — below the floor where a request pays for itself",
    );
}

#[test]
fn playback_never_hedges() {
    let mut s = Scheduler::new(
        0,
        400 * MIN_CLAIM - 1,
        Strategy::Latency {
            critical_window: 400 * MIN_CLAIM,
            head_claim: MIN_CLAIM,
        },
        None,
        1,
        1,
        None,
        &[],
    );
    let mut last = s.claim(0).unwrap();
    while s.unclaimed_bytes() > 0 {
        s.finish(0, u64::MAX);
        last = s.claim(0).unwrap();
    }
    s.advance_to(0, last.end() - MIN_CLAIM + 1);
    assert!(s.in_tail());
    assert!(s.claim(1).is_none());
}

#[test]
fn a_straggler_is_robbed_before_a_wider_claim() {
    let mut s = sched(Strategy::Throughput, 4, None);
    for w in 0..4 {
        s.claim(w).unwrap();
    }
    // Ten seconds on, worker 2 has crawled while the others moved.
    s.set_now(10_000_000_000);
    s.advance_to(0, 4 * MIN_CLAIM);
    s.advance_to(1, 25 * MIN_CLAIM + 5 * MIN_CLAIM);
    s.advance_to(2, 50 * MIN_CLAIM + MIN_CLAIM);
    s.advance_to(3, 75 * MIN_CLAIM + 6 * MIN_CLAIM);
    let victim = now_of(&s, 2);
    let thief = s.claim(9).unwrap();
    assert_eq!(thief.end(), victim.end());
    assert_eq!(now_of(&s, 2).end(), victim.end() - victim.remaining() / 2);
}

#[test]
fn what_a_seek_hands_back_is_what_was_owed() {
    let (mut s, _) = downloading_then_playing(4);
    let before = s.remaining_work();
    s.advance_to(0, 10 * MIN_CLAIM);
    s.set_read_head(900 * MIN_CLAIM);
    assert_eq!(s.refocus_on_reader(MIN_CLAIM), vec![0]);
    assert_eq!(s.remaining_work(), before - 10 * MIN_CLAIM);
    assert_eq!(s.unclaimed_bytes(), s.remaining_work());
}

#[test]
fn labels_name_the_strategies() {
    assert_eq!(Strategy::Throughput.label(), "throughput");
    assert_eq!(Strategy::latency_default().label(), "latency");
}

/// What is unclaimed and what the claims themselves owe.
fn work(s: &Scheduler) -> u64 {
    let owed: u64 = s
        .live
        .iter()
        .filter(|l| l.hedge_of.is_none())
        .map(|l| l.claim.remaining())
        .sum();
    s.unclaimed_bytes() + owed
}

#[test]
fn claims_lie_in_the_request_and_in_the_volume_they_name() {
    // The volumes are listed out of order, and one is empty.
    let vols = vec![vol(400 * MIN_CLAIM, 600 * MIN_CLAIM), vol(0, 0), vol(0, 400 * MIN_CLAIM)];
    let (lo, hi) = (3 * MIN_CLAIM, 997 * MIN_CLAIM - 1);
    let mut s = Scheduler::new(
        lo,
        hi,
        Strategy::Throughput,
        Some(Arc::new(vols.clone())),
        32,
        32,
        None,
        &[],
    );
    let mut copies = 0;
    for round in 0..2000 {
        let before = work(&s);
        let Some(c) = s.claim(round) else { break };
        assert_eq!(work(&s), before, "a claim moves bytes and makes none");
        assert!(lo <= c.start && c.start <= c.end() && c.end() <= hi);
        let v = &vols[c.volume];
        assert!(v.offset <= c.start && c.end() < v.offset + v.size);
        assert_eq!(c.issued_len(), c.end() - c.start + 1);
        if s.live.last().unwrap().hedge_of.is_some() {
            copies += 1;
        }
    }
    assert!(copies > 0, "the tail was raced");
}

#[test]
fn an_issued_length_never_changes() {
    let mut s = sched(Strategy::Throughput, 2, None);
    let a = s.claim(0).unwrap();
    s.claim(1).unwrap();
    s.reserve(0, a.start + 10);
    s.advance_to(0, a.start + 5);
    // A third worker steals, so that an end moves.
    s.claim(2).unwrap();
    let moved = [0, 1].iter().any(|w| {
        let c = now_of(&s, *w);
        c.end() - c.start + 1 < c.issued_len()
    });
    assert!(moved);
    assert_eq!(now_of(&s, 0).issued_len(), a.issued_len());
    s.finish(1, now_of(&s, 1).cursor());
    s.reclaim_stalled();
    assert_eq!(now_of(&s, 0).issued_len(), a.issued_len());
    assert_eq!(now_of(&s, 0).start, a.start);
}

#[test]
fn the_longest_wait_since_the_last_rest_counts() {
    let mut s = sched(Strategy::Throughput, 2, None);
    s.note_overload(Some(20_000));
    s.note_overload(Some(9_000));
    s.note_overload(None);
    assert_eq!(s.overload_backoff(0), Some(20_000));
    for _ in 0..3 {
        succeed(&mut s, 0);
    }
    assert_eq!(s.overload_strikes(), 0);
    s.note_overload(Some(9_000));
    assert_eq!(s.overload_backoff(0), Some(9_000));
}
