use hydraria::cache::{CacheEntry, CacheMeta};
use hydraria::download::{
    CacheJob, DownloadManager, JobState, ReaderStep, WorkerStep, PLAYBACK_HORIZON, READ_CHUNK,
};
use hydraria::error::ProxyError;
use hydraria::schedule::{ClaimWall, CLAIM_WALL_TTL};

const MIB: u64 = 1024 * 1024;

fn entry(key: &str, total: u64) -> CacheEntry {
    let meta = CacheMeta {
        etag: None,
        last_modified: None,
        total_size: total,
        content_type: None,
        block_size: MIB,
        urls: vec![],
    };
    CacheEntry::open_at(key, meta, vec![], false)
}

fn job(id: &str, e: &CacheEntry, threads: usize) -> CacheJob {
    CacheJob::new(id.into(), e, None, threads, 4, 0, 0).ok().unwrap()
}

#[test]
fn an_entry_of_no_size_cannot_be_filled() {
    let e = entry("k", 0);
    let err = CacheJob::new("t".into(), &e, None, 4, 4, 0, 0).err().unwrap();
    assert!(matches!(err, ProxyError::Internal(m) if m == "cannot cache an unknown-size upstream"));
}

#[test]
fn states_have_labels() {
    assert_eq!(JobState::Idle.label(), "idle");
    assert_eq!(JobState::Running.label(), "running");
    assert_eq!(JobState::Paused.label(), "paused");
    assert_eq!(JobState::Done.label(), "done");
    assert_eq!(JobState::Failed("x".into()).label(), "failed");
}

#[test]
fn a_request_for_the_file_staffs_every_slot_once() {
    let e = entry("k", 100 * MIB);
    let mut j = job("t", &e, 4);
    assert_eq!(j.failure_budget, 8);
    assert_eq!(j.start_cache(&e, 0), vec![0, 1, 2, 3]);
    assert_eq!(j.start_cache(&e, 0), Vec::<usize>::new());
    assert!(j.is_cache_active());
    let info = j.info(&e);
    assert_eq!((info.state, info.total_bytes, info.done_bytes), ("running", 100 * MIB, 0));
    // Draining leaves the slots taken until their workers leave.
    assert_eq!(j.pause_cache(), Vec::<usize>::new());
    assert_eq!(j.info(&e).state, "paused");
    assert!(matches!(j.worker_next(0, 1), WorkerStep::Superseded));
    assert_eq!(j.worker_left(0, 1, true, &e), Vec::<usize>::new());
    assert_eq!(j.start_cache(&e, 0), vec![0]);
    let p = j.to_persisted();
    assert_eq!((p.task_id.as_str(), p.threads, p.was_running), ("t", 4, true));
}

#[test]
fn a_reader_bounds_the_pool_and_a_request_lifts_the_bound() {
    let e = entry("k", 1024 * MIB);
    let mut j = job("t", &e, 2);
    let (id, staff) = j.attach_reader(10 * MIB);
    assert_eq!(id, 1);
    assert_eq!(staff.start, vec![0, 1]);
    assert_eq!(j.scheduler.work_limit, Some(PLAYBACK_HORIZON));
    j.start_cache(&e, 0);
    assert_eq!(j.scheduler.work_limit, None);
    j.pause_cache();
    assert_eq!(j.scheduler.work_limit, Some(PLAYBACK_HORIZON));
    let (other, _) = j.attach_reader(5 * MIB);
    j.reader_advanced(other, 20 * MIB);
    assert_eq!(j.readers, vec![(1, 10 * MIB), (2, 20 * MIB)]);
    assert_eq!(j.reader_left(1), Vec::<usize>::new());
    assert_eq!(j.scheduler.read_head, 20 * MIB);
    let before = j.workers.generation;
    j.reader_left(other);
    assert_eq!(j.workers.generation, before + 1, "nobody is left to fetch for");
}

#[test]
fn a_reader_waits_reads_and_ends() {
    let mut e = entry("k", 3 * MIB);
    let mut j = job("t", &e, 2);
    let (id, _) = j.attach_reader(0);
    assert!(matches!(j.reader_next(0, 99, &e), ReaderStep::Wait(_)));
    e.write_range(0, 2 * MIB);
    assert!(matches!(j.reader_next(0, 3 * MIB - 1, &e), ReaderStep::Read(0, hi) if hi == READ_CHUNK - 1));
    assert!(matches!(j.reader_next(5, 20, &e), ReaderStep::Read(5, 20)));
    j.reader_advanced(id, 21);
    assert!(matches!(j.reader_next(21, 20, &e), ReaderStep::Finished));
}

#[test]
fn workers_claim_deliver_and_finish_the_file() {
    let mut e = entry("k", 4 * MIB);
    let mut j = job("t", &e, 1);
    let mut wall = ClaimWall::new();
    j.start_cache(&e, 0);
    while let WorkerStep::Fetch(c) = j.worker_next(0, 1) {
        e.write_range(c.start, c.end - c.start + 1);
        j.scheduler.advance_to(0, c.end + 1);
        assert!(j.claim_ended(0, &c, None, &mut wall).is_none());
    }
    assert_eq!(j.worker_left(0, 1, false, &e), Vec::<usize>::new());
    assert_eq!(j.info(&e).state, "done");
    assert!(!j.is_cache_active());
    assert_eq!(j.start_cache(&e, 0), Vec::<usize>::new());
    j.tick_throughput(&e, 2_000_000_000);
    assert_eq!(j.info(&e).current_speed_bps, 2 * MIB);
}

#[test]
fn failures_are_borne_up_to_a_budget() {
    let mut wall = ClaimWall::new();
    let e = entry("k", 400 * MIB);
    let mut j = job("t", &e, 2);
    j.start_cache(&e, 0);
    let boom = || Some(ProxyError::Io("boom".into()));
    // A claim that delivered nothing may have been too big: the first is not charged.
    let WorkerStep::Fetch(c) = j.worker_next(0, 1) else { panic!("there is work") };
    assert!(j.claim_ended(0, &c, boom(), &mut wall).is_none());
    assert_eq!(j.failures, 0);
    // An origin that asks for less load spends nothing.
    for _ in 0..20 {
        let WorkerStep::Fetch(c) = j.worker_next(0, 1) else { panic!("there is work") };
        let busy = ProxyError::Throttled { status: 429, retry_after: Some(7000) };
        assert!(j.claim_ended(0, &c, Some(busy), &mut wall).is_none());
    }
    assert_eq!(j.failures, 0);
    assert!(j.scheduler.overload_backoff(0).unwrap() >= 7000);
    // Changed content is charged and says nothing about size.
    let limit = j.scheduler.auto_limit();
    let WorkerStep::Fetch(c) = j.worker_next(0, 1) else { panic!("there is work") };
    let changed = ProxyError::ContentChanged { url: "u".into() };
    assert!(j.claim_ended(0, &c, Some(changed), &mut wall).is_none());
    assert_eq!((j.failures, j.scheduler.auto_limit()), (1, limit));
    for _ in 0..6 {
        let WorkerStep::Fetch(c) = j.worker_next(0, 1) else { panic!("there is work") };
        j.scheduler.advance_to(0, c.start + 1);
        assert!(j.claim_ended(0, &c, boom(), &mut wall).is_none());
    }
    assert_eq!(j.failures, 7);
    let WorkerStep::Fetch(c) = j.worker_next(0, 1) else { panic!("there is work") };
    j.scheduler.advance_to(0, c.start + 1);
    let last = ProxyError::Io("last".into());
    assert_eq!(j.claim_ended(0, &c, Some(last), &mut wall), Some(vec![0, 1]));
    let info = j.info(&e);
    assert_eq!((info.state, info.error.as_deref()), ("failed", Some("io error: last")));
    assert!(matches!(j.worker_next(1, 1), WorkerStep::Superseded));
}

#[test]
fn a_manager_holds_one_job_for_each_task() {
    let e = entry("k", 100 * MIB);
    let f = entry("l", 100 * MIB);
    let mut m = DownloadManager::new();
    let mut a = job("a", &e, 2);
    a.start_cache(&e, 0);
    assert!(m.insert(a).is_empty());
    assert!(m.insert(job("b", &e, 2)).is_empty());
    assert!(m.insert(job("c", &f, 2)).is_empty());
    assert_eq!(m.insert(job("a", &e, 2)), vec![0, 1]);
    assert_eq!(m.jobs.len(), 3);
    assert!(m.persisted().is_empty());
    let i = m.get("b").unwrap();
    m.jobs[i].pause_cache();
    assert_eq!(m.persisted().len(), 1);
    assert!(!m.persisted()[0].was_running);
    assert_eq!(m.fill_speed_bps(), 0);
    let stopped = m.stop_for_key("k");
    assert_eq!(stopped.iter().map(|s| s.task_id.as_str()).collect::<Vec<_>>(), vec!["a", "b"]);
    assert_eq!(m.jobs.len(), 1);
    assert!(m.remove("a").is_none());
    assert_eq!(m.stop_all().len(), 1);
    assert!(m.jobs.is_empty());
}

#[test]
fn a_write_keeps_to_what_the_claim_still_covers() {
    let e = entry("k", 100 * MIB);
    let mut j = job("t", &e, 2);
    j.start_cache(&e, 0);
    let WorkerStep::Fetch(c) = j.worker_next(0, 1) else { panic!("there is work") };
    assert_eq!(j.before_write(0, c.start, 1000), 1000);
    assert_eq!(j.scheduler.claim_of(0).unwrap().reserved, c.start + 1000);
    assert!(j.after_write(0, c.start + 1000));
    assert_eq!(j.scheduler.claim_of(0).unwrap().cursor(), c.start + 1000);
    // Past the end nothing may be written, and up to it only what fits.
    assert_eq!(j.before_write(0, c.end() - 9, 1000), 10);
    assert_eq!(j.before_write(0, c.end() + 1, 1000), 0);
    assert!(!j.after_write(0, c.end() + 1));
    // A worker without a claim writes nothing.
    assert_eq!(j.before_write(7, 0, 1000), 0);
    assert!(!j.after_write(7, 1000));
}

#[test]
fn the_speed_counts_bytes_before_their_block_is_finished() {
    let mut e = entry("k", 100 * MIB);
    let mut j = job("t", &e, 2);
    j.start_cache(&e, 0);
    e.write_range(0, MIB / 2);
    assert_eq!(e.bytes_cached, 0);
    j.tick_throughput(&e, 1_000_000_000);
    assert_eq!(j.info(&e).current_speed_bps, MIB / 2);
}

#[test]
fn a_lesson_reaches_the_next_coordinator() {
    let e = entry("k", 400 * MIB);
    let mut wall = ClaimWall::new();
    let mut a = job("a", &e, 4).with_claim_wall(wall);
    a.start_cache(&e, 0);
    let WorkerStep::Fetch(c) = a.worker_next(0, 1) else { panic!("there is work") };
    assert_eq!(a.scheduler.auto_limit(), None);
    assert!(a.claim_ended(0, &c, Some(ProxyError::Io("x".into())), &mut wall).is_none());
    assert_eq!(wall.get(), Some(c.issued_len() / 2));

    let b = job("b", &e, 4).with_claim_wall(wall);
    assert_eq!(b.scheduler.auto_limit(), Some(8 * MIB));
    wall.set_now(CLAIM_WALL_TTL);
    let c = job("c", &e, 4).with_claim_wall(wall);
    assert_eq!(c.scheduler.auto_limit(), None);
}
