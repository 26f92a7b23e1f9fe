//! The coordinator of one task's cache: playback and whole-file caching share one
//! sparse file and one pool of workers, so neither fetches what the other wrote.
//!
//! A reader puts the pool in latency mode around its position and bounds it to
//! [`PLAYBACK_HORIZON`] bytes ahead: watching a part of a file does not download
//! all of it. A request for the whole file lifts that bound. Both can be on at
//! once.
//!
//! The coordinator decides; it starts and stops no request itself. Its functions
//! say which workers are to be started or aborted.

use crate::cache::{is_summary, CacheEntry, CacheStats};
use crate::engine::{volumes_fit, VolumeMeta};
use crate::error::ProxyError;
use crate::models::health::{per_second, rate, sum, ThroughputSampler};
use crate::num::{imax, imin};
use crate::schedule::laws::law_a_request_keeps_its_ends;
use crate::schedule::{
    first_live, held_by, lemma_first_live, Claim, ClaimWall, Scheduler, SchedulerView, Strategy,
    DEFAULT_CRITICAL_WINDOW, MIN_CLAIM,
};
use crate::text::{opt_view, same_text};
use std::sync::Arc;
use vstd::prelude::*;
use vstd::string::*;

verus! {

/// How many rates are kept.
pub const SPEED_SAMPLES: usize = 60;

/// The most that is read from the cache at once.
pub const READ_CHUNK: u64 = 1024 * 1024;

/// How far ahead of a reader the pool may work while the whole file is not asked
/// for.
pub const PLAYBACK_HORIZON: u64 = 256 * 1024 * 1024;

#[derive(Debug)]
pub enum JobState {
    Idle,
    Running,
    Paused,
    Done,
    Failed(String),
}

#[verifier::ext_equal]
pub ghost enum JobStateView {
    Idle,
    Running,
    Paused,
    Done,
    Failed(Seq<char>),
}

impl View for JobState {
    type V = JobStateView;

    open spec fn view(&self) -> JobStateView {
        match self {
            JobState::Idle => JobStateView::Idle,
            JobState::Running => JobStateView::Running,
            JobState::Paused => JobStateView::Paused,
            JobState::Done => JobStateView::Done,
            JobState::Failed(e) => JobStateView::Failed(e@),
        }
    }
}

impl JobStateView {
    pub open spec fn label(self) -> Seq<char> {
        match self {
            JobStateView::Idle => "idle"@,
            JobStateView::Running => "running"@,
            JobStateView::Paused => "paused"@,
            JobStateView::Done => "done"@,
            JobStateView::Failed(_) => "failed"@,
        }
    }
}

impl JobState {
    /// The state in a word.
    pub fn label(&self) -> (out: &'static str)
        ensures
            out@ == self@.label(),
    {
        match self {
            JobState::Idle => "idle",
            JobState::Running => "running",
            JobState::Paused => "paused",
            JobState::Done => "done",
            JobState::Failed(_) => "failed",
        }
    }
}

/// What is shown of a coordinator.
#[derive(Debug)]
pub struct CacheJobInfo {
    pub state: &'static str,
    pub error: Option<String>,
    pub total_bytes: u64,
    pub done_bytes: u64,
    pub current_speed_bps: u64,
    pub speed_samples: Vec<u64>,
    pub threads: usize,
    pub active_readers: usize,
    pub bitmap_summary: Vec<u8>,
}

/// What is kept of a coordinator over a restart. The output fields were written
/// by older state files and are not used.
#[derive(Debug)]
pub struct PersistedDownload {
    pub task_id: String,
    pub out_dir: String,
    pub filename: String,
    pub threads: usize,
    pub was_running: bool,
}

/// The pool: one slot for each thread, with the generation that its worker was
/// started for. A slot stays taken until its worker retires, so no slot has two
/// workers.
pub struct Workers {
    /// Moved on to tell the workers to take no new claims.
    pub generation: u64,
    pub slots: Vec<Option<u64>>,
}

/// The coordinator of one task's cache.
pub struct CacheJob {
    pub task_id: String,
    /// The key of the cache entry.
    pub key: String,
    pub total_size: u64,
    pub threads: usize,
    pub scheduler: Scheduler,
    pub workers: Workers,
    pub state: JobState,
    pub cache_requested: bool,
    /// The readers, each with its id and its position.
    pub readers: Vec<(u64, u64)>,
    pub next_reader: u64,
    pub failures: usize,
    pub failure_budget: usize,
    /// Bytes that had been written at the last tick.
    pub last_written_bytes: u64,
    pub current_speed_bps: u64,
    pub throughput: ThroughputSampler,
    /// Nanoseconds on the caller's clock.
    pub last_sample: u64,
}

#[verifier::ext_equal]
pub ghost struct JobView {
    pub task_id: Seq<char>,
    pub key: Seq<char>,
    pub total_size: u64,
    pub threads: usize,
    pub sched: SchedulerView,
    pub generation: u64,
    pub slots: Seq<Option<u64>>,
    pub state: JobStateView,
    pub cache_requested: bool,
    pub readers: Seq<(u64, u64)>,
    pub next_reader: u64,
    pub failures: usize,
    pub failure_budget: usize,
    pub last_written_bytes: u64,
    pub current_speed_bps: u64,
    pub samples: Seq<u64>,
    pub last_sample: u64,
}

impl View for CacheJob {
    type V = JobView;

    open spec fn view(&self) -> JobView {
        JobView {
            task_id: self.task_id@,
            key: self.key@,
            total_size: self.total_size,
            threads: self.threads,
            sched: self.scheduler@,
            generation: self.workers.generation,
            slots: self.workers.slots@,
            state: self.state@,
            cache_requested: self.cache_requested,
            readers: self.readers@,
            next_reader: self.next_reader,
            failures: self.failures,
            failure_budget: self.failure_budget,
            last_written_bytes: self.last_written_bytes,
            current_speed_bps: self.current_speed_bps,
            samples: self.throughput.samples@,
            last_sample: self.last_sample,
        }
    }
}

/// The lowest position of the readers.
pub open spec fn lowest(readers: Seq<(u64, u64)>) -> Option<u64>
    decreases readers.len(),
{
    if readers.len() == 0 {
        None
    } else {
        match lowest(readers.drop_last()) {
            Some(p) if p <= readers.last().1 => Some(p),
            _ => Some(readers.last().1),
        }
    }
}

/// The readers with the position of one of them set; one that is new comes last.
pub open spec fn with_reader(readers: Seq<(u64, u64)>, id: u64, at: u64) -> Seq<(u64, u64)>
    decreases readers.len(),
{
    if readers.len() == 0 {
        seq![(id, at)]
    } else if readers[0].0 == id {
        seq![(id, at)] + readers.drop_first()
    } else {
        seq![readers[0]] + with_reader(readers.drop_first(), id, at)
    }
}

/// The readers without one of them.
pub open spec fn without_reader(readers: Seq<(u64, u64)>, id: u64) -> Seq<(u64, u64)>
    decreases readers.len(),
{
    if readers.len() == 0 {
        Seq::empty()
    } else if readers.last().0 == id {
        without_reader(readers.drop_last(), id)
    } else {
        without_reader(readers.drop_last(), id).push(readers.last())
    }
}

/// The slots among the first `n` that are free (or, with `free` off, taken).
pub open spec fn slots_that(slots: Seq<Option<u64>>, free: bool, n: int) -> Seq<usize>
    decreases n,
{
    if n <= 0 {
        Seq::empty()
    } else if (slots[n - 1] is None) == free {
        slots_that(slots, free, n - 1).push((n - 1) as usize)
    } else {
        slots_that(slots, free, n - 1)
    }
}

/// Every free slot taken for a generation.
pub open spec fn all_taken(slots: Seq<Option<u64>>, generation: u64) -> Seq<Option<u64>> {
    slots.map_values(
        |s: Option<u64>|
            if s is None {
                Some(generation)
            } else {
                s
            },
    )
}

pub open spec fn next_generation(g: u64) -> u64 {
    crate::hostmap::next_generation(g)
}

impl SchedulerView {
    /// The reader moves.
    pub open spec fn at_head(self, offset: u64) -> SchedulerView {
        SchedulerView {
            read_head: imax(
                self.req_start as int,
                imin(offset as int, self.req_end + 1),
            ) as u64,
            buffered: 0,
            ..self
        }
    }
}

impl JobView {
    /// What every function keeps.
    pub open spec fn wf(self) -> bool {
        &&& self.sched.wf()
        &&& self.sched.req_start == 0
        &&& self.slots.len() == self.threads
        &&& self.threads >= 1
        &&& self.samples.len() <= SPEED_SAMPLES
    }

    /// Somebody wants bytes.
    pub open spec fn wanted(self) -> bool {
        self.cache_requested || self.readers.len() > 0
    }

    /// The scheduler aimed at what is going on: around the lowest reader and, but
    /// for a request for the whole file, no further than the horizon; without a
    /// reader the whole file at full width.
    pub open spec fn retuned(self) -> JobView {
        let sched = match lowest(self.readers) {
            Some(head) => SchedulerView {
                strategy: Strategy::Latency {
                    critical_window: DEFAULT_CRITICAL_WINDOW,
                    head_claim: crate::schedule::DEFAULT_HEAD_CLAIM,
                },
                work_limit: if self.cache_requested {
                    None
                } else {
                    Some(PLAYBACK_HORIZON)
                },
                ..self.sched.at_head(head)
            },
            None => SchedulerView {
                strategy: Strategy::Throughput,
                work_limit: None,
                ..self.sched
            },
        };
        JobView { sched, ..self }
    }

    /// Every free slot is given a worker, if somebody wants bytes.
    pub open spec fn staffed(self) -> JobView {
        if self.wanted() {
            JobView { slots: all_taken(self.slots, self.generation), ..self }
        } else {
            self
        }
    }

    /// The workers that are started for that.
    pub open spec fn hired(self) -> Seq<usize> {
        if self.wanted() {
            slots_that(self.slots, true, self.slots.len() as int)
        } else {
            Seq::empty()
        }
    }

    /// The workers take no new claims.
    pub open spec fn drained(self) -> JobView {
        JobView { generation: next_generation(self.generation), ..self }
    }

    /// The workers are gone.
    pub open spec fn aborted(self) -> JobView {
        JobView {
            generation: next_generation(self.generation),
            slots: Seq::new(self.slots.len(), |i: int| None::<u64>),
            ..self
        }
    }

    /// The worker's slot is free, if it is still its own.
    pub open spec fn retired(self, worker: usize, generation: u64) -> JobView {
        if worker < self.slots.len() && self.slots[worker as int] == Some(generation) {
            JobView { slots: self.slots.update(worker as int, None), ..self }
        } else {
            self
        }
    }

    /// The first `n` of the listed workers are replaced.
    pub open spec fn replaced(self, stale: Seq<usize>, n: int) -> JobView
        decreases n,
    {
        if n <= 0 {
            self
        } else {
            let j = self.replaced(stale, n - 1);
            let w = stale[n - 1];
            if w < j.slots.len() {
                JobView { slots: j.slots.update(w as int, Some(j.generation)), ..j }
            } else {
                j
            }
        }
    }

    /// A request for the whole file. `full` says that it is there already.
    pub open spec fn started(self, full: bool, done: u64, now: u64) -> JobView {
        if full {
            JobView { state: JobStateView::Done, cache_requested: false, ..self }
        } else {
            (JobView {
                cache_requested: true,
                state: JobStateView::Running,
                failures: 0,
                last_written_bytes: done,
                last_sample: now,
                ..self
            }).retuned().staffed()
        }
    }

    /// The request for the whole file is withdrawn.
    pub open spec fn withdrawn(self) -> JobView {
        JobView {
            cache_requested: false,
            state: if self.state is Done {
                self.state
            } else {
                JobStateView::Paused
            },
            ..self
        }
    }

    /// That, and the pool is bounded again to the readers that are left.
    pub open spec fn paused(self) -> JobView {
        let j = self.withdrawn();
        if j.readers.len() == 0 {
            j.drained()
        } else {
            j.retuned().drained().staffed()
        }
    }

    /// A reader comes.
    pub open spec fn joined(self, start: u64) -> JobView {
        (JobView {
            readers: with_reader(self.readers, self.next_reader, start),
            next_reader: next_generation(self.next_reader),
            ..self
        }).retuned()
    }

    /// The scheduler hands back what no longer matters to the reader.
    pub open spec fn refocused(self) -> (JobView, Seq<usize>) {
        let (sched, stale) = if self.sched.strategy is Latency {
            self.sched.refocused(DEFAULT_CRITICAL_WINDOW, 0)
        } else {
            (self.sched, Seq::empty())
        };
        (JobView { sched, ..self }, stale)
    }

    /// A reader has moved on.
    pub open spec fn advanced(self, id: u64, at: u64) -> JobView {
        JobView {
            readers: with_reader(self.readers, id, at),
            sched: self.sched.at_head(at),
            ..self
        }
    }

    /// A reader is gone. Where it was the last, the pool goes back to the whole
    /// file or, if nobody asked for that, takes no new claims; else it is aimed at
    /// the readers that are left.
    pub open spec fn left(self, id: u64) -> JobView {
        let j = JobView { readers: without_reader(self.readers, id), ..self };
        if j.readers.len() > 0 {
            j.retuned()
        } else if j.cache_requested {
            j.retuned().staffed()
        } else {
            j.drained()
        }
    }

    pub open spec fn left_hired(self, id: u64) -> Seq<usize> {
        let j = JobView { readers: without_reader(self.readers, id), ..self };
        if j.readers.len() == 0 && j.cache_requested {
            j.hired()
        } else {
            Seq::empty()
        }
    }

    /// A worker leaves: its slot is free. If the file is complete, the request for
    /// it is met; else, if the worker only left for a new generation, its slot is
    /// given out again.
    pub open spec fn quit(self, worker: usize, generation: u64, superseded: bool, full: bool) -> JobView {
        let j = self.retired(worker, generation);
        if full {
            JobView {
                cache_requested: false,
                state: if j.state is Failed {
                    j.state
                } else {
                    JobStateView::Done
                },
                ..j
            }
        } else if superseded {
            j.staffed()
        } else {
            j
        }
    }

    /// A claim has failed: the coordinator gives up once the budget is spent.
    pub open spec fn failed(self, error: Seq<char>) -> JobView {
        let n = (self.failures + 1) as usize;
        let j = JobView { failures: n, ..self };
        if n >= self.failure_budget {
            (JobView { state: JobStateView::Failed(error), cache_requested: false, ..j }).aborted()
        } else {
            j
        }
    }
}

impl JobView {
    /// A worker's claim has ended: what the coordinator is afterwards, and whom it
    /// aborts.
    pub open spec fn ended(
        self,
        worker: usize,
        claim: Claim,
        error: Option<ProxyError>,
        after: JobView,
        abort: Option<Vec<usize>>,
    ) -> bool {
        let held = held_claim(self.sched, worker, claim);
        let (sched, charged) = judged(self.sched.finished(worker, held.cursor), held, error);
        let rest = JobView { sched, ..self };
        if charged {
            &&& after == rest.failed(error->0.shown())
            &&& (abort is Some) == (self.failures + 1 >= self.failure_budget)
            &&& abort is Some ==> (abort->0)@ == slots_that(
                self.slots,
                false,
                self.slots.len() as int,
            )
        } else {
            abort is None && after == rest
        }
    }
}

/// What a claim that has ended teaches the scheduler, and whether it is charged
/// against the budget for failures.
pub open spec fn judged(s: SchedulerView, held: Claim, error: Option<ProxyError>) -> (
    SchedulerView,
    bool,
) {
    match error {
        None => s.noted(true, held),
        Some(e) => if e.overloads() {
            (s.overloaded(e.wait_hint()), false)
        } else if e is ContentChanged {
            (s, true)
        } else {
            s.noted(false, held)
        },
    }
}

/// An origin that asks for less load spends nothing of the budget and teaches
/// nothing about size; neither does changed content teach anything about size. A
/// claim that is delivered is never charged, and one that broke after it had moved
/// bytes always is.
pub proof fn law_only_failures_are_charged(s: SchedulerView, held: Claim, error: Option<ProxyError>)
    ensures
        error is None ==> !judged(s, held, error).1,
        error is Some && error->0.overloads() ==> !judged(s, held, error).1,
        error is Some && (error->0.overloads() || error->0 is ContentChanged) ==> judged(
            s,
            held,
            error,
        ).0.auto_limit == s.auto_limit && judged(s, held, error).0.auto_wall == s.auto_wall
            && judged(s, held, error).0.wall_memory == s.wall_memory,
        error is Some && error->0 is ContentChanged ==> judged(s, held, error).1,
        error is Some && !error->0.overloads() && held.cursor > held.start ==> judged(
            s,
            held,
            error,
        ) == (s, true),
{
}

/// A scheduler that remembers goes on remembering.
proof fn lemma_wall_stays(s: SchedulerView, worker: usize, held: Claim, error: Option<ProxyError>)
    requires
        s.wall_memory is Some,
    ensures
        judged(s.finished(worker, held.cursor), held, error).0.wall_memory is Some,
{
    let f = s.finished(worker, held.cursor);
    assert(f.wall_memory == s.wall_memory);
}

/// What one coordinator of a task has learned about its origin, the next one begins
/// with, for as long as it is remembered: a claim that broke without a byte holds the
/// next coordinator to a size of no more than half of what was asked for.
pub proof fn law_a_lesson_reaches_the_next_coordinator(
    s: SchedulerView,
    held: Claim,
    error: ProxyError,
    next: SchedulerView,
    later: u64,
)
    requires
        s.wall_memory is Some,
        s.auto_limit is None,
        held.cursor <= held.start,
        !error.overloads(),
        !(error is ContentChanged),
        later - (s.wall_memory->0).now < crate::schedule::CLAIM_WALL_TTL,
    ensures
        ({
            let learned = judged(s, held, Some(error)).0;
            let wall = ClaimWall { now: later, ..learned.wall_memory->0 };
            let fresh = next.seeded(wall);
            &&& learned.wall_memory is Some
            &&& wall.remembered() is Some
            &&& wall.remembered()->0 <= imax(held.issued as int / 2, MIN_CLAIM as int)
            &&& fresh.auto_wall == wall.remembered()->0
            &&& fresh.auto_limit is Some
            &&& fresh.auto_limit->0 <= wall.remembered()->0
        }),
{
}

/// What a worker does next.
pub enum WorkerStep {
    /// A newer generation has taken over.
    Superseded,
    /// There is nothing to claim.
    Nothing,
    Fetch(Claim),
}

/// What a reader does next.
pub enum ReaderStep {
    Finished,
    /// Wait for bytes, with these workers started.
    Wait(Vec<usize>),
    /// Read these bytes, both ends counted, and send them.
    Read(u64, u64),
}

/// The workers to start and to abort.
pub struct Staffing {
    pub start: Vec<usize>,
    pub abort: Vec<usize>,
}

impl CacheJob {
    pub open spec fn wf(self) -> bool {
        self@.wf() && self.throughput.wf() && self.throughput.capacity == SPEED_SAMPLES
    }

    /// The coordinator for a cache entry. An entry of no size cannot be filled.
    pub fn new(
        task_id: String,
        entry: &CacheEntry,
        volumes: Option<Arc<Vec<VolumeMeta>>>,
        max_threads: usize,
        max_per_volume: usize,
        max_split: u64,
        now: u64,
    ) -> (out: Result<CacheJob, ProxyError>)
        requires
            entry.wf(),
            volumes is Some ==> volumes_fit(volumes->0@),
        ensures
            match out {
                Err(e) => entry.meta.total_size == 0 && e is Internal && e.shown()
                    == "internal: "@ + "cannot cache an unknown-size upstream"@,
                Ok(job) => {
                    &&& entry.meta.total_size > 0
                    &&& job.wf()
                    &&& job@ == JobView::opening(
                        task_id@,
                        *entry,
                        match volumes {
                            Some(v) => v@,
                            None => Seq::empty(),
                        },
                        max_threads,
                        max_per_volume,
                        max_split,
                        now,
                    )
                },
            },
    {
        let total_size: u64 = entry.meta.total_size;
        if total_size == 0 {
            return Err(ProxyError::Internal("cannot cache an unknown-size upstream".to_owned()));
        }
        let threads: usize = if max_threads < 1 {
            1
        } else {
            max_threads
        };
        let per_volume: usize = if max_per_volume < 1 {
            1
        } else {
            max_per_volume
        };
        let cap: Option<u64> = if max_split > 0 {
            Some(max_split)
        } else {
            None
        };
        let already: Vec<(u64, u64)> = entry.staged_ranges(0, total_size - 1);
        let scheduler: Scheduler = Scheduler::new(
            0,
            total_size - 1,
            Strategy::Throughput,
            volumes,
            threads,
            per_volume,
            cap,
            &already,
        );
        let complete: bool = entry.contiguous_from(0, total_size) >= total_size;
        let mut slots: Vec<Option<u64>> = Vec::new();
        let mut i: usize = 0;
        while i < threads
            invariant
                i <= threads,
                slots@ == Seq::new(i as nat, |k: int| None::<u64>),
            decreases threads - i,
        {
            slots.push(None);
            assert(slots@ =~= Seq::new((i + 1) as nat, |k: int| None::<u64>));
            i = i + 1;
        }
        let twice: usize = if threads > usize::MAX / 2 {
            usize::MAX
        } else {
            threads * 2
        };
        let job: CacheJob = CacheJob {
            task_id,
            key: entry.key.clone(),
            total_size,
            threads,
            scheduler,
            workers: Workers { generation: 1, slots },
            state: if complete {
                JobState::Done
            } else {
                JobState::Idle
            },
            cache_requested: false,
            readers: Vec::new(),
            next_reader: 1,
            failures: 0,
            failure_budget: if twice < 8 {
                8
            } else {
                twice
            },
            last_written_bytes: entry.bytes_written,
            current_speed_bps: 0,
            throughput: ThroughputSampler::new(SPEED_SAMPLES),
            last_sample: now,
        };
        assert(job@.readers =~= Seq::empty());
        assert(job@.samples =~= Seq::empty());
        Ok(job)
    }

    /// What is shown of the coordinator.
    pub fn info(&self, entry: &CacheEntry) -> (out: CacheJobInfo)
        requires
            entry.wf(),
        ensures
            out.state@ == self@.state.label(),
            opt_view(out.error) == match self@.state {
                JobStateView::Failed(e) => Some(e),
                _ => None,
            },
            out.total_bytes == self@.total_size,
            out.done_bytes == imin(entry.bytes_cached as int, self@.total_size as int),
            out.current_speed_bps == self@.current_speed_bps,
            out.speed_samples@ == self@.samples,
            out.threads == self@.threads,
            out.active_readers == self@.readers.len(),
            is_summary(out.bitmap_summary@, entry.bitmap@, entry.meta.blocks()),
    {
        let stats: CacheStats = entry.stats();
        CacheJobInfo {
            state: self.state.label(),
            error: match &self.state {
                JobState::Failed(e) => Some(e.clone()),
                _ => None,
            },
            total_bytes: self.total_size,
            done_bytes: stats.bytes_cached.min(self.total_size),
            current_speed_bps: self.current_speed_bps,
            speed_samples: self.throughput.snapshot(),
            threads: self.threads,
            active_readers: self.readers.len(),
            bitmap_summary: stats.bitmap_summary,
        }
    }

    /// The whole file is asked for.
    pub fn is_cache_active(&self) -> (out: bool)
        ensures
            out == self@.cache_requested,
    {
        self.cache_requested
    }

    /// Moves the scheduler's clock.
    pub fn set_now(&mut self, now: u64)
        requires
            old(self).wf(),
        ensures
            final(self).wf(),
            final(self)@ == (JobView {
                sched: SchedulerView {
                    now,
                    wall_memory: match old(self)@.sched.wall_memory {
                        Some(wall) => Some(crate::schedule::ClaimWall { now, ..wall }),
                        None => None,
                    },
                    ..old(self)@.sched
                },
                ..old(self)@
            }),
    {
        self.scheduler.set_now(now);
    }

    fn lowest_reader(&self) -> (out: Option<u64>)
        ensures
            out == lowest(self@.readers),
    {
        let mut out: Option<u64> = None;
        let mut i: usize = 0;
        while i < self.readers.len()
            invariant
                i <= self.readers@.len(),
                out == lowest(self.readers@.take(i as int)),
            decreases self.readers.len() - i,
        {
            assert(self.readers@.take(i + 1).drop_last() =~= self.readers@.take(i as int));
            let p: u64 = self.readers[i].1;
            out = match out {
                Some(q) => if q <= p {
                    Some(q)
                } else {
                    Some(p)
                },
                None => Some(p),
            };
            i = i + 1;
        }
        assert(self.readers@.take(self.readers@.len() as int) =~= self.readers@);
        out
    }

    /// Aims the scheduler at what is going on.
    fn retune(&mut self)
        requires
            old(self).wf(),
        ensures
            final(self).wf(),
            final(self)@ == old(self)@.retuned(),
    {
        match self.lowest_reader() {
            Some(head) => {
                self.scheduler.set_read_head(head);
                self.scheduler.set_strategy(Strategy::latency_default());
                let limit: Option<u64> = if self.cache_requested {
                    None
                } else {
                    Some(PLAYBACK_HORIZON)
                };
                self.scheduler.set_work_limit(limit);
            },
            None => {
                self.scheduler.set_strategy(Strategy::Throughput);
                self.scheduler.set_work_limit(None);
            },
        }
    }

    /// Gives every free slot a worker, if somebody wants bytes; the workers to
    /// start are returned. A slot whose worker has not left yet is left alone.
    fn ensure_workers(&mut self) -> (out: Vec<usize>)
        requires
            old(self).wf(),
        ensures
            final(self).wf(),
            final(self)@ == old(self)@.staffed(),
            out@ == old(self)@.hired(),
    {
        let mut out: Vec<usize> = Vec::new();
        if !self.cache_requested && self.readers.len() == 0 {
            return out;
        }
        let ghost slots = self.workers.slots@;
        let generation: u64 = self.workers.generation;
        let mut staffed: Vec<Option<u64>> = Vec::new();
        let mut i: usize = 0;
        while i < self.workers.slots.len()
            invariant
                i <= slots.len(),
                slots == self.workers.slots@,
                out@ == slots_that(slots, true, i as int),
                staffed@ == all_taken(slots, generation).take(i as int),
            decreases slots.len() - i,
        {
            let s: Option<u64> = self.workers.slots[i];
            let t: Option<u64> = if s.is_none() {
                Some(generation)
            } else {
                s
            };
            if s.is_none() {
                out.push(i);
            }
            staffed.push(t);
            assert(staffed@ =~= all_taken(slots, generation).take(i + 1));
            i = i + 1;
        }
        assert(staffed@ =~= all_taken(slots, generation));
        self.workers.slots = staffed;
        out
    }

    /// Tells the workers to take no new claims; what is on its way still lands.
    fn drain_workers(&mut self)
        requires
            old(self).wf(),
        ensures
            final(self).wf(),
            final(self)@ == old(self)@.drained(),
    {
        self.workers.generation = self.workers.generation.wrapping_add(1);
    }

    /// Takes every worker away; those to abort are returned.
    fn abort_workers(&mut self) -> (out: Vec<usize>)
        requires
            old(self).wf(),
        ensures
            final(self).wf(),
            final(self)@ == old(self)@.aborted(),
            out@ == slots_that(old(self)@.slots, false, old(self)@.slots.len() as int),
    {
        self.workers.generation = self.workers.generation.wrapping_add(1);
        let ghost slots = self.workers.slots@;
        let mut out: Vec<usize> = Vec::new();
        let mut empty: Vec<Option<u64>> = Vec::new();
        let mut i: usize = 0;
        while i < self.workers.slots.len()
            invariant
                i <= slots.len(),
                slots == self.workers.slots@,
                out@ == slots_that(slots, false, i as int),
                empty@ == Seq::new(i as nat, |k: int| None::<u64>),
            decreases slots.len() - i,
        {
            if self.workers.slots[i].is_some() {
                out.push(i);
            }
            empty.push(None);
            assert(empty@ =~= Seq::new((i + 1) as nat, |k: int| None::<u64>));
            i = i + 1;
        }
        self.workers.slots = empty;
        out
    }

    /// Frees the slot of a worker that leaves. Only the worker that holds the slot
    /// frees it.
    fn retire(&mut self, worker: usize, generation: u64)
        requires
            old(self).wf(),
        ensures
            final(self).wf(),
            final(self)@ == old(self)@.retired(worker, generation),
    {
        if worker < self.workers.slots.len() {
            if let Some(g) = self.workers.slots[worker] {
                if g == generation {
                    self.workers.slots.set(worker, None);
                }
            }
        }
    }

    /// Replaces workers whose claims were handed back. They are to be aborted
    /// where they still run, and started anew.
    fn respawn(&mut self, stale: &Vec<usize>)
        requires
            old(self).wf(),
        ensures
            final(self).wf(),
            final(self)@ == old(self)@.replaced(stale@, stale@.len() as int),
    {
        let ghost was = self@;
        let mut i: usize = 0;
        while i < stale.len()
            invariant
                i <= stale@.len(),
                self.wf(),
                was.wf(),
                self@ == was.replaced(stale@, i as int),
            decreases stale.len() - i,
        {
            let w: usize = stale[i];
            if w < self.workers.slots.len() {
                self.workers.slots.set(w, Some(self.workers.generation));
            }
            assert(self@ =~= was.replaced(stale@, i + 1));
            i = i + 1;
        }
    }

    /// Asks for the whole file; the workers to start are returned.
    pub fn start_cache(&mut self, entry: &CacheEntry, now: u64) -> (out: Vec<usize>)
        requires
            old(self).wf(),
            entry.wf(),
        ensures
            final(self).wf(),
            ({
                let total = old(self)@.total_size as int;
                let full = entry.run(0, total) >= total;
                &&& final(self)@ == old(self)@.started(full, entry.bytes_written, now)
                &&& out@ == if full {
                    Seq::empty()
                } else {
                    slots_that(old(self)@.slots, true, old(self)@.slots.len() as int)
                }
            }),
    {
        if entry.contiguous_from(0, self.total_size) >= self.total_size {
            self.state = JobState::Done;
            self.cache_requested = false;
            return Vec::new();
        }
        self.cache_requested = true;
        self.state = JobState::Running;
        self.failures = 0;
        self.last_written_bytes = entry.bytes_written;
        self.last_sample = now;
        self.retune();
        self.ensure_workers()
    }

    /// Withdraws the request for the whole file; the workers to start are
    /// returned. Playback goes on: the pool is bounded again, not shut down.
    pub fn pause_cache(&mut self) -> (out: Vec<usize>)
        requires
            old(self).wf(),
        ensures
            final(self).wf(),
            final(self)@ == old(self)@.paused(),
            out@ == if old(self)@.readers.len() == 0 {
                Seq::empty()
            } else {
                slots_that(old(self)@.slots, true, old(self)@.slots.len() as int)
            },
    {
        self.cache_requested = false;
        let done: bool = matches!(self.state, JobState::Done);
        if !done {
            self.state = JobState::Paused;
        }
        if self.readers.len() == 0 {
            self.drain_workers();
            Vec::new()
        } else {
            self.retune();
            self.drain_workers();
            self.ensure_workers()
        }
    }

    /// Stops for good; the workers to abort are returned.
    pub fn stop(&mut self) -> (out: Vec<usize>)
        requires
            old(self).wf(),
        ensures
            final(self).wf(),
            final(self)@ == (JobView { cache_requested: false, ..old(self)@ }).aborted(),
            out@ == slots_that(old(self)@.slots, false, old(self)@.slots.len() as int),
    {
        self.cache_requested = false;
        self.abort_workers()
    }

    /// What is kept over a restart.
    pub fn to_persisted(&self) -> (out: PersistedDownload)
        ensures
            out.task_id@ == self@.task_id,
            out.out_dir@.len() == 0,
            out.filename@.len() == 0,
            out.threads == self@.threads,
            out.was_running == self@.cache_requested,
    {
        PersistedDownload {
            task_id: self.task_id.clone(),
            out_dir: String::new(),
            filename: String::new(),
            threads: self.threads,
            was_running: self.cache_requested,
        }
    }

    /// Takes the rate since the last tick in; the speed that is shown is the mean
    /// of the last four. The rate is that of the bytes written: those of finished
    /// blocks come a block at a time.
    pub fn tick_throughput(&mut self, entry: &CacheEntry, now: u64)
        requires
            old(self).wf(),
        ensures
            final(self).wf(),
            ({
                let was = old(self)@;
                let elapsed = if now >= was.last_sample {
                    now - was.last_sample
                } else {
                    0
                };
                let done = entry.bytes_written;
                let bps = per_second(imax(done - was.last_written_bytes, 0), elapsed) as u64;
                let samples = (if was.samples.len() >= SPEED_SAMPLES {
                    was.samples.drop_first()
                } else {
                    was.samples
                }).push(bps);
                let recent = samples.skip(imax(samples.len() - 4, 0));
                final(self)@ == (JobView {
                    last_sample: now,
                    last_written_bytes: done,
                    samples,
                    current_speed_bps: (sum(recent) / recent.len() as int) as u64,
                    ..was
                })
            }),
    {
        let elapsed: u64 = if now >= self.last_sample {
            now - self.last_sample
        } else {
            0
        };
        self.last_sample = now;
        let done: u64 = entry.bytes_written;
        let previous: u64 = self.last_written_bytes;
        self.last_written_bytes = done;
        self.throughput.push(rate(done.saturating_sub(previous), elapsed));
        self.current_speed_bps = self.throughput.recent_mean(4);
    }

    /// A reader comes, which is a seek: the pool is aimed at it, and the requests
    /// that no longer matter are handed back and their workers replaced. Returns
    /// the reader's id, the workers to abort where they run, and those to start.
    pub fn attach_reader(&mut self, start: u64) -> (out: (u64, Staffing))
        requires
            old(self).wf(),
        ensures
            final(self).wf(),
            out.0 == old(self)@.next_reader,
            ({
                let (aimed, stale) = old(self)@.joined(start).refocused();
                let filled = aimed.replaced(stale, stale.len() as int);
                &&& final(self)@ == filled.staffed()
                &&& out.1.abort@ == stale
                &&& out.1.start@ == stale + filled.hired()
            }),
    {
        let id: u64 = self.next_reader;
        self.next_reader = self.next_reader.wrapping_add(1);
        self.place_reader(id, start);
        self.retune();
        let ghost aimed = self@;
        let stale: Vec<usize> = self.scheduler.refocus_on_reader(DEFAULT_CRITICAL_WINDOW);
        proof {
            lemma_refocused_ends(aimed.sched, DEFAULT_CRITICAL_WINDOW, 0);
            assert(self@ =~= aimed.refocused().0);
        }
        self.respawn(&stale);
        let hired: Vec<usize> = self.ensure_workers();
        let mut begin: Vec<usize> = Vec::new();
        push_all(&mut begin, &stale);
        push_all(&mut begin, &hired);
        assert(begin@ =~= stale@ + hired@);
        (id, Staffing { start: begin, abort: stale })
    }

    fn place_reader(&mut self, id: u64, at: u64)
        requires
            old(self).wf(),
        ensures
            final(self).wf(),
            final(self)@ == (JobView {
                readers: with_reader(old(self)@.readers, id, at),
                ..old(self)@
            }),
    {
        let ghost l = self.readers@;
        let mut i: usize = 0;
        assert(l.skip(0) =~= l);
        assert(l.take(0) + with_reader(l.skip(0), id, at) =~= with_reader(l, id, at));
        while i < self.readers.len()
            invariant
                i <= l.len(),
                *self == *old(self),
                l == self.readers@,
                with_reader(l, id, at) == l.take(i as int) + with_reader(l.skip(i as int), id, at),
                old(self).wf(),
            decreases l.len() - i,
        {
            let ghost rest = l.skip(i as int);
            assert(rest.drop_first() =~= l.skip(i + 1));
            if self.readers[i].0 == id {
                self.readers.set(i, (id, at));
                assert(self.readers@ =~= l.take(i as int) + with_reader(rest, id, at));
                return;
            }
            proof {
                assert(with_reader(rest, id, at) =~= seq![l[i as int]] + with_reader(
                    l.skip(i + 1),
                    id,
                    at,
                ));
                assert(l.take(i as int) + (seq![l[i as int]] + with_reader(l.skip(i + 1), id, at))
                    =~= l.take(i + 1) + with_reader(l.skip(i + 1), id, at));
            }
            i = i + 1;
        }
        assert(l.take(l.len() as int) =~= l);
        assert(l.skip(l.len() as int) =~= Seq::empty());
        self.readers.push((id, at));
        assert(self.readers@ =~= with_reader(l, id, at));
    }

    /// What a worker of a generation does next.
    pub fn worker_next(&mut self, worker: usize, generation: u64) -> (out: WorkerStep)
        requires
            old(self).wf(),
        ensures
            final(self).wf(),
            ({
                let was = old(self)@;
                match out {
                    WorkerStep::Superseded => was.generation != generation && final(self)@ == was,
                    WorkerStep::Nothing => was.generation == generation && was.sched.claimed(
                        worker,
                        final(self)@.sched,
                        None,
                    ) && final(self)@ == (JobView { sched: final(self)@.sched, ..was }),
                    WorkerStep::Fetch(c) => was.generation == generation && was.sched.claimed(
                        worker,
                        final(self)@.sched,
                        Some(c),
                    ) && final(self)@ == (JobView { sched: final(self)@.sched, ..was }),
                }
            }),
    {
        if self.workers.generation != generation {
            return WorkerStep::Superseded;
        }
        let ghost before = self@.sched;
        let claim: Option<Claim> = self.scheduler.claim(worker);
        proof {
            law_a_request_keeps_its_ends(before, worker, self@.sched, claim);
        }
        match claim {
            Some(c) => WorkerStep::Fetch(c),
            None => WorkerStep::Nothing,
        }
    }

    /// Begins with what the task remembers of its origins.
    pub fn with_claim_wall(self, wall: ClaimWall) -> (out: CacheJob)
        requires
            self.wf(),
        ensures
            out.wf(),
            out@ == (JobView { sched: self@.sched.seeded(wall), ..self@ }),
    {
        let ghost was = self@;
        let out: CacheJob = CacheJob { scheduler: self.scheduler.with_claim_wall(wall), ..self };
        assert(out@ =~= (JobView { sched: was.sched.seeded(wall), ..was }));
        out
    }

    /// How many of `len` bytes at `at` a worker may write: no more than its claim
    /// still reaches, for its tail may have gone to another worker. Those are
    /// announced, so that no part of them is given away while they are written.
    pub fn before_write(&mut self, worker: usize, at: u64, len: u64) -> (out: u64)
        requires
            old(self).wf(),
        ensures
            final(self).wf(),
            match first_live(old(self)@.sched.live, held_by(worker), 0) {
                Some(i) => {
                    let end = old(self)@.sched.live[i].claim.end;
                    &&& out == imax(imin(len as int, end - at + 1), 0)
                    &&& final(self)@ == if out > 0 {
                        JobView {
                            sched: old(self)@.sched.announced(worker, (at + out) as u64),
                            ..old(self)@
                        }
                    } else {
                        old(self)@
                    }
                },
                None => out == 0 && final(self)@ == old(self)@,
            },
    {
        let ghost was = self@.sched;
        let claim: Claim = match self.scheduler.claim_of(worker) {
            Some(c) => c,
            None => {
                return 0;
            },
        };
        proof {
            lemma_first_live(was.live, held_by(worker), 0);
            let i = first_live(was.live, held_by(worker), 0)->0;
            assert(was.live_ok(was.live[i]));
        }
        if at > claim.end() {
            return 0;
        }
        let room: u64 = claim.end() - at + 1;
        let n: u64 = if len < room {
            len
        } else {
            room
        };
        if n > 0 {
            self.scheduler.reserve(worker, at + n);
        }
        n
    }

    /// What a worker wrote, up to `next`, is there. Says whether its claim goes on
    /// from `next`.
    pub fn after_write(&mut self, worker: usize, next: u64) -> (out: bool)
        requires
            old(self).wf(),
        ensures
            final(self).wf(),
            match first_live(old(self)@.sched.live, held_by(worker), 0) {
                Some(i) => {
                    let c = old(self)@.sched.live[i].claim;
                    &&& out == (c.start <= next <= c.end)
                    &&& final(self)@ == if c.start <= next {
                        JobView { sched: old(self)@.sched.landed(worker, next), ..old(self)@ }
                    } else {
                        old(self)@
                    }
                },
                None => !out && final(self)@ == old(self)@,
            },
    {
        let claim: Claim = match self.scheduler.claim_of(worker) {
            Some(c) => c,
            None => {
                return false;
            },
        };
        if next < claim.start {
            return false;
        }
        self.scheduler.advance_to(worker, next);
        next <= claim.end()
    }

    /// A worker has delivered its claim or failed at it. `claim` is the claim as
    /// it was handed out; where the worker still holds it, what counts is how it
    /// stands now. Returns the workers to abort where the budget for failures is
    /// spent; the worker itself then stops at once.
    ///
    /// An origin that asks for less load spends nothing of the budget, and what
    /// changed at the origin says nothing about size.
    ///
    /// `wall` is what the task remembers of its origins. All coordinators of a task
    /// share it: what others learned counts here, and what this claim teaches goes
    /// into it.
    pub fn claim_ended(
        &mut self,
        worker: usize,
        claim: &Claim,
        error: Option<ProxyError>,
        wall: &mut ClaimWall,
    ) -> (out: Option<Vec<usize>>)
        requires
            old(self).wf(),
            old(self)@.failures < usize::MAX,
        ensures
            final(self).wf(),
            ({
                let was = JobView { sched: old(self)@.sched.knowing(*old(wall)), ..old(self)@ };
                &&& was.ended(worker, *claim, error, final(self)@, out)
                &&& final(self)@.sched.wall_memory == Some(*final(wall))
            }),
    {
        self.scheduler.share_wall(wall);
        let ghost was = self@;
        proof {
            lemma_wall_stays(was.sched, worker, held_claim(was.sched, worker, *claim), error);
        }
        let out: Option<Vec<usize>> = self.end_claim(worker, claim, error);
        if let Some(w) = self.scheduler.claim_wall() {
            *wall = w;
        }
        out
    }

    fn end_claim(&mut self, worker: usize, claim: &Claim, error: Option<ProxyError>) -> (out: Option<
        Vec<usize>,
    >)
        requires
            old(self).wf(),
            old(self)@.failures < usize::MAX,
        ensures
            final(self).wf(),
            old(self)@.ended(worker, *claim, error, final(self)@, out),
    {
        let held: Claim = match self.scheduler.claim_of(worker) {
            Some(c) => c,
            None => *claim,
        };
        let ghost was = self@;
        self.scheduler.finish(worker, held.cursor());
        let ghost mid = self@.sched;
        proof {
            lemma_finished_ends(was.sched, worker, held.cursor);
            lemma_noted_ends(mid, error is None, held);
        }
        let e: ProxyError = match error {
            None => {
                let _charged: bool = self.scheduler.note_claim_outcome(true, &held);
                return None;
            },
            Some(e) => e,
        };
        let charged: bool = if e.is_overload() {
            self.scheduler.note_overload(e.retry_after());
            false
        } else if e.is_content_changed() {
            true
        } else {
            self.scheduler.note_claim_outcome(false, &held)
        };
        if !charged {
            return None;
        }
        self.failures = self.failures + 1;
        if self.failures >= self.failure_budget {
            self.state = JobState::Failed(e.message());
            self.cache_requested = false;
            Some(self.abort_workers())
        } else {
            None
        }
    }

    /// A worker leaves; the workers to start are returned. Only one that left for
    /// a newer generation has its slot given out again: one that found nothing to
    /// claim would be replaced by one that finds nothing either.
    pub fn worker_left(
        &mut self,
        worker: usize,
        generation: u64,
        superseded: bool,
        entry: &CacheEntry,
    ) -> (out: Vec<usize>)
        requires
            old(self).wf(),
            entry.wf(),
        ensures
            final(self).wf(),
            ({
                let total = old(self)@.total_size as int;
                let full = entry.run(0, total) >= total;
                &&& final(self)@ == old(self)@.quit(worker, generation, superseded, full)
                &&& out@ == if !full && superseded {
                    old(self)@.retired(worker, generation).hired()
                } else {
                    Seq::empty()
                }
            }),
    {
        self.retire(worker, generation);
        if entry.contiguous_from(0, self.total_size) >= self.total_size {
            self.cache_requested = false;
            let failed: bool = matches!(self.state, JobState::Failed(_));
            if !failed {
                self.state = JobState::Done;
            }
            Vec::new()
        } else if superseded {
            self.ensure_workers()
        } else {
            Vec::new()
        }
    }

    /// What a reader at `cursor` does next, up to `end`. Where its byte is not
    /// there yet, the pool is aimed at it and woken.
    pub fn reader_next(&mut self, cursor: u64, end: u64, entry: &CacheEntry) -> (out: ReaderStep)
        requires
            old(self).wf(),
            entry.wf(),
        ensures
            final(self).wf(),
            ({
                let was = old(self)@;
                let want = imin(end - cursor + 1, READ_CHUNK as int);
                let n = entry.run(cursor as int, want);
                match out {
                    ReaderStep::Finished => cursor > end && final(self)@ == was,
                    ReaderStep::Wait(l) => cursor <= end && n == 0 && final(self)@
                        == was.retuned().staffed() && l@ == was.hired(),
                    ReaderStep::Read(lo, hi) => cursor <= end && n > 0 && lo == cursor && hi
                        == cursor + n - 1 && lo <= hi <= end && final(self)@ == was,
                }
            }),
            out is Wait ==> !entry.holds(cursor as int),
            out matches ReaderStep::Read(lo, hi) ==> lo == cursor && hi - lo < 1_048_576 && (forall|
                x: int,
            |
                lo <= x <= hi ==> #[trigger] entry.holds(x)) && (hi == end || hi - lo == 1_048_575
                || !entry.holds(hi + 1)),
    {
        if cursor > end {
            return ReaderStep::Finished;
        }
        let want: u64 = if end - cursor >= READ_CHUNK {
            READ_CHUNK
        } else {
            end - cursor + 1
        };
        let n: u64 = entry.contiguous_from(cursor, want);
        proof {
            crate::cache::lemma_run_holds(*entry, cursor as int, want as int);
            crate::laws::answers::law_a_run_ends_at_the_first_gap(
                *entry,
                cursor as int,
                want as int,
            );
        }
        if n == 0 {
            self.retune();
            ReaderStep::Wait(self.ensure_workers())
        } else {
            ReaderStep::Read(cursor, cursor + (n - 1))
        }
    }

    /// A reader has moved on.
    pub fn reader_advanced(&mut self, id: u64, at: u64)
        requires
            old(self).wf(),
        ensures
            final(self).wf(),
            final(self)@ == old(self)@.advanced(id, at),
    {
        self.place_reader(id, at);
        self.scheduler.set_read_head(at);
    }

    /// A reader is gone; the workers to start are returned.
    pub fn reader_left(&mut self, id: u64) -> (out: Vec<usize>)
        requires
            old(self).wf(),
        ensures
            final(self).wf(),
            final(self)@ == old(self)@.left(id),
            out@ == old(self)@.left_hired(id),
    {
        let ghost l = self.readers@;
        let mut rest: Vec<(u64, u64)> = Vec::new();
        let mut i: usize = 0;
        assert(rest@ =~= without_reader(l.take(0), id));
        while i < self.readers.len()
            invariant
                i <= l.len(),
                l == self.readers@,
                rest@ == without_reader(l.take(i as int), id),
            decreases l.len() - i,
        {
            assert(l.take(i + 1).drop_last() =~= l.take(i as int));
            if self.readers[i].0 != id {
                rest.push(self.readers[i]);
            }
            i = i + 1;
        }
        assert(l.take(l.len() as int) =~= l);
        self.readers = rest;
        if self.readers.len() == 0 {
            if self.cache_requested {
                self.retune();
                self.ensure_workers()
            } else {
                self.drain_workers();
                Vec::new()
            }
        } else {
            self.retune();
            Vec::new()
        }
    }
}

/// A worker's claim as it stands now, or as it was handed out where the worker no
/// longer holds one.
pub open spec fn held_claim(s: SchedulerView, worker: usize, handed: Claim) -> Claim {
    match crate::schedule::first_live(s.live, crate::schedule::held_by(worker), 0) {
        Some(i) => s.live[i].claim,
        None => handed,
    }
}

fn push_all(to: &mut Vec<usize>, more: &Vec<usize>)
    ensures
        final(to)@ == old(to)@ + more@,
{
    let ghost had = to@;
    assert(to@ =~= had + more@.take(0));
    let mut i: usize = 0;
    while i < more.len()
        invariant
            i <= more@.len(),
            to@ == had + more@.take(i as int),
        decreases more.len() - i,
    {
        to.push(more[i]);
        assert(to@ =~= had + more@.take(i + 1));
        i = i + 1;
    }
    assert(more@.take(more@.len() as int) =~= more@);
}

proof fn lemma_refocused_ends(s: SchedulerView, window: u64, i: int)
    ensures
        s.refocused(window, i).0.req_start == s.req_start,
    decreases s.live.len() - i,
{
    if 0 <= i < s.live.len() {
        let l = s.live[i];
        let c = l.claim;
        let keep = c.cursor + s.claim_len() - 1;
        if c.cursor > c.end {
            lemma_refocused_ends(s, window, i + 1);
        } else if s.misplaced(l, window) {
            let rest = if l.hedge_of is None {
                s.without_live(i).given_back(c.cursor as int, c.end)
            } else {
                s.without_live(i)
            };
            lemma_refocused_ends(rest, window, i);
        } else if l.hedge_of is None && keep < c.end {
            lemma_refocused_ends(
                s.with_end(i, keep as u64).given_back(imax(keep + 1, c.reserved as int), c.end),
                window,
                i + 1,
            );
        } else {
            lemma_refocused_ends(s, window, i + 1);
        }
    }
}

proof fn lemma_finished_ends(s: SchedulerView, worker: usize, reached: u64)
    ensures
        s.finished(worker, reached).req_start == s.req_start,
{
}

proof fn lemma_noted_ends(s: SchedulerView, ok: bool, claim: Claim)
    ensures
        s.noted(ok, claim).0.req_start == s.req_start,
{
}

impl JobView {
    /// A coordinator that has done nothing yet.
    pub open spec fn opening(
        task_id: Seq<char>,
        entry: CacheEntry,
        volumes: Seq<VolumeMeta>,
        max_threads: usize,
        max_per_volume: usize,
        max_split: u64,
        now: u64,
    ) -> JobView {
        let total = entry.meta.total_size;
        let threads = imax(max_threads as int, 1);
        JobView {
            task_id,
            key: entry.key@,
            total_size: total,
            threads: threads as usize,
            sched: SchedulerView::opening(
                0,
                (total - 1) as u64,
                Strategy::Throughput,
                volumes,
                threads,
                imax(max_per_volume as int, 1),
                if max_split > 0 {
                    Some(max_split)
                } else {
                    None
                },
                entry.runs_from(0, total - 1),
            ),
            generation: 1,
            slots: Seq::new(threads as nat, |i: int| None::<u64>),
            state: if entry.run(0, total as int) >= total {
                JobStateView::Done
            } else {
                JobStateView::Idle
            },
            cache_requested: false,
            readers: Seq::empty(),
            next_reader: 1,
            failures: 0,
            failure_budget: imax(imin(2 * threads, usize::MAX as int), 8) as usize,
            last_written_bytes: entry.bytes_written,
            current_speed_bps: 0,
            samples: Seq::empty(),
            last_sample: now,
        }
    }
}

/// The coordinators, one for each task at most.
pub struct DownloadManager {
    pub jobs: Vec<CacheJob>,
}

/// A coordinator that was stopped, and its workers that are to be aborted.
pub struct Stopped {
    pub task_id: String,
    pub abort: Vec<usize>,
}

#[verifier::ext_equal]
pub ghost struct StoppedView {
    pub task_id: Seq<char>,
    pub abort: Seq<usize>,
}

impl View for Stopped {
    type V = StoppedView;

    open spec fn view(&self) -> StoppedView {
        StoppedView { task_id: self.task_id@, abort: self.abort@ }
    }
}

pub open spec fn stopped_views(l: Seq<Stopped>) -> Seq<StoppedView> {
    l.map_values(|s: Stopped| s@)
}

pub open spec fn job_views(l: Seq<CacheJob>) -> Seq<JobView> {
    l.map_values(|j: CacheJob| j@)
}

/// The first job of a task, from `i` on.
pub open spec fn job_from(l: Seq<JobView>, task_id: Seq<char>, i: int) -> Option<int>
    decreases l.len() - i,
{
    if i < 0 || i >= l.len() {
        None
    } else if l[i].task_id == task_id {
        Some(i)
    } else {
        job_from(l, task_id, i + 1)
    }
}

/// What stopping a job leaves to abort.
pub open spec fn stopping(j: JobView) -> StoppedView {
    StoppedView {
        task_id: j.task_id,
        abort: slots_that(j.slots, false, j.slots.len() as int),
    }
}

/// The jobs that do not fill the entry `key`.
pub open spec fn jobs_off(l: Seq<JobView>, key: Seq<char>) -> Seq<JobView>
    decreases l.len(),
{
    if l.len() == 0 {
        Seq::empty()
    } else if l.last().key == key {
        jobs_off(l.drop_last(), key)
    } else {
        jobs_off(l.drop_last(), key).push(l.last())
    }
}

/// What stopping the jobs that fill the entry `key` leaves to abort.
pub open spec fn stops_on(l: Seq<JobView>, key: Seq<char>) -> Seq<StoppedView>
    decreases l.len(),
{
    if l.len() == 0 {
        Seq::empty()
    } else if l.last().key == key {
        stops_on(l.drop_last(), key).push(stopping(l.last()))
    } else {
        stops_on(l.drop_last(), key)
    }
}

/// The jobs that are resumed after a restart: those at work on a whole file, and
/// those that were paused.
pub open spec fn kept_jobs(l: Seq<JobView>) -> Seq<JobView>
    decreases l.len(),
{
    if l.len() == 0 {
        Seq::empty()
    } else if l.last().cache_requested || l.last().state is Paused {
        kept_jobs(l.drop_last()).push(l.last())
    } else {
        kept_jobs(l.drop_last())
    }
}

/// What is kept of a job.
pub open spec fn is_kept_as(p: PersistedDownload, j: JobView) -> bool {
    &&& p.task_id@ == j.task_id
    &&& p.out_dir@.len() == 0
    &&& p.filename@.len() == 0
    &&& p.threads == j.threads
    &&& p.was_running == j.cache_requested
}

/// The sum of the speeds, held down to the largest machine word.
pub open spec fn speeds(l: Seq<JobView>) -> int
    decreases l.len(),
{
    if l.len() == 0 {
        0
    } else {
        imin(speeds(l.drop_last()) + l.last().current_speed_bps, u64::MAX as int)
    }
}

impl DownloadManager {
    pub open spec fn all(self) -> Seq<JobView> {
        job_views(self.jobs@)
    }

    pub open spec fn wf(self) -> bool {
        &&& forall|i: int| 0 <= i < self.jobs@.len() ==> (#[trigger] self.jobs@[i]).wf()
        &&& forall|i: int, j: int|
            0 <= i < j < self.jobs@.len() ==> (#[trigger] self.jobs@[i]).task_id@ != (
            #[trigger] self.jobs@[j]).task_id@
    }

    pub fn new() -> (out: Self)
        ensures
            out.wf(),
            out.all() == Seq::<JobView>::empty(),
    {
        let out: DownloadManager = DownloadManager { jobs: Vec::new() };
        assert(out.all() =~= Seq::<JobView>::empty());
        out
    }

    /// Where the job of a task stands.
    pub fn get(&self, task_id: &str) -> (out: Option<usize>)
        ensures
            match out {
                Some(i) => i < self.jobs@.len() && job_from(self.all(), task_id@, 0) == Some(
                    i as int,
                ) && self.jobs@[i as int].task_id@ == task_id@,
                None => job_from(self.all(), task_id@, 0) is None && forall|k: int|
                    0 <= k < self.jobs@.len() ==> (#[trigger] self.jobs@[k]).task_id@ != task_id@,
            },
    {
        let ghost all = self.all();
        let mut i: usize = 0;
        while i < self.jobs.len()
            invariant
                i <= self.jobs@.len(),
                all == self.all(),
                job_from(all, task_id@, 0) == job_from(all, task_id@, i as int),
                forall|k: int| 0 <= k < i ==> (#[trigger] self.jobs@[k]).task_id@ != task_id@,
            decreases self.jobs.len() - i,
        {
            assert(all[i as int] == self.jobs@[i as int]@);
            if same_text(self.jobs[i].task_id.as_str(), task_id) {
                return Some(i);
            }
            i = i + 1;
        }
        None
    }

    /// Takes a job in. One that the task had before is stopped; its workers to
    /// abort are returned.
    pub fn insert(&mut self, job: CacheJob) -> (out: Vec<usize>)
        requires
            old(self).wf(),
            job.wf(),
        ensures
            final(self).wf(),
            match job_from(old(self).all(), job@.task_id, 0) {
                Some(i) => final(self).all() == old(self).all().update(i, job@) && out@
                    == stopping(old(self).all()[i]).abort,
                None => final(self).all() == old(self).all().push(job@) && out@.len() == 0,
            },
    {
        let ghost was = self.jobs@;
        match self.get(job.task_id.as_str()) {
            Some(i) => {
                let mut previous: CacheJob = job;
                self.jobs.set_and_swap(i, &mut previous);
                assert(self.all() =~= job_views(was).update(i as int, job@));
                previous.stop()
            },
            None => {
                self.jobs.push(job);
                assert(self.all() =~= job_views(was).push(job@));
                Vec::new()
            },
        }
    }

    /// Takes the job of a task out.
    pub fn remove(&mut self, task_id: &str) -> (out: Option<CacheJob>)
        requires
            old(self).wf(),
        ensures
            final(self).wf(),
            match job_from(old(self).all(), task_id@, 0) {
                Some(i) => out is Some && (out->0)@ == old(self).all()[i] && (out->0).wf()
                    && final(self).all() == old(self).all().remove(i),
                None => out is None && final(self).all() == old(self).all(),
            },
    {
        let ghost was = self.jobs@;
        match self.get(task_id) {
            Some(i) => {
                let job: CacheJob = self.jobs.remove(i);
                proof {
                    let now = self.jobs@;
                    assert(self.all() =~= job_views(was).remove(i as int));
                    assert forall|a: int| 0 <= a < now.len() implies (#[trigger] now[a]).wf() by {
                        let x = if a < i {
                            a
                        } else {
                            a + 1
                        };
                        assert(now[a] == was[x]);
                    }
                    assert forall|a: int, b: int| 0 <= a < b < now.len() implies (
                    #[trigger] now[a]).task_id@ != (#[trigger] now[b]).task_id@ by {
                        let x = if a < i {
                            a
                        } else {
                            a + 1
                        };
                        let y = if b < i {
                            b
                        } else {
                            b + 1
                        };
                        assert(was[x].task_id@ != was[y].task_id@);
                    }
                }
                Some(job)
            },
            None => None,
        }
    }

    /// Stops every job that fills the entry `key`; tasks with the same URLs share
    /// one. What they leave to abort is returned.
    pub fn stop_for_key(&mut self, key: &str) -> (out: Vec<Stopped>)
        requires
            old(self).wf(),
        ensures
            final(self).wf(),
            final(self).all() == jobs_off(old(self).all(), key@),
            stopped_views(out@) == stops_on(old(self).all(), key@),
    {
        let ghost was = self.jobs@;
        let ghost all = self.all();
        let ghost mut at: int = 0;
        let mut out: Vec<Stopped> = Vec::new();
        let mut i: usize = 0;
        proof {
            assert(self.jobs@.take(0) =~= Seq::empty());
            assert(job_views(self.jobs@.take(0)) =~= jobs_off(all.take(0), key@));
            assert(stopped_views(out@) =~= stops_on(all.take(0), key@));
            assert(was.skip(0) =~= was);
        }
        while i < self.jobs.len()
            invariant
                self.wf(),
                i <= self.jobs@.len(),
                all == job_views(was),
                0 <= at <= was.len(),
                self.jobs@.len() - i == was.len() - at,
                self.jobs@.skip(i as int) == was.skip(at),
                job_views(self.jobs@.take(i as int)) == jobs_off(all.take(at), key@),
                stopped_views(out@) == stops_on(all.take(at), key@),
            decreases was.len() - at,
        {
            let ghost now = self.jobs@;
            proof {
                assert(now.skip(i as int)[0] == was.skip(at)[0]);
                assert(now[i as int] == was[at]);
                assert(all.take(at + 1).drop_last() =~= all.take(at));
                assert(all.take(at + 1).last() == was[at]@);
                assert(now.skip(i as int).drop_first() =~= now.skip(i + 1));
                assert(was.skip(at).drop_first() =~= was.skip(at + 1));
            }
            if same_text(self.jobs[i].key.as_str(), key) {
                let mut job: CacheJob = self.jobs.remove(i);
                let ghost before = out@;
                let abort: Vec<usize> = job.stop();
                let s: Stopped = Stopped { task_id: job.task_id.clone(), abort };
                out.push(s);
                proof {
                    let left = self.jobs@;
                    assert(left.skip(i as int) =~= now.skip(i + 1));
                    assert(left.take(i as int) =~= now.take(i as int));
                    assert(stopped_views(out@) =~= stopped_views(before).push(s@));
                    assert forall|a: int| 0 <= a < left.len() implies (#[trigger] left[a]).wf() by {
                        let x = if a < i {
                            a
                        } else {
                            a + 1
                        };
                        assert(left[a] == now[x]);
                    }
                    assert forall|a: int, b: int| 0 <= a < b < left.len() implies (
                    #[trigger] left[a]).task_id@ != (#[trigger] left[b]).task_id@ by {
                        let x = if a < i {
                            a
                        } else {
                            a + 1
                        };
                        let y = if b < i {
                            b
                        } else {
                            b + 1
                        };
                        assert(now[x].task_id@ != now[y].task_id@);
                    }
                }
            } else {
                proof {
                    assert(job_views(now.take(i + 1)) =~= job_views(now.take(i as int)).push(
                        now[i as int]@,
                    ));
                }
                i = i + 1;
            }
            proof {
                at = at + 1;
            }
        }
        proof {
            assert(all.take(at) =~= all);
            assert(self.jobs@.take(i as int) =~= self.jobs@);
        }
        out
    }

    /// Stops every job. What they leave to abort is returned.
    pub fn stop_all(&mut self) -> (out: Vec<Stopped>)
        requires
            old(self).wf(),
        ensures
            final(self).wf(),
            final(self).all() == Seq::<JobView>::empty(),
            stopped_views(out@) == old(self).all().map_values(|j: JobView| stopping(j)),
    {
        let ghost was = self.jobs@;
        let mut out: Vec<Stopped> = Vec::new();
        let ghost mut at: int = 0;
        assert(was.skip(0) =~= was);
        while self.jobs.len() > 0
            invariant
                self.wf(),
                0 <= at <= was.len(),
                self.jobs@ == was.skip(at),
                out@.len() == at,
                forall|k: int| 0 <= k < at ==> (#[trigger] out@[k])@ == stopping(was[k]@),
            decreases self.jobs@.len(),
        {
            let ghost now = self.jobs@;
            let mut job: CacheJob = self.jobs.remove(0);
            proof {
                let left = self.jobs@;
                assert(left =~= was.skip(at + 1));
                assert forall|a: int| 0 <= a < left.len() implies (#[trigger] left[a]).wf() by {
                    assert(left[a] == now[a + 1]);
                }
                assert forall|a: int, b: int| 0 <= a < b < left.len() implies (
                #[trigger] left[a]).task_id@ != (#[trigger] left[b]).task_id@ by {
                    assert(now[a + 1].task_id@ != now[b + 1].task_id@);
                }
            }
            let abort: Vec<usize> = job.stop();
            out.push(Stopped { task_id: job.task_id.clone(), abort });
            proof {
                at = at + 1;
            }
        }
        assert(self.all() =~= Seq::<JobView>::empty());
        assert(stopped_views(out@) =~= job_views(was).map_values(|j: JobView| stopping(j)));
        out
    }

    /// What is kept over a restart.
    pub fn persisted(&self) -> (out: Vec<PersistedDownload>)
        ensures
            out@.len() == kept_jobs(self.all()).len(),
            forall|i: int|
                0 <= i < out@.len() ==> is_kept_as(#[trigger] out@[i], kept_jobs(self.all())[i]),
    {
        let ghost all = self.all();
        let mut out: Vec<PersistedDownload> = Vec::new();
        let mut i: usize = 0;
        while i < self.jobs.len()
            invariant
                i <= self.jobs@.len(),
                all == self.all(),
                out@.len() == kept_jobs(all.take(i as int)).len(),
                forall|k: int|
                    0 <= k < out@.len() ==> is_kept_as(
                        #[trigger] out@[k],
                        kept_jobs(all.take(i as int))[k],
                    ),
            decreases self.jobs.len() - i,
        {
            proof {
                assert(all.take(i + 1).drop_last() =~= all.take(i as int));
                assert(all.take(i + 1).last() == self.jobs@[i as int]@);
            }
            let paused: bool = matches!(self.jobs[i].state, JobState::Paused);
            if self.jobs[i].cache_requested || paused {
                out.push(self.jobs[i].to_persisted());
            }
            i = i + 1;
        }
        assert(all.take(all.len() as int) =~= all);
        out
    }

    /// The speed at which all jobs together fill the cache.
    pub fn fill_speed_bps(&self) -> (out: u64)
        ensures
            out == speeds(self.all()),
    {
        let ghost all = self.all();
        let mut out: u64 = 0;
        let mut i: usize = 0;
        while i < self.jobs.len()
            invariant
                i <= self.jobs@.len(),
                all == self.all(),
                out == speeds(all.take(i as int)),
            decreases self.jobs.len() - i,
        {
            proof {
                assert(all.take(i + 1).drop_last() =~= all.take(i as int));
                assert(all.take(i + 1).last() == self.jobs@[i as int]@);
            }
            out = out.saturating_add(self.jobs[i].current_speed_bps);
            i = i + 1;
        }
        assert(all.take(all.len() as int) =~= all);
        out
    }
}

impl Default for DownloadManager {
    fn default() -> (out: Self)
        ensures
            out.wf(),
            out.all() == Seq::<JobView>::empty(),
    {
        DownloadManager::new()
    }
}

/// Draining hands out nothing and takes nothing away: the workers keep their
/// slots, and what they are fetching stays theirs.
pub proof fn law_draining_keeps_what_is_on_its_way(j: JobView)
    ensures
        j.drained().sched == j.sched,
        j.drained().slots == j.slots,
        j.generation != j.drained().generation,
{
}

/// A slot that has a worker is not given another, and every free one gets one as
/// soon as somebody wants bytes.
pub proof fn law_a_slot_has_one_worker(j: JobView, i: int)
    requires
        j.wf(),
        0 <= i < j.slots.len(),
    ensures
        j.hired().contains(i as usize) <==> j.wanted() && j.slots[i] is None,
        j.wanted() ==> j.staffed().slots[i] is Some,
        j.slots[i] is Some ==> j.staffed().slots[i] == j.slots[i],
        j.staffed().hired().len() == 0,
{
    lemma_slots_that(j.slots, true, j.slots.len() as int, i as usize);
    let s = j.staffed();
    if s.wanted() {
        if s.hired().len() > 0 {
            lemma_slots_that(s.slots, true, s.slots.len() as int, s.hired()[0]);
            lemma_slots_in(s.slots, true, s.slots.len() as int, 0);
        }
    }
}

proof fn lemma_slots_in(slots: Seq<Option<u64>>, free: bool, n: int, k: int)
    requires
        0 <= n <= slots.len(),
        slots.len() <= usize::MAX,
        0 <= k < slots_that(slots, free, n).len(),
    ensures
        slots_that(slots, free, n)[k] < n,
        (slots[slots_that(slots, free, n)[k] as int] is None) == free,
    decreases n,
{
    if n > 0 {
        if k < slots_that(slots, free, n - 1).len() {
            lemma_slots_in(slots, free, n - 1, k);
        }
    }
}

proof fn lemma_slots_that(slots: Seq<Option<u64>>, free: bool, n: int, w: usize)
    requires
        0 <= n <= slots.len(),
        slots.len() <= usize::MAX,
    ensures
        slots_that(slots, free, n).contains(w) <==> w < n && (slots[w as int] is None) == free,
    decreases n,
{
    if n > 0 {
        let l = slots_that(slots, free, n - 1);
        lemma_slots_that(slots, free, n - 1, w);
        let x = (n - 1) as usize;
        assert(l.push(x).contains(w) <==> l.contains(w) || w == x) by {
            if w == x {
                assert(l.push(x)[l.len() as int] == w);
            }
            if l.contains(w) {
                let k = choose|k: int| 0 <= k < l.len() && l[k] == w;
                assert(l.push(x)[k] == w);
            }
        }
    }
}

/// While nobody asks for the whole file, a reader bounds the pool to the horizon
/// ahead of it; a request for the whole file lifts the bound and keeps the
/// reader's priority.
pub proof fn law_watching_a_part_does_not_fetch_the_whole(j: JobView)
    requires
        j.readers.len() > 0,
    ensures
        j.retuned().sched.strategy is Latency,
        !j.cache_requested ==> j.retuned().sched.work_limit == Some(PLAYBACK_HORIZON),
        j.cache_requested ==> j.retuned().sched.work_limit is None,
        lowest(j.readers) is Some,
        j.retuned().sched.read_head == j.sched.at_head(lowest(j.readers)->0).read_head,
{
}

/// No reader is behind the lowest position, and one of them is there.
pub proof fn law_the_pool_follows_the_last_reader(readers: Seq<(u64, u64)>)
    requires
        readers.len() > 0,
    ensures
        lowest(readers) is Some,
        forall|i: int| 0 <= i < readers.len() ==> lowest(readers)->0 <= (#[trigger] readers[i]).1,
        exists|i: int| 0 <= i < readers.len() && (#[trigger] readers[i]).1 == lowest(readers)->0,
    decreases readers.len(),
{
    let m = readers.drop_last();
    if m.len() > 0 {
        law_the_pool_follows_the_last_reader(m);
        let p = lowest(m)->0;
        let i = choose|i: int| 0 <= i < m.len() && (#[trigger] m[i]).1 == p;
        assert(readers[i].1 == p);
        assert forall|k: int| 0 <= k < readers.len() implies lowest(readers)->0 <= (
        #[trigger] readers[k]).1 by {
            if k < m.len() {
                assert(m[k] == readers[k]);
            }
        }
        assert(readers[readers.len() - 1] == readers.last());
    } else {
        assert(lowest(m) is None);
        assert(readers[0] == readers.last());
    }
}

/// Clearing an entry leaves no job on it, and touches no job on another.
pub proof fn law_a_cleared_entry_has_no_job(l: Seq<JobView>, key: Seq<char>, j: JobView)
    ensures
        jobs_off(l, key).contains(j) <==> l.contains(j) && j.key != key,
    decreases l.len(),
{
    if l.len() > 0 {
        let m = l.drop_last();
        law_a_cleared_entry_has_no_job(m, key, j);
        let kept = jobs_off(m, key);
        assert(l.contains(j) <==> m.contains(j) || j == l.last()) by {
            if j == l.last() {
                assert(l[l.len() - 1] == j);
            }
            if m.contains(j) {
                let k = choose|k: int| 0 <= k < m.len() && m[k] == j;
                assert(l[k] == j);
            }
            if l.contains(j) && j != l.last() {
                let k = choose|k: int| 0 <= k < l.len() && l[k] == j;
                assert(m[k] == j);
            }
        }
        assert(kept.push(l.last()).contains(j) <==> kept.contains(j) || j == l.last()) by {
            if j == l.last() {
                assert(kept.push(l.last())[kept.len() as int] == j);
            }
            if kept.contains(j) {
                let k = choose|k: int| 0 <= k < kept.len() && kept[k] == j;
                assert(kept.push(l.last())[k] == j);
            }
        }
    }
}

} // verus!
