//! Claim-based work scheduler for out-of-order fetching.
//!
//! A worker asks for a [`Claim`], a contiguous range inside one volume, fetches
//! it in a single request and writes the bytes at their absolute offsets. Only
//! the ordered reader cares about order, and it reads what was written.
//!
//! Two policies share the machinery:
//!
//! * [`Strategy::Throughput`]: claims cover the request in roughly
//!   `max_threads` equal parts, so every worker finishes around the same time.
//! * [`Strategy::Latency`]: the region ahead of the reader gets priority, and
//!   the pool packs into it in short, equal claims, which lengthen once the
//!   reader has buffer to spare.
//!
//! Work is found in three tiers, in cost order: *take* a claim out of an
//! unclaimed gap, *steal* the back half of a live claim, or, in the tail of a
//! download, *hedge*: race a live claim on a budget of duplicate bytes.
//!
//! Times are nanoseconds of a monotonic clock whose zero the caller picks; the
//! caller moves it forward with [`Scheduler::set_now`]. Pauses are milliseconds.

pub mod bounds;
pub mod history;
pub mod laws;

use crate::engine::{lemma_volume_from, volume_from, volumes_fit, VolumeMeta};
use crate::num::{ceil_div, div_ceil, imax, imin, saturating_product, wide_mul};
use crate::ranges::{
    canonical, covers, insert_range, inserted, lemma_insert_range, lemma_remove_range,
    remove_range, removed, total, total_of,
};
use std::sync::Arc;
use crate::laws::schedule::{law_a_sweep_recuts_what_has_stopped, picked, stopped, workers_of};
use vstd::prelude::*;

verus! {

/// Absolute floor on a claim, used once the transfer reaches its tail.
pub const MIN_CLAIM: u64 = 1024 * 1024;

/// Working minimum fragment away from the tail.
pub const MIN_FRAGMENT: u64 = 8 * 1024 * 1024;

/// Below this much work left, the transfer is in its tail at the latest.
pub const ENDGAME_FLOOR: u64 = 64 * 1024 * 1024;

/// A live claim slower than these twentieths of the median live rate is a
/// straggler, and is preferred as a steal victim.
pub const STRAGGLER_TWENTIETHS: u64 = 7;

/// A claim that has not moved a byte for this long (nanoseconds) is dead.
pub const DEAD_CLAIM_WINDOW: u64 = 30_000_000_000;

/// First pause (milliseconds) after the origin answers 429 or 503, doubled per
/// further strike.
pub const OVERLOAD_BACKOFF_BASE: u64 = 250;

/// Ceiling (milliseconds) on the pause that strikes alone can earn.
pub const OVERLOAD_BACKOFF_MAX: u64 = 8_000;

/// Strike ceiling: the ladder reaches [`OVERLOAD_BACKOFF_MAX`] here.
pub const OVERLOAD_STRIKES_MAX: u32 = 6;

/// A younger claim (nanoseconds) that has moved less than
/// [`RATE_SAMPLE_BYTES`] has no rate yet.
pub const RATE_SAMPLE_WINDOW: u64 = 2_000_000_000;

/// See [`RATE_SAMPLE_WINDOW`].
pub const RATE_SAMPLE_BYTES: u64 = 512 * 1024;

/// Shortest time (nanoseconds) over which a rate is taken.
pub const RATE_MIN_NANOS: u64 = 1_000_000;

/// The endgame may duplicate one byte in this many of the transfer.
pub const DUP_BUDGET_DIVISOR: u64 = 200;

/// Ceiling on the endgame's duplicate bytes.
pub const DUP_BUDGET_MAX: u64 = 32 * 1024 * 1024;

/// Default floor on the priority region ahead of the reader.
pub const DEFAULT_CRITICAL_WINDOW: u64 = 32 * 1024 * 1024;

/// Default claim length before the reader has built up any buffer.
pub const DEFAULT_HEAD_CLAIM: u64 = 2 * 1024 * 1024;

/// Where automatic sizing lands once an upstream has shown that it cannot take
/// a full-size range.
pub const RECOVERY_CLAIM: u64 = 8 * 1024 * 1024;

/// How long (nanoseconds) a learned wall stays valid.
pub const CLAIM_WALL_TTL: u64 = 600_000_000_000;

/// Knuth's multiplier, which spreads worker numbers over the pause.
pub const JITTER_MULTIPLIER: u64 = 2_654_435_761;

/// Memory, across requests, of the largest range an origin will swallow.
///
/// It only tightens while a learned value is live; expiry lets it widen again.
#[derive(Debug, Clone, Copy)]
pub struct ClaimWall {
    /// The learned size and when it was learned.
    pub slot: Option<(u64, u64)>,
    /// The current time.
    pub now: u64,
}

impl ClaimWall {
    /// What is remembered and has not expired.
    pub open spec fn remembered(self) -> Option<u64> {
        match self.slot {
            Some((bytes, at)) if self.now - at < CLAIM_WALL_TTL => Some(bytes),
            _ => None,
        }
    }

    pub fn new() -> (out: Self)
        ensures
            out.slot is None,
            out.now == 0,
            out.remembered() is None,
    {
        ClaimWall { slot: None, now: 0 }
    }

    /// Moves the clock.
    pub fn set_now(&mut self, now: u64)
        ensures
            *final(self) == (ClaimWall { now, ..*old(self) }),
    {
        self.now = now;
    }

    fn is_fresh(&self, at: u64) -> (out: bool)
        ensures
            out == (self.now - at < CLAIM_WALL_TTL),
    {
        self.now < at || self.now - at < CLAIM_WALL_TTL
    }

    /// The remembered wall, or `None` if nothing was learned or it has expired.
    /// An expired wall is dropped.
    pub fn get(&mut self) -> (out: Option<u64>)
        ensures
            out == old(self).remembered(),
            final(self).now == old(self).now,
            final(self).slot == if old(self).remembered() is Some {
                old(self).slot
            } else {
                None
            },
    {
        match self.slot {
            Some((bytes, at)) => {
                if self.is_fresh(at) {
                    Some(bytes)
                } else {
                    self.slot = None;
                    None
                }
            },
            None => None,
        }
    }

    /// Remembers that this origin could not swallow ranges above `bytes`. A live
    /// memory is never widened.
    pub fn record(&mut self, bytes: u64)
        ensures
            final(self).now == old(self).now,
            final(self).slot == Some(
                (
                    match old(self).remembered() {
                        Some(previous) if previous < bytes => previous,
                        _ => bytes,
                    },
                    old(self).now,
                ),
            ),
            final(self).remembered() is Some,
            final(self).remembered()->0 <= bytes,
            old(self).remembered() is Some ==> final(self).remembered()->0
                <= old(self).remembered()->0,
    {
        let mut tightened: u64 = bytes;
        if let Some((previous, at)) = self.slot {
            if self.is_fresh(at) && previous < bytes {
                tightened = previous;
            }
        }
        self.slot = Some((tightened, self.now));
    }

    /// Forgets everything learned.
    pub fn clear(&mut self)
        ensures
            *final(self) == (ClaimWall { slot: None, ..*old(self) }),
            final(self).remembered() is None,
    {
        self.slot = None;
    }
}

/// How the scheduler prioritizes and sizes claims.
#[derive(Debug, Clone, Copy, PartialEq, Eq, Structural)]
pub enum Strategy {
    /// Minimize total completion time; delivery order doesn't matter.
    Throughput,
    /// Minimize time-to-playable around the reader's position, and only then use
    /// spare capacity to prefetch elsewhere.
    Latency {
        /// Floor on the priority region ahead of the reader.
        critical_window: u64,
        /// Claim length before the reader has buffer to spare.
        head_claim: u64,
    },
}

impl Strategy {
    pub fn latency_default() -> (out: Self)
        ensures
            out == (Strategy::Latency {
                critical_window: DEFAULT_CRITICAL_WINDOW,
                head_claim: DEFAULT_HEAD_CLAIM,
            }),
    {
        Strategy::Latency {
            critical_window: DEFAULT_CRITICAL_WINDOW,
            head_claim: DEFAULT_HEAD_CLAIM,
        }
    }

    pub fn label(&self) -> (out: &'static str)
        ensures
            out@ == match self {
                Strategy::Throughput => "throughput"@,
                Strategy::Latency { .. } => "latency"@,
            },
    {
        match self {
            Strategy::Throughput => "throughput",
            Strategy::Latency { .. } => "latency",
        }
    }
}

/// A contiguous byte range assigned to one worker, in merged-stream coordinates.
///
/// `end` may move inward while the worker runs: another worker may steal the
/// tail. The scheduler holds the claim's current state; a worker reads it anew
/// with [`Scheduler::claim_of`] before each write.
#[derive(Debug, Clone, Copy, PartialEq, Eq, Structural)]
pub struct Claim {
    pub start: u64,
    pub volume: usize,
    /// Length this claim was cut to when it was handed out.
    pub issued: u64,
    /// Last byte owed.
    pub end: u64,
    /// Next byte owed.
    pub cursor: u64,
    /// The worker has committed to writing the bytes below this.
    pub reserved: u64,
}

impl Claim {
    /// Bytes still owed.
    pub open spec fn owed(self) -> int {
        if self.cursor > self.end {
            0
        } else {
            self.end - self.cursor + 1
        }
    }

    /// Current inclusive end.
    pub fn end(&self) -> (out: u64)
        ensures
            out == self.end,
    {
        self.end
    }

    /// How long this claim was when it was handed out.
    pub fn issued_len(&self) -> (out: u64)
        ensures
            out == self.issued,
    {
        self.issued
    }

    /// Bytes this claim has actually delivered so far.
    pub fn delivered(&self) -> (out: u64)
        ensures
            out == imax(self.cursor - self.start, 0),
    {
        self.cursor.saturating_sub(self.start)
    }

    /// Next byte this claim still owes.
    pub fn cursor(&self) -> (out: u64)
        ensures
            out == self.cursor,
    {
        self.cursor
    }

    /// Announces that bytes below `next` are about to be written.
    pub fn reserve(&mut self, next: u64)
        ensures
            *final(self) == (Claim {
                reserved: if old(self).reserved < next {
                    next
                } else {
                    old(self).reserved
                },
                ..*old(self)
            }),
    {
        if self.reserved < next {
            self.reserved = next;
        }
    }

    /// Records that everything below `next` has landed.
    pub fn advance_to(&mut self, next: u64)
        ensures
            *final(self) == (Claim {
                reserved: if old(self).reserved < next {
                    next
                } else {
                    old(self).reserved
                },
                cursor: next,
                ..*old(self)
            }),
    {
        self.reserve(next);
        self.cursor = next;
    }

    /// True once the cursor has passed the (possibly stolen-from) end.
    pub fn is_complete(&self) -> (out: bool)
        ensures
            out == (self.cursor > self.end),
            out == (self.owed() == 0),
    {
        self.cursor > self.end
    }

    /// Bytes still owed, or 0 when complete.
    pub fn remaining(&self) -> (out: u64)
        requires
            self.cursor > 0 || self.end < u64::MAX,
        ensures
            out == self.owed(),
    {
        if self.cursor > self.end {
            0
        } else {
            self.end - self.cursor + 1
        }
    }
}

/// Bytes moved over a stretch of time, for comparing speeds.
#[derive(Debug, Clone, Copy, PartialEq, Eq, Structural)]
pub struct Rate {
    pub bytes: u64,
    pub nanos: u64,
}

impl Rate {
    /// Fewer bytes per second than `other`.
    pub open spec fn slower(self, other: Rate) -> bool {
        self.bytes * other.nanos < other.bytes * self.nanos
    }

    /// Below [`STRAGGLER_TWENTIETHS`] twentieths of `median`.
    pub open spec fn straggles(self, median: Rate) -> bool {
        20 * (self.bytes * median.nanos) < STRAGGLER_TWENTIETHS * (median.bytes * self.nanos)
    }

    fn is_slower(&self, other: &Rate) -> (out: bool)
        ensures
            out == self.slower(*other),
    {
        wide_mul(self.bytes, other.nanos) < wide_mul(other.bytes, self.nanos)
    }

    fn is_straggler(&self, median: &Rate) -> (out: bool)
        ensures
            out == self.straggles(*median),
    {
        let a: u128 = wide_mul(self.bytes, median.nanos);
        let b: u128 = wide_mul(median.bytes, self.nanos);
        let q: u128 = b / 20;
        let r: u128 = b % 20;
        assert(b == 20 * q + r);
        if a < 7 * q {
            true
        } else {
            let over: u128 = a - 7 * q;
            over < 7 && 20 * over < 7 * r
        }
    }
}

/// Being slower is a strict order on rates over some time.
proof fn lemma_slower_order(a: Rate, b: Rate, c: Rate)
    requires
        a.nanos > 0,
        b.nanos > 0,
        c.nanos > 0,
    ensures
        !a.slower(b) && !b.slower(c) ==> !a.slower(c),
        a.slower(b) ==> !b.slower(a),
        a.slower(b) && !c.slower(b) ==> a.slower(c),
{
    let (x, p) = (a.bytes as int, a.nanos as int);
    let (y, q) = (b.bytes as int, b.nanos as int);
    let (z, r) = (c.bytes as int, c.nanos as int);
    assert(x * q >= y * p && y * r >= z * q ==> x * r >= z * p) by (nonlinear_arith)
        requires
            x >= 0,
            y >= 0,
            z >= 0,
            p > 0,
            q > 0,
            r > 0,
    {
        if x * q >= y * p && y * r >= z * q {
            assert((x * q) * r >= (y * p) * r);
            assert((y * r) * p >= (z * q) * p);
            assert((x * r) * q >= (z * p) * q);
        }
    }
    assert(x * q < y * p && z * q >= y * r ==> x * r < z * p) by (nonlinear_arith)
        requires
            x >= 0,
            y >= 0,
            z >= 0,
            p > 0,
            q > 0,
            r > 0,
    {
        if x * q < y * p && z * q >= y * r {
            assert((x * q) * r < (y * p) * r);
            assert((z * q) * p >= (y * r) * p);
            assert((x * r) * q < (z * p) * q);
        }
    }
}

/// Slowest first.
pub open spec fn in_rate_order(rates: Seq<Rate>) -> bool {
    forall|i: int, j: int|
        0 <= i < j < rates.len() ==> !(#[trigger] rates[j]).slower(#[trigger] rates[i])
}

/// `sorted` holds the rates of `rates`, slowest first.
pub open spec fn is_sorted_rates(sorted: Seq<Rate>, rates: Seq<Rate>) -> bool {
    in_rate_order(sorted) && sorted.to_multiset() == rates.to_multiset()
}

fn sort_rates(rates: &Vec<Rate>) -> (out: Vec<Rate>)
    requires
        forall|i: int| 0 <= i < rates@.len() ==> (#[trigger] rates@[i]).nanos > 0,
    ensures
        is_sorted_rates(out@, rates@),
        out@.len() == rates@.len(),
{
    let mut out: Vec<Rate> = Vec::new();
    let mut i: usize = 0;
    assert(out@ =~= rates@.take(0));
    while i < rates.len()
        invariant
            i <= rates.len(),
            out@.len() == i,
            forall|k: int| 0 <= k < rates@.len() ==> (#[trigger] rates@[k]).nanos > 0,
            forall|k: int| 0 <= k < out@.len() ==> (#[trigger] out@[k]).nanos > 0,
            in_rate_order(out@),
            out@.to_multiset() == rates@.take(i as int).to_multiset(),
        decreases rates.len() - i,
    {
        let x: Rate = rates[i];
        let mut at: usize = 0;
        while at < out.len() && !x.is_slower(&out[at])
            invariant
                at <= out.len(),
                forall|k: int| 0 <= k < at ==> !x.slower(#[trigger] out@[k]),
            decreases out.len() - at,
        {
            at = at + 1;
        }
        let ghost before = out@;
        out.insert(at, x);
        proof {
            let after = out@;
            assert(after =~= before.insert(at as int, x));
            assert forall|p: int, q: int| 0 <= p < q < after.len() implies !(
            #[trigger] after[q]).slower(#[trigger] after[p]) by {
                let old_p = if p < at {
                    p
                } else {
                    p - 1
                };
                let old_q = if q < at {
                    q
                } else {
                    q - 1
                };
                if p != at && q != at {
                    assert(after[p] == before[old_p] && after[q] == before[old_q]);
                } else if q == at {
                    assert(after[p] == before[p]);
                } else {
                    assert(after[q] == before[q - 1]);
                    if q - 1 > at {
                        assert(!before[q - 1].slower(before[at as int]));
                        lemma_slower_order(x, before[at as int], before[q - 1]);
                    }
                    lemma_slower_order(x, before[q - 1], x);
                }
            }
            assert(after.remove(at as int) =~= before);
            before.to_multiset_ensures();
            after.to_multiset_ensures();
            let m = rates@.take(i as int);
            m.to_multiset_ensures();
            assert(m.push(x) =~= rates@.take(i + 1));
            assert(after.to_multiset() =~= before.to_multiset().insert(x)) by {
                assert(after.remove(at as int).to_multiset() =~= after.to_multiset().remove(
                    after[at as int],
                ));
                assert(after.contains(x)) by {
                    assert(after[at as int] == x);
                }
            }
        }
        i = i + 1;
    }
    proof {
        assert(rates@.take(rates@.len() as int) =~= rates@);
    }
    out
}


/// Scheduler-side record of a handed-out claim.
#[derive(Debug, Clone, Copy)]
pub struct Live {
    pub worker: usize,
    pub claim: Claim,
    /// When the claim was handed out.
    pub started: u64,
    /// Cursor and time at the last [`Scheduler::reclaim_stalled`] sweep that saw
    /// the claim move.
    pub last_cursor: u64,
    pub last_progress: u64,
    /// The start of the claim that this one races, for a speculative endgame
    /// copy. A copy owns no range: the claim it races still owns it.
    pub hedge_of: Option<u64>,
}

impl Live {
    /// What the claim has moved since it was handed out, or nothing while the
    /// sample is too short to mean anything.
    pub open spec fn rate_at(self, now: u64) -> Option<Rate> {
        let elapsed = imax(now - self.started, 0);
        let done = imax(self.claim.cursor - self.claim.start, 0);
        if elapsed < RATE_SAMPLE_WINDOW && done < RATE_SAMPLE_BYTES {
            None
        } else {
            Some(Rate { bytes: done as u64, nanos: imax(elapsed, RATE_MIN_NANOS as int) as u64 })
        }
    }

    fn rate(&self, now: u64) -> (out: Option<Rate>)
        ensures
            out == self.rate_at(now),
            out is Some ==> out->0.nanos > 0,
    {
        let elapsed: u64 = now.saturating_sub(self.started);
        let done: u64 = self.claim.delivered();
        if elapsed < RATE_SAMPLE_WINDOW && done < RATE_SAMPLE_BYTES {
            None
        } else {
            Some(Rate { bytes: done, nanos: elapsed.max(RATE_MIN_NANOS) })
        }
    }
}

/// The bytes that the claims themselves (no copies) still owe.
pub open spec fn owed_by(live: Seq<Live>) -> int
    decreases live.len(),
{
    if live.len() == 0 {
        0
    } else {
        owed_by(live.drop_last()) + if live.last().hedge_of is None {
            live.last().claim.owed()
        } else {
            0
        }
    }
}

/// How many live claims lie in the volume with this number.
pub open spec fn count_in_volume(live: Seq<Live>, volume: usize) -> int
    decreases live.len(),
{
    if live.len() == 0 {
        0
    } else {
        count_in_volume(live.drop_last(), volume) + if live.last().claim.volume == volume {
            1int
        } else {
            0
        }
    }
}

/// The rates known at `now`, in the order of the claims.
pub open spec fn known_rates(live: Seq<Live>, now: u64) -> Seq<Rate>
    decreases live.len(),
{
    if live.len() == 0 {
        seq![]
    } else {
        let front = known_rates(live.drop_last(), now);
        match live.last().rate_at(now) {
            Some(r) => front.push(r),
            None => front,
        }
    }
}

/// One look for a gap: in which region, whether a volume that has its share of
/// claims is passed over, and whether the nearest gap wins or the largest.
#[derive(Debug, Clone, Copy, PartialEq, Eq, Structural)]
pub struct Pass {
    pub lo: u64,
    pub hi: u64,
    pub respect_cap: bool,
    pub nearest: bool,
}

/// What a [`Scheduler`] holds.
#[verifier::ext_equal]
pub struct SchedulerView {
    pub unclaimed: Seq<(u64, u64)>,
    pub live: Seq<Live>,
    pub strategy: Strategy,
    pub volumes: Seq<VolumeMeta>,
    pub max_threads: int,
    pub max_per_volume: int,
    pub split_cap: Option<u64>,
    pub req_start: u64,
    pub req_end: u64,
    pub read_head: u64,
    pub buffered: u64,
    pub work_limit: Option<u64>,
    pub auto_limit: Option<u64>,
    pub auto_wall: u64,
    pub dup_budget: u64,
    pub overload_strikes: u32,
    pub overload_hint: Option<u64>,
    pub wall_memory: Option<ClaimWall>,
    pub now: u64,
}

impl SchedulerView {
    /// What every operation keeps.
    pub open spec fn wf(self) -> bool {
        &&& canonical(self.unclaimed)
        &&& self.req_end < u64::MAX
        &&& forall|i: int|
            0 <= i < self.unclaimed.len() ==> (#[trigger] self.unclaimed[i]).1 <= self.req_end
        &&& volumes_fit(self.volumes)
        &&& self.req_start <= self.read_head
        &&& self.max_threads >= 1
        &&& self.max_per_volume >= 1
        &&& self.split_cap != Some(0u64)
        &&& self.overload_strikes <= OVERLOAD_STRIKES_MAX
        &&& forall|i: int| 0 <= i < self.live.len() ==> self.live_ok(#[trigger] self.live[i])
    }

    /// Nothing lies before the request: neither what is unclaimed nor what has been
    /// claimed. Every operation keeps this too, but for a worker that is finished
    /// with a claim at a byte before the request.
    pub open spec fn within(self) -> bool {
        &&& forall|i: int|
            0 <= i < self.unclaimed.len() ==> self.req_start <= (#[trigger] self.unclaimed[i]).0
        &&& forall|i: int|
            0 <= i < self.live.len() ==> self.req_start <= (#[trigger] self.live[i]).claim.start
    }

    /// A claim handed out here keeps to what it was cut to, inside the request,
    /// and a claim that owns its range stays in one volume and under the cap.
    pub open spec fn live_ok(self, l: Live) -> bool {
        let c = l.claim;
        &&& c.issued >= 1
        &&& c.start <= c.cursor
        &&& c.end <= self.req_end
        &&& c.start + c.issued - 1 <= self.req_end
        &&& c.end < c.start + c.issued
        &&& l.hedge_of is None ==> c.start + c.issued - 1 <= self.volume_last(c.start)
        &&& self.split_cap is Some ==> c.issued <= self.split_cap->0
    }

    /// The number of the volume that holds byte `offset`, or 0.
    pub open spec fn volume_of(self, offset: u64) -> usize {
        match volume_from(self.volumes, offset as int, 0) {
            Some(i) => i as usize,
            None => 0,
        }
    }

    /// The last byte of the volume that holds byte `offset`; without one, the
    /// last byte of all.
    pub open spec fn volume_last(self, offset: u64) -> int {
        match volume_from(self.volumes, offset as int, 0) {
            Some(i) => self.volumes[i].offset + self.volumes[i].size - 1,
            None => u64::MAX as int,
        }
    }

    /// Bytes of the request still outstanding.
    pub open spec fn remaining_work(self) -> int {
        imin(total(self.unclaimed) + owed_by(self.live), u64::MAX as int)
    }

    /// Where the tail begins.
    pub open spec fn endgame_threshold(self) -> int {
        imax(imin(self.max_threads * 4 * MIN_FRAGMENT, u64::MAX as int), ENDGAME_FLOOR as int)
    }

    pub open spec fn in_tail(self) -> bool {
        self.remaining_work() < self.endgame_threshold()
    }

    /// Smallest fragment worth cutting right now.
    pub open spec fn min_frag(self) -> int {
        if self.strategy is Latency || self.in_tail() {
            MIN_CLAIM as int
        } else {
            MIN_FRAGMENT as int
        }
    }

    /// What one worker should take so that everybody finishes together.
    pub open spec fn even_share(self) -> int {
        let free_slots = imax(self.max_threads - self.live.len(), 1);
        imax(ceil_div(total(self.unclaimed), free_slots), self.min_frag())
    }

    /// How long a claim should be right now.
    pub open spec fn claim_len(self) -> int {
        let policy = match self.strategy {
            Strategy::Throughput => self.even_share(),
            Strategy::Latency { head_claim, .. } => imin(
                imax(self.buffered as int / self.max_threads, imax(head_claim as int, 1)),
                self.even_share(),
            ),
        };
        let bounded = match self.auto_limit {
            Some(limit) => imin(policy, limit as int),
            None => policy,
        };
        let capped = match self.split_cap {
            Some(cap) => imin(bounded, cap as int),
            None => bounded,
        };
        imax(capped, 1)
    }

    /// Last byte workers may currently claim.
    pub open spec fn horizon(self) -> int {
        match self.work_limit {
            Some(limit) => imin(self.read_head + imax(limit - 1, 0), self.req_end as int),
            None => self.req_end as int,
        }
    }

    /// First byte workers may currently claim.
    pub open spec fn floor(self) -> int {
        match self.work_limit {
            Some(_) => imax(self.read_head as int, self.req_start as int),
            None => self.req_start as int,
        }
    }

    /// How far ahead of the reader the priority region reaches.
    pub open spec fn critical_span(self) -> int {
        match self.strategy {
            Strategy::Throughput => 0,
            Strategy::Latency { critical_window, .. } => imax(
                imax(
                    critical_window as int,
                    imin(self.max_threads * self.claim_len(), u64::MAX as int),
                ),
                1,
            ),
        }
    }

    /// The looks for a gap, in the order in which they are made.
    pub open spec fn passes(self) -> Seq<Pass> {
        let lo = self.floor() as u64;
        let hi = self.horizon() as u64;
        let strict = Pass { lo, hi, respect_cap: true, nearest: false };
        let loose = Pass { lo, hi, respect_cap: false, nearest: false };
        match self.strategy {
            Strategy::Throughput => seq![strict, loose],
            Strategy::Latency { .. } => {
                let window = imin(self.read_head + self.critical_span() - 1, hi as int);
                if self.read_head <= window {
                    seq![
                        Pass {
                            lo: self.read_head,
                            hi: window as u64,
                            respect_cap: true,
                            nearest: true,
                        },
                        Pass {
                            lo: self.read_head,
                            hi: window as u64,
                            respect_cap: false,
                            nearest: true,
                        },
                        strict,
                        loose,
                    ]
                } else {
                    seq![Pass { nearest: true, ..strict }, Pass { nearest: true, ..loose }]
                }
            },
        }
    }

    /// The region is not empty, or it lies behind the request.
    pub open spec fn pass_ok(self, p: Pass) -> bool {
        p.lo <= p.hi || p.lo > self.req_end
    }

    /// Gap `i` reaches into the region.
    pub open spec fn overlaps(self, p: Pass, i: int) -> bool {
        self.unclaimed[i].0 <= p.hi && p.lo <= self.unclaimed[i].1
    }

    /// Where a claim out of gap `i` would begin.
    pub open spec fn gap_start(self, p: Pass, i: int) -> u64 {
        if self.unclaimed[i].0 < p.lo {
            p.lo
        } else {
            self.unclaimed[i].0
        }
    }

    /// How much of gap `i` lies in the region.
    pub open spec fn gap_len(self, p: Pass, i: int) -> int {
        imin(self.unclaimed[i].1 as int, p.hi as int) - self.gap_start(p, i) + 1
    }

    /// Gap `i` reaches into the region and its volume may take another claim.
    pub open spec fn open_gap(self, p: Pass, i: int) -> bool {
        &&& self.overlaps(p, i)
        &&& p.respect_cap ==> count_in_volume(self.live, self.volume_of(self.gap_start(p, i)))
            < self.max_per_volume
    }

    /// The gap that a look finds: the first one in the region, unless its volume
    /// has its share, or else the largest open one, the first of equals.
    pub open spec fn gap_found(self, p: Pass, found: Option<int>) -> bool {
        if p.nearest {
            match found {
                Some(i) => 0 <= i < self.unclaimed.len() && self.open_gap(p, i) && forall|j: int|
                    0 <= j < i ==> !#[trigger] self.overlaps(p, j),
                None => forall|i: int|
                    0 <= i < self.unclaimed.len() && #[trigger] self.open_gap(p, i) ==> exists|
                        j: int,
                    |
                        0 <= j < i && #[trigger] self.overlaps(p, j),
            }
        } else {
            match found {
                Some(i) => 0 <= i < self.unclaimed.len() && self.open_gap(p, i) && forall|j: int|
                    0 <= j < self.unclaimed.len() && #[trigger] self.open_gap(p, j)
                        ==> self.gap_len(p, j) <= self.gap_len(p, i) && (j < i ==> self.gap_len(
                        p,
                        j,
                    ) < self.gap_len(p, i)),
                None => forall|j: int|
                    0 <= j < self.unclaimed.len() ==> !#[trigger] self.open_gap(p, j),
            }
        }
    }

    /// The claim as it is handed out.
    pub open spec fn fresh_claim(self, start: u64, end: u64) -> Claim {
        Claim {
            start,
            volume: self.volume_of(start),
            issued: (end - start + 1) as u64,
            end,
            cursor: start,
            reserved: start,
        }
    }

    /// The record of a claim handed out now.
    pub open spec fn fresh_live(self, worker: usize, start: u64, end: u64, hedge_of: Option<u64>) -> Live {
        Live {
            worker,
            claim: self.fresh_claim(start, end),
            started: self.now,
            last_cursor: start,
            last_progress: self.now,
            hedge_of,
        }
    }

    /// `[start, end]` handed to `worker`.
    pub open spec fn registered(
        self,
        worker: usize,
        start: u64,
        end: u64,
        hedge_of: Option<u64>,
    ) -> SchedulerView {
        SchedulerView {
            live: self.live.push(self.fresh_live(worker, start, end, hedge_of)),
            ..self
        }
    }

    /// Where a claim out of gap `i` ends.
    pub open spec fn take_end(self, p: Pass, i: int) -> u64 {
        let start = self.gap_start(p, i);
        imin(
            imin(imin(self.unclaimed[i].1 as int, p.hi as int), self.volume_last(start)),
            start + self.claim_len() - 1,
        ) as u64
    }

    /// A claim taken out of gap `i`.
    pub open spec fn taken(self, worker: usize, p: Pass, i: int) -> SchedulerView {
        let start = self.gap_start(p, i);
        let end = self.take_end(p, i);
        SchedulerView {
            unclaimed: remove_range(self.unclaimed, start, end),
            ..self
        }.registered(worker, start, end, None)
    }
}


impl SchedulerView {
    /// The live claims that `worker` may rob of more than `need` bytes.
    pub open spec fn robbable(self, worker: usize, need: int) -> Seq<bool> {
        Seq::new(
            self.live.len(),
            |i: int|
                self.live[i].worker != worker && self.live[i].hedge_of is None
                    && self.live[i].claim.owed() > need,
        )
    }

    /// Among the marked claims with a known rate, the slowest, the first of
    /// equals.
    pub open spec fn slowest_of(self, marked: Seq<bool>, found: Option<int>) -> bool {
        match found {
            Some(i) => {
                &&& 0 <= i < self.live.len()
                &&& marked[i]
                &&& self.live[i].rate_at(self.now) is Some
                &&& forall|j: int|
                    0 <= j < self.live.len() && #[trigger] marked[j] && self.live[j].rate_at(
                        self.now,
                    ) is Some ==> !self.live[j].rate_at(self.now)->0.slower(
                        self.live[i].rate_at(self.now)->0,
                    ) && (j < i ==> self.live[i].rate_at(self.now)->0.slower(
                        self.live[j].rate_at(self.now)->0,
                    ))
            },
            None => forall|j: int|
                0 <= j < self.live.len() && #[trigger] marked[j] ==> self.live[j].rate_at(
                    self.now,
                ) is None,
        }
    }

    /// Among the marked claims, the one that owes most, the last of equals.
    pub open spec fn widest_of(self, marked: Seq<bool>, found: Option<int>) -> bool {
        match found {
            Some(i) => {
                &&& 0 <= i < self.live.len()
                &&& marked[i]
                &&& forall|j: int|
                    0 <= j < self.live.len() && #[trigger] marked[j]
                        ==> self.live[j].claim.owed() <= self.live[i].claim.owed() && (j > i
                        ==> self.live[j].claim.owed() < self.live[i].claim.owed())
            },
            None => forall|j: int| 0 <= j < self.live.len() ==> !#[trigger] marked[j],
        }
    }

    /// The marked claims that straggle behind the rate `median`.
    pub open spec fn stragglers(self, marked: Seq<bool>, median: Rate) -> Seq<bool> {
        Seq::new(
            self.live.len(),
            |i: int|
                marked[i] && self.live[i].rate_at(self.now) is Some && self.live[i].rate_at(
                    self.now,
                )->0.straggles(median),
        )
    }

    /// Slowness beats size: the slowest straggler, or else the widest claim.
    pub open spec fn victim_behind(self, marked: Seq<bool>, median: Rate, found: Option<int>) -> bool {
        let slow = self.stragglers(marked, median);
        if exists|j: int| 0 <= j < slow.len() && #[trigger] slow[j] {
            self.slowest_of(slow, found)
        } else {
            self.widest_of(marked, found)
        }
    }

    /// Which live claim to rob. With fewer than three known rates there is no
    /// median to straggle behind.
    pub open spec fn victim_found(self, worker: usize, need: int, found: Option<int>) -> bool {
        let marked = self.robbable(worker, need);
        let rates = known_rates(self.live, self.now);
        if rates.len() < 3 {
            self.widest_of(marked, found)
        } else {
            exists|sorted: Seq<Rate>| #[trigger]
                is_sorted_rates(sorted, rates) && self.victim_behind(
                    marked,
                    sorted[rates.len() as int / 2],
                    found,
                )
        }
    }

    /// The live claim `i` with its end moved to `end`.
    pub open spec fn with_end(self, i: int, end: u64) -> SchedulerView {
        let l = self.live[i];
        SchedulerView {
            live: self.live.update(i, Live { claim: Claim { end, ..l.claim }, ..l }),
            ..self
        }
    }

    /// The back half of what claim `i` still owes goes to `worker`, but nothing
    /// that the victim has committed to writing.
    pub open spec fn halved(self, worker: usize, i: int) -> (SchedulerView, Option<Claim>) {
        let victim = self.live[i].claim;
        let split = (victim.end - victim.owed() / 2) as u64;
        let cut = self.with_end(i, split);
        let start = imax(split + 1, victim.reserved as int);
        if start > victim.end {
            (cut, None)
        } else {
            let end = imin(victim.end as int, self.volume_last(start as u64)) as u64;
            (
                cut.registered(worker, start as u64, end, None),
                Some(cut.fresh_claim(start as u64, end)),
            )
        }
    }

    /// Second tier: steal from a live claim that can spare it.
    pub open spec fn stole(self, worker: usize, after: SchedulerView, out: Option<Claim>) -> bool {
        exists|found: Option<int>| #[trigger]
            self.victim_found(worker, 2 * self.min_frag(), found) && match found {
                Some(i) => (after, out) == self.halved(worker, i),
                None => after == self && out is None,
            }
    }

    /// The live claims that `worker` may race: none of its own, none that is or
    /// has a copy, and none nearly done.
    pub open spec fn hedgeable(self, worker: usize) -> Seq<bool> {
        Seq::new(
            self.live.len(),
            |i: int|
                self.live[i].worker != worker && self.live[i].hedge_of is None
                    && self.live[i].claim.owed() >= MIN_CLAIM && !self.has_copy(
                    self.live[i].claim.start,
                ),
        )
    }

    /// Some live claim races the one that began at `start`.
    pub open spec fn has_copy(self, start: u64) -> bool {
        exists|j: int| 0 <= j < self.live.len() && (#[trigger] self.live[j]).hedge_of == Some(start)
    }

    /// Which live claim to race: the slowest, or, with no known rate, the widest.
    pub open spec fn hedge_found(self, worker: usize, found: Option<int>) -> bool {
        let marked = self.hedgeable(worker);
        if exists|j: int|
            0 <= j < self.live.len() && #[trigger] marked[j] && self.live[j].rate_at(
                self.now,
            ) is Some {
            self.slowest_of(marked, found)
        } else {
            self.widest_of(marked, found)
        }
    }

    /// `worker` races claim `i` from its cursor, as far as the budget goes.
    pub open spec fn raced(self, worker: usize, i: int) -> (SchedulerView, Option<Claim>) {
        let target = self.live[i].claim;
        let lo = target.cursor;
        let hi = imin(target.end as int, lo + self.dup_budget - 1);
        if hi - lo + 1 < MIN_CLAIM {
            (self, None)
        } else {
            let charged = SchedulerView {
                dup_budget: (self.dup_budget - (hi - lo + 1)) as u64,
                ..self
            };
            (
                charged.registered(worker, lo, hi as u64, Some(target.start)),
                Some(charged.fresh_claim(lo, hi as u64)),
            )
        }
    }

    /// Third tier: race a live claim on the budget.
    pub open spec fn hedged(self, worker: usize, after: SchedulerView, out: Option<Claim>) -> bool {
        if self.dup_budget < MIN_CLAIM {
            after == self && out is None
        } else {
            exists|found: Option<int>| #[trigger]
                self.hedge_found(worker, found) && match found {
                    Some(i) => (after, out) == self.raced(worker, i),
                    None => after == self && out is None,
                }
        }
    }

    /// First tier: a claim out of the gap that the first successful look finds.
    pub open spec fn took(self, worker: usize, after: SchedulerView, out: Option<Claim>) -> bool {
        exists|k: int, i: int|
            {
                &&& 0 <= k < self.passes().len()
                &&& #[trigger] self.gap_found(self.passes()[k], Some(i))
                &&& forall|j: int| 0 <= j < k ==> self.gap_found(#[trigger] self.passes()[j], None)
                &&& after == self.taken(worker, self.passes()[k], i)
                &&& out == Some(
                    self.fresh_claim(
                        self.gap_start(self.passes()[k], i),
                        self.take_end(self.passes()[k], i),
                    ),
                )
            }
    }

    /// No look finds a gap.
    pub open spec fn none_to_take(self) -> bool {
        forall|j: int|
            0 <= j < self.passes().len() ==> self.gap_found(#[trigger] self.passes()[j], None)
    }

    /// What asking for a claim does: take, else steal, else (in the tail of a
    /// download) hedge.
    pub open spec fn claimed(self, worker: usize, after: SchedulerView, out: Option<Claim>) -> bool {
        if self.none_to_take() {
            exists|mid: SchedulerView, stolen: Option<Claim>| #[trigger]
                self.stole(worker, mid, stolen) && if stolen is Some {
                    after == mid && out == stolen
                } else if mid.strategy is Throughput && mid.in_tail() {
                    mid.hedged(worker, after, out)
                } else {
                    after == mid && out is None
                }
        } else {
            self.took(worker, after, out)
        }
    }
}

/// Handing out a range of the request keeps the scheduler well-formed.
proof fn lemma_registered_wf(
    v: SchedulerView,
    worker: usize,
    start: u64,
    end: u64,
    hedge_of: Option<u64>,
)
    requires
        v.wf(),
        start <= end <= v.req_end,
        v.split_cap is Some ==> end - start + 1 <= v.split_cap->0,
        hedge_of is None ==> end <= v.volume_last(start),
    ensures
        v.registered(worker, start, end, hedge_of).wf(),
{
    let after = v.registered(worker, start, end, hedge_of);
    assert forall|i: int| 0 <= i < after.live.len() implies after.live_ok(
        #[trigger] after.live[i],
    ) by {
        if i < v.live.len() {
            assert(after.live[i] == v.live[i]);
            assert(v.live_ok(v.live[i]));
        }
    }
}

/// Taking a claim out of an open gap keeps the scheduler well-formed.
pub(crate) proof fn lemma_taken_wf(v: SchedulerView, worker: usize, p: Pass, i: int)
    requires
        v.wf(),
        v.pass_ok(p),
        0 <= i < v.unclaimed.len(),
        v.overlaps(p, i),
    ensures
        v.taken(worker, p, i).wf(),
        v.gap_start(p, i) <= v.take_end(p, i) <= v.unclaimed[i].1,
        v.take_end(p, i) <= p.hi,
        v.take_end(p, i) - v.gap_start(p, i) + 1 <= v.claim_len(),
        v.take_end(p, i) <= v.volume_last(v.gap_start(p, i)),
{
    let start = v.gap_start(p, i);
    let end = v.take_end(p, i);
    lemma_volume_from(v.volumes, start as int, 0);
    assert(v.unclaimed[i].0 <= v.unclaimed[i].1);
    assert(v.unclaimed[i].1 <= v.req_end);
    assert(start <= end);
    lemma_remove_range(v.unclaimed, start, end);
    let rest = SchedulerView { unclaimed: remove_range(v.unclaimed, start, end), ..v };
    assert(v.unclaimed.last().1 <= v.req_end);
    assert(rest.wf()) by {
        assert forall|k: int| 0 <= k < rest.live.len() implies rest.live_ok(
            #[trigger] rest.live[k],
        ) by {
            assert(v.live_ok(v.live[k]));
        }
    }
    lemma_registered_wf(rest, worker, start, end, None);
}

/// Moving a live claim's end inward keeps the scheduler well-formed.
pub(crate) proof fn lemma_with_end_wf(v: SchedulerView, i: int, end: u64)
    requires
        v.wf(),
        0 <= i < v.live.len(),
        end <= v.live[i].claim.end,
    ensures
        v.with_end(i, end).wf(),
{
    let after = v.with_end(i, end);
    assert forall|k: int| 0 <= k < after.live.len() implies after.live_ok(
        #[trigger] after.live[k],
    ) by {
        assert(v.live_ok(v.live[k]));
    }
}

pub struct Scheduler {
    /// Work nobody owns yet: sorted, disjoint, ends inclusive.
    pub unclaimed: Vec<(u64, u64)>,
    pub live: Vec<Live>,
    pub strategy: Strategy,
    pub volumes: Option<Arc<Vec<VolumeMeta>>>,
    pub max_threads: usize,
    pub max_per_volume: usize,
    /// Hard upper bound on one claim.
    pub split_cap: Option<u64>,
    pub req_start: u64,
    pub req_end: u64,
    /// Where the ordered reader is.
    pub read_head: u64,
    /// Bytes the reader can consume without blocking, as last reported.
    pub buffered: u64,
    /// How far past `read_head` claims may reach, when set.
    pub work_limit: Option<u64>,
    /// Ceiling automatic sizing is currently holding itself to.
    pub auto_limit: Option<u64>,
    /// Half the smallest range this upstream has been seen to swallow whole
    /// without delivering a byte.
    pub auto_wall: u64,
    /// Duplicate bytes the endgame may still spend.
    pub dup_budget: u64,
    /// Unworked-off 429 and 503 answers.
    pub overload_strikes: u32,
    /// The longest wait (milliseconds) the origin has asked for and not got.
    pub overload_hint: Option<u64>,
    /// Memory of `auto_wall` across requests, when the caller shares one.
    pub wall_memory: Option<ClaimWall>,
    /// The current time.
    pub now: u64,
}

impl View for Scheduler {
    type V = SchedulerView;

    open spec fn view(&self) -> SchedulerView {
        SchedulerView {
            unclaimed: self.unclaimed@,
            live: self.live@,
            strategy: self.strategy,
            volumes: match self.volumes {
                Some(volumes) => volumes@,
                None => Seq::empty(),
            },
            max_threads: self.max_threads as int,
            max_per_volume: self.max_per_volume as int,
            split_cap: self.split_cap,
            req_start: self.req_start,
            req_end: self.req_end,
            read_head: self.read_head,
            buffered: self.buffered,
            work_limit: self.work_limit,
            auto_limit: self.auto_limit,
            auto_wall: self.auto_wall,
            dup_budget: self.dup_budget,
            overload_strikes: self.overload_strikes,
            overload_hint: self.overload_hint,
            wall_memory: self.wall_memory,
            now: self.now,
        }
    }
}

impl Scheduler {
    /// Total bytes nobody is working on yet.
    pub fn unclaimed_bytes(&self) -> (out: u64)
        requires
            self@.wf(),
        ensures
            out == total(self@.unclaimed),
    {
        total_of(&self.unclaimed)
    }

    /// Bytes of the request still outstanding: unclaimed plus whatever the live
    /// claims still owe. Copies don't count.
    pub fn remaining_work(&self) -> (out: u64)
        requires
            self@.wf(),
        ensures
            out == self@.remaining_work(),
    {
        let mut owed: u128 = 0;
        let mut i: usize = 0;
        while i < self.live.len()
            invariant
                i <= self.live.len(),
                self@.wf(),
                owed == owed_by(self.live@.take(i as int)),
                owed <= i * 0xffff_ffff_ffff_ffff,
            decreases self.live.len() - i,
        {
            proof {
                assert(self.live@.take(i + 1).drop_last() =~= self.live@.take(i as int));
                assert(self@.live_ok(self@.live[i as int]));
            }
            let l: Live = self.live[i];
            if l.hedge_of.is_none() {
                owed = owed + l.claim.remaining() as u128;
            }
            i = i + 1;
        }
        proof {
            assert(self.live@.take(self.live@.len() as int) =~= self.live@);
        }
        let sum: u128 = owed + self.unclaimed_bytes() as u128;
        if sum > 0xffff_ffff_ffff_ffff {
            0xffff_ffff_ffff_ffff
        } else {
            sum as u64
        }
    }

    fn endgame_threshold(&self) -> (out: u64)
        ensures
            out == self@.endgame_threshold(),
    {
        let slots: u64 = saturating_product(self.max_threads as u64, 4);
        let wide: u64 = saturating_product(slots, MIN_FRAGMENT);
        proof {
            let t = self.max_threads as int;
            assert(slots * MIN_FRAGMENT == slots * 8_388_608) by (nonlinear_arith)
                requires
                    MIN_FRAGMENT == 8_388_608,
            ;
            assert(t * 4 * MIN_FRAGMENT == t * 4 * 8_388_608) by (nonlinear_arith)
                requires
                    MIN_FRAGMENT == 8_388_608,
            ;
        }
        wide.max(ENDGAME_FLOOR)
    }

    /// Little enough work is left that fragments relax and hedging unlocks.
    pub fn in_tail(&self) -> (out: bool)
        requires
            self@.wf(),
        ensures
            out == self@.in_tail(),
    {
        self.remaining_work() < self.endgame_threshold()
    }

    fn min_frag(&self) -> (out: u64)
        requires
            self@.wf(),
        ensures
            out == self@.min_frag(),
    {
        match self.strategy {
            Strategy::Latency { .. } => MIN_CLAIM,
            Strategy::Throughput => if self.in_tail() {
                MIN_CLAIM
            } else {
                MIN_FRAGMENT
            },
        }
    }

    fn even_share(&self) -> (out: u64)
        requires
            self@.wf(),
        ensures
            out == self@.even_share(),
    {
        let free: usize = self.max_threads.saturating_sub(self.live.len());
        let free_slots: u64 = if free < 1 {
            1
        } else {
            free as u64
        };
        div_ceil(self.unclaimed_bytes(), free_slots).max(self.min_frag())
    }

    fn claim_len(&self) -> (out: u64)
        requires
            self@.wf(),
        ensures
            out == self@.claim_len(),
            out >= 1,
    {
        let policy: u64 = match self.strategy {
            Strategy::Throughput => self.even_share(),
            Strategy::Latency { head_claim, .. } => (self.buffered / (self.max_threads as u64)).max(
                head_claim.max(1),
            ).min(self.even_share()),
        };
        let bounded: u64 = match self.auto_limit {
            Some(limit) => policy.min(limit),
            None => policy,
        };
        match self.split_cap {
            Some(cap) => bounded.min(cap).max(1),
            None => bounded.max(1),
        }
    }

    /// How long a claim starting at the read head would be right now.
    pub fn auto_claim_len(&self) -> (out: u64)
        requires
            self@.wf(),
        ensures
            out == self@.claim_len(),
    {
        self.claim_len()
    }

    fn horizon(&self) -> (out: u64)
        ensures
            out == self@.horizon(),
    {
        match self.work_limit {
            Some(limit) => self.read_head.saturating_add(limit.saturating_sub(1)).min(
                self.req_end,
            ),
            None => self.req_end,
        }
    }

    fn floor(&self) -> (out: u64)
        ensures
            out == self@.floor(),
    {
        match self.work_limit {
            Some(_) => self.read_head.max(self.req_start),
            None => self.req_start,
        }
    }

    fn critical_span(&self) -> (out: u64)
        requires
            self@.wf(),
        ensures
            out == self@.critical_span(),
    {
        match self.strategy {
            Strategy::Throughput => 0,
            Strategy::Latency { critical_window, .. } => {
                let depth: u64 = saturating_product(self.max_threads as u64, self.claim_len());
                critical_window.max(depth).max(1)
            },
        }
    }

    fn volume_index(&self, offset: u64) -> (out: Option<usize>)
        requires
            volumes_fit(self@.volumes),
        ensures
            match out {
                Some(i) => volume_from(self@.volumes, offset as int, 0) == Some(i as int),
                None => volume_from(self@.volumes, offset as int, 0) is None,
            },
            out is Some ==> out->0 < self@.volumes.len() && self@.volumes[out->0 as int].holds(
                offset as int,
            ),
    {
        match &self.volumes {
            Some(volumes) => {
                let mut i: usize = 0;
                while i < volumes.len()
                    invariant
                        i <= volumes@.len(),
                        self@.volumes == volumes@,
                        volumes_fit(volumes@),
                        volume_from(volumes@, offset as int, 0) == volume_from(
                            volumes@,
                            offset as int,
                            i as int,
                        ),
                    decreases volumes.len() - i,
                {
                    let v: &VolumeMeta = &volumes[i];
                    assert(volumes@[i as int].offset + volumes@[i as int].size <= u64::MAX);
                    if v.size > 0 && offset >= v.offset && offset < v.offset + v.size {
                        return Some(i);
                    }
                    i = i + 1;
                }
                None
            },
            None => None,
        }
    }

    fn volume_of(&self, offset: u64) -> (out: usize)
        requires
            volumes_fit(self@.volumes),
        ensures
            out == self@.volume_of(offset),
    {
        match self.volume_index(offset) {
            Some(i) => i,
            None => 0,
        }
    }

    fn volume_end(&self, offset: u64) -> (out: u64)
        requires
            volumes_fit(self@.volumes),
        ensures
            out == self@.volume_last(offset),
            out >= offset,
    {
        match self.volume_index(offset) {
            Some(i) => match &self.volumes {
                Some(volumes) => {
                    assert(volumes@[i as int].offset + volumes@[i as int].size <= u64::MAX);
                    volumes[i].offset + (volumes[i].size - 1)
                },
                None => u64::MAX,
            },
            None => u64::MAX,
        }
    }

    fn live_in_volume(&self, volume: usize) -> (out: usize)
        ensures
            out == count_in_volume(self@.live, volume),
    {
        let mut n: usize = 0;
        let mut i: usize = 0;
        while i < self.live.len()
            invariant
                n <= i <= self.live.len(),
                n == count_in_volume(self.live@.take(i as int), volume),
            decreases self.live.len() - i,
        {
            proof {
                assert(self.live@.take(i + 1).drop_last() =~= self.live@.take(i as int));
            }
            if self.live[i].claim.volume == volume {
                n = n + 1;
            }
            i = i + 1;
        }
        proof {
            assert(self.live@.take(self.live@.len() as int) =~= self.live@);
        }
        n
    }

    /// The gap that a look finds.
    fn pick_gap(&self, p: Pass) -> (out: Option<usize>)
        requires
            self@.wf(),
            self@.pass_ok(p),
        ensures
            self@.gap_found(
                p,
                match out {
                    Some(i) => Some(i as int),
                    None => None,
                },
            ),
            out is Some ==> out->0 < self@.unclaimed.len(),
    {
        let mut best: Option<usize> = None;
        let mut score: u64 = 0;
        let mut i: usize = 0;
        while i < self.unclaimed.len()
            invariant
                i <= self.unclaimed.len(),
                self@.wf(),
                self@.pass_ok(p),
                p.nearest ==> forall|j: int| 0 <= j < i ==> !#[trigger] self@.overlaps(p, j),
                p.nearest ==> best is None,
                match best {
                    Some(b) => b < i && self@.open_gap(p, b as int) && score == self@.gap_len(
                        p,
                        b as int,
                    ) && forall|j: int|
                        0 <= j < i && #[trigger] self@.open_gap(p, j) ==> self@.gap_len(p, j)
                            <= self@.gap_len(p, b as int) && (j < b ==> self@.gap_len(p, j)
                            < self@.gap_len(p, b as int)),
                    None => forall|j: int| 0 <= j < i ==> !#[trigger] self@.open_gap(p, j),
                },
            decreases self.unclaimed.len() - i,
        {
            let s: u64 = self.unclaimed[i].0;
            let e: u64 = self.unclaimed[i].1;
            proof {
                assert(self@.unclaimed[i as int].0 <= self@.unclaimed[i as int].1);
                assert(self@.unclaimed[i as int].1 <= self@.req_end);
            }
            if !(e < p.lo || s > p.hi) {
                assert(self@.overlaps(p, i as int));
                let seg_start: u64 = s.max(p.lo);
                let volume: usize = self.volume_of(seg_start);
                let is_full: bool = p.respect_cap && self.live_in_volume(volume)
                    >= self.max_per_volume;
                assert(self@.open_gap(p, i as int) == !is_full);
                if p.nearest {
                    if is_full {
                        assert(self@.overlaps(p, i as int));
                        return None;
                    }
                    return Some(i);
                }
                if !is_full {
                    let len: u64 = e.min(p.hi) - seg_start + 1;
                    if best.is_none() || len > score {
                        best = Some(i);
                        score = len;
                    }
                }
            }
            i = i + 1;
        }
        best
    }
}


/// The list with every range of `staged` taken out of it.
pub open spec fn without(l: Seq<(u64, u64)>, staged: Seq<(u64, u64)>) -> Seq<(u64, u64)>
    decreases staged.len(),
{
    if staged.len() == 0 {
        l
    } else {
        let front = without(l, staged.drop_last());
        if staged.last().0 > staged.last().1 {
            front
        } else {
            remove_range(front, staged.last().0, staged.last().1)
        }
    }
}

/// Index, from `i` on, of the first claim that `wanted` picks.
pub open spec fn first_live(live: Seq<Live>, wanted: spec_fn(Live) -> bool, i: int) -> Option<int>
    decreases live.len() - i,
{
    if i >= live.len() {
        None
    } else if wanted(live[i]) {
        Some(i)
    } else {
        first_live(live, wanted, i + 1)
    }
}

pub(crate) proof fn lemma_first_live(live: Seq<Live>, wanted: spec_fn(Live) -> bool, i: int)
    requires
        0 <= i,
    ensures
        first_live(live, wanted, i) is Some ==> i <= first_live(live, wanted, i)->0 < live.len()
            && wanted(live[first_live(live, wanted, i)->0]),
    decreases live.len() - i,
{
    if i < live.len() && !wanted(live[i]) {
        lemma_first_live(live, wanted, i + 1);
    }
}

/// Picks the claims of `worker`.
pub open spec fn held_by(worker: usize) -> spec_fn(Live) -> bool {
    |l: Live| l.worker == worker
}

/// Picks the claims that own the range beginning at `start`.
pub open spec fn owner_of(start: u64) -> spec_fn(Live) -> bool {
    |l: Live| l.hedge_of is None && l.claim.start == start
}

/// Picks the copies of the claim that began at `start`.
pub open spec fn copy_of(start: u64) -> spec_fn(Live) -> bool {
    |l: Live| l.hedge_of == Some(start)
}

/// The pause (milliseconds) that this many strikes earn.
pub open spec fn backoff_ladder(strikes: u32) -> int
    decreases strikes,
{
    if strikes <= 1 {
        OVERLOAD_BACKOFF_BASE as int
    } else {
        imin(2 * backoff_ladder((strikes - 1) as u32), OVERLOAD_BACKOFF_MAX as int)
    }
}

impl SchedulerView {
    /// The request before any claim is made.
    pub open spec fn opening(
        req_start: u64,
        req_end: u64,
        strategy: Strategy,
        volumes: Seq<VolumeMeta>,
        max_threads: int,
        max_per_volume: int,
        split_cap: Option<u64>,
        staged: Seq<(u64, u64)>,
    ) -> SchedulerView {
        SchedulerView {
            unclaimed: without(
                if req_start <= req_end {
                    seq![(req_start, req_end)]
                } else {
                    seq![]
                },
                staged,
            ),
            live: seq![],
            strategy,
            volumes,
            max_threads: imax(max_threads, 1),
            max_per_volume: imax(max_per_volume, 1),
            split_cap: if split_cap == Some(0u64) {
                None
            } else {
                split_cap
            },
            req_start,
            req_end,
            read_head: req_start,
            buffered: 0,
            work_limit: None,
            auto_limit: None,
            auto_wall: u64::MAX,
            dup_budget: imin(
                (imax(req_end - req_start, 0) + 1) / DUP_BUDGET_DIVISOR as int,
                DUP_BUDGET_MAX as int,
            ) as u64,
            overload_strikes: 0,
            overload_hint: None,
            wall_memory: None,
            now: 0,
        }
    }

    /// `[s, e]` handed back, if it is not empty.
    pub open spec fn given_back(self, s: int, e: u64) -> SchedulerView {
        if s > e {
            self
        } else {
            SchedulerView { unclaimed: insert_range(self.unclaimed, s as u64, e), ..self }
        }
    }

    /// The first claim that `wanted` picks is told that it is finished: its end
    /// is pulled below its cursor.
    pub open spec fn cut_short(self, wanted: spec_fn(Live) -> bool) -> SchedulerView {
        match first_live(self.live, wanted, 0) {
            Some(i) => {
                let c = self.live[i].claim;
                self.with_end(i, imin(c.end as int, imax(c.cursor - 1, 0)) as u64)
            },
            None => self,
        }
    }

    /// Live claim `i` struck off.
    pub open spec fn without_live(self, i: int) -> SchedulerView {
        SchedulerView { live: self.live.remove(i), ..self }
    }

    /// `worker` is done with its claim, and did not deliver the bytes from
    /// `reached` on.
    pub open spec fn finished(self, worker: usize, reached: u64) -> SchedulerView {
        match first_live(self.live, held_by(worker), 0) {
            None => self,
            Some(i) => {
                let l = self.live[i];
                let rest = self.without_live(i);
                if reached > l.claim.end {
                    match l.hedge_of {
                        Some(start) => rest.cut_short(owner_of(start)),
                        None => rest.cut_short(copy_of(l.claim.start)),
                    }
                } else if l.hedge_of is Some {
                    rest
                } else {
                    rest.given_back(reached as int, l.claim.end)
                }
            },
        }
    }

    /// Claim `l` is nowhere near a reader, or keeps it waiting for bytes that it
    /// does not want.
    pub open spec fn misplaced(self, l: Live, window: u64) -> bool {
        let c = l.claim;
        let grace = imax(self.strategy->head_claim as int, MIN_CLAIM as int);
        c.cursor >= self.read_head + imax(window as int, 1) || c.end < self.read_head || c.cursor
            + grace < self.read_head
    }

    /// What refocusing does from live claim `i` on: the misplaced claims are
    /// struck off and their ranges handed back, the over-long ones shortened.
    pub open spec fn refocused(self, window: u64, i: int) -> (SchedulerView, Seq<usize>)
        decreases self.live.len() - i,
    {
        if i < 0 || i >= self.live.len() {
            (self, seq![])
        } else {
            let l = self.live[i];
            let c = l.claim;
            let keep = c.cursor + self.claim_len() - 1;
            if c.cursor > c.end {
                self.refocused(window, i + 1)
            } else if self.misplaced(l, window) {
                let rest = if l.hedge_of is None {
                    self.without_live(i).given_back(c.cursor as int, c.end)
                } else {
                    self.without_live(i)
                };
                let (after, workers) = rest.refocused(window, i);
                (after, seq![l.worker] + workers)
            } else if l.hedge_of is None && keep < c.end {
                self.with_end(i, keep as u64).given_back(
                    imax(keep + 1, c.reserved as int),
                    c.end,
                ).refocused(window, i + 1)
            } else {
                self.refocused(window, i + 1)
            }
        }
    }

    /// What a sweep for dead claims does from live claim `i` on.
    pub open spec fn swept(self, i: int) -> (SchedulerView, Seq<usize>)
        decreases self.live.len() - i,
    {
        if i < 0 || i >= self.live.len() {
            (self, seq![])
        } else {
            let l = self.live[i];
            let c = l.claim;
            if c.cursor > l.last_cursor || c.cursor > c.end {
                SchedulerView {
                    live: self.live.update(
                        i,
                        Live { last_cursor: c.cursor, last_progress: self.now, ..l },
                    ),
                    ..self
                }.swept(i + 1)
            } else if self.now - l.last_progress < DEAD_CLAIM_WINDOW {
                self.swept(i + 1)
            } else {
                let rest = if l.hedge_of is None {
                    self.without_live(i).given_back(c.cursor as int, c.end)
                } else {
                    self.without_live(i)
                };
                let (after, workers) = rest.swept(i);
                (after, seq![l.worker] + workers)
            }
        }
    }

    /// The wall as the shared memory holds it after a lesson.
    pub open spec fn wall_taught(self) -> SchedulerView {
        match self.wall_memory {
            Some(wall) => SchedulerView {
                wall_memory: Some(
                    ClaimWall {
                        slot: Some(
                            (
                                match wall.remembered() {
                                    Some(previous) if previous < self.auto_wall => previous,
                                    _ => self.auto_wall,
                                },
                                wall.now,
                            ),
                        ),
                        now: wall.now,
                    },
                ),
                ..self
            },
            None => self,
        }
    }

    /// Sizing begins at what is remembered of the origin, and what is learned is
    /// remembered.
    pub open spec fn seeded(self, wall: ClaimWall) -> SchedulerView {
        SchedulerView {
            auto_wall: match wall.remembered() {
                Some(bytes) => bytes,
                None => self.auto_wall,
            },
            auto_limit: match wall.remembered() {
                Some(bytes) => Some(imin(RECOVERY_CLAIM as int, bytes as int) as u64),
                None => self.auto_limit,
            },
            wall_memory: Some(
                ClaimWall {
                    slot: if wall.remembered() is Some {
                        wall.slot
                    } else {
                        None
                    },
                    now: wall.now,
                },
            ),
            ..self
        }
    }

    /// What is remembered of the origin is what `wall` holds.
    pub open spec fn knowing(self, wall: ClaimWall) -> SchedulerView {
        SchedulerView {
            wall_memory: Some(ClaimWall { slot: wall.slot, now: self.now }),
            ..self
        }
    }

    /// What a finished claim teaches about size, and whether its failure is
    /// charged.
    pub open spec fn noted(self, ok: bool, claim: Claim) -> (SchedulerView, bool) {
        let delivered = imax(claim.cursor - claim.start, 0);
        if ok {
            let strikes = imax(self.overload_strikes - 1, 0) as u32;
            (
                SchedulerView {
                    overload_strikes: strikes,
                    overload_hint: if strikes == 0 {
                        None
                    } else {
                        self.overload_hint
                    },
                    auto_limit: match self.auto_limit {
                        Some(limit) => Some(imin(2 * limit, self.auto_wall as int) as u64),
                        None => None,
                    },
                    ..self
                },
                false,
            )
        } else if delivered > 0 {
            (self, true)
        } else {
            match self.auto_limit {
                Some(limit) => if claim.issued > limit {
                    (self.wall_taught(), false)
                } else {
                    let cut = imax(limit as int / 2, MIN_CLAIM as int);
                    (
                        SchedulerView {
                            auto_wall: imin(self.auto_wall as int, cut) as u64,
                            auto_limit: Some(cut as u64),
                            ..self
                        }.wall_taught(),
                        true,
                    )
                },
                None => {
                    let wall = imax(claim.issued as int / 2, MIN_CLAIM as int);
                    (
                        SchedulerView {
                            auto_wall: wall as u64,
                            auto_limit: Some(imin(RECOVERY_CLAIM as int, wall) as u64),
                            ..self
                        }.wall_taught(),
                        false,
                    )
                },
            }
        }
    }

    /// `worker` is about to write the bytes below `next`.
    pub open spec fn announced(self, worker: usize, next: u64) -> SchedulerView {
        match first_live(self.live, held_by(worker), 0) {
            Some(i) => {
                let l = self.live[i];
                let reserved = imax(l.claim.reserved as int, next as int) as u64;
                SchedulerView {
                    live: self.live.update(i, Live { claim: Claim { reserved, ..l.claim }, ..l }),
                    ..self
                }
            },
            None => self,
        }
    }

    /// Everything of `worker`'s claim below `next` has been written.
    pub open spec fn landed(self, worker: usize, next: u64) -> SchedulerView {
        match first_live(self.live, held_by(worker), 0) {
            Some(i) => {
                let l = self.live[i];
                let reserved = imax(l.claim.reserved as int, next as int) as u64;
                SchedulerView {
                    live: self.live.update(
                        i,
                        Live { claim: Claim { reserved, cursor: next, ..l.claim }, ..l },
                    ),
                    ..self
                }
            },
            None => self,
        }
    }

    /// A refusal by an origin that asks for less load: one strike more, and the
    /// longest wait that it has asked for counts.
    pub open spec fn overloaded(self, retry_after: Option<u64>) -> SchedulerView {
        SchedulerView {
            overload_strikes: imin(self.overload_strikes + 1, OVERLOAD_STRIKES_MAX as int) as u32,
            overload_hint: match (retry_after, self.overload_hint) {
                (Some(hint), Some(current)) => Some(imax(hint as int, current as int) as u64),
                (Some(hint), None) => Some(hint),
                (None, current) => current,
            },
            ..self
        }
    }

    /// The pause that every worker serves, before it is staggered.
    pub open spec fn base_pause(self) -> int {
        match self.overload_hint {
            Some(hint) => imax(backoff_ladder(self.overload_strikes), hint as int),
            None => backoff_ladder(self.overload_strikes),
        }
    }

    /// The pause of `worker`: the base, and a share of as much again that
    /// depends on its number.
    pub open spec fn pause(self, worker: usize) -> Option<u64> {
        if self.overload_strikes == 0 {
            None
        } else {
            let base = self.base_pause();
            let offset = (worker as u64).wrapping_mul(JITTER_MULTIPLIER) as int % base;
            Some(imin(base + offset, u64::MAX as int) as u64)
        }
    }
}

pub(crate) proof fn lemma_backoff_ladder(strikes: u32)
    ensures
        OVERLOAD_BACKOFF_BASE <= backoff_ladder(strikes) <= OVERLOAD_BACKOFF_MAX,
    decreases strikes,
{
    if strikes > 1 {
        lemma_backoff_ladder((strikes - 1) as u32);
    }
}

pub(crate) proof fn lemma_without(l: Seq<(u64, u64)>, staged: Seq<(u64, u64)>)
    requires
        canonical(l),
    ensures
        canonical(without(l, staged)),
        forall|b: int| #[trigger]
            covers(without(l, staged), b) <==> covers(l, b) && !covers(staged, b),
        l.len() > 0 ==> forall|i: int|
            0 <= i < without(l, staged).len() ==> (#[trigger] without(l, staged)[i]).1
                <= l.last().1,
        l.len() == 0 ==> without(l, staged).len() == 0,
    decreases staged.len(),
{
    if staged.len() > 0 {
        let rest = staged.drop_last();
        let x = staged.last();
        lemma_without(l, rest);
        let front = without(l, rest);
        assert forall|b: int| #[trigger] covers(staged, b) <==> covers(rest, b) || x.0 <= b
            <= x.1 by {
            if covers(staged, b) {
                let i = choose|i: int|
                    0 <= i < staged.len() && (#[trigger] staged[i]).0 <= b <= staged[i].1;
                if i < rest.len() {
                    assert(rest[i] == staged[i]);
                }
            }
            if covers(rest, b) {
                let i = choose|i: int|
                    0 <= i < rest.len() && (#[trigger] rest[i]).0 <= b <= rest[i].1;
                assert(staged[i] == rest[i]);
            }
            if x.0 <= b <= x.1 {
                assert(staged[staged.len() - 1] == x);
            }
        }
        if x.0 <= x.1 {
            lemma_remove_range(front, x.0, x.1);
            if l.len() > 0 && front.len() > 0 {
                assert(front[front.len() - 1].1 <= l.last().1);
            }
        }
        assert forall|b: int| #[trigger]
            covers(without(l, staged), b) <==> covers(l, b) && !covers(staged, b) by {
            assert(covers(front, b) <==> covers(l, b) && !covers(rest, b));
        }
    } else {
        assert forall|b: int| !(#[trigger] covers(staged, b)) by {}
        assert forall|i: int| l.len() > 0 && 0 <= i < l.len() implies (#[trigger] l[i]).1
            <= l.last().1 by {
            if i < l.len() - 1 {
                assert(l[i].1 + 1 < l[l.len() - 1].0);
                assert(l[l.len() - 1].0 <= l[l.len() - 1].1);
            }
        }
    }
}

/// Handing a range of the request back keeps the scheduler well-formed.
pub(crate) proof fn lemma_given_back_wf(v: SchedulerView, s: int, e: u64)
    requires
        v.wf(),
        0 <= s,
        e <= v.req_end,
    ensures
        v.given_back(s, e).wf(),
{
    if s <= e {
        let after = v.given_back(s, e);
        lemma_insert_range(v.unclaimed, s as u64, e);
        if v.unclaimed.len() > 0 {
            assert(v.unclaimed[v.unclaimed.len() - 1].1 <= v.req_end);
        }
        assert forall|i: int| 0 <= i < after.live.len() implies after.live_ok(
            #[trigger] after.live[i],
        ) by {
            assert(v.live_ok(v.live[i]));
        }
    }
}

/// Striking a live claim off keeps the scheduler well-formed.
pub(crate) proof fn lemma_without_live_wf(v: SchedulerView, i: int)
    requires
        v.wf(),
        0 <= i < v.live.len(),
    ensures
        v.without_live(i).wf(),
{
    let after = v.without_live(i);
    assert forall|k: int| 0 <= k < after.live.len() implies after.live_ok(
        #[trigger] after.live[k],
    ) by {
        if k < i {
            assert(after.live[k] == v.live[k]);
            assert(v.live_ok(v.live[k]));
        } else {
            assert(after.live[k] == v.live[k + 1]);
            assert(v.live_ok(v.live[k + 1]));
        }
    }
}

impl Scheduler {
    /// `already_staged` lists ranges (inclusive) that need not be fetched.
    pub fn new(
        req_start: u64,
        req_end: u64,
        strategy: Strategy,
        volumes: Option<Arc<Vec<VolumeMeta>>>,
        max_threads: usize,
        max_per_volume: usize,
        split_cap: Option<u64>,
        already_staged: &[(u64, u64)],
    ) -> (out: Self)
        requires
            req_end < u64::MAX,
            volumes is Some ==> volumes_fit(volumes->0@),
        ensures
            out@.wf(),
            out@ == SchedulerView::opening(
                req_start,
                req_end,
                strategy,
                match volumes {
                    Some(v) => v@,
                    None => Seq::empty(),
                },
                max_threads as int,
                max_per_volume as int,
                split_cap,
                already_staged@,
            ),
            forall|b: int| #[trigger]
                covers(out@.unclaimed, b) <==> req_start <= b <= req_end && !covers(
                    already_staged@,
                    b,
                ),
    {
        let mut unclaimed: Vec<(u64, u64)> = Vec::new();
        if req_start <= req_end {
            unclaimed.push((req_start, req_end));
        }
        let ghost whole = unclaimed@;
        proof {
            assert(whole =~= if req_start <= req_end {
                seq![(req_start, req_end)]
            } else {
                seq![]
            });
            assert(canonical(whole));
            assert forall|b: int| #[trigger] covers(whole, b) <==> req_start <= b <= req_end by {
                if req_start <= b <= req_end {
                    assert(whole[0].0 <= b <= whole[0].1);
                }
            }
        }
        let mut i: usize = 0;
        while i < already_staged.len()
            invariant
                i <= already_staged.len(),
                unclaimed@ == without(whole, already_staged@.take(i as int)),
            decreases already_staged.len() - i,
        {
            proof {
                assert(already_staged@.take(i + 1).drop_last() =~= already_staged@.take(i as int));
            }
            let s: u64 = already_staged[i].0;
            let e: u64 = already_staged[i].1;
            if s <= e {
                unclaimed = removed(&unclaimed, s, e);
            }
            i = i + 1;
        }
        proof {
            assert(already_staged@.take(already_staged@.len() as int) =~= already_staged@);
            lemma_without(whole, already_staged@);
        }
        let span: u64 = req_end.saturating_sub(req_start) + 1;
        Scheduler {
            unclaimed,
            live: Vec::new(),
            strategy,
            volumes,
            max_threads: max_threads.max(1),
            max_per_volume: max_per_volume.max(1),
            split_cap: match split_cap {
                Some(cap) => if cap > 0 {
                    Some(cap)
                } else {
                    None
                },
                None => None,
            },
            req_start,
            req_end,
            read_head: req_start,
            buffered: 0,
            work_limit: None,
            auto_limit: None,
            auto_wall: u64::MAX,
            dup_budget: (span / DUP_BUDGET_DIVISOR).min(DUP_BUDGET_MAX),
            overload_strikes: 0,
            overload_hint: None,
            wall_memory: None,
            now: 0,
        }
    }

    /// Moves the clock, here and in the shared wall memory.
    pub fn set_now(&mut self, now: u64)
        ensures
            final(self)@ == (SchedulerView {
                now,
                wall_memory: match old(self)@.wall_memory {
                    Some(wall) => Some(ClaimWall { now, ..wall }),
                    None => None,
                },
                ..old(self)@
            }),
            old(self)@.wf() ==> final(self)@.wf(),
    {
        self.now = now;
        if let Some(wall) = self.wall_memory {
            self.wall_memory = Some(ClaimWall { slot: wall.slot, now });
        }
        proof {
            assert(old(self)@.wf() ==> forall|i: int|
                0 <= i < self@.live.len() ==> old(self)@.live_ok(#[trigger] self@.live[i]));
        }
    }

    /// Shares a wall with this scheduler, and seeds sizing from what the origin
    /// already taught.
    pub fn with_claim_wall(self, wall: ClaimWall) -> (out: Self)
        requires
            self@.wf(),
        ensures
            out@.wf(),
            out@ == self@.seeded(wall),
    {
        let mut wall = wall;
        let mut out = self;
        if let Some(bytes) = wall.get() {
            out.auto_wall = bytes;
            out.auto_limit = Some(RECOVERY_CLAIM.min(bytes));
        }
        out.wall_memory = Some(wall);
        proof {
            assert forall|i: int| 0 <= i < out@.live.len() implies out@.live_ok(
                #[trigger] out@.live[i],
            ) by {
                assert(self@.live_ok(self@.live[i]));
            }
        }
        out
    }

    /// True when no byte of the request is unclaimed and none is still owed.
    pub fn is_drained(&self) -> (out: bool)
        requires
            self@.wf(),
        ensures
            out == (self@.unclaimed.len() == 0 && forall|i: int|
                0 <= i < self@.live.len() ==> (#[trigger] self@.live[i]).claim.owed() == 0),
    {
        if self.unclaimed.len() > 0 {
            return false;
        }
        let mut i: usize = 0;
        while i < self.live.len()
            invariant
                i <= self.live.len(),
                forall|k: int| 0 <= k < i ==> (#[trigger] self@.live[k]).claim.owed() == 0,
            decreases self.live.len() - i,
        {
            if !self.live[i].claim.is_complete() {
                assert(self@.live[i as int].claim.owed() != 0);
                return false;
            }
            i = i + 1;
        }
        true
    }

    /// Moves the reader position. A move is treated as a seek: the buffer
    /// estimate resets to zero.
    pub fn set_read_head(&mut self, offset: u64)
        requires
            old(self)@.wf(),
            old(self)@.req_start <= old(self)@.req_end + 1,
        ensures
            final(self)@.wf(),
            final(self)@ == (SchedulerView {
                read_head: imax(
                    old(self)@.req_start as int,
                    imin(offset as int, old(self)@.req_end + 1),
                ) as u64,
                buffered: 0,
                ..old(self)@
            }),
    {
        self.read_head = offset.min(self.req_end + 1).max(self.req_start);
        self.buffered = 0;
        proof {
            assert forall|i: int| 0 <= i < self@.live.len() implies self@.live_ok(
                #[trigger] self@.live[i],
            ) by {
                assert(old(self)@.live_ok(old(self)@.live[i]));
            }
        }
    }

    /// Reports how many bytes the reader can consume without blocking.
    pub fn set_reader_buffer(&mut self, bytes: u64)
        ensures
            final(self)@ == (SchedulerView { buffered: bytes, ..old(self)@ }),
            old(self)@.wf() ==> final(self)@.wf(),
    {
        self.buffered = bytes;
        proof {
            assert(old(self)@.wf() ==> forall|i: int|
                0 <= i < self@.live.len() ==> old(self)@.live_ok(#[trigger] self@.live[i]));
        }
    }

    /// Switches scheduling policy without touching live claims.
    pub fn set_strategy(&mut self, strategy: Strategy)
        ensures
            final(self)@ == (SchedulerView { strategy, ..old(self)@ }),
            old(self)@.wf() ==> final(self)@.wf(),
    {
        self.strategy = strategy;
        proof {
            assert(old(self)@.wf() ==> forall|i: int|
                0 <= i < self@.live.len() ==> old(self)@.live_ok(#[trigger] self@.live[i]));
        }
    }

    /// Bounds how far past the read head workers may claim, or lifts the bound.
    pub fn set_work_limit(&mut self, limit: Option<u64>)
        ensures
            final(self)@ == (SchedulerView {
                work_limit: if limit == Some(0u64) {
                    None
                } else {
                    limit
                },
                ..old(self)@
            }),
            old(self)@.wf() ==> final(self)@.wf(),
    {
        self.work_limit = match limit {
            Some(value) => if value > 0 {
                Some(value)
            } else {
                None
            },
            None => None,
        };
        proof {
            assert(old(self)@.wf() ==> forall|i: int|
                0 <= i < self@.live.len() ==> old(self)@.live_ok(#[trigger] self@.live[i]));
        }
    }

    /// The ceiling automatic sizing is currently holding itself to, if any.
    pub fn auto_limit(&self) -> (out: Option<u64>)
        ensures
            out == self@.auto_limit,
    {
        self.auto_limit
    }

    /// Takes up what others have learned in the meantime; sizing stays as it is.
    pub fn share_wall(&mut self, wall: &ClaimWall)
        requires
            old(self)@.wf(),
        ensures
            final(self)@.wf(),
            final(self)@ == old(self)@.knowing(*wall),
    {
        self.wall_memory = Some(ClaimWall { slot: wall.slot, now: self.now });
        proof {
            assert(forall|i: int|
                0 <= i < self@.live.len() ==> old(self)@.live_ok(#[trigger] self@.live[i]));
        }
    }

    /// What is to be remembered of the origin across requests.
    pub fn claim_wall(&self) -> (out: Option<ClaimWall>)
        ensures
            out == self@.wall_memory,
    {
        self.wall_memory
    }

    /// Unworked-off strikes.
    pub fn overload_strikes(&self) -> (out: u32)
        ensures
            out == self@.overload_strikes,
    {
        self.overload_strikes
    }

    /// The unclaimed ranges, in order.
    pub fn unclaimed_ranges(&self) -> (out: &Vec<(u64, u64)>)
        ensures
            out@ == self@.unclaimed,
    {
        &self.unclaimed
    }

    fn position(&self, worker: usize) -> (out: Option<usize>)
        ensures
            match out {
                Some(i) => first_live(self@.live, held_by(worker), 0) == Some(i as int),
                None => first_live(self@.live, held_by(worker), 0) is None,
            },
            out is Some ==> out->0 < self@.live.len() && self@.live[out->0 as int].worker
                == worker,
    {
        let mut i: usize = 0;
        while i < self.live.len()
            invariant
                i <= self.live.len(),
                first_live(self@.live, held_by(worker), 0) == first_live(
                    self@.live,
                    held_by(worker),
                    i as int,
                ),
            decreases self.live.len() - i,
        {
            if self.live[i].worker == worker {
                return Some(i);
            }
            i = i + 1;
        }
        None
    }

    /// The claim that `worker` holds, as it stands now.
    pub fn claim_of(&self, worker: usize) -> (out: Option<Claim>)
        ensures
            out == match first_live(self@.live, held_by(worker), 0) {
                Some(i) => Some(self@.live[i].claim),
                None => None,
            },
    {
        match self.position(worker) {
            Some(i) => Some(self.live[i].claim),
            None => None,
        }
    }

    /// `worker` announces that bytes below `next` are about to be written.
    pub fn reserve(&mut self, worker: usize, next: u64)
        requires
            old(self)@.wf(),
        ensures
            final(self)@.wf(),
            final(self)@ == old(self)@.announced(worker, next),
    {
        if let Some(i) = self.position(worker) {
            let mut l: Live = self.live[i];
            l.claim.reserve(next);
            self.live.set(i, l);
            proof {
                assert forall|k: int| 0 <= k < self@.live.len() implies self@.live_ok(
                    #[trigger] self@.live[k],
                ) by {
                    assert(old(self)@.live_ok(old(self)@.live[k]));
                }
            }
        }
    }

    /// `worker` records that everything below `next` has landed.
    pub fn advance_to(&mut self, worker: usize, next: u64)
        requires
            old(self)@.wf(),
            match first_live(old(self)@.live, held_by(worker), 0) {
                Some(i) => old(self)@.live[i].claim.start <= next,
                None => true,
            },
        ensures
            final(self)@.wf(),
            final(self)@ == old(self)@.landed(worker, next),
    {
        if let Some(i) = self.position(worker) {
            let mut l: Live = self.live[i];
            l.claim.advance_to(next);
            self.live.set(i, l);
            proof {
                assert forall|k: int| 0 <= k < self@.live.len() implies self@.live_ok(
                    #[trigger] self@.live[k],
                ) by {
                    assert(old(self)@.live_ok(old(self)@.live[k]));
                }
            }
        }
    }

    /// Feeds a completed claim's outcome back into automatic sizing, and says
    /// whether the failure should be charged against a failure budget.
    ///
    /// Only a claim that broke before delivering anything at all moves the
    /// ceiling, and one that was cut before the last move only repeats the
    /// lesson.
    pub fn note_claim_outcome(&mut self, ok: bool, claim: &Claim) -> (out: bool)
        requires
            old(self)@.wf(),
        ensures
            final(self)@.wf(),
            (final(self)@, out) == old(self)@.noted(ok, *claim),
    {
        proof {
            assert(forall|i: int|
                0 <= i < self@.live.len() ==> old(self)@.live_ok(#[trigger] self@.live[i]));
        }
        if ok {
            self.overload_strikes = self.overload_strikes.saturating_sub(1);
            if self.overload_strikes == 0 {
                self.overload_hint = None;
            }
            if let Some(limit) = self.auto_limit {
                self.auto_limit = Some(saturating_product(limit, 2).min(self.auto_wall));
            }
            return false;
        }
        if claim.delivered() > 0 {
            return true;
        }
        let issued: u64 = claim.issued_len();
        let counts: bool = match self.auto_limit {
            Some(limit) => if issued > limit {
                false
            } else {
                let cut: u64 = (limit / 2).max(MIN_CLAIM);
                self.auto_wall = self.auto_wall.min(cut);
                self.auto_limit = Some(cut);
                true
            },
            None => {
                self.auto_wall = (issued / 2).max(MIN_CLAIM);
                self.auto_limit = Some(RECOVERY_CLAIM.min(self.auto_wall));
                false
            },
        };
        if let Some(wall) = self.wall_memory {
            let mut wall: ClaimWall = wall;
            wall.record(self.auto_wall);
            self.wall_memory = Some(wall);
        }
        counts
    }

    /// Records that the origin answered 429 or 503, and how long (milliseconds)
    /// it asked to be left alone.
    pub fn note_overload(&mut self, retry_after: Option<u64>)
        requires
            old(self)@.wf(),
        ensures
            final(self)@.wf(),
            final(self)@ == old(self)@.overloaded(retry_after),
    {
        proof {
            assert(forall|i: int|
                0 <= i < self@.live.len() ==> old(self)@.live_ok(#[trigger] self@.live[i]));
        }
        self.overload_strikes = (self.overload_strikes + 1).min(OVERLOAD_STRIKES_MAX);
        if let Some(hint) = retry_after {
            self.overload_hint = match self.overload_hint {
                Some(current) => Some(current.max(hint)),
                None => Some(hint),
            };
        }
    }

    /// How long (milliseconds) `worker` should wait before its next claim. The
    /// wait is staggered over the workers, so that they do not come back
    /// together.
    pub fn overload_backoff(&self, worker: usize) -> (out: Option<u64>)
        requires
            self@.wf(),
        ensures
            out == self@.pause(worker),
    {
        if self.overload_strikes == 0 {
            return None;
        }
        let mut ladder: u64 = OVERLOAD_BACKOFF_BASE;
        let mut strikes: u32 = 1;
        while strikes < self.overload_strikes
            invariant
                1 <= strikes <= self.overload_strikes,
                ladder == backoff_ladder(strikes),
                ladder <= OVERLOAD_BACKOFF_MAX,
            decreases self.overload_strikes - strikes,
        {
            ladder = (ladder * 2).min(OVERLOAD_BACKOFF_MAX);
            strikes = strikes + 1;
        }
        let base: u64 = match self.overload_hint {
            Some(hint) => ladder.max(hint),
            None => ladder,
        };
        proof {
            lemma_backoff_ladder(self.overload_strikes);
        }
        let offset: u64 = (worker as u64).wrapping_mul(JITTER_MULTIPLIER) % base;
        Some(base.saturating_add(offset))
    }

    /// Records a handed-out range and gives the claim for it.
    fn register(
        &mut self,
        worker: usize,
        start: u64,
        end: u64,
        hedge_of: Option<u64>,
    ) -> (out: Claim)
        requires
            old(self)@.wf(),
            start <= end <= old(self)@.req_end,
            old(self)@.split_cap is Some ==> end - start + 1 <= old(self)@.split_cap->0,
            hedge_of is None ==> end <= old(self)@.volume_last(start),
        ensures
            final(self)@.wf(),
            final(self)@ == old(self)@.registered(worker, start, end, hedge_of),
            out == old(self)@.fresh_claim(start, end),
    {
        proof {
            lemma_registered_wf(self@, worker, start, end, hedge_of);
        }
        let claim = Claim {
            start,
            volume: self.volume_of(start),
            issued: end - start + 1,
            end,
            cursor: start,
            reserved: start,
        };
        self.live.push(
            Live {
                worker,
                claim,
                started: self.now,
                last_cursor: start,
                last_progress: self.now,
                hedge_of,
            },
        );
        claim
    }

    /// Removes `[s, e]` from the unclaimed bytes.
    fn subtract(&mut self, s: u64, e: u64)
        requires
            s <= e,
        ensures
            final(self)@ == (SchedulerView {
                unclaimed: remove_range(old(self)@.unclaimed, s, e),
                ..old(self)@
            }),
    {
        self.unclaimed = removed(&self.unclaimed, s, e);
    }

    /// Adds `[s, e]` back, merging it with its neighbours.
    fn insert_unclaimed(&mut self, s: u64, e: u64)
        requires
            old(self)@.wf(),
            e <= old(self)@.req_end,
        ensures
            final(self)@.wf(),
            final(self)@ == old(self)@.given_back(s as int, e),
    {
        proof {
            lemma_given_back_wf(self@, s as int, e);
        }
        if s <= e {
            self.unclaimed = inserted(&self.unclaimed, s, e);
        }
    }

    /// Carves a claim out of the gap that a look finds.
    fn take_unclaimed(&mut self, worker: usize, p: Pass) -> (out: Option<Claim>)
        requires
            old(self)@.wf(),
            old(self)@.pass_ok(p),
        ensures
            final(self)@.wf(),
            match out {
                Some(claim) => exists|i: int| #[trigger]
                    old(self)@.gap_found(p, Some(i)) && final(self)@ == old(self)@.taken(
                        worker,
                        p,
                        i,
                    ) && claim == old(self)@.fresh_claim(
                        old(self)@.gap_start(p, i),
                        old(self)@.take_end(p, i),
                    ),
                None => final(self)@ == old(self)@ && old(self)@.gap_found(p, None),
            },
    {
        let i: usize = match self.pick_gap(p) {
            Some(i) => i,
            None => {
                return None;
            },
        };
        let ghost v = self@;
        proof {
            lemma_taken_wf(v, worker, p, i as int);
            assert(v.unclaimed[i as int].1 <= v.req_end);
        }
        let start: u64 = self.unclaimed[i].0.max(p.lo);
        let seg_end: u64 = self.unclaimed[i].1.min(p.hi);
        let hard_end: u64 = seg_end.min(self.volume_end(start));
        let want: u64 = self.claim_len();
        let end: u64 = hard_end.min(start.saturating_add(want - 1));
        proof {
            assert(start == v.gap_start(p, i as int));
            assert(end == v.take_end(p, i as int));
        }
        self.subtract(start, end);
        proof {
            let mid = self@;
            lemma_remove_range(v.unclaimed, start, end);
            assert(v.unclaimed.last().1 <= v.req_end);
            assert(mid.wf()) by {
                assert forall|k: int| 0 <= k < mid.live.len() implies mid.live_ok(
                    #[trigger] mid.live[k],
                ) by {
                    assert(v.live_ok(v.live[k]));
                }
            }
        }
        let claim: Claim = self.register(worker, start, end, None);
        assert(v.gap_found(p, Some(i as int)));
        Some(claim)
    }
}


proof fn lemma_known_rates(live: Seq<Live>, now: u64)
    ensures
        forall|k: int|
            0 <= k < known_rates(live, now).len() ==> (#[trigger] known_rates(live, now)[k]).nanos
                > 0,
    decreases live.len(),
{
    if live.len() > 0 {
        let front = live.drop_last();
        lemma_known_rates(front, now);
        let all = known_rates(live, now);
        assert forall|k: int| 0 <= k < all.len() implies (#[trigger] all[k]).nanos > 0 by {
            if k < known_rates(front, now).len() {
                assert(all[k] == known_rates(front, now)[k]);
            }
        }
    }
}

/// A victim that owes more than twice the smallest fragment can be halved.
pub(crate) proof fn lemma_halved_wf(v: SchedulerView, worker: usize, i: int)
    requires
        v.wf(),
        0 <= i < v.live.len(),
        v.live[i].hedge_of is None,
        v.live[i].claim.owed() >= 2,
    ensures
        v.halved(worker, i).0.wf(),
        v.halved(worker, i).1 is Some ==> {
            let c = v.halved(worker, i).1->0;
            &&& v.live[i].claim.cursor < c.start
            &&& v.live[i].claim.reserved <= c.start
            &&& c.start <= c.end <= v.live[i].claim.end
            &&& c.end <= v.volume_last(c.start)
            &&& v.split_cap is Some ==> c.end - c.start + 1 <= v.split_cap->0
        },
{
    let c = v.live[i].claim;
    assert(v.live_ok(v.live[i]));
    let split = (c.end - c.owed() / 2) as u64;
    assert(c.cursor <= split < c.end);
    lemma_with_end_wf(v, i, split);
    let start = imax(split + 1, c.reserved as int);
    if start <= c.end {
        lemma_volume_from(v.volumes, start, 0);
        let end = imin(c.end as int, v.volume_last(start as u64)) as u64;
        lemma_registered_wf(v.with_end(i, split), worker, start as u64, end, None);
    }
}

/// A copy stays inside the range of the claim that it races.
pub(crate) proof fn lemma_raced_wf(v: SchedulerView, worker: usize, i: int)
    requires
        v.wf(),
        0 <= i < v.live.len(),
        v.live[i].claim.owed() >= MIN_CLAIM,
        v.dup_budget >= MIN_CLAIM,
    ensures
        v.raced(worker, i).0.wf(),
{
    let c = v.live[i].claim;
    assert(v.live_ok(v.live[i]));
    let lo = c.cursor;
    let hi = imin(c.end as int, lo + v.dup_budget - 1);
    if hi - lo + 1 >= MIN_CLAIM {
        let charged = SchedulerView { dup_budget: (v.dup_budget - (hi - lo + 1)) as u64, ..v };
        assert forall|k: int| 0 <= k < charged.live.len() implies charged.live_ok(
            #[trigger] charged.live[k],
        ) by {
            assert(v.live_ok(v.live[k]));
        }
        lemma_registered_wf(charged, worker, lo, hi as u64, Some(c.start));
    }
}

impl Scheduler {
    /// Among the marked claims with a known rate, the slowest.
    fn slowest_of(&self, marked: &Vec<bool>) -> (out: Option<usize>)
        requires
            marked@.len() == self@.live.len(),
        ensures
            self@.slowest_of(
                marked@,
                match out {
                    Some(i) => Some(i as int),
                    None => None,
                },
            ),
    {
        let mut best: Option<usize> = None;
        let mut pace: Rate = Rate { bytes: 0, nanos: 1 };
        let mut i: usize = 0;
        while i < self.live.len()
            invariant
                i <= self.live.len(),
                marked@.len() == self@.live.len(),
                pace.nanos > 0,
                match best {
                    Some(b) => {
                        &&& b < i
                        &&& marked@[b as int]
                        &&& self@.live[b as int].rate_at(self.now) == Some(pace)
                        &&& forall|j: int|
                            0 <= j < i && #[trigger] marked@[j] && self@.live[j].rate_at(
                                self.now,
                            ) is Some ==> !self@.live[j].rate_at(self.now)->0.slower(pace) && (j < b
                                ==> pace.slower(self@.live[j].rate_at(self.now)->0))
                    },
                    None => forall|j: int|
                        0 <= j < i && #[trigger] marked@[j] ==> self@.live[j].rate_at(
                            self.now,
                        ) is None,
                },
            decreases self.live.len() - i,
        {
            if marked[i] {
                if let Some(r) = self.live[i].rate(self.now) {
                    if best.is_none() || r.is_slower(&pace) {
                        proof {
                            assert forall|j: int|
                                0 <= j < i && #[trigger] marked@[j] && self@.live[j].rate_at(
                                    self.now,
                                ) is Some implies r.slower(
                                self@.live[j].rate_at(self.now)->0,
                            ) && !self@.live[j].rate_at(self.now)->0.slower(r) by {
                                let q = self@.live[j].rate_at(self.now)->0;
                                assert(q.nanos > 0);
                                lemma_slower_order(r, pace, q);
                                lemma_slower_order(r, q, r);
                            }
                        }
                        best = Some(i);
                        pace = r;
                    }
                }
            }
            i = i + 1;
        }
        best
    }

    /// Among the marked claims, the one that owes most.
    fn widest_of(&self, marked: &Vec<bool>) -> (out: Option<usize>)
        requires
            self@.wf(),
            marked@.len() == self@.live.len(),
        ensures
            self@.widest_of(
                marked@,
                match out {
                    Some(i) => Some(i as int),
                    None => None,
                },
            ),
    {
        let mut best: Option<usize> = None;
        let mut width: u64 = 0;
        let mut i: usize = 0;
        while i < self.live.len()
            invariant
                i <= self.live.len(),
                self@.wf(),
                marked@.len() == self@.live.len(),
                match best {
                    Some(b) => {
                        &&& b < i
                        &&& marked@[b as int]
                        &&& self@.live[b as int].claim.owed() == width
                        &&& forall|j: int|
                            0 <= j < i && #[trigger] marked@[j] ==> self@.live[j].claim.owed()
                                <= width && (j > b ==> self@.live[j].claim.owed() < width)
                    },
                    None => forall|j: int| 0 <= j < i ==> !#[trigger] marked@[j],
                },
            decreases self.live.len() - i,
        {
            if marked[i] {
                assert(self@.live_ok(self@.live[i as int]));
                let owed: u64 = self.live[i].claim.remaining();
                if best.is_none() || owed >= width {
                    best = Some(i);
                    width = owed;
                }
            }
            i = i + 1;
        }
        best
    }

    /// Which live claim to rob.
    fn pick_victim(&self, worker: usize, need: u64) -> (out: Option<usize>)
        requires
            self@.wf(),
        ensures
            self@.victim_found(
                worker,
                need as int,
                match out {
                    Some(i) => Some(i as int),
                    None => None,
                },
            ),
            out is Some ==> out->0 < self@.live.len() && self@.robbable(
                worker,
                need as int,
            )[out->0 as int],
    {
        let mut marked: Vec<bool> = Vec::new();
        let mut rates: Vec<Rate> = Vec::new();
        let mut i: usize = 0;
        while i < self.live.len()
            invariant
                i <= self.live.len(),
                self@.wf(),
                marked@ == self@.robbable(worker, need as int).take(i as int),
                rates@ == known_rates(self@.live.take(i as int), self.now),
                rates@.len() <= i,
            decreases self.live.len() - i,
        {
            proof {
                assert(self@.live_ok(self@.live[i as int]));
                assert(self@.live.take(i + 1).drop_last() =~= self@.live.take(i as int));
                assert(self@.robbable(worker, need as int).take(i + 1) =~= self@.robbable(
                    worker,
                    need as int,
                ).take(i as int).push(self@.robbable(worker, need as int)[i as int]));
            }
            let l: Live = self.live[i];
            marked.push(
                l.worker != worker && l.hedge_of.is_none() && l.claim.remaining() > need,
            );
            if let Some(r) = l.rate(self.now) {
                rates.push(r);
            }
            i = i + 1;
        }
        proof {
            assert(self@.live.take(self@.live.len() as int) =~= self@.live);
            assert(marked@ =~= self@.robbable(worker, need as int));
        }
        if rates.len() >= 3 {
            proof {
                lemma_known_rates(self@.live, self.now);
            }
            let sorted: Vec<Rate> = sort_rates(&rates);
            let median: Rate = sorted[rates.len() / 2];
            let mut slow: Vec<bool> = Vec::new();
            let mut any: bool = false;
            let mut k: usize = 0;
            while k < self.live.len()
                invariant
                    k <= self.live.len(),
                    marked@.len() == self@.live.len(),
                    slow@ == self@.stragglers(marked@, median).take(k as int),
                    any == exists|j: int| 0 <= j < slow@.len() && #[trigger] slow@[j],
                decreases self.live.len() - k,
            {
                let ghost before = slow@;
                let lags: bool = marked[k] && match self.live[k].rate(self.now) {
                    Some(r) => r.is_straggler(&median),
                    None => false,
                };
                slow.push(lags);
                proof {
                    assert(self@.stragglers(marked@, median).take(k + 1) =~= self@.stragglers(
                        marked@,
                        median,
                    ).take(k as int).push(lags));
                    assert(slow@[k as int] == lags);
                    assert(forall|j: int| 0 <= j < k ==> #[trigger] slow@[j] == before[j]);
                    if any {
                        let j = choose|j: int| 0 <= j < before.len() && #[trigger] before[j];
                        assert(slow@[j]);
                    }
                }
                any = any || lags;
                k = k + 1;
            }
            proof {
                assert(slow@ =~= self@.stragglers(marked@, median));
                let rates_seen = known_rates(self@.live, self.now);
                assert(is_sorted_rates(sorted@, rates_seen));
                assert(sorted@[rates_seen.len() as int / 2] == median);
            }
            if any {
                let out: Option<usize> = self.slowest_of(&slow);
                proof {
                    let j = choose|j: int| 0 <= j < slow@.len() && #[trigger] slow@[j];
                    if let Some(i) = out {
                        assert(slow@[i as int]);
                    }
                    assert(self@.victim_behind(
                        marked@,
                        median,
                        match out {
                            Some(i) => Some(i as int),
                            None => None,
                        },
                    ));
                }
                return out;
            }
            let out: Option<usize> = self.widest_of(&marked);
            proof {
                assert(self@.victim_behind(
                    marked@,
                    median,
                    match out {
                        Some(i) => Some(i as int),
                        None => None,
                    },
                ));
            }
            return out;
        }
        self.widest_of(&marked)
    }

    /// Takes the back half of what a live claim still owes. The victim keeps
    /// what it has fetched and simply ends up responsible for less.
    fn steal(&mut self, worker: usize) -> (out: Option<Claim>)
        requires
            old(self)@.wf(),
        ensures
            final(self)@.wf(),
            old(self)@.stole(worker, final(self)@, out),
    {
        let ghost v = self@;
        let need: u64 = self.min_frag() * 2;
        assert(need as int == 2 * v.min_frag());
        let i: usize = match self.pick_victim(worker, need) {
            Some(i) => i,
            None => {
                assert(v.victim_found(worker, 2 * v.min_frag(), None));
                return None;
            },
        };
        let mut l: Live = self.live[i];
        proof {
            assert(v.live_ok(v.live[i as int]));
            lemma_halved_wf(v, worker, i as int);
            assert(v.victim_found(worker, 2 * v.min_frag(), Some(i as int)));
        }
        let victim: Claim = l.claim;
        let split: u64 = victim.end - victim.remaining() / 2;
        l.claim.end = split;
        self.live.set(i, l);
        proof {
            assert(self@ == v.with_end(i as int, split));
            lemma_with_end_wf(v, i as int, split);
        }
        let start: u64 = (split + 1).max(victim.reserved);
        if start > victim.end {
            return None;
        }
        let end: u64 = victim.end.min(self.volume_end(start));
        Some(self.register(worker, start, end, None))
    }

    /// Fetches a range that a live claim is already fetching, and lets the two
    /// race, on the budget of duplicate bytes.
    fn hedge(&mut self, worker: usize) -> (out: Option<Claim>)
        requires
            old(self)@.wf(),
        ensures
            final(self)@.wf(),
            old(self)@.hedged(worker, final(self)@, out),
    {
        if self.dup_budget < MIN_CLAIM {
            return None;
        }
        let ghost v = self@;
        let mut marked: Vec<bool> = Vec::new();
        let mut any: bool = false;
        let mut i: usize = 0;
        while i < self.live.len()
            invariant
                i <= self.live.len(),
                self@ == v,
                v.wf(),
                marked@ == v.hedgeable(worker).take(i as int),
                any == exists|j: int|
                    0 <= j < i && #[trigger] marked@[j] && v.live[j].rate_at(v.now) is Some,
            decreases self.live.len() - i,
        {
            let l: Live = self.live[i];
            let mut copied: bool = false;
            let mut k: usize = 0;
            while k < self.live.len()
                invariant
                    k <= self.live.len(),
                    self@ == v,
                    copied == exists|j: int|
                        0 <= j < k && (#[trigger] v.live[j]).hedge_of == Some(l.claim.start),
                decreases self.live.len() - k,
            {
                if let Some(start) = self.live[k].hedge_of {
                    if start == l.claim.start {
                        assert(v.live[k as int].hedge_of == Some(l.claim.start));
                        copied = true;
                    }
                }
                k = k + 1;
            }
            assert(v.live_ok(v.live[i as int]));
            let fit: bool = l.worker != worker && l.hedge_of.is_none() && l.claim.remaining()
                >= MIN_CLAIM && !copied;
            let ghost before = marked@;
            marked.push(fit);
            let timed: bool = l.rate(self.now).is_some();
            proof {
                assert(v.hedgeable(worker)[i as int] == fit);
                assert(v.hedgeable(worker).take(i + 1) =~= v.hedgeable(worker).take(i as int).push(
                    fit,
                ));
                assert(forall|j: int| 0 <= j < i ==> #[trigger] marked@[j] == before[j]);
                assert(marked@[i as int] == fit);
                if any {
                    let j = choose|j: int|
                        0 <= j < i && #[trigger] before[j] && v.live[j].rate_at(v.now) is Some;
                    assert(marked@[j]);
                }
            }
            any = any || (fit && timed);
            i = i + 1;
        }
        proof {
            assert(marked@ =~= v.hedgeable(worker));
        }
        let found: Option<usize> = if any {
            self.slowest_of(&marked)
        } else {
            self.widest_of(&marked)
        };
        proof {
            assert(v.hedge_found(
                worker,
                match found {
                    Some(i) => Some(i as int),
                    None => None,
                },
            ));
        }
        let i: usize = match found {
            Some(i) => i,
            None => {
                return None;
            },
        };
        let target: Claim = self.live[i].claim;
        proof {
            assert(v.live_ok(v.live[i as int]));
            assert(marked@[i as int]);
            lemma_raced_wf(v, worker, i as int);
        }
        let lo: u64 = target.cursor;
        let hi: u64 = target.end.min(lo.saturating_add(self.dup_budget - 1));
        if hi - lo + 1 < MIN_CLAIM {
            return None;
        }
        self.dup_budget = self.dup_budget - (hi - lo + 1);
        proof {
            assert forall|k: int| 0 <= k < self@.live.len() implies self@.live_ok(
                #[trigger] self@.live[k],
            ) by {
                assert(v.live_ok(v.live[k]));
            }
        }
        Some(self.register(worker, lo, hi, Some(target.start)))
    }

    /// The looks for a gap, in order.
    fn passes(&self) -> (out: Vec<Pass>)
        requires
            self@.wf(),
        ensures
            out@ == self@.passes(),
            forall|k: int| 0 <= k < out@.len() ==> self@.pass_ok(#[trigger] out@[k]),
    {
        let lo: u64 = self.floor();
        let hi: u64 = self.horizon();
        match self.strategy {
            Strategy::Throughput => vec![
                Pass { lo, hi, respect_cap: true, nearest: false },
                Pass { lo, hi, respect_cap: false, nearest: false },
            ],
            Strategy::Latency { .. } => {
                let window: u64 = self.read_head.saturating_add(self.critical_span() - 1).min(hi);
                if self.read_head <= window {
                    vec![
                        Pass { lo: self.read_head, hi: window, respect_cap: true, nearest: true },
                        Pass { lo: self.read_head, hi: window, respect_cap: false, nearest: true },
                        Pass { lo, hi, respect_cap: true, nearest: false },
                        Pass { lo, hi, respect_cap: false, nearest: false },
                    ]
                } else {
                    vec![
                        Pass { lo, hi, respect_cap: true, nearest: true },
                        Pass { lo, hi, respect_cap: false, nearest: true },
                    ]
                }
            },
        }
    }

    /// Hands `worker` its next claim, or `None` when there is nothing left to
    /// do: no unclaimed work, no live claim big enough to split, and nothing to
    /// race.
    pub fn claim(&mut self, worker: usize) -> (out: Option<Claim>)
        requires
            old(self)@.wf(),
        ensures
            final(self)@.wf(),
            old(self)@.claimed(worker, final(self)@, out),
    {
        let ghost v = self@;
        let passes: Vec<Pass> = self.passes();
        let mut k: usize = 0;
        while k < passes.len()
            invariant
                k <= passes.len(),
                self@ == v,
                v == old(self)@,
                v.wf(),
                passes@ == v.passes(),
                forall|j: int| 0 <= j < passes@.len() ==> v.pass_ok(#[trigger] passes@[j]),
                forall|j: int| 0 <= j < k ==> v.gap_found(#[trigger] v.passes()[j], None),
            decreases passes.len() - k,
        {
            assert(v.pass_ok(passes@[k as int]));
            if let Some(claim) = self.take_unclaimed(worker, passes[k]) {
                proof {
                    let p = v.passes()[k as int];
                    let i = choose|i: int| #[trigger]
                        v.gap_found(p, Some(i)) && self@ == v.taken(worker, p, i) && claim
                            == v.fresh_claim(v.gap_start(p, i), v.take_end(p, i));
                    assert(v.gap_found(v.passes()[k as int], Some(i)));
                    assert(v.took(worker, self@, Some(claim)));
                    if v.none_to_take() {
                        lemma_gap_found_unique(v, p, i);
                        assert(v.gap_found(v.passes()[k as int], None));
                    }
                }
                return Some(claim);
            }
            k = k + 1;
        }
        assert(v.none_to_take());
        let stolen: Option<Claim> = self.steal(worker);
        assert(v.stole(worker, self@, stolen));
        if stolen.is_some() {
            return stolen;
        }
        if let Strategy::Throughput = self.strategy {
            if self.in_tail() {
                return self.hedge(worker);
            }
        }
        None
    }

    /// Tells the first claim that owns the range beginning at `start` that it is
    /// finished.
    fn cut_owner(&mut self, start: u64)
        requires
            old(self)@.wf(),
        ensures
            final(self)@.wf(),
            final(self)@ == old(self)@.cut_short(owner_of(start)),
    {
        let ghost v = self@;
        let mut i: usize = 0;
        while i < self.live.len()
            invariant
                i <= self.live.len(),
                self@ == v,
                v == old(self)@,
                v.wf(),
                first_live(v.live, owner_of(start), 0) == first_live(
                    v.live,
                    owner_of(start),
                    i as int,
                ),
            decreases self.live.len() - i,
        {
            if self.live[i].hedge_of.is_none() && self.live[i].claim.start == start {
                self.pull_end(i);
                return ;
            }
            i = i + 1;
        }
    }

    /// Tells the first copy of the claim that began at `start` that it is
    /// finished.
    fn cut_copy(&mut self, start: u64)
        requires
            old(self)@.wf(),
        ensures
            final(self)@.wf(),
            final(self)@ == old(self)@.cut_short(copy_of(start)),
    {
        let ghost v = self@;
        let mut i: usize = 0;
        while i < self.live.len()
            invariant
                i <= self.live.len(),
                self@ == v,
                v == old(self)@,
                v.wf(),
                first_live(v.live, copy_of(start), 0) == first_live(
                    v.live,
                    copy_of(start),
                    i as int,
                ),
            decreases self.live.len() - i,
        {
            if let Some(raced) = self.live[i].hedge_of {
                if raced == start {
                    self.pull_end(i);
                    return ;
                }
            }
            i = i + 1;
        }
    }

    /// Pulls the end of live claim `i` below its cursor.
    fn pull_end(&mut self, i: usize)
        requires
            old(self)@.wf(),
            i < old(self)@.live.len(),
        ensures
            final(self)@.wf(),
            final(self)@ == old(self)@.with_end(
                i as int,
                imin(
                    old(self)@.live[i as int].claim.end as int,
                    imax(old(self)@.live[i as int].claim.cursor - 1, 0),
                ) as u64,
            ),
    {
        let mut l: Live = self.live[i];
        let end: u64 = l.claim.end.min(l.claim.cursor.saturating_sub(1));
        proof {
            lemma_with_end_wf(self@, i as int, end);
        }
        l.claim.end = end;
        self.live.set(i, l);
    }

    /// Releases `worker`'s claim. `reached` is the first byte it did *not*
    /// deliver; `[reached, end]` goes back to be claimed again.
    pub fn finish(&mut self, worker: usize, reached: u64)
        requires
            old(self)@.wf(),
        ensures
            final(self)@.wf(),
            final(self)@ == old(self)@.finished(worker, reached),
    {
        let i: usize = match self.position(worker) {
            Some(i) => i,
            None => {
                return ;
            },
        };
        proof {
            lemma_without_live_wf(self@, i as int);
            assert(self@.live_ok(self@.live[i as int]));
        }
        let l: Live = self.live.remove(i);
        if reached > l.claim.end {
            match l.hedge_of {
                Some(start) => self.cut_owner(start),
                None => self.cut_copy(l.claim.start),
            }
        } else if l.hedge_of.is_none() {
            self.insert_unclaimed(reached, l.claim.end);
        }
    }

    /// Re-aims the whole pool at a reader that just arrived or seeked, and
    /// returns the workers whose requests the caller must abort and restart.
    ///
    /// A claim nowhere near the reader goes back, and so does one that keeps the
    /// reader waiting for bytes in between; an over-long one is shortened in
    /// place. No-op in [`Strategy::Throughput`], which has no reader.
    pub fn refocus_on_reader(&mut self, window: u64) -> (out: Vec<usize>)
        requires
            old(self)@.wf(),
        ensures
            final(self)@.wf(),
            (final(self)@, out@) == if old(self)@.strategy is Latency {
                old(self)@.refocused(window, 0)
            } else {
                (old(self)@, Seq::empty())
            },
    {
        let mut reclaimed: Vec<usize> = Vec::new();
        let head_claim: u64 = match self.strategy {
            Strategy::Latency { head_claim, .. } => head_claim,
            Strategy::Throughput => {
                return reclaimed;
            },
        };
        let head: u64 = self.read_head;
        let hi: u64 = head.saturating_add(window.max(1));
        let grace: u64 = head_claim.max(MIN_CLAIM);
        let ghost goal = self@.refocused(window, 0);
        let mut i: usize = 0;
        proof {
            assert(reclaimed@ + goal.1 =~= goal.1);
        }
        while i < self.live.len()
            invariant
                i <= self.live.len(),
                self@.wf(),
                self@.strategy is Latency,
                self@.strategy->head_claim == head_claim,
                self@.read_head == head,
                hi == imin(head + imax(window as int, 1), u64::MAX as int),
                grace == imax(head_claim as int, MIN_CLAIM as int),
                goal.0 == self@.refocused(window, i as int).0,
                goal.1 == reclaimed@ + self@.refocused(window, i as int).1,
            decreases self.live.len() - i,
        {
            let ghost v = self@;
            let mut l: Live = self.live[i];
            let c: Claim = l.claim;
            proof {
                assert(v.live_ok(v.live[i as int]));
            }
            if c.cursor > c.end {
                i = i + 1;
                continue ;
            }
            if c.cursor >= hi || c.end < head || c.cursor.saturating_add(grace) < head {
                assert(v.misplaced(l, window));
                proof {
                    lemma_without_live_wf(v, i as int);
                }
                self.live.remove(i);
                assert(self@ == v.without_live(i as int));
                if l.hedge_of.is_none() {
                    self.insert_unclaimed(c.cursor, c.end);
                }
                let ghost before = reclaimed@;
                reclaimed.push(l.worker);
                proof {
                    let tail = self@.refocused(window, i as int).1;
                    assert(before + (seq![l.worker] + tail) =~= reclaimed@ + tail);
                }
                continue ;
            }
            assert(!v.misplaced(l, window));
            let keep: u64 = c.cursor.saturating_add(self.claim_len() - 1);
            if l.hedge_of.is_none() && keep < c.end {
                l.claim.end = keep;
                proof {
                    lemma_with_end_wf(v, i as int, keep);
                }
                self.live.set(i, l);
                assert(self@ == v.with_end(i as int, keep));
                self.insert_unclaimed((keep + 1).max(c.reserved), c.end);
            }
            i = i + 1;
        }
        proof {
            assert(reclaimed@ + self@.refocused(window, i as int).1 =~= reclaimed@);
        }
        reclaimed
    }

    /// Declares stopped claims dead, hands their ranges back, and returns the
    /// workers whose requests the caller should abort and restart.
    pub fn reclaim_stalled(&mut self) -> (out: Vec<usize>)
        requires
            old(self)@.wf(),
        ensures
            final(self)@.wf(),
            (final(self)@, out@) == old(self)@.swept(0),
            ({
                let left = final(self)@.live;
                forall|k: int|
                    0 <= k < left.len() && (#[trigger] left[k]).claim.cursor <= left[k].claim.end
                        ==> old(self)@.now - left[k].last_progress < 30_000_000_000
            }),
            out@ == workers_of(picked(old(self)@.live, stopped(old(self)@.now))),
    {
        proof {
            law_a_sweep_recuts_what_has_stopped(self@);
        }
        let mut dead: Vec<usize> = Vec::new();
        let ghost goal = self@.swept(0);
        let mut i: usize = 0;
        proof {
            assert(dead@ + goal.1 =~= goal.1);
        }
        while i < self.live.len()
            invariant
                i <= self.live.len(),
                self@.wf(),
                goal.0 == self@.swept(i as int).0,
                goal.1 == dead@ + self@.swept(i as int).1,
            decreases self.live.len() - i,
        {
            let ghost v = self@;
            let mut l: Live = self.live[i];
            let c: Claim = l.claim;
            proof {
                assert(v.live_ok(v.live[i as int]));
            }
            if c.cursor > l.last_cursor || c.cursor > c.end {
                l.last_cursor = c.cursor;
                l.last_progress = self.now;
                self.live.set(i, l);
                proof {
                    assert forall|k: int| 0 <= k < self@.live.len() implies self@.live_ok(
                        #[trigger] self@.live[k],
                    ) by {
                        assert(v.live_ok(v.live[k]));
                    }
                }
                i = i + 1;
                continue ;
            }
            if self.now < l.last_progress || self.now - l.last_progress < DEAD_CLAIM_WINDOW {
                i = i + 1;
                continue ;
            }
            proof {
                lemma_without_live_wf(v, i as int);
            }
            self.live.remove(i);
            assert(self@ == v.without_live(i as int));
            if l.hedge_of.is_none() {
                self.insert_unclaimed(c.cursor, c.end);
            }
            let ghost before = dead@;
            dead.push(l.worker);
            proof {
                let tail = self@.swept(i as int).1;
                assert(before + (seq![l.worker] + tail) =~= dead@ + tail);
            }
        }
        proof {
            assert(dead@ + self@.swept(i as int).1 =~= dead@);
        }
        dead
    }
}

/// A look that finds a gap does not come back empty-handed.
proof fn lemma_gap_found_unique(v: SchedulerView, p: Pass, i: int)
    requires
        v.gap_found(p, Some(i)),
    ensures
        !v.gap_found(p, None),
{
    assert(v.open_gap(p, i));
    if p.nearest && v.gap_found(p, None) {
        let j = choose|j: int| 0 <= j < i && #[trigger] v.overlaps(p, j);
        assert(!v.overlaps(p, j));
    }
}

} // verus!
