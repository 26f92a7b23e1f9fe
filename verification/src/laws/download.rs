//! What a download does with its workers and its readers.

use crate::cache::CacheEntry;
use crate::download::{
    job_from, jobs_off, judged, kept_jobs, lowest, slots_that, speeds, stopping, stops_on,
    with_reader, without_reader, JobStateView, JobView, StoppedView,
};
use crate::engine::VolumeMeta;
use crate::error::ProxyError;
use crate::schedule::{Claim, SchedulerView};
use vstd::prelude::*;

verus! {

/// A download that is started and has every byte is done. Any other runs: it fetches
/// all of the file, its failures are forgotten and every slot has a worker, while
/// those that had one keep it.
pub proof fn law_a_started_download_runs(j: JobView, full: bool, done: u64, now: u64, i: int)
    requires
        j.wf(),
        0 <= i < j.slots.len(),
    ensures
        ({
            let after = j.started(full, done, now);
            &&& full ==> after.state is Done && !after.cache_requested && after == (JobView {
                state: after.state,
                cache_requested: false,
                ..j
            })
            &&& !full ==> {
                &&& after.state is Running
                &&& after.cache_requested
                &&& after.failures == 0
                &&& after.last_written_bytes == done
                &&& after.last_sample == now
                &&& after.slots.len() == j.slots.len()
                &&& after.slots[i] is Some
                &&& j.slots[i] is Some ==> after.slots[i] == j.slots[i]
                &&& j.slots[i] is None ==> after.slots[i] == Some(j.generation)
                &&& after.sched.work_limit is None
                &&& after.readers == j.readers
                &&& after.generation == j.generation
                &&& after.sched.unclaimed == j.sched.unclaimed
                &&& after.sched.live == j.sched.live
                &&& j.readers.len() == 0 ==> after.sched.strategy is Throughput
                &&& j.readers.len() > 0 ==> after.sched.strategy is Latency
            }
        }),
{
    lemma_lowest(j.readers);
}

/// A paused download asks for nothing more of its own, and one that is done stays so.
/// Its workers finish what they hold. Whoever still reads is served on, with at most
/// 256 MiB fetched ahead.
pub proof fn law_a_paused_download_serves_its_readers(j: JobView, i: int)
    requires
        j.wf(),
        0 <= i < j.slots.len(),
    ensures
        ({
            let after = j.paused();
            &&& !after.cache_requested
            &&& j.state is Done ==> after.state is Done
            &&& !(j.state is Done) ==> after.state is Paused
            &&& after.readers == j.readers
            &&& after.generation != j.generation
            &&& after.failures == j.failures
            &&& after.sched.unclaimed == j.sched.unclaimed
            &&& after.sched.live == j.sched.live
            &&& j.slots[i] is Some ==> after.slots[i] == j.slots[i]
            &&& j.readers.len() == 0 ==> after.slots == j.slots && after.sched == j.sched
            &&& j.readers.len() > 0 ==> {
                &&& after.sched.strategy is Latency
                &&& after.sched.work_limit == Some(268_435_456u64)
                &&& j.slots[i] is None ==> after.slots[i] == Some(after.generation)
            }
        }),
{
    lemma_lowest(j.readers);
}

proof fn lemma_lowest(readers: Seq<(u64, u64)>)
    ensures
        readers.len() > 0 <==> lowest(readers) is Some,
{
    if readers.len() > 0 {
        crate::download::law_the_pool_follows_the_last_reader(readers);
    }
}

/// With somebody reading, claims are cut for the reader that is furthest behind:
/// around it the next 32 MiB count most and claims begin with 2 MiB.
pub proof fn law_claims_are_cut_for_the_reader_furthest_behind(j: JobView, k: int)
    requires
        j.wf(),
        0 <= k < j.readers.len(),
        forall|i: int| 0 <= i < j.readers.len() ==> j.readers[k].1 <= (#[trigger] j.readers[i]).1,
    ensures
        ({
            let s = j.retuned().sched;
            let at = j.readers[k].1;
            &&& s.strategy is Latency
            &&& s.strategy->critical_window == 33_554_432
            &&& s.strategy->head_claim == 2_097_152
            &&& s.buffered == 0
            &&& at <= j.sched.req_end ==> s.read_head == at
            &&& at > j.sched.req_end ==> s.read_head == j.sched.req_end + 1
            &&& s.unclaimed == j.sched.unclaimed
            &&& s.live == j.sched.live
        }),
{
    crate::download::law_the_pool_follows_the_last_reader(j.readers);
    let i = choose|i: int|
        0 <= i < j.readers.len() && (#[trigger] j.readers[i]).1 == lowest(j.readers)->0;
    assert(j.readers[k].1 == lowest(j.readers)->0);
}

/// With nobody reading, claims are cut to be done soonest, anywhere in the file.
pub proof fn law_without_readers_all_of_the_file_counts(j: JobView)
    requires
        j.readers.len() == 0,
    ensures
        j.retuned().sched.strategy is Throughput,
        j.retuned().sched.work_limit is None,
        j.retuned().sched.unclaimed == j.sched.unclaimed,
        j.retuned().sched.live == j.sched.live,
{
}

/// A reader that moves is where it went, and all others are where they were.
#[verifier::rlimit(50)]
pub proof fn law_readers_move_one_at_a_time(
    readers: Seq<(u64, u64)>,
    id: u64,
    at: u64,
    other: (u64, u64),
)
    requires
        forall|i: int, j: int|
            0 <= i < j < readers.len() ==> (#[trigger] readers[i]).0 != (#[trigger] readers[j]).0,
    ensures
        with_reader(readers, id, at).contains((id, at)),
        other.0 != id ==> (with_reader(readers, id, at).contains(other) <==> readers.contains(
            other,
        )),
        other.0 == id && other.1 != at ==> !with_reader(readers, id, at).contains(other),
    decreases readers.len(),
{
    let w = with_reader(readers, id, at);
    if readers.len() == 0 {
        assert(w[0] == (id, at));
    } else {
        let rest = readers.drop_first();
        assert(forall|i: int| 0 <= i < rest.len() ==> #[trigger] rest[i] == readers[i + 1]);
        if readers[0].0 == id {
            assert(w[0] == (id, at));
            assert(forall|i: int| 0 <= i < rest.len() ==> w[i + 1] == #[trigger] rest[i]);
            if readers.contains(other) && other.0 != id {
                let i = choose|i: int| 0 <= i < readers.len() && readers[i] == other;
                assert(w[i] == other);
            }
            if w.contains(other) {
                let i = choose|i: int| 0 <= i < w.len() && w[i] == other;
                if i > 0 {
                    assert(readers[i] == other);
                }
            }
        } else {
            law_readers_move_one_at_a_time(rest, id, at, other);
            let m = with_reader(rest, id, at);
            assert(forall|i: int| 0 <= i < m.len() ==> w[i + 1] == #[trigger] m[i]);
            assert(w[0] == readers[0]);
            let i = choose|i: int| 0 <= i < m.len() && m[i] == (id, at);
            assert(w[i + 1] == (id, at));
            if m.contains(other) {
                let i = choose|i: int| 0 <= i < m.len() && m[i] == other;
                assert(w[i + 1] == other);
            }
            if rest.contains(other) {
                let i = choose|i: int| 0 <= i < rest.len() && rest[i] == other;
                assert(readers[i + 1] == other);
            }
            if readers.contains(other) {
                let i = choose|i: int| 0 <= i < readers.len() && readers[i] == other;
                if i > 0 {
                    assert(rest[i - 1] == other);
                }
            }
            if w.contains(other) {
                let i = choose|i: int| 0 <= i < w.len() && w[i] == other;
                if i > 0 {
                    assert(m[i - 1] == other);
                }
            }
        }
    }
}

/// A reader that leaves is gone, and all others are where they were.
pub proof fn law_only_the_reader_that_leaves_is_gone(
    readers: Seq<(u64, u64)>,
    id: u64,
    r: (u64, u64),
)
    ensures
        without_reader(readers, id).contains(r) <==> readers.contains(r) && r.0 != id,
    decreases readers.len(),
{
    if readers.len() > 0 {
        let rest = readers.drop_last();
        law_only_the_reader_that_leaves_is_gone(rest, id, r);
        let f = without_reader(rest, id);
        let w = without_reader(readers, id);
        if readers.contains(r) {
            let i = choose|i: int| 0 <= i < readers.len() && readers[i] == r;
            if i < rest.len() {
                assert(rest[i] == r);
            }
        }
        if rest.contains(r) {
            let i = choose|i: int| 0 <= i < rest.len() && rest[i] == r;
            assert(readers[i] == r);
        }
        if readers.last().0 != id {
            if f.contains(r) {
                let i = choose|i: int| 0 <= i < f.len() && f[i] == r;
                assert(w[i] == r);
            }
            if w.contains(r) {
                let i = choose|i: int| 0 <= i < w.len() && w[i] == r;
                if i < f.len() {
                    assert(f[i] == r);
                }
            }
            if r == readers.last() {
                assert(w[f.len() as int] == r);
                assert(readers[rest.len() as int] == r);
            }
        }
    }
}

/// A reader that joins gets a number of its own and reads where it wanted to; one
/// that moves draws the claims along; when the last one leaves, a download that
/// still fetches goes on at full speed with every slot filled, and any other lets its
/// workers run dry.
pub proof fn law_readers_come_and_go(j: JobView, id: u64, at: u64, i: int)
    requires
        j.wf(),
        0 <= i < j.slots.len(),
    ensures
        j.joined(at).readers == with_reader(j.readers, j.next_reader, at),
        j.joined(at).next_reader != j.next_reader,
        j.joined(at).sched.strategy is Latency,
        j.joined(at).cache_requested == j.cache_requested,
        j.joined(at).slots == j.slots,
        j.advanced(id, at).readers == with_reader(j.readers, id, at),
        at <= j.sched.req_end ==> j.advanced(id, at).sched.read_head == at,
        j.advanced(id, at).sched.unclaimed == j.sched.unclaimed,
        j.advanced(id, at).sched.live == j.sched.live,
        ({
            let after = j.left(id);
            let rest = without_reader(j.readers, id);
            &&& after.readers == rest
            &&& after.cache_requested == j.cache_requested
            &&& after.state == j.state
            &&& rest.len() > 0 ==> after.slots == j.slots && after.sched.strategy is Latency
                && after.generation == j.generation
            &&& rest.len() == 0 && j.cache_requested ==> after.sched.strategy is Throughput
                && after.sched.work_limit is None && after.slots[i] is Some
            &&& rest.len() == 0 && !j.cache_requested ==> after.slots == j.slots
                && after.generation != j.generation && after.sched == j.sched
        }),
{
    let w = with_reader(j.readers, j.next_reader, at);
    lemma_lowest(w);
    lemma_some_reader(j.readers, j.next_reader, at);
    lemma_lowest(without_reader(j.readers, id));
}

proof fn lemma_some_reader(readers: Seq<(u64, u64)>, id: u64, at: u64)
    ensures
        with_reader(readers, id, at).len() > 0,
{
}

/// A failure that is charged counts. A download survives fewer failures than its
/// budget; with the last one it has failed, with the error it ended on, wants nothing
/// more and has no worker. Its claims stay as they are either way.
pub proof fn law_a_download_fails_when_its_budget_is_spent(j: JobView, error: Seq<char>)
    requires
        j.wf(),
        j.failures < usize::MAX,
    ensures
        ({
            let after = j.failed(error);
            &&& after.failures == j.failures + 1
            &&& after.sched == j.sched
            &&& after.readers == j.readers
            &&& j.failures + 1 < j.failure_budget ==> after == (JobView {
                failures: after.failures,
                ..j
            })
            &&& j.failures + 1 >= j.failure_budget ==> {
                &&& after.state == JobStateView::Failed(error)
                &&& !after.cache_requested
                &&& after.generation != j.generation
                &&& after.slots.len() == j.slots.len()
                &&& forall|i: int| 0 <= i < after.slots.len() ==> #[trigger] after.slots[i] is None
            }
        }),
{
}

/// What ends a claim decides what is learned of it: a good end shortens the waits, a
/// refusal for load lengthens them and is charged to nobody, changed content is
/// charged and teaches nothing.
pub proof fn law_an_end_is_judged_by_its_error(s: SchedulerView, held: Claim, error: ProxyError)
    requires
        s.wf(),
    ensures
        s.overload_strikes > 0 ==> judged(s, held, None).0.overload_strikes == s.overload_strikes
            - 1,
        error.overloads() && s.overload_strikes < 6 ==> judged(
            s,
            held,
            Some(error),
        ).0.overload_strikes == s.overload_strikes + 1,
        error.overloads() && error.wait_hint() is Some ==> judged(
            s,
            held,
            Some(error),
        ).0.overload_hint is Some && judged(s, held, Some(error)).0.overload_hint->0
            >= error.wait_hint()->0,
        error is ContentChanged ==> judged(s, held, Some(error)) == (s, true),
        !error.overloads() && !(error is ContentChanged) && held.cursor <= held.start
            && s.auto_limit is None ==> judged(s, held, Some(error)).0.auto_limit is Some && !judged(
            s,
            held,
            Some(error),
        ).1,
{
}

/// A worker frees its slot when it leaves, unless another has taken it since. Nobody
/// else's slot changes.
pub proof fn law_a_worker_frees_its_own_slot(j: JobView, worker: usize, generation: u64, i: int)
    requires
        0 <= i < j.slots.len(),
    ensures
        ({
            let after = j.retired(worker, generation);
            &&& after == (JobView { slots: after.slots, ..j })
            &&& after.slots.len() == j.slots.len()
            &&& i != worker ==> after.slots[i] == j.slots[i]
            &&& j.slots[i] != Some(generation) ==> after.slots[i] == j.slots[i]
            &&& i == worker && j.slots[i] == Some(generation) ==> after.slots[i] is None
        }),
{
}

/// The slots of the workers that are replaced go to new workers; the others stay.
pub proof fn law_replaced_workers_give_up_their_slots(
    j: JobView,
    stale: Seq<usize>,
    n: int,
    i: int,
)
    requires
        0 <= n <= stale.len(),
        0 <= i < j.slots.len(),
    ensures
        ({
            let after = j.replaced(stale, n);
            &&& after == (JobView { slots: after.slots, ..j })
            &&& after.slots.len() == j.slots.len()
            &&& (exists|k: int| 0 <= k < n && #[trigger] stale[k] == i) ==> after.slots[i] == Some(
                j.generation,
            )
            &&& (forall|k: int| 0 <= k < n ==> #[trigger] stale[k] != i) ==> after.slots[i]
                == j.slots[i]
        }),
    decreases n,
{
    if n > 0 {
        law_replaced_workers_give_up_their_slots(j, stale, n - 1, i);
        if exists|k: int| 0 <= k < n && #[trigger] stale[k] == i {
            let k = choose|k: int| 0 <= k < n && #[trigger] stale[k] == i;
            if k < n - 1 {
                assert(stale[k] == i);
            }
        }
        assert(stale[n - 1] != i || stale[n - 1] == i);
    }
}

/// A worker that quits over a file that is complete leaves the download done, unless
/// it has failed. One that has been superseded makes room for a new one while
/// somebody wants the bytes.
pub proof fn law_a_quitting_worker_leaves_the_download_as_it_is(
    j: JobView,
    worker: usize,
    generation: u64,
    superseded: bool,
    full: bool,
)
    requires
        j.wf(),
        worker < j.slots.len(),
        j.slots[worker as int] == Some(generation),
    ensures
        ({
            let after = j.quit(worker, generation, superseded, full);
            &&& after.sched == j.sched
            &&& after.readers == j.readers
            &&& after.generation == j.generation
            &&& full ==> !after.cache_requested && after.slots[worker as int] is None
            &&& full && !(j.state is Failed) ==> after.state is Done
            &&& full && j.state is Failed ==> after.state == j.state
            &&& !full ==> after.state == j.state && after.cache_requested == j.cache_requested
            &&& !full && !superseded ==> after.slots[worker as int] is None
            &&& !full && superseded && (j.cache_requested || j.readers.len() > 0)
                ==> after.slots[worker as int] == Some(j.generation)
            &&& !full && superseded && !j.cache_requested && j.readers.len() == 0
                ==> after.slots[worker as int] is None
        }),
{
}

/// The slots that are listed are exactly those that are free, or taken, in order.
pub proof fn law_slots_are_listed_in_order(
    slots: Seq<Option<u64>>,
    free: bool,
    n: int,
    i: int,
    k: int,
)
    requires
        0 <= n <= slots.len() <= usize::MAX,
        0 <= i < n,
    ensures
        slots_that(slots, free, n).contains(i as usize) <==> (slots[i] is None) == free,
        0 <= k < slots_that(slots, free, n).len() ==> slots_that(slots, free, n)[k] < n,
        0 < k < slots_that(slots, free, n).len() ==> slots_that(slots, free, n)[k - 1]
            < slots_that(slots, free, n)[k],
    decreases n,
{
    lemma_slots(slots, free, n);
    let l = slots_that(slots, free, n);
    if (slots[i] is None) == free {
        lemma_slot_listed(slots, free, n, i);
    }
    if l.contains(i as usize) {
        let a = choose|a: int| 0 <= a < l.len() && l[a] == i as usize;
        assert((slots[l[a] as int] is None) == free);
    }
}

proof fn lemma_slots(slots: Seq<Option<u64>>, free: bool, n: int)
    requires
        0 <= n <= slots.len() <= usize::MAX,
    ensures
        forall|a: int|
            0 <= a < slots_that(slots, free, n).len() ==> (#[trigger] slots_that(
                slots,
                free,
                n,
            )[a]) < n && (slots[slots_that(slots, free, n)[a] as int] is None) == free,
        forall|a: int, b: int|
            0 <= a < b < slots_that(slots, free, n).len() ==> (#[trigger] slots_that(
                slots,
                free,
                n,
            )[a]) < (#[trigger] slots_that(slots, free, n)[b]),
    decreases n,
{
    if n > 0 {
        lemma_slots(slots, free, n - 1);
    }
}

proof fn lemma_slot_listed(slots: Seq<Option<u64>>, free: bool, n: int, i: int)
    requires
        0 <= i < n <= slots.len() <= usize::MAX,
        (slots[i] is None) == free,
    ensures
        slots_that(slots, free, n).contains(i as usize),
    decreases n,
{
    let l = slots_that(slots, free, n);
    let f = slots_that(slots, free, n - 1);
    if i == n - 1 {
        assert(l[f.len() as int] == i as usize);
    } else {
        lemma_slot_listed(slots, free, n - 1, i);
        let a = choose|a: int| 0 <= a < f.len() && f[a] == i as usize;
        assert(l[a] == i as usize);
    }
}

/// What is kept over a restart: the downloads that fetch their file, or that were
/// paused. Those of a cleared entry are stopped, and all others stay.
pub proof fn law_downloads_are_kept_and_stopped_by_what_they_are(
    l: Seq<JobView>,
    key: Seq<char>,
    j: JobView,
)
    ensures
        kept_jobs(l).contains(j) <==> l.contains(j) && (j.cache_requested || j.state is Paused),
        jobs_off(l, key).contains(j) <==> l.contains(j) && j.key != key,
        l.contains(j) && j.key == key ==> stops_on(l, key).contains(stopping(j)),
        jobs_off(l, key).len() + stops_on(l, key).len() == l.len(),
        stopping(j).task_id == j.task_id,
    decreases l.len(),
{
    if l.len() > 0 {
        let rest = l.drop_last();
        law_downloads_are_kept_and_stopped_by_what_they_are(rest, key, j);
        lemma_push_contains(rest, l.last(), j);
        assert(rest.push(l.last()) =~= l);
        lemma_push_contains(kept_jobs(rest), l.last(), j);
        lemma_push_contains(jobs_off(rest, key), l.last(), j);
        lemma_push_stops(stops_on(rest, key), stopping(l.last()), stopping(j));
    }
}

proof fn lemma_push_contains(l: Seq<JobView>, x: JobView, j: JobView)
    ensures
        l.push(x).contains(j) <==> l.contains(j) || x == j,
{
    let p = l.push(x);
    if p.contains(j) {
        let i = choose|i: int| 0 <= i < p.len() && p[i] == j;
        if i < l.len() {
            assert(l[i] == j);
        }
    }
    if l.contains(j) {
        let i = choose|i: int| 0 <= i < l.len() && l[i] == j;
        assert(p[i] == j);
    }
    assert(p[l.len() as int] == x);
}

proof fn lemma_push_stops(l: Seq<StoppedView>, x: StoppedView, j: StoppedView)
    ensures
        l.contains(j) || x == j ==> l.push(x).contains(j),
{
    let p = l.push(x);
    if l.contains(j) {
        let i = choose|i: int| 0 <= i < l.len() && l[i] == j;
        assert(p[i] == j);
    }
    assert(p[l.len() as int] == x);
}

/// The speeds of the downloads add up.
pub proof fn law_speeds_add_up(l: Seq<JobView>, j: JobView)
    ensures
        speeds(Seq::<JobView>::empty()) == 0,
        speeds(l) + j.current_speed_bps <= u64::MAX ==> speeds(l.push(j)) == speeds(l)
            + j.current_speed_bps,
        speeds(l) + j.current_speed_bps > u64::MAX ==> speeds(l.push(j)) == u64::MAX,
{
    assert(l.push(j).drop_last() =~= l);
}

/// A download is found by its task.
pub proof fn law_a_download_is_found_by_its_task(l: Seq<JobView>, task_id: Seq<char>, k: int)
    requires
        0 <= k < l.len(),
        l[k].task_id == task_id,
        forall|i: int| 0 <= i < l.len() && i != k ==> (#[trigger] l[i]).task_id != task_id,
    ensures
        job_from(l, task_id, 0) == Some(k),
{
    lemma_job_from(l, task_id, 0, k);
}

proof fn lemma_job_from(l: Seq<JobView>, task_id: Seq<char>, i: int, k: int)
    requires
        0 <= i <= k < l.len(),
        l[k].task_id == task_id,
        forall|i: int| 0 <= i < l.len() && i != k ==> (#[trigger] l[i]).task_id != task_id,
    ensures
        job_from(l, task_id, i) == Some(k),
    decreases k - i,
{
    if i < k {
        lemma_job_from(l, task_id, i + 1, k);
    }
}

/// A new download has no worker, no reader and no failure, may fail twice for each
/// thread and eight times at least, and wants nothing until it is started; over a
/// complete entry it is done.
pub proof fn law_a_new_download_waits(
    task_id: Seq<char>,
    entry: CacheEntry,
    volumes: Seq<VolumeMeta>,
    max_threads: usize,
    max_per_volume: usize,
    max_split: u64,
    now: u64,
)
    requires
        entry.meta.total_size > 0,
        max_threads <= 0x3fff_ffff,
    ensures
        ({
            let j = JobView::opening(
                task_id,
                entry,
                volumes,
                max_threads,
                max_per_volume,
                max_split,
                now,
            );
            &&& j.task_id == task_id
            &&& j.key == entry.key@
            &&& j.total_size == entry.meta.total_size
            &&& j.sched.req_start == 0
            &&& j.sched.req_end + 1 == entry.meta.total_size
            &&& max_threads > 0 ==> j.threads == max_threads
            &&& max_threads == 0 ==> j.threads == 1
            &&& j.sched.max_threads == j.threads
            &&& j.slots.len() == j.threads
            &&& forall|i: int| 0 <= i < j.slots.len() ==> #[trigger] j.slots[i] is None
            &&& j.failures == 0
            &&& j.failure_budget >= 8
            &&& j.failure_budget >= 2 * j.threads
            &&& j.failure_budget == 8 || j.failure_budget == 2 * j.threads
            &&& !j.cache_requested
            &&& j.readers.len() == 0
            &&& max_split > 0 ==> j.sched.split_cap == Some(max_split)
            &&& max_split == 0 ==> j.sched.split_cap is None
            &&& j.state is Done || j.state is Idle
            &&& j.last_written_bytes == entry.bytes_written
            &&& j.current_speed_bps == 0
        }),
{
}

/// When the last reader leaves a download that goes on, exactly the free slots are
/// filled; otherwise no worker is started.
pub proof fn law_leaving_starts_only_what_is_missing(j: JobView, id: u64)
    ensures
        without_reader(j.readers, id).len() == 0 && j.cache_requested ==> j.left_hired(id)
            == slots_that(j.slots, true, j.slots.len() as int),
        without_reader(j.readers, id).len() > 0 || !j.cache_requested ==> j.left_hired(id).len()
            == 0,
{
}

} // verus!
