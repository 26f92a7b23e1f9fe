//! What a worker that asks for work is given.

use crate::engine::lemma_volume_from;
use crate::num::{imax, imin};
use crate::ranges::{covers, lemma_remove_range, total};
use crate::schedule::{
    count_in_volume, is_sorted_rates, known_rates, owed_by, Claim, Live, Pass, Rate, SchedulerView,
    Strategy,
};
use crate::schedule::laws::lemma_victim_is_robbable;
use vstd::prelude::*;

verus! {

/// Byte `b` is nobody's and may be claimed now: it lies in the request and, where
/// work is limited, among the next bytes that are read.
pub open spec fn open_to(v: SchedulerView, b: int) -> bool {
    &&& covers(v.unclaimed, b)
    &&& v.req_start <= b <= v.req_end
    &&& v.work_limit is Some ==> v.read_head <= b && (b - v.read_head < v.work_limit->0 || b
        == v.read_head)
}

/// Bytes that are claimed or can be, and that nobody has delivered.
pub open spec fn left(v: SchedulerView) -> int {
    total(v.unclaimed) + owed_by(v.live)
}

/// Little is left: less than 64 MiB, or less than 32 MiB for each thread.
pub open spec fn nearly_done(v: SchedulerView) -> bool {
    left(v) < 0xffff_ffff_ffff_ffff && (left(v) < 67_108_864 || left(v) < v.max_threads
        * 33_554_432)
}

/// The smallest piece worth cutting: 1 MiB where latency counts or little is left,
/// and 8 MiB otherwise.
pub open spec fn piece(v: SchedulerView) -> int {
    if v.strategy is Latency || nearly_done(v) {
        1_048_576
    } else {
        8_388_608
    }
}

/// The first look without regard for volumes fails only where no gap reaches into
/// the region.
proof fn lemma_no_gap(v: SchedulerView, p: Pass, i: int)
    requires
        v.gap_found(p, None),
        !p.respect_cap,
        0 <= i < v.unclaimed.len(),
    ensures
        !v.overlaps(p, i),
    decreases i,
{
    if v.overlaps(p, i) {
        assert(v.open_gap(p, i));
        if p.nearest {
            let j = choose|j: int| 0 <= j < i && #[trigger] v.overlaps(p, j);
            lemma_no_gap(v, p, j);
        }
    }
}

proof fn lemma_none_to_take(v: SchedulerView, b: int)
    requires
        v.wf(),
        open_to(v, b),
    ensures
        !v.none_to_take(),
{
    let i = choose|i: int|
        0 <= i < v.unclaimed.len() && (#[trigger] v.unclaimed[i]).0 <= b <= v.unclaimed[i].1;
    let k = v.passes().len() - 1;
    let p = v.passes()[k];
    if v.none_to_take() {
        assert(v.gap_found(v.passes()[k], None));
        lemma_no_gap(v, p, i);
        assert(v.overlaps(p, i));
    }
}

/// A byte that may be claimed lies in no gap exactly when no look finds one.
proof fn lemma_nothing_open(v: SchedulerView)
    requires
        v.wf(),
        forall|b: int| !#[trigger] open_to(v, b),
    ensures
        v.none_to_take(),
{
    assert forall|j: int| 0 <= j < v.passes().len() implies v.gap_found(
        #[trigger] v.passes()[j],
        None,
    ) by {
        let p = v.passes()[j];
        assert forall|i: int| 0 <= i < v.unclaimed.len() implies !#[trigger] v.overlaps(p, i) by {
            let b = imax(v.unclaimed[i].0 as int, p.lo as int);
            if v.overlaps(p, i) {
                assert(v.unclaimed[i].0 <= v.unclaimed[i].1 <= v.req_end);
                assert(p.lo <= p.hi);
                assert(covers(v.unclaimed, b));
                assert(open_to(v, b));
            }
        }
    }
}

/// What taking a claim out of gap `i` on look `k` gives.
proof fn lemma_took(v: SchedulerView, worker: usize, after: SchedulerView, out: Option<Claim>) -> (r:
    (int, int))
    requires
        v.wf(),
        v.claimed(worker, after, out),
        !v.none_to_take(),
    ensures
        ({
            let (k, i) = r;
            let p = v.passes()[k];
            let c = out->0;
            &&& 0 <= k < v.passes().len()
            &&& 0 <= i < v.unclaimed.len()
            &&& v.gap_found(p, Some(i))
            &&& v.open_gap(p, i)
            &&& forall|j: int| 0 <= j < k ==> v.gap_found(#[trigger] v.passes()[j], None)
            &&& after == v.taken(worker, p, i)
            &&& out is Some
            &&& c == v.fresh_claim(v.gap_start(p, i), v.take_end(p, i))
            &&& p.lo <= p.hi
            &&& c.start == imax(v.unclaimed[i].0 as int, p.lo as int)
            &&& c.start <= c.end
            &&& c.end == imin(
                imin(imin(v.unclaimed[i].1 as int, p.hi as int), v.volume_last(c.start)),
                c.start + v.claim_len() - 1,
            )
        }),
{
    let (k, i) = choose|k: int, i: int|
        {
            &&& 0 <= k < v.passes().len()
            &&& #[trigger] v.gap_found(v.passes()[k], Some(i))
            &&& forall|j: int| 0 <= j < k ==> v.gap_found(#[trigger] v.passes()[j], None)
            &&& after == v.taken(worker, v.passes()[k], i)
            &&& out == Some(
                v.fresh_claim(v.gap_start(v.passes()[k], i), v.take_end(v.passes()[k], i)),
            )
        };
    let p = v.passes()[k];
    assert(v.unclaimed[i].0 <= v.unclaimed[i].1 <= v.req_end);
    assert(v.overlaps(p, i));
    assert(v.volume_last(v.gap_start(p, i)) >= v.gap_start(p, i)) by {
        lemma_volume_from(v.volumes, v.gap_start(p, i) as int, 0);
    }
    (k, i)
}

/// While a byte may be claimed that is nobody's, a worker that asks is given a run of
/// such bytes. They are its own from then on, inside one volume and no longer than
/// the cap; no other byte changes hands and nothing else changes.
pub proof fn law_what_is_nobodys_is_handed_out_first(
    v: SchedulerView,
    worker: usize,
    after: SchedulerView,
    out: Option<Claim>,
    b: int,
)
    requires
        v.wf(),
        v.claimed(worker, after, out),
        open_to(v, b),
    ensures
        ({
            let c = out->0;
            &&& out is Some
            &&& c.start <= c.end
            &&& c.cursor == c.start
            &&& c.reserved == c.start
            &&& c.issued == c.end - c.start + 1
            &&& forall|x: int| c.start <= x <= c.end ==> #[trigger] open_to(v, x)
            &&& forall|x: int| #[trigger]
                covers(after.unclaimed, x) <==> covers(v.unclaimed, x) && !(c.start <= x <= c.end)
            &&& c.end <= v.volume_last(c.start)
            &&& c.volume == v.volume_of(c.start)
            &&& v.split_cap is Some ==> c.issued <= v.split_cap->0
            &&& v.auto_limit is Some && v.auto_limit->0 > 0 ==> c.issued <= v.auto_limit->0
            &&& after == (SchedulerView {
                unclaimed: after.unclaimed,
                live: v.live.push(
                    Live {
                        worker,
                        claim: c,
                        started: v.now,
                        last_cursor: c.start,
                        last_progress: v.now,
                        hedge_of: None,
                    },
                ),
                ..v
            })
        }),
{
    lemma_none_to_take(v, b);
    let (k, i) = lemma_took(v, worker, after, out);
    let p = v.passes()[k];
    let c = out->0;
    lemma_remove_range(v.unclaimed, c.start, c.end);
    assert forall|x: int| c.start <= x <= c.end implies #[trigger] open_to(v, x) by {
        assert(v.unclaimed[i].0 <= x <= v.unclaimed[i].1 <= v.req_end);
    }
}

/// A claim ends only where it has the length that claims should have now, where the
/// next byte cannot be claimed, at the end of a volume, or, where latency counts, at
/// the end of what is read next.
pub proof fn law_a_claim_is_as_long_as_it_may_be(
    v: SchedulerView,
    worker: usize,
    after: SchedulerView,
    out: Option<Claim>,
    b: int,
)
    requires
        v.wf(),
        v.claimed(worker, after, out),
        open_to(v, b),
    ensures
        ({
            let c = out->0;
            ||| c.issued == v.claim_len()
            ||| !open_to(v, c.end + 1)
            ||| c.end == v.volume_last(c.start)
            ||| v.strategy is Latency && c.start >= v.read_head && c.end >= v.read_head
                + v.strategy->critical_window - 1
        }),
{
    lemma_none_to_take(v, b);
    let (k, i) = lemma_took(v, worker, after, out);
    let p = v.passes()[k];
    let c = out->0;
    if c.end == v.unclaimed[i].1 && open_to(v, c.end + 1) {
        let j = choose|j: int|
            0 <= j < v.unclaimed.len() && (#[trigger] v.unclaimed[j]).0 <= c.end + 1
                <= v.unclaimed[j].1;
        assert(i < j || j < i || i == j);
    }
}

proof fn lemma_count(live: Seq<Live>, volume: usize)
    ensures
        0 <= count_in_volume(live, volume) <= live.len(),
    decreases live.len(),
{
    if live.len() > 0 {
        lemma_count(live.drop_last(), volume);
    }
}

/// For throughput, and while no volume has its share of claims, a claim is cut from
/// the front of the longest run of bytes that may be claimed: from its first byte on,
/// at least as many bytes can be claimed as in any run.
pub proof fn law_throughput_takes_from_the_longest_run(
    v: SchedulerView,
    worker: usize,
    after: SchedulerView,
    out: Option<Claim>,
    from: int,
    to: int,
)
    requires
        v.wf(),
        v.strategy is Throughput,
        v.live.len() < v.max_per_volume,
        v.claimed(worker, after, out),
        from <= to,
        forall|x: int| from <= x <= to ==> #[trigger] open_to(v, x),
    ensures
        out is Some,
        !open_to(v, out->0.start - 1),
        forall|x: int|
            out->0.start <= x <= out->0.start + (to - from) ==> #[trigger] open_to(v, x),
{
    assert(open_to(v, from));
    lemma_none_to_take(v, from);
    let (k, i) = lemma_took(v, worker, after, out);
    let p = v.passes()[k];
    let c = out->0;
    let g = choose|g: int|
        0 <= g < v.unclaimed.len() && (#[trigger] v.unclaimed[g]).0 <= from <= v.unclaimed[g].1;
    lemma_run_in_one_gap(v, from, to, g);
    lemma_count(v.live, v.volume_of(v.gap_start(p, g)));
    assert(v.overlaps(p, g));
    assert(v.open_gap(p, g));
    assert(v.gap_len(p, g) <= v.gap_len(p, i));
    assert(v.gap_len(p, g) >= to - from + 1) by {
        assert(open_to(v, to));
    }
    assert forall|x: int| c.start <= x <= c.start + (to - from) implies #[trigger] open_to(
        v,
        x,
    ) by {
        assert(v.unclaimed[i].0 <= x <= v.unclaimed[i].1 <= v.req_end);
    }
    if open_to(v, c.start - 1) {
        let j = choose|j: int|
            0 <= j < v.unclaimed.len() && (#[trigger] v.unclaimed[j]).0 <= c.start - 1
                <= v.unclaimed[j].1;
        assert(i < j || j < i || i == j);
    }
}

proof fn lemma_run_in_one_gap(v: SchedulerView, from: int, to: int, g: int)
    requires
        v.wf(),
        from <= to,
        0 <= g < v.unclaimed.len(),
        v.unclaimed[g].0 <= from <= v.unclaimed[g].1,
        forall|x: int| from <= x <= to ==> #[trigger] open_to(v, x),
    ensures
        to <= v.unclaimed[g].1,
{
    if to > v.unclaimed[g].1 {
        let x = v.unclaimed[g].1 + 1;
        assert(open_to(v, x));
        let j = choose|j: int|
            0 <= j < v.unclaimed.len() && (#[trigger] v.unclaimed[j]).0 <= x <= v.unclaimed[j].1;
        assert(g < j || j < g || g == j);
    }
}

/// Where latency counts, and a byte of what is read next may be claimed, the claim
/// begins at the first such byte from the reader on.
pub proof fn law_latency_takes_what_is_read_next(
    v: SchedulerView,
    worker: usize,
    after: SchedulerView,
    out: Option<Claim>,
    b: int,
)
    requires
        v.wf(),
        v.strategy is Latency,
        v.claimed(worker, after, out),
        open_to(v, b),
        v.read_head <= b < v.read_head + v.strategy->critical_window || b == v.read_head,
    ensures
        out is Some,
        v.read_head <= out->0.start <= b,
        forall|x: int| v.read_head <= x < out->0.start ==> !#[trigger] open_to(v, x),
{
    lemma_none_to_take(v, b);
    let (k, i) = lemma_took(v, worker, after, out);
    let p = v.passes()[k];
    let c = out->0;
    let g = choose|g: int|
        0 <= g < v.unclaimed.len() && (#[trigger] v.unclaimed[g]).0 <= b <= v.unclaimed[g].1;
    let q = v.passes()[1];
    assert(v.overlaps(q, g));
    if k > 1 {
        assert(v.gap_found(v.passes()[1], None));
        lemma_no_gap(v, q, g);
    }
    assert(p.nearest);
    assert(p.lo == v.read_head);
    assert(v.overlaps(p, g));
    assert(i <= g);
    assert(v.unclaimed[i].0 <= v.unclaimed[i].1);
    assert(c.start <= b) by {
        if i < g {
            assert(v.unclaimed[i].1 + 1 < v.unclaimed[g].0);
        }
    }
    assert forall|x: int| v.read_head <= x < c.start implies !#[trigger] open_to(v, x) by {
        if open_to(v, x) {
            let j = choose|j: int|
                0 <= j < v.unclaimed.len() && (#[trigger] v.unclaimed[j]).0 <= x
                    <= v.unclaimed[j].1;
            assert(v.unclaimed[i].0 == c.start);
            if j > i {
                assert(v.unclaimed[i].1 + 1 < v.unclaimed[j].0);
            }
            assert(v.overlaps(p, j));
        }
    }
}

/// `worker` may rob live claim `i`: it is another's, no copy, and owes more than two
/// of the smallest pieces.
pub open spec fn may_rob(v: SchedulerView, worker: usize, i: int) -> bool {
    &&& 0 <= i < v.live.len()
    &&& v.live[i].worker != worker
    &&& v.live[i].hedge_of is None
    &&& v.live[i].claim.end - v.live[i].claim.cursor + 1 > 2 * piece(v)
}

/// `worker` may race live claim `i`: it is another's, neither is nor has a copy, and
/// owes 1 MiB or more.
pub open spec fn may_race(v: SchedulerView, worker: usize, i: int) -> bool {
    &&& 0 <= i < v.live.len()
    &&& v.live[i].worker != worker
    &&& v.live[i].hedge_of is None
    &&& v.live[i].claim.end - v.live[i].claim.cursor + 1 >= 1_048_576
    &&& forall|j: int|
        0 <= j < v.live.len() ==> (#[trigger] v.live[j]).hedge_of != Some(v.live[i].claim.start)
}

proof fn lemma_piece(v: SchedulerView)
    requires
        v.wf(),
    ensures
        v.min_frag() == piece(v),
        v.in_tail() == nearly_done(v),
{
    let n = v.max_threads;
    assert(n * 4 * 8_388_608 == n * 33_554_432) by (nonlinear_arith);
    assert(n * 4 * crate::schedule::MIN_FRAGMENT == n * 33_554_432);
}

/// What stealing does where nobody has begun to write what is not yet delivered.
proof fn lemma_stole(v: SchedulerView, worker: usize, mid: SchedulerView, stolen: Option<Claim>) -> (r:
    Option<int>)
    requires
        v.wf(),
        forall|k: int|
            0 <= k < v.live.len() ==> (#[trigger] v.live[k]).claim.reserved
                <= v.live[k].claim.cursor,
        v.stole(worker, mid, stolen),
    ensures
        stolen is None <==> r is None,
        r is None ==> mid == v && forall|j: int| !#[trigger] may_rob(v, worker, j),
        r is Some ==> v.victim_found(worker, 2 * v.min_frag(), r) && may_rob(v, worker, r->0) && (
        mid, stolen) == v.halved(worker, r->0),
{
    lemma_piece(v);
    let need = 2 * v.min_frag();
    let marked = v.robbable(worker, need);
    let rates = known_rates(v.live, v.now);
    let found = choose|found: Option<int>| #[trigger]
        v.victim_found(worker, need, found) && match found {
            Some(i) => (mid, stolen) == v.halved(worker, i),
            None => mid == v && stolen is None,
        };
    match found {
        Some(i) => {
            lemma_victim_is_robbable(v, worker, need, i);
            assert(v.live[i].claim.owed() > need);
            assert(v.live[i].claim.reserved <= v.live[i].claim.cursor);
        },
        None => {
            assert forall|j: int| !#[trigger] may_rob(v, worker, j) by {
                if may_rob(v, worker, j) {
                    assert(marked[j]);
                    if rates.len() >= 3 {
                        let sorted = choose|sorted: Seq<Rate>| #[trigger]
                            is_sorted_rates(sorted, rates) && v.victim_behind(
                                marked,
                                sorted[rates.len() as int / 2],
                                None,
                            );
                        let slow = v.stragglers(marked, sorted[rates.len() as int / 2]);
                        if exists|j: int| 0 <= j < slow.len() && #[trigger] slow[j] {
                            let s = choose|j: int| 0 <= j < slow.len() && #[trigger] slow[j];
                            assert(v.live[s].rate_at(v.now) is None);
                        }
                    }
                }
            }
        },
    }
    found
}

/// Where nothing is left to claim, a worker robs another that owes more than two of
/// the smallest pieces: the back half of what that one owes changes hands, so that
/// both owe the same, or one byte more or less. With fewer than three rates known, it
/// is one that owes most; and one that owes less is robbed only for being slower
/// than seven twentieths of the rate of some other.
#[verifier::rlimit(50)]
pub proof fn law_the_idle_take_half_from_the_busy(
    v: SchedulerView,
    worker: usize,
    after: SchedulerView,
    out: Option<Claim>,
    any: int,
) -> (i: int)
    requires
        v.wf(),
        v.within(),
        crate::schedule::laws::seamless(v),
        forall|k: int|
            0 <= k < v.live.len() ==> (#[trigger] v.live[k]).claim.reserved
                <= v.live[k].claim.cursor,
        v.claimed(worker, after, out),
        forall|b: int| !#[trigger] open_to(v, b),
        may_rob(v, worker, any),
    ensures
        ({
            let c = out->0;
            let robbed = v.live[i].claim;
            let keeps = after.live[i].claim;
            &&& out is Some
            &&& may_rob(v, worker, i)
            &&& keeps == (Claim { end: keeps.end, ..robbed })
            &&& keeps.end + 1 == c.start
            &&& c.end == robbed.end
            &&& c.cursor == c.start
            &&& 0 <= keeps.owed() - c.owed() <= 1
            &&& keeps.owed() + c.owed() == robbed.owed()
            &&& after == (SchedulerView {
                live: v.live.update(i, Live { claim: keeps, ..v.live[i] }).push(
                    Live {
                        worker,
                        claim: c,
                        started: v.now,
                        last_cursor: c.start,
                        last_progress: v.now,
                        hedge_of: None,
                    },
                ),
                ..v
            })
            &&& known_rates(v.live, v.now).len() < 3 ==> v.live[any].claim.owed() <= robbed.owed()
            &&& v.live[any].claim.owed() > robbed.owed() ==> v.live[i].rate_at(v.now) is Some
                && exists|r: Rate|
                known_rates(v.live, v.now).contains(r) && 100 * (v.live[i].rate_at(v.now)->0.bytes
                    * #[trigger] r.nanos) < 35 * (r.bytes * v.live[i].rate_at(v.now)->0.nanos)
        }),
{
    lemma_piece(v);
    lemma_nothing_open(v);
    let (mid, stolen) = choose|mid: SchedulerView, stolen: Option<Claim>| #[trigger]
        v.stole(worker, mid, stolen) && if stolen is Some {
            after == mid && out == stolen
        } else if mid.strategy is Throughput && mid.in_tail() {
            mid.hedged(worker, after, out)
        } else {
            after == mid && out is None
        };
    let found = lemma_stole(v, worker, mid, stolen);
    assert(may_rob(v, worker, any));
    let i = found->0;
    let robbed = v.live[i].claim;
    let need = 2 * v.min_frag();
    let marked = v.robbable(worker, need);
    let rates = known_rates(v.live, v.now);
    assert(marked[any]);
    assert(v.live_ok(v.live[i]));
    let split = (robbed.end - robbed.owed() / 2) as u64;
    assert(robbed.cursor <= split < robbed.end);
    assert(v.req_start <= robbed.start);
    crate::schedule::laws::lemma_same_volume(v, robbed.start, (split + 1) as u64);
    if rates.len() >= 3 {
        let sorted = choose|sorted: Seq<Rate>| #[trigger]
            is_sorted_rates(sorted, rates) && v.victim_behind(
                marked,
                sorted[rates.len() as int / 2],
                Some(i),
            );
        let median = sorted[rates.len() as int / 2];
        let slow = v.stragglers(marked, median);
        if exists|j: int| 0 <= j < slow.len() && #[trigger] slow[j] {
            assert(slow[i]);
            let mine = v.live[i].rate_at(v.now)->0;
            assert(mine.straggles(median));
            assert(rates.contains(median)) by {
                lemma_sorted_holds(sorted, rates, rates.len() as int / 2);
            }
            assert(100 * (mine.bytes * median.nanos) < 35 * (median.bytes * mine.nanos)) by {
                assert(20 * (mine.bytes * median.nanos) < 7 * (median.bytes * mine.nanos));
            }
        }
    }
    i
}

proof fn lemma_sorted_holds(sorted: Seq<Rate>, rates: Seq<Rate>, k: int)
    requires
        is_sorted_rates(sorted, rates),
        0 <= k < rates.len(),
    ensures
        rates.contains(sorted[k]),
{
    sorted.to_multiset_ensures();
    assert(sorted.len() == rates.len()) by {
        rates.to_multiset_ensures();
    }
    assert(sorted.to_multiset().contains(sorted[k])) by {
        assert(sorted.contains(sorted[k]));
    }
    rates.to_multiset_ensures();
}

/// With nothing to claim and nobody to rob, a worker may race another, and only for
/// throughput, when little is left and the budget has 1 MiB or more: it fetches what
/// that one still owes, as far as the budget goes, and the budget pays for it. The
/// claim that is raced stays as it is.
#[verifier::rlimit(50)]
pub proof fn law_racing_is_the_last_resort(
    v: SchedulerView,
    worker: usize,
    after: SchedulerView,
    out: Option<Claim>,
) -> (i: int)
    requires
        v.wf(),
        forall|k: int|
            0 <= k < v.live.len() ==> (#[trigger] v.live[k]).claim.reserved
                <= v.live[k].claim.cursor,
        v.claimed(worker, after, out),
        forall|b: int| !#[trigger] open_to(v, b),
        forall|j: int| !#[trigger] may_rob(v, worker, j),
    ensures
        out is Some <==> v.strategy is Throughput && nearly_done(v) && v.dup_budget >= 1_048_576 && (
        exists|j: int| #[trigger] may_race(v, worker, j)),
        out is None ==> after == v,
        ({
            let c = out->0;
            let target = v.live[i].claim;
            out is Some ==> {
                &&& may_race(v, worker, i)
                &&& c.start == target.cursor
                &&& c.cursor == c.start
                &&& c.issued == c.end - c.start + 1
                &&& c.issued == imin(target.end - target.cursor + 1, v.dup_budget as int)
                &&& after == (SchedulerView {
                    live: v.live.push(
                        Live {
                            worker,
                            claim: c,
                            started: v.now,
                            last_cursor: c.start,
                            last_progress: v.now,
                            hedge_of: Some(target.start),
                        },
                    ),
                    dup_budget: after.dup_budget,
                    ..v
                })
                &&& after.dup_budget + c.issued == v.dup_budget
                &&& forall|j: int| #[trigger]
                    may_race(v, worker, j) ==> match v.live[i].rate_at(v.now) {
                        Some(mine) => v.live[j].rate_at(v.now) is Some ==> mine.bytes
                            * v.live[j].rate_at(v.now)->0.nanos <= v.live[j].rate_at(v.now)->0.bytes
                            * mine.nanos,
                        None => v.live[j].rate_at(v.now) is None && v.live[j].claim.owed()
                            <= target.owed(),
                    }
            }
        }),
{
    lemma_piece(v);
    lemma_nothing_open(v);
    let (mid, stolen) = choose|mid: SchedulerView, stolen: Option<Claim>| #[trigger]
        v.stole(worker, mid, stolen) && if stolen is Some {
            after == mid && out == stolen
        } else if mid.strategy is Throughput && mid.in_tail() {
            mid.hedged(worker, after, out)
        } else {
            after == mid && out is None
        };
    let robbed = lemma_stole(v, worker, mid, stolen);
    if robbed is Some {
        assert(may_rob(v, worker, robbed->0));
    }
    let marked = v.hedgeable(worker);
    assert forall|j: int| #[trigger] may_race(v, worker, j) implies marked[j] by {}
    assert forall|j: int| 0 <= j < v.live.len() && #[trigger] marked[j] implies may_race(
        v,
        worker,
        j,
    ) by {}
    if v.strategy is Throughput && nearly_done(v) && v.dup_budget >= 1_048_576 {
        let found = choose|found: Option<int>| #[trigger]
            v.hedge_found(worker, found) && match found {
                Some(i) => (after, out) == v.raced(worker, i),
                None => after == v && out is None,
            };
        if exists|j: int| #[trigger] may_race(v, worker, j) {
            let j = choose|j: int| #[trigger] may_race(v, worker, j);
            assert(marked[j]);
        }
        match found {
            Some(i) => {
                assert(marked[i]);
                assert(v.live_ok(v.live[i]));
                i
            },
            None => 0,
        }
    } else {
        0
    }
}

/// `len` is an even share of `amount` among `slots`, but no less than `least`.
pub open spec fn fair(len: int, amount: int, slots: int, least: int) -> bool {
    &&& len >= least
    &&& len * slots >= amount
    &&& len == least || (len - 1) * slots < amount
}

/// How long claims are, before any limit: for throughput, an even share of what is
/// unclaimed among the threads that are free; where latency counts, no more than
/// that, and otherwise what one thread's part of the buffered bytes allows, and at
/// least the first claim's length.
#[verifier::rlimit(50)]
pub proof fn law_claims_are_even_shares(v: SchedulerView) -> (share: int)
    requires
        v.wf(),
        v.auto_limit is None,
        v.split_cap is None,
    ensures
        fair(
            share,
            total(v.unclaimed),
            if v.max_threads > v.live.len() {
                v.max_threads - v.live.len()
            } else {
                1
            },
            piece(v),
        ),
        match v.strategy {
            Strategy::Throughput => v.claim_len() == share,
            Strategy::Latency { head_claim, .. } => {
                &&& v.claim_len() <= share
                &&& v.claim_len() >= 1
                &&& v.claim_len() == share || v.claim_len() >= head_claim
                &&& v.claim_len() == share || (v.claim_len() + 1) * v.max_threads > v.buffered
                &&& v.claim_len() <= 1 || v.claim_len() <= head_claim || v.claim_len()
                    * v.max_threads <= v.buffered
            },
        },
{
    lemma_piece(v);
    crate::ranges::lemma_total_bound(v.unclaimed);
    let slots = imax(v.max_threads - v.live.len(), 1);
    let t = total(v.unclaimed);
    let q = crate::num::ceil_div(t, slots);
    let share = v.even_share();
    assert(q * slots >= t && (t > 0 ==> (q - 1) * slots < t) && q >= 0) by {
        lemma_ceil(t, slots);
    }
    if q >= piece(v) {
        assert(t > 0) by {
            if t == 0 {
                lemma_ceil(t, slots);
            }
        }
    } else {
        let m = piece(v);
        assert(m * slots >= q * slots) by (nonlinear_arith)
            requires
                m >= q,
                slots >= 1,
        ;
    }
    if v.strategy is Latency {
        let n = v.max_threads;
        let b = v.buffered as int;
        let d = b / n;
        assert(d * n <= b < (d + 1) * n) by (nonlinear_arith)
            requires
                d == b / n,
                n >= 1,
        ;
        let len = v.claim_len();
        assert(d <= len ==> (d + 1) * n <= (len + 1) * n) by (nonlinear_arith)
            requires
                n >= 1,
        ;
        assert(0 <= len <= d ==> len * n <= d * n) by (nonlinear_arith)
            requires
                n >= 1,
        ;
    }
    share
}

proof fn lemma_ceil(t: int, n: int)
    requires
        t >= 0,
        n >= 1,
    ensures
        crate::num::ceil_div(t, n) * n >= t,
        t > 0 ==> (crate::num::ceil_div(t, n) - 1) * n < t,
        t == 0 ==> crate::num::ceil_div(t, n) == 0,
        crate::num::ceil_div(t, n) >= 0,
{
    let q = crate::num::ceil_div(t, n);
    let d = t / n;
    let m = t % n;
    assert(d * n + m == t && 0 <= m < n && d >= 0) by (nonlinear_arith)
        requires
            d == t / n,
            m == t % n,
            t >= 0,
            n >= 1,
    ;
    assert((d + 1) * n == d * n + n) by (nonlinear_arith);
    assert((d - 1) * n == d * n - n) by (nonlinear_arith);
    if t == 0 {
        assert(d == 0) by (nonlinear_arith)
            requires
                d == t / n,
                t == 0,
                n >= 1,
        ;
    }
}

/// Neither what an origin has been found to bear nor the cap is exceeded; a claim is
/// shorter than it would be without them only by running into one of them.
pub proof fn law_limits_only_shorten_claims(v: SchedulerView)
    requires
        v.wf(),
    ensures
        ({
            let free = SchedulerView { auto_limit: None, split_cap: None, ..v };
            &&& 1 <= v.claim_len() <= free.claim_len()
            &&& v.auto_limit is Some && v.auto_limit->0 > 0 ==> v.claim_len() <= v.auto_limit->0
            &&& v.split_cap is Some ==> v.claim_len() <= v.split_cap->0
            &&& v.claim_len() < free.claim_len() ==> (v.auto_limit is Some && v.claim_len()
                >= v.auto_limit->0) || (v.split_cap is Some && v.claim_len() >= v.split_cap->0)
        }),
{
    let free = SchedulerView { auto_limit: None, split_cap: None, ..v };
    assert(free.even_share() == v.even_share());
}

/// What is left counts every byte of every claim that owns its range, from the next
/// one to be delivered to the last, and nothing of a copy.
pub proof fn law_what_is_owed_adds_up(live: Seq<Live>, l: Live)
    ensures
        owed_by(Seq::<Live>::empty()) == 0,
        l.hedge_of is Some || l.claim.cursor > l.claim.end ==> owed_by(live.push(l)) == owed_by(live),
        l.hedge_of is None && l.claim.cursor <= l.claim.end ==> owed_by(live.push(l)) == owed_by(
            live,
        ) + l.claim.end + 1 - l.claim.cursor,
        l.claim.owed() == 0 <==> l.claim.cursor > l.claim.end,
        l.claim.cursor <= l.claim.end ==> l.claim.cursor + l.claim.owed() == l.claim.end + 1,
{
    assert(live.push(l).drop_last() =~= live);
}

/// A rate is known once a claim has run for two seconds or delivered 512 KiB, and is
/// what it delivered in the time that it ran, taken as a millisecond at least.
pub proof fn law_a_rate_is_what_was_delivered_in_time(l: Live, now: u64)
    requires
        l.claim.start <= l.claim.cursor,
        l.started <= now,
    ensures
        l.rate_at(now) is Some <==> now - l.started >= 2_000_000_000 || l.claim.cursor
            - l.claim.start >= 524_288,
        l.rate_at(now) is Some ==> l.claim.start + l.rate_at(now)->0.bytes == l.claim.cursor,
        l.rate_at(now) is Some && now - l.started >= 1_000_000 ==> l.started + l.rate_at(
            now,
        )->0.nanos == now,
        l.rate_at(now) is Some && now - l.started < 1_000_000 ==> l.rate_at(now)->0.nanos
            == 1_000_000,
{
}

/// In the same time, fewer bytes is slower; with the same bytes, more time is slower;
/// and of two rates at most one is slower. Whoever delivers 34 hundredths of a rate
/// straggles behind it, and whoever delivers 35 does not.
pub proof fn law_slower_is_fewer_bytes_in_more_time(p: Rate, q: Rate)
    requires
        p.nanos > 0,
        q.nanos > 0,
    ensures
        p.nanos == q.nanos ==> (p.slower(q) <==> p.bytes < q.bytes),
        p.bytes == q.bytes && p.bytes > 0 ==> (p.slower(q) <==> p.nanos > q.nanos),
        !(p.slower(q) && q.slower(p)),
        !p.slower(p),
        p.nanos == q.nanos ==> (p.straggles(q) <==> 100 * p.bytes < 35 * q.bytes),
{
    let a = p.bytes as int;
    let b = q.bytes as int;
    let n = p.nanos as int;
    let m = q.nanos as int;
    assert((a * n < b * n) == (a < b)) by (nonlinear_arith)
        requires
            n > 0,
    ;
    assert(a > 0 ==> ((a * m < a * n) == (m < n))) by (nonlinear_arith);
    assert((20 * (a * n) < 7 * (b * n)) == (100 * a < 35 * b)) by (nonlinear_arith)
        requires
            n > 0,
    ;
}

/// The rates that are known are those of the live claims.
pub proof fn law_known_rates_are_those_of_the_claims(live: Seq<Live>, now: u64, k: int)
    requires
        0 <= k < live.len(),
        live[k].rate_at(now) is Some,
    ensures
        known_rates(live, now).contains(live[k].rate_at(now)->0),
        known_rates(live, now).len() <= live.len(),
    decreases live.len(),
{
    let front = known_rates(live.drop_last(), now);
    lemma_known_len(live, now);
    if k < live.len() - 1 {
        law_known_rates_are_those_of_the_claims(live.drop_last(), now, k);
        let i = choose|i: int| 0 <= i < front.len() && front[i] == live[k].rate_at(now)->0;
        assert(known_rates(live, now)[i] == live[k].rate_at(now)->0);
    } else {
        assert(known_rates(live, now).last() == live[k].rate_at(now)->0);
    }
}

proof fn lemma_known_len(live: Seq<Live>, now: u64)
    ensures
        known_rates(live, now).len() <= live.len(),
    decreases live.len(),
{
    if live.len() > 0 {
        lemma_known_len(live.drop_last(), now);
    }
}

/// Claims in a volume are counted one by one.
pub proof fn law_claims_in_a_volume_are_counted(live: Seq<Live>, l: Live, volume: usize)
    ensures
        count_in_volume(Seq::<Live>::empty(), volume) == 0,
        l.claim.volume == volume ==> count_in_volume(live.push(l), volume) == count_in_volume(
            live,
            volume,
        ) + 1,
        l.claim.volume != volume ==> count_in_volume(live.push(l), volume) == count_in_volume(
            live,
            volume,
        ),
{
    assert(live.push(l).drop_last() =~= live);
}

/// For throughput, a volume that has its share of claims is passed over while bytes
/// begin in one that has not.
pub proof fn law_a_volume_with_its_share_is_passed_over(
    v: SchedulerView,
    worker: usize,
    after: SchedulerView,
    out: Option<Claim>,
    b: u64,
)
    requires
        v.wf(),
        v.strategy is Throughput,
        v.claimed(worker, after, out),
        open_to(v, b as int),
        !open_to(v, b - 1),
        count_in_volume(v.live, v.volume_of(b)) < v.max_per_volume,
    ensures
        out is Some,
        count_in_volume(v.live, out->0.volume) < v.max_per_volume,
{
    lemma_none_to_take(v, b as int);
    let (k, i) = lemma_took(v, worker, after, out);
    let g = choose|g: int|
        0 <= g < v.unclaimed.len() && (#[trigger] v.unclaimed[g]).0 <= b <= v.unclaimed[g].1;
    let p = v.passes()[0];
    assert(p.respect_cap && !p.nearest);
    assert(v.gap_start(p, g) == b) by {
        if v.unclaimed[g].0 < b && p.lo < b {
            assert(covers(v.unclaimed, b - 1));
            assert(open_to(v, b - 1));
        }
    }
    assert(v.overlaps(p, g));
    assert(v.open_gap(p, g));
    if k > 0 {
        assert(v.gap_found(v.passes()[0], None));
    }
}

} // verus!
