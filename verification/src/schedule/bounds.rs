//! Where claims lie: inside the request, and each in one volume.

use super::laws::{
    exclusive, law_claiming_loses_no_byte_and_owes_none_twice, lemma_same_volume,
    lemma_victim_is_robbable, owes, seamless,
};
use super::{
    first_live, held_by, lemma_first_live, lemma_given_back_wf, lemma_halved_wf,
    lemma_taken_wf, lemma_with_end_wf, lemma_without, lemma_without_live_wf, owed_by, Claim, Live,
    SchedulerView, Strategy, MIN_CLAIM,
};
use crate::engine::{lemma_volume_from, volume_from, VolumeMeta};
use crate::num::imax;
use crate::ranges::{
    canonical, covers, lemma_insert_range, lemma_remove_range, lemma_remove_total, total,
};
use vstd::prelude::*;

verus! {

/// A list whose bytes all lie from `low` on has no range before it.
proof fn lemma_low(l: Seq<(u64, u64)>, low: u64)
    requires
        canonical(l),
        forall|b: int| #[trigger] covers(l, b) ==> low <= b,
    ensures
        forall|i: int| 0 <= i < l.len() ==> low <= (#[trigger] l[i]).0,
{
    assert forall|i: int| 0 <= i < l.len() implies low <= (#[trigger] l[i]).0 by {
        assert(covers(l, l[i].0 as int));
    }
}

proof fn lemma_given_back_within(v: SchedulerView, s: int, e: u64)
    requires
        v.wf(),
        v.within(),
        v.req_start <= s,
    ensures
        v.given_back(s, e).within(),
{
    if s <= e {
        let after = v.given_back(s, e);
        lemma_insert_range(v.unclaimed, s as u64, e);
        assert forall|b: int| #[trigger] covers(after.unclaimed, b) implies v.req_start <= b by {
            if covers(v.unclaimed, b) {
                let i = choose|i: int|
                    0 <= i < v.unclaimed.len() && (#[trigger] v.unclaimed[i]).0 <= b
                        <= v.unclaimed[i].1;
                assert(v.req_start <= v.unclaimed[i].0);
            }
        }
        lemma_low(after.unclaimed, v.req_start);
    }
}

proof fn lemma_without_live_within(v: SchedulerView, i: int)
    requires
        v.within(),
        0 <= i < v.live.len(),
    ensures
        v.without_live(i).within(),
{
    let after = v.without_live(i);
    assert forall|k: int| 0 <= k < after.live.len() implies v.req_start <= (
    #[trigger] after.live[k]).claim.start by {
        if k < i {
            assert(after.live[k] == v.live[k]);
        } else {
            assert(after.live[k] == v.live[k + 1]);
        }
    }
}

/// What a list is opened with lies in the request.
pub proof fn law_an_opened_request_holds_nothing_else(
    req_start: u64,
    req_end: u64,
    strategy: Strategy,
    volumes: Seq<VolumeMeta>,
    max_threads: int,
    max_per_volume: int,
    split_cap: Option<u64>,
    staged: Seq<(u64, u64)>,
)
    ensures
        ({
            let v = SchedulerView::opening(
                req_start,
                req_end,
                strategy,
                volumes,
                max_threads,
                max_per_volume,
                split_cap,
                staged,
            );
            v.within() && exclusive(v)
        }),
{
    let v = SchedulerView::opening(
        req_start,
        req_end,
        strategy,
        volumes,
        max_threads,
        max_per_volume,
        split_cap,
        staged,
    );
    let whole = if req_start <= req_end {
        seq![(req_start, req_end)]
    } else {
        seq![]
    };
    lemma_without(whole, staged);
    assert forall|b: int| #[trigger] covers(v.unclaimed, b) implies req_start <= b by {
        assert(covers(whole, b));
    }
    lemma_low(v.unclaimed, req_start);
}

/// The claim lies in the request and, where there are volumes, in the one it names.
pub open spec fn placed(v: SchedulerView, c: Claim) -> bool {
    &&& v.req_start <= c.start <= c.end <= v.req_end
    &&& c.issued == c.end - c.start + 1
    &&& v.volumes.len() > 0 ==> {
        &&& 0 <= c.volume < v.volumes.len()
        &&& v.volumes[c.volume as int].offset <= c.start
        &&& c.end < v.volumes[c.volume as int].offset + v.volumes[c.volume as int].size
    }
}

proof fn lemma_took_within(
    v: SchedulerView,
    worker: usize,
    after: SchedulerView,
    out: Option<Claim>,
)
    requires
        v.wf(),
        v.within(),
        seamless(v),
        v.volumes.len() <= usize::MAX,
        v.took(worker, after, out),
    ensures
        after.within(),
        out is Some ==> placed(v, out->0),
{
    let (k, i) = choose|k: int, i: int|
        {
            &&& 0 <= k < v.passes().len()
            &&& #[trigger] v.gap_found(v.passes()[k], Some(i))
            &&& forall|j: int| 0 <= j < k ==> v.gap_found(#[trigger] v.passes()[j], None)
            &&& after == v.taken(worker, v.passes()[k], i)
            &&& out == Some(
                v.fresh_claim(v.gap_start(v.passes()[k], i), v.take_end(v.passes()[k], i)),
            )
        };
    let p = v.passes()[k];
    assert(v.open_gap(p, i));
    assert(v.pass_ok(p));
    lemma_taken_wf(v, worker, p, i);
    let start = v.gap_start(p, i);
    let end = v.take_end(p, i);
    assert(v.req_start <= v.unclaimed[i].0);
    assert(v.unclaimed[i].1 <= v.req_end);
    lemma_remove_range(v.unclaimed, start, end);
    assert(v.req_start <= v.unclaimed[0].0);
    lemma_names_its_volume(v, start, end);
    assert forall|k: int| 0 <= k < after.live.len() implies v.req_start <= (
    #[trigger] after.live[k]).claim.start by {
        if k < v.live.len() {
            assert(after.live[k] == v.live[k]);
        }
    }
}

/// The same request in the same volumes.
pub open spec fn same_request(v: SchedulerView, after: SchedulerView) -> bool {
    after.volumes == v.volumes && after.req_start == v.req_start && after.req_end == v.req_end
}

proof fn lemma_stole_within(
    v: SchedulerView,
    worker: usize,
    mid: SchedulerView,
    stolen: Option<Claim>,
)
    requires
        v.wf(),
        v.within(),
        seamless(v),
        v.volumes.len() <= usize::MAX,
        v.stole(worker, mid, stolen),
    ensures
        mid.wf(),
        mid.within(),
        same_request(v, mid),
        stolen is Some ==> placed(v, stolen->0),
{
    let need = 2 * v.min_frag();
    let found = choose|found: Option<int>| #[trigger]
        v.victim_found(worker, need, found) && match found {
            Some(i) => (mid, stolen) == v.halved(worker, i),
            None => mid == v && stolen is None,
        };
    if let Some(i) = found {
        lemma_victim_is_robbable(v, worker, need, i);
        lemma_halved_wf(v, worker, i);
        lemma_halved_within(v, worker, i);
    }
}

proof fn lemma_hedged_within(
    v: SchedulerView,
    worker: usize,
    after: SchedulerView,
    out: Option<Claim>,
)
    requires
        v.wf(),
        v.within(),
        seamless(v),
        v.volumes.len() <= usize::MAX,
        v.hedged(worker, after, out),
    ensures
        after.within(),
        out is Some ==> placed(v, out->0),
{
    if v.dup_budget >= MIN_CLAIM {
        let raced = choose|found: Option<int>| #[trigger]
            v.hedge_found(worker, found) && match found {
                Some(i) => (after, out) == v.raced(worker, i),
                None => after == v && out is None,
            };
        if let Some(i) = raced {
            assert(v.hedgeable(worker)[i]);
            lemma_raced_within(v, worker, i);
        }
    }
}

/// A claim lies in the request and, where the volumes hold every byte of it once,
/// wholly in the volume that it names, a racing copy too; and nothing that is
/// claimed or unclaimed afterwards lies before the request.
pub proof fn law_a_claim_lies_in_the_request_and_in_one_volume(
    v: SchedulerView,
    worker: usize,
    after: SchedulerView,
    out: Option<Claim>,
)
    requires
        v.wf(),
        v.within(),
        seamless(v),
        v.volumes.len() <= usize::MAX,
        v.claimed(worker, after, out),
    ensures
        after.within(),
        out is Some ==> placed(v, out->0),
{
    if !v.none_to_take() {
        lemma_took_within(v, worker, after, out);
    } else {
        let (mid, stolen) = choose|mid: SchedulerView, stolen: Option<Claim>| #[trigger]
            v.stole(worker, mid, stolen) && if stolen is Some {
                after == mid && out == stolen
            } else if mid.strategy is Throughput && mid.in_tail() {
                mid.hedged(worker, after, out)
            } else {
                after == mid && out is None
            };
        lemma_stole_within(v, worker, mid, stolen);
        assert(seamless(mid));
        if stolen is None && mid.strategy is Throughput && mid.in_tail() {
            lemma_hedged_within(mid, worker, after, out);
        }
    }
}

/// A range that does not reach past the volume of its first byte lies in the volume
/// that the claim names.
proof fn lemma_names_its_volume(v: SchedulerView, start: u64, end: u64)
    requires
        v.wf(),
        seamless(v),
        v.volumes.len() <= usize::MAX,
        v.req_start <= start <= end <= v.req_end,
        end <= v.volume_last(start),
    ensures
        v.volumes.len() > 0 ==> {
            let n = v.fresh_claim(start, end).volume as int;
            &&& 0 <= n < v.volumes.len()
            &&& v.volumes[n].offset <= start
            &&& end < v.volumes[n].offset + v.volumes[n].size
        },
{
    lemma_volume_from(v.volumes, start as int, 0);
    if v.volumes.len() > 0 {
        assert(volume_from(v.volumes, start as int, 0) is Some);
        assert(v.volumes[volume_from(v.volumes, start as int, 0)->0].holds(start as int));
    }
}

proof fn lemma_halved_within(v: SchedulerView, worker: usize, i: int)
    requires
        v.wf(),
        v.within(),
        seamless(v),
        v.volumes.len() <= usize::MAX,
        0 <= i < v.live.len(),
        v.live[i].hedge_of is None,
        v.live[i].claim.owed() >= 2,
    ensures
        v.halved(worker, i).0.within(),
        v.halved(worker, i).0.volumes == v.volumes,
        v.halved(worker, i).0.req_start == v.req_start,
        v.halved(worker, i).0.req_end == v.req_end,
        v.halved(worker, i).1 is Some ==> placed(v, v.halved(worker, i).1->0),
{
    let after = v.halved(worker, i).0;
    assert(v.live_ok(v.live[i]));
    lemma_halved_wf(v, worker, i);
    assert(v.req_start <= v.live[i].claim.start);
    if v.halved(worker, i).1 is Some {
        let c = v.halved(worker, i).1->0;
        lemma_names_its_volume(v, c.start, c.end);
    }
    assert forall|k: int| 0 <= k < after.live.len() implies v.req_start <= (
    #[trigger] after.live[k]).claim.start by {
        if k < v.live.len() {
            assert(after.live[k].claim.start == v.live[k].claim.start);
        }
    }
}

proof fn lemma_raced_within(v: SchedulerView, worker: usize, i: int)
    requires
        v.wf(),
        v.within(),
        seamless(v),
        v.volumes.len() <= usize::MAX,
        0 <= i < v.live.len(),
        v.live[i].hedge_of is None,
        v.live[i].claim.owed() >= MIN_CLAIM,
        v.dup_budget >= MIN_CLAIM,
    ensures
        v.raced(worker, i).0.within(),
        v.raced(worker, i).1 is Some ==> placed(v, v.raced(worker, i).1->0),
{
    let (after, out) = v.raced(worker, i);
    let target = v.live[i].claim;
    assert(v.live_ok(v.live[i]));
    assert(v.req_start <= target.start);
    if out is Some {
        let c = out->0;
        assert(c.start == target.cursor && c.end <= target.end);
        assert(target.cursor <= target.start + target.issued - 1);
        lemma_same_volume(v, target.start, c.start);
        lemma_names_its_volume(v, c.start, c.end);
    }
    assert forall|k: int| 0 <= k < after.live.len() implies v.req_start <= (
    #[trigger] after.live[k]).claim.start by {
        if k < v.live.len() {
            assert(after.live[k] == v.live[k]);
        }
    }
}

/// A worker that is finished with its claim, at a byte that is not before the
/// request, leaves nothing before the request.
pub proof fn law_finishing_stays_in_the_request(v: SchedulerView, worker: usize, reached: u64)
    requires
        v.wf(),
        v.within(),
        v.req_start <= reached,
    ensures
        v.finished(worker, reached).within(),
{
    lemma_first_live(v.live, held_by(worker), 0);
    if let Some(i) = first_live(v.live, held_by(worker), 0) {
        let l = v.live[i];
        let rest = v.without_live(i);
        lemma_without_live_wf(v, i);
        lemma_without_live_within(v, i);
        assert(v.live_ok(l));
        if reached <= l.claim.end && l.hedge_of is None {
            lemma_given_back_within(rest, reached as int, l.claim.end);
        } else if reached > l.claim.end {
            let wanted = match l.hedge_of {
                Some(start) => super::owner_of(start),
                None => super::copy_of(l.claim.start),
            };
            lemma_first_live(rest.live, wanted, 0);
            let after = v.finished(worker, reached);
            assert(after == rest.cut_short(wanted));
            assert forall|k: int| 0 <= k < after.live.len() implies v.req_start <= (
            #[trigger] after.live[k]).claim.start by {
                assert(after.live[k].claim.start == rest.live[k].claim.start);
            }
        }
    }
}

/// Writing, or announcing it, leaves nothing before the request.
pub proof fn law_delivering_stays_in_the_request(v: SchedulerView, worker: usize, next: u64)
    requires
        v.within(),
    ensures
        v.announced(worker, next).within(),
        v.landed(worker, next).within(),
{
    lemma_first_live(v.live, held_by(worker), 0);
    let a = v.announced(worker, next);
    let b = v.landed(worker, next);
    assert forall|k: int| 0 <= k < a.live.len() implies v.req_start <= (
    #[trigger] a.live[k]).claim.start by {
        assert(a.live[k].claim.start == v.live[k].claim.start);
    }
    assert forall|k: int| 0 <= k < b.live.len() implies v.req_start <= (
    #[trigger] b.live[k]).claim.start by {
        assert(b.live[k].claim.start == v.live[k].claim.start);
    }
}

/// Refocusing leaves nothing before the request.
pub proof fn law_refocusing_stays_in_the_request(v: SchedulerView, window: u64, i: int)
    requires
        v.wf(),
        v.within(),
        0 <= i <= v.live.len(),
    ensures
        v.refocused(window, i).0.within(),
    decreases v.live.len() - i,
{
    if i < v.live.len() {
        let l = v.live[i];
        let c = l.claim;
        let keep = c.cursor + v.claim_len() - 1;
        assert(v.live_ok(l));
        assert(v.req_start <= c.start);
        if c.cursor > c.end {
            law_refocusing_stays_in_the_request(v, window, i + 1);
        } else if v.misplaced(l, window) {
            let cut = v.without_live(i);
            lemma_without_live_wf(v, i);
            lemma_without_live_within(v, i);
            if l.hedge_of is None {
                lemma_given_back_wf(cut, c.cursor as int, c.end);
                lemma_given_back_within(cut, c.cursor as int, c.end);
                law_refocusing_stays_in_the_request(
                    cut.given_back(c.cursor as int, c.end),
                    window,
                    i,
                );
            } else {
                law_refocusing_stays_in_the_request(cut, window, i);
            }
        } else if l.hedge_of is None && keep < c.end {
            let cut = v.with_end(i, keep as u64);
            let from = imax(keep + 1, c.reserved as int);
            lemma_with_end_wf(v, i, keep as u64);
            assert forall|k: int| 0 <= k < cut.live.len() implies v.req_start <= (
            #[trigger] cut.live[k]).claim.start by {
                assert(cut.live[k].claim.start == v.live[k].claim.start);
            }
            lemma_given_back_wf(cut, from, c.end);
            lemma_given_back_within(cut, from, c.end);
            law_refocusing_stays_in_the_request(cut.given_back(from, c.end), window, i + 1);
        } else {
            law_refocusing_stays_in_the_request(v, window, i + 1);
        }
    }
}

/// A sweep for dead claims leaves nothing before the request.
pub proof fn law_sweeping_stays_in_the_request(v: SchedulerView, i: int)
    requires
        v.wf(),
        v.within(),
        0 <= i <= v.live.len(),
    ensures
        v.swept(i).0.within(),
    decreases v.live.len() - i,
{
    if i < v.live.len() {
        let l = v.live[i];
        let c = l.claim;
        assert(v.live_ok(l));
        assert(v.req_start <= c.start);
        if c.cursor > l.last_cursor || c.cursor > c.end {
            let seen = SchedulerView {
                live: v.live.update(
                    i,
                    Live { last_cursor: c.cursor, last_progress: v.now, ..l },
                ),
                ..v
            };
            assert forall|k: int| 0 <= k < seen.live.len() implies seen.live_ok(
                #[trigger] seen.live[k],
            ) && v.req_start <= seen.live[k].claim.start by {
                assert(v.live_ok(v.live[k]));
                assert(seen.live[k].claim.start == v.live[k].claim.start);
            }
            law_sweeping_stays_in_the_request(seen, i + 1);
        } else if v.now - l.last_progress < super::DEAD_CLAIM_WINDOW {
            law_sweeping_stays_in_the_request(v, i + 1);
        } else {
            let cut = v.without_live(i);
            lemma_without_live_wf(v, i);
            lemma_without_live_within(v, i);
            if l.hedge_of is None {
                lemma_given_back_wf(cut, c.cursor as int, c.end);
                lemma_given_back_within(cut, c.cursor as int, c.end);
                law_sweeping_stays_in_the_request(cut.given_back(c.cursor as int, c.end), i);
            } else {
                law_sweeping_stays_in_the_request(cut, i);
            }
        }
    }
}

/// The bytes that are unclaimed and those that the claims themselves (no copies)
/// still owe, together.
pub open spec fn work(v: SchedulerView) -> int {
    total(v.unclaimed) + owed_by(v.live)
}

/// No claim has announced writes past what it has delivered.
pub open spec fn unreserved(v: SchedulerView) -> bool {
    forall|i: int|
        0 <= i < v.live.len() ==> (#[trigger] v.live[i]).claim.reserved <= v.live[i].claim.cursor
}

proof fn lemma_owed_push(live: Seq<Live>, l: Live)
    ensures
        owed_by(live.push(l)) == owed_by(live) + if l.hedge_of is None {
            l.claim.owed()
        } else {
            0
        },
{
    assert(live.push(l).drop_last() =~= live);
}

/// What the claims owe changes by what one of them does.
proof fn lemma_owed_update(live: Seq<Live>, i: int, l: Live)
    requires
        0 <= i < live.len(),
        l.hedge_of is None,
        live[i].hedge_of is None,
    ensures
        owed_by(live.update(i, l)) == owed_by(live) - live[i].claim.owed() + l.claim.owed(),
    decreases live.len(),
{
    let after = live.update(i, l);
    if i == live.len() - 1 {
        assert(after.drop_last() =~= live.drop_last());
    } else {
        lemma_owed_update(live.drop_last(), i, l);
        assert(after.drop_last() =~= live.drop_last().update(i, l));
        assert(after.last() == live.last());
    }
}

/// Nothing has changed in the sum, and a new claim stands at the end.
pub open spec fn moved(v: SchedulerView, after: SchedulerView, out: Option<Claim>) -> bool {
    &&& work(after) == work(v)
    &&& after.live.len() == v.live.len() + if out is Some {
        1int
    } else {
        0
    }
    &&& out is Some ==> after.live.last().claim == out->0 && out->0.cursor == out->0.start
}

proof fn lemma_took_moves(
    v: SchedulerView,
    worker: usize,
    after: SchedulerView,
    out: Option<Claim>,
)
    requires
        v.wf(),
        v.took(worker, after, out),
    ensures
        moved(v, after, out),
{
    let (k, i) = choose|k: int, i: int|
        {
            &&& 0 <= k < v.passes().len()
            &&& #[trigger] v.gap_found(v.passes()[k], Some(i))
            &&& forall|j: int| 0 <= j < k ==> v.gap_found(#[trigger] v.passes()[j], None)
            &&& after == v.taken(worker, v.passes()[k], i)
            &&& out == Some(
                v.fresh_claim(v.gap_start(v.passes()[k], i), v.take_end(v.passes()[k], i)),
            )
        };
    let p = v.passes()[k];
    assert(v.open_gap(p, i));
    assert(v.pass_ok(p));
    lemma_taken_wf(v, worker, p, i);
    let start = v.gap_start(p, i);
    let end = v.take_end(p, i);
    assert forall|b: int| start <= b <= end implies covers(v.unclaimed, b) by {
        assert(v.unclaimed[i].0 <= b <= v.unclaimed[i].1);
    }
    lemma_remove_total(v.unclaimed, start, end);
    lemma_owed_push(v.live, v.fresh_live(worker, start, end, None));
}

proof fn lemma_stole_moves(
    v: SchedulerView,
    worker: usize,
    mid: SchedulerView,
    stolen: Option<Claim>,
)
    requires
        v.wf(),
        v.within(),
        seamless(v),
        unreserved(v),
        v.stole(worker, mid, stolen),
    ensures
        moved(v, mid, stolen),
{
    let need = 2 * v.min_frag();
    let found = choose|found: Option<int>| #[trigger]
        v.victim_found(worker, need, found) && match found {
            Some(i) => (mid, stolen) == v.halved(worker, i),
            None => mid == v && stolen is None,
        };
    if let Some(i) = found {
        lemma_victim_is_robbable(v, worker, need, i);
        lemma_halved_work(v, worker, i);
    }
}

proof fn lemma_hedged_moves(
    v: SchedulerView,
    worker: usize,
    after: SchedulerView,
    out: Option<Claim>,
)
    requires
        v.hedged(worker, after, out),
    ensures
        moved(v, after, out),
{
    if v.dup_budget >= MIN_CLAIM {
        let raced = choose|found: Option<int>| #[trigger]
            v.hedge_found(worker, found) && match found {
                Some(i) => (after, out) == v.raced(worker, i),
                None => after == v && out is None,
            };
        if let Some(i) = raced {
            if out is Some {
                let l = after.live.last();
                assert(after.live =~= v.live.push(l));
                lemma_owed_push(v.live, l);
            }
        }
    }
}

/// A claim moves bytes, it makes and loses none: what is unclaimed and what is owed
/// add up to the same number as before, where no claim has announced writes past
/// what it has delivered. A claim that is not a copy shares no byte with what is
/// left unclaimed or with what another claim still owes.
pub proof fn law_a_claim_moves_bytes_and_makes_none(
    v: SchedulerView,
    worker: usize,
    after: SchedulerView,
    out: Option<Claim>,
)
    requires
        v.wf(),
        v.within(),
        seamless(v),
        unreserved(v),
        v.claimed(worker, after, out),
    ensures
        work(after) == work(v),
        exclusive(v) ==> exclusive(after),
        out is Some ==> after.live.len() == v.live.len() + 1 && after.live.last().claim == out->0,
        exclusive(v) && out is Some && after.live.last().hedge_of is None ==> forall|b: int|
            out->0.start <= b <= out->0.end ==> !(#[trigger] covers(after.unclaimed, b)) && forall|
                k: int,
            |
                0 <= k < v.live.len() ==> !(#[trigger] owes(after.live[k], b)),
{
    law_claiming_loses_no_byte_and_owes_none_twice(v, worker, after, out);
    if !v.none_to_take() {
        lemma_took_moves(v, worker, after, out);
    } else {
        let (mid, stolen) = choose|mid: SchedulerView, stolen: Option<Claim>| #[trigger]
            v.stole(worker, mid, stolen) && if stolen is Some {
                after == mid && out == stolen
            } else if mid.strategy is Throughput && mid.in_tail() {
                mid.hedged(worker, after, out)
            } else {
                after == mid && out is None
            };
        lemma_stole_moves(v, worker, mid, stolen);
        if stolen is None && mid.strategy is Throughput && mid.in_tail() {
            lemma_hedged_moves(mid, worker, after, out);
        }
    }
    assert(moved(v, after, out));
    if exclusive(v) && out is Some && after.live.last().hedge_of is None {
        let n = after.live.len() - 1;
        assert forall|b: int| out->0.start <= b <= out->0.end implies !(#[trigger] covers(
            after.unclaimed,
            b,
        )) && forall|k: int| 0 <= k < v.live.len() ==> !(#[trigger] owes(after.live[k], b)) by {
            assert(owes(after.live[n], b));
        }
    }
}

proof fn lemma_halved_work(v: SchedulerView, worker: usize, i: int)
    requires
        v.wf(),
        v.within(),
        seamless(v),
        unreserved(v),
        0 <= i < v.live.len(),
        v.live[i].hedge_of is None,
        v.live[i].claim.owed() >= 2,
    ensures
        ({
            let (after, out) = v.halved(worker, i);
            &&& out is Some
            &&& work(after) == work(v)
            &&& after.live.len() == v.live.len() + 1
            &&& after.live.last().claim == out->0
            &&& out->0.cursor == out->0.start
        }),
{
    let l = v.live[i];
    let c = l.claim;
    assert(v.live_ok(l));
    assert(v.req_start <= c.start);
    let split = (c.end - c.owed() / 2) as u64;
    assert(c.cursor <= split < c.end);
    assert(c.reserved <= c.cursor);
    let start = (split + 1) as u64;
    lemma_same_volume(v, c.start, start);
    let end = c.end;
    let cut = v.with_end(i, split);
    lemma_owed_update(v.live, i, Live { claim: Claim { end: split, ..c }, ..l });
    lemma_owed_push(cut.live, cut.fresh_live(worker, start, end, None));
}

} // verus!
