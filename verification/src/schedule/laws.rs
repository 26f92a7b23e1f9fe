//! What holds of the scheduler over every operation.

use super::{
    backoff_ladder, copy_of, first_live, held_by, known_rates, lemma_backoff_ladder,
    lemma_first_live, lemma_given_back_wf, lemma_halved_wf, lemma_taken_wf, lemma_with_end_wf,
    lemma_without_live_wf, Claim, Live, Pass, Rate, SchedulerView, MIN_CLAIM,
    OVERLOAD_BACKOFF_BASE, OVERLOAD_BACKOFF_MAX, RECOVERY_CLAIM,
};
use crate::engine::{lemma_volume_from, volume_from};
use crate::num::{imax, imin};
use crate::ranges::{
    covers, lemma_insert_range, lemma_insert_total, lemma_remove_range, lemma_remove_total, total,
};
use vstd::prelude::*;

verus! {

/// The claim `l` owns byte `b` and has not delivered it.
pub open spec fn owes(l: Live, b: int) -> bool {
    l.hedge_of is None && l.claim.cursor <= b <= l.claim.end
}

/// Some live claim owes byte `b`.
pub open spec fn owed(live: Seq<Live>, b: int) -> bool {
    exists|i: int| 0 <= i < live.len() && #[trigger] owes(live[i], b)
}

/// Byte `b` is still to be fetched: nobody owns it, or its owner owes it.
pub open spec fn outstanding(v: SchedulerView, b: int) -> bool {
    covers(v.unclaimed, b) || owed(v.live, b)
}

/// Some claim has announced that it is about to write byte `b`.
pub open spec fn committed(v: SchedulerView, b: int) -> bool {
    exists|i: int|
        0 <= i < v.live.len() && (#[trigger] v.live[i]).claim.cursor <= b
            < v.live[i].claim.reserved
}

/// No byte is owed twice, and none that is owed can be claimed.
pub open spec fn exclusive(v: SchedulerView) -> bool {
    &&& forall|i: int, b: int|
        0 <= i < v.live.len() && #[trigger] owes(v.live[i], b) ==> !covers(v.unclaimed, b)
    &&& forall|i: int, j: int, b: int|
        0 <= i < j < v.live.len() ==> !(#[trigger] owes(v.live[i], b) && #[trigger] owes(
            v.live[j],
            b,
        ))
}

/// No byte is in two volumes, and every byte of the request is in one, or there are
/// no volumes.
pub open spec fn seamless(v: SchedulerView) -> bool {
    v.volumes.len() == 0 || {
        &&& forall|i: int, j: int, b: int|
            0 <= i < j < v.volumes.len() && #[trigger] v.volumes[i].holds(b)
                ==> !#[trigger] v.volumes[j].holds(b)
        &&& forall|b: int|
            v.req_start <= b <= v.req_end ==> (#[trigger] volume_from(v.volumes, b, 0)) is Some
    }
}

/// From one byte of a volume to its end, every byte is in that volume.
pub(crate) proof fn lemma_same_volume(v: SchedulerView, start: u64, b: u64)
    requires
        v.wf(),
        seamless(v),
        v.req_start <= start <= b <= v.volume_last(start),
        b <= v.req_end,
    ensures
        v.volume_last(b) == v.volume_last(start),
{
    lemma_volume_from(v.volumes, start as int, 0);
    lemma_volume_from(v.volumes, b as int, 0);
    if v.volumes.len() > 0 {
        assert(volume_from(v.volumes, start as int, 0) is Some);
        assert(volume_from(v.volumes, b as int, 0) is Some);
        let i = volume_from(v.volumes, start as int, 0)->0;
        let j = volume_from(v.volumes, b as int, 0)->0;
        assert(v.volumes[i].holds(b as int));
        assert(v.volumes[j].holds(b as int));
        assert(i == j);
    }
}

/// A claim taken out of a gap: it lies in the gap, in one volume, under every
/// ceiling; the unclaimed bytes shrink by exactly its length; and nothing that
/// was to be fetched is lost or owned twice.
pub proof fn law_taking_moves_bytes_from_the_gap_to_the_claim(
    v: SchedulerView,
    worker: usize,
    p: Pass,
    i: int,
)
    requires
        v.wf(),
        v.pass_ok(p),
        0 <= i < v.unclaimed.len(),
        v.overlaps(p, i),
    ensures
        ({
            let after = v.taken(worker, p, i);
            let c = after.live.last().claim;
            &&& c == v.fresh_claim(v.gap_start(p, i), v.take_end(p, i))
            &&& p.lo <= c.start <= c.end <= p.hi
            &&& c.issued == c.end - c.start + 1
            &&& c.end <= v.volume_last(c.start)
            &&& c.issued <= v.claim_len()
            &&& v.split_cap is Some ==> c.issued <= v.split_cap->0
            &&& v.auto_limit is Some && v.auto_limit->0 > 0 ==> c.issued <= v.auto_limit->0
            &&& total(after.unclaimed) + c.issued == total(v.unclaimed)
            &&& exclusive(v) ==> exclusive(after)
            &&& forall|b: int| #[trigger] outstanding(after, b) <==> outstanding(v, b)
        }),
{
    lemma_taken_wf(v, worker, p, i);
    let start = v.gap_start(p, i);
    let end = v.take_end(p, i);
    let after = v.taken(worker, p, i);
    assert forall|b: int| start <= b <= end implies covers(v.unclaimed, b) by {
        assert(v.unclaimed[i].0 <= b <= v.unclaimed[i].1);
    }
    lemma_remove_range(v.unclaimed, start, end);
    lemma_remove_total(v.unclaimed, start, end);
    let n = v.live.len() as int;
    assert(after.live[n].claim == v.fresh_claim(start, end));
    assert forall|k: int| 0 <= k < n implies after.live[k] == v.live[k] by {}
    if exclusive(v) {
        assert forall|k: int, b: int|
            0 <= k < after.live.len() && #[trigger] owes(after.live[k], b) implies !covers(
            after.unclaimed,
            b,
        ) by {
            if k < n {
                assert(owes(v.live[k], b));
            }
        }
        assert forall|k: int, j: int, b: int| 0 <= k < j < after.live.len() implies !(
        #[trigger] owes(after.live[k], b) && #[trigger] owes(after.live[j], b)) by {
            if owes(after.live[k], b) && owes(after.live[j], b) {
                assert(owes(v.live[k], b));
                if j < n {
                    assert(owes(v.live[j], b));
                } else {
                    assert(covers(v.unclaimed, b));
                }
            }
        }
    }
    assert forall|b: int| #[trigger] outstanding(after, b) <==> outstanding(v, b) by {
        if owed(v.live, b) {
            let k = choose|k: int| 0 <= k < v.live.len() && #[trigger] owes(v.live[k], b);
            assert(owes(after.live[k], b));
        }
        if owed(after.live, b) {
            let k = choose|k: int|
                0 <= k < after.live.len() && #[trigger] owes(after.live[k], b);
            if k < n {
                assert(owes(v.live[k], b));
            }
        }
        if start <= b <= end {
            assert(owes(after.live[n], b));
        }
    }
}

/// A claim whose end moves inward owes less, and nothing else changes.
proof fn lemma_with_end_owes(v: SchedulerView, i: int, end: u64)
    requires
        0 <= i < v.live.len(),
        end <= v.live[i].claim.end,
    ensures
        exclusive(v) ==> exclusive(v.with_end(i, end)),
        forall|b: int|
            outstanding(v, b) && !(owes(v.live[i], b) && b > end) ==> #[trigger] outstanding(
                v.with_end(i, end),
                b,
            ),
        forall|b: int| #[trigger] outstanding(v.with_end(i, end), b) ==> outstanding(v, b),
        exclusive(v) ==> forall|b: int|
            owes(v.live[i], b) && b > end ==> !#[trigger] outstanding(v.with_end(i, end), b),
        forall|b: int| #[trigger] committed(v.with_end(i, end), b) ==> committed(v, b),
{
    let after = v.with_end(i, end);
    assert forall|k: int, b: int| 0 <= k < v.live.len() implies #[trigger] owes(after.live[k], b)
        == (owes(v.live[k], b) && (k == i ==> b <= end)) by {}
    if exclusive(v) {
        assert forall|k: int, b: int|
            0 <= k < after.live.len() && #[trigger] owes(after.live[k], b) implies !covers(
            after.unclaimed,
            b,
        ) by {
            assert(owes(v.live[k], b));
        }
        assert forall|k: int, j: int, b: int| 0 <= k < j < after.live.len() implies !(
        #[trigger] owes(after.live[k], b) && #[trigger] owes(after.live[j], b)) by {
            if owes(after.live[k], b) && owes(after.live[j], b) {
                assert(owes(v.live[k], b));
                assert(owes(v.live[j], b));
            }
        }
        assert forall|b: int| owes(v.live[i], b) && b > end implies !#[trigger] outstanding(
            after,
            b,
        ) by {
            if owed(after.live, b) {
                let k = choose|k: int|
                    0 <= k < after.live.len() && #[trigger] owes(after.live[k], b);
                assert(owes(v.live[k], b));
                assert(k != i);
                if k < i {
                    assert(!(owes(v.live[k], b) && owes(v.live[i], b)));
                } else {
                    assert(!(owes(v.live[i], b) && owes(v.live[k], b)));
                }
            }
        }
    }
    assert forall|b: int|
        outstanding(v, b) && !(owes(v.live[i], b) && b > end) implies #[trigger] outstanding(
        after,
        b,
    ) by {
        if owed(v.live, b) && !covers(v.unclaimed, b) {
            let k = choose|k: int| 0 <= k < v.live.len() && #[trigger] owes(v.live[k], b);
            assert(owes(after.live[k], b));
        }
    }
    assert forall|b: int| #[trigger] outstanding(after, b) implies outstanding(v, b) by {
        if owed(after.live, b) {
            let k = choose|k: int|
                0 <= k < after.live.len() && #[trigger] owes(after.live[k], b);
            assert(owes(v.live[k], b));
        }
    }
    assert forall|b: int| #[trigger] committed(after, b) implies committed(v, b) by {
        let k = choose|k: int|
            0 <= k < after.live.len() && (#[trigger] after.live[k]).claim.cursor <= b
                < after.live[k].claim.reserved;
        assert(v.live[k].claim.cursor <= b < v.live[k].claim.reserved);
    }
}

/// A handed-out range that nobody had becomes owed, by its new owner alone.
proof fn lemma_registered_owes(
    v: SchedulerView,
    worker: usize,
    start: u64,
    end: u64,
    hedge_of: Option<u64>,
)
    requires
        start <= end,
    ensures
        ({
            let after = v.registered(worker, start, end, hedge_of);
            &&& exclusive(v) && hedge_of is Some ==> exclusive(after)
            &&& exclusive(v) && (forall|b: int|
                start <= b <= end ==> !#[trigger] outstanding(v, b)) ==> exclusive(after)
            &&& forall|b: int| #[trigger]
                outstanding(after, b) <==> outstanding(v, b) || (hedge_of is None && start <= b
                    <= end)
        }),
{
    let after = v.registered(worker, start, end, hedge_of);
    let n = v.live.len() as int;
    assert forall|k: int| 0 <= k < n implies after.live[k] == v.live[k] by {}
    assert(after.live[n] == v.fresh_live(worker, start, end, hedge_of));
    let apart = forall|b: int| start <= b <= end ==> !#[trigger] outstanding(v, b);
    if exclusive(v) && (hedge_of is Some || apart) {
        assert forall|k: int, b: int|
            0 <= k < after.live.len() && #[trigger] owes(after.live[k], b) implies !covers(
            after.unclaimed,
            b,
        ) by {
            if k < n {
                assert(owes(v.live[k], b));
            } else {
                assert(!outstanding(v, b));
            }
        }
        assert forall|k: int, j: int, b: int| 0 <= k < j < after.live.len() implies !(
        #[trigger] owes(after.live[k], b) && #[trigger] owes(after.live[j], b)) by {
            if owes(after.live[k], b) && owes(after.live[j], b) {
                assert(owes(v.live[k], b));
                if j < n {
                    assert(owes(v.live[j], b));
                } else {
                    assert(!outstanding(v, b));
                }
            }
        }
    }
    assert forall|b: int| #[trigger]
        outstanding(after, b) <==> outstanding(v, b) || (hedge_of is None && start <= b
            <= end) by {
        if owed(v.live, b) {
            let k = choose|k: int| 0 <= k < v.live.len() && #[trigger] owes(v.live[k], b);
            assert(owes(after.live[k], b));
        }
        if owed(after.live, b) {
            let k = choose|k: int|
                0 <= k < after.live.len() && #[trigger] owes(after.live[k], b);
            if k < n {
                assert(owes(v.live[k], b));
            }
        }
        if hedge_of is None && start <= b <= end {
            assert(owes(after.live[n], b));
        }
    }
}

/// Stealing hands bytes on: what the victim owed is owed by it or by the thief,
/// save what the victim has already committed to writing, and by one of them
/// only. The thief's claim stays in the victim's range and under its cap.
pub proof fn law_stealing_copies_no_byte_and_loses_none(v: SchedulerView, worker: usize, i: int)
    requires
        v.wf(),
        v.within(),
        seamless(v),
        0 <= i < v.live.len(),
        v.live[i].hedge_of is None,
        v.live[i].claim.owed() >= 2,
    ensures
        ({
            let (after, out) = v.halved(worker, i);
            &&& exclusive(v) ==> exclusive(after)
            &&& forall|b: int| #[trigger] outstanding(after, b) ==> outstanding(v, b)
            &&& forall|b: int|
                outstanding(v, b) && !committed(v, b) ==> #[trigger] outstanding(after, b)
            &&& out is Some ==> {
                &&& v.live[i].claim.cursor < out->0.start
                &&& v.live[i].claim.reserved <= out->0.start
                &&& out->0.end == v.live[i].claim.end
                &&& v.split_cap is Some ==> out->0.issued <= v.split_cap->0
            }
        }),
{
    let c = v.live[i].claim;
    assert(v.live_ok(v.live[i]));
    lemma_halved_wf(v, worker, i);
    let split = (c.end - c.owed() / 2) as u64;
    assert(c.cursor <= split < c.end);
    let cut = v.with_end(i, split);
    let start = imax(split + 1, c.reserved as int);
    let (after, out) = v.halved(worker, i);
    lemma_with_end_owes(v, i, split);
    if start <= c.end {
        assert(c.start <= start);
        lemma_same_volume(v, c.start, start as u64);
        let end = imin(c.end as int, v.volume_last(start as u64)) as u64;
        assert(end == c.end);
        lemma_registered_owes(cut, worker, start as u64, end, None);
        assert(after == cut.registered(worker, start as u64, end, None));
        if exclusive(v) {
            assert forall|b: int| start <= b <= end implies !#[trigger] outstanding(cut, b) by {
                assert(owes(v.live[i], b) && b > split);
            }
        }
    }
    assert forall|b: int| #[trigger] outstanding(after, b) implies outstanding(v, b) by {
        if start <= b <= c.end {
            assert(owes(v.live[i], b));
        } else {
            assert(outstanding(cut, b));
        }
    }
    assert forall|b: int| outstanding(v, b) && !committed(v, b) implies #[trigger] outstanding(
        after,
        b,
    ) by {
        if owes(v.live[i], b) && b > split {
            if b < c.reserved {
                assert(v.live[i].claim.cursor <= b < v.live[i].claim.reserved);
            }
            assert(start <= b <= c.end);
        } else {
            assert(outstanding(cut, b));
        }
    }
}

/// A race changes nothing in what is owed, costs exactly its length out of the
/// budget, and stays inside the claim that it races.
pub proof fn law_racing_is_paid_out_of_the_budget(v: SchedulerView, worker: usize, i: int)
    requires
        v.wf(),
        0 <= i < v.live.len(),
        v.live[i].claim.owed() >= MIN_CLAIM,
        v.dup_budget >= MIN_CLAIM,
    ensures
        ({
            let (after, out) = v.raced(worker, i);
            &&& exclusive(v) ==> exclusive(after)
            &&& forall|b: int| #[trigger] outstanding(after, b) <==> outstanding(v, b)
            &&& after.dup_budget + (if out is Some {
                out->0.issued as int
            } else {
                0
            }) == v.dup_budget
            &&& out is Some ==> {
                &&& out->0.issued >= MIN_CLAIM
                &&& out->0.start == v.live[i].claim.cursor
                &&& out->0.end <= v.live[i].claim.end
            }
        }),
{
    let c = v.live[i].claim;
    assert(v.live_ok(v.live[i]));
    let lo = c.cursor;
    let hi = imin(c.end as int, lo + v.dup_budget - 1);
    let (after, out) = v.raced(worker, i);
    if hi - lo + 1 >= MIN_CLAIM {
        let charged = SchedulerView { dup_budget: (v.dup_budget - (hi - lo + 1)) as u64, ..v };
        lemma_registered_owes(charged, worker, lo, hi as u64, Some(c.start));
        assert forall|b: int| #[trigger] outstanding(after, b) <==> outstanding(v, b) by {
            assert(outstanding(charged, b) == outstanding(v, b));
        }
        assert(exclusive(v) ==> exclusive(charged));
    }
}

/// Handing a claim's rest back turns what it owed into work for anybody.
proof fn lemma_strike_and_give_back(v: SchedulerView, i: int, from: int)
    requires
        v.wf(),
        0 <= i < v.live.len(),
        v.live[i].hedge_of is None,
        v.live[i].claim.cursor <= from,
    ensures
        ({
            let after = v.without_live(i).given_back(from, v.live[i].claim.end);
            &&& after.wf()
            &&& exclusive(v) ==> exclusive(after)
            &&& forall|b: int| #[trigger] outstanding(after, b) ==> outstanding(v, b)
            &&& forall|b: int|
                outstanding(v, b) && !(owes(v.live[i], b) && b < from) ==> #[trigger] outstanding(
                    after,
                    b,
                )
            &&& forall|b: int| #[trigger] committed(after, b) ==> committed(v, b)
            &&& exclusive(v) && from <= v.live[i].claim.end ==> total(after.unclaimed) == total(
                v.unclaimed,
            ) + (v.live[i].claim.end - from + 1)
        }),
{
    let l = v.live[i];
    let end = l.claim.end;
    let rest = v.without_live(i);
    let after = rest.given_back(from, end);
    assert(v.live_ok(l));
    lemma_without_live_wf(v, i);
    lemma_given_back_wf(rest, from, end);
    assert forall|k: int| 0 <= k < after.live.len() implies #[trigger] after.live[k]
        == v.live[if k < i {
        k
    } else {
        k + 1
    }] by {}
    if from <= end {
        lemma_insert_range(v.unclaimed, from as u64, end);
        if exclusive(v) {
            assert forall|b: int| from <= b <= end implies !covers(v.unclaimed, b) by {
                assert(owes(v.live[i], b));
            }
            lemma_insert_total(v.unclaimed, from as u64, end);
        }
    }
    if exclusive(v) {
        assert forall|k: int, b: int|
            0 <= k < after.live.len() && #[trigger] owes(after.live[k], b) implies !covers(
            after.unclaimed,
            b,
        ) by {
            let m = if k < i {
                k
            } else {
                k + 1
            };
            assert(owes(v.live[m], b));
            if from <= b <= end {
                assert(owes(v.live[i], b));
                if m < i {
                    assert(!(owes(v.live[m], b) && owes(v.live[i], b)));
                } else {
                    assert(!(owes(v.live[i], b) && owes(v.live[m], b)));
                }
            }
        }
        assert forall|k: int, j: int, b: int| 0 <= k < j < after.live.len() implies !(
        #[trigger] owes(after.live[k], b) && #[trigger] owes(after.live[j], b)) by {
            let m = if k < i {
                k
            } else {
                k + 1
            };
            let n = if j < i {
                j
            } else {
                j + 1
            };
            assert(!(owes(v.live[m], b) && owes(v.live[n], b)));
        }
    }
    assert forall|b: int| #[trigger] outstanding(after, b) implies outstanding(v, b) by {
        if owed(after.live, b) {
            let k = choose|k: int|
                0 <= k < after.live.len() && #[trigger] owes(after.live[k], b);
            assert(owes(
                v.live[if k < i {
                    k
                } else {
                    k + 1
                }],
                b,
            ));
        } else if !covers(v.unclaimed, b) {
            assert(owes(v.live[i], b));
        }
    }
    assert forall|b: int|
        outstanding(v, b) && !(owes(v.live[i], b) && b < from) implies #[trigger] outstanding(
        after,
        b,
    ) by {
        if !covers(v.unclaimed, b) {
            let k = choose|k: int| 0 <= k < v.live.len() && #[trigger] owes(v.live[k], b);
            if k < i {
                assert(owes(after.live[k], b));
            } else if k > i {
                assert(owes(after.live[k - 1], b));
            }
        }
    }
    assert forall|b: int| #[trigger] committed(after, b) implies committed(v, b) by {
        let k = choose|k: int|
            0 <= k < after.live.len() && (#[trigger] after.live[k]).claim.cursor <= b
                < after.live[k].claim.reserved;
        let m = if k < i {
            k
        } else {
            k + 1
        };
        assert(v.live[m].claim.cursor <= b < v.live[m].claim.reserved);
    }
}

/// Striking a copy off changes nothing in what is owed.
proof fn lemma_strike_copy(v: SchedulerView, i: int)
    requires
        v.wf(),
        0 <= i < v.live.len(),
        v.live[i].hedge_of is Some || v.live[i].claim.cursor > v.live[i].claim.end,
    ensures
        v.without_live(i).wf(),
        exclusive(v) ==> exclusive(v.without_live(i)),
        forall|b: int| #[trigger] outstanding(v.without_live(i), b) <==> outstanding(v, b),
        forall|b: int| #[trigger] committed(v.without_live(i), b) ==> committed(v, b),
{
    let after = v.without_live(i);
    lemma_without_live_wf(v, i);
    assert forall|k: int| 0 <= k < after.live.len() implies #[trigger] after.live[k]
        == v.live[if k < i {
        k
    } else {
        k + 1
    }] by {}
    if exclusive(v) {
        assert forall|k: int, b: int|
            0 <= k < after.live.len() && #[trigger] owes(after.live[k], b) implies !covers(
            after.unclaimed,
            b,
        ) by {
            assert(owes(
                v.live[if k < i {
                    k
                } else {
                    k + 1
                }],
                b,
            ));
        }
        assert forall|k: int, j: int, b: int| 0 <= k < j < after.live.len() implies !(
        #[trigger] owes(after.live[k], b) && #[trigger] owes(after.live[j], b)) by {
            let m = if k < i {
                k
            } else {
                k + 1
            };
            let n = if j < i {
                j
            } else {
                j + 1
            };
            assert(!(owes(v.live[m], b) && owes(v.live[n], b)));
        }
    }
    assert forall|b: int| #[trigger] outstanding(after, b) <==> outstanding(v, b) by {
        if owed(after.live, b) {
            let k = choose|k: int|
                0 <= k < after.live.len() && #[trigger] owes(after.live[k], b);
            assert(owes(
                v.live[if k < i {
                    k
                } else {
                    k + 1
                }],
                b,
            ));
        }
        if owed(v.live, b) {
            let k = choose|k: int| 0 <= k < v.live.len() && #[trigger] owes(v.live[k], b);
            assert(k != i);
            assert(owes(
                after.live[if k < i {
                    k
                } else {
                    k - 1
                }],
                b,
            ));
        }
    }
    assert forall|b: int| #[trigger] committed(after, b) implies committed(v, b) by {
        let k = choose|k: int|
            0 <= k < after.live.len() && (#[trigger] after.live[k]).claim.cursor <= b
                < after.live[k].claim.reserved;
        let m = if k < i {
            k
        } else {
            k + 1
        };
        assert(v.live[m].claim.cursor <= b < v.live[m].claim.reserved);
    }
}

/// A worker that stops where its cursor stands gives back exactly what it owed.
/// What it owed is outstanding as before; a claim that ran to its end leaves
/// nothing. (When a copy wins, the claim that it raced is cut short with it;
/// that is left out here.)
pub proof fn law_finishing_gives_back_what_was_owed(v: SchedulerView, worker: usize)
    requires
        v.wf(),
        first_live(v.live, held_by(worker), 0) is Some,
        ({
            let l = v.live[first_live(v.live, held_by(worker), 0)->0];
            l.hedge_of is None || l.claim.cursor <= l.claim.end
        }),
    ensures
        ({
            let l = v.live[first_live(v.live, held_by(worker), 0)->0];
            let after = v.finished(worker, l.claim.cursor);
            &&& exclusive(v) ==> exclusive(after)
            &&& forall|b: int| #[trigger] outstanding(after, b) <==> outstanding(v, b)
            &&& exclusive(v) && l.hedge_of is None ==> total(after.unclaimed) == total(v.unclaimed)
                + l.claim.owed()
        }),
{
    lemma_first_live(v.live, held_by(worker), 0);
    let i = first_live(v.live, held_by(worker), 0)->0;
    let l = v.live[i];
    assert(v.live_ok(l));
    let after = v.finished(worker, l.claim.cursor);
    let rest = v.without_live(i);
    if l.claim.cursor > l.claim.end {
        lemma_strike_copy(v, i);
        lemma_first_live(rest.live, copy_of(l.claim.start), 0);
        match first_live(rest.live, copy_of(l.claim.start), 0) {
            Some(k) => {
                let c = rest.live[k].claim;
                let e = imin(c.end as int, imax(c.cursor - 1, 0)) as u64;
                lemma_with_end_owes(rest, k, e);
                assert(rest.live[k].hedge_of is Some);
                assert(after == rest.with_end(k, e));
            },
            None => {},
        }
        assert forall|b: int| #[trigger] outstanding(after, b) <==> outstanding(v, b) by {
            assert(outstanding(rest, b) <==> outstanding(v, b));
        }
    } else if l.hedge_of is Some {
        lemma_strike_copy(v, i);
    } else {
        lemma_strike_and_give_back(v, i, l.claim.cursor as int);
    }
}

/// A claim that delivers more owes less, and nothing else changes.
pub proof fn law_delivering_only_shrinks_what_is_owed(
    v: SchedulerView,
    after: SchedulerView,
    i: int,
    next: u64,
)
    requires
        v.wf(),
        0 <= i < v.live.len(),
        v.live[i].claim.cursor <= next,
        after == (SchedulerView {
            live: v.live.update(
                i,
                Live {
                    claim: Claim {
                        reserved: imax(v.live[i].claim.reserved as int, next as int) as u64,
                        cursor: next,
                        ..v.live[i].claim
                    },
                    ..v.live[i]
                },
            ),
            ..v
        }),
    ensures
        exclusive(v) ==> exclusive(after),
        exclusive(v) ==> forall|b: int| #[trigger]
            outstanding(after, b) <==> outstanding(v, b) && !(owes(v.live[i], b) && b < next),
{
    assert forall|k: int, b: int| 0 <= k < v.live.len() implies #[trigger] owes(after.live[k], b)
        == (owes(v.live[k], b) && (k == i ==> b >= next)) by {}
    if exclusive(v) {
        assert forall|k: int, b: int|
            0 <= k < after.live.len() && #[trigger] owes(after.live[k], b) implies !covers(
            after.unclaimed,
            b,
        ) by {
            assert(owes(v.live[k], b));
        }
        assert forall|k: int, j: int, b: int| 0 <= k < j < after.live.len() implies !(
        #[trigger] owes(after.live[k], b) && #[trigger] owes(after.live[j], b)) by {
            if owes(after.live[k], b) && owes(after.live[j], b) {
                assert(owes(v.live[k], b));
                assert(owes(v.live[j], b));
            }
        }
        assert forall|b: int| #[trigger]
            outstanding(after, b) <==> outstanding(v, b) && !(owes(v.live[i], b) && b
                < next) by {
            if owed(after.live, b) {
                let k = choose|k: int|
                    0 <= k < after.live.len() && #[trigger] owes(after.live[k], b);
                assert(owes(v.live[k], b));
                if owes(v.live[i], b) && k != i {
                    if k < i {
                        assert(!(owes(v.live[k], b) && owes(v.live[i], b)));
                    } else {
                        assert(!(owes(v.live[i], b) && owes(v.live[k], b)));
                    }
                }
            } else if owed(v.live, b) {
                let k = choose|k: int| 0 <= k < v.live.len() && #[trigger] owes(v.live[k], b);
                assert(!owes(after.live[k], b));
            }
            if covers(v.unclaimed, b) {
                assert(!owes(v.live[i], b));
            }
        }
    }
}

/// Refocusing on a reader re-assigns work and loses none: what was to be fetched
/// still is, save what a shortened claim has committed to writing, and nothing
/// new is.
pub proof fn law_refocusing_loses_no_byte(v: SchedulerView, window: u64, i: int)
    requires
        v.wf(),
        v.strategy is Latency,
        0 <= i <= v.live.len(),
    ensures
        ({
            let after = v.refocused(window, i).0;
            &&& after.wf()
            &&& exclusive(v) ==> exclusive(after)
            &&& forall|b: int| #[trigger] outstanding(after, b) ==> outstanding(v, b)
            &&& forall|b: int|
                outstanding(v, b) && !committed(v, b) ==> #[trigger] outstanding(after, b)
        }),
    decreases v.live.len() - i,
{
    if i < v.live.len() {
        let l = v.live[i];
        let c = l.claim;
        assert(v.live_ok(l));
        let keep = c.cursor + v.claim_len() - 1;
        let after = v.refocused(window, i).0;
        if c.cursor > c.end {
            law_refocusing_loses_no_byte(v, window, i + 1);
        } else if v.misplaced(l, window) {
            let rest = if l.hedge_of is None {
                v.without_live(i).given_back(c.cursor as int, c.end)
            } else {
                v.without_live(i)
            };
            if l.hedge_of is None {
                lemma_strike_and_give_back(v, i, c.cursor as int);
            } else {
                lemma_strike_copy(v, i);
            }
            law_refocusing_loses_no_byte(rest, window, i);
            assert forall|b: int|
                outstanding(v, b) && !committed(v, b) implies #[trigger] outstanding(after, b) by {
                assert(outstanding(rest, b));
                assert(!committed(rest, b));
            }
            assert forall|b: int| #[trigger] outstanding(after, b) implies outstanding(v, b) by {
                assert(outstanding(rest, b));
            }
        } else if l.hedge_of is None && keep < c.end {
            lemma_claim_len(v);
            let cut = v.with_end(i, keep as u64);
            lemma_with_end_owes(v, i, keep as u64);
            lemma_with_end_wf(v, i, keep as u64);
            let from = imax(keep + 1, c.reserved as int);
            let rest = cut.given_back(from, c.end);
            lemma_given_back_wf(cut, from, c.end);
            lemma_give_back_unowed(v, i, keep as u64, from);
            law_refocusing_loses_no_byte(rest, window, i + 1);
            assert forall|b: int|
                outstanding(v, b) && !committed(v, b) implies #[trigger] outstanding(after, b) by {
                assert(outstanding(rest, b));
                assert(!committed(rest, b));
            }
            assert forall|b: int| #[trigger] outstanding(after, b) implies outstanding(v, b) by {
                assert(outstanding(rest, b));
            }
        } else {
            law_refocusing_loses_no_byte(v, window, i + 1);
        }
    }
}

/// A claim is at least one byte long.
proof fn lemma_claim_len(v: SchedulerView)
    ensures
        v.claim_len() >= 1,
{
}

/// Shortening a claim and handing its tail back.
proof fn lemma_give_back_unowed(v: SchedulerView, i: int, keep: u64, from: int)
    requires
        v.wf(),
        0 <= i < v.live.len(),
        v.live[i].hedge_of is None,
        v.live[i].claim.cursor <= keep < v.live[i].claim.end,
        from == imax(keep + 1, v.live[i].claim.reserved as int),
    ensures
        ({
            let rest = v.with_end(i, keep).given_back(from, v.live[i].claim.end);
            &&& exclusive(v) ==> exclusive(rest)
            &&& forall|b: int| #[trigger] outstanding(rest, b) ==> outstanding(v, b)
            &&& forall|b: int|
                outstanding(v, b) && !committed(v, b) ==> #[trigger] outstanding(rest, b)
            &&& forall|b: int| #[trigger] committed(rest, b) ==> committed(v, b)
        }),
{
    let c = v.live[i].claim;
    let cut = v.with_end(i, keep);
    let rest = cut.given_back(from, c.end);
    assert(v.live_ok(v.live[i]));
    lemma_with_end_owes(v, i, keep);
    lemma_with_end_wf(v, i, keep);
    if from <= c.end {
        lemma_insert_range(cut.unclaimed, from as u64, c.end);
    }
    if exclusive(v) {
        assert forall|k: int, b: int|
            0 <= k < rest.live.len() && #[trigger] owes(rest.live[k], b) implies !covers(
            rest.unclaimed,
            b,
        ) by {
            assert(owes(cut.live[k], b));
            if from <= b <= c.end {
                assert(owes(v.live[i], b) && b > keep);
                assert(!outstanding(cut, b));
            }
        }
        assert forall|k: int, j: int, b: int| 0 <= k < j < rest.live.len() implies !(
        #[trigger] owes(rest.live[k], b) && #[trigger] owes(rest.live[j], b)) by {
            assert(!(owes(cut.live[k], b) && owes(cut.live[j], b)));
        }
    }
    assert forall|b: int| #[trigger] outstanding(rest, b) implies outstanding(v, b) by {
        if from <= b <= c.end {
            assert(owes(v.live[i], b));
        } else {
            assert(outstanding(cut, b));
        }
    }
    assert forall|b: int| outstanding(v, b) && !committed(v, b) implies #[trigger] outstanding(
        rest,
        b,
    ) by {
        if owes(v.live[i], b) && b > keep {
            if b < c.reserved {
                assert(v.live[i].claim.cursor <= b < v.live[i].claim.reserved);
            }
            assert(from <= b <= c.end);
        } else {
            assert(outstanding(cut, b));
        }
    }
    assert forall|b: int| #[trigger] committed(rest, b) implies committed(v, b) by {
        assert(committed(cut, b));
    }
}

/// Re-cutting dead claims loses no byte and owes none twice.
pub proof fn law_sweeping_loses_no_byte(v: SchedulerView, i: int)
    requires
        v.wf(),
        0 <= i <= v.live.len(),
    ensures
        ({
            let after = v.swept(i).0;
            &&& after.wf()
            &&& exclusive(v) ==> exclusive(after)
            &&& forall|b: int| #[trigger] outstanding(after, b) <==> outstanding(v, b)
        }),
    decreases v.live.len() - i,
{
    if i < v.live.len() {
        let l = v.live[i];
        let c = l.claim;
        assert(v.live_ok(l));
        let after = v.swept(i).0;
        if c.cursor > l.last_cursor || c.cursor > c.end {
            let seen = SchedulerView {
                live: v.live.update(
                    i,
                    Live { last_cursor: c.cursor, last_progress: v.now, ..l },
                ),
                ..v
            };
            assert(seen.wf()) by {
                assert forall|k: int| 0 <= k < seen.live.len() implies seen.live_ok(
                    #[trigger] seen.live[k],
                ) by {
                    assert(v.live_ok(v.live[k]));
                }
            }
            assert forall|k: int, b: int| 0 <= k < v.live.len() implies #[trigger] owes(
                seen.live[k],
                b,
            ) == owes(v.live[k], b) by {}
            if exclusive(v) {
                assert forall|k: int, b: int|
                    0 <= k < seen.live.len() && #[trigger] owes(seen.live[k], b) implies !covers(
                    seen.unclaimed,
                    b,
                ) by {
                    assert(owes(v.live[k], b));
                }
                assert forall|k: int, j: int, b: int| 0 <= k < j < seen.live.len() implies !(
                #[trigger] owes(seen.live[k], b) && #[trigger] owes(seen.live[j], b)) by {
                    assert(!(owes(v.live[k], b) && owes(v.live[j], b)));
                }
            }
            assert forall|b: int| #[trigger] outstanding(seen, b) <==> outstanding(v, b) by {
                if owed(v.live, b) {
                    let k = choose|k: int| 0 <= k < v.live.len() && #[trigger] owes(v.live[k], b);
                    assert(owes(seen.live[k], b));
                }
                if owed(seen.live, b) {
                    let k = choose|k: int|
                        0 <= k < seen.live.len() && #[trigger] owes(seen.live[k], b);
                    assert(owes(v.live[k], b));
                }
            }
            law_sweeping_loses_no_byte(seen, i + 1);
            assert forall|b: int| #[trigger] outstanding(after, b) <==> outstanding(v, b) by {
                assert(outstanding(seen, b) <==> outstanding(v, b));
            }
        } else if v.now - l.last_progress < super::DEAD_CLAIM_WINDOW {
            law_sweeping_loses_no_byte(v, i + 1);
        } else {
            let rest = if l.hedge_of is None {
                v.without_live(i).given_back(c.cursor as int, c.end)
            } else {
                v.without_live(i)
            };
            if l.hedge_of is None {
                lemma_strike_and_give_back(v, i, c.cursor as int);
            } else {
                lemma_strike_copy(v, i);
            }
            law_sweeping_loses_no_byte(rest, i);
            assert forall|b: int| #[trigger] outstanding(after, b) <==> outstanding(v, b) by {
                assert(outstanding(rest, b) <==> outstanding(v, b));
            }
        }
    }
}

/// Whatever tier answers, asking for a claim owes no byte twice, adds nothing to
/// what is to be fetched, drops nothing that nobody has committed to writing,
/// and never refills the endgame's budget.
pub proof fn law_claiming_loses_no_byte_and_owes_none_twice(
    v: SchedulerView,
    worker: usize,
    after: SchedulerView,
    out: Option<Claim>,
)
    requires
        v.wf(),
        v.within(),
        seamless(v),
        v.claimed(worker, after, out),
    ensures
        exclusive(v) ==> exclusive(after),
        forall|b: int| #[trigger] outstanding(after, b) ==> outstanding(v, b),
        forall|b: int| outstanding(v, b) && !committed(v, b) ==> #[trigger] outstanding(after, b),
        after.dup_budget <= v.dup_budget,
        out is Some && v.split_cap is Some ==> out->0.issued <= v.split_cap->0,
{
    if !v.none_to_take() {
        let (k, i) = choose|k: int, i: int|
            {
                &&& 0 <= k < v.passes().len()
                &&& #[trigger] v.gap_found(v.passes()[k], Some(i))
                &&& forall|j: int| 0 <= j < k ==> v.gap_found(#[trigger] v.passes()[j], None)
                &&& after == v.taken(worker, v.passes()[k], i)
                &&& out == Some(
                    v.fresh_claim(
                        v.gap_start(v.passes()[k], i),
                        v.take_end(v.passes()[k], i),
                    ),
                )
            };
        let p = v.passes()[k];
        assert(v.open_gap(p, i));
        lemma_claim_len(v);
        assert(v.pass_ok(p));
        law_taking_moves_bytes_from_the_gap_to_the_claim(v, worker, p, i);
    } else {
        let (mid, stolen) = choose|mid: SchedulerView, stolen: Option<Claim>| #[trigger]
            v.stole(worker, mid, stolen) && if stolen is Some {
                after == mid && out == stolen
            } else if mid.strategy is Throughput && mid.in_tail() {
                mid.hedged(worker, after, out)
            } else {
                after == mid && out is None
            };
        let need = 2 * v.min_frag();
        let found = choose|found: Option<int>| #[trigger]
            v.victim_found(worker, need, found) && match found {
                Some(i) => (mid, stolen) == v.halved(worker, i),
                None => mid == v && stolen is None,
            };
        if let Some(i) = found {
            lemma_victim_is_robbable(v, worker, need, i);
            lemma_halved_wf(v, worker, i);
            law_stealing_copies_no_byte_and_loses_none(v, worker, i);
        }
        assert(mid.wf());
        assert(mid.dup_budget == v.dup_budget);
        if stolen is None && mid.strategy is Throughput && mid.in_tail() && mid.dup_budget
            >= MIN_CLAIM {
            let raced = choose|found: Option<int>| #[trigger]
                mid.hedge_found(worker, found) && match found {
                    Some(i) => (after, out) == mid.raced(worker, i),
                    None => after == mid && out is None,
                };
            if let Some(i) = raced {
                assert(mid.hedgeable(worker)[i]);
                law_racing_is_paid_out_of_the_budget(mid, worker, i);
                assert(mid.live_ok(mid.live[i]));
                assert forall|b: int|
                    outstanding(v, b) && !committed(v, b) implies #[trigger] outstanding(
                    after,
                    b,
                ) by {
                    assert(outstanding(mid, b));
                }
                assert forall|b: int| #[trigger] outstanding(after, b) implies outstanding(
                    v,
                    b,
                ) by {
                    assert(outstanding(mid, b));
                }
            }
        }
    }
}

/// A victim is one of the claims that may be robbed.
pub(crate) proof fn lemma_victim_is_robbable(v: SchedulerView, worker: usize, need: int, i: int)
    requires
        v.victim_found(worker, need, Some(i)),
    ensures
        0 <= i < v.live.len(),
        v.robbable(worker, need)[i],
{
    let marked = v.robbable(worker, need);
    let rates = known_rates(v.live, v.now);
    if rates.len() >= 3 {
        let sorted = choose|sorted: Seq<Rate>| #[trigger]
            super::is_sorted_rates(sorted, rates) && v.victim_behind(
                marked,
                sorted[rates.len() as int / 2],
                Some(i),
            );
        let slow = v.stragglers(marked, sorted[rates.len() as int / 2]);
        if exists|j: int| 0 <= j < slow.len() && #[trigger] slow[j] {
            assert(slow[i]);
        }
    }
}

/// Once nothing is unclaimed and nothing is owed, there is nothing to hand out.
pub proof fn law_a_drained_scheduler_hands_out_nothing(
    v: SchedulerView,
    worker: usize,
    after: SchedulerView,
    out: Option<Claim>,
)
    requires
        v.wf(),
        v.unclaimed.len() == 0,
        forall|i: int| 0 <= i < v.live.len() ==> (#[trigger] v.live[i]).claim.owed() == 0,
        v.claimed(worker, after, out),
    ensures
        out is None,
        after == v,
{
    assert(v.none_to_take());
    let (mid, stolen) = choose|mid: SchedulerView, stolen: Option<Claim>| #[trigger]
        v.stole(worker, mid, stolen) && if stolen is Some {
            after == mid && out == stolen
        } else if mid.strategy is Throughput && mid.in_tail() {
            mid.hedged(worker, after, out)
        } else {
            after == mid && out is None
        };
    let need = 2 * v.min_frag();
    let found = choose|found: Option<int>| #[trigger]
        v.victim_found(worker, need, found) && match found {
            Some(i) => (mid, stolen) == v.halved(worker, i),
            None => mid == v && stolen is None,
        };
    if let Some(i) = found {
        lemma_victim_is_robbable(v, worker, need, i);
        assert(v.live[i].claim.owed() == 0);
    }
    if mid.strategy is Throughput && mid.in_tail() && mid.dup_budget >= MIN_CLAIM {
        let raced = choose|found: Option<int>| #[trigger]
            mid.hedge_found(worker, found) && match found {
                Some(i) => (after, out) == mid.raced(worker, i),
                None => after == mid && out is None,
            };
        if let Some(i) = raced {
            assert(mid.hedgeable(worker)[i]);
            assert(v.live[i].claim.owed() == 0);
        }
    }
}

/// Automatic sizing never climbs past the wall, and the wall never falls below
/// the smallest claim.
pub open spec fn under_the_wall(v: SchedulerView) -> bool {
    v.auto_wall >= MIN_CLAIM && (v.auto_limit is Some ==> v.auto_limit->0 <= v.auto_wall)
}

/// Sizing stays under the wall whatever claims report, and a reported failure
/// never raises the ceiling.
pub proof fn law_sizing_stays_under_the_wall(v: SchedulerView, ok: bool, claim: Claim)
    requires
        under_the_wall(v),
    ensures
        under_the_wall(v.noted(ok, claim).0),
        !ok && v.auto_limit is Some && v.auto_limit->0 >= MIN_CLAIM ==> v.noted(
            ok,
            claim,
        ).0.auto_limit is Some && v.noted(ok, claim).0.auto_limit->0 <= v.auto_limit->0,
        !ok && v.auto_limit is Some ==> v.noted(ok, claim).0.auto_wall <= v.auto_wall,
        v.noted(ok, claim).1 ==> !ok,
{
}

/// The second and later failures of one round, cut before the first one's
/// lesson, neither shrink the size further nor are charged.
pub proof fn law_one_bad_round_is_one_lesson(v: SchedulerView, first: Claim, other: Claim)
    requires
        v.auto_limit is None,
        first.cursor <= first.start,
        other.cursor <= other.start,
        other.issued > RECOVERY_CLAIM,
    ensures
        ({
            let (once, charged) = v.noted(false, first);
            let (twice, charged_again) = once.noted(false, other);
            &&& !charged
            &&& !charged_again
            &&& twice.auto_limit == once.auto_limit
            &&& twice.auto_wall == once.auto_wall
        }),
{
}

/// A pause is at least what the strikes earn and what the origin asked for, and
/// less than twice the larger of the two.
pub proof fn law_a_pause_honours_strikes_and_hint(v: SchedulerView, worker: usize)
    requires
        v.wf(),
        v.overload_strikes > 0,
    ensures
        v.pause(worker) is Some,
        v.pause(worker)->0 >= backoff_ladder(v.overload_strikes),
        v.overload_hint is Some ==> v.pause(worker)->0 >= v.overload_hint->0,
        v.pause(worker)->0 < 2 * v.base_pause(),
{
    lemma_backoff_ladder(v.overload_strikes);
    let base = v.base_pause();
    let mixed = (worker as u64).wrapping_mul(super::JITTER_MULTIPLIER) as int;
    assert(0 <= mixed % base < base) by (nonlinear_arith)
        requires
            base > 0,
    ;
}

/// More strikes never shorten the pause, and it stays between its two bounds.
pub proof fn law_backoff_grows_with_strikes(fewer: u32, more: u32)
    requires
        fewer <= more,
    ensures
        OVERLOAD_BACKOFF_BASE <= backoff_ladder(fewer) <= backoff_ladder(more)
            <= OVERLOAD_BACKOFF_MAX,
    decreases more - fewer,
{
    lemma_backoff_ladder(fewer);
    lemma_backoff_ladder(more);
    if fewer < more {
        law_backoff_grows_with_strikes(fewer, (more - 1) as u32);
        lemma_backoff_ladder((more - 1) as u32);
    }
}

/// A request keeps its ends whatever is claimed of it.
pub proof fn law_a_request_keeps_its_ends(
    v: SchedulerView,
    worker: usize,
    after: SchedulerView,
    out: Option<Claim>,
)
    requires
        v.claimed(worker, after, out),
    ensures
        after.req_start == v.req_start,
        after.req_end == v.req_end,
{
    if v.none_to_take() {
        let (mid, stolen) = choose|mid: SchedulerView, stolen: Option<Claim>| #[trigger]
            v.stole(worker, mid, stolen) && if stolen is Some {
                after == mid && out == stolen
            } else if mid.strategy is Throughput && mid.in_tail() {
                mid.hedged(worker, after, out)
            } else {
                after == mid && out is None
            };
        assert(mid.req_start == v.req_start && mid.req_end == v.req_end);
        if stolen is None && mid.strategy is Throughput && mid.in_tail() {
            assert(after.req_start == mid.req_start && after.req_end == mid.req_end);
        }
    } else {
        assert(v.took(worker, after, out));
    }
}

} // verus!
