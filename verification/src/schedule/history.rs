//! What holds of a claim, and of the pauses, over a run of calls.

use super::laws::lemma_victim_is_robbable;
use super::{
    first_live, held_by, lemma_first_live, lemma_given_back_wf, lemma_with_end_wf,
    lemma_without_live_wf, Claim, Live, SchedulerView, MIN_CLAIM,
};
use crate::num::imax;
use vstd::prelude::*;

verus! {

/// `b` is the claim `a` later on: the same range for the same worker, cut to the
/// same length, with an end that has only moved inward.
pub open spec fn same_cut(a: Live, b: Live) -> bool {
    &&& b.worker == a.worker
    &&& b.hedge_of == a.hedge_of
    &&& b.claim.start == a.claim.start
    &&& b.claim.volume == a.claim.volume
    &&& b.claim.issued == a.claim.issued
    &&& b.claim.end <= a.claim.end
}

/// Every claim of `after` was there before.
pub open spec fn descends(before: Seq<Live>, after: Seq<Live>) -> bool {
    forall|j: int| 0 <= j < after.len() ==> stems(before, #[trigger] after[j])
}

/// The claim was there before.
pub open spec fn stems(before: Seq<Live>, l: Live) -> bool {
    exists|i: int| 0 <= i < before.len() && same_cut(#[trigger] before[i], l)
}

proof fn lemma_descends_chain(a: Seq<Live>, b: Seq<Live>, c: Seq<Live>)
    requires
        descends(a, b),
        descends(b, c),
    ensures
        descends(a, c),
{
    assert forall|j: int| 0 <= j < c.len() implies stems(a, #[trigger] c[j]) by {
        assert(stems(b, c[j]));
        let k = choose|k: int| 0 <= k < b.len() && same_cut(#[trigger] b[k], c[j]);
        assert(stems(a, b[k]));
        let i = choose|i: int| 0 <= i < a.len() && same_cut(#[trigger] a[i], b[k]);
        assert(same_cut(a[i], c[j]));
    }
}

proof fn lemma_descends_one_by_one(a: Seq<Live>, b: Seq<Live>)
    requires
        a.len() == b.len(),
        forall|i: int| 0 <= i < a.len() ==> same_cut(#[trigger] a[i], b[i]),
    ensures
        descends(a, b),
{
    assert forall|j: int| 0 <= j < b.len() implies stems(a, #[trigger] b[j]) by {
        assert(same_cut(a[j], b[j]));
    }
}

proof fn lemma_descends_struck(a: Seq<Live>, i: int)
    requires
        0 <= i < a.len(),
    ensures
        descends(a, a.remove(i)),
{
    let b = a.remove(i);
    assert forall|j: int| 0 <= j < b.len() implies stems(a, #[trigger] b[j]) by {
        if j < i {
            assert(same_cut(a[j], b[j]));
        } else {
            assert(same_cut(a[j + 1], b[j]));
        }
    }
}

proof fn lemma_shortened(v: SchedulerView, i: int, end: u64)
    requires
        0 <= i < v.live.len(),
        end <= v.live[i].claim.end,
    ensures
        descends(v.live, v.with_end(i, end).live),
{
    lemma_descends_one_by_one(v.live, v.with_end(i, end).live);
}

/// All claims but a new one at the end were there before.
pub open spec fn handed_out(
    v: SchedulerView,
    worker: usize,
    after: SchedulerView,
    out: Option<Claim>,
) -> bool {
    match out {
        None => descends(v.live, after.live),
        Some(c) => {
            &&& after.live.len() > 0
            &&& descends(v.live, after.live.drop_last())
            &&& after.live.last().claim == c
            &&& after.live.last().worker == worker
        },
    }
}

proof fn lemma_took_hands_out(
    v: SchedulerView,
    worker: usize,
    after: SchedulerView,
    out: Option<Claim>,
)
    requires
        v.took(worker, after, out),
    ensures
        handed_out(v, worker, after, out),
{
    let (k, i) = choose|k: int, i: int|
        {
            &&& 0 <= k < v.passes().len()
            &&& #[trigger] v.gap_found(v.passes()[k], Some(i))
            &&& forall|j: int| 0 <= j < k ==> v.gap_found(#[trigger] v.passes()[j], None)
            &&& after == v.taken(worker, v.passes()[k], i)
            &&& out == Some(
                v.fresh_claim(v.gap_start(v.passes()[k], i), v.take_end(v.passes()[k], i)),
            )
        };
    assert(after.live.drop_last() =~= v.live);
    lemma_descends_one_by_one(v.live, v.live);
}

proof fn lemma_halved_hands_out(v: SchedulerView, worker: usize, i: int)
    requires
        0 <= i < v.live.len(),
        v.live[i].claim.owed() >= 2,
    ensures
        handed_out(v, worker, v.halved(worker, i).0, v.halved(worker, i).1),
{
    let c = v.live[i].claim;
    let split = (c.end - c.owed() / 2) as u64;
    assert(c.cursor <= split < c.end);
    let cut = v.with_end(i, split);
    let (after, out) = v.halved(worker, i);
    lemma_shortened(v, i, split);
    if out is Some {
        assert(after.live.drop_last() =~= cut.live);
    } else {
        assert(after == cut);
    }
}

proof fn lemma_stole_hands_out(
    v: SchedulerView,
    worker: usize,
    mid: SchedulerView,
    stolen: Option<Claim>,
)
    requires
        v.stole(worker, mid, stolen),
    ensures
        handed_out(v, worker, mid, stolen),
{
    let need = 2 * v.min_frag();
    let found = choose|found: Option<int>| #[trigger]
        v.victim_found(worker, need, found) && match found {
            Some(i) => (mid, stolen) == v.halved(worker, i),
            None => mid == v && stolen is None,
        };
    match found {
        Some(i) => {
            lemma_victim_is_robbable(v, worker, need, i);
            assert(v.live[i].claim.owed() > need);
            assert(need >= 2);
            lemma_halved_hands_out(v, worker, i);
        },
        None => {
            lemma_descends_one_by_one(v.live, v.live);
        },
    }
}

proof fn lemma_hedged_hands_out(
    v: SchedulerView,
    worker: usize,
    after: SchedulerView,
    out: Option<Claim>,
)
    requires
        v.hedged(worker, after, out),
    ensures
        handed_out(v, worker, after, out),
{
    lemma_descends_one_by_one(v.live, v.live);
    if v.dup_budget >= MIN_CLAIM {
        let raced = choose|found: Option<int>| #[trigger]
            v.hedge_found(worker, found) && match found {
                Some(i) => (after, out) == v.raced(worker, i),
                None => after == v && out is None,
            };
        if raced is Some && out is Some {
            assert(after.live.drop_last() =~= v.live);
        }
    }
}

/// A claim is cut once: handing out another one leaves the start, the volume and the
/// issued length of all others as they were.
pub proof fn law_claiming_keeps_every_issued_length(
    v: SchedulerView,
    worker: usize,
    after: SchedulerView,
    out: Option<Claim>,
)
    requires
        v.claimed(worker, after, out),
    ensures
        out is None ==> descends(v.live, after.live),
        out is Some ==> after.live.len() > 0 && descends(v.live, after.live.drop_last())
            && after.live.last().claim == out->0 && after.live.last().worker == worker,
{
    if !v.none_to_take() {
        lemma_took_hands_out(v, worker, after, out);
    } else {
        let (mid, stolen) = choose|mid: SchedulerView, stolen: Option<Claim>| #[trigger]
            v.stole(worker, mid, stolen) && if stolen is Some {
                after == mid && out == stolen
            } else if mid.strategy is Throughput && mid.in_tail() {
                mid.hedged(worker, after, out)
            } else {
                after == mid && out is None
            };
        lemma_stole_hands_out(v, worker, mid, stolen);
        if stolen is None && mid.strategy is Throughput && mid.in_tail() {
            lemma_hedged_hands_out(mid, worker, after, out);
            if out is Some {
                lemma_descends_chain(v.live, mid.live, after.live.drop_last());
            } else {
                lemma_descends_chain(v.live, mid.live, after.live);
            }
        }
    }
}

/// A worker that is finished leaves the issued lengths of all other claims as they
/// were.
pub proof fn law_finishing_keeps_every_issued_length(v: SchedulerView, worker: usize, reached: u64)
    ensures
        descends(v.live, v.finished(worker, reached).live),
{
    lemma_descends_one_by_one(v.live, v.live);
    lemma_first_live(v.live, held_by(worker), 0);
    if let Some(i) = first_live(v.live, held_by(worker), 0) {
        let l = v.live[i];
        let rest = v.without_live(i);
        lemma_descends_struck(v.live, i);
        if reached > l.claim.end {
            let wanted = match l.hedge_of {
                Some(start) => super::owner_of(start),
                None => super::copy_of(l.claim.start),
            };
            let after = v.finished(worker, reached);
            lemma_first_live(rest.live, wanted, 0);
            assert(after == rest.cut_short(wanted));
            lemma_descends_one_by_one(rest.live, after.live);
            lemma_descends_chain(v.live, rest.live, after.live);
        }
    }
}

/// A worker that writes, or announces that it will, changes no issued length.
pub proof fn law_delivering_keeps_every_issued_length(v: SchedulerView, worker: usize, next: u64)
    ensures
        descends(v.live, v.announced(worker, next).live),
        descends(v.live, v.landed(worker, next).live),
{
    lemma_first_live(v.live, held_by(worker), 0);
    lemma_descends_one_by_one(v.live, v.announced(worker, next).live);
    lemma_descends_one_by_one(v.live, v.landed(worker, next).live);
}

/// Refocusing changes no issued length.
pub proof fn law_refocusing_keeps_every_issued_length(v: SchedulerView, window: u64, i: int)
    requires
        v.wf(),
        0 <= i <= v.live.len(),
    ensures
        descends(v.live, v.refocused(window, i).0.live),
    decreases v.live.len() - i,
{
    lemma_descends_one_by_one(v.live, v.live);
    if i < v.live.len() {
        let l = v.live[i];
        let c = l.claim;
        let keep = c.cursor + v.claim_len() - 1;
        let after = v.refocused(window, i).0;
        assert(v.live_ok(l));
        if c.cursor > c.end {
            law_refocusing_keeps_every_issued_length(v, window, i + 1);
        } else if v.misplaced(l, window) {
            let cut = v.without_live(i);
            let rest = if l.hedge_of is None {
                cut.given_back(c.cursor as int, c.end)
            } else {
                cut
            };
            lemma_without_live_wf(v, i);
            lemma_given_back_wf(cut, c.cursor as int, c.end);
            lemma_descends_struck(v.live, i);
            law_refocusing_keeps_every_issued_length(rest, window, i);
            lemma_descends_chain(v.live, rest.live, after.live);
        } else if l.hedge_of is None && keep < c.end {
            let cut = v.with_end(i, keep as u64);
            let from = imax(keep + 1, c.reserved as int);
            lemma_with_end_wf(v, i, keep as u64);
            lemma_given_back_wf(cut, from, c.end);
            lemma_shortened(v, i, keep as u64);
            let rest = cut.given_back(from, c.end);
            law_refocusing_keeps_every_issued_length(rest, window, i + 1);
            lemma_descends_chain(v.live, rest.live, after.live);
        } else {
            law_refocusing_keeps_every_issued_length(v, window, i + 1);
        }
    }
}

/// A sweep for dead claims changes no issued length.
pub proof fn law_sweeping_keeps_every_issued_length(v: SchedulerView, i: int)
    requires
        v.wf(),
        0 <= i <= v.live.len(),
    ensures
        descends(v.live, v.swept(i).0.live),
    decreases v.live.len() - i,
{
    lemma_descends_one_by_one(v.live, v.live);
    if i < v.live.len() {
        let l = v.live[i];
        let c = l.claim;
        let after = v.swept(i).0;
        assert(v.live_ok(l));
        if c.cursor > l.last_cursor || c.cursor > c.end {
            let seen = SchedulerView {
                live: v.live.update(
                    i,
                    Live { last_cursor: c.cursor, last_progress: v.now, ..l },
                ),
                ..v
            };
            assert forall|k: int| 0 <= k < seen.live.len() implies seen.live_ok(
                #[trigger] seen.live[k],
            ) by {
                assert(v.live_ok(v.live[k]));
            }
            lemma_descends_one_by_one(v.live, seen.live);
            law_sweeping_keeps_every_issued_length(seen, i + 1);
            lemma_descends_chain(v.live, seen.live, after.live);
        } else if v.now - l.last_progress < super::DEAD_CLAIM_WINDOW {
            law_sweeping_keeps_every_issued_length(v, i + 1);
        } else {
            let cut = v.without_live(i);
            let rest = if l.hedge_of is None {
                cut.given_back(c.cursor as int, c.end)
            } else {
                cut
            };
            lemma_without_live_wf(v, i);
            lemma_given_back_wf(cut, c.cursor as int, c.end);
            lemma_descends_struck(v.live, i);
            law_sweeping_keeps_every_issued_length(rest, i);
            lemma_descends_chain(v.live, rest.live, after.live);
        }
    }
}

/// What the pauses depend on: an origin asked for less load, for a time or without
/// one, or a claim has ended.
pub ghost enum LoadEvent {
    Refused(Option<u64>),
    Ended(bool, Claim),
}

/// The scheduler after the events.
pub open spec fn after_events(v: SchedulerView, events: Seq<LoadEvent>) -> SchedulerView
    decreases events.len(),
{
    if events.len() == 0 {
        v
    } else {
        let before = after_events(v, events.drop_last());
        match events.last() {
            LoadEvent::Refused(hint) => before.overloaded(hint),
            LoadEvent::Ended(ok, claim) => before.noted(ok, claim).0,
        }
    }
}

/// The waits that origins asked for since there was last no strike.
pub open spec fn waits_asked(v: SchedulerView, events: Seq<LoadEvent>) -> Seq<u64>
    decreases events.len(),
{
    if events.len() == 0 || after_events(v, events).overload_strikes == 0 {
        seq![]
    } else {
        match events.last() {
            LoadEvent::Refused(Some(hint)) => waits_asked(v, events.drop_last()).push(hint),
            _ => waits_asked(v, events.drop_last()),
        }
    }
}

/// `found` is the longest of the waits.
pub open spec fn is_longest(found: Option<u64>, waits: Seq<u64>) -> bool {
    match found {
        Some(w) => waits.contains(w) && forall|i: int|
            0 <= i < waits.len() ==> (#[trigger] waits[i]) <= w,
        None => waits.len() == 0,
    }
}

/// Whatever happens, the wait that is honoured is the longest that any origin asked
/// for since there was last no strike.
pub proof fn law_the_longest_wait_is_kept(v: SchedulerView, events: Seq<LoadEvent>)
    requires
        v.overload_strikes == 0,
        v.overload_hint is None,
    ensures
        is_longest(after_events(v, events).overload_hint, waits_asked(v, events)),
        after_events(v, events).overload_strikes == 0 ==> after_events(
            v,
            events,
        ).overload_hint is None,
    decreases events.len(),
{
    if events.len() > 0 {
        let front = events.drop_last();
        law_the_longest_wait_is_kept(v, front);
        let before = after_events(v, front);
        let after = after_events(v, events);
        let waits = waits_asked(v, front);
        if let LoadEvent::Refused(hint) = events.last() {
            assert(after.overload_strikes > 0);
            if let Some(h) = hint {
                let more = waits.push(h);
                assert(more[waits.len() as int] == h);
                if let Some(w) = before.overload_hint {
                    let i = choose|i: int| 0 <= i < waits.len() && waits[i] == w;
                    assert(more[i] == w);
                }
                assert forall|i: int| 0 <= i < more.len() implies (#[trigger] more[i])
                    <= after.overload_hint->0 by {
                    if i < waits.len() {
                        assert(more[i] == waits[i]);
                    }
                }
            }
        }
    }
}

} // verus!
