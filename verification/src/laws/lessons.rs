//! What claims that end well or badly teach, and what is left of a claim.

use crate::engine::VolumeMeta;
use crate::num::imax;
use crate::ranges::{covers, lemma_insert_range};
use crate::schedule::{
    backoff_ladder, copy_of, first_live, held_by, lemma_first_live, lemma_without, owner_of, Claim,
    ClaimWall, Live, SchedulerView, Strategy,
};
use vstd::prelude::*;

verus! {

/// A claim that ends well lets the next ones be twice as long, up to the wall, and
/// takes one strike off; with the last strike the wait that was asked for is
/// forgotten. Nothing else changes, and nobody is charged.
pub proof fn law_success_lengthens_claims(v: SchedulerView, claim: Claim)
    requires
        v.wf(),
    ensures
        ({
            let (after, charged) = v.noted(true, claim);
            &&& !charged
            &&& v.auto_limit is None ==> after.auto_limit is None
            &&& v.auto_limit is Some ==> after.auto_limit is Some && after.auto_limit->0
                <= v.auto_wall && (after.auto_limit->0 == v.auto_wall || after.auto_limit->0 == 2
                * v.auto_limit->0) && after.auto_limit->0 <= 2 * v.auto_limit->0
            &&& v.overload_strikes > 0 ==> after.overload_strikes == v.overload_strikes - 1
            &&& v.overload_strikes == 0 ==> after.overload_strikes == 0
            &&& v.overload_strikes > 1 ==> after.overload_hint == v.overload_hint
            &&& v.overload_strikes <= 1 ==> after.overload_hint is None
            &&& after == (SchedulerView {
                auto_limit: after.auto_limit,
                overload_strikes: after.overload_strikes,
                overload_hint: after.overload_hint,
                ..v
            })
        }),
{
}

/// A claim that fails after it has delivered something is charged to its worker and
/// teaches nothing.
pub proof fn law_a_failure_midway_is_the_workers(v: SchedulerView, claim: Claim)
    requires
        claim.cursor > claim.start,
    ensures
        v.noted(false, claim).1,
        v.noted(false, claim).0 == v,
{
}

/// The first claim that fails with nothing delivered is charged to nobody: the origin
/// bears half of what was asked for, but 1 MiB at least, and the next claims are no
/// longer than that, nor than 8 MiB.
pub proof fn law_the_first_empty_failure_finds_the_wall(v: SchedulerView, claim: Claim)
    requires
        claim.cursor <= claim.start,
        v.auto_limit is None,
    ensures
        ({
            let (after, charged) = v.noted(false, claim);
            &&& !charged
            &&& claim.issued >= 2_097_152 ==> after.auto_wall == claim.issued as int / 2
            &&& claim.issued < 2_097_152 ==> after.auto_wall == 1_048_576
            &&& after.auto_wall >= 8_388_608 ==> after.auto_limit == Some(8_388_608u64)
            &&& after.auto_wall < 8_388_608 ==> after.auto_limit == Some(after.auto_wall)
            &&& after == (SchedulerView {
                auto_limit: after.auto_limit,
                auto_wall: after.auto_wall,
                wall_memory: after.wall_memory,
                ..v
            })
        }),
{
}

/// A claim no longer than the limit that fails with nothing delivered is charged, and
/// halves the limit, but not below 1 MiB; the wall is never raised by it. A longer
/// one, which was cut before the limit was known, is charged to nobody and moves
/// neither.
pub proof fn law_a_further_empty_failure_halves_the_limit(v: SchedulerView, claim: Claim)
    requires
        claim.cursor <= claim.start,
        v.auto_limit is Some,
    ensures
        ({
            let limit = v.auto_limit->0;
            let (after, charged) = v.noted(false, claim);
            &&& charged <==> claim.issued <= limit
            &&& claim.issued > limit ==> after.auto_limit == v.auto_limit && after.auto_wall
                == v.auto_wall
            &&& claim.issued <= limit ==> {
                &&& limit >= 2_097_152 ==> after.auto_limit == Some((limit / 2) as u64)
                &&& limit < 2_097_152 ==> after.auto_limit == Some(1_048_576u64)
                &&& after.auto_wall <= v.auto_wall
                &&& after.auto_wall <= after.auto_limit->0
                &&& after.auto_wall == v.auto_wall || after.auto_wall == after.auto_limit->0
            }
            &&& after == (SchedulerView {
                auto_limit: after.auto_limit,
                auto_wall: after.auto_wall,
                wall_memory: after.wall_memory,
                ..v
            })
        }),
{
}

/// What is learned of an origin is remembered for ten minutes. A lesson is written
/// with the time at which it was learned, and never replaces a smaller wall that is
/// still remembered.
pub proof fn law_a_wall_is_remembered(v: SchedulerView, claim: Claim)
    requires
        claim.cursor <= claim.start,
        v.wall_memory is Some,
        v.auto_limit is None || claim.issued <= v.auto_limit->0,
    ensures
        ({
            let before = v.wall_memory->0;
            let after = v.noted(false, claim).0;
            let wall = after.wall_memory->0;
            &&& after.wall_memory is Some
            &&& wall.now == before.now
            &&& wall.slot is Some
            &&& wall.slot->Some_0.1 == before.now
            &&& wall.slot->Some_0.0 <= after.auto_wall
            &&& before.remembered() is Some ==> wall.slot->Some_0.0 <= before.remembered()->0
            &&& wall.slot->Some_0.0 == after.auto_wall || before.remembered() == Some(wall.slot->Some_0.0)
            &&& wall.remembered() == Some(wall.slot->Some_0.0)
        }),
{
}

/// A wall fades ten minutes after it was learned, and not before.
pub proof fn law_a_wall_fades(wall: ClaimWall)
    ensures
        wall.slot is None ==> wall.remembered() is None,
        wall.slot is Some && wall.now - wall.slot->Some_0.1 < 600_000_000_000 ==> wall.remembered()
            == Some(wall.slot->Some_0.0),
        wall.slot is Some && wall.now - wall.slot->Some_0.1 >= 600_000_000_000 ==> wall.remembered()
            is None,
{
}

/// A request to an origin whose wall is remembered begins under it, with claims of 8
/// MiB at most; without one it begins as it was.
pub proof fn law_a_request_begins_under_the_wall(v: SchedulerView, wall: ClaimWall)
    ensures
        ({
            let after = v.seeded(wall);
            &&& match wall.remembered() {
                Some(bytes) => {
                    &&& after.auto_wall == bytes
                    &&& after.auto_limit is Some
                    &&& after.auto_limit->0 <= bytes
                    &&& after.auto_limit->0 <= 8_388_608
                    &&& after.auto_limit->0 == bytes || after.auto_limit->0 == 8_388_608
                },
                None => after.auto_wall == v.auto_wall && after.auto_limit == v.auto_limit,
            }
            &&& after.wall_memory is Some
            &&& after.wall_memory->0.remembered() == wall.remembered()
            &&& after == (SchedulerView {
                auto_wall: after.auto_wall,
                auto_limit: after.auto_limit,
                wall_memory: after.wall_memory,
                ..v
            })
            &&& v.knowing(wall).wall_memory is Some
            &&& v.knowing(wall).wall_memory->0.slot == wall.slot
            &&& v.knowing(wall).wall_memory->0.now == v.now
        }),
{
}

/// The wait doubles with each strike, from a quarter of a second to eight seconds.
pub proof fn law_each_strike_doubles_the_wait(strikes: u32)
    ensures
        backoff_ladder(1) == 250,
        backoff_ladder(2) == 500,
        backoff_ladder(3) == 1_000,
        backoff_ladder(4) == 2_000,
        backoff_ladder(5) == 4_000,
        strikes >= 6 ==> backoff_ladder(strikes) == 8_000,
    decreases strikes,
{
    reveal_with_fuel(backoff_ladder, 7);
    if strikes > 6 {
        law_each_strike_doubles_the_wait((strikes - 1) as u32);
    }
}

/// A refusal is one strike more, six at most, and of the waits that were asked for
/// the longest counts. Nothing else changes.
pub proof fn law_a_refusal_is_a_strike(v: SchedulerView, retry_after: Option<u64>)
    requires
        v.wf(),
    ensures
        ({
            let after = v.overloaded(retry_after);
            &&& v.overload_strikes < 6 ==> after.overload_strikes == v.overload_strikes + 1
            &&& v.overload_strikes == 6 ==> after.overload_strikes == 6
            &&& retry_after is None ==> after.overload_hint == v.overload_hint
            &&& retry_after is Some ==> after.overload_hint is Some && after.overload_hint->0
                >= retry_after->0
            &&& v.overload_hint is Some ==> after.overload_hint is Some && after.overload_hint->0
                >= v.overload_hint->0
            &&& after.overload_hint == retry_after || after.overload_hint == v.overload_hint
            &&& after == (SchedulerView {
                overload_strikes: after.overload_strikes,
                overload_hint: after.overload_hint,
                ..v
            })
        }),
{
}

/// Without a strike nobody waits. With some, the first worker waits what the strikes
/// earn or what was asked for, whichever is longer; each other waits as long and a
/// part of as much again, which its number decides.
pub proof fn law_workers_wait_in_turn(v: SchedulerView, worker: usize)
    requires
        v.wf(),
    ensures
        v.overload_strikes == 0 ==> v.pause(worker) is None,
        v.overload_strikes > 0 ==> v.pause(0) is Some,
        v.overload_strikes > 0 ==> v.pause(0)->0 >= backoff_ladder(v.overload_strikes),
        v.overload_strikes > 0 && v.overload_hint is Some ==> v.pause(0)->0 >= v.overload_hint->0,
        v.overload_strikes > 0 ==> v.pause(0)->0 == backoff_ladder(v.overload_strikes) || (
        v.overload_hint is Some && v.pause(0)->0 == v.overload_hint->0),
        v.overload_strikes > 0 && worker as u64 * 2_654_435_761 <= u64::MAX && v.pause(0)->0
            <= 0x7fff_ffff_ffff_ffff ==> v.pause(worker) is Some && v.pause(worker)->0 == v.pause(0)->0
            + (worker as u64 * 2_654_435_761) % (v.pause(0)->0 as int),
{
    crate::schedule::lemma_backoff_ladder(v.overload_strikes);
    let base = v.base_pause();
    let zero = (0usize as u64).wrapping_mul(crate::schedule::JITTER_MULTIPLIER);
    assert(0u64 * 2_654_435_761 == 0);
    assert(zero == 0);
    assert(0int % base == 0) by (nonlinear_arith)
        requires
            base > 0,
    ;
    let mixed = worker as u64 * 2_654_435_761;
    if mixed <= u64::MAX {
        assert((worker as u64).wrapping_mul(crate::schedule::JITTER_MULTIPLIER) == mixed);
        assert(0 <= mixed % base < base) by (nonlinear_arith)
            requires
                base > 0,
        ;
    }
}

/// A worker that is done has its claim struck off. What it had not delivered of a
/// range that it owned can be claimed again, and nothing else; with a copy nothing
/// is given back. A worker without a claim changes nothing.
pub proof fn law_what_was_not_delivered_can_be_claimed_again(
    v: SchedulerView,
    worker: usize,
    reached: u64,
)
    requires
        v.wf(),
    ensures
        ({
            let after = v.finished(worker, reached);
            let mine = first_live(v.live, held_by(worker), 0);
            let l = v.live[mine->0];
            &&& (forall|k: int| 0 <= k < v.live.len() ==> (#[trigger] v.live[k]).worker != worker)
                ==> after == v
            &&& mine is Some ==> {
                &&& after.live.len() == v.live.len() - 1
                &&& forall|b: int| #[trigger]
                    covers(after.unclaimed, b) <==> covers(v.unclaimed, b) || (l.hedge_of is None
                        && reached <= b <= l.claim.end)
                &&& reached <= l.claim.end ==> after.live == v.live.remove(mine->0)
            }
        }),
{
    let mine = first_live(v.live, held_by(worker), 0);
    lemma_first_live(v.live, held_by(worker), 0);
    if mine is Some {
        let l = v.live[mine->0];
        assert(v.live[mine->0].worker == worker);
        if reached <= l.claim.end && l.hedge_of is None {
            lemma_insert_range(v.unclaimed, reached, l.claim.end);
        }
        let rest = v.without_live(mine->0);
        let wanted = match l.hedge_of {
            Some(start) => owner_of(start),
            None => copy_of(l.claim.start),
        };
        lemma_first_live(rest.live, wanted, 0);
        assert(reached > l.claim.end ==> v.finished(worker, reached) == rest.cut_short(wanted));
    }
}

/// Of a claim and its copy, the one that is done first ends the other: what raced
/// for the same bytes owes nothing any more. No other claim is touched.
#[verifier::rlimit(50)]
pub proof fn law_the_first_of_two_ends_the_race(
    v: SchedulerView,
    worker: usize,
    reached: u64,
    k: int,
)
    requires
        v.wf(),
        first_live(v.live, held_by(worker), 0) is Some,
        reached > v.live[first_live(v.live, held_by(worker), 0)->0].claim.end,
        0 <= k < v.live.len(),
        k != first_live(v.live, held_by(worker), 0)->0,
    ensures
        ({
            let i = first_live(v.live, held_by(worker), 0)->0;
            let l = v.live[i];
            let other = v.live[k];
            let races = if l.hedge_of is Some {
                other.hedge_of is None && Some(other.claim.start) == l.hedge_of
            } else {
                other.hedge_of == Some(l.claim.start)
            };
            let at = if k < i {
                k
            } else {
                k - 1
            };
            let after = v.finished(worker, reached);
            &&& !races ==> after.live[at] == other
            &&& races && other.claim.cursor > 0 && (forall|j: int|
                0 <= j < v.live.len() && j != i && j != k ==> (#[trigger] v.live[j]).hedge_of
                    != other.hedge_of || (l.hedge_of is Some && v.live[j].claim.start
                    != other.claim.start)) ==> after.live[at].claim.cursor
                > after.live[at].claim.end && after.live[at] == (Live {
                claim: Claim { end: after.live[at].claim.end, ..other.claim },
                ..other
            })
        }),
{
    let i = first_live(v.live, held_by(worker), 0)->0;
    lemma_first_live(v.live, held_by(worker), 0);
    let l = v.live[i];
    let other = v.live[k];
    let rest = v.without_live(i);
    let at = if k < i {
        k
    } else {
        k - 1
    };
    let wanted = match l.hedge_of {
        Some(start) => owner_of(start),
        None => copy_of(l.claim.start),
    };
    assert(v.finished(worker, reached) == rest.cut_short(wanted));
    lemma_first_live(rest.live, wanted, 0);
    assert(rest.live[at] == other);
    if wanted(other) {
        lemma_finds(rest.live, wanted, 0, at);
        let f = first_live(rest.live, wanted, 0)->0;
        if f != at {
            let j = if f < i {
                f
            } else {
                f + 1
            };
            assert(rest.live[f] == v.live[j]);
        }
    }
}

pub(crate) proof fn lemma_finds(live: Seq<Live>, wanted: spec_fn(Live) -> bool, i: int, k: int)
    requires
        0 <= i <= k < live.len(),
        wanted(live[k]),
    ensures
        first_live(live, wanted, i) is Some,
    decreases k - i,
{
    if !wanted(live[i]) {
        lemma_finds(live, wanted, i + 1, k);
    }
}

/// Delivering moves a worker's next byte, and announcing moves only how far it has
/// committed itself, which never falls back; no other claim changes.
pub proof fn law_delivering_moves_the_workers_claim(
    v: SchedulerView,
    worker: usize,
    next: u64,
    k: int,
)
    requires
        0 <= k < v.live.len(),
        v.live[k].worker == worker,
        forall|j: int| 0 <= j < k ==> (#[trigger] v.live[j]).worker != worker,
    ensures
        ({
            let said = v.announced(worker, next);
            let done = v.landed(worker, next);
            let c = v.live[k].claim;
            let r = imax(c.reserved as int, next as int) as u64;
            &&& said == (SchedulerView { live: said.live, ..v })
            &&& done == (SchedulerView { live: done.live, ..v })
            &&& said.live == v.live.update(
                k,
                Live { claim: Claim { reserved: r, ..c }, ..v.live[k] },
            )
            &&& done.live == v.live.update(
                k,
                Live { claim: Claim { cursor: next, reserved: r, ..c }, ..v.live[k] },
            )
        }),
{
    lemma_first_live(v.live, held_by(worker), 0);
    lemma_finds(v.live, held_by(worker), 0, k);
    lemma_first_is_least(v.live, held_by(worker), 0, k);
}

proof fn lemma_first_is_least(live: Seq<Live>, wanted: spec_fn(Live) -> bool, i: int, k: int)
    requires
        0 <= i <= k < live.len(),
        wanted(live[k]),
        forall|j: int| i <= j < k ==> !wanted(#[trigger] live[j]),
    ensures
        first_live(live, wanted, i) == Some(k),
    decreases k - i,
{
    if i < k {
        assert(!wanted(live[i]));
        lemma_first_is_least(live, wanted, i + 1, k);
    }
}

/// A request begins with every byte of its range unclaimed that is not staged yet and
/// with no claim. A two-hundredth of its length, but 32 MiB at most, may be fetched
/// twice.
pub proof fn law_a_request_begins_with_what_is_missing(
    req_start: u64,
    req_end: u64,
    strategy: Strategy,
    volumes: Seq<VolumeMeta>,
    threads: (int, int),
    split_cap: Option<u64>,
    staged: Seq<(u64, u64)>,
)
    requires
        req_start <= req_end,
    ensures
        ({
            let v = SchedulerView::opening(
                req_start,
                req_end,
                strategy,
                volumes,
                threads.0,
                threads.1,
                split_cap,
                staged,
            );
            let len = req_end - req_start + 1;
            &&& forall|b: int| #[trigger]
                covers(v.unclaimed, b) <==> req_start <= b <= req_end && !covers(staged, b)
            &&& v.live.len() == 0
            &&& v.read_head == req_start
            &&& v.work_limit is None
            &&& v.auto_limit is None
            &&& v.auto_wall == u64::MAX
            &&& v.overload_strikes == 0
            &&& v.overload_hint is None
            &&& v.strategy == strategy
            &&& threads.0 >= 1 ==> v.max_threads == threads.0
            &&& threads.0 < 1 ==> v.max_threads == 1
            &&& threads.1 >= 1 ==> v.max_per_volume == threads.1
            &&& threads.1 < 1 ==> v.max_per_volume == 1
            &&& split_cap is Some && split_cap->0 > 0 ==> v.split_cap == split_cap
            &&& split_cap is None || split_cap->0 == 0 ==> v.split_cap is None
            &&& v.dup_budget <= 33_554_432
            &&& 200 * v.dup_budget <= len
            &&& v.dup_budget < 33_554_432 ==> 200 * (v.dup_budget + 1) > len
        }),
{
    let whole = seq![(req_start, req_end)];
    lemma_without(whole, staged);
    assert forall|b: int| #[trigger] covers(whole, b) <==> req_start <= b <= req_end by {
        if req_start <= b <= req_end {
            assert(whole[0].0 <= b <= whole[0].1);
        }
    }
}

} // verus!
