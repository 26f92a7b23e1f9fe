//! Which worker fetches what.

use crate::ranges::{covers, lemma_insert_range};
use crate::schedule::{
    lemma_given_back_wf, lemma_with_end_wf, lemma_without_live_wf, Claim, Live, SchedulerView,
};
use vstd::prelude::*;

verus! {

/// The claims that `p` picks, in their order.
pub open spec fn picked(live: Seq<Live>, p: spec_fn(Live) -> bool) -> Seq<Live>
    decreases live.len(),
{
    if live.len() == 0 {
        seq![]
    } else if p(live[0]) {
        seq![live[0]] + picked(live.drop_first(), p)
    } else {
        picked(live.drop_first(), p)
    }
}

pub open spec fn workers_of(live: Seq<Live>) -> Seq<usize> {
    live.map_values(|l: Live| l.worker)
}

pub open spec fn claims_of(live: Seq<Live>) -> Seq<Claim> {
    live.map_values(|l: Live| l.claim)
}

/// A claim that still owes bytes and has moved none for thirty seconds.
pub open spec fn stopped(now: u64) -> spec_fn(Live) -> bool {
    |l: Live|
        l.claim.cursor <= l.claim.end && l.claim.cursor <= l.last_cursor && now - l.last_progress
            >= 30_000_000_000
}

pub open spec fn not_stopped(now: u64) -> spec_fn(Live) -> bool {
    |l: Live| !stopped(now)(l)
}

/// After a sweep no claim is left that owes bytes and has moved none for thirty
/// seconds. The workers that are returned are exactly those of the claims that had
/// stopped, whatever they had delivered before; their bytes can be claimed again, and
/// all other claims stay as they are.
pub proof fn law_a_sweep_recuts_what_has_stopped(v: SchedulerView)
    requires
        v.wf(),
    ensures
        ({
            let (after, out) = v.swept(0);
            &&& out == workers_of(picked(v.live, stopped(v.now)))
            &&& claims_of(after.live) == claims_of(picked(v.live, not_stopped(v.now)))
            &&& workers_of(after.live) == workers_of(picked(v.live, not_stopped(v.now)))
            &&& forall|k: int|
                0 <= k < after.live.len() && (#[trigger] after.live[k]).claim.cursor
                    <= after.live[k].claim.end ==> v.now - after.live[k].last_progress
                    < 30_000_000_000
            &&& forall|j: int, b: int|
                0 <= j < v.live.len() && stopped(v.now)(#[trigger] v.live[j])
                    && v.live[j].hedge_of is None && v.live[j].claim.cursor <= b
                    <= v.live[j].claim.end ==> #[trigger] covers(after.unclaimed, b)
            &&& forall|b: int| covers(v.unclaimed, b) ==> #[trigger] covers(after.unclaimed, b)
        }),
{
    lemma_swept(v, 0);
    assert(v.live.skip(0) =~= v.live);
    let after = v.swept(0).0;
    assert(after.live.skip(0) =~= after.live);
}

#[verifier::rlimit(50)]
proof fn lemma_swept(v: SchedulerView, i: int)
    requires
        v.wf(),
        0 <= i <= v.live.len(),
    ensures
        ({
            let (after, out) = v.swept(i);
            &&& out == workers_of(picked(v.live.skip(i), stopped(v.now)))
            &&& i <= after.live.len()
            &&& after.live.take(i) == v.live.take(i)
            &&& claims_of(after.live.skip(i)) == claims_of(
                picked(v.live.skip(i), not_stopped(v.now)),
            )
            &&& workers_of(after.live.skip(i)) == workers_of(
                picked(v.live.skip(i), not_stopped(v.now)),
            )
            &&& forall|k: int|
                i <= k < after.live.len() && (#[trigger] after.live[k]).claim.cursor
                    <= after.live[k].claim.end ==> v.now - after.live[k].last_progress
                    < 30_000_000_000
            &&& forall|j: int, b: int|
                i <= j < v.live.len() && stopped(v.now)(#[trigger] v.live[j])
                    && v.live[j].hedge_of is None && v.live[j].claim.cursor <= b
                    <= v.live[j].claim.end ==> #[trigger] covers(after.unclaimed, b)
            &&& forall|b: int| covers(v.unclaimed, b) ==> #[trigger] covers(after.unclaimed, b)
        }),
    decreases v.live.len() - i,
{
    let (after, out) = v.swept(i);
    let s = v.live.skip(i);
    if i == v.live.len() {
        assert(out =~= workers_of(picked(s, stopped(v.now))));
        assert(claims_of(after.live.skip(i)) =~= claims_of(picked(s, not_stopped(v.now))));
        assert(workers_of(after.live.skip(i)) =~= workers_of(picked(s, not_stopped(v.now))));
    } else {
        let l = v.live[i];
        let c = l.claim;
        assert(v.live_ok(l));
        assert(s[0] == l);
        assert(s.drop_first() =~= v.live.skip(i + 1));
        if c.cursor > l.last_cursor || c.cursor > c.end {
            let fresh = Live { last_cursor: c.cursor, last_progress: v.now, ..l };
            let seen = SchedulerView { live: v.live.update(i, fresh), ..v };
            assert forall|k: int| 0 <= k < seen.live.len() implies seen.live_ok(
                #[trigger] seen.live[k],
            ) by {
                assert(v.live_ok(v.live[k]));
            }
            lemma_swept(seen, i + 1);
            assert(seen.live.skip(i + 1) =~= v.live.skip(i + 1));
            assert(after.live.take(i + 1) == seen.live.take(i + 1));
            assert(after.live[i] == after.live.take(i + 1)[i]);
            assert(seen.live.take(i + 1)[i] == fresh);
            assert(after.live.take(i) =~= v.live.take(i)) by {
                assert(after.live.take(i) =~= after.live.take(i + 1).take(i));
                assert(v.live.take(i) =~= seen.live.take(i + 1).take(i));
            }
            lemma_front(after.live, i, s, not_stopped(v.now));
            assert forall|j: int, b: int|
                i <= j < v.live.len() && stopped(v.now)(#[trigger] v.live[j])
                    && v.live[j].hedge_of is None && v.live[j].claim.cursor <= b
                    <= v.live[j].claim.end implies #[trigger] covers(after.unclaimed, b) by {
                assert(j != i);
                assert(seen.live[j] == v.live[j]);
            }
        } else if v.now - l.last_progress < crate::schedule::DEAD_CLAIM_WINDOW {
            lemma_swept(v, i + 1);
            assert(after.live[i] == after.live.take(i + 1)[i]);
            assert(v.live.take(i + 1)[i] == l);
            assert(after.live.take(i) =~= v.live.take(i)) by {
                assert(after.live.take(i) =~= after.live.take(i + 1).take(i));
                assert(v.live.take(i) =~= v.live.take(i + 1).take(i));
            }
            lemma_front(after.live, i, s, not_stopped(v.now));
        } else {
            let cut = v.without_live(i);
            let rest = if l.hedge_of is None {
                cut.given_back(c.cursor as int, c.end)
            } else {
                cut
            };
            lemma_without_live_wf(v, i);
            lemma_given_back_wf(cut, c.cursor as int, c.end);
            if l.hedge_of is None {
                lemma_insert_range(v.unclaimed, c.cursor, c.end);
            }
            lemma_swept(rest, i);
            assert(rest.live.skip(i) =~= v.live.skip(i + 1));
            assert(rest.live.take(i) =~= v.live.take(i));
            assert(workers_of(picked(s, stopped(v.now))) =~= seq![l.worker] + workers_of(
                picked(v.live.skip(i + 1), stopped(v.now)),
            ));
            assert forall|j: int, b: int|
                i <= j < v.live.len() && stopped(v.now)(#[trigger] v.live[j])
                    && v.live[j].hedge_of is None && v.live[j].claim.cursor <= b
                    <= v.live[j].claim.end implies #[trigger] covers(after.unclaimed, b) by {
                if j == i {
                    assert(covers(rest.unclaimed, b));
                } else {
                    assert(rest.live[j - 1] == v.live[j]);
                }
            }
        }
    }
}

/// A claim that is kept stands first among those that are kept from there on.
proof fn lemma_front(live: Seq<Live>, i: int, s: Seq<Live>, p: spec_fn(Live) -> bool)
    requires
        0 <= i < live.len(),
        s.len() > 0,
        p(s[0]),
        live[i].claim == s[0].claim,
        live[i].worker == s[0].worker,
        claims_of(live.skip(i + 1)) == claims_of(picked(s.drop_first(), p)),
        workers_of(live.skip(i + 1)) == workers_of(picked(s.drop_first(), p)),
    ensures
        claims_of(live.skip(i)) == claims_of(picked(s, p)),
        workers_of(live.skip(i)) == workers_of(picked(s, p)),
{
    let rest = picked(s.drop_first(), p);
    assert(live.skip(i) =~= seq![live[i]] + live.skip(i + 1));
    assert(claims_of(live.skip(i)) =~= seq![live[i].claim] + claims_of(live.skip(i + 1)));
    assert(claims_of(picked(s, p)) =~= seq![s[0].claim] + claims_of(rest));
    assert(workers_of(live.skip(i)) =~= seq![live[i].worker] + workers_of(live.skip(i + 1)));
    assert(workers_of(picked(s, p)) =~= seq![s[0].worker] + workers_of(rest));
}

/// A claim that owes bytes and lies where a reader at `head` has no use for it: it
/// begins `window` bytes or more ahead, ends before the reader, or would have to
/// deliver more than `grace` bytes before it reaches the reader.
pub open spec fn useless(head: u64, window: int, grace: int) -> spec_fn(Live) -> bool {
    |l: Live|
        l.claim.cursor <= l.claim.end && (l.claim.cursor >= head + window || l.claim.end < head
            || l.claim.cursor + grace < head)
}

/// Refocusing takes exactly those claims back that a reader has no use for, returns
/// their workers, and makes their bytes claimable again; the claims of all other
/// workers stay, where they began and with what they have delivered, and none is made
/// longer.
pub proof fn law_refocusing_takes_back_what_is_no_use(v: SchedulerView, window: u64)
    requires
        v.wf(),
        v.strategy is Latency,
    ensures
        ({
            let (after, out) = v.refocused(window, 0);
            let w = if window == 0 {
                1int
            } else {
                window as int
            };
            let grace = if v.strategy->head_claim < 1_048_576 {
                1_048_576int
            } else {
                v.strategy->head_claim as int
            };
            let p = useless(v.read_head, w, grace);
            &&& out == workers_of(picked(v.live, p))
            &&& workers_of(after.live) == workers_of(picked(v.live, |l: Live| !p(l)))
            &&& forall|j: int, b: int|
                0 <= j < v.live.len() && p(#[trigger] v.live[j]) && v.live[j].hedge_of is None
                    && v.live[j].claim.cursor <= b <= v.live[j].claim.end ==> #[trigger] covers(
                    after.unclaimed,
                    b,
                )
            &&& forall|b: int| covers(v.unclaimed, b) ==> #[trigger] covers(after.unclaimed, b)
        }),
{
    let w = if window == 0 {
        1int
    } else {
        window as int
    };
    let grace = if v.strategy->head_claim < 1_048_576 {
        1_048_576int
    } else {
        v.strategy->head_claim as int
    };
    lemma_refocused(v, window, 0, w, grace);
    assert(v.live.skip(0) =~= v.live);
    let after = v.refocused(window, 0).0;
    assert(after.live.skip(0) =~= after.live);
}

#[verifier::rlimit(50)]
proof fn lemma_refocused(v: SchedulerView, window: u64, i: int, w: int, grace: int)
    requires
        v.wf(),
        v.strategy is Latency,
        0 <= i <= v.live.len(),
        w == if window == 0 {
            1int
        } else {
            window as int
        },
        grace == if v.strategy->head_claim < 1_048_576 {
            1_048_576int
        } else {
            v.strategy->head_claim as int
        },
    ensures
        ({
            let (after, out) = v.refocused(window, i);
            let p = useless(v.read_head, w, grace);
            &&& out == workers_of(picked(v.live.skip(i), p))
            &&& i <= after.live.len()
            &&& workers_of(after.live.take(i)) == workers_of(v.live.take(i))
            &&& workers_of(after.live.skip(i)) == workers_of(
                picked(v.live.skip(i), |l: Live| !p(l)),
            )
            &&& forall|j: int, b: int|
                i <= j < v.live.len() && p(#[trigger] v.live[j]) && v.live[j].hedge_of is None
                    && v.live[j].claim.cursor <= b <= v.live[j].claim.end ==> #[trigger] covers(
                    after.unclaimed,
                    b,
                )
            &&& forall|b: int| covers(v.unclaimed, b) ==> #[trigger] covers(after.unclaimed, b)
        }),
    decreases v.live.len() - i,
{
    let (after, out) = v.refocused(window, i);
    let p = useless(v.read_head, w, grace);
    let q = |l: Live| !p(l);
    let s = v.live.skip(i);
    if i == v.live.len() {
        assert(out =~= workers_of(picked(s, p)));
        assert(workers_of(after.live.skip(i)) =~= workers_of(picked(s, q)));
    } else {
        let l = v.live[i];
        let c = l.claim;
        let keep = c.cursor + v.claim_len() - 1;
        assert(v.live_ok(l));
        assert(s[0] == l);
        assert(s.drop_first() =~= v.live.skip(i + 1));
        if c.cursor > c.end {
            lemma_refocused(v, window, i + 1, w, grace);
            lemma_kept_worker(v.live, after.live, i, q);
        } else if v.misplaced(l, window) {
            assert(p(l));
            let cut = v.without_live(i);
            let rest = if l.hedge_of is None {
                cut.given_back(c.cursor as int, c.end)
            } else {
                cut
            };
            lemma_without_live_wf(v, i);
            lemma_given_back_wf(cut, c.cursor as int, c.end);
            if l.hedge_of is None {
                lemma_insert_range(v.unclaimed, c.cursor, c.end);
            }
            lemma_refocused(rest, window, i, w, grace);
            assert(rest.live.skip(i) =~= v.live.skip(i + 1));
            assert(rest.live.take(i) =~= v.live.take(i));
            assert(workers_of(picked(s, p)) =~= seq![l.worker] + workers_of(
                picked(v.live.skip(i + 1), p),
            ));
            assert forall|j: int, b: int|
                i <= j < v.live.len() && p(#[trigger] v.live[j]) && v.live[j].hedge_of is None
                    && v.live[j].claim.cursor <= b <= v.live[j].claim.end implies #[trigger] covers(
                after.unclaimed,
                b,
            ) by {
                if j == i {
                    assert(covers(rest.unclaimed, b));
                } else {
                    assert(rest.live[j - 1] == v.live[j]);
                }
            }
        } else if l.hedge_of is None && keep < c.end {
            assert(!p(l));
            let cut = v.with_end(i, keep as u64);
            let from = if keep + 1 < c.reserved {
                c.reserved as int
            } else {
                keep + 1
            };
            lemma_with_end_wf(v, i, keep as u64);
            lemma_given_back_wf(cut, from, c.end);
            if from <= c.end {
                lemma_insert_range(v.unclaimed, from as u64, c.end);
            }
            let rest = cut.given_back(from, c.end);
            lemma_refocused(rest, window, i + 1, w, grace);
            assert(rest.live.skip(i + 1) =~= v.live.skip(i + 1));
            assert(workers_of(rest.live) =~= workers_of(v.live));
            assert(workers_of(rest.live.take(i + 1)) =~= workers_of(v.live.take(i + 1)));
            lemma_kept_worker(v.live, after.live, i, q);
            assert forall|j: int, b: int|
                i <= j < v.live.len() && p(#[trigger] v.live[j]) && v.live[j].hedge_of is None
                    && v.live[j].claim.cursor <= b <= v.live[j].claim.end implies #[trigger] covers(
                after.unclaimed,
                b,
            ) by {
                assert(j != i);
                assert(rest.live[j] == v.live[j]);
            }
        } else {
            assert(!p(l));
            lemma_refocused(v, window, i + 1, w, grace);
            lemma_kept_worker(v.live, after.live, i, q);
        }
    }
}

proof fn lemma_kept_worker(
    before: Seq<Live>,
    after: Seq<Live>,
    i: int,
    q: spec_fn(Live) -> bool,
)
    requires
        0 <= i < before.len(),
        i + 1 <= after.len(),
        q(before[i]),
        workers_of(after.take(i + 1)) == workers_of(before.take(i + 1)),
        workers_of(after.skip(i + 1)) == workers_of(picked(before.skip(i + 1), q)),
    ensures
        workers_of(after.take(i)) == workers_of(before.take(i)),
        workers_of(after.skip(i)) == workers_of(picked(before.skip(i), q)),
{
    let a = workers_of(after.take(i + 1));
    let b = workers_of(before.take(i + 1));
    assert(a[i] == after[i].worker);
    assert(b[i] == before[i].worker);
    assert(workers_of(after.take(i)) =~= a.take(i));
    assert(workers_of(before.take(i)) =~= b.take(i));
    let s = before.skip(i);
    assert(s[0] == before[i]);
    assert(s.drop_first() =~= before.skip(i + 1));
    assert(workers_of(after.skip(i)) =~= seq![after[i].worker] + workers_of(after.skip(i + 1)));
    assert(workers_of(picked(s, q)) =~= seq![before[i].worker] + workers_of(
        picked(before.skip(i + 1), q),
    ));
}

/// After refocusing no claim that owns its range owes more than one thread's part of
/// what is buffered, or than a first claim where that is longer.
pub proof fn law_refocusing_leaves_short_claims(v: SchedulerView, window: u64, k: int)
    requires
        v.wf(),
        v.strategy is Latency,
        0 <= k < v.refocused(window, 0).0.live.len(),
        v.refocused(window, 0).0.live[k].hedge_of is None,
    ensures
        ({
            let owed = v.refocused(window, 0).0.live[k].claim.owed();
            let share = v.buffered as int / v.max_threads;
            owed <= 1 || owed <= share || owed <= v.strategy->head_claim
        }),
{
    lemma_refocused_short(v, window, 0);
}

proof fn lemma_refocused_short(v: SchedulerView, window: u64, i: int)
    requires
        v.wf(),
        v.strategy is Latency,
        0 <= i <= v.live.len(),
    ensures
        ({
            let after = v.refocused(window, i).0;
            let share = v.buffered as int / v.max_threads;
            &&& i <= after.live.len()
            &&& after.live.take(i) == v.live.take(i)
            &&& forall|k: int|
                i <= k < after.live.len() && (#[trigger] after.live[k]).hedge_of is None
                    ==> after.live[k].claim.owed() <= 1 || after.live[k].claim.owed() <= share
                    || after.live[k].claim.owed() <= v.strategy->head_claim
        }),
    decreases v.live.len() - i,
{
    let after = v.refocused(window, i).0;
    if i < v.live.len() {
        let l = v.live[i];
        let c = l.claim;
        let keep = c.cursor + v.claim_len() - 1;
        assert(v.live_ok(l));
        if c.cursor > c.end {
            lemma_refocused_short(v, window, i + 1);
            lemma_one_less(after.live, v.live, i);
        } else if v.misplaced(l, window) {
            let cut = v.without_live(i);
            let rest = if l.hedge_of is None {
                cut.given_back(c.cursor as int, c.end)
            } else {
                cut
            };
            lemma_without_live_wf(v, i);
            lemma_given_back_wf(cut, c.cursor as int, c.end);
            lemma_refocused_short(rest, window, i);
            assert(rest.live.take(i) =~= v.live.take(i));
        } else if l.hedge_of is None && keep < c.end {
            let cut = v.with_end(i, keep as u64);
            let from = if keep + 1 < c.reserved {
                c.reserved as int
            } else {
                keep + 1
            };
            lemma_with_end_wf(v, i, keep as u64);
            lemma_given_back_wf(cut, from, c.end);
            let rest = cut.given_back(from, c.end);
            lemma_refocused_short(rest, window, i + 1);
            lemma_one_less(after.live, rest.live, i);
            assert(rest.live.take(i) =~= v.live.take(i));
            assert(after.live[i].claim.owed() == v.claim_len());
        } else {
            lemma_refocused_short(v, window, i + 1);
            lemma_one_less(after.live, v.live, i);
        }
    }
}

proof fn lemma_one_less(a: Seq<Live>, b: Seq<Live>, i: int)
    requires
        0 <= i < b.len(),
        i < a.len(),
        a.take(i + 1) == b.take(i + 1),
    ensures
        a.take(i) == b.take(i),
        a[i] == b[i],
{
    assert(a.take(i) =~= a.take(i + 1).take(i));
    assert(b.take(i) =~= b.take(i + 1).take(i));
    assert(a[i] == a.take(i + 1)[i]);
    assert(b[i] == b.take(i + 1)[i]);
}

} // verus!
