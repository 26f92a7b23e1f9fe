//! Which piece of which file is asked of whom.

use crate::engine::{
    headed, lemma_volume_from, pieces, planned, volume_from, weight_of, weight_sum, weighted_choice,
    weighted_from, Aim, Engine,
};
use crate::text::views;
use vstd::prelude::*;

verus! {

/// Without volumes a request is for the very bytes that were asked for, and as many
/// attempts as there are URLs reach each of them.
pub proof fn law_attempts_go_round_the_urls(
    e: Engine,
    idx: int,
    locator: u64,
    start: u64,
    end: u64,
    u: int,
) -> (attempt: int)
    requires
        e.volumes is None,
        0 <= idx,
        0 <= u < e.urls@.len(),
    ensures
        0 <= attempt < e.urls@.len(),
        e.aim(idx, attempt, locator, start, end) == (Aim::Url {
            url: e.urls@[u]@,
            local_start: start as int,
            local_end: end as int,
            merged_start: start as int,
        }),
{
    let n = e.urls@.len() as int;
    lemma_round(idx, u, n)
}

proof fn lemma_round(idx: int, u: int, n: int) -> (attempt: int)
    requires
        0 <= idx,
        0 <= u < n,
    ensures
        0 <= attempt < n,
        (idx + attempt) % n == u,
{
    let r = idx % n;
    let attempt = if u >= r {
        u - r
    } else {
        u - r + n
    };
    let q = idx / n;
    assert(idx == q * n + r && 0 <= r < n) by (nonlinear_arith)
        requires
            r == idx % n,
            q == idx / n,
            n > 0,
    ;
    if u >= r {
        assert((idx + attempt) % n == u) by {
            assert(idx + attempt == q * n + u);
            vstd::arithmetic::div_mod::lemma_fundamental_div_mod_converse(idx + attempt, n, q, u);
        }
    } else {
        assert((q + 1) * n == q * n + n) by (nonlinear_arith);
        vstd::arithmetic::div_mod::lemma_fundamental_div_mod_converse(idx + attempt, n, q + 1, u);
    }
    attempt
}

/// Where volumes are stitched, the bytes from `start` on are asked of a mirror of the
/// volume that holds byte `start`, as far as that volume and the request reach, and
/// counted from the volume's own beginning; the first attempt and the next ones
/// together reach every mirror.
#[verifier::rlimit(50)]
pub proof fn law_a_byte_is_asked_of_its_volume(
    e: Engine,
    idx: int,
    attempt: int,
    start: u64,
    end: u64,
    k: int,
)
    requires
        e.wf(),
        e.volumes is Some,
        0 <= idx,
        0 <= attempt,
        start <= end,
        0 <= k < e.volumes->0@.len(),
        e.volumes->0@[k].size > 0,
        e.volumes->0@[k].offset <= start < e.volumes->0@[k].offset + e.volumes->0@[k].size,
        forall|j: int|
            0 <= j < k ==> !((#[trigger] e.volumes->0@[j]).offset <= start
                < e.volumes->0@[j].offset + e.volumes->0@[j].size),
        e.volumes->0@[k].urls@.len() > 0,
    ensures
        ({
            let v = e.volumes->0@[k];
            let a = e.aim(idx, attempt, start, start, end);
            &&& a is Url
            &&& a->merged_start == start
            &&& a->local_start == start - v.offset
            &&& a->local_start <= a->local_end < v.size
            &&& v.offset + a->local_end <= end
            &&& a->local_end == v.size - 1 || v.offset + a->local_end == end
            &&& exists|m: int| 0 <= m < v.urls@.len() && #[trigger] v.urls@[m]@ == a->url
            &&& attempt > 0 ==> a->url == v.urls@[(idx + attempt) % v.urls@.len() as int]@
            &&& v.urls@.len() == 1 ==> a->url == v.urls@[0]@
        }),
{
    let vols = e.volumes->0@;
    lemma_volume_from(vols, start as int, 0);
    assert(vols[k].holds(start as int));
    let f = volume_from(vols, start as int, 0)->0;
    assert(f == k) by {
        if f < k {
            assert(vols[f].holds(start as int));
        } else if f > k {
            lemma_first_volume(vols, start as int, 0, k);
        }
    }
    let v = vols[k];
    let n = v.urls@.len() as int;
    let m = e.mirror_choice(views(v.urls@), idx, attempt);
    assert(0 <= (idx + attempt) % n < n) by (nonlinear_arith)
        requires
            n > 0,
    ;
    assert(0 <= m < n) by {
        if attempt == 0 && n > 1 {
            let weights = Seq::new(
                views(v.urls@).len(),
                |i: int| crate::engine::weight_in(e.health@, views(v.urls@)[i]),
            );
            lemma_choice_in_range(weights, idx);
        }
    }
    assert(v.urls@[m]@ == e.aim(idx, attempt, start, start, end)->url);
}

proof fn lemma_first_volume(vols: Seq<crate::engine::VolumeMeta>, offset: int, i: int, k: int)
    requires
        0 <= i <= k < vols.len(),
        vols[k].holds(offset),
    ensures
        volume_from(vols, offset, i) is Some,
        volume_from(vols, offset, i)->0 <= k,
    decreases k - i,
{
    if !vols[i].holds(offset) {
        lemma_first_volume(vols, offset, i + 1, k);
    }
}

proof fn lemma_choice_in_range(weights: Seq<u64>, idx: int)
    requires
        weights.len() > 0,
        0 <= idx,
    ensures
        0 <= weighted_choice(weights, idx) < weights.len(),
{
    let n = weights.len() as int;
    let sum = weight_sum(weights);
    assert(0 <= idx % n < n) by (nonlinear_arith)
        requires
            n > 0,
    ;
    lemma_sum_nonneg(weights);
    if sum > 0 {
        assert(0 <= idx % sum < sum) by (nonlinear_arith)
            requires
                sum > 0,
        ;
        assert(weights.take(0) =~= seq![]);
        lemma_weighted(weights, idx % sum, 0);
    }
}

proof fn lemma_sum_nonneg(weights: Seq<u64>)
    ensures
        weight_sum(weights) >= 0,
    decreases weights.len(),
{
    if weights.len() > 0 {
        lemma_sum_nonneg(weights.drop_last());
    }
}

proof fn lemma_weighted(weights: Seq<u64>, point: int, i: int)
    requires
        0 <= i < weights.len(),
        0 <= point,
        point + weight_sum(weights.take(i)) < weight_sum(weights),
    ensures
        ({
            let c = weighted_from(weights, point, i);
            &&& i <= c < weights.len()
            &&& weight_sum(weights.take(c)) <= point + weight_sum(weights.take(i)) < weight_sum(
                weights.take(c + 1),
            )
        }),
    decreases weights.len() - i,
{
    assert(weights.take(i + 1).drop_last() =~= weights.take(i));
    if point >= weights[i] {
        if i + 1 == weights.len() {
            assert(weights.take(i + 1) =~= weights);
        } else {
            lemma_weighted(weights, point - weights[i], i + 1);
        }
    }
}

/// Of as many requests in a row as the weights add up to, each mirror gets as many as
/// its weight: the first of them go to the first mirror, the next ones to the second,
/// and so on.
pub proof fn law_mirrors_are_asked_by_weight(weights: Seq<u64>, idx: int)
    requires
        0 <= idx < weight_sum(weights),
    ensures
        ({
            let c = weighted_choice(weights, idx);
            &&& 0 <= c < weights.len()
            &&& weight_sum(weights.take(c)) <= idx < weight_sum(weights.take(c)) + weights[c]
        }),
        weighted_choice(weights, idx + weight_sum(weights)) == weighted_choice(weights, idx),
{
    let sum = weight_sum(weights);
    assert(idx % sum == idx) by (nonlinear_arith)
        requires
            0 <= idx < sum,
    ;
    assert((idx + sum) % sum == idx) by {
        vstd::arithmetic::div_mod::lemma_fundamental_div_mod_converse(idx + sum, sum, 1, idx);
    }
    assert(weights.take(0) =~= seq![]);
    lemma_weighted(weights, idx, 0);
    let c = weighted_choice(weights, idx);
    assert(weights.take(c + 1).drop_last() =~= weights.take(c));
}

/// A mirror nothing is known of weighs 100. One that has not failed weighs its speed
/// in KiB per second and one for each success, up to ten; each failure divides that
/// further, by five, nine, thirteen and so on.
pub proof fn law_a_weight_is_speed_over_failures(kib: int, failed: int, succeeded: int)
    requires
        1 <= kib,
        0 <= failed,
        0 <= succeeded,
    ensures
        weight_of(0, 0, 0) == 100,
        succeeded <= 10 ==> weight_of(1024 * kib, 0, succeeded) == kib + succeeded,
        succeeded >= 10 ==> weight_of(1024 * kib, 0, succeeded) == kib + 10,
        ({
            let w = weight_of(1024 * kib, failed, succeeded);
            let all = weight_of(1024 * kib, 0, succeeded);
            &&& w >= 1
            &&& w == 1 || w * (1 + 4 * failed) <= all
            &&& (w + 1) * (1 + 4 * failed) > all
        }),
{
    assert((1024 * kib) / 1024 == kib);
    let top = kib + if succeeded <= 10 {
        succeeded
    } else {
        10
    };
    assert(top / 1 == top);
    let all = weight_of(1024 * kib, 0, succeeded);
    assert(all == top);
    let n = 1 + 4 * failed;
    let d = all / n;
    assert(d * n <= all < (d + 1) * n) by (nonlinear_arith)
        requires
            d == all / n,
            n > 0,
    ;
    let w = weight_of(1024 * kib, failed, succeeded);
    assert(w >= d ==> (w + 1) * n >= (d + 1) * n) by (nonlinear_arith)
        requires
            n > 0,
    ;
}

/// Without volumes every piece of a plan but the last is as long as was asked for,
/// and none is longer.
pub proof fn law_pieces_have_the_length_asked_for(start: u64, end: u64, split: u64, k: int)
    requires
        start <= end < u64::MAX,
        split > 0,
        0 <= k < planned(start, end, split, None).len(),
    ensures
        ({
            let p = planned(start, end, split, None);
            &&& p[k].1 - p[k].0 + 1 <= split
            &&& k < p.len() - 1 ==> p[k].1 - p[k].0 + 1 == split
            &&& p[k].0 == start + k * split
            &&& p[p.len() - 1].1 == end
        }),
{
    lemma_pieces(start as int, end as int, split as int, k);
}

proof fn lemma_pieces(lo: int, hi: int, split: int, k: int)
    requires
        0 <= lo <= hi < u64::MAX,
        split > 0,
        0 <= k < pieces(lo, hi, split).len(),
    ensures
        ({
            let p = pieces(lo, hi, split);
            &&& p[k].1 - p[k].0 + 1 <= split
            &&& k < p.len() - 1 ==> p[k].1 - p[k].0 + 1 == split
            &&& p[k].0 == lo + k * split
            &&& p[p.len() - 1].1 == hi
        }),
    decreases hi + 1 - lo,
{
    let p = pieces(lo, hi, split);
    let stop = if lo + split - 1 < hi {
        lo + split - 1
    } else {
        hi
    };
    let rest = pieces(stop + 1, hi, split);
    assert(p =~= seq![(lo as u64, stop as u64)] + rest);
    assert(0 * split == 0);
    if stop < hi {
        assert(rest.len() > 0);
        lemma_pieces(stop + 1, hi, split, if k > 0 {
            k - 1
        } else {
            0
        });
        assert(p[p.len() - 1] == rest[rest.len() - 1]);
        if k > 0 {
            assert(p[k] == rest[k - 1]);
            assert((k - 1) * split + split == k * split) by (nonlinear_arith);
        }
    } else {
        assert(rest.len() == 0);
    }
}

/// Cutting the head of a plan small: past the first `count` pieces, a piece ends only
/// where one of the plan ended; among them, one is shorter than `small` only where a
/// piece of the plan ended; and every end of the plan's pieces stays one.
#[verifier::rlimit(50)]
pub proof fn law_a_head_zone_cuts_no_more_than_it_must(
    plan: Seq<(u64, u64)>,
    small: u64,
    count: int,
    k: int,
)
    requires
        small > 0,
        0 <= count,
        forall|j: int| 0 <= j < plan.len() ==> (#[trigger] plan[j]).0 <= plan[j].1 < u64::MAX,
        0 <= k < headed(plan, small, count).len(),
    ensures
        ({
            let h = headed(plan, small, count);
            &&& (k < count && h[k].1 - h[k].0 + 1 == small) || exists|j: int|
                0 <= j < plan.len() && (#[trigger] plan[j]).1 == h[k].1
            &&& h.len() <= plan.len() + count
        }),
        forall|j: int|
            0 <= j < plan.len() ==> exists|i: int|
                0 <= i < headed(plan, small, count).len() && (#[trigger] headed(
                    plan,
                    small,
                    count,
                )[i]).1 == (#[trigger] plan[j]).1,
    decreases count,
{
    let h = headed(plan, small, count);
    if count > 0 && plan.len() > 0 {
        let (cs, ce) = plan[0];
        assert(plan[0].0 <= plan[0].1);
        let first = plan.drop_first();
        let next = if ce - cs + 1 <= small {
            first
        } else {
            seq![((cs + small) as u64, ce)] + first
        };
        let rest = headed(next, small, count - 1);
        assert(h.len() == rest.len() + 1);
        assert(forall|i: int| 0 <= i < rest.len() ==> h[i + 1] == #[trigger] rest[i]);
        assert forall|j: int| 0 <= j < next.len() implies (#[trigger] next[j]).0 <= next[j].1
            < u64::MAX by {
            if ce - cs + 1 <= small {
                assert(next[j] == plan[j + 1]);
            } else if j > 0 {
                assert(next[j] == plan[j]);
            }
        }
        if rest.len() > 0 {
            let kk = if k > 0 {
                k - 1
            } else {
                0
            };
            law_a_head_zone_cuts_no_more_than_it_must(next, small, count - 1, kk);
            if k > 0 && !(k < count && h[k].1 - h[k].0 + 1 == small) {
                let j = choose|j: int| 0 <= j < next.len() && (#[trigger] next[j]).1 == rest[kk].1;
                if ce - cs + 1 <= small {
                    assert(plan[j + 1].1 == h[k].1);
                } else {
                    assert(plan[j].1 == h[k].1);
                }
            }
        } else {
            lemma_headed_empty(next, small, count - 1);
        }
        if k == 0 && ce - cs + 1 <= small {
            assert(plan[0].1 == h[0].1);
        }
        assert forall|j: int| 0 <= j < plan.len() implies exists|i: int|
            0 <= i < h.len() && (#[trigger] h[i]).1 == (#[trigger] plan[j]).1 by {
            if ce - cs + 1 <= small && j == 0 {
                assert(h[0].1 == plan[0].1);
            } else {
                let jj = if ce - cs + 1 <= small {
                    j - 1
                } else {
                    j
                };
                assert(next[jj].1 == plan[j].1);
                let i = choose|i: int| 0 <= i < rest.len() && (#[trigger] rest[i]).1 == next[jj].1;
                assert(h[i + 1].1 == plan[j].1);
            }
        }
    } else {
        assert(h == plan);
        assert(plan[k].1 == h[k].1);
    }
}

proof fn lemma_headed_empty(plan: Seq<(u64, u64)>, small: u64, count: int)
    requires
        headed(plan, small, count).len() == 0,
    ensures
        plan.len() == 0,
{
}

/// The first attempt goes to a mirror by its weight, so that a fast one is asked more
/// often than a slow one.
pub proof fn law_the_first_attempt_goes_by_weight(
    e: Engine,
    mirrors: Seq<Seq<char>>,
    weights: Seq<u64>,
    idx: int,
    attempt: int,
)
    requires
        mirrors.len() > 1,
        weights.len() == mirrors.len(),
        forall|i: int|
            0 <= i < weights.len() ==> #[trigger] weights[i] == crate::engine::weight_in(
                e.health@,
                mirrors[i],
            ),
    ensures
        e.mirror_choice(mirrors, idx, 0) == weighted_choice(weights, idx),
        attempt > 0 ==> e.mirror_choice(mirrors, idx, attempt) == (idx + attempt)
            % mirrors.len() as int,
{
    let w = Seq::new(
        mirrors.len(),
        |i: int| crate::engine::weight_in(e.health@, mirrors[i]),
    );
    assert(w =~= weights);
}

} // verus!
