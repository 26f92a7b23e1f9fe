//! Sorted lists of disjoint byte ranges, both ends inclusive.
//!
//! The list is kept minimal: two neighbouring ranges always have at least one
//! byte between them, so a set of bytes has exactly one list.

use vstd::prelude::*;
use vstd::set_lib::*;

verus! {

/// Every range is non-empty, and each one ends at least one byte before the
/// next one begins.
pub open spec fn canonical(l: Seq<(u64, u64)>) -> bool {
    &&& forall|i: int| 0 <= i < l.len() ==> (#[trigger] l[i]).0 <= l[i].1
    &&& forall|i: int, j: int|
        0 <= i < j < l.len() ==> (#[trigger] l[i]).1 + 1 < (#[trigger] l[j]).0
}

/// Byte `b` lies in one of the ranges.
pub open spec fn covers(l: Seq<(u64, u64)>, b: int) -> bool {
    exists|i: int| 0 <= i < l.len() && (#[trigger] l[i]).0 <= b <= l[i].1
}

/// The bytes of the list, as a set.
pub open spec fn bytes_of(l: Seq<(u64, u64)>) -> Set<int> {
    Set::new(|b: int| covers(l, b))
}

/// How many bytes the ranges hold together.
pub open spec fn total(l: Seq<(u64, u64)>) -> int
    decreases l.len(),
{
    if l.len() == 0 {
        0
    } else {
        total(l.drop_last()) + (l.last().1 - l.last().0 + 1)
    }
}

/// What is left of the range `r` once `[s, e]` is taken out of it.
pub open spec fn cut(r: (u64, u64), s: u64, e: u64) -> Seq<(u64, u64)> {
    if r.1 < s || r.0 > e {
        seq![r]
    } else {
        let below = if r.0 < s {
            seq![(r.0, (s - 1) as u64)]
        } else {
            seq![]
        };
        let above = if r.1 > e {
            seq![((e + 1) as u64, r.1)]
        } else {
            seq![]
        };
        below + above
    }
}

/// The list with `[s, e]` taken out of every range.
pub open spec fn remove_range(l: Seq<(u64, u64)>, s: u64, e: u64) -> Seq<(u64, u64)>
    decreases l.len(),
{
    if l.len() == 0 {
        seq![]
    } else {
        remove_range(l.drop_last(), s, e) + cut(l.last(), s, e)
    }
}

/// Index, from `i` on, of the first range that ends at `s - 1` or later.
pub open spec fn first_reaching(l: Seq<(u64, u64)>, s: u64, i: int) -> int
    decreases l.len() - i,
{
    if i >= l.len() {
        l.len() as int
    } else if l[i].1 + 1 >= s {
        i
    } else {
        first_reaching(l, s, i + 1)
    }
}

/// Index, from `i` on, of the first range that begins after `e + 1`.
pub open spec fn first_beyond(l: Seq<(u64, u64)>, e: u64, i: int) -> int
    decreases l.len() - i,
{
    if i >= l.len() {
        l.len() as int
    } else if l[i].0 > e + 1 {
        i
    } else {
        first_beyond(l, e, i + 1)
    }
}

/// The list with `[s, e]` put in: the ranges that overlap or touch it become
/// one range together with it, the others stay.
pub open spec fn insert_range(l: Seq<(u64, u64)>, s: u64, e: u64) -> Seq<(u64, u64)> {
    let a = first_reaching(l, s, 0);
    let b = first_beyond(l, e, a);
    let lo = if a < b && l[a].0 < s {
        l[a].0
    } else {
        s
    };
    let hi = if a < b && l[b - 1].1 > e {
        l[b - 1].1
    } else {
        e
    };
    l.take(a) + seq![(lo, hi)] + l.skip(b)
}

proof fn lemma_first_reaching(l: Seq<(u64, u64)>, s: u64, i: int)
    requires
        0 <= i <= l.len(),
    ensures
        i <= first_reaching(l, s, i) <= l.len(),
        forall|k: int| i <= k < first_reaching(l, s, i) ==> (#[trigger] l[k]).1 + 1 < s,
        first_reaching(l, s, i) < l.len() ==> l[first_reaching(l, s, i)].1 + 1 >= s,
    decreases l.len() - i,
{
    if i < l.len() && l[i].1 + 1 < s {
        lemma_first_reaching(l, s, i + 1);
    }
}

proof fn lemma_first_beyond(l: Seq<(u64, u64)>, e: u64, i: int)
    requires
        0 <= i <= l.len(),
    ensures
        i <= first_beyond(l, e, i) <= l.len(),
        forall|k: int| i <= k < first_beyond(l, e, i) ==> (#[trigger] l[k]).0 <= e + 1,
        first_beyond(l, e, i) < l.len() ==> l[first_beyond(l, e, i)].0 > e + 1,
    decreases l.len() - i,
{
    if i < l.len() && l[i].0 <= e + 1 {
        lemma_first_beyond(l, e, i + 1);
    }
}

/// The ranges of a list of disjoint ranges hold as many bytes as lie in them.
pub proof fn lemma_total_counts(l: Seq<(u64, u64)>)
    requires
        canonical(l),
    ensures
        bytes_of(l).finite(),
        bytes_of(l).len() == total(l),
    decreases l.len(),
{
    if l.len() == 0 {
        assert(bytes_of(l) =~= Set::<int>::empty());
    } else {
        let front = l.drop_last();
        let last = l.last();
        assert forall|i: int| 0 <= i < front.len() implies (#[trigger] front[i]).0
            <= front[i].1 by {
            assert(l[i].0 <= l[i].1);
        }
        assert forall|i: int, j: int| 0 <= i < j < front.len() implies (#[trigger] front[i]).1 + 1
            < (#[trigger] front[j]).0 by {
            assert(l[i].1 + 1 < l[j].0);
        }
        lemma_total_counts(front);
        assert(l[l.len() - 1].0 <= l[l.len() - 1].1);
        let r = set_int_range(last.0 as int, last.1 + 1);
        lemma_int_range(last.0 as int, last.1 + 1);
        assert(bytes_of(l) =~= bytes_of(front) + r) by {
            assert forall|b: int| covers(l, b) implies covers(front, b) || r.contains(b) by {
                let i = choose|i: int| 0 <= i < l.len() && (#[trigger] l[i]).0 <= b <= l[i].1;
                if i < l.len() - 1 {
                    assert(front[i] == l[i]);
                }
            }
            assert forall|b: int| covers(front, b) implies covers(l, b) by {
                let i = choose|i: int|
                    0 <= i < front.len() && (#[trigger] front[i]).0 <= b <= front[i].1;
                assert(l[i] == front[i]);
            }
            assert forall|b: int| r.contains(b) implies covers(l, b) by {
                assert(l[l.len() - 1] == last);
            }
        }
        assert(bytes_of(front).disjoint(r)) by {
            assert forall|b: int| !(covers(front, b) && r.contains(b)) by {
                if covers(front, b) {
                    let i = choose|i: int|
                        0 <= i < front.len() && (#[trigger] front[i]).0 <= b <= front[i].1;
                    assert(l[i].1 + 1 < l[l.len() - 1].0);
                }
            }
        }
        lemma_set_disjoint_lens(bytes_of(front), r);
    }
}

/// The bytes that a list of disjoint ranges holds are no more than the last
/// one's offset allows.
pub proof fn lemma_total_bound(l: Seq<(u64, u64)>)
    requires
        canonical(l),
    ensures
        0 <= total(l),
        l.len() > 0 ==> total(l) <= l.last().1 + 1,
    decreases l.len(),
{
    if l.len() > 0 {
        let front = l.drop_last();
        assert forall|i: int| 0 <= i < front.len() implies (#[trigger] front[i]).0
            <= front[i].1 by {
            assert(l[i].0 <= l[i].1);
        }
        assert forall|i: int, j: int| 0 <= i < j < front.len() implies (#[trigger] front[i]).1 + 1
            < (#[trigger] front[j]).0 by {
            assert(l[i].1 + 1 < l[j].0);
        }
        lemma_total_bound(front);
        assert(l[l.len() - 1].0 <= l[l.len() - 1].1);
        if front.len() > 0 {
            assert(l[l.len() - 2].1 + 1 < l[l.len() - 1].0);
        }
    }
}

/// Taking `[s, e]` out leaves a minimal list of exactly the bytes of the list
/// that lie outside `[s, e]`.
#[verifier::rlimit(60)]
#[verifier::spinoff_prover]
pub proof fn lemma_remove_range(l: Seq<(u64, u64)>, s: u64, e: u64)
    requires
        canonical(l),
        s <= e,
    ensures
        canonical(remove_range(l, s, e)),
        forall|b: int| #[trigger]
            covers(remove_range(l, s, e), b) <==> covers(l, b) && !(s <= b <= e),
        forall|i: int|
            0 <= i < remove_range(l, s, e).len() ==> l.len() > 0 && (#[trigger] remove_range(
                l,
                s,
                e,
            )[i]).1 <= l.last().1 && remove_range(l, s, e)[i].0 >= l[0].0,
    decreases l.len(),
{
    let out = remove_range(l, s, e);
    if l.len() > 0 {
        let front = l.drop_last();
        let last = l.last();
        assert forall|i: int| 0 <= i < front.len() implies (#[trigger] front[i]).0
            <= front[i].1 by {
            assert(l[i].0 <= l[i].1);
        }
        assert forall|i: int, j: int| 0 <= i < j < front.len() implies (#[trigger] front[i]).1 + 1
            < (#[trigger] front[j]).0 by {
            assert(l[i].1 + 1 < l[j].0);
        }
        lemma_remove_range(front, s, e);
        let head = remove_range(front, s, e);
        let tail = cut(last, s, e);
        assert(out == head + tail);
        assert(l[l.len() - 1] == last);
        assert(last.0 <= last.1);
        assert forall|i: int| 0 <= i < head.len() implies (#[trigger] head[i]).1 + 1 < last.0 by {
            assert(front.last() == l[l.len() - 2]);
            assert(l[l.len() - 2].1 + 1 < l[l.len() - 1].0);
        }
        assert forall|i: int| 0 <= i < tail.len() implies (#[trigger] tail[i]).0 <= tail[i].1
            && last.0 <= tail[i].0 && tail[i].1 <= last.1 by {}
        assert forall|i: int| 0 <= i < out.len() implies (#[trigger] out[i]).0 <= out[i].1
            && out[i].1 <= last.1 && out[i].0 >= l[0].0 by {
            if i < head.len() {
                assert(out[i] == head[i]);
                assert(front[0] == l[0]);
            } else {
                assert(out[i] == tail[i - head.len()]);
                if l.len() > 1 {
                    assert(l[0].1 + 1 < l[l.len() - 1].0);
                    assert(l[0].0 <= l[0].1);
                }
            }
        }
        assert forall|i: int, j: int| 0 <= i < j < out.len() implies (#[trigger] out[i]).1 + 1
            < (#[trigger] out[j]).0 by {
            if j < head.len() {
                assert(out[i] == head[i] && out[j] == head[j]);
            } else if i < head.len() {
                assert(out[i] == head[i] && out[j] == tail[j - head.len()]);
            } else {
                assert(out[i] == tail[i - head.len()] && out[j] == tail[j - head.len()]);
            }
        }
        assert forall|b: int| #[trigger] covers(out, b) implies covers(l, b) && !(s <= b <= e) by {
            let i = choose|i: int| 0 <= i < out.len() && (#[trigger] out[i]).0 <= b <= out[i].1;
            if i < head.len() {
                assert(head[i] == out[i]);
                assert(covers(head, b));
                let k = choose|k: int|
                    0 <= k < front.len() && (#[trigger] front[k]).0 <= b <= front[k].1;
                assert(l[k] == front[k]);
            } else {
                assert(out[i] == tail[i - head.len()]);
                assert(l[l.len() - 1].0 <= b <= l[l.len() - 1].1);
            }
        }
        assert forall|b: int| covers(l, b) && !(s <= b <= e) implies #[trigger] covers(out, b) by {
            let k = choose|k: int| 0 <= k < l.len() && (#[trigger] l[k]).0 <= b <= l[k].1;
            if k < front.len() {
                assert(front[k] == l[k]);
                assert(covers(front, b));
                assert(covers(head, b));
                let i = choose|i: int|
                    0 <= i < head.len() && (#[trigger] head[i]).0 <= b <= head[i].1;
                assert(out[i] == head[i]);
            } else {
                let i = if last.1 < s || last.0 > e {
                    0int
                } else if b < s {
                    0int
                } else {
                    tail.len() - 1
                };
                assert(tail[i].0 <= b <= tail[i].1);
                assert(out[head.len() + i] == tail[i]);
            }
        }
    }
}

/// Putting `[s, e]` in gives a minimal list of exactly the bytes of the list and
/// those of `[s, e]`.
#[verifier::rlimit(60)]
#[verifier::spinoff_prover]
pub proof fn lemma_insert_range(l: Seq<(u64, u64)>, s: u64, e: u64)
    requires
        canonical(l),
        s <= e,
    ensures
        canonical(insert_range(l, s, e)),
        forall|b: int| #[trigger]
            covers(insert_range(l, s, e), b) <==> covers(l, b) || s <= b <= e,
        forall|i: int|
            0 <= i < insert_range(l, s, e).len() ==> ((#[trigger] insert_range(l, s, e)[i]).1 <= e
                || (l.len() > 0 && insert_range(l, s, e)[i].1 <= l.last().1)),
        insert_range(l, s, e).len() > 0,
{
    let a = first_reaching(l, s, 0);
    let b = first_beyond(l, e, a);
    lemma_first_reaching(l, s, 0);
    lemma_first_beyond(l, e, a);
    let lo = if a < b && l[a].0 < s {
        l[a].0
    } else {
        s
    };
    let hi = if a < b && l[b - 1].1 > e {
        l[b - 1].1
    } else {
        e
    };
    let out = insert_range(l, s, e);
    assert(out.len() == a + 1 + (l.len() - b));
    assert forall|i: int| 0 <= i < a implies out[i] == l[i] by {}
    assert(out[a] == (lo, hi));
    assert forall|i: int| a < i < out.len() implies #[trigger] out[i] == l[i - a - 1 + b] by {}
    assert forall|k: int| a <= k < b implies s <= (#[trigger] l[k]).1 + 1 && l[k].0 <= e + 1 by {
        assert(l[a].1 + 1 >= s);
        if k > a {
            assert(l[a].1 + 1 < l[k].0);
            assert(l[k].0 <= l[k].1);
        }
    }
    assert(a < b ==> l[a].0 <= l[a].1 && l[b - 1].0 <= l[b - 1].1);
    assert forall|i: int| 0 <= i < out.len() implies (#[trigger] out[i]).0 <= out[i].1 by {
        if i < a {
            assert(l[i].0 <= l[i].1);
        } else if i > a {
            assert(l[i - a - 1 + b].0 <= l[i - a - 1 + b].1);
        }
    }
    assert forall|k: int| 0 <= k < a implies (#[trigger] l[k]).1 + 1 < lo by {
        if a < b {
            assert(l[k].1 + 1 < l[a].0);
        }
    }
    assert forall|k: int| b <= k < l.len() implies (#[trigger] l[k]).0 > hi + 1 by {
        assert(l[b].0 > e + 1);
        if k > b {
            assert(l[b].1 + 1 < l[k].0);
            assert(l[b].0 <= l[b].1);
        }
        if a < b {
            assert(l[b - 1].1 + 1 < l[k].0);
        }
    }
    assert forall|i: int, j: int| 0 <= i < j < out.len() implies (#[trigger] out[i]).1 + 1
        < (#[trigger] out[j]).0 by {
        if j < a {
            assert(l[i].1 + 1 < l[j].0);
        } else if j == a {
            assert(l[i].1 + 1 < lo);
        } else if i < a {
            assert(l[i].1 + 1 < l[j - a - 1 + b].0);
        } else if i == a {
            assert(l[j - a - 1 + b].0 > hi + 1);
        } else {
            assert(l[i - a - 1 + b].1 + 1 < l[j - a - 1 + b].0);
        }
    }
    assert forall|x: int| #[trigger] covers(out, x) implies covers(l, x) || s <= x <= e by {
        let i = choose|i: int| 0 <= i < out.len() && (#[trigger] out[i]).0 <= x <= out[i].1;
        if i < a {
            assert(l[i].0 <= x <= l[i].1);
        } else if i > a {
            assert(l[i - a - 1 + b].0 <= x <= l[i - a - 1 + b].1);
        } else if x < s {
            assert(l[a].0 <= x <= l[a].1);
        } else if x > e {
            assert(l[b - 1].0 <= x <= l[b - 1].1);
        }
    }
    assert forall|x: int| covers(l, x) || s <= x <= e implies #[trigger] covers(out, x) by {
        if s <= x <= e {
            assert(out[a].0 <= x <= out[a].1);
        } else {
            let k = choose|k: int| 0 <= k < l.len() && (#[trigger] l[k]).0 <= x <= l[k].1;
            if k < a {
                assert(out[k].0 <= x <= out[k].1);
            } else if k >= b {
                assert(out[k + a + 1 - b] == l[k]);
            } else {
                if k > a {
                    assert(l[a].1 + 1 < l[k].0);
                }
                if k < b - 1 {
                    assert(l[k].1 + 1 < l[b - 1].0);
                }
                assert(out[a].0 <= x <= out[a].1);
            }
        }
    }
    assert forall|i: int| 0 <= i < out.len() implies ((#[trigger] out[i]).1 <= e || (l.len() > 0
        && out[i].1 <= l.last().1)) by {
        let k = if i < a {
            i
        } else if i > a {
            i - a - 1 + b
        } else {
            b - 1
        };
        if 0 <= k < l.len() - 1 {
            assert(l[k].1 + 1 < l[l.len() - 1].0);
            assert(l[l.len() - 1].0 <= l[l.len() - 1].1);
        }
    }
}

/// Taking out a stretch that the list covers lowers its total by exactly the
/// stretch's length.
pub proof fn lemma_remove_total(l: Seq<(u64, u64)>, s: u64, e: u64)
    requires
        canonical(l),
        s <= e,
        forall|b: int| s <= b <= e ==> covers(l, b),
    ensures
        total(remove_range(l, s, e)) == total(l) - (e - s + 1),
{
    let out = remove_range(l, s, e);
    lemma_remove_range(l, s, e);
    lemma_total_counts(l);
    lemma_total_counts(out);
    let r = set_int_range(s as int, e + 1);
    lemma_int_range(s as int, e + 1);
    assert(bytes_of(l) =~= bytes_of(out) + r);
    assert(bytes_of(out).disjoint(r));
    lemma_set_disjoint_lens(bytes_of(out), r);
}

/// Putting in a stretch that the list does not touch raises its total by exactly
/// the stretch's length.
pub proof fn lemma_insert_total(l: Seq<(u64, u64)>, s: u64, e: u64)
    requires
        canonical(l),
        s <= e,
        forall|b: int| s <= b <= e ==> !covers(l, b),
    ensures
        total(insert_range(l, s, e)) == total(l) + (e - s + 1),
{
    let out = insert_range(l, s, e);
    lemma_insert_range(l, s, e);
    lemma_total_counts(l);
    lemma_total_counts(out);
    let r = set_int_range(s as int, e + 1);
    lemma_int_range(s as int, e + 1);
    assert(bytes_of(out) =~= bytes_of(l) + r);
    assert(bytes_of(l).disjoint(r));
    lemma_set_disjoint_lens(bytes_of(l), r);
}

/// Two minimal lists of the same bytes are the same list.
pub proof fn law_a_minimal_list_is_unique(l: Seq<(u64, u64)>, m: Seq<(u64, u64)>)
    requires
        canonical(l),
        canonical(m),
        forall|b: int| #[trigger] covers(l, b) <==> covers(m, b),
    ensures
        l == m,
    decreases l.len(),
{
    if l.len() == 0 {
        if m.len() > 0 {
            assert(m[0].0 <= m[0].1);
            assert(covers(m, m[0].0 as int));
            assert(covers(l, m[0].0 as int));
        }
        assert(l =~= m);
    } else if m.len() == 0 {
        assert(l[0].0 <= l[0].1);
        assert(covers(l, l[0].0 as int));
        assert(covers(m, l[0].0 as int));
    } else {
        let x = l.last();
        let y = m.last();
        assert(x == l[l.len() - 1] && y == m[m.len() - 1]);
        assert(x.0 <= x.1 && y.0 <= y.1);
        lemma_last_end(l, m);
        lemma_last_end(m, l);
        assert(x.1 == y.1);
        lemma_last_start(l, m);
        lemma_last_start(m, l);
        let lf = l.drop_last();
        let mf = m.drop_last();
        lemma_front(l);
        lemma_front(m);
        assert forall|b: int| #[trigger] covers(lf, b) <==> covers(mf, b) by {
            assert(covers(l, b) <==> covers(m, b));
        }
        law_a_minimal_list_is_unique(lf, mf);
        assert(l =~= lf.push(x));
        assert(m =~= mf.push(y));
    }
}

proof fn lemma_front(l: Seq<(u64, u64)>)
    requires
        canonical(l),
        l.len() > 0,
    ensures
        canonical(l.drop_last()),
        forall|b: int| #[trigger]
            covers(l.drop_last(), b) <==> covers(l, b) && b < l.last().0,
{
    let f = l.drop_last();
    assert forall|i: int| 0 <= i < f.len() implies (#[trigger] f[i]).0 <= f[i].1 by {
        assert(l[i].0 <= l[i].1);
    }
    assert forall|i: int, j: int| 0 <= i < j < f.len() implies (#[trigger] f[i]).1 + 1 < (
    #[trigger] f[j]).0 by {
        assert(l[i].1 + 1 < l[j].0);
    }
    assert forall|b: int| #[trigger] covers(f, b) implies covers(l, b) && b < l.last().0 by {
        let i = choose|i: int| 0 <= i < f.len() && (#[trigger] f[i]).0 <= b <= f[i].1;
        assert(l[i] == f[i]);
        assert(l[i].1 + 1 < l[l.len() - 1].0);
    }
    assert forall|b: int| covers(l, b) && b < l.last().0 implies #[trigger] covers(f, b) by {
        let i = choose|i: int| 0 <= i < l.len() && (#[trigger] l[i]).0 <= b <= l[i].1;
        assert(f[i] == l[i]);
    }
}

proof fn lemma_last_end(l: Seq<(u64, u64)>, m: Seq<(u64, u64)>)
    requires
        canonical(l),
        canonical(m),
        l.len() > 0,
        m.len() > 0,
        forall|b: int| #[trigger] covers(l, b) <==> covers(m, b),
    ensures
        l.last().1 <= m.last().1,
{
    assert(l[l.len() - 1].0 <= l[l.len() - 1].1);
    assert(covers(l, l.last().1 as int));
    assert(covers(m, l.last().1 as int));
    let i = choose|i: int|
        0 <= i < m.len() && (#[trigger] m[i]).0 <= l.last().1 as int <= m[i].1;
    if i < m.len() - 1 {
        assert(m[i].1 + 1 < m[m.len() - 1].0);
        assert(m[m.len() - 1].0 <= m[m.len() - 1].1);
    }
}

proof fn lemma_last_start(l: Seq<(u64, u64)>, m: Seq<(u64, u64)>)
    requires
        canonical(l),
        canonical(m),
        l.len() > 0,
        m.len() > 0,
        l.last().1 == m.last().1,
        forall|b: int| #[trigger] covers(l, b) <==> covers(m, b),
    ensures
        l.last().0 <= m.last().0,
{
    let x = l.last();
    let y = m.last();
    assert(l[l.len() - 1] == x && m[m.len() - 1] == y);
    assert(x.0 <= x.1 && y.0 <= y.1);
    if y.0 < x.0 {
        let b = x.0 - 1;
        assert(m[m.len() - 1].0 <= b <= m[m.len() - 1].1);
        assert(covers(m, b));
        assert(covers(l, b));
        let i = choose|i: int| 0 <= i < l.len() && (#[trigger] l[i]).0 <= b <= l[i].1;
        if i < l.len() - 1 {
            assert(l[i].1 + 1 < l[l.len() - 1].0);
        }
    }
}

/// Adds the lengths up.
pub fn total_of(l: &Vec<(u64, u64)>) -> (out: u64)
    requires
        canonical(l@),
        l@.len() > 0 ==> l@.last().1 < u64::MAX,
    ensures
        out == total(l@),
{
    let mut sum: u64 = 0;
    let mut i: usize = 0;
    while i < l.len()
        invariant
            i <= l.len(),
            canonical(l@),
            l@.len() > 0 ==> l@.last().1 < u64::MAX,
            sum == total(l@.take(i as int)),
        decreases l.len() - i,
    {
        proof {
            let t = l@.take(i + 1);
            assert(t.drop_last() =~= l@.take(i as int));
            assert forall|k: int| 0 <= k < t.len() implies (#[trigger] t[k]).0 <= t[k].1 by {
                assert(l@[k].0 <= l@[k].1);
            }
            assert forall|k: int, j: int| 0 <= k < j < t.len() implies (#[trigger] t[k]).1 + 1 < (
            #[trigger] t[j]).0 by {
                assert(l@[k].1 + 1 < l@[j].0);
            }
            lemma_total_bound(t);
            assert(t.last() == l@[i as int]);
            if i < l@.len() - 1 {
                assert(l@[i as int].1 + 1 < l@[l@.len() - 1].0);
                assert(l@[l@.len() - 1].0 <= l@[l@.len() - 1].1);
            }
            assert(l@[i as int].0 <= l@[i as int].1);
        }
        sum = sum + (l[i].1 - l[i].0 + 1);
        i = i + 1;
    }
    proof {
        assert(l@.take(l@.len() as int) =~= l@);
    }
    sum
}

/// Takes `[s, e]` out of the list.
pub fn removed(l: &Vec<(u64, u64)>, s: u64, e: u64) -> (out: Vec<(u64, u64)>)
    requires
        s <= e,
    ensures
        out@ == remove_range(l@, s, e),
{
    let mut out: Vec<(u64, u64)> = Vec::new();
    let mut i: usize = 0;
    while i < l.len()
        invariant
            i <= l.len(),
            s <= e,
            out@ == remove_range(l@.take(i as int), s, e),
        decreases l.len() - i,
    {
        let cs: u64 = l[i].0;
        let ce: u64 = l[i].1;
        proof {
            let t = l@.take(i + 1);
            assert(t.drop_last() =~= l@.take(i as int));
            assert(t.last() == (cs, ce));
        }
        let ghost before = out@;
        if ce < s || cs > e {
            out.push((cs, ce));
        } else {
            if cs < s {
                out.push((cs, s - 1));
            }
            if ce > e {
                out.push((e + 1, ce));
            }
        }
        proof {
            assert(out@ =~= before + cut((cs, ce), s, e));
        }
        i = i + 1;
    }
    proof {
        assert(l@.take(l@.len() as int) =~= l@);
    }
    out
}

/// Puts `[s, e]` into the list.
pub fn inserted(l: &Vec<(u64, u64)>, s: u64, e: u64) -> (out: Vec<(u64, u64)>)
    requires
        s <= e,
    ensures
        out@ == insert_range(l@, s, e),
{
    let mut out: Vec<(u64, u64)> = Vec::new();
    let mut a: usize = 0;
    while a < l.len() && l[a].1 < s && s - l[a].1 > 1
        invariant
            a <= l.len(),
            out@ == l@.take(a as int),
            first_reaching(l@, s, 0) == first_reaching(l@, s, a as int),
        decreases l.len() - a,
    {
        out.push(l[a]);
        proof {
            assert(l@.take(a as int).push(l@[a as int]) =~= l@.take(a + 1));
        }
        a = a + 1;
    }
    let mut b: usize = a;
    while b < l.len() && !(l[b].0 > e && l[b].0 - e > 1)
        invariant
            a <= b <= l.len(),
            first_beyond(l@, e, a as int) == first_beyond(l@, e, b as int),
        decreases l.len() - b,
    {
        b = b + 1;
    }
    assert(a == first_reaching(l@, s, 0));
    assert(b == first_beyond(l@, e, a as int));
    let lo: u64 = if a < b && l[a].0 < s {
        l[a].0
    } else {
        s
    };
    let hi: u64 = if a < b && l[b - 1].1 > e {
        l[b - 1].1
    } else {
        e
    };
    out.push((lo, hi));
    let mut i: usize = b;
    while i < l.len()
        invariant
            b <= i <= l.len(),
            a <= b,
            out@ == l@.take(a as int) + seq![(lo, hi)] + l@.subrange(b as int, i as int),
        decreases l.len() - i,
    {
        out.push(l[i]);
        proof {
            assert(l@.subrange(b as int, i as int).push(l@[i as int]) =~= l@.subrange(
                b as int,
                i + 1,
            ));
        }
        i = i + 1;
    }
    out
}

} // verus!
