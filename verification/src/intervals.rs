//! Sorted sets of half-open intervals inside one block.

use vstd::prelude::*;

verus! {

/// Every interval is non-empty, and there is a gap before the next one.
pub open spec fn apart(set: Seq<(u32, u32)>) -> bool {
    &&& forall|i: int| 0 <= i < set.len() ==> (#[trigger] set[i]).0 < set[i].1
    &&& forall|i: int, j: int|
        0 <= i < j < set.len() ==> (#[trigger] set[i]).1 < (#[trigger] set[j]).0
}

/// Offset `x` lies in one of the intervals.
pub open spec fn covered(set: Seq<(u32, u32)>, x: int) -> bool {
    exists|i: int| 0 <= i < set.len() && (#[trigger] set[i]).0 <= x < set[i].1
}

/// Adds `[lo, hi)` to a sorted, non-overlapping interval list. Merges any
/// neighbours it touches so the list stays minimal.
pub fn merge_interval(set: &mut Vec<(u32, u32)>, lo: u32, hi: u32)
    requires
        apart(old(set)@),
    ensures
        apart(final(set)@),
        forall|x: int| #[trigger]
            covered(final(set)@, x) <==> covered(old(set)@, x) || lo <= x < hi,
        hi <= lo ==> final(set)@ == old(set)@,
        forall|i: int|
            0 <= i < final(set)@.len() ==> (#[trigger] final(set)@[i]).1 <= hi || exists|j: int|
                0 <= j < old(set)@.len() && final(set)@[i].1 == (#[trigger] old(set)@[j]).1,
{
    if hi <= lo {
        assert forall|i: int| 0 <= i < set@.len() implies (#[trigger] set@[i]).1 <= hi || exists|
            j: int,
        |
            0 <= j < old(set)@.len() && set@[i].1 == (#[trigger] old(set)@[j]).1 by {
            assert(set@[i].1 == old(set)@[i].1);
        }
        return ;
    }
    let ghost l = set@;
    let mut out: Vec<(u32, u32)> = Vec::new();
    let mut a: usize = 0;
    while a < set.len() && set[a].1 < lo
        invariant
            a <= set.len(),
            set@ == l,
            out@ == l.take(a as int),
            forall|k: int| 0 <= k < a ==> (#[trigger] l[k]).1 < lo,
        decreases set.len() - a,
    {
        out.push(set[a]);
        proof {
            assert(l.take(a as int).push(l[a as int]) =~= l.take(a + 1));
        }
        a = a + 1;
    }
    let mut merged_lo: u32 = lo;
    let mut merged_hi: u32 = hi;
    let mut b: usize = a;
    while b < set.len() && set[b].0 <= merged_hi
        invariant
            a <= b <= set.len(),
            set@ == l,
            apart(l),
            lo < hi,
            a < l.len() ==> l[a as int].1 >= lo,
            merged_lo == if a < b && l[a as int].0 < lo {
                l[a as int].0
            } else {
                lo
            },
            merged_hi == if a < b && l[b - 1].1 > hi {
                l[b - 1].1
            } else {
                hi
            },
            forall|k: int| a <= k < b ==> (#[trigger] l[k]).0 <= hi,
        decreases set.len() - b,
    {
        proof {
            if a < b {
                assert(l[b - 1].1 < l[b as int].0);
                assert(l[b - 1].0 < l[b - 1].1);
                assert(l[a as int].0 < l[a as int].1);
                assert(l[b as int].0 < l[b as int].1);
                if a < b - 1 {
                    assert(l[a as int].1 < l[b - 1].0);
                }
                assert(l[a as int].1 < l[b as int].0);
            }
        }
        if set[b].1 > merged_hi {
            merged_hi = set[b].1;
        }
        if set[b].0 < merged_lo {
            merged_lo = set[b].0;
        }
        b = b + 1;
    }
    out.push((merged_lo, merged_hi));
    let mut i: usize = b;
    while i < set.len()
        invariant
            b <= i <= set.len(),
            a <= b,
            set@ == l,
            out@ == l.take(a as int) + seq![(merged_lo, merged_hi)] + l.subrange(
                b as int,
                i as int,
            ),
        decreases set.len() - i,
    {
        out.push(set[i]);
        proof {
            assert(l.subrange(b as int, i as int).push(l[i as int]) =~= l.subrange(
                b as int,
                i + 1,
            ));
        }
        i = i + 1;
    }
    proof {
        let r = out@;
        let a = a as int;
        let b = b as int;
        assert(r.len() == a + 1 + (l.len() - b));
        assert forall|k: int| 0 <= k < a implies #[trigger] r[k] == l[k] by {}
        assert(r[a] == (merged_lo, merged_hi));
        assert forall|k: int| a < k < r.len() implies #[trigger] r[k] == l[k - a - 1 + b] by {}
        if a < b {
            assert(l[a].0 < l[a].1 && l[b - 1].0 < l[b - 1].1);
        }
        assert forall|k: int| 0 <= k < a implies (#[trigger] l[k]).1 < merged_lo by {
            if a < b {
                assert(l[k].1 < l[a].0);
            }
        }
        assert forall|k: int| b <= k < l.len() implies merged_hi < (#[trigger] l[k]).0 by {
            if k > b {
                assert(l[b].1 < l[k].0);
                assert(l[b].0 < l[b].1);
            }
        }
        assert forall|k: int| 0 <= k < r.len() implies (#[trigger] r[k]).0 < r[k].1 by {
            if k < a {
                assert(l[k].0 < l[k].1);
            } else if k > a {
                assert(l[k - a - 1 + b].0 < l[k - a - 1 + b].1);
            }
        }
        assert forall|p: int, q: int| 0 <= p < q < r.len() implies (#[trigger] r[p]).1 < (
        #[trigger] r[q]).0 by {
            if q < a {
                assert(l[p].1 < l[q].0);
            } else if p < a && q > a {
                assert(l[p].1 < l[q - a - 1 + b].0);
            } else if p > a {
                assert(l[p - a - 1 + b].1 < l[q - a - 1 + b].0);
            }
        }
        assert forall|x: int| #[trigger] covered(r, x) implies covered(l, x) || lo <= x < hi by {
            let k = choose|k: int| 0 <= k < r.len() && (#[trigger] r[k]).0 <= x < r[k].1;
            if k < a {
                assert(l[k].0 <= x < l[k].1);
            } else if k > a {
                assert(l[k - a - 1 + b].0 <= x < l[k - a - 1 + b].1);
            } else if x < lo {
                assert(l[a].0 <= x < l[a].1);
            } else if x >= hi {
                assert(l[b - 1].0 <= x < l[b - 1].1);
            }
        }
        assert forall|x: int| covered(l, x) || lo <= x < hi implies #[trigger] covered(r, x) by {
            if lo <= x < hi {
                assert(r[a].0 <= x < r[a].1);
            } else {
                let k = choose|k: int| 0 <= k < l.len() && (#[trigger] l[k]).0 <= x < l[k].1;
                if k < a {
                    assert(r[k].0 <= x < r[k].1);
                } else if k >= b {
                    assert(r[k + a + 1 - b] == l[k]);
                } else {
                    if k > a {
                        assert(l[a].1 < l[k].0);
                    }
                    if k < b - 1 {
                        assert(l[k].1 < l[b - 1].0);
                    }
                    assert(r[a].0 <= x < r[a].1);
                }
            }
        }
        assert forall|k: int| 0 <= k < r.len() implies (#[trigger] r[k]).1 <= hi || exists|j: int|
            0 <= j < l.len() && r[k].1 == (#[trigger] l[j]).1 by {
            if k < a {
                assert(r[k].1 == l[k].1);
            } else if k > a {
                assert(r[k].1 == l[k - a - 1 + b].1);
            } else if a < b {
                assert(l[b - 1].1 == l[b - 1].1);
            }
        }
    }
    *set = out;
}

/// True iff the interval list is one interval that begins at 0 and reaches
/// `block_len`. Of a minimal list that stays inside the block this is full
/// coverage.
pub fn interval_set_covers(set: &[(u32, u32)], block_len: u32) -> (out: bool)
    ensures
        out == (set@.len() == 1 && set@[0].0 == 0 && set@[0].1 >= block_len),
        out ==> forall|x: int| 0 <= x < block_len ==> covered(set@, x),
        apart(set@) && block_len > 0 && (forall|i: int|
            0 <= i < set@.len() ==> (#[trigger] set@[i]).1 <= block_len) && (forall|x: int|
            0 <= x < block_len ==> #[trigger] covered(set@, x)) ==> out,
{
    let out: bool = set.len() == 1 && set[0].0 == 0 && set[0].1 >= block_len;
    proof {
        let s = set@;
        if out {
            assert forall|x: int| 0 <= x < block_len implies covered(s, x) by {
                assert(s[0].0 <= x < s[0].1);
            }
        }
        if apart(s) && block_len > 0 && (forall|i: int|
            0 <= i < s.len() ==> (#[trigger] s[i]).1 <= block_len) && (forall|x: int|
            0 <= x < block_len ==> #[trigger] covered(s, x)) {
            assert(covered(s, 0));
            let i = choose|i: int| 0 <= i < s.len() && (#[trigger] s[i]).0 <= 0 < s[i].1;
            let end = s[i].1 as int;
            if end < block_len {
                assert(covered(s, end));
                let j = choose|j: int| 0 <= j < s.len() && (#[trigger] s[j]).0 <= end < s[j].1;
                if i < j {
                    assert(s[i].1 < s[j].0);
                } else if j < i {
                    assert(s[j].1 < s[i].0);
                }
            }
            if s.len() > 1 {
                if i == 0 {
                    assert(s[0].1 < s[1].0);
                    assert(s[1].0 < s[1].1);
                } else {
                    assert(s[0].1 < s[i].0);
                    assert(s[0].0 < s[0].1);
                }
            }
        }
    }
    out
}

} // verus!
