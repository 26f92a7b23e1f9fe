//! Request planning over one or more volumes, and what to do with what origins
//! answer.

use crate::error::ProxyError;
use crate::models::UrlHealth;
pub use crate::names::{
    extract_filename, filename_from_url, longest_common_prefix, merge_volume_filenames,
    parse_content_disposition_filename, percent_decode, sanitize_filename,
    suggest_volume_filename, trim_filename_tail,
};
pub use crate::probe::UpstreamProbe;
use crate::num::{imax, imin};
use crate::text::{
    begins_with, chars_of, find_char, index_from, number, parse_number, same_text, slice_of,
    starts_with, string_of, trim_chars, trimmed, views,
};
use vstd::prelude::*;
use vstd::string::*;

verus! {

/// The leading chunks of a request that will likely be abandoned are no longer
/// than this.
pub const HEAD_SMALL_SPLIT: u64 = 256 * 1024;

/// How many leading chunks are kept short.
pub const HEAD_SMALL_COUNT: usize = 4;

/// Smallest chunk that a stream is split into.
pub const MIN_STREAM_SPLIT: u64 = 64 * 1024;

/// One volume of the merged stream: its mirrors, and where its bytes lie.
#[derive(Debug, Clone)]
pub struct VolumeMeta {
    pub urls: Vec<String>,
    pub offset: u64,
    pub size: u64,
}

impl VolumeMeta {
    /// Byte `offset` of the merged stream lies in this volume.
    pub open spec fn holds(self, offset: int) -> bool {
        self.size > 0 && self.offset <= offset < self.offset + self.size
    }
}

/// The volumes' last bytes have offsets that a machine word can hold.
pub open spec fn volumes_fit(volumes: Seq<VolumeMeta>) -> bool {
    forall|i: int|
        0 <= i < volumes.len() ==> (#[trigger] volumes[i]).offset + volumes[i].size <= u64::MAX
}

/// Index, from `i` on, of the first volume that holds byte `offset`.
pub open spec fn volume_from(volumes: Seq<VolumeMeta>, offset: int, i: int) -> Option<int>
    decreases volumes.len() - i,
{
    if i >= volumes.len() {
        None
    } else if volumes[i].holds(offset) {
        Some(i)
    } else {
        volume_from(volumes, offset, i + 1)
    }
}

pub proof fn lemma_volume_from(volumes: Seq<VolumeMeta>, offset: int, i: int)
    requires
        0 <= i,
    ensures
        volume_from(volumes, offset, i) is Some ==> i <= volume_from(volumes, offset, i)->0
            < volumes.len() && volumes[volume_from(volumes, offset, i)->0].holds(offset),
        volume_from(volumes, offset, i) is None ==> forall|k: int|
            i <= k < volumes.len() ==> !(#[trigger] volumes[k]).holds(offset),
    decreases volumes.len() - i,
{
    if i < volumes.len() && !volumes[i].holds(offset) {
        lemma_volume_from(volumes, offset, i + 1);
    }
}


// ---------------------------------------------------------------------------
// Chunks

/// `[lo, hi]` in pieces of `split` bytes, the last one shorter where it must be.
pub open spec fn pieces(lo: int, hi: int, split: int) -> Seq<(u64, u64)>
    decreases imax(hi + 1 - lo, 0),
{
    if lo > hi || split <= 0 {
        seq![]
    } else {
        let stop = imin(lo + split - 1, hi);
        seq![(lo as u64, stop as u64)] + pieces(stop + 1, hi, split)
    }
}

/// The pieces of `[start, end]` that lie in the first `n` volumes, volume by
/// volume.
pub open spec fn volume_pieces(
    volumes: Seq<VolumeMeta>,
    start: u64,
    end: u64,
    split: int,
    n: int,
) -> Seq<(u64, u64)>
    decreases n,
{
    if n <= 0 {
        seq![]
    } else {
        let v = volumes[n - 1];
        let front = volume_pieces(volumes, start, end, split, n - 1);
        if v.size == 0 {
            front
        } else {
            front + pieces(
                imax(v.offset as int, start as int),
                imin(v.offset + v.size - 1, end as int),
                split,
            )
        }
    }
}

/// The plan for `[start, end]`: each piece in one volume and no longer than
/// `split`.
pub open spec fn planned(
    start: u64,
    end: u64,
    split: u64,
    volumes: Option<Seq<VolumeMeta>>,
) -> Seq<(u64, u64)> {
    let step = imax(split as int, 1);
    match volumes {
        Some(v) => volume_pieces(v, start, end, step, v.len() as int),
        None => pieces(start as int, end as int, step),
    }
}

pub open spec fn opt_seq(volumes: Option<&Vec<VolumeMeta>>) -> Option<Seq<VolumeMeta>> {
    match volumes {
        Some(v) => Some(v@),
        None => None,
    }
}

fn add_pieces(plan: &mut Vec<(u64, u64)>, lo: u64, hi: u64, split: u64)
    requires
        split >= 1,
        hi < u64::MAX,
    ensures
        final(plan)@ == old(plan)@ + pieces(lo as int, hi as int, split as int),
{
    let ghost had = plan@;
    let ghost goal = pieces(lo as int, hi as int, split as int);
    let mut cur: u64 = lo;
    proof {
        assert(plan@ + goal =~= had + goal);
    }
    while cur <= hi
        invariant
            split >= 1,
            hi < u64::MAX,
            plan@ + pieces(cur as int, hi as int, split as int) == had + goal,
        decreases hi + 1 - cur,
    {
        let stop: u64 = cur.saturating_add(split - 1).min(hi);
        let ghost before = plan@;
        let ghost rest = pieces(stop + 1, hi as int, split as int);
        plan.push((cur, stop));
        proof {
            assert(before + (seq![(cur, stop)] + rest) =~= plan@ + rest);
        }
        cur = stop + 1;
    }
    proof {
        assert(plan@ + pieces(cur as int, hi as int, split as int) =~= plan@);
    }
}

/// Builds the per-chunk fetch plan for a merged range.
pub fn plan_chunks(start: u64, end: u64, split: u64, volumes: Option<&Vec<VolumeMeta>>) -> (plan:
    Vec<(u64, u64)>)
    requires
        end < u64::MAX,
        volumes is Some ==> volumes_fit(volumes->0@),
    ensures
        plan@ == planned(start, end, split, opt_seq(volumes)),
{
    let split: u64 = split.max(1);
    let mut plan: Vec<(u64, u64)> = Vec::new();
    match volumes {
        Some(vols) => {
            let mut i: usize = 0;
            while i < vols.len()
                invariant
                    i <= vols@.len(),
                    split >= 1,
                    end < u64::MAX,
                    volumes_fit(vols@),
                    plan@ == volume_pieces(vols@, start, end, split as int, i as int),
                decreases vols.len() - i,
            {
                let v: &VolumeMeta = &vols[i];
                assert(vols@[i as int].offset + vols@[i as int].size <= u64::MAX);
                if v.size > 0 {
                    let v_end: u64 = v.offset + (v.size - 1);
                    add_pieces(&mut plan, v.offset.max(start), v_end.min(end), split);
                }
                i = i + 1;
            }
        },
        None => {
            add_pieces(&mut plan, start, end, split);
            assert(plan@ =~= pieces(start as int, end as int, split as int));
        },
    }
    plan
}

/// A plan whose first `count` chunks are no longer than `small`: a longer one is
/// cut, and its rest goes on in the plan.
pub open spec fn headed(plan: Seq<(u64, u64)>, small: u64, count: int) -> Seq<(u64, u64)>
    decreases count,
{
    if count <= 0 || plan.len() == 0 {
        plan
    } else {
        let (cs, ce) = plan[0];
        let rest = plan.drop_first();
        if ce - cs + 1 <= small {
            seq![(cs, ce)] + headed(rest, small, count - 1)
        } else {
            seq![(cs, (cs + small - 1) as u64)] + headed(
                seq![((cs + small) as u64, ce)] + rest,
                small,
                count - 1,
            )
        }
    }
}

/// [`plan_chunks`] plus an optional head zone of smaller chunks: size and number.
pub fn plan_chunks_with_head(
    start: u64,
    end: u64,
    split: u64,
    volumes: Option<&Vec<VolumeMeta>>,
    head: Option<(u64, usize)>,
) -> (out: Vec<(u64, u64)>)
    requires
        end < u64::MAX,
        volumes is Some ==> volumes_fit(volumes->0@),
    ensures
        out@ == match head {
            Some((small, count)) if small > 0 && count > 0 => headed(
                planned(start, end, split, opt_seq(volumes)),
                small,
                count as int,
            ),
            _ => planned(start, end, split, opt_seq(volumes)),
        },
{
    let plan: Vec<(u64, u64)> = plan_chunks(start, end, split, volumes);
    let (small, count): (u64, usize) = match head {
        Some((small, count)) => (small, count),
        None => (0, 0),
    };
    if small == 0 || count == 0 {
        return plan;
    }
    proof {
        lemma_planned(start, end, split, opt_seq(volumes));
    }
    let mut out: Vec<(u64, u64)> = Vec::new();
    let mut emitted: usize = 0;
    let mut i: usize = 0;
    let mut pending: Option<(u64, u64)> = None;
    let ghost goal = headed(plan@, small, count as int);
    proof {
        assert(out@ + goal =~= goal);
        assert(ahead(pending, plan@, 0) =~= plan@);
    }
    while emitted < count && (pending.is_some() || i < plan.len())
        invariant
            emitted <= count,
            i <= plan@.len(),
            small > 0,
            out@ + headed(ahead(pending, plan@, i as int), small, count - emitted) == goal,
            forall|k: int| 0 <= k < plan@.len() ==> (#[trigger] plan@[k]).0 <= plan@[k].1 < u64::MAX,
            pending is Some ==> (pending->0).0 <= (pending->0).1 < u64::MAX,
        decreases count - emitted,
    {
        let ghost todo = ahead(pending, plan@, i as int);
        let ghost had = out@;
        let (cs, ce): (u64, u64) = match pending {
            Some(p) => p,
            None => {
                let p: (u64, u64) = plan[i];
                i = i + 1;
                p
            },
        };
        let ghost rest = plan@.skip(i as int);
        proof {
            assert(todo[0] == (cs, ce));
            assert(todo.drop_first() =~= rest);
        }
        if ce - cs + 1 <= small {
            pending = None;
            out.push((cs, ce));
        } else {
            pending = Some((cs + small, ce));
            out.push((cs, cs + (small - 1)));
        }
        proof {
            let next = ahead(pending, plan@, i as int);
            assert(next =~= if ce - cs + 1 <= small {
                rest
            } else {
                seq![((cs + small) as u64, ce)] + rest
            });
            let tail = headed(next, small, count - emitted - 1);
            assert(headed(todo, small, count - emitted) == seq![out@.last()] + tail);
            assert(had + (seq![out@.last()] + tail) =~= out@ + tail);
        }
        emitted = emitted + 1;
    }
    let ghost had = out@;
    let ghost todo = ahead(pending, plan@, i as int);
    proof {
        assert(headed(todo, small, count - emitted) == todo);
    }
    if let Some(p) = pending {
        out.push(p);
    }
    let ghost base = out@;
    let from: usize = i;
    while i < plan.len()
        invariant
            from <= i <= plan@.len(),
            out@ == base + plan@.subrange(from as int, i as int),
        decreases plan.len() - i,
    {
        out.push(plan[i]);
        proof {
            assert(plan@.subrange(from as int, i as int).push(plan@[i as int]) =~= plan@.subrange(
                from as int,
                i + 1,
            ));
        }
        i = i + 1;
    }
    proof {
        assert(out@ =~= had + todo);
    }
    out
}

/// What is left of a plan: the rest of a cut chunk, then the chunks from `i` on.
pub open spec fn ahead(pending: Option<(u64, u64)>, plan: Seq<(u64, u64)>, i: int) -> Seq<
    (u64, u64),
> {
    match pending {
        Some(p) => seq![p] + plan.skip(i),
        None => plan.skip(i),
    }
}

/// The chunks are not empty and lie inside the request.
proof fn lemma_planned(start: u64, end: u64, split: u64, volumes: Option<Seq<VolumeMeta>>)
    requires
        end < u64::MAX,
    ensures
        forall|k: int|
            0 <= k < planned(start, end, split, volumes).len() ==> start <= (#[trigger] planned(
                start,
                end,
                split,
                volumes,
            )[k]).0 <= planned(start, end, split, volumes)[k].1 <= end,
{
    let step = imax(split as int, 1);
    match volumes {
        Some(v) => lemma_volume_pieces(v, start, end, step, v.len() as int),
        None => lemma_pieces(start as int, end as int, step),
    }
}

proof fn lemma_pieces(lo: int, hi: int, split: int)
    requires
        split >= 1,
        0 <= lo,
        hi < u64::MAX,
    ensures
        forall|k: int|
            0 <= k < pieces(lo, hi, split).len() ==> lo <= (#[trigger] pieces(lo, hi, split)[k]).0
                <= pieces(lo, hi, split)[k].1 <= hi && pieces(lo, hi, split)[k].1 - pieces(
                lo,
                hi,
                split,
            )[k].0 < split,
    decreases imax(hi + 1 - lo, 0),
{
    if lo <= hi {
        let stop = imin(lo + split - 1, hi);
        lemma_pieces(stop + 1, hi, split);
        let rest = pieces(stop + 1, hi, split);
        let all = pieces(lo, hi, split);
        assert forall|k: int| 0 <= k < all.len() implies lo <= (#[trigger] all[k]).0 <= all[k].1
            <= hi && all[k].1 - all[k].0 < split by {
            if k > 0 {
                assert(all[k] == rest[k - 1]);
            }
        }
    }
}

proof fn lemma_volume_pieces(volumes: Seq<VolumeMeta>, start: u64, end: u64, split: int, n: int)
    requires
        split >= 1,
        end < u64::MAX,
        n <= volumes.len(),
    ensures
        forall|k: int|
            0 <= k < volume_pieces(volumes, start, end, split, n).len() ==> start <= (
            #[trigger] volume_pieces(volumes, start, end, split, n)[k]).0 <= volume_pieces(
                volumes,
                start,
                end,
                split,
                n,
            )[k].1 <= end,
    decreases n,
{
    if n > 0 {
        lemma_volume_pieces(volumes, start, end, split, n - 1);
        let v = volumes[n - 1];
        let front = volume_pieces(volumes, start, end, split, n - 1);
        let all = volume_pieces(volumes, start, end, split, n);
        if v.size > 0 {
            let lo = imax(v.offset as int, start as int);
            let hi = imin(v.offset + v.size - 1, end as int);
            lemma_pieces(lo, hi, split);
            let own = pieces(lo, hi, split);
            assert forall|k: int| 0 <= k < all.len() implies start <= (#[trigger] all[k]).0
                <= all[k].1 <= end by {
                if k < front.len() {
                    assert(all[k] == front[k]);
                } else {
                    assert(all[k] == own[k - front.len()]);
                }
            }
        }
    }
}

/// Chunks that cover `[lo, hi]` end to end: nothing twice, nothing left out.
pub open spec fn tiles(plan: Seq<(u64, u64)>, lo: int, hi: int) -> bool
    decreases plan.len(),
{
    if plan.len() == 0 {
        lo == hi + 1
    } else {
        plan[0].0 == lo && plan[0].0 <= plan[0].1 && tiles(plan.drop_first(), plan[0].1 + 1, hi)
    }
}

proof fn lemma_tiles_join(a: Seq<(u64, u64)>, b: Seq<(u64, u64)>, lo: int, mid: int, hi: int)
    requires
        tiles(a, lo, mid),
        tiles(b, mid + 1, hi),
    ensures
        tiles(a + b, lo, hi),
    decreases a.len(),
{
    if a.len() == 0 {
        assert(a + b =~= b);
    } else {
        lemma_tiles_join(a.drop_first(), b, a[0].1 + 1, mid, hi);
        assert((a + b).drop_first() =~= a.drop_first() + b);
    }
}

proof fn lemma_pieces_tile(lo: int, hi: int, split: int)
    requires
        split >= 1,
        0 <= lo <= hi + 1,
        hi < u64::MAX,
    ensures
        tiles(pieces(lo, hi, split), lo, hi),
    decreases imax(hi + 1 - lo, 0),
{
    if lo <= hi {
        let stop = imin(lo + split - 1, hi);
        lemma_pieces_tile(stop + 1, hi, split);
        let all = pieces(lo, hi, split);
        assert(all.drop_first() =~= pieces(stop + 1, hi, split));
    }
}

/// The volumes up to the `n`th follow one another from 0 on and end here.
pub open spec fn prefix_end(volumes: Seq<VolumeMeta>, n: int) -> int
    decreases n,
{
    if n <= 0 {
        0
    } else {
        prefix_end(volumes, n - 1) + volumes[n - 1].size
    }
}

/// Each volume begins where those before it end.
pub open spec fn stitched(volumes: Seq<VolumeMeta>) -> bool {
    forall|i: int|
        0 <= i < volumes.len() ==> (#[trigger] volumes[i]).offset == prefix_end(volumes, i)
}

proof fn lemma_volume_pieces_tile(
    volumes: Seq<VolumeMeta>,
    start: u64,
    end: u64,
    split: int,
    n: int,
)
    requires
        split >= 1,
        start <= end < u64::MAX,
        0 <= n <= volumes.len(),
        stitched(volumes),
    ensures
        prefix_end(volumes, n) >= 0,
        start < prefix_end(volumes, n) ==> tiles(
            volume_pieces(volumes, start, end, split, n),
            start as int,
            imin(end as int, prefix_end(volumes, n) - 1),
        ),
        start >= prefix_end(volumes, n) ==> volume_pieces(volumes, start, end, split, n).len()
            == 0,
    decreases n,
{
    if n > 0 {
        lemma_volume_pieces_tile(volumes, start, end, split, n - 1);
        let v = volumes[n - 1];
        let at = prefix_end(volumes, n - 1);
        assert(v.offset == at);
        let front = volume_pieces(volumes, start, end, split, n - 1);
        let all = volume_pieces(volumes, start, end, split, n);
        if v.size > 0 {
            let lo = imax(v.offset as int, start as int);
            let hi = imin(v.offset + v.size - 1, end as int);
            let own = pieces(lo, hi, split);
            if lo <= hi {
                lemma_pieces_tile(lo, hi, split);
                if start < at {
                    lemma_tiles_join(front, own, start as int, at - 1, hi);
                } else {
                    assert(all =~= own);
                }
            } else {
                assert(all =~= front);
            }
        }
    }
}

/// A plan covers exactly the bytes asked for, in order, each once: with the
/// volumes of a file of which the range is a part, or with none.
pub proof fn law_a_plan_tiles_the_request(
    start: u64,
    end: u64,
    split: u64,
    volumes: Option<Seq<VolumeMeta>>,
)
    requires
        start <= end < u64::MAX,
        volumes is Some ==> stitched(volumes->0) && end < prefix_end(
            volumes->0,
            volumes->0.len() as int,
        ),
    ensures
        tiles(planned(start, end, split, volumes), start as int, end as int),
{
    let step = imax(split as int, 1);
    match volumes {
        Some(v) => lemma_volume_pieces_tile(v, start, end, step, v.len() as int),
        None => lemma_pieces_tile(start as int, end as int, step),
    }
}

/// No chunk crosses the end of a volume, and none is longer than the split.
pub proof fn law_a_chunk_stays_in_one_volume(
    start: u64,
    end: u64,
    split: u64,
    volumes: Seq<VolumeMeta>,
    k: int,
)
    requires
        end < u64::MAX,
        0 <= k < planned(start, end, split, Some(volumes)).len(),
    ensures
        exists|i: int|
            {
                &&& 0 <= i < volumes.len()
                &&& #[trigger] volumes[i].holds(
                    planned(start, end, split, Some(volumes))[k].0 as int,
                )
                &&& volumes[i].holds(planned(start, end, split, Some(volumes))[k].1 as int)
            },
        planned(start, end, split, Some(volumes))[k].1 - planned(
            start,
            end,
            split,
            Some(volumes),
        )[k].0 < imax(split as int, 1),
{
    lemma_chunk_in_volume(volumes, start, end, imax(split as int, 1), volumes.len() as int, k);
}

proof fn lemma_chunk_in_volume(
    volumes: Seq<VolumeMeta>,
    start: u64,
    end: u64,
    split: int,
    n: int,
    k: int,
)
    requires
        split >= 1,
        end < u64::MAX,
        n <= volumes.len(),
        0 <= k < volume_pieces(volumes, start, end, split, n).len(),
    ensures
        exists|i: int|
            {
                &&& 0 <= i < n
                &&& #[trigger] volumes[i].holds(
                    volume_pieces(volumes, start, end, split, n)[k].0 as int,
                )
                &&& volumes[i].holds(volume_pieces(volumes, start, end, split, n)[k].1 as int)
            },
        volume_pieces(volumes, start, end, split, n)[k].1 - volume_pieces(
            volumes,
            start,
            end,
            split,
            n,
        )[k].0 < split,
    decreases n,
{
    let all = volume_pieces(volumes, start, end, split, n);
    let front = volume_pieces(volumes, start, end, split, n - 1);
    let v = volumes[n - 1];
    if k < front.len() {
        lemma_chunk_in_volume(volumes, start, end, split, n - 1, k);
        let i = choose|i: int|
            {
                &&& 0 <= i < n - 1
                &&& #[trigger] volumes[i].holds(front[k].0 as int)
                &&& volumes[i].holds(front[k].1 as int)
            };
        assert(all[k] == front[k]);
        assert(volumes[i].holds(all[k].0 as int));
    } else {
        let lo = imax(v.offset as int, start as int);
        let hi = imin(v.offset + v.size - 1, end as int);
        let own = pieces(lo, hi, split);
        lemma_pieces(lo, hi, split);
        assert(all[k] == own[k - front.len()]);
        assert(volumes[n - 1].holds(all[k].0 as int));
    }
}

/// A head zone changes the cuts, not what is covered: the plan still tiles the
/// same bytes, its first chunks are short, and no cut leaves a chunk that was not
/// inside one before.
pub proof fn law_a_head_zone_keeps_the_tiling(
    plan: Seq<(u64, u64)>,
    small: u64,
    count: int,
    lo: int,
    hi: int,
)
    requires
        tiles(plan, lo, hi),
        small > 0,
        hi < u64::MAX,
        0 <= lo,
    ensures
        tiles(headed(plan, small, count), lo, hi),
        forall|k: int|
            0 <= k < count && k < headed(plan, small, count).len() ==> (#[trigger] headed(
                plan,
                small,
                count,
            )[k]).1 - headed(plan, small, count)[k].0 < small,
    decreases count,
{
    if count > 0 && plan.len() > 0 {
        let (cs, ce) = plan[0];
        let rest = plan.drop_first();
        lemma_tiles_bound(plan, lo, hi);
        let out = headed(plan, small, count);
        if ce - cs + 1 <= small {
            law_a_head_zone_keeps_the_tiling(rest, small, count - 1, ce + 1, hi);
            let tail = headed(rest, small, count - 1);
            assert(out.drop_first() =~= tail);
            assert forall|k: int| 0 <= k < count && k < out.len() implies (#[trigger] out[k]).1
                - out[k].0 < small by {
                if k > 0 {
                    assert(out[k] == tail[k - 1]);
                }
            }
        } else {
            let next = seq![((cs + small) as u64, ce)] + rest;
            assert(next.drop_first() =~= rest);
            law_a_head_zone_keeps_the_tiling(next, small, count - 1, cs + small, hi);
            let tail = headed(next, small, count - 1);
            assert(out.drop_first() =~= tail);
            assert forall|k: int| 0 <= k < count && k < out.len() implies (#[trigger] out[k]).1
                - out[k].0 < small by {
                if k > 0 {
                    assert(out[k] == tail[k - 1]);
                }
            }
        }
    }
}

proof fn lemma_tiles_bound(plan: Seq<(u64, u64)>, lo: int, hi: int)
    requires
        tiles(plan, lo, hi),
    ensures
        lo <= hi + 1,
        plan.len() > 0 ==> plan[0].1 <= hi,
    decreases plan.len(),
{
    if plan.len() > 0 {
        lemma_tiles_bound(plan.drop_first(), plan[0].1 + 1, hi);
    }
}

// ---------------------------------------------------------------------------
// Volumes

/// Which volume holds byte `offset`, by its number.
pub fn find_volume(volumes: &Vec<VolumeMeta>, offset: u64) -> (out: Option<usize>)
    requires
        volumes_fit(volumes@),
    ensures
        match out {
            Some(i) => volume_from(volumes@, offset as int, 0) == Some(i as int) && i
                < volumes@.len() && volumes@[i as int].holds(offset as int),
            None => volume_from(volumes@, offset as int, 0) is None,
        },
{
    let mut i: usize = 0;
    while i < volumes.len()
        invariant
            i <= volumes@.len(),
            volumes_fit(volumes@),
            volume_from(volumes@, offset as int, 0) == volume_from(
                volumes@,
                offset as int,
                i as int,
            ),
        decreases volumes.len() - i,
    {
        let v: &VolumeMeta = &volumes[i];
        assert(volumes@[i as int].offset + volumes@[i as int].size <= u64::MAX);
        if v.size > 0 && offset >= v.offset && offset < v.offset + v.size {
            return Some(i);
        }
        i = i + 1;
    }
    None
}

/// Maps each chunk to the volume that contains its start; with no volumes, or
/// outside them, to 0.
pub fn plan_volume_indices(plan: &Vec<(u64, u64)>, volumes: Option<&Vec<VolumeMeta>>) -> (out: Vec<
    usize,
>)
    requires
        volumes is Some ==> volumes_fit(volumes->0@),
    ensures
        out@.len() == plan@.len(),
        forall|k: int|
            0 <= k < plan@.len() ==> #[trigger] out@[k] == match volumes {
                Some(vols) => match volume_from(vols@, plan@[k].0 as int, 0) {
                    Some(i) => i as usize,
                    None => 0,
                },
                None => 0,
            },
        volumes is Some && volumes->0@.len() > 0 ==> forall|k: int|
            0 <= k < plan@.len() ==> #[trigger] out@[k] < volumes->0@.len(),
{
    let mut out: Vec<usize> = Vec::new();
    let mut k: usize = 0;
    while k < plan.len()
        invariant
            k <= plan@.len(),
            volumes is Some ==> volumes_fit(volumes->0@),
            out@.len() == k,
            forall|j: int|
                0 <= j < k ==> #[trigger] out@[j] == match volumes {
                    Some(vols) => match volume_from(vols@, plan@[j].0 as int, 0) {
                        Some(i) => i as usize,
                        None => 0,
                    },
                    None => 0,
                },
            volumes is Some && volumes->0@.len() > 0 ==> forall|j: int|
                0 <= j < k ==> #[trigger] out@[j] < volumes->0@.len(),
        decreases plan.len() - k,
    {
        let at: usize = match volumes {
            Some(vols) => match find_volume(vols, plan[k].0) {
                Some(i) => i,
                None => 0,
            },
            None => 0,
        };
        out.push(at);
        k = k + 1;
    }
    out
}

/// The parts of `[start, end]` that lie in the first `n` volumes.
pub open spec fn volume_parts(volumes: Seq<VolumeMeta>, start: u64, end: u64, n: int) -> Seq<
    (u64, u64),
>
    decreases n,
{
    if n <= 0 {
        seq![]
    } else {
        let v = volumes[n - 1];
        let front = volume_parts(volumes, start, end, n - 1);
        let lo = imax(v.offset as int, start as int);
        let hi = imin(v.offset + v.size - 1, end as int);
        if v.size > 0 && lo <= hi {
            front.push((lo as u64, hi as u64))
        } else {
            front
        }
    }
}

/// Splits `[span_start, span_end]` along volume boundaries. A span outside all
/// volumes, or without volumes, stays as it is.
pub fn slice_span_by_volumes(
    volumes: Option<&Vec<VolumeMeta>>,
    span_start: u64,
    span_end: u64,
) -> (out: Vec<(u64, u64)>)
    requires
        volumes is Some ==> volumes_fit(volumes->0@),
    ensures
        out@ == match volumes {
            Some(vols) => {
                let parts = volume_parts(vols@, span_start, span_end, vols@.len() as int);
                if parts.len() == 0 {
                    seq![(span_start, span_end)]
                } else {
                    parts
                }
            },
            None => seq![(span_start, span_end)],
        },
{
    let mut out: Vec<(u64, u64)> = Vec::new();
    if let Some(vols) = volumes {
        let mut i: usize = 0;
        while i < vols.len()
            invariant
                i <= vols@.len(),
                volumes_fit(vols@),
                out@ == volume_parts(vols@, span_start, span_end, i as int),
            decreases vols.len() - i,
        {
            let v: &VolumeMeta = &vols[i];
            assert(vols@[i as int].offset + vols@[i as int].size <= u64::MAX);
            if v.size > 0 {
                let s: u64 = span_start.max(v.offset);
                let e: u64 = span_end.min(v.offset + (v.size - 1));
                if s <= e {
                    out.push((s, e));
                }
            }
            i = i + 1;
        }
    }
    if out.len() == 0 {
        out.push((span_start, span_end));
        assert(out@ =~= seq![(span_start, span_end)]);
    }
    out
}

/// Slicing a span of a file along its volumes loses no byte and doubles none.
pub proof fn law_slices_tile_the_span(volumes: Seq<VolumeMeta>, start: u64, end: u64, n: int)
    requires
        stitched(volumes),
        start <= end < u64::MAX,
        0 <= n <= volumes.len(),
    ensures
        prefix_end(volumes, n) >= 0,
        start < prefix_end(volumes, n) ==> tiles(
            volume_parts(volumes, start, end, n),
            start as int,
            imin(end as int, prefix_end(volumes, n) - 1),
        ),
        start >= prefix_end(volumes, n) ==> volume_parts(volumes, start, end, n).len() == 0,
    decreases n,
{
    if n > 0 {
        law_slices_tile_the_span(volumes, start, end, n - 1);
        let v = volumes[n - 1];
        let at = prefix_end(volumes, n - 1);
        assert(v.offset == at);
        let front = volume_parts(volumes, start, end, n - 1);
        let all = volume_parts(volumes, start, end, n);
        let lo = imax(v.offset as int, start as int);
        let hi = imin(v.offset + v.size - 1, end as int);
        if v.size > 0 && lo <= hi {
            let own = seq![(lo as u64, hi as u64)];
            assert(own.drop_first() =~= seq![]);
            assert(tiles(own.drop_first(), hi + 1, hi));
            assert(tiles(own, lo, hi));
            assert(all =~= front + own);
            if start < at {
                lemma_tiles_join(front, own, start as int, at - 1, hi);
            } else {
                assert(all =~= own);
            }
        }
    }
}


// ---------------------------------------------------------------------------
// Range headers

/// What a `Range` header asks of a file of `total` bytes: the first byte and, if
/// it says so, the last; or the text that the refusal shows. Only the first range
/// is honoured.
pub open spec fn range_asked(value: Seq<char>, total: Option<u64>) -> Result<
    (int, Option<int>),
    Seq<char>,
> {
    let v = trimmed(value);
    if !begins_with(v, "bytes="@) {
        Err(v)
    } else {
        let first = trimmed(crate::names::before_first(v.skip(6), ','));
        if first.len() > 0 && first[0] == '-' {
            match (number(trimmed(first.skip(1)), u64::MAX as int), total) {
                (None, _) => Err(v),
                (Some(_), None) => Err("suffix range without total"@),
                (Some(n), Some(t)) => if n == 0 {
                    Err(v)
                } else {
                    Ok((imax(t - n, 0), Some(imax(t - 1, 0))))
                },
            }
        } else {
            let from = trimmed(crate::names::before_first(first, '-'));
            let to = match index_from(first, '-', 0) {
                Some(i) => trimmed(first.skip(i + 1)),
                None => seq![],
            };
            match (
                number(from, u64::MAX as int),
                number(to, u64::MAX as int),
            ) {
                (None, _) => Err(v),
                (Some(s), None) => if to.len() == 0 {
                    Ok((s, None))
                } else {
                    Err(v)
                },
                (Some(s), Some(e)) => if e < s {
                    Err(v)
                } else {
                    Ok((s, Some(e)))
                },
            }
        }
    }
}

/// Parses a single HTTP Range header (`bytes=100-200`, `bytes=100-`, `bytes=-50`).
/// Gives the start and the optional inclusive end.
pub fn parse_range_header(value: &str, total: Option<u64>) -> (out: Result<
    (u64, Option<u64>),
    ProxyError,
>)
    ensures
        match (out, range_asked(value@, total)) {
            (Ok((s, None)), Ok((t, None))) => s == t,
            (Ok((s, Some(e))), Ok((t, Some(f)))) => s == t && e == f,
            (Err(ProxyError::InvalidRange(m)), Err(n)) => m@ == n,
            _ => false,
        },
{
    let v: Vec<char> = trim_chars(&chars_of(value));
    let key: Vec<char> = chars_of("bytes=");
    proof {
        reveal_strlit("bytes=");
    }
    if !starts_with(&v, &key) {
        return Err(ProxyError::InvalidRange(string_of(&v)));
    }
    let rest: Vec<char> = slice_of(&v, 6, v.len());
    assert(rest@ =~= v@.skip(6));
    let stop: usize = match find_char(&rest, ',', 0) {
        Some(i) => i,
        None => rest.len(),
    };
    let head: Vec<char> = slice_of(&rest, 0, stop);
    assert(head@ =~= crate::names::before_first(v@.skip(6), ','));
    let first: Vec<char> = trim_chars(&head);
    if first.len() > 0 && first[0] == '-' {
        let tail: Vec<char> = slice_of(&first, 1, first.len());
        assert(tail@ =~= first@.skip(1));
        let n: u64 = match parse_number(&trim_chars(&tail), u64::MAX) {
            Some(n) => n,
            None => {
                return Err(ProxyError::InvalidRange(string_of(&v)));
            },
        };
        return match total {
            None => Err(ProxyError::InvalidRange("suffix range without total".to_owned())),
            Some(t) => if n == 0 {
                Err(ProxyError::InvalidRange(string_of(&v)))
            } else {
                Ok((t.saturating_sub(n), Some(t.saturating_sub(1))))
            },
        };
    }
    let n: usize = first.len();
    let dash: Option<usize> = find_char(&first, '-', 0);
    let split: usize = match dash {
        Some(i) => i,
        None => n,
    };
    let left: Vec<char> = slice_of(&first, 0, split);
    assert(left@ =~= crate::names::before_first(first@, '-'));
    let right: Vec<char> = match dash {
        Some(i) => {
            let r: Vec<char> = slice_of(&first, i + 1, n);
            assert(r@ =~= first@.skip(i + 1));
            trim_chars(&r)
        },
        None => Vec::new(),
    };
    let start: u64 = match parse_number(&trim_chars(&left), u64::MAX) {
        Some(s) => s,
        None => {
            return Err(ProxyError::InvalidRange(string_of(&v)));
        },
    };
    if right.len() == 0 {
        assert(right@ =~= seq![]);
        return Ok((start, None));
    }
    match parse_number(&right, u64::MAX) {
        Some(end) => if end < start {
            Err(ProxyError::InvalidRange(string_of(&v)))
        } else {
            Ok((start, Some(end)))
        },
        None => Err(ProxyError::InvalidRange(string_of(&v))),
    }
}

// ---------------------------------------------------------------------------
// Mirrors

/// How strongly a mirror is preferred.
pub open spec fn weight_of(speed_bps: int, failed: int, succeeded: int) -> int {
    if speed_bps == 0 && failed == 0 && succeeded == 0 {
        100
    } else {
        imax((imax(speed_bps / 1024, 1) + imin(succeeded, 10)) / (1 + 4 * failed), 1)
    }
}

/// Score function for picking a mirror. A mirror without a record gets a neutral
/// baseline, recent throughput raises the weight, failures sharply discount it.
pub fn mirror_weight(current_speed_bps: u64, failed: u64, succeeded: u64) -> (out: u64)
    ensures
        out == weight_of(current_speed_bps as int, failed as int, succeeded as int),
        1 <= out <= 0x40_0000_0000_0010,
{
    if current_speed_bps == 0 && failed == 0 && succeeded == 0 {
        return 100;
    }
    let speed_kib: u64 = (current_speed_bps / 1024).max(1);
    let raw: u64 = speed_kib + succeeded.min(10);
    let denom: u128 = 1 + 4 * (failed as u128);
    let q: u128 = raw as u128 / denom;
    proof {
        vstd::arithmetic::div_mod::lemma_div_is_ordered_by_denominator(
            raw as int,
            1,
            denom as int,
        );
        assert(raw as int / 1 == raw);
    }
    (q as u64).max(1)
}

/// The entry, from `i` on, that a point of the cumulative distribution falls on.
pub open spec fn weighted_from(weights: Seq<u64>, point: int, i: int) -> int
    decreases weights.len() - i,
{
    if i >= weights.len() {
        weights.len() - 1
    } else if point < weights[i] {
        i
    } else {
        weighted_from(weights, point - weights[i], i + 1)
    }
}

pub open spec fn weight_sum(weights: Seq<u64>) -> int
    decreases weights.len(),
{
    if weights.len() == 0 {
        0
    } else {
        weight_sum(weights.drop_last()) + weights.last()
    }
}

/// The choice that number `idx` makes among weighted entries: its point is taken
/// modulo the sum of the weights.
pub open spec fn weighted_choice(weights: Seq<u64>, idx: int) -> int {
    let sum = weight_sum(weights);
    if sum == 0 {
        idx % weights.len() as int
    } else {
        weighted_from(weights, idx % sum, 0)
    }
}

/// Picks among weighted entries; neighbouring numbers will likely pick different
/// ones, which spreads the load.
pub fn pick_weighted(weights: &Vec<u64>, idx: usize) -> (out: usize)
    requires
        weights@.len() > 0,
    ensures
        out == weighted_choice(weights@, idx as int),
        out < weights@.len(),
{
    let mut sum: u128 = 0;
    let mut i: usize = 0;
    while i < weights.len()
        invariant
            i <= weights@.len(),
            sum == weight_sum(weights@.take(i as int)),
            sum <= i * 0xffff_ffff_ffff_ffff,
        decreases weights.len() - i,
    {
        proof {
            assert(weights@.take(i + 1).drop_last() =~= weights@.take(i as int));
        }
        sum = sum + weights[i] as u128;
        i = i + 1;
    }
    assert(weights@.take(weights@.len() as int) =~= weights@);
    if sum == 0 {
        return idx % weights.len();
    }
    let mut point: u128 = idx as u128 % sum;
    let mut k: usize = 0;
    while k < weights.len()
        invariant
            k <= weights@.len(),
            weighted_from(weights@, idx as int % sum as int, 0) == weighted_from(
                weights@,
                point as int,
                k as int,
            ),
            sum == weight_sum(weights@),
            sum > 0,
        decreases weights.len() - k,
    {
        if point < weights[k] as u128 {
            return k;
        }
        point = point - weights[k] as u128;
        k = k + 1;
    }
    weights.len() - 1
}

/// The record of `url`, from `i` on.
pub open spec fn health_from(health: Seq<UrlHealth>, url: Seq<char>, i: int) -> Option<int>
    decreases health.len() - i,
{
    if i >= health.len() {
        None
    } else if health[i].url@ == url {
        Some(i)
    } else {
        health_from(health, url, i + 1)
    }
}

/// The weight of a mirror; one without a record is neutral.
pub open spec fn weight_in(health: Seq<UrlHealth>, url: Seq<char>) -> u64 {
    match health_from(health, url, 0) {
        Some(i) => weight_of(
            health[i].current_speed_bps as int,
            health[i].failed_requests as int,
            health[i].successful_requests as int,
        ) as u64,
        None => 100,
    }
}

/// Where and what bytes a fetch attempt should request from a concrete URL.
#[derive(Debug, Clone)]
pub struct FetchTarget {
    pub url: String,
    /// Bounds of the request, in the URL's own coordinates.
    pub local_start: u64,
    pub local_end: u64,
    /// The same start in the coordinates of the merged stream.
    pub merged_start: u64,
}

/// What a task's fetches are decided by: its layout once it has been probed, its
/// URLs, and what is known of them.
#[derive(Debug, Clone)]
pub struct Engine {
    pub volumes: Option<Vec<VolumeMeta>>,
    pub urls: Vec<String>,
    pub health: Vec<UrlHealth>,
}

/// Where a fetch attempt goes.
pub ghost enum Aim {
    Nowhere,
    Nothing,
    Url { url: Seq<char>, local_start: int, local_end: int, merged_start: int },
}

impl Engine {
    pub open spec fn wf(self) -> bool {
        self.volumes is Some ==> volumes_fit(self.volumes->0@)
    }

    /// Which mirror of a volume attempt number `attempt` on chunk `idx` asks: the
    /// first attempt by weight, further ones in turn.
    pub open spec fn mirror_choice(self, mirrors: Seq<Seq<char>>, idx: int, attempt: int) -> int {
        if attempt == 0 && mirrors.len() > 1 {
            weighted_choice(
                Seq::new(mirrors.len(), |i: int| weight_in(self.health@, mirrors[i])),
                idx,
            )
        } else {
            (idx + attempt) % mirrors.len() as int
        }
    }

    /// Where attempt number `attempt` on chunk `idx` goes for `[start, end]`, in
    /// the volume that holds `locator`: the span is clipped to that volume.
    pub open spec fn aim(self, idx: int, attempt: int, locator: u64, start: u64, end: u64) -> Aim {
        match self.volumes {
            Some(vols) => match volume_from(vols@, locator as int, 0) {
                None => Aim::Nowhere,
                Some(k) => {
                    let v = vols@[k];
                    let lo = imax(start as int, v.offset as int);
                    let hi = imin(end as int, v.offset + v.size - 1);
                    if hi < lo {
                        Aim::Nothing
                    } else if v.urls@.len() == 0 {
                        Aim::Nowhere
                    } else {
                        Aim::Url {
                            url: v.urls@[self.mirror_choice(views(v.urls@), idx, attempt)]@,
                            local_start: lo - v.offset,
                            local_end: hi - v.offset,
                            merged_start: lo,
                        }
                    }
                },
            },
            None => if self.urls@.len() == 0 {
                Aim::Nowhere
            } else {
                Aim::Url {
                    url: self.urls@[(idx + attempt) % self.urls@.len() as int]@,
                    local_start: start as int,
                    local_end: end as int,
                    merged_start: start as int,
                }
            },
        }
    }

    /// The task spans more than one volume.
    pub fn is_multi_volume(&self) -> (out: bool)
        ensures
            out == (self.volumes is Some && self.volumes->0@.len() > 1),
    {
        match &self.volumes {
            Some(v) => v.len() > 1,
            None => false,
        }
    }

    /// Number of the volume containing `merged_offset`.
    pub fn volume_at(&self, merged_offset: u64) -> (out: Option<usize>)
        requires
            self.wf(),
        ensures
            match (out, self.volumes) {
                (Some(i), Some(vols)) => volume_from(vols@, merged_offset as int, 0) == Some(
                    i as int,
                ) && i < vols@.len() && vols@[i as int].holds(merged_offset as int),
                (None, Some(vols)) => volume_from(vols@, merged_offset as int, 0) is None,
                (Some(_), None) => false,
                (None, None) => true,
            },
    {
        match &self.volumes {
            Some(vols) => find_volume(vols, merged_offset),
            None => None,
        }
    }

    /// The URL that number `idx` asks, in turn.
    pub fn pick_url_for(&self, idx: usize) -> (out: Result<String, ProxyError>)
        ensures
            match out {
                Ok(url) => self.urls@.len() > 0 && url@ == self.urls@[idx as int
                    % self.urls@.len() as int]@,
                Err(e) => self.urls@.len() == 0 && e == ProxyError::NoUpstream,
            },
    {
        if self.urls.len() == 0 {
            return Err(ProxyError::NoUpstream);
        }
        let i: usize = idx % self.urls.len();
        Ok(self.urls[i].clone())
    }

    /// Retry budget for a single chunk fetch: twice round the volume's mirrors.
    pub fn fetch_attempts(&self, locator: u64) -> (out: usize)
        requires
            self.wf(),
        ensures
            ({
                let n = match self.volumes {
                    Some(vols) => match volume_from(vols@, locator as int, 0) {
                        Some(k) => vols@[k].urls@.len() as int,
                        None => self.urls@.len() as int,
                    },
                    None => self.urls@.len() as int,
                };
                out == imin(2 * imax(n, 1), usize::MAX as int)
            }),
    {
        let n: usize = match &self.volumes {
            Some(vols) => match find_volume(vols, locator) {
                Some(k) => vols[k].urls.len(),
                None => self.urls.len(),
            },
            None => self.urls.len(),
        };
        n.max(1).saturating_add(n.max(1))
    }

    /// The weight of a mirror.
    fn weight(&self, url: &str) -> (out: u64)
        ensures
            out == weight_in(self.health@, url@),
    {
        let mut i: usize = 0;
        while i < self.health.len()
            invariant
                i <= self.health@.len(),
                health_from(self.health@, url@, 0) == health_from(self.health@, url@, i as int),
            decreases self.health.len() - i,
        {
            let h: &UrlHealth = &self.health[i];
            if same_text(h.url.as_str(), url) {
                return mirror_weight(h.current_speed_bps, h.failed_requests, h.successful_requests);
            }
            i = i + 1;
        }
        100
    }

    /// Score-based mirror picker for the first attempt. Gives an index into
    /// `mirrors`.
    pub fn pick_mirror_weighted(&self, mirrors: &Vec<String>, idx: usize) -> (out: usize)
        requires
            mirrors@.len() > 0,
        ensures
            out < mirrors@.len(),
            out == weighted_choice(
                Seq::new(
                    views(mirrors@).len(),
                    |i: int| weight_in(self.health@, views(mirrors@)[i]),
                ),
                idx as int,
            ),
    {
        let mut weights: Vec<u64> = Vec::new();
        let ghost want = Seq::new(
            views(mirrors@).len(),
            |i: int| weight_in(self.health@, views(mirrors@)[i]),
        );
        let mut i: usize = 0;
        while i < mirrors.len()
            invariant
                i <= mirrors@.len(),
                weights@.len() == i,
                want == Seq::new(
                    views(mirrors@).len(),
                    |i: int| weight_in(self.health@, views(mirrors@)[i]),
                ),
                forall|k: int| 0 <= k < i ==> #[trigger] weights@[k] == want[k],
            decreases mirrors.len() - i,
        {
            weights.push(self.weight(mirrors[i].as_str()));
            i = i + 1;
        }
        assert(weights@ =~= want);
        pick_weighted(&weights, idx)
    }

    /// Translates a merged-stream span plus an in-volume `locator` offset into the
    /// concrete URL and local byte range to fetch. `Ok(None)` when nothing of the
    /// span lies in that volume.
    pub fn resolve_target(
        &self,
        idx: usize,
        attempt: usize,
        locator: u64,
        span_start: u64,
        span_end: u64,
    ) -> (out: Result<Option<FetchTarget>, ProxyError>)
        requires
            self.wf(),
            idx + attempt <= usize::MAX,
        ensures
            match (out, self.aim(idx as int, attempt as int, locator, span_start, span_end)) {
                (Err(e), Aim::Nowhere) => e == ProxyError::NoUpstream,
                (Ok(None), Aim::Nothing) => true,
                (
                    Ok(Some(t)),
                    Aim::Url { url, local_start, local_end, merged_start },
                ) => t.url@ == url && t.local_start == local_start && t.local_end == local_end
                    && t.merged_start == merged_start,
                _ => false,
            },
    {
        match &self.volumes {
            Some(vols) => {
                let k: usize = match find_volume(vols, locator) {
                    Some(k) => k,
                    None => {
                        return Err(ProxyError::NoUpstream);
                    },
                };
                let v: &VolumeMeta = &vols[k];
                assert(vols@[k as int].offset + vols@[k as int].size <= u64::MAX);
                let v_end: u64 = v.offset + (v.size - 1);
                let lo: u64 = span_start.max(v.offset);
                let hi: u64 = span_end.min(v_end);
                if hi < lo {
                    return Ok(None);
                }
                if v.urls.len() == 0 {
                    return Err(ProxyError::NoUpstream);
                }
                let pick: usize = if attempt == 0 && v.urls.len() > 1 {
                    self.pick_mirror_weighted(&v.urls, idx)
                } else {
                    (idx + attempt) % v.urls.len()
                };
                assert(views(v.urls@).len() == v.urls@.len());
                Ok(
                    Some(
                        FetchTarget {
                            url: v.urls[pick].clone(),
                            local_start: lo - v.offset,
                            local_end: hi - v.offset,
                            merged_start: lo,
                        },
                    ),
                )
            },
            None => {
                let url: String = match self.pick_url_for(idx + attempt) {
                    Ok(url) => url,
                    Err(e) => {
                        return Err(e);
                    },
                };
                Ok(
                    Some(
                        FetchTarget {
                            url,
                            local_start: span_start,
                            local_end: span_end,
                            merged_start: span_start,
                        },
                    ),
                )
            },
        }
    }
}

/// A weight never rules a mirror out, and a fresh mirror is sampled.
pub proof fn law_every_mirror_keeps_a_weight(speed_bps: int, failed: int, succeeded: int)
    requires
        0 <= speed_bps,
        0 <= failed,
        0 <= succeeded,
    ensures
        weight_of(speed_bps, failed, succeeded) >= 1,
        weight_of(0, 0, 0) == 100,
{
}

/// More throughput never lowers a mirror's weight, and more failures never raise
/// it, once it has a record.
pub proof fn law_weights_follow_the_record(
    slow: int,
    fast: int,
    few: int,
    many: int,
    succeeded: int,
)
    requires
        0 < slow <= fast,
        0 <= few <= many,
        0 <= succeeded,
    ensures
        weight_of(slow, few, succeeded) <= weight_of(fast, few, succeeded),
        weight_of(slow, many, succeeded) <= weight_of(slow, few, succeeded),
{
    let a = imax(slow / 1024, 1) + imin(succeeded, 10);
    let b = imax(fast / 1024, 1) + imin(succeeded, 10);
    vstd::arithmetic::div_mod::lemma_div_is_ordered(slow, fast, 1024);
    vstd::arithmetic::div_mod::lemma_div_is_ordered(a, b, 1 + 4 * few);
    vstd::arithmetic::div_mod::lemma_div_is_ordered_by_denominator(a, 1 + 4 * few, 1 + 4 * many);
}

/// Whatever attempt it is, a request stays inside the volume of its locator and
/// inside the span, and translates to the same bytes of the merged stream.
pub proof fn law_a_request_stays_in_its_volume(
    e: Engine,
    idx: int,
    attempt: int,
    locator: u64,
    start: u64,
    end: u64,
)
    requires
        e.wf(),
        e.volumes is Some,
        e.aim(idx, attempt, locator, start, end) is Url,
    ensures
        ({
            let vols = e.volumes->0@;
            let k = volume_from(vols, locator as int, 0);
            let a = e.aim(idx, attempt, locator, start, end);
            &&& k is Some
            &&& vols[k->0].holds(locator as int)
            &&& 0 <= a->local_start <= a->local_end < vols[k->0].size
            &&& a->merged_start == vols[k->0].offset + a->local_start
            &&& start <= a->merged_start
            &&& vols[k->0].offset + a->local_end <= end
        }),
{
    lemma_volume_from(e.volumes->0@, locator as int, 0);
}

/// The ends that a range header names are in order, and not below nothing.
pub proof fn lemma_range_asked(value: Seq<char>, total: Option<u64>)
    ensures
        range_asked(value, total) matches Ok((s, e)) ==> 0 <= s && (e is Some ==> 0 <= e->0),
{
    let v = trimmed(value);
    let first = trimmed(crate::names::before_first(v.skip(6), ','));
    let from = trimmed(crate::names::before_first(first, '-'));
    let to = match index_from(first, '-', 0) {
        Some(i) => trimmed(first.skip(i + 1)),
        None => seq![],
    };
    if number(from, u64::MAX as int) is Some {
        crate::text::lemma_digits_nonneg(crate::text::unsigned_digits(from));
    }
    if number(to, u64::MAX as int) is Some {
        crate::text::lemma_digits_nonneg(crate::text::unsigned_digits(to));
    }
}

} // verus!
