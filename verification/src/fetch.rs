//! Running a plan: which chunk to fetch next, and what to do with each answer.

use crate::cache::{bit_at, CacheEntry};
use crate::engine::{
    law_a_head_zone_keeps_the_tiling, law_a_plan_tiles_the_request, lemma_volume_from, opt_seq,
    plan_chunks_with_head, plan_volume_indices, planned, prefix_end, stitched, tiles, volumes_fit,
    Engine, FetchTarget, VolumeMeta, HEAD_SMALL_COUNT, HEAD_SMALL_SPLIT, MIN_STREAM_SPLIT,
};
use crate::error::ProxyError;
use crate::num::{imax, imin, saturating_product};
use crate::text::{
    chars_of, decimal, decimal_text, join2, number, parse_number, trim_chars, trimmed,
};
use vstd::arithmetic::div_mod::*;
use vstd::arithmetic::mul::*;
use vstd::prelude::*;
use vstd::string::*;

verus! {

// ---------------------------------------------------------------------------
// The window of chunks in flight

/// What a [`FetchWindow`] holds, but for the chunks' bounds.
#[verifier::ext_equal]
pub struct WindowView {
    /// The volume of each chunk.
    pub vol_of: Seq<usize>,
    /// How many fetchers are at work on each volume.
    pub per_vol: Seq<usize>,
    pub in_flight: int,
    /// The chunks that have been started.
    pub spawned: Seq<bool>,
    pub max_threads: int,
    pub max_per_volume: int,
}

/// How many chunks have been started.
pub open spec fn started(spawned: Seq<bool>) -> int
    decreases spawned.len(),
{
    if spawned.len() == 0 {
        0
    } else {
        started(spawned.drop_last()) + if spawned.last() {
            1int
        } else {
            0
        }
    }
}

proof fn lemma_started(spawned: Seq<bool>, i: int)
    requires
        0 <= i < spawned.len(),
        !spawned[i],
    ensures
        started(spawned.update(i, true)) == started(spawned) + 1,
        0 <= started(spawned) < spawned.len(),
    decreases spawned.len(),
{
    let front = spawned.drop_last();
    let after = spawned.update(i, true);
    if i == spawned.len() - 1 {
        assert(after.drop_last() =~= front);
        lemma_started_bound(front);
    } else {
        lemma_started(front, i);
        assert(after.drop_last() =~= front.update(i, true));
    }
}

proof fn lemma_started_bound(spawned: Seq<bool>)
    ensures
        0 <= started(spawned) <= spawned.len(),
    decreases spawned.len(),
{
    if spawned.len() > 0 {
        lemma_started_bound(spawned.drop_last());
    }
}

impl WindowView {
    pub open spec fn wf(self) -> bool {
        &&& self.vol_of.len() == self.spawned.len()
        &&& self.per_vol.len() >= 1
        &&& forall|i: int|
            0 <= i < self.vol_of.len() ==> (#[trigger] self.vol_of[i]) < self.per_vol.len()
        &&& forall|v: int|
            0 <= v < self.per_vol.len() ==> (#[trigger] self.per_vol[v]) <= started(self.spawned)
        &&& 0 <= self.in_flight <= started(self.spawned)
    }

    /// The first chunk from `i` on that is not started and whose volume has room.
    pub open spec fn first_with_room(self, i: int) -> Option<int>
        decreases self.spawned.len() - i,
    {
        if i >= self.spawned.len() {
            None
        } else if !self.spawned[i] && self.per_vol[self.vol_of[i] as int] < self.max_per_volume {
            Some(i)
        } else {
            self.first_with_room(i + 1)
        }
    }

    /// The first chunk from `i` on that is not started.
    pub open spec fn first_idle(self, i: int) -> Option<int>
        decreases self.spawned.len() - i,
    {
        if i >= self.spawned.len() {
            None
        } else if !self.spawned[i] {
            Some(i)
        } else {
            self.first_idle(i + 1)
        }
    }

    /// The next chunk to start: the first one whose volume has room, or else, so
    /// that no slot stays idle, the first one at all; none once every slot is
    /// taken.
    pub open spec fn choice(self) -> Option<int> {
        if self.in_flight >= self.max_threads {
            None
        } else if self.first_with_room(0) is Some {
            self.first_with_room(0)
        } else {
            self.first_idle(0)
        }
    }

    /// Chunk `i` started.
    pub open spec fn start(self, i: int) -> WindowView {
        let v = self.vol_of[i] as int;
        WindowView {
            spawned: self.spawned.update(i, true),
            per_vol: self.per_vol.update(v, (self.per_vol[v] + 1) as usize),
            in_flight: self.in_flight + 1,
            ..self
        }
    }

    /// Chunks started until every slot is taken or none is left.
    pub open spec fn filled(self) -> (WindowView, Seq<usize>)
        decreases imax(self.max_threads - self.in_flight, 0),
    {
        match self.choice() {
            None => (self, seq![]),
            Some(i) => {
                let (after, more) = self.start(i).filled();
                (after, seq![i as usize] + more)
            },
        }
    }

    /// Some chunk of volume `vi` has been started.
    pub open spec fn touched(self, vi: int) -> bool {
        exists|i: int|
            0 <= i < self.spawned.len() && #[trigger] self.spawned[i] && self.vol_of[i] == vi
    }

    /// The first chunk from `i` on that lies in volume `vi`.
    pub open spec fn first_of_volume(self, vi: int, i: int) -> Option<int>
        decreases self.vol_of.len() - i,
    {
        if i >= self.vol_of.len() {
            None
        } else if self.vol_of[i] == vi {
            Some(i)
        } else {
            self.first_of_volume(vi, i + 1)
        }
    }

    /// The first chunk of each untouched volume from `vi` on, of so many volumes,
    /// started; at most `budget` of them.
    pub open spec fn warmed(self, vi: int, volumes: int, budget: int) -> (WindowView, Seq<usize>)
        decreases volumes - vi,
    {
        if vi >= volumes || budget <= 0 {
            (self, seq![])
        } else {
            match self.first_of_volume(vi, 0) {
                Some(i) if !self.touched(vi) => {
                    let (after, more) = self.start(i).warmed(vi + 1, volumes, budget - 1);
                    (after, seq![i as usize] + more)
                },
                _ => self.warmed(vi + 1, volumes, budget),
            }
        }
    }

    /// One fetcher of volume `vi` has come to its end.
    pub open spec fn released(self, vi: int) -> WindowView {
        WindowView {
            per_vol: if vi < self.per_vol.len() && self.per_vol[vi] > 0 {
                self.per_vol.update(vi, (self.per_vol[vi] - 1) as usize)
            } else {
                self.per_vol
            },
            in_flight: imax(self.in_flight - 1, 0),
            ..self
        }
    }
}

proof fn lemma_first_with_room(w: WindowView, i: int)
    requires
        0 <= i,
    ensures
        match w.first_with_room(i) {
            Some(k) => i <= k < w.spawned.len() && !w.spawned[k] && w.per_vol[w.vol_of[k] as int]
                < w.max_per_volume,
            None => true,
        },
    decreases w.spawned.len() - i,
{
    if i < w.spawned.len() {
        lemma_first_with_room(w, i + 1);
    }
}

proof fn lemma_first_idle(w: WindowView, i: int)
    requires
        0 <= i,
    ensures
        match w.first_idle(i) {
            Some(k) => i <= k < w.spawned.len() && !w.spawned[k],
            None => forall|j: int| i <= j < w.spawned.len() ==> w.spawned[j],
        },
    decreases w.spawned.len() - i,
{
    if i < w.spawned.len() {
        lemma_first_idle(w, i + 1);
    }
}


pub(crate) proof fn lemma_choice(w: WindowView)
    ensures
        match w.choice() {
            Some(k) => 0 <= k < w.spawned.len() && !w.spawned[k] && w.in_flight < w.max_threads,
            None => true,
        },
{
    lemma_first_with_room(w, 0);
    lemma_first_idle(w, 0);
}

proof fn lemma_start_wf(w: WindowView, i: int)
    requires
        w.wf(),
        w.spawned.len() <= usize::MAX,
        0 <= i < w.spawned.len(),
        !w.spawned[i],
    ensures
        w.start(i).wf(),
        w.per_vol[w.vol_of[i] as int] < usize::MAX,
        w.in_flight < usize::MAX,
{
    lemma_started(w.spawned, i);
    let v = w.vol_of[i] as int;
    assert(w.per_vol[v] <= started(w.spawned));
    let after = w.start(i);
    assert forall|k: int| 0 <= k < after.per_vol.len() implies (#[trigger] after.per_vol[k])
        <= started(after.spawned) by {
        assert(w.per_vol[k] <= started(w.spawned));
    }
}

/// The chunks of one stream: which have been started, and how many are at work.
#[derive(Debug, Clone)]
pub struct FetchWindow {
    pub plan: Vec<(u64, u64)>,
    pub vol_of: Vec<usize>,
    pub per_vol: Vec<usize>,
    pub in_flight: usize,
    pub spawned: Vec<bool>,
    pub max_threads: usize,
    pub max_per_volume: usize,
}

impl View for FetchWindow {
    type V = WindowView;

    open spec fn view(&self) -> WindowView {
        WindowView {
            vol_of: self.vol_of@,
            per_vol: self.per_vol@,
            in_flight: self.in_flight as int,
            spawned: self.spawned@,
            max_threads: self.max_threads as int,
            max_per_volume: self.max_per_volume as int,
        }
    }
}

/// How a stream is split at its head: short chunks where the client will likely
/// seek soon.
pub open spec fn head_zone(max_split: u64, open_ended: bool) -> Option<(u64, usize)> {
    if open_ended && max_split > HEAD_SMALL_SPLIT {
        Some((HEAD_SMALL_SPLIT, HEAD_SMALL_COUNT))
    } else {
        None
    }
}

impl FetchWindow {
    pub open spec fn wf(self) -> bool {
        self@.wf() && self.plan@.len() == self.spawned@.len()
    }

    /// Nothing is started.
    pub open spec fn fresh(self) -> bool {
        &&& self.in_flight == 0
        &&& forall|i: int| 0 <= i < self.spawned@.len() ==> !#[trigger] self.spawned@[i]
        &&& forall|v: int| 0 <= v < self.per_vol@.len() ==> #[trigger] self.per_vol@[v] == 0
    }

    /// The window of a stream of `[start, end]`.
    pub fn new(
        start: u64,
        end: u64,
        open_ended: bool,
        max_split: u64,
        max_threads: usize,
        max_per_volume: usize,
        volumes: Option<&Vec<VolumeMeta>>,
    ) -> (out: Self)
        requires
            end < u64::MAX,
            volumes is Some ==> volumes_fit(volumes->0@),
        ensures
            out.wf(),
            out.fresh(),
            out.max_threads == imax(max_threads as int, 1),
            out.max_per_volume == imax(max_per_volume as int, 1),
            out.per_vol@.len() == imax(
                if volumes is Some {
                    volumes->0@.len() as int
                } else {
                    1
                },
                1,
            ),
            ({
                let split = imax(max_split as int, MIN_STREAM_SPLIT as int) as u64;
                let plain = crate::engine::planned(start, end, split, opt_seq(volumes));
                out.plan@ == match head_zone(split, open_ended) {
                    Some((small, count)) => crate::engine::headed(plain, small, count as int),
                    None => plain,
                }
            }),
            max_split <= 65_536 ==> out.plan@ == crate::engine::planned(
                start,
                end,
                65_536,
                opt_seq(volumes),
            ),
            forall|k: int|
                0 <= k < out.plan@.len() ==> #[trigger] out.vol_of@[k] == match volumes {
                    Some(vols) => match crate::engine::volume_from(
                        vols@,
                        out.plan@[k].0 as int,
                        0,
                    ) {
                        Some(i) => i as usize,
                        None => 0,
                    },
                    None => 0,
                },
            start <= end && (volumes is Some ==> stitched(volumes->0@) && end < prefix_end(
                volumes->0@,
                volumes->0@.len() as int,
            )) ==> tiles(out.plan@, start as int, end as int),
    {
        let split: u64 = max_split.max(MIN_STREAM_SPLIT);
        let head: Option<(u64, usize)> = if open_ended && split > HEAD_SMALL_SPLIT {
            Some((HEAD_SMALL_SPLIT, HEAD_SMALL_COUNT))
        } else {
            None
        };
        let plan: Vec<(u64, u64)> = plan_chunks_with_head(start, end, split, volumes, head);
        let vol_of: Vec<usize> = plan_volume_indices(&plan, volumes);
        let vol_count: usize = match volumes {
            Some(v) => v.len().max(1),
            None => 1,
        };
        let mut out: FetchWindow = Self::from_layout(
            vol_of,
            max_threads.max(1),
            max_per_volume.max(1),
            vol_count,
        );
        out.plan = plan;
        proof {
            if start <= end && (volumes is Some ==> stitched(volumes->0@) && end < prefix_end(
                volumes->0@,
                volumes->0@.len() as int,
            )) {
                law_a_plan_tiles_the_request(start, end, split, opt_seq(volumes));
                if let Some((small, count)) = head_zone(split, open_ended) {
                    law_a_head_zone_keeps_the_tiling(
                        planned(start, end, split, opt_seq(volumes)),
                        small,
                        count as int,
                        start as int,
                        end as int,
                    );
                }
            }
        }
        out
    }

    /// A window over chunks of which only the volumes are given.
    pub fn from_layout(
        vol_of: Vec<usize>,
        max_threads: usize,
        max_per_volume: usize,
        vol_count: usize,
    ) -> (out: Self)
        requires
            vol_count >= 1,
            forall|i: int| 0 <= i < vol_of@.len() ==> (#[trigger] vol_of@[i]) < vol_count,
        ensures
            out.wf(),
            out.fresh(),
            out.vol_of@ == vol_of@,
            out.per_vol@.len() == vol_count,
            out.max_threads == max_threads,
            out.max_per_volume == max_per_volume,
    {
        let n: usize = vol_of.len();
        let mut plan: Vec<(u64, u64)> = Vec::new();
        let mut spawned: Vec<bool> = Vec::new();
        let mut i: usize = 0;
        assert(started(spawned@) == 0);
        while i < n
            invariant
                i <= n,
                plan@.len() == i,
                spawned@.len() == i,
                started(spawned@) == 0,
                forall|k: int| 0 <= k < i ==> !#[trigger] spawned@[k],
            decreases n - i,
        {
            let ghost before = spawned@;
            plan.push((0, 0));
            spawned.push(false);
            assert(spawned@.drop_last() =~= before);
            i = i + 1;
        }
        let mut per_vol: Vec<usize> = Vec::new();
        let mut v: usize = 0;
        while v < vol_count
            invariant
                v <= vol_count,
                per_vol@.len() == v,
                forall|k: int| 0 <= k < v ==> #[trigger] per_vol@[k] == 0,
            decreases vol_count - v,
        {
            per_vol.push(0);
            v = v + 1;
        }
        FetchWindow { plan, vol_of, per_vol, in_flight: 0, spawned, max_threads, max_per_volume }
    }

    /// Marks chunk `i` as started.
    fn mark(&mut self, i: usize)
        requires
            old(self).wf(),
            i < old(self).spawned@.len(),
            !old(self).spawned@[i as int],
        ensures
            final(self).wf(),
            final(self)@ == old(self)@.start(i as int),
            final(self).plan@ == old(self).plan@,
    {
        proof {
            assert(self.spawned.len() == self.spawned@.len());
            lemma_start_wf(self@, i as int);
            assert(self@.vol_of[i as int] < self@.per_vol.len());
        }
        let v: usize = self.vol_of[i];
        let n: usize = self.per_vol[v];
        self.per_vol.set(v, n + 1);
        self.in_flight = self.in_flight + 1;
        self.spawned.set(i, true);
    }

    /// The next chunk to start, which then counts as started.
    pub fn next_chunk(&mut self) -> (out: Option<usize>)
        requires
            old(self).wf(),
        ensures
            final(self).wf(),
            final(self).plan@ == old(self).plan@,
            match (out, old(self)@.choice()) {
                (Some(i), Some(k)) => i == k && i < old(self).plan@.len() && final(self)@
                    == old(self)@.start(k),
                (None, None) => final(self)@ == old(self)@,
                _ => false,
            },
    {
        if self.in_flight >= self.max_threads {
            return None;
        }
        let mut i: usize = 0;
        let mut idle: Option<usize> = None;
        while i < self.spawned.len()
            invariant
                i <= self.spawned@.len(),
                self.wf(),
                *self == *old(self),
                self.in_flight < self.max_threads,
                self@.first_with_room(0) == self@.first_with_room(i as int),
                match idle {
                    Some(k) => self@.first_idle(0) == Some(k as int) && k < i && !self.spawned@[k as int],
                    None => self@.first_idle(0) == self@.first_idle(i as int),
                },
            decreases self.spawned.len() - i,
        {
            if !self.spawned[i] {
                assert(self@.vol_of[i as int] < self@.per_vol.len());
                if idle.is_none() {
                    idle = Some(i);
                }
                if self.per_vol[self.vol_of[i]] < self.max_per_volume {
                    self.mark(i);
                    return Some(i);
                }
            }
            i = i + 1;
        }
        if let Some(k) = idle {
            self.mark(k);
        }
        idle
    }

    /// Starts chunks until every slot is taken or none is left, and gives those
    /// that were started.
    pub fn fill(&mut self) -> (out: Vec<usize>)
        requires
            old(self).wf(),
        ensures
            final(self).wf(),
            final(self).plan@ == old(self).plan@,
            (final(self)@, out@) == old(self)@.filled(),
    {
        let mut out: Vec<usize> = Vec::new();
        let ghost goal = self@.filled();
        proof {
            assert(out@ + goal.1 =~= goal.1);
        }
        loop
            invariant
                self.wf(),
                self.plan@ == old(self).plan@,
                goal == old(self)@.filled(),
                goal.0 == self@.filled().0,
                goal.1 == out@ + self@.filled().1,
            decreases imax(self.max_threads - self.in_flight, 0),
        {
            let ghost before = self@;
            let ghost had = out@;
            proof {
                lemma_choice(before);
            }
            match self.next_chunk() {
                Some(i) => {
                    out.push(i);
                    proof {
                        let more = self@.filled().1;
                        assert(had + (seq![i] + more) =~= out@ + more);
                    }
                },
                None => {
                    proof {
                        assert(had + seq![] =~= had);
                    }
                    return out;
                },
            }
        }
    }

    /// Opens connections against volumes that nothing has been started of: one for
    /// a client that will likely seek, else all of them. Gives the chunks that were
    /// started.
    pub fn warm_up(&mut self, open_ended: bool) -> (out: Vec<usize>)
        requires
            old(self).wf(),
        ensures
            final(self).wf(),
            final(self).plan@ == old(self).plan@,
            (final(self)@, out@) == if old(self)@.per_vol.len() > 1 {
                old(self)@.warmed(
                    0,
                    old(self)@.per_vol.len() as int,
                    if open_ended {
                        1
                    } else {
                        old(self)@.per_vol.len() as int
                    },
                )
            } else {
                (old(self)@, Seq::empty())
            },
    {
        let mut out: Vec<usize> = Vec::new();
        let vol_count: usize = self.per_vol.len();
        if vol_count <= 1 {
            return out;
        }
        let mut budget: usize = if open_ended {
            1
        } else {
            vol_count
        };
        let ghost goal = self@.warmed(0, vol_count as int, budget as int);
        let mut vi: usize = 0;
        proof {
            assert(out@ + goal.1 =~= goal.1);
        }
        while vi < vol_count && budget > 0
            invariant
                self.wf(),
                self.plan@ == old(self).plan@,
                vi <= vol_count,
                vol_count == self.per_vol@.len(),
                goal.0 == self@.warmed(vi as int, vol_count as int, budget as int).0,
                goal.1 == out@ + self@.warmed(vi as int, vol_count as int, budget as int).1,
            decreases vol_count - vi,
        {
            let ghost w = self@;
            let ghost had = out@;
            let mut first: Option<usize> = None;
            let mut busy: bool = false;
            let mut i: usize = 0;
            while i < self.vol_of.len()
                invariant
                    i <= self.vol_of@.len(),
                    self@ == w,
                    w.wf(),
                    match first {
                        Some(k) => w.first_of_volume(vi as int, 0) == Some(k as int) && k < i
                            && w.vol_of[k as int] == vi,
                        None => w.first_of_volume(vi as int, 0) == w.first_of_volume(
                            vi as int,
                            i as int,
                        ),
                    },
                    busy == exists|j: int|
                        0 <= j < i && #[trigger] w.spawned[j] && w.vol_of[j] == vi,
                decreases self.vol_of.len() - i,
            {
                if self.vol_of[i] == vi {
                    if first.is_none() {
                        first = Some(i);
                    }
                    if self.spawned[i] {
                        assert(w.spawned[i as int] && w.vol_of[i as int] == vi);
                        busy = true;
                    }
                }
                i = i + 1;
            }
            assert(busy == w.touched(vi as int));
            if let Some(k) = first {
                if !busy {
                    proof {
                        if w.spawned[k as int] {
                            assert(w.touched(vi as int));
                        }
                    }
                    self.mark(k);
                    out.push(k);
                    budget = budget - 1;
                    proof {
                        let more = self@.warmed(vi + 1, vol_count as int, budget as int).1;
                        assert(had + (seq![k] + more) =~= out@ + more);
                    }
                }
            }
            vi = vi + 1;
        }
        proof {
            assert(out@ + seq![] =~= out@);
        }
        out
    }

    /// A fetcher of volume `vi` has come to its end.
    pub fn release(&mut self, vi: usize)
        requires
            old(self).wf(),
        ensures
            final(self).wf(),
            final(self).plan@ == old(self).plan@,
            final(self)@ == old(self)@.released(vi as int),
    {
        if vi < self.per_vol.len() && self.per_vol[vi] > 0 {
            let n: usize = self.per_vol[vi];
            self.per_vol.set(vi, n - 1);
        }
        if self.in_flight > 0 {
            self.in_flight = self.in_flight - 1;
        }
        proof {
            let before = old(self)@;
            assert forall|k: int| 0 <= k < self@.per_vol.len() implies (#[trigger] self@.per_vol[k])
                <= started(self@.spawned) by {
                assert(before.per_vol[k] <= started(before.spawned));
            }
        }
    }
}

/// Filling takes no more slots than there are, leaves none idle while a chunk is
/// left, and starts no chunk twice.
pub proof fn law_filling_uses_every_slot_and_no_more(w: WindowView)
    requires
        w.wf(),
        w.spawned.len() <= usize::MAX,
        w.max_threads >= 0,
    ensures
        ({
            let (after, picks) = w.filled();
            &&& after.wf()
            &&& after.in_flight == w.in_flight + picks.len()
            &&& after.in_flight <= imax(w.in_flight, w.max_threads)
            &&& after.in_flight >= w.max_threads || forall|i: int|
                0 <= i < after.spawned.len() ==> after.spawned[i]
            &&& forall|k: int|
                0 <= k < picks.len() ==> (#[trigger] picks[k]) < w.spawned.len()
                    && !w.spawned[picks[k] as int]
            &&& forall|j: int, k: int|
                0 <= j < k < picks.len() ==> #[trigger] picks[j] != #[trigger] picks[k]
            &&& after.spawned.len() == w.spawned.len()
            &&& forall|i: int|
                0 <= i < w.spawned.len() && w.spawned[i] ==> #[trigger] after.spawned[i]
        }),
    decreases imax(w.max_threads - w.in_flight, 0),
{
    lemma_choice(w);
    lemma_first_idle(w, 0);
    match w.choice() {
        None => {},
        Some(i) => {
            lemma_start_wf(w, i);
            let next = w.start(i);
            law_filling_uses_every_slot_and_no_more(next);
            let (after, more) = next.filled();
            let picks = seq![i as usize] + more;
            assert forall|k: int| 0 <= k < picks.len() implies (#[trigger] picks[k])
                < w.spawned.len() && !w.spawned[picks[k] as int] by {
                if k > 0 {
                    assert(picks[k] == more[k - 1]);
                    assert(!next.spawned[more[k - 1] as int]);
                }
            }
            assert forall|j: int, k: int| 0 <= j < k < picks.len() implies #[trigger] picks[j]
                != #[trigger] picks[k] by {
                assert(picks[k] == more[k - 1]);
                assert(!next.spawned[more[k - 1] as int]);
                if j > 0 {
                    assert(picks[j] == more[j - 1]);
                }
            }
            assert forall|m: int| 0 <= m < w.spawned.len() && w.spawned[m] implies
                #[trigger] after.spawned[m] by {
                assert(next.spawned[m]);
            }
        },
    }
}

/// The first chunk is the first to be started: the reader is never left waiting
/// for a chunk that nobody fetches.
pub proof fn law_the_first_chunk_goes_first(w: WindowView)
    requires
        w.wf(),
        w.spawned.len() > 0,
        w.in_flight == 0,
        w.max_threads >= 1,
        w.max_per_volume >= 1,
        !w.spawned[0],
        w.per_vol[w.vol_of[0] as int] == 0,
    ensures
        w.choice() == Some(0int),
        w.filled().1.len() > 0,
        w.filled().1[0] == 0,
{
    assert(w.first_with_room(0) == Some(0int));
}

// ---------------------------------------------------------------------------
// One chunk

/// What to do next for a chunk.
#[derive(Debug)]
pub enum FetchStep {
    /// Everything has been delivered, or nothing is to be had.
    Done,
    /// The attempts are used up; what the last of them failed with.
    Exhausted(ProxyError),
    /// Make this request.
    Ask(FetchTarget),
}

/// What to do with a piece of a body.
#[derive(Debug, Clone, Copy, PartialEq, Eq, Structural)]
pub enum PieceStep {
    /// Nothing of it is wanted, but something behind it is.
    Skip,
    /// Its bytes from `lo` up to `hi` are wanted; the first of them is byte `at` of
    /// the file.
    Pass { lo: u64, hi: u64, at: u64 },
    /// Neither it nor anything behind it is wanted.
    Stop,
}

/// The body of an answer, in positions of the file.
#[derive(Debug, Clone, Copy, PartialEq, Eq, Structural)]
pub struct Body {
    /// Where the body's next byte lies.
    pub at: u64,
    /// The last byte that was asked for.
    pub limit: u64,
    /// Where the first byte of the asked URL lies.
    pub origin: u64,
}

/// The fetch of one chunk: how often it was tried, how much has come, and what the
/// latest attempt failed with.
pub struct ChunkFetch {
    pub idx: usize,
    pub start: u64,
    pub end: u64,
    pub attempt: usize,
    pub attempts: usize,
    pub delivered: u64,
    pub last_error: Option<ProxyError>,
    /// A request that has not been answered.
    pub asked: Option<Body>,
    /// The body that is coming in.
    pub body: Option<Body>,
    /// The positions of the bytes that have been passed on, in order.
    pub passed: Ghost<Seq<int>>,
}

/// The positions from `start` on, so many of them.
pub open spec fn stretch(start: int, len: int) -> Seq<int> {
    Seq::new(imax(len, 0) as nat, |i: int| start + i)
}

/// What a chunk fails with whose bodies end early.
pub open spec fn ended_early() -> Seq<char> {
    "the body ended before the range was complete"@
}

impl ChunkFetch {
    /// Where the next attempt resumes: behind what has been delivered.
    pub open spec fn resume_at(self) -> int {
        self.start + self.delivered
    }

    /// The bytes that were passed on are those of the chunk from its first on, each
    /// once and in order.
    pub open spec fn wf(self) -> bool {
        &&& self.end < u64::MAX
        &&& self.attempt <= self.attempts
        &&& self.delivered > 0 ==> self.resume_at() <= self.end + 1
        &&& self.passed@ == stretch(self.start as int, self.delivered as int)
        &&& self.asked is Some ==> self.fits(self.asked->0) && self.body is None
        &&& self.body is Some ==> self.fits(self.body->0)
    }

    /// A body of which nothing was left out: it has not gone past the next byte that
    /// is wanted, unless there is none.
    pub open spec fn fits(self, b: Body) -> bool {
        &&& b.limit <= self.end
        &&& b.origin <= self.start
        &&& self.resume_at() <= b.limit + 1
        &&& b.at <= self.resume_at() || self.resume_at() == b.limit + 1
    }

    pub fn new(engine: &Engine, idx: usize, start: u64, end: u64) -> (out: Self)
        requires
            engine.wf(),
            end < u64::MAX,
        ensures
            out.wf(),
            out.idx == idx && out.start == start && out.end == end,
            out.attempt == 0 && out.delivered == 0,
            out.last_error is None,
            out.asked is None && out.body is None,
            out.attempts >= 1,
            out.attempts == imin(
                2 * imax(
                    match engine.volumes {
                        Some(vols) => match crate::engine::volume_from(vols@, start as int, 0) {
                            Some(k) => vols@[k].urls@.len() as int,
                            None => engine.urls@.len() as int,
                        },
                        None => engine.urls@.len() as int,
                    },
                    1,
                ),
                usize::MAX as int,
            ),
    {
        let attempts: usize = engine.fetch_attempts(start);
        let out: ChunkFetch = ChunkFetch {
            idx,
            start,
            end,
            attempt: 0,
            attempts,
            delivered: 0,
            last_error: None,
            asked: None,
            body: None,
            passed: Ghost(Seq::empty()),
        };
        assert(out.passed@ =~= stretch(start as int, 0));
        out
    }

    /// The next attempt. A request resumes behind what has been delivered. A chunk
    /// that has been delivered is done, whatever its last attempt came to; one whose
    /// attempts are used up fails as the latest of them did.
    pub fn next(&mut self, engine: &Engine) -> (out: Result<FetchStep, ProxyError>)
        requires
            engine.wf(),
            old(self).wf(),
            old(self).idx + old(self).attempts <= usize::MAX,
        ensures
            final(self).wf(),
            ({
                let was = *old(self);
                let aim = engine.aim(
                    was.idx as int,
                    was.attempt as int,
                    was.start,
                    was.resume_at() as u64,
                    was.end,
                );
                &&& *final(self) == (ChunkFetch {
                    attempt: final(self).attempt,
                    last_error: final(self).last_error,
                    asked: final(self).asked,
                    body: None,
                    ..was
                })
                &&& !(out is Ok && out->Ok_0 is Exhausted) ==> final(self).last_error
                    == was.last_error
                &&& final(self).attempt == was.attempt + if out is Ok && out->Ok_0 is Ask {
                    1int
                } else {
                    0
                }
                &&& !(out is Ok && out->Ok_0 is Ask) ==> final(self).asked is None
                &&& match out {
                    Ok(FetchStep::Done) => was.resume_at() > was.end || (was.attempt
                        < was.attempts && aim is Nothing),
                    Ok(FetchStep::Exhausted(e)) => was.resume_at() <= was.end && was.attempt
                        == was.attempts && final(self).last_error is None && e == (
                    match was.last_error {
                        Some(last) => last,
                        None => ProxyError::NoUpstream,
                    }),
                    Ok(FetchStep::Ask(t)) => {
                        &&& was.attempt < was.attempts
                        &&& was.resume_at() <= was.end
                        &&& aim is Url
                        &&& t.url@ == aim->url
                        &&& t.local_start == aim->local_start
                        &&& t.local_end == aim->local_end
                        &&& t.merged_start == aim->merged_start
                        &&& t.merged_start == was.resume_at()
                        &&& final(self).asked == Some(
                            Body {
                                at: t.merged_start,
                                limit: (t.merged_start + (t.local_end - t.local_start)) as u64,
                                origin: (t.merged_start - t.local_start) as u64,
                            },
                        )
                    },
                    Err(e) => was.attempt < was.attempts && was.resume_at() <= was.end
                        && aim is Nowhere && e == ProxyError::NoUpstream,
                }
            }),
    {
        self.asked = None;
        self.body = None;
        if self.delivered > 0 && self.delivered > self.end - self.start {
            return Ok(FetchStep::Done);
        }
        if self.start > self.end {
            return Ok(FetchStep::Done);
        }
        if self.attempt >= self.attempts {
            let e: ProxyError = match self.last_error.take() {
                Some(last) => last,
                None => ProxyError::NoUpstream,
            };
            return Ok(FetchStep::Exhausted(e));
        }
        let resume_at: u64 = self.start + self.delivered;
        match engine.resolve_target(self.idx, self.attempt, self.start, resume_at, self.end) {
            Ok(Some(t)) => {
                proof {
                    if engine.volumes is Some {
                        lemma_volume_from(engine.volumes->0@, self.start as int, 0);
                    }
                }
                self.attempt = self.attempt + 1;
                self.asked =
                Some(
                    Body {
                        at: t.merged_start,
                        limit: t.merged_start + (t.local_end - t.local_start),
                        origin: t.merged_start - t.local_start,
                    },
                );
                Ok(FetchStep::Ask(t))
            },
            Ok(None) => Ok(FetchStep::Done),
            Err(e) => Err(e),
        }
    }

    /// The request has been answered: with the range that was asked for, or with all
    /// that the URL has.
    pub fn answered(&mut self, whole: bool)
        requires
            old(self).wf(),
        ensures
            final(self).wf(),
            *final(self) == (ChunkFetch {
                asked: None,
                body: match old(self).asked {
                    Some(b) => Some(
                        if whole {
                            Body { at: b.origin, ..b }
                        } else {
                            b
                        },
                    ),
                    None => None,
                },
                ..*old(self)
            }),
    {
        let body: Option<Body> = match self.asked {
            Some(b) => Some(
                if whole {
                    Body { at: b.origin, limit: b.limit, origin: b.origin }
                } else {
                    b
                },
            ),
            None => None,
        };
        self.body = body;
        self.asked = None;
    }

    /// A piece of the body, so many bytes long. What is wanted of it are the bytes
    /// that come next in the chunk, and they are counted as delivered; what the
    /// origin sends past the range is left.
    pub fn piece(&mut self, len: u64) -> (out: PieceStep)
        requires
            old(self).wf(),
        ensures
            final(self).wf(),
            ({
                let was = *old(self);
                let now = *final(self);
                &&& now == (ChunkFetch {
                    delivered: now.delivered,
                    body: now.body,
                    passed: now.passed,
                    ..was
                })
                &&& match was.body {
                    None => out == PieceStep::Stop && now == was,
                    Some(b) => {
                        &&& now.body is Some
                        &&& now.body->0.limit == b.limit
                        &&& now.body->0.origin == b.origin
                        &&& match out {
                            PieceStep::Stop => was.resume_at() > b.limit && now == was,
                            PieceStep::Skip => was.resume_at() <= b.limit && b.at + len
                                <= was.resume_at() && now.delivered == was.delivered
                                && now.passed@ == was.passed@ && now.body->0.at == b.at + len,
                            PieceStep::Pass { lo, hi, at } => {
                                &&& was.resume_at() <= b.limit
                                &&& b.at + len > was.resume_at()
                                &&& lo < hi <= len
                                &&& at == was.resume_at()
                                &&& b.at + lo == at
                                &&& b.at + hi == imin(b.at + len, b.limit + 1)
                                &&& now.delivered == was.delivered + (hi - lo)
                                &&& now.passed@ == was.passed@ + stretch(at as int, hi - lo)
                                &&& now.body->0.at == imin(b.at + len, u64::MAX as int)
                            },
                        }
                    },
                }
            }),
    {
        let b: Body = match self.body {
            Some(b) => b,
            None => {
                return PieceStep::Stop;
            },
        };
        let at: u64 = self.start + self.delivered;
        if at > b.limit {
            return PieceStep::Stop;
        }
        let lo: u64 = at - b.at;
        if lo >= len {
            self.body = Some(Body { at: b.at + len, limit: b.limit, origin: b.origin });
            return PieceStep::Skip;
        }
        let hi: u64 = (b.limit - b.at + 1).min(len);
        let ghost was = *self;
        self.delivered = self.delivered + (hi - lo);
        self.body =
        Some(Body { at: b.at.saturating_add(len), limit: b.limit, origin: b.origin });
        self.passed = Ghost(self.passed@ + stretch(at as int, hi - lo));
        assert(self.passed@ =~= stretch(self.start as int, self.delivered as int));
        PieceStep::Pass { lo, hi, at }
    }

    /// The body has come to its end. One that ended short leaves the chunk open; says
    /// whether it did.
    pub fn ended(&mut self) -> (short: bool)
        requires
            old(self).wf(),
        ensures
            final(self).wf(),
            ({
                let was = *old(self);
                &&& short == (was.body is Some && was.resume_at() <= was.body->0.limit)
                &&& *final(self) == (ChunkFetch {
                    body: None,
                    last_error: final(self).last_error,
                    ..was
                })
                &&& if short {
                    &&& final(self).last_error is Some
                    &&& final(self).last_error->0 is Upstream
                    &&& final(self).last_error->0->Upstream_0@ == ended_early()
                } else {
                    final(self).last_error == was.last_error
                }
            }),
    {
        let short: bool = match self.body {
            Some(b) => self.start + self.delivered <= b.limit,
            None => false,
        };
        if short {
            self.last_error =
            Some(
                ProxyError::Upstream("the body ended before the range was complete".to_owned()),
            );
        }
        self.body = None;
        short
    }

    /// The latest attempt has failed.
    pub fn fail(&mut self, e: ProxyError)
        requires
            old(self).wf(),
        ensures
            final(self).wf(),
            *final(self) == (ChunkFetch {
                last_error: Some(e),
                asked: None,
                body: None,
                ..*old(self)
            }),
    {
        self.asked = None;
        self.body = None;
        self.last_error = Some(e);
    }
}

/// A chunk that lies in one volume, or of a file without volumes, always has
/// something to be had until all of it has been delivered: it is done only when
/// every byte from its first to its last has been passed on, each once and in order.
pub proof fn law_a_chunk_is_done_when_all_of_it_was_passed_on(f: ChunkFetch, engine: Engine)
    requires
        f.wf(),
        f.start <= f.end,
        engine.volumes is Some ==> {
            let vols = engine.volumes->0@;
            let k = crate::engine::volume_from(vols, f.start as int, 0);
            k is Some ==> f.end < vols[k->0].offset + vols[k->0].size
        },
    ensures
        f.resume_at() <= f.end ==> !(engine.aim(
            f.idx as int,
            f.attempt as int,
            f.start,
            f.resume_at() as u64,
            f.end,
        ) is Nothing),
        f.resume_at() > f.end ==> f.passed@ == stretch(f.start as int, f.end - f.start + 1),
{
    if engine.volumes is Some {
        lemma_volume_from(engine.volumes->0@, f.start as int, 0);
    }
}

/// A body that is passed through from the file's first byte on.
pub struct Passthrough {
    /// Where the body's next byte lies.
    pub at: u64,
}

impl Passthrough {
    pub fn new() -> (out: Self)
        ensures
            out.at == 0,
    {
        Passthrough { at: 0 }
    }

    /// Where a piece of so many bytes lies, or `None` past the last offset that there
    /// is.
    pub fn piece(&mut self, len: u64) -> (out: Option<u64>)
        ensures
            if old(self).at + len <= u64::MAX {
                out == Some(old(self).at) && final(self).at == old(self).at + len
            } else {
                out is None && final(self).at == old(self).at
            },
    {
        if len > u64::MAX - self.at {
            return None;
        }
        let at: u64 = self.at;
        self.at = at + len;
        Some(at)
    }
}

// ---------------------------------------------------------------------------
// The order in which chunks leave

/// What comes out of the chunk whose turn it is.
#[derive(Debug, Clone, Copy, PartialEq, Eq, Structural)]
pub enum Drained {
    /// So many bytes, of which the first is byte `at` of the file.
    Piece { at: u64, len: u64 },
    Failure,
    /// The chunk has no more to give.
    End,
}

/// What to do with it.
#[derive(Debug, Clone, Copy, PartialEq, Eq, Structural)]
pub enum DrainStep {
    /// Pass it on to the client.
    Forward,
    /// Pass it on, abort all fetchers, and end the stream.
    ForwardAndStop,
    /// There is nothing to pass on.
    Skip,
    /// It is not what comes next: pass a failure on, abort all fetchers, and end the
    /// stream.
    FailAndStop,
    /// Abort all fetchers and end the stream.
    Stop,
}

/// Something that was passed on to a client.
pub ghost enum Sent {
    /// So many bytes of the file from a place on.
    Piece(int, int),
    Failure,
}

/// The positions of what was passed on.
pub open spec fn positions(log: Seq<Sent>) -> Seq<int>
    decreases log.len(),
{
    if log.len() == 0 {
        seq![]
    } else {
        positions(log.drop_last()) + match log.last() {
            Sent::Piece(at, len) => stretch(at, len),
            Sent::Failure => seq![],
        }
    }
}

/// What a client reads where every piece holds the bytes that `file` has at its
/// place.
pub open spec fn read_of(log: Seq<Sent>, file: Seq<u8>) -> Seq<u8>
    decreases log.len(),
{
    if log.len() == 0 {
        seq![]
    } else {
        read_of(log.drop_last(), file) + match log.last() {
            Sent::Piece(at, len) => file.subrange(at, at + len),
            Sent::Failure => seq![],
        }
    }
}

/// Draining the chunks of a stream in the order of the plan, whatever order they are
/// fetched in. A piece is passed on only where it is the next one, and a chunk ends
/// only where all of it has been passed on.
pub struct Drain {
    pub plan: Vec<(u64, u64)>,
    /// The chunk whose turn it is.
    pub at: usize,
    /// The byte that comes next.
    pub next: u64,
    /// The stream has been ended before its time.
    pub stopped: bool,
    /// What was passed on.
    pub log: Ghost<Seq<Sent>>,
}

impl Drain {
    /// All chunks have been drained, or the stream has been ended.
    pub open spec fn over(self) -> bool {
        self.stopped || self.at >= self.plan@.len()
    }

    /// The first byte of the stream.
    pub open spec fn first(self) -> int {
        if self.plan@.len() > 0 {
            self.plan@[0].0 as int
        } else {
            0
        }
    }

    /// The bytes passed on are those from the first on, and nothing came behind a
    /// failure.
    pub open spec fn wf(self) -> bool {
        &&& self.at <= self.plan@.len()
        &&& self.first() <= self.next
        &&& positions(self.log@) == stretch(self.first(), self.next - self.first())
        &&& forall|i: int|
            0 <= i < self.log@.len() && #[trigger] self.log@[i] is Failure ==> self.stopped && i
                == self.log@.len() - 1
        &&& forall|i: int|
            0 <= i < self.log@.len() && #[trigger] self.log@[i] is Piece ==> self.first()
                <= self.log@[i]->Piece_0 && self.log@[i]->Piece_1 >= 0
                && self.log@[i]->Piece_0 + self.log@[i]->Piece_1 <= self.next
        &&& self.at < self.plan@.len() ==> {
            let (lo, hi) = self.plan@[self.at as int];
            self.next == lo || lo < self.next <= hi + 1
        }
        &&& self.at == self.plan@.len() && self.at > 0 ==> self.next == self.plan@.last().1 + 1
    }

    /// A piece is the one that comes next, and lies in the chunk whose turn it is.
    pub open spec fn fitting(self, at: u64, len: u64) -> bool {
        at == self.next && at + len <= self.plan@[self.at as int].1 + 1 && at + len <= u64::MAX
    }

    /// All of the chunk whose turn it is has been passed on, and the next one begins
    /// there.
    pub open spec fn complete(self) -> bool {
        &&& self.next == self.plan@[self.at as int].1 + 1
        &&& self.at + 1 < self.plan@.len() ==> self.plan@[self.at + 1].0 == self.next
    }

    pub fn new(plan: &Vec<(u64, u64)>) -> (out: Self)
        ensures
            out.wf(),
            out.plan@ == plan@,
            out.at == 0,
            out.next == out.first(),
            !out.stopped,
            out.log@.len() == 0,
    {
        let mut own: Vec<(u64, u64)> = Vec::new();
        let mut i: usize = 0;
        while i < plan.len()
            invariant
                i <= plan@.len(),
                own@ == plan@.take(i as int),
            decreases plan.len() - i,
        {
            own.push(plan[i]);
            assert(own@ =~= plan@.take(i + 1));
            i = i + 1;
        }
        assert(own@ =~= plan@);
        let next: u64 = if own.len() > 0 {
            own[0].0
        } else {
            0
        };
        let out: Drain = Drain {
            plan: own,
            at: 0,
            next,
            stopped: false,
            log: Ghost(Seq::empty()),
        };
        assert(positions(out.log@) =~= stretch(out.first(), 0));
        out
    }

    /// The chunk to wait for, or `None` once the stream has come to its end.
    pub fn turn(&self) -> (out: Option<usize>)
        ensures
            out == if self.over() {
                None
            } else {
                Some(self.at)
            },
    {
        if self.stopped || self.at >= self.plan.len() {
            None
        } else {
            Some(self.at)
        }
    }

    /// Something came out of the chunk whose turn it is. The first failure is passed
    /// on and ends the stream, and so does anything that would leave a gap.
    pub fn took(&mut self, item: Drained) -> (out: DrainStep)
        requires
            old(self).wf(),
        ensures
            final(self).wf(),
            final(self).plan == old(self).plan,
            ({
                let was = *old(self);
                let now = *final(self);
                let failed = Drain {
                    stopped: true,
                    log: Ghost(was.log@.push(Sent::Failure)),
                    ..was
                };
                if was.over() {
                    out == DrainStep::Stop && now == was
                } else {
                    match item {
                        Drained::Piece { at, len } => if was.fitting(at, len) {
                            out == DrainStep::Forward && now == (Drain {
                                next: (at + len) as u64,
                                log: Ghost(was.log@.push(Sent::Piece(at as int, len as int))),
                                ..was
                            })
                        } else {
                            out == DrainStep::FailAndStop && now == failed
                        },
                        Drained::Failure => out == DrainStep::ForwardAndStop && now == failed,
                        Drained::End => if was.complete() {
                            out == DrainStep::Skip && now == (Drain {
                                at: (was.at + 1) as usize,
                                ..was
                            })
                        } else {
                            out == DrainStep::FailAndStop && now == failed
                        },
                    }
                }
            }),
    {
        if self.stopped || self.at >= self.plan.len() {
            return DrainStep::Stop;
        }
        let ghost was = *self;
        let last: u64 = self.plan[self.at].1;
        match item {
            Drained::Piece { at, len } => {
                if at == self.next && (len == 0 && (at <= last || at - last == 1) || len > 0 && at
                    <= last && len - 1 <= last - at) && len <= u64::MAX - at {
                    self.next = at + len;
                    self.log = Ghost(self.log@.push(Sent::Piece(at as int, len as int)));
                    proof {
                        assert(self.log@.drop_last() =~= was.log@);
                        assert(positions(self.log@) =~= stretch(
                            self.first(),
                            self.next - self.first(),
                        ));
                        lemma_log_grows(was, self.log@.last());
                    }
                    return DrainStep::Forward;
                }
            },
            Drained::Failure => {
                self.fail();
                return DrainStep::ForwardAndStop;
            },
            Drained::End => {
                if self.next > last && self.next - last == 1 && (self.at + 1 >= self.plan.len()
                    || self.plan[self.at + 1].0 == self.next) {
                    self.at = self.at + 1;
                    return DrainStep::Skip;
                }
            },
        }
        self.fail();
        DrainStep::FailAndStop
    }

    fn fail(&mut self)
        requires
            old(self).wf(),
            !old(self).over(),
        ensures
            final(self).wf(),
            *final(self) == (Drain {
                stopped: true,
                log: Ghost(old(self).log@.push(Sent::Failure)),
                ..*old(self)
            }),
    {
        let ghost was = *self;
        self.stopped = true;
        self.log = Ghost(self.log@.push(Sent::Failure));
        proof {
            assert(self.log@.drop_last() =~= was.log@);
            assert(positions(self.log@) =~= positions(was.log@));
            lemma_log_grows(was, Sent::Failure);
        }
    }

    /// The client has gone.
    pub fn client_gone(&mut self) -> (out: DrainStep)
        requires
            old(self).wf(),
        ensures
            final(self).wf(),
            out == DrainStep::Stop,
            *final(self) == (Drain { stopped: true, ..*old(self) }),
    {
        self.stopped = true;
        DrainStep::Stop
    }
}

/// What held of the entries of a log holds of them in a longer one.
proof fn lemma_log_grows(was: Drain, s: Sent)
    requires
        was.wf(),
        !was.over(),
        s is Piece ==> was.first() <= s->Piece_0 && s->Piece_1 >= 0 && was.next <= s->Piece_0
            + s->Piece_1,
    ensures
        forall|i: int|
            0 <= i < was.log@.len() + 1 && #[trigger] was.log@.push(s)[i] is Failure ==> i
                == was.log@.len() && s is Failure,
        forall|i: int|
            0 <= i < was.log@.len() + 1 && #[trigger] was.log@.push(s)[i] is Piece ==> was.first()
                <= was.log@.push(s)[i]->Piece_0 && was.log@.push(s)[i]->Piece_1 >= 0
                && was.log@.push(s)[i]->Piece_0 + was.log@.push(s)[i]->Piece_1 <= if s is Piece {
                s->Piece_0 + s->Piece_1
            } else {
                was.next as int
            },
{
    assert forall|i: int|
        0 <= i < was.log@.len() + 1 && #[trigger] was.log@.push(s)[i] is Failure implies i
        == was.log@.len() && s is Failure by {
        if i < was.log@.len() {
            assert(was.log@[i] is Failure);
        }
    }
    assert forall|i: int|
        0 <= i < was.log@.len() + 1 && #[trigger] was.log@.push(s)[i] is Piece implies was.first()
        <= was.log@.push(s)[i]->Piece_0 && was.log@.push(s)[i]->Piece_1 >= 0
        && was.log@.push(s)[i]->Piece_0 + was.log@.push(s)[i]->Piece_1 <= if s is Piece {
        s->Piece_0 + s->Piece_1
    } else {
        was.next as int
    } by {
        if i < was.log@.len() {
            assert(was.log@[i] is Piece);
        }
    }
}

/// Pieces that follow one another without a gap read as one stretch of the file.
proof fn lemma_read_in_order(log: Seq<Sent>, first: int, len: int, file: Seq<u8>)
    requires
        positions(log) == stretch(first, len),
        0 <= first,
        0 <= len,
        first + len <= file.len(),
        forall|i: int|
            0 <= i < log.len() && #[trigger] log[i] is Piece ==> first <= log[i]->Piece_0
                && log[i]->Piece_1 >= 0 && log[i]->Piece_0 + log[i]->Piece_1 <= file.len(),
    ensures
        read_of(log, file) == file.subrange(first, first + len),
    decreases log.len(),
{
    if log.len() == 0 {
        assert(stretch(first, len).len() == len);
        assert(read_of(log, file) =~= file.subrange(first, first + len));
    } else {
        let front = log.drop_last();
        let all = positions(log);
        assert(stretch(first, len).len() == len);
        match log.last() {
            Sent::Failure => {
                assert(positions(front) =~= all);
                assert forall|i: int|
                    0 <= i < front.len() && #[trigger] front[i] is Piece implies first
                    <= front[i]->Piece_0 && front[i]->Piece_1 >= 0 && front[i]->Piece_0
                    + front[i]->Piece_1 <= file.len() by {
                    assert(log[i] is Piece);
                }
                lemma_read_in_order(front, first, len, file);
                assert(read_of(log, file) =~= read_of(front, file));
            },
            Sent::Piece(at, n) => {
                assert(log[log.len() - 1] is Piece);
                let m = len - n;
                assert(stretch(at, n).len() == n);
                assert(positions(front).len() == m);
                assert forall|i: int| 0 <= i < m implies positions(front)[i] == first + i by {
                    assert(all[i] == positions(front)[i]);
                }
                assert(positions(front) =~= stretch(first, m));
                assert forall|i: int|
                    0 <= i < front.len() && #[trigger] front[i] is Piece implies first
                    <= front[i]->Piece_0 && front[i]->Piece_1 >= 0 && front[i]->Piece_0
                    + front[i]->Piece_1 <= file.len() by {
                    assert(log[i] is Piece);
                }
                lemma_read_in_order(front, first, m, file);
                if n > 0 {
                    assert(all[m] == stretch(at, n)[0]);
                    assert(at == first + m);
                }
                assert(file.subrange(first, first + m) + file.subrange(at, at + n)
                    =~= file.subrange(first, first + len));
            },
        }
    }
}

/// The chunks of a tiling lie between its ends.
proof fn lemma_tiling_ends(plan: Seq<(u64, u64)>, lo: int, hi: int)
    requires
        tiles(plan, lo, hi),
        plan.len() > 0,
    ensures
        plan[0].0 == lo,
        plan.last().1 == hi,
        forall|i: int| 0 <= i < plan.len() ==> (#[trigger] plan[i]).0 <= plan[i].1 <= hi,
        lo <= hi,
    decreases plan.len(),
{
    reveal_with_fuel(tiles, 2);
    let rest = plan.drop_first();
    if rest.len() > 0 {
        lemma_tiling_ends(rest, plan[0].1 + 1, hi);
        assert(rest.last() == plan.last());
        assert forall|i: int| 0 <= i < plan.len() implies (#[trigger] plan[i]).0 <= plan[i].1
            <= hi by {
            if i > 0 {
                assert(plan[i] == rest[i - 1]);
            }
        }
    } else {
        assert(plan.last() == plan[0]);
    }
}

/// What a client reads of a range is the file's bytes from the first one on, in
/// order, without a gap or a repeat, whatever order the chunks are fetched in; it is
/// all of the range once the stream is over and was not ended before its time; and a
/// failure is the last thing that comes, and comes once.
pub proof fn law_a_client_reads_the_range_in_order(d: Drain, start: int, end: int, file: Seq<u8>)
    requires
        d.wf(),
        tiles(d.plan@, start, end),
        start <= end < file.len(),
    ensures
        start <= d.next <= end + 1,
        positions(d.log@) == stretch(start, d.next - start),
        read_of(d.log@, file) == file.subrange(start, d.next as int),
        d.over() && !d.stopped ==> d.next == end + 1,
        forall|i: int|
            0 <= i < d.log@.len() && #[trigger] d.log@[i] is Failure ==> d.stopped && i
                == d.log@.len() - 1,
{
    lemma_tiling_ends(d.plan@, start, end);
    if d.at < d.plan@.len() {
        let c = d.plan@[d.at as int];
        assert(c.0 <= c.1 <= end);
    }
    lemma_read_in_order(d.log@, start, d.next - start, file);
}

/// A stream whose chunks tile its range never fails of itself: a piece that comes
/// next is passed on, and the end of a chunk that was passed on is accepted.
pub proof fn law_what_comes_next_is_passed_on(d: Drain, start: int, end: int)
    requires
        d.wf(),
        !d.over(),
        tiles(d.plan@, start, end),
    ensures
        d.next == d.plan@[d.at as int].1 + 1 ==> d.complete(),
        forall|len: u64|
            d.next + len <= d.plan@[d.at as int].1 + 1 && d.next + len <= u64::MAX
                ==> #[trigger] d.fitting(d.next, len),
{
    lemma_tiles_follow(d.plan@, start, end, d.at as int);
}

proof fn lemma_tiles_follow(plan: Seq<(u64, u64)>, lo: int, hi: int, i: int)
    requires
        tiles(plan, lo, hi),
        0 <= i < plan.len(),
    ensures
        i + 1 < plan.len() ==> plan[i + 1].0 == plan[i].1 + 1,
    decreases i,
{
    reveal_with_fuel(tiles, 2);
    let rest = plan.drop_first();
    if i + 1 < plan.len() {
        if i == 0 {
            assert(rest[0] == plan[1]);
        } else {
            lemma_tiles_follow(rest, plan[0].1 + 1, hi, i - 1);
            assert(rest[i - 1] == plan[i] && rest[i] == plan[i + 1]);
        }
    }
}

// ---------------------------------------------------------------------------
// Answers

/// What to make of the status of an answer.
#[derive(Debug)]
pub enum StatusVerdict {
    /// The body is the range that was asked for.
    Range,
    /// The body is the whole file; the range is to be cut out of it.
    Whole,
    /// The answer is no use; what to put on record.
    Refused(String),
}

/// A span that goes into the cache must come as asked: anything but 206 is
/// refused.
pub fn judge_cached_status(status: u16) -> (out: StatusVerdict)
    ensures
        match out {
            StatusVerdict::Range => status == 206,
            StatusVerdict::Whole => false,
            StatusVerdict::Refused(m) => status != 206 && m@ == "expected 206, got "@ + decimal(
                status as nat,
            ),
        },
{
    if status == 206 {
        StatusVerdict::Range
    } else {
        StatusVerdict::Refused(
            join2("expected 206, got ", decimal_text(status as u64).as_str()),
        )
    }
}

/// A span that goes to the client only: an unsuccessful status is refused, and so
/// is a whole file where the volumes of several are to be stitched.
pub fn judge_status(status: u16, multi_volume: bool) -> (out: StatusVerdict)
    ensures
        match out {
            StatusVerdict::Refused(m) => if 200 <= status <= 299 {
                status == 200 && multi_volume && m@
                    == "volume returned 200 OK to a ranged request"@
            } else {
                m@ == "status "@ + decimal(status as nat)
            },
            StatusVerdict::Whole => status == 200 && !multi_volume,
            StatusVerdict::Range => 201 <= status <= 299,
        },
{
    if status < 200 || status > 299 {
        return StatusVerdict::Refused(join2("status ", decimal_text(status as u64).as_str()));
    }
    if status == 200 {
        if multi_volume {
            return StatusVerdict::Refused(
                "volume returned 200 OK to a ranged request".to_owned(),
            );
        }
        return StatusVerdict::Whole;
    }
    StatusVerdict::Range
}

/// The longest wait (milliseconds) that an origin is granted.
pub const RETRY_AFTER_MAX: u64 = 300_000;

/// The wait that a `Retry-After` header asks for, in milliseconds: a number of
/// seconds, as far as it is granted.
pub open spec fn wait_asked(value: Option<Seq<char>>) -> Option<u64> {
    match value {
        Some(v) => match number(trimmed(v), u64::MAX as int) {
            Some(n) => Some(imin(n * 1000, RETRY_AFTER_MAX as int) as u64),
            None => None,
        },
        None => None,
    }
}

/// What a refused request fails with: an origin that asks for less load is told
/// apart from one that is broken.
pub fn refusal(status: u16, retry_after: Option<&str>) -> (out: ProxyError)
    ensures
        if status == 429 || status == 503 {
            out == (ProxyError::Throttled {
                status,
                retry_after: wait_asked(
                    match retry_after {
                        Some(v) => Some(v@),
                        None => None,
                    },
                ),
            })
        } else {
            out == ProxyError::BadStatus(status)
        },
{
    if status != 429 && status != 503 {
        return ProxyError::BadStatus(status);
    }
    let wait: Option<u64> = match retry_after {
        Some(v) => match parse_number(&trim_chars(&chars_of(v)), u64::MAX) {
            Some(n) => Some(saturating_product(n, 1000).min(RETRY_AFTER_MAX)),
            None => None,
        },
        None => None,
    };
    ProxyError::Throttled { status, retry_after: wait }
}

/// The positions from `at` on, so many of them, that lie in `[lo, hi]`.
pub open spec fn windowed(at: int, len: int, lo: int, hi: int) -> Seq<int> {
    stretch(imax(at, lo), imin(at + len - 1, hi) - imax(at, lo) + 1)
}

/// Of pieces that follow one another, what a chunk wants follows one another too:
/// however a span is cut into pieces, the chunk gets its part of the span, in order
/// and each byte once.
pub proof fn law_windows_follow_one_another(at: int, first: int, second: int, lo: int, hi: int)
    requires
        0 <= first,
        0 <= second,
    ensures
        windowed(at, first, lo, hi) + windowed(at + first, second, lo, hi) == windowed(
            at,
            first + second,
            lo,
            hi,
        ),
{
    assert(windowed(at, first, lo, hi) + windowed(at + first, second, lo, hi) =~= windowed(
        at,
        first + second,
        lo,
        hi,
    ));
}

/// Which bytes of a piece of `len` bytes that begins at `piece_start` lie in
/// `[chunk_start, chunk_end]`.
pub fn piece_window(piece_start: u64, len: u64, chunk_start: u64, chunk_end: u64) -> (out: Option<
    (u64, u64),
>)
    requires
        piece_start + len <= u64::MAX,
        chunk_end < u64::MAX,
    ensures
        match out {
            Some((lo, hi)) => lo < hi <= len && forall|i: int|
                0 <= i < len ==> (lo <= i < hi <==> chunk_start <= #[trigger] (piece_start + i)
                    <= chunk_end),
            None => forall|i: int|
                0 <= i < len ==> !(chunk_start <= #[trigger] (piece_start + i) <= chunk_end),
        },
        windowed(
            piece_start as int,
            len as int,
            chunk_start as int,
            chunk_end as int,
        ) == match out {
            Some((lo, hi)) => stretch(piece_start + lo, hi - lo),
            None => stretch(0, 0),
        },
{
    if len == 0 {
        return None;
    }
    let piece_end: u64 = piece_start + (len - 1);
    if piece_end < chunk_start || piece_start > chunk_end {
        return None;
    }
    let lo: u64 = chunk_start.saturating_sub(piece_start);
    let hi: u64 = (chunk_end + 1).saturating_sub(piece_start).min(len);
    if hi <= lo {
        None
    } else {
        Some((lo, hi))
    }
}

// ---------------------------------------------------------------------------
// A chunk out of the cache

/// A run of blocks that are all there or all missing.
#[derive(Debug, Clone, Copy, PartialEq, Eq, Structural)]
pub struct BlockRun {
    pub hit: bool,
    pub first: u64,
    pub last: u64,
    /// The part of the run that the chunk wants.
    pub span_start: u64,
    pub span_end: u64,
    /// The run's own bounds, to which a fetch is aligned.
    pub from: u64,
    pub to: u64,
}

/// A chunk that does not lie inside the cached file goes to the origin.
pub fn bypasses_cache(entry: &CacheEntry, end: u64) -> (out: bool)
    ensures
        out == (entry.meta.total_size == 0 || end >= entry.meta.total_size),
{
    entry.meta.total_size == 0 || end >= entry.meta.total_size
}

/// The longest run of blocks of the chunk `[start, end]` that begins with block `i`
/// and is all there or all missing. The runs of a chunk follow one another without a
/// gap.
pub open spec fn is_run(run: BlockRun, entry: CacheEntry, i: int, start: u64, end: u64) -> bool {
    let bs = entry.meta.block_size as int;
    &&& run.first == i
    &&& run.hit == bit_at(entry.bitmap@, i)
    &&& i <= run.last <= end as int / bs
    &&& forall|b: int| i <= b <= run.last ==> #[trigger] bit_at(entry.bitmap@, b) == run.hit
    &&& run.last == end as int / bs || bit_at(entry.bitmap@, run.last + 1) != run.hit
    &&& run.from == i * bs
    &&& run.to == imin((run.last + 1) * bs - 1, entry.meta.total_size - 1)
    &&& run.span_start == imax(run.from as int, start as int)
    &&& run.span_end == imin(run.to as int, end as int)
    &&& run.span_start <= run.span_end
    &&& i == start as int / bs ==> run.span_start == start
    &&& i > start as int / bs ==> run.span_start == i * bs
    &&& run.last == end as int / bs ==> run.span_end == end
    &&& run.last < end as int / bs ==> run.span_end == (run.last + 1) * bs - 1
}

/// The run of blocks of the chunk `[start, end]` that begins with block `i`.
pub fn next_run(entry: &CacheEntry, i: u64, start: u64, end: u64) -> (out: BlockRun)
    requires
        entry.wf(),
        start <= end < entry.meta.total_size,
        start as int / entry.meta.block_size as int <= i <= end as int
            / entry.meta.block_size as int,
    ensures
        is_run(out, *entry, i as int, start, end),
{
    let bs: u64 = entry.meta.block_size;
    let total: u64 = entry.meta.total_size;
    let last_block: u64 = end / bs;
    let hit: bool = entry.has_block(i);
    let mut j: u64 = i;
    while j < last_block && entry.has_block(j + 1) == hit
        invariant
            i <= j <= last_block,
            forall|b: int| i <= b <= j ==> #[trigger] bit_at(entry.bitmap@, b) == hit,
        decreases last_block - j,
    {
        j = j + 1;
    }
    proof {
        let b = bs as int;
        lemma_fundamental_div_mod(start as int, b);
        lemma_fundamental_div_mod(end as int, b);
        lemma_mul_is_commutative(b, start as int / b);
        lemma_mul_is_commutative(b, end as int / b);
        lemma_mul_inequality(start as int / b, i as int, b);
        lemma_mul_inequality(i as int, j as int, b);
        lemma_mul_inequality(j as int, end as int / b, b);
        assert((j + 1) * b == j * b + b) by (nonlinear_arith);
        if i > start as int / b {
            lemma_mul_inequality(start as int / b + 1, i as int, b);
            assert((start as int / b + 1) * b == (start as int / b) * b + b) by (nonlinear_arith);
        }
        if j < end as int / b {
            lemma_mul_inequality(j + 1, end as int / b, b);
        }
    }
    let from: u64 = i * bs;
    let to: u64 = (j * bs + (bs - 1)).min(total - 1);
    BlockRun {
        hit,
        first: i,
        last: j,
        span_start: from.max(start),
        span_end: to.min(end),
        from,
        to,
    }
}

/// Walking over the blocks of a chunk, run after run.
#[derive(Debug)]
pub struct BlockWalk {
    pub start: u64,
    pub end: u64,
    pub block_size: u64,
    /// The byte of the chunk that comes next.
    pub at: u64,
}

impl BlockWalk {
    pub open spec fn wf(self) -> bool {
        &&& self.block_size >= 1
        &&& self.end < u64::MAX
        &&& self.start <= self.at <= self.end + 1
        &&& self.at == self.start || self.at > self.end || self.at as int % self.block_size as int
            == 0
    }

    pub fn new(entry: &CacheEntry, start: u64, end: u64) -> (out: Self)
        requires
            entry.wf(),
            start <= end < u64::MAX,
        ensures
            out.wf(),
            out.start == start && out.end == end && out.at == start,
            out.block_size == entry.meta.block_size,
    {
        BlockWalk { start, end, block_size: entry.meta.block_size, at: start }
    }

    /// The next run, which begins where the one before it ended, or `None` once the
    /// chunk has been walked over. What is there may have changed in between.
    pub fn next(&mut self, entry: &CacheEntry) -> (out: Option<BlockRun>)
        requires
            old(self).wf(),
            entry.wf(),
            entry.meta.block_size == old(self).block_size,
            old(self).end < entry.meta.total_size,
        ensures
            final(self).wf(),
            ({
                let was = *old(self);
                match out {
                    Some(run) => {
                        &&& was.at <= was.end
                        &&& is_run(
                            run,
                            *entry,
                            was.at as int / was.block_size as int,
                            was.start,
                            was.end,
                        )
                        &&& run.span_start == was.at
                        &&& *final(self) == (BlockWalk { at: (run.span_end + 1) as u64, ..was })
                    },
                    None => was.at > was.end && *final(self) == was,
                }
            }),
    {
        if self.at > self.end {
            return None;
        }
        let i: u64 = self.at / self.block_size;
        proof {
            let bs = self.block_size as int;
            lemma_div_is_ordered(self.start as int, self.at as int, bs);
            lemma_div_is_ordered(self.at as int, self.end as int, bs);
            lemma_fundamental_div_mod(self.at as int, bs);
            lemma_fundamental_div_mod(self.start as int, bs);
            lemma_mul_is_commutative(bs, self.at as int / bs);
            if self.at > self.start && i == self.start as int / bs {
                assert(self.at == i * bs);
                assert(self.start as int >= (self.start as int / bs) * bs) by (nonlinear_arith)
                    requires
                        self.start as int == bs * (self.start as int / bs) + self.start as int % bs,
                        self.start as int % bs >= 0,
                ;
            }
        }
        let run: BlockRun = next_run(entry, i, self.start, self.end);
        proof {
            let bs = self.block_size as int;
            if run.last < self.end as int / bs {
                assert((run.span_end + 1) as int == (run.last + 1) * bs);
                lemma_mod_multiples_basic(run.last + 1, bs);
            }
        }
        self.at = run.span_end + 1;
        Some(run)
    }
}

} // verus!
