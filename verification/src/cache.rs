//! Which bytes of a file are on disk.
//!
//! Bytes are stored at their absolute file offset in a sparse data file. A
//! bitmap records which blocks are *fully* present; for the others a set of byte
//! intervals is kept in memory, so that a reader can run ahead of block
//! granularity. A block is marked complete only when the union of what was
//! written covers it: counting bytes would be fooled by overlapping writers.

use crate::codec::{hex_encode, hex_of, sha256, sha256_of};
pub use crate::intervals::{interval_set_covers, merge_interval};
use crate::intervals::{apart, covered};
use crate::num::{ceil_div, div_ceil, imax, imin, saturating_product, wide_mul};
use crate::order::{
    in_order, lemma_in_order_ignores_listing, sorted_texts, utf8_views,
};
use crate::models::TaskConfig;
use crate::ranges::{canonical, covers};
use crate::text::{clone_opt, opt_view, same_opt, same_text, views, views2};
use vstd::arithmetic::div_mod::*;
use vstd::arithmetic::mul::*;
use vstd::prelude::*;
use vstd::string::*;
use vstd::utf8::*;

verus! {

/// Block granularity used for the bitmap.
pub const BLOCK_SIZE: u64 = 1024 * 1024;

/// How much a fetcher may hold before flushing, when no ordered reader is
/// waiting on those bytes.
pub const COALESCE_BYTES: usize = 1024 * 1024;

/// Subdirectory of the cache root holding ephemeral staging scratch files.
/// Dot-prefixed, so that it cannot be taken for an entry.
pub const STAGING_DIR: &'static str = ".staging";

/// Most segments that a bitmap summary has.
pub const SUMMARY_BUCKETS: u64 = 128;

// ---------------------------------------------------------------------------
// Coalescing writes

/// One positional write to be performed.
#[derive(Debug, Clone)]
pub struct PendingWrite {
    pub at: u64,
    pub data: Vec<u8>,
}

/// The bytes of `data`, each with its offset, when the first lies at `at`.
pub open spec fn placed(at: int, data: Seq<u8>) -> Seq<(int, u8)> {
    Seq::new(data.len(), |i: int| (at + i, data[i]))
}

/// The bytes of a list of writes, each with its offset, in order.
pub open spec fn placed_all(writes: Seq<PendingWrite>) -> Seq<(int, u8)>
    decreases writes.len(),
{
    if writes.len() == 0 {
        seq![]
    } else {
        placed_all(writes.drop_last()) + placed(
            writes.last().at as int,
            writes.last().data@,
        )
    }
}

/// Batches contiguous cache writes, so that far-ahead prefetch costs one large
/// sequential write instead of one per network buffer.
#[derive(Debug, Clone)]
pub struct WriteCoalescer {
    pub start: u64,
    pub buf: Vec<u8>,
}

impl WriteCoalescer {
    /// What is held lies inside the offsets of a machine word, and is less than a
    /// flush would take.
    pub open spec fn wf(self) -> bool {
        self.start + self.buf@.len() <= u64::MAX && self.buf@.len() < COALESCE_BYTES
    }

    pub fn new() -> (out: Self)
        ensures
            out.wf(),
            out.start == 0,
            out.buf@.len() == 0,
    {
        WriteCoalescer { start: 0, buf: Vec::new() }
    }

    /// Bytes accepted but not yet written.
    pub fn buffered(&self) -> (out: u64)
        ensures
            out == self.buf@.len(),
    {
        self.buf.len() as u64
    }

    /// Accepts `data` for absolute offset `at` and gives the writes that are now
    /// due, in order. When `coalesce` is false the write goes straight through,
    /// after anything already buffered.
    ///
    /// What is due and what stays buffered are together exactly what was buffered
    /// and what came, each byte at its own offset.
    pub fn write(&mut self, at: u64, data: &[u8], coalesce: bool) -> (out: Vec<PendingWrite>)
        requires
            old(self).wf(),
            at + data@.len() <= u64::MAX,
        ensures
            final(self).wf(),
            placed_all(out@) + placed(final(self).start as int, final(self).buf@) == placed(
                old(self).start as int,
                old(self).buf@,
            ) + placed(at as int, data@),
            data@.len() == 0 ==> out@.len() == 0 && *final(self) == *old(self),
            data@.len() > 0 && !coalesce ==> final(self).buf@.len() == 0,
            data@.len() > 0 && coalesce ==> {
                let joins = old(self).buf@.len() == 0 || old(self).start + old(self).buf@.len()
                    == at;
                let held = if joins {
                    old(self).buf@.len() + data@.len()
                } else {
                    data@.len()
                };
                &&& out@.len() == (if joins {
                    0int
                } else {
                    1
                }) + (if held >= COALESCE_BYTES {
                    1int
                } else {
                    0
                })
                &&& final(self).buf@.len() == if held >= COALESCE_BYTES {
                    0
                } else {
                    held
                }
            },
    {
        let mut out: Vec<PendingWrite> = Vec::new();
        let ghost had = placed(self.start as int, self.buf@);
        if data.len() == 0 {
            proof {
                assert(placed(at as int, data@) =~= seq![]);
                assert(placed_all(out@) + had =~= had + placed(at as int, data@));
            }
            return out;
        }
        if !coalesce {
            self.flush(&mut out);
            let ghost mid = out@;
            out.push(PendingWrite { at, data: copy_bytes(data) });
            proof {
                assert(out@.drop_last() =~= mid);
                assert(placed(self.start as int, self.buf@) =~= seq![]);
                assert(placed_all(out@) + placed(self.start as int, self.buf@) =~= had + placed(
                    at as int,
                    data@,
                ));
            }
            return out;
        }
        if self.buf.len() > 0 && self.start + self.buf.len() as u64 != at {
            self.flush(&mut out);
        }
        let ghost sent = placed_all(out@);
        let ghost kept = placed(self.start as int, self.buf@);
        proof {
            assert(sent + kept =~= had);
        }
        if self.buf.len() == 0 {
            self.start = at;
            proof {
                assert(kept =~= seq![]);
            }
        }
        let ghost head = self.buf@;
        append_bytes(&mut self.buf, data);
        proof {
            assert(placed(self.start as int, self.buf@) =~= kept + placed(at as int, data@));
            assert(sent + placed(self.start as int, self.buf@) =~= had + placed(
                at as int,
                data@,
            ));
        }
        if self.buf.len() >= COALESCE_BYTES {
            let ghost full = placed(self.start as int, self.buf@);
            self.flush(&mut out);
            proof {
                assert(placed(self.start as int, self.buf@) =~= seq![]);
                assert(placed_all(out@) + placed(self.start as int, self.buf@) =~= sent + full);
            }
        }
        out
    }

    /// Adds what is buffered to the writes that are due.
    pub fn flush(&mut self, due: &mut Vec<PendingWrite>)
        requires
            old(self).start + old(self).buf@.len() <= u64::MAX,
        ensures
            final(self).start == old(self).start,
            final(self).buf@.len() == 0,
            final(self).wf(),
            final(due)@.len() == old(due)@.len() + if old(self).buf@.len() > 0 {
                1int
            } else {
                0
            },
            old(self).buf@.len() > 0 ==> final(due)@.drop_last() == old(due)@
                && final(due)@.last().at == old(self).start && final(due)@.last().data@
                == old(self).buf@,
            old(self).buf@.len() == 0 ==> final(due)@ == old(due)@,
            placed_all(final(due)@) == placed_all(old(due)@) + placed(
                old(self).start as int,
                old(self).buf@,
            ),
    {
        if self.buf.len() == 0 {
            proof {
                assert(placed(self.start as int, self.buf@) =~= seq![]);
                assert(placed_all(due@) =~= placed_all(due@) + seq![]);
            }
            return ;
        }
        let ghost before = due@;
        let mut taken: Vec<u8> = Vec::new();
        core::mem::swap(&mut taken, &mut self.buf);
        due.push(PendingWrite { at: self.start, data: taken });
        proof {
            assert(due@.drop_last() =~= before);
        }
    }
}

/// A copy of some bytes.
pub fn copy_bytes(data: &[u8]) -> (out: Vec<u8>)
    ensures
        out@ == data@,
{
    let mut out: Vec<u8> = Vec::new();
    append_bytes(&mut out, data);
    assert(out@ =~= data@);
    out
}

pub(crate) fn append_bytes(to: &mut Vec<u8>, data: &[u8])
    ensures
        final(to)@ == old(to)@ + data@,
{
    let ghost had = to@;
    let mut i: usize = 0;
    while i < data.len()
        invariant
            i <= data@.len(),
            to@ == had + data@.take(i as int),
        decreases data.len() - i,
    {
        to.push(data[i]);
        proof {
            assert(data@.take(i as int).push(data@[i as int]) =~= data@.take(i + 1));
        }
        i = i + 1;
    }
    assert(data@.take(data@.len() as int) =~= data@);
}

// ---------------------------------------------------------------------------
// The bitmap

/// Bit `k` of a byte, counted from the least significant.
pub open spec fn bit_of(byte: u8, k: int) -> bool {
    (byte >> (k as u8)) & 1 == 1
}

/// Bit `i` of a bitmap; past its end no bit is set.
pub open spec fn bit_at(bm: Seq<u8>, i: int) -> bool {
    i / 8 < bm.len() && bit_of(bm[i / 8], i % 8)
}

fn bit(bm: &[u8], i: u64) -> (out: bool)
    ensures
        out == bit_at(bm@, i as int),
{
    let at: u64 = i / 8;
    if at >= bm.len() as u64 {
        return false;
    }
    let byte: u8 = bm[at as usize];
    let k: u8 = (i % 8) as u8;
    let masked: u8 = (byte >> k) & 1;
    assert(masked == 0 || masked == 1) by (bit_vector)
        requires
            masked == (byte >> k) & 1,
    ;
    masked != 0
}

/// Setting one bit of a byte sets that bit and no other.
proof fn lemma_set_bit(byte: u8, k: u8, j: u8)
    requires
        k < 8,
        j < 8,
    ensures
        ((byte | (1u8 << k)) >> j) & 1 == 1 <==> j == k || (byte >> j) & 1 == 1,
{
    assert(((byte | (1u8 << k)) >> j) & 1 == 1 <==> j == k || (byte >> j) & 1 == 1) by (bit_vector)
        requires
            k < 8,
            j < 8,
    ;
}

fn set_bit(bm: &mut Vec<u8>, i: u64)
    requires
        i as int / 8 < old(bm)@.len(),
    ensures
        final(bm)@.len() == old(bm)@.len(),
        forall|j: int|
            0 <= j ==> (#[trigger] bit_at(final(bm)@, j) <==> j == i || bit_at(old(bm)@, j)),
{
    assert(i / 8 < bm.len());
    let at: usize = (i / 8) as usize;
    let k: u8 = (i % 8) as u8;
    let byte: u8 = bm[at];
    bm.set(at, byte | (1u8 << k));
    proof {
        assert forall|j: int| 0 <= j implies (#[trigger] bit_at(bm@, j) <==> j == i || bit_at(
            old(bm)@,
            j,
        )) by {
            if j / 8 == at {
                lemma_set_bit(byte, k, (j % 8) as u8);
                assert(j == 8 * (j / 8) + j % 8);
            }
        }
    }
}

/// How many of the first `n` bits of a byte are set.
pub open spec fn ones(byte: u8, n: int) -> int
    decreases n,
{
    if n <= 0 {
        0
    } else {
        ones(byte, n - 1) + if bit_of(byte, n - 1) {
            1int
        } else {
            0
        }
    }
}

/// How many bits are set in all the bytes.
pub open spec fn popcount(bm: Seq<u8>) -> int
    decreases bm.len(),
{
    if bm.len() == 0 {
        0
    } else {
        popcount(bm.drop_last()) + ones(bm.last(), 8)
    }
}

fn count_bits(bm: &[u8]) -> (out: u64)
    requires
        bm@.len() <= 0x1fff_ffff_ffff_ffff,
    ensures
        out == popcount(bm@),
        out <= 8 * bm@.len(),
{
    let mut sum: u64 = 0;
    let mut i: usize = 0;
    while i < bm.len()
        invariant
            i <= bm@.len(),
            bm@.len() <= 0x1fff_ffff_ffff_ffff,
            sum == popcount(bm@.take(i as int)),
            sum <= 8 * i,
        decreases bm.len() - i,
    {
        let byte: u8 = bm[i];
        let mut n: u64 = 0;
        let mut k: u8 = 0;
        while k < 8
            invariant
                k <= 8,
                n <= k,
                n == ones(byte, k as int),
            decreases 8 - k,
        {
            let masked: u8 = (byte >> k) & 1;
            assert(masked == 0 || masked == 1) by (bit_vector)
                requires
                    masked == (byte >> k) & 1,
            ;
            if masked != 0 {
                n = n + 1;
            }
            k = k + 1;
        }
        proof {
            assert(bm@.take(i + 1).drop_last() =~= bm@.take(i as int));
        }
        sum = sum + n;
        i = i + 1;
    }
    proof {
        assert(bm@.take(bm@.len() as int) =~= bm@);
    }
    sum
}

/// How many of the bits from `lo` up to `hi` are set.
pub open spec fn set_between(bm: Seq<u8>, lo: int, hi: int) -> int
    decreases hi - lo,
{
    if hi <= lo {
        0
    } else {
        set_between(bm, lo, hi - 1) + if bit_at(bm, hi - 1) {
            1int
        } else {
            0
        }
    }
}

/// Segment `i` of a summary in `buckets` segments: the percentage of its blocks
/// that are complete.
pub open spec fn bucket_percent(bm: Seq<u8>, blocks: int, buckets: int, i: int) -> int {
    let lo = i * blocks / buckets;
    let hi = imin((i + 1) * blocks / buckets, blocks);
    if hi <= lo {
        0
    } else {
        set_between(bm, lo, hi) * 100 / (hi - lo)
    }
}

/// How many segments a summary has.
pub open spec fn bucket_count(blocks: int, max_buckets: int) -> int {
    if blocks == 0 {
        0
    } else {
        imax(imin(blocks, max_buckets), 1)
    }
}

/// Compresses a bitmap into at most `max_buckets` segments, each holding the
/// percentage (0 to 100) of blocks completed in that segment.
pub fn downsample_bitmap(bm: &[u8], blocks_total: u64, max_buckets: u64) -> (out: Vec<u8>)
    ensures
        out@.len() == bucket_count(blocks_total as int, max_buckets as int),
        forall|i: int|
            0 <= i < out@.len() ==> #[trigger] out@[i] == bucket_percent(
                bm@,
                blocks_total as int,
                out@.len() as int,
                i,
            ),
        forall|i: int| 0 <= i < out@.len() ==> #[trigger] out@[i] <= 100,
{
    let mut out: Vec<u8> = Vec::new();
    if blocks_total == 0 {
        return out;
    }
    let buckets: u64 = blocks_total.min(max_buckets).max(1);
    let mut i: u64 = 0;
    while i < buckets
        invariant
            i <= buckets,
            1 <= buckets <= blocks_total,
            out@.len() == i,
            forall|k: int|
                0 <= k < i ==> #[trigger] out@[k] == bucket_percent(
                    bm@,
                    blocks_total as int,
                    buckets as int,
                    k,
                ),
            forall|k: int| 0 <= k < i ==> #[trigger] out@[k] <= 100,
        decreases buckets - i,
    {
        proof {
            let (n, t, q) = (i as int, blocks_total as int, buckets as int);
            lemma_product_order(n, t, q);
            lemma_product_order(n + 1, t, q);
        }
        let lo: u64 = (wide_mul(i, blocks_total) / buckets as u128) as u64;
        let above: u64 = (wide_mul(i + 1, blocks_total) / buckets as u128) as u64;
        let hi: u64 = above.min(blocks_total);
        if hi <= lo {
            out.push(0);
        } else {
            let mut filled: u64 = 0;
            let mut b: u64 = lo;
            while b < hi
                invariant
                    lo <= b <= hi,
                    filled <= b - lo,
                    filled == set_between(bm@, lo as int, b as int),
                decreases hi - b,
            {
                if bit(bm, b) {
                    filled = filled + 1;
                }
                b = b + 1;
            }
            let span: u64 = hi - lo;
            let percent: u128 = wide_mul(filled, 100) / span as u128;
            proof {
                assert(filled * 100 <= 100 * span);
                lemma_div_is_ordered((filled * 100) as int, (100 * span) as int, span as int);
                lemma_div_multiples_vanish(100, span as int);
            }
            out.push(percent as u8);
        }
        i = i + 1;
    }
    out
}

proof fn lemma_product_order(n: int, t: int, q: int)
    requires
        0 <= n <= q,
        q >= 1,
        t >= 0,
    ensures
        0 <= n * t / q <= t,
{
    lemma_mul_inequality(n, q, t);
    lemma_mul_nonnegative(n, t);
    lemma_div_is_ordered(n * t, q * t, q);
    lemma_mul_is_commutative(q, t);
    lemma_div_multiples_vanish(t, q);
    lemma_div_pos_is_pos(n * t, q);
}

// ---------------------------------------------------------------------------
// What is known of a file

#[derive(Debug, Clone)]
pub struct CacheMeta {
    pub etag: Option<String>,
    pub last_modified: Option<String>,
    pub total_size: u64,
    pub content_type: Option<String>,
    pub block_size: u64,
    /// Original URL list (sorted, for traceability; not used for lookup).
    pub urls: Vec<String>,
}

impl CacheMeta {
    /// The block size is one that an interval set can hold, and the size is one
    /// that a file can have.
    pub open spec fn wf(self) -> bool {
        1 <= self.block_size <= u32::MAX && self.total_size <= 0x7fff_ffff_ffff_ffff
    }

    pub open spec fn blocks(self) -> int {
        ceil_div(self.total_size as int, self.block_size as int)
    }

    /// Length of block `b`: all blocks but the last are full.
    pub open spec fn block_len(self, b: int) -> int {
        imin(self.block_size as int, self.total_size - b * self.block_size)
    }
}

/// Bytes cached for one meta agree with those wanted for another: same size, same
/// blocks, and the same ETag, or no ETag on either side and the same date.
pub open spec fn compatible(stored: CacheMeta, desired: CacheMeta) -> bool {
    &&& stored.total_size == desired.total_size
    &&& stored.block_size == desired.block_size
    &&& opt_view(stored.etag) == opt_view(desired.etag)
    &&& stored.etag is None ==> opt_view(stored.last_modified) == opt_view(desired.last_modified)
}

pub fn cache_meta_compatible(stored: &CacheMeta, desired: &CacheMeta) -> (out: bool)
    ensures
        out == compatible(*stored, *desired),
        out ==> stored.total_size == desired.total_size,
        out ==> opt_view(stored.etag) == opt_view(desired.etag),
        out && stored.etag is None ==> opt_view(stored.last_modified) == opt_view(
            desired.last_modified,
        ),
{
    if stored.total_size != desired.total_size {
        return false;
    }
    if stored.block_size != desired.block_size {
        return false;
    }
    match (&stored.etag, &desired.etag) {
        (Some(a), Some(b)) => *a == *b,
        (None, None) => same_opt(&stored.last_modified, &desired.last_modified),
        _ => false,
    }
}

/// What is stored on disk must be wiped and made anew.
pub fn needs_rebuild(stored: Option<&CacheMeta>, desired: &CacheMeta) -> (out: bool)
    ensures
        out == (stored is None || !compatible(*stored->0, *desired)),
        stored is Some && opt_view((stored->0).etag) != opt_view(desired.etag) ==> out,
        stored is Some && (stored->0).etag is None && desired.etag is None && opt_view(
            (stored->0).last_modified,
        ) != opt_view(desired.last_modified) ==> out,
{
    match stored {
        Some(meta) => !cache_meta_compatible(meta, desired),
        None => true,
    }
}

#[derive(Debug, Clone)]
pub struct CacheStats {
    pub key: String,
    pub total_size: u64,
    pub bytes_cached: u64,
    pub blocks_cached: u64,
    pub blocks_total: u64,
    pub hits: u64,
    pub misses: u64,
    pub etag: Option<String>,
    /// Each entry is the percentage of blocks completed in that segment.
    pub bitmap_summary: Vec<u8>,
}

/// The state of one cached file, but for its data.
#[derive(Debug, Clone)]
pub struct CacheEntry {
    pub key: String,
    pub meta: CacheMeta,
    pub bitmap: Vec<u8>,
    /// For each block, the offsets in it that have been written.
    pub partial: Vec<Vec<(u32, u32)>>,
    /// Bytes in completed blocks.
    pub bytes_cached: u64,
    /// Bytes written, not rounded to blocks.
    pub bytes_written: u64,
    pub hits: u64,
    pub misses: u64,
    /// Counts the writes, so that a reader can tell that something changed.
    pub progress: u64,
    /// Scratch: there is nothing to resume from, so the bitmap is not kept.
    pub ephemeral: bool,
}

/// An entry is whole whatever its counters say.
proof fn lemma_counters_do_not_count(a: CacheEntry, b: CacheEntry)
    requires
        a.wf(),
        a.meta == b.meta,
        a.partial == b.partial,
        a.bitmap == b.bitmap,
    ensures
        b.wf(),
{
    assert forall|k: int| 0 <= k < b.meta.blocks() implies #[trigger] b.block_ok(k) by {
        assert(a.block_ok(k));
        if !bit_at(a.bitmap@, k) {
            let r = choose|r: int|
                0 <= r < a.meta.block_len(k) && !#[trigger] covered(a.partial@[k]@, r);
            assert(!covered(b.partial@[k]@, r));
        }
    }
}

/// The bytes of the completed blocks among the first `n`.
pub open spec fn completed_bytes(bm: Seq<u8>, meta: CacheMeta, n: int) -> int
    decreases n,
{
    if n <= 0 {
        0
    } else {
        completed_bytes(bm, meta, n - 1) + if bit_at(bm, n - 1) {
            meta.block_len(n - 1)
        } else {
            0
        }
    }
}

impl CacheEntry {
    /// Offset `r` of block `b` is there.
    pub open spec fn block_holds(self, b: int, r: int) -> bool {
        bit_at(self.bitmap@, b) || covered(self.partial@[b]@, r)
    }

    /// Byte `x` of the file is there.
    pub open spec fn holds(self, x: int) -> bool {
        0 <= x < self.meta.total_size && self.block_holds(
            x / self.meta.block_size as int,
            x % self.meta.block_size as int,
        )
    }

    /// The interval set of block `b` is minimal, stays inside the block, is empty
    /// once the block is marked, and the block is marked as soon as the set is
    /// full.
    pub open spec fn block_ok(self, b: int) -> bool {
        let set = self.partial@[b]@;
        let len = self.meta.block_len(b);
        &&& apart(set)
        &&& forall|i: int| 0 <= i < set.len() ==> (#[trigger] set[i]).1 <= len
        &&& bit_at(self.bitmap@, b) ==> set.len() == 0
        &&& !bit_at(self.bitmap@, b) ==> exists|r: int| 0 <= r < len && !#[trigger] covered(set, r)
    }

    pub open spec fn wf(self) -> bool {
        &&& self.meta.wf()
        &&& self.partial@.len() == self.meta.blocks()
        &&& self.bitmap@.len() * 8 >= self.meta.blocks()
        &&& self.bitmap@.len() <= 0x1fff_ffff_ffff_ffff
        &&& forall|b: int| 0 <= b < self.meta.blocks() ==> #[trigger] self.block_ok(b)
    }

    /// How many bytes, up to `limit`, are there without a hole from `x` on.
    pub open spec fn run(self, x: int, limit: int) -> int
        decreases limit,
    {
        if limit <= 0 || !self.holds(x) {
            0
        } else {
            1 + self.run(x + 1, limit - 1)
        }
    }

    /// The runs of bytes that are there from `cur` to `end`, each as long as it
    /// can be.
    pub open spec fn runs_from(self, cur: int, end: int) -> Seq<(u64, u64)>
        decreases imax(end + 1 - cur, 0),
    {
        let n = self.run(cur, end - cur + 1);
        if cur > end {
            seq![]
        } else if n > 0 {
            seq![(cur as u64, (cur + n - 1) as u64)] + self.runs_from(cur + n, end)
        } else {
            self.runs_from(cur + 1, end)
        }
    }
}

/// Facts about the position of a byte in its block.
proof fn lemma_position(meta: CacheMeta, x: int)
    requires
        meta.wf(),
        0 <= x,
    ensures
        0 <= x / meta.block_size as int,
        0 <= x % (meta.block_size as int) < meta.block_size,
        x == (x / meta.block_size as int) * meta.block_size + x % (meta.block_size as int),
        x < meta.total_size ==> x / (meta.block_size as int) < meta.blocks() && x % (
        meta.block_size as int) < meta.block_len(x / meta.block_size as int),
{
    let bs = meta.block_size as int;
    let t = meta.total_size as int;
    lemma_fundamental_div_mod(x, bs);
    lemma_mul_is_commutative(bs, x / bs);
    lemma_div_pos_is_pos(x, bs);
    if x < t {
        lemma_fundamental_div_mod(t, bs);
        lemma_div_is_ordered(x, t, bs);
        if t % bs == 0 && x / bs == t / bs {
            assert(false) by {
                lemma_mul_is_commutative(bs, t / bs);
            }
        }
    }
}

/// A byte of block `b` by its offset.
pub(crate) proof fn lemma_compose(meta: CacheMeta, b: int, r: int)
    requires
        meta.wf(),
        0 <= b,
        0 <= r < meta.block_size,
    ensures
        (b * meta.block_size + r) / (meta.block_size as int) == b,
        (b * meta.block_size + r) % (meta.block_size as int) == r,
{
    lemma_fundamental_div_mod_converse(
        b * meta.block_size + r,
        meta.block_size as int,
        b,
        r,
    );
}

/// The blocks tile the file.
pub(crate) proof fn lemma_block(meta: CacheMeta, b: int)
    requires
        meta.wf(),
        0 <= b,
    ensures
        b < meta.blocks() <==> b * meta.block_size < meta.total_size,
        b < meta.blocks() ==> 1 <= meta.block_len(b) <= meta.block_size && b * meta.block_size
            + meta.block_len(b) <= meta.total_size && (b + 1) * meta.block_size <= u64::MAX,
{
    let bs = meta.block_size as int;
    let t = meta.total_size as int;
    lemma_fundamental_div_mod(t, bs);
    lemma_mul_is_commutative(bs, t / bs);
    assert((b + 1) * bs == b * bs + bs) by (nonlinear_arith);
    if b < meta.blocks() {
        if b <= t / bs - 1 {
            lemma_mul_inequality(b, t / bs - 1, bs);
            assert((t / bs - 1) * bs == (t / bs) * bs - bs) by (nonlinear_arith);
        } else {
            assert(b == t / bs);
        }
    } else {
        lemma_mul_inequality(meta.blocks(), b, bs);
        if t % bs != 0 {
            assert((t / bs + 1) * bs == (t / bs) * bs + bs) by (nonlinear_arith);
        }
    }
}

/// The run is as long as the bytes are there, and no longer.
proof fn lemma_run(e: CacheEntry, x: int, limit: int, n: int)
    requires
        0 <= n <= limit,
        forall|k: int| x <= k < x + n ==> #[trigger] e.holds(k),
        n == limit || !e.holds(x + n),
    ensures
        e.run(x, limit) == n,
    decreases n,
{
    if n > 0 {
        assert(e.holds(x));
        lemma_run(e, x + 1, limit - 1, n - 1);
    }
}

/// What a run says.
pub(crate) proof fn lemma_run_holds(e: CacheEntry, x: int, limit: int)
    requires
        0 <= limit,
    ensures
        0 <= e.run(x, limit) <= limit,
        forall|k: int| x <= k < x + e.run(x, limit) ==> #[trigger] e.holds(k),
        e.run(x, limit) == limit || !e.holds(x + e.run(x, limit)),
    decreases limit,
{
    if limit > 0 && e.holds(x) {
        lemma_run_holds(e, x + 1, limit - 1);
    }
}

impl CacheEntry {
    fn block_count(&self) -> (out: u64)
        requires
            self.meta.wf(),
        ensures
            out == self.meta.blocks(),
    {
        div_ceil(self.meta.total_size, self.meta.block_size)
    }

    pub fn has_block(&self, idx: u64) -> (out: bool)
        ensures
            out == bit_at(self.bitmap@, idx as int),
    {
        bit(&self.bitmap, idx)
    }

    /// The entry for a file whose stored bitmap is `stored`; one that is too short
    /// is filled up with empty blocks.
    pub fn open_at(key: &str, desired: CacheMeta, stored: Vec<u8>, ephemeral: bool) -> (out: Self)
        requires
            desired.wf(),
            desired.blocks() <= usize::MAX,
            stored@.len() <= 0x1fff_ffff_ffff_ffff,
        ensures
            out.wf(),
            out.key@ == key@,
            out.meta == desired,
            out.ephemeral == ephemeral,
            out.bitmap@ == stored@ + Seq::new(
                imax(ceil_div(desired.blocks(), 8) - stored@.len(), 0) as nat,
                |i: int| 0u8,
            ),
            forall|b: int| 0 <= b ==> #[trigger] bit_at(out.bitmap@, b) == bit_at(stored@, b),
            forall|b: int| 0 <= b < out.partial@.len() ==> (#[trigger] out.partial@[b])@.len() == 0,
            out.bytes_cached == imin(
                popcount(out.bitmap@) * desired.block_size,
                desired.total_size as int,
            ),
            out.bytes_written == 0 && out.hits == 0 && out.misses == 0 && out.progress == 0,
            forall|x: int| #[trigger]
                out.holds(x) <==> 0 <= x < desired.total_size && bit_at(
                    stored@,
                    x / desired.block_size as int,
                ),
    {
        let blocks: u64 = div_ceil(desired.total_size, desired.block_size);
        let bytes: u64 = div_ceil(blocks, 8);
        proof {
            lemma_blocks_small(desired);
            assert(blocks <= 8 * bytes && 8 * bytes <= blocks + 7);
        }
        let mut bitmap: Vec<u8> = stored;
        let ghost s = bitmap@;
        while (bitmap.len() as u64) < bytes
            invariant
                s == stored@,
                s.len() <= bitmap@.len() <= imax(s.len() as int, bytes as int),
                bitmap@ == s + Seq::new((bitmap@.len() - s.len()) as nat, |i: int| 0u8),
                forall|b: int| 0 <= b ==> #[trigger] bit_at(bitmap@, b) == bit_at(s, b),
            decreases bytes - bitmap@.len(),
        {
            let ghost before = bitmap@;
            bitmap.push(0);
            proof {
                assert(bitmap@ =~= s + Seq::new((bitmap@.len() - s.len()) as nat, |i: int| 0u8));
                assert forall|b: int| 0 <= b implies #[trigger] bit_at(bitmap@, b) == bit_at(
                    s,
                    b,
                ) by {
                    if b / 8 == before.len() {
                        let k = (b % 8) as u8;
                        assert((0u8 >> k) & 1 == 0) by (bit_vector)
                            requires
                                k < 8,
                        ;
                    } else {
                        assert(bit_at(before, b) == bit_at(s, b));
                        if b / 8 < before.len() {
                            assert(bitmap@[b / 8] == before[b / 8]);
                        }
                    }
                }
            }
        }
        let count: u64 = count_bits(&bitmap);
        let whole: u64 = saturating_product(count, desired.block_size);
        let mut partial: Vec<Vec<(u32, u32)>> = Vec::new();
        let mut i: u64 = 0;
        while i < blocks
            invariant
                i <= blocks <= usize::MAX,
                partial@.len() == i,
                forall|b: int| 0 <= b < i ==> (#[trigger] partial@[b])@.len() == 0,
            decreases blocks - i,
        {
            partial.push(Vec::new());
            i = i + 1;
        }
        let out = CacheEntry {
            key: key.to_owned(),
            bytes_cached: whole.min(desired.total_size),
            meta: desired,
            bitmap,
            partial,
            bytes_written: 0,
            hits: 0,
            misses: 0,
            progress: 0,
            ephemeral,
        };
        proof {
            assert forall|b: int| 0 <= b < out.meta.blocks() implies #[trigger] out.block_ok(b) by {
                lemma_block(out.meta, b);
                assert(out.partial@[b]@.len() == 0);
                assert(!covered(out.partial@[b]@, 0));
            }
            assert forall|x: int| #[trigger] out.holds(x) <==> 0 <= x < desired.total_size
                && bit_at(stored@, x / desired.block_size as int) by {
                if 0 <= x < desired.total_size {
                    lemma_position(out.meta, x);
                    let b = x / desired.block_size as int;
                    assert(out.partial@[b]@.len() == 0);
                    assert(bit_at(out.bitmap@, b) == bit_at(stored@, b));
                }
            }
        }
        out
    }

    /// How many bytes are contiguously readable starting at `offset`, capped at
    /// `limit`. Stops at the first hole.
    pub fn contiguous_from(&self, offset: u64, limit: u64) -> (out: u64)
        requires
            self.wf(),
        ensures
            out == self.run(offset as int, limit as int),
    {
        let total: u64 = self.meta.total_size;
        if limit == 0 || total == 0 || offset >= total {
            return 0;
        }
        let capped: u64 = limit.min(total - offset);
        let bs: u64 = self.meta.block_size;
        let mut avail: u64 = 0;
        let mut open: bool = true;
        while open && avail < capped
            invariant
                self.wf(),
                total == self.meta.total_size,
                bs == self.meta.block_size,
                offset < total,
                capped == imin(limit as int, total - offset),
                avail <= capped,
                forall|k: int| offset <= k < offset + avail ==> #[trigger] self.holds(k),
                !open ==> avail == capped || !self.holds(offset + avail),
            decreases
                    (if open {
                        1int
                    } else {
                        0
                    }),
                    capped - avail,
        {
            let cur: u64 = offset + avail;
            let b: u64 = cur / bs;
            proof {
                lemma_position(self.meta, cur as int);
                lemma_block(self.meta, b as int);
                assert(self.block_ok(b as int));
            }
            let block_start: u64 = b * bs;
            let block_len: u64 = bs.min(total - block_start);
            let in_block: u64 = cur - block_start;
            assert(block_len == self.meta.block_len(b as int));
            assert(in_block == cur as int % bs as int);
            assert(b < self.partial.len());
            let covered_to: u64 = if self.has_block(b) {
                block_len
            } else {
                covered_end(&self.partial[b as usize], in_block)
            };
            proof {
                assert forall|r: int| in_block <= r < covered_to implies self.holds(
                    #[trigger] (block_start + r),
                ) by {
                    lemma_compose(self.meta, b as int, r);
                }
                if covered_to < block_len && in_block <= covered_to {
                    lemma_compose(self.meta, b as int, covered_to as int);
                    assert(!self.block_holds(b as int, covered_to as int));
                    assert(!self.holds(block_start + covered_to));
                }
            }
            if covered_to <= in_block {
                open = false;
            } else {
                let ghost before = avail;
                let step: u64 = (covered_to - in_block).min(capped - avail);
                proof {
                    assert forall|k: int| offset <= k < offset + avail + step implies
                        #[trigger] self.holds(k) by {
                        if k >= cur {
                            let r = k - block_start;
                            assert(self.holds(block_start + r));
                        }
                    }
                }
                avail = avail + step;
                if covered_to < block_len {
                    open = false;
                }
            }
        }
        proof {
            if avail == capped && capped < limit {
                assert(!self.holds(offset + avail));
            }
            lemma_run(*self, offset as int, limit as int, avail as int);
        }
        avail
    }

    /// A place behind `cur` before which nothing more is there, or `None` when
    /// nothing at all comes after `cur`.
    fn hole_end(&self, cur: u64) -> (out: Option<u64>)
        requires
            self.wf(),
            !self.holds(cur as int),
        ensures
            match out {
                Some(next) => cur < next && forall|k: int| cur <= k < next ==> !#[trigger] self.holds(k),
                None => forall|k: int| cur <= k ==> !#[trigger] self.holds(k),
            },
    {
        let bs: u64 = self.meta.block_size;
        let total: u64 = self.meta.total_size;
        if cur >= total {
            return None;
        }
        let b: u64 = cur / bs;
        proof {
            lemma_position(self.meta, cur as int);
            lemma_block(self.meta, b as int);
            assert(self.block_ok(b as int));
        }
        let block_start: u64 = b * bs;
        let block_len: u64 = bs.min(total - block_start);
        let in_block: u64 = cur - block_start;
        assert(block_len == self.meta.block_len(b as int));
        assert(in_block == cur as int % bs as int);
        assert(!self.block_holds(b as int, in_block as int));
        assert(b < self.partial.len());
        let next: u64 = uncovered_end(&self.partial[b as usize], in_block, block_len);
        proof {
            assert forall|k: int| cur <= k < block_start + next implies !#[trigger] self.holds(k) by {
                let r = k - block_start;
                lemma_compose(self.meta, b as int, r);
                assert(!covered(self.partial@[b as int]@, r));
            }
        }
        Some(block_start + next)
    }

    /// Every already-present run inside `[start, end]`, as inclusive ranges: the
    /// shortest list of ranges that holds exactly the bytes that are there.
    pub fn staged_ranges(&self, start: u64, end: u64) -> (out: Vec<(u64, u64)>)
        requires
            self.wf(),
            end < u64::MAX,
        ensures
            canonical(out@),
            forall|x: int| #[trigger]
                covers(out@, x) <==> start <= x <= end && self.holds(x),
            out@ == self.runs_from(start as int, end as int),
    {
        let mut out: Vec<(u64, u64)> = Vec::new();
        let mut cur: u64 = start;
        proof {
            law_a_sweep_reports_what_is_there(*self, start as int, end as int);
            assert(out@ + self.runs_from(cur as int, end as int) =~= self.runs_from(
                cur as int,
                end as int,
            ));
        }
        while cur <= end
            invariant
                self.wf(),
                end < u64::MAX,
                out@ + self.runs_from(cur as int, end as int) == self.runs_from(
                    start as int,
                    end as int,
                ),
            decreases u64::MAX - cur,
        {
            let n: u64 = self.contiguous_from(cur, end - cur + 1);
            proof {
                lemma_run_holds(*self, cur as int, end - cur + 1);
            }
            if n > 0 {
                let ghost before = out@;
                let ghost rest = self.runs_from(cur + n, end as int);
                out.push((cur, cur + (n - 1)));
                proof {
                    let head = (cur, (cur + n - 1) as u64);
                    assert(before + (seq![head] + rest) =~= out@ + rest);
                }
                cur = cur + n;
            } else {
                match self.hole_end(cur) {
                    Some(next) => {
                        proof {
                            lemma_over_a_hole(*self, cur as int, next as int, end as int);
                        }
                        cur = next;
                    },
                    None => {
                        proof {
                            lemma_over_a_hole(*self, cur as int, end + 1, end as int);
                        }
                        cur = end + 1;
                    },
                }
            }
        }
        proof {
            assert(out@ + self.runs_from(cur as int, end as int) =~= out@);
        }
        out
    }

    /// Records that `len` bytes have been written at absolute offset `start`, and
    /// says whether the bitmap has to be stored again.
    ///
    /// From then on exactly the bytes that were there and those just written are
    /// there.
    pub fn write_range(&mut self, start: u64, len: u64) -> (persist: bool)
        requires
            old(self).wf(),
            start + len <= u64::MAX,
        ensures
            final(self).wf(),
            final(self).meta == old(self).meta,
            final(self).key == old(self).key,
            final(self).ephemeral == old(self).ephemeral,
            final(self).hits == old(self).hits,
            final(self).misses == old(self).misses,
            forall|x: int| #[trigger]
                final(self).holds(x) <==> old(self).holds(x) || (start <= x < start + len && x
                    < old(self).meta.total_size),
            len == 0 || old(self).meta.total_size == 0 ==> *final(self) == *old(self) && !persist,
            len > 0 && old(self).meta.total_size > 0 ==> {
                let marked = completed_bytes(
                    final(self).bitmap@,
                    old(self).meta,
                    old(self).meta.blocks(),
                ) - completed_bytes(old(self).bitmap@, old(self).meta, old(self).meta.blocks());
                &&& marked >= 0
                &&& final(self).bytes_written == old(self).bytes_written.wrapping_add(len)
                &&& final(self).bytes_cached == old(self).bytes_cached.wrapping_add(marked as u64)
                &&& final(self).progress == old(self).progress.wrapping_add(1)
                &&& persist == (marked > 0 && !old(self).ephemeral)
            },
    {
        if len == 0 || self.meta.total_size == 0 {
            return false;
        }
        let ghost was = *self;
        let end: u64 = start + (len - 1);
        let bs: u64 = self.meta.block_size;
        let total: u64 = self.meta.total_size;
        let first: u64 = start / bs;
        let last: u64 = end / bs;
        let blocks: u64 = self.block_count();
        let mut marked: u64 = 0;
        let mut b: u64 = first;
        proof {
            lemma_position(self.meta, start as int);
            lemma_position(self.meta, end as int);
            lemma_completed_bound(was.bitmap@, was.meta, blocks as int);
        }
        while b <= last && b < blocks
            invariant
                bs == was.meta.block_size,
                total == was.meta.total_size,
                blocks == was.meta.blocks(),
                end == start + len - 1,
                len > 0,
                first <= b,
                was.wf(),
                self.wf(),
                self.meta == was.meta,
                self.key == was.key,
                self.ephemeral == was.ephemeral,
                self.hits == was.hits,
                self.misses == was.misses,
                self.bytes_written == was.bytes_written,
                self.bytes_cached == was.bytes_cached,
                self.progress == was.progress,
                forall|k: int, r: int|
                    0 <= k < blocks && 0 <= r < was.meta.block_len(k) ==> (
                    #[trigger] self.block_holds(k, r) <==> was.block_holds(k, r) || (first <= k < b
                        && start <= k * bs + r <= end)),
                0 <= marked,
                marked == completed_bytes(self.bitmap@, was.meta, blocks as int) - completed_bytes(
                    was.bitmap@,
                    was.meta,
                    blocks as int,
                ),
                0 <= completed_bytes(was.bitmap@, was.meta, blocks as int),
            decreases blocks - b,
        {
            proof {
                lemma_block(self.meta, b as int);
                assert(self.block_ok(b as int));
            }
            let block_start: u64 = b * bs;
            let block_len: u64 = bs.min(total - block_start);
            let block_end: u64 = block_start + (block_len - 1);
            let in_start: u64 = start.max(block_start);
            let in_end: u64 = end.min(block_end);
            let ghost before = *self;
            if in_start <= in_end && !self.has_block(b) {
                let lo: u32 = (in_start - block_start) as u32;
                let hi: u32 = (in_end - block_start + 1) as u32;
                let mut slot: Vec<(u32, u32)> = Vec::new();
                assert(b < self.partial.len());
                core::mem::swap(&mut slot, &mut self.partial[b as usize]);
                merge_interval(&mut slot, lo, hi);
                let full: bool = interval_set_covers(&slot, block_len as u32);
                let ghost set = slot@;
                proof {
                    assert forall|i: int| 0 <= i < set.len() implies (#[trigger] set[i]).1
                        <= block_len by {}
                }
                if full {
                    set_bit(&mut self.bitmap, b);
                    proof {
                        lemma_marking(before.bitmap@, self.bitmap@, was.meta, b as int, blocks as int);
                        lemma_completed_bound(self.bitmap@, was.meta, blocks as int);
                    }
                    marked = marked + block_len;
                } else {
                    core::mem::swap(&mut slot, &mut self.partial[b as usize]);
                }
                proof {
                    assert(self.partial@.len() == before.partial@.len());
                    assert forall|k: int| 0 <= k < blocks && k != b implies self.partial@[k]
                        == before.partial@[k] by {}
                    assert(self.partial@[b as int]@ == if full {
                        seq![]
                    } else {
                        set
                    });
                    assert forall|k: int| 0 <= k < self.meta.blocks() implies
                        #[trigger] self.block_ok(k) by {
                        assert(before.block_ok(k));
                        if k == b && !full {
                            let len = self.meta.block_len(k);
                            if forall|r: int| 0 <= r < len ==> #[trigger] covered(set, r) {
                                assert(false);
                            }
                        }
                    }
                    assert forall|k: int, r: int|
                        0 <= k < blocks && 0 <= r < was.meta.block_len(k) implies (
                    #[trigger] self.block_holds(k, r) <==> was.block_holds(k, r) || (first <= k < b
                        + 1 && start <= k * bs + r <= end)) by {
                        assert(before.block_holds(k, r) <==> was.block_holds(k, r) || (first <= k
                            < b && start <= k * bs + r <= end));
                        if k == b {
                            assert(covered(set, r) <==> covered(before.partial@[k]@, r) || lo <= r
                                < hi);
                        }
                    }
                }
            } else {
                proof {
                    assert forall|k: int, r: int|
                        0 <= k < blocks && 0 <= r < was.meta.block_len(k) implies (
                    #[trigger] self.block_holds(k, r) <==> was.block_holds(k, r) || (first <= k < b
                        + 1 && start <= k * bs + r <= end)) by {}
                }
            }
            b = b + 1;
        }
        proof {
            assert forall|x: int| #[trigger] self.holds(x) <==> was.holds(x) || (start <= x < start
                + len && x < was.meta.total_size) by {
                if 0 <= x < total {
                    lemma_position(was.meta, x);
                    let k = x / bs as int;
                    let r = x % bs as int;
                    assert(self.block_holds(k, r) <==> was.block_holds(k, r) || (first <= k < b
                        && start <= k * bs + r <= end));
                    if start <= x <= end {
                        lemma_div_is_ordered(start as int, x, bs as int);
                        lemma_div_is_ordered(x, end as int, bs as int);
                    }
                }
            }
        }
        let ghost done = *self;
        self.bytes_written = self.bytes_written.wrapping_add(len);
        self.bytes_cached = self.bytes_cached.wrapping_add(marked);
        self.progress = self.progress.wrapping_add(1);
        proof {
            assert forall|k: int| 0 <= k < self.meta.blocks() implies #[trigger] self.block_ok(
                k,
            ) by {
                assert(done.block_ok(k));
            }
            assert forall|x: int| #[trigger] self.holds(x) == done.holds(x) by {}
        }
        marked > 0 && !self.ephemeral
    }

    /// Counts blocks that were there, or were not, when they were wanted.
    pub fn count_lookup(&mut self, hit: bool, blocks: u64)
        requires
            old(self).wf(),
        ensures
            final(self).wf(),
            *final(self) == (CacheEntry {
                hits: if hit {
                    ((old(self).hits + blocks) % 0x1_0000_0000_0000_0000) as u64
                } else {
                    old(self).hits
                },
                misses: if hit {
                    old(self).misses
                } else {
                    ((old(self).misses + blocks) % 0x1_0000_0000_0000_0000) as u64
                },
                ..*old(self)
            }),
    {
        if hit {
            self.hits = self.hits.wrapping_add(blocks);
        } else {
            self.misses = self.misses.wrapping_add(blocks);
        }
        proof {
            lemma_counters_do_not_count(*old(self), *self);
        }
    }

    pub fn stats(&self) -> (out: CacheStats)
        requires
            self.wf(),
        ensures
            out.key@ == self.key@,
            out.total_size == self.meta.total_size,
            out.bytes_cached == self.bytes_cached,
            out.blocks_total == self.meta.blocks(),
            out.blocks_cached == imin(popcount(self.bitmap@), self.meta.blocks()),
            out.hits == self.hits,
            out.misses == self.misses,
            opt_view(out.etag) == opt_view(self.meta.etag),
            is_summary(out.bitmap_summary@, self.bitmap@, self.meta.blocks()),
    {
        let blocks_total: u64 = self.block_count();
        CacheStats {
            key: self.key.clone(),
            total_size: self.meta.total_size,
            bytes_cached: self.bytes_cached,
            blocks_cached: count_bits(&self.bitmap).min(blocks_total),
            blocks_total,
            hits: self.hits,
            misses: self.misses,
            etag: clone_opt(&self.meta.etag),
            bitmap_summary: downsample_bitmap(&self.bitmap, blocks_total, SUMMARY_BUCKETS),
        }
    }
}

/// `summary` shows the bitmap in at most [`SUMMARY_BUCKETS`] segments.
pub open spec fn is_summary(summary: Seq<u8>, bm: Seq<u8>, blocks: int) -> bool {
    &&& summary.len() == bucket_count(blocks, SUMMARY_BUCKETS as int)
    &&& forall|i: int|
        0 <= i < summary.len() ==> #[trigger] summary[i] == bucket_percent(
            bm,
            blocks,
            summary.len() as int,
            i,
        )
}

/// What the stored bitmap of an entry that is not open says.
pub fn stats_from_disk(key: &str, meta: &CacheMeta, bm: &[u8]) -> (out: CacheStats)
    requires
        meta.wf(),
        bm@.len() <= 0x1fff_ffff_ffff_ffff,
    ensures
        out.key@ == key@,
        out.total_size == meta.total_size,
        out.blocks_total == meta.blocks(),
        out.blocks_cached == imin(popcount(bm@), meta.blocks()),
        out.bytes_cached == imin(
            imin(popcount(bm@), meta.blocks()) * meta.block_size,
            meta.total_size as int,
        ),
        out.hits == 0 && out.misses == 0,
        opt_view(out.etag) == opt_view(meta.etag),
        is_summary(out.bitmap_summary@, bm@, meta.blocks()),
{
    let blocks_total: u64 = div_ceil(meta.total_size, meta.block_size);
    let blocks_cached: u64 = count_bits(bm).min(blocks_total);
    let whole: u64 = saturating_product(blocks_cached, meta.block_size);
    CacheStats {
        key: key.to_owned(),
        total_size: meta.total_size,
        bytes_cached: whole.min(meta.total_size),
        blocks_cached,
        blocks_total,
        hits: 0,
        misses: 0,
        etag: clone_opt(&meta.etag),
        bitmap_summary: downsample_bitmap(bm, blocks_total, SUMMARY_BUCKETS),
    }
}

proof fn lemma_blocks_small(meta: CacheMeta)
    requires
        meta.wf(),
    ensures
        meta.blocks() <= meta.total_size,
        meta.blocks() <= u64::MAX,
{
    lemma_fundamental_div_mod(meta.total_size as int, meta.block_size as int);
    let q = meta.total_size as int / meta.block_size as int;
    lemma_div_pos_is_pos(meta.total_size as int, meta.block_size as int);
    assert(meta.block_size * q >= q) by (nonlinear_arith)
        requires
            meta.block_size >= 1,
            q >= 0,
    ;
}

/// The completed blocks hold no more than the file.
proof fn lemma_completed_bound(bm: Seq<u8>, meta: CacheMeta, n: int)
    requires
        meta.wf(),
        0 <= n <= meta.blocks(),
    ensures
        0 <= completed_bytes(bm, meta, n) <= meta.total_size,
        completed_bytes(bm, meta, n) <= n * meta.block_size,
    decreases n,
{
    if n > 0 {
        lemma_completed_bound(bm, meta, n - 1);
        lemma_block(meta, n - 1);
        assert(n * meta.block_size == (n - 1) * meta.block_size + meta.block_size)
            by (nonlinear_arith);
    }
}

/// Marking one more block adds its length.
proof fn lemma_marking(old_bm: Seq<u8>, new_bm: Seq<u8>, meta: CacheMeta, b: int, n: int)
    requires
        0 <= b,
        !bit_at(old_bm, b),
        forall|j: int| 0 <= j ==> (#[trigger] bit_at(new_bm, j) <==> j == b || bit_at(old_bm, j)),
    ensures
        completed_bytes(new_bm, meta, n) == completed_bytes(old_bm, meta, n) + if b < n {
            meta.block_len(b)
        } else {
            0
        },
    decreases n,
{
    if n > 0 {
        lemma_marking(old_bm, new_bm, meta, b, n - 1);
        assert(bit_at(new_bm, n - 1) <==> n - 1 == b || bit_at(old_bm, n - 1));
    }
}

/// Where the next run behind offset `at` begins, or the block's end.
fn uncovered_end(set: &Vec<(u32, u32)>, at: u64, len: u64) -> (out: u64)
    requires
        apart(set@),
        !covered(set@, at as int),
        at < len,
    ensures
        at < out <= len,
        forall|r: int| at <= r < out ==> !#[trigger] covered(set@, r),
{
    let mut i: usize = 0;
    while i < set.len()
        invariant
            i <= set@.len(),
            apart(set@),
            !covered(set@, at as int),
            at < len,
            forall|k: int| 0 <= k < i ==> (#[trigger] set@[k]).1 <= at,
        decreases set.len() - i,
    {
        let lo: u64 = set[i].0 as u64;
        if lo > at {
            let out: u64 = lo.min(len);
            proof {
                assert forall|r: int| at <= r < out implies !#[trigger] covered(set@, r) by {
                    if covered(set@, r) {
                        let k = choose|k: int|
                            0 <= k < set@.len() && (#[trigger] set@[k]).0 <= r < set@[k].1;
                        if k > i {
                            assert(set@[i as int].1 < set@[k].0);
                            assert(set@[i as int].0 < set@[i as int].1);
                        }
                    }
                }
            }
            return out;
        }
        i = i + 1;
    }
    len
}

/// Where the run that holds offset `at` ends, or `at` itself.
fn covered_end(set: &Vec<(u32, u32)>, at: u64) -> (out: u64)
    requires
        apart(set@),
    ensures
        out >= at,
        forall|r: int| at <= r < out ==> #[trigger] covered(set@, r),
        !covered(set@, out as int),
        out > at ==> exists|i: int| 0 <= i < set@.len() && out == (#[trigger] set@[i]).1,
{
    let mut i: usize = 0;
    while i < set.len()
        invariant
            i <= set@.len(),
            apart(set@),
            forall|k: int| 0 <= k < i ==> !((#[trigger] set@[k]).0 <= at < set@[k].1),
        decreases set.len() - i,
    {
        let lo: u64 = set[i].0 as u64;
        let hi: u64 = set[i].1 as u64;
        if lo <= at && at < hi {
            proof {
                assert forall|r: int| at <= r < hi implies #[trigger] covered(set@, r) by {
                    assert(set@[i as int].0 <= r < set@[i as int].1);
                }
                if covered(set@, hi as int) {
                    let k = choose|k: int|
                        0 <= k < set@.len() && (#[trigger] set@[k]).0 <= hi < set@[k].1;
                    if k < i {
                        assert(set@[k].1 < set@[i as int].0);
                    } else if k > i {
                        assert(set@[i as int].1 < set@[k].0);
                    }
                }
            }
            return hi;
        }
        i = i + 1;
    }
    at
}


// ---------------------------------------------------------------------------
// Laws

/// A block is marked exactly when every byte of it is there.
pub proof fn law_a_block_is_marked_iff_every_byte_is_there(e: CacheEntry, b: int)
    requires
        e.wf(),
        0 <= b < e.meta.blocks(),
    ensures
        bit_at(e.bitmap@, b) <==> forall|r: int|
            0 <= r < e.meta.block_len(b) ==> e.holds(#[trigger] (b * e.meta.block_size + r)),
{
    lemma_block(e.meta, b);
    assert(e.block_ok(b));
    let bs = e.meta.block_size;
    assert forall|r: int| 0 <= r < e.meta.block_len(b) implies (e.holds(#[trigger] (b * bs + r))
        <==> e.block_holds(b, r)) by {
        lemma_compose(e.meta, b, r);
        assert(b * bs >= 0) by (nonlinear_arith)
            requires
                b >= 0,
                bs >= 0,
        ;
    }
    if !bit_at(e.bitmap@, b) {
        let r = choose|r: int|
            0 <= r < e.meta.block_len(b) && !#[trigger] covered(e.partial@[b]@, r);
        assert(!e.holds(b * bs + r));
    }
}

/// What was written can be read, all of it, from then on: also across later
/// writes.
pub proof fn law_what_was_written_can_be_read(
    before: CacheEntry,
    after: CacheEntry,
    later: CacheEntry,
    start: u64,
    len: u64,
)
    requires
        start + len <= before.meta.total_size,
        forall|x: int| #[trigger]
            after.holds(x) <==> before.holds(x) || (start <= x < start + len && x
                < before.meta.total_size),
        forall|x: int| after.holds(x) ==> #[trigger] later.holds(x),
    ensures
        later.run(start as int, len as int) == len,
{
    assert forall|k: int| start <= k < start + len implies #[trigger] later.holds(k) by {
        assert(after.holds(k));
    }
    lemma_run(later, start as int, len as int, len as int);
}

/// A stretch where nothing is there adds nothing to the runs.
proof fn lemma_over_a_hole(e: CacheEntry, cur: int, next: int, end: int)
    requires
        cur <= next,
        forall|k: int| cur <= k < next ==> !#[trigger] e.holds(k),
    ensures
        e.runs_from(cur, end) == e.runs_from(next, end),
    decreases next - cur,
{
    if cur < next {
        assert(!e.holds(cur));
        lemma_over_a_hole(e, cur + 1, next, end);
    }
}

/// The runs that a sweep reports hold exactly the bytes that are there in what was
/// asked for, and no two of them could be one.
pub proof fn law_a_sweep_reports_what_is_there(e: CacheEntry, cur: int, end: int)
    requires
        0 <= cur,
        end < u64::MAX,
    ensures
        canonical(e.runs_from(cur, end)),
        forall|x: int| #[trigger]
            covers(e.runs_from(cur, end), x) <==> cur <= x <= end && e.holds(x),
    decreases imax(end + 1 - cur, 0),
{
    let out = e.runs_from(cur, end);
    if cur <= end {
        let n = e.run(cur, end - cur + 1);
        lemma_run_holds(e, cur, end - cur + 1);
        if n > 0 {
            let rest = e.runs_from(cur + n, end);
            let head = (cur as u64, (cur + n - 1) as u64);
            law_a_sweep_reports_what_is_there(e, cur + n, end);
            assert(out == seq![head] + rest);
            assert forall|i: int, j: int| 0 <= i < j < out.len() implies (#[trigger] out[i]).1 + 1
                < (#[trigger] out[j]).0 by {
                assert(out[j] == rest[j - 1]);
                if i == 0 {
                    assert(covers(rest, rest[j - 1].0 as int));
                    if cur + n <= end {
                        assert(!e.holds(cur + n));
                    }
                } else {
                    assert(out[i] == rest[i - 1]);
                }
            }
            assert forall|i: int| 0 <= i < out.len() implies (#[trigger] out[i]).0 <= out[i].1 by {
                if i > 0 {
                    assert(out[i] == rest[i - 1]);
                }
            }
            assert forall|x: int| #[trigger] covers(out, x) <==> cur <= x <= end && e.holds(x) by {
                if covers(out, x) {
                    let i = choose|i: int|
                        0 <= i < out.len() && (#[trigger] out[i]).0 <= x <= out[i].1;
                    if i > 0 {
                        assert(rest[i - 1] == out[i]);
                        assert(covers(rest, x));
                    }
                }
                if cur <= x < cur + n {
                    assert(out[0].0 <= x <= out[0].1);
                }
                if covers(rest, x) {
                    let i = choose|i: int|
                        0 <= i < rest.len() && (#[trigger] rest[i]).0 <= x <= rest[i].1;
                    assert(out[i + 1] == rest[i]);
                }
            }
        } else {
            law_a_sweep_reports_what_is_there(e, cur + 1, end);
            assert(!e.holds(cur));
        }
    } else {
        assert(forall|x: int| !#[trigger] covers(out, x));
    }
}

// ---------------------------------------------------------------------------
// Keys

/// The texts' bytes, a newline behind each.
pub open spec fn url_lines(l: Seq<Seq<u8>>) -> Seq<u8>
    decreases l.len(),
{
    if l.len() == 0 {
        seq![]
    } else {
        url_lines(l.drop_last()) + l.last() + seq![10u8]
    }
}

/// The layout as it is hashed: each volume's mirrors in order behind a bar.
pub open spec fn layout_lines(volumes: Seq<Vec<String>>) -> Seq<u8>
    decreases volumes.len(),
{
    if volumes.len() == 0 {
        seq![118u8, 111, 108, 115, 45, 118, 50, 58]
    } else {
        layout_lines(volumes.drop_last()) + seq![124u8] + url_lines(
            in_order(utf8_views(volumes.last()@)),
        )
    }
}

/// The bytes of each text.
pub open spec fn encoded(l: Seq<Seq<char>>) -> Seq<Seq<u8>> {
    l.map_values(|s: Seq<char>| encode_utf8(s))
}

/// The layout as it is hashed, over the texts of the URLs.
pub open spec fn layout_of(volumes: Seq<Seq<Seq<char>>>) -> Seq<u8>
    decreases volumes.len(),
{
    if volumes.len() == 0 {
        seq![118u8, 111, 108, 115, 45, 118, 50, 58]
    } else {
        layout_of(volumes.drop_last()) + seq![124u8] + url_lines(in_order(encoded(volumes.last())))
    }
}

/// The key of a task with these volumes.
pub open spec fn task_key(volumes: Seq<Seq<Seq<char>>>) -> Seq<char> {
    if volumes.len() == 0 {
        key_text(url_lines(in_order(Seq::empty())))
    } else if volumes.len() == 1 {
        key_text(url_lines(in_order(encoded(volumes[0]))))
    } else {
        key_text(layout_of(volumes))
    }
}

proof fn lemma_encoded(l: Seq<String>)
    ensures
        encoded(views(l)) == utf8_views(l),
{
    assert(encoded(views(l)) =~= utf8_views(l));
}

proof fn lemma_layout_of(volumes: Seq<Vec<String>>)
    ensures
        layout_of(views2(volumes)) == layout_lines(volumes),
    decreases volumes.len(),
{
    if volumes.len() > 0 {
        let v = views2(volumes);
        assert(v.drop_last() =~= views2(volumes.drop_last()));
        assert(v.last() == views(volumes.last()@));
        lemma_layout_of(volumes.drop_last());
        lemma_encoded(volumes.last()@);
    }
}

/// The first twelve bytes of a digest, in hexadecimal.
pub open spec fn key_text(data: Seq<u8>) -> Seq<char> {
    hex_of(sha256_of(data).take(12))
}

fn key_of(data: &[u8]) -> (out: String)
    ensures
        out@ == key_text(data@),
{
    let digest: Vec<u8> = sha256(data);
    let mut head: Vec<u8> = Vec::new();
    let mut i: usize = 0;
    while i < 12
        invariant
            i <= 12,
            digest@.len() == 32,
            head@ == digest@.take(i as int),
        decreases 12 - i,
    {
        head.push(digest[i]);
        proof {
            assert(digest@.take(i as int).push(digest@[i as int]) =~= digest@.take(i + 1));
        }
        i = i + 1;
    }
    hex_encode(&head)
}

fn append_lines(to: &mut Vec<u8>, urls: &Vec<String>)
    ensures
        final(to)@ == old(to)@ + url_lines(in_order(utf8_views(urls@))),
{
    let sorted: Vec<String> = sorted_texts(urls);
    let ghost had = to@;
    let ghost lines = utf8_views(sorted@);
    let mut i: usize = 0;
    assert(to@ =~= had + url_lines(lines.take(0)));
    while i < sorted.len()
        invariant
            i <= sorted@.len(),
            lines == utf8_views(sorted@),
            to@ == had + url_lines(lines.take(i as int)),
        decreases sorted.len() - i,
    {
        append_bytes(to, sorted[i].as_str().as_bytes());
        to.push(10);
        proof {
            assert(lines.take(i + 1).drop_last() =~= lines.take(i as int));
            assert(lines.take(i + 1).last() == encode_utf8(sorted@[i as int]@));
            assert(to@ =~= had + url_lines(lines.take(i + 1)));
        }
        i = i + 1;
    }
    assert(lines.take(lines.len() as int) =~= lines);
}

/// Which slot, from `i` on, has this key.
pub open spec fn slot_from<H>(slots: Seq<Slot<H>>, key: Seq<char>, i: int) -> Option<int>
    decreases slots.len() - i,
{
    if i >= slots.len() {
        None
    } else if slots[i].key@ == key {
        Some(i)
    } else {
        slot_from(slots, key, i + 1)
    }
}

/// Something held open under a key: the file that it is for, and how many hold
/// it.
pub struct Slot<H> {
    pub key: String,
    pub meta: CacheMeta,
    pub refs: usize,
    pub handle: H,
}

fn find_slot<H>(slots: &Vec<Slot<H>>, key: &str) -> (out: Option<usize>)
    ensures
        match out {
            Some(i) => slot_from(slots@, key@, 0) == Some(i as int) && i < slots@.len()
                && slots@[i as int].key@ == key@,
            None => slot_from(slots@, key@, 0) is None,
        },
{
    let mut i: usize = 0;
    while i < slots.len()
        invariant
            i <= slots@.len(),
            slot_from(slots@, key@, 0) == slot_from(slots@, key@, i as int),
        decreases slots.len() - i,
    {
        if same_text(slots[i].key.as_str(), key) {
            return Some(i);
        }
        i = i + 1;
    }
    None
}

/// What is open, by key: the durable entries, and the scratch entries with the
/// number of streams on each. `H` is what the caller keeps with an open entry.
pub struct CacheStore<H> {
    pub entries: Vec<Slot<H>>,
    pub staging: Vec<Slot<H>>,
}

impl<H> CacheStore<H> {
    /// Each scratch entry is held by somebody.
    pub open spec fn wf(self) -> bool {
        forall|i: int| 0 <= i < self.staging@.len() ==> (#[trigger] self.staging@[i]).refs >= 1
    }

    pub fn new() -> (out: Self)
        ensures
            out.wf(),
            out.entries@.len() == 0,
            out.staging@.len() == 0,
    {
        CacheStore { entries: Vec::new(), staging: Vec::new() }
    }

    /// Stable cache key derived from the (sorted) URL list, so the same content
    /// cached under one task is reused by another whose URL list matches.
    pub fn key_for_urls(urls: &Vec<String>) -> (out: String)
        ensures
            out@ == key_text(url_lines(in_order(utf8_views(urls@)))),
    {
        let mut data: Vec<u8> = Vec::new();
        append_lines(&mut data, urls);
        assert(data@ =~= url_lines(in_order(utf8_views(urls@))));
        key_of(&data)
    }

    /// Cache key for a structured volume layout. The order of the volumes counts,
    /// that of the mirrors within one does not.
    pub fn key_for_volume_layout(volumes: &Vec<Vec<String>>) -> (out: String)
        ensures
            out@ == key_text(layout_lines(volumes@)),
    {
        let mut data: Vec<u8> = vec![118, 111, 108, 115, 45, 118, 50, 58];
        let mut i: usize = 0;
        assert(data@ =~= layout_lines(volumes@.take(0)));
        while i < volumes.len()
            invariant
                i <= volumes@.len(),
                data@ == layout_lines(volumes@.take(i as int)),
            decreases volumes.len() - i,
        {
            data.push(124);
            append_lines(&mut data, &volumes[i]);
            proof {
                let t = volumes@.take(i + 1);
                assert(t.drop_last() =~= volumes@.take(i as int));
                assert(data@ =~= layout_lines(t));
            }
            i = i + 1;
        }
        assert(volumes@.take(volumes@.len() as int) =~= volumes@);
        key_of(&data)
    }

    /// Cache key of a task: that of its URLs where it has one volume, else that of
    /// its layout.
    pub fn key_for_task(cfg: &TaskConfig) -> (out: String)
        ensures
            out@ == task_key(crate::models::scrubbed(cfg@.volumes)),
    {
        let volumes: Vec<Vec<String>> = cfg.effective_volumes();
        let ghost vols = views2(volumes@);
        assert(vols.len() == volumes@.len());
        if volumes.len() == 0 {
            let none: Vec<String> = Vec::new();
            assert(utf8_views(none@) =~= Seq::empty());
            Self::key_for_urls(&none)
        } else if volumes.len() == 1 {
            proof {
                assert(vols[0] == views(volumes@[0]@));
                lemma_encoded(volumes@[0]@);
            }
            Self::key_for_urls(&volumes[0])
        } else {
            proof {
                lemma_layout_of(volumes@);
            }
            Self::key_for_volume_layout(&volumes)
        }
    }

    /// The open entry for `key`, if it is for the same content.
    pub fn reusable(&self, key: &str, desired: &CacheMeta) -> (out: Option<&H>)
        ensures
            match slot_from(self.entries@, key@, 0) {
                Some(i) if compatible(self.entries@[i].meta, *desired) => out == Some(
                    &self.entries@[i].handle,
                ),
                _ => out is None,
            },
    {
        match find_slot(&self.entries, key) {
            Some(i) => if cache_meta_compatible(&self.entries[i].meta, desired) {
                Some(&self.entries[i].handle)
            } else {
                None
            },
            None => None,
        }
    }

    /// The open entry for `key`.
    pub fn get(&self, key: &str) -> (out: Option<&H>)
        ensures
            match slot_from(self.entries@, key@, 0) {
                Some(i) => out == Some(&self.entries@[i].handle),
                None => out is None,
            },
    {
        match find_slot(&self.entries, key) {
            Some(i) => Some(&self.entries[i].handle),
            None => None,
        }
    }

    /// Keeps an entry that has just been opened; one that was open under the same
    /// key is let go.
    pub fn keep(&mut self, key: String, meta: CacheMeta, handle: H)
        ensures
            final(self).staging@ == old(self).staging@,
            ({
                let slot = Slot { key, meta, refs: 1usize, handle };
                final(self).entries@ == match slot_from(old(self).entries@, key@, 0) {
                    Some(i) => old(self).entries@.remove(i).push(slot),
                    None => old(self).entries@.push(slot),
                }
            }),
    {
        if let Some(i) = find_slot(&self.entries, key.as_str()) {
            self.entries.remove(i);
        }
        self.entries.push(Slot { key, meta, refs: 1, handle });
    }

    /// Lets go of the open entry for `key`.
    pub fn clear(&mut self, key: &str) -> (out: bool)
        ensures
            final(self).staging@ == old(self).staging@,
            match slot_from(old(self).entries@, key@, 0) {
                Some(i) => out && final(self).entries@ == old(self).entries@.remove(i),
                None => !out && final(self).entries@ == old(self).entries@,
            },
    {
        match find_slot(&self.entries, key) {
            Some(i) => {
                self.entries.remove(i);
                true
            },
            None => false,
        }
    }

    /// Lets go of every open entry; what streams hold as scratch stays.
    pub fn clear_all(&mut self)
        ensures
            final(self).entries@.len() == 0,
            final(self).staging@ == old(self).staging@,
    {
        self.entries = Vec::new();
    }

    /// Whether the directory of `from_key` may be renamed to that of `to_key`: not
    /// onto itself, not without a source, not over another entry, and not while
    /// the source is open.
    pub fn may_migrate(
        &self,
        from_key: &str,
        to_key: &str,
        source_is_dir: bool,
        target_exists: bool,
    ) -> (out: bool)
        ensures
            out == (from_key@ != to_key@ && source_is_dir && !target_exists && slot_from(
                self.entries@,
                from_key@,
                0,
            ) is None),
    {
        if same_text(from_key, to_key) || !source_is_dir || target_exists {
            return false;
        }
        find_slot(&self.entries, from_key).is_none()
    }

    /// One more stream wants the scratch entry of `key`. One that is there for the
    /// same content is shared; one for other content is forgotten, and the caller
    /// has to make a new one.
    pub fn acquire_staging(&mut self, key: &str, desired: &CacheMeta) -> (out: Option<usize>)
        requires
            old(self).wf(),
            forall|i: int|
                0 <= i < old(self).staging@.len() ==> (#[trigger] old(self).staging@[i]).refs
                    < usize::MAX,
        ensures
            final(self).wf(),
            final(self).entries@ == old(self).entries@,
            match slot_from(old(self).staging@, key@, 0) {
                Some(i) if compatible(old(self).staging@[i].meta, *desired) => {
                    &&& out == Some(i as usize)
                    &&& final(self).staging@ == old(self).staging@.update(
                        i,
                        Slot {
                            refs: (old(self).staging@[i].refs + 1) as usize,
                            ..old(self).staging@[i]
                        },
                    )
                },
                Some(i) => out is None && final(self).staging@ == old(self).staging@.remove(i),
                None => out is None && final(self).staging@ == old(self).staging@,
            },
    {
        match find_slot(&self.staging, key) {
            Some(i) => {
                if cache_meta_compatible(&self.staging[i].meta, desired) {
                    let slot: Slot<H> = self.staging.remove(i);
                    self.staging.insert(
                        i,
                        Slot {
                            key: slot.key,
                            meta: slot.meta,
                            refs: slot.refs + 1,
                            handle: slot.handle,
                        },
                    );
                    proof {
                        assert(self.staging@ =~= old(self).staging@.update(
                            i as int,
                            self.staging@[i as int],
                        ));
                        assert forall|k: int| 0 <= k < self.staging@.len() implies (
                        #[trigger] self.staging@[k]).refs >= 1 by {
                            assert(old(self).staging@[k].refs >= 1);
                        }
                    }
                    Some(i)
                } else {
                    self.staging.remove(i);
                    proof {
                        assert forall|k: int| 0 <= k < self.staging@.len() implies (
                        #[trigger] self.staging@[k]).refs >= 1 by {
                            if k < i {
                                assert(old(self).staging@[k].refs >= 1);
                            } else {
                                assert(old(self).staging@[k + 1].refs >= 1);
                            }
                        }
                    }
                    None
                }
            },
            None => None,
        }
    }

    /// Keeps a scratch entry that has just been made, for its first stream.
    pub fn stage(&mut self, key: String, meta: CacheMeta, handle: H)
        requires
            old(self).wf(),
        ensures
            final(self).wf(),
            final(self).entries@ == old(self).entries@,
            final(self).staging@ == old(self).staging@.push(
                Slot { key, meta, refs: 1usize, handle },
            ),
    {
        self.staging.push(Slot { key, meta, refs: 1, handle });
        proof {
            assert forall|k: int| 0 <= k < self.staging@.len() implies (
            #[trigger] self.staging@[k]).refs >= 1 by {
                if k < old(self).staging@.len() {
                    assert(old(self).staging@[k].refs >= 1);
                }
            }
        }
    }

    /// One stream lets go of the scratch entry of `key`. True when it was the
    /// last: the scratch directory is then to be removed.
    pub fn release_staging(&mut self, key: &str) -> (out: bool)
        requires
            old(self).wf(),
        ensures
            final(self).wf(),
            final(self).entries@ == old(self).entries@,
            match slot_from(old(self).staging@, key@, 0) {
                Some(i) => if old(self).staging@[i].refs == 1 {
                    out && final(self).staging@ == old(self).staging@.remove(i)
                } else {
                    !out && final(self).staging@ == old(self).staging@.update(
                        i,
                        Slot {
                            refs: (old(self).staging@[i].refs - 1) as usize,
                            ..old(self).staging@[i]
                        },
                    )
                },
                None => !out && final(self).staging@ == old(self).staging@,
            },
    {
        match find_slot(&self.staging, key) {
            Some(i) => {
                let ghost was = self.staging@;
                assert(was[i as int].refs >= 1);
                let slot: Slot<H> = self.staging.remove(i);
                if slot.refs == 1 {
                    proof {
                        assert forall|k: int| 0 <= k < self.staging@.len() implies (
                        #[trigger] self.staging@[k]).refs >= 1 by {
                            if k < i {
                                assert(was[k].refs >= 1);
                            } else {
                                assert(was[k + 1].refs >= 1);
                            }
                        }
                    }
                    true
                } else {
                    self.staging.insert(
                        i,
                        Slot {
                            key: slot.key,
                            meta: slot.meta,
                            refs: slot.refs - 1,
                            handle: slot.handle,
                        },
                    );
                    proof {
                        assert(self.staging@ =~= was.update(i as int, self.staging@[i as int]));
                        assert forall|k: int| 0 <= k < self.staging@.len() implies (
                        #[trigger] self.staging@[k]).refs >= 1 by {
                            assert(was[k].refs >= 1);
                        }
                    }
                    false
                }
            },
            None => false,
        }
    }
}

/// True for cache-root children that are bookkeeping, not cache entries.
pub fn is_reserved_dir(name: &str) -> (out: bool)
    ensures
        out == (name@.len() > 0 && name@[0] == '.'),
{
    name.unicode_len() > 0 && name.get_char(0) == '.'
}

/// The key of a URL list does not depend on the order in which it is written.
pub proof fn law_a_key_ignores_the_order_of_mirrors(a: Seq<String>, b: Seq<String>)
    requires
        utf8_views(a).to_multiset() == utf8_views(b).to_multiset(),
    ensures
        key_text(url_lines(in_order(utf8_views(a)))) == key_text(
            url_lines(in_order(utf8_views(b))),
        ),
{
    lemma_in_order_ignores_listing(utf8_views(a), utf8_views(b));
}

/// The key of a layout does not depend on the order of the mirrors within each
/// volume.
pub proof fn law_a_layout_key_ignores_the_order_of_mirrors(a: Seq<Vec<String>>, b: Seq<Vec<String>>)
    requires
        a.len() == b.len(),
        forall|i: int|
            0 <= i < a.len() ==> utf8_views(#[trigger] a[i]@).to_multiset() == utf8_views(
                b[i]@,
            ).to_multiset(),
    ensures
        layout_lines(a) == layout_lines(b),
        key_text(layout_lines(a)) == key_text(layout_lines(b)),
    decreases a.len(),
{
    if a.len() > 0 {
        assert(a[a.len() - 1]@ == a.last()@);
        lemma_in_order_ignores_listing(utf8_views(a.last()@), utf8_views(b.last()@));
        assert forall|i: int| 0 <= i < a.drop_last().len() implies utf8_views(
            #[trigger] a.drop_last()[i]@,
        ).to_multiset() == utf8_views(b.drop_last()[i]@).to_multiset() by {
            assert(a[i]@ == a.drop_last()[i]@);
        }
        law_a_layout_key_ignores_the_order_of_mirrors(a.drop_last(), b.drop_last());
    }
}

} // verus!
