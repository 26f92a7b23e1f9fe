//! What a cache keeps, and for whom.

use crate::cache::{
    bit_at, bucket_percent, compatible, completed_bytes, ones, popcount, set_between, slot_from,
    url_lines, CacheEntry, CacheMeta, Slot,
};
use crate::num::imin;
use crate::text::opt_view;
use vstd::arithmetic::div_mod::*;
use vstd::arithmetic::mul::*;
use vstd::prelude::*;

verus! {

/// Content that may have changed is not reused: not at another size, not cut into
/// other blocks, not under another ETag or with one where there was none, and, where
/// there are no ETags, not with another date. Nothing else counts, and content of
/// which all that is the same is reused.
pub proof fn law_only_the_same_content_is_reused(a: CacheMeta, b: CacheMeta)
    ensures
        a.total_size != b.total_size ==> !compatible(a, b),
        a.block_size != b.block_size ==> !compatible(a, b),
        a.etag is Some && b.etag is Some && a.etag->0@ != b.etag->0@ ==> !compatible(a, b),
        a.etag is Some != b.etag is Some ==> !compatible(a, b),
        a.etag is None && b.etag is None && a.last_modified is Some && b.last_modified is Some
            && a.last_modified->0@ != b.last_modified->0@ ==> !compatible(a, b),
        a.etag is None && b.etag is None && a.last_modified is Some != b.last_modified is Some
            ==> !compatible(a, b),
        a.total_size == b.total_size && a.block_size == b.block_size && a.etag is Some
            && b.etag is Some && a.etag->0@ == b.etag->0@ ==> compatible(a, b),
        a.total_size == b.total_size && a.block_size == b.block_size && a.etag is None
            && b.etag is None && opt_view(a.last_modified) == opt_view(b.last_modified)
            ==> compatible(a, b),
{
}

/// To be the same content is an equivalence.
pub proof fn law_sameness_of_content_is_an_equivalence(a: CacheMeta, b: CacheMeta, c: CacheMeta)
    ensures
        compatible(a, a),
        compatible(a, b) == compatible(b, a),
        compatible(a, b) && compatible(b, c) ==> compatible(a, c),
{
}

/// A lookup finds the first entry of its key, and nothing only where there is none.
pub proof fn law_a_lookup_finds_its_key<H>(slots: Seq<Slot<H>>, key: Seq<char>)
    ensures
        match slot_from(slots, key, 0) {
            Some(i) => 0 <= i < slots.len() && slots[i].key@ == key && forall|k: int|
                0 <= k < i ==> (#[trigger] slots[k]).key@ != key,
            None => forall|k: int| 0 <= k < slots.len() ==> (#[trigger] slots[k]).key@ != key,
        },
{
    lemma_slot_from(slots, key, 0);
}

proof fn lemma_slot_from<H>(slots: Seq<Slot<H>>, key: Seq<char>, i: int)
    requires
        0 <= i,
    ensures
        match slot_from(slots, key, i) {
            Some(k) => i <= k < slots.len() && slots[k].key@ == key && forall|j: int|
                i <= j < k ==> (#[trigger] slots[j]).key@ != key,
            None => forall|k: int| i <= k < slots.len() ==> (#[trigger] slots[k]).key@ != key,
        },
    decreases slots.len() - i,
{
    if i < slots.len() && slots[i].key@ != key {
        lemma_slot_from(slots, key, i + 1);
    }
}

/// The blocks tile the file: all but the last are full, the last ends where the file
/// does, and none is empty.
pub proof fn law_blocks_tile_the_file(meta: CacheMeta, b: int)
    requires
        meta.wf(),
        0 <= b < meta.blocks(),
    ensures
        1 <= meta.block_len(b) <= meta.block_size,
        b + 1 < meta.blocks() ==> meta.block_len(b) == meta.block_size,
        b + 1 == meta.blocks() ==> b * meta.block_size + meta.block_len(b) == meta.total_size,
{
    crate::cache::lemma_block(meta, b);
    crate::cache::lemma_block(meta, b + 1);
    let bs = meta.block_size as int;
    assert((b + 1) * bs == b * bs + bs) by (nonlinear_arith);
}

/// A file of no bytes has no blocks, and a file with bytes has some.
pub proof fn law_a_file_with_bytes_has_blocks(meta: CacheMeta)
    requires
        meta.wf(),
    ensures
        meta.blocks() == 0 <==> meta.total_size == 0,
        meta.blocks() >= 0,
{
    crate::cache::lemma_block(meta, 0);
    lemma_div_pos_is_pos(meta.total_size as int, meta.block_size as int);
}

/// A byte lies in one block, and is there exactly where that block is complete or what
/// has been written to it covers the byte.
pub proof fn law_a_byte_is_there_with_its_block(e: CacheEntry, b: int, r: int)
    requires
        e.wf(),
        0 <= b < e.meta.blocks(),
        0 <= r < e.meta.block_len(b),
    ensures
        bit_at(e.bitmap@, b) ==> e.holds(b * e.meta.block_size + r),
        !bit_at(e.bitmap@, b) ==> (e.holds(b * e.meta.block_size + r) <==> exists|i: int|
            0 <= i < e.partial@[b]@.len() && (#[trigger] e.partial@[b]@[i]).0 <= r
                < e.partial@[b]@[i].1),
        !e.holds(e.meta.total_size as int),
        !e.holds(-1),
{
    crate::cache::lemma_block(e.meta, b);
    crate::cache::lemma_compose(e.meta, b, r);
}

/// With every block complete all of the file is there; with none, nothing is; and
/// completing one block adds its length.
pub proof fn law_complete_blocks_add_up(bm: Seq<u8>, meta: CacheMeta, n: int)
    requires
        meta.wf(),
        0 <= n <= meta.blocks(),
    ensures
        (forall|b: int| 0 <= b < n ==> #[trigger] bit_at(bm, b)) ==> completed_bytes(bm, meta, n)
            == imin(n * meta.block_size, meta.total_size as int),
        (forall|b: int| 0 <= b < n ==> !#[trigger] bit_at(bm, b)) ==> completed_bytes(bm, meta, n)
            == 0,
        0 <= completed_bytes(bm, meta, n) <= imin(n * meta.block_size, meta.total_size as int),
    decreases n,
{
    let bs = meta.block_size as int;
    if n > 0 {
        law_complete_blocks_add_up(bm, meta, n - 1);
        crate::cache::lemma_block(meta, n - 1);
        law_blocks_tile_the_file(meta, n - 1);
        assert((n - 1) * bs + bs == n * bs) by (nonlinear_arith);
        crate::cache::lemma_block(meta, n);
    } else {
        assert(n * bs == 0) by (nonlinear_arith)
            requires
                n == 0,
        ;
    }
}

/// Bytes that were hashed tell lists of URLs apart: two lists of URLs without line
/// breaks that are hashed alike are the same list.
#[verifier::rlimit(50)]
pub proof fn law_what_is_hashed_tells_urls_apart(a: Seq<Seq<u8>>, b: Seq<Seq<u8>>)
    requires
        forall|i: int, k: int|
            0 <= i < a.len() && 0 <= k < a[i].len() ==> #[trigger] a[i][k] != 10u8,
        forall|i: int, k: int|
            0 <= i < b.len() && 0 <= k < b[i].len() ==> #[trigger] b[i][k] != 10u8,
        url_lines(a) == url_lines(b),
    ensures
        a == b,
    decreases a.len(),
{
    if a.len() == 0 {
        if b.len() > 0 {
            assert(url_lines(b).len() > 0);
        }
        assert(a =~= b);
    } else if b.len() == 0 {
        assert(url_lines(a).len() > 0);
    } else {
        let x = url_lines(a.drop_last());
        let y = url_lines(b.drop_last());
        let p = a.last();
        let q = b.last();
        let s = url_lines(a);
        let n = s.len() as int;
        assert(s == x + p + seq![10u8]);
        assert(s == y + q + seq![10u8]);
        lemma_lines_end(a.drop_last());
        lemma_lines_end(b.drop_last());
        if p.len() < q.len() {
            // The line break before `p` would lie in `q`.
            let k = x.len() - 1;
            if x.len() > 0 {
                assert(s[k] == x[k]);
                assert(s[k] == q[k - y.len()]);
                assert(b[b.len() - 1][k - y.len()] != 10u8);
            }
        } else if q.len() < p.len() {
            let k = y.len() - 1;
            if y.len() > 0 {
                assert(s[k] == y[k]);
                assert(s[k] == p[k - x.len()]);
                assert(a[a.len() - 1][k - x.len()] != 10u8);
            }
        }
        assert(x.len() == y.len());
        assert(x =~= s.take(x.len() as int));
        assert(y =~= s.take(x.len() as int));
        assert(p =~= s.subrange(x.len() as int, n - 1));
        assert(q =~= s.subrange(x.len() as int, n - 1));
        let af = a.drop_last();
        let bf = b.drop_last();
        assert forall|i: int, k: int| 0 <= i < af.len() && 0 <= k < af[i].len() implies
            #[trigger] af[i][k] != 10u8 by {
            assert(a[i][k] != 10u8);
        }
        assert forall|i: int, k: int| 0 <= i < bf.len() && 0 <= k < bf[i].len() implies
            #[trigger] bf[i][k] != 10u8 by {
            assert(b[i][k] != 10u8);
        }
        law_what_is_hashed_tells_urls_apart(af, bf);
        assert(a =~= af.push(p));
        assert(b =~= bf.push(q));
    }
}

proof fn lemma_lines_end(a: Seq<Seq<u8>>)
    ensures
        url_lines(a).len() > 0 ==> url_lines(a).last() == 10u8,
{
}

proof fn lemma_set_between(bm: Seq<u8>, lo: int, hi: int)
    requires
        lo <= hi,
    ensures
        0 <= set_between(bm, lo, hi) <= hi - lo,
        (forall|b: int| lo <= b < hi ==> #[trigger] bit_at(bm, b)) ==> set_between(bm, lo, hi)
            == hi - lo,
        (forall|b: int| lo <= b < hi ==> !#[trigger] bit_at(bm, b)) ==> set_between(bm, lo, hi)
            == 0,
    decreases hi - lo,
{
    if lo < hi {
        lemma_set_between(bm, lo, hi - 1);
    }
}

/// Where a segment of a summary begins and ends: none is empty, the first begins with
/// the first block, each where the one before it ended, and the last ends with the
/// last block.
proof fn lemma_segment(blocks: int, buckets: int, i: int)
    requires
        0 < buckets <= blocks,
        0 <= i < buckets,
    ensures
        0 <= i * blocks / buckets < (i + 1) * blocks / buckets <= blocks,
{
    let x = i * blocks;
    assert((i + 1) * blocks == x + blocks) by (nonlinear_arith)
        requires
            x == i * blocks,
    ;
    assert(0 <= x) by (nonlinear_arith)
        requires
            x == i * blocks,
            0 <= i,
            0 < blocks,
    ;
    lemma_div_pos_is_pos(x, buckets);
    lemma_div_plus_one(x, buckets);
    lemma_div_is_ordered(x + buckets, x + blocks, buckets);
    assert(x + blocks <= buckets * blocks) by (nonlinear_arith)
        requires
            x == i * blocks,
            i + 1 <= buckets,
            0 < blocks,
    ;
    lemma_div_is_ordered(x + blocks, buckets * blocks, buckets);
    lemma_div_multiples_vanish(blocks, buckets);
}

/// What is shown of a stretch of blocks lies between nothing and all: all where every
/// block is complete, nothing where none is, and not all where one is missing.
pub proof fn law_progress_is_a_percentage(bm: Seq<u8>, blocks: int, buckets: int, i: int)
    requires
        0 < buckets <= blocks,
        0 <= i < buckets,
    ensures
        0 <= bucket_percent(bm, blocks, buckets, i) <= 100,
        (forall|b: int| 0 <= b < blocks ==> #[trigger] bit_at(bm, b)) ==> bucket_percent(
            bm,
            blocks,
            buckets,
            i,
        ) == 100,
        (forall|b: int| 0 <= b < blocks ==> !#[trigger] bit_at(bm, b)) ==> bucket_percent(
            bm,
            blocks,
            buckets,
            i,
        ) == 0,
        buckets == blocks ==> bucket_percent(bm, blocks, buckets, i) == if bit_at(bm, i) {
            100int
        } else {
            0
        },
{
    lemma_segment(blocks, buckets, i);
    let lo = i * blocks / buckets;
    let hi = (i + 1) * blocks / buckets;
    let n = set_between(bm, lo, hi);
    let d = hi - lo;
    lemma_set_between(bm, lo, hi);
    if buckets == blocks {
        lemma_div_multiples_vanish(i, blocks);
        lemma_div_multiples_vanish(i + 1, blocks);
        lemma_mul_is_commutative(i, blocks);
        lemma_mul_is_commutative(i + 1, blocks);
        assert(lo == i && hi == i + 1);
        assert(set_between(bm, i, i) == 0);
        assert(n * 100 / 1 == n * 100);
    }
    assert(n * 100 <= 100 * d) by (nonlinear_arith)
        requires
            n <= d,
    ;
    assert(0 <= n * 100) by (nonlinear_arith)
        requires
            0 <= n,
    ;
    lemma_div_pos_is_pos(n * 100, d);
    lemma_div_is_ordered(n * 100, 100 * d, d);
    lemma_mul_is_commutative(100, d);
    lemma_div_multiples_vanish(100, d);
    if n == d {
        assert(n * 100 == d * 100);
    }
    if n == 0 {
        lemma_basic_div(0, d);
    }
}

/// As many bits are set in all the bytes as there are blocks marked.
pub proof fn law_every_marked_block_is_counted(bm: Seq<u8>)
    ensures
        popcount(bm) == set_between(bm, 0, 8 * bm.len() as int),
    decreases bm.len(),
{
    if bm.len() > 0 {
        let f = bm.drop_last();
        let n = f.len() as int;
        law_every_marked_block_is_counted(f);
        lemma_same_bits(f, bm, 8 * n);
        lemma_one_byte(bm, n, 8);
    }
}

proof fn lemma_same_bits(a: Seq<u8>, b: Seq<u8>, hi: int)
    requires
        a.len() <= b.len(),
        forall|i: int| 0 <= i < a.len() ==> a[i] == b[i],
        hi <= 8 * a.len(),
    ensures
        set_between(a, 0, hi) == set_between(b, 0, hi),
    decreases hi,
{
    if hi > 0 {
        lemma_same_bits(a, b, hi - 1);
        assert((hi - 1) / 8 < a.len());
    }
}

proof fn lemma_one_byte(bm: Seq<u8>, n: int, k: int)
    requires
        0 <= n < bm.len(),
        0 <= k <= 8,
    ensures
        set_between(bm, 0, 8 * n + k) == set_between(bm, 0, 8 * n) + ones(bm[n], k),
    decreases k,
{
    if k > 0 {
        lemma_one_byte(bm, n, k - 1);
        let i = 8 * n + (k - 1);
        assert(i / 8 == n && i % 8 == k - 1);
    }
}

} // verus!
