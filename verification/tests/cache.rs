use hydraria::cache::{
    cache_meta_compatible, downsample_bitmap, interval_set_covers, is_reserved_dir, merge_interval,
    needs_rebuild, stats_from_disk, CacheEntry, CacheMeta, CacheStore, PendingWrite,
    WriteCoalescer, BLOCK_SIZE, COALESCE_BYTES,
};

#[test]
fn merge_interval_appends_disjoint_right() {
    let mut s = vec![(0u32, 10u32)];
    merge_interval(&mut s, 20, 30);
    assert_eq!(s, vec![(0, 10), (20, 30)]);
}

#[test]
fn merge_interval_inserts_disjoint_left() {
    let mut s = vec![(20u32, 30u32)];
    merge_interval(&mut s, 0, 10);
    assert_eq!(s, vec![(0, 10), (20, 30)]);
}

#[test]
fn merge_interval_fuses_touching_intervals() {
    // Touch on the right edge: [0,10) + [10,20) → [0,20)
    let mut s = vec![(0u32, 10u32)];
    merge_interval(&mut s, 10, 20);
    assert_eq!(s, vec![(0, 20)]);
}

#[test]
fn merge_interval_subsumes_overlapping_chain() {
    // Existing: [0,5), [10,15), [20,25)
    // Insert [3,22) → swallows all three into [0,25)
    let mut s = vec![(0u32, 5u32), (10, 15), (20, 25)];
    merge_interval(&mut s, 3, 22);
    assert_eq!(s, vec![(0, 25)]);
}

#[test]
fn merge_interval_ignores_duplicate_writes() {
    let mut s = vec![(0u32, 100u32)];
    merge_interval(&mut s, 0, 100);
    assert_eq!(s, vec![(0, 100)]);
    merge_interval(&mut s, 40, 60);
    assert_eq!(s, vec![(0, 100)]);
}

#[test]
fn merge_interval_leaves_the_set_alone_for_an_empty_range() {
    let mut s = vec![(5u32, 9u32)];
    merge_interval(&mut s, 7, 7);
    merge_interval(&mut s, 9, 2);
    assert_eq!(s, vec![(5, 9)]);
}

#[test]
fn interval_set_covers_requires_single_full_span() {
    assert!(interval_set_covers(&[(0, 100)], 100));
    // Holes — must not be considered complete.
    assert!(!interval_set_covers(&[(0, 50), (60, 100)], 100));
    // Coverage with a gap at the start.
    assert!(!interval_set_covers(&[(1, 100)], 100));
    // Coverage that exceeds is still OK (callers cap to block_len).
    assert!(interval_set_covers(&[(0, 150)], 100));
}

#[test]
fn overlapping_writes_do_not_falsely_complete_block() {
    let mut s: Vec<(u32, u32)> = Vec::new();
    let block_len = 1024u32;
    // Writer A: contributes [0, 600) — 600 bytes.
    merge_interval(&mut s, 0, 600);
    // Writer B: contributes [400, 1024) — 624 bytes.
    merge_interval(&mut s, 400, 1024);
    assert!(interval_set_covers(&s, block_len));

    let mut s2: Vec<(u32, u32)> = Vec::new();
    // Writer A: [0, 700)
    merge_interval(&mut s2, 0, 700);
    // Writer B: [300, 1000) — overlaps A but leaves [1000, 1024) untouched.
    merge_interval(&mut s2, 300, 1000);
    assert!(!interval_set_covers(&s2, block_len));

    // Filling the tail finally completes it.
    merge_interval(&mut s2, 1000, 1024);
    assert!(interval_set_covers(&s2, block_len));
}

fn meta(etag: Option<&str>, total_size: u64, block_size: u64) -> CacheMeta {
    CacheMeta {
        etag: etag.map(|s| s.to_string()),
        last_modified: None,
        total_size,
        content_type: None,
        block_size,
        urls: vec![],
    }
}

/// Block size 64, total 200: blocks 0..=2 full, block 3 is 8 bytes.
fn tiny_entry() -> CacheEntry {
    CacheEntry::open_at("tiny", meta(Some("t"), 200, 64), vec![], false)
}

#[test]
fn contiguous_from_is_zero_on_empty_entry() {
    let e = tiny_entry();
    assert_eq!(e.contiguous_from(0, 200), 0);
    assert_eq!(e.contiguous_from(70, 200), 0);
}

#[test]
fn contiguous_from_serves_partial_block_prefix() {
    let mut e = tiny_entry();
    e.write_range(0, 10);
    assert_eq!(e.contiguous_from(0, 200), 10);
    // Mid-run offsets report the remainder of the run.
    assert_eq!(e.contiguous_from(4, 200), 6);
    // `limit` caps the answer.
    assert_eq!(e.contiguous_from(0, 3), 3);
}

#[test]
fn contiguous_from_spans_completed_blocks_into_partial_one() {
    let mut e = tiny_entry();
    // Blocks 0 and 1 complete, plus 5 bytes of block 2.
    e.write_range(0, 128 + 5);
    assert!(e.has_block(0));
    assert!(e.has_block(1));
    assert!(!e.has_block(2));
    assert_eq!(e.contiguous_from(0, 200), 133);
    assert_eq!(e.bytes_cached, 128);
    assert_eq!(e.bytes_written, 133);
}

#[test]
fn contiguous_from_stops_at_a_hole() {
    let mut e = tiny_entry();
    e.write_range(0, 10);
    // Disjoint island further in — must not be counted.
    e.write_range(20, 10);
    assert_eq!(e.contiguous_from(0, 200), 10);
    // Reading from inside the island works and stops at its end.
    assert_eq!(e.contiguous_from(20, 200), 10);
    // The hole itself reports nothing.
    assert_eq!(e.contiguous_from(10, 200), 0);
    // Filling the gap fuses the runs.
    e.write_range(10, 10);
    assert_eq!(e.contiguous_from(0, 200), 30);
}

#[test]
fn contiguous_from_stops_at_a_block_boundary_hole() {
    let mut e = tiny_entry();
    e.write_range(0, 64);
    assert!(e.has_block(0));
    assert_eq!(e.contiguous_from(0, 200), 64);
}

#[test]
fn contiguous_from_clamps_to_total_size() {
    let mut e = tiny_entry();
    // Fill everything, including the short trailing block.
    e.write_range(0, 200);
    assert_eq!(e.contiguous_from(0, u64::MAX), 200);
    assert_eq!(e.contiguous_from(199, u64::MAX), 1);
    // At/after EOF there is nothing.
    assert_eq!(e.contiguous_from(200, 200), 0);
}

#[test]
fn write_range_bumps_progress_counter() {
    let mut e = tiny_entry();
    assert_eq!(e.progress, 0);
    e.write_range(0, 4);
    assert_eq!(e.progress, 1, "reader must be woken by a write");
    e.write_range(0, 0);
    assert_eq!(e.progress, 1);
}

#[test]
fn only_a_durable_entry_stores_its_bitmap() {
    let mut e = tiny_entry();
    assert!(!e.write_range(0, 63), "no block is complete yet");
    assert!(e.write_range(63, 1));
    let mut scratch = CacheEntry::open_at("s", meta(None, 200, 64), vec![], true);
    assert!(!scratch.write_range(0, 200));
    assert_eq!(scratch.bytes_cached, 200);
}

#[test]
fn a_stored_bitmap_is_taken_up_again() {
    // Blocks 0 and 2 were complete.
    let e = CacheEntry::open_at("k", meta(None, 200, 64), vec![0b101], false);
    assert!(e.has_block(0) && !e.has_block(1) && e.has_block(2));
    assert_eq!(e.bytes_cached, 128);
    assert_eq!(e.staged_ranges(0, 199), vec![(0, 63), (128, 191)]);
    assert_eq!(e.contiguous_from(130, 200), 62);
}

#[test]
fn a_sweep_reports_an_island_behind_a_hole() {
    let mut e = tiny_entry();
    e.write_range(20, 10);
    e.write_range(64, 70);
    assert_eq!(e.staged_ranges(0, 199), vec![(20, 29), (64, 133)]);
    assert_eq!(e.staged_ranges(20, 199), vec![(20, 29), (64, 133)]);
    assert_eq!(e.staged_ranges(5, 4), vec![]);
}

/// A data file: what the writes that are due do to it and to the entry.
fn perform(file: &mut [u8], e: &mut CacheEntry, due: Vec<PendingWrite>) {
    for w in due {
        let at = w.at as usize;
        file[at..at + w.data.len()].copy_from_slice(&w.data);
        e.write_range(w.at, w.data.len() as u64);
    }
}

#[test]
fn coalescer_batches_contiguous_writes_into_one_flush() {
    let mut e = tiny_entry();
    let mut file = vec![0u8; 200];
    let mut w = WriteCoalescer::new();
    for i in 0..3u64 {
        let due = w.write(i * 8, &[b'a'; 8], true);
        perform(&mut file, &mut e, due);
    }
    assert_eq!(w.buffered(), 24);
    assert_eq!(e.contiguous_from(0, 200), 0, "buffered bytes must not be visible");

    let mut due = vec![];
    w.flush(&mut due);
    assert_eq!(due.len(), 1);
    perform(&mut file, &mut e, due);
    assert_eq!(w.buffered(), 0);
    assert_eq!(&file[0..=23], &[b'a'; 24][..]);
    assert_eq!(e.contiguous_from(0, 200), 24);
}

#[test]
fn coalescer_flushes_before_a_non_contiguous_write() {
    let mut e = tiny_entry();
    let mut file = vec![0u8; 200];
    let mut w = WriteCoalescer::new();

    let due = w.write(0, &[b'x'; 8], true);
    perform(&mut file, &mut e, due);
    // Jumping to a new offset must land the buffer at its *own* start.
    let due = w.write(100, &[b'y'; 8], true);
    perform(&mut file, &mut e, due);
    assert_eq!(w.buffered(), 8, "only the second write is still buffered");
    let mut due = vec![];
    w.flush(&mut due);
    perform(&mut file, &mut e, due);

    assert_eq!(&file[0..=7], &[b'x'; 8][..]);
    assert_eq!(&file[100..=107], &[b'y'; 8][..]);
}

#[test]
fn coalescer_write_through_drains_the_buffer_first() {
    let mut e = tiny_entry();
    let mut file = vec![0u8; 200];
    let mut w = WriteCoalescer::new();

    let due = w.write(0, &[b'1'; 8], true);
    perform(&mut file, &mut e, due);
    let due = w.write(8, &[b'2'; 8], false);
    assert_eq!(due.len(), 2);
    perform(&mut file, &mut e, due);
    assert_eq!(w.buffered(), 0);
    assert_eq!(e.contiguous_from(0, 16), 16, "both runs are on disk in order");
    let got = &file[0..=15];
    assert_eq!(&got[..8], &[b'1'; 8][..]);
    assert_eq!(&got[8..], &[b'2'; 8][..]);
}

#[test]
fn a_full_buffer_is_flushed_at_once() {
    let mut w = WriteCoalescer::new();
    assert!(w.write(0, &vec![7u8; COALESCE_BYTES - 1], true).is_empty());
    let due = w.write((COALESCE_BYTES - 1) as u64, &[8u8], true);
    assert_eq!(due.len(), 1);
    assert_eq!(due[0].at, 0);
    assert_eq!(due[0].data.len(), COALESCE_BYTES);
    assert_eq!(w.buffered(), 0);
}

#[test]
fn migration_is_refused_wherever_it_would_do_harm() {
    let mut store: CacheStore<u8> = CacheStore::new();
    assert!(store.may_migrate("old", "new", true, false));
    assert!(!store.may_migrate("k", "k", true, false));
    assert!(!store.may_migrate("ghost", "new", false, false));
    assert!(!store.may_migrate("old", "new", true, true));
    store.keep("live".to_string(), meta(Some("e"), 1024, BLOCK_SIZE), 1);
    assert!(!store.may_migrate("live", "new", true, false));
    assert!(store.clear("live"));
    assert!(store.may_migrate("live", "new", true, false));
}

#[test]
fn scratch_is_shared_and_goes_with_its_last_stream() {
    let mut store: CacheStore<u8> = CacheStore::new();
    let m = meta(Some("s"), 200, 64);
    assert_eq!(store.acquire_staging("k", &m), None);
    store.stage("k".to_string(), m.clone(), 5);
    // A second stream on the same key shares the entry.
    assert_eq!(store.acquire_staging("k", &m), Some(0));
    assert_eq!(store.staging[0].refs, 2);
    store.clear_all();
    assert!(!store.release_staging("k"), "still in use by the second handle");
    assert!(store.release_staging("k"), "removed once the last handle drops");
    assert!(!store.release_staging("k"));
}

#[test]
fn scratch_for_other_content_is_forgotten() {
    let mut store: CacheStore<u8> = CacheStore::new();
    store.stage("k".to_string(), meta(Some("old"), 200, 64), 5);
    assert_eq!(store.acquire_staging("k", &meta(Some("new"), 200, 64)), None);
    assert!(store.staging.is_empty());
}

#[test]
fn an_open_entry_is_reused_for_the_same_content_only() {
    let mut store: CacheStore<u8> = CacheStore::new();
    store.keep("k".to_string(), meta(Some("e"), 200, 64), 1);
    assert_eq!(store.reusable("k", &meta(Some("e"), 200, 64)), Some(&1));
    assert_eq!(store.reusable("k", &meta(Some("f"), 200, 64)), None);
    assert_eq!(store.reusable("k", &meta(None, 200, 64)), None);
    assert_eq!(store.get("k"), Some(&1));
    assert_eq!(store.get("j"), None);
    store.keep("k".to_string(), meta(Some("f"), 200, 64), 2);
    assert_eq!(store.get("k"), Some(&2));
    assert_eq!(store.entries.len(), 1);
}

#[test]
fn metas_agree_by_size_and_validator() {
    let a = meta(Some("e"), 200, 64);
    assert!(cache_meta_compatible(&a, &meta(Some("e"), 200, 64)));
    assert!(!cache_meta_compatible(&a, &meta(Some("e"), 201, 64)));
    assert!(!cache_meta_compatible(&a, &meta(Some("e"), 200, 65)));
    assert!(!cache_meta_compatible(&a, &meta(None, 200, 64)));
    let mut x = meta(None, 200, 64);
    let y = meta(None, 200, 64);
    assert!(cache_meta_compatible(&x, &y));
    x.last_modified = Some("Tue".to_string());
    assert!(!cache_meta_compatible(&x, &y));
    assert!(needs_rebuild(None, &y));
    assert!(needs_rebuild(Some(&x), &y));
    assert!(!needs_rebuild(Some(&y), &y));
}

#[test]
fn keys_ignore_the_order_of_mirrors_but_not_of_volumes() {
    let s = |v: &[&str]| v.iter().map(|x| x.to_string()).collect::<Vec<String>>();
    let ab = CacheStore::<u8>::key_for_urls(&s(&["http://a", "http://b"]));
    let ba = CacheStore::<u8>::key_for_urls(&s(&["http://b", "http://a"]));
    assert_eq!(ab, ba);
    assert_eq!(ab.len(), 24);
    let one = CacheStore::<u8>::key_for_volume_layout(&vec![s(&["x", "y"]), s(&["z"])]);
    let two = CacheStore::<u8>::key_for_volume_layout(&vec![s(&["y", "x"]), s(&["z"])]);
    let swapped = CacheStore::<u8>::key_for_volume_layout(&vec![s(&["z"]), s(&["x", "y"])]);
    assert_eq!(one, two);
    assert_ne!(one, swapped);
    // The digest of nothing.
    assert_eq!(
        CacheStore::<u8>::key_for_urls(&vec![]),
        "e3b0c44298fc1c149afbf4c8"
    );
}

#[test]
fn a_bitmap_is_summed_up_in_percent() {
    assert_eq!(downsample_bitmap(&[0b1], 0, 128), Vec::<u8>::new());
    assert_eq!(downsample_bitmap(&[0b101], 4, 128), vec![100, 0, 100, 0]);
    assert_eq!(downsample_bitmap(&[0b1110_0001], 8, 2), vec![25, 75]);
    assert_eq!(downsample_bitmap(&[], 3, 128), vec![0, 0, 0]);
}

#[test]
fn stats_show_the_bitmap() {
    let mut e = tiny_entry();
    e.write_range(64, 128);
    let s = e.stats();
    assert_eq!(s.key, "tiny");
    assert_eq!((s.blocks_cached, s.blocks_total), (2, 4));
    assert_eq!(s.bytes_cached, 128);
    assert_eq!(s.bitmap_summary, vec![0, 100, 100, 0]);
    let d = stats_from_disk("tiny", &e.meta, &e.bitmap);
    assert_eq!(d.bytes_cached, 128);
    assert_eq!(d.blocks_cached, 2);
    assert_eq!(d.etag.as_deref(), Some("t"));
}

#[test]
fn bookkeeping_directories_begin_with_a_dot() {
    assert!(is_reserved_dir(".staging"));
    assert!(!is_reserved_dir("abc123"));
    assert!(!is_reserved_dir(""));
}
