use chacha20::cipher::{KeyIvInit, StreamCipher, StreamCipherSeek};
use chacha20::ChaCha20;
use hydraria::plugins::chacha20::{
    apply_keystream_parallel, coerce_size, combine_secret_hex, digit_count, forward_message,
    keystream_slices, output_directory, parallel_worker_count, plan_volume_sizes, prepare_forward,
    resolve_secret, resolve_secret_opt, strip_volume_marker, substitute_volume_marker, volume_names,
    ChaCha20Plugin, ForwardParams, ForwardRun, ForwardSettings, GlobalCfg, SizeValue, SplitMode,
    TaskCfg, CHACHA20_BLOCK_BYTES, KEY_LEN, MAX_PARALLEL_WORKERS, NONCE_LEN,
    PARALLEL_KEYSTREAM_MIN_BYTES,
};
use hydraria::plugins::{
    ByteTransform, FieldKind, PluginRegistry, SharedTransform, TaskPluginConfig, TransformPipeline,
};
use std::sync::Arc;

fn fixed_key() -> String {
    // 32 zero bytes
    "0".repeat(64)
}

fn fixed_nonce() -> String {
    "0".repeat(24)
}

fn pair(key: Option<&str>, nonce: Option<&str>) -> TaskCfg {
    TaskCfg {
        secret: None,
        key: key.map(|s| s.to_string()),
        nonce: nonce.map(|s| s.to_string()),
    }
}

fn combined(secret: &str) -> TaskCfg {
    TaskCfg {
        secret: Some(secret.to_string()),
        key: None,
        nonce: None,
    }
}

#[test]
fn transform_roundtrip_at_offset_zero() {
    let plugin = ChaCha20Plugin;
    let task = pair(Some(&fixed_key()), Some(&fixed_nonce()));
    let t = plugin.build_transform(&task).unwrap();
    let mut buf = b"hello world".to_vec();
    let plain = buf.clone();
    t.transform(0, &mut buf);
    assert_ne!(buf, plain, "transform should mutate bytes");
    t.transform(0, &mut buf);
    assert_eq!(buf, plain, "two applications of stream cipher = identity");
}

#[test]
fn transform_seek_offset_is_independent() {
    let plugin = ChaCha20Plugin;
    let task = pair(Some(&fixed_key()), Some(&fixed_nonce()));
    let t = plugin.build_transform(&task).unwrap();

    let mut whole = vec![10u8, 20, 30, 40];
    let plain = whole.clone();
    t.transform(0, &mut whole);
    let mut tail = whole[2..].to_vec();
    t.transform(2, &mut tail);
    assert_eq!(tail, &plain[2..]);
}

#[test]
fn transform_arbitrary_byte_offset_works() {
    let plugin = ChaCha20Plugin;
    let task = pair(Some(&fixed_key()), Some(&fixed_nonce()));
    let t = plugin.build_transform(&task).unwrap();
    // Build a 200-byte plaintext.
    let mut all: Vec<u8> = (0..200u16).map(|i| (i & 0xff) as u8).collect();
    let plain = all.clone();
    t.transform(0, &mut all);
    // Pick three windows that straddle ChaCha20's 64-byte block boundary.
    for (start, end) in [(0usize, 70usize), (60, 130), (130, 200)] {
        let mut slice = all[start..end].to_vec();
        t.transform(start as u64, &mut slice);
        assert_eq!(slice, &plain[start..end], "offset {} window broken", start);
    }
}

#[test]
fn missing_key_errors() {
    let plugin = ChaCha20Plugin;
    let task = pair(None, Some(&fixed_nonce()));
    let err = plugin.build_transform(&task).err().unwrap();
    assert!(err.contains("key"), "got: {}", err);
}

#[test]
fn wrong_key_length_errors() {
    let plugin = ChaCha20Plugin;
    let task = pair(Some("abcd"), Some(&fixed_nonce()));
    let err = plugin.build_transform(&task).err().unwrap();
    assert!(err.contains("32 bytes"), "got: {}", err);
    assert_eq!(err, "key must be exactly 32 bytes (got 2); expected 64 hex chars");
}

#[test]
fn combined_secret_accepted() {
    let plugin = ChaCha20Plugin;
    let secret = "0".repeat((KEY_LEN + NONCE_LEN) * 2);
    let t1 = plugin.build_transform(&combined(&secret)).unwrap();
    let t2 = plugin
        .build_transform(&pair(Some(&fixed_key()), Some(&fixed_nonce())))
        .unwrap();
    let mut a = b"some plaintext payload".to_vec();
    let mut b = a.clone();
    t1.transform(0, &mut a);
    t2.transform(0, &mut b);
    assert_eq!(a, b);
}

#[test]
fn combined_secret_wrong_length_errors() {
    let plugin = ChaCha20Plugin;
    // 80 chars = 40 bytes — clearly not 44.
    let err = plugin.build_transform(&combined(&"a".repeat(80))).err().unwrap();
    assert!(err.contains("44") || err.contains("88"), "got: {}", err);
}

#[test]
fn combined_secret_overrides_legacy_fields() {
    let plugin = ChaCha20Plugin;
    let secret = "f".repeat((KEY_LEN + NONCE_LEN) * 2);
    let task = TaskCfg {
        secret: Some(secret.clone()),
        key: Some(fixed_key()),
        nonce: Some(fixed_nonce()),
    };
    let t1 = plugin.build_transform(&task).unwrap();
    let t2 = plugin.build_transform(&combined(&secret)).unwrap();
    let mut a = vec![1, 2, 3, 4, 5, 6, 7, 8, 9, 10];
    let mut b = a.clone();
    t1.transform(0, &mut a);
    t2.transform(0, &mut b);
    assert_eq!(a, b);
}

#[test]
fn plan_volume_sizes_single_when_max_zero() {
    assert_eq!(plan_volume_sizes(1024, 0, SplitMode::Random), vec![1024]);
}

#[test]
fn plan_volume_sizes_single_when_total_le_max() {
    assert_eq!(plan_volume_sizes(1024, 4096, SplitMode::Random), vec![1024]);
}

#[test]
fn plan_volume_sizes_random_respects_bounds() {
    let total = 100 * 1024 * 1024u64;
    let max = 10 * 1024 * 1024u64;
    for _ in 0..50 {
        let plan = plan_volume_sizes(total, max, SplitMode::Random);
        let sum: u64 = plan.iter().sum();
        assert_eq!(sum, total, "plan must cover total exactly: {:?}", plan);
        for (i, &s) in plan.iter().enumerate() {
            assert!(s > 0, "volume {} has zero size: {:?}", i, plan);
            assert!(s <= max, "volume {} exceeds max: {} > {}", i, s, max);
            if i < plan.len() - 1 {
                assert!(
                    s >= max / 2,
                    "non-final volume {} below lower bound: {} < {}",
                    i,
                    s,
                    max / 2
                );
            }
        }
    }
}

#[test]
fn plan_volume_sizes_fixed_exact_then_remainder() {
    // 100 bytes, max 30 → 30, 30, 30, 10.
    let plan = plan_volume_sizes(100, 30, SplitMode::Fixed);
    assert_eq!(plan, vec![30, 30, 30, 10]);
}

#[test]
fn plan_volume_sizes_fixed_exact_division() {
    // 100 bytes, max 25 → 25, 25, 25, 25 (no tail).
    let plan = plan_volume_sizes(100, 25, SplitMode::Fixed);
    assert_eq!(plan, vec![25, 25, 25, 25]);
}

fn text(s: &str) -> SizeValue {
    SizeValue::Text(s.to_string())
}

#[test]
fn coerce_size_accepts_unit_strings_and_numbers() {
    assert_eq!(coerce_size(&text("5M"), "x").unwrap(), 5 * 1024 * 1024);
    assert_eq!(coerce_size(&SizeValue::Number(Some(1024)), "x").unwrap(), 1024);
    assert_eq!(coerce_size(&text("512K"), "x").unwrap(), 512 * 1024);
    assert_eq!(coerce_size(&text(""), "x").unwrap(), 0);
    assert_eq!(coerce_size(&SizeValue::Null, "x").unwrap(), 0);
}

#[test]
fn coerce_size_rejects_garbage() {
    assert!(coerce_size(&text("zzz"), "x").is_err());
    // A negative number is no size.
    assert!(coerce_size(&SizeValue::Number(None), "x").is_err());
    assert_eq!(
        coerce_size(&SizeValue::Other("Bool(true)".into()), "x").unwrap_err(),
        "x: unexpected type Bool(true)"
    );
}

#[test]
fn substitute_volume_marker_pads_correctly() {
    assert_eq!(substitute_volume_marker(".part{N}.enc", 1, 2), ".part01.enc");
    assert_eq!(substitute_volume_marker(".part{N}.enc", 12, 2), ".part12.enc");
    assert_eq!(substitute_volume_marker("{N}_blob", 7, 3), "007_blob");
}

#[test]
fn strip_volume_marker_collapses_dots() {
    assert_eq!(strip_volume_marker(".part{N}.enc"), ".part.enc");
    assert_eq!(strip_volume_marker("{N}.bin"), ".bin");
    assert_eq!(strip_volume_marker(".enc"), ".enc");
    assert_eq!(strip_volume_marker("a..{N}..b{N}{N}"), "a.b");
    assert_eq!(strip_volume_marker(".enc.{N}"), ".enc");
    assert_eq!(strip_volume_marker(".part-{N}"), ".part");
    assert_eq!(strip_volume_marker(".part{N}."), ".part");
    assert_eq!(strip_volume_marker("{N}.part."), ".part.");
    assert_eq!(strip_volume_marker("{N}"), "");
}

#[test]
fn digit_count_basic() {
    assert_eq!(digit_count(0), 1);
    assert_eq!(digit_count(1), 1);
    assert_eq!(digit_count(9), 1);
    assert_eq!(digit_count(10), 2);
    assert_eq!(digit_count(99), 2);
    assert_eq!(digit_count(100), 3);
    assert_eq!(digit_count(999), 3);
}

fn single_threaded_keystream(
    key: &[u8; KEY_LEN],
    nonce: &[u8; NONCE_LEN],
    offset: u64,
    data: &mut [u8],
) {
    let mut cipher = ChaCha20::new(key.into(), nonce.into());
    cipher.try_seek(offset).unwrap();
    cipher.apply_keystream(data);
}

const CORES: usize = 8;

#[test]
fn parallel_keystream_matches_single_threaded_aligned_buffer() {
    let key = [7u8; KEY_LEN];
    let nonce = [9u8; NONCE_LEN];
    let len = 4 * 1024 * 1024; // 4 MiB, > min for parallel
    assert!(len % CHACHA20_BLOCK_BYTES == 0);
    let mut a: Vec<u8> = (0..len).map(|i| (i % 251) as u8).collect();
    let mut b = a.clone();
    apply_keystream_parallel(&key, &nonce, 0, &mut a, CORES);
    single_threaded_keystream(&key, &nonce, 0, &mut b);
    assert_eq!(a, b, "parallel result must match single-threaded byte-for-byte");
}

#[test]
fn parallel_keystream_handles_unaligned_tail() {
    let key = [3u8; KEY_LEN];
    let nonce = [5u8; NONCE_LEN];
    let len = 4 * 1024 * 1024 + 17; // explicitly mis-aligned
    let mut a: Vec<u8> = (0..len).map(|i| (i ^ 0xA5) as u8).collect();
    let mut b = a.clone();
    apply_keystream_parallel(&key, &nonce, 0, &mut a, CORES);
    single_threaded_keystream(&key, &nonce, 0, &mut b);
    assert_eq!(a, b);
}

#[test]
fn parallel_keystream_respects_nonzero_starting_offset() {
    let key = [11u8; KEY_LEN];
    let nonce = [13u8; NONCE_LEN];
    let offset = 1024 * 1024u64;
    let len = 2 * 1024 * 1024 + 41;
    let mut a: Vec<u8> = (0..len).map(|i| (i as u32).wrapping_mul(7) as u8).collect();
    let mut b = a.clone();
    apply_keystream_parallel(&key, &nonce, offset, &mut a, CORES);
    single_threaded_keystream(&key, &nonce, offset, &mut b);
    assert_eq!(a, b);
}

#[test]
fn parallel_keystream_falls_back_for_small_buffers() {
    let key = [1u8; KEY_LEN];
    let nonce = [2u8; NONCE_LEN];
    let mut a: Vec<u8> = (0..1000).map(|i| i as u8).collect();
    let mut b = a.clone();
    apply_keystream_parallel(&key, &nonce, 64, &mut a, CORES);
    single_threaded_keystream(&key, &nonce, 64, &mut b);
    assert_eq!(a, b);
}

#[test]
fn parallel_keystream_is_xor_involutive() {
    let key = [42u8; KEY_LEN];
    let nonce = [99u8; NONCE_LEN];
    let mut data: Vec<u8> = (0..2 * 1024 * 1024).map(|i| (i & 0xFF) as u8).collect();
    let plain = data.clone();
    apply_keystream_parallel(&key, &nonce, 1234, &mut data, CORES);
    assert_ne!(data, plain);
    apply_keystream_parallel(&key, &nonce, 1234, &mut data, CORES);
    assert_eq!(data, plain);
}

#[test]
fn parallel_worker_count_below_threshold_is_one() {
    assert_eq!(parallel_worker_count(0, CORES), 1);
    assert_eq!(parallel_worker_count(64 * 1024, CORES), 1);
    assert_eq!(parallel_worker_count(PARALLEL_KEYSTREAM_MIN_BYTES - 1, CORES), 1);
}

#[test]
fn parallel_worker_count_caps_at_max() {
    // 64 MiB / 256 KiB = 256 chunks-by-size → caps to MAX_PARALLEL_WORKERS.
    let huge = 64 * 1024 * 1024;
    let n = parallel_worker_count(huge, 64);
    assert!(n >= 1 && n <= MAX_PARALLEL_WORKERS);
    assert_eq!(n, 8);
    assert_eq!(parallel_worker_count(huge, 3), 3);
    assert_eq!(parallel_worker_count(600 * 1024, 64), 2);
}

#[test]
fn slices_fall_on_block_boundaries() {
    assert_eq!(keystream_slices(1000, 4), vec![256, 256, 256, 232]);
    assert_eq!(keystream_slices(10, 4), vec![10]);
    assert_eq!(keystream_slices(130, 2), vec![64, 66]);
}

#[test]
fn past_the_counter_nothing_is_changed() {
    let key = [1u8; KEY_LEN];
    let nonce = [2u8; NONCE_LEN];
    let mut data = vec![5u8; 100];
    apply_keystream_parallel(&key, &nonce, 1 << 38, &mut data, CORES);
    assert_eq!(data, vec![5u8; 100]);
    // The last position that can be used.
    let end = 64 * (u32::MAX as u64);
    apply_keystream_parallel(&key, &nonce, end - 100, &mut data, CORES);
    let mut other = vec![5u8; 100];
    single_threaded_keystream(&key, &nonce, end - 100, &mut other);
    assert_eq!(data, other);
}

#[test]
fn a_volume_of_the_encrypted_file_is_the_encrypted_volume() {
    let t = ChaCha20Plugin
        .build_transform(&combined(&"ab".repeat(44)))
        .unwrap();
    let plain: Vec<u8> = (0..1000u32).map(|i| (i * 31) as u8).collect();
    let mut whole = plain.clone();
    t.transform(0, &mut whole);
    let mut at = 0;
    for size in plan_volume_sizes(1000, 300, SplitMode::Fixed) {
        let mut part = plain[at..at + size as usize].to_vec();
        t.transform(at as u64, &mut part);
        assert_eq!(part, &whole[at..at + size as usize]);
        at += size as usize;
    }
}

#[test]
fn secrets_are_read_in_either_form() {
    let key: [u8; KEY_LEN] = std::array::from_fn(|i| i as u8);
    let nonce: [u8; NONCE_LEN] = std::array::from_fn(|i| 200 + i as u8);
    let text = combine_secret_hex(&key, &nonce);
    assert_eq!(
        text,
        "000102030405060708090a0b0c0d0e0f101112131415161718191a1b1c1d1e1fc8c9cacbcccdcecfd0d1d2d3"
    );
    assert_eq!(resolve_secret(&combined(&format!(" {} ", text.to_uppercase()))).unwrap(), (key, nonce));
    assert_eq!(resolve_secret_opt(&pair(None, None)).unwrap(), None);
    assert_eq!(resolve_secret_opt(&pair(Some("  "), Some(""))).unwrap(), None);
    assert_eq!(
        resolve_secret(&pair(Some(&fixed_key()), None)).unwrap_err(),
        "task.key set but task.nonce missing"
    );
    assert_eq!(
        resolve_secret(&pair(None, Some(&fixed_nonce()))).unwrap_err(),
        "task.nonce set but task.key missing"
    );
    assert!(resolve_secret(&pair(None, None)).unwrap_err().starts_with("task.secret is required"));
    assert_eq!(
        resolve_secret(&combined("xyz")).unwrap_err(),
        "secret hex decode: Odd number of digits"
    );
    assert_eq!(
        resolve_secret(&combined("zz")).unwrap_err(),
        "secret hex decode: Invalid character 'z' at position 0"
    );
    assert_eq!(
        resolve_secret(&combined("abcd")).unwrap_err(),
        "secret must be exactly 44 bytes (got 2); expected 88 hex chars"
    );
    assert_eq!(
        resolve_secret(&pair(Some(&fixed_key()), Some("ff"))).unwrap_err(),
        "nonce must be exactly 12 bytes (got 1); expected 24 hex chars"
    );
}

fn params() -> ForwardParams {
    ForwardParams {
        input_path: "/in/movie.mp4".into(),
        output_dir: " /out ".into(),
        filename_prefix: None,
        volume_suffix: None,
        max_volume_size: Some(text("5M")),
        split_mode: SplitMode::Fixed,
        encrypt: true,
        generate_missing: true,
    }
}

#[test]
fn the_forward_tool_settles_its_settings_first() {
    let g = GlobalCfg { buffer_size: Some(text("1K")) };
    let s = prepare_forward(&g, &combined(&"11".repeat(44)), &params()).unwrap();
    assert_eq!(s.key, [0x11; KEY_LEN]);
    assert!(!s.generated_secret);
    assert_eq!(s.buffer_size, 4096);
    for nothing in [text(""), text("0"), SizeValue::Number(Some(0)), text("5X")] {
        let g = GlobalCfg { buffer_size: Some(nothing) };
        let s = prepare_forward(&g, &pair(None, None), &params()).unwrap();
        assert_eq!(s.buffer_size, 4 * 1024 * 1024);
    }
    assert_eq!(s.max_volume_size, 5 * 1024 * 1024);
    let fresh = prepare_forward(&GlobalCfg { buffer_size: None }, &pair(None, None), &params()).unwrap();
    assert!(fresh.generated_secret);
    assert_ne!(fresh.key, [0; KEY_LEN], "a made-up key is not all zeros");
    assert_eq!(fresh.buffer_size, 4 * 1024 * 1024);
    let mut p = params();
    p.generate_missing = false;
    assert_eq!(
        prepare_forward(&g, &pair(None, None), &p).err().unwrap(),
        "missing task.secret (encryption enabled and generate_missing is false)"
    );
    p.encrypt = false;
    assert!(prepare_forward(&g, &combined("nonsense"), &p).is_ok());
    p.max_volume_size = Some(text("x"));
    assert!(prepare_forward(&g, &pair(None, None), &p).is_err());
    assert_eq!(output_directory(&params()).unwrap(), "/out");
    p.output_dir = "  ".into();
    assert_eq!(output_directory(&p).unwrap_err(), "output_dir is required");
}

#[test]
fn volumes_are_named_and_numbered() {
    let p = params();
    assert_eq!(volume_names(&p, Some("movie"), 1), vec!["movie.part.enc"]);
    let names = volume_names(&p, Some("movie"), 10);
    assert_eq!(names[0], "movie.part01.enc");
    assert_eq!(names[9], "movie.part10.enc");
    let mut q = params();
    q.encrypt = false;
    q.filename_prefix = Some(" clip ".into());
    assert_eq!(volume_names(&q, None, 2), vec!["clip.part1", "clip.part2"]);
    q.filename_prefix = None;
    q.volume_suffix = Some("-{N}-of.bin".into());
    assert_eq!(volume_names(&q, None, 2), vec!["output-1-of.bin", "output-2-of.bin"]);
}

fn settings() -> ForwardSettings {
    let p = ForwardParams {
        input_path: "/tmp/in.bin".into(),
        output_dir: "/tmp/out".into(),
        filename_prefix: Some("f".into()),
        volume_suffix: None,
        max_volume_size: Some(SizeValue::Number(Some(4))),
        split_mode: SplitMode::Fixed,
        encrypt: true,
        generate_missing: false,
    };
    let g = GlobalCfg { buffer_size: None };
    prepare_forward(&g, &combined(&"0".repeat(88)), &p).unwrap()
}

/// Runs the tool over bytes in memory.
fn run_over(input: &[u8], plan: Vec<u64>, encrypt: bool, buf_len: usize) -> Vec<Vec<u8>> {
    let mut r = ForwardRun::new(&settings(), encrypt, plan.clone(), input.len() as u64);
    assert_eq!(r.begin().bytes_done, 0);
    let mut at = 0;
    let mut out = vec![];
    for _ in &plan {
        let mut volume = vec![];
        loop {
            let want = r.want(buf_len);
            if want == 0 {
                break;
            }
            let mut piece = input[at..at + want].to_vec();
            r.take(&mut piece, 2, 0);
            at += want;
            volume.extend(piece);
        }
        r.close_volume();
        out.push(volume);
    }
    let last = r.finish();
    assert_eq!((last.bytes_done, last.bytes_total), (input.len() as u64, input.len() as u64));
    assert_eq!(last.phase, if encrypt { "encrypt" } else { "split" });
    assert_eq!(r.bytes_out(), input.len() as u64);
    out
}

#[test]
fn each_byte_is_combined_with_the_keystream_at_its_own_place() {
    let plan = plan_volume_sizes(10, 4, SplitMode::Fixed);
    assert_eq!(
        run_over(&[0; 10], plan, true, 65536),
        vec![
            vec![0x76, 0xb8, 0xe0, 0xad],
            vec![0xa0, 0xf1, 0x3d, 0x90],
            vec![0x40, 0x5d],
        ]
    );
}

#[test]
fn joined_volumes_decrypt_to_the_input() {
    let input: Vec<u8> = (0..1000u32).map(|i| (i * 7) as u8).collect();
    for buf_len in [1, 64, 333, 4096] {
        let mut c = run_over(&input, vec![300, 1, 699], true, buf_len).concat();
        let t = ChaCha20Plugin.build_transform(&combined(&"0".repeat(88))).unwrap();
        assert_ne!(c, input);
        t.transform(0, &mut c);
        assert_eq!(c, input);
        assert_eq!(run_over(&input, vec![300, 1, 699], false, buf_len).concat(), input);
    }
}

#[test]
fn a_run_walks_the_volumes() {
    let mut r = ForwardRun::new(&settings(), false, vec![10, 5], 15);
    assert_eq!(r.want(4), 4);
    assert!(r.take(&mut [1; 4], 1, 0).is_none());
    let told = r.take(&mut [1; 4], 1, 100).expect("a tenth of a second has passed");
    assert_eq!((told.bytes_done, told.bytes_total, told.phase.as_str()), (8, 15, "split"));
    assert_eq!(r.want(4), 2);
    r.take(&mut [1; 2], 1, 0);
    assert_eq!(r.merged_offset, 10);
    r.close_volume();
    assert_eq!(r.want(4096), 5);
    // The input ends early.
    r.take(&mut [1; 3], 1, 0);
    r.close_volume();
    assert!(r.written == vec![10, 3]);
    assert_eq!(r.bytes_out(), 13);
    assert_eq!(r.finish().bytes_done, 13);
}

#[test]
fn messages_tell_what_was_done() {
    assert_eq!(forward_message(false, false, 3), "已切分为 3 个分卷 (未加密)。");
    assert_eq!(forward_message(true, false, 3), "已加密。");
    assert!(forward_message(true, true, 3).contains("secret"));
}

#[test]
fn the_plugin_describes_itself() {
    let p = ChaCha20Plugin;
    assert_eq!(p.id(), "chacha20");
    assert!(p.has_forward());
    assert_eq!(p.task_fields()[0].generate_random_bytes, Some(44));
    assert_eq!(p.global_fields()[0].key, "buffer_size");
    let keys: Vec<String> = p.forward_fields().into_iter().map(|f| f.key).collect();
    assert_eq!(
        keys,
        vec![
            "input_path",
            "output_dir",
            "filename_prefix",
            "volume_suffix",
            "max_volume_size",
            "split_mode",
            "encrypt",
            "generate_missing"
        ]
    );
    assert_eq!(p.forward_fields()[5].kind, FieldKind::Select);
    assert!(p.validate_global_config(&p.default_global_config()).is_ok());
    assert!(p.validate_global_config(&GlobalCfg { buffer_size: Some(text("1K")) }).is_err());
    assert!(p.validate_task_config(&p.default_task_config()).is_err());
}

#[test]
fn a_pipeline_undoes_what_its_transforms_did() {
    let one = || ChaCha20Plugin.build_transform(&combined(&"11".repeat(44))).unwrap();
    let two = || ChaCha20Plugin.build_transform(&combined(&"22".repeat(44))).unwrap();
    let plain: Vec<u8> = (0..200u16).map(|i| i as u8).collect();
    let mut sent = plain.clone();
    one().transform(7, &mut sent);
    two().transform(7, &mut sent);
    let mut p = TransformPipeline::new();
    assert!(p.is_empty());
    p.push(SharedTransform { inner: Arc::new(one()) });
    p.push(SharedTransform { inner: Arc::new(two()) });
    assert_eq!(p.len(), 2);
    assert_ne!(sent, plain);
    p.apply_reverse(7, &mut sent);
    assert_eq!(sent, plain);
}

#[test]
fn a_registry_keeps_order_and_skips_what_it_does_not_know() {
    let mut r: PluginRegistry<u8> = PluginRegistry::new();
    r.register("a".into(), 1);
    r.register("b".into(), 2);
    r.register("a".into(), 3);
    assert_eq!(r.ids(), vec!["a", "b"]);
    assert_eq!(r.get("a"), Some(&3));
    assert_eq!(r.get("c"), None);
    let slot = |id: &str, enabled: bool| TaskPluginConfig {
        id: id.into(),
        enabled,
        config: "{}".into(),
    };
    let configs = vec![slot("b", true), slot("x", true), slot("a", false), slot("a", true)];
    assert_eq!(r.active_slots(&configs), vec![(0, 1), (3, 0)]);
}
