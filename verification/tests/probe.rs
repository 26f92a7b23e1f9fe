use hydraria::engine::UpstreamProbe;
use hydraria::error::ProxyError;
use hydraria::probe::{probe_one, short_digest, LayoutProbe, ResponseHead};

fn head(status: u16) -> ResponseHead {
    ResponseHead {
        status,
        accept_ranges: None,
        content_length: None,
        content_range: None,
        content_type: None,
        etag: None,
        last_modified: None,
        content_disposition: None,
    }
}

#[test]
fn a_content_range_is_believed_over_a_content_length() {
    let mut h = head(200);
    h.content_length = Some("10".into());
    h.content_type = Some("video/mp4".into());
    let mut r = head(206);
    r.content_range = Some("bytes 0-0/12345".into());
    r.content_type = Some("text/plain".into());
    r.etag = Some("\"e\"".into());
    let p = probe_one("http://h/a/b.mp4", Some(&h), Some(&r)).unwrap();
    assert_eq!(p.total_size, Some(12345));
    assert!(p.accepts_ranges);
    assert_eq!(p.content_type.as_deref(), Some("video/mp4"));
    assert_eq!(p.etag.as_deref(), Some("\"e\""));
    assert_eq!(p.filename.as_deref(), Some("b.mp4"));
}

#[test]
fn a_whole_file_for_a_range_gives_its_size() {
    let mut r = head(200);
    r.content_length = Some("77".into());
    r.content_disposition = Some(b"attachment; filename=x.bin".to_vec());
    let p = probe_one("http://h/", None, Some(&r)).unwrap();
    assert_eq!(p.total_size, Some(77));
    assert!(!p.accepts_ranges);
    assert_eq!(p.filename.as_deref(), Some("x.bin"));
    // HEAD alone may advertise ranges, in any case of letters.
    let mut h = head(200);
    h.accept_ranges = Some("Bytes".into());
    assert!(probe_one("http://h/", Some(&h), None).unwrap().accepts_ranges);
    assert!(matches!(probe_one("http://h/", None, None), Err(ProxyError::NoUpstream)));
}

fn probe(size: Option<u64>, ranges: bool, etag: Option<&str>, name: Option<&str>) -> UpstreamProbe {
    UpstreamProbe {
        total_size: size,
        accepts_ranges: ranges,
        content_type: Some("video/mp4".into()),
        etag: etag.map(|s| s.to_string()),
        last_modified: Some("Tue".into()),
        filename: name.map(|s| s.to_string()),
        volumes: None,
        probe_error: None,
    }
}

#[test]
fn volumes_are_stitched_behind_one_another() {
    let mut l = LayoutProbe::new(
        vec![vec!["http://h/m.part1".into()], vec!["http://h/m.part2".into()]],
    );
    assert_eq!(l.next().unwrap().as_deref(), Some("http://h/m.part1"));
    assert_eq!(l.note(Ok(probe(Some(100), true, Some("a"), Some("m.part1")))), None);
    assert_eq!(l.next().unwrap().as_deref(), Some("http://h/m.part2"));
    assert_eq!(l.note(Ok(probe(Some(50), true, None, Some("m.part2")))), None);
    assert_eq!(l.next().unwrap(), None);
    let p = l.finish().unwrap();
    assert_eq!(p.total_size, Some(150));
    assert!(p.accepts_ranges);
    let v = p.volumes.unwrap();
    assert_eq!((v[0].offset, v[0].size, v[1].offset, v[1].size), (0, 100, 100, 50));
    assert_eq!(p.filename.as_deref(), Some("m"));
    let tags = vec!["a".to_string(), "Tue".into()];
    assert_eq!(p.etag, Some(format!("\"vols-{}\"", short_digest(&tags))));
    assert_eq!(p.last_modified.as_deref(), Some("Tue"));
}

#[test]
fn a_volume_needs_a_mirror_with_ranges_and_a_size() {
    let mut l = LayoutProbe::new(
        vec![
            vec!["http://a/1".into(), "http://b/1".into()],
            vec!["http://a/2".into()],
        ],
    );
    // The mirrors are asked in the order in which they are listed.
    assert_eq!(l.next().unwrap().as_deref(), Some("http://a/1"));
    assert_eq!(
        l.note(Ok(probe(Some(1), false, None, None))).as_deref(),
        Some("no Range support; skipping for multi-volume task")
    );
    assert_eq!(l.next().unwrap().as_deref(), Some("http://b/1"));
    assert_eq!(
        l.note(Ok(probe(None, true, None, None))).as_deref(),
        Some("no Content-Length; can't stitch volumes without known sizes")
    );
    match l.next() {
        Err(ProxyError::Internal(m)) => assert_eq!(
            m,
            "volume 1 probe failed across all 2 mirror(s): internal: no Content-Length; \
             can't stitch volumes without known sizes (http://b/1)"
        ),
        other => panic!("{other:?}"),
    }
}

#[test]
fn a_single_file_that_cannot_be_probed_is_passed_through() {
    let mut l = LayoutProbe::new(vec![vec!["http://a/1".into(), "http://b/1".into()]]);
    l.next().unwrap();
    assert_eq!(l.note(Err(ProxyError::BadStatus(500))).as_deref(),
        Some("upstream returned non-success status: 500"));
    l.next().unwrap();
    assert_eq!(l.note(Err(ProxyError::NoUpstream)).as_deref(), Some("no upstream URL available"));
    assert_eq!(l.next().unwrap(), None);
    let p = l.finish().unwrap();
    assert_eq!(p.total_size, None);
    assert!(!p.accepts_ranges);
    assert_eq!(p.probe_error.as_deref(), Some("no upstream URL available"));
    assert_eq!(p.volumes.unwrap().len(), 1);
}

#[test]
fn sizes_that_overflow_are_refused() {
    let mut l = LayoutProbe::new(vec![vec!["http://a/1".into()], vec!["http://a/2".into()]]);
    l.next().unwrap();
    l.note(Ok(probe(Some(u64::MAX), true, None, None)));
    l.next().unwrap();
    l.note(Ok(probe(Some(1), true, None, None)));
    assert_eq!(l.next().unwrap(), None);
    match l.finish() {
        Err(ProxyError::Internal(m)) => assert_eq!(m, "volume sizes overflow u64"),
        other => panic!("{other:?}"),
    }
}

#[test]
fn a_digest_is_sixteen_digits_of_the_parts() {
    // SHA-256 of "a\n" begins so.
    assert_eq!(short_digest(&vec!["a".to_string()]), "87428fc522803d31");
    assert_ne!(
        short_digest(&vec!["a".into(), "b".into()]),
        short_digest(&vec!["b".into(), "a".into()])
    );
}

#[test]
fn errors_say_what_they_are_and_how_they_are_answered() {
    let cases = [
        (ProxyError::TaskNotFound("x".into()), "task not found: x", 404),
        (ProxyError::NoUpstream, "no upstream URL available", 502),
        (ProxyError::Upstream("e".into()), "upstream HTTP error: e", 502),
        (ProxyError::InvalidRange("r".into()), "invalid range header: r", 416),
        (ProxyError::BadStatus(404), "upstream returned non-success status: 404", 404),
        (ProxyError::BadStatus(7), "upstream returned non-success status: 7", 502),
        (
            ProxyError::Throttled { status: 429, retry_after: Some(5) },
            "upstream is throttling (status 429)",
            429,
        ),
        (ProxyError::Io("d".into()), "io error: d", 500),
        (
            ProxyError::ContentChanged { url: "u".into() },
            "upstream content changed mid-download: u",
            502,
        ),
        (ProxyError::Internal("i".into()), "internal: i", 500),
    ];
    for (e, text, status) in cases {
        assert_eq!(e.message(), text);
        assert_eq!(e.http_status(), status);
    }
    assert!(ProxyError::BadStatus(503).is_overload());
    assert!(!ProxyError::BadStatus(500).is_overload());
    let t = ProxyError::Throttled { status: 503, retry_after: Some(9) };
    assert!(t.is_overload());
    assert_eq!(t.retry_after(), Some(9));
    assert!(ProxyError::ContentChanged { url: String::new() }.is_content_changed());
}

#[test]
fn a_change_of_any_volume_shows() {
    let of = |dates: [Option<&str>; 2]| {
        let mut l = LayoutProbe::new(vec![vec!["http://h/1".into()], vec!["http://h/2".into()]]);
        for d in dates {
            l.next().unwrap();
            let mut p = probe(Some(5), true, None, None);
            p.last_modified = d.map(|s| s.to_string());
            assert_eq!(l.note(Ok(p)), None);
        }
        assert_eq!(l.next().unwrap(), None);
        let p = l.finish().unwrap();
        (p.etag, p.last_modified)
    };
    assert_ne!(of([Some("Mon"), Some("Tue")]), of([Some("Mon"), Some("Wed")]));
    assert_eq!(of([Some("Mon"), Some("Tue")]), of([Some("Mon"), Some("Tue")]));
    assert_eq!(of([Some("Mon"), Some("Tue")]).1.as_deref(), Some("Mon"));
    assert_eq!(of([None, None]), (None, None));
}

#[test]
fn the_first_mirror_that_answers_is_the_last_that_is_asked() {
    let mut l = LayoutProbe::new(vec![vec!["http://m0/".into(), "http://m1/".into()]]);
    assert_eq!(l.next().unwrap().as_deref(), Some("http://m0/"));
    assert_eq!(l.note(Ok(probe(Some(5), true, None, None))), None);
    assert_eq!(l.next().unwrap(), None);
}
