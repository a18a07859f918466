use std::collections::HashMap;
use tiles3d::fetch::{
    parse_content_range_total, suffix_retry, take_ranged_reply, take_suffix_reply, AbortRegistry,
    ByteSource, ExplodedBase, FetchError, ReadPlan, SuffixPlan, TilesetSource,
};
use tiles3d::stream::{
    hard_stopped, memory_pressure_factor, sort_load_candidates, LoadCandidate,
};
use tiles3d::uri::{
    is_archive_spec, looks_like_external_tileset, rebase_uri, uri_dir_prefix,
};

#[test]
fn content_range_total_parses() {
    assert_eq!(parse_content_range_total("bytes 100-199/4096"), Some(4096));
    assert_eq!(parse_content_range_total(" bytes 0-0/12"), Some(12));
    assert_eq!(parse_content_range_total("bytes */512"), Some(512));
    assert_eq!(parse_content_range_total("garbage"), None);
}

#[test]
fn content_range_totals_are_whole_numbers() {
    assert_eq!(parse_content_range_total("bytes 0-0/+7"), Some(7));
    assert_eq!(parse_content_range_total("bytes 0-0/"), None);
    assert_eq!(parse_content_range_total("bytes 0-0/-1"), None);
    assert_eq!(parse_content_range_total("bytes 0-0/18446744073709551615"), Some(u64::MAX));
    assert_eq!(parse_content_range_total("bytes 0-0/18446744073709551616"), None);
    assert_eq!(parse_content_range_total("bytes 12"), None);
}

fn mem() -> ByteSource {
    ByteSource::Mem(std::sync::Arc::new((0u8..=99).collect()))
}

#[test]
fn mem_source_range_and_suffix() {
    let src = mem();
    let ReadPlan::Bytes(bytes) = src.read(10, 5) else { panic!("in memory") };
    assert_eq!(bytes, vec![10, 11, 12, 13, 14]);
    let SuffixPlan::Tail(tail, total) = src.read_suffix(3) else { panic!("in memory") };
    assert_eq!(total, 100);
    assert_eq!(tail, vec![97, 98, 99]);
    assert!(matches!(src.read(99, 2), ReadPlan::Fail(FetchError::OutOfRange { .. })));
}

#[test]
fn sources_outside_memory_are_asked() {
    let http = ByteSource::Http("https://x/a.3tz".to_string());
    let ReadPlan::Http { url, range } = http.read(10, 5) else { panic!("asks") };
    assert_eq!((url.as_str(), range.as_str()), ("https://x/a.3tz", "bytes=10-14"));
    let SuffixPlan::Http { range, .. } = http.read_suffix(64) else { panic!("asks") };
    assert_eq!(range, "bytes=-64");
    assert!(matches!(http.read_abortable(0, 1, true), ReadPlan::Fail(FetchError::Aborted)));
    // A range of no bytes ends before it starts; a request that was called off
    // names no range.
    let ReadPlan::Http { range, .. } = http.read(10, 0) else { panic!("asks") };
    assert_eq!(range, "bytes=10-9");
    let off = http.read_abortable(u64::MAX, 1, true);
    assert!(matches!(off, ReadPlan::Fail(FetchError::Aborted)));
    assert!(matches!(http.read_abortable(0, 0, true), ReadPlan::Fail(FetchError::Aborted)));
    assert!(matches!(http.read_all(), ReadPlan::WholeUrl { .. }));
    let file = ByteSource::File("a/b".to_string());
    assert!(matches!(file.read(1, 2), ReadPlan::File { start: 1, len: 2, .. }));
    assert!(matches!(file.read_all(), ReadPlan::WholeFile { .. }));
    assert!(matches!(mem().read_all(), ReadPlan::Bytes(b) if b.len() == 100));
    assert!(matches!(mem().read_all_abortable(true), ReadPlan::Fail(FetchError::Aborted)));
}

#[test]
fn servers_without_ranges_still_serve_a_range() {
    let body: Vec<u8> = (0..10).collect();
    assert_eq!(take_ranged_reply("u", 206, vec![3, 4], 3, 2).unwrap(), [3, 4]);
    assert_eq!(take_ranged_reply("u", 200, body.clone(), 3, 2).unwrap(), [3, 4]);
    assert_eq!(
        take_ranged_reply("u", 200, body.clone(), 9, 2).unwrap_err().to_string(),
        "range out of bounds: 9+2 > 10"
    );
    assert_eq!(
        take_ranged_reply("u", 404, body.clone(), 9, 2).unwrap_err().to_string(),
        "http error: status 404 for ranged GET u"
    );
    assert_eq!(suffix_retry(200, Some(10), 4), Some((6, 4, 10)));
    assert_eq!(suffix_retry(200, Some(3), 4), Some((0, 3, 3)));
    assert_eq!(suffix_retry(200, Some(0), 4), None);
    assert_eq!(suffix_retry(206, Some(10), 4), None);
    let (tail, total) = take_suffix_reply("u", 200, None, body.clone(), 3).unwrap();
    assert_eq!((tail, total), (vec![7, 8, 9], 10));
    let range = Some("bytes 7-9/10".to_string());
    let (tail, total) = take_suffix_reply("u", 206, range, vec![7, 8, 9], 3).unwrap();
    assert_eq!((tail, total), (vec![7, 8, 9], 10));
    assert_eq!(
        take_suffix_reply("u", 206, None, vec![], 3).unwrap_err().to_string(),
        "http error: 206 without Content-Range for u"
    );
    assert_eq!(
        take_suffix_reply("u", 500, None, vec![], 3).unwrap_err().to_string(),
        "http error: status 500 for suffix GET u"
    );
}

fn aborted_read() {
    let mut aborts = AbortRegistry::new();
    let abort = aborts.register_abort(987_654);
    assert!(!aborts.is_triggered(abort));
    aborts.trigger_abort(987_654);
    assert!(aborts.is_triggered(abort));
    let src = ByteSource::Mem(std::sync::Arc::new(vec![0u8; 64]));
    let res = src.read_abortable(0, 8, aborts.is_triggered(abort));
    assert!(matches!(res, ReadPlan::Fail(FetchError::Aborted)));
    aborts.unregister_abort(987_654);
    // Unregistered generations are no-ops.
    aborts.trigger_abort(987_654);
}

#[test]
fn lib_abort_registry_cancels_reads() {
    aborted_read();
}

#[test]
fn mod_abort_registry_cancels_reads() {
    aborted_read();
}

#[test]
fn aborts_after_the_end_reach_nobody() {
    let mut aborts = AbortRegistry::new();
    let first = aborts.register_abort(1);
    let second = aborts.register_abort(2);
    aborts.unregister_abort(1);
    aborts.trigger_abort(1);
    assert!(!aborts.is_triggered(first));
    assert!(!aborts.is_triggered(second));
    aborts.trigger_abort(2);
    assert!(aborts.is_triggered(second));
}

#[test]
fn entries_have_keys_without_signatures() {
    let url = |u: &str| TilesetSource::Exploded(ExplodedBase::Url(u.to_string()));
    assert_eq!(
        url("https://x/base/?sig=1").entry_cache_key("/content/a.glb"),
        Some("https://x/base/content/a.glb".to_string())
    );
    assert_eq!(
        url("https://x/base?sig=2").entry_cache_key("content/a.glb"),
        Some("https://x/base/content/a.glb".to_string())
    );
    assert_eq!(url("base").entry_cache_key("a"), None);
    let dir = TilesetSource::Exploded(ExplodedBase::Dir("d".to_string()));
    assert_eq!(dir.entry_cache_key("a"), None);
    assert!(matches!(
        ExplodedBase::Dir("d".to_string()).join("/a/b"),
        ByteSource::File(p) if p == "d/a/b"
    ));
    assert!(matches!(
        ExplodedBase::Url("https://x/b/".to_string()).join("/a"),
        ByteSource::Http(u) if u == "https://x/b/a"
    ));
}

#[test]
fn lib_archive_spec_detection_ignores_query_strings() {
    assert!(is_archive_spec("assets/fixtures/tiles3d-demo.3tz"));
    assert!(is_archive_spec("https://x.blob.core.windows.net/a/demo.3tz?se=2026&sig=abc"));
    assert!(is_archive_spec("https://x/a/demo.3tz#frag"));
    assert!(!is_archive_spec("assets/fixtures/tiles3d-demo/tileset.json"));
    assert!(!is_archive_spec("https://x/a/tileset.json?sas=1"));
}

#[test]
fn mod_archive_spec_detection_ignores_query_strings() {
    assert!(is_archive_spec("assets/fixtures/tiles3d-demo.3tz"));
    assert!(is_archive_spec("https://x.blob.core.windows.net/a/demo.3tz?se=2026&sig=abc"));
    assert!(is_archive_spec("https://x/a/demo.3tz#frag"));
    assert!(!is_archive_spec("assets/fixtures/tiles3d-demo/tileset.json"));
    assert!(!is_archive_spec("https://x/a/tileset.json?sas=1"));
}

fn external_tilesets() {
    let tileset = br#"{"asset":{"version":"1.1"},"geometricError":1e100,
            "root":{"boundingVolume":{"box":[0,0,0,1,0,0,0,1,0,0,0,1]},"geometricError":0}}"#;
    assert!(looks_like_external_tileset(tileset));
    assert!(looks_like_external_tileset(b"  \n{\"geometricError\": 1, \"root\": {}}"));
    assert!(!looks_like_external_tileset(b"glTF\x02\x00\x00\x00..."));
    assert!(!looks_like_external_tileset(
        br#"{"asset":{"version":"2.0"},"scenes":[{"nodes":[0]}],"meshes":[]}"#
    ));
}

#[test]
fn lib_external_tileset_detection_is_content_based() {
    external_tilesets();
}

#[test]
fn mod_external_tileset_detection_is_content_based() {
    external_tilesets();
}

fn dir_prefixes() {
    assert_eq!(uri_dir_prefix("sub/tileset.json"), Some("sub/".to_string()));
    assert_eq!(uri_dir_prefix("a/b/c.json?session=x"), Some("a/b/".to_string()));
    assert_eq!(uri_dir_prefix("tileset.json"), None);
    assert_eq!(
        uri_dir_prefix("/v1/3dtiles/datasets/x/files/a.json"),
        Some("/v1/3dtiles/datasets/x/files/".to_string())
    );
}

#[test]
fn lib_uri_dir_prefix_for_subtree_rebasing() {
    dir_prefixes();
}

#[test]
fn mod_uri_dir_prefix_for_subtree_rebasing() {
    dir_prefixes();
}

#[test]
fn only_relative_names_are_rebased() {
    assert_eq!(rebase_uri("sub/", "a.glb"), "sub/a.glb");
    assert_eq!(rebase_uri("sub/", "/a.glb"), "/a.glb");
    assert_eq!(rebase_uri("sub/", "https://x/a.glb"), "https://x/a.glb");
    assert_eq!(rebase_uri("sub/", ""), "sub/");
}

fn ratio(r: (u64, u64)) -> f64 {
    r.0 as f64 / r.1 as f64
}

#[test]
fn memory_pressure_factor_curve() {
    assert_eq!(ratio(memory_pressure_factor(500, 0)), 1.0, "0 budget = disabled");
    assert_eq!(ratio(memory_pressure_factor(400, 400)), 1.0, "at budget");
    assert_eq!(ratio(memory_pressure_factor(100, 400)), 1.0, "under budget");
    assert_eq!(ratio(memory_pressure_factor(800, 400)), 2.0, "2x overshoot");
    assert_eq!(ratio(memory_pressure_factor(400_000, 400)), 8.0, "clamped at 8x");
}

#[test]
fn loads_stop_past_half_again_the_budget() {
    assert!(!hard_stopped(1_000, 0));
    assert!(!hard_stopped(150, 100));
    assert!(hard_stopped(151, 100));
    assert!(hard_stopped(u64::MAX, u64::MAX / 2));
}

fn cand(set_id: u64, class: u8, starving_root: bool, within: usize) -> LoadCandidate {
    LoadCandidate { set_idx: set_id as usize, set_id, tile: within, class, starving_root, within }
}

fn no_cursors() -> HashMap<u8, u64> {
    HashMap::new()
}

#[test]
fn starving_set_root_beats_refinement() {
    let mut c = vec![cand(1, 1, false, 0), cand(1, 1, false, 1), cand(2, 1, true, 0)];
    sort_load_candidates(&mut c, &no_cursors());
    assert_eq!((c[0].set_id, c[0].within), (2, 0), "root request first");
}

#[test]
fn class1_starving_root_beats_class0_refinement() {
    let mut c = vec![cand(2, 0, false, 3), cand(2, 0, false, 4), cand(1, 1, true, 0)];
    sort_load_candidates(&mut c, &no_cursors());
    assert_eq!(c[0].set_id, 1, "starving root wins across classes");
}

#[test]
fn class_zero_beats_class_one() {
    let mut c = vec![cand(1, 1, false, 0), cand(2, 0, false, 3)];
    sort_load_candidates(&mut c, &no_cursors());
    assert_eq!(c[0].set_id, 2, "class 0 refinement first");

    let mut c = vec![cand(1, 1, true, 0), cand(2, 0, true, 0)];
    sort_load_candidates(&mut c, &no_cursors());
    assert_eq!(c[0].set_id, 2, "class 0 root first among starving roots");
}

#[test]
fn round_robin_rotates_across_equal_class_sets() {
    let fresh = || {
        vec![
            cand(1, 1, false, 0),
            cand(1, 1, false, 1),
            cand(2, 1, false, 0),
            cand(2, 1, false, 1),
            cand(3, 1, false, 0),
            cand(3, 1, false, 1),
        ]
    };
    let mut cursors = no_cursors();
    let mut served = Vec::new();
    for _ in 0..4 {
        let mut c = fresh();
        sort_load_candidates(&mut c, &cursors);
        cursors.insert(c[0].class, c[0].set_id);
        served.push(c[0].set_id);
    }
    assert_eq!(served, vec![1, 2, 3, 1], "rotation wraps across frames");
}

#[test]
fn round_robin_rotates_per_class() {
    let frame = |class0_reqs: usize| {
        let mut c: Vec<LoadCandidate> =
            (0..class0_reqs).map(|i| cand(100 + i as u64, 0, false, 0)).collect();
        c.extend([cand(1, 1, false, 0), cand(2, 1, false, 0), cand(3, 1, false, 0)]);
        c
    };
    let mut cursors = no_cursors();
    let mut leftover_served = Vec::new();
    for _ in 0..4 {
        let mut c = frame(2);
        sort_load_candidates(&mut c, &cursors);
        assert!(c[..2].iter().all(|g| g.class == 0), "class 0 saturates");
        for g in c.iter().take(2) {
            cursors.insert(g.class, g.set_id);
        }
        let mut c = frame(1);
        sort_load_candidates(&mut c, &cursors);
        for g in c.iter().take(2) {
            cursors.insert(g.class, g.set_id);
        }
        assert_eq!(c[1].class, 1, "the leftover slot is class 1's");
        leftover_served.push(c[1].set_id);
    }
    assert_eq!(
        leftover_served,
        vec![1, 2, 3, 1],
        "class-1 rotation survives class-0 saturation frames"
    );
}

#[test]
fn within_set_selection_order_preserved() {
    let mut c = vec![
        cand(2, 1, false, 1),
        cand(1, 1, false, 2),
        cand(2, 1, false, 0),
        cand(1, 1, false, 0),
        cand(1, 1, false, 1),
    ];
    sort_load_candidates(&mut c, &no_cursors());
    let order: Vec<(u64, usize)> = c.iter().map(|c| (c.set_id, c.within)).collect();
    assert_eq!(order, vec![(1, 0), (2, 0), (1, 1), (2, 1), (1, 2)]);
    let set1: Vec<usize> = c.iter().filter(|c| c.set_id == 1).map(|c| c.within).collect();
    assert_eq!(set1, vec![0, 1, 2], "within-set order intact");
}

#[test]
fn rotation_cursor_survives_set_detach() {
    let mut c = vec![cand(1, 1, false, 0), cand(3, 1, false, 0)];
    sort_load_candidates(&mut c, &HashMap::from([(1u8, 2u64)]));
    assert_eq!(c[0].set_id, 3, "next id past the dead cursor goes first");
    let mut c = vec![cand(1, 1, false, 0), cand(3, 1, false, 0)];
    sort_load_candidates(&mut c, &HashMap::from([(1u8, 99u64)]));
    assert_eq!(c[0].set_id, 1, "wraps to the lowest live id");
}
