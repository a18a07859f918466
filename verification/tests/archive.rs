use std::sync::Arc;
use tiles3d::archive::{
    begin_open, resume_open, Archive3tz, EntryNext, OpenNext, OPEN_HEAD_BYTES, OPEN_TAIL_BYTES,
};
use tiles3d::archive_write::write_3tz;
use tiles3d::fetch::{read_range, ByteSource};
use tiles3d::index3tz::{hash_sort_key, md5_of_path, normalize_path, Index3tz, IndexRecord};
use tiles3d::zip::{
    decode_entry, find_eocd, find_index_cd_entry, index_name_bytes, parse_local_header,
    zip64_extra_field, ArchiveError,
};

fn mem(bytes: Vec<u8>) -> ByteSource {
    ByteSource::Mem(Arc::new(bytes))
}

#[test]
fn path_normalization() {
    assert_eq!(normalize_path("/tileset.json"), "tileset.json");
    assert_eq!(normalize_path("content\\0\\a.glb"), "content/0/a.glb");
    assert_eq!(normalize_path("//x/y"), "x/y");
}

#[test]
fn normalization_is_idempotent_and_keeps_inner_slashes() {
    let once = normalize_path("\\\\a\\\\b//c/");
    assert_eq!(once, "a//b//c/");
    assert_eq!(normalize_path(&once), once);
    assert_eq!(normalize_path(""), "");
    assert_eq!(normalize_path("///"), "");
}

#[test]
fn sort_key_compares_first_eight_bytes_first() {
    // h1: bytes[0..8] = 1 LE, rest 0 -> key (1, 0)
    let mut h1 = [0u8; 16];
    h1[0] = 1;
    // h2: bytes[8..16] = 1 LE -> key (0, 1)
    let mut h2 = [0u8; 16];
    h2[8] = 1;
    assert!(hash_sort_key(&h2) < hash_sort_key(&h1));
    assert_eq!(hash_sort_key(&h1), (1, 0));
    assert_eq!(hash_sort_key(&h2), (0, 1));
}

#[test]
fn md5_of_a_known_path() {
    let want: [u8; 16] = [
        0x90, 0x01, 0x50, 0x98, 0x3c, 0xd2, 0x4f, 0xb0, 0xd6, 0x96, 0x3f, 0x7d, 0x28, 0xe1, 0x7f,
        0x72,
    ];
    assert_eq!(md5_of_path("abc"), want);
}

fn payload_of(recs: &[IndexRecord]) -> Vec<u8> {
    let mut payload = Vec::new();
    for r in recs {
        payload.extend_from_slice(&r.hash);
        payload.extend_from_slice(&r.offset.to_le_bytes());
    }
    payload
}

#[test]
fn index_lookup_finds_adjacent_collisions() {
    let twin = [7u8; 16];
    let mut other = [9u8; 16];
    other[0] = 1;
    let mut recs = vec![
        IndexRecord { hash: twin, offset: 100 },
        IndexRecord { hash: twin, offset: 200 },
        IndexRecord { hash: other, offset: 300 },
    ];
    recs.sort_by_key(|r| hash_sort_key(&r.hash));
    let index = Index3tz::parse(&payload_of(&recs)).unwrap();
    let hits = index.lookup_hash(&twin);
    assert_eq!(hits, vec![100, 200]);
    assert_eq!(index.lookup_hash(&other), vec![300]);
}

#[test]
fn an_index_out_of_order_is_sorted() {
    let mut low = [0u8; 16];
    low[8] = 5;
    let mut high = [0u8; 16];
    high[7] = 1;
    let recs = [
        IndexRecord { hash: high, offset: 1 },
        IndexRecord { hash: low, offset: 2 },
        IndexRecord { hash: high, offset: 3 },
    ];
    let index = Index3tz::parse(&payload_of(&recs)).unwrap();
    assert_eq!(index.len(), 3);
    assert_eq!(index.record(0), recs[1]);
    assert_eq!(index.lookup_hash(&high), vec![1, 3]);
    assert!(index.lookup_hash(&[1u8; 16]).is_empty());
}

#[test]
fn an_index_of_odd_length_is_corrupt() {
    match Index3tz::parse(&[0u8; 25]) {
        Err(ArchiveError::Corrupt(m)) => {
            assert_eq!(m, "index payload length 25 not a multiple of 24")
        }
        other => panic!("{other:?}"),
    }
}

#[test]
fn roundtrip_stored_and_deflated_entries() {
    let tileset = br#"{"asset":{"version":"1.1"}}"#;
    let glb: Vec<u8> = (0u8..=255).cycle().take(10_000).collect();
    let archive = write_3tz(
        &[
            ("tileset.json", tileset.as_slice(), true),
            ("content/0/a.glb", glb.as_slice(), false),
            ("content/0/b.glb", b"tiny", false),
        ],
        b"",
    );
    let ar = Archive3tz::open(mem(archive)).expect("open");
    assert_eq!(ar.index().len(), 3);
    assert_eq!(ar.read_entry("tileset.json").unwrap(), tileset);
    assert_eq!(ar.read_entry("content/0/a.glb").unwrap(), glb);
    // Path normalization on lookup: backslashes + leading slash.
    assert_eq!(ar.read_entry("\\content\\0\\b.glb").unwrap(), b"tiny");
    assert!(matches!(
        ar.read_entry("missing.glb"),
        Err(ArchiveError::EntryNotFound(_))
    ));
}

#[test]
fn deflated_entries_are_smaller_and_come_back() {
    let text = b"abcabcabcabc".repeat(500);
    let plain = write_3tz(&[("t", &text, false)], b"");
    let packed = write_3tz(&[("t", &text, true)], b"");
    assert!(packed.len() < plain.len());
    let ar = Archive3tz::open(mem(packed)).expect("open");
    assert_eq!(ar.read_entry("t").unwrap(), text);
}

#[test]
fn the_first_of_two_files_of_one_name_is_read() {
    let archive = write_3tz(&[("a", b"first", false), ("/a", b"second", true)], b"");
    let ar = Archive3tz::open(mem(archive)).expect("open");
    assert_eq!(ar.index().len(), 2);
    assert_eq!(ar.read_entry("a").unwrap(), b"first");
}

#[test]
fn eocd_found_behind_archive_comment() {
    let archive = write_3tz(&[("a.bin", b"data", false)], b"trailing zip comment here");
    let ar = Archive3tz::open(mem(archive)).expect("open with comment");
    assert_eq!(ar.read_entry("a.bin").unwrap(), b"data");
}

#[test]
fn many_entries_binary_search() {
    let blobs: Vec<(String, Vec<u8>)> = (0..200)
        .map(|i| {
            (
                format!("content/{}/{}.glb", i % 7, i),
                format!("payload-{i}").into_bytes(),
            )
        })
        .collect();
    let files: Vec<(&str, &[u8], bool)> = blobs
        .iter()
        .map(|(p, d)| (p.as_str(), d.as_slice(), false))
        .collect();
    let archive = write_3tz(&files, b"");
    let ar = Archive3tz::open(mem(archive)).expect("open");
    assert_eq!(ar.index().len(), 200);
    for (path, data) in &blobs {
        assert_eq!(&ar.read_entry(path).unwrap(), data, "path {path}");
    }
}

#[test]
fn rejects_archive_without_index() {
    let empty = write_3tz(&[], b"");
    // Empty still writes the index (zero records): that is a valid empty
    // archive. Corrupt the index name to simulate a foreign zip.
    let name = index_name_bytes();
    let mut foreign = empty.clone();
    let pos = foreign
        .windows(name.len())
        .rposition(|w| w == name.as_slice())
        .unwrap();
    foreign[pos] = b'#';
    assert!(matches!(
        Archive3tz::open(mem(foreign)),
        Err(ArchiveError::NoIndex)
    ));
    // And the pristine empty archive opens with an empty index.
    let ar = Archive3tz::open(mem(empty)).expect("open empty");
    assert!(ar.index().is_empty());
}

#[test]
fn bytes_that_are_no_zip_are_refused() {
    assert!(matches!(
        Archive3tz::open(mem(vec![0u8; 100])),
        Err(ArchiveError::NotZip)
    ));
    assert!(matches!(
        Archive3tz::open(mem(Vec::new())),
        Err(ArchiveError::NotZip)
    ));
    let e = find_eocd(&[1, 2, 3], 0).unwrap_err();
    assert_eq!(
        e.to_string(),
        "not a zip archive (no end-of-central-directory record found)"
    );
}

/// Opens an archive and counts the reads: the pair of suffix and prefix, and
/// every further range.
fn open_counting(bytes: &[u8], reads: &mut usize) -> Archive3tz {
    let size = bytes.len() as u64;
    let tail = &bytes[size.saturating_sub(OPEN_TAIL_BYTES) as usize..];
    let head = &bytes[..size.min(OPEN_HEAD_BYTES) as usize];
    *reads += 2;
    let mut next = begin_open(tail, size);
    loop {
        match next {
            OpenNext::Done(r) => {
                return Archive3tz::assemble(
                    ByteSource::Http("http://host/a.3tz".to_string()),
                    size,
                    head.to_vec(),
                    r.expect("open"),
                );
            }
            OpenNext::Need { start, len, phase } => {
                *reads += 1;
                next = resume_open(tail, size, phase, read_range(bytes, start, len));
            }
        }
    }
}

fn read_counting(ar: &Archive3tz, bytes: &[u8], path: &str, reads: &mut usize) -> Vec<u8> {
    let mut next = ar.begin_entry(path);
    loop {
        match next {
            EntryNext::Done(r) => return r.expect("entry"),
            EntryNext::Need { start, len, read } => {
                *reads += 1;
                next = ar.resume_entry(read, read_range(bytes, start, len));
            }
        }
    }
}

/// Open costs exactly the suffix and prefix pair; front-packed entries are
/// served from the head with no further request; an entry outside both windows
/// costs exactly one request.
#[test]
fn open_and_first_paint_request_budget() {
    let tileset = br#"{"asset":{"version":"1.1"},"root":{}}"#;
    let root_glb: Vec<u8> = (0u8..=255).cycle().take(300_000).collect();
    let filler: Vec<u8> = vec![0xAB; 3_000_000];
    let far: Vec<u8> = b"far-tile-payload".repeat(100);
    let tail_guard: Vec<u8> = vec![0xCD; 1_000_000];
    let archive = write_3tz(
        &[
            ("tileset.json", tileset.as_slice(), false),
            ("content/r.glb", root_glb.as_slice(), false),
            ("content/filler.bin", filler.as_slice(), false),
            ("content/far.glb", far.as_slice(), false),
            ("content/tail_guard.bin", tail_guard.as_slice(), false),
        ],
        b"",
    );
    let mut hits = 0;
    let ar = open_counting(&archive, &mut hits);
    assert_eq!(hits, 2, "open = suffix + prefix");
    assert_eq!(
        read_counting(&ar, &archive, "tileset.json", &mut hits),
        tileset,
        "tileset content"
    );
    assert_eq!(
        read_counting(&ar, &archive, "content/r.glb", &mut hits),
        root_glb
    );
    assert_eq!(
        hits, 2,
        "front-packed entries serve from the open head: no new requests"
    );
    assert_eq!(
        read_counting(&ar, &archive, "content/far.glb", &mut hits),
        far
    );
    assert_eq!(
        hits, 3,
        "an entry outside the head costs exactly one span-bounded request"
    );
}

#[test]
fn spans_come_from_the_next_entry() {
    let archive = write_3tz(&[("a", b"12345", false), ("b", b"6", false)], b"");
    let ar = Archive3tz::open(mem(archive)).unwrap();
    assert_eq!(ar.span_of(0), Some(30 + 1 + 5));
    assert_eq!(ar.span_of(36), Some(30 + 1 + 1));
    // The index is the last entry: nothing follows it.
    assert_eq!(ar.span_of(68), None);
    // No entry starts there.
    assert_eq!(ar.span_of(1), None);
    assert_eq!(ar.span_of(35), None);
    assert_eq!(ar.span_of(u64::MAX), None);
}

#[test]
fn zip64_extra_field_rank_addressing() {
    // Block: id 0x0001, len 16, two u64s (e.g. comp size then offset when
    // both saturated and uncomp was not).
    let mut extra = Vec::new();
    extra.extend_from_slice(&0x0001u16.to_le_bytes());
    extra.extend_from_slice(&16u16.to_le_bytes());
    extra.extend_from_slice(&111u64.to_le_bytes());
    extra.extend_from_slice(&222u64.to_le_bytes());
    assert_eq!(zip64_extra_field(&extra, 0), Some(111));
    assert_eq!(zip64_extra_field(&extra, 1), Some(222));
    assert_eq!(zip64_extra_field(&extra, 2), None);
    assert_eq!(zip64_extra_field(&[], 0), None);
}

#[test]
fn the_index_entry_is_found_with_full_fields() {
    let archive = write_3tz(&[("a", b"x", false)], b"");
    let eocd = find_eocd(&archive, 0).unwrap();
    let entry = find_index_cd_entry(&archive, 0, eocd.abs).unwrap();
    assert_eq!(entry.method, 0);
    assert_eq!(entry.comp_size, 24);
    assert_eq!(entry.local_offset, 32);
    let header = parse_local_header(&archive[32..]).unwrap();
    assert_eq!(header.name, index_name_bytes());
    assert_eq!(header.data_rel, 45);
    assert_eq!(header.comp_size, Some(24));
}

#[test]
fn local_headers_in_streaming_mode_have_no_size() {
    let mut b = vec![0u8; 31];
    b[..4].copy_from_slice(&[0x50, 0x4B, 3, 4]);
    b[6] = 8;
    b[26] = 1;
    b[30] = b'n';
    let h = parse_local_header(&b).unwrap();
    assert_eq!(h.comp_size, None);
    assert_eq!(h.name, b"n");
    // The size is full, and no ZIP64 block follows.
    b[18..22].copy_from_slice(&[0xFF; 4]);
    match parse_local_header(&b) {
        Err(ArchiveError::Corrupt(m)) => {
            assert_eq!(m, "saturated local comp size without zip64 extra")
        }
        other => panic!("{other:?}"),
    }
    // The name reaches past the window.
    b[26] = 9;
    assert!(parse_local_header(&b).is_err());
    assert!(parse_local_header(b"PK").is_err());
}

#[test]
fn entries_are_decoded_by_their_method() {
    assert_eq!(decode_entry(0, vec![1, 2]).unwrap(), vec![1, 2]);
    assert!(matches!(
        decode_entry(8, vec![0xFF, 0xFF]),
        Err(ArchiveError::Corrupt(_))
    ));
    match decode_entry(93, vec![]) {
        Err(ArchiveError::Unsupported(m)) => {
            assert_eq!(m, "zstandard-compressed 3tz entries (method 93)")
        }
        other => panic!("{other:?}"),
    }
    match decode_entry(12, vec![]) {
        Err(ArchiveError::Unsupported(m)) => assert_eq!(m, "zip compression method 12"),
        other => panic!("{other:?}"),
    }
}
