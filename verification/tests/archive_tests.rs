use lib::archive::{
    archive_stats, build_archive, encode_entry, parse_entry, parse_index, sanitize, unpack_entry,
    ArchiveError, EntryHeader, SourceItem, ARCHIVE_HEADER_LEN, MAGIC, VERSION,
};
use lib::archive::{check_blob, count_failures, unpack_blob, EntryCheck};
use lib::compress::{BlobError, Config};
use lib::crc32::crc32;

fn item(name: &str, is_dir: bool, data: &[u8]) -> SourceItem {
    SourceItem {
        name: name.to_string(),
        is_dir,
        mode: if is_dir { 0o755 } else { 0o644 },
        mtime: 1_700_000_000,
        data: data.to_vec(),
    }
}

fn entry(path: &str) -> EntryHeader {
    EntryHeader {
        path: path.to_string(),
        is_dir: false,
        mode: 0o600,
        mtime: 42,
        data_offset: 7,
        data_len: 9,
        orig_len: 11,
        crc32: 0xDEADBEEF,
    }
}

#[test]
fn crc32_check_values() {
    assert_eq!(crc32(b""), 0);
    assert_eq!(crc32(b"a"), 0xE8B7BE43);
    assert_eq!(crc32(b"123456789"), 0xCBF43926);
    assert_eq!(crc32(b"The quick brown fox jumps over the lazy dog"), 0x414FA339);
}

#[test]
fn entry_layout() {
    let mut out = Vec::new();
    encode_entry(&entry("ab"), &mut out);
    let mut expected = vec![2, 0, 0, 0, b'a', b'b', 0];
    expected.extend_from_slice(&0o600u32.to_le_bytes());
    expected.extend_from_slice(&42u64.to_le_bytes());
    expected.extend_from_slice(&7u64.to_le_bytes());
    expected.extend_from_slice(&9u64.to_le_bytes());
    expected.extend_from_slice(&11u64.to_le_bytes());
    expected.extend_from_slice(&0xDEADBEEFu32.to_le_bytes());
    assert_eq!(out, expected);
    assert_eq!(parse_entry(&out, 0), Ok((entry("ab"), out.len())));
}

#[test]
fn entry_with_a_non_ascii_path_reads_back() {
    let mut out = vec![0xAA, 0xBB];
    encode_entry(&entry("città/è"), &mut out);
    out.push(0xCC);
    let (e, next) = parse_entry(&out, 2).unwrap();
    assert_eq!(e, entry("città/è"));
    assert_eq!(next, out.len() - 1);
}

#[test]
fn entry_errors() {
    assert_eq!(parse_entry(&[1, 0, 0], 0), Err(ArchiveError::UnexpectedEof));
    assert_eq!(parse_entry(&[5, 0, 0, 0, b'a'], 0), Err(ArchiveError::UnexpectedEof));
    let mut bad = vec![1, 0, 0, 0, 0xFF];
    bad.extend_from_slice(&[0u8; 41]);
    assert_eq!(parse_entry(&bad, 0), Err(ArchiveError::PathNotUtf8));
    let mut cut = vec![1, 0, 0, 0, b'a'];
    cut.extend_from_slice(&[0u8; 40]);
    assert_eq!(parse_entry(&cut, 0), Err(ArchiveError::UnexpectedEof));
    assert_eq!(parse_entry(&cut, 100), Err(ArchiveError::UnexpectedEof));
}

#[test]
fn index_errors() {
    assert_eq!(parse_index(b"PIAD"), Err(ArchiveError::UnexpectedEof));
    assert_eq!(parse_index(b"NOTANARC\x03\0\0\0\0\0\0\0\0"), Err(ArchiveError::NotAnArchive));
    let mut v2 = MAGIC.to_vec();
    v2.push(2);
    v2.extend_from_slice(&[0u8; 8]);
    assert_eq!(parse_index(&v2), Err(ArchiveError::UnsupportedVersion(2)));
    let mut short = MAGIC.to_vec();
    short.push(VERSION);
    assert_eq!(parse_index(&short), Err(ArchiveError::UnexpectedEof));
    let mut missing = MAGIC.to_vec();
    missing.push(VERSION);
    missing.extend_from_slice(&[1, 0, 0, 0, 1, 0, 0, 0]);
    assert_eq!(parse_index(&missing), Err(ArchiveError::UnexpectedEof));
}

#[test]
fn empty_archive() {
    let (bytes, entries) = build_archive(&[], &Config::default()).unwrap();
    let mut expected = MAGIC.to_vec();
    expected.push(VERSION);
    expected.extend_from_slice(&[0, 0, 0, 0, 1, 0, 0, 0]);
    assert_eq!(bytes, expected);
    assert!(entries.is_empty());
    assert_eq!(parse_index(&bytes), Ok((Vec::new(), ARCHIVE_HEADER_LEN as u64)));
}

#[test]
fn archive_roundtrip() {
    let mut big = Vec::new();
    for i in 0..500u32 {
        big.extend_from_slice(format!("record {:04} ok\n", i % 50).as_bytes());
    }
    let items = vec![
        item("docs", true, b""),
        item("docs/readme.txt", false, b"hello, archive"),
        item("docs/empty", false, b""),
        item("data.bin", false, &big),
    ];
    let (bytes, entries) = build_archive(&items, &Config::new(9)).unwrap();
    let (read, start) = parse_index(&bytes).unwrap();
    assert_eq!(read, entries);
    assert_eq!(read.len(), 4);
    assert!(read[0].is_dir);
    assert_eq!((read[0].data_offset, read[0].data_len, read[0].orig_len, read[0].crc32), (0, 0, 0, 0));
    assert_eq!(read[1].path, "docs/readme.txt");
    assert_eq!(read[1].data_offset, 0);
    assert_eq!(read[2].data_offset, read[1].data_len);
    assert_eq!(read[3].data_offset, read[1].data_len + read[2].data_len);
    assert_eq!(read[3].orig_len, big.len() as u64);
    assert_eq!(read[3].crc32, crc32(&big));
    for (i, it) in items.iter().enumerate() {
        if !it.is_dir {
            assert_eq!(unpack_entry(&bytes, start, &read[i]), Some(Ok(it.data.clone())));
        }
    }
    let total: u64 = read.iter().map(|e| e.data_len).sum();
    assert_eq!(bytes.len() as u64, start + total);
}

#[test]
fn unpack_errors() {
    let items = vec![item("f", false, b"some file contents, some file contents")];
    let (bytes, entries) = build_archive(&items, &Config::default()).unwrap();
    let (_, start) = parse_index(&bytes).unwrap();
    let mut wrong_crc = entries[0].clone();
    wrong_crc.crc32 ^= 1;
    assert_eq!(
        unpack_entry(&bytes, start, &wrong_crc),
        Some(Err(ArchiveError::CrcMismatch { expected: wrong_crc.crc32, got: entries[0].crc32 }))
    );
    let mut too_long = entries[0].clone();
    too_long.data_len += 1;
    assert_eq!(unpack_entry(&bytes, start, &too_long), Some(Err(ArchiveError::UnexpectedEof)));
    let mut short_blob = entries[0].clone();
    short_blob.data_len = 3;
    assert_eq!(
        unpack_entry(&bytes, start, &short_blob),
        Some(Err(ArchiveError::Blob(BlobError::HeaderTruncated)))
    );
    let mut far = entries[0].clone();
    far.data_offset = u64::MAX;
    assert_eq!(unpack_entry(&bytes, start, &far), None);
}

#[test]
fn stats_count_and_add_up() {
    let items = vec![
        item("d", true, b""),
        item("d/a", false, b"aaaaaaaaaaaaaaaaaaaaaaaaaaaaaaaaaaaaaa"),
        item("d/b", false, b"xyz"),
    ];
    let (_, entries) = build_archive(&items, &Config::default()).unwrap();
    let s = archive_stats(&entries).unwrap();
    assert_eq!((s.n_files, s.n_dirs), (2, 1));
    assert_eq!(s.total_orig, (items[1].data.len() + items[2].data.len()) as u64);
    assert_eq!(s.total_comp, entries[1].data_len + entries[2].data_len);
    let mut huge = entries.clone();
    huge[1].orig_len = u64::MAX;
    assert_eq!(archive_stats(&huge), None);
}

#[test]
fn unsafe_paths_are_refused() {
    assert_eq!(sanitize("a/b.txt", false), Some("a/b.txt".to_string()));
    assert_eq!(sanitize("a/..b/c", false), Some("a/..b/c".to_string()));
    assert_eq!(sanitize("./x", false), Some("./x".to_string()));
    assert_eq!(sanitize("../x", false), None);
    assert_eq!(sanitize("a/../b", false), None);
    assert_eq!(sanitize("a/..", false), None);
    assert_eq!(sanitize("..", false), None);
    assert_eq!(sanitize("/etc/passwd", false), None);
}

#[test]
fn sanitize_windows_paths() {
    assert_eq!(sanitize("a\\b.txt", true), Some("a\\b.txt".to_string()));
    assert_eq!(sanitize("..\\x", true), None);
    assert_eq!(sanitize("a\\..\\b", true), None);
    assert_eq!(sanitize("\\x", true), None);
    assert_eq!(sanitize("C:\\x", true), None);
    assert_eq!(sanitize("C:/x", true), None);
    assert_eq!(sanitize("C:..", true), None);
    assert_eq!(sanitize("C:x", true), Some("C:x".to_string()));
    assert_eq!(sanitize("..\\x", false), Some("..\\x".to_string()));
    assert_eq!(sanitize("C:\\x", false), Some("C:\\x".to_string()));
}

#[test]
fn blobs_unpack_and_check_on_their_own() {
    let items = vec![item("a.txt", false, b"some text, some text"), item("b.txt", false, b"xyz")];
    let (bytes, entries) = build_archive(&items, &Config::default()).unwrap();
    let (_, start) = parse_index(&bytes).unwrap();
    let mut checks = Vec::new();
    for e in &entries {
        let off = (start + e.data_offset) as usize;
        let blob = &bytes[off..off + e.data_len as usize];
        assert_eq!(unpack_blob(blob, e), unpack_entry(&bytes, start, e));
        checks.push(check_blob(blob, e));
    }
    assert_eq!(checks, vec![EntryCheck::Intact, EntryCheck::Intact]);
    assert_eq!(count_failures(&checks), 0);

    let mut wrong = entries[1].clone();
    wrong.crc32 ^= 1;
    let off = (start + wrong.data_offset) as usize;
    let blob = &bytes[off..off + wrong.data_len as usize];
    let got = crc32(b"xyz");
    let c = check_blob(blob, &wrong);
    assert_eq!(c, EntryCheck::Damaged(ArchiveError::CrcMismatch { expected: got ^ 1, got }));
    checks.push(c);
    checks.push(EntryCheck::Undecodable);
    assert_eq!(count_failures(&checks), 2);
}
