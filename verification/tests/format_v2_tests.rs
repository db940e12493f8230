use lib::format_v2::{
    build_codebook, compress_bytes, decompress_bytes, huffman_decode, huffman_encode,
    read_entry_header, rle_decode, rle_encode, try_decompress_bytes, try_huffman_decode,
    write_entry_header, Entry, EntryError, V2Error, ESCAPE,
};
use lib::format_v2::{
    archive_stats_v2, parse_index_v2, unpack_entry_v2, V2ArchiveError, VERSION_V2,
};
use lib::archive::MAGIC;

#[test]
fn rle_layout() {
    assert_eq!(rle_encode(b""), Vec::<u8>::new());
    assert_eq!(rle_encode(b"ab"), b"ab".to_vec());
    assert_eq!(rle_encode(b"aab"), b"aab".to_vec());
    assert_eq!(rle_encode(b"aaab"), vec![ESCAPE, 3, b'a', b'b']);
    assert_eq!(rle_encode(&[ESCAPE]), vec![ESCAPE, 1, ESCAPE]);
    assert_eq!(rle_encode(&[ESCAPE, ESCAPE, 7]), vec![ESCAPE, 2, ESCAPE, 7]);
}

#[test]
fn rle_runs_are_capped_at_255() {
    let data = vec![5u8; 300];
    assert_eq!(rle_encode(&data), vec![ESCAPE, 255, 5, ESCAPE, 45, 5]);
}

#[test]
fn rle_roundtrip() {
    let mut inputs: Vec<Vec<u8>> = vec![Vec::new(), vec![ESCAPE; 700], b"aabbbccccd".to_vec()];
    inputs.push((0..=255u8).collect());
    let mut mixed = Vec::new();
    for i in 0..1000u32 {
        let b = (i / 7 % 5) as u8 * 60;
        mixed.push(if i % 13 == 0 { ESCAPE } else { b });
    }
    inputs.push(mixed);
    for data in inputs.iter() {
        assert_eq!(rle_decode(&rle_encode(data), data.len()), data.clone());
    }
}

#[test]
fn rle_decode_drops_a_cut_run() {
    assert_eq!(rle_decode(&[b'x', ESCAPE, 4], 0), b"x".to_vec());
    assert_eq!(rle_decode(&[ESCAPE, 0, b'q', b'z'], 1), b"z".to_vec());
}

#[test]
fn codebook_holds_the_byte_values_that_occur() {
    let m = build_codebook(b"aaaabbc");
    assert_eq!(m.len(), 3);
    assert_eq!(m.get(&b'a'), Some(&(1, 1)));
    assert_eq!(m.get(&b'b'), Some(&(1, 2)));
    assert_eq!(m.get(&b'c'), Some(&(0, 2)));
    assert!(build_codebook(b"").is_empty());
    let single = build_codebook(b"kkk");
    assert_eq!(single.get(&b'k'), Some(&(0, 1)));
}

#[test]
fn huffman_encode_layout() {
    let (cb, enc) = huffman_encode(b"aaaabbc");
    assert_eq!(cb.len(), 32);
    assert_eq!(&cb[0..2], &[3, 0]);
    assert_eq!(&cb[2..12], &[b'a', 1, 1, 0, 0, 0, 0, 0, 0, 0]);
    assert_eq!(enc, vec![0xF5, 0x00]);
    assert_eq!(huffman_decode(&cb, &enc, 7), b"aaaabbc".to_vec());
}

#[test]
fn huffman_decode_takes_the_shortest_word() {
    let (cb, enc) = huffman_encode(b"abracadabra alakazam");
    assert_eq!(huffman_decode(&cb, &enc, 20), b"abracadabra alakazam".to_vec());
    assert_eq!(huffman_decode(&cb, &enc, 4), b"abra".to_vec());
}

#[test]
fn huffman_decode_with_no_words_decodes_nothing() {
    let cb = vec![0u8, 0];
    assert_eq!(huffman_decode(&cb, &[0xAB, 0xCD], 3), Vec::<u8>::new());
}

#[test]
fn pending_bits_that_never_match_have_no_result() {
    // The only word is "0"; a stream of one bits is never matched, and
    // the pending bits outgrow the 64-bit buffer.
    let mut cb = vec![1u8, 0, b'x', 1];
    cb.extend_from_slice(&[0u8; 8]);
    assert_eq!(try_huffman_decode(&cb, &[0xFF; 10], 5), None);
    assert_eq!(try_huffman_decode(&cb, &[0xFF; 7], 5), Some(Vec::new()));
}

#[test]
fn v2_blob_layout() {
    let out = compress_bytes(b"aaaab");
    // RLE gives ESCAPE 4 'a' 'b'.
    assert_eq!(&out[0..8], &5u64.to_le_bytes());
    assert_eq!(&out[8..16], &4u64.to_le_bytes());
    let cb_len = u32::from_le_bytes([out[16], out[17], out[18], out[19]]) as usize;
    assert_eq!(cb_len, 2 + 4 * 10);
    assert_eq!(decompress_bytes(&out), Ok(b"aaaab".to_vec()));
}

#[test]
fn v2_blob_roundtrip() {
    let mut text = Vec::new();
    for i in 0..400u32 {
        text.extend_from_slice(format!("{}{}", "-".repeat((i % 9) as usize), i).as_bytes());
    }
    for data in [Vec::new(), b"z".to_vec(), vec![ESCAPE; 1000], text].iter() {
        let out = compress_bytes(data);
        assert_eq!(decompress_bytes(&out), Ok(data.clone()));
    }
}

#[test]
fn v2_blob_errors() {
    assert_eq!(decompress_bytes(&[0u8; 19]), Err(V2Error::TooShort));
    let mut past_end = vec![0u8; 20];
    past_end[16] = 5;
    assert_eq!(try_decompress_bytes(&past_end), None);
}

#[test]
fn v2_entry_roundtrip() {
    let e = Entry {
        path: "dir/file.txt".to_string(),
        is_dir: false,
        mode: 0o644,
        mtime: 1234,
        data_offset: 99,
        data_len: 7,
    };
    let mut out = vec![1, 2, 3];
    write_entry_header(&e, &mut out);
    assert_eq!(out.len(), 3 + 4 + 12 + 29);
    assert_eq!(&out[3..7], &12u32.to_le_bytes());
    assert_eq!(read_entry_header(&out, 3), Ok((e, out.len())));
}

#[test]
fn v2_entry_errors() {
    assert_eq!(read_entry_header(&[0, 0], 0), Err(EntryError::UnexpectedEof));
    let mut bad = vec![2, 0, 0, 0, 0xC3, 0x28];
    bad.extend_from_slice(&[0u8; 29]);
    assert_eq!(read_entry_header(&bad, 0), Err(EntryError::PathNotUtf8));
    let mut cut = vec![0, 0, 0, 0];
    cut.extend_from_slice(&[0u8; 28]);
    assert_eq!(read_entry_header(&cut, 0), Err(EntryError::UnexpectedEof));
}

#[test]
fn without_words_up_to_thirty_one_bytes_are_taken_in() {
    let cb = vec![0u8, 0];
    assert_eq!(try_huffman_decode(&cb, &[0xAB; 20], 3), Some(Vec::new()));
    assert_eq!(try_huffman_decode(&cb, &[0xAB; 31], 3), Some(Vec::new()));
    assert_eq!(try_huffman_decode(&cb, &[0xAB; 32], 3), None);
}

fn v2_entry(path: &str, is_dir: bool, off: u64, len: u64) -> Entry {
    Entry { path: path.to_string(), is_dir, mode: 0o644, mtime: 7, data_offset: off, data_len: len }
}

/// A version-2 archive holding a directory and two files.
fn v2_archive() -> (Vec<u8>, Vec<Entry>, Vec<u8>) {
    let a = compress_bytes(b"hello hello hello");
    let b = compress_bytes(b"");
    let entries = vec![
        v2_entry("d", true, 0, 0),
        v2_entry("d/a.txt", false, 0, a.len() as u64),
        v2_entry("d/b.txt", false, a.len() as u64, b.len() as u64),
    ];
    let mut bytes = MAGIC.to_vec();
    bytes.push(VERSION_V2);
    bytes.extend_from_slice(&3u32.to_le_bytes());
    for e in &entries {
        write_entry_header(e, &mut bytes);
    }
    let mut payload = a.clone();
    payload.extend_from_slice(&b);
    bytes.extend_from_slice(&payload);
    (bytes, entries, payload)
}

#[test]
fn v2_index_reads_back() {
    let (bytes, entries, payload) = v2_archive();
    let (es, start) = parse_index_v2(&bytes).unwrap();
    assert_eq!(es, entries);
    assert_eq!(&bytes[start..], &payload[..]);
    assert_eq!(unpack_entry_v2(&payload, &es[1]), Some(Ok(b"hello hello hello".to_vec())));
    assert_eq!(unpack_entry_v2(&payload, &es[2]), Some(Ok(Vec::new())));
    let outside = v2_entry("x", false, payload.len() as u64, 1);
    assert_eq!(unpack_entry_v2(&payload, &outside), None);
}

#[test]
fn v2_index_errors() {
    let (bytes, _, _) = v2_archive();
    assert_eq!(parse_index_v2(&bytes[..5]), Err(V2ArchiveError::UnexpectedEof));
    let mut bad = bytes.clone();
    bad[0] = b'X';
    assert_eq!(parse_index_v2(&bad), Err(V2ArchiveError::NotAnArchive));
    let mut v3 = bytes.clone();
    v3[8] = 3;
    assert_eq!(parse_index_v2(&v3), Err(V2ArchiveError::UnsupportedVersion(3)));
    assert_eq!(parse_index_v2(&bytes[..20]), Err(V2ArchiveError::UnexpectedEof));
}

#[test]
fn v2_stats_count_and_add_up() {
    let (_, entries, payload) = v2_archive();
    let a_len = entries[1].data_len;
    let b_len = entries[2].data_len;
    let st = archive_stats_v2(&entries, &payload).unwrap();
    assert_eq!(st.n_files, 2);
    assert_eq!(st.n_dirs, 1);
    assert_eq!(st.total_orig, 17);
    assert_eq!(st.total_comp, a_len + b_len);
    let outside = vec![v2_entry("x", false, payload.len() as u64, 8)];
    assert_eq!(archive_stats_v2(&outside, &payload), None);
    let huge = vec![v2_entry("x", true, 0, u64::MAX), v2_entry("y", true, 0, 1)];
    assert_eq!(archive_stats_v2(&huge, &payload), None);
}

#[test]
fn huffman_encode_of_one_byte_value() {
    let (cb, enc) = huffman_encode(b"aaa");
    assert_eq!(cb, vec![1, 0, 97, 1, 0, 0, 0, 0, 0, 0, 0, 0]);
    assert_eq!(enc, vec![0x00]);
    let m = build_codebook(b"aaa");
    assert_eq!(m.len(), 1);
    assert_eq!(m.get(&97), Some(&(0, 1)));
    assert!(build_codebook(b"").is_empty());
}

#[test]
fn code_book_costs_no_more_than_a_fixed_code() {
    let data = b"abracadabra alakazam";
    let m = build_codebook(data);
    let mut counts = [0u64; 256];
    for &b in data.iter() {
        counts[b as usize] += 1;
    }
    let cost: u64 = m.iter().map(|(s, e)| counts[*s as usize] * e.1 as u64).sum();
    // Ten distinct byte values: a fixed 4-bit code meets the Kraft inequality.
    assert_eq!(m.len(), 10);
    assert!(cost <= 4 * data.len() as u64);
}
