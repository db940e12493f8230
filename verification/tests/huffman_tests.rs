use lib::huffman::{
    build_encode_table, compress, count_freqs, decode, decompress, deserialize_table, encode,
    serialize_table, try_decompress, DecodeTree, HuffmanError,
};

#[test]
fn counts_every_byte_value() {
    let f = count_freqs(b"abracadabra");
    assert_eq!(f[b'a' as usize], 5);
    assert_eq!(f[b'b' as usize], 2);
    assert_eq!(f[b'r' as usize], 2);
    assert_eq!(f[b'c' as usize], 1);
    assert_eq!(f[b'd' as usize], 1);
    assert_eq!(f.iter().sum::<u64>(), 11);
    assert_eq!(count_freqs(b"")[0], 0);
}

#[test]
fn no_bytes_no_code_words() {
    let t = build_encode_table(&[0u64; 256]);
    assert!(t.iter().all(|e| *e == (0, 0)));
    assert_eq!(serialize_table(&t), vec![0, 0]);
}

#[test]
fn one_byte_value_gets_the_one_bit_word_zero() {
    let t = build_encode_table(&count_freqs(b"zzzz"));
    assert_eq!(t[b'z' as usize], (0, 1));
    assert_eq!(t.iter().filter(|e| e.1 > 0).count(), 1);
    assert_eq!(encode(b"zzzz", &t), vec![0x00]);
}

#[test]
fn the_lightest_trees_are_merged_first() {
    // a:4, b:2, c:1 -> c and b merge under a node, which merges with a.
    let t = build_encode_table(&count_freqs(b"aaaabbc"));
    assert_eq!(t[b'a' as usize], (1, 1));
    assert_eq!(t[b'b' as usize], (1, 2));
    assert_eq!(t[b'c' as usize], (0, 2));
    assert_eq!(encode(b"aaaabbc", &t), vec![0xF5, 0x00]);
}

#[test]
fn equal_weights_merge_the_first_ones_first() {
    let t = build_encode_table(&count_freqs(&[0u8, 97, 98, 99]));
    assert_eq!(t[0], (0, 2));
    assert_eq!(t[97], (1, 2));
    assert_eq!(t[98], (2, 2));
    assert_eq!(t[99], (3, 2));
    assert_eq!(encode(&[0u8, 97, 98, 99], &t), vec![0x1B]);
}

#[test]
fn code_book_layout() {
    let t = build_encode_table(&count_freqs(b"aaaabbc"));
    let cb = serialize_table(&t);
    let mut expected = vec![3, 0];
    expected.extend_from_slice(&[b'a', 1, 1, 0, 0, 0, 0, 0, 0, 0]);
    expected.extend_from_slice(&[b'b', 2, 1, 0, 0, 0, 0, 0, 0, 0]);
    expected.extend_from_slice(&[b'c', 2, 0, 0, 0, 0, 0, 0, 0, 0]);
    assert_eq!(cb, expected);
    let (back, used) = deserialize_table(&cb).unwrap();
    assert_eq!(used, 32);
    assert_eq!(back, t);
}

#[test]
fn code_book_errors() {
    assert_eq!(deserialize_table(&[1]), Err(HuffmanError::CodebookTruncated));
    assert_eq!(deserialize_table(&[1, 0, 5]), Err(HuffmanError::CodebookTruncated));
}

#[test]
fn a_code_book_entry_read_later_wins() {
    let mut cb = vec![2, 0];
    cb.extend_from_slice(&[7, 3, 5, 0, 0, 0, 0, 0, 0, 0]);
    cb.extend_from_slice(&[7, 2, 1, 0, 0, 0, 0, 0, 0, 0]);
    cb.extend_from_slice(&[0xAA, 0xBB]);
    let (t, used) = deserialize_table(&cb).unwrap();
    assert_eq!(used, 22);
    assert_eq!(t[7], (1, 2));
    assert_eq!(t.iter().filter(|e| e.1 > 0).count(), 1);
}

#[test]
fn decode_tree_and_decode() {
    let data = b"abracadabra";
    let t = build_encode_table(&count_freqs(data));
    let tree = DecodeTree::build(&t);
    assert!(!tree.is_empty());
    let enc = encode(data, &t);
    assert_eq!(decode(&enc, &tree, data.len()), data.to_vec());
    let empty = DecodeTree::build(&[(0u64, 0u8); 256]);
    assert!(empty.is_empty());
    assert_eq!(decode(&[0xFF], &empty, 3), Vec::<u8>::new());
}

#[test]
fn decode_stops_after_the_requested_symbols() {
    let t = build_encode_table(&count_freqs(b"aaaabbc"));
    let tree = DecodeTree::build(&t);
    assert_eq!(decode(&[0xF5, 0x00], &tree, 3), b"aaa".to_vec());
}

#[test]
fn a_one_bit_word_repeats_its_symbol() {
    let mut t = [(0u64, 0u8); 256];
    t[9] = (0, 1);
    let tree = DecodeTree::build(&t);
    assert_eq!(decode(&[0x00], &tree, 5), vec![9, 9, 9, 9, 9]);
}

#[test]
fn compressed_stream_layout() {
    let out = compress(b"aaaabbc");
    assert_eq!(out.len(), 36);
    assert_eq!(&out[0..2], &[32, 0]);
    assert_eq!(&out[34..36], &[0xF5, 0x00]);
    assert_eq!(decompress(&out, 7), Ok(b"aaaabbc".to_vec()));
}

#[test]
fn compress_roundtrip() {
    let mut inputs: Vec<Vec<u8>> = vec![Vec::new(), b"q".to_vec(), b"abracadabra".to_vec()];
    inputs.push((0..=255u8).cycle().take(3000).collect());
    let mut skewed = Vec::new();
    for i in 0..4000u32 {
        skewed.push(if i % 17 == 0 { (i % 251) as u8 } else { b'e' });
    }
    inputs.push(skewed);
    for data in inputs.iter() {
        let out = compress(data);
        assert_eq!(decompress(&out, data.len()), Ok(data.clone()));
    }
}

#[test]
fn decompress_errors() {
    assert_eq!(decompress(&[5], 1), Err(HuffmanError::HeaderTruncated));
    assert_eq!(decompress(&[10, 0, 1, 2], 1), Err(HuffmanError::StreamCodebookTruncated));
    assert_eq!(decompress(&[1, 0, 4], 1), Err(HuffmanError::CodebookTruncated));
}

#[test]
fn a_code_book_that_walks_out_of_the_trie_has_no_result() {
    // Two symbols whose words are "0" and "00": the second runs into the
    // first one's leaf, and its symbol is taken as a node index.
    let mut cb = vec![2, 0];
    cb.extend_from_slice(&[200, 1, 0, 0, 0, 0, 0, 0, 0, 0]);
    cb.extend_from_slice(&[201, 2, 0, 0, 0, 0, 0, 0, 0, 0]);
    let mut stream = vec![cb.len() as u8, 0];
    stream.extend_from_slice(&cb);
    stream.push(0);
    assert_eq!(try_decompress(&stream, 1), None);
}

#[test]
fn three_symbols_get_the_expected_code() {
    let mut f = [0u64; 256];
    f[97] = 1;
    f[98] = 1;
    f[99] = 2;
    let t = build_encode_table(&f);
    assert_eq!(t[99], (0, 1));
    assert_eq!(t[97], (2, 2));
    assert_eq!(t[98], (3, 2));
    for s in 0..256 {
        if s != 97 && s != 98 && s != 99 {
            assert_eq!(t[s], (0, 0));
        }
    }
}

#[test]
fn compressing_aaa() {
    assert_eq!(compress(b"aaa"), vec![12, 0, 1, 0, 97, 1, 0, 0, 0, 0, 0, 0, 0, 0, 0x00]);
    assert_eq!(compress(b""), vec![2, 0, 0, 0]);
}

#[test]
fn an_empty_table_builds_an_empty_trie() {
    let empty = [(0u64, 0u8); 256];
    assert!(DecodeTree::build(&empty).is_empty());
    let mut one = [(0u64, 0u8); 256];
    one[5] = (0, 1);
    assert!(!DecodeTree::build(&one).is_empty());
}

#[test]
fn codes_of_a_full_tree_fill_the_kraft_sum() {
    let f = count_freqs(b"abracadabra alakazam");
    let t = build_encode_table(&f);
    let mut sum: u64 = 0;
    for s in 0..256 {
        let (_, bits) = t[s];
        assert_eq!(bits > 0, f[s] > 0);
        if bits > 0 {
            sum += 1u64 << (57 - bits as u32);
        }
    }
    assert_eq!(sum, 1u64 << 57);
}

#[test]
fn huffman_code_costs_no_more_than_other_codes() {
    let f = count_freqs(b"abracadabra");
    let t = build_encode_table(&f);
    let cost: u64 = (0..256).map(|s| f[s] * t[s].1 as u64).sum();
    assert_eq!(cost, 23);
    // A fixed 3-bit code and the code 0, 100, 101, 110, 111 both meet the
    // Kraft inequality and cost at least as much.
    let fixed: u64 = (0..256).map(|s| f[s] * 3).sum();
    assert!(cost <= fixed);
    let other = 5 * 1 + 2 * 3 + 2 * 3 + 1 * 3 + 1 * 3;
    assert!(cost <= other);
}
