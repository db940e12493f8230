use lib::compress::{
    compress, decompress, try_decompress, BlobError, Config, HEADER_LEN, METHOD_LZSS_HUF,
    METHOD_STORE,
};
use lib::huffman::HuffmanError;
use lib::lzss::LzssError;

#[test]
fn config_defaults() {
    let d = Config::default();
    assert_eq!((d.level, d.store_num, d.store_den), (6, 95, 100));
    assert_eq!(Config::new(0).level, 1);
    assert_eq!(Config::new(4).level, 4);
    assert_eq!(Config::new(12).level, 9);
    assert_eq!((Config::new(3).store_num, Config::new(3).store_den), (95, 100));
}

#[test]
fn empty_input_is_a_bare_header() {
    let out = compress(b"", &Config::default());
    assert_eq!(out, vec![0u8; HEADER_LEN]);
    assert_eq!(decompress(&out), Ok(Vec::new()));
}

#[test]
fn incompressible_input_is_stored() {
    let out = compress(b"abc", &Config::default());
    let mut expected = vec![3, 0, 0, 0, 0, 0, 0, 0, 0, 0, 0, 0, METHOD_STORE, 0, 0];
    expected.extend_from_slice(b"abc");
    assert_eq!(out, expected);
    assert_eq!(decompress(&out), Ok(b"abc".to_vec()));
}

#[test]
fn compressible_input_is_coded() {
    let data = vec![b'z'; 1000];
    let out = compress(&data, &Config::new(6));
    assert_eq!(out[12], METHOD_LZSS_HUF);
    assert_eq!(&out[0..8], &1000u64.to_le_bytes());
    assert!(out.len() < 100);
    assert_eq!(decompress(&out), Ok(data));
}

#[test]
fn roundtrip_at_every_level() {
    let mut text = Vec::new();
    for i in 0..3000u32 {
        text.extend_from_slice(format!("{} bottles of water on the wall; ", i % 99).as_bytes());
    }
    let mut noise = Vec::new();
    let mut x: u64 = 88172645463325252;
    for _ in 0..3000 {
        x ^= x << 13;
        x ^= x >> 7;
        x ^= x << 17;
        noise.push(x as u8);
    }
    for data in [text, noise, b"a".to_vec(), b"ab".to_vec()].iter() {
        for level in 1..=9u8 {
            let out = compress(data, &Config::new(level));
            assert_eq!(decompress(&out), Ok(data.clone()));
        }
    }
}

#[test]
fn a_higher_threshold_keeps_coding() {
    let cfg = Config { level: 6, store_num: 1000, store_den: 1 };
    let out = compress(b"abcd", &cfg);
    assert_eq!(out[12], METHOD_LZSS_HUF);
    assert_eq!(decompress(&out), Ok(b"abcd".to_vec()));
}

#[test]
fn blob_errors() {
    assert_eq!(decompress(&[0u8; 14]), Err(BlobError::HeaderTruncated));
    let mut unknown = vec![0u8; 15];
    unknown[12] = 7;
    assert_eq!(decompress(&unknown), Err(BlobError::UnknownMethod(7)));
    let mut short_cb = vec![0u8; 15];
    short_cb[12] = METHOD_LZSS_HUF;
    short_cb[13] = 10;
    assert_eq!(
        decompress(&short_cb),
        Err(BlobError::Huffman(HuffmanError::StreamCodebookTruncated))
    );
    let mut lzss_only = vec![5, 0, 0, 0, 0, 0, 0, 0, 0, 0, 0, 0, 1, 0, 0];
    lzss_only.extend_from_slice(&[0x00, b'a']);
    assert_eq!(
        decompress(&lzss_only),
        Err(BlobError::Lzss(LzssError::LengthMismatch { expected: 5, got: 1 }))
    );
    lzss_only[0] = 1;
    assert_eq!(decompress(&lzss_only), Ok(b"a".to_vec()));
}

#[test]
fn a_stored_blob_declaring_more_bytes_has_no_result() {
    let mut blob = vec![9, 0, 0, 0, 0, 0, 0, 0, 0, 0, 0, 0, METHOD_STORE, 0, 0];
    blob.extend_from_slice(b"abc");
    assert_eq!(try_decompress(&blob), None);
    blob[0] = 2;
    assert_eq!(try_decompress(&blob), Some(Ok(b"ab".to_vec())));
}
