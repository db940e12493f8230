use lib::lzss::{decode, encode, LzssConfig, LzssError};

fn level(l: u8) -> LzssConfig {
    LzssConfig::for_level(l)
}

#[test]
fn levels_follow_the_table() {
    let expected: [(u8, u8, u32, bool); 9] = [
        (1, 12, 4, false),
        (2, 13, 8, false),
        (3, 13, 16, false),
        (4, 14, 32, false),
        (5, 14, 64, false),
        (6, 15, 128, false),
        (7, 15, 192, true),
        (8, 15, 256, true),
        (9, 15, 512, true),
    ];
    for (l, bits, chain, lazy) in expected.iter() {
        let c = level(*l);
        assert_eq!(c.window_bits, *bits);
        assert_eq!(c.max_chain, *chain);
        assert_eq!(c.lazy, *lazy);
    }
}

#[test]
fn levels_outside_the_range_are_clamped() {
    let low = level(0);
    assert_eq!((low.window_bits, low.max_chain, low.lazy), (12, 4, false));
    let high = level(10);
    assert_eq!((high.window_bits, high.max_chain, high.lazy), (15, 512, true));
    let top = level(255);
    assert_eq!((top.window_bits, top.max_chain, top.lazy), (15, 512, true));
}

#[test]
fn window_size_is_two_to_the_window_bits() {
    assert_eq!(level(1).window_size(), 4096);
    assert_eq!(level(2).window_size(), 8192);
    assert_eq!(level(4).window_size(), 16384);
    assert_eq!(level(6).window_size(), 32768);
}

#[test]
fn short_input_is_all_literals() {
    assert_eq!(encode(b"", &level(6)), Vec::<u8>::new());
    assert_eq!(encode(b"ab", &level(6)), vec![0x00, b'a', b'b']);
    assert_eq!(encode(b"abc", &level(6)), vec![0x00, b'a', b'b', b'c']);
}

#[test]
fn nine_literals_take_two_groups() {
    let out = encode(b"abcdefghi", &level(6));
    assert_eq!(out, vec![0x00, b'a', b'b', b'c', b'd', b'e', b'f', b'g', b'h', 0x00, b'i']);
}

#[test]
fn a_run_becomes_a_match() {
    // Two literals, then a match one byte back, eight bytes long.
    let out = encode(b"aaaaaaaaaa", &level(6));
    assert_eq!(out, vec![0x20, b'a', b'a', 0x01, 0x00, 0x05]);
    assert_eq!(decode(&out, 10), Ok(b"aaaaaaaaaa".to_vec()));
}

#[test]
fn roundtrip_on_various_inputs() {
    let mut inputs: Vec<Vec<u8>> = Vec::new();
    inputs.push(Vec::new());
    inputs.push(b"x".to_vec());
    inputs.push(b"hello hello hello hello".to_vec());
    inputs.push((0..=255u8).collect());
    let mut text = Vec::new();
    for i in 0..2000u32 {
        text.extend_from_slice(format!("line {} of the text, ", i % 37).as_bytes());
    }
    inputs.push(text);
    let mut noise = Vec::new();
    let mut x: u32 = 12345;
    for _ in 0..5000 {
        x = x.wrapping_mul(1103515245).wrapping_add(12345);
        noise.push((x >> 16) as u8);
    }
    inputs.push(noise);
    for data in inputs.iter() {
        for l in 1..=9u8 {
            let enc = encode(data, &level(l));
            assert_eq!(decode(&enc, data.len()), Ok(data.clone()));
        }
    }
}

#[test]
fn long_runs_use_the_longest_match() {
    let data = vec![7u8; 1000];
    let enc = encode(&data, &level(9));
    assert!(enc.len() < 30);
    assert_eq!(decode(&enc, 1000), Ok(data));
}

#[test]
fn decode_refuses_a_cut_match() {
    assert_eq!(decode(&[0x80, 0x01, 0x00], 4), Err(LzssError::TruncatedMatch));
}

#[test]
fn decode_refuses_an_offset_before_the_start() {
    assert_eq!(
        decode(&[0x80, 0x01, 0x00, 0x00], 3),
        Err(LzssError::InvalidOffset { offset: 1, decoded: 0 })
    );
    assert_eq!(
        decode(&[0x40, b'a', 0x00, 0x00, 0x00], 4),
        Err(LzssError::InvalidOffset { offset: 0, decoded: 1 })
    );
}

#[test]
fn decode_refuses_a_wrong_length() {
    assert_eq!(
        decode(&[0x00, b'a', b'b'], 5),
        Err(LzssError::LengthMismatch { expected: 5, got: 2 })
    );
}

#[test]
fn decode_stops_at_the_expected_length() {
    assert_eq!(decode(&[0x00, b'a', b'b', b'c'], 2), Ok(b"ab".to_vec()));
    // An overlapping match copies bytes it has just written.
    assert_eq!(decode(&[0x40, b'x', 0x01, 0x00, 0x02], 6), Ok(b"xxxxxx".to_vec()));
}

#[test]
fn short_input_needs_no_window() {
    let wide = LzssConfig { window_bits: 200, max_chain: 1, lazy: false };
    assert_eq!(encode(b"", &wide), Vec::<u8>::new());
    assert_eq!(encode(b"ab", &wide), vec![0x00, b'a', b'b']);
}
