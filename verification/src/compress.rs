//! The compressed blob: a 15-byte header, then either the raw bytes or the
//! LZSS token stream coded with Huffman.
//!
//! ```text
//! [0..8]   orig_len   u64 LE
//! [8..12]  lzss_len   u32 LE   (0 when stored)
//! [12]     method     u8       0 = store, 1 = LZSS only, 2 = LZSS + Huffman
//! [13..15] cb_len     u16 LE   (0 unless method 2)
//! [15..]   payload: the code book, then the code words (method 2)
//! ```
use vstd::prelude::*;
use crate::huffman::{self, HuffmanError, u16_le, u64_le};
use crate::lzss::{self, LzssError};

verus! {

/// The data is stored as is.
pub const METHOD_STORE: u8 = 0;

/// The payload is an LZSS token stream.
pub const METHOD_LZSS: u8 = 1;

/// The payload is an LZSS token stream coded with Huffman.
pub const METHOD_LZSS_HUF: u8 = 2;

/// Length of the blob header.
pub const HEADER_LEN: usize = 15;

/// Longest input `compress` takes: twice this, plus one, stays below `F(66)`,
/// so no Huffman code word of the token stream reaches 64 bits.
pub const MAX_INPUT_LEN: u64 = 13_888_945_017_643;

/// Compression settings.
#[derive(Debug, Clone, Copy, PartialEq, Eq)]
pub struct Config {
    /// Compression level, 1 to 9.
    pub level: u8,
    /// The blob is stored raw when `(15 + compressed size) / input size`
    /// exceeds `store_num / store_den`.
    pub store_num: u64,
    /// See `store_num`.
    pub store_den: u64,
}

impl Default for Config {
    fn default() -> (r: Self)
        ensures
            r.level == 6,
            r.store_num == 95,
            r.store_den == 100,
    {
        Config { level: 6, store_num: 95, store_den: 100 }
    }
}

impl Config {
    /// Level `level` brought into `1..=9`, with the default store threshold (95%).
    pub fn new(level: u8) -> (r: Self)
        ensures
            r.level == lzss::clamp_level(level),
            r.store_num == 95,
            r.store_den == 100,
    {
        let level = if level < 1 {
            1
        } else if level > 9 {
            9
        } else {
            level
        };
        Config { level, store_num: 95, store_den: 100 }
    }
}

/// The four bytes of `x`, least significant first.
pub open spec fn u32_le(x: u32) -> Seq<u8> {
    seq![
        (x % 0x100) as u8,
        ((x / 0x100) % 0x100) as u8,
        ((x / 0x10000) % 0x100) as u8,
        ((x / 0x1000000) % 0x100) as u8,
    ]
}

/// The header of a blob.
pub open spec fn header(orig_len: u64, lzss_len: u32, method: u8, cb_len: u16) -> Seq<u8> {
    u64_le(orig_len) + u32_le(lzss_len) + seq![method] + u16_le(cb_len as nat)
}

fn write_header(orig_len: u64, lzss_len: u32, method: u8, cb_len: u16) -> (h: Vec<u8>)
    ensures
        h@ == header(orig_len, lzss_len, method, cb_len),
{
    let mut h: Vec<u8> = Vec::new();
    h.push((orig_len & 0xff) as u8);
    h.push(((orig_len >> 8) & 0xff) as u8);
    h.push(((orig_len >> 16) & 0xff) as u8);
    h.push(((orig_len >> 24) & 0xff) as u8);
    h.push(((orig_len >> 32) & 0xff) as u8);
    h.push(((orig_len >> 40) & 0xff) as u8);
    h.push(((orig_len >> 48) & 0xff) as u8);
    h.push(((orig_len >> 56) & 0xff) as u8);
    h.push((lzss_len % 0x100) as u8);
    h.push(((lzss_len / 0x100) % 0x100) as u8);
    h.push(((lzss_len / 0x10000) % 0x100) as u8);
    h.push(((lzss_len / 0x1000000) % 0x100) as u8);
    h.push(method);
    h.push((cb_len % 0x100) as u8);
    h.push(((cb_len / 0x100) % 0x100) as u8);
    assert(h@ =~= header(orig_len, lzss_len, method, cb_len));
    h
}

fn append(out: &mut Vec<u8>, s: &[u8])
    ensures
        final(out)@ == old(out)@ + s@,
{
    let ghost start = out@;
    let mut k: usize = 0;
    while k < s.len()
        invariant
            k <= s@.len(),
            out@ == start + s@.take(k as int),
        decreases s@.len() - k,
    {
        out.push(s[k]);
        k += 1;
        assert(out@ =~= start + s@.take(k as int));
    }
    assert(s@.take(s@.len() as int) =~= s@);
}

/// Whether a blob whose Huffman stream `huf_len` long codes `data_len`
/// bytes is stored raw instead.
pub open spec fn stores_raw(config: Config, huf_len: nat, data_len: nat) -> bool {
    (15 + huf_len) * config.store_den > config.store_num * data_len
}

/// The blob `compress` writes for `data` once LZSS has produced `stream`.
pub open spec fn blob_of(data: Seq<u8>, config: Config, stream: Seq<u8>) -> Seq<u8> {
    if data.len() == 0 {
        header(0, 0, METHOD_STORE, 0)
    } else {
        let huf = huffman::compress_spec(stream);
        if stores_raw(config, huf.len(), data.len()) {
            header(data.len() as u64, 0, METHOD_STORE, 0) + data
        } else {
            header(
                data.len() as u64,
                stream.len() as u32,
                METHOD_LZSS_HUF,
                (huf[0] as nat + huf[1] as nat * 0x100) as u16,
            ) + huf.skip(2)
        }
    }
}

proof fn lemma_stream_len(ts: Seq<lzss::Token>)
    requires
        lzss::tokens_ok_from(Seq::empty(), ts),
    ensures
        lzss::pack(ts).len() <= 2 * lzss::expand(ts).len(),
{
    lzss::lemma_pack_len(ts, Seq::empty());
}

/// The LZSS token stream that `compress` makes of `data` at `level`.
pub open spec fn lzss_stream(data: Seq<u8>, level: u8) -> Seq<u8> {
    lzss::pack(lzss::encode_tokens(data, lzss::config_for(level)))
}

/// Whether every byte of the token stream of `data` at `level` gets a
/// Huffman code word shorter than 64 bits, as the Huffman coder needs.
pub open spec fn stream_codes_fit(data: Seq<u8>, level: u8) -> bool {
    let s = lzss_stream(data, level);
    huffman::codes_shorter_than_64(s, huffman::huffman_table(huffman::freqs_of(s)))
}

/// A token stream shorter than 2^32 bytes gets no code word of 64 bits.
pub proof fn lemma_short_stream_fits(data: Seq<u8>, level: u8)
    requires
        lzss_stream(data, level).len() < 0x1_0000_0000,
    ensures
        stream_codes_fit(data, level),
{
    huffman::lemma_short_data_codes(lzss_stream(data, level));
}

/// Compresses `data`: LZSS at `config.level`, then Huffman on the token
/// stream; stored raw when that does not shrink it below the threshold.
/// It needs the code words of the token stream to stay below 64 bits,
/// which holds of every input of at most `MAX_INPUT_LEN` bytes.
pub fn compress(data: &[u8], config: &Config) -> (out: Vec<u8>)
    requires
        data@.len() <= MAX_INPUT_LEN || stream_codes_fit(data@, config.level),
    ensures
        out@ == blob_of(data@, *config, lzss_stream(data@, config.level)),
{
    let orig_len = data.len() as u64;
    if data.len() == 0 {
        let out = write_header(0, 0, METHOD_STORE, 0);
        return out;
    }
    let lzss_cfg = lzss::LzssConfig::for_level(config.level);
    let token_stream = lzss::encode(data, &lzss_cfg);
    let ghost ts = lzss::encode_tokens(data@, lzss_cfg);
    proof {
        assert(token_stream@ == lzss_stream(data@, config.level));
        if data@.len() <= MAX_INPUT_LEN {
            lemma_stream_len(ts);
            assert(token_stream@.len() < 27777890035288);
            huffman::lemma_short_data_codes(token_stream@);
        }
    }
    let lzss_len = token_stream.len() as u32;
    let huf = huffman::compress(&token_stream);
    proof {
        huffman::lemma_compress_len(token_stream@);
    }
    let a = huf.len() as u128 + 15;
    let num = config.store_num as u128;
    let den = config.store_den as u128;
    let len = data.len() as u128;
    assert(num * len <= 0xFFFF_FFFF_FFFF_FFFF * 0xFFFF_FFFF_FFFF_FFFF) by (nonlinear_arith)
        requires
            num <= 0xFFFF_FFFF_FFFF_FFFF,
            len <= 0xFFFF_FFFF_FFFF_FFFF,
    ;
    let rhs = num * len;
    let store = match a.checked_mul(den) {
        Some(lhs) => lhs > rhs,
        None => true,
    };
    if store {
        let mut out = write_header(orig_len, 0, METHOD_STORE, 0);
        append(&mut out, data);
        return out;
    }
    let cb_len = huf[0] as u16 + huf[1] as u16 * 0x100;
    let mut out = write_header(orig_len, lzss_len, METHOD_LZSS_HUF, cb_len);
    let rest = vstd::slice::slice_subrange(huf.as_slice(), 2, huf.len());
    append(&mut out, rest);
    out
}

/// Why a blob was refused.
#[derive(Debug, Clone, Copy, PartialEq, Eq)]
pub enum BlobError {
    /// Shorter than the 15-byte header.
    HeaderTruncated,
    /// The method byte is none of the three methods.
    UnknownMethod(u8),
    /// The Huffman stream was refused.
    Huffman(HuffmanError),
    /// The token stream was refused.
    Lzss(LzssError),
}

/// The `u64` whose bytes, least significant first, are `b[0..8]`.
pub open spec fn le_u64_at(b: Seq<u8>, off: int) -> u64 {
    huffman::le_u64(b.subrange(off, off + 8))
}

/// What `decompress` gives for `data`; `None` where a stored blob declares
/// more bytes than it holds, or the Huffman code book makes a trie that
/// cannot be built or walked.
pub open spec fn decompress_spec(data: Seq<u8>) -> Option<Result<Seq<u8>, BlobError>> {
    if data.len() < 15 {
        Some(Err(BlobError::HeaderTruncated))
    } else {
        let orig_len = le_u64_at(data, 0) as usize;
        let lzss_len = (data[8] as nat + data[9] as nat * 0x100 + data[10] as nat * 0x10000
            + data[11] as nat * 0x1000000) as usize;
        let method = data[12];
        let cb_len = data[13] as nat + data[14] as nat * 0x100;
        let payload = data.skip(15);
        if method == METHOD_STORE {
            if orig_len > payload.len() {
                None
            } else {
                Some(Ok(payload.take(orig_len as int)))
            }
        } else if method == METHOD_LZSS_HUF {
            match huffman::decompress_spec(u16_le(cb_len) + payload, lzss_len as nat) {
                None => None,
                Some(Err(e)) => Some(Err(BlobError::Huffman(e))),
                Some(Ok(stream)) => match lzss::decode_spec(stream, orig_len as nat) {
                    Ok(v) => Some(Ok(v)),
                    Err(e) => Some(Err(BlobError::Lzss(e))),
                },
            }
        } else if method == METHOD_LZSS {
            match lzss::decode_spec(payload, orig_len as nat) {
                Ok(v) => Some(Ok(v)),
                Err(e) => Some(Err(BlobError::Lzss(e))),
            }
        } else {
            Some(Err(BlobError::UnknownMethod(method)))
        }
    }
}

fn read_u64_at(data: &[u8], off: usize) -> (r: u64)
    requires
        off + 8 <= data@.len(),
    ensures
        r == le_u64_at(data@, off as int),
{
    let ghost b = data@.subrange(off as int, off + 8);
    assert(b[0] == data[off as int] && b[7] == data@[off + 7]);
    (data[off] as u64) | ((data[off + 1] as u64) << 8) | ((data[off + 2] as u64) << 16) | ((data[off
        + 3] as u64) << 24) | ((data[off + 4] as u64) << 32) | ((data[off + 5] as u64) << 40) | ((
    data[off + 6] as u64) << 48) | ((data[off + 7] as u64) << 56)
}

/// Decompresses a blob, or `None` where it has no defined result (see
/// `decompress_spec`).
pub fn try_decompress(data: &[u8]) -> (r: Option<Result<Vec<u8>, BlobError>>)
    ensures
        match r {
            None => decompress_spec(data@) is None,
            Some(Ok(v)) => decompress_spec(data@) == Some(Ok::<Seq<u8>, BlobError>(v@)),
            Some(Err(e)) => decompress_spec(data@) == Some(Err::<Seq<u8>, BlobError>(e)),
        },
{
    if data.len() < 15 {
        return Some(Err(BlobError::HeaderTruncated));
    }
    let orig_len = read_u64_at(data, 0) as usize;
    let lzss_len = (data[8] as u32 + data[9] as u32 * 0x100 + data[10] as u32 * 0x10000
        + data[11] as u32 * 0x1000000) as usize;
    let method = data[12];
    let cb_len = data[13] as usize + data[14] as usize * 0x100;
    let payload = vstd::slice::slice_subrange(data, 15, data.len());
    assert(payload@ == data@.skip(15));
    if method == METHOD_STORE {
        if orig_len > payload.len() {
            return None;
        }
        let head = vstd::slice::slice_subrange(payload, 0, orig_len);
        let mut out: Vec<u8> = Vec::new();
        append(&mut out, head);
        assert(out@ =~= payload@.take(orig_len as int));
        Some(Ok(out))
    } else if method == METHOD_LZSS_HUF {
        let mut huf_input: Vec<u8> = Vec::new();
        huf_input.push((cb_len % 0x100) as u8);
        huf_input.push(((cb_len / 0x100) % 0x100) as u8);
        append(&mut huf_input, payload);
        assert(huf_input@ =~= u16_le(cb_len as nat) + payload@);
        match huffman::try_decompress(huf_input.as_slice(), lzss_len) {
            None => None,
            Some(Err(e)) => Some(Err(BlobError::Huffman(e))),
            Some(Ok(stream)) => match lzss::decode(stream.as_slice(), orig_len) {
                Ok(v) => Some(Ok(v)),
                Err(e) => Some(Err(BlobError::Lzss(e))),
            },
        }
    } else if method == METHOD_LZSS {
        match lzss::decode(payload, orig_len) {
            Ok(v) => Some(Ok(v)),
            Err(e) => Some(Err(BlobError::Lzss(e))),
        }
    } else {
        Some(Err(BlobError::UnknownMethod(method)))
    }
}

/// Decompresses a blob.
pub fn decompress(data: &[u8]) -> (r: Result<Vec<u8>, BlobError>)
    requires
        decompress_spec(data@) is Some,
    ensures
        match r {
            Ok(v) => decompress_spec(data@) == Some(Ok::<Seq<u8>, BlobError>(v@)),
            Err(e) => decompress_spec(data@) == Some(Err::<Seq<u8>, BlobError>(e)),
        },
{
    try_decompress(data).unwrap()
}


proof fn lemma_header_fields(orig_len: u64, lzss_len: u32, method: u8, cb_len: u16, rest: Seq<u8>)
    ensures
        ({
            let b = header(orig_len, lzss_len, method, cb_len) + rest;
            &&& b.len() == 15 + rest.len()
            &&& le_u64_at(b, 0) == orig_len
            &&& b[8] as nat + b[9] as nat * 0x100 + b[10] as nat * 0x10000 + b[11] as nat
                * 0x1000000 == lzss_len
            &&& b[12] == method
            &&& b[13] as nat + b[14] as nat * 0x100 == cb_len
            &&& b.skip(15) == rest
        }),
{
    let b = header(orig_len, lzss_len, method, cb_len) + rest;
    assert(b.subrange(0, 8) =~= u64_le(orig_len));
    huffman::lemma_le_u64_roundtrip(orig_len);
    assert(b.skip(15) =~= rest);
}

proof fn lemma_window_fits(level: u8)
    ensures
        vstd::arithmetic::power2::pow2(lzss::config_for(level).window_bits as nat) <= 0x10000,
{
    vstd::arithmetic::power2::lemma2_to64();
}

proof fn lemma_offsets_fit(ts: Seq<lzss::Token>, w: nat)
    requires
        lzss::offsets_below(ts, w),
        w <= 0x10000,
    ensures
        lzss::offsets_below(ts, 0x10000),
{
    assert forall|i: int| 0 <= i < ts.len() implies (#[trigger] ts[i] matches lzss::Token::Match {
        offset,
        ..
    } ==> offset < 0x10000) by {
        assert(ts[i] matches lzss::Token::Match { offset, .. } ==> offset < w);
    }
}

proof fn lemma_stored_roundtrip(data: Seq<u8>)
    requires
        data.len() <= usize::MAX,
        data.len() <= u64::MAX,
    ensures
        decompress_spec(header(data.len() as u64, 0, METHOD_STORE, 0) + data) == Some(
            Ok::<Seq<u8>, BlobError>(data),
        ),
{
    let blob = header(data.len() as u64, 0, METHOD_STORE, 0) + data;
    lemma_header_fields(data.len() as u64, 0, METHOD_STORE, 0, data);
    assert(blob.skip(15).take(data.len() as int) =~= data);
}

proof fn lemma_coded_roundtrip(data: Seq<u8>, ts: Seq<lzss::Token>, stream: Seq<u8>)
    requires
        data.len() <= usize::MAX,
        data.len() <= u64::MAX,
        stream.len() < 0x1_0000_0000,
        lzss::encodes(ts, stream, data, 0x10000),
    ensures
        ({
            let huf = huffman::compress_spec(stream);
            decompress_spec(
                header(
                    data.len() as u64,
                    stream.len() as u32,
                    METHOD_LZSS_HUF,
                    (huf[0] as nat + huf[1] as nat * 0x100) as u16,
                ) + huf.skip(2),
            ) == Some(Ok::<Seq<u8>, BlobError>(data))
        }),
{
    let huf = huffman::compress_spec(stream);
    huffman::lemma_compress_len(stream);
    let cb = (huf[0] as nat + huf[1] as nat * 0x100) as u16;
    let rest = huf.skip(2);
    lemma_header_fields(data.len() as u64, stream.len() as u32, METHOD_LZSS_HUF, cb, rest);
    assert(huf[0] == huf.subrange(0, 2)[0] && huf[1] == huf.subrange(0, 2)[1]);
    assert(u16_le(cb as nat) + rest =~= huf);
    huffman::lemma_short_data_fits(stream);
    huffman::lemma_huffman_roundtrip(stream);
    lzss::lemma_decode_pack(ts);
}

/// A blob made of `data` with any token stream that carries it within the
/// window of `config.level` reads back, when the stream length fits its
/// four-byte field.
proof fn lemma_blob_roundtrip_from(
    data: Seq<u8>,
    config: Config,
    ts: Seq<lzss::Token>,
    stream: Seq<u8>,
)
    requires
        data.len() <= usize::MAX,
        stream.len() < 0x1_0000_0000,
        lzss::encodes(
            ts,
            stream,
            data,
            vstd::arithmetic::power2::pow2(lzss::config_for(config.level).window_bits as nat),
        ),
    ensures
        decompress_spec(blob_of(data, config, stream)) == Some(Ok::<Seq<u8>, BlobError>(data)),
{
    if data.len() == 0 {
        lemma_header_fields(0, 0, METHOD_STORE, 0, Seq::empty());
        let blob = header(0, 0, METHOD_STORE, 0) + Seq::<u8>::empty();
        assert(blob_of(data, config, stream) =~= blob);
        assert(blob.skip(15).take(0) =~= data);
    } else {
        let huf = huffman::compress_spec(stream);
        if stores_raw(config, huf.len(), data.len()) {
            lemma_stored_roundtrip(data);
        } else {
            lemma_window_fits(config.level);
            lemma_offsets_fit(
                ts,
                vstd::arithmetic::power2::pow2(lzss::config_for(config.level).window_bits as nat),
            );
            lemma_coded_roundtrip(data, ts, stream);
        }
    }
}

/// What `compress` writes, `decompress` reads back: for data whose token
/// stream is shorter than 2^32 bytes, the length its four-byte header field
/// can record (such data meets what `compress` requires).
pub proof fn lemma_blob_roundtrip(data: Seq<u8>, config: Config)
    requires
        data.len() <= usize::MAX,
        lzss_stream(data, config.level).len() < 0x1_0000_0000,
    ensures
        stream_codes_fit(data, config.level),
        decompress_spec(blob_of(data, config, lzss_stream(data, config.level))) == Some(
            Ok::<Seq<u8>, BlobError>(data),
        ),
{
    lemma_short_stream_fits(data, config.level);
    lzss::lemma_encode_tokens(data, lzss::config_for(config.level));
    lemma_blob_roundtrip_from(
        data,
        config,
        lzss::encode_tokens(data, lzss::config_for(config.level)),
        lzss_stream(data, config.level),
    );
}

} // verus!
