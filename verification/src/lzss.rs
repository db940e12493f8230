//! LZSS: a sliding-window dictionary coder.
//!
//! The token stream is made of groups of up to eight tokens. Each group starts
//! with one flag byte (bit 7 describes the first token, bit 0 the eighth): a
//! clear bit is a literal (one byte, copied as is), a set bit is a match of
//! three bytes `[offset_lo, offset_hi, length - MIN_MATCH]` that copies
//! `length` bytes starting `offset` bytes back in the output (the copy may
//! overlap the bytes it produces).
use vstd::prelude::*;
use vstd::arithmetic::power2::pow2;
use vstd::bits::{lemma_usize_pow2_no_overflow, lemma_usize_shl_is_mul};

verus! {

/// Shortest match that the encoder emits.
pub const MIN_MATCH: usize = 3;

/// Longest match that the encoder emits.
pub const MAX_MATCH: usize = 258;

// ─── The token model ────────────────────────────────────────────────────────

/// One token of the stream.
pub enum Token {
    /// A byte copied as is.
    Literal(u8),
    /// `len` bytes copied from `offset` bytes back in the output.
    Match { offset: usize, len: usize },
}

/// Appends `len` bytes to `out`, each the byte `offset` positions before it.
pub open spec fn copy_back(out: Seq<u8>, offset: nat, len: nat) -> Seq<u8>
    decreases len,
{
    if len == 0 {
        out
    } else {
        let o = copy_back(out, offset, (len - 1) as nat);
        o.push(o[o.len() - offset])
    }
}

/// The output after one token is applied to `out`.
pub open spec fn apply_token(out: Seq<u8>, t: Token) -> Seq<u8> {
    match t {
        Token::Literal(b) => out.push(b),
        Token::Match { offset, len } => copy_back(out, offset as nat, len as nat),
    }
}

/// The output after the tokens `ts` are applied, in order, to `out`.
pub open spec fn expand_from(out: Seq<u8>, ts: Seq<Token>) -> Seq<u8>
    decreases ts.len(),
{
    if ts.len() == 0 {
        out
    } else {
        expand_from(apply_token(out, ts[0]), ts.drop_first())
    }
}

/// The bytes that the tokens `ts` stand for.
pub open spec fn expand(ts: Seq<Token>) -> Seq<u8> {
    expand_from(Seq::empty(), ts)
}

/// A token that the stream can carry, applied to an output of `out_len` bytes.
pub open spec fn token_ok(t: Token, out_len: nat) -> bool {
    match t {
        Token::Literal(_) => true,
        Token::Match { offset, len } => 1 <= offset <= out_len && MIN_MATCH <= len <= MAX_MATCH,
    }
}

/// Every token of `ts`, applied in order to `out`, can be carried by the stream.
pub open spec fn tokens_ok_from(out: Seq<u8>, ts: Seq<Token>) -> bool
    decreases ts.len(),
{
    ts.len() == 0 || (token_ok(ts[0], out.len()) && tokens_ok_from(
        apply_token(out, ts[0]),
        ts.drop_first(),
    ))
}

/// Every match of `ts` reaches back fewer than `bound` bytes.
pub open spec fn offsets_below(ts: Seq<Token>, bound: nat) -> bool {
    forall|i: int| 0 <= i < ts.len() ==> (#[trigger] ts[i] matches Token::Match { offset, .. }
        ==> offset < bound)
}

/// The bytes of one token inside a group.
pub open spec fn token_bytes(t: Token) -> Seq<u8> {
    match t {
        Token::Literal(b) => seq![b],
        Token::Match { offset, len } => seq![
            (offset % 0x100) as u8,
            ((offset / 0x100) % 0x100) as u8,
            ((len - MIN_MATCH) % 0x100) as u8,
        ],
    }
}

/// The bytes of the tokens `ts`, one after the other.
pub open spec fn tokens_bytes(ts: Seq<Token>) -> Seq<u8>
    decreases ts.len(),
{
    if ts.len() == 0 {
        Seq::empty()
    } else {
        tokens_bytes(ts.drop_last()) + token_bytes(ts.last())
    }
}

/// The flag byte of a group: bit `7 - j` is set when token `j` is a match.
pub open spec fn flag_byte(ts: Seq<Token>) -> u8
    decreases ts.len(),
{
    if ts.len() == 0 {
        0
    } else {
        let f = flag_byte(ts.drop_last());
        match ts.last() {
            Token::Literal(_) => f,
            Token::Match { .. } => f | (1u8 << ((7 - (ts.len() - 1)) as u8)),
        }
    }
}

/// One group: its flag byte, then its tokens.
pub open spec fn group(ts: Seq<Token>) -> Seq<u8> {
    seq![flag_byte(ts)] + tokens_bytes(ts)
}

/// The stream that carries the tokens `ts`: groups of eight, the last one shorter.
pub open spec fn pack(ts: Seq<Token>) -> Seq<u8>
    decreases ts.len(),
{
    if ts.len() == 0 {
        Seq::empty()
    } else if ts.len() <= 8 {
        group(ts)
    } else {
        group(ts.take(8)) + pack(ts.skip(8))
    }
}


// ─── Facts about the token model ────────────────────────────────────────────

proof fn lemma_copy_back_len(out: Seq<u8>, offset: nat, len: nat)
    ensures
        copy_back(out, offset, len).len() == out.len() + len,
        copy_back(out, offset, len).subrange(0, out.len() as int) == out,
    decreases len,
{
    if len > 0 {
        lemma_copy_back_len(out, offset, (len - 1) as nat);
        let o = copy_back(out, offset, (len - 1) as nat);
        assert(o.push(o[o.len() - offset]).subrange(0, out.len() as int) =~= o.subrange(
            0,
            out.len() as int,
        ));
    }
}

proof fn lemma_expand_split(out: Seq<u8>, a: Seq<Token>, b: Seq<Token>)
    ensures
        expand_from(out, a + b) == expand_from(expand_from(out, a), b),
        tokens_ok_from(out, a + b) == (tokens_ok_from(out, a) && tokens_ok_from(
            expand_from(out, a),
            b,
        )),
    decreases a.len(),
{
    if a.len() == 0 {
        assert(a + b =~= b);
    } else {
        assert((a + b).drop_first() =~= a.drop_first() + b);
        assert((a + b)[0] == a[0]);
        lemma_expand_split(apply_token(out, a[0]), a.drop_first(), b);
    }
}

proof fn lemma_expand_push(out: Seq<u8>, ts: Seq<Token>, t: Token)
    ensures
        expand_from(out, ts.push(t)) == apply_token(expand_from(out, ts), t),
        tokens_ok_from(out, ts.push(t)) == (tokens_ok_from(out, ts) && token_ok(
            t,
            expand_from(out, ts).len(),
        )),
{
    lemma_expand_split(out, ts, seq![t]);
    assert(ts + seq![t] =~= ts.push(t));
    let e = expand_from(out, ts);
    assert(seq![t].drop_first() =~= Seq::<Token>::empty());
    assert(seq![t][0] == t);
    assert(tokens_ok_from(e, seq![t]) == (token_ok(t, e.len()) && tokens_ok_from(apply_token(e, t), Seq::<Token>::empty())));
    assert(expand_from(e, seq![t]) == expand_from(apply_token(e, t), Seq::<Token>::empty()));
}

proof fn lemma_expand_grows(out: Seq<u8>, ts: Seq<Token>)
    requires
        tokens_ok_from(out, ts),
    ensures
        expand_from(out, ts).len() >= out.len() + ts.len(),
        expand_from(out, ts).subrange(0, out.len() as int) == out,
    decreases ts.len(),
{
    if ts.len() > 0 {
        let o = apply_token(out, ts[0]);
        match ts[0] {
            Token::Literal(b) => {},
            Token::Match { offset, len } => {
                lemma_copy_back_len(out, offset as nat, len as nat);
            },
        }
        assert(o.subrange(0, out.len() as int) =~= out);
        lemma_expand_grows(o, ts.drop_first());
        let e = expand_from(o, ts.drop_first());
        assert(e.subrange(0, out.len() as int) =~= e.subrange(0, o.len() as int).subrange(
            0,
            out.len() as int,
        ));
    }
}

proof fn lemma_bit_is_0_or_1(f: u8, j: int)
    requires
        0 <= j < 8,
    ensures
        (f >> ((7 - j) as u8)) & 1 == 0 || (f >> ((7 - j) as u8)) & 1 == 1,
{
    let s = (7 - j) as u8;
    assert((f >> s) & 1 == 0 || (f >> s) & 1 == 1) by (bit_vector);
}

proof fn lemma_set_bit(f: u8, m: int, j: int)
    requires
        0 <= m < 8,
        0 <= j < 8,
    ensures
        ((f | (1u8 << ((7 - m) as u8))) >> ((7 - j) as u8)) & 1 == if j == m {
            1u8
        } else {
            (f >> ((7 - j) as u8)) & 1
        },
{
    let mm = (7 - m) as u8;
    let jj = (7 - j) as u8;
    assert(((f | (1u8 << mm)) >> jj) & 1 == if jj == mm {
        1u8
    } else {
        (f >> jj) & 1
    }) by (bit_vector)
        requires
            jj < 8,
            mm < 8,
    ;
}

spec fn flag_bit_ok(c: Seq<Token>, j: int) -> bool {
    ((flag_byte(c) >> ((7 - j) as u8)) & 1 == 1) == (j < c.len() && c[j] is Match) && ((flag_byte(
        c,
    ) >> ((7 - j) as u8)) & 1 == 0) == !(j < c.len() && c[j] is Match)
}

proof fn lemma_flag_bit(c: Seq<Token>, j: int)
    requires
        c.len() <= 8,
        0 <= j < 8,
    ensures
        flag_bit_ok(c, j),
    decreases c.len(),
{
    lemma_bit_is_0_or_1(flag_byte(c), j);
    if c.len() == 0 {
        let s = (7 - j) as u8;
        assert((0u8 >> s) & 1 == 0) by (bit_vector);
    } else {
        let d = c.drop_last();
        let m = c.len() - 1;
        lemma_flag_bit(d, j);
        let f = flag_byte(d);
        lemma_bit_is_0_or_1(f, j);
        if j < d.len() {
            assert(c[j] == d[j]);
        }
        assert(c.last() == c[m]);
        match c.last() {
            Token::Literal(_) => {
                assert(flag_byte(c) == f);
            },
            Token::Match { .. } => {
                assert(flag_byte(c) == f | (1u8 << ((7 - m) as u8)));
                lemma_set_bit(f, m, j);
            },
        }
    }
}

proof fn lemma_tokens_bytes_prefix(c: Seq<Token>, j: int)
    requires
        0 <= j <= c.len(),
    ensures
        tokens_bytes(c.take(j)).len() <= tokens_bytes(c).len(),
        tokens_bytes(c).subrange(0, tokens_bytes(c.take(j)).len() as int) == tokens_bytes(
            c.take(j),
        ),
    decreases c.len(),
{
    if j == c.len() {
        assert(c.take(j) =~= c);
    } else {
        let d = c.drop_last();
        assert(c.take(j) =~= d.take(j));
        lemma_tokens_bytes_prefix(d, j);
        let t = tokens_bytes(c);
        assert(t.subrange(0, tokens_bytes(d).len() as int) =~= tokens_bytes(d));
        assert(t.subrange(0, tokens_bytes(c.take(j)).len() as int) =~= tokens_bytes(d).subrange(
            0,
            tokens_bytes(c.take(j)).len() as int,
        ));
    }
}

proof fn lemma_offset_bytes(offset: usize, len: usize)
    requires
        offset < 0x10000,
        MIN_MATCH <= len <= MAX_MATCH,
    ensures
        ((offset % 0x100) as u8) as nat + (((offset / 0x100) % 0x100) as u8) as nat * 0x100
            == offset,
        (((len - MIN_MATCH) % 0x100) as u8) as nat + MIN_MATCH == len,
{
}

/// The decoder, run on a group of tokens `c` that lies at `base` in `data`,
/// goes from the state before token `j` to the state after the group.
proof fn lemma_run_group(data: Seq<u8>, n: nat, base: nat, c: Seq<Token>, j: nat, out0: Seq<u8>)
    requires
        1 <= c.len() <= 8,
        j <= c.len(),
        base + tokens_bytes(c).len() <= data.len(),
        data.subrange(base as int, (base + tokens_bytes(c).len()) as int) == tokens_bytes(c),
        tokens_ok_from(out0, c),
        offsets_below(c, 0x10000),
        expand_from(out0, c).len() <= n,
        c.len() == 8 || expand_from(out0, c).len() == n,
    ensures
        run(
            data,
            n,
            base + tokens_bytes(c.take(j as int)).len(),
            flag_byte(c),
            (8 - j) as nat,
            expand_from(out0, c.take(j as int)),
        ) == run(data, n, base + tokens_bytes(c).len(), 0, 0, expand_from(out0, c)),
    decreases c.len() - j,
{
    let end = base + tokens_bytes(c).len();
    let oc = expand_from(out0, c);
    if j == c.len() {
        assert(c.take(j as int) =~= c);
        if c.len() < 8 {
            assert(run(data, n, end, flag_byte(c), (8 - j) as nat, oc) == finish(oc, n));
            assert(run(data, n, end, 0, 0, oc) == finish(oc, n));
        }
    } else {
        let a = c.take(j as int);
        let b = c.skip(j as int);
        assert(c =~= a + b);
        lemma_expand_split(out0, a, b);
        let oj = expand_from(out0, a);
        lemma_expand_grows(oj, b);
        assert(b[0] == c[j as int]);
        assert(b.len() > 0);
        assert(token_ok(c[j as int], oj.len()));
        let t = c[j as int];
        assert(c.take(j + 1int) =~= a.push(t));
        lemma_expand_push(out0, a, t);
        lemma_tokens_bytes_prefix(c, j + 1int);
        assert(a.push(t).drop_last() =~= a);
        let tbj = tokens_bytes(a);
        let ij: int = (base + tbj.len()) as int;
        let tb1 = tokens_bytes(c.take(j + 1int));
        assert(tb1 == tbj + token_bytes(t));
        assert(oj.len() < n);
        // The bytes of token j lie at `ij`.
        assert forall|q: int| 0 <= q < token_bytes(t).len() implies data[ij + q] == token_bytes(
            t,
        )[q] by {
            assert(data.subrange(base as int, end as int)[tbj.len() + q] == tokens_bytes(c)[tbj.len()
                + q]);
            assert(tokens_bytes(c).subrange(0, tb1.len() as int)[tbj.len() + q] == tb1[tbj.len()
                + q]);
        }
        lemma_flag_bit(c, j as int);
        assert(ij < data.len());
        assert(data[ij] == token_bytes(t)[0]);
        match t {
            Token::Literal(byte) => {
                assert(data[ij] == byte);
                assert((flag_byte(c) >> ((7 - j) as u8)) & 1 == 0);
                assert(((8 - j) - 1) as u8 == (7 - j) as u8);
            },
            Token::Match { offset, len } => {
                assert(c[j as int] matches Token::Match { offset, .. });
                lemma_offset_bytes(offset, len);
                assert((flag_byte(c) >> ((7 - j) as u8)) & 1 == 1);
                assert(((8 - j) - 1) as u8 == (7 - j) as u8);
                assert(data[ij] == token_bytes(t)[0]);
                assert(data[ij + 1int] == token_bytes(t)[1]);
                assert(data[ij + 2int] == token_bytes(t)[2]);
            },
        }
        lemma_run_group(data, n, base, c, j + 1, out0);
    }
}

/// The decoder, run from position `i` where the stream `pack(ts)` starts,
/// produces exactly the bytes of the tokens.
proof fn lemma_run_pack(data: Seq<u8>, n: nat, i: nat, flags: u8, ts: Seq<Token>, out0: Seq<u8>)
    requires
        i + pack(ts).len() == data.len(),
        data.subrange(i as int, data.len() as int) == pack(ts),
        tokens_ok_from(out0, ts),
        offsets_below(ts, 0x10000),
        n == expand_from(out0, ts).len(),
    ensures
        run(data, n, i, flags, 0, out0) == Ok::<Seq<u8>, LzssError>(expand_from(out0, ts)),
    decreases ts.len(),
{
    if ts.len() > 0 {
        let c = if ts.len() <= 8 {
            ts
        } else {
            ts.take(8)
        };
        let rest = ts.skip(c.len() as int);
        assert(ts =~= c + rest);
        assert forall|q: int| 0 <= q < c.len() implies #[trigger] c[q] == ts[q] by {}
        assert forall|q: int| 0 <= q < rest.len() implies #[trigger] rest[q] == ts[q + c.len()] by {}
        assert(offsets_below(c, 0x10000));
        assert(offsets_below(rest, 0x10000)) by {
            assert forall|q: int| 0 <= q < rest.len() implies (#[trigger] rest[q] matches Token::Match { offset, .. } ==> offset < 0x10000) by {
                assert(rest[q] == ts[q + c.len()]);
            }
        }
        lemma_expand_split(out0, c, rest);
        lemma_expand_grows(out0, ts);
        let o1 = expand_from(out0, c);
        lemma_expand_grows(o1, rest);
        assert(pack(ts) == group(c) + pack(rest)) by {
            if ts.len() <= 8 {
                assert(rest.len() == 0);
                assert(group(c) + pack(rest) =~= group(c));
            }
        }
        let tb = tokens_bytes(c);
        let ii: int = i as int;
        assert(data[i as int] == pack(ts)[0]);
        assert(data[i as int] == flag_byte(c));
        assert(data.subrange(ii + 1, ii + 1 + tb.len()) =~= tb) by {
            assert forall|q: int| 0 <= q < tb.len() implies data.subrange(
                ii + 1,
                ii + 1 + tb.len(),
            )[q] == tb[q] by {
                assert(data.subrange(i as int, data.len() as int)[1 + q] == pack(ts)[1 + q]);
            }
        }
        assert(c.take(0) =~= Seq::<Token>::empty());
        assert(expand_from(out0, c.take(0)) == out0);
        lemma_run_group(data, n, i + 1, c, 0, out0);
        assert(data.subrange(ii + 1 + tb.len(), data.len() as int) =~= pack(rest)) by {
            assert forall|q: int| 0 <= q < pack(rest).len() implies data.subrange(
                ii + 1 + tb.len(),
                data.len() as int,
            )[q] == pack(rest)[q] by {
                assert(data.subrange(i as int, data.len() as int)[1 + tb.len() + q] == pack(ts)[1
                    + tb.len() + q]);
            }
        }
        lemma_run_pack(data, n, i + 1 + tb.len(), 0, rest, o1);
    } else {
        assert(expand_from(out0, ts) == out0);
    }
}

/// Decoding the stream that carries well-formed tokens gives back their bytes.
pub proof fn lemma_decode_pack(ts: Seq<Token>)
    requires
        tokens_ok_from(Seq::empty(), ts),
        offsets_below(ts, 0x10000),
    ensures
        decode_spec(pack(ts), expand(ts).len()) == Ok::<Seq<u8>, LzssError>(expand(ts)),
{
    let data = pack(ts);
    assert(data.subrange(0, data.len() as int) =~= data);
    lemma_run_pack(data, expand(ts).len(), 0, 0, ts, Seq::empty());
}


// ─── Configuration ──────────────────────────────────────────────────────────

/// How hard the encoder looks for matches.
#[derive(Debug, Clone, Copy, PartialEq, Eq)]
pub struct LzssConfig {
    /// log2 of the window: matches reach back fewer than `2^window_bits` bytes.
    pub window_bits: u8,
    /// How many earlier positions with the same hash are tried per match.
    pub max_chain: u32,
    /// Whether a match is put off by one byte when the next position matches longer.
    pub lazy: bool,
}

/// `level` brought into `1..=9`.
pub open spec fn clamp_level(level: u8) -> u8 {
    if level < 1 {
        1
    } else if level > 9 {
        9
    } else {
        level
    }
}

/// The configuration of each level.
pub open spec fn config_for(level: u8) -> LzssConfig {
    let l = clamp_level(level);
    if l == 1 {
        LzssConfig { window_bits: 12, max_chain: 4, lazy: false }
    } else if l == 2 {
        LzssConfig { window_bits: 13, max_chain: 8, lazy: false }
    } else if l == 3 {
        LzssConfig { window_bits: 13, max_chain: 16, lazy: false }
    } else if l == 4 {
        LzssConfig { window_bits: 14, max_chain: 32, lazy: false }
    } else if l == 5 {
        LzssConfig { window_bits: 14, max_chain: 64, lazy: false }
    } else if l == 6 {
        LzssConfig { window_bits: 15, max_chain: 128, lazy: false }
    } else if l == 7 {
        LzssConfig { window_bits: 15, max_chain: 192, lazy: true }
    } else if l == 8 {
        LzssConfig { window_bits: 15, max_chain: 256, lazy: true }
    } else {
        LzssConfig { window_bits: 15, max_chain: 512, lazy: true }
    }
}

impl LzssConfig {
    /// The configuration for a compression level; levels outside `1..=9` are
    /// brought to the nearest end.
    pub fn for_level(level: u8) -> (r: Self)
        ensures
            r == config_for(level),
    {
        let level = if level < 1 {
            1
        } else if level > 9 {
            9
        } else {
            level
        };
        match level {
            1 => Self { window_bits: 12, max_chain: 4, lazy: false },
            2 => Self { window_bits: 13, max_chain: 8, lazy: false },
            3 => Self { window_bits: 13, max_chain: 16, lazy: false },
            4 => Self { window_bits: 14, max_chain: 32, lazy: false },
            5 => Self { window_bits: 14, max_chain: 64, lazy: false },
            6 => Self { window_bits: 15, max_chain: 128, lazy: false },
            7 => Self { window_bits: 15, max_chain: 192, lazy: true },
            8 => Self { window_bits: 15, max_chain: 256, lazy: true },
            _ => Self { window_bits: 15, max_chain: 512, lazy: true },
        }
    }

    /// The window size, `2^window_bits` bytes.
    pub fn window_size(&self) -> (r: usize)
        requires
            self.window_bits < usize::BITS,
        ensures
            r == pow2(self.window_bits as nat),
    {
        proof {
            lemma_usize_pow2_no_overflow(self.window_bits as nat);
            lemma_usize_shl_is_mul(1, self.window_bits as usize);
        }
        1usize << (self.window_bits as usize)
    }
}

// ─── Hash chain ─────────────────────────────────────────────────────────────

/// The end of a hash chain.
pub const NIL: u32 = 0xFFFF_FFFF;

/// Number of hash values.
pub const HASH_SIZE: usize = 0x10000;

/// For each hash of three bytes, the last position with that hash, and for
/// each position (modulo the window) the position before it with the same hash.
struct HashChain {
    head: Vec<u32>,
    prev: Vec<u32>,
    window: usize,
}

/// `len` bytes at `pos` repeat the bytes `offset` positions earlier, within the window.
pub open spec fn is_match_at(data: Seq<u8>, pos: int, offset: int, len: int, window: int) -> bool {
    &&& 1 <= offset <= pos
    &&& offset < window
    &&& MIN_MATCH <= len <= MAX_MATCH
    &&& pos + len <= data.len()
    &&& forall|j: int| 0 <= j < len ==> #[trigger] data[pos - offset + j] == data[pos + j]
}

// ─── The encoder's choices ──────────────────────────────────────────────────

/// The hash of the three bytes at `pos`.
pub open spec fn hash3(data: Seq<u8>, pos: int) -> usize {
    ((data[pos] as usize) ^ ((data[pos + 1] as usize) << 5usize) ^ ((data[pos + 2] as usize)
        << 13usize)) & 0xFFFFusize
}

/// The hash chain (heads by hash, earlier positions by slot) once position
/// `pos` is entered: it becomes the head of its hash, and its slot keeps the
/// former head.
pub open spec fn chain_insert(
    head: Seq<u32>,
    prev: Seq<u32>,
    window: nat,
    data: Seq<u8>,
    pos: nat,
) -> (Seq<u32>, Seq<u32>) {
    let h = hash3(data, pos as int) as int;
    (head.update(h, pos as u32), prev.update((pos % window) as int, head[h]))
}

/// How many bytes at `a` and at `b` agree, counting on from `l`, at most `max`.
pub open spec fn common_len(data: Seq<u8>, a: nat, b: nat, max: nat, l: nat) -> nat
    decreases max - l,
{
    if l < max && data[(a + l) as int] == data[(b + l) as int] {
        common_len(data, a, b, max, l + 1)
    } else {
        l
    }
}

/// The longest match for position `pos` found along the hash chain from
/// `candidate`, as `(length, position)`: candidates at or after `pos`, or
/// not after `limit`, end the walk; at most `max_chain` candidates are
/// tried; a candidate is skipped at once when the byte just past the best
/// length differs; the walk ends at a match of `MAX_MATCH` bytes.
pub open spec fn walk_chain(
    prev: Seq<u32>,
    window: nat,
    data: Seq<u8>,
    pos: nat,
    limit: nat,
    max_chain: nat,
    candidate: u32,
    count: nat,
    best_len: nat,
    best_pos: nat,
) -> (nat, nat)
    decreases max_chain - count,
{
    if candidate == NIL || count >= max_chain {
        (best_len, best_pos)
    } else {
        let cpos = candidate as nat;
        if cpos >= pos || cpos <= limit {
            (best_len, best_pos)
        } else {
            let rem = (data.len() - pos) as nat;
            let max_len: nat = if rem < MAX_MATCH {
                rem
            } else {
                MAX_MATCH as nat
            };
            let next = prev[(cpos % window) as int];
            if max_len > best_len && cpos + best_len < data.len() && data[(cpos + best_len) as int]
                != data[(pos + best_len) as int] {
                walk_chain(prev, window, data, pos, limit, max_chain, next, count + 1, best_len, best_pos)
            } else {
                let len = common_len(data, cpos, pos, max_len, 0);
                if len > best_len {
                    if len == MAX_MATCH {
                        (len, cpos)
                    } else {
                        walk_chain(prev, window, data, pos, limit, max_chain, next, count + 1, len, cpos)
                    }
                } else {
                    walk_chain(
                        prev,
                        window,
                        data,
                        pos,
                        limit,
                        max_chain,
                        next,
                        count + 1,
                        best_len,
                        best_pos,
                    )
                }
            }
        }
    }
}

/// The match the hash chain finds for position `pos`, longer than
/// `prev_len` bytes, as `(offset, length)`; when none is longer, the
/// result still holds `prev_len` (with an offset of `pos`) if that is at
/// least `MIN_MATCH`.
pub open spec fn find_match_spec(
    head: Seq<u32>,
    prev: Seq<u32>,
    window: nat,
    data: Seq<u8>,
    pos: nat,
    max_chain: nat,
    prev_len: nat,
) -> Option<(nat, nat)> {
    if pos > data.len() || data.len() - pos < MIN_MATCH {
        None
    } else {
        let h = hash3(data, pos as int) as int;
        let limit: nat = if pos >= window {
            (pos - window) as nat
        } else {
            0
        };
        let r = walk_chain(prev, window, data, pos, limit, max_chain, head[h], 0, prev_len, 0);
        if r.0 >= MIN_MATCH {
            Some(((pos - r.1) as nat, r.0))
        } else {
            None
        }
    }
}

pub proof fn lemma_common_len(data: Seq<u8>, a: nat, b: nat, max: nat, l: nat)
    requires
        l <= max,
    ensures
        l <= common_len(data, a, b, max, l) <= max,
    decreases max - l,
{
    if l < max && data[(a + l) as int] == data[(b + l) as int] {
        lemma_common_len(data, a, b, max, l + 1);
    }
}

pub proof fn lemma_walk_chain(
    prev: Seq<u32>,
    window: nat,
    data: Seq<u8>,
    pos: nat,
    limit: nat,
    max_chain: nat,
    candidate: u32,
    count: nat,
    best_len: nat,
    best_pos: nat,
)
    requires
        pos <= data.len(),
        best_pos <= pos,
    ensures
        ({
            let r = walk_chain(
                prev,
                window,
                data,
                pos,
                limit,
                max_chain,
                candidate,
                count,
                best_len,
                best_pos,
            );
            &&& r.0 == best_len || (r.0 > best_len && r.0 <= data.len() - pos)
            &&& r.1 <= pos
            &&& r.0 == best_len ==> r.1 == best_pos
        }),
    decreases max_chain - count,
{
    if !(candidate == NIL || count >= max_chain) {
        let cpos = candidate as nat;
        if !(cpos >= pos || cpos <= limit) {
            let rem = (data.len() - pos) as nat;
            let max_len: nat = if rem < MAX_MATCH {
                rem
            } else {
                MAX_MATCH as nat
            };
            let next = prev[(cpos % window) as int];
            lemma_common_len(data, cpos, pos, max_len, 0);
            let len = common_len(data, cpos, pos, max_len, 0);
            lemma_walk_chain(prev, window, data, pos, limit, max_chain, next, count + 1, best_len, best_pos);
            lemma_walk_chain(prev, window, data, pos, limit, max_chain, next, count + 1, len, cpos);
        }
    }
}

/// The chain once the positions from `p` up to `end` are entered, each
/// that has three bytes left.
pub open spec fn insert_run(
    head: Seq<u32>,
    prev: Seq<u32>,
    window: nat,
    data: Seq<u8>,
    p: nat,
    end: nat,
) -> (Seq<u32>, Seq<u32>)
    decreases end - p,
{
    if p >= end {
        (head, prev)
    } else {
        let c = if data.len() - p >= MIN_MATCH {
            chain_insert(head, prev, window, data, p)
        } else {
            (head, prev)
        };
        insert_run(c.0, c.1, window, data, p + 1, end)
    }
}

pub proof fn lemma_find_match_len(
    head: Seq<u32>,
    prev: Seq<u32>,
    window: nat,
    data: Seq<u8>,
    pos: nat,
    max_chain: nat,
    prev_len: nat,
)
    ensures
        find_match_spec(head, prev, window, data, pos, max_chain, prev_len) matches Some((o, l))
            ==> l >= MIN_MATCH && (l == prev_len || (l > prev_len && pos + l <= data.len())),
{
    if !(pos > data.len() || data.len() - pos < MIN_MATCH) {
        let h = hash3(data, pos as int) as int;
        let limit: nat = if pos >= window {
            (pos - window) as nat
        } else {
            0
        };
        lemma_walk_chain(prev, window, data, pos, limit, max_chain, head[h], 0, prev_len, 0);
    }
}

/// The tokens the encoder writes from position `pos` on, given the hash
/// chain and the tokens `ts` written so far: at each position the match
/// the chain finds (tried again one byte later when matching lazily, and
/// put off behind a literal when that one is longer), else a literal.
pub open spec fn encode_from(
    data: Seq<u8>,
    window: nat,
    max_chain: nat,
    lazy: bool,
    pos: nat,
    head: Seq<u32>,
    prev: Seq<u32>,
    ts: Seq<Token>,
) -> Seq<Token>
    decreases data.len() - pos,
{
    if pos >= data.len() {
        ts
    } else {
        let can_hash = data.len() - pos >= MIN_MATCH;
        let m = if can_hash {
            find_match_spec(head, prev, window, data, pos, max_chain, (MIN_MATCH - 1) as nat)
        } else {
            None
        };
        let c1 = if can_hash {
            chain_insert(head, prev, window, data, pos)
        } else {
            (head, prev)
        };
        match m {
            None => encode_from(
                data,
                window,
                max_chain,
                lazy,
                pos + 1,
                c1.0,
                c1.1,
                ts.push(Token::Literal(data[pos as int])),
            ),
            Some((off, len)) => {
                proof {
                    lemma_find_match_len(
                        head,
                        prev,
                        window,
                        data,
                        pos,
                        max_chain,
                        (MIN_MATCH - 1) as nat,
                    );
                }
                if lazy && data.len() - pos >= 1 + MIN_MATCH {
                    let c2 = chain_insert(c1.0, c1.1, window, data, pos + 1);
                    let m2 = find_match_spec(c2.0, c2.1, window, data, pos + 1, max_chain, len);
                    proof {
                        lemma_find_match_len(c2.0, c2.1, window, data, pos + 1, max_chain, len);
                    }
                    let longer = match m2 {
                        Some((_, len2)) => len2 > len,
                        None => false,
                    };
                    if longer {
                        let (off2, len2) = m2->Some_0;
                        let c3 = insert_run(c2.0, c2.1, window, data, pos + 2, pos + 1 + len2);
                        encode_from(
                            data,
                            window,
                            max_chain,
                            lazy,
                            pos + 1 + len2,
                            c3.0,
                            c3.1,
                            ts.push(Token::Literal(data[pos as int])).push(
                                Token::Match { offset: off2 as usize, len: len2 as usize },
                            ),
                        )
                    } else {
                        let c3 = insert_run(c2.0, c2.1, window, data, pos + 1, pos + len);
                        encode_from(
                            data,
                            window,
                            max_chain,
                            lazy,
                            pos + len,
                            c3.0,
                            c3.1,
                            ts.push(Token::Match { offset: off as usize, len: len as usize }),
                        )
                    }
                } else {
                    let c3 = insert_run(c1.0, c1.1, window, data, pos + 1, pos + len);
                    encode_from(
                        data,
                        window,
                        max_chain,
                        lazy,
                        pos + len,
                        c3.0,
                        c3.1,
                        ts.push(Token::Match { offset: off as usize, len: len as usize }),
                    )
                }
            },
        }
    }
}

/// The tokens `encode` writes for `data` under `config`.
pub open spec fn encode_tokens(data: Seq<u8>, config: LzssConfig) -> Seq<Token> {
    if data.len() < MIN_MATCH {
        literals(data)
    } else {
        encode_from(
            data,
            pow2(config.window_bits as nat),
            config.max_chain as nat,
            config.lazy,
            0,
            Seq::new(HASH_SIZE as nat, |i: int| NIL),
            Seq::new(pow2(config.window_bits as nat), |i: int| NIL),
            Seq::empty(),
        )
    }
}

proof fn lemma_common_len_eq(data: Seq<u8>, a: nat, b: nat, max: nat, l: nat)
    requires
        l <= max,
        forall|j: int| 0 <= j < l ==> #[trigger] data[a + j] == data[b + j],
    ensures
        forall|j: int| 0 <= j < common_len(data, a, b, max, l) ==> #[trigger] data[a + j] == data[b
            + j],
    decreases max - l,
{
    if l < max && data[(a + l) as int] == data[(b + l) as int] {
        assert forall|j: int| 0 <= j < l + 1 implies #[trigger] data[a + j] == data[b + j] by {
            if j == l {
                assert(data[(a + l) as int] == data[(b + l) as int]);
            }
        }
        lemma_common_len_eq(data, a, b, max, l + 1);
    }
}

/// What the chain walk finds beyond `low` bytes is a match within the window.
proof fn lemma_walk_chain_match(
    prev: Seq<u32>,
    window: nat,
    data: Seq<u8>,
    pos: nat,
    limit: nat,
    max_chain: nat,
    candidate: u32,
    count: nat,
    best_len: nat,
    best_pos: nat,
    low: nat,
)
    requires
        pos <= data.len(),
        window > 0,
        limit == (if pos >= window {
            (pos - window) as nat
        } else {
            0nat
        }),
        MIN_MATCH - 1 <= low <= best_len,
        best_len > low ==> is_match_at(
            data,
            pos as int,
            pos - best_pos,
            best_len as int,
            window as int,
        ) && best_pos < pos,
    ensures
        ({
            let r = walk_chain(
                prev,
                window,
                data,
                pos,
                limit,
                max_chain,
                candidate,
                count,
                best_len,
                best_pos,
            );
            r.0 > low ==> is_match_at(data, pos as int, pos - r.1, r.0 as int, window as int) && r.1
                < pos
        }),
    decreases max_chain - count,
{
    if !(candidate == NIL || count >= max_chain) {
        let cpos = candidate as nat;
        if !(cpos >= pos || cpos <= limit) {
            let rem = (data.len() - pos) as nat;
            let max_len: nat = if rem < MAX_MATCH {
                rem
            } else {
                MAX_MATCH as nat
            };
            let next = prev[(cpos % window) as int];
            lemma_common_len(data, cpos, pos, max_len, 0);
            lemma_common_len_eq(data, cpos, pos, max_len, 0);
            let len = common_len(data, cpos, pos, max_len, 0);
            if len > best_len {
                assert(is_match_at(data, pos as int, pos - cpos, len as int, window as int)) by {
                    assert forall|j: int| 0 <= j < len implies #[trigger] data[pos - (pos - cpos) + j]
                        == data[pos + j] by {
                        assert(data[cpos + j] == data[pos + j]);
                    }
                }
            }
            lemma_walk_chain_match(
                prev,
                window,
                data,
                pos,
                limit,
                max_chain,
                next,
                count + 1,
                best_len,
                best_pos,
                low,
            );
            if len > best_len {
                lemma_walk_chain_match(
                    prev,
                    window,
                    data,
                    pos,
                    limit,
                    max_chain,
                    next,
                    count + 1,
                    len,
                    cpos,
                    low,
                );
            }
        }
    }
}

proof fn lemma_find_match_spec(
    head: Seq<u32>,
    prev: Seq<u32>,
    window: nat,
    data: Seq<u8>,
    pos: nat,
    max_chain: nat,
    prev_len: nat,
)
    requires
        window > 0,
        prev_len >= MIN_MATCH - 1,
    ensures
        find_match_spec(head, prev, window, data, pos, max_chain, prev_len) matches Some((o, l))
            ==> l > prev_len ==> is_match_at(data, pos as int, o as int, l as int, window as int),
{
    if !(pos > data.len() || data.len() - pos < MIN_MATCH) {
        let h = hash3(data, pos as int) as int;
        let limit: nat = if pos >= window {
            (pos - window) as nat
        } else {
            0
        };
        lemma_walk_chain_match(prev, window, data, pos, limit, max_chain, head[h], 0, prev_len, 0, prev_len);
        lemma_walk_chain(prev, window, data, pos, limit, max_chain, head[h], 0, prev_len, 0);
    }
}

/// The tokens of `encode_from` carry the data, each match within the window.
#[verifier::spinoff_prover]
#[verifier::rlimit(60)]
proof fn lemma_encode_from_valid(
    data: Seq<u8>,
    window: nat,
    max_chain: nat,
    lazy: bool,
    pos: nat,
    head: Seq<u32>,
    prev: Seq<u32>,
    ts: Seq<Token>,
)
    requires
        window > 0,
        data.len() <= usize::MAX,
        pos <= data.len(),
        expand(ts) == data.take(pos as int),
        tokens_ok_from(Seq::empty(), ts),
        offsets_below(ts, window),
    ensures
        ({
            let r = encode_from(data, window, max_chain, lazy, pos, head, prev, ts);
            &&& expand(r) == data
            &&& tokens_ok_from(Seq::empty(), r)
            &&& offsets_below(r, window)
        }),
    decreases data.len() - pos,
{
    if pos >= data.len() {
        assert(data.take(pos as int) =~= data);
    } else {
        let can_hash = data.len() - pos >= MIN_MATCH;
        let m = if can_hash {
            find_match_spec(head, prev, window, data, pos, max_chain, (MIN_MATCH - 1) as nat)
        } else {
            None
        };
        let c1 = if can_hash {
            chain_insert(head, prev, window, data, pos)
        } else {
            (head, prev)
        };
        let lit = Token::Literal(data[pos as int]);
        assert(data.take(pos as int).push(data[pos as int]) =~= data.take(pos + 1int));
        match m {
            None => {
                lemma_tokens_push(ts, lit, data, pos as int, pos + 1int, window);
                lemma_encode_from_valid(
                    data,
                    window,
                    max_chain,
                    lazy,
                    pos + 1,
                    c1.0,
                    c1.1,
                    ts.push(lit),
                );
            },
            Some((off, len)) => {
                lemma_find_match_len(head, prev, window, data, pos, max_chain, (MIN_MATCH - 1) as nat);
                lemma_find_match_spec(head, prev, window, data, pos, max_chain, (MIN_MATCH - 1) as nat);
                let t = Token::Match { offset: off as usize, len: len as usize };
                if lazy && data.len() - pos >= 1 + MIN_MATCH {
                    let c2 = chain_insert(c1.0, c1.1, window, data, pos + 1);
                    let m2 = find_match_spec(c2.0, c2.1, window, data, pos + 1, max_chain, len);
                    lemma_find_match_len(c2.0, c2.1, window, data, pos + 1, max_chain, len);
                    lemma_find_match_spec(c2.0, c2.1, window, data, pos + 1, max_chain, len);
                    let longer = match m2 {
                        Some((_, len2)) => len2 > len,
                        None => false,
                    };
                    if longer {
                        let (off2, len2) = m2->Some_0;
                        let t2 = Token::Match { offset: off2 as usize, len: len2 as usize };
                        let c3 = insert_run(c2.0, c2.1, window, data, pos + 2, pos + 1 + len2);
                        lemma_tokens_push(ts, lit, data, pos as int, pos + 1int, window);
                        lemma_copy_match(data, pos + 1int, off2 as int, len2 as int);
                        lemma_tokens_push(ts.push(lit), t2, data, pos + 1int, pos + 1int + len2, window);
                        lemma_encode_from_valid(
                            data,
                            window,
                            max_chain,
                            lazy,
                            pos + 1 + len2,
                            c3.0,
                            c3.1,
                            ts.push(lit).push(t2),
                        );
                    } else {
                        let c3 = insert_run(c2.0, c2.1, window, data, pos + 1, pos + len);
                        lemma_copy_match(data, pos as int, off as int, len as int);
                        lemma_tokens_push(ts, t, data, pos as int, pos + len as int, window);
                        lemma_encode_from_valid(
                            data,
                            window,
                            max_chain,
                            lazy,
                            pos + len,
                            c3.0,
                            c3.1,
                            ts.push(t),
                        );
                    }
                } else {
                    let c3 = insert_run(c1.0, c1.1, window, data, pos + 1, pos + len);
                    lemma_copy_match(data, pos as int, off as int, len as int);
                    lemma_tokens_push(ts, t, data, pos as int, pos + len as int, window);
                    lemma_encode_from_valid(
                        data,
                        window,
                        max_chain,
                        lazy,
                        pos + len,
                        c3.0,
                        c3.1,
                        ts.push(t),
                    );
                }
            },
        }
    }
}

/// The tokens `encode` writes carry the data, each match within the window.
pub proof fn lemma_encode_tokens(data: Seq<u8>, config: LzssConfig)
    requires
        data.len() <= usize::MAX,
    ensures
        encodes(
            encode_tokens(data, config),
            pack(encode_tokens(data, config)),
            data,
            pow2(config.window_bits as nat),
        ),
{
    vstd::arithmetic::power2::lemma_pow2_pos(config.window_bits as nat);
    if data.len() < MIN_MATCH {
        lemma_literals_encode(data);
    } else {
        assert(data.take(0) =~= Seq::<u8>::empty());
        assert(expand(Seq::<Token>::empty()) == Seq::<u8>::empty());
        lemma_encode_from_valid(
            data,
            pow2(config.window_bits as nat),
            config.max_chain as nat,
            config.lazy,
            0,
            Seq::new(HASH_SIZE as nat, |i: int| NIL),
            Seq::new(pow2(config.window_bits as nat), |i: int| NIL),
            Seq::empty(),
        );
    }
}

impl HashChain {
    spec fn wf(&self) -> bool {
        &&& self.head@.len() == HASH_SIZE
        &&& self.prev@.len() == self.window
        &&& self.window > 0
    }

    fn new(window: usize) -> (r: Self)
        requires
            window > 0,
        ensures
            r.wf(),
            r.window == window,
            r.head@ == Seq::new(HASH_SIZE as nat, |i: int| NIL),
            r.prev@ == Seq::new(window as nat, |i: int| NIL),
    {
        let r = Self { head: vec![NIL; HASH_SIZE], prev: vec![NIL; window], window };
        assert(r.head@ =~= Seq::new(HASH_SIZE as nat, |i: int| NIL));
        assert(r.prev@ =~= Seq::new(window as nat, |i: int| NIL));
        r
    }

    fn hash(data: &[u8], pos: usize) -> (h: usize)
        requires
            pos + 2 < data.len(),
        ensures
            h < HASH_SIZE,
            h == hash3(data@, pos as int),
    {
        let b0 = data[pos] as usize;
        let b1 = data[pos + 1] as usize;
        let b2 = data[pos + 2] as usize;
        let h = (b0 ^ (b1 << 5) ^ (b2 << 13)) & (HASH_SIZE - 1);
        assert(h < 0x10000) by (bit_vector)
            requires
                h == (b0 ^ (b1 << 5) ^ (b2 << 13)) & 0xFFFF,
        ;
        h
    }

    fn insert(&mut self, data: &[u8], pos: usize)
        requires
            old(self).wf(),
            pos + 2 < data.len(),
        ensures
            final(self).wf(),
            final(self).window == old(self).window,
            (final(self).head@, final(self).prev@) == chain_insert(
                old(self).head@,
                old(self).prev@,
                old(self).window as nat,
                data@,
                pos as nat,
            ),
    {
        let h = Self::hash(data, pos);
        let idx = pos % self.window;
        let p = self.head[h];
        self.prev.set(idx, p);
        self.head.set(h, pos as u32);
    }

    fn find_match(&self, data: &[u8], pos: usize, max_chain: u32, prev_match_len: usize) -> (r:
        Option<(usize, usize)>)
        requires
            self.wf(),
            pos <= data.len(),
            MIN_MATCH - 1 <= prev_match_len <= MAX_MATCH,
            pos + prev_match_len <= data.len() + 1,
        ensures
            r matches Some((offset, len)) ==> len >= MIN_MATCH && len >= prev_match_len && (len
                > prev_match_len ==> is_match_at(
                data@,
                pos as int,
                offset as int,
                len as int,
                self.window as int,
            )),
            match r {
                None => find_match_spec(
                    self.head@,
                    self.prev@,
                    self.window as nat,
                    data@,
                    pos as nat,
                    max_chain as nat,
                    prev_match_len as nat,
                ) is None,
                Some((offset, len)) => find_match_spec(
                    self.head@,
                    self.prev@,
                    self.window as nat,
                    data@,
                    pos as nat,
                    max_chain as nat,
                    prev_match_len as nat,
                ) == Some((offset as nat, len as nat)),
            },
    {
        if pos > data.len() || data.len() - pos < MIN_MATCH {
            return None;
        }
        let h = Self::hash(data, pos);
        let limit = if pos >= self.window {
            pos - self.window
        } else {
            0
        };
        let mut best_len = prev_match_len;
        let mut best_pos: usize = 0;
        let mut candidate = self.head[h];
        let mut chain_count: u32 = 0;
        let ghost target = walk_chain(
            self.prev@,
            self.window as nat,
            data@,
            pos as nat,
            limit as nat,
            max_chain as nat,
            candidate,
            0,
            prev_match_len as nat,
            0,
        );
        while candidate != NIL && chain_count < max_chain
            invariant_except_break
                target == walk_chain(
                    self.prev@,
                    self.window as nat,
                    data@,
                    pos as nat,
                    limit as nat,
                    max_chain as nat,
                    candidate,
                    chain_count as nat,
                    best_len as nat,
                    best_pos as nat,
                ),
            invariant
                self.wf(),
                pos + MIN_MATCH <= data.len(),
                limit == (if pos >= self.window {
                    pos - self.window
                } else {
                    0
                }),
                MIN_MATCH - 1 <= prev_match_len <= best_len <= MAX_MATCH,
                pos + best_len <= data.len() + 1,
                best_pos <= pos,
                best_len > prev_match_len ==> is_match_at(
                    data@,
                    pos as int,
                    (pos - best_pos) as int,
                    best_len as int,
                    self.window as int,
                ) && best_pos < pos,
            ensures
                target == (best_len as nat, best_pos as nat),
                MIN_MATCH - 1 <= prev_match_len <= best_len <= MAX_MATCH,
                best_pos <= pos,
                best_len > prev_match_len ==> is_match_at(
                    data@,
                    pos as int,
                    (pos - best_pos) as int,
                    best_len as int,
                    self.window as int,
                ) && best_pos < pos,
            decreases max_chain - chain_count,
        {
            let cpos = candidate as usize;
            if cpos >= pos || cpos <= limit {
                break;
            }
            let rem = data.len() - pos;
            let max_len = if rem < MAX_MATCH {
                rem
            } else {
                MAX_MATCH
            };
            if max_len > best_len && cpos + best_len < data.len() && data[cpos + best_len]
                != data[pos + best_len] {
                candidate = self.prev[cpos % self.window];
                chain_count += 1;
                continue;
            }
            let mut len: usize = 0;
            while len < max_len && data[cpos + len] == data[pos + len]
                invariant
                    cpos < pos,
                    max_len <= data.len() - pos,
                    len <= max_len,
                    forall|j: int| 0 <= j < len ==> #[trigger] data@[cpos + j] == data@[pos + j],
                    common_len(data@, cpos as nat, pos as nat, max_len as nat, 0) == common_len(
                        data@,
                        cpos as nat,
                        pos as nat,
                        max_len as nat,
                        len as nat,
                    ),
                decreases max_len - len,
            {
                len += 1;
            }
            if len > best_len {
                best_len = len;
                best_pos = cpos;
                assert forall|j: int| 0 <= j < len implies #[trigger] data@[pos - (pos - cpos) + j]
                    == data@[pos + j] by {
                    assert(data@[cpos + j] == data@[pos + j]);
                }
                if len == MAX_MATCH {
                    break;
                }
            }
            candidate = self.prev[cpos % self.window];
            chain_count += 1;
        }
        if best_len >= MIN_MATCH {
            Some((pos - best_pos, best_len))
        } else {
            None
        }
    }
}


// ─── Encoder ────────────────────────────────────────────────────────────────

proof fn lemma_pack_append(done: Seq<Token>, p: Seq<Token>)
    requires
        done.len() % 8 == 0,
        1 <= p.len() <= 8,
    ensures
        pack(done + p) == pack(done) + group(p),
    decreases done.len(),
{
    if done.len() == 0 {
        assert(done + p =~= p);
        assert(pack(done) + group(p) =~= group(p));
    } else {
        let all = done + p;
        assert(all.take(8) =~= done.take(8));
        assert(all.skip(8) =~= done.skip(8) + p);
        lemma_pack_append(done.skip(8), p);
        if done.len() == 8 {
            assert(done.skip(8) =~= Seq::<Token>::empty());
            assert(done.take(8) =~= done);
            assert(done.skip(8) + p =~= p);
        }
        assert(pack(done) == group(done.take(8)) + pack(done.skip(8))) by {
            if done.len() == 8 {
                assert(group(done.take(8)) + pack(done.skip(8)) =~= group(done));
            }
        }
        assert(group(done.take(8)) + (pack(done.skip(8)) + group(p)) =~= group(done.take(8))
            + pack(done.skip(8)) + group(p));
    }
}

proof fn lemma_copy_match(d: Seq<u8>, pos: int, offset: int, len: int)
    requires
        1 <= offset <= pos,
        0 <= len,
        pos + len <= d.len(),
        forall|j: int| 0 <= j < len ==> #[trigger] d[pos - offset + j] == d[pos + j],
    ensures
        copy_back(d.take(pos), offset as nat, len as nat) == d.take(pos + len),
    decreases len,
{
    if len > 0 {
        lemma_copy_match(d, pos, offset, len - 1);
        let o = copy_back(d.take(pos), offset as nat, (len - 1) as nat);
        assert(o == d.take(pos + len - 1));
        assert(d[pos - offset + (len - 1)] == d[pos + (len - 1)]);
        assert(o.push(o[o.len() - offset]) =~= d.take(pos + len));
    }
}

proof fn lemma_tokens_push(ts: Seq<Token>, t: Token, data: Seq<u8>, pos: int, next: int, window: nat)
    requires
        0 <= pos <= next <= data.len(),
        expand(ts) == data.take(pos),
        tokens_ok_from(Seq::empty(), ts),
        offsets_below(ts, window),
        token_ok(t, pos as nat),
        t matches Token::Match { offset, .. } ==> offset < window,
        apply_token(data.take(pos), t) == data.take(next),
    ensures
        expand(ts.push(t)) == data.take(next),
        tokens_ok_from(Seq::empty(), ts.push(t)),
        offsets_below(ts.push(t), window),
{
    lemma_expand_push(Seq::empty(), ts, t);
    assert forall|i: int| 0 <= i < ts.push(t).len() implies (#[trigger] ts.push(t)[i] matches Token::Match { offset, .. } ==> offset < window) by {
        if i < ts.len() {
            assert(ts.push(t)[i] == ts[i]);
        }
    }
}

/// The tokens written so far: full groups in `out`, the rest in `group_buf`.
struct TokenWriter {
    out: Vec<u8>,
    group_buf: [u8; 24],
    group_len: usize,
    flags: u8,
    token_count: u8,
    done: Ghost<Seq<Token>>,
    pending: Ghost<Seq<Token>>,
}

impl TokenWriter {
    spec fn wf(&self) -> bool {
        &&& self.out@ == pack(self.done@)
        &&& self.done@.len() % 8 == 0
        &&& self.pending@.len() == self.token_count
        &&& self.token_count < 8
        &&& self.group_len == tokens_bytes(self.pending@).len()
        &&& self.group_len <= 3 * self.token_count
        &&& self.group_buf@.subrange(0, self.group_len as int) == tokens_bytes(self.pending@)
        &&& self.flags == flag_byte(self.pending@)
    }

    spec fn tokens(&self) -> Seq<Token> {
        self.done@ + self.pending@
    }

    fn new() -> (r: Self)
        ensures
            r.wf(),
            r.tokens() == Seq::<Token>::empty(),
    {
        let r = TokenWriter {
            out: Vec::new(),
            group_buf: [0u8; 24],
            group_len: 0,
            flags: 0,
            token_count: 0,
            done: Ghost(Seq::empty()),
            pending: Ghost(Seq::empty()),
        };
        assert(r.group_buf@.subrange(0, 0) =~= Seq::<u8>::empty());
        assert(r.tokens() =~= Seq::<Token>::empty());
        r
    }

    /// Closes the current group once it holds eight tokens.
    fn end_token(&mut self)
        requires
            old(self).out@ == pack(old(self).done@),
            old(self).done@.len() % 8 == 0,
            old(self).pending@.len() == old(self).token_count,
            1 <= old(self).token_count <= 8,
            old(self).group_len == tokens_bytes(old(self).pending@).len(),
            old(self).group_len <= 3 * old(self).token_count,
            old(self).group_buf@.subrange(0, old(self).group_len as int) == tokens_bytes(
                old(self).pending@,
            ),
            old(self).flags == flag_byte(old(self).pending@),
        ensures
            final(self).wf(),
            final(self).tokens() == old(self).tokens(),
    {
        if self.token_count == 8 {
            self.flush();
            self.flags = 0;
            self.group_len = 0;
            self.token_count = 0;
            let ghost all = self.done@ + self.pending@;
            self.done = Ghost(all);
            self.pending = Ghost(Seq::empty());
            assert(self.group_buf@.subrange(0, 0) =~= Seq::<u8>::empty());
            assert(self.tokens() =~= all);
        }
    }

    /// Appends a literal token.
    fn push_literal(&mut self, b: u8)
        requires
            old(self).wf(),
        ensures
            final(self).wf(),
            final(self).tokens() == old(self).tokens().push(Token::Literal(b)),
    {
        let ghost t = Token::Literal(b);
        let ghost p0 = self.pending@;
        let ghost gb0 = self.group_buf@;
        let gl = self.group_len;
        self.group_buf[gl] = b;
        self.group_len = gl + 1;
        self.token_count = self.token_count + 1;
        self.pending = Ghost(p0.push(t));
        proof {
            assert(p0.push(t).drop_last() =~= p0);
            assert(p0.push(t).last() == t);
            assert(tokens_bytes(p0.push(t)) == tokens_bytes(p0) + seq![b]);
            assert(self.group_buf@.subrange(0, self.group_len as int) =~= gb0.subrange(0, gl as int)
                + seq![b]);
            assert(flag_byte(p0.push(t)) == flag_byte(p0));
            assert(self.done@ + p0.push(t) =~= (self.done@ + p0).push(t));
        }
        self.end_token();
    }

    /// Appends a match token.
    fn push_match(&mut self, offset: usize, len: usize)
        requires
            old(self).wf(),
            MIN_MATCH <= len <= MAX_MATCH,
        ensures
            final(self).wf(),
            final(self).tokens() == old(self).tokens().push(Token::Match { offset, len }),
    {
        let ghost t = Token::Match { offset, len };
        let ghost p0 = self.pending@;
        let ghost gb0 = self.group_buf@;
        let gl = self.group_len;
        let b0 = (offset % 0x100) as u8;
        let b1 = ((offset / 0x100) % 0x100) as u8;
        let b2 = (len - MIN_MATCH) as u8;
        self.group_buf[gl] = b0;
        self.group_buf[gl + 1] = b1;
        self.group_buf[gl + 2] = b2;
        self.flags = self.flags | (1u8 << (7 - self.token_count));
        self.group_len = gl + 3;
        self.token_count = self.token_count + 1;
        self.pending = Ghost(p0.push(t));
        proof {
            assert(p0.push(t).drop_last() =~= p0);
            assert(p0.push(t).last() == t);
            assert(token_bytes(t) == seq![b0, b1, b2]);
            assert(tokens_bytes(p0.push(t)) == tokens_bytes(p0) + seq![b0, b1, b2]);
            assert(self.group_buf@.subrange(0, self.group_len as int) =~= gb0.subrange(0, gl as int)
                + seq![b0, b1, b2]);
            assert(self.done@ + p0.push(t) =~= (self.done@ + p0).push(t));
        }
        self.end_token();
    }

    /// The token stream: the full groups, then the last group if it holds any token.
    fn finish(self) -> (r: Vec<u8>)
        requires
            self.wf(),
        ensures
            r@ == pack(self.tokens()),
    {
        let mut w = self;
        if w.token_count > 0 {
            w.flush();
        } else {
            assert(w.tokens() =~= w.done@);
        }
        w.out
    }

    /// Writes the flag byte and the bytes of the pending tokens to `out`.
    fn flush(&mut self)
        requires
            old(self).token_count > 0 || old(self).pending@.len() == 8,
            old(self).pending@.len() <= 8,
            old(self).pending@.len() == old(self).token_count,
            old(self).group_len == tokens_bytes(old(self).pending@).len(),
            old(self).group_len <= 24,
            old(self).group_buf@.subrange(0, old(self).group_len as int) == tokens_bytes(
                old(self).pending@,
            ),
            old(self).flags == flag_byte(old(self).pending@),
            old(self).out@ == pack(old(self).done@),
            old(self).done@.len() % 8 == 0,
        ensures
            final(self).out@ == pack(old(self).done@ + old(self).pending@),
            final(self).done@ == old(self).done@,
            final(self).pending@ == old(self).pending@,
            final(self).group_buf == old(self).group_buf,
            final(self).group_len == old(self).group_len,
            final(self).flags == old(self).flags,
            final(self).token_count == old(self).token_count,
    {
        proof {
            lemma_pack_append(self.done@, self.pending@);
        }
        let ghost done = self.done@;
        let ghost pending = self.pending@;
        let ghost gb = self.group_buf@;
        let ghost flags0 = self.flags;
        let ghost count0 = self.token_count;
        self.out.push(self.flags);
        let ghost start = self.out@;
        assert(start == pack(done) + seq![flag_byte(pending)]);
        let group_len = self.group_len;
        let mut k: usize = 0;
        while k < group_len
            invariant
                k <= group_len <= 24,
                self.group_buf@ == gb,
                self.done@ == done,
                self.pending@ == pending,
                self.group_len == group_len,
                self.flags == flags0,
                self.token_count == count0,
                gb.len() == 24,
                self.out@ == start + gb.subrange(0, k as int),
            decreases group_len - k,
        {
            let b = self.group_buf[k];
            self.out.push(b);
            k += 1;
            assert(self.out@ =~= start + gb.subrange(0, k as int));
        }
        assert(gb.subrange(0, group_len as int) == tokens_bytes(pending));
        assert(self.out@ =~= pack(done) + group(pending));
    }
}


/// `out` carries the tokens `ts`, which stand for `data` and reach back fewer than `window` bytes.
pub open spec fn encodes(ts: Seq<Token>, out: Seq<u8>, data: Seq<u8>, window: nat) -> bool {
    &&& pack(ts) == out
    &&& expand(ts) == data
    &&& tokens_ok_from(Seq::empty(), ts)
    &&& offsets_below(ts, window)
}

/// Encodes `data` as a token stream: at each position the longest match
/// found along the hash chain (at least `MIN_MATCH` bytes), else a literal.
#[verifier::spinoff_prover]
#[verifier::rlimit(80)]
pub fn encode(data: &[u8], config: &LzssConfig) -> (r: Vec<u8>)
    requires
        data@.len() >= MIN_MATCH ==> config.window_bits < usize::BITS,
    ensures
        encodes(encode_tokens(data@, *config), r@, data@, pow2(config.window_bits as nat)),
        config.window_bits <= 16 ==> decode_spec(r@, data@.len()) == Ok::<Seq<u8>, LzssError>(
            data@,
        ),
{
    let ghost wn = pow2(config.window_bits as nat);
    let ghost target = encode_tokens(data@, *config);
    proof {
        vstd::arithmetic::power2::lemma_pow2_pos(config.window_bits as nat);
    }
    let mut w = TokenWriter::new();
    let mut pos: usize = 0;
    proof {
        assert(data@.take(0) =~= Seq::<u8>::empty());
    }
    if data.len() < MIN_MATCH {
        // Too short for any match: literals only.
        while pos < data.len()
            invariant
                w.wf(),
                pos <= data.len(),
                expand(w.tokens()) == data@.take(pos as int),
                tokens_ok_from(Seq::empty(), w.tokens()),
                offsets_below(w.tokens(), wn),
                w.tokens() == literals(data@.take(pos as int)),
            decreases data.len() - pos,
        {
            let ghost ts = w.tokens();
            w.push_literal(data[pos]);
            proof {
                assert(data@.take(pos as int).push(data@[pos as int]) =~= data@.take(pos + 1));
                lemma_tokens_push(ts, Token::Literal(data@[pos as int]), data@, pos as int, pos + 1, wn);
                assert(w.tokens() =~= literals(data@.take(pos + 1)));
            }
            pos += 1;
        }
        assert(data@.take(data@.len() as int) =~= data@);
    } else {
        let window = config.window_size();
        let max_chain = config.max_chain;
        let lazy = config.lazy;
        let mut chain = HashChain::new(window);
        assert(w.tokens() =~= Seq::<Token>::empty());
        while pos < data.len()
            invariant
                w.wf(),
                chain.wf(),
                chain.window == window,
                window as nat == wn,
                max_chain == config.max_chain,
                lazy == config.lazy,
                data@.len() >= MIN_MATCH,
                target == encode_from(
                    data@,
                    wn,
                    max_chain as nat,
                    lazy,
                    pos as nat,
                    chain.head@,
                    chain.prev@,
                    w.tokens(),
                ),
                pos <= data.len(),
                expand(w.tokens()) == data@.take(pos as int),
                tokens_ok_from(Seq::empty(), w.tokens()),
                offsets_below(w.tokens(), wn),
            decreases data.len() - pos,
        {
            let can_hash = data.len() - pos >= MIN_MATCH;
            let m = if can_hash {
                let result = chain.find_match(data, pos, max_chain, MIN_MATCH - 1);
                chain.insert(data, pos);
                result
            } else {
                None
            };
            let (use_offset, use_len) = match m {
                Some((offset, len)) => {
                    if lazy && data.len() - pos >= 1 + MIN_MATCH {
                        // Look one byte ahead.
                        chain.insert(data, pos + 1);
                        let m2 = chain.find_match(data, pos + 1, max_chain, len);
                        let mut chosen = (offset, len);
                        if let Some((off2, len2)) = m2 {
                            if len2 > len {
                                // A literal, then the longer match.
                                let ghost ts = w.tokens();
                                w.push_literal(data[pos]);
                                proof {
                                    assert(data@.take(pos as int).push(data@[pos as int])
                                        =~= data@.take(pos + 1));
                                    lemma_tokens_push(
                                        ts,
                                        Token::Literal(data@[pos as int]),
                                        data@,
                                        pos as int,
                                        pos + 1,
                                        wn,
                                    );
                                }
                                pos += 1;
                                chosen = (off2, len2);
                            }
                        }
                        chosen
                    } else {
                        (offset, len)
                    }
                },
                None => {
                    // No match: a literal.
                    let ghost ts = w.tokens();
                    w.push_literal(data[pos]);
                    proof {
                        assert(data@.take(pos as int).push(data@[pos as int]) =~= data@.take(
                            pos + 1,
                        ));
                        lemma_tokens_push(
                            ts,
                            Token::Literal(data@[pos as int]),
                            data@,
                            pos as int,
                            pos + 1,
                            wn,
                        );
                    }
                    pos += 1;
                    continue ;
                },
            };
            let ghost ts = w.tokens();
            w.push_match(use_offset, use_len);
            proof {
                lemma_copy_match(data@, pos as int, use_offset as int, use_len as int);
                lemma_tokens_push(
                    ts,
                    Token::Match { offset: use_offset, len: use_len },
                    data@,
                    pos as int,
                    pos + use_len,
                    wn,
                );
            }
            // Enter the positions that the match covers into the hash chain.
            let end = pos + use_len;
            let mut p = pos + 1;
            let ghost hs = chain.head@;
            let ghost ps = chain.prev@;
            while p < end
                invariant
                    chain.wf(),
                    chain.window == window,
                    window as nat == wn,
                    end <= data.len(),
                    pos + 1 <= p,
                    insert_run(hs, ps, wn, data@, (pos + 1) as nat, end as nat) == insert_run(
                        chain.head@,
                        chain.prev@,
                        wn,
                        data@,
                        p as nat,
                        end as nat,
                    ),
                decreases end - p,
            {
                if data.len() - p >= MIN_MATCH {
                    chain.insert(data, p);
                }
                p += 1;
            }
            pos += use_len;
        }
        assert(data@.take(data@.len() as int) =~= data@);
    }
    let ghost ts = w.tokens();
    let r = w.finish();
    proof {
        assert(data@.take(data@.len() as int) =~= data@);
        assert(ts == target);
        assert(encodes(ts, r@, data@, wn));
        if config.window_bits <= 16 {
            if config.window_bits < 16 {
                vstd::arithmetic::power2::lemma_pow2_strictly_increases(config.window_bits as nat, 16);
            }
            vstd::arithmetic::power2::lemma2_to64();
            assert forall|i: int| 0 <= i < ts.len() implies (#[trigger] ts[i] matches Token::Match { offset, .. } ==> offset < 0x10000) by {}
            lemma_decode_pack(ts);
        }
    }
    r
}

proof fn lemma_tokens_bytes_le(o: Seq<u8>, c: Seq<Token>)
    requires
        tokens_ok_from(o, c),
    ensures
        o.len() + tokens_bytes(c).len() <= expand_from(o, c).len(),
    decreases c.len(),
{
    if c.len() > 0 {
        let d = c.drop_last();
        let t = c.last();
        assert(d.push(t) =~= c);
        lemma_expand_push(o, d, t);
        lemma_tokens_bytes_le(o, d);
        let e = expand_from(o, d);
        match t {
            Token::Literal(_) => {},
            Token::Match { offset, len } => {
                lemma_copy_back_len(e, offset as nat, len as nat);
            },
        }
    }
}

/// The stream is at most twice as long as the bytes its tokens stand for.
pub proof fn lemma_pack_len(ts: Seq<Token>, o: Seq<u8>)
    requires
        tokens_ok_from(o, ts),
    ensures
        pack(ts).len() + 2 * o.len() <= 2 * expand_from(o, ts).len(),
    decreases ts.len(),
{
    if ts.len() > 0 {
        let c = if ts.len() <= 8 {
            ts
        } else {
            ts.take(8)
        };
        let rest = ts.skip(c.len() as int);
        assert(ts =~= c + rest);
        lemma_expand_split(o, c, rest);
        let o1 = expand_from(o, c);
        lemma_tokens_bytes_le(o, c);
        lemma_expand_grows(o, c);
        lemma_expand_grows(o1, rest);
        lemma_pack_len(rest, o1);
        assert(pack(ts) == group(c) + pack(rest)) by {
            if ts.len() <= 8 {
                assert(rest.len() == 0);
                assert(group(c) + pack(rest) =~= group(c));
            }
        }
    }
}

/// The tokens that copy `d` byte by byte.
pub open spec fn literals(d: Seq<u8>) -> Seq<Token> {
    Seq::new(d.len(), |i: int| Token::Literal(d[i]))
}

/// Literals always carry their bytes, within any window.
pub proof fn lemma_literals_encode(d: Seq<u8>)
    ensures
        forall|w: nat| encodes(literals(d), pack(literals(d)), d, w),
    decreases d.len(),
{
    if d.len() > 0 {
        let p = d.drop_last();
        lemma_literals_encode(p);
        assert(encodes(literals(p), pack(literals(p)), p, 0));
        assert(literals(d) =~= literals(p).push(Token::Literal(d.last())));
        lemma_expand_push(Seq::empty(), literals(p), Token::Literal(d.last()));
        assert(d =~= p.push(d.last()));
        assert(expand(literals(d)) == d);
        assert(tokens_ok_from(Seq::empty(), literals(d)));
    } else {
        assert(expand(literals(d)) =~= d);
    }
    assert forall|w: nat| encodes(literals(d), pack(literals(d)), d, w) by {
        assert forall|i: int| 0 <= i < literals(d).len() implies (#[trigger] literals(d)[i] matches Token::Match { offset, .. } ==> offset < w) by {}
    }
}

// ─── The decoder's definition ───────────────────────────────────────────────

/// Why a token stream was refused.
#[derive(Debug, Clone, Copy, PartialEq, Eq)]
pub enum LzssError {
    /// A match token is cut short by the end of the stream.
    TruncatedMatch,
    /// A match points before the start of the output, or has offset 0.
    InvalidOffset { offset: usize, decoded: usize },
    /// The stream does not produce the expected number of bytes.
    LengthMismatch { expected: usize, got: usize },
}

/// What the decoder returns once it stops with `out`.
pub open spec fn finish(out: Seq<u8>, n: nat) -> Result<Seq<u8>, LzssError> {
    if out.len() == n {
        Ok(out)
    } else {
        Err(LzssError::LengthMismatch { expected: n as usize, got: out.len() as usize })
    }
}

/// The decoder from position `i` of `data`, with `k` tokens of the group
/// described by `flags` still to read, having produced `out`; it stops once
/// `n` bytes are out or the stream ends.
pub open spec fn run(data: Seq<u8>, n: nat, i: nat, flags: u8, k: nat, out: Seq<u8>) -> Result<
    Seq<u8>,
    LzssError,
>
    decreases data.len() - i,
{
    if out.len() >= n || i >= data.len() {
        finish(out, n)
    } else if k == 0 {
        run(data, n, i + 1, data[i as int], 8, out)
    } else if (flags >> ((k - 1) as u8)) & 1 == 0 {
        run(data, n, i + 1, flags, (k - 1) as nat, out.push(data[i as int]))
    } else if i + 2 >= data.len() {
        Err(LzssError::TruncatedMatch)
    } else {
        let offset = (data[i as int] + data[i + 1int] * 0x100) as nat;
        let len = (data[i + 2int] + MIN_MATCH) as nat;
        if offset == 0 || offset > out.len() {
            Err(LzssError::InvalidOffset { offset: offset as usize, decoded: out.len() as usize })
        } else {
            run(data, n, i + 3, flags, (k - 1) as nat, copy_back(out, offset, len))
        }
    }
}

/// What decoding `data` into `n` bytes gives.
pub open spec fn decode_spec(data: Seq<u8>, n: nat) -> Result<Seq<u8>, LzssError> {
    run(data, n, 0, 0, 0, Seq::empty())
}

/// Decodes a token stream into `original_len` bytes.
pub fn decode(data: &[u8], original_len: usize) -> (r: Result<Vec<u8>, LzssError>)
    ensures
        match r {
            Ok(v) => decode_spec(data@, original_len as nat) == Ok::<Seq<u8>, LzssError>(v@),
            Err(e) => decode_spec(data@, original_len as nat) == Err::<Seq<u8>, LzssError>(e),
        },
{
    let mut out: Vec<u8> = Vec::new();
    let mut i: usize = 0;
    let ghost n = original_len as nat;
    while i < data.len() && out.len() < original_len
        invariant
            i <= data.len(),
            n == original_len as nat,
            decode_spec(data@, n) == run(data@, n, i as nat, 0, 0, out@),
        decreases data.len() - i,
    {
        let flags = data[i];
        i += 1;
        let ghost i0 = i;
        let mut bit: u8 = 8;
        while bit > 0
            invariant
                0 < i0 <= i <= data.len(),
                bit <= 8,
                n == original_len as nat,
                decode_spec(data@, n) == run(data@, n, i as nat, flags, bit as nat, out@),
            ensures
                0 < i0 <= i <= data.len(),
                decode_spec(data@, n) == run(data@, n, i as nat, flags, 0, out@),
            decreases data.len() - i, bit,
        {
            if out.len() >= original_len || i >= data.len() {
                assert(run(data@, n, i as nat, flags, 0, out@) == finish(out@, n));
                break;
            }
            if (flags >> (bit - 1)) & 1 == 0 {
                out.push(data[i]);
                i += 1;
            } else {
                if data.len() - i <= 2 {
                    assert(run(data@, n, i as nat, flags, bit as nat, out@) == Err::<Seq<u8>, LzssError>(LzssError::TruncatedMatch));
                    return Err(LzssError::TruncatedMatch);
                }
                let offset = data[i] as usize + data[i + 1] as usize * 0x100;
                let length = data[i + 2] as usize + MIN_MATCH;
                i += 3;
                if offset == 0 || offset > out.len() {
                    return Err(LzssError::InvalidOffset { offset, decoded: out.len() });
                }
                let ghost out0 = out@;
                let mut k: usize = 0;
                while k < length
                    invariant
                        k <= length,
                        1 <= offset <= out0.len(),
                        out@ == copy_back(out0, offset as nat, k as nat),
                        out@.len() == out0.len() + k,
                    decreases length - k,
                {
                    let b = out[out.len() - offset];
                    out.push(b);
                    k += 1;
                }
            }
            bit -= 1;
        }
    }
    if out.len() != original_len {
        return Err(LzssError::LengthMismatch { expected: original_len, got: out.len() });
    }
    Ok(out)
}

} // verus!
