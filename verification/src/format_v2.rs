//! The version-2 `.piadina` format: each file is run-length coded, then
//! Huffman coded with its code book written in front; the archive index
//! entries carry no checksum.
//!
//! ```text
//! blob:   orig_len u64 LE, rle_len u64 LE, cb_len u32 LE, code book, code words
//! entry:  path_len u32, path (UTF-8), is_dir u8, mode u32, mtime u64,
//!         data_offset u64, data_len u64
//! ```
use vstd::prelude::*;
use std::collections::HashMap;
use vstd::utf8::{valid_utf8, decode_utf8, encode_utf8};
use crate::huffman::{self, EncodeTable, word, low_bits, bytes_bits, byte_bits, u64_le, zeros, words_of, prefix_code, is_prefix};
use crate::archive::{self, u32_bytes, u32_at, u64_at};

verus! {

broadcast use vstd::std_specs::hash::group_hash_axioms;

// ─── Run-length coding ──────────────────────────────────────────────────────

/// Marks a coded run: `ESCAPE`, count, byte.
pub const ESCAPE: u8 = 0xFF;

/// The length of the run of `s[0]` at the start of `s`, counted from `r`
/// on and at most 255.
pub open spec fn run_count(s: Seq<u8>, r: nat) -> nat
    decreases 255 - r,
{
    if r < 255 && r < s.len() && s[r as int] == s[0] {
        run_count(s, r + 1)
    } else {
        r
    }
}

pub proof fn lemma_run_count(s: Seq<u8>, r: nat)
    requires
        1 <= r <= 255,
        r <= s.len(),
        forall|j: int| 0 <= j < r ==> #[trigger] s[j] == s[0],
    ensures
        r <= run_count(s, r) <= 255,
        run_count(s, r) <= s.len(),
        forall|j: int| 0 <= j < run_count(s, r) ==> #[trigger] s[j] == s[0],
        run_count(s, r) < 255 && run_count(s, r) < s.len() ==> s[run_count(s, r) as int] != s[0],
    decreases 255 - r,
{
    if r < 255 && r < s.len() && s[r as int] == s[0] {
        lemma_run_count(s, r + 1);
    }
}

/// The length of the run at the start of a non-empty `s`, at most 255.
pub open spec fn run_len(s: Seq<u8>) -> nat {
    run_count(s, 1)
}

/// How a run of `r` bytes `b` is written: escape, count, byte for a run of
/// three or more and for the escape byte itself; else the bytes as they are.
pub open spec fn run_bytes(b: u8, r: nat) -> Seq<u8> {
    if r >= 3 || b == ESCAPE {
        seq![ESCAPE, r as u8, b]
    } else {
        Seq::new(r, |i: int| b)
    }
}

/// The run-length coding of `s`.
pub open spec fn rle_spec(s: Seq<u8>) -> Seq<u8>
    decreases s.len(),
{
    if s.len() == 0 {
        Seq::empty()
    } else {
        proof {
            lemma_run_count(s, 1);
        }
        run_bytes(s[0], run_len(s)) + rle_spec(s.skip(run_len(s) as int))
    }
}

/// What decoding the run-length coded `s` gives; a coded run cut short by
/// the end of `s` is dropped.
pub open spec fn unrle_spec(s: Seq<u8>) -> Seq<u8>
    decreases s.len(),
{
    if s.len() == 0 {
        Seq::empty()
    } else if s[0] == ESCAPE {
        if s.len() < 3 {
            Seq::empty()
        } else {
            Seq::new(s[1] as nat, |i: int| s[2]) + unrle_spec(s.skip(3))
        }
    } else {
        seq![s[0]] + unrle_spec(s.skip(1))
    }
}

fn push_run(out: &mut Vec<u8>, b: u8, count: u8)
    ensures
        final(out)@ == old(out)@ + Seq::new(count as nat, |i: int| b),
{
    let mut k: u8 = 0;
    while k < count
        invariant
            k <= count,
            out@ == old(out)@ + Seq::new(k as nat, |i: int| b),
        decreases count - k,
    {
        out.push(b);
        k += 1;
        assert(out@ =~= old(out)@ + Seq::new(k as nat, |i: int| b));
    }
}

/// Run-length codes `data`: runs of three to 255 equal bytes, and every
/// escape byte, become escape, count, byte.
pub fn rle_encode(data: &[u8]) -> (out: Vec<u8>)
    ensures
        out@ == rle_spec(data@),
{
    let mut out: Vec<u8> = Vec::new();
    let mut i: usize = 0;
    proof {
        assert(data@.skip(0) =~= data@);
    }
    while i < data.len()
        invariant
            i <= data@.len(),
            out@ + rle_spec(data@.skip(i as int)) == rle_spec(data@),
        decreases data@.len() - i,
    {
        let ghost s = data@.skip(i as int);
        let b = data[i];
        let mut run: usize = 1;
        while run < data.len() - i && data[i + run] == b && run < 255
            invariant
                1 <= run <= 255,
                i + run <= data@.len(),
                s == data@.skip(i as int),
                b == s[0],
                forall|j: int| 0 <= j < run ==> #[trigger] s[j] == s[0],
                run_count(s, 1) == run_count(s, run as nat),
            decreases 255 - run,
        {
            run += 1;
        }
        proof {
            lemma_run_count(s, run as nat);
            assert(run_count(s, run as nat) == run);
        }
        if run >= 3 || b == ESCAPE {
            out.push(ESCAPE);
            out.push(run as u8);
            out.push(b);
            proof {
                assert(out@.subrange(out@.len() - 3, out@.len() as int) =~= run_bytes(b, run as nat));
            }
        } else {
            push_run(&mut out, b, run as u8);
        }
        proof {
            assert(s.skip(run as int) =~= data@.skip(i + run));
        }
        let ghost before = out@;
        i += run;
        assert(rle_spec(s) == run_bytes(b, run as nat) + rle_spec(data@.skip(i as int)));
    }
    assert(data@.skip(data@.len() as int) =~= Seq::<u8>::empty());
    assert(out@ + Seq::<u8>::empty() =~= out@);
    out
}

/// Decodes run-length coded `data`; `original_len` only sizes the output.
pub fn rle_decode(data: &[u8], original_len: usize) -> (out: Vec<u8>)
    ensures
        out@ == unrle_spec(data@),
{
    let mut out: Vec<u8> = Vec::with_capacity(original_len);
    let mut i: usize = 0;
    proof {
        assert(data@.skip(0) =~= data@);
    }
    while i < data.len()
        invariant
            i <= data@.len(),
            out@ + unrle_spec(data@.skip(i as int)) == unrle_spec(data@),
        decreases data@.len() - i,
    {
        let ghost s = data@.skip(i as int);
        if data[i] == ESCAPE {
            if data.len() - i < 3 {
                assert(unrle_spec(s) == Seq::<u8>::empty());
                assert(out@ + Seq::<u8>::empty() =~= out@);
                return out;
            }
            let count = data[i + 1];
            let byte = data[i + 2];
            let ghost before = out@;
            push_run(&mut out, byte, count);
            assert(s.skip(3) =~= data@.skip(i + 3));
            assert(s[1] == count && s[2] == byte);
            assert(unrle_spec(s) == Seq::new(count as nat, |j: int| byte) + unrle_spec(s.skip(3)));
            assert(before + unrle_spec(s) =~= out@ + unrle_spec(s.skip(3)));
            i += 3;
        } else {
            let ghost before = out@;
            out.push(data[i]);
            assert(s.skip(1) =~= data@.skip(i + 1));
            assert(before + unrle_spec(s) =~= out@ + unrle_spec(s.skip(1)));
            i += 1;
        }
    }
    assert(data@.skip(data@.len() as int) =~= Seq::<u8>::empty());
    assert(out@ + Seq::<u8>::empty() =~= out@);
    out
}

proof fn lemma_unrle_run(b: u8, r: nat, t: Seq<u8>)
    requires
        1 <= r <= 255,
    ensures
        unrle_spec(run_bytes(b, r) + t) == Seq::new(r, |i: int| b) + unrle_spec(t),
{
    let s = run_bytes(b, r) + t;
    if r >= 3 || b == ESCAPE {
        assert(s.skip(3) =~= t);
        assert((r as u8) as nat == r);
        assert(s[0] == ESCAPE && s[1] == r as u8 && s[2] == b);
        assert(Seq::new(s[1] as nat, |i: int| s[2]) =~= Seq::new(r, |i: int| b));
        assert(unrle_spec(s) == Seq::new(s[1] as nat, |i: int| s[2]) + unrle_spec(s.skip(3)));
    } else if r == 1 {
        assert(s.skip(1) =~= t);
        assert(s[0] == b);
        assert(unrle_spec(s) == seq![b] + unrle_spec(s.skip(1)));
        assert(seq![b] =~= Seq::new(1, |i: int| b));
    } else {
        let s1 = s.skip(1);
        assert(s[0] == b);
        assert(s1 =~= seq![b] + t);
        assert(s1[0] == b);
        assert(unrle_spec(s1) == seq![b] + unrle_spec(s1.skip(1)));
        assert(unrle_spec(s) == seq![b] + unrle_spec(s.skip(1)));
        assert(s1.skip(1) =~= t);
        assert(seq![b] + (seq![b] + unrle_spec(t)) =~= Seq::new(2, |i: int| b) + unrle_spec(t));
    }
}

/// Run-length decoding undoes run-length coding.
pub proof fn lemma_rle_roundtrip(s: Seq<u8>)
    ensures
        unrle_spec(rle_spec(s)) == s,
    decreases s.len(),
{
    if s.len() > 0 {
        lemma_run_count(s, 1);
        let r = run_len(s);
        let b = s[0];
        lemma_rle_roundtrip(s.skip(r as int));
        lemma_unrle_run(b, r, rle_spec(s.skip(r as int)));
        assert(s.take(r as int) =~= Seq::new(r, |i: int| b));
        assert(s =~= s.take(r as int) + s.skip(r as int));
    }
}


// ─── The code book ──────────────────────────────────────────────────────────

/// A code table as a map: each byte value that has a code word, to its entry.
pub open spec fn code_map(t: Seq<(u64, u8)>) -> Map<u8, (u64, u8)> {
    Map::new(|s: u8| t[s as int].1 > 0, |s: u8| t[s as int])
}

/// The code word lengths of the code book `m`, by byte value (0 for a byte
/// value without a word).
pub open spec fn book_lens(m: Map<u8, (u64, u8)>) -> Seq<nat> {
    Seq::new(256, |s: int| if m.dom().contains(s as u8) { m[s as u8].1 as nat } else { 0 })
}

/// The code book of `data` is optimal: coding each byte of `data` with its
/// word takes no more bits (`Σ count(b) * length(b)`) than with any lengths
/// that give every byte value of `data` 1 to `bound` bits and meet the
/// Kraft inequality.
pub proof fn lemma_codebook_optimal(data: Seq<u8>, lens: Seq<nat>, bound: nat)
    requires
        data.len() <= u64::MAX,
        lens.len() == 256,
        forall|s: int|
            0 <= s < 256 && huffman::freqs_of(data)[s] > 0 ==> 1 <= #[trigger] lens[s] <= bound,
        huffman::kraft_used(huffman::freqs_of(data), lens, bound, 256)
            <= vstd::arithmetic::power2::pow2(bound),
    ensures
        huffman::freq_cost(
            huffman::freqs_of(data),
            book_lens(code_map(huffman::huffman_table(huffman::freqs_of(data)))),
            256,
        ) <= huffman::freq_cost(huffman::freqs_of(data), lens, 256),
{
    let freqs = huffman::freqs_of(data);
    let t = huffman::huffman_table(freqs);
    huffman::lemma_freq_total_of(data);
    huffman::lemma_table_len(freqs);
    huffman::lemma_huffman_optimal(freqs, lens, bound);
    assert forall|s: int| 0 <= s < 256 implies #[trigger] book_lens(code_map(t))[s]
        == huffman::code_lens(t)[s] by {
        assert(((s as u8) as int) == s);
        if t[s].1 == 0 {
            assert(!code_map(t).dom().contains(s as u8));
        }
    }
    assert(book_lens(code_map(t)) =~= huffman::code_lens(t));
}

/// The Huffman code book of the bytes of `data`, by byte value.
pub fn build_codebook(data: &[u8]) -> (m: HashMap<u8, (u64, u8)>)
    ensures
        m@ == code_map(huffman::huffman_table(huffman::freqs_of(data@))),
{
    let freqs = huffman::count_freqs(data);
    let len = data.len();
    assert(len as int <= u64::MAX);
    proof {
        huffman::lemma_counts_are_freqs(data@, freqs@);
    }
    let table = huffman::build_encode_table(&freqs);
    let ghost t = table@;
    let mut m: HashMap<u8, (u64, u8)> = HashMap::new();
    let mut k: usize = 0;
    while k < 256
        invariant
            k <= 256,
            t == table@,
            t.len() == 256,
            m@ == Map::new(|s: u8| (s as int) < k && t[s as int].1 > 0, |s: u8| t[s as int]),
        decreases 256 - k,
    {
        let e = table[k];
        if e.1 > 0 {
            m.insert(k as u8, e);
        }
        k += 1;
        proof {
            assert(((k - 1) as u8) as int == k - 1);
            assert(m@ =~= Map::new(
                |s: u8| (s as int) < k && t[s as int].1 > 0,
                |s: u8| t[s as int],
            ));
        }
    }
    assert(m@ =~= code_map(t));
    m
}

/// The entries of `t` that have a code word; the others as `(0, 0)`.
pub open spec fn known_table(t: Seq<(u64, u8)>) -> Seq<(u64, u8)> {
    Seq::new(
        256,
        |s: int|
            if t[s].1 > 0 {
                t[s]
            } else {
                (0u64, 0u8)
            },
    )
}

proof fn lemma_known_entries(t: Seq<(u64, u8)>, k: int)
    requires
        t.len() == 256,
        k <= 256,
    ensures
        huffman::table_entries(known_table(t), k) == huffman::table_entries(t, k),
    decreases k,
{
    if k > 0 {
        lemma_known_entries(t, k - 1);
    }
}

/// Huffman codes `data`: the serialized code book (entries in increasing
/// byte order) and the packed code words, looked up in the code book.
pub fn huffman_encode(data: &[u8]) -> (r: (Vec<u8>, Vec<u8>))
    requires
        huffman::codes_shorter_than_64(data@, huffman::huffman_table(huffman::freqs_of(data@))),
    ensures
        r.0@ == huffman::serialize_spec(huffman::huffman_table(huffman::freqs_of(data@))),
        r.1@ == huffman::encode_spec(
            data@,
            known_table(huffman::huffman_table(huffman::freqs_of(data@))),
        ),
{
    let codebook = build_codebook(data);
    let ghost t = huffman::huffman_table(huffman::freqs_of(data@));
    proof {
        huffman::lemma_table_len(huffman::freqs_of(data@));
    }
    let mut table: EncodeTable = [(0u64, 0u8); 256];
    let mut k: usize = 0;
    while k < 256
        invariant
            k <= 256,
            codebook@ == code_map(t),
            t.len() == 256,
            forall|s: int| 0 <= s < k ==> #[trigger] table@[s] == known_table(t)[s],
            forall|s: int| k <= s < 256 ==> #[trigger] table@[s] == (0u64, 0u8),
        decreases 256 - k,
    {
        proof {
            assert(((k as u8) as int) == k);
        }
        match codebook.get(&(k as u8)) {
            Some(e) => {
                table[k] = *e;
            },
            None => {},
        }
        k += 1;
    }
    assert(table@ =~= known_table(t));
    proof {
        lemma_known_entries(t, 256);
    }
    let cb = huffman::serialize_table(&table);
    assert(huffman::codes_shorter_than_64(data@, table@)) by {
        assert forall|i: int| 0 <= i < data@.len() implies table@[#[trigger] data@[i] as int].1 < 64 by {
            assert(t[data@[i] as int].1 < 64);
        }
    }
    let enc = huffman::encode(data, &table);
    (cb, enc)
}

// ─── Decoding, shortest code word first ─────────────────────────────────────

/// The first symbol from `k` on whose code word (fitting its length) is `q`.
pub open spec fn sym_with_word(t: Seq<(u64, u8)>, q: Seq<bool>, k: int) -> Option<u8>
    decreases 256 - k,
{
    if k < 0 || k >= 256 {
        None
    } else if t[k].1 as nat == q.len() && t[k].0 >> (t[k].1 as u64) == 0 && word(t[k]) == q {
        Some(k as u8)
    } else {
        sym_with_word(t, q, k + 1)
    }
}

/// The length of the shortest prefix of `p` that is a code word, trying
/// lengths from `l` up to `maxb` (and below 64).
pub open spec fn first_word(t: Seq<(u64, u8)>, p: Seq<bool>, maxb: nat, l: nat) -> Option<nat>
    decreases 64 - l,
{
    if l > maxb || l > p.len() || l >= 64 {
        None
    } else if sym_with_word(t, p.take(l as int), 0) is Some {
        Some(l)
    } else {
        first_word(t, p, maxb, l + 1)
    }
}

pub proof fn lemma_first_word_range(t: Seq<(u64, u8)>, p: Seq<bool>, maxb: nat, l: nat)
    ensures
        first_word(t, p, maxb, l) matches Some(r) ==> l <= r <= maxb && r <= p.len() && r < 64
            && sym_with_word(t, p.take(r as int), 0) is Some,
    decreases 64 - l,
{
    if !(l > maxb || l > p.len() || l >= 64) && sym_with_word(t, p.take(l as int), 0) is None {
        lemma_first_word_range(t, p, maxb, l + 1);
    }
}

/// The longest code word of the entries below `k`.
pub open spec fn max_bits(t: Seq<(u64, u8)>, k: int) -> nat
    decreases k,
{
    if k <= 0 {
        0
    } else if t[k - 1].1 as nat > max_bits(t, k - 1) {
        t[k - 1].1 as nat
    } else {
        max_bits(t, k - 1)
    }
}

/// The decoder from byte `i` of `enc`, holding the pending bits `p` and
/// having decoded `out`: it takes the shortest code word that starts the
/// pending bits, else the next byte; it stops after `n` symbols or at the
/// end of `enc`. `None` where the pending bits would no longer fit 64 bits
/// while there are code words to look for, or their count no longer fits a
/// byte.
pub open spec fn walk_v2(
    t: Seq<(u64, u8)>,
    maxb: nat,
    enc: Seq<u8>,
    i: int,
    p: Seq<bool>,
    out: Seq<u8>,
    n: nat,
) -> Option<Seq<u8>>
    decreases enc.len() - i, p.len(),
{
    match first_word(t, p, maxb, 1) {
        Some(l) => {
            proof {
                lemma_first_word_range(t, p, maxb, 1);
            }
            let o = out.push(sym_with_word(t, p.take(l as int), 0)->0);
            if o.len() == n {
                Some(o)
            } else {
                walk_v2(t, maxb, enc, i, p.skip(l as int), o, n)
            }
        },
        None => if maxb >= 64 && p.len() >= 64 {
            None
        } else if i >= enc.len() {
            Some(out)
        } else if maxb >= 1 && p.len() > 56 {
            None
        } else if p.len() > 247 {
            None
        } else {
            walk_v2(t, maxb, enc, i + 1, p + byte_bits(enc[i]), out, n)
        },
    }
}

/// Without code words the decoder only gathers bits: it ends with `out`,
/// unless a 32nd byte has to be taken in.
proof fn lemma_walk_no_words(
    t: Seq<(u64, u8)>,
    enc: Seq<u8>,
    i: int,
    p: Seq<bool>,
    out: Seq<u8>,
    n: nat,
)
    requires
        0 <= i <= enc.len(),
        i <= 31,
        p.len() == 8 * i,
    ensures
        walk_v2(t, 0, enc, i, p, out, n) == if enc.len() >= 32 {
            None::<Seq<u8>>
        } else {
            Some(out)
        },
    decreases enc.len() - i,
{
    assert(first_word(t, p, 0, 1) is None);
    if i < enc.len() && p.len() <= 247 {
        lemma_walk_no_words(t, enc, i + 1, p + byte_bits(enc[i]), out, n);
    }
}

/// What decoding `enc` with the code book `cb` into `n` symbols gives.
pub open spec fn decode_v2_spec(cb: Seq<u8>, enc: Seq<u8>, n: nat) -> Option<Seq<u8>> {
    let t = huffman::deserialize_spec(cb)->Ok_0.0;
    walk_v2(t, max_bits(t, 256), enc, 0, Seq::empty(), Seq::empty(), n)
}

/// The first symbol from `k` on whose entry is `(code, bits)`.
pub open spec fn sym_with_entry(t: Seq<(u64, u8)>, code: u64, bits: u8, k: int) -> Option<u8>
    decreases 256 - k,
{
    if k < 0 || k >= 256 {
        None
    } else if t[k] == (code, bits) {
        Some(k as u8)
    } else {
        sym_with_entry(t, code, bits, k + 1)
    }
}

fn find_symbol(table: &EncodeTable, code: u64, bits: u8) -> (r: Option<u8>)
    ensures
        r == sym_with_entry(table@, code, bits, 0),
{
    let mut k: usize = 0;
    while k < 256
        invariant
            k <= 256,
            sym_with_entry(table@, code, bits, 0) == sym_with_entry(table@, code, bits, k as int),
        decreases 256 - k,
    {
        if table[k].0 == code && table[k].1 == bits {
            return Some(k as u8);
        }
        k += 1;
    }
    None
}

proof fn lemma_low_bits_injective(a: u64, b: u64, l: nat)
    requires
        l < 64,
        a >> (l as u64) == 0,
        b >> (l as u64) == 0,
        low_bits(a, l) == low_bits(b, l),
    ensures
        a == b,
    decreases l,
{
    let ll = l as u64;
    if l == 0 {
        assert(a >> 0u64 == a && b >> 0u64 == b) by (bit_vector);
    } else {
        let a1 = a >> 1u64;
        let b1 = b >> 1u64;
        let lm = (l - 1) as u64;
        assert(a1 >> lm == a >> ll && b1 >> lm == b >> ll) by (bit_vector)
            requires
                1 <= ll < 64,
                lm + 1 == ll,
                a1 == a >> 1u64,
                b1 == b >> 1u64,
        ;
        let m = (l - 1) as nat;
        assert(low_bits(a1, m) =~= low_bits(b1, m)) by {
            assert forall|i: int| 0 <= i < m implies #[trigger] low_bits(a1, m)[i] == low_bits(
                b1,
                m,
            )[i] by {
                let k = (m - 1 - i) as u64;
                let k1 = (l - 1 - i) as u64;
                assert(k1 == k + 1);
                assert((a1 >> k) & 1 == (a >> k1) & 1 && (b1 >> k) & 1 == (b >> k1) & 1)
                    by (bit_vector)
                    requires
                        k < 63,
                        k1 == k + 1,
                        a1 == a >> 1u64,
                        b1 == b >> 1u64,
                ;
                assert(low_bits(a, l)[i] == ((a >> k1) & 1 == 1));
                assert(low_bits(b, l)[i] == ((b >> k1) & 1 == 1));
                assert(low_bits(a1, m)[i] == ((a1 >> k) & 1 == 1));
                assert(low_bits(b1, m)[i] == ((b1 >> k) & 1 == 1));
                assert(low_bits(a, l)[i] == low_bits(b, l)[i]);
            }
        }
        lemma_low_bits_injective(a1, b1, m);
        let z = (l - 1 - (l - 1)) as u64;
        assert(z == 0);
        assert(low_bits(a, l)[l - 1] == ((a >> z) & 1 == 1));
        assert(low_bits(b, l)[l - 1] == ((b >> z) & 1 == 1));
        assert(low_bits(a, l)[l - 1] == low_bits(b, l)[l - 1]);
        assert(a == b) by (bit_vector)
            requires
                z == 0,
                ((a >> z) & 1 == 1) == ((b >> z) & 1 == 1),
                a >> 1u64 == b >> 1u64,
        ;
    }
}

/// Looking a value up by entry is looking its bits up by code word.
proof fn lemma_sym_entry_word(t: Seq<(u64, u8)>, x: u64, l: u8, q: Seq<bool>, k: int)
    requires
        t.len() == 256,
        1 <= l < 64,
        x >> (l as u64) == 0,
        low_bits(x, l as nat) == q,
        0 <= k,
    ensures
        sym_with_entry(t, x, l, k) == sym_with_word(t, q, k),
    decreases 256 - k,
{
    if k < 256 {
        lemma_sym_entry_word(t, x, l, q, k + 1);
        let e = t[k];
        if e.1 as nat == q.len() && e.0 >> (e.1 as u64) == 0 && word(e) == q {
            lemma_low_bits_injective(e.0, x, l as nat);
        }
    }
}

/// The top `l` of the `len` pending bits of `buf`.
proof fn lemma_top_bits(buf: u64, len: u8, l: u8)
    requires
        1 <= l <= len <= 64,
        l < 64,
    ensures
        ({
            let x = (buf >> ((len - l) as u64)) & (((1u64 << (l as u64)) - 1) as u64);
            &&& x >> (l as u64) == 0
            &&& low_bits(x, l as nat) == low_bits(buf, len as nat).take(l as int)
        }),
{
    let s = (len - l) as u64;
    let ll = l as u64;
    let x = (buf >> s) & (((1u64 << ll) - 1) as u64);
    assert(x >> ll == 0) by (bit_vector)
        requires
            x == (buf >> s) & (((1u64 << ll) - 1) as u64),
            1 <= ll < 64,
    ;
    assert forall|i: int| 0 <= i < l implies #[trigger] low_bits(x, l as nat)[i] == low_bits(
        buf,
        len as nat,
    ).take(l as int)[i] by {
        let k = (l - 1 - i) as u64;
        assert((x >> k) & 1 == (buf >> (s + k)) & 1) by (bit_vector)
            requires
                x == (buf >> s) & (((1u64 << ll) - 1) as u64),
                k < ll,
                ll < 64,
                s + ll <= 64,
        ;
        assert((len - 1 - i) as u64 == s + k);
    }
    assert(low_bits(x, l as nat) =~= low_bits(buf, len as nat).take(l as int));
}

/// Dropping the top `l` of the `len` pending bits of `buf`.
proof fn lemma_drop_bits(buf: u64, len: u8, l: u8)
    requires
        1 <= l <= len <= 64,
    ensures
        ({
            let r = (len - l) as u64;
            let b2 = buf & (((1u64 << r) - 1) as u64);
            &&& b2 >> r == 0
            &&& low_bits(b2, r as nat) == low_bits(buf, len as nat).skip(l as int)
        }),
{
    let r = (len - l) as u64;
    let b2 = buf & (((1u64 << r) - 1) as u64);
    assert(b2 >> r == 0) by (bit_vector)
        requires
            b2 == buf & (((1u64 << r) - 1) as u64),
            r < 64,
    ;
    assert forall|i: int| 0 <= i < r implies #[trigger] low_bits(b2, r as nat)[i] == low_bits(
        buf,
        len as nat,
    ).skip(l as int)[i] by {
        let k = (r - 1 - i) as u64;
        assert((b2 >> k) & 1 == (buf >> k) & 1) by (bit_vector)
            requires
                b2 == buf & (((1u64 << r) - 1) as u64),
                k < r,
                r < 64,
        ;
        assert((len - 1 - (l + i)) as u64 == k);
    }
    assert(low_bits(b2, r as nat) =~= low_bits(buf, len as nat).skip(l as int));
}

/// Taking one more byte into the pending bits.
proof fn lemma_add_byte(buf: u64, len: u8, b: u8)
    requires
        len <= 56,
        buf >> (len as u64) == 0,
    ensures
        ({
            let b2 = (buf << 8u64) | (b as u64);
            &&& low_bits(b2, (len + 8) as nat) == low_bits(buf, len as nat) + byte_bits(b)
            &&& len + 8 < 64 ==> b2 >> ((len + 8) as u64) == 0
        }),
{
    let bb = b as u64;
    assert(bb >> 8u64 == 0) by (bit_vector)
        requires
            bb == b as u64,
    ;
    huffman::lemma_low_bits_append(buf, len as nat, bb, 8);
    assert forall|j: int| 0 <= j < 8 implies #[trigger] low_bits(bb, 8)[j] == byte_bits(b)[j] by {
        let k = (7 - j) as u64;
        let k8 = (7 - j) as u8;
        assert(((bb >> k) & 1 == 1) == ((b >> k8) & 1 == 1)) by (bit_vector)
            requires
                bb == b as u64,
                k < 8,
                k8 < 8,
                k == k8 as u64,
        ;
    }
    assert(low_bits(bb, 8) =~= byte_bits(b));
    let l = len as u64;
    let b2 = (buf << 8u64) | bb;
    assert(l + 8 < 64 ==> b2 >> (l + 8) == 0) by (bit_vector)
        requires
            b2 == (buf << 8u64) | bb,
            buf >> l == 0,
            bb >> 8u64 == 0,
            l <= 56,
    ;
}

/// The shortest code word at the start of the pending bits: `None` where
/// the search would reach 64 bits, else the word's length and symbol if
/// there is one.
fn next_word(
    table: &EncodeTable,
    maxb: u8,
    buf: u64,
    buf_len: u8,
    Ghost(p): Ghost<Seq<bool>>,
) -> (r: Option<Option<(u8, u8)>>)
    requires
        buf_len <= 64,
        p == low_bits(buf, buf_len as nat),
        buf_len < 64 ==> buf >> (buf_len as u64) == 0,
    ensures
        match r {
            None => first_word(table@, p, maxb as nat, 1) is None && maxb >= 64 && p.len() >= 64,
            Some(None) => first_word(table@, p, maxb as nat, 1) is None && !(maxb >= 64 && p.len()
                >= 64),
            Some(Some((l, s))) => first_word(table@, p, maxb as nat, 1) == Some(l as nat)
                && sym_with_word(table@, p.take(l as int), 0) == Some(s),
        },
{
    let lim = if maxb < buf_len {
        maxb
    } else {
        buf_len
    };
    let mut l: u8 = 1;
    while l <= lim
        invariant
            1 <= l <= 64,
            lim <= 64,
            lim == (if maxb < buf_len { maxb } else { buf_len }),
            buf_len <= 64,
            p == low_bits(buf, buf_len as nat),
            first_word(table@, p, maxb as nat, 1) == first_word(table@, p, maxb as nat, l as nat),
        decreases lim + 1 - l,
    {
        if l >= 64 {
            return None;
        }
        proof {
            lemma_top_bits(buf, buf_len, l);
        }
        assert(1u64 << (l as u64) >= 1) by (bit_vector)
            requires
                l < 64,
        ;
        let x = (buf >> ((buf_len - l) as u64)) & ((1u64 << (l as u64)) - 1);
        proof {
            lemma_sym_entry_word(table@, x, l, p.take(l as int), 0);
        }
        match find_symbol(table, x, l) {
            Some(s) => {
                return Some(Some((l, s)));
            },
            None => {},
        }
        l += 1;
    }
    Some(None)
}

/// The longest code word of a table.
fn max_code_bits(table: &EncodeTable) -> (m: u8)
    ensures
        m as nat == max_bits(table@, 256),
{
    let mut m: u8 = 0;
    let mut k: usize = 0;
    while k < 256
        invariant
            k <= 256,
            m as nat == max_bits(table@, k as int),
        decreases 256 - k,
    {
        if table[k].1 > m {
            m = table[k].1;
        }
        k += 1;
    }
    m
}

/// Decodes `enc` with the code book `cb_bytes` into `original_len`
/// symbols, shortest code word first; `None` where the pending bits would
/// no longer fit 64 bits.
pub fn try_huffman_decode(cb_bytes: &[u8], enc: &[u8], original_len: usize) -> (r: Option<
    Vec<u8>,
>)
    requires
        huffman::deserialize_spec(cb_bytes@) is Ok,
    ensures
        match r {
            Some(v) => decode_v2_spec(cb_bytes@, enc@, original_len as nat) == Some(v@),
            None => decode_v2_spec(cb_bytes@, enc@, original_len as nat) is None,
        },
{
    let table = match huffman::deserialize_table(cb_bytes) {
        Ok((t, _)) => t,
        Err(_) => {
            return None;
        },
    };
    let ghost t = table@;
    let maxb = max_code_bits(&table);
    let ghost target = decode_v2_spec(cb_bytes@, enc@, original_len as nat);
    let ghost n = original_len as nat;
    let mut out: Vec<u8> = Vec::with_capacity(original_len);
    let mut buf: u64 = 0;
    let mut buf_len: u8 = 0;
    let mut i: usize = 0;
    let ghost mut p: Seq<bool> = Seq::empty();
    if maxb == 0 {
        proof {
            lemma_walk_no_words(t, enc@, 0, p, out@, n);
        }
        if enc.len() >= 32 {
            return None;
        }
        return Some(out);
    }
    proof {
        assert(low_bits(0, 0) =~= Seq::<bool>::empty());
        assert(0u64 >> 0u64 == 0) by (bit_vector);
    }
    match next_word(&table, maxb, buf, buf_len, Ghost(p)) {
        None => {
            return None;
        },
        Some(Some(_)) => {
            proof {
                lemma_first_word_range(t, p, maxb as nat, 1);
            }
            assert(false);
        },
        Some(None) => {},
    }
    while i < enc.len()
        invariant
            i <= enc@.len(),
            t == table@,
            n == original_len,
            target == decode_v2_spec(cb_bytes@, enc@, original_len as nat),
            target == walk_v2(t, maxb as nat, enc@, i as int, p, out@, n),
            first_word(t, p, maxb as nat, 1) is None,
            !(maxb >= 64 && p.len() >= 64),
            maxb >= 1,
            buf_len <= 64,
            p == low_bits(buf, buf_len as nat),
            buf_len < 64 ==> buf >> (buf_len as u64) == 0,
        decreases enc@.len() - i,
    {
        if buf_len > 56 {
            return None;
        }
        let byte = enc[i];
        proof {
            lemma_add_byte(buf, buf_len, byte);
        }
        buf = (buf << 8) | (byte as u64);
        buf_len = buf_len + 8;
        proof {
            p = p + byte_bits(byte);
        }
        i += 1;
        let mut draining = true;
        while draining
            invariant
                i <= enc@.len(),
                t == table@,
                n == original_len,
                target == decode_v2_spec(cb_bytes@, enc@, original_len as nat),
                target == walk_v2(t, maxb as nat, enc@, i as int, p, out@, n),
                maxb >= 1,
                buf_len <= 64,
                p == low_bits(buf, buf_len as nat),
                buf_len < 64 ==> buf >> (buf_len as u64) == 0,
                !draining ==> first_word(t, p, maxb as nat, 1) is None && !(maxb >= 64 && p.len()
                    >= 64),
            decreases p.len() + if draining {
                1int
            } else {
                0int
            },
        {
            match next_word(&table, maxb, buf, buf_len, Ghost(p)) {
                None => {
                    return None;
                },
                Some(None) => {
                    draining = false;
                },
                Some(Some((l, s))) => {
                    proof {
                        lemma_first_word_range(t, p, maxb as nat, 1);
                        lemma_drop_bits(buf, buf_len, l);
                    }
                    out.push(s);
                    buf_len = buf_len - l;
                    assert(1u64 << (buf_len as u64) >= 1) by (bit_vector)
                        requires
                            buf_len < 64,
                    ;
                    buf = buf & ((1u64 << (buf_len as u64)) - 1);
                    proof {
                        p = p.skip(l as int);
                    }
                    if out.len() == original_len {
                        return Some(out);
                    }
                },
            }
        }
    }
    Some(out)
}

/// Decodes `enc` with the code book `cb_bytes` into `original_len` symbols.
pub fn huffman_decode(cb_bytes: &[u8], enc: &[u8], original_len: usize) -> (out: Vec<u8>)
    requires
        huffman::deserialize_spec(cb_bytes@) is Ok,
        decode_v2_spec(cb_bytes@, enc@, original_len as nat) is Some,
    ensures
        decode_v2_spec(cb_bytes@, enc@, original_len as nat) == Some(out@),
{
    try_huffman_decode(cb_bytes, enc, original_len).unwrap()
}

// ─── Blobs ──────────────────────────────────────────────────────────────────

/// Longest input `compress_bytes` takes: its run-length coding, at most
/// three times as long, stays below `F(66)` bytes, so no Huffman code word
/// reaches 64 bits.
pub const V2_MAX_INPUT_LEN: u64 = 9_259_296_678_429;

/// Why a version-2 blob was refused.
#[derive(Debug, Clone, Copy, PartialEq, Eq)]
pub enum V2Error {
    /// Shorter than the 20-byte blob header.
    TooShort,
}

proof fn lemma_rle_len(s: Seq<u8>)
    ensures
        rle_spec(s).len() <= 3 * s.len(),
    decreases s.len(),
{
    if s.len() > 0 {
        lemma_run_count(s, 1);
        lemma_rle_len(s.skip(run_len(s) as int));
    }
}

/// The blob `compress_bytes` writes for `data`: the lengths of the data,
/// of its run-length coding and of the code book, the code book, then the
/// code words of the run-length coding.
pub open spec fn blob_v2_spec(data: Seq<u8>) -> Seq<u8> {
    let rle = rle_spec(data);
    let t = huffman::huffman_table(huffman::freqs_of(rle));
    let cb = huffman::serialize_spec(t);
    u64_le(data.len() as u64) + u64_le(rle.len() as u64) + u32_bytes(cb.len() as u32) + cb
        + huffman::encode_spec(rle, known_table(t))
}

/// Whether every byte of the run-length coding of `data` gets a Huffman
/// code word shorter than 64 bits, as the Huffman coder needs.
pub open spec fn rle_codes_fit(data: Seq<u8>) -> bool {
    let r = rle_spec(data);
    huffman::codes_shorter_than_64(r, huffman::huffman_table(huffman::freqs_of(r)))
}

/// Compresses `data`: run-length coding, then Huffman coding. It needs the
/// code words to stay below 64 bits, which holds of every input of at most
/// `V2_MAX_INPUT_LEN` bytes.
pub fn compress_bytes(data: &[u8]) -> (out: Vec<u8>)
    requires
        data@.len() <= V2_MAX_INPUT_LEN || rle_codes_fit(data@),
    ensures
        out@ == blob_v2_spec(data@),
{
    let rle = rle_encode(data);
    proof {
        if data@.len() <= V2_MAX_INPUT_LEN {
            lemma_rle_len(data@);
            huffman::lemma_short_data_codes(rle@);
        }
    }
    let (cb, enc) = huffman_encode(rle.as_slice());
    proof {
        huffman::lemma_serialize_len(huffman::huffman_table(huffman::freqs_of(rle@)));
    }
    let mut out: Vec<u8> = Vec::new();
    archive::push_u64(&mut out, data.len() as u64);
    archive::push_u64(&mut out, rle.len() as u64);
    archive::push_u32(&mut out, cb.len() as u32);
    archive::push_all(&mut out, cb.as_slice());
    archive::push_all(&mut out, enc.as_slice());
    out
}

/// What `decompress_bytes` gives for `data`; `None` where the code book
/// runs past the end of the blob or is cut short, or the code words cannot
/// be decoded.
pub open spec fn decompress_v2_spec(data: Seq<u8>) -> Option<Result<Seq<u8>, V2Error>> {
    if data.len() < 20 {
        Some(Err(V2Error::TooShort))
    } else {
        let rle_len = u64_at(data, 8) as usize;
        let cb_len = u32_at(data, 16) as nat;
        if 20 + cb_len > data.len() {
            None
        } else {
            let cb = data.subrange(20, 20 + cb_len as int);
            let enc = data.subrange(20 + cb_len as int, data.len() as int);
            if huffman::deserialize_spec(cb) is Err {
                None
            } else {
                match decode_v2_spec(cb, enc, rle_len as nat) {
                    None => None,
                    Some(rle) => Some(Ok(unrle_spec(rle))),
                }
            }
        }
    }
}

/// Decompresses a blob, or `None` where it has no defined result (see
/// `decompress_v2_spec`).
pub fn try_decompress_bytes(data: &[u8]) -> (r: Option<Result<Vec<u8>, V2Error>>)
    ensures
        match r {
            None => decompress_v2_spec(data@) is None,
            Some(Ok(v)) => decompress_v2_spec(data@) == Some(Ok::<Seq<u8>, V2Error>(v@)),
            Some(Err(e)) => decompress_v2_spec(data@) == Some(Err::<Seq<u8>, V2Error>(e)),
        },
{
    if data.len() < 20 {
        return Some(Err(V2Error::TooShort));
    }
    let original_len = archive::read_u64(data, 0) as usize;
    let rle_len = archive::read_u64(data, 8) as usize;
    let cb_len = archive::read_u32(data, 16) as usize;
    if data.len() - 20 < cb_len {
        return None;
    }
    let cb = vstd::slice::slice_subrange(data, 20, 20 + cb_len);
    let enc = vstd::slice::slice_subrange(data, 20 + cb_len, data.len());
    match huffman::deserialize_table(cb) {
        Err(_) => {
            return None;
        },
        Ok(_) => {},
    }
    match try_huffman_decode(cb, enc, rle_len) {
        None => None,
        Some(rle) => Some(Ok(rle_decode(rle.as_slice(), original_len))),
    }
}

/// Decompresses a blob made by `compress_bytes`.
pub fn decompress_bytes(data: &[u8]) -> (r: Result<Vec<u8>, V2Error>)
    requires
        decompress_v2_spec(data@) is Some,
    ensures
        match r {
            Ok(v) => decompress_v2_spec(data@) == Some(Ok::<Seq<u8>, V2Error>(v@)),
            Err(e) => decompress_v2_spec(data@) == Some(Err::<Seq<u8>, V2Error>(e)),
        },
{
    try_decompress_bytes(data).unwrap()
}

// ─── Index entries ──────────────────────────────────────────────────────────

/// A file or directory of a version-2 archive.
#[derive(Debug, Clone, PartialEq, Eq)]
pub struct Entry {
    pub path: String,
    pub is_dir: bool,
    pub mode: u32,
    pub mtime: u64,
    /// Offset of the blob from the start of the payload.
    pub data_offset: u64,
    /// Length of the blob.
    pub data_len: u64,
}

/// An entry as plain values: path, is_dir, mode, mtime, data_offset, data_len.
pub type EntryV2View = (Seq<char>, bool, u32, u64, u64, u64);

impl Entry {
    pub open spec fn view(&self) -> EntryV2View {
        (self.path@, self.is_dir, self.mode, self.mtime, self.data_offset, self.data_len)
    }
}

/// Why a version-2 entry could not be read.
#[derive(Debug, Clone, Copy, PartialEq, Eq)]
pub enum EntryError {
    /// The bytes end before a field of the entry.
    UnexpectedEof,
    /// The path is not valid UTF-8.
    PathNotUtf8,
}

/// The bytes of an entry after its path.
pub open spec fn entry_tail_v2(e: EntryV2View) -> Seq<u8> {
    seq![
        if e.1 {
            1u8
        } else {
            0u8
        },
    ] + u32_bytes(e.2) + u64_le(e.3) + u64_le(e.4) + u64_le(e.5)
}

/// The bytes of an entry.
pub open spec fn entry_bytes_v2(e: EntryV2View) -> Seq<u8> {
    let pb = encode_utf8(e.0);
    u32_bytes(pb.len() as u32) + pb + entry_tail_v2(e)
}

/// What reading an entry at `pos` of `d` gives: the entry and the position after it.
pub open spec fn parse_entry_v2_spec(d: Seq<u8>, pos: nat) -> Result<(EntryV2View, nat), EntryError> {
    if pos + 4 > d.len() {
        Err(EntryError::UnexpectedEof)
    } else {
        let plen = u32_at(d, pos as int) as nat;
        if pos + 4 + plen > d.len() {
            Err(EntryError::UnexpectedEof)
        } else {
            let pb = d.subrange(pos + 4int, pos + 4 + plen as int);
            if !valid_utf8(pb) {
                Err(EntryError::PathNotUtf8)
            } else {
                let p: int = (pos + 4 + plen) as int;
                if p + 29 > d.len() {
                    Err(EntryError::UnexpectedEof)
                } else {
                    Ok(
                        (
                            (
                                decode_utf8(pb),
                                d[p] != 0,
                                u32_at(d, p + 1),
                                u64_at(d, p + 5),
                                u64_at(d, p + 13),
                                u64_at(d, p + 21),
                            ),
                            (p + 29) as nat,
                        ),
                    )
                }
            }
        }
    }
}

/// Writes an entry.
pub fn write_entry_header(e: &Entry, out: &mut Vec<u8>)
    ensures
        final(out)@ == old(out)@ + entry_bytes_v2(e@),
{
    let pb = e.path.as_str().as_bytes();
    let ghost start = out@;
    archive::push_u32(out, pb.len() as u32);
    archive::push_all(out, pb);
    out.push(
        if e.is_dir {
            1u8
        } else {
            0u8
        },
    );
    archive::push_u32(out, e.mode);
    archive::push_u64(out, e.mtime);
    archive::push_u64(out, e.data_offset);
    archive::push_u64(out, e.data_len);
    assert(out@ =~= start + entry_bytes_v2(e@));
}

/// Reads an entry at `pos`; returns it and the position after it.
pub fn read_entry_header(d: &[u8], pos: usize) -> (r: Result<(Entry, usize), EntryError>)
    ensures
        match r {
            Ok((e, next)) => parse_entry_v2_spec(d@, pos as nat) == Ok::<
                (EntryV2View, nat),
                EntryError,
            >((e@, next as nat)),
            Err(err) => parse_entry_v2_spec(d@, pos as nat) == Err::<(EntryV2View, nat), EntryError>(
                err,
            ),
        },
{
    if pos > d.len() || d.len() - pos < 4 {
        return Err(EntryError::UnexpectedEof);
    }
    let plen = archive::read_u32(d, pos) as usize;
    if d.len() - pos - 4 < plen {
        return Err(EntryError::UnexpectedEof);
    }
    let start = pos + 4;
    let pslice = vstd::slice::slice_subrange(d, start, start + plen);
    let mut pb: Vec<u8> = Vec::new();
    archive::push_all(&mut pb, pslice);
    let path = match archive::string_from_utf8(pb) {
        Some(s) => s,
        None => {
            return Err(EntryError::PathNotUtf8);
        },
    };
    let p = start + plen;
    if d.len() - p < 29 {
        return Err(EntryError::UnexpectedEof);
    }
    let is_dir = d[p] != 0;
    let mode = archive::read_u32(d, p + 1);
    let mtime = archive::read_u64(d, p + 5);
    let data_offset = archive::read_u64(d, p + 13);
    let data_len = archive::read_u64(d, p + 21);
    Ok((Entry { path, is_dir, mode, mtime, data_offset, data_len }, p + 29))
}

// ─── What is written reads back ─────────────────────────────────────────────

proof fn lemma_tail_v2_fields(d: Seq<u8>, p: int, e: EntryV2View)
    requires
        0 <= p,
        p + 29 <= d.len(),
        d.subrange(p, p + 29) == entry_tail_v2(e),
    ensures
        (d[p] != 0) == e.1,
        u32_at(d, p + 1) == e.2,
        u64_at(d, p + 5) == e.3,
        u64_at(d, p + 13) == e.4,
        u64_at(d, p + 21) == e.5,
{
    let tail = entry_tail_v2(e);
    assert(d[p] == tail[0]);
    assert(d.subrange(p + 1, p + 5) =~= tail.subrange(1, 5));
    assert(tail.subrange(1, 5) =~= u32_bytes(e.2));
    archive::lemma_u32_in(d, p + 1, e.2);
    assert(d.subrange(p + 5, p + 13) =~= tail.subrange(5, 13));
    assert(tail.subrange(5, 13) =~= u64_le(e.3));
    archive::lemma_u64_in(d, p + 5, e.3);
    assert(d.subrange(p + 13, p + 21) =~= tail.subrange(13, 21));
    assert(tail.subrange(13, 21) =~= u64_le(e.4));
    archive::lemma_u64_in(d, p + 13, e.4);
    assert(d.subrange(p + 21, p + 29) =~= tail.subrange(21, 29));
    assert(tail.subrange(21, 29) =~= u64_le(e.5));
    archive::lemma_u64_in(d, p + 21, e.5);
}

/// An entry written between `pre` and `suf` reads back.
#[verifier::spinoff_prover]
#[verifier::rlimit(100)]
pub proof fn lemma_entry_v2_roundtrip(pre: Seq<u8>, e: EntryV2View, suf: Seq<u8>)
    requires
        encode_utf8(e.0).len() < 0x1_0000_0000,
    ensures
        parse_entry_v2_spec(pre + entry_bytes_v2(e) + suf, pre.len()) == Ok::<
            (EntryV2View, nat),
            EntryError,
        >((e, pre.len() + entry_bytes_v2(e).len())),
{
    let pb = encode_utf8(e.0);
    vstd::utf8::encode_utf8_valid_utf8(e.0);
    vstd::utf8::encode_utf8_decode_utf8(e.0);
    let head = u32_bytes(pb.len() as u32);
    let tail = entry_tail_v2(e);
    assert(entry_bytes_v2(e) =~= head + pb + tail);
    let d = pre + entry_bytes_v2(e) + suf;
    let n = pre.len() as int;
    let l = pb.len() as int;
    assert(d =~= pre + head + (pb + tail + suf));
    archive::lemma_mid(pre, head, pb + tail + suf);
    archive::lemma_u32_in(d, n, pb.len() as u32);
    assert(d =~= (pre + head) + pb + (tail + suf));
    archive::lemma_mid(pre + head, pb, tail + suf);
    let p = n + 4 + l;
    assert(d =~= (pre + head + pb) + tail + suf);
    archive::lemma_mid(pre + head + pb, tail, suf);
    lemma_tail_v2_fields(d, p, e);
    assert(u32_at(d, n) as nat == l);
    assert(d.subrange(n + 4, n + 4 + l) == pb);
    assert(p + 29 <= d.len());
}

proof fn lemma_max_bits(t: Seq<(u64, u8)>, k: int)
    requires
        0 <= k <= t.len(),
        forall|s: int| 0 <= s < t.len() ==> #[trigger] t[s].1 <= 57,
    ensures
        max_bits(t, k) <= 57,
        forall|s: int| 0 <= s < k ==> #[trigger] t[s].1 <= max_bits(t, k),
    decreases k,
{
    if k > 0 {
        lemma_max_bits(t, k - 1);
    }
}

proof fn lemma_first_word_finds(t: Seq<(u64, u8)>, p: Seq<bool>, maxb: nat, l: nat, len: nat)
    requires
        1 <= l <= len,
        len <= maxb,
        len <= p.len(),
        len < 64,
        sym_with_word(t, p.take(len as int), 0) is Some,
    ensures
        first_word(t, p, maxb, l) is Some,
    decreases len - l,
{
    if sym_with_word(t, p.take(l as int), 0) is None {
        lemma_first_word_finds(t, p, maxb, l + 1, len);
    }
}

proof fn lemma_sym_with_word_found(t: Seq<(u64, u8)>, q: Seq<bool>, k: int)
    requires
        0 <= k,
    ensures
        sym_with_word(t, q, k) matches Some(x) ==> k <= x < 256 && t[x as int].1 == q.len()
            && word(t[x as int]) == q,
    decreases 256 - k,
{
    if k < 256 {
        lemma_sym_with_word_found(t, q, k + 1);
        assert(((k as u8) as int) == k);
    }
}

proof fn lemma_sym_with_word_unique(t: Seq<(u64, u8)>, q: Seq<bool>, s: int, k: int)
    requires
        prefix_code(t),
        0 <= k <= s < 256,
        t[s].1 > 0,
        word(t[s]) == q,
    ensures
        sym_with_word(t, q, k) == Some(s as u8),
    decreases s - k,
{
    if k < s {
        if t[k].1 as nat == q.len() && word(t[k]) == q {
            assert(t[k].1 > 0);
            assert(q.take(q.len() as int) =~= q);
            assert(!is_prefix(word(t[k]), word(t[s])));
        }
        lemma_sym_with_word_unique(t, q, s, k + 1);
    }
}

proof fn lemma_bytes_bits_take(s: Seq<u8>, i: int)
    requires
        0 <= i <= s.len(),
    ensures
        bytes_bits(s.take(i)) == bytes_bits(s).take(8 * i),
{
    assert forall|k: int| 0 <= k < 8 * i implies #[trigger] bytes_bits(s.take(i))[k] == bytes_bits(
        s,
    )[k] by {
        assert(k / 8 < i) by (nonlinear_arith)
            requires
                0 <= k < 8 * i,
        ;
        assert(s.take(i)[k / 8] == s[k / 8]);
    }
    assert(bytes_bits(s.take(i)) =~= bytes_bits(s).take(8 * i));
}

/// Decoding the words of `data`, from the word of `data[m]` on, gives `data`.
proof fn lemma_walk_words(
    t: Seq<(u64, u8)>,
    maxb: nat,
    data: Seq<u8>,
    enc: Seq<u8>,
    pad: nat,
    i: int,
    p: Seq<bool>,
    m: int,
)
    requires
        prefix_code(t),
        forall|s: int| 0 <= s < 256 ==> #[trigger] t[s].1 <= maxb,
        maxb <= 57,
        forall|j: int| 0 <= j < data.len() ==> t[#[trigger] data[j] as int].1 > 0,
        bytes_bits(enc) == words_of(data, t) + zeros(pad),
        0 <= i <= enc.len(),
        0 <= m < data.len(),
        bytes_bits(enc.take(i)) == words_of(data.take(m), t) + p,
    ensures
        walk_v2(t, maxb, enc, i, p, data.take(m), data.len()) == Some(data),
    decreases enc.len() - i, p.len(),
{
    let big_w = words_of(data.take(m), t);
    let sym = data[m] as int;
    let w = word(t[sym]);
    let all = bytes_bits(enc);
    lemma_bytes_bits_take(enc, i);
    huffman::lemma_words_of_prefix(data, t, m + 1);
    assert(data.take(m + 1).drop_last() =~= data.take(m));
    assert(data.take(m + 1).last() == data[m]);
    assert(words_of(data.take(m + 1), t) == big_w + w);
    let wl = (big_w.len() + w.len()) as int;
    assert(wl <= words_of(data, t).len());
    assert(wl <= all.len());
    assert(all.take(wl) =~= big_w + w) by {
        assert(words_of(data, t).take(wl) == big_w + w);
    }
    assert(all.len() == 8 * enc.len());
    assert(8 * i <= all.len());
    assert(all.take(8 * i) == big_w + p);
    assert((big_w + p).len() == 8 * i);
    assert forall|k: int| 0 <= k < p.len() implies #[trigger] p[k] == all[big_w.len() + k] by {
        assert((big_w + p)[big_w.len() + k] == p[k]);
        assert(all.take(8 * i)[big_w.len() + k] == all[big_w.len() + k]);
    }
    assert(p =~= all.subrange(big_w.len() as int, 8 * i));
    assert forall|k: int| 0 <= k < w.len() implies #[trigger] w[k] == all[big_w.len() + k] by {
        assert((big_w + w)[big_w.len() + k] == w[k]);
        assert(all.take(wl)[big_w.len() + k] == all[big_w.len() + k]);
    }
    assert(w =~= all.subrange(big_w.len() as int, wl));
    lemma_sym_with_word_unique(t, w, sym, 0);
    assert((sym as u8) == data[m]);
    match first_word(t, p, maxb, 1) {
        Some(l) => {
            lemma_first_word_range(t, p, maxb, 1);
            let q = p.take(l as int);
            let s2 = sym_with_word(t, q, 0)->0;
            lemma_sym_with_word_found(t, q, 0);
            assert(q =~= all.subrange(big_w.len() as int, big_w.len() + l as int));
            if s2 as int != sym {
                if l <= w.len() {
                    assert(w.take(l as int) =~= q);
                    assert(is_prefix(word(t[s2 as int]), word(t[sym])));
                } else {
                    assert(q.take(w.len() as int) =~= w);
                    assert(is_prefix(word(t[sym]), word(t[s2 as int])));
                }
                assert(false);
            }
            assert(l == w.len());
            let o = data.take(m).push(data[m]);
            assert(o =~= data.take(m + 1));
            if m + 1 == data.len() {
                assert(data.take(m + 1) =~= data);
            } else {
                assert(p =~= w + p.skip(l as int));
                assert(bytes_bits(enc.take(i)) =~= words_of(data.take(m + 1), t) + p.skip(l as int));
                lemma_walk_words(t, maxb, data, enc, pad, i, p.skip(l as int), m + 1);
            }
        },
        None => {
            if w.len() <= p.len() {
                assert(p.take(w.len() as int) =~= w);
                lemma_first_word_finds(t, p, maxb, 1, w.len());
                assert(false);
            }
            if i >= enc.len() {
                assert(enc.take(i) =~= enc);
                assert(false);
            }
            assert(enc.take(i + 1) =~= enc.take(i).push(enc[i]));
            huffman::lemma_bytes_bits_push(enc.take(i), enc[i]);
            assert(bytes_bits(enc.take(i + 1)) =~= big_w + (p + byte_bits(enc[i])));
            lemma_walk_words(t, maxb, data, enc, pad, i + 1, p + byte_bits(enc[i]), m);
        },
    }
}

/// Decoding, shortest code word first, the code words that `huffman_encode`
/// writes for `data` gives `data` back whenever no code word is longer than
/// 57 bits.
pub proof fn lemma_huffman_v2_roundtrip(data: Seq<u8>)
    requires
        data.len() <= u64::MAX,
        forall|s: int|
            0 <= s < 256 ==> #[trigger] huffman::huffman_table(huffman::freqs_of(data))[s].1 <= 57,
    ensures
        ({
            let t = huffman::huffman_table(huffman::freqs_of(data));
            decode_v2_spec(huffman::serialize_spec(t), huffman::encode_spec(data, known_table(t)), data.len())
                == Some(data)
        }),
{
    let freqs = huffman::freqs_of(data);
    huffman::lemma_huffman_prefix_code(freqs);
    let t = huffman::huffman_table(freqs);
    assert(known_table(t) =~= t);
    assert forall|j: int| 0 <= j < data.len() implies t[#[trigger] data[j] as int].1 > 0 by {
        huffman::lemma_count_pos(data, j);
    }
    huffman::lemma_serialize_roundtrip(t);
    lemma_max_bits(t, 256);
    let maxb = max_bits(t, 256);
    let enc = huffman::encode_spec(data, t);
    assert(huffman::codes_fit(data, t));
    assert(bytes_bits(Seq::<u8>::empty()) + low_bits(0, 0) =~= words_of(data.take(0), t));
    huffman::lemma_encode_from_bits(data, t, 0, 0, 0, Seq::empty());
    let pad = choose|pad: nat| pad < 8 && bytes_bits(enc) == words_of(data, t) + #[trigger] zeros(pad);
    if data.len() == 0 {
        assert(enc == Seq::<u8>::empty());
        assert(first_word(t, Seq::<bool>::empty(), maxb, 1) is None);
        assert(data =~= Seq::<u8>::empty());
    } else {
        assert(enc.take(0) =~= Seq::<u8>::empty());
        assert(data.take(0) =~= Seq::<u8>::empty());
        assert(bytes_bits(Seq::<u8>::empty()) =~= words_of(Seq::<u8>::empty(), t) + Seq::<bool>::empty());
        lemma_walk_words(t, maxb, data, enc, pad, 0, Seq::empty(), 0);
    }
}

/// Decompressing what `compress_bytes` made of `data` gives `data` back
/// whenever no code word of the Huffman code of its run-length coding is
/// longer than 57 bits (such data meets what `compress_bytes` requires),
/// and that coding fits the machine's `usize`.
pub proof fn lemma_blob_v2_roundtrip(data: Seq<u8>)
    requires
        3 * data.len() <= usize::MAX,
        forall|s: int|
            0 <= s < 256 ==> #[trigger] huffman::huffman_table(huffman::freqs_of(rle_spec(data)))[s].1
                <= 57,
    ensures
        rle_codes_fit(data),
        decompress_v2_spec(blob_v2_spec(data)) == Some(Ok::<Seq<u8>, V2Error>(data)),
{
    let r0 = rle_spec(data);
    let t0 = huffman::huffman_table(huffman::freqs_of(r0));
    assert forall|i: int| 0 <= i < r0.len() implies t0[#[trigger] r0[i] as int].1 < 64 by {
        assert(t0[r0[i] as int].1 <= 57);
    }
    let rle = rle_spec(data);
    lemma_rle_len(data);
    let t = huffman::huffman_table(huffman::freqs_of(rle));
    let cb = huffman::serialize_spec(t);
    huffman::lemma_serialize_len(t);
    let enc = huffman::encode_spec(rle, known_table(t));
    let blob = blob_v2_spec(data);
    let h1 = u64_le(data.len() as u64);
    let h2 = u64_le(rle.len() as u64);
    let h3 = u32_bytes(cb.len() as u32);
    assert(blob =~= h1 + h2 + h3 + cb + enc);
    assert(blob.subrange(8, 16) =~= h2);
    archive::lemma_u64_in(blob, 8, rle.len() as u64);
    assert(blob.subrange(16, 20) =~= h3);
    archive::lemma_u32_in(blob, 16, cb.len() as u32);
    assert(blob.subrange(20, 20 + cb.len() as int) =~= cb);
    assert(blob.subrange(20 + cb.len() as int, blob.len() as int) =~= enc);
    huffman::lemma_huffman_prefix_code(huffman::freqs_of(rle));
    huffman::lemma_serialize_roundtrip(t);
    lemma_huffman_v2_roundtrip(rle);
    lemma_rle_roundtrip(data);
}

// ─── Reading a version-2 archive ────────────────────────────────────────────

/// The version byte of a version-2 archive.
pub const VERSION_V2: u8 = 2;

/// Length of the header of a version-2 archive: magic, version, entry count.
pub const V2_HEADER_LEN: usize = 13;

/// Why a version-2 archive index was refused.
#[derive(Debug, Clone, Copy, PartialEq, Eq)]
pub enum V2ArchiveError {
    /// The archive ends before a field it declares.
    UnexpectedEof,
    /// The first eight bytes are not the magic.
    NotAnArchive,
    /// The version byte is not `VERSION_V2`.
    UnsupportedVersion(u8),
    /// An entry path is not valid UTF-8.
    PathNotUtf8,
}

/// The archive error for an entry error.
pub open spec fn entry_error(e: EntryError) -> V2ArchiveError {
    match e {
        EntryError::UnexpectedEof => V2ArchiveError::UnexpectedEof,
        EntryError::PathNotUtf8 => V2ArchiveError::PathNotUtf8,
    }
}

/// What reading `k` entries from `pos` gives: the entries and the position after them.
pub open spec fn parse_entries_v2_spec(d: Seq<u8>, pos: nat, k: nat) -> Result<
    (Seq<EntryV2View>, nat),
    V2ArchiveError,
>
    decreases k,
{
    if k == 0 {
        Ok((Seq::empty(), pos))
    } else {
        match parse_entries_v2_spec(d, pos, (k - 1) as nat) {
            Err(e) => Err(e),
            Ok((es, p)) => match parse_entry_v2_spec(d, p) {
                Err(e) => Err(entry_error(e)),
                Ok((e, q)) => Ok((es.push(e), q)),
            },
        }
    }
}

/// What reading the index of the version-2 archive `d` gives: the entries
/// and the position where the payload starts.
pub open spec fn parse_index_v2_spec(d: Seq<u8>) -> Result<(Seq<EntryV2View>, nat), V2ArchiveError> {
    if d.len() < 8 {
        Err(V2ArchiveError::UnexpectedEof)
    } else if d.take(8) != archive::magic_bytes() {
        Err(V2ArchiveError::NotAnArchive)
    } else if d.len() < 9 {
        Err(V2ArchiveError::UnexpectedEof)
    } else if d[8] != VERSION_V2 {
        Err(V2ArchiveError::UnsupportedVersion(d[8]))
    } else if d.len() < 13 {
        Err(V2ArchiveError::UnexpectedEof)
    } else {
        parse_entries_v2_spec(d, 13, u32_at(d, 9) as nat)
    }
}

/// The views of a list of version-2 entries.
pub open spec fn views_v2(es: Seq<Entry>) -> Seq<EntryV2View> {
    es.map_values(|e: Entry| e@)
}

proof fn lemma_parse_entries_v2_err_stays(d: Seq<u8>, k: nat, n: nat)
    requires
        k <= n,
        parse_entries_v2_spec(d, 13, k) is Err,
    ensures
        parse_entries_v2_spec(d, 13, n) == parse_entries_v2_spec(d, 13, k),
    decreases n - k,
{
    if k < n {
        lemma_parse_entries_v2_err_stays(d, k, (n - 1) as nat);
    }
}

/// Reads the index of a version-2 archive: the entries and the position
/// where the payload starts.
pub fn parse_index_v2(d: &[u8]) -> (r: Result<(Vec<Entry>, usize), V2ArchiveError>)
    ensures
        match r {
            Ok((es, p)) => parse_index_v2_spec(d@) == Ok::<(Seq<EntryV2View>, nat), V2ArchiveError>(
                (views_v2(es@), p as nat),
            ),
            Err(e) => parse_index_v2_spec(d@) == Err::<(Seq<EntryV2View>, nat), V2ArchiveError>(e),
        },
{
    if d.len() < 8 {
        return Err(V2ArchiveError::UnexpectedEof);
    }
    let mut k: usize = 0;
    let magic = archive::MAGIC;
    assert(magic@ == archive::magic_bytes());
    while k < 8
        invariant
            k <= 8,
            d@.len() >= 8,
            magic@ == archive::magic_bytes(),
            forall|j: int| 0 <= j < k ==> d@[j] == archive::magic_bytes()[j],
        decreases 8 - k,
    {
        if d[k] != magic[k] {
            assert(d@.take(8)[k as int] != archive::magic_bytes()[k as int]);
            return Err(V2ArchiveError::NotAnArchive);
        }
        k += 1;
    }
    assert(d@.take(8) =~= archive::magic_bytes());
    if d.len() < 9 {
        return Err(V2ArchiveError::UnexpectedEof);
    }
    if d[8] != VERSION_V2 {
        return Err(V2ArchiveError::UnsupportedVersion(d[8]));
    }
    if d.len() < 13 {
        return Err(V2ArchiveError::UnexpectedEof);
    }
    let n = archive::read_u32(d, 9);
    let mut entries: Vec<Entry> = Vec::new();
    let mut pos: usize = 13;
    let mut i: u32 = 0;
    assert(views_v2(entries@) =~= Seq::<EntryV2View>::empty());
    while i < n
        invariant
            i <= n,
            parse_index_v2_spec(d@) == parse_entries_v2_spec(d@, 13, n as nat),
            n == u32_at(d@, 9),
            parse_entries_v2_spec(d@, 13, i as nat) == Ok::<(Seq<EntryV2View>, nat), V2ArchiveError>(
                (views_v2(entries@), pos as nat),
            ),
        decreases n - i,
    {
        match read_entry_header(d, pos) {
            Ok((e, next)) => {
                let ghost before = entries@;
                entries.push(e);
                proof {
                    assert(views_v2(entries@) =~= views_v2(before).push(e@));
                }
                pos = next;
            },
            Err(err) => {
                let x = match err {
                    EntryError::UnexpectedEof => V2ArchiveError::UnexpectedEof,
                    EntryError::PathNotUtf8 => V2ArchiveError::PathNotUtf8,
                };
                proof {
                    assert(parse_entries_v2_spec(d@, 13, i as nat + 1) == Err::<
                        (Seq<EntryV2View>, nat),
                        V2ArchiveError,
                    >(x));
                    lemma_parse_entries_v2_err_stays(d@, i as nat + 1, n as nat);
                }
                return Err(x);
            },
        }
        i += 1;
    }
    Ok((entries, pos))
}

/// The byte range of the blob of `e` in the payload, when it lies inside.
pub open spec fn blob_range_v2(payload_len: nat, e: EntryV2View) -> Option<(nat, nat)> {
    if e.4 + e.5 <= payload_len {
        Some((e.4 as nat, (e.4 + e.5) as nat))
    } else {
        None
    }
}

/// Unpacks the file of the version-2 entry `e` from `payload`: `None` where
/// its blob lies outside the payload or has no defined result.
pub fn unpack_entry_v2(payload: &[u8], e: &Entry) -> (r: Option<Result<Vec<u8>, V2Error>>)
    ensures
        match blob_range_v2(payload@.len(), e@) {
            None => r is None,
            Some((a, b)) => match r {
                None => decompress_v2_spec(payload@.subrange(a as int, b as int)) is None,
                Some(Ok(v)) => decompress_v2_spec(payload@.subrange(a as int, b as int)) == Some(
                    Ok::<Seq<u8>, V2Error>(v@),
                ),
                Some(Err(x)) => decompress_v2_spec(payload@.subrange(a as int, b as int)) == Some(
                    Err::<Seq<u8>, V2Error>(x),
                ),
            },
        },
{
    let len = payload.len() as u64;
    if e.data_offset > len || len - e.data_offset < e.data_len {
        return None;
    }
    let blob = vstd::slice::slice_subrange(
        payload,
        e.data_offset as usize,
        (e.data_offset + e.data_len) as usize,
    );
    try_decompress_bytes(blob)
}

/// Counts and totals over the entries of a version-2 archive.
#[derive(Debug, Clone, Copy, PartialEq, Eq)]
pub struct ArchiveStatsV2 {
    pub n_files: usize,
    pub n_dirs: usize,
    /// The file lengths, read from the first eight bytes of each blob (0 for
    /// a blob shorter than that).
    pub total_orig: u64,
    /// The blob lengths of all entries.
    pub total_comp: u64,
}

/// The file length that the blob of the file entry `e` records: its first
/// eight bytes, or 0 for a blob shorter than that.
pub open spec fn recorded_len(payload: Seq<u8>, e: EntryV2View) -> nat {
    if e.5 >= 8 {
        u64_at(payload, e.4 as int) as nat
    } else {
        0
    }
}

/// Whether the length field of the file entry `e` lies inside the payload.
pub open spec fn len_readable(payload: Seq<u8>, e: EntryV2View) -> bool {
    e.5 >= 8 ==> e.4 + 8 <= payload.len()
}

/// Counts and totals of the entries `es`: files, directories, the lengths
/// their blobs record and the blob lengths.
pub open spec fn stats_v2(payload: Seq<u8>, es: Seq<EntryV2View>) -> (nat, nat, nat, nat)
    decreases es.len(),
{
    if es.len() == 0 {
        (0, 0, 0, 0)
    } else {
        let (f, d, o, c) = stats_v2(payload, es.drop_last());
        let e = es.last();
        if e.1 {
            (f, d + 1, o, c + e.5 as nat)
        } else {
            (f + 1, d, o + recorded_len(payload, e), c + e.5 as nat)
        }
    }
}

/// Whether every file entry of `es` has its length field inside the payload.
pub open spec fn all_readable(payload: Seq<u8>, es: Seq<EntryV2View>) -> bool {
    forall|i: int| 0 <= i < es.len() && !(#[trigger] es[i]).1 ==> len_readable(payload, es[i])
}

proof fn lemma_stats_v2_counts(payload: Seq<u8>, es: Seq<EntryV2View>)
    ensures
        stats_v2(payload, es).0 + stats_v2(payload, es).1 == es.len(),
    decreases es.len(),
{
    if es.len() > 0 {
        lemma_stats_v2_counts(payload, es.drop_last());
    }
}

proof fn lemma_stats_v2_grow(payload: Seq<u8>, es: Seq<EntryV2View>, k: int)
    requires
        0 <= k <= es.len(),
    ensures
        stats_v2(payload, es.take(k)).2 <= stats_v2(payload, es).2,
        stats_v2(payload, es.take(k)).3 <= stats_v2(payload, es).3,
    decreases es.len() - k,
{
    if k < es.len() {
        lemma_stats_v2_grow(payload, es, k + 1);
        assert(es.take(k + 1).drop_last() =~= es.take(k));
    } else {
        assert(es.take(k) =~= es);
    }
}

/// The files are the entries without the directory flag and the
/// directories those with it, whatever their lengths.
pub proof fn lemma_stats_v2_counts_filter(payload: Seq<u8>, es: Seq<EntryV2View>)
    ensures
        stats_v2(payload, es).0 == es.filter(|e: EntryV2View| !e.1).len(),
        stats_v2(payload, es).1 == es.filter(|e: EntryV2View| e.1).len(),
    decreases es.len(),
{
    reveal(Seq::filter);
    if es.len() > 0 {
        lemma_stats_v2_counts_filter(payload, es.drop_last());
    }
}

/// The length a file entry's blob records is the length of the file: for a
/// blob that `compress_bytes` made of `d`, it is `d.len()`.
pub proof fn lemma_recorded_len_is_file_len(payload: Seq<u8>, e: EntryV2View, d: Seq<u8>)
    requires
        e.4 + e.5 <= payload.len(),
        payload.subrange(e.4 as int, e.4 + e.5) == blob_v2_spec(d),
        d.len() <= u64::MAX,
    ensures
        len_readable(payload, e),
        recorded_len(payload, e) == d.len(),
{
    let blob = blob_v2_spec(d);
    let rle = rle_spec(d);
    let t = huffman::huffman_table(huffman::freqs_of(rle));
    let cb = huffman::serialize_spec(t);
    let h1 = u64_le(d.len() as u64);
    assert(blob =~= h1 + (u64_le(rle.len() as u64) + u32_bytes(cb.len() as u32) + cb
        + huffman::encode_spec(rle, known_table(t))));
    assert(blob.len() >= 8);
    assert(payload.subrange(e.4 as int, e.4 + 8) =~= blob.subrange(0, 8));
    assert(blob.subrange(0, 8) =~= h1);
    archive::lemma_u64_in(payload, e.4 as int, d.len() as u64);
}

/// The total a list of files adds up to: the lengths of the contents `ds`
/// of the entries that are files.
pub open spec fn file_total(es: Seq<EntryV2View>, ds: Seq<Seq<u8>>) -> nat
    decreases es.len(),
{
    if es.len() == 0 || ds.len() == 0 {
        0
    } else {
        file_total(es.drop_last(), ds.drop_last()) + if es.last().1 {
            0
        } else {
            ds.last().len()
        }
    }
}

/// For an archive whose file blobs are what `compress_bytes` made of the
/// contents `ds`, the original total is the sum of the file lengths, and
/// the compressed total the sum of the blob lengths.
pub proof fn lemma_stats_v2_totals(payload: Seq<u8>, es: Seq<EntryV2View>, ds: Seq<Seq<u8>>)
    requires
        ds.len() == es.len(),
        forall|k: int|
            0 <= k < es.len() && !(#[trigger] es[k]).1 ==> {
                &&& es[k].4 + es[k].5 <= payload.len()
                &&& payload.subrange(es[k].4 as int, es[k].4 + es[k].5) == blob_v2_spec(ds[k])
                &&& ds[k].len() <= u64::MAX
            },
    ensures
        all_readable(payload, es),
        stats_v2(payload, es).2 == file_total(es, ds),
    decreases es.len(),
{
    if es.len() > 0 {
        let e0 = es.drop_last();
        let d0 = ds.drop_last();
        assert forall|k: int| 0 <= k < e0.len() && !(#[trigger] e0[k]).1 implies {
            &&& e0[k].4 + e0[k].5 <= payload.len()
            &&& payload.subrange(e0[k].4 as int, e0[k].4 + e0[k].5) == blob_v2_spec(d0[k])
            &&& d0[k].len() <= u64::MAX
        } by {
            assert(e0[k] == es[k] && d0[k] == ds[k]);
        }
        lemma_stats_v2_totals(payload, e0, d0);
        let last = es.last();
        if !last.1 {
            assert(last == es[es.len() - 1]);
            lemma_recorded_len_is_file_len(payload, last, ds.last());
        }
        assert forall|i: int| 0 <= i < es.len() && !(#[trigger] es[i]).1 implies len_readable(
            payload,
            es[i],
        ) by {
            if i < es.len() - 1 {
                assert(es[i] == e0[i]);
            } else {
                lemma_recorded_len_is_file_len(payload, es[i], ds[i]);
            }
        }
    }
}

/// Counts and totals over the entries of a version-2 archive: `None` when a
/// file's length field lies outside the payload or a total exceeds 64 bits.
pub fn archive_stats_v2(entries: &[Entry], payload: &[u8]) -> (r: Option<ArchiveStatsV2>)
    ensures
        ({
            let es = entries@.map_values(|e: Entry| e@);
            let (f, d, o, c) = stats_v2(payload@, es);
            match r {
                Some(st) => all_readable(payload@, es) && st.n_files == f && st.n_dirs == d
                    && st.total_orig == o && st.total_comp == c && st.n_files == es.filter(
                    |e: EntryV2View| !e.1,
                ).len() && st.n_dirs == es.filter(|e: EntryV2View| e.1).len(),
                None => !all_readable(payload@, es) || o > u64::MAX || c > u64::MAX,
            }
        }),
{
    let ghost es = entries@.map_values(|e: Entry| e@);
    proof {
        lemma_stats_v2_counts_filter(payload@, es);
    }
    let mut n_files: usize = 0;
    let mut n_dirs: usize = 0;
    let mut total_orig: u64 = 0;
    let mut total_comp: u64 = 0;
    let mut i: usize = 0;
    while i < entries.len()
        invariant
            i <= entries@.len(),
            es == entries@.map_values(|e: Entry| e@),
            stats_v2(payload@, es.take(i as int)) == (
                n_files as nat,
                n_dirs as nat,
                total_orig as nat,
                total_comp as nat,
            ),
            all_readable(payload@, es.take(i as int)),
        decreases entries@.len() - i,
    {
        let e = &entries[i];
        proof {
            assert(es.take(i + 1).drop_last() =~= es.take(i as int));
            assert(es[i as int] == e@);
            lemma_stats_v2_counts(payload@, es.take(i as int));
        }
        let comp = match total_comp.checked_add(e.data_len) {
            Some(c) => c,
            None => {
                proof {
                    lemma_stats_v2_grow(payload@, es, i + 1);
                }
                return None;
            },
        };
        if e.is_dir {
            n_dirs = n_dirs + 1;
        } else {
            let orig: u64 = if e.data_len >= 8 {
                let len = payload.len() as u64;
                if e.data_offset > len || len - e.data_offset < 8 {
                    proof {
                        assert(!len_readable(payload@, es[i as int]));
                        assert(es.take(i + 1)[i as int] == es[i as int]);
                    }
                    return None;
                }
                archive::read_u64(payload, e.data_offset as usize)
            } else {
                0
            };
            total_orig = match total_orig.checked_add(orig) {
                Some(o) => o,
                None => {
                    proof {
                        lemma_stats_v2_grow(payload@, es, i + 1);
                    }
                    return None;
                },
            };
            n_files = n_files + 1;
        }
        total_comp = comp;
        i += 1;
        proof {
            assert forall|j: int| 0 <= j < i && !(#[trigger] es.take(i as int)[j]).1 implies len_readable(
                payload@,
                es.take(i as int)[j],
            ) by {
                if j < i - 1 {
                    assert(es.take(i as int)[j] == es.take(i - 1)[j]);
                }
            }
        }
    }
    assert(es.take(entries@.len() as int) =~= es);
    Some(ArchiveStatsV2 { n_files, n_dirs, total_orig, total_comp })
}

} // verus!
