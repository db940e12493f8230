//! Two-pass Huffman coding of bytes: count the byte frequencies, build a code
//! from them, then write the code book followed by the packed code words.
use vstd::prelude::*;
use vstd::arithmetic::power2::pow2;

verus! {

// ─── Frequencies ────────────────────────────────────────────────────────────

/// How many times `b` occurs in `s`.
pub open spec fn count(s: Seq<u8>, b: u8) -> nat
    decreases s.len(),
{
    if s.len() == 0 {
        0
    } else {
        count(s.drop_last(), b) + if s.last() == b {
            1nat
        } else {
            0nat
        }
    }
}

proof fn lemma_count_le_len(s: Seq<u8>, b: u8)
    ensures
        count(s, b) <= s.len(),
    decreases s.len(),
{
    if s.len() > 0 {
        lemma_count_le_len(s.drop_last(), b);
    }
}

/// How often each byte value occurs in `data`.
pub fn count_freqs(data: &[u8]) -> (f: [u64; 256])
    ensures
        forall|b: u8| #[trigger] f@[b as int] == count(data@, b),
{
    let mut f = [0u64; 256];
    let mut i: usize = 0;
    while i < data.len()
        invariant
            i <= data.len(),
            f@.len() == 256,
            forall|b: u8| #[trigger] f@[b as int] == count(data@.take(i as int), b),
        decreases data.len() - i,
    {
        let b = data[i];
        proof {
            assert(data@.take(i + 1).drop_last() =~= data@.take(i as int));
            lemma_count_le_len(data@.take(i as int), b);
        }
        let c = f[b as usize];
        f[b as usize] = c + 1;
        i += 1;
        assert forall|x: u8| #[trigger] f@[x as int] == count(data@.take(i as int), x) by {
            assert(data@.take(i as int).last() == b);
        }
    }
    assert(data@.take(data@.len() as int) =~= data@);
    f
}

// ─── Code tree ──────────────────────────────────────────────────────────────

/// A code tree: the code word of a leaf is the path to it, 0 for left, 1 for right.
pub enum Tree {
    Leaf { sym: u8, freq: u64 },
    Node { freq: u64, left: Box<Tree>, right: Box<Tree> },
}

impl Tree {
    /// The weight of a tree: the frequency recorded at its root.
    pub open spec fn weight(&self) -> nat {
        match self {
            Tree::Leaf { freq, .. } => *freq as nat,
            Tree::Node { freq, .. } => *freq as nat,
        }
    }

    fn freq(&self) -> (r: u64)
        ensures
            r == self.weight(),
    {
        match self {
            Tree::Leaf { freq, .. } => *freq,
            Tree::Node { freq, .. } => *freq,
        }
    }
}

spec fn tree_depth(t: Tree) -> nat
    decreases t,
{
    match t {
        Tree::Leaf { .. } => 0,
        Tree::Node { left, right, .. } => 1 + if tree_depth(*left) >= tree_depth(*right) {
            tree_depth(*left)
        } else {
            tree_depth(*right)
        },
    }
}

spec fn leaf_count(t: Tree) -> nat
    decreases t,
{
    match t {
        Tree::Leaf { .. } => 1,
        Tree::Node { left, right, .. } => leaf_count(*left) + leaf_count(*right),
    }
}

proof fn lemma_depth_below_leaf_count(t: Tree)
    ensures
        tree_depth(t) < leaf_count(t),
    decreases t,
{
    match t {
        Tree::Leaf { .. } => {},
        Tree::Node { left, right, .. } => {
            lemma_depth_below_leaf_count(*left);
            lemma_depth_below_leaf_count(*right);
        },
    }
}

/// Sum of the weights of a forest.
spec fn weight_sum(f: Seq<Box<Tree>>) -> nat
    decreases f.len(),
{
    if f.len() == 0 {
        0
    } else {
        weight_sum(f.drop_last()) + f.last().weight()
    }
}

/// Number of leaves of a forest.
spec fn leaves_sum(f: Seq<Box<Tree>>) -> nat
    decreases f.len(),
{
    if f.len() == 0 {
        0
    } else {
        leaves_sum(f.drop_last()) + leaf_count(*f.last())
    }
}

proof fn lemma_sums_remove(f: Seq<Box<Tree>>, i: int)
    requires
        0 <= i < f.len(),
    ensures
        weight_sum(f) == weight_sum(f.remove(i)) + f[i].weight(),
        leaves_sum(f) == leaves_sum(f.remove(i)) + leaf_count(*f[i]),
    decreases f.len(),
{
    if i < f.len() - 1 {
        let d = f.drop_last();
        lemma_sums_remove(d, i);
        assert(f.remove(i).drop_last() =~= d.remove(i));
        assert(f.remove(i).last() == f.last());
    } else {
        assert(f.remove(i) =~= f.drop_last());
    }
}

/// The first tree of least weight.
pub open spec fn min_index(f: Seq<Box<Tree>>) -> int
    decreases f.len(),
{
    if f.len() <= 1 {
        0
    } else {
        let m = min_index(f.drop_last());
        if f.last().weight() < f[m].weight() {
            f.len() - 1
        } else {
            m
        }
    }
}

proof fn lemma_min_index(f: Seq<Box<Tree>>)
    requires
        f.len() >= 1,
    ensures
        0 <= min_index(f) < f.len(),
        forall|k: int| 0 <= k < f.len() ==> f[min_index(f)].weight() <= #[trigger] f[k].weight(),
    decreases f.len(),
{
    if f.len() > 1 {
        let d = f.drop_last();
        lemma_min_index(d);
        assert forall|k: int| 0 <= k < f.len() implies f[min_index(f)].weight() <= #[trigger] f[k].weight() by {
            if k < f.len() - 1 {
                assert(f[k] == d[k]);
            }
            assert(f[min_index(d)] == d[min_index(d)]);
        }
    }
}

/// One step of the construction: the two lightest trees become the children of a new tree.
pub open spec fn merge_step(f: Seq<Box<Tree>>) -> Seq<Box<Tree>> {
    let i = min_index(f);
    let a = f[i];
    let f1 = f.remove(i);
    let j = min_index(f1);
    let b = f1[j];
    f1.remove(j).push(
        Box::new(Tree::Node { freq: (a.weight() + b.weight()) as u64, left: a, right: b }),
    )
}

/// A merge step leaves one tree fewer.
pub proof fn lemma_merge_step_len(f: Seq<Box<Tree>>)
    requires
        f.len() >= 2,
    ensures
        merge_step(f).len() == f.len() - 1,
{
    lemma_min_index(f);
    let f1 = f.remove(min_index(f));
    lemma_min_index(f1);
}

/// The forest once every tree has been merged into one.
pub open spec fn merged(f: Seq<Box<Tree>>) -> Seq<Box<Tree>>
    decreases f.len(),
{
    if f.len() <= 1 {
        f
    } else {
        proof {
            lemma_merge_step_len(f);
        }
        merged(merge_step(f))
    }
}

/// One leaf per byte value below `k` that occurs, in increasing order.
pub open spec fn leaves(freqs: Seq<u64>, k: int) -> Seq<Box<Tree>>
    decreases k,
{
    if k <= 0 {
        Seq::empty()
    } else {
        let l = leaves(freqs, k - 1);
        if freqs[k - 1] > 0 {
            l.push(Box::new(Tree::Leaf { sym: (k - 1) as u8, freq: freqs[k - 1] }))
        } else {
            l
        }
    }
}

proof fn lemma_leaves_are_leaves(freqs: Seq<u64>, k: int)
    ensures
        forall|i: int| 0 <= i < leaves(freqs, k).len() ==> (*#[trigger] leaves(freqs, k)[i]) is Leaf,
        leaves(freqs, k).len() <= if k < 0 { 0 } else { k },
    decreases k,
{
    if k > 0 {
        lemma_leaves_are_leaves(freqs, k - 1);
        let l = leaves(freqs, k - 1);
        assert forall|i: int| 0 <= i < leaves(freqs, k).len() implies (*#[trigger] leaves(freqs, k)[i]) is Leaf by {
            if i < l.len() {
                assert(leaves(freqs, k)[i] == l[i]);
            }
        }
    }
}

/// A code word: right-justified in the `u64`, with its length in bits.
pub type EncodeTable = [(u64, u8); 256];

/// The table in which no byte value has a code word.
pub open spec fn empty_table() -> Seq<(u64, u8)> {
    Seq::new(256, |i: int| (0u64, 0u8))
}

/// The code words of the leaves of `t`, entered into `table`; `code` and
/// `depth` are the path to `t`.
pub open spec fn assign_spec(t: Tree, code: u64, depth: u8, table: Seq<(u64, u8)>) -> Seq<(u64, u8)>
    decreases t,
{
    match t {
        Tree::Leaf { sym, .. } => table.update(sym as int, (code, depth)),
        Tree::Node { left, right, .. } => assign_spec(
            *right,
            (code << 1) | 1,
            (depth + 1) as u8,
            assign_spec(*left, code << 1, (depth + 1) as u8, table),
        ),
    }
}

/// The Huffman code of the byte frequencies `freqs`: no code word for a
/// byte that does not occur, the one-bit word `0` when only one byte value
/// occurs, else the paths of the tree built by repeatedly merging the two
/// lightest trees (the first of equal weight first).
pub open spec fn huffman_table(freqs: Seq<u64>) -> Seq<(u64, u8)> {
    let l = leaves(freqs, 256);
    if l.len() == 0 {
        empty_table()
    } else if l.len() == 1 {
        match *l[0] {
            Tree::Leaf { sym, .. } => empty_table().update(sym as int, (0u64, 1u8)),
            _ => empty_table(),
        }
    } else {
        assign_spec(*merged(l)[0], 0, 0, empty_table())
    }
}

proof fn lemma_assign_len(t: Tree, code: u64, depth: u8, table: Seq<(u64, u8)>)
    requires
        table.len() == 256,
    ensures
        assign_spec(t, code, depth, table).len() == table.len(),
    decreases t,
{
    match t {
        Tree::Leaf { .. } => {},
        Tree::Node { left, right, .. } => {
            lemma_assign_len(*left, code << 1, (depth + 1) as u8, table);
            lemma_assign_len(
                *right,
                (code << 1) | 1,
                (depth + 1) as u8,
                assign_spec(*left, code << 1, (depth + 1) as u8, table),
            );
        },
    }
}

/// A Huffman table has an entry for each of the 256 byte values.
pub proof fn lemma_table_len(freqs: Seq<u64>)
    ensures
        huffman_table(freqs).len() == 256,
{
    let l = leaves(freqs, 256);
    if l.len() >= 2 {
        lemma_assign_len(*merged(l)[0], 0, 0, empty_table());
    }
}

/// The sum of all frequencies.
pub open spec fn freq_total(freqs: Seq<u64>, k: int) -> nat
    decreases k,
{
    if k <= 0 {
        0
    } else {
        freq_total(freqs, k - 1) + freqs[k - 1] as nat
    }
}

fn min_index_exec(f: &Vec<Box<Tree>>) -> (r: usize)
    requires
        f@.len() >= 1,
    ensures
        r == min_index(f@),
{
    let mut best: usize = 0;
    let mut i: usize = 1;
    while i < f.len()
        invariant
            1 <= i <= f@.len(),
            best == min_index(f@.take(i as int)),
        decreases f@.len() - i,
    {
        proof {
            lemma_min_index(f@.take(i as int));
            assert(f@.take(i + 1).drop_last() =~= f@.take(i as int));
        }
        if f[i].freq() < f[best].freq() {
            best = i;
        }
        i += 1;
    }
    assert(f@.take(f@.len() as int) =~= f@);
    best
}

fn assign(node: &Tree, code: u64, depth: u8, table: &mut EncodeTable)
    requires
        depth + tree_depth(*node) <= 255,
    ensures
        final(table)@ == assign_spec(*node, code, depth, old(table)@),
    decreases node,
{
    match node {
        Tree::Leaf { sym, .. } => {
            table[*sym as usize] = (code, depth);
        },
        Tree::Node { left, right, .. } => {
            assign(left, code << 1, depth + 1, table);
            assign(right, (code << 1) | 1, depth + 1, table);
        },
    }
}

/// Builds the Huffman code of the byte frequencies `freqs`.
pub fn build_encode_table(freqs: &[u64; 256]) -> (table: EncodeTable)
    requires
        freq_total(freqs@, 256) <= u64::MAX,
    ensures
        table@ == huffman_table(freqs@),
        forall|s: int| 0 <= s < 256 ==> ((#[trigger] table@[s]).1 > 0 <==> freqs@[s] > 0),
        forall|s: int| 0 <= s < 256 && freqs@[s] == 0 ==> #[trigger] table@[s] == (0u64, 0u8),
{
    proof {
        lemma_huffman_table_support(freqs@);
    }
    let mut table = [(0u64, 0u8); 256];
    assert(table@ =~= empty_table());
    let mut heap: Vec<Box<Tree>> = Vec::new();
    let mut k: usize = 0;
    while k < 256
        invariant
            k <= 256,
            freqs@.len() == 256,
            heap@ == leaves(freqs@, k as int),
            table@ == empty_table(),
            weight_sum(heap@) == freq_total(freqs@, k as int),
            leaves_sum(heap@) <= k,
        decreases 256 - k,
    {
        if freqs[k] > 0 {
            heap.push(Box::new(Tree::Leaf { sym: k as u8, freq: freqs[k] }));
            proof {
                assert(heap@.drop_last() =~= leaves(freqs@, k as int));
            }
        }
        k += 1;
    }
    if heap.len() == 0 {
        return table;
    }
    if heap.len() == 1 {
        let ghost l = heap@;
        proof {
            lemma_leaves_are_leaves(freqs@, 256);
            assert((*l[0]) is Leaf);
        }
        let t = heap.pop().unwrap();
        assert(l[0] == t);
        let sym = match *t {
            Tree::Leaf { sym, .. } => sym,
            _ => 0,
        };
        table[sym as usize] = (0, 1);
        return table;
    }
    let ghost l = heap@;
    while heap.len() > 1
        invariant
            l == leaves(freqs@, 256),
            table@ == empty_table(),
            merged(heap@) == merged(l),
            heap@.len() >= 1,
            weight_sum(heap@) <= u64::MAX,
            leaves_sum(heap@) <= 256,
        decreases heap@.len(),
    {
        let ghost f = heap@;
        let i = min_index_exec(&heap);
        proof {
            lemma_min_index(f);
            lemma_sums_remove(f, i as int);
        }
        let a = heap.remove(i);
        let ghost f1 = heap@;
        let j = min_index_exec(&heap);
        proof {
            lemma_min_index(f1);
            lemma_sums_remove(f1, j as int);
        }
        let b = heap.remove(j);
        let w = a.freq() + b.freq();
        heap.push(Box::new(Tree::Node { freq: w, left: a, right: b }));
        proof {
            assert(heap@ == merge_step(f));
            assert(heap@.drop_last() == f1.remove(j as int));
        }
    }
    let ghost fin = heap@;
    let root = heap.pop().unwrap();
    proof {
        assert(fin.len() == 1);
        assert(fin[0] == root);
        assert(merged(fin) == fin);
        lemma_depth_below_leaf_count(*root);
        assert(fin.drop_last() =~= Seq::<Box<Tree>>::empty());
        assert(fin.last() == root);
        assert(leaves_sum(fin.drop_last()) == 0);
        assert(leaves_sum(fin) == leaf_count(*root));
    }
    assign(&root, 0, 0, &mut table);
    table
}

// ─── Code book serialization ────────────────────────────────────────────────

/// Why a Huffman stream or code book was refused.
#[derive(Debug, Clone, Copy, PartialEq, Eq)]
pub enum HuffmanError {
    /// The code book ends before its declared entries.
    CodebookTruncated,
    /// The stream is shorter than its two-byte code book length.
    HeaderTruncated,
    /// The stream ends inside its code book.
    StreamCodebookTruncated,
}

/// The eight bytes of `x`, least significant first.
pub open spec fn u64_le(x: u64) -> Seq<u8> {
    seq![
        (x & 0xff) as u8,
        ((x >> 8u64) & 0xff) as u8,
        ((x >> 16u64) & 0xff) as u8,
        ((x >> 24u64) & 0xff) as u8,
        ((x >> 32u64) & 0xff) as u8,
        ((x >> 40u64) & 0xff) as u8,
        ((x >> 48u64) & 0xff) as u8,
        ((x >> 56u64) & 0xff) as u8,
    ]
}

/// The `u64` whose bytes, least significant first, are `b[0..8]`.
pub open spec fn le_u64(b: Seq<u8>) -> u64 {
    (b[0] as u64) | ((b[1] as u64) << 8u64) | ((b[2] as u64) << 16u64) | ((b[3] as u64) << 24u64)
        | ((b[4] as u64) << 32u64) | ((b[5] as u64) << 40u64) | ((b[6] as u64) << 48u64) | ((
    b[7] as u64) << 56u64)
}

pub proof fn lemma_le_u64_roundtrip(x: u64)
    ensures
        le_u64(u64_le(x)) == x,
{
    let b = u64_le(x);
    let (b0, b1, b2, b3, b4, b5, b6, b7) = (b[0], b[1], b[2], b[3], b[4], b[5], b[6], b[7]);
    assert(b0 == (x & 0xff) as u8);
    assert((b0 as u64) | ((b1 as u64) << 8u64) | ((b2 as u64) << 16u64) | ((b3 as u64) << 24u64)
        | ((b4 as u64) << 32u64) | ((b5 as u64) << 40u64) | ((b6 as u64) << 48u64) | ((
    b7 as u64) << 56u64) == x) by (bit_vector)
        requires
            b0 == (x & 0xff) as u8,
            b1 == ((x >> 8u64) & 0xff) as u8,
            b2 == ((x >> 16u64) & 0xff) as u8,
            b3 == ((x >> 24u64) & 0xff) as u8,
            b4 == ((x >> 32u64) & 0xff) as u8,
            b5 == ((x >> 40u64) & 0xff) as u8,
            b6 == ((x >> 48u64) & 0xff) as u8,
            b7 == ((x >> 56u64) & 0xff) as u8,
    ;
}

/// The two bytes of `x`, least significant first.
pub open spec fn u16_le(x: nat) -> Seq<u8> {
    seq![(x % 0x100) as u8, ((x / 0x100) % 0x100) as u8]
}

/// The entries of a table that have a code word, symbols below `k`, in increasing order.
pub open spec fn table_entries(t: Seq<(u64, u8)>, k: int) -> Seq<(u8, u64, u8)>
    decreases k,
{
    if k <= 0 {
        Seq::empty()
    } else {
        let es = table_entries(t, k - 1);
        if t[k - 1].1 > 0 {
            es.push(((k - 1) as u8, t[k - 1].0, t[k - 1].1))
        } else {
            es
        }
    }
}

/// One serialized entry: symbol, length, code word.
pub open spec fn entry_bytes(e: (u8, u64, u8)) -> Seq<u8> {
    seq![e.0, e.2] + u64_le(e.1)
}

pub open spec fn entries_bytes(es: Seq<(u8, u64, u8)>) -> Seq<u8>
    decreases es.len(),
{
    if es.len() == 0 {
        Seq::empty()
    } else {
        entries_bytes(es.drop_last()) + entry_bytes(es.last())
    }
}

/// A serialized table: the number of entries (two bytes), then the entries.
pub open spec fn serialize_spec(t: Seq<(u64, u8)>) -> Seq<u8> {
    let es = table_entries(t, 256);
    u16_le(es.len()) + entries_bytes(es)
}

/// The table filled from the first `i` entries of a serialized code book.
pub open spec fn fill(data: Seq<u8>, i: int) -> Seq<(u64, u8)>
    decreases i,
{
    if i <= 0 {
        empty_table()
    } else {
        let off = 2 + (i - 1) * 10;
        fill(data, i - 1).update(
            data[off] as int,
            (le_u64(data.subrange(off + 2, off + 10)), data[off + 1]),
        )
    }
}

/// What reading a code book from the start of `data` gives: the table and
/// the number of bytes read.
pub open spec fn deserialize_spec(data: Seq<u8>) -> Result<(Seq<(u64, u8)>, nat), HuffmanError> {
    if data.len() < 2 {
        Err(HuffmanError::CodebookTruncated)
    } else {
        let n = data[0] as nat + data[1] as nat * 0x100;
        let needed = 2 + n * 10;
        if data.len() < needed {
            Err(HuffmanError::CodebookTruncated)
        } else {
            Ok((fill(data, n as int), needed as nat))
        }
    }
}

fn push_u64_le(out: &mut Vec<u8>, x: u64)
    ensures
        final(out)@ == old(out)@ + u64_le(x),
{
    out.push((x & 0xff) as u8);
    out.push(((x >> 8) & 0xff) as u8);
    out.push(((x >> 16) & 0xff) as u8);
    out.push(((x >> 24) & 0xff) as u8);
    out.push(((x >> 32) & 0xff) as u8);
    out.push(((x >> 40) & 0xff) as u8);
    out.push(((x >> 48) & 0xff) as u8);
    out.push(((x >> 56) & 0xff) as u8);
    assert(final(out)@ =~= old(out)@ + u64_le(x));
}

fn read_u64_le(data: &[u8], off: usize) -> (r: u64)
    requires
        off + 8 <= data@.len(),
    ensures
        r == le_u64(data@.subrange(off as int, off + 8)),
{
    let ghost b = data@.subrange(off as int, off + 8);
    assert(b[0] == data[off as int] && b[7] == data@[off + 7]);
    (data[off] as u64) | ((data[off + 1] as u64) << 8) | ((data[off + 2] as u64) << 16) | ((data[off
        + 3] as u64) << 24) | ((data[off + 4] as u64) << 32) | ((data[off + 5] as u64) << 40) | ((
    data[off + 6] as u64) << 48) | ((data[off + 7] as u64) << 56)
}

/// Serializes the entries of `table` that have a code word.
pub fn serialize_table(table: &EncodeTable) -> (out: Vec<u8>)
    ensures
        out@ == serialize_spec(table@),
{
    let mut entries: Vec<(u8, u64, u8)> = Vec::new();
    let mut i: usize = 0;
    while i < 256
        invariant
            i <= 256,
            table@.len() == 256,
            entries@ == table_entries(table@, i as int),
            entries@.len() <= i,
        decreases 256 - i,
    {
        let (code, bits) = table[i];
        if bits > 0 {
            entries.push((i as u8, code, bits));
        }
        i += 1;
    }
    let mut out: Vec<u8> = Vec::new();
    let n = entries.len();
    out.push((n % 0x100) as u8);
    out.push(((n / 0x100) % 0x100) as u8);
    assert(out@ =~= u16_le(entries@.len()));
    let mut k: usize = 0;
    while k < entries.len()
        invariant
            k <= entries@.len(),
            out@ == u16_le(entries@.len()) + entries_bytes(entries@.take(k as int)),
        decreases entries@.len() - k,
    {
        let (sym, code, bits) = entries[k];
        out.push(sym);
        out.push(bits);
        push_u64_le(&mut out, code);
        proof {
            assert(entries@.take(k + 1).drop_last() =~= entries@.take(k as int));
            assert(out@ =~= u16_le(entries@.len()) + entries_bytes(entries@.take(k + 1)));
        }
        k += 1;
    }
    assert(entries@.take(entries@.len() as int) =~= entries@);
    out
}

/// Reads a code book from the start of `data`; returns the table and the
/// number of bytes read.
pub fn deserialize_table(data: &[u8]) -> (r: Result<(EncodeTable, usize), HuffmanError>)
    ensures
        match r {
            Ok((t, used)) => deserialize_spec(data@) == Ok::<(Seq<(u64, u8)>, nat), HuffmanError>(
                (t@, used as nat),
            ),
            Err(e) => deserialize_spec(data@) == Err::<(Seq<(u64, u8)>, nat), HuffmanError>(e),
        },
{
    if data.len() < 2 {
        return Err(HuffmanError::CodebookTruncated);
    }
    let n = data[0] as usize + data[1] as usize * 0x100;
    let needed = 2 + n * 10;
    if data.len() < needed {
        return Err(HuffmanError::CodebookTruncated);
    }
    let mut table = [(0u64, 0u8); 256];
    assert(table@ =~= fill(data@, 0));
    let mut i: usize = 0;
    while i < n
        invariant
            i <= n,
            needed == 2 + n * 10,
            needed <= data@.len(),
            table@ == fill(data@, i as int),
        decreases n - i,
    {
        let off = 2 + i * 10;
        let sym = data[off] as usize;
        let bits = data[off + 1];
        let code = read_u64_le(data, off + 2);
        table[sym] = (code, bits);
        i += 1;
    }
    Ok((table, needed))
}

// ─── Decode tree ────────────────────────────────────────────────────────────

/// Second field of a leaf node; its first field is the symbol.
pub const LEAF_MARK: u16 = 0xFFFF;

/// A child that does not exist.
pub const NIL: u16 = 0xFFFE;

/// A binary trie of the code words: `nodes[i]` is `(left, right)` for an
/// inner node and `(symbol, LEAF_MARK)` for a leaf; the root is `nodes[0]`.
pub struct DecodeTree {
    nodes: Vec<(u16, u16)>,
}

/// `pair` with its `bit` side replaced by `v`.
pub open spec fn set_child(pair: (u16, u16), bit: int, v: u16) -> (u16, u16) {
    if bit == 0 {
        (v, pair.1)
    } else {
        (pair.0, v)
    }
}

/// The `bit` side of `pair`.
pub open spec fn child(pair: (u16, u16), bit: int) -> u16 {
    if bit == 0 {
        pair.0
    } else {
        pair.1
    }
}

/// Bit `d` of `code` (bit 0 is the least significant).
pub open spec fn code_bit(code: u64, d: int) -> int {
    ((code >> (d as u64)) & 1) as int
}

/// Walks the trie from `node` along the `d` low bits of `code` (most
/// significant first), creating inner nodes where a child is missing, and
/// makes the node reached a leaf for `sym`. `None` when the walk leaves the
/// node array or a bit position is beyond the 64 bits of `code`.
pub open spec fn insert_code(nodes: Seq<(u16, u16)>, node: int, code: u64, d: int, sym: u8) -> Option<
    Seq<(u16, u16)>,
>
    decreases d,
{
    if node < 0 || node >= nodes.len() {
        None
    } else if d <= 0 {
        Some(nodes.update(node, (sym as u16, LEAF_MARK)))
    } else if d - 1 >= 64 {
        None
    } else {
        let bit = code_bit(code, d - 1);
        if child(nodes[node], bit) == NIL {
            let grown = nodes.push((NIL, NIL));
            let idx = (grown.len() - 1) as u16;
            insert_code(
                grown.update(node, set_child(grown[node], bit, idx)),
                idx as int,
                code,
                d - 1,
                sym,
            )
        } else {
            insert_code(nodes, child(nodes[node], bit) as int, code, d - 1, sym)
        }
    }
}

/// The trie of the code words of the symbols below `k`, entered in increasing order.
pub open spec fn build_spec(table: Seq<(u64, u8)>, k: int) -> Option<Seq<(u16, u16)>>
    decreases k,
{
    if k <= 0 {
        Some(seq![(NIL, NIL)])
    } else {
        match build_spec(table, k - 1) {
            None => None,
            Some(nodes) => if table[k - 1].1 == 0 {
                Some(nodes)
            } else {
                insert_code(nodes, 0, table[k - 1].0, table[k - 1].1 as int, (k - 1) as u8)
            },
        }
    }
}

proof fn lemma_build_none_stays(table: Seq<(u64, u8)>, k: int, j: int)
    requires
        k <= j,
        build_spec(table, k) is None,
    ensures
        build_spec(table, j) is None,
    decreases j - k,
{
    if k < j {
        lemma_build_none_stays(table, k, j - 1);
    }
}

/// Entering one code word of `d` bits adds at most `d` nodes, and leaves
/// the root with a child or a leaf once the walk starts there.
proof fn lemma_insert_root(nodes: Seq<(u16, u16)>, node: int, code: u64, d: int, sym: u8)
    requires
        nodes.len() >= 1,
        0 <= d,
        nodes.len() + d < NIL,
    ensures
        insert_code(nodes, node, code, d, sym) matches Some(m) ==> {
            &&& nodes.len() <= m.len() <= nodes.len() + d
            &&& (nodes[0] != (NIL, NIL) || node == 0) ==> m[0] != (NIL, NIL)
        },
    decreases d,
{
    if 0 <= node < nodes.len() && d > 0 && d - 1 < 64 {
        let bit = code_bit(code, d - 1);
        if child(nodes[node], bit) == NIL {
            let grown = nodes.push((NIL, NIL));
            let idx = (grown.len() - 1) as u16;
            assert(idx as int == nodes.len());
            let g2 = grown.update(node, set_child(grown[node], bit, idx));
            assert(node == 0 ==> g2[0] != (NIL, NIL));
            assert(nodes[0] != (NIL, NIL) && node != 0 ==> g2[0] == nodes[0]);
            lemma_insert_root(g2, idx as int, code, d - 1, sym);
        } else {
            lemma_insert_root(nodes, child(nodes[node], bit) as int, code, d - 1, sym);
        }
    }
}

/// Some byte value has a code word in `table`.
pub open spec fn has_code_word(table: Seq<(u64, u8)>) -> bool {
    exists|s: int| 0 <= s < 256 && #[trigger] table[s].1 > 0
}

proof fn lemma_build_root(table: Seq<(u64, u8)>, k: int)
    requires
        0 <= k <= 256,
    ensures
        build_spec(table, k) matches Some(n) ==> {
            &&& 1 <= n.len() <= 1 + 64 * k
            &&& (n[0] == (NIL, NIL) <==> !(exists|s: int| 0 <= s < k && #[trigger] table[s].1 > 0))
        },
    decreases k,
{
    if k > 0 {
        lemma_build_root(table, k - 1);
        if let Some(nodes) = build_spec(table, k - 1) {
            if table[k - 1].1 != 0 {
                lemma_insert_root(nodes, 0, table[k - 1].0, table[k - 1].1 as int, (k - 1) as u8);
                if let Some(m) = build_spec(table, k) {
                    if nodes[0] != (NIL, NIL) {
                    }
                    assert(m[0] != (NIL, NIL));
                    assert(table[k - 1].1 > 0);
                }
            } else {
                if let Some(m) = build_spec(table, k) {
                    assert(m == nodes);
                    assert((exists|s: int| 0 <= s < k && #[trigger] table[s].1 > 0) <==> (exists|
                        s: int,
                    | 0 <= s < k - 1 && #[trigger] table[s].1 > 0)) by {
                        if exists|s: int| 0 <= s < k && #[trigger] table[s].1 > 0 {
                            let s = choose|s: int| 0 <= s < k && #[trigger] table[s].1 > 0;
                            assert(s < k - 1);
                        }
                    }
                }
            }
        }
    }
}

/// A trie built from a table has a root, and the root has neither child
/// nor leaf exactly when the table has no code word.
pub proof fn lemma_trie_root(table: Seq<(u64, u8)>)
    ensures
        trie_of(table) matches Some(n) ==> {
            &&& n.len() >= 1
            &&& (n[0] == (NIL, NIL) <==> !has_code_word(table))
        },
{
    lemma_build_root(table, 256);
}

/// The trie that `DecodeTree::build` makes of `table`; `None` when the table
/// has a code word longer than 64 bits or one that runs through a leaf out
/// of the node array.
pub open spec fn trie_of(table: Seq<(u64, u8)>) -> Option<Seq<(u16, u16)>> {
    build_spec(table, 256)
}

impl DecodeTree {
    /// The node array.
    pub closed spec fn view(&self) -> Seq<(u16, u16)> {
        self.nodes@
    }

    fn try_insert(nodes: &mut Vec<(u16, u16)>, code: u64, bits: u8, sym: u8) -> (ok: bool)
        ensures
            ok == insert_code(old(nodes)@, 0, code, bits as int, sym) is Some,
            ok ==> Some(final(nodes)@) == insert_code(old(nodes)@, 0, code, bits as int, sym),
    {
        let mut node: usize = 0;
        let mut d: u8 = bits;
        while d > 0
            invariant
                insert_code(nodes@, node as int, code, d as int, sym) == insert_code(
                    old(nodes)@,
                    0,
                    code,
                    bits as int,
                    sym,
                ),
            decreases d,
        {
            if node >= nodes.len() || d - 1 >= 64 {
                return false;
            }
            let sh: u64 = (d - 1) as u64;
            let b = (code >> sh) & 1;
            assert(b <= 1) by (bit_vector)
                requires
                    b == (code >> sh) & 1,
            ;
            let bit = b as usize;
            assert(bit as int == code_bit(code, d - 1));
            let pair = nodes[node];
            let c = if bit == 0 {
                pair.0
            } else {
                pair.1
            };
            if c == NIL {
                nodes.push((NIL, NIL));
                let idx = (nodes.len() - 1) as u16;
                let pair = nodes[node];
                nodes[node] = if bit == 0 {
                    (idx, pair.1)
                } else {
                    (pair.0, idx)
                };
                node = idx as usize;
            } else {
                node = c as usize;
            }
            d = d - 1;
        }
        if node >= nodes.len() {
            return false;
        }
        nodes[node] = (sym as u16, LEAF_MARK);
        true
    }

    /// The trie of `table`, or `None` where building it would index outside
    /// the node array or shift a code word by 64 bits or more.
    pub fn try_build(table: &EncodeTable) -> (r: Option<DecodeTree>)
        ensures
            match r {
                Some(t) => trie_of(table@) == Some(t@),
                None => trie_of(table@) is None,
            },
            r matches Some(t) ==> t@.len() >= 1 && (t@[0] == (NIL, NIL) <==> !has_code_word(
                table@,
            )),
    {
        proof {
            lemma_trie_root(table@);
        }
        let mut nodes: Vec<(u16, u16)> = Vec::new();
        nodes.push((NIL, NIL));
        assert(nodes@ =~= seq![(NIL, NIL)]);
        let mut k: usize = 0;
        while k < 256
            invariant
                k <= 256,
                table@.len() == 256,
                build_spec(table@, k as int) == Some(nodes@),
            decreases 256 - k,
        {
            let (code, bits) = table[k];
            if bits != 0 {
                let ok = Self::try_insert(&mut nodes, code, bits, k as u8);
                if !ok {
                    proof {
                        lemma_build_none_stays(table@, k + 1, 256);
                    }
                    return None;
                }
            }
            k += 1;
        }
        Some(DecodeTree { nodes })
    }

    /// Builds the trie of the code words of `table`.
    pub fn build(table: &EncodeTable) -> (t: Self)
        requires
            trie_of(table@) is Some,
        ensures
            trie_of(table@) == Some(t@),
            t@.len() >= 1,
            t@[0] == (NIL, NIL) <==> !has_code_word(table@),
    {
        Self::try_build(table).unwrap()
    }

    /// A trie always has its root.
    #[verifier::type_invariant]
    spec fn has_root(self) -> bool {
        self.nodes@.len() >= 1
    }

    /// Whether no code word was entered.
    pub fn is_empty(&self) -> (r: bool)
        ensures
            self@.len() >= 1,
            r == (self@[0] == (NIL, NIL)),
    {
        proof {
            use_type_invariant(self);
        }
        let root = self.nodes[0];
        root.0 == NIL && root.1 == NIL
    }
}

// ─── Encoding ───────────────────────────────────────────────────────────────

/// Moves whole bytes out of a bit buffer holding `len` pending bits (the low
/// `len` bits of `buf`, oldest first) while eight or more are pending.
pub open spec fn drain(buf: u64, len: nat, out: Seq<u8>) -> (nat, Seq<u8>)
    decreases len,
{
    if len < 8 {
        (len, out)
    } else {
        drain(buf, (len - 8) as nat, out.push(((buf >> ((len - 8) as u64)) & 0xff) as u8))
    }
}

/// The encoder from byte `i` of `data`, with the bit buffer `buf` holding
/// `len` pending bits, having written `out`; the last partial byte is padded
/// with zero bits.
pub open spec fn encode_from(
    data: Seq<u8>,
    table: Seq<(u64, u8)>,
    i: int,
    buf: u64,
    len: nat,
    out: Seq<u8>,
) -> Seq<u8>
    decreases data.len() - i,
{
    if i >= data.len() {
        if len > 0 {
            out.push(((buf << ((8 - len) as u64)) & 0xff) as u8)
        } else {
            out
        }
    } else {
        let (code, bits) = table[data[i] as int];
        let buf2 = (buf << (bits as u64)) | code;
        let (len2, out2) = drain(buf2, len + bits as nat, out);
        encode_from(data, table, i + 1, buf2, len2, out2)
    }
}

/// The code words of the bytes of `data`, packed most significant bit first.
pub open spec fn encode_spec(data: Seq<u8>, table: Seq<(u64, u8)>) -> Seq<u8> {
    encode_from(data, table, 0, 0, 0, Seq::empty())
}

/// Every byte of `data` has a code word shorter than 64 bits.
pub open spec fn codes_shorter_than_64(data: Seq<u8>, table: Seq<(u64, u8)>) -> bool {
    forall|i: int| 0 <= i < data.len() ==> table[#[trigger] data[i] as int].1 < 64
}

/// Writes the code words of the bytes of `data`, most significant bit first.
pub fn encode(data: &[u8], table: &EncodeTable) -> (out: Vec<u8>)
    requires
        codes_shorter_than_64(data@, table@),
    ensures
        out@ == encode_spec(data@, table@),
{
    let mut out: Vec<u8> = Vec::new();
    let mut buf: u64 = 0;
    let mut buf_len: u8 = 0;
    let mut i: usize = 0;
    while i < data.len()
        invariant
            i <= data.len(),
            buf_len < 8,
            codes_shorter_than_64(data@, table@),
            table@.len() == 256,
            encode_spec(data@, table@) == encode_from(
                data@,
                table@,
                i as int,
                buf,
                buf_len as nat,
                out@,
            ),
        decreases data.len() - i,
    {
        let (code, bits) = table[data[i] as usize];
        assert(bits < 64);
        buf = (buf << (bits as u64)) | code;
        buf_len = buf_len + bits;
        let ghost old_len = buf_len;
        let ghost old_out = out@;
        while buf_len >= 8
            invariant
                buf_len <= old_len < 72,
                drain(buf, buf_len as nat, out@) == drain(buf, old_len as nat, old_out),
            decreases buf_len,
        {
            buf_len = buf_len - 8;
            out.push(((buf >> (buf_len as u64)) & 0xff) as u8);
        }
        i += 1;
    }
    if buf_len > 0 {
        out.push(((buf << ((8 - buf_len) as u64)) & 0xff) as u8);
    }
    out
}

// ─── Decoding ───────────────────────────────────────────────────────────────

/// The bits of `s`, most significant bit of each byte first.
pub open spec fn bytes_bits(s: Seq<u8>) -> Seq<bool> {
    Seq::new(8 * s.len(), |k: int| (s[k / 8] >> ((7 - k % 8) as u8)) & 1 == 1)
}

/// Walks the trie along `bits` from position `i`, standing on `node`, having
/// decoded `out`: each leaf reached emits its symbol and restarts at the root;
/// decoding stops after `n` symbols or at the end of the bits. `None` when a
/// child lies outside the node array.
pub open spec fn decode_walk(
    nodes: Seq<(u16, u16)>,
    bits: Seq<bool>,
    i: int,
    node: int,
    out: Seq<u8>,
    n: nat,
) -> Option<Seq<u8>>
    decreases bits.len() - i,
{
    if i >= bits.len() {
        Some(out)
    } else if node < 0 || node >= nodes.len() {
        None
    } else {
        let c = child(
            nodes[node],
            if bits[i] {
                1
            } else {
                0
            },
        ) as int;
        if c >= nodes.len() {
            None
        } else if nodes[c].1 == LEAF_MARK {
            let o = out.push(nodes[c].0 as u8);
            if o.len() == n {
                Some(o)
            } else {
                decode_walk(nodes, bits, i + 1, 0, o, n)
            }
        } else {
            decode_walk(nodes, bits, i + 1, c, out, n)
        }
    }
}

/// What decoding `encoded` with the trie `nodes` into `n` symbols gives; an
/// empty trie gives nothing, a trie whose root is a leaf gives `n` copies of
/// its symbol.
pub open spec fn decode_spec(nodes: Seq<(u16, u16)>, encoded: Seq<u8>, n: nat) -> Option<Seq<u8>> {
    if nodes.len() == 0 {
        None
    } else if nodes[0] == (NIL, NIL) {
        Some(Seq::empty())
    } else if nodes[0].1 == LEAF_MARK {
        Some(Seq::new(n, |i: int| nodes[0].0 as u8))
    } else {
        decode_walk(nodes, bytes_bits(encoded), 0, 0, Seq::empty(), n)
    }
}

proof fn lemma_bytes_bits_index(s: Seq<u8>, bi: int, shift: int)
    requires
        0 <= bi < s.len(),
        0 <= shift < 8,
    ensures
        0 <= 8 * bi + (7 - shift) < bytes_bits(s).len(),
        bytes_bits(s)[8 * bi + (7 - shift)] == ((s[bi] >> (shift as u8)) & 1 == 1),
{
    let k = 8 * bi + (7 - shift);
    assert(k / 8 == bi && k % 8 == 7 - shift) by (nonlinear_arith)
        requires
            k == 8 * bi + (7 - shift),
            0 <= shift < 8,
            0 <= bi,
    ;
}

/// Decodes `encoded` with `tree` into at most `expected_len` symbols, or
/// `None` where the walk would leave the node array.
fn try_decode(encoded: &[u8], tree: &DecodeTree, expected_len: usize) -> (r: Option<Vec<u8>>)
    ensures
        match r {
            Some(v) => decode_spec(tree@, encoded@, expected_len as nat) == Some(v@),
            None => decode_spec(tree@, encoded@, expected_len as nat) is None,
        },
{
    let nodes = &tree.nodes;
    if nodes.len() == 0 {
        return None;
    }
    let mut out: Vec<u8> = Vec::new();
    let root = nodes[0];
    if root.0 == NIL && root.1 == NIL {
        return Some(out);
    }
    let ghost n = expected_len as nat;
    if root.1 == LEAF_MARK {
        let sym = root.0 as u8;
        let mut k: usize = 0;
        while k < expected_len
            invariant
                k <= expected_len,
                out@ =~= Seq::new(k as nat, |i: int| sym),
            decreases expected_len - k,
        {
            out.push(sym);
            k += 1;
        }
        return Some(out);
    }
    let ghost bits = bytes_bits(encoded@);
    let mut node: usize = 0;
    let mut bi: usize = 0;
    while bi < encoded.len()
        invariant
            bi <= encoded@.len(),
            bits == bytes_bits(encoded@),
            nodes@ == tree@,
            n == expected_len as nat,
            decode_spec(tree@, encoded@, n) == decode_walk(
                nodes@,
                bits,
                8 * bi,
                node as int,
                out@,
                n,
            ),
        decreases encoded@.len() - bi,
    {
        let byte = encoded[bi];
        let mut shift: u8 = 8;
        while shift > 0
            invariant
                bi < encoded@.len(),
                byte == encoded@[bi as int],
                shift <= 8,
                bits == bytes_bits(encoded@),
                nodes@ == tree@,
                n == expected_len as nat,
                decode_spec(tree@, encoded@, n) == decode_walk(
                    nodes@,
                    bits,
                    8 * bi + (8 - shift),
                    node as int,
                    out@,
                    n,
                ),
            decreases shift,
        {
            shift = shift - 1;
            proof {
                lemma_bytes_bits_index(encoded@, bi as int, shift as int);
            }
            let bit = (byte >> shift) & 1;
            if node >= nodes.len() {
                return None;
            }
            let pair = nodes[node];
            let c = if bit == 1 {
                pair.1
            } else {
                pair.0
            };
            if c as usize >= nodes.len() {
                return None;
            }
            let next = nodes[c as usize];
            if next.1 == LEAF_MARK {
                out.push(next.0 as u8);
                if out.len() == expected_len {
                    return Some(out);
                }
                node = 0;
            } else {
                node = c as usize;
            }
        }
        bi += 1;
    }
    Some(out)
}

/// Decodes `encoded` with `tree` into at most `expected_len` symbols.
pub fn decode(encoded: &[u8], tree: &DecodeTree, expected_len: usize) -> (out: Vec<u8>)
    requires
        decode_spec(tree@, encoded@, expected_len as nat) is Some,
    ensures
        decode_spec(tree@, encoded@, expected_len as nat) == Some(out@),
{
    try_decode(encoded, tree, expected_len).unwrap()
}

// ─── Two-pass coding with the code book in front ────────────────────────────

/// The byte frequencies of `data`.
pub open spec fn freqs_of(data: Seq<u8>) -> Seq<u64> {
    Seq::new(256, |b: int| count(data, b as u8) as u64)
}

/// The stream `compress` writes for `data`: the code book length (two
/// bytes), the code book, then the code words.
pub open spec fn compress_spec(data: Seq<u8>) -> Seq<u8> {
    let t = huffman_table(freqs_of(data));
    let cb = serialize_spec(t);
    u16_le(cb.len()) + cb + encode_spec(data, t)
}

/// What `decompress` gives for `data` and `n`; `None` where the code book
/// makes a trie that cannot be built or walked.
pub open spec fn decompress_spec(data: Seq<u8>, n: nat) -> Option<Result<Seq<u8>, HuffmanError>> {
    if data.len() < 2 {
        Some(Err(HuffmanError::HeaderTruncated))
    } else {
        let cb_len = data[0] as nat + data[1] as nat * 0x100;
        if data.len() < 2 + cb_len {
            Some(Err(HuffmanError::StreamCodebookTruncated))
        } else {
            match deserialize_spec(data.subrange(2, 2 + cb_len as int)) {
                Err(e) => Some(Err(e)),
                Ok((t, _)) => match trie_of(t) {
                    None => None,
                    Some(nodes) => match decode_spec(
                        nodes,
                        data.subrange(2 + cb_len as int, data.len() as int),
                        n,
                    ) {
                        None => None,
                        Some(v) => Some(Ok(v)),
                    },
                },
            }
        }
    }
}

proof fn lemma_freq_total_bump(f: Seq<u64>, g: Seq<u64>, x: int, k: int)
    requires
        f.len() == 256,
        g.len() == 256,
        0 <= x < 256,
        forall|b: int| 0 <= b < 256 && b != x ==> f[b] == g[b],
        g[x] == f[x] + 1,
        k <= 256,
    ensures
        freq_total(g, k) == freq_total(f, k) + if 0 <= x < k {
            1int
        } else {
            0
        },
    decreases k,
{
    if k > 0 {
        lemma_freq_total_bump(f, g, x, k - 1);
    }
}

pub(crate) proof fn lemma_freq_total_of(data: Seq<u8>)
    requires
        data.len() <= u64::MAX,
    ensures
        freq_total(freqs_of(data), 256) == data.len(),
    decreases data.len(),
{
    if data.len() == 0 {
        let f = freqs_of(data);
        assert(forall|k: int| 0 <= k <= 256 ==> #[trigger] freq_total(f, k) == 0) by {
            assert forall|k: int| 0 <= k <= 256 implies #[trigger] freq_total(f, k) == 0 by {
                lemma_freq_total_zero(f, k);
            }
        }
    } else {
        let d = data.drop_last();
        lemma_freq_total_of(d);
        let x = data.last();
        assert forall|b: int| 0 <= b < 256 && b != x as int implies freqs_of(d)[b] == freqs_of(
            data,
        )[b] by {
            assert((b as u8) != x);
        }
        lemma_count_le_len(d, x);
        assert((x as int) as u8 == x);
        lemma_freq_total_bump(freqs_of(d), freqs_of(data), x as int, 256);
    }
}

proof fn lemma_freq_total_zero(f: Seq<u64>, k: int)
    requires
        forall|b: int| 0 <= b < f.len() ==> f[b] == 0,
        k <= f.len(),
    ensures
        freq_total(f, k) == 0,
    decreases k,
{
    if k > 0 {
        lemma_freq_total_zero(f, k - 1);
    }
}

/// Counts of the bytes of `data` are its frequencies, and they add up to its length.
pub(crate) proof fn lemma_counts_are_freqs(data: Seq<u8>, f: Seq<u64>)
    requires
        data.len() <= u64::MAX,
        f.len() == 256,
        forall|b: u8| #[trigger] f[b as int] == count(data, b),
    ensures
        f == freqs_of(data),
        freq_total(f, 256) == data.len(),
{
    assert forall|b: int| 0 <= b < 256 implies f[b] == freqs_of(data)[b] by {
        assert(f[(b as u8) as int] == count(data, b as u8));
        lemma_count_le_len(data, b as u8);
    }
    assert(f =~= freqs_of(data));
    lemma_freq_total_of(data);
}

/// Compresses `data`: code book length (two bytes), code book, code words.
pub fn compress(data: &[u8]) -> (out: Vec<u8>)
    requires
        codes_shorter_than_64(data@, huffman_table(freqs_of(data@))),
    ensures
        out@ == compress_spec(data@),
{
    let freqs = count_freqs(data);
    let len = data.len();
    assert(len as int <= u64::MAX);
    proof {
        assert(freqs@ =~= freqs_of(data@)) by {
            assert forall|b: int| 0 <= b < 256 implies freqs@[b] == freqs_of(data@)[b] by {
                assert(freqs@[(b as u8) as int] == count(data@, b as u8));
                lemma_count_le_len(data@, b as u8);
            }
        }
        lemma_freq_total_of(data@);
    }
    let table = build_encode_table(&freqs);
    let cb = serialize_table(&table);
    let encoded = encode(data, &table);
    let mut out: Vec<u8> = Vec::new();
    let cb_len = cb.len();
    proof {
        lemma_serialize_len(table@);
    }
    out.push((cb_len % 0x100) as u8);
    out.push(((cb_len / 0x100) % 0x100) as u8);
    let mut k: usize = 0;
    while k < cb.len()
        invariant
            k <= cb@.len(),
            out@ == u16_le(cb@.len()) + cb@.take(k as int),
        decreases cb@.len() - k,
    {
        out.push(cb[k]);
        k += 1;
        assert(out@ =~= u16_le(cb@.len()) + cb@.take(k as int));
    }
    assert(cb@.take(cb@.len() as int) =~= cb@);
    let ghost head = out@;
    k = 0;
    while k < encoded.len()
        invariant
            k <= encoded@.len(),
            out@ == head + encoded@.take(k as int),
        decreases encoded@.len() - k,
    {
        out.push(encoded[k]);
        k += 1;
        assert(out@ =~= head + encoded@.take(k as int));
    }
    assert(encoded@.take(encoded@.len() as int) =~= encoded@);
    out
}

proof fn lemma_entries_bytes_len(es: Seq<(u8, u64, u8)>)
    ensures
        entries_bytes(es).len() == 10 * es.len(),
    decreases es.len(),
{
    if es.len() > 0 {
        lemma_entries_bytes_len(es.drop_last());
    }
}

proof fn lemma_table_entries_len(t: Seq<(u64, u8)>, k: int)
    ensures
        table_entries(t, k).len() <= if k < 0 {
            0
        } else {
            k
        },
    decreases k,
{
    if k > 0 {
        lemma_table_entries_len(t, k - 1);
    }
}

pub(crate) proof fn lemma_serialize_len(t: Seq<(u64, u8)>)
    ensures
        serialize_spec(t).len() == 2 + 10 * table_entries(t, 256).len(),
        table_entries(t, 256).len() <= 256,
{
    lemma_entries_bytes_len(table_entries(t, 256));
    lemma_table_entries_len(t, 256);
}

/// Decompresses a stream made by `compress`, or `None` where its code book
/// makes a trie that cannot be built or walked.
pub fn try_decompress(data: &[u8], original_len: usize) -> (r: Option<Result<Vec<u8>, HuffmanError>>)
    ensures
        match r {
            None => decompress_spec(data@, original_len as nat) is None,
            Some(Ok(v)) => decompress_spec(data@, original_len as nat) == Some(
                Ok::<Seq<u8>, HuffmanError>(v@),
            ),
            Some(Err(e)) => decompress_spec(data@, original_len as nat) == Some(
                Err::<Seq<u8>, HuffmanError>(e),
            ),
        },
{
    if data.len() < 2 {
        return Some(Err(HuffmanError::HeaderTruncated));
    }
    let cb_len = data[0] as usize + data[1] as usize * 0x100;
    if data.len() < 2 + cb_len {
        return Some(Err(HuffmanError::StreamCodebookTruncated));
    }
    let cb = vstd::slice::slice_subrange(data, 2, 2 + cb_len);
    let table = match deserialize_table(cb) {
        Ok((t, _)) => t,
        Err(e) => {
            return Some(Err(e));
        },
    };
    let tree = match DecodeTree::try_build(&table) {
        Some(t) => t,
        None => {
            return None;
        },
    };
    let rest = vstd::slice::slice_subrange(data, 2 + cb_len, data.len());
    match try_decode(rest, &tree, original_len) {
        Some(v) => Some(Ok(v)),
        None => None,
    }
}

/// Decompresses a stream made by `compress` into `original_len` bytes.
pub fn decompress(data: &[u8], original_len: usize) -> (r: Result<Vec<u8>, HuffmanError>)
    requires
        decompress_spec(data@, original_len as nat) is Some,
    ensures
        match r {
            Ok(v) => decompress_spec(data@, original_len as nat) == Some(
                Ok::<Seq<u8>, HuffmanError>(v@),
            ),
            Err(e) => decompress_spec(data@, original_len as nat) == Some(
                Err::<Seq<u8>, HuffmanError>(e),
            ),
        },
{
    try_decompress(data, original_len).unwrap()
}

// ─── How long the code words can get ────────────────────────────────────────

/// `(F(n), F(n + 1))`, the Fibonacci numbers with `F(0) = 0`, `F(1) = 1`.
pub open spec fn fib_pair(n: nat) -> (nat, nat)
    decreases n,
{
    if n == 0 {
        (0, 1)
    } else {
        let p = fib_pair((n - 1) as nat);
        (p.1, p.0 + p.1)
    }
}

/// The Fibonacci number `F(n)`.
pub open spec fn fib(n: nat) -> nat {
    fib_pair(n).0
}

proof fn lemma_fib_step(n: nat)
    ensures
        fib(n + 2) == fib(n + 1) + fib(n),
{
    assert(fib_pair(n + 1) == (fib_pair(n).1, fib_pair(n).0 + fib_pair(n).1));
    assert(fib_pair(n + 2) == (fib_pair(n + 1).1, fib_pair(n + 1).0 + fib_pair(n + 1).1));
}

proof fn lemma_fib_monotone(m: nat, n: nat)
    requires
        1 <= m <= n,
    ensures
        fib(m) <= fib(n),
    decreases n - m,
{
    if m < n {
        lemma_fib_monotone(m, (n - 1) as nat);
        if n >= 2 {
            lemma_fib_step((n - 2) as nat);
        } else {
            assert(fib(1) == 1);
        }
    }
}

/// A tree whose inner weights are the sums of their children's, and whose
/// weight is at least `F(depth + 2)`.
spec fn heavy(t: Tree) -> bool
    decreases t,
{
    &&& t.weight() >= fib(tree_depth(t) + 2)
    &&& match t {
        Tree::Leaf { .. } => true,
        Tree::Node { left, right, .. } => heavy(*left) && heavy(*right) && t.weight()
            == left.weight() + right.weight(),
    }
}

/// Every tree of the forest weighs at least as much as each child of every other tree.
spec fn children_lighter(f: Seq<Box<Tree>>) -> bool {
    forall|i: int, j: int|
        #![trigger f[i], f[j]]
        0 <= i < f.len() && 0 <= j < f.len() && i != j ==> match *f[j] {
            Tree::Leaf { .. } => true,
            Tree::Node { left, right, .. } => f[i].weight() >= left.weight() && f[i].weight()
                >= right.weight(),
        }
}

spec fn all_heavy(f: Seq<Box<Tree>>) -> bool {
    forall|i: int| 0 <= i < f.len() ==> heavy(*#[trigger] f[i])
}

proof fn lemma_node_heavy(a: Tree, b: Tree)
    requires
        heavy(a),
        heavy(b),
        a.weight() + b.weight() <= u64::MAX,
        match a {
            Tree::Leaf { .. } => true,
            Tree::Node { left, right, .. } => b.weight() >= left.weight() && b.weight()
                >= right.weight(),
        },
        match b {
            Tree::Leaf { .. } => true,
            Tree::Node { left, right, .. } => a.weight() >= left.weight() && a.weight()
                >= right.weight(),
        },
    ensures
        heavy(
            Tree::Node {
                freq: (a.weight() + b.weight()) as u64,
                left: Box::new(a),
                right: Box::new(b),
            },
        ),
{
    let n = Tree::Node {
        freq: (a.weight() + b.weight()) as u64,
        left: Box::new(a),
        right: Box::new(b),
    };
    let da = tree_depth(a);
    let db = tree_depth(b);
    assert(fib_pair(0) == (0nat, 1nat));
    assert(fib_pair(1) == (1nat, 1nat));
    lemma_fib_step(0);
    lemma_fib_step(1);
    assert(fib(2) == 1 && fib(3) == 2);
    if da >= db {
        lemma_fib_step(da + 1);
        match a {
            Tree::Leaf { .. } => {
                lemma_fib_monotone(2, db + 2);
            },
            Tree::Node { left, right, .. } => {
                assert(heavy(*left) && heavy(*right));
                if tree_depth(*left) >= tree_depth(*right) {
                    assert(da == 1 + tree_depth(*left));
                } else {
                    assert(da == 1 + tree_depth(*right));
                }
            },
        }
    } else {
        lemma_fib_step(db + 1);
        match b {
            Tree::Leaf { .. } => {},
            Tree::Node { left, right, .. } => {
                assert(heavy(*left) && heavy(*right));
                if tree_depth(*left) >= tree_depth(*right) {
                    assert(db == 1 + tree_depth(*left));
                } else {
                    assert(db == 1 + tree_depth(*right));
                }
            },
        }
    }
    assert(tree_depth(n) == 1 + if da >= db {
        da
    } else {
        db
    });
}

/// Position in `f` of the tree at `k` once the trees at `i`, then (in what
/// is left) at `j`, are removed.
spec fn orig_index(i: int, j: int, k: int) -> int {
    let k1 = if k < j {
        k
    } else {
        k + 1
    };
    if k1 < i {
        k1
    } else {
        k1 + 1
    }
}

proof fn lemma_remove_two(f: Seq<Box<Tree>>, i: int, j: int)
    requires
        0 <= i < f.len(),
        0 <= j < f.len() - 1,
    ensures
        forall|k: int|
            0 <= k < f.len() - 2 ==> {
                &&& f.remove(i).remove(j)[k] == f[#[trigger] orig_index(i, j, k)]
                &&& 0 <= orig_index(i, j, k) < f.len()
                &&& orig_index(i, j, k) != i
                &&& orig_index(i, j, k) != (if j < i { j } else { j + 1 })
            },
        forall|k1: int, k2: int|
            0 <= k1 < f.len() - 2 && 0 <= k2 < f.len() - 2 && k1 != k2 ==> #[trigger] orig_index(
                i,
                j,
                k1,
            ) != #[trigger] orig_index(i, j, k2),
{
}

#[verifier::spinoff_prover]
#[verifier::rlimit(40)]
proof fn lemma_merge_keeps_heavy(f: Seq<Box<Tree>>)
    requires
        f.len() >= 2,
        all_heavy(f),
        children_lighter(f),
        weight_sum(f) <= u64::MAX,
    ensures
        all_heavy(merge_step(f)),
        children_lighter(merge_step(f)),
        weight_sum(merge_step(f)) == weight_sum(f),
{
    let i = min_index(f);
    lemma_min_index(f);
    let a = f[i];
    let f1 = f.remove(i);
    lemma_min_index(f1);
    let j = min_index(f1);
    let b = f1[j];
    let f2 = f1.remove(j);
    lemma_sums_remove(f, i);
    lemma_sums_remove(f1, j);
    let ib = if j < i {
        j
    } else {
        j + 1
    };
    assert(f1[j] == f[ib]);
    let w = a.weight() + b.weight();
    let n = Box::new(Tree::Node { freq: w as u64, left: a, right: b });
    let g = f2.push(n);
    assert(g == merge_step(f));
    assert(g.drop_last() =~= f2);
    lemma_remove_two(f, i, j);
    assert forall|k: int| 0 <= k < f2.len() implies #[trigger] f2[k].weight() >= b.weight() && f2[k].weight() >= a.weight() by {
        let k1 = if k < j {
            k
        } else {
            k + 1
        };
        assert(f2[k] == f1[k1]);
        assert(f1[k1].weight() >= f1[j].weight());
        assert(f[orig_index(i, j, k)].weight() >= f[i].weight());
    }
    assert(heavy(*a));
    assert(heavy(*b));
    assert(match *a {
        Tree::Leaf { .. } => true,
        Tree::Node { left, right, .. } => b.weight() >= left.weight() && b.weight() >= right.weight(),
    }) by {
        assert(f[ib] == b && f[i] == a);
    }
    assert(match *b {
        Tree::Leaf { .. } => true,
        Tree::Node { left, right, .. } => a.weight() >= left.weight() && a.weight() >= right.weight(),
    }) by {
        assert(f[ib] == b && f[i] == a);
    }
    lemma_node_heavy(*a, *b);
    assert forall|k: int| 0 <= k < g.len() implies heavy(*#[trigger] g[k]) by {
        if k < f2.len() {
            assert(g[k] == f[orig_index(i, j, k)]);
        }
    }
    assert forall|x: int, y: int|
        #![trigger g[x], g[y]]
        0 <= x < g.len() && 0 <= y < g.len() && x != y implies match *g[y] {
        Tree::Leaf { .. } => true,
        Tree::Node { left, right, .. } => g[x].weight() >= left.weight() && g[x].weight()
            >= right.weight(),
    } by {
        let last = g.len() - 1;
        if x < last && y < last {
            assert(g[x] == f[orig_index(i, j, x)]);
            assert(g[y] == f[orig_index(i, j, y)]);
        } else if x < last {
            assert(g[x] == f2[x]);
        } else {
            assert(g[y] == f[orig_index(i, j, y)]);
            assert(f[i] == a);
        }
    }
}

proof fn lemma_leaves_heavy(freqs: Seq<u64>, k: int)
    ensures
        all_heavy(leaves(freqs, k)),
        children_lighter(leaves(freqs, k)),
        weight_sum(leaves(freqs, k)) == freq_total(freqs, k),
    decreases k,
{
    lemma_leaves_are_leaves(freqs, k);
    assert(fib_pair(0) == (0nat, 1nat));
    assert(fib_pair(1) == (1nat, 1nat));
    lemma_fib_step(0);
    if k > 0 {
        lemma_leaves_heavy(freqs, k - 1);
        let l = leaves(freqs, k - 1);
        let m = leaves(freqs, k);
        if freqs[k - 1] > 0 {
            assert(m.drop_last() =~= l);
            assert forall|i: int| 0 <= i < m.len() implies heavy(*#[trigger] m[i]) by {
                if i < l.len() {
                    assert(m[i] == l[i]);
                }
            }
        }
    }
}

proof fn lemma_merged_heavy(f: Seq<Box<Tree>>)
    requires
        f.len() >= 1,
        all_heavy(f),
        children_lighter(f),
        weight_sum(f) <= u64::MAX,
    ensures
        merged(f).len() == 1,
        heavy(*merged(f)[0]),
        merged(f)[0].weight() == weight_sum(f),
    decreases f.len(),
{
    if f.len() == 1 {
        assert(f.drop_last() =~= Seq::<Box<Tree>>::empty());
        assert(f.last() == f[0]);
        assert(weight_sum(f.drop_last()) == 0);
        assert(weight_sum(f) == weight_sum(f.drop_last()) + f.last().weight());
    } else {
        lemma_merge_step_len(f);
        lemma_merge_keeps_heavy(f);
        lemma_merged_heavy(merge_step(f));
    }
}

proof fn lemma_assign_bits(t: Tree, code: u64, depth: u8, table: Seq<(u64, u8)>, bound: nat)
    requires
        table.len() == 256,
        depth + tree_depth(t) <= bound <= 255,
        forall|s: int| 0 <= s < 256 ==> #[trigger] table[s].1 <= bound,
    ensures
        assign_spec(t, code, depth, table).len() == 256,
        forall|s: int| 0 <= s < 256 ==> #[trigger] assign_spec(t, code, depth, table)[s].1 <= bound,
    decreases t,
{
    match t {
        Tree::Leaf { .. } => {},
        Tree::Node { left, right, .. } => {
            lemma_assign_bits(*left, code << 1, (depth + 1) as u8, table, bound);
            lemma_assign_bits(
                *right,
                (code << 1) | 1,
                (depth + 1) as u8,
                assign_spec(*left, code << 1, (depth + 1) as u8, table),
                bound,
            );
        },
    }
}

/// Code words are short when the data is: if the frequencies add up to
/// less than `F(bound + 3)`, no code word of their Huffman code is longer
/// than `bound` bits.
pub proof fn lemma_code_length_bound(freqs: Seq<u64>, bound: nat)
    requires
        freqs.len() == 256,
        1 <= bound <= 255,
        freq_total(freqs, 256) < fib(bound + 3),
        freq_total(freqs, 256) <= u64::MAX,
    ensures
        huffman_table(freqs).len() == 256,
        forall|s: int| 0 <= s < 256 ==> #[trigger] huffman_table(freqs)[s].1 <= bound,
{
    let l = leaves(freqs, 256);
    lemma_leaves_are_leaves(freqs, 256);
    if l.len() >= 2 {
        lemma_leaves_heavy(freqs, 256);
        lemma_merged_heavy(l);
        let root = *merged(l)[0];
        let d = tree_depth(root);
        if d > bound {
            lemma_fib_monotone(bound + 3, d + 2);
        }
        lemma_assign_bits(root, 0, 0, empty_table(), bound);
    } else if l.len() == 1 {
        assert((*l[0]) is Leaf);
    }
}

/// The Fibonacci numbers up to `F(67)`, step by step.
pub(crate) proof fn lemma_fib_table()
    ensures
        fib(60) == 1548008755920,
        fib(66) == 27777890035288,
{
    assert(fib_pair(0) == (0nat, 1nat));
    assert(fib_pair(1) == (1nat, 1nat));
    assert(fib_pair(2) == (1nat, 2nat));
    assert(fib_pair(3) == (2nat, 3nat));
    assert(fib_pair(4) == (3nat, 5nat));
    assert(fib_pair(5) == (5nat, 8nat));
    assert(fib_pair(6) == (8nat, 13nat));
    assert(fib_pair(7) == (13nat, 21nat));
    assert(fib_pair(8) == (21nat, 34nat));
    assert(fib_pair(9) == (34nat, 55nat));
    assert(fib_pair(10) == (55nat, 89nat));
    assert(fib_pair(11) == (89nat, 144nat));
    assert(fib_pair(12) == (144nat, 233nat));
    assert(fib_pair(13) == (233nat, 377nat));
    assert(fib_pair(14) == (377nat, 610nat));
    assert(fib_pair(15) == (610nat, 987nat));
    assert(fib_pair(16) == (987nat, 1597nat));
    assert(fib_pair(17) == (1597nat, 2584nat));
    assert(fib_pair(18) == (2584nat, 4181nat));
    assert(fib_pair(19) == (4181nat, 6765nat));
    assert(fib_pair(20) == (6765nat, 10946nat));
    assert(fib_pair(21) == (10946nat, 17711nat));
    assert(fib_pair(22) == (17711nat, 28657nat));
    assert(fib_pair(23) == (28657nat, 46368nat));
    assert(fib_pair(24) == (46368nat, 75025nat));
    assert(fib_pair(25) == (75025nat, 121393nat));
    assert(fib_pair(26) == (121393nat, 196418nat));
    assert(fib_pair(27) == (196418nat, 317811nat));
    assert(fib_pair(28) == (317811nat, 514229nat));
    assert(fib_pair(29) == (514229nat, 832040nat));
    assert(fib_pair(30) == (832040nat, 1346269nat));
    assert(fib_pair(31) == (1346269nat, 2178309nat));
    assert(fib_pair(32) == (2178309nat, 3524578nat));
    assert(fib_pair(33) == (3524578nat, 5702887nat));
    assert(fib_pair(34) == (5702887nat, 9227465nat));
    assert(fib_pair(35) == (9227465nat, 14930352nat));
    assert(fib_pair(36) == (14930352nat, 24157817nat));
    assert(fib_pair(37) == (24157817nat, 39088169nat));
    assert(fib_pair(38) == (39088169nat, 63245986nat));
    assert(fib_pair(39) == (63245986nat, 102334155nat));
    assert(fib_pair(40) == (102334155nat, 165580141nat));
    assert(fib_pair(41) == (165580141nat, 267914296nat));
    assert(fib_pair(42) == (267914296nat, 433494437nat));
    assert(fib_pair(43) == (433494437nat, 701408733nat));
    assert(fib_pair(44) == (701408733nat, 1134903170nat));
    assert(fib_pair(45) == (1134903170nat, 1836311903nat));
    assert(fib_pair(46) == (1836311903nat, 2971215073nat));
    assert(fib_pair(47) == (2971215073nat, 4807526976nat));
    assert(fib_pair(48) == (4807526976nat, 7778742049nat));
    assert(fib_pair(49) == (7778742049nat, 12586269025nat));
    assert(fib_pair(50) == (12586269025nat, 20365011074nat));
    assert(fib_pair(51) == (20365011074nat, 32951280099nat));
    assert(fib_pair(52) == (32951280099nat, 53316291173nat));
    assert(fib_pair(53) == (53316291173nat, 86267571272nat));
    assert(fib_pair(54) == (86267571272nat, 139583862445nat));
    assert(fib_pair(55) == (139583862445nat, 225851433717nat));
    assert(fib_pair(56) == (225851433717nat, 365435296162nat));
    assert(fib_pair(57) == (365435296162nat, 591286729879nat));
    assert(fib_pair(58) == (591286729879nat, 956722026041nat));
    assert(fib_pair(59) == (956722026041nat, 1548008755920nat));
    assert(fib_pair(60) == (1548008755920nat, 2504730781961nat));
    assert(fib_pair(61) == (2504730781961nat, 4052739537881nat));
    assert(fib_pair(62) == (4052739537881nat, 6557470319842nat));
    assert(fib_pair(63) == (6557470319842nat, 10610209857723nat));
    assert(fib_pair(64) == (10610209857723nat, 17167680177565nat));
    assert(fib_pair(65) == (17167680177565nat, 27777890035288nat));
    assert(fib_pair(66) == (27777890035288nat, 44945570212853nat));
}

/// Data shorter than `F(66)` bytes never gets a code word of 64 bits or more.
pub proof fn lemma_short_data_codes(data: Seq<u8>)
    requires
        data.len() < 27777890035288,
    ensures
        codes_shorter_than_64(data, huffman_table(freqs_of(data))),
{
    lemma_fib_table();
    lemma_freq_total_of(data);
    lemma_code_length_bound(freqs_of(data), 63);
    let t = huffman_table(freqs_of(data));
    assert forall|i: int| 0 <= i < data.len() implies t[#[trigger] data[i] as int].1 < 64 by {
        assert(t[data[i] as int].1 <= 63);
    }
}

pub proof fn lemma_compress_len(data: Seq<u8>)
    ensures
        compress_spec(data).len() >= 2,
        compress_spec(data).subrange(0, 2) == u16_le(serialize_spec(huffman_table(freqs_of(data))).len()),
{
    let t = huffman_table(freqs_of(data));
    let cb = serialize_spec(t);
    assert(compress_spec(data).subrange(0, 2) =~= u16_le(cb.len()));
}

// ─── The packed bits of the encoder ─────────────────────────────────────────

/// The low `n` bits of `x`, most significant first.
pub open spec fn low_bits(x: u64, n: nat) -> Seq<bool> {
    Seq::new(n, |i: int| (x >> ((n - 1 - i) as u64)) & 1 == 1)
}

/// The code word of a table entry, most significant bit first.
pub open spec fn word(e: (u64, u8)) -> Seq<bool> {
    low_bits(e.0, e.1 as nat)
}

/// The code words of the bytes of `data`, one after the other.
pub open spec fn words_of(data: Seq<u8>, t: Seq<(u64, u8)>) -> Seq<bool>
    decreases data.len(),
{
    if data.len() == 0 {
        Seq::empty()
    } else {
        words_of(data.drop_last(), t) + word(t[data.last() as int])
    }
}

/// `n` zero bits.
pub open spec fn zeros(n: nat) -> Seq<bool> {
    Seq::new(n, |k: int| false)
}

/// The bits of one byte, most significant first.
pub open spec fn byte_bits(b: u8) -> Seq<bool> {
    Seq::new(8, |j: int| (b >> ((7 - j) as u8)) & 1 == 1)
}

/// Every byte of `data` has a code word of 1 to 57 bits, right-justified.
pub open spec fn codes_fit(data: Seq<u8>, t: Seq<(u64, u8)>) -> bool {
    forall|i: int|
        0 <= i < data.len() ==> {
            let e = t[#[trigger] data[i] as int];
            &&& 1 <= e.1 <= 57
            &&& e.0 >> (e.1 as u64) == 0
        }
}

pub(crate) proof fn lemma_bytes_bits_push(s: Seq<u8>, b: u8)
    ensures
        bytes_bits(s.push(b)) == bytes_bits(s) + byte_bits(b),
{
    let l = bytes_bits(s.push(b));
    let r = bytes_bits(s) + byte_bits(b);
    assert forall|k: int| 0 <= k < l.len() implies l[k] == r[k] by {
        let n = s.len() as int;
        if k < 8 * n {
            assert(k / 8 < n && k / 8 == k / 8) by (nonlinear_arith)
                requires
                    0 <= k < 8 * n,
            ;
            assert(s.push(b)[k / 8] == s[k / 8]);
        } else {
            let j = k - 8 * n;
            assert(k / 8 == n && k % 8 == j) by (nonlinear_arith)
                requires
                    j == k - 8 * n,
                    0 <= j < 8,
            ;
        }
    }
    assert(l =~= r);
}

pub(crate) proof fn lemma_low_bits_append(x: u64, n: nat, code: u64, b: nat)
    requires
        n + b <= 64,
        b < 64,
        code >> (b as u64) == 0,
    ensures
        low_bits((x << (b as u64)) | code, n + b) == low_bits(x, n) + low_bits(code, b),
{
    let y = (x << (b as u64)) | code;
    let l = low_bits(y, n + b);
    let r = low_bits(x, n) + low_bits(code, b);
    assert forall|i: int| 0 <= i < n + b implies l[i] == r[i] by {
        let bb = b as u64;
        if i < n {
            let sh = (n - 1 - i) as u64;
            assert((((x << bb) | code) >> (sh + bb)) & 1 == (x >> sh) & 1) by (bit_vector)
                requires
                    sh + bb < 64,
                    code >> bb == 0,
            ;
            assert((n + b - 1 - i) as u64 == sh + bb);
        } else {
            let sh = (n + b - 1 - i) as u64;
            assert((((x << bb) | code) >> sh) & 1 == (code >> sh) & 1) by (bit_vector)
                requires
                    sh < bb,
                    bb < 64,
            ;
            assert((b - 1 - (i - n)) as u64 == sh);
        }
    }
    assert(l =~= r);
}

proof fn lemma_low_bits_drain(x: u64, n: nat)
    requires
        8 <= n <= 64,
    ensures
        low_bits(x, n) == byte_bits(((x >> ((n - 8) as u64)) & 0xff) as u8) + low_bits(
            x,
            (n - 8) as nat,
        ),
{
    let sh8 = (n - 8) as u64;
    let byte = ((x >> sh8) & 0xff) as u8;
    let l = low_bits(x, n);
    let r = byte_bits(byte) + low_bits(x, (n - 8) as nat);
    assert forall|i: int| 0 <= i < n implies l[i] == r[i] by {
        if i < 8 {
            let j = (7 - i) as u8;
            let jj = (7 - i) as u64;
            assert(((((x >> sh8) & 0xff) as u8 >> j) & 1 == 1) == ((x >> (sh8 + jj)) & 1 == 1))
                by (bit_vector)
                requires
                    j < 8,
                    jj == j as u64,
                    sh8 <= 56,
            ;
            assert((n - 1 - i) as u64 == sh8 + jj);
        } else {
            assert((n - 1 - i) as u64 == ((n - 8) as nat - 1 - (i - 8)) as u64);
        }
    }
    assert(l =~= r);
}

proof fn lemma_low_bits_pad(x: u64, n: nat)
    requires
        0 < n < 8,
    ensures
        byte_bits(((x << ((8 - n) as u64)) & 0xff) as u8) == low_bits(x, n) + zeros(
            (8 - n) as nat,
        ),
{
    let sh = (8 - n) as u64;
    let byte = ((x << sh) & 0xff) as u8;
    let l = byte_bits(byte);
    let r = low_bits(x, n) + zeros((8 - n) as nat);
    assert forall|i: int| 0 <= i < 8 implies l[i] == r[i] by {
        let j = (7 - i) as u8;
        let jj = (7 - i) as u64;
        if i < n {
            let k = (n - 1 - i) as u64;
            assert(((((x << sh) & 0xff) as u8 >> j) & 1 == 1) == ((x >> k) & 1 == 1))
                by (bit_vector)
                requires
                    j < 8,
                    jj == j as u64,
                    1 <= sh <= 7,
                    jj == k + sh,
            ;
        } else {
            assert(((((x << sh) & 0xff) as u8 >> j) & 1 == 1) == false) by (bit_vector)
                requires
                    j < 8,
                    jj == j as u64,
                    1 <= sh <= 7,
                    jj < sh,
            ;
        }
    }
    assert(l =~= r);
}

proof fn lemma_drain_bits(buf: u64, len: nat, out: Seq<u8>)
    requires
        len <= 64,
    ensures
        drain(buf, len, out).0 < 8,
        drain(buf, len, out).0 <= len,
        bytes_bits(drain(buf, len, out).1) + low_bits(buf, drain(buf, len, out).0) == bytes_bits(
            out,
        ) + low_bits(buf, len),
    decreases len,
{
    if len >= 8 {
        let byte = ((buf >> ((len - 8) as u64)) & 0xff) as u8;
        lemma_drain_bits(buf, (len - 8) as nat, out.push(byte));
        lemma_bytes_bits_push(out, byte);
        lemma_low_bits_drain(buf, len);
        assert(bytes_bits(out) + byte_bits(byte) + low_bits(buf, (len - 8) as nat) =~= bytes_bits(
            out,
        ) + (byte_bits(byte) + low_bits(buf, (len - 8) as nat)));
    }
}

/// The encoder from position `i` writes the rest of the code words after
/// what it holds, then pads the last byte with zero bits.
#[verifier::spinoff_prover]
#[verifier::rlimit(60)]
pub(crate) proof fn lemma_encode_from_bits(
    data: Seq<u8>,
    t: Seq<(u64, u8)>,
    i: int,
    buf: u64,
    len: nat,
    out: Seq<u8>,
)
    requires
        0 <= i <= data.len(),
        len < 8,
        t.len() == 256,
        codes_fit(data, t),
        bytes_bits(out) + low_bits(buf, len) == words_of(data.take(i), t),
    ensures
        exists|pad: nat|
            pad < 8 && bytes_bits(encode_from(data, t, i, buf, len, out)) == words_of(data, t)
                + #[trigger] zeros(pad),
    decreases data.len() - i,
{
    if i >= data.len() {
        assert(data.take(i) =~= data);
        if len > 0 {
            let byte = ((buf << ((8 - len) as u64)) & 0xff) as u8;
            lemma_bytes_bits_push(out, byte);
            lemma_low_bits_pad(buf, len);
            let pad = (8 - len) as nat;
            assert(bytes_bits(out.push(byte)) =~= words_of(data, t) + zeros(pad));
        } else {
            assert(low_bits(buf, 0) =~= Seq::<bool>::empty());
            assert(bytes_bits(out) =~= words_of(data, t) + zeros(0));
        }
    } else {
        let (code, bits) = t[data[i] as int];
        assert(1 <= bits <= 57 && code >> (bits as u64) == 0);
        let buf2 = (buf << (bits as u64)) | code;
        lemma_low_bits_append(buf, len, code, bits as nat);
        lemma_drain_bits(buf2, len + bits as nat, out);
        let (len2, out2) = drain(buf2, len + bits as nat, out);
        assert(data.take(i + 1).drop_last() =~= data.take(i));
        assert(data.take(i + 1).last() == data[i]);
        assert(bytes_bits(out2) + low_bits(buf2, len2) =~= words_of(data.take(i + 1), t));
        lemma_encode_from_bits(data, t, i + 1, buf2, len2, out2);
    }
}


// ─── The code words form a prefix code ──────────────────────────────────────

/// Whether `p` is a prefix of `q`.
pub open spec fn is_prefix(p: Seq<bool>, q: Seq<bool>) -> bool {
    p.len() <= q.len() && q.take(p.len() as int) == p
}

/// `p` is the path from the root of `t` to a leaf for `s` (`true` for right).
spec fn leaf_path(t: Tree, s: u8, p: Seq<bool>) -> bool
    decreases t,
{
    match t {
        Tree::Leaf { sym, .. } => p.len() == 0 && sym == s,
        Tree::Node { left, right, .. } => p.len() > 0 && if p[0] {
            leaf_path(*right, s, p.drop_first())
        } else {
            leaf_path(*left, s, p.drop_first())
        },
    }
}

/// Some leaf of `t` is for `s`.
spec fn in_tree(t: Tree, s: u8) -> bool
    decreases t,
{
    match t {
        Tree::Leaf { sym, .. } => sym == s,
        Tree::Node { left, right, .. } => in_tree(*left, s) || in_tree(*right, s),
    }
}

/// Some tree of `f` has a leaf for `s`.
spec fn in_forest(f: Seq<Box<Tree>>, s: u8) -> bool {
    exists|i: int| 0 <= i < f.len() && in_tree(*#[trigger] f[i], s)
}

/// The paths to leaves for two different symbols branch apart.
proof fn lemma_paths_apart(t: Tree, s1: u8, p1: Seq<bool>, s2: u8, p2: Seq<bool>)
    requires
        leaf_path(t, s1, p1),
        leaf_path(t, s2, p2),
        s1 != s2,
    ensures
        !is_prefix(p1, p2),
    decreases t,
{
    match t {
        Tree::Leaf { .. } => {},
        Tree::Node { left, right, .. } => {
            if is_prefix(p1, p2) {
                assert(p2.take(p1.len() as int)[0] == p2[0]);
                assert(p2.drop_first().take(p1.drop_first().len() as int) =~= p1.drop_first());
                if p1[0] {
                    lemma_paths_apart(*right, s1, p1.drop_first(), s2, p2.drop_first());
                } else {
                    lemma_paths_apart(*left, s1, p1.drop_first(), s2, p2.drop_first());
                }
            }
        },
    }
}

/// The entry `e` holds, right-justified, the path to `t` followed by a path
/// in `t` to a leaf for `s`.
spec fn word_for(t: Tree, s: u8, code: u64, depth: u8, e: (u64, u8)) -> bool {
    &&& e.0 >> (e.1 as u64) == 0
    &&& exists|q: Seq<bool>|
        #[trigger] leaf_path(t, s, q) && e.1 == depth + q.len() && word(e) == low_bits(
            code,
            depth as nat,
        ) + q
}

proof fn lemma_low_bits_bit(code: u64, depth: u8)
    requires
        depth <= 62,
        code >> (depth as u64) == 0,
    ensures
        low_bits(code << 1, (depth + 1) as nat) == low_bits(code, depth as nat).push(false),
        low_bits((code << 1) | 1, (depth + 1) as nat) == low_bits(code, depth as nat).push(true),
        (code << 1) >> ((depth + 1) as u64) == 0,
        ((code << 1) | 1) >> ((depth + 1) as u64) == 0,
{
    let d = depth as u64;
    assert((code << 1u64) >> (d + 1) == 0 && ((code << 1u64) | 1) >> (d + 1) == 0 && (code
        << 1u64) | 0 == code << 1u64) by (bit_vector)
        requires
            d <= 62,
            code >> d == 0,
    ;
    assert(0u64 >> 1u64 == 0 && 1u64 >> 1u64 == 0) by (bit_vector);
    lemma_low_bits_append(code, depth as nat, 0, 1);
    lemma_low_bits_append(code, depth as nat, 1, 1);
    assert((0u64 >> 0u64) & 1 == 0 && (1u64 >> 0u64) & 1 == 1) by (bit_vector);
    assert(low_bits(0, 1) =~= seq![false]);
    assert(low_bits(1, 1) =~= seq![true]);
    assert(low_bits(code, depth as nat) + seq![false] =~= low_bits(code, depth as nat).push(false));
    assert(low_bits(code, depth as nat) + seq![true] =~= low_bits(code, depth as nat).push(true));
}

/// Each symbol with a leaf in `t` gets, by `assign_spec`, the path to one of
/// its leaves; the others keep their entries.
#[verifier::spinoff_prover]
#[verifier::rlimit(60)]
proof fn lemma_assign_words(t: Tree, code: u64, depth: u8, table: Seq<(u64, u8)>)
    requires
        table.len() == 256,
        depth + tree_depth(t) <= 63,
        code >> (depth as u64) == 0,
    ensures
        assign_spec(t, code, depth, table).len() == 256,
        forall|s: u8|
            !in_tree(t, s) ==> #[trigger] assign_spec(t, code, depth, table)[s as int]
                == table[s as int],
        forall|s: u8|
            in_tree(t, s) ==> #[trigger] word_for(
                t,
                s,
                code,
                depth,
                assign_spec(t, code, depth, table)[s as int],
            ),
    decreases t,
{
    match t {
        Tree::Leaf { sym, .. } => {
            let r = assign_spec(t, code, depth, table);
            assert(leaf_path(t, sym, Seq::empty()));
            assert(word(r[sym as int]) =~= low_bits(code, depth as nat) + Seq::<bool>::empty());
        },
        Tree::Node { left, right, .. } => {
            let d1 = (depth + 1) as u8;
            let lc = code << 1;
            let rc = (code << 1) | 1;
            lemma_low_bits_bit(code, depth);
            let tl = assign_spec(*left, lc, d1, table);
            lemma_assign_words(*left, lc, d1, table);
            lemma_assign_words(*right, rc, d1, tl);
            let r = assign_spec(t, code, depth, table);
            assert(r == assign_spec(*right, rc, d1, tl));
            assert forall|s: u8| in_tree(t, s) implies #[trigger] word_for(
                t,
                s,
                code,
                depth,
                r[s as int],
            ) by {
                let e = r[s as int];
                if in_tree(*right, s) {
                    assert(word_for(*right, s, rc, d1, e));
                    let q1 = choose|q: Seq<bool>|
                        #[trigger] leaf_path(*right, s, q) && e.1 == d1 + q.len() && word(e)
                            == low_bits(rc, d1 as nat) + q;
                    let q = seq![true] + q1;
                    assert(q.drop_first() =~= q1);
                    assert(leaf_path(t, s, q));
                    assert(word(e) =~= low_bits(code, depth as nat) + q);
                } else {
                    assert(e == tl[s as int]);
                    assert(word_for(*left, s, lc, d1, e));
                    let q1 = choose|q: Seq<bool>|
                        #[trigger] leaf_path(*left, s, q) && e.1 == d1 + q.len() && word(e)
                            == low_bits(lc, d1 as nat) + q;
                    let q = seq![false] + q1;
                    assert(q.drop_first() =~= q1);
                    assert(leaf_path(t, s, q));
                    assert(word(e) =~= low_bits(code, depth as nat) + q);
                }
            }
            assert forall|s: u8| !in_tree(t, s) implies #[trigger] r[s as int] == table[s as int] by {
                assert(r[s as int] == tl[s as int]);
            }
        },
    }
}

proof fn lemma_merge_step_keeps(f: Seq<Box<Tree>>, s: u8)
    requires
        f.len() >= 2,
        in_forest(f, s),
    ensures
        in_forest(merge_step(f), s),
{
    let k = choose|k: int| 0 <= k < f.len() && in_tree(*#[trigger] f[k], s);
    lemma_min_index(f);
    let i = min_index(f);
    let a = f[i];
    let f1 = f.remove(i);
    lemma_min_index(f1);
    let j = min_index(f1);
    let b = f1[j];
    let f2 = f1.remove(j);
    let n = Box::new(Tree::Node { freq: (a.weight() + b.weight()) as u64, left: a, right: b });
    let g = f2.push(n);
    assert(g == merge_step(f));
    let last = g.len() - 1;
    assert(g[last] == n);
    if k == i {
        assert(in_tree(*g[last], s));
    } else {
        let k1 = if k < i {
            k
        } else {
            k - 1
        };
        assert(f1[k1] == f[k]);
        if k1 == j {
            assert(in_tree(*g[last], s));
        } else {
            let k2 = if k1 < j {
                k1
            } else {
                k1 - 1
            };
            assert(f2[k2] == f1[k1]);
            assert(g[k2] == f2[k2]);
            assert(in_tree(*g[k2], s));
        }
    }
}

proof fn lemma_merged_keeps(f: Seq<Box<Tree>>, s: u8)
    requires
        f.len() >= 1,
    ensures
        merged(f).len() == 1,
        in_forest(f, s) ==> in_tree(*merged(f)[0], s),
        f.len() >= 2 ==> (*merged(f)[0]) is Node,
    decreases f.len(),
{
    if f.len() >= 2 {
        lemma_merge_step_len(f);
        if in_forest(f, s) {
            lemma_merge_step_keeps(f, s);
        }
        lemma_merged_keeps(merge_step(f), s);
        if f.len() == 2 {
            let g = merge_step(f);
            assert((*g[g.len() - 1]) is Node);
            assert(merged(g) == g);
        }
    }
}

proof fn lemma_leaves_in(freqs: Seq<u64>, k: int, s: u8)
    requires
        0 <= s < k,
        freqs[s as int] > 0,
    ensures
        in_forest(leaves(freqs, k), s),
    decreases k,
{
    let l = leaves(freqs, k - 1);
    let m = leaves(freqs, k);
    if s == k - 1 {
        assert(((k - 1) as u8) == s);
        assert(m[l.len() as int] == Box::new(Tree::Leaf { sym: s, freq: freqs[k - 1] }));
        assert(in_tree(*m[l.len() as int], s));
    } else {
        lemma_leaves_in(freqs, k - 1, s);
        let i = choose|i: int| 0 <= i < l.len() && in_tree(*#[trigger] l[i], s);
        if freqs[k - 1] > 0 {
            assert(m[i] == l[i]);
        }
        assert(in_tree(*m[i], s));
    }
}

proof fn lemma_merge_step_back(f: Seq<Box<Tree>>, s: u8)
    requires
        f.len() >= 2,
        in_forest(merge_step(f), s),
    ensures
        in_forest(f, s),
{
    lemma_min_index(f);
    let i = min_index(f);
    let a = f[i];
    let f1 = f.remove(i);
    lemma_min_index(f1);
    let j = min_index(f1);
    let b = f1[j];
    let f2 = f1.remove(j);
    let n = Box::new(Tree::Node { freq: (a.weight() + b.weight()) as u64, left: a, right: b });
    let g = f2.push(n);
    assert(g == merge_step(f));
    lemma_remove_two(f, i, j);
    let ib = if j < i {
        j
    } else {
        j + 1
    };
    assert(f1[j] == f[ib]);
    let k = choose|k: int| 0 <= k < g.len() && in_tree(*#[trigger] g[k], s);
    if k < g.len() - 1 {
        assert(g[k] == f[orig_index(i, j, k)]);
    } else {
        assert(g[k] == n);
        if in_tree(*a, s) {
            assert(in_tree(*f[i], s));
        } else {
            assert(in_tree(*f[ib], s));
        }
    }
}

proof fn lemma_merged_back(f: Seq<Box<Tree>>, s: u8)
    requires
        f.len() >= 1,
        merged(f).len() >= 1,
        in_tree(*merged(f)[0], s),
    ensures
        in_forest(f, s),
    decreases f.len(),
{
    if f.len() == 1 {
        assert(in_tree(*f[0], s));
    } else {
        lemma_merge_step_len(f);
        lemma_merged_back(merge_step(f), s);
        lemma_merge_step_back(f, s);
    }
}

proof fn lemma_leaves_back(freqs: Seq<u64>, k: int, s: u8)
    requires
        k <= 256,
        in_forest(leaves(freqs, k), s),
    ensures
        0 <= s < k,
        freqs[s as int] > 0,
    decreases k,
{
    let m = leaves(freqs, k);
    let i = choose|i: int| 0 <= i < m.len() && in_tree(*#[trigger] m[i], s);
    if k > 0 {
        let l = leaves(freqs, k - 1);
        if freqs[k - 1] > 0 && i == l.len() {
            assert(m[i] == Box::new(Tree::Leaf { sym: (k - 1) as u8, freq: freqs[k - 1] }));
            assert(s == (k - 1) as u8);
        } else {
            assert(m[i] == l[i]);
            assert(in_tree(*l[i], s));
            lemma_leaves_back(freqs, k - 1, s);
        }
    }
}

proof fn lemma_leaves_sum_bound(freqs: Seq<u64>, k: int)
    ensures
        leaves_sum(leaves(freqs, k)) <= if k < 0 { 0 } else { k },
    decreases k,
{
    if k > 0 {
        lemma_leaves_sum_bound(freqs, k - 1);
        let l = leaves(freqs, k - 1);
        if freqs[k - 1] > 0 {
            let m = leaves(freqs, k);
            assert(m.drop_last() =~= l);
        }
    }
}

#[verifier::spinoff_prover]
#[verifier::rlimit(30)]
proof fn lemma_merged_leaves_sum(f: Seq<Box<Tree>>)
    requires
        f.len() >= 1,
    ensures
        merged(f).len() == 1,
        leaf_count(*merged(f)[0]) == leaves_sum(f),
    decreases f.len(),
{
    if f.len() == 1 {
        assert(f.drop_last() =~= Seq::<Box<Tree>>::empty());
        assert(f.last() == f[0]);
        assert(merged(f) == f);
        assert(leaves_sum(f.drop_last()) == 0);
        assert(leaves_sum(f) == leaf_count(*f[0]));
    } else {
        lemma_merge_step_len(f);
        lemma_min_index(f);
        let i = min_index(f);
        let a = f[i];
        let f1 = f.remove(i);
        lemma_min_index(f1);
        let j = min_index(f1);
        let b = f1[j];
        let f2 = f1.remove(j);
        lemma_sums_remove(f, i);
        lemma_sums_remove(f1, j);
        let n = Box::new(Tree::Node { freq: (a.weight() + b.weight()) as u64, left: a, right: b });
        let g = f2.push(n);
        assert(g == merge_step(f));
        assert(g.drop_last() =~= f2);
        assert(leaves_sum(g) == leaves_sum(f));
        lemma_merged_leaves_sum(g);
        assert(merged(f) == merged(g));
    }
}

/// `assign_spec` gives each symbol with a leaf in `t` a length of at least
/// `depth` (more below a node) and keeps the other entries.
proof fn lemma_assign_support(t: Tree, code: u64, depth: u8, table: Seq<(u64, u8)>)
    requires
        table.len() == 256,
        depth + tree_depth(t) <= 255,
    ensures
        assign_spec(t, code, depth, table).len() == 256,
        forall|s: u8|
            !in_tree(t, s) ==> #[trigger] assign_spec(t, code, depth, table)[s as int]
                == table[s as int],
        forall|s: u8|
            in_tree(t, s) ==> #[trigger] assign_spec(t, code, depth, table)[s as int].1 >= depth
                + if t is Node {
                1int
            } else {
                0int
            },
    decreases t,
{
    match t {
        Tree::Leaf { .. } => {},
        Tree::Node { left, right, .. } => {
            let d1 = (depth + 1) as u8;
            let tl = assign_spec(*left, code << 1, d1, table);
            lemma_assign_support(*left, code << 1, d1, table);
            lemma_assign_support(*right, (code << 1) | 1, d1, tl);
            let r = assign_spec(t, code, depth, table);
            assert(r == assign_spec(*right, (code << 1) | 1, d1, tl));
            assert forall|s: u8| in_tree(t, s) implies #[trigger] r[s as int].1 >= depth + 1 by {
                if !in_tree(*right, s) {
                    assert(r[s as int] == tl[s as int]);
                }
            }
            assert forall|s: u8| !in_tree(t, s) implies #[trigger] r[s as int] == table[s as int] by {
                assert(r[s as int] == tl[s as int]);
            }
        },
    }
}

/// The symbol of a leaf.
spec fn leaf_sym(t: Tree) -> u8 {
    match t {
        Tree::Leaf { sym, .. } => sym,
        _ => 0,
    }
}

proof fn lemma_leaves_sorted(freqs: Seq<u64>, k: int)
    requires
        k <= 256,
    ensures
        forall|i: int| 0 <= i < leaves(freqs, k).len() ==> #[trigger] leaf_sym(*leaves(freqs, k)[i]) < k,
        forall|i: int, j: int|
            0 <= i < j < leaves(freqs, k).len() ==> leaf_sym(*#[trigger] leaves(freqs, k)[i])
                < leaf_sym(*#[trigger] leaves(freqs, k)[j]),
    decreases k,
{
    if k > 0 {
        lemma_leaves_sorted(freqs, k - 1);
        let l = leaves(freqs, k - 1);
        let m = leaves(freqs, k);
        assert forall|i: int| 0 <= i < l.len() implies m[i] == l[i] by {}
        if freqs[k - 1] > 0 {
            assert(leaf_sym(*m[l.len() as int]) == k - 1);
        }
    }
}

/// No symbol has two leaves in `t`.
spec fn distinct_tree(t: Tree) -> bool
    decreases t,
{
    match t {
        Tree::Leaf { .. } => true,
        Tree::Node { left, right, .. } => {
            &&& distinct_tree(*left)
            &&& distinct_tree(*right)
            &&& forall|s: u8| !(#[trigger] in_tree(*left, s) && in_tree(*right, s))
        },
    }
}

/// No symbol has two leaves in the forest `f`.
spec fn distinct_forest(f: Seq<Box<Tree>>) -> bool {
    &&& forall|i: int| 0 <= i < f.len() ==> distinct_tree(*#[trigger] f[i])
    &&& forall|i: int, j: int, s: u8|
        0 <= i < f.len() && 0 <= j < f.len() && i != j ==> !(#[trigger] in_tree(*f[i], s)
            && #[trigger] in_tree(*f[j], s))
}

proof fn lemma_leaves_distinct(freqs: Seq<u64>)
    requires
        freqs.len() == 256,
    ensures
        distinct_forest(leaves(freqs, 256)),
{
    let l = leaves(freqs, 256);
    lemma_leaves_are_leaves(freqs, 256);
    lemma_leaves_sorted(freqs, 256);
    assert forall|i: int, j: int, s: u8|
        0 <= i < l.len() && 0 <= j < l.len() && i != j implies !(#[trigger] in_tree(*l[i], s)
        && #[trigger] in_tree(*l[j], s)) by {
        if i < j {
            assert(leaf_sym(*l[i]) < leaf_sym(*l[j]));
        } else {
            assert(leaf_sym(*l[j]) < leaf_sym(*l[i]));
        }
    }
}

#[verifier::spinoff_prover]
#[verifier::rlimit(40)]
proof fn lemma_merge_step_distinct(f: Seq<Box<Tree>>)
    requires
        f.len() >= 2,
        distinct_forest(f),
    ensures
        distinct_forest(merge_step(f)),
{
    lemma_min_index(f);
    let i = min_index(f);
    let a = f[i];
    let f1 = f.remove(i);
    lemma_min_index(f1);
    let j = min_index(f1);
    let b = f1[j];
    let f2 = f1.remove(j);
    let n = Box::new(Tree::Node { freq: (a.weight() + b.weight()) as u64, left: a, right: b });
    let g = f2.push(n);
    assert(g == merge_step(f));
    lemma_remove_two(f, i, j);
    let ib = if j < i {
        j
    } else {
        j + 1
    };
    assert(f1[j] == f[ib]);
    assert(ib != i);
    let last = g.len() - 1;
    assert forall|s: u8| !(#[trigger] in_tree(*a, s) && in_tree(*b, s)) by {
        assert(f[i] == a && f[ib] == b);
    }
    assert(distinct_tree(*n));
    assert forall|k: int| 0 <= k < g.len() implies distinct_tree(*#[trigger] g[k]) by {
        if k < last {
            assert(g[k] == f[orig_index(i, j, k)]);
        }
    }
    assert forall|x: int, y: int, s: u8|
        0 <= x < g.len() && 0 <= y < g.len() && x != y implies !(#[trigger] in_tree(*g[x], s)
        && #[trigger] in_tree(*g[y], s)) by {
        if x < last && y < last {
            assert(g[x] == f[orig_index(i, j, x)]);
            assert(g[y] == f[orig_index(i, j, y)]);
        } else if x < last {
            let o = orig_index(i, j, x);
            assert(g[x] == f[o]);
            assert(g[y] == n);
            assert(f[i] == a && f[ib] == b);
            assert(!(in_tree(*f[o], s) && in_tree(*f[i], s)));
            assert(!(in_tree(*f[o], s) && in_tree(*f[ib], s)));
        } else {
            let o = orig_index(i, j, y);
            assert(g[y] == f[o]);
            assert(g[x] == n);
            assert(f[i] == a && f[ib] == b);
            assert(!(in_tree(*f[o], s) && in_tree(*f[i], s)));
            assert(!(in_tree(*f[o], s) && in_tree(*f[ib], s)));
        }
    }
}

proof fn lemma_merged_distinct(f: Seq<Box<Tree>>)
    requires
        f.len() >= 1,
        distinct_forest(f),
    ensures
        merged(f).len() == 1,
        distinct_tree(*merged(f)[0]),
    decreases f.len(),
{
    if f.len() >= 2 {
        lemma_merge_step_len(f);
        lemma_merge_step_distinct(f);
        lemma_merged_distinct(merge_step(f));
    }
}

/// In a tree without repeated symbols, some symbol's entry gets the depth
/// of the deepest leaf.
proof fn lemma_assign_deepest(t: Tree, code: u64, depth: u8, table: Seq<(u64, u8)>)
    requires
        table.len() == 256,
        depth + tree_depth(t) <= 255,
        distinct_tree(t),
    ensures
        exists|s: u8|
            in_tree(t, s) && #[trigger] assign_spec(t, code, depth, table)[s as int].1 == depth
                + tree_depth(t),
    decreases t,
{
    match t {
        Tree::Leaf { sym, .. } => {
            assert(in_tree(t, sym));
            assert(assign_spec(t, code, depth, table)[sym as int].1 == depth);
        },
        Tree::Node { left, right, .. } => {
            let d1 = (depth + 1) as u8;
            let tl = assign_spec(*left, code << 1, d1, table);
            lemma_assign_support(*left, code << 1, d1, table);
            lemma_assign_support(*right, (code << 1) | 1, d1, tl);
            let r = assign_spec(t, code, depth, table);
            assert(r == assign_spec(*right, (code << 1) | 1, d1, tl));
            if tree_depth(*left) >= tree_depth(*right) {
                lemma_assign_deepest(*left, code << 1, d1, table);
                let s = choose|s: u8|
                    in_tree(*left, s) && #[trigger] tl[s as int].1 == d1 + tree_depth(*left);
                assert(!in_tree(*right, s));
                assert(r[s as int] == tl[s as int]);
                assert(in_tree(t, s));
            } else {
                lemma_assign_deepest(*right, (code << 1) | 1, d1, tl);
                let s = choose|s: u8|
                    in_tree(*right, s) && #[trigger] r[s as int].1 == d1 + tree_depth(*right);
                assert(in_tree(t, s));
            }
        },
    }
}

/// The deepest leaf of the Huffman tree gives the longest code word: when
/// every word has at most `bound` bits, so has every path of the tree.
proof fn lemma_depth_from_words(freqs: Seq<u64>, bound: nat)
    requires
        freqs.len() == 256,
        leaves(freqs, 256).len() >= 2,
        forall|s: int| 0 <= s < 256 ==> #[trigger] huffman_table(freqs)[s].1 <= bound,
    ensures
        merged(leaves(freqs, 256)).len() == 1,
        tree_depth(*merged(leaves(freqs, 256))[0]) <= bound,
{
    let l = leaves(freqs, 256);
    lemma_merged_leaves_sum(l);
    lemma_leaves_sum_bound(freqs, 256);
    lemma_leaves_distinct(freqs);
    lemma_merged_distinct(l);
    let root = *merged(l)[0];
    lemma_depth_below_leaf_count(root);
    lemma_assign_deepest(root, 0, 0, empty_table());
    let s = choose|s: u8|
        in_tree(root, s) && #[trigger] assign_spec(root, 0, 0, empty_table())[s as int].1 == 0
            + tree_depth(root);
    assert(huffman_table(freqs) == assign_spec(root, 0, 0, empty_table()));
    assert(huffman_table(freqs)[s as int].1 <= bound);
}

/// What the entry `e` adds to the Kraft sum over words of at most `bound`
/// bits: `2^(bound - length)` for a word, 0 for no word.
pub open spec fn kraft_term(e: (u64, u8), bound: nat) -> nat {
    if 0 < e.1 && e.1 <= bound {
        vstd::arithmetic::power2::pow2((bound - e.1) as nat)
    } else {
        0
    }
}

/// The Kraft sum of the entries below `k`, scaled by `2^bound`.
pub open spec fn kraft_sum(t: Seq<(u64, u8)>, bound: nat, k: int) -> nat
    decreases k,
{
    if k <= 0 {
        0
    } else {
        kraft_sum(t, bound, k - 1) + kraft_term(t[k - 1], bound)
    }
}

proof fn lemma_kraft_update(t: Seq<(u64, u8)>, bound: nat, k: int, s: int, x: (u64, u8))
    requires
        0 <= s < t.len(),
        k <= t.len(),
    ensures
        kraft_sum(t.update(s, x), bound, k) + (if s < k { kraft_term(t[s], bound) } else { 0 })
            == kraft_sum(t, bound, k) + (if s < k { kraft_term(x, bound) } else { 0 }),
    decreases k,
{
    if k > 0 {
        lemma_kraft_update(t, bound, k - 1, s, x);
        if k - 1 != s {
            assert(t.update(s, x)[k - 1] == t[k - 1]);
        }
    }
}

proof fn lemma_kraft_empty(bound: nat, k: int)
    requires
        k <= 256,
    ensures
        kraft_sum(empty_table(), bound, k) == 0,
    decreases k,
{
    if k > 0 {
        lemma_kraft_empty(bound, k - 1);
    }
}

/// The Kraft sum of the leaves of `t`, which sits at `depth`.
spec fn tree_kraft(t: Tree, depth: nat, bound: nat) -> nat
    decreases t,
{
    match t {
        Tree::Leaf { .. } => if 0 < depth && depth <= bound {
            vstd::arithmetic::power2::pow2((bound - depth) as nat)
        } else {
            0
        },
        Tree::Node { left, right, .. } => tree_kraft(*left, depth + 1, bound) + tree_kraft(
            *right,
            depth + 1,
            bound,
        ),
    }
}

/// Every node of a code tree has two children, so the leaves fill the
/// Kraft sum exactly.
proof fn lemma_tree_kraft_full(t: Tree, depth: nat, bound: nat)
    requires
        depth + tree_depth(t) <= bound,
        t is Leaf ==> depth >= 1,
    ensures
        tree_kraft(t, depth, bound) == vstd::arithmetic::power2::pow2((bound - depth) as nat),
    decreases t,
{
    match t {
        Tree::Leaf { .. } => {},
        Tree::Node { left, right, .. } => {
            lemma_tree_kraft_full(*left, depth + 1, bound);
            lemma_tree_kraft_full(*right, depth + 1, bound);
            vstd::arithmetic::power2::lemma_pow2_unfold((bound - depth) as nat);
        },
    }
}

proof fn lemma_assign_kraft(t: Tree, code: u64, depth: u8, table: Seq<(u64, u8)>, bound: nat)
    requires
        table.len() == 256,
        depth + tree_depth(t) <= 255,
        distinct_tree(t),
        forall|s: u8| #[trigger] in_tree(t, s) ==> table[s as int].1 == 0,
    ensures
        kraft_sum(assign_spec(t, code, depth, table), bound, 256) == kraft_sum(table, bound, 256)
            + tree_kraft(t, depth as nat, bound),
    decreases t,
{
    match t {
        Tree::Leaf { sym, .. } => {
            assert(in_tree(t, sym));
            lemma_kraft_update(table, bound, 256, sym as int, (code, depth));
        },
        Tree::Node { left, right, .. } => {
            let d1 = (depth + 1) as u8;
            let tl = assign_spec(*left, code << 1, d1, table);
            lemma_assign_support(*left, code << 1, d1, table);
            assert forall|s: u8| #[trigger] in_tree(*left, s) implies table[s as int].1 == 0 by {
                assert(in_tree(t, s));
            }
            lemma_assign_kraft(*left, code << 1, d1, table, bound);
            assert forall|s: u8| #[trigger] in_tree(*right, s) implies tl[s as int].1 == 0 by {
                assert(in_tree(t, s));
                assert(!in_tree(*left, s));
            }
            lemma_assign_kraft(*right, (code << 1) | 1, d1, tl, bound);
            assert(assign_spec(t, code, depth, table) == assign_spec(*right, (code << 1) | 1, d1, tl));
        },
    }
}

/// The Huffman code of at least two byte values fills the Kraft inequality
/// exactly: the code tree is full, every inner node having two children.
/// Scaled by `2^57`, the sum of `2^-length` over the words is 1.
pub proof fn lemma_huffman_kraft(freqs: Seq<u64>, a: u8, b: u8)
    requires
        freqs.len() == 256,
        a != b,
        freqs[a as int] > 0,
        freqs[b as int] > 0,
        forall|s: int| 0 <= s < 256 ==> #[trigger] huffman_table(freqs)[s].1 <= 57,
    ensures
        kraft_sum(huffman_table(freqs), 57, 256) == vstd::arithmetic::power2::pow2(57),
{
    let l = leaves(freqs, 256);
    lemma_leaves_are_leaves(freqs, 256);
    lemma_leaves_in(freqs, 256, a);
    lemma_leaves_in(freqs, 256, b);
    if l.len() <= 1 {
        let ia = choose|i: int| 0 <= i < l.len() && in_tree(*#[trigger] l[i], a);
        let ib = choose|i: int| 0 <= i < l.len() && in_tree(*#[trigger] l[i], b);
        assert(ia == 0 && ib == 0);
        assert(false);
    }
    lemma_depth_from_words(freqs, 57);
    lemma_leaves_distinct(freqs);
    lemma_merged_distinct(l);
    lemma_merged_keeps(l, 0);
    let root = *merged(l)[0];
    lemma_assign_kraft(root, 0, 0, empty_table(), 57);
    lemma_kraft_empty(57, 256);
    lemma_tree_kraft_full(root, 0, 57);
    assert(huffman_table(freqs) == assign_spec(root, 0, 0, empty_table()));
}

/// Which bytes have a word in the Huffman code of `freqs`: exactly those
/// that occur, and the entry of every other byte is `(0, 0)`.
#[verifier::spinoff_prover]
#[verifier::rlimit(40)]
pub proof fn lemma_huffman_table_support(freqs: Seq<u64>)
    requires
        freqs.len() == 256,
    ensures
        huffman_table(freqs).len() == 256,
        forall|s: int| 0 <= s < 256 ==> (#[trigger] huffman_table(freqs)[s].1 > 0 <==> freqs[s] > 0),
        forall|s: int| 0 <= s < 256 && freqs[s] == 0 ==> #[trigger] huffman_table(freqs)[s] == (0u64, 0u8),
{
    let l = leaves(freqs, 256);
    let t = huffman_table(freqs);
    lemma_table_len(freqs);
    lemma_leaves_are_leaves(freqs, 256);
    if l.len() == 0 {
        assert forall|s: int| 0 <= s < 256 implies freqs[s] == 0 by {
            if freqs[s] > 0 {
                lemma_leaves_in(freqs, 256, s as u8);
            }
        }
        assert(t == empty_table());
        assert forall|s: int| 0 <= s < 256 implies #[trigger] t[s] == (0u64, 0u8) by {
            assert(t[s] == empty_table()[s]);
        }
        assert(forall|s: int| 0 <= s < 256 && freqs[s] == 0 ==> #[trigger] t[s] == (0u64, 0u8));
    } else if l.len() == 1 {
        let sym = match *l[0] {
            Tree::Leaf { sym, .. } => sym,
            _ => 0,
        };
        assert(t == empty_table().update(sym as int, (0u64, 1u8)));
        assert(in_tree(*l[0], sym));
        lemma_leaves_back(freqs, 256, sym);
        assert forall|s: int| 0 <= s < 256 && s != sym as int implies freqs[s] == 0 by {
            if freqs[s] > 0 {
                lemma_leaves_in(freqs, 256, s as u8);
                assert(in_tree(*l[0], s as u8));
                assert((s as u8) as int == s);
            }
        }
        assert forall|s: int| 0 <= s < 256 && s != sym as int implies #[trigger] t[s] == (0u64, 0u8) by {
            assert(t[s] == empty_table()[s]);
        }
        assert(forall|s: int| 0 <= s < 256 && freqs[s] == 0 ==> #[trigger] t[s] == (0u64, 0u8));
    } else {
        lemma_merged_keeps(l, 0);
        lemma_merged_leaves_sum(l);
        lemma_leaves_sum_bound(freqs, 256);
        let root = *merged(l)[0];
        lemma_depth_below_leaf_count(root);
        assert(t == assign_spec(root, 0, 0, empty_table()));
        lemma_assign_support(root, 0, 0, empty_table());
        assert forall|s: int| 0 <= s < 256 implies ((#[trigger] t[s]).1 > 0 <==> freqs[s] > 0) && (
        freqs[s] == 0 ==> t[s] == (0u64, 0u8)) by {
            let x = s as u8;
            assert(x as int == s);
            if freqs[s] > 0 {
                lemma_leaves_in(freqs, 256, x);
                lemma_merged_keeps(l, x);
                assert(in_tree(root, x));
            } else {
                if in_tree(root, x) {
                    lemma_merged_back(l, x);
                    lemma_leaves_back(freqs, 256, x);
                }
                assert(t[s] == empty_table()[s]);
            }
        }
        assert(forall|s: int| 0 <= s < 256 && freqs[s] == 0 ==> #[trigger] t[s] == (0u64, 0u8));
    }
}

/// The Huffman code of frequencies that are all zero has no word.
pub proof fn lemma_huffman_table_empty(freqs: Seq<u64>)
    requires
        freqs.len() == 256,
        forall|s: int| 0 <= s < 256 ==> #[trigger] freqs[s] == 0,
    ensures
        huffman_table(freqs) == empty_table(),
{
    lemma_huffman_table_support(freqs);
    assert(huffman_table(freqs) =~= empty_table());
}

/// When one byte value `s0` occurs alone, its word is the single bit `0`.
pub proof fn lemma_huffman_table_single(freqs: Seq<u64>, s0: u8)
    requires
        freqs.len() == 256,
        freqs[s0 as int] > 0,
        forall|s: int| 0 <= s < 256 && s != s0 as int ==> #[trigger] freqs[s] == 0,
    ensures
        huffman_table(freqs) == empty_table().update(s0 as int, (0u64, 1u8)),
{
    let l = leaves(freqs, 256);
    lemma_leaves_are_leaves(freqs, 256);
    lemma_leaves_in(freqs, 256, s0);
    lemma_leaves_sum_bound(freqs, 256);
    if l.len() >= 2 {
        lemma_leaves_sorted(freqs, 256);
        let x0 = leaf_sym(*l[0]);
        let x1 = leaf_sym(*l[1]);
        assert(in_tree(*l[0], x0));
        assert(in_tree(*l[1], x1));
        assert(in_forest(l, x0));
        assert(in_forest(l, x1));
        lemma_leaves_back(freqs, 256, x0);
        lemma_leaves_back(freqs, 256, x1);
        assert(x0 as int == s0 as int || freqs[x0 as int] == 0);
        assert(false);
    }
    let sym = match *l[0] {
        Tree::Leaf { sym, .. } => sym,
        _ => 0,
    };
    assert(in_tree(*l[0], sym));
    assert(sym == s0);
}

/// The code words of a table: every entry without a word is `(0, 0)`, every
/// word fits its length, and no word is a prefix of another's.
pub open spec fn prefix_code(t: Seq<(u64, u8)>) -> bool {
    &&& t.len() == 256
    &&& forall|s: int| 0 <= s < 256 && (#[trigger] t[s]).1 == 0 ==> t[s] == (0u64, 0u8)
    &&& forall|s: int| 0 <= s < 256 ==> (#[trigger] t[s]).0 >> (t[s].1 as u64) == 0
    &&& forall|s1: int, s2: int|
        0 <= s1 < 256 && 0 <= s2 < 256 && s1 != s2 && t[s1].1 > 0 && t[s2].1 > 0 ==> !is_prefix(
            word(#[trigger] t[s1]),
            word(#[trigger] t[s2]),
        )
}

/// A Huffman table whose words have at most 57 bits is a prefix code, and
/// every byte value that occurs has a word.
#[verifier::spinoff_prover]
#[verifier::rlimit(60)]
pub proof fn lemma_huffman_prefix_code(freqs: Seq<u64>)
    requires
        freqs.len() == 256,
        forall|s: int| 0 <= s < 256 ==> #[trigger] huffman_table(freqs)[s].1 <= 57,
    ensures
        prefix_code(huffman_table(freqs)),
        forall|s: int| 0 <= s < 256 ==> #[trigger] huffman_table(freqs)[s].1 <= 57,
        forall|s: int| 0 <= s < 256 && freqs[s] > 0 ==> #[trigger] huffman_table(freqs)[s].1 > 0,
{
    let l = leaves(freqs, 256);
    let t = huffman_table(freqs);
    lemma_leaves_are_leaves(freqs, 256);
    lemma_fib_table();
    assert(0u64 >> 0u64 == 0 && 0u64 >> 1u64 == 0) by (bit_vector);
    if l.len() == 0 {
        assert forall|s: int| 0 <= s < 256 && freqs[s] > 0 implies #[trigger] t[s].1 > 0 by {
            lemma_leaves_in(freqs, 256, s as u8);
        }
        assert(t == empty_table());
        assert(prefix_code(t));
    } else if l.len() == 1 {
        let sym = match *l[0] {
            Tree::Leaf { sym, .. } => sym,
            _ => 0,
        };
        assert(t == empty_table().update(sym as int, (0u64, 1u8)));
        assert(0u64 >> 1u64 == 0) by (bit_vector);
        assert forall|s: int| 0 <= s < 256 && freqs[s] > 0 implies #[trigger] t[s].1 > 0 by {
            lemma_leaves_in(freqs, 256, s as u8);
            assert(in_tree(*l[0], s as u8));
        }
        assert forall|s: int| 0 <= s < 256 implies #[trigger] t[s].0 >> (t[s].1 as u64) == 0 by {
            if s == sym as int {
                assert(t[s] == (0u64, 1u8));
            } else {
                assert(t[s] == (0u64, 0u8));
            }
        }
        assert(prefix_code(t));
    } else {
        lemma_depth_from_words(freqs, 57);
        let root = *merged(l)[0];
        assert(t == assign_spec(root, 0, 0, empty_table()));
        assert(0u64 >> 0u64 == 0) by (bit_vector);
        lemma_assign_words(root, 0, 0, empty_table());
        lemma_merged_keeps(l, 0);
        assert forall|s: int| 0 <= s < 256 implies #[trigger] t[s].1 <= 57 && (t[s].1 == 0 ==> t[s]
            == (0u64, 0u8)) && t[s].0 >> (t[s].1 as u64) == 0 && (in_tree(root, s as u8) <==> t[s].1
            > 0) by {
            let x = s as u8;
            assert(x as int == s);
            if in_tree(root, x) {
                assert(word_for(root, x, 0, 0, t[s]));
                let q = choose|q: Seq<bool>|
                    #[trigger] leaf_path(root, x, q) && t[s].1 == 0 + q.len() && word(t[s])
                        == low_bits(0, 0) + q;
                assert(q.len() > 0);
                lemma_leaf_path_len(root, x, q);
            } else {
                assert(t[s] == empty_table()[s]);
            }
        }
        assert forall|s1: int, s2: int|
            0 <= s1 < 256 && 0 <= s2 < 256 && s1 != s2 && t[s1].1 > 0 && t[s2].1 > 0 implies !is_prefix(
            word(#[trigger] t[s1]),
            word(#[trigger] t[s2]),
        ) by {
            let x1 = s1 as u8;
            let x2 = s2 as u8;
            assert(x1 as int == s1 && x2 as int == s2);
            assert(word_for(root, x1, 0, 0, t[s1]));
            assert(word_for(root, x2, 0, 0, t[s2]));
            let q1 = choose|q: Seq<bool>|
                #[trigger] leaf_path(root, x1, q) && t[s1].1 == 0 + q.len() && word(t[s1])
                    == low_bits(0, 0) + q;
            let q2 = choose|q: Seq<bool>|
                #[trigger] leaf_path(root, x2, q) && t[s2].1 == 0 + q.len() && word(t[s2])
                    == low_bits(0, 0) + q;
            assert(word(t[s1]) =~= q1);
            assert(word(t[s2]) =~= q2);
            lemma_paths_apart(root, x1, q1, x2, q2);
        }
        assert(prefix_code(t));
        assert forall|s: int| 0 <= s < 256 && freqs[s] > 0 implies #[trigger] t[s].1 > 0 by {
            lemma_leaves_in(freqs, 256, s as u8);
            lemma_merged_keeps(l, s as u8);
            assert((s as u8) as int == s);
        }
    }
}

proof fn lemma_leaf_path_len(t: Tree, s: u8, q: Seq<bool>)
    requires
        leaf_path(t, s, q),
    ensures
        q.len() <= tree_depth(t),
    decreases t,
{
    match t {
        Tree::Leaf { .. } => {},
        Tree::Node { left, right, .. } => {
            if q[0] {
                lemma_leaf_path_len(*right, s, q.drop_first());
            } else {
                lemma_leaf_path_len(*left, s, q.drop_first());
            }
        },
    }
}

// ─── Reading back a code book ───────────────────────────────────────────────

proof fn lemma_entries_bytes_at(es: Seq<(u8, u64, u8)>, i: int)
    requires
        0 <= i < es.len(),
    ensures
        entries_bytes(es).len() == 10 * es.len(),
        entries_bytes(es).subrange(10 * i, 10 * i + 10) == entry_bytes(es[i]),
    decreases es.len(),
{
    lemma_entries_bytes_len(es);
    let d = es.drop_last();
    lemma_entries_bytes_len(d);
    if i < es.len() - 1 {
        lemma_entries_bytes_at(d, i);
        assert(entries_bytes(es).subrange(10 * i, 10 * i + 10) =~= entries_bytes(d).subrange(
            10 * i,
            10 * i + 10,
        ));
    } else {
        assert(entries_bytes(es).subrange(10 * i, 10 * i + 10) =~= entry_bytes(es.last()));
    }
}

proof fn lemma_table_entries_prefix(t: Seq<(u64, u8)>, k: int, j: int)
    requires
        0 <= k <= j,
    ensures
        table_entries(t, k).len() <= table_entries(t, j).len(),
        table_entries(t, j).take(table_entries(t, k).len() as int) == table_entries(t, k),
    decreases j - k,
{
    if k == j {
        assert(table_entries(t, j).take(table_entries(t, k).len() as int) =~= table_entries(t, k));
    } else {
        lemma_table_entries_prefix(t, k, j - 1);
        let a = table_entries(t, k);
        let b = table_entries(t, j - 1);
        let c = table_entries(t, j);
        if t[j - 1].1 > 0 {
            assert(c.take(a.len() as int) =~= b.take(a.len() as int));
        }
    }
}

/// The entries of `t` below `k` read back from its serialized form.
#[verifier::spinoff_prover]
#[verifier::rlimit(40)]
proof fn lemma_fill_entries(t: Seq<(u64, u8)>, k: int)
    requires
        t.len() == 256,
        0 <= k <= 256,
        forall|s: int| 0 <= s < 256 && (#[trigger] t[s]).1 == 0 ==> t[s] == (0u64, 0u8),
    ensures
        fill(serialize_spec(t), table_entries(t, k).len() as int) == Seq::new(
            256,
            |s: int|
                if s < k {
                    t[s]
                } else {
                    (0u64, 0u8)
                },
        ),
    decreases k,
{
    let data = serialize_spec(t);
    let es = table_entries(t, 256);
    if k == 0 {
        assert(fill(data, 0) =~= Seq::new(
            256,
            |s: int|
                if s < k {
                    t[s]
                } else {
                    (0u64, 0u8)
                },
        ));
    } else {
        lemma_fill_entries(t, k - 1);
        let a = table_entries(t, k - 1);
        let m = a.len() as int;
        let prev = fill(data, m);
        if t[k - 1].1 > 0 {
            let b = table_entries(t, k);
            assert(b == a.push(((k - 1) as u8, t[k - 1].0, t[k - 1].1)));
            lemma_table_entries_prefix(t, k, 256);
            assert(es[m] == b[m]);
            lemma_entries_bytes_at(es, m);
            let off = 2 + m * 10;
            let eb = entries_bytes(es);
            assert(data == u16_le(es.len()) + eb);
            assert(data.subrange(off, off + 10) =~= eb.subrange(10 * m, 10 * m + 10));
            let e = entry_bytes(es[m]);
            assert(data[off] == e[0]);
            assert(data[off + 1] == e[1]);
            assert(e.subrange(2, 10) =~= u64_le(t[k - 1].0));
            assert(data.subrange(off + 2, off + 10) =~= data.subrange(off, off + 10).subrange(2, 10));
            assert(data.subrange(off + 2, off + 10) =~= u64_le(t[k - 1].0));
            lemma_le_u64_roundtrip(t[k - 1].0);
            assert(((k - 1) as u8) as int == k - 1);
            assert(fill(data, m + 1) =~= Seq::new(
                256,
                |s: int|
                    if s < k {
                        t[s]
                    } else {
                        (0u64, 0u8)
                    },
            ));
        } else {
            assert(fill(data, m) =~= Seq::new(
                256,
                |s: int|
                    if s < k {
                        t[s]
                    } else {
                        (0u64, 0u8)
                    },
            ));
        }
    }
}

/// Reading back a serialized table gives the table, when every entry
/// without a code word is `(0, 0)`.
pub proof fn lemma_serialize_roundtrip(t: Seq<(u64, u8)>)
    requires
        t.len() == 256,
        forall|s: int| 0 <= s < 256 && (#[trigger] t[s]).1 == 0 ==> t[s] == (0u64, 0u8),
    ensures
        deserialize_spec(serialize_spec(t)) == Ok::<(Seq<(u64, u8)>, nat), HuffmanError>(
            (t, serialize_spec(t).len()),
        ),
{
    let data = serialize_spec(t);
    let es = table_entries(t, 256);
    lemma_serialize_len(t);
    let n = es.len();
    assert(data[0] as nat + data[1] as nat * 0x100 == n);
    lemma_fill_entries(t, 256);
    assert(fill(data, n as int) =~= t);
}

// ─── The trie of a prefix code ──────────────────────────────────────────────

/// `1` for a set bit, `0` for a clear one.
pub open spec fn bit_of(b: bool) -> int {
    if b {
        1
    } else {
        0
    }
}

/// The node reached from the root along `p` without passing through a
/// leaf; `None` where a child is missing.
pub open spec fn reach(nodes: Seq<(u16, u16)>, p: Seq<bool>) -> Option<int>
    decreases p.len(),
{
    if p.len() == 0 {
        Some(0)
    } else {
        match reach(nodes, p.drop_last()) {
            None => None,
            Some(x) => if nodes[x].1 == LEAF_MARK {
                None
            } else {
                let c = child(nodes[x], bit_of(p.last())) as int;
                if c < nodes.len() {
                    Some(c)
                } else {
                    None
                }
            },
        }
    }
}

/// The shape of a trie: a root, children that are missing or other nodes,
/// and no node that is the child of two places.
pub open spec fn trie_shape(n: Seq<(u16, u16)>) -> bool {
    &&& 1 <= n.len() < NIL
    &&& forall|x: int, b: int|
        0 <= x < n.len() && 0 <= b <= 1 && n[x].1 != LEAF_MARK ==> (#[trigger] child(n[x], b) == NIL
            || 0 < child(n[x], b) < n.len())
    &&& forall|x1: int, b1: int, x2: int, b2: int|
        0 <= x1 < n.len() && 0 <= x2 < n.len() && 0 <= b1 <= 1 && 0 <= b2 <= 1 && n[x1].1
            != LEAF_MARK && n[x2].1 != LEAF_MARK && #[trigger] child(n[x1], b1) == #[trigger] child(
            n[x2],
            b2,
        ) && child(n[x1], b1) != NIL ==> x1 == x2 && b1 == b2
}

proof fn lemma_reach_in(n: Seq<(u16, u16)>, p: Seq<bool>)
    requires
        trie_shape(n),
    ensures
        reach(n, p) matches Some(x) ==> 0 <= x < n.len() && (p.len() > 0 ==> x > 0),
    decreases p.len(),
{
    if p.len() > 0 {
        lemma_reach_in(n, p.drop_last());
        if let Some(x) = reach(n, p.drop_last()) {
            if n[x].1 != LEAF_MARK {
                assert(child(n[x], bit_of(p.last())) == NIL || 0 < child(n[x], bit_of(p.last()))
                    < n.len());
            }
        }
    }
}

/// Two paths that reach the same node are the same path.
proof fn lemma_reach_injective(n: Seq<(u16, u16)>, p1: Seq<bool>, p2: Seq<bool>)
    requires
        trie_shape(n),
        reach(n, p1) is Some,
        reach(n, p1) == reach(n, p2),
    ensures
        p1 == p2,
    decreases p1.len() + p2.len(),
{
    lemma_reach_in(n, p1);
    lemma_reach_in(n, p2);
    if p1.len() > 0 && p2.len() > 0 {
        let q1 = p1.drop_last();
        let q2 = p2.drop_last();
        let x1 = reach(n, q1)->0;
        let x2 = reach(n, q2)->0;
        lemma_reach_in(n, q1);
        lemma_reach_in(n, q2);
        assert(child(n[x1], bit_of(p1.last())) == child(n[x2], bit_of(p2.last())));
        assert(x1 == x2 && bit_of(p1.last()) == bit_of(p2.last()));
        lemma_reach_injective(n, q1, q2);
        assert(p1 =~= q1.push(p1.last()));
        assert(p2 =~= q2.push(p2.last()));
    }
}

/// Every prefix of a path that reaches a node reaches an inner node.
proof fn lemma_reach_prefix(n: Seq<(u16, u16)>, p: Seq<bool>, j: int)
    requires
        reach(n, p) is Some,
        0 <= j < p.len(),
    ensures
        reach(n, p.take(j)) matches Some(x) && n[x].1 != LEAF_MARK,
        reach(n, p.take(j + 1)) matches Some(y) && y == child(n[reach(n, p.take(j))->0], bit_of(
            p[j],
        )),
    decreases p.len(),
{
    let q = p.drop_last();
    if j == p.len() - 1 {
        assert(p.take(j) =~= q);
        assert(p.take(j + 1) =~= p);
    } else {
        lemma_reach_prefix(n, q, j);
        assert(q.take(j) =~= p.take(j));
        assert(q.take(j + 1) =~= p.take(j + 1));
    }
}

/// A missing child of the node at `u` becomes a new node with no children.
#[verifier::spinoff_prover]
#[verifier::rlimit(60)]
proof fn lemma_reach_grow(n: Seq<(u16, u16)>, u: Seq<bool>, bit: int, p: Seq<bool>)
    requires
        trie_shape(n),
        n.len() + 1 < NIL,
        reach(n, u) matches Some(x) && n[x].1 != LEAF_MARK && child(n[x], bit) == NIL,
        0 <= bit <= 1,
    ensures
        ({
            let g = n.push((NIL, NIL));
            let x = reach(n, u)->0;
            let m = g.update(x, set_child(g[x], bit, n.len() as u16));
            &&& trie_shape(m)
            &&& reach(m, p) == if p == u.push(bit == 1) {
                Some(n.len() as int)
            } else {
                reach(n, p)
            }
        }),
    decreases p.len(),
{
    let g = n.push((NIL, NIL));
    let x = reach(n, u)->0;
    let idx = n.len() as u16;
    let m = g.update(x, set_child(g[x], bit, idx));
    lemma_reach_in(n, u);
    assert(m.len() == n.len() + 1);
    assert forall|y: int, b: int|
        0 <= y < m.len() && 0 <= b <= 1 && m[y].1 != LEAF_MARK implies (#[trigger] child(m[y], b)
        == NIL || 0 < child(m[y], b) < m.len()) by {
        if y < n.len() && !(y == x && b == bit) {
            assert(child(m[y], b) == child(n[y], b));
            assert(m[y].1 != LEAF_MARK ==> n[y].1 != LEAF_MARK);
        }
    }
    assert forall|x1: int, b1: int, x2: int, b2: int|
        0 <= x1 < m.len() && 0 <= x2 < m.len() && 0 <= b1 <= 1 && 0 <= b2 <= 1 && m[x1].1
            != LEAF_MARK && m[x2].1 != LEAF_MARK && #[trigger] child(m[x1], b1) == #[trigger] child(
            m[x2],
            b2,
        ) && child(m[x1], b1) != NIL implies x1 == x2 && b1 == b2 by {
        let e1 = x1 == x && b1 == bit;
        let e2 = x2 == x && b2 == bit;
        if x1 < n.len() && !e1 {
            assert(child(m[x1], b1) == child(n[x1], b1));
            assert(n[x1].1 != LEAF_MARK);
        }
        if x2 < n.len() && !e2 {
            assert(child(m[x2], b2) == child(n[x2], b2));
            assert(n[x2].1 != LEAF_MARK);
        }
    }
    if p.len() > 0 {
        let q = p.drop_last();
        lemma_reach_grow(n, u, bit, q);
        let b = bit_of(p.last());
        let up = u.push(bit == 1);
        assert(up.drop_last() =~= u);
        if p == up {
            assert(q =~= u);
            assert(bit_of(p.last()) == bit);
        } else if q == up {
            assert(m[idx as int] == (NIL, NIL));
            lemma_reach_in(n, u);
            assert(child(n[x], bit) >= n.len());
        } else {
            match reach(n, q) {
                None => {},
                Some(y) => {
                    lemma_reach_in(n, q);
                    if y == x && b == bit {
                        lemma_reach_injective(n, q, u);
                        assert(p =~= q.push(p.last()));
                        assert(p.last() == (bit == 1));
                        assert(p =~= up);
                    }
                    if y != x {
                        assert(m[y] == n[y]);
                    } else {
                        assert(child(m[y], b) == child(n[y], b));
                    }
                    if n[y].1 != LEAF_MARK {
                        assert(child(n[y], b) == NIL || 0 < child(n[y], b) < n.len());
                    }
                },
            }
        }
    }
}

/// Making a childless node a leaf changes no path.
proof fn lemma_reach_leaf(n: Seq<(u16, u16)>, x: int, v: (u16, u16), p: Seq<bool>)
    requires
        trie_shape(n),
        0 <= x < n.len(),
        n[x] == (NIL, NIL),
        v.1 == LEAF_MARK,
    ensures
        reach(n.update(x, v), p) == reach(n, p),
        trie_shape(n.update(x, v)),
    decreases p.len(),
{
    let m = n.update(x, v);
    assert forall|y: int, b: int|
        0 <= y < m.len() && 0 <= b <= 1 && m[y].1 != LEAF_MARK implies (#[trigger] child(m[y], b)
        == NIL || 0 < child(m[y], b) < m.len()) by {
        assert(y != x);
        assert(m[y] == n[y]);
    }
    assert forall|x1: int, b1: int, x2: int, b2: int|
        0 <= x1 < m.len() && 0 <= x2 < m.len() && 0 <= b1 <= 1 && 0 <= b2 <= 1 && m[x1].1
            != LEAF_MARK && m[x2].1 != LEAF_MARK && #[trigger] child(m[x1], b1) == #[trigger] child(
            m[x2],
            b2,
        ) && child(m[x1], b1) != NIL implies x1 == x2 && b1 == b2 by {
        assert(x1 != x && x2 != x);
        assert(m[x1] == n[x1] && m[x2] == n[x2]);
    }
    if p.len() > 0 {
        lemma_reach_leaf(n, x, v, p.drop_last());
        if let Some(y) = reach(n, p.drop_last()) {
            if y != x {
                assert(m[y] == n[y]);
            }
        }
    }
}

/// Walking on from `u` along `v` meets only inner nodes, and the end of `v`
/// is not reached yet.
pub open spec fn walk_clear(n: Seq<(u16, u16)>, u: Seq<bool>, v: Seq<bool>) -> bool {
    forall|m: int|
        1 <= m <= v.len() ==> match #[trigger] reach(n, u + v.take(m)) {
            Some(y) => m < v.len() && n[y].1 != LEAF_MARK,
            None => true,
        }
}

/// `r` is `n` with the word `w` entered as a leaf for `sym`, after the
/// path `u` that `n` already had.
pub open spec fn inserted(
    n: Seq<(u16, u16)>,
    r: Seq<(u16, u16)>,
    u: Seq<bool>,
    w: Seq<bool>,
    sym: u8,
) -> bool {
    &&& trie_shape(r)
    &&& forall|p: Seq<bool>| (#[trigger] reach(n, p)) is Some ==> reach(r, p) == reach(n, p)
    &&& forall|p: Seq<bool>|
        match #[trigger] reach(r, p) {
            Some(y) => if reach(n, p) is Some {
                p != w ==> (n[y].1 == LEAF_MARK ==> r[y] == n[y]) && (n[y].1 != LEAF_MARK
                    ==> r[y].1 != LEAF_MARK)
            } else {
                is_prefix(p, w) && p.len() > u.len() && ((r[y].1 == LEAF_MARK) == (p == w))
            },
            None => true,
        }
    &&& reach(r, w) matches Some(y) && r[y] == (sym as u16, LEAF_MARK)
}

proof fn lemma_low_bits_first(code: u64, d: nat)
    requires
        1 <= d <= 64,
    ensures
        bit_of(low_bits(code, d)[0]) == code_bit(code, d - 1),
        low_bits(code, d).drop_first() == low_bits(code, (d - 1) as nat),
{
    let sh = (d - 1) as u64;
    assert((code >> sh) & 1 == 0 || (code >> sh) & 1 == 1) by (bit_vector);
    assert(low_bits(code, d).drop_first() =~= low_bits(code, (d - 1) as nat));
}

/// Entering the rest of a word into the trie, as `insert_code` does.
#[verifier::spinoff_prover]
#[verifier::rlimit(60)]
proof fn lemma_insert_word(n: Seq<(u16, u16)>, u: Seq<bool>, code: u64, d: int, sym: u8)
    requires
        trie_shape(n),
        n.len() + d < NIL,
        0 <= d <= 64,
        reach(n, u) matches Some(x) && n[x].1 != LEAF_MARK,
        walk_clear(n, u, low_bits(code, d as nat)),
        d == 0 ==> n[reach(n, u)->0] == (NIL, NIL),
    ensures
        insert_code(n, reach(n, u)->0, code, d, sym) is Some,
        inserted(
            n,
            insert_code(n, reach(n, u)->0, code, d, sym)->0,
            u,
            u + low_bits(code, d as nat),
            sym,
        ),
        insert_code(n, reach(n, u)->0, code, d, sym)->0.len() <= n.len() + d,
    decreases d,
{
    let x = reach(n, u)->0;
    let v = low_bits(code, d as nat);
    let w = u + v;
    lemma_reach_in(n, u);
    if d == 0 {
        let r = n.update(x, (sym as u16, LEAF_MARK));
        assert(insert_code(n, x, code, d, sym) == Some(r));
        assert(w =~= u);
        assert forall|p: Seq<bool>| true implies reach(r, p) == reach(n, p) by {
            lemma_reach_leaf(n, x, (sym as u16, LEAF_MARK), p);
        }
        lemma_reach_leaf(n, x, (sym as u16, LEAF_MARK), u);
        assert forall|p: Seq<bool>|
            match #[trigger] reach(r, p) {
                Some(y) => if reach(n, p) is Some {
                    p != w ==> (n[y].1 == LEAF_MARK ==> r[y] == n[y]) && (n[y].1 != LEAF_MARK
                        ==> r[y].1 != LEAF_MARK)
                } else {
                    is_prefix(p, w) && p.len() > u.len() && ((r[y].1 == LEAF_MARK) == (p == w))
                },
                None => true,
            } by {
            if let Some(y) = reach(r, p) {
                if y == x {
                    lemma_reach_injective(n, p, u);
                }
            }
        }
        assert(inserted(n, r, u, w, sym));
    } else {
        lemma_low_bits_first(code, d as nat);
        let bit = code_bit(code, d - 1);
        let up = u.push(v[0]);
        let v1 = low_bits(code, (d - 1) as nat);
        assert(w =~= up + v1);
        assert(u + v.take(1) =~= up);
        assert(up.drop_last() =~= u);
        assert(v[0] == (bit == 1));
        if child(n[x], bit) == NIL {
            let g = n.push((NIL, NIL));
            let idx = n.len() as u16;
            let m = g.update(x, set_child(g[x], bit, idx));
            assert((g.len() - 1) as u16 == idx);
            assert forall|p: Seq<bool>| true implies reach(m, p) == if p == up {
                Some(n.len() as int)
            } else {
                reach(n, p)
            } by {
                lemma_reach_grow(n, u, bit, p);
            }
            lemma_reach_grow(n, u, bit, up);
            assert(reach(m, up) == Some(idx as int));
            assert(m[idx as int] == (NIL, NIL));
            assert forall|k: int| 1 <= k <= v1.len() implies match #[trigger] reach(
                m,
                up + v1.take(k),
            ) {
                Some(y) => k < v1.len() && m[y].1 != LEAF_MARK,
                None => true,
            } by {
                let p = up + v1.take(k);
                if reach(m, p) is Some {
                    lemma_reach_prefix(m, p, up.len() as int);
                    assert(p.take(up.len() as int) =~= up);
                    assert(p.take(up.len() as int + 1) =~= up.push(p[up.len() as int]));
                }
            }
            lemma_insert_word(m, up, code, d - 1, sym);
            assert(insert_code(n, x, code, d, sym) == insert_code(m, idx as int, code, d - 1, sym));
            let r = insert_code(m, idx as int, code, d - 1, sym)->0;
            assert forall|p: Seq<bool>| (#[trigger] reach(n, p)) is Some implies reach(r, p)
                == reach(n, p) by {
                if p == up {
                    assert(reach(n, up) is None);
                }
                assert(reach(m, p) == reach(n, p));
            }
            assert forall|p: Seq<bool>|
                match #[trigger] reach(r, p) {
                    Some(y) => if reach(n, p) is Some {
                        p != w ==> (n[y].1 == LEAF_MARK ==> r[y] == n[y]) && (n[y].1 != LEAF_MARK
                            ==> r[y].1 != LEAF_MARK)
                    } else {
                        is_prefix(p, w) && p.len() > u.len() && ((r[y].1 == LEAF_MARK) == (p
                            == w))
                    },
                    None => true,
                } by {
                if let Some(y) = reach(r, p) {
                    if reach(n, p) is Some {
                        if p == up {
                            assert(reach(n, up) is None);
                        }
                        assert(reach(m, p) == reach(n, p));
                        lemma_reach_in(n, p);
                        if y != x {
                            assert(m[y] == n[y]);
                        }
                    } else if reach(m, p) is Some {
                        assert(p == up);
                        assert(is_prefix(up, w)) by {
                            assert(w.take(up.len() as int) =~= up);
                        }
                    }
                }
            }
            assert(inserted(n, r, u, w, sym));
        } else {
            let c = child(n[x], bit) as int;
            assert(c == NIL || 0 < c < n.len());
            assert(reach(n, up) == Some(c));
            assert(walk_clear(n, u, v));
            assert(match reach(n, u + v.take(1)) {
                Some(y) => 1 < v.len() && n[y].1 != LEAF_MARK,
                None => true,
            });
            assert forall|k: int| 1 <= k <= v1.len() implies match #[trigger] reach(
                n,
                up + v1.take(k),
            ) {
                Some(y) => k < v1.len() && n[y].1 != LEAF_MARK,
                None => true,
            } by {
                assert(up + v1.take(k) =~= u + v.take(k + 1));
                assert(match reach(n, u + v.take(k + 1)) {
                    Some(y) => k + 1 < v.len() && n[y].1 != LEAF_MARK,
                    None => true,
                });
            }
            lemma_insert_word(n, up, code, d - 1, sym);
            assert(insert_code(n, x, code, d, sym) == insert_code(n, c, code, d - 1, sym));
        }
    }
}

/// `n` is a trie holding the code words of the symbols below `k`: every
/// path it has leads into one of them, it has a leaf exactly at the end of
/// each, and that leaf is for the symbol of the word.
pub open spec fn trie_of_words(n: Seq<(u16, u16)>, t: Seq<(u64, u8)>, k: int) -> bool {
    &&& trie_shape(n)
    &&& n.len() <= 1 + 57 * k
    &&& forall|p: Seq<bool>|
        (#[trigger] reach(n, p)) is Some && p.len() > 0 ==> exists|s: int|
            0 <= s < k && t[s].1 > 0 && #[trigger] is_prefix(p, word(t[s]))
    &&& forall|p: Seq<bool>|
        match #[trigger] reach(n, p) {
            Some(y) => n[y].1 == LEAF_MARK ==> (0 <= n[y].0 < k && t[n[y].0 as int].1 > 0 && p
                == word(t[n[y].0 as int])),
            None => true,
        }
    &&& forall|s: int|
        0 <= s < k && t[s].1 > 0 ==> ((#[trigger] reach(n, word(t[s]))) matches Some(y) && n[y]
            == (s as u16, LEAF_MARK))
}

proof fn lemma_reach_root_only(p: Seq<bool>)
    ensures
        reach(seq![(NIL, NIL)], p) == if p.len() == 0 {
            Some(0int)
        } else {
            None
        },
    decreases p.len(),
{
    if p.len() > 0 {
        lemma_reach_root_only(p.drop_last());
    }
}

proof fn lemma_build_start(t: Seq<(u64, u8)>)
    ensures
        trie_of_words(seq![(NIL, NIL)], t, 0),
{
    let n = seq![(NIL, NIL)];
    assert forall|p: Seq<bool>| true implies reach(n, p) == if p.len() == 0 {
        Some(0int)
    } else {
        None
    } by {
        lemma_reach_root_only(p);
    }
}

/// Entering the word of symbol `k` keeps the trie a trie of the words.
#[verifier::spinoff_prover]
#[verifier::rlimit(60)]
proof fn lemma_build_step(n: Seq<(u16, u16)>, t: Seq<(u64, u8)>, k: int)
    requires
        prefix_code(t),
        forall|s: int| 0 <= s < 256 ==> #[trigger] t[s].1 <= 57,
        0 <= k < 256,
        trie_of_words(n, t, k),
        t[k].1 > 0,
    ensures
        insert_code(n, 0, t[k].0, t[k].1 as int, k as u8) matches Some(r) && trie_of_words(
            r,
            t,
            k + 1,
        ),
{
    let w = word(t[k]);
    let L = t[k].1 as int;
    let e: Seq<bool> = Seq::empty();
    assert(reach(n, e) == Some(0int));
    if n[0].1 == LEAF_MARK {
        assert(match reach(n, e) {
            Some(y) => n[y].1 == LEAF_MARK ==> (0 <= n[y].0 < k && t[n[y].0 as int].1 > 0 && e
                == word(t[n[y].0 as int])),
            None => true,
        });
    }
    assert forall|m: int| 1 <= m <= w.len() implies match #[trigger] reach(n, e + w.take(m)) {
        Some(y) => m < w.len() && n[y].1 != LEAF_MARK,
        None => true,
    } by {
        let p = e + w.take(m);
        assert(p =~= w.take(m));
        if let Some(y) = reach(n, p) {
            let s = choose|s: int| 0 <= s < k && t[s].1 > 0 && #[trigger] is_prefix(p, word(t[s]));
            if m == w.len() {
                assert(p =~= w);
                assert(!is_prefix(word(t[k]), word(t[s])));
            }
            if n[y].1 == LEAF_MARK {
                let s2 = n[y].0 as int;
                assert(p == word(t[s2]));
                assert(w.take(p.len() as int) =~= p);
                assert(!is_prefix(word(t[s2]), word(t[k])));
            }
        }
    }
    assert(walk_clear(n, e, w));
    assert(low_bits(t[k].0, L as nat) == w);
    lemma_insert_word(n, e, t[k].0, L, k as u8);
    let r = insert_code(n, 0, t[k].0, L, k as u8)->0;
    assert(e + w =~= w);
    assert(inserted(n, r, e, w, k as u8));
    assert(reach(n, w) is None) by {
        assert(w.take(w.len() as int) =~= w);
        assert(match reach(n, e + w.take(w.len() as int)) {
            Some(y) => w.len() < w.len() && n[y].1 != LEAF_MARK,
            None => true,
        });
    }
    assert forall|p: Seq<bool>| (#[trigger] reach(r, p)) is Some && p.len() > 0 implies exists|s: int|
        0 <= s < k + 1 && t[s].1 > 0 && #[trigger] is_prefix(p, word(t[s])) by {
        if reach(n, p) is Some {
            let s = choose|s: int| 0 <= s < k && t[s].1 > 0 && #[trigger] is_prefix(p, word(t[s]));
            assert(is_prefix(p, word(t[s])));
        } else {
            assert(match reach(r, p) {
                Some(y) => if reach(n, p) is Some {
                    p != w ==> (n[y].1 == LEAF_MARK ==> r[y] == n[y]) && (n[y].1 != LEAF_MARK
                        ==> r[y].1 != LEAF_MARK)
                } else {
                    is_prefix(p, w) && p.len() > e.len() && ((r[y].1 == LEAF_MARK) == (p == w))
                },
                None => true,
            });
            assert(is_prefix(p, word(t[k])));
        }
    }
    let wy = reach(r, w)->0;
    assert forall|p: Seq<bool>|
        match #[trigger] reach(r, p) {
            Some(y) => r[y].1 == LEAF_MARK ==> (0 <= r[y].0 < k + 1 && t[r[y].0 as int].1 > 0 && p
                == word(t[r[y].0 as int])),
            None => true,
        } by {
        if let Some(y) = reach(r, p) {
            if reach(n, p) is Some {
                assert(reach(r, p) == reach(n, p));
                assert(p != w);
                assert(match reach(n, p) {
                    Some(y) => n[y].1 == LEAF_MARK ==> (0 <= n[y].0 < k && t[n[y].0 as int].1 > 0
                        && p == word(t[n[y].0 as int])),
                    None => true,
                });
            } else if r[y].1 == LEAF_MARK {
                assert(p == w);
                assert(y == wy);
                assert((k as u16) as int == k);
            }
        }
    }
    assert forall|s: int| 0 <= s < k + 1 && t[s].1 > 0 implies ((#[trigger] reach(
        r,
        word(t[s]),
    )) matches Some(y) && r[y] == (s as u16, LEAF_MARK)) by {
        if s < k {
            let ws = word(t[s]);
            assert(reach(n, ws) matches Some(y) && n[y] == (s as u16, LEAF_MARK));
            assert(reach(r, ws) == reach(n, ws));
            if ws == w {
                assert(ws.take(w.len() as int) =~= ws);
                assert(!is_prefix(word(t[s]), word(t[k])));
            }
        }
    }
}

/// The trie that `DecodeTree::build` makes of a prefix code holds its words.
proof fn lemma_build_trie(t: Seq<(u64, u8)>, k: int)
    requires
        prefix_code(t),
        forall|s: int| 0 <= s < 256 ==> #[trigger] t[s].1 <= 57,
        0 <= k <= 256,
    ensures
        build_spec(t, k) matches Some(n) && trie_of_words(n, t, k),
    decreases k,
{
    if k == 0 {
        lemma_build_start(t);
    } else {
        lemma_build_trie(t, k - 1);
        let n = build_spec(t, k - 1)->0;
        if t[k - 1].1 == 0 {
            assert forall|p: Seq<bool>| (#[trigger] reach(n, p)) is Some && p.len() > 0 implies exists|s: int|
                0 <= s < k && t[s].1 > 0 && #[trigger] is_prefix(p, word(t[s])) by {
                let s = choose|s: int| 0 <= s < k - 1 && t[s].1 > 0 && #[trigger] is_prefix(p, word(t[s]));
                assert(is_prefix(p, word(t[s])));
            }
        } else {
            lemma_build_step(n, t, k - 1);
        }
    }
}

// ─── Decoding the code words ────────────────────────────────────────────────

#[verifier::spinoff_prover]
#[verifier::rlimit(60)]
proof fn lemma_decode_word(
    nodes: Seq<(u16, u16)>,
    t: Seq<(u64, u8)>,
    s: int,
    bits: Seq<bool>,
    i: int,
    j: int,
    out: Seq<u8>,
    n: nat,
)
    requires
        trie_of_words(nodes, t, 256),
        0 <= s < 256,
        t[s].1 > 0,
        0 <= i,
        i + word(t[s]).len() <= bits.len(),
        bits.subrange(i, i + word(t[s]).len()) == word(t[s]),
        0 <= j < word(t[s]).len(),
    ensures
        decode_walk(nodes, bits, i + j, reach(nodes, word(t[s]).take(j))->0, out, n) == if out.len()
            + 1 == n {
            Some(out.push(s as u8))
        } else {
            decode_walk(nodes, bits, i + word(t[s]).len(), 0, out.push(s as u8), n)
        },
    decreases word(t[s]).len() - j,
{
    let w = word(t[s]);
    assert(reach(nodes, w) matches Some(y) && nodes[y] == (s as u16, LEAF_MARK));
    lemma_reach_prefix(nodes, w, j);
    let x = reach(nodes, w.take(j))->0;
    let y = reach(nodes, w.take(j + 1))->0;
    lemma_reach_in(nodes, w.take(j));
    lemma_reach_in(nodes, w.take(j + 1));
    assert(bits[i + j] == w[j]);
    if j + 1 == w.len() {
        assert(w.take(j + 1) =~= w);
        assert((s as u16) as u8 == s as u8);
    } else {
        lemma_reach_prefix(nodes, w, j + 1);
        lemma_decode_word(nodes, t, s, bits, i, j + 1, out, n);
    }
}

pub(crate) proof fn lemma_words_of_prefix(data: Seq<u8>, t: Seq<(u64, u8)>, j: int)
    requires
        0 <= j <= data.len(),
    ensures
        words_of(data.take(j), t).len() <= words_of(data, t).len(),
        words_of(data, t).take(words_of(data.take(j), t).len() as int) == words_of(data.take(j), t),
    decreases data.len(),
{
    if j == data.len() {
        assert(data.take(j) =~= data);
        assert(words_of(data, t).take(words_of(data, t).len() as int) =~= words_of(data, t));
    } else {
        let d = data.drop_last();
        lemma_words_of_prefix(d, t, j);
        assert(d.take(j) =~= data.take(j));
        assert(words_of(data, t).take(words_of(data.take(j), t).len() as int) =~= words_of(d, t).take(
            words_of(data.take(j), t).len() as int,
        ));
    }
}

/// Decoding the words of `data` from the word of `data[m]` on gives `data`.
#[verifier::spinoff_prover]
#[verifier::rlimit(60)]
proof fn lemma_decode_words(
    nodes: Seq<(u16, u16)>,
    t: Seq<(u64, u8)>,
    data: Seq<u8>,
    bits: Seq<bool>,
    m: int,
)
    requires
        trie_of_words(nodes, t, 256),
        forall|i: int| 0 <= i < data.len() ==> t[#[trigger] data[i] as int].1 > 0,
        words_of(data, t).len() <= bits.len(),
        bits.take(words_of(data, t).len() as int) == words_of(data, t),
        0 <= m < data.len(),
    ensures
        decode_walk(
            nodes,
            bits,
            words_of(data.take(m), t).len() as int,
            0,
            data.take(m),
            data.len(),
        ) == Some(data),
    decreases data.len() - m,
{
    let s = data[m] as int;
    let w = word(t[s]);
    let i = words_of(data.take(m), t).len() as int;
    assert(data.take(m + 1).drop_last() =~= data.take(m));
    assert(words_of(data.take(m + 1), t) == words_of(data.take(m), t) + w);
    lemma_words_of_prefix(data, t, m + 1);
    let all = words_of(data, t);
    assert(bits.subrange(i, i + w.len()) =~= all.take(i + w.len()).subrange(i, i + w.len()));
    assert(bits.subrange(i, i + w.len()) =~= w);
    assert(w.take(0) =~= Seq::<bool>::empty());
    lemma_decode_word(nodes, t, s, bits, i, 0, data.take(m), data.len());
    assert(data.take(m).push(s as u8) =~= data.take(m + 1));
    if m + 1 == data.len() {
        assert(data.take(m + 1) =~= data);
    } else {
        lemma_decode_words(nodes, t, data, bits, m + 1);
    }
}

/// Data shorter than `F(60)` bytes gets no code word longer than 57 bits.
pub proof fn lemma_short_data_fits(data: Seq<u8>)
    requires
        data.len() < 1548008755920,
    ensures
        forall|s: int| 0 <= s < 256 ==> #[trigger] huffman_table(freqs_of(data))[s].1 <= 57,
{
    lemma_fib_table();
    lemma_freq_total_of(data);
    lemma_code_length_bound(freqs_of(data), 57);
}

/// Decompressing what `compress` made of `data` gives `data` back whenever
/// no code word of its Huffman code is longer than 57 bits (so that the
/// encoder's 64-bit buffer never overflows).
#[verifier::spinoff_prover]
#[verifier::rlimit(40)]
pub proof fn lemma_huffman_roundtrip(data: Seq<u8>)
    requires
        data.len() <= u64::MAX,
        forall|s: int| 0 <= s < 256 ==> #[trigger] huffman_table(freqs_of(data))[s].1 <= 57,
    ensures
        decompress_spec(compress_spec(data), data.len()) == Some(
            Ok::<Seq<u8>, HuffmanError>(data),
        ),
{
    let freqs = freqs_of(data);
    lemma_huffman_prefix_code(freqs);
    let t = huffman_table(freqs);
    assert forall|i: int| 0 <= i < data.len() implies t[#[trigger] data[i] as int].1 > 0 by {
        lemma_count_pos(data, i);
    }
    let cb = serialize_spec(t);
    lemma_serialize_len(t);
    let enc = encode_spec(data, t);
    let stream = compress_spec(data);
    assert(stream == u16_le(cb.len()) + cb + enc);
    let cb_len = stream[0] as nat + stream[1] as nat * 0x100;
    assert(cb_len == cb.len());
    assert(stream.subrange(2, 2 + cb_len as int) =~= cb);
    lemma_serialize_roundtrip(t);
    assert(stream.subrange(2 + cb_len as int, stream.len() as int) =~= enc);
    assert(deserialize_spec(stream.subrange(2, 2 + cb_len as int)) == Ok::<
        (Seq<(u64, u8)>, nat),
        HuffmanError,
    >((t, cb.len())));
    lemma_prefix_code_decodes(t, data);
    assert(stream.len() >= 2 + cb_len);
}

/// A prefix code with words of at most 57 bits builds a trie, and that
/// trie decodes the packed code words of any bytes that all have a word.
#[verifier::spinoff_prover]
#[verifier::rlimit(40)]
pub proof fn lemma_prefix_code_decodes(t: Seq<(u64, u8)>, data: Seq<u8>)
    requires
        prefix_code(t),
        forall|s: int| 0 <= s < 256 ==> #[trigger] t[s].1 <= 57,
        forall|i: int| 0 <= i < data.len() ==> t[#[trigger] data[i] as int].1 > 0,
    ensures
        trie_of(t) matches Some(nodes) && decode_spec(nodes, encode_spec(data, t), data.len())
            == Some(data),
{
    lemma_build_trie(t, 256);
    let nodes = build_spec(t, 256)->0;
    let enc = encode_spec(data, t);
    assert(codes_fit(data, t));
    assert(bytes_bits(Seq::<u8>::empty()) + low_bits(0, 0) =~= words_of(data.take(0), t));
    lemma_encode_from_bits(data, t, 0, 0, 0, Seq::empty());
    let pad = choose|pad: nat|
        pad < 8 && bytes_bits(enc) == words_of(data, t) + #[trigger] zeros(pad);
    let bits = bytes_bits(enc);
    assert(bits.take(words_of(data, t).len() as int) =~= words_of(data, t));
    assert(trie_of(t) == Some(nodes));
    if data.len() == 0 {
        assert(enc == Seq::<u8>::empty());
        assert(Seq::new(0, |i: int| nodes[0].0 as u8) =~= data);
        assert(bits =~= Seq::<bool>::empty());
        assert(decode_walk(nodes, bits, 0, 0, Seq::empty(), 0) == Some(Seq::<u8>::empty()));
        assert(decode_spec(nodes, enc, data.len()) == Some(data));
    } else {
        let s = data[0] as int;
        let w = word(t[s]);
        assert(reach(nodes, w) matches Some(y) && nodes[y] == (s as u16, LEAF_MARK));
        lemma_reach_prefix(nodes, w, 0);
        assert(w.take(0) =~= Seq::<bool>::empty());
        lemma_reach_in(nodes, w.take(1));
        let e: Seq<bool> = Seq::empty();
        assert(match reach(nodes, e) {
            Some(y) => nodes[y].1 == LEAF_MARK ==> (0 <= nodes[y].0 < 256 && t[nodes[y].0 as int].1
                > 0 && e == word(t[nodes[y].0 as int])),
            None => true,
        });
        assert(data.take(0) =~= Seq::<u8>::empty());
        lemma_decode_words(nodes, t, data, bits, 0);
        assert(words_of(Seq::<u8>::empty(), t).len() == 0);
        assert(nodes[0] != (NIL, NIL));
        assert(nodes[0].1 != LEAF_MARK);
        assert(decode_spec(nodes, enc, data.len()) == Some(data));
    }
}

pub(crate) proof fn lemma_count_pos(data: Seq<u8>, i: int)
    requires
        0 <= i < data.len(),
        data.len() <= u64::MAX,
    ensures
        freqs_of(data)[data[i] as int] > 0,
    decreases data.len(),
{
    lemma_count_le_len(data, data[i]);
    if i < data.len() - 1 {
        lemma_count_pos(data.drop_last(), i);
        lemma_count_le_len(data.drop_last(), data[i]);
        assert(data.drop_last()[i] == data[i]);
    }
    assert(((data[i] as int) as u8) == data[i]);
}


// ─── Optimality ─────────────────────────────────────────────────────────────


/// `Σ weight(f[k]) * lens[k]`: the cost of giving the trees of `f` the
/// depths `lens`.
pub open spec fn weighted_len(f: Seq<Box<Tree>>, lens: Seq<nat>) -> nat
    decreases f.len(),
{
    if f.len() == 0 || lens.len() == 0 {
        0
    } else {
        weighted_len(f.drop_last(), lens.drop_last()) + f.last().weight() * lens.last()
    }
}

/// `Σ 2^(bound - lens[k])`: the Kraft sum of the lengths `lens`, scaled by `2^bound`.
pub open spec fn kraft_of(lens: Seq<nat>, bound: nat) -> nat
    decreases lens.len(),
{
    if lens.len() == 0 {
        0
    } else {
        kraft_of(lens.drop_last(), bound) + pow2((bound - lens.last()) as nat)
    }
}

/// The sum of the lengths.
spec fn lens_total(lens: Seq<nat>) -> nat
    decreases lens.len(),
{
    if lens.len() == 0 {
        0
    } else {
        lens_total(lens.drop_last()) + lens.last()
    }
}

/// The total weight of the trees that the greedy construction merges: each
/// merge of the two lightest trees costs their weights.
pub open spec fn merge_cost(f: Seq<Box<Tree>>) -> nat
    decreases f.len(),
{
    if f.len() <= 1 {
        0
    } else {
        proof {
            lemma_merge_step_len(f);
        }
        let i = min_index(f);
        let f1 = f.remove(i);
        let j = min_index(f1);
        f[i].weight() + f1[j].weight() + merge_cost(merge_step(f))
    }
}

proof fn lemma_wl_remove(f: Seq<Box<Tree>>, lens: Seq<nat>, i: int)
    requires
        f.len() == lens.len(),
        0 <= i < f.len(),
    ensures
        weighted_len(f, lens) == weighted_len(f.remove(i), lens.remove(i)) + f[i].weight() * lens[i],
    decreases f.len(),
{
    if i < f.len() - 1 {
        lemma_wl_remove(f.drop_last(), lens.drop_last(), i);
        assert(f.remove(i).drop_last() =~= f.drop_last().remove(i));
        assert(lens.remove(i).drop_last() =~= lens.drop_last().remove(i));
        assert(f.remove(i).last() == f.last());
        assert(lens.remove(i).last() == lens.last());
    } else {
        assert(f.remove(i) =~= f.drop_last());
        assert(lens.remove(i) =~= lens.drop_last());
    }
}

proof fn lemma_kraft_remove(lens: Seq<nat>, bound: nat, i: int)
    requires
        0 <= i < lens.len(),
    ensures
        kraft_of(lens, bound) == kraft_of(lens.remove(i), bound) + pow2((bound - lens[i]) as nat),
        lens_total(lens) == lens_total(lens.remove(i)) + lens[i],
    decreases lens.len(),
{
    if i < lens.len() - 1 {
        lemma_kraft_remove(lens.drop_last(), bound, i);
        assert(lens.remove(i).drop_last() =~= lens.drop_last().remove(i));
        assert(lens.remove(i).last() == lens.last());
    } else {
        assert(lens.remove(i) =~= lens.drop_last());
    }
}

proof fn lemma_wl_update(f: Seq<Box<Tree>>, lens: Seq<nat>, k: int, v: nat)
    requires
        f.len() == lens.len(),
        0 <= k < f.len(),
    ensures
        weighted_len(f, lens.update(k, v)) + f[k].weight() * lens[k] == weighted_len(f, lens)
            + f[k].weight() * v,
{
    lemma_wl_remove(f, lens, k);
    lemma_wl_remove(f, lens.update(k, v), k);
    assert(lens.update(k, v).remove(k) =~= lens.remove(k));
}

proof fn lemma_lens_update(lens: Seq<nat>, bound: nat, k: int, v: nat)
    requires
        0 <= k < lens.len(),
    ensures
        kraft_of(lens.update(k, v), bound) + pow2((bound - lens[k]) as nat) == kraft_of(lens, bound)
            + pow2((bound - v) as nat),
        lens_total(lens.update(k, v)) + lens[k] == lens_total(lens) + v,
{
    lemma_kraft_remove(lens, bound, k);
    lemma_kraft_remove(lens.update(k, v), bound, k);
    assert(lens.update(k, v).remove(k) =~= lens.remove(k));
}

/// Lengths all below `m` have a Kraft sum that `2^(bound - m + 1)` divides.
proof fn lemma_kraft_multiple(lens: Seq<nat>, bound: nat, m: nat) -> (q: nat)
    requires
        1 <= m <= bound,
        forall|k: int| 0 <= k < lens.len() ==> #[trigger] lens[k] < m,
    ensures
        kraft_of(lens, bound) == q * pow2((bound - m + 1) as nat),
    decreases lens.len(),
{
    if lens.len() == 0 {
        0
    } else {
        let d = lens.drop_last();
        assert forall|k: int| 0 <= k < d.len() implies #[trigger] d[k] < m by {
            assert(d[k] == lens[k]);
        }
        let q0 = lemma_kraft_multiple(d, bound, m);
        let l = lens.last();
        let e = (m - 1 - l) as nat;
        vstd::arithmetic::power2::lemma_pow2_adds((bound - m + 1) as nat, e);
        assert((bound - m + 1) as nat + e == (bound - l) as nat);
        let r = pow2(e);
        assert(q0 * pow2((bound - m + 1) as nat) + pow2((bound - m + 1) as nat) * r == (q0 + r) * pow2(
            (bound - m + 1) as nat,
        )) by (nonlinear_arith);
        q0 + r
    }
}

/// A length that is the only longest one can be shortened by one bit
/// without breaking the Kraft inequality.
proof fn lemma_kraft_shorten(lens: Seq<nat>, bound: nat, p: int)
    requires
        0 <= p < lens.len(),
        1 <= lens[p] <= bound,
        forall|k: int| 0 <= k < lens.len() && k != p ==> #[trigger] lens[k] < lens[p],
        kraft_of(lens, bound) <= pow2(bound),
    ensures
        kraft_of(lens.update(p, (lens[p] - 1) as nat), bound) <= pow2(bound),
{
    let m = lens[p];
    let rest = lens.remove(p);
    assert forall|k: int| 0 <= k < rest.len() implies #[trigger] rest[k] < m by {
        if k < p {
            assert(rest[k] == lens[k]);
        } else {
            assert(rest[k] == lens[k + 1]);
        }
    }
    let q = lemma_kraft_multiple(rest, bound, m);
    lemma_kraft_remove(lens, bound, p);
    lemma_lens_update(lens, bound, p, (m - 1) as nat);
    let u = pow2((bound - m) as nat);
    let big = pow2((m - 1) as nat);
    vstd::arithmetic::power2::lemma_pow2_unfold((bound - m + 1) as nat);
    vstd::arithmetic::power2::lemma_pow2_adds((bound - m + 1) as nat, (m - 1) as nat);
    vstd::arithmetic::power2::lemma_pow2_pos((bound - m) as nat);
    assert(((bound - m + 1) as nat - 1) as nat == (bound - m) as nat);
    assert((bound - m + 1) as nat + (m - 1) as nat == bound);
    assert(((bound - (m - 1) as nat) as nat) == (bound - m + 1) as nat);
    let p1 = pow2((bound - m + 1) as nat);
    assert(p1 == 2 * u);
    assert(pow2(bound) == p1 * big);
    assert(kraft_of(lens, bound) == q * p1 + u);
    assert(kraft_of(lens.update(p, (m - 1) as nat), bound) == q * p1 + p1);
    // q * p1 + u <= p1 * big, so q + 1 <= big.
    if q >= big {
        assert(q * p1 >= big * p1) by (nonlinear_arith)
            requires
                q >= big,
        ;
        assert(false);
    }
    assert((q + 1) * p1 <= big * p1) by (nonlinear_arith)
        requires
            q + 1 <= big,
    ;
    assert(q * p1 + p1 == (q + 1) * p1) by (nonlinear_arith);
    assert(p1 * big == big * p1) by (nonlinear_arith);
}

/// The greedy construction is optimal: merging the two lightest trees
/// first costs no more than any depths that meet the Kraft inequality.
#[verifier::spinoff_prover]
#[verifier::rlimit(100)]
proof fn lemma_greedy_optimal(f: Seq<Box<Tree>>, lens: Seq<nat>, bound: nat)
    requires
        f.len() == lens.len(),
        f.len() >= 1,
        forall|k: int| 0 <= k < lens.len() ==> #[trigger] lens[k] <= bound,
        kraft_of(lens, bound) <= pow2(bound),
        weight_sum(f) <= u64::MAX,
    ensures
        merge_cost(f) <= weighted_len(f, lens),
    decreases f.len(), lens_total(lens), 1nat,
{
    if f.len() >= 2 {
        let p = max_index(lens);
        lemma_max_index(lens);
        let m = lens[p];
        if forall|k: int| 0 <= k < lens.len() && k != p ==> #[trigger] lens[k] < m {
            assert(m >= 1) by {
                let o = if p == 0 { 1int } else { 0int };
                assert(lens[o] < m);
            }
            lemma_kraft_shorten(lens, bound, p);
            let l2 = lens.update(p, (m - 1) as nat);
            lemma_lens_update(lens, bound, p, (m - 1) as nat);
            lemma_wl_update(f, lens, p, (m - 1) as nat);
            assert(f[p].weight() * (m - 1) as nat <= f[p].weight() * m) by (nonlinear_arith)
                requires
                    m >= 1,
            ;
            lemma_greedy_optimal(f, l2, bound);
        } else {
            let q = choose|k: int| 0 <= k < lens.len() && k != p && !(#[trigger] lens[k] < m);
            assert(lens[q] == m);
            lemma_greedy_merge(f, lens, bound, p, q);
        }
    }
}



/// The first longest length.
spec fn max_index(lens: Seq<nat>) -> int
    decreases lens.len(),
{
    if lens.len() <= 1 {
        0
    } else {
        let m = max_index(lens.drop_last());
        if lens.last() > lens[m] {
            lens.len() - 1
        } else {
            m
        }
    }
}

proof fn lemma_max_index(lens: Seq<nat>)
    requires
        lens.len() >= 1,
    ensures
        0 <= max_index(lens) < lens.len(),
        forall|k: int| 0 <= k < lens.len() ==> #[trigger] lens[k] <= lens[max_index(lens)],
    decreases lens.len(),
{
    if lens.len() > 1 {
        let d = lens.drop_last();
        lemma_max_index(d);
        assert forall|k: int| 0 <= k < lens.len() implies #[trigger] lens[k] <= lens[max_index(lens)] by {
            if k < lens.len() - 1 {
                assert(lens[k] == d[k]);
            }
            assert(lens[max_index(d)] == d[max_index(d)]);
        }
    }
}

/// `lens` with the lengths at `a` and `b` exchanged.
spec fn swapped(lens: Seq<nat>, a: int, b: int) -> Seq<nat> {
    lens.update(a, lens[b]).update(b, lens[a])
}

/// Giving the longer length to the lighter tree costs no more.
proof fn lemma_swap(f: Seq<Box<Tree>>, lens: Seq<nat>, bound: nat, a: int, b: int)
    requires
        f.len() == lens.len(),
        0 <= a < f.len(),
        0 <= b < f.len(),
        f[a].weight() <= f[b].weight(),
        lens[a] <= lens[b],
    ensures
        swapped(lens, a, b).len() == lens.len(),
        weighted_len(f, swapped(lens, a, b)) <= weighted_len(f, lens),
        kraft_of(swapped(lens, a, b), bound) == kraft_of(lens, bound),
        lens_total(swapped(lens, a, b)) == lens_total(lens),
        swapped(lens, a, b)[a] == lens[b],
        swapped(lens, a, b)[b] == lens[a],
        forall|k: int| 0 <= k < lens.len() && k != a && k != b ==> #[trigger] swapped(lens, a, b)[k] == lens[k],
{
    let sw = swapped(lens, a, b);
    if a == b {
        assert(sw =~= lens);
    } else {
        let l1 = lens.update(a, lens[b]);
        lemma_wl_update(f, lens, a, lens[b]);
        lemma_wl_update(f, l1, b, lens[a]);
        lemma_lens_update(lens, bound, a, lens[b]);
        lemma_lens_update(l1, bound, b, lens[a]);
        let wa = f[a].weight();
        let wb = f[b].weight();
        let la = lens[a];
        let lb = lens[b];
        assert(wa * lb + wb * la <= wa * la + wb * lb) by (nonlinear_arith)
            requires
                wa <= wb,
                la <= lb,
        ;
    }
}

/// When two longest lengths exist, the greedy first merge can take them
/// over: exchange them onto the two lightest trees, then merge those.
#[verifier::spinoff_prover]
#[verifier::rlimit(100)]
proof fn lemma_greedy_merge(f: Seq<Box<Tree>>, lens: Seq<nat>, bound: nat, p: int, q: int)
    requires
        f.len() == lens.len(),
        f.len() >= 2,
        forall|k: int| 0 <= k < lens.len() ==> #[trigger] lens[k] <= bound,
        kraft_of(lens, bound) <= pow2(bound),
        weight_sum(f) <= u64::MAX,
        0 <= p < lens.len(),
        0 <= q < lens.len(),
        p != q,
        lens[p] == lens[q],
        forall|k: int| 0 <= k < lens.len() ==> #[trigger] lens[k] <= lens[p],
    ensures
        merge_cost(f) <= weighted_len(f, lens),
    decreases f.len(), lens_total(lens), 0nat,
{
    let m = lens[p];
    lemma_min_index(f);
    let i = min_index(f);
    let a = f[i];
    let f1 = f.remove(i);
    lemma_min_index(f1);
    let j = min_index(f1);
    let b = f1[j];
    let f2 = f1.remove(j);
    let ib = if j < i {
        j
    } else {
        j + 1
    };
    assert(f1[j] == f[ib]);
    assert forall|k: int| 0 <= k < f.len() && k != i implies b.weight() <= #[trigger] f[k].weight() by {
        let k1 = if k < i {
            k
        } else {
            k - 1
        };
        assert(f1[k1] == f[k]);
    }
    // Exchange the longest lengths onto the two lightest trees.
    lemma_swap(f, lens, bound, i, p);
    let lens1 = swapped(lens, i, p);
    let q1 = if q == i {
        p
    } else {
        q
    };
    assert(lens1[q1] == m);
    assert(q1 != i);
    assert forall|k: int| 0 <= k < lens1.len() implies #[trigger] lens1[k] <= m by {
        if k != i && k != p {
            assert(lens1[k] == lens[k]);
        }
    }
    lemma_swap(f, lens1, bound, ib, q1);
    let lens2 = swapped(lens1, ib, q1);
    assert(lens2[ib] == m);
    assert(lens2[i] == m);
    assert forall|k: int| 0 <= k < lens2.len() implies #[trigger] lens2[k] <= m by {
        if k != ib && k != q1 {
            assert(lens2[k] == lens1[k]);
        }
    }
    // Merge the two lightest trees, which now have the longest lengths.
    let r1 = lens2.remove(i);
    let rr = r1.remove(j);
    assert(r1[j] == lens2[ib]);
    lemma_wl_remove(f, lens2, i);
    lemma_wl_remove(f1, r1, j);
    lemma_kraft_remove(lens2, bound, i);
    lemma_kraft_remove(r1, bound, j);
    lemma_sums_remove(f, i);
    lemma_sums_remove(f1, j);
    vstd::arithmetic::power2::lemma_pow2_pos(bound);
    assert(m >= 1);
    let w = a.weight() + b.weight();
    let n = Box::new(Tree::Node { freq: w as u64, left: a, right: b });
    let g = f2.push(n);
    assert(g == merge_step(f));
    let lg = rr.push((m - 1) as nat);
    assert(g.drop_last() =~= f2);
    assert(lg.drop_last() =~= rr);
    assert(n.weight() == w);
    vstd::arithmetic::power2::lemma_pow2_unfold((bound - (m - 1) as nat) as nat);
    assert(((bound - (m - 1) as nat) as nat - 1) as nat == (bound - m) as nat);
    assert(kraft_of(lg, bound) == kraft_of(lens2, bound));
    assert forall|k: int| 0 <= k < lg.len() implies #[trigger] lg[k] <= bound by {
        if k < rr.len() {
            let k1 = if k < j {
                k
            } else {
                k + 1
            };
            assert(rr[k] == r1[k1]);
            let k2 = if k1 < i {
                k1
            } else {
                k1 + 1
            };
            assert(r1[k1] == lens2[k2]);
        }
    }
    assert(weighted_len(g, lg) == weighted_len(f2, rr) + w * (m - 1) as nat);
    assert(w * (m - 1) as nat + a.weight() + b.weight() == a.weight() * m + b.weight() * m)
        by (nonlinear_arith)
        requires
            w == a.weight() + b.weight(),
            m >= 1,
    ;
    assert(weight_sum(g) == weight_sum(f));
    lemma_greedy_optimal(g, lg, bound);
    assert(merge_cost(f) == a.weight() + b.weight() + merge_cost(g));
}



/// The weights of the inner nodes of `t`, added up.
spec fn inner_weight(t: Tree) -> nat
    decreases t,
{
    match t {
        Tree::Leaf { .. } => 0,
        Tree::Node { left, right, .. } => t.weight() + inner_weight(*left) + inner_weight(*right),
    }
}

/// The inner weights of all trees of `f`.
spec fn forest_inner(f: Seq<Box<Tree>>) -> nat
    decreases f.len(),
{
    if f.len() == 0 {
        0
    } else {
        forest_inner(f.drop_last()) + inner_weight(*f.last())
    }
}

proof fn lemma_inner_remove(f: Seq<Box<Tree>>, i: int)
    requires
        0 <= i < f.len(),
    ensures
        forest_inner(f) == forest_inner(f.remove(i)) + inner_weight(*f[i]),
    decreases f.len(),
{
    if i < f.len() - 1 {
        lemma_inner_remove(f.drop_last(), i);
        assert(f.remove(i).drop_last() =~= f.drop_last().remove(i));
        assert(f.remove(i).last() == f.last());
    } else {
        assert(f.remove(i) =~= f.drop_last());
    }
}

proof fn lemma_leaves_inner(freqs: Seq<u64>, k: int)
    ensures
        forest_inner(leaves(freqs, k)) == 0,
    decreases k,
{
    if k > 0 {
        lemma_leaves_inner(freqs, k - 1);
        if freqs[k - 1] > 0 {
            assert(leaves(freqs, k).drop_last() =~= leaves(freqs, k - 1));
        }
    }
}

/// The greedy merges cost exactly the inner weights they create.
proof fn lemma_merged_inner(f: Seq<Box<Tree>>)
    requires
        f.len() >= 1,
        weight_sum(f) <= u64::MAX,
    ensures
        merged(f).len() == 1,
        inner_weight(*merged(f)[0]) == merge_cost(f) + forest_inner(f),
    decreases f.len(),
{
    if f.len() == 1 {
        assert(merged(f) == f);
        assert(f.drop_last() =~= Seq::<Box<Tree>>::empty());
        assert(f.last() == f[0]);
        assert(forest_inner(f.drop_last()) == 0);
        assert(forest_inner(f) == inner_weight(*f[0]));
        assert(merge_cost(f) == 0);
    } else {
        lemma_merge_step_len(f);
        lemma_min_index(f);
        let i = min_index(f);
        let a = f[i];
        let f1 = f.remove(i);
        lemma_min_index(f1);
        let j = min_index(f1);
        let b = f1[j];
        let f2 = f1.remove(j);
        lemma_sums_remove(f, i);
        lemma_sums_remove(f1, j);
        lemma_inner_remove(f, i);
        lemma_inner_remove(f1, j);
        let w = a.weight() + b.weight();
        let n = Box::new(Tree::Node { freq: w as u64, left: a, right: b });
        let g = f2.push(n);
        assert(g == merge_step(f));
        assert(g.drop_last() =~= f2);
        assert(weight_sum(g) == weight_sum(f));
        assert(inner_weight(*n) == w + inner_weight(*a) + inner_weight(*b));
        assert(forest_inner(g) == forest_inner(f) + w);
        lemma_merged_inner(g);
        assert(merged(f) == merged(g));
        assert(merge_cost(f) == a.weight() + b.weight() + merge_cost(g));
    }
}

/// Every leaf of `t` carries the frequency of its symbol.
spec fn leaf_freqs_ok(t: Tree, freqs: Seq<u64>) -> bool
    decreases t,
{
    match t {
        Tree::Leaf { sym, freq } => freq == freqs[sym as int],
        Tree::Node { left, right, .. } => leaf_freqs_ok(*left, freqs) && leaf_freqs_ok(*right, freqs),
    }
}

spec fn forest_freqs_ok(f: Seq<Box<Tree>>, freqs: Seq<u64>) -> bool {
    forall|k: int| 0 <= k < f.len() ==> leaf_freqs_ok(*#[trigger] f[k], freqs)
}

proof fn lemma_merged_freqs_ok(f: Seq<Box<Tree>>, freqs: Seq<u64>)
    requires
        f.len() >= 1,
        forest_freqs_ok(f, freqs),
    ensures
        merged(f).len() == 1,
        leaf_freqs_ok(*merged(f)[0], freqs),
    decreases f.len(),
{
    if f.len() == 1 {
        assert(merged(f) == f);
    } else {
        lemma_merge_step_len(f);
        lemma_min_index(f);
        let i = min_index(f);
        let a = f[i];
        let f1 = f.remove(i);
        lemma_min_index(f1);
        let j = min_index(f1);
        let b = f1[j];
        let f2 = f1.remove(j);
        lemma_remove_two(f, i, j);
        let ib = if j < i {
            j
        } else {
            j + 1
        };
        assert(f1[j] == f[ib]);
        let n = Box::new(Tree::Node { freq: (a.weight() + b.weight()) as u64, left: a, right: b });
        let g = f2.push(n);
        assert(g == merge_step(f));
        assert forall|k: int| 0 <= k < g.len() implies leaf_freqs_ok(*#[trigger] g[k], freqs) by {
            if k < g.len() - 1 {
                assert(g[k] == f[orig_index(i, j, k)]);
            }
        }
        lemma_merged_freqs_ok(g, freqs);
        assert(merged(f) == merged(g));
    }
}

proof fn lemma_leaves_freqs_ok(freqs: Seq<u64>, k: int)
    requires
        k <= 256,
    ensures
        forest_freqs_ok(leaves(freqs, k), freqs),
    decreases k,
{
    if k > 0 {
        lemma_leaves_freqs_ok(freqs, k - 1);
        let l = leaves(freqs, k - 1);
        let m = leaves(freqs, k);
        assert forall|i: int| 0 <= i < m.len() implies leaf_freqs_ok(*#[trigger] m[i], freqs) by {
            if i < l.len() {
                assert(m[i] == l[i]);
            } else {
                assert(m[i] == Box::new(Tree::Leaf { sym: (k - 1) as u8, freq: freqs[k - 1] }));
                assert(((k - 1) as u8) as int == k - 1);
            }
        }
    }
}

/// `Σ_{s<k} freqs[s] * lens[s]`: the cost of coding with the lengths `lens`.
pub open spec fn freq_cost(freqs: Seq<u64>, lens: Seq<nat>, k: int) -> nat
    decreases k,
{
    if k <= 0 {
        0
    } else {
        freq_cost(freqs, lens, k - 1) + (freqs[k - 1] as nat) * lens[k - 1]
    }
}

/// The code word lengths of a table.
pub open spec fn code_lens(t: Seq<(u64, u8)>) -> Seq<nat> {
    Seq::new(t.len(), |s: int| t[s].1 as nat)
}

/// `Σ 2^(bound - lens[s])` over the byte values below `k` that occur.
pub open spec fn kraft_used(freqs: Seq<u64>, lens: Seq<nat>, bound: nat, k: int) -> nat
    decreases k,
{
    if k <= 0 {
        0
    } else {
        kraft_used(freqs, lens, bound, k - 1) + if freqs[k - 1] > 0 {
            pow2((bound - lens[k - 1]) as nat)
        } else {
            0
        }
    }
}

proof fn lemma_freq_cost_update(freqs: Seq<u64>, lens: Seq<nat>, k: int, s: int, v: nat)
    requires
        0 <= s < lens.len(),
        k <= lens.len(),
    ensures
        freq_cost(freqs, lens.update(s, v), k) + (if s < k { freqs[s] * lens[s] } else { 0 })
            == freq_cost(freqs, lens, k) + (if s < k { freqs[s] * v } else { 0 }),
    decreases k,
{
    if k > 0 {
        lemma_freq_cost_update(freqs, lens, k - 1, s, v);
        if k - 1 != s {
            assert(lens.update(s, v)[k - 1] == lens[k - 1]);
        }
    }
}

proof fn lemma_freq_cost_empty(freqs: Seq<u64>, k: int)
    requires
        k <= 256,
    ensures
        freq_cost(freqs, code_lens(empty_table()), k) == 0,
    decreases k,
{
    if k > 0 {
        lemma_freq_cost_empty(freqs, k - 1);
    }
}

/// Entering the code words of `t` at `depth` adds the cost of its leaves:
/// `depth` times its weight plus its inner weights.
proof fn lemma_assign_cost(t: Tree, code: u64, depth: u8, table: Seq<(u64, u8)>, freqs: Seq<u64>)
    requires
        table.len() == 256,
        depth + tree_depth(t) <= 255,
        distinct_tree(t),
        heavy(t),
        leaf_freqs_ok(t, freqs),
        forall|s: u8| #[trigger] in_tree(t, s) ==> table[s as int].1 == 0,
    ensures
        freq_cost(freqs, code_lens(assign_spec(t, code, depth, table)), 256) == freq_cost(
            freqs,
            code_lens(table),
            256,
        ) + depth * t.weight() + inner_weight(t),
    decreases t,
{
    match t {
        Tree::Leaf { sym, freq } => {
            assert(in_tree(t, sym));
            let r = table.update(sym as int, (code, depth));
            assert(code_lens(r) =~= code_lens(table).update(sym as int, depth as nat));
            lemma_freq_cost_update(freqs, code_lens(table), 256, sym as int, depth as nat);
            assert(freqs[sym as int] * depth == depth * t.weight()) by (nonlinear_arith)
                requires
                    freqs[sym as int] == t.weight(),
            ;
        },
        Tree::Node { left, right, .. } => {
            let d1 = (depth + 1) as u8;
            let tl = assign_spec(*left, code << 1, d1, table);
            lemma_assign_support(*left, code << 1, d1, table);
            assert forall|s: u8| #[trigger] in_tree(*left, s) implies table[s as int].1 == 0 by {
                assert(in_tree(t, s));
            }
            lemma_assign_cost(*left, code << 1, d1, table, freqs);
            assert forall|s: u8| #[trigger] in_tree(*right, s) implies tl[s as int].1 == 0 by {
                assert(in_tree(t, s));
                assert(!in_tree(*left, s));
            }
            lemma_assign_cost(*right, (code << 1) | 1, d1, tl, freqs);
            assert(assign_spec(t, code, depth, table) == assign_spec(*right, (code << 1) | 1, d1, tl));
            let wl = left.weight();
            let wr = right.weight();
            assert(t.weight() == wl + wr);
            assert(d1 * wl + d1 * wr == depth * (wl + wr) + wl + wr) by (nonlinear_arith)
                requires
                    d1 == depth + 1,
            ;
        },
    }
}

/// The lengths of the byte values that occur, in increasing byte order: the
/// depths given to the leaves of the Huffman construction.
spec fn used_lens(freqs: Seq<u64>, lens: Seq<nat>, k: int) -> Seq<nat>
    decreases k,
{
    if k <= 0 {
        Seq::empty()
    } else {
        let l = used_lens(freqs, lens, k - 1);
        if freqs[k - 1] > 0 {
            l.push(lens[k - 1])
        } else {
            l
        }
    }
}

proof fn lemma_used_lens(freqs: Seq<u64>, lens: Seq<nat>, bound: nat, k: int)
    requires
        0 <= k <= 256,
        freqs.len() == 256,
        lens.len() == 256,
        forall|s: int| 0 <= s < 256 && freqs[s] > 0 ==> #[trigger] lens[s] <= bound,
    ensures
        used_lens(freqs, lens, k).len() == leaves(freqs, k).len(),
        weighted_len(leaves(freqs, k), used_lens(freqs, lens, k)) == freq_cost(freqs, lens, k),
        kraft_of(used_lens(freqs, lens, k), bound) == kraft_used(freqs, lens, bound, k),
        forall|i: int|
            0 <= i < used_lens(freqs, lens, k).len() ==> #[trigger] used_lens(freqs, lens, k)[i]
                <= bound,
    decreases k,
{
    if k > 0 {
        lemma_used_lens(freqs, lens, bound, k - 1);
        let u = used_lens(freqs, lens, k - 1);
        let l = leaves(freqs, k - 1);
        if freqs[k - 1] > 0 {
            let u2 = used_lens(freqs, lens, k);
            let l2 = leaves(freqs, k);
            assert(u2.drop_last() =~= u);
            assert(l2.drop_last() =~= l);
            assert forall|i: int| 0 <= i < u2.len() implies #[trigger] u2[i] <= bound by {
                if i < u.len() {
                    assert(u2[i] == u[i]);
                }
            }
        } else {
            assert(freqs[k - 1] * lens[k - 1] == 0);
        }
    }
}

proof fn lemma_cost_pointwise(freqs: Seq<u64>, a: Seq<nat>, b: Seq<nat>, k: int)
    requires
        k <= 256,
        forall|s: int| 0 <= s < 256 ==> freqs[s] == 0 || #[trigger] a[s] <= b[s],
    ensures
        freq_cost(freqs, a, k) <= freq_cost(freqs, b, k),
    decreases k,
{
    if k > 0 {
        lemma_cost_pointwise(freqs, a, b, k - 1);
        let s = k - 1;
        if freqs[s] != 0 {
            assert(a[s] <= b[s]);
            assert(freqs[s] * a[s] <= freqs[s] * b[s]) by (nonlinear_arith)
                requires
                    a[s] <= b[s],
            ;
        }
    }
}

/// Huffman codes are optimal: no lengths that give every byte value that
/// occurs a word of 1 to `bound` bits and meet the Kraft inequality
/// (`Σ 2^-length <= 1` over those values) code the data in fewer bits than
/// the Huffman code of its frequencies.
#[verifier::spinoff_prover]
#[verifier::rlimit(60)]
pub proof fn lemma_huffman_optimal(freqs: Seq<u64>, lens: Seq<nat>, bound: nat)
    requires
        freqs.len() == 256,
        lens.len() == 256,
        freq_total(freqs, 256) <= u64::MAX,
        forall|s: int| 0 <= s < 256 && freqs[s] > 0 ==> 1 <= #[trigger] lens[s] <= bound,
        kraft_used(freqs, lens, bound, 256) <= pow2(bound),
    ensures
        freq_cost(freqs, code_lens(huffman_table(freqs)), 256) <= freq_cost(freqs, lens, 256),
{
    let l = leaves(freqs, 256);
    let t = huffman_table(freqs);
    lemma_table_len(freqs);
    lemma_leaves_are_leaves(freqs, 256);
    lemma_huffman_table_support(freqs);
    if l.len() <= 1 {
        // At most one byte value occurs, and it has the one-bit word.
        if l.len() == 1 {
            let sym = match *l[0] {
                Tree::Leaf { sym, .. } => sym,
                _ => 0,
            };
            assert(t == empty_table().update(sym as int, (0u64, 1u8)));
            assert forall|s: int| 0 <= s < 256 implies #[trigger] t[s].1 <= 1 by {
                if s != sym as int {
                    assert(t[s] == empty_table()[s]);
                }
            }
        } else {
            assert(t == empty_table());
            assert forall|s: int| 0 <= s < 256 implies #[trigger] t[s].1 <= 1 by {
                assert(t[s] == empty_table()[s]);
            }
        }
        assert forall|s: int| 0 <= s < 256 implies freqs[s] == 0 || #[trigger] code_lens(t)[s]
            <= lens[s] by {
            assert(t[s].1 <= 1);
        }
        lemma_cost_pointwise(freqs, code_lens(t), lens, 256);
    } else {
        lemma_leaves_heavy(freqs, 256);
        lemma_merged_heavy(l);
        lemma_leaves_distinct(freqs);
        lemma_merged_distinct(l);
        lemma_leaves_freqs_ok(freqs, 256);
        lemma_merged_freqs_ok(l, freqs);
        lemma_merged_inner(l);
        lemma_leaves_inner(freqs, 256);
        lemma_merged_leaves_sum(l);
        lemma_leaves_sum_bound(freqs, 256);
        let root = *merged(l)[0];
        lemma_depth_below_leaf_count(root);
        assert(t == assign_spec(root, 0, 0, empty_table()));
        lemma_assign_cost(root, 0, 0, empty_table(), freqs);
        lemma_freq_cost_empty(freqs, 256);
        lemma_used_lens(freqs, lens, bound, 256);
        lemma_greedy_optimal(l, used_lens(freqs, lens, 256), bound);
    }
}


} // verus!

