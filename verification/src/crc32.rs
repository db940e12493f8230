//! CRC-32 (IEEE 802.3): reflected polynomial `0xEDB88320`, initial value and
//! final XOR `0xFFFFFFFF`.
use vstd::prelude::*;

verus! {

/// The reflected generator polynomial.
pub const POLY: u32 = 0xEDB8_8320;

/// One shift of the register: out goes the low bit, and the polynomial is
/// subtracted when it was set.
pub open spec fn crc_shift(c: u32) -> u32 {
    if c & 1 == 1 {
        (c >> 1u32) ^ POLY
    } else {
        c >> 1u32
    }
}

/// `k` shifts of the register.
pub open spec fn crc_shifts(c: u32, k: nat) -> u32
    decreases k,
{
    if k == 0 {
        c
    } else {
        crc_shifts(crc_shift(c), (k - 1) as nat)
    }
}

/// The register after the byte `b` enters it.
pub open spec fn crc_byte(c: u32, b: u8) -> u32 {
    crc_shifts(c ^ (b as u32), 8)
}

/// The register after the bytes of `data` enter it, starting from `init`.
pub open spec fn crc_register(init: u32, data: Seq<u8>) -> u32
    decreases data.len(),
{
    if data.len() == 0 {
        init
    } else {
        crc_byte(crc_register(init, data.drop_last()), data.last())
    }
}

/// The CRC-32 of `data`.
pub open spec fn crc32_spec(data: Seq<u8>) -> u32 {
    crc_register(0xFFFF_FFFF, data) ^ 0xFFFF_FFFF
}

/// The CRC-32 of `data`.
pub fn crc32(data: &[u8]) -> (r: u32)
    ensures
        r == crc32_spec(data@),
{
    let mut c: u32 = 0xFFFF_FFFF;
    let mut i: usize = 0;
    while i < data.len()
        invariant
            i <= data.len(),
            c == crc_register(0xFFFF_FFFF, data@.take(i as int)),
        decreases data.len() - i,
    {
        let ghost before = c;
        c = c ^ (data[i] as u32);
        let mut k: u32 = 0;
        while k < 8
            invariant
                k <= 8,
                crc_shifts(c, (8 - k) as nat) == crc_byte(before, data@[i as int]),
            decreases 8 - k,
        {
            if c & 1 == 1 {
                c = (c >> 1) ^ POLY;
            } else {
                c = c >> 1;
            }
            k += 1;
        }
        proof {
            assert(data@.take(i + 1).drop_last() =~= data@.take(i as int));
        }
        i += 1;
    }
    assert(data@.take(data@.len() as int) =~= data@);
    c ^ 0xFFFF_FFFF
}


// ─── Laws ───────────────────────────────────────────────────────────────────

/// Eight shifts of the register, written out.
spec fn shift8(x: u32) -> u32 {
    crc_shift(crc_shift(crc_shift(crc_shift(crc_shift(crc_shift(crc_shift(crc_shift(x))))))))
}

proof fn lemma_crc_byte_shift8(c: u32, b: u8)
    ensures
        crc_byte(c, b) == shift8(c ^ (b as u32)),
{
    reveal_with_fuel(crc_shifts, 9);
}

/// Each byte of the data enters the register in turn: the register after
/// `s` followed by `b` is the register after `s` with `b` entered.
pub proof fn lemma_crc_push(init: u32, s: Seq<u8>, b: u8)
    ensures
        crc_register(init, s.push(b)) == crc_byte(crc_register(init, s), b),
{
    assert(s.push(b).drop_last() =~= s);
}

/// Entering a byte is linear over GF(2): the register and byte of an XOR
/// give the XOR of the results.
pub proof fn lemma_crc_byte_linear(c1: u32, b1: u8, c2: u32, b2: u8)
    ensures
        crc_byte(c1 ^ c2, b1 ^ b2) == crc_byte(c1, b1) ^ crc_byte(c2, b2),
{
    lemma_crc_byte_shift8(c1 ^ c2, b1 ^ b2);
    lemma_crc_byte_shift8(c1, b1);
    lemma_crc_byte_shift8(c2, b2);
    let x = c1 ^ (b1 as u32);
    let y = c2 ^ (b2 as u32);
    assert((c1 ^ c2) ^ ((b1 ^ b2) as u32) == x ^ y) by (bit_vector)
        requires
            x == c1 ^ (b1 as u32),
            y == c2 ^ (b2 as u32),
    ;
    lemma_shift8_linear(x, y);
}

proof fn lemma_shift_linear(x: u32, y: u32)
    ensures
        crc_shift(x ^ y) == crc_shift(x) ^ crc_shift(y),
{
    assert(crc_shift(x ^ y) == crc_shift(x) ^ crc_shift(y)) by (bit_vector);
}

proof fn lemma_shifts_linear(x: u32, y: u32, k: nat)
    ensures
        crc_shifts(x ^ y, k) == crc_shifts(x, k) ^ crc_shifts(y, k),
    decreases k,
{
    if k > 0 {
        lemma_shift_linear(x, y);
        lemma_shifts_linear(crc_shift(x), crc_shift(y), (k - 1) as nat);
    }
}

proof fn lemma_shift8_linear(x: u32, y: u32)
    ensures
        shift8(x ^ y) == shift8(x) ^ shift8(y),
{
    lemma_shifts_linear(x, y, 8);
    reveal_with_fuel(crc_shifts, 9);
}

/// No byte is lost: two registers with bytes entered agree exactly when
/// register XOR byte agree, so every byte value, zero included, moves the
/// register to a different place.
pub proof fn lemma_crc_byte_injective(c1: u32, b1: u8, c2: u32, b2: u8)
    ensures
        crc_byte(c1, b1) == crc_byte(c2, b2) <==> c1 ^ (b1 as u32) == c2 ^ (b2 as u32),
        b1 != b2 ==> crc_byte(c1, b1) != crc_byte(c1, b2),
        c1 != c2 ==> crc_byte(c1, b1) != crc_byte(c2, b1),
{
    lemma_crc_byte_shift8(c1, b1);
    lemma_crc_byte_shift8(c2, b2);
    lemma_crc_byte_shift8(c1, b2);
    lemma_crc_byte_shift8(c2, b1);
    let x = c1 ^ (b1 as u32);
    let y = c2 ^ (b2 as u32);
    assert(shift8(x) == shift8(y) <==> x == y) by (bit_vector);
    assert(b1 != b2 ==> c1 ^ (b1 as u32) != c1 ^ (b2 as u32)) by (bit_vector);
    assert(c1 != c2 ==> c1 ^ (b1 as u32) != c2 ^ (b1 as u32)) by (bit_vector);
    let z = c1 ^ (b2 as u32);
    let w = c2 ^ (b1 as u32);
    assert(shift8(x) == shift8(z) <==> x == z) by (bit_vector);
    assert(shift8(x) == shift8(w) <==> x == w) by (bit_vector);
}

/// A zero byte moves every nonzero register: appending `0x00` to data whose
/// register is not zero changes the register.
pub proof fn lemma_crc_zero_byte(c: u32)
    ensures
        c != 0 ==> crc_byte(c, 0) != c,
{
    lemma_crc_byte_shift8(c, 0);
    assert(c ^ (0u8 as u32) == c) by (bit_vector);
    assert(c != 0 ==> shift8(c) != c) by (bit_vector);
}

/// CRC-32 detects every change of a single byte, wherever it stands.
pub proof fn lemma_crc32_detects_byte_change(a: Seq<u8>, x: u8, y: u8, z: Seq<u8>)
    requires
        x != y,
    ensures
        crc32_spec(a.push(x) + z) != crc32_spec(a.push(y) + z),
{
    let r1 = crc_register(0xFFFF_FFFF, a.push(x) + z);
    let r2 = crc_register(0xFFFF_FFFF, a.push(y) + z);
    lemma_crc_registers_differ(a, x, y, z);
    assert(r1 != r2 ==> r1 ^ 0xFFFF_FFFFu32 != r2 ^ 0xFFFF_FFFFu32) by (bit_vector);
}

proof fn lemma_crc_registers_differ(a: Seq<u8>, x: u8, y: u8, z: Seq<u8>)
    requires
        x != y,
    ensures
        crc_register(0xFFFF_FFFF, a.push(x) + z) != crc_register(0xFFFF_FFFF, a.push(y) + z),
    decreases z.len(),
{
    if z.len() == 0 {
        assert(a.push(x) + z =~= a.push(x));
        assert(a.push(y) + z =~= a.push(y));
        lemma_crc_push(0xFFFF_FFFF, a, x);
        lemma_crc_push(0xFFFF_FFFF, a, y);
        lemma_crc_byte_injective(crc_register(0xFFFF_FFFF, a), x, crc_register(0xFFFF_FFFF, a), y);
    } else {
        let z0 = z.drop_last();
        lemma_crc_registers_differ(a, x, y, z0);
        assert((a.push(x) + z0).push(z.last()) =~= a.push(x) + z);
        assert((a.push(y) + z0).push(z.last()) =~= a.push(y) + z);
        lemma_crc_push(0xFFFF_FFFF, a.push(x) + z0, z.last());
        lemma_crc_push(0xFFFF_FFFF, a.push(y) + z0, z.last());
        lemma_crc_byte_injective(
            crc_register(0xFFFF_FFFF, a.push(x) + z0),
            z.last(),
            crc_register(0xFFFF_FFFF, a.push(y) + z0),
            z.last(),
        );
    }
}

/// The standard check values: the CRC-32 of one zero byte is `0xD202EF8D`,
/// and that of the ASCII digits `123456789` is `0xCBF43926`.
pub proof fn lemma_crc32_check_values()
    ensures
        crc32_spec(seq![0u8]) == 0xD202_EF8Du32,
        crc32_spec(seq![0x31u8, 0x32, 0x33, 0x34, 0x35, 0x36, 0x37, 0x38, 0x39]) == 0xCBF4_3926u32,
{
    let z = seq![0u8];
    assert(z =~= Seq::<u8>::empty().push(0u8));
    lemma_crc_push(0xFFFF_FFFF, Seq::<u8>::empty(), 0);
    lemma_crc_byte_shift8(0xFFFF_FFFF, 0);
    assert(shift8(0xFFFF_FFFFu32 ^ (0u8 as u32)) ^ 0xFFFF_FFFFu32 == 0xD202_EF8Du32) by (bit_vector);
    let d = seq![0x31u8, 0x32, 0x33, 0x34, 0x35, 0x36, 0x37, 0x38, 0x39];
    lemma_crc_digits(d);
}

proof fn lemma_crc_digits(d: Seq<u8>)
    requires
        d == seq![0x31u8, 0x32, 0x33, 0x34, 0x35, 0x36, 0x37, 0x38, 0x39],
    ensures
        crc32_spec(d) == 0xCBF4_3926u32,
{
    let i = 0xFFFF_FFFFu32;
    let r1 = crc_register(i, d.take(1));
    let r2 = crc_register(i, d.take(2));
    let r3 = crc_register(i, d.take(3));
    let r4 = crc_register(i, d.take(4));
    let r5 = crc_register(i, d.take(5));
    let r6 = crc_register(i, d.take(6));
    let r7 = crc_register(i, d.take(7));
    let r8 = crc_register(i, d.take(8));
    let r9 = crc_register(i, d.take(9));
    assert forall|k: int| 0 <= k < 9 implies #[trigger] crc_register(i, d.take(k + 1)) == shift8(
        crc_register(i, d.take(k)) ^ (d[k] as u32),
    ) by {
        assert(d.take(k + 1) =~= d.take(k).push(d[k]));
        lemma_crc_push(i, d.take(k), d[k]);
        lemma_crc_byte_shift8(crc_register(i, d.take(k)), d[k]);
    }
    assert(d.take(0) =~= Seq::<u8>::empty());
    assert(d.take(9) =~= d);
    assert(crc_register(i, d.take(0int + 1)) == shift8(crc_register(i, d.take(0)) ^ (d[0] as u32)));
    assert(crc_register(i, d.take(1int + 1)) == shift8(crc_register(i, d.take(1)) ^ (d[1] as u32)));
    assert(crc_register(i, d.take(2int + 1)) == shift8(crc_register(i, d.take(2)) ^ (d[2] as u32)));
    assert(crc_register(i, d.take(3int + 1)) == shift8(crc_register(i, d.take(3)) ^ (d[3] as u32)));
    assert(crc_register(i, d.take(4int + 1)) == shift8(crc_register(i, d.take(4)) ^ (d[4] as u32)));
    assert(crc_register(i, d.take(5int + 1)) == shift8(crc_register(i, d.take(5)) ^ (d[5] as u32)));
    assert(crc_register(i, d.take(6int + 1)) == shift8(crc_register(i, d.take(6)) ^ (d[6] as u32)));
    assert(crc_register(i, d.take(7int + 1)) == shift8(crc_register(i, d.take(7)) ^ (d[7] as u32)));
    assert(crc_register(i, d.take(8int + 1)) == shift8(crc_register(i, d.take(8)) ^ (d[8] as u32)));
    assert(r9 ^ 0xFFFF_FFFFu32 == 0xCBF4_3926u32) by (bit_vector)
        requires
            r1 == shift8(0xFFFF_FFFFu32 ^ 0x31u32),
            r2 == shift8(r1 ^ 0x32u32),
            r3 == shift8(r2 ^ 0x33u32),
            r4 == shift8(r3 ^ 0x34u32),
            r5 == shift8(r4 ^ 0x35u32),
            r6 == shift8(r5 ^ 0x36u32),
            r7 == shift8(r6 ^ 0x37u32),
            r8 == shift8(r7 ^ 0x38u32),
            r9 == shift8(r8 ^ 0x39u32),
    ;
}

} // verus!
