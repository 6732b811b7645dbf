//! The frame's integrity check: standard CRC-32.

use vstd::prelude::*;

verus! {

/// The generator polynomial of CRC-32, bit-reflected.
pub const CRC32_POLYNOMIAL: u32 = 0xEDB8_8320;

/// One step of the CRC shift register.
pub open spec fn crc_shift(register: u32) -> u32 {
    if register & 1 != 0 {
        (register >> 1) ^ CRC32_POLYNOMIAL
    } else {
        register >> 1
    }
}

/// `n` steps of the shift register.
pub open spec fn crc_shifts(register: u32, n: nat) -> u32
    decreases n,
{
    if n == 0 {
        register
    } else {
        crc_shift(crc_shifts(register, (n - 1) as nat))
    }
}

/// The register after one more byte of data.
pub open spec fn crc_absorb(register: u32, byte: u8) -> u32 {
    crc_shifts(register ^ (byte as u32), 8)
}

/// The register after all of `data`, starting from all ones.
pub open spec fn crc_register(data: Seq<u8>) -> u32
    decreases data.len(),
{
    if data.len() == 0 {
        0xFFFF_FFFF
    } else {
        crc_absorb(crc_register(data.drop_last()), data.last())
    }
}

/// The CRC-32 of `data`: the final register, inverted.
pub open spec fn crc_of(data: Seq<u8>) -> u32 {
    crc_register(data) ^ 0xFFFF_FFFF
}

/// Entry `i` is the register that eight shifts make of `i`.
pub fn crc32_table() -> (table: [u32; 256])
    ensures
        forall|i: int| 0 <= i < 256 ==> #[trigger] table@[i] == crc_shifts(i as u32, 8),
{
    let mut table: [u32; 256] = [0u32;256];
    let mut i: usize = 0;
    while i < 256
        invariant
            i <= 256,
            forall|j: int| 0 <= j < i ==> #[trigger] table@[j] == crc_shifts(j as u32, 8),
        decreases 256 - i,
    {
        let mut crc: u32 = i as u32;
        let mut bit: u32 = 0;
        while bit < 8
            invariant
                bit <= 8,
                i < 256,
                crc == crc_shifts(i as u32, bit as nat),
            decreases 8 - bit,
        {
            crc = if crc & 1 != 0 {
                (crc >> 1) ^ CRC32_POLYNOMIAL
            } else {
                crc >> 1
            };
            bit += 1;
        }
        table[i] = crc;
        i += 1;
    }
    table
}

/// Eight shifts, written out.
spec fn crc_shift8(r: u32) -> u32 {
    crc_shift(crc_shift(crc_shift(crc_shift(crc_shift(crc_shift(crc_shift(crc_shift(r))))))))
}

proof fn lemma_shifts_eight(r: u32)
    ensures
        crc_shifts(r, 8) == crc_shift8(r),
{
    reveal_with_fuel(crc_shifts, 9);
}

/// Only the low byte of the register decides what eight shifts mix in.
proof fn lemma_table_step(r: u32)
    ensures
        crc_shifts(r, 8) == (r >> 8) ^ crc_shifts(r & 0xFF, 8),
{
    lemma_shifts_eight(r);
    lemma_shifts_eight(r & 0xFF);
    assert(crc_shift8(r) == (r >> 8) ^ crc_shift8(r & 0xFF)) by (bit_vector);
}

/// Standard CRC-32 (IEEE 802.3, reflected): the same value as zlib and PNG.
pub fn crc32(data: &[u8]) -> (crc: u32)
    ensures
        crc == crc_of(data@),
{
    let table: [u32; 256] = crc32_table();
    let mut crc: u32 = 0xFFFF_FFFFu32;
    let mut i: usize = 0;
    assert(data@.take(0) =~= Seq::<u8>::empty());
    while i < data.len()
        invariant
            i <= data.len(),
            forall|j: int| 0 <= j < 256 ==> #[trigger] table@[j] == crc_shifts(j as u32, 8),
            crc == crc_register(data@.take(i as int)),
        decreases data.len() - i,
    {
        let b: u8 = data[i];
        let index: u32 = (crc ^ b as u32) & 0xFF;
        assert(index < 256 && ((crc ^ b as u32) >> 8) == crc >> 8) by (bit_vector)
            requires
                index == (crc ^ b as u32) & 0xFF,
        ;
        proof {
            lemma_table_step(crc ^ b as u32);
            assert(data@.take(i + 1).drop_last() =~= data@.take(i as int));
        }
        crc = (crc >> 8) ^ table[index as usize];
        i += 1;
    }
    assert(data@.take(data@.len() as int) =~= data@);
    crc ^ 0xFFFF_FFFF
}

proof fn lemma_absorb_injective(r1: u32, b1: u8, r2: u32, b2: u8)
    requires
        crc_absorb(r1, b1) == crc_absorb(r2, b2),
    ensures
        r1 ^ (b1 as u32) == r2 ^ (b2 as u32),
{
    let x = r1 ^ (b1 as u32);
    let y = r2 ^ (b2 as u32);
    lemma_shifts_injective(x, y, 8);
}

proof fn lemma_shifts_injective(x: u32, y: u32, n: nat)
    requires
        crc_shifts(x, n) == crc_shifts(y, n),
    ensures
        x == y,
    decreases n,
{
    if n > 0 {
        let a = crc_shifts(x, (n - 1) as nat);
        let b = crc_shifts(y, (n - 1) as nat);
        assert(crc_shift(a) == crc_shift(b) ==> a == b) by (bit_vector);
        lemma_shifts_injective(x, y, (n - 1) as nat);
    }
}

/// What is mixed in after eight shifts can be mixed in before them, eight bits
/// further up.
proof fn lemma_shift_ahead(r: u32, later: u32)
    requires
        later < 0x100_0000,
    ensures
        crc_shifts(r, 8) ^ later == crc_shifts(r ^ (later << 8), 8),
{
    lemma_shifts_eight(r);
    lemma_shifts_eight(r ^ (later << 8));
    assert(crc_shift8(r) ^ later == crc_shift8(r ^ (later << 8))) by (bit_vector)
        requires
            later < 0x100_0000,
    ;
}

/// The register after four bytes, all mixed in ahead of the shifts.
proof fn lemma_absorb_four(r: u32, a: u8, b: u8, c: u8, d: u8)
    ensures
        crc_absorb(crc_absorb(crc_absorb(crc_absorb(r, a), b), c), d) == crc_shifts(
            crc_shifts(crc_shifts(crc_shifts(r ^ word(a, b, c, d), 8), 8), 8),
            8,
        ),
{
    let (x0, x1, x2) = (r ^ (a as u32), b as u32, c as u32);
    let x3 = d as u32;
    assert(x3 < 0x100_0000 && (x2 ^ (x3 << 8)) < 0x100_0000 && (x1 ^ ((x2 ^ (x3 << 8)) << 8))
        < 0x100_0000) by (bit_vector)
        requires
            x1 < 256,
            x2 < 256,
            x3 < 256,
    ;
    // d moves ahead of the shifts of c, then of b, then of a.
    let s1 = crc_shifts(x0, 8);
    let s2 = crc_shifts(s1 ^ x1, 8);
    lemma_shift_ahead(s2 ^ x2, x3);
    lemma_shift_ahead(s1 ^ x1, x2 ^ (x3 << 8));
    lemma_shift_ahead(x0, x1 ^ ((x2 ^ (x3 << 8)) << 8));
    assert((s2 ^ x2) ^ (x3 << 8) == s2 ^ (x2 ^ (x3 << 8))) by (bit_vector);
    assert((s1 ^ x1) ^ ((x2 ^ (x3 << 8)) << 8) == s1 ^ (x1 ^ ((x2 ^ (x3 << 8)) << 8))) by (bit_vector);
    assert((r ^ (a as u32)) ^ ((x1 ^ ((x2 ^ (x3 << 8)) << 8)) << 8) == r ^ ((a as u32) ^ ((x1 ^ ((x2
        ^ (x3 << 8)) << 8)) << 8))) by (bit_vector);
}

/// Four bytes as one word, the first one lowest.
spec fn word(a: u8, b: u8, c: u8, d: u8) -> u32 {
    (a as u32) ^ (((b as u32) ^ (((c as u32) ^ ((d as u32) << 8)) << 8)) << 8)
}

proof fn lemma_register_of_append(x: Seq<u8>, b: u8)
    ensures
        crc_register(x.push(b)) == crc_absorb(crc_register(x), b),
{
    assert(x.push(b).drop_last() =~= x);
}

/// The same bytes appended to data with different registers leave them different.
proof fn lemma_register_stays_apart(x: Seq<u8>, y: Seq<u8>, tail: Seq<u8>)
    requires
        crc_register(x) != crc_register(y),
    ensures
        crc_register(x + tail) != crc_register(y + tail),
    decreases tail.len(),
{
    if tail.len() == 0 {
        assert(x + tail =~= x);
        assert(y + tail =~= y);
    } else {
        let init = tail.drop_last();
        let b = tail.last();
        lemma_register_stays_apart(x, y, init);
        assert(x + tail =~= (x + init).push(b));
        assert(y + tail =~= (y + init).push(b));
        lemma_register_of_append(x + init, b);
        lemma_register_of_append(y + init, b);
        let (rx, ry) = (crc_register(x + init), crc_register(y + init));
        if crc_absorb(rx, b) == crc_absorb(ry, b) {
            lemma_absorb_injective(rx, b, ry, b);
            assert(rx ^ (b as u32) == ry ^ (b as u32) ==> rx == ry) by (bit_vector);
        }
    }
}

/// Two strings of bytes that differ only within four bytes in a row never share
/// a CRC: every burst of damage of up to 32 bits in whole bytes is noticed.
pub proof fn law_crc_detects_bursts(head: Seq<u8>, x: Seq<u8>, y: Seq<u8>, tail: Seq<u8>)
    requires
        x.len() == 4,
        y.len() == 4,
        x != y,
    ensures
        crc_of(head + x + tail) != crc_of(head + y + tail),
{
    let r = crc_register(head);
    lemma_register_of_four(head, x);
    lemma_register_of_four(head, y);
    let (wx, wy) = (word(x[0], x[1], x[2], x[3]), word(y[0], y[1], y[2], y[3]));
    if crc_register(head + x) == crc_register(head + y) {
        let (ax, ay) = (crc_shifts(r ^ wx, 8), crc_shifts(r ^ wy, 8));
        let (bx, by) = (crc_shifts(ax, 8), crc_shifts(ay, 8));
        lemma_shifts_injective(crc_shifts(bx, 8), crc_shifts(by, 8), 8);
        lemma_shifts_injective(bx, by, 8);
        lemma_shifts_injective(ax, ay, 8);
        lemma_shifts_injective(r ^ wx, r ^ wy, 8);
        assert(r ^ wx == r ^ wy ==> wx == wy) by (bit_vector);
        let (a, b, c, d) = (x[0], x[1], x[2], x[3]);
        let (e, f, g, h) = (y[0], y[1], y[2], y[3]);
        assert(word(a, b, c, d) == word(e, f, g, h) ==> a == e && b == f && c == g && d == h)
            by (bit_vector);
        assert(x =~= y);
    }
    lemma_register_stays_apart(head + x, head + y, tail);
    let (cx, cy) = (crc_register(head + x + tail), crc_register(head + y + tail));
    assert(cx ^ 0xFFFF_FFFFu32 == cy ^ 0xFFFF_FFFFu32 ==> cx == cy) by (bit_vector);
}

proof fn lemma_register_of_four(head: Seq<u8>, x: Seq<u8>)
    requires
        x.len() == 4,
    ensures
        crc_register(head + x) == crc_shifts(
            crc_shifts(
                crc_shifts(crc_shifts(crc_register(head) ^ word(x[0], x[1], x[2], x[3]), 8), 8),
                8,
            ),
            8,
        ),
{
    let r = crc_register(head);
    assert(head + x =~= head.push(x[0]).push(x[1]).push(x[2]).push(x[3]));
    lemma_register_of_append(head, x[0]);
    lemma_register_of_append(head.push(x[0]), x[1]);
    lemma_register_of_append(head.push(x[0]).push(x[1]), x[2]);
    lemma_register_of_append(head.push(x[0]).push(x[1]).push(x[2]), x[3]);
    lemma_absorb_four(r, x[0], x[1], x[2], x[3]);
}

/// The standard check value, byte by byte: the CRC of nothing is zero, and one
/// more byte takes the inverted CRC through eight steps of division by the
/// polynomial of IEEE 802.3. In every step twice the next register, with the
/// reflected polynomial added where the register was odd, is the register.
pub proof fn law_crc_divides_by_the_polynomial(data: Seq<u8>, byte: u8)
    ensures
        crc_of(Seq::empty()) == 0,
        exists|r: Seq<u64>| #[trigger]
            eight_steps(
                r,
                crc_of(data) ^ 0xFFFF_FFFF ^ (byte as u32),
                crc_of(data.push(byte)) ^ 0xFFFF_FFFF,
            ),
{
    assert(0xFFFF_FFFFu32 ^ 0xFFFF_FFFFu32 == 0) by (bit_vector);
    let x = crc_register(data);
    lemma_register_of_append(data, byte);
    let y = crc_register(data.push(byte));
    assert((x ^ 0xFFFF_FFFFu32) ^ 0xFFFF_FFFFu32 == x) by (bit_vector);
    assert((y ^ 0xFFFF_FFFFu32) ^ 0xFFFF_FFFFu32 == y) by (bit_vector);
    let z = x ^ (byte as u32);
    let r = Seq::new(9, |i: int| crc_shifts(z, i as nat) as u64);
    assert forall|i: int| 0 <= i < 8 implies #[trigger] divides(r[i], r[i + 1]) by {
        let a = crc_shifts(z, i as nat);
        let b = crc_shifts(z, (i + 1) as nat);
        assert(b == crc_shift(a));
        assert(divides(a as u64, crc_shift(a) as u64)) by (bit_vector);
    }
    assert(r[8] == y as u64);
    assert(z == crc_of(data) ^ 0xFFFF_FFFF ^ (byte as u32));
    assert(y == crc_of(data.push(byte)) ^ 0xFFFF_FFFF);
    assert(eight_steps(r, z, y));
}

/// One step of division by the polynomial.
pub open spec fn divides(register: u64, next: u64) -> bool {
    next < 0x1_0000_0000 && ((next << 1) ^ (if register % 2 == 1 {
        0x1_DB71_0641u64
    } else {
        0u64
    })) == register
}

/// Eight steps lead from `first` to `last`.
pub open spec fn eight_steps(r: Seq<u64>, first: u32, last: u32) -> bool {
    &&& r.len() == 9
    &&& r[0] == first
    &&& r[8] == last
    &&& forall|i: int| 0 <= i < 8 ==> #[trigger] divides(r[i], r[i + 1])
}

/// The table holds what eight steps of division make of every byte.
pub proof fn law_table_entry_is_eight_steps(i: u32)
    requires
        i < 256,
    ensures
        exists|r: Seq<u64>| #[trigger] eight_steps(r, i, crc_shifts(i, 8)),
{
    let r = Seq::new(9, |j: int| crc_shifts(i, j as nat) as u64);
    assert forall|j: int| 0 <= j < 8 implies #[trigger] divides(r[j], r[j + 1]) by {
        let a = crc_shifts(i, j as nat);
        assert(crc_shifts(i, (j + 1) as nat) == crc_shift(a));
        assert(divides(a as u64, crc_shift(a) as u64)) by (bit_vector);
    }
    assert(eight_steps(r, i, crc_shifts(i, 8)));
}

} // verus!
