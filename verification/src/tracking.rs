//! Following the stream's two wrapping counters: the 8-bit block number and the
//! 4-bit continuity counter.

use vstd::prelude::*;

verus! {

/// How far block number `sbn` lies from `cursor`, modulo 256 and as a signed
/// byte: from 128 blocks back to 127 ahead.
pub open spec fn sbn_offset(cursor: int, sbn: u8) -> int {
    let ahead = (sbn - cursor) % 256;
    if ahead < 128 {
        ahead
    } else {
        ahead - 256
    }
}

/// `cursor` read as a signed number of 64 bits.
pub open spec fn signed(cursor: u64) -> int {
    if cursor <= i64::MAX {
        cursor as int
    } else {
        cursor - 0x1_0000_0000_0000_0000
    }
}

/// The block that `sbn` names, seen from `cursor`: the nearest one with these
/// low eight bits, and the first block where that would lie before it. Cursors
/// count as signed numbers.
pub open spec fn unwrapped(cursor: u64, sbn: u8) -> int {
    let block = signed(cursor) + sbn_offset(cursor as int, sbn);
    if block < 0 {
        0
    } else {
        block
    }
}

/// The full number of the block that the wire's block number names.
pub fn unwrap_sbn(cursor: u64, sbn: u8) -> (block: u64)
    requires
        i64::MIN <= signed(cursor) + sbn_offset(cursor as int, sbn) <= i64::MAX,
    ensures
        block == unwrapped(cursor, sbn),
{
    let cursor_low: u8 = (cursor & 0xFF) as u8;
    assert((cursor & 0xFF) as u8 == cursor % 256) by (bit_vector);
    let ahead: u8 = sbn.wrapping_sub(cursor_low);
    assert(ahead == (sbn - cursor) % 256);
    let diff: i64 = if ahead < 128 {
        ahead as i64
    } else {
        ahead as i64 - 256
    };
    let at: i64 = #[verifier::truncate] (cursor as i64);
    assert(cursor > 0x7fff_ffff_ffff_ffff ==> cursor as i64 == cursor - 0x1_0000_0000_0000_0000)
        by (bit_vector);
    let block: i64 = at + diff;
    if block > 0 {
        block as u64
    } else {
        0
    }
}

/// Block numbers survive the wire's eight bits: of any block from 128 before
/// the cursor to 127 after it, the low bits give the whole number back.
pub proof fn law_unwrap_inverts_wrapping(cursor: u64, block: int)
    requires
        cursor <= i64::MAX,
        0 <= block,
        cursor - 128 <= block <= cursor + 127,
    ensures
        unwrapped(cursor, (block % 256) as u8) == block,
{
    let sbn = (block % 256) as u8;
    assert((sbn - cursor) % 256 == (block - cursor) % 256);
}

/// Packets missing between one with counter `last` and the next with `cc`.
pub open spec fn missed(last: Option<u8>, cc: u8) -> int {
    match last {
        Some(prev) => (cc - prev - 1) % 16,
        None => 0,
    }
}

/// The TS continuity counter increments once per packet on the PID (mod 16),
/// across both data and noop frames. A gap therefore means packets vanished in
/// transit, genuine link loss. Returns the number missed since the previous
/// packet and updates `last_cc`. Bursts of 16 or more consecutive losses alias
/// the 4-bit field and are undercounted.
pub fn cc_gap(last_cc: &mut Option<u8>, cc: u8) -> (gap: u64)
    requires
        *old(last_cc) matches Some(prev) ==> prev < 255,
    ensures
        *final(last_cc) == Some(cc),
        gap == missed(*old(last_cc), cc),
{
    let gap: u64 = match *last_cc {
        Some(prev) => {
            let next: u8 = prev + 1;
            let expected: u8 = next & 0x0F;
            let behind: u8 = cc.wrapping_sub(expected);
            assert(next & 0x0F == next % 16) by (bit_vector);
            assert((behind as u64) & 0x0F == behind % 16) by (bit_vector);
            (behind as u64) & 0x0F
        },
        None => 0,
    };
    *last_cc = Some(cc);
    gap
}

/// Losses are counted exactly up to 15 in a row, and modulo 16 beyond that.
pub proof fn law_gap_counts_losses(cc: u8, lost: nat)
    requires
        cc < 16,
    ensures
        missed(Some(cc), ((cc + lost + 1) % 16) as u8) == lost % 16,
{
}

/// Of all block numbers with the low eight bits `sbn`, the one named is the one
/// from 128 before the cursor to 127 after it; where that lies before the first
/// block, it is the first block.
pub proof fn law_unwrap_finds_the_nearest(cursor: u64, sbn: u8)
    requires
        cursor <= i64::MAX,
    ensures
        ({
            let n = unwrapped(cursor, sbn);
            &&& n >= 0
            &&& n <= cursor + 127
            &&& n % 256 == sbn && n >= cursor - 128 || n == 0 && exists|below: int|
                cursor - 128 <= below < 0 && #[trigger] (below % 256) == sbn
        }),
{
    let below = cursor + sbn_offset(cursor as int, sbn);
    assert(below % 256 == sbn);
}

/// A cursor beyond the signed numbers counts as one before the first block.
pub proof fn law_unwrap_of_huge_cursors(cursor: u64, sbn: u8)
    requires
        cursor > i64::MAX,
    ensures
        cursor < u64::MAX - 127 ==> unwrapped(cursor, sbn) == 0,
        unwrapped(cursor, sbn) <= 126,
        unwrapped(cursor, sbn) > 0 ==> unwrapped(cursor, sbn) % 256 == sbn,
{
    assert((sbn - cursor) % 256 == (sbn - signed(cursor)) % 256);
}

/// The gap is how far the counter ran on past the one that was expected, modulo
/// 16; a first packet has no gap.
pub proof fn law_gap_completes_the_series(last: Option<u8>, cc: u8)
    ensures
        0 <= missed(last, cc) < 16,
        last matches Some(prev) ==> (prev + 1 + missed(last, cc)) % 16 == cc as int % 16,
        last is None ==> missed(last, cc) == 0,
{
}

} // verus!
