//! Spreading repair packets over a block's source packets.

use crate::fec::EncodingPacket;
use vstd::prelude::*;

verus! {

/// Repair packets that have gone out before source packet `i`, out of
/// `repairs`: one for every `interval` source packets.
pub open spec fn repairs_before(i: int, repairs: int, interval: int) -> int {
    if interval == 0 || repairs * interval <= i {
        repairs
    } else {
        i / interval
    }
}

/// Where source packet `i` stands in the interleaved stream.
pub open spec fn source_position(i: int, repairs: int, interval: int) -> int {
    i + repairs_before(i, repairs, interval)
}

/// Where repair packet `j` stands: behind `interval` more source packets than
/// the one before it, or behind all `sources` of them.
pub open spec fn repair_position(j: int, sources: int, interval: int) -> int {
    if (j + 1) * interval <= sources {
        j + (j + 1) * interval
    } else {
        j + sources
    }
}

/// `packet` is number `at` of the stream `out`.
pub open spec fn stands_at(out: Seq<EncodingPacket>, at: int, packet: EncodingPacket) -> bool {
    0 <= at < out.len() && out[at] == packet
}

/// The source counts at which repairs fall due stay within 32 bits.
pub open spec fn interleave_fits(sources: int, repairs: int, interval: int) -> bool {
    &&& sources <= u32::MAX
    &&& forall|j: int|
        0 <= j < repairs && #[trigger] ((j + 1) * interval) <= sources ==> (j + 2) * interval
            <= u32::MAX
}

/// Interleaves source and repair packets so that one repair packet follows every
/// `rep_interval` source packets. Any leftover repairs are appended at the end.
pub fn interleave(
    source: Vec<EncodingPacket>,
    repair: Vec<EncodingPacket>,
    rep_interval: u32,
) -> (out: Vec<EncodingPacket>)
    requires
        interleave_fits(source@.len() as int, repair@.len() as int, rep_interval as int),
    ensures
        out@.len() == source@.len() + repair@.len(),
        forall|i: int|
            0 <= i < source@.len() ==> stands_at(
                out@,
                source_position(i, repair@.len() as int, rep_interval as int),
                #[trigger] source@[i],
            ),
        forall|j: int|
            0 <= j < repair@.len() ==> stands_at(
                out@,
                repair_position(j, source@.len() as int, rep_interval as int),
                #[trigger] repair@[j],
            ),
        forall|p: int|
            0 <= p < out@.len() ==> source@.contains(#[trigger] out@[p]) || repair@.contains(out@[p]),
{
    let ghost s = source@;
    let ghost r = repair@;
    let ghost v = rep_interval as int;
    let mut out: Vec<EncodingPacket> = Vec::new();
    let mut source: Vec<EncodingPacket> = reversed(source);
    let mut repair: Vec<EncodingPacket> = reversed(repair);
    let mut src_count: u32 = 0;
    let mut next_rep_after: u32 = rep_interval;
    let ghost mut rep_count: int = 0;
    while source.len() > 0 || repair.len() > 0
        invariant
            interleave_fits(s.len() as int, r.len() as int, v),
            v == rep_interval,
            src_count <= s.len(),
            0 <= rep_count <= r.len(),
            source@ == s.skip(src_count as int).reverse(),
            repair@ == r.skip(rep_count).reverse(),
            out@.len() == src_count + rep_count,
            phase(src_count as int, rep_count, next_rep_after as int, s.len() as int, r.len() as int, v),
            forall|j: int|
                0 <= j < rep_count ==> stands_at(
                    out@,
                    repair_position(j, s.len() as int, v),
                    #[trigger] r[j],
                ),
            forall|i: int|
                0 <= i < src_count ==> stands_at(
                    out@,
                    source_position(i, r.len() as int, v),
                    #[trigger] s[i],
                ),
            forall|p: int|
                0 <= p < out@.len() ==> s.contains(#[trigger] out@[p]) || r.contains(out@[p]),
        decreases source.len() + repair.len(),
    {
        let due: bool = src_count >= next_rep_after || source.len() == 0;
        if due && repair.len() > 0 {
            let packet = repair.pop().unwrap();
            proof {
                assert((rep_count + 1) * v + v == (rep_count + 2) * v) by (nonlinear_arith);
                assert(packet == r[rep_count]);
                assert(r.skip(rep_count + 1).reverse() =~= repair@);
                assert(out@.len() == repair_position(rep_count, s.len() as int, v));
            }
            out.push(packet);
            if src_count >= next_rep_after {
                next_rep_after = next_rep_after + rep_interval;
            }
            proof {
                rep_count = rep_count + 1;
            }
        } else {
            let packet = source.pop().unwrap();
            proof {
                assert(packet == s[src_count as int]);
                assert(s.skip(src_count + 1).reverse() =~= source@);
                lemma_source_turn(
                    src_count as int,
                    rep_count,
                    next_rep_after as int,
                    s.len() as int,
                    r.len() as int,
                    v,
                );
            }
            out.push(packet);
            src_count = src_count + 1;
        }
    }
    assert(src_count == s.len() && rep_count == r.len());
    out
}

/// How the counters stand to one another. Repairs go out as they fall due, until
/// the sources run out; what is left then follows without falling due.
spec fn phase(sent: int, repaired: int, next: int, sources: int, repairs: int, v: int) -> bool {
    ||| {
        &&& next == (repaired + 1) * v
        &&& repaired * v <= sent
        &&& repaired == repairs || sent <= next
    }
    ||| {
        &&& sent == sources
        &&& sent < next
        &&& sources < (repaired + 1) * v
    }
}

proof fn lemma_source_turn(
    sent: int,
    repaired: int,
    next: int,
    sources: int,
    repairs: int,
    v: int,
)
    requires
        phase(sent, repaired, next, sources, repairs, v),
        0 <= sent < sources,
        0 <= repaired <= repairs,
        0 <= v,
        sent < next || repaired == repairs,
    ensures
        repairs_before(sent, repairs, v) == repaired,
{
    if repaired < repairs {
        assert(repairs * v >= (repaired + 1) * v) by (nonlinear_arith)
            requires
                repairs >= repaired + 1,
                v >= 0,
        ;
        assert(v > 0) by (nonlinear_arith)
            requires
                (repaired + 1) * v > sent,
                sent >= 0,
                v >= 0,
        ;
        assert(sent / v == repaired) by (nonlinear_arith)
            requires
                repaired * v <= sent < (repaired + 1) * v,
                v > 0,
        ;
    }
}

/// The packets in reverse order, so that they can be taken off the end.
fn reversed(packets: Vec<EncodingPacket>) -> (out: Vec<EncodingPacket>)
    ensures
        out@ == packets@.reverse(),
{
    let mut packets: Vec<EncodingPacket> = packets;
    let mut out: Vec<EncodingPacket> = Vec::new();
    let ghost all = packets@;
    while packets.len() > 0
        invariant
            packets@.len() + out@.len() == all.len(),
            packets@ == all.take(packets@.len() as int),
            out@ =~= all.skip(packets@.len() as int).reverse(),
        decreases packets.len(),
    {
        let packet = packets.pop().unwrap();
        out.push(packet);
    }
    assert(all.skip(0) =~= all);
    out
}

/// How many source packets pass between two repair packets, when `repair`
/// repairs are spread over `k` source packets.
pub open spec fn spread(k: int, repair: int) -> int {
    if repair == 0 {
        u32::MAX as int
    } else if k / repair == 0 {
        1
    } else {
        k / repair
    }
}

pub fn repair_interval(k: u32, repair: u32) -> (interval: u32)
    ensures
        interval == spread(k as int, repair as int),
{
    if repair > 0 {
        let interval: u32 = k / repair;
        if interval > 1 {
            interval
        } else {
            1
        }
    } else {
        u32::MAX
    }
}

/// With the interval for `k` and `repair`, interleaving stays within 32 bits.
pub proof fn lemma_spread_fits(k: int, repair: int)
    requires
        0 <= k <= 0x4000_0000,
        0 <= repair <= u32::MAX,
    ensures
        interleave_fits(k, repair, spread(k, repair)),
{
    let v = spread(k, repair);
    assert forall|j: int| 0 <= j < repair && #[trigger] ((j + 1) * v) <= k implies (j + 2) * v
        <= u32::MAX by {
        assert((j + 2) * v == (j + 1) * v + v) by (nonlinear_arith);
        assert(k / repair <= k) by (nonlinear_arith)
            requires
                repair > 0,
                k >= 0,
        ;
    }
}

/// Nothing is lost and no order is changed: source packets keep their order,
/// repair packets keep theirs, and no two packets stand at the same place.
pub proof fn law_interleave_is_a_merge(
    sources: int,
    repairs: int,
    v: int,
    i1: int,
    i2: int,
    j1: int,
    j2: int,
)
    requires
        0 <= v,
        0 <= i1 < i2 < sources || 0 <= i1 == i2 < sources,
        0 <= j1 < j2 < repairs || 0 <= j1 == j2 < repairs,
    ensures
        i1 < i2 ==> source_position(i1, repairs, v) < source_position(i2, repairs, v),
        j1 < j2 ==> repair_position(j1, sources, v) < repair_position(j2, sources, v),
        source_position(i1, repairs, v) != repair_position(j1, sources, v),
{
    lemma_repairs_before(i1, repairs, v);
    lemma_repairs_before(i2, repairs, v);
    let (b1, b2) = (repairs_before(i1, repairs, v), repairs_before(i2, repairs, v));
    if i1 < i2 && b1 > b2 {
        assert(b1 * v >= (b2 + 1) * v) by (nonlinear_arith)
            requires
                b1 >= b2 + 1,
                v >= 0,
        ;
    }
    assert((j1 + 1) * v <= (j2 + 1) * v) by (nonlinear_arith)
        requires
            j1 <= j2,
            v >= 0,
    ;
    // Source i1 stands behind exactly b1 repairs; repair j1 stands behind either
    // (j1 + 1) * v sources or all of them.
    if j1 < b1 {
        assert((j1 + 1) * v <= b1 * v) by (nonlinear_arith)
            requires
                j1 + 1 <= b1,
                v >= 0,
        ;
    } else {
        assert((j1 + 1) * v >= (b1 + 1) * v) by (nonlinear_arith)
            requires
                j1 >= b1,
                v >= 0,
        ;
    }
}

proof fn lemma_repairs_before(i: int, repairs: int, v: int)
    requires
        0 <= i,
        0 <= repairs,
        0 <= v,
    ensures
        0 <= repairs_before(i, repairs, v) <= repairs,
        repairs_before(i, repairs, v) * v <= i,
        repairs_before(i, repairs, v) < repairs ==> i < (repairs_before(i, repairs, v) + 1) * v,
{
    if v > 0 && repairs * v > i {
        let q = i / v;
        assert(q * v <= i < (q + 1) * v && q >= 0) by (nonlinear_arith)
            requires
                q == i / v,
                v > 0,
                i >= 0,
        ;
        if q >= repairs {
            assert(q * v >= repairs * v) by (nonlinear_arith)
                requires
                    q >= repairs,
                    v > 0,
            ;
        }
    } else if v == 0 {
        assert(repairs * v == 0) by (nonlinear_arith)
            requires
                v == 0,
        ;
    }
}

/// Repair packets are evenly spaced: as long as sources last, repair `j + m`
/// stands exactly `m * (v + 1)` places behind repair `j`. So a burst of lost
/// packets no longer than that takes at most `m` of them.
pub proof fn law_repairs_are_evenly_spaced(sources: int, v: int, j: int, m: int)
    requires
        0 <= v,
        0 <= j,
        0 <= m,
        (j + m + 1) * v <= sources,
    ensures
        repair_position(j + m, sources, v) - repair_position(j, sources, v) == m * (v + 1),
{
    assert((j + m + 1) * v == (j + 1) * v + m * v && m * (v + 1) == m * v + m) by (nonlinear_arith);
    assert(m * v >= 0) by (nonlinear_arith)
        requires
            m >= 0,
            v >= 0,
    ;
}

pub proof fn lemma_position_bounds(sources: int, repairs: int, v: int, i: int)
    requires
        0 <= v,
        0 <= repairs,
        0 <= i < sources,
    ensures
        0 <= source_position(i, repairs, v) < sources + repairs,
{
    lemma_repairs_before(i, repairs, v);
}

pub proof fn lemma_source_places_differ(repairs: int, v: int, a: int, b: int)
    requires
        0 <= v,
        0 <= repairs,
        0 <= a < b,
    ensures
        source_position(a, repairs, v) < source_position(b, repairs, v),
{
    lemma_repairs_before(a, repairs, v);
    lemma_repairs_before(b, repairs, v);
    let (x, y) = (repairs_before(a, repairs, v), repairs_before(b, repairs, v));
    if x > y {
        assert(x * v >= (y + 1) * v) by (nonlinear_arith)
            requires
                x >= y + 1,
                v >= 0,
        ;
    }
}

/// Sources last for all repairs, with the interval that spreads them, unless
/// there are more repairs than sources.
pub proof fn law_spread_places_all_repairs(k: int, repair: int)
    requires
        0 < repair <= k,
    ensures
        spread(k, repair) >= 1,
        repair * spread(k, repair) <= k,
{
    assert(repair * (k / repair) <= k && k / repair >= 1) by (nonlinear_arith)
        requires
            0 < repair <= k,
    ;
}

/// Without repairs the source packets pass through unchanged.
pub proof fn law_no_repair_passes_through(i: int, v: int)
    requires
        0 <= i,
    ensures
        source_position(i, 0, v) == i,
{
}

/// After `sent` source and `repaired` repair packets it is a repair packet's turn:
/// one is left, and it is due or no source packet is left.
pub open spec fn repair_turn(
    sources: int,
    repairs: int,
    interval: int,
    sent: int,
    repaired: int,
) -> bool {
    repaired < repairs && (sent >= (repaired + 1) * interval || sent == sources)
}

/// How many source and repair packets are among the first `p` of the stream.
pub open spec fn mixed(sources: int, repairs: int, interval: int, p: int) -> (int, int)
    decreases p,
{
    if p <= 0 {
        (0, 0)
    } else {
        let (sent, repaired) = mixed(sources, repairs, interval, p - 1);
        if repair_turn(sources, repairs, interval, sent, repaired) {
            (sent, repaired + 1)
        } else {
            (sent + 1, repaired)
        }
    }
}

proof fn lemma_mixed(sources: int, repairs: int, v: int, p: int)
    requires
        0 <= sources,
        0 <= repairs,
        0 <= v,
        0 <= p <= sources + repairs,
    ensures
        ({
            let (a, c) = mixed(sources, repairs, v, p);
            &&& a + c == p
            &&& 0 <= a <= sources
            &&& 0 <= c <= repairs
            &&& c * v <= a || a == sources
            &&& c == repairs || a <= (c + 1) * v
        }),
    decreases p,
{
    if p > 0 {
        lemma_mixed(sources, repairs, v, p - 1);
        let c = mixed(sources, repairs, v, p - 1).1;
        assert((c + 2) * v == (c + 1) * v + v) by (nonlinear_arith);
    } else {
        assert(0 * v == 0 && (0 + 1) * v == v) by (nonlinear_arith);
    }
}

/// Every place of the stream is taken: by the next source packet, or, where it is
/// its turn, by the next repair packet.
pub proof fn law_every_place_is_taken(sources: int, repairs: int, v: int, p: int)
    requires
        0 <= sources,
        0 <= repairs,
        0 <= v,
        0 <= p < sources + repairs,
    ensures
        ({
            let (a, c) = mixed(sources, repairs, v, p);
            &&& a + c == p
            &&& if repair_turn(sources, repairs, v, a, c) {
                0 <= c < repairs && repair_position(c, sources, v) == p
            } else {
                0 <= a < sources && source_position(a, repairs, v) == p
            }
        }),
{
    lemma_mixed(sources, repairs, v, p);
    let (a, c) = mixed(sources, repairs, v, p);
    if !repair_turn(sources, repairs, v, a, c) {
        if c == repairs && c * v > a {
            assert(a == sources);
        }
        lemma_source_turn(a, c, (c + 1) * v, sources, repairs, v);
    }
}

/// The interval is the widest that still places every repair behind sources of
/// its own: one more, and the sources would not last. With more repairs than
/// sources it is one; without repairs it is beyond any block.
pub proof fn law_spread_is_the_widest(k: int, repair: int)
    requires
        0 <= k,
        0 <= repair,
    ensures
        0 < repair <= k ==> repair * spread(k, repair) <= k < repair * (spread(k, repair) + 1),
        repair > k ==> spread(k, repair) == 1,
        repair == 0 ==> spread(k, repair) == 0xFFFF_FFFF,
{
    if repair > 0 {
        let v = k / repair;
        assert(repair * v <= k < repair * (v + 1)) by (nonlinear_arith)
            requires
                v == k / repair,
                repair > 0,
        ;
        if repair > k {
            assert(v == 0) by (nonlinear_arith)
                requires
                    v == k / repair,
                    0 <= k < repair,
            ;
        } else {
            assert(v >= 1) by (nonlinear_arith)
                requires
                    k < repair * (v + 1),
                    repair <= k,
                    repair > 0,
            ;
        }
    }
}

/// Before repair `j` go the repairs before it and `j + 1` times the interval of
/// sources, or all sources where there are fewer. Before source `i` go the
/// sources before it and one repair for every whole interval of them, or all
/// repairs where there are fewer.
pub proof fn law_one_repair_behind_every_interval(
    sources: int,
    repairs: int,
    v: int,
    i: int,
    j: int,
)
    requires
        0 < v,
        0 <= i < sources,
        0 <= j < repairs,
    ensures
        repair_position(j, sources, v) - j == (if (j + 1) * v <= sources {
            (j + 1) * v
        } else {
            sources
        }),
        0 <= source_position(i, repairs, v) - i <= repairs,
        (source_position(i, repairs, v) - i) * v <= i,
        source_position(i, repairs, v) - i == repairs || i < (source_position(i, repairs, v) - i
            + 1) * v,
{
    if repairs * v > i {
        let q = i / v;
        assert(0 <= q && q * v <= i < (q + 1) * v) by (nonlinear_arith)
            requires
                q == i / v,
                v > 0,
                i >= 0,
        ;
        assert(q <= repairs) by (nonlinear_arith)
            requires
                q * v <= i < repairs * v,
                v > 0,
        ;
    }
}

/// An interval of zero sends all repairs first.
pub proof fn law_no_interval_sends_repairs_first(
    sources: int,
    repairs: int,
    i: int,
    j: int,
)
    requires
        0 <= i < sources,
        0 <= j < repairs,
    ensures
        repair_position(j, sources, 0) == j,
        source_position(i, repairs, 0) == repairs + i,
{
}

} // verus!
