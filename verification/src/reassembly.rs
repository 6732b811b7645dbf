//! What reassembly does with every packet and at every moment, case by case.

use crate::block;
use crate::block::Block;
use crate::codec;
use crate::decoder::{Emitted, Intake, Reassembly};
use crate::delivery;
use crate::fec;
use crate::frame::{Frame, Heard};
use crate::stats::{IntervalStats, Totals};
use crate::stream;
use crate::stream::{Event, Sent};
use crate::tracking;
use vstd::prelude::*;

verus! {

/// A decoder starts with nothing heard, nothing open and nothing counted.
pub proof fn law_decoder_starts_afresh(pid: u16, timeout: u128, max_in_flight: u64)
    ensures
        ({
            let s = Reassembly::initial(pid, timeout, max_in_flight);
            &&& s.pid == pid && s.timeout == timeout && s.max_in_flight == max_in_flight
            &&& s.pool =~= Map::empty() && s.cursor == 0 && s.highest_seen == 0 && !s.started
            &&& s.last_cc is None && s.unread == 0
            &&& s.totals == Totals::zeroed() && s.stats == IntervalStats::zeroed()
            &&& s.valid() && s.has_room()
        }),
{
}

/// There is room as long as the cursor is 256 below the largest signed number, or
/// lower, and no count is near its end.
pub proof fn law_room_goes_by_the_counts(s: Reassembly)
    ensures
        s.has_room() <==> s.cursor <= 0x7FFF_FFFF_FFFF_FEFF && s.totals.has_room()
            && s.stats.has_room(),
{
}

/// Block `n` has been waiting for the timeout, or longer.
pub open spec fn waited(s: Reassembly, n: u64, now: u128) -> bool {
    s.timeout == 0 || s.pool[n].first_seen + s.timeout <= now
}

/// When something goes out, and what. A complete block goes out at once. An
/// incomplete one goes out once it has waited for the timeout, and also as soon
/// as a block is open that lies the whole window ahead of it; not before. In
/// place of a block of which nothing came go zeros, as soon as any open block has
/// waited for the timeout or anything came for a block the whole window ahead,
/// and not before.
pub proof fn law_when_blocks_go_out(s: Reassembly, now: u128)
    ensures
        ({
            let c = s.cursor;
            let far = exists|n: u64| #[trigger]
                s.pool.contains_key(n) && n - c >= s.max_in_flight;
            let late = exists|n: u64| #[trigger] s.pool.contains_key(n) && waited(s, n, now);
            if s.pool.contains_key(c) {
                match s.pool[c].completed() {
                    Some(data) => s.due(now) == Some(Emitted::Decoded { block: c, data }),
                    None => {
                        &&& s.due(now) is Some <==> waited(s, c, now) || far
                        &&& s.due(now) matches Some(e) ==> e == (Emitted::BestEffort {
                            block: c,
                            recovered: s.pool[c].sources().len(),
                            repair: s.pool[c].repair_count(),
                            k: s.pool[c].setup.k,
                            timed_out: waited(s, c, now),
                            data: s.pool[c].best_effort(),
                        })
                    },
                }
            } else {
                &&& s.due(now) is Some <==> s.started && (far || late || s.highest_seen - c
                    >= s.max_in_flight)
                &&& s.due(now) matches Some(e) ==> {
                    &&& e matches Emitted::Zero { block, .. } && block == c
                    &&& e.data().len() == 392 * 163
                    &&& forall|i: int| 0 <= i < e.data().len() ==> #[trigger] e.data()[i] == 0
                }
            }
        }),
{
    if exists|n: u64| #[trigger]
        s.pool.contains_key(n) && n - s.cursor >= s.max_in_flight {
        let n = choose|n: u64| #[trigger]
            s.pool.contains_key(n) && n - s.cursor >= s.max_in_flight;
        assert(s.forced());
    }
    if exists|n: u64| #[trigger] s.pool.contains_key(n) && waited(s, n, now) {
        let n = choose|n: u64| #[trigger] s.pool.contains_key(n) && waited(s, n, now);
        assert(s.overdue(now));
    }
    if s.forced() {
        let n = choose|n: u64| #[trigger]
            s.pool.contains_key(n) && n >= s.cursor + s.max_in_flight;
        assert(n - s.cursor >= s.max_in_flight);
    }
    if s.overdue(now) {
        let n = choose|n: u64| #[trigger]
            s.pool.contains_key(n) && crate::clock::elapsed(s.pool[n].first_seen, now)
                >= s.timeout;
        assert(waited(s, n, now));
    }
}

/// What is due stays due, with the same bytes, for as long as nothing else comes:
/// time alone takes nothing back.
pub proof fn law_due_stays_due(s: Reassembly, now: u128, later: u128)
    requires
        now <= later,
        s.due(now) is Some,
    ensures
        s.due(later) is Some,
        s.due(later)->0.number() == s.due(now)->0.number(),
        s.due(later)->0.data() == s.due(now)->0.data(),
{
    law_when_blocks_go_out(s, now);
    law_when_blocks_go_out(s, later);
    if exists|n: u64| #[trigger] s.pool.contains_key(n) && waited(s, n, now) {
        let n = choose|n: u64| #[trigger] s.pool.contains_key(n) && waited(s, n, now);
        assert(waited(s, n, later));
    }
    if !s.pool.contains_key(s.cursor) {
        assert(s.due(later)->0.data() =~= s.due(now)->0.data());
    }
}

/// An incomplete block goes out with every source symbol that came for it, byte
/// for byte in its place, and zeros where no copy of one came: whether it had
/// waited for too long or held up others.
pub proof fn law_incomplete_block_keeps_what_came(
    s: Reassembly,
    now: u128,
    esi: u32,
    j: int,
    b: int,
)
    requires
        s.due(now) matches Some(Emitted::BestEffort { .. }),
        esi < s.pool[s.cursor].setup.k,
        0 <= b < 163,
    ensures
        ({
            let (block, data) = (s.pool[s.cursor], s.due(now)->0.data());
            &&& data.len() == block.setup.k * 163
            &&& 0 <= esi * 163 + b < data.len()
            &&& block::first_copy(block.received, j) && block.received[j].0 == esi ==> data[esi
                * 163 + b] == block.received[j].1[b]
            &&& (forall|i: int|
                0 <= i < block.received.len() ==> (#[trigger] block.received[i]).0 != esi)
                ==> data[esi * 163 + b] == 0
        }),
{
    block::law_received_symbols_stand_in_place(s.pool[s.cursor], esi, j, b);
}

/// Set against the block sent: at the place of every source symbol that came, the
/// bytes that go out are those of the block, and only at the place of the others
/// are there zeros; for an incomplete block that is due, and for one that is
/// given up at the end.
pub proof fn law_what_came_goes_out(s: Reassembly, sent: Sent, now: u128, n: u64, i: int, j: int)
    requires
        stream::tracks(s, sent),
        s.pool.contains_key(n),
        0 <= i < sent.data(n).len(),
        0 <= j < s.pool[n].received.len(),
        s.pool[n].received[j].0 == i / 163,
    ensures
        s.pool[n].as_is().len() == sent.data(n).len(),
        s.pool[n].as_is()[i] == sent.data(n)[i],
        n == s.cursor ==> (s.due(now) matches Some(e) ==> {
            &&& e.data().len() == sent.data(n).len()
            &&& e.data()[i] == sent.data(n)[i]
        }),
{
    let block = s.pool[n];
    block::law_completed_block_is_the_block_sent(block, sent.symbols(n));
    block::law_best_effort_is_the_block_with_gaps(block, sent.symbols(n));
    block::lemma_source_id(block, sent.symbols(n), i);
    block::lemma_sources_of(block.received, block.setup.k, j);
}

/// Where no copy of a source symbol came, an incomplete block has zeros.
pub proof fn law_what_did_not_come_is_zero(s: Reassembly, sent: Sent, now: u128, n: u64, i: int)
    requires
        stream::tracks(s, sent),
        s.pool.contains_key(n),
        0 <= i < sent.data(n).len(),
        forall|j: int|
            0 <= j < s.pool[n].received.len() ==> (#[trigger] s.pool[n].received[j]).0 != i / 163,
    ensures
        s.pool[n].completed() is None ==> s.pool[n].as_is()[i] == 0,
        n == s.cursor ==> (s.due(now) matches Some(Emitted::BestEffort { data, .. }) ==> data[i]
            == 0),
{
    let block = s.pool[n];
    block::law_best_effort_is_the_block_with_gaps(block, sent.symbols(n));
    block::lemma_source_id(block, sent.symbols(n), i);
    block::law_symbols_are_counted(block);
}

/// A first data frame that makes sense starts the stream at its own block,
/// whatever that is and whichever of its symbols it carries. That block is then
/// open, with this symbol and no other. Left out is a block of one symbol that
/// announces no sub-blocks or no alignment: it cannot be put together.
pub proof fn law_first_frame_starts_the_stream(
    s: Reassembly,
    cc: u8,
    oti: fec::Oti,
    id: fec::SymbolId,
    symbol: Seq<u8>,
    now: u128,
)
    requires
        s.valid(),
        s.has_room(),
        !s.started,
        block::sane(oti),
        oti.sub_blocks > 0 && oti.symbol_alignment > 0 || oti.transfer_length > 163,
    ensures
        ({
            let heard = Heard::Frame(Frame::Data { cc, oti, id, symbol });
            let after = s.taken(heard, now);
            let n = id.sbn as u64;
            &&& s.intake(heard) == Intake::Accepted { block: n }
            &&& after.started && after.cursor == n && after.highest_seen == n
            &&& after.pool.dom() =~= set![n]
            &&& after.pool[n].received =~= seq![(id.esi, symbol)]
            &&& after.pool[n].first_seen == now
            &&& after.pool[n].setup.sbn == id.sbn
            &&& after.pool[n].setup.k * 163 == oti.transfer_length
            &&& after.stats.pkts_ok == s.stats.pkts_ok + 1
        }),
{
    let n = id.sbn as u64;
    tracking::law_unwrap_inverts_wrapping(n, n as int);
    block::law_block_begins_empty(id.sbn, oti, now);
    block::law_block_begins_empty(id.sbn, oti, 0);
    let fresh = Block::fresh(id.sbn, oti, 0);
    lemma_one_id(fresh.received, id.esi);
    block::law_block_takes_its_packets(fresh, id);
    assert(fresh.repair_count() == 0);
    assert(fresh.setup.k > 1 || oti.transfer_length == 163);
}

proof fn lemma_one_id(received: Seq<(u32, Seq<u8>)>, esi: u32)
    requires
        received.len() == 0,
    ensures
        codec::received_ids(received).insert(esi).len() == 1,
{
    let ids = received.map_values(|r: (u32, Seq<u8>)| r.0);
    assert(ids =~= Seq::<u32>::empty());
    assert(ids.to_set() =~= Set::<u32>::empty());
    assert(codec::received_ids(received) =~= Set::<u32>::empty());
}

/// Every data frame that was sent is accepted by a decoder that has not started,
/// whatever its block and symbol, and starts the stream at its block.
pub proof fn law_any_frame_can_be_the_first(
    s: Reassembly,
    sent: Sent,
    n: u64,
    esi: u32,
    cc: u8,
    now: u128,
)
    requires
        s.valid(),
        s.has_room(),
        !s.started,
        sent.encodable(n),
        n < 256,
    ensures
        ({
            let heard = Heard::Frame(sent.frame(n, esi, cc));
            let after = s.taken(heard, now);
            &&& s.intake(heard) == Intake::Accepted { block: n }
            &&& after.started && after.cursor == n && after.highest_seen == n
            &&& after.pool.dom() =~= set![n]
            &&& after.pool[n].received =~= seq![(esi, sent.packet(n, esi).data)]
            &&& after.pool[n].setup.k == sent.symbols(n).len()
            &&& after.pool[n].first_seen == now
        }),
{
    stream::lemma_block_size(sent, n);
    let packet = sent.packet(n, esi);
    assert(packet.id.sbn == n);
    law_first_frame_starts_the_stream(s, cc, sent.oti(n), packet.id, packet.data, now);
}

/// No frame that was sent is refused. One of a block in sight at or behind the
/// cursor is accepted and adds its symbol to its block, unless that is complete;
/// one of a block that has gone out is redundant. Left out is a repair packet of a
/// block that has had as many of them as can be counted.
pub proof fn law_sent_frames_are_taken(
    s: Reassembly,
    sent: Sent,
    n: u64,
    esi: u32,
    cc: u8,
    now: u128,
)
    requires
        s.valid(),
        s.has_room(),
        stream::tracks(s, sent),
        sent.encodable(n),
        stream::in_sight(s, n),
        s.pool.contains_key(n) && esi >= sent.symbols(n).len() ==> s.pool[n].repair_count()
            < 0xFFFF_FFFF,
    ensures
        ({
            let heard = Heard::Frame(sent.frame(n, esi, cc));
            let after = s.taken(heard, now);
            let symbol = (esi, sent.packet(n, esi).data);
            if s.started && n < s.cursor {
                &&& s.intake(heard) == Intake::Redundant { block: n, cursor: s.cursor }
                &&& after.pool == s.pool
            } else {
                &&& s.intake(heard) == Intake::Accepted { block: n }
                &&& after.pool.contains_key(n)
                &&& if !s.pool.contains_key(n) {
                    after.pool[n].received =~= seq![symbol] && after.pool[n].first_seen == now
                } else if s.pool[n].completed() is None {
                    after.pool[n].received == s.pool[n].received.push(symbol)
                } else {
                    after.pool[n] == s.pool[n]
                }
            }
        }),
{
    stream::lemma_block_size(sent, n);
    stream::lemma_target(s, n);
    let packet = sent.packet(n, esi);
    let oti = sent.oti(n);
    block::law_block_begins_empty(packet.id.sbn, oti, now);
    block::law_block_begins_empty(packet.id.sbn, oti, 0);
    let fresh = Block::fresh(packet.id.sbn, oti, 0);
    assert(fresh.repair_count() == 0);
    assert(packet.id.sbn == n % 256);
    assert(packet.id.esi == esi);
}

/// What becomes of what was heard. A data frame that makes sense belongs to the
/// block nearest to the cursor, or to the frame's own number if the stream has
/// not started. It is redundant if that block has gone out. Otherwise it is
/// accepted by a block that is open and takes it, and by one just begun, unless a
/// block of one symbol announces no sub-blocks or no alignment; else it is
/// refused.
pub proof fn law_fate_of_a_packet(s: Reassembly, heard: Heard)
    requires
        s.valid(),
        s.has_room(),
    ensures
        match heard {
            Heard::Garbled(e) => s.intake(heard) == Intake::Unparseable(e),
            Heard::Foreign(e) => s.intake(heard) == Intake::Unparseable(e),
            Heard::Frame(Frame::Noop { .. }) => s.intake(heard) == Intake::Noop,
            Heard::Frame(Frame::Data { oti, id, .. }) => {
                let cursor = if s.started {
                    s.cursor
                } else {
                    id.sbn as u64
                };
                let n = tracking::unwrapped(cursor, id.sbn);
                let takes = if s.pool.contains_key(n as u64) {
                    s.pool[n as u64].accepts(id)
                } else {
                    oti.sub_blocks > 0 && oti.symbol_alignment > 0 || oti.transfer_length > 163
                };
                &&& 0 <= n <= u64::MAX
                &&& s.intake(heard) == (if !block::sane(oti) {
                    Intake::Insane
                } else if n < cursor {
                    Intake::Redundant { block: n as u64, cursor }
                } else if takes {
                    Intake::Accepted { block: n as u64 }
                } else {
                    Intake::Refused
                })
            },
        },
{
    if let Heard::Frame(Frame::Data { oti, id, .. }) = heard {
        let cursor = if s.started {
            s.cursor
        } else {
            id.sbn as u64
        };
        tracking::law_unwrap_finds_the_nearest(cursor, id.sbn);
        if block::sane(oti) {
            block::law_block_begins_empty(id.sbn, oti, 0);
            let fresh = Block::fresh(id.sbn, oti, 0);
            lemma_one_id(fresh.received, id.esi);
            assert(fresh.repair_count() == 0);
            assert(fresh.setup.k > 1 <==> oti.transfer_length > 163);
        }
    }
}

/// Only an accepted packet opens or changes a block, and only its own: the block
/// takes the packet in, as it was or just begun. It moves the furthest block seen
/// on to that one, and the cursor only if the stream starts with it. No packet
/// changes what the decoder was made with.
pub proof fn law_packets_change_their_own_block(s: Reassembly, heard: Heard, now: u128)
    requires
        s.valid(),
        s.has_room(),
    ensures
        ({
            let after = s.taken(heard, now);
            &&& after.pid == s.pid && after.timeout == s.timeout
            &&& after.max_in_flight == s.max_in_flight
            &&& match s.intake(heard) {
                Intake::Accepted { block: n } => {
                    &&& heard matches Heard::Frame(Frame::Data { oti, id, symbol, .. }) && {
                        let before = if s.pool.contains_key(n) {
                            s.pool[n]
                        } else {
                            Block::fresh(id.sbn, oti, now)
                        };
                        after.pool[n] == before.ingested(fec::Packet { id, data: symbol })
                    }
                    &&& after.pool.dom() =~= s.pool.dom().insert(n)
                    &&& forall|m: u64|
                        m != n && s.pool.contains_key(m) ==> #[trigger] after.pool[m] == s.pool[m]
                    &&& after.started
                    &&& after.cursor == (if s.started {
                        s.cursor
                    } else {
                        n
                    })
                    &&& after.highest_seen == (if s.started && s.highest_seen > n {
                        s.highest_seen
                    } else {
                        n
                    })
                },
                _ => {
                    &&& after.pool == s.pool && after.started == s.started
                    &&& after.cursor == s.cursor && after.highest_seen == s.highest_seen
                },
            }
        }),
{
    law_fate_of_a_packet(s, heard);
    if let Heard::Frame(Frame::Data { oti, id, .. }) = heard {
        tracking::law_unwrap_inverts_wrapping(id.sbn as u64, id.sbn as int);
    }
}

/// A frame that is not refused counts once by its fate, and what is missing
/// between it and the last frame counts as lost, but for as many packets as came
/// in between and could not be read. The next gap is counted from this frame.
pub proof fn law_frames_count_once(s: Reassembly, heard: Heard, now: u128)
    requires
        s.valid(),
        s.has_room(),
        heard is Frame,
        !(s.intake(heard) is Refused),
    ensures
        ({
            let cc = match heard->Frame_0 {
                Frame::Data { cc, .. } => cc,
                Frame::Noop { cc } => cc,
            };
            let after = s.taken(heard, now);
            let gap = tracking::missed(s.last_cc, cc);
            let lost = after.totals.lost_packets - s.totals.lost_packets;
            let fate = s.intake(heard);
            &&& after.last_cc == Some(cc) && after.unread == 0
            &&& gap <= s.unread ==> lost == 0
            &&& gap >= s.unread ==> lost + s.unread == gap
            &&& after.totals == (Totals {
                lost_packets: after.totals.lost_packets,
                redundant_packets: after.totals.redundant_packets,
                ..s.totals
            })
            &&& after.totals.redundant_packets == s.totals.redundant_packets + (if fate is Redundant {
                1int
            } else {
                0
            })
            &&& after.stats.pkts_lost == s.stats.pkts_lost + lost
            &&& after.stats == (IntervalStats {
                pkts_lost: after.stats.pkts_lost,
                pkts_ok: (s.stats.pkts_ok + (if fate is Accepted {
                    1int
                } else {
                    0
                })) as u64,
                pkts_redundant: (s.stats.pkts_redundant + (if fate is Redundant {
                    1int
                } else {
                    0
                })) as u64,
                pkts_unparseable: (s.stats.pkts_unparseable + (if fate is Insane {
                    1int
                } else {
                    0
                })) as u64,
                noops: (s.stats.noops + (if fate is Noop {
                    1int
                } else {
                    0
                })) as u64,
                ..s.stats
            })
        }),
{
}

/// A packet that cannot be read counts as such. One of the stream is remembered
/// too, up to 15 of them, so that it is not missed in the next gap; a foreign one
/// is not. A refused packet leaves no trace.
pub proof fn law_unreadable_packets_count_once(s: Reassembly, heard: Heard, now: u128)
    requires
        s.valid(),
        s.has_room(),
    ensures
        ({
            let after = s.taken(heard, now);
            &&& s.intake(heard) is Refused ==> after == s
            &&& !(heard is Frame) ==> {
                &&& after.stats == (IntervalStats {
                    pkts_unparseable: after.stats.pkts_unparseable,
                    ..s.stats
                })
                &&& after.stats.pkts_unparseable == s.stats.pkts_unparseable + 1
                &&& after.totals == s.totals && after.last_cc == s.last_cc
                &&& after.pool == s.pool
            }
            &&& heard is Foreign ==> after.unread == s.unread
            &&& heard is Garbled && s.unread < 15 ==> after.unread == s.unread + 1
            &&& heard is Garbled && s.unread >= 15 ==> after.unread == 15
        }),
{
}

/// What goes out leaves the pool, moves the cursor on by one block, and counts
/// once by its kind; a best effort counts also with its symbols, received and
/// needed, and by its reason. Nothing else changes. A block's repair packets are
/// counted in 32 bits.
pub proof fn law_emissions_count_once(s: Reassembly, now: u128)
    requires
        s.valid(),
        s.has_room(),
        s.due(now) is Some,
        s.pool.contains_key(s.cursor) ==> s.pool[s.cursor].repair_count() <= 0xFFFF_FFFF,
    ensures
        ({
            let e = s.due(now)->0;
            let after = s.emitted(e);
            let (stats, totals) = (s.stats, s.totals);
            &&& after.cursor == s.cursor + 1
            &&& !after.pool.contains_key(s.cursor)
            &&& after.pool.dom() =~= s.pool.dom().remove(s.cursor)
            &&& forall|n: u64|
                n != s.cursor && s.pool.contains_key(n) ==> #[trigger] after.pool[n] == s.pool[n]
            &&& after.pid == s.pid && after.timeout == s.timeout
            &&& after.max_in_flight == s.max_in_flight && after.highest_seen == s.highest_seen
            &&& after.started == s.started && after.last_cc == s.last_cc && after.unread
                == s.unread
            &&& match e {
                Emitted::Decoded { .. } => {
                    &&& after.totals.decoded_blocks == totals.decoded_blocks + 1
                    &&& after.totals == (Totals {
                        decoded_blocks: after.totals.decoded_blocks,
                        ..totals
                    })
                    &&& after.stats.decoded == stats.decoded + 1
                    &&& after.stats == (IntervalStats { decoded: after.stats.decoded, ..stats })
                },
                Emitted::BestEffort { recovered, repair, k, timed_out, .. } => {
                    &&& after.totals.besteffort_blocks == totals.besteffort_blocks + 1
                    &&& after.totals == (Totals {
                        besteffort_blocks: after.totals.besteffort_blocks,
                        ..totals
                    })
                    &&& after.stats.besteffort == stats.besteffort + 1
                    &&& after.stats.be_syms_rcvd - stats.be_syms_rcvd == recovered + repair
                    &&& after.stats.be_syms_needed - stats.be_syms_needed == k
                    &&& timed_out ==> after.stats.be_timed_out == stats.be_timed_out + 1
                        && after.stats.be_forced == stats.be_forced
                    &&& !timed_out ==> after.stats.be_forced == stats.be_forced + 1
                        && after.stats.be_timed_out == stats.be_timed_out
                    &&& after.stats == (IntervalStats {
                        besteffort: after.stats.besteffort,
                        be_syms_rcvd: after.stats.be_syms_rcvd,
                        be_syms_needed: after.stats.be_syms_needed,
                        be_timed_out: after.stats.be_timed_out,
                        be_forced: after.stats.be_forced,
                        ..stats
                    })
                },
                Emitted::Zero { .. } => {
                    &&& after.totals.zero_blocks == totals.zero_blocks + 1
                    &&& after.totals == (Totals {
                        zero_blocks: after.totals.zero_blocks,
                        ..totals
                    })
                    &&& after.stats.zero == stats.zero + 1
                    &&& after.stats == (IntervalStats { zero: after.stats.zero, ..stats })
                },
            }
        }),
{
    if s.pool.contains_key(s.cursor) {
        block::lemma_source_count(s.pool[s.cursor]);
    }
}

/// A flush gives every open block once, in order of number: what RaptorQ
/// recovered of it, or else the best effort. `numbers` says which they are.
pub proof fn law_flush_gives_every_open_block(s: Reassembly, from: int) -> (numbers: Seq<u64>)
    requires
        s.valid(),
        0 <= from,
    ensures
        numbers.len() == s.rest(from).len(),
        forall|i: int|
            0 <= i < numbers.len() ==> {
                &&& s.pool.contains_key(#[trigger] numbers[i])
                &&& numbers[i] >= from
                &&& s.rest(from)[i] == (match s.pool[numbers[i]].completed() {
                    Some(data) => data,
                    None => s.pool[numbers[i]].best_effort(),
                })
            },
        forall|i: int, j: int|
            0 <= i < j < numbers.len() ==> #[trigger] numbers[i] < #[trigger] numbers[j],
        forall|n: u64| #[trigger]
            s.pool.contains_key(n) && n >= from ==> numbers.contains(n),
    decreases s.highest_seen + 1 - from,
{
    if from > s.highest_seen {
        Seq::empty()
    } else {
        let later = law_flush_gives_every_open_block(s, from + 1);
        if s.pool.contains_key(from as u64) {
            let numbers = seq![from as u64] + later;
            assert forall|i: int| 0 <= i < numbers.len() implies {
                &&& s.pool.contains_key(#[trigger] numbers[i])
                &&& numbers[i] >= from
                &&& s.rest(from)[i] == (match s.pool[numbers[i]].completed() {
                    Some(data) => data,
                    None => s.pool[numbers[i]].best_effort(),
                })
            } by {
                if i > 0 {
                    assert(numbers[i] == later[i - 1]);
                    assert(s.rest(from)[i] == s.rest(from + 1)[i - 1]);
                }
            }
            assert forall|i: int, j: int|
                0 <= i < j < numbers.len() implies #[trigger] numbers[i]
                < #[trigger] numbers[j] by {
                assert(numbers[j] == later[j - 1]);
                if i > 0 {
                    assert(numbers[i] == later[i - 1]);
                }
            }
            assert forall|n: u64| #[trigger]
                s.pool.contains_key(n) && n >= from implies numbers.contains(n) by {
                if n == from {
                    assert(numbers[0] == n);
                } else {
                    let i = later.index_of(n);
                    assert(later.contains(n));
                    assert(numbers[i + 1] == n);
                }
            }
            numbers
        } else {
            assert forall|n: u64| #[trigger]
                s.pool.contains_key(n) && n >= from implies later.contains(n) by {
                assert(n >= from + 1);
            }
            later
        }
    }
}

/// After a flush nothing is open. The cursor stands behind the last block that
/// was, or where it stood if none was, and nothing else has changed.
pub proof fn law_flush_leaves_nothing_open(s: Reassembly, cursor: u64)
    requires
        s.valid(),
        s.ends_at(cursor),
    ensures
        ({
            let after = s.flushed(cursor);
            &&& after.cursor == cursor
            &&& forall|n: u64| !#[trigger] after.pool.contains_key(n)
            &&& after == (Reassembly { pool: after.pool, cursor, ..s })
            &&& forall|n: u64| #[trigger] s.pool.contains_key(n) ==> s.cursor <= n < cursor
            &&& if exists|n: u64| s.pool.contains_key(n) {
                cursor > 0 && s.pool.contains_key((cursor - 1) as u64)
            } else {
                cursor == s.cursor
            }
        }),
{
}

/// A frame of this link adds itself and what was lost before it to the packets on
/// the air, and itself to those that arrived.
pub proof fn law_frames_add_to_what_was_on_air(s: Reassembly, heard: Heard, now: u128)
    requires
        s.valid(),
        s.has_room(),
        heard is Frame,
        !(s.intake(heard) is Refused),
        !(s.intake(heard) is Insane),
    ensures
        s.taken(heard, now).stats.arrived() == s.stats.arrived() + 1,
        s.taken(heard, now).stats.on_air() - s.stats.on_air() == 1 + s.taken(
            heard,
            now,
        ).totals.lost_packets - s.totals.lost_packets,
{
}

/// At the place of source symbol `esi`, `data` has the bytes of `block`.
pub open spec fn shows(data: Seq<u8>, block: Seq<u8>, esi: u32) -> bool {
    &&& data.len() == block.len()
    &&& forall|i: int| 0 <= i < block.len() && i / 163 == esi ==> #[trigger] data[i] == block[i]
}

/// Source symbol `esi` of block `n` is among what is open, or the block is
/// complete.
spec fn holds(t: Reassembly, n: u64, esi: u32) -> bool {
    &&& t.pool.contains_key(n)
    &&& t.pool[n].completed() is Some || exists|j: int|
        0 <= j < t.pool[n].received.len() && (#[trigger] t.pool[n].received[j]).0 == esi
}

/// Source symbol `esi` of block `n` has gone out.
spec fn went_out(out: Seq<Emitted>, sent: Sent, n: u64, esi: u32) -> bool {
    exists|j: int|
        0 <= j < out.len() && (#[trigger] out[j]).number() == n && shows(
            out[j].data(),
            sent.data(n),
            esi,
        )
}

proof fn lemma_holds_shows(t: Reassembly, sent: Sent, n: u64, esi: u32, now: u128)
    requires
        stream::tracks(t, sent),
        holds(t, n, esi),
    ensures
        shows(t.pool[n].as_is(), sent.data(n), esi),
        n == t.cursor ==> (t.due(now) matches Some(e) ==> shows(e.data(), sent.data(n), esi)),
{
    let block = t.pool[n];
    block::law_completed_block_is_the_block_sent(block, sent.symbols(n));
    block::law_best_effort_is_the_block_with_gaps(block, sent.symbols(n));
    if block.completed() is None {
        let j = choose|j: int|
            0 <= j < block.received.len() && (#[trigger] block.received[j]).0 == esi;
        assert forall|i: int| 0 <= i < sent.data(n).len() && i / 163 == esi implies (
        #[trigger] block.as_is()[i]) == sent.data(n)[i] by {
            law_what_came_goes_out(t, sent, now, n, i, j);
        }
    }
}

proof fn lemma_step_keeps(
    t: Reassembly,
    out: Seq<Emitted>,
    sent: Sent,
    event: Event,
    n: u64,
    esi: u32,
)
    requires
        t.valid(),
        t.has_room(),
        stream::tracks(t, sent),
        holds(t, n, esi) || went_out(out, sent, n, esi),
    ensures
        ({
            let (u, more) = stream::step(t, event);
            holds(u, n, esi) || went_out(out + more, sent, n, esi)
        }),
{
    let (u, more) = stream::step(t, event);
    if went_out(out, sent, n, esi) {
        let j = choose|j: int|
            0 <= j < out.len() && (#[trigger] out[j]).number() == n && shows(
                out[j].data(),
                sent.data(n),
                esi,
            );
        assert((out + more)[j] == out[j]);
    } else {
        match event {
            Event::Packet { heard, now, .. } => {
                law_packets_change_their_own_block(t, heard, now);
                if t.pool[n].completed() is None {
                    let j = choose|j: int|
                        0 <= j < t.pool[n].received.len() && (
                        #[trigger] t.pool[n].received[j]).0 == esi;
                    assert(u.pool[n].received[j] == t.pool[n].received[j]);
                }
            },
            Event::Ask { now } => {
                lemma_holds_shows(t, sent, n, esi, now);
                law_when_blocks_go_out(t, now);
                if let Some(e) = t.due(now) {
                    assert((out + more)[out.len() as int] == e);
                    if n != t.cursor {
                        assert(u.pool.contains_key(n) && u.pool[n] == t.pool[n]);
                    }
                }
            },
        }
    }
}

proof fn lemma_run_keeps(
    pid: u16,
    timeout: u128,
    max_in_flight: u64,
    events: Seq<Event>,
    sent: Sent,
    p: int,
    n: u64,
    esi: u32,
)
    requires
        stream::possible(Reassembly::initial(pid, timeout, max_in_flight), events, sent),
        0 <= p <= events.len(),
        ({
            let s = Reassembly::initial(pid, timeout, max_in_flight);
            let (t, out) = stream::run(s, events.take(p));
            holds(t, n, esi) || went_out(out, sent, n, esi)
        }),
    ensures
        ({
            let s = Reassembly::initial(pid, timeout, max_in_flight);
            let (t, out) = stream::run(s, events);
            holds(t, n, esi) || went_out(out, sent, n, esi)
        }),
    decreases events.len(),
{
    let s = Reassembly::initial(pid, timeout, max_in_flight);
    if p == events.len() {
        assert(events.take(p) =~= events);
    } else {
        let init = events.drop_last();
        stream::lemma_possible(s, events, sent);
        stream::lemma_possible(s, init, sent);
        assert(init.take(p) =~= events.take(p));
        lemma_run_keeps(pid, timeout, max_in_flight, init, sent, p, n, esi);
        delivery::law_fresh_decoder_delivers_the_stream(pid, timeout, max_in_flight, init, sent);
        let (t, out) = stream::run(s, init);
        lemma_step_keeps(t, out, sent, events.last(), n, esi);
    }
}

proof fn lemma_flush_has(t: Reassembly, from: int, n: u64) -> (c: int)
    requires
        t.valid(),
        0 <= from <= n,
        t.pool.contains_key(n),
    ensures
        0 <= c < delivery::flushed_chunks(t, from).len(),
        delivery::flushed_chunks(t, from)[c].number == n,
        delivery::flushed_chunks(t, from)[c].data == t.pool[n].as_is(),
    decreases t.highest_seen + 1 - from,
{
    if from == n {
        0
    } else {
        let c = lemma_flush_has(t, from + 1, n);
        if t.pool.contains_key(from as u64) {
            c + 1
        } else {
            c
        }
    }
}

/// Nothing that arrives in time is lost. Whatever else happens on the link, before
/// and after, and whichever block the stream started with: a source packet that
/// arrives before its block has gone out is in the output, byte for byte at its
/// place in the block, be the block recovered, given up or flushed at the end.
pub proof fn law_what_arrives_in_time_goes_out(
    pid: u16,
    timeout: u128,
    max_in_flight: u64,
    events: Seq<Event>,
    sent: Sent,
    p: int,
    n: u64,
    esi: u32,
    cc: u8,
    now: u128,
) -> (c: int)
    requires
        stream::possible(Reassembly::initial(pid, timeout, max_in_flight), events, sent),
        0 <= p < events.len(),
        sent.encodable(n),
        esi < sent.symbols(n).len(),
        events[p] == (Event::Packet { heard: Heard::Frame(sent.frame(n, esi, cc)), n, esi, now }),
        ({
            let s = Reassembly::initial(pid, timeout, max_in_flight);
            let t = stream::run(s, events.take(p)).0;
            t.started ==> n >= t.cursor
        }),
    ensures
        ({
            let all = delivery::output(Reassembly::initial(pid, timeout, max_in_flight), events);
            &&& 0 <= c < all.len()
            &&& all[c].number == n
            &&& all[c].data.len() == sent.data(n).len()
            &&& forall|i: int|
                0 <= i < sent.data(n).len() && i / 163 == esi ==> #[trigger] all[c].data[i]
                    == sent.data(n)[i]
        }),
{
    let s = Reassembly::initial(pid, timeout, max_in_flight);
    let (before, upto) = (events.take(p), events.take(p + 1));
    lemma_prefix_possible(s, events, sent, p);
    stream::lemma_block_size(sent, n);
    delivery::law_fresh_decoder_delivers_the_stream(pid, timeout, max_in_flight, before, sent);
    let t = stream::run(s, before).0;
    assert(t.valid() && t.has_room());
    assert(stream::plausible(t, events[p], sent));
    law_sent_frames_are_taken(t, sent, n, esi, cc, now);
    assert(upto.drop_last() =~= before);
    assert(upto.last() == events[p]);
    let u = stream::run(s, upto).0;
    assert(u == t.taken(Heard::Frame(sent.frame(n, esi, cc)), now));
    assert(holds(u, n, esi)) by {
        if !t.pool.contains_key(n) {
            assert(u.pool[n].received[0].0 == esi);
        } else if t.pool[n].completed() is None {
            assert(u.pool[n].received[u.pool[n].received.len() - 1].0 == esi);
        }
    }
    lemma_run_keeps(pid, timeout, max_in_flight, events, sent, p + 1, n, esi);
    delivery::law_fresh_decoder_delivers_the_stream(pid, timeout, max_in_flight, events, sent);
    stream::lemma_possible(s, events, sent);
    let (end, out) = stream::run(s, events);
    let all = delivery::output(s, events);
    let head = delivery::emitted_chunks(out);
    if went_out(out, sent, n, esi) {
        let c = choose|j: int|
            0 <= j < out.len() && (#[trigger] out[j]).number() == n && shows(
                out[j].data(),
                sent.data(n),
                esi,
            );
        assert(all[c] == head[c]);
        c
    } else {
        lemma_holds_shows(end, sent, n, esi, now);
        let c = lemma_flush_has(end, end.cursor as int, n);
        assert(all[head.len() + c] == delivery::flushed_chunks(end, end.cursor as int)[c]);
        head.len() + c
    }
}

proof fn lemma_prefix_possible(s: Reassembly, events: Seq<Event>, sent: Sent, p: int)
    requires
        stream::possible(s, events, sent),
        0 <= p < events.len(),
    ensures
        stream::possible(s, events.take(p), sent),
        stream::run(s, events.take(p)).0.valid(),
        stream::run(s, events.take(p)).0.has_room(),
        stream::plausible(stream::run(s, events.take(p)).0, events[p], sent),
    decreases events.len(),
{
    let init = events.drop_last();
    stream::lemma_possible(s, events, sent);
    if p == init.len() {
        assert(events.take(p) =~= init);
        stream::lemma_possible(s, init, sent);
    } else {
        lemma_prefix_possible(s, init, sent, p);
        assert(init.take(p) =~= events.take(p));
        assert(init[p] == events[p]);
    }
}

} // verus!
