//! What holds of the link from end to end: the decoder's output set against the
//! blocks that the encoder was given.

use crate::block;
use crate::clock;
use crate::codec;
use crate::decoder;
use crate::decoder::{Emitted, Intake, Reassembly};
use crate::encoder;
use crate::encoder::Pipeline;
use crate::fec;
use crate::fec::MAX_SOURCE_SYMBOLS_PER_BLOCK;
use crate::frame;
use crate::frame::{Frame, Heard};
use crate::tracking;
use crate::ts::{
    ParseError, DEFAULT_BLOCK_SIZE, FRAME_CRC_OFFSET, SYMBOL_SIZE, TS_HEADER_SIZE,
};
use vstd::prelude::*;

verus! {

/// The stream that was sent: the source symbols of every block, by number.
pub struct Sent(pub spec_fn(u64) -> Seq<Seq<u8>>);

impl Sent {
    /// The source symbols of block `n`.
    pub open spec fn symbols(self, n: u64) -> Seq<Seq<u8>> {
        (self.0)(n)
    }

    /// The bytes of block `n`.
    pub open spec fn data(self, n: u64) -> Seq<u8> {
        block::data_of(self.symbols(n))
    }

    /// The encoder could encode block `n`.
    pub open spec fn encodable(self, n: u64) -> bool {
        &&& 1 <= self.symbols(n).len() <= MAX_SOURCE_SYMBOLS_PER_BLOCK
        &&& codec::uniform(self.symbols(n), SYMBOL_SIZE as nat)
    }

    /// What the encoder announces for block `n`.
    pub open spec fn oti(self, n: u64) -> fec::Oti {
        block::oti_for(self.symbols(n))
    }

    /// Packet `esi` of block `n`. The wire has eight bits for the block's number.
    pub open spec fn packet(self, n: u64, esi: u32) -> fec::Packet {
        codec::EncodedBlock { sbn: (n % 256) as u8, symbols: self.symbols(n) }.packet(esi as nat)
    }

    /// The frame that carries packet `esi` of block `n`.
    pub open spec fn frame(self, n: u64, esi: u32, cc: u8) -> Frame {
        Frame::Data {
            cc,
            oti: self.oti(n),
            id: self.packet(n, esi).id,
            symbol: self.packet(n, esi).data,
        }
    }
}

/// Every open block of `s` holds symbols of the block sent under its number.
pub open spec fn tracks(s: Reassembly, sent: Sent) -> bool {
    forall|n: u64| #[trigger]
        s.pool.contains_key(n) ==> {
            &&& block::receives(s.pool[n], sent.symbols(n))
            &&& s.pool[n].setup.sbn == n % 256
        }
}

/// Block `n` lies where its eight bits on the wire tell it from every other:
/// within 128 blocks of the cursor, or, at the start of the stream, among the
/// first 256.
pub open spec fn in_sight(s: Reassembly, n: u64) -> bool {
    if s.started {
        s.cursor - 128 <= n <= s.cursor + 127
    } else {
        n < 256
    }
}

/// A packet that crosses the link undamaged is read as the frame that was sent.
pub proof fn law_packet_crosses_the_link(sent: Sent, n: u64, esi: u32, pid: u16, cc: u8)
    requires
        sent.encodable(n),
        pid < 0x2000,
        cc < 16,
        sent.packet(n, esi).id.valid(),
        sent.packet(n, esi).data.len() == SYMBOL_SIZE,
    ensures
        frame::heard(frame::data_packet(pid, cc, sent.oti(n), sent.packet(n, esi)), pid)
            == Heard::Frame(sent.frame(n, esi, cc)),
{
    lemma_block_size(sent, n);
    let (oti, packet) = (sent.oti(n), sent.packet(n, esi));
    assert((pid as int % 0x2000) as u16 == pid);
    assert((cc as int % 16) as u8 == cc);
    frame::law_data_packet_roundtrip(pid, cc, oti, packet);
}

/// What the encoder announces for a block that it can encode is sane.
pub proof fn lemma_block_size(sent: Sent, n: u64)
    requires
        sent.encodable(n),
    ensures
        sent.oti(n).valid(),
        sent.oti(n).transfer_length == sent.symbols(n).len() * SYMBOL_SIZE,
        block::sane(sent.oti(n)),
        sent.oti(n).transfer_length as int / SYMBOL_SIZE as int == sent.symbols(n).len(),
{
    let (k, t) = (sent.symbols(n).len() as int, SYMBOL_SIZE as int);
    assert(k * t == k * 163) by (nonlinear_arith)
        requires
            t == 163,
    ;
}

/// A block in sight is the one that its eight bits name.
pub proof fn lemma_target(s: Reassembly, n: u64)
    requires
        s.valid(),
        s.has_room(),
        in_sight(s, n),
    ensures
        s.target((n % 256) as u8) == n,
{
    let sbn = (n % 256) as u8;
    tracking::law_unwrap_inverts_wrapping(s.opened(sbn).cursor, n as int);
}

/// Whatever arrives, in whatever order, the open blocks hold what was sent:
/// frames of blocks in sight add symbols of the right block, and stuffing,
/// damaged packets and garbage add nothing.
pub proof fn law_decoder_tracks_the_stream(
    s: Reassembly,
    sent: Sent,
    heard: Heard,
    n: u64,
    esi: u32,
    now: u128,
)
    requires
        s.valid(),
        s.has_room(),
        tracks(s, sent),
        s.taken(heard, now).valid(),
        plausible(s, Event::Packet { heard, n, esi, now }, sent),
    ensures
        tracks(s.taken(heard, now), sent),
        s.intake(heard) matches Intake::Accepted { block } ==> block == n,
{
    let next = s.taken(heard, now);
    if let Heard::Frame(Frame::Data { cc, oti, id, symbol }) = heard {
        if s.intake(heard) is Accepted {
            lemma_target(s, n);
            lemma_block_size(sent, n);
            let target = s.target_block(oti, id.sbn, now);
            let after = next.pool[n];
            assert(after == target.ingested(fec::Packet { id, data: symbol }));
            let symbols = sent.symbols(n);
            assert(codec::received_from(target.received, symbols));
            assert forall|j: int| 0 <= j < after.received.len() implies (
            #[trigger] after.received[j]).1 == codec::encoding_symbol(
                symbols,
                after.received[j].0 as nat,
            ) by {
                if j < target.received.len() {
                    assert(after.received[j] == target.received[j]);
                }
            }
            block::lemma_sane_is_decodable(oti);
            assert(codec::received_from(after.received, symbols));
            assert(next.pool.contains_key(n));
            assert(target.setup.k == symbols.len());
            assert(block::receives(after, symbols));
            assert forall|m: u64| #[trigger] next.pool.contains_key(m) implies block::receives(
                next.pool[m],
                sent.symbols(m),
            ) && next.pool[m].setup.sbn == m % 256 by {
                if m != n {
                    assert(s.pool.contains_key(m));
                }
            }
        } else {
            assert(next.pool == s.pool);
        }
    }
}

/// A packet damaged on the way is an erasure: it is counted as unparseable and
/// changes nothing else, but that it is not missed in the next gap.
pub proof fn law_damaged_packet_is_an_erasure(
    s: Reassembly,
    sent: Seq<u8>,
    got: Seq<u8>,
    at: int,
    now: u128,
)
    requires
        frame::heard(sent, s.pid) is Frame,
        got.len() == sent.len(),
        got != sent,
        TS_HEADER_SIZE <= at <= TS_HEADER_SIZE + FRAME_CRC_OFFSET - 4 || at == TS_HEADER_SIZE
            + FRAME_CRC_OFFSET,
        forall|i: int| 0 <= i < sent.len() && !(at <= i < at + 4) ==> got[i] == sent[i],
    ensures
        s.taken(frame::heard(got, s.pid), now) == s.passed().unparseable(),
{
    frame::law_damage_is_rejected(sent, got, s.pid, at);
}

/// What an emission may say of the block sent under its number. A decoded block
/// is that block. A best effort has its length, and each of its bytes or a zero.
/// Where nothing came in, there are zeros.
pub open spec fn faithful(e: Emitted, sent: Sent) -> bool {
    let data = sent.data(e.number());
    match e {
        Emitted::Decoded { .. } => e.data() == data,
        Emitted::BestEffort { .. } => {
            &&& e.data().len() == data.len()
            &&& forall|i: int|
                0 <= i < data.len() ==> #[trigger] e.data()[i] == data[i] || e.data()[i] == 0
        },
        Emitted::Zero { .. } => e.data() == Seq::new(DEFAULT_BLOCK_SIZE as nat, |i: int| 0u8),
    }
}

/// The output is the stream: block by block in order, none twice and none left
/// out, each faithful to the block sent. A block whose source symbols are all
/// there goes out whole.
pub proof fn law_output_is_the_stream(s: Reassembly, sent: Sent, now: u128)
    requires
        s.valid(),
        s.has_room(),
        tracks(s, sent),
    ensures
        s.due(now) matches Some(e) ==> {
            &&& e.number() == s.cursor
            &&& s.emitted(e).cursor == s.cursor + 1
            &&& tracks(s.emitted(e), sent)
            &&& faithful(e, sent)
        },
        s.pool.contains_key(s.cursor) && codec::all_sources_received(
            s.pool[s.cursor].received,
            s.pool[s.cursor].setup.k,
        ) ==> s.due(now) == Some(
            Emitted::Decoded { block: s.cursor, data: sent.data(s.cursor) },
        ),
{
    if s.pool.contains_key(s.cursor) {
        block::law_completed_block_is_the_block_sent(s.pool[s.cursor], sent.symbols(s.cursor));
        block::law_best_effort_is_the_block_with_gaps(s.pool[s.cursor], sent.symbols(s.cursor));
    }
    if let Some(e) = s.due(now) {
        let after = s.emitted(e);
        assert forall|m: u64| #[trigger] after.pool.contains_key(m) implies block::receives(
            after.pool[m],
            sent.symbols(m),
        ) && after.pool[m].setup.sbn == m % 256 by {
            assert(s.pool.contains_key(m));
        }
    }
}

/// Something that happens to a decoder.
pub enum Event {
    /// A packet comes in at time `now`. If it is a frame with data, it is taken for
    /// symbol `esi` of block `n`.
    Packet { heard: Heard, n: u64, esi: u32, now: u128 },
    /// The decoder is asked at time `now` for what is due.
    Ask { now: u128 },
}

/// The state after an event, and what was emitted.
pub open spec fn step(s: Reassembly, event: Event) -> (Reassembly, Seq<Emitted>) {
    match event {
        Event::Packet { heard, now, .. } => (s.taken(heard, now), Seq::empty()),
        Event::Ask { now } => match s.due(now) {
            Some(e) => (s.emitted(e), seq![e]),
            None => (s, Seq::empty()),
        },
    }
}

/// The state after `events`, and all that was emitted, in order.
pub open spec fn run(s: Reassembly, events: Seq<Event>) -> (Reassembly, Seq<Emitted>)
    decreases events.len(),
{
    if events.len() == 0 {
        (s, Seq::empty())
    } else {
        let (t, out) = run(s, events.drop_last());
        let (u, more) = step(t, events.last());
        (u, out + more)
    }
}

/// The event can happen on the link: a data frame that makes sense is one that
/// was sent, of a block in sight. Losses, repetitions, reordering, damage and
/// stuffing are all allowed.
pub open spec fn plausible(s: Reassembly, event: Event, sent: Sent) -> bool {
    match event {
        Event::Packet { heard: Heard::Frame(Frame::Data { cc, oti, id, symbol }), n, esi, .. } => {
            !block::sane(oti) || {
                &&& sent.encodable(n)
                &&& in_sight(s, n)
                &&& Frame::Data { cc, oti, id, symbol } == sent.frame(n, esi, cc)
            }
        },
        _ => true,
    }
}

/// The events can happen on the link one after the other, and no count runs over.
/// That every state on the way is valid is what the decoder's own contracts say.
pub open spec fn possible(s: Reassembly, events: Seq<Event>, sent: Sent) -> bool {
    &&& forall|i: int|
        0 <= i <= events.len() ==> {
            let t = (#[trigger] run(s, events.take(i))).0;
            t.valid() && t.has_room()
        }
    &&& forall|i: int|
        0 <= i < events.len() ==> plausible(run(s, events.take(i)).0, #[trigger] events[i], sent)
}

/// What holds of a possible run holds of all but its last event, and of that one.
pub proof fn lemma_possible(s: Reassembly, events: Seq<Event>, sent: Sent)
    requires
        possible(s, events, sent),
    ensures
        run(s, events).0.valid(),
        run(s, events).0.has_room(),
        events.len() > 0 ==> {
            &&& possible(s, events.drop_last(), sent)
            &&& plausible(run(s, events.drop_last()).0, events.last(), sent)
        },
{
    assert(events.take(events.len() as int) =~= events);
    let whole = run(s, events.take(events.len() as int)).0;
    if events.len() > 0 {
        let init = events.drop_last();
        assert forall|i: int| 0 <= i <= init.len() implies {
            let t = (#[trigger] run(s, init.take(i))).0;
            t.valid() && t.has_room()
        } by {
            assert(init.take(i) =~= events.take(i));
            let t = run(s, events.take(i)).0;
        }
        assert forall|i: int| 0 <= i < init.len() implies plausible(
            run(s, init.take(i)).0,
            #[trigger] init[i],
            sent,
        ) by {
            assert(init.take(i) =~= events.take(i));
            assert(init[i] == events[i]);
        }
        assert(events.take(init.len() as int) =~= init);
        assert(events.last() == events[init.len() as int]);
    }
}

/// Whatever happens on the link from a started stream on, what comes out is the
/// stream: its blocks from the cursor on, one after the other, each one faithful.
pub proof fn law_link_delivers_the_stream(s: Reassembly, events: Seq<Event>, sent: Sent)
    requires
        s.started,
        tracks(s, sent),
        possible(s, events, sent),
    ensures
        ({
            let (t, out) = run(s, events);
            &&& t.started
            &&& tracks(t, sent)
            &&& t.cursor == s.cursor + out.len()
            &&& forall|j: int|
                0 <= j < out.len() ==> (#[trigger] out[j]).number() == s.cursor + j && faithful(
                    out[j],
                    sent,
                )
        }),
    decreases events.len(),
{
    lemma_possible(s, events, sent);
    if events.len() > 0 {
        let init = events.drop_last();
        lemma_possible(s, init, sent);
        law_link_delivers_the_stream(s, init, sent);
        let (t, out) = run(s, init);
        match events.last() {
            Event::Packet { heard, n, esi, now } => {
                law_decoder_tracks_the_stream(t, sent, heard, n, esi, now);
                law_late_packets_change_nothing(t, heard, now);
            },
            Event::Ask { now } => {
                law_output_is_the_stream(t, sent, now);
            },
        }
    }
}

/// Blocks given up at the end are those of the stream too, whole or with gaps.
pub proof fn law_flush_is_the_stream(s: Reassembly, sent: Sent, n: u64)
    requires
        s.valid(),
        tracks(s, sent),
        s.pool.contains_key(n),
    ensures
        s.pool[n].completed() is Some ==> s.pool[n].as_is() == sent.data(n),
        s.pool[n].as_is().len() == sent.data(n).len(),
        forall|i: int|
            0 <= i < s.pool[n].as_is().len() ==> s.pool[n].as_is()[i] == 0 || #[trigger] s.pool[n].as_is()[i]
                == sent.data(n)[i],
        s.rest(n as int) == seq![s.pool[n].as_is()] + s.rest(n + 1),
{
    block::law_completed_block_is_the_block_sent(s.pool[n], sent.symbols(n));
    block::law_best_effort_is_the_block_with_gaps(s.pool[n], sent.symbols(n));
}

/// Nothing waits beyond the window: when no emission is due, no open block lies
/// `max_in_flight` or more past the cursor, so that no more than that many are
/// open. The block at the cursor is neither complete nor overdue; and if nothing
/// came for it, none of the blocks that wait for it is overdue either.
pub proof fn law_nothing_waits_beyond_the_window(s: Reassembly, now: u128)
    requires
        s.valid(),
        s.due(now) is None,
    ensures
        forall|n: u64| #[trigger] s.pool.contains_key(n) ==> n < s.cursor + s.max_in_flight,
        s.pool.len() <= s.max_in_flight,
        s.pool.contains_key(s.cursor) ==> {
            &&& s.pool[s.cursor].completed() is None
            &&& clock::elapsed(s.pool[s.cursor].first_seen, now) < s.timeout
        },
        s.started && !s.pool.contains_key(s.cursor) ==> {
            &&& s.highest_seen < s.cursor + s.max_in_flight
            &&& forall|n: u64| #[trigger]
                s.pool.contains_key(n) ==> clock::elapsed(s.pool[n].first_seen, now) < s.timeout
        },
{
    assert(!s.forced());
    lemma_open_blocks(s, s.cursor as int, s.cursor + s.max_in_flight);
}

/// At no time are more than 128 blocks open.
pub proof fn law_pool_is_bounded(s: Reassembly)
    requires
        s.valid(),
    ensures
        s.pool.len() <= 128,
{
    lemma_open_blocks(s, s.cursor as int, s.cursor + 128);
}

proof fn lemma_open_blocks(s: Reassembly, lo: int, hi: int)
    requires
        s.pool.dom().finite(),
        lo <= hi,
        forall|n: u64| #[trigger] s.pool.contains_key(n) ==> lo <= n < hi,
    ensures
        s.pool.len() <= hi - lo,
{
    let dom = s.pool.dom();
    let f = |n: u64| n as int;
    let range = vstd::set_lib::set_int_range(lo, hi);
    vstd::set_lib::lemma_int_range(lo, hi);
    assert(dom.map(f).subset_of(range));
    vstd::set_lib::lemma_map_size(dom, dom.map(f), f);
    vstd::set_lib::lemma_len_subset(dom.map(f), range);
}

/// Every packet is counted exactly once: as taken in, as stuffing, as redundant
/// or as unparseable. Losses are counted from the counters of packets that could
/// be read, and never from one that could not.
pub proof fn law_every_packet_counts_once(s: Reassembly, heard: Heard, now: u128)
    requires
        s.valid(),
        s.has_room(),
        decoder::on_wire(heard),
        !(s.intake(heard) is Refused),
    ensures
        ({
            let (a, b) = (s.stats, s.taken(heard, now).stats);
            &&& b.pkts_ok + b.noops + b.pkts_redundant + b.pkts_unparseable == a.pkts_ok + a.noops
                + a.pkts_redundant + a.pkts_unparseable + 1
            &&& heard matches Heard::Frame(Frame::Noop { cc }) ==> b.pkts_lost == a.pkts_lost
                + s.lost_before(cc)
            &&& heard matches Heard::Frame(Frame::Data { cc, .. }) ==> b.pkts_lost == a.pkts_lost
                + s.lost_before(cc)
            &&& !(heard is Frame) ==> b.pkts_lost == a.pkts_lost
        }),
{
}

/// The state after packets of the stream that came but could not be read.
pub open spec fn after_garbled(s: Reassembly, errors: Seq<ParseError>, now: u128) -> Reassembly
    decreases errors.len(),
{
    if errors.len() == 0 {
        s
    } else {
        after_garbled(s, errors.drop_last(), now).taken(Heard::Garbled(errors.last()), now)
    }
}

/// A packet that came but could not be read is no loss. After a frame with
/// counter `cc` let `lost` packets be lost and others come in unreadable, in
/// whatever order, before the next frame can be read. All but `surplus` of the
/// unreadable ones have a place in the series; these others, such as a damaged
/// packet that is repeated, do not. As long as the series can tell, with fewer
/// than 16 missing from it, no more is counted as lost than was lost; exactly
/// that, where there is no surplus.
pub proof fn law_unreadable_packets_are_not_lost(
    s: Reassembly,
    cc: u8,
    errors: Seq<ParseError>,
    surplus: nat,
    lost: nat,
    now: u128,
)
    requires
        cc < 16,
        s.last_cc == Some(cc),
        s.unread == 0,
        surplus <= errors.len(),
        errors.len() - surplus + lost < 16,
    ensures
        ({
            let t = after_garbled(s, errors, now);
            let next = ((cc + (errors.len() - surplus) + lost + 1) % 16) as u8;
            &&& t.totals.lost_packets == s.totals.lost_packets
            &&& t.stats.pkts_lost == s.stats.pkts_lost
            &&& t.lost_before(next) <= lost
            &&& surplus == 0 ==> t.lost_before(next) == lost
        }),
{
    let gap = (errors.len() - surplus + lost) as nat;
    let next = ((cc + (errors.len() - surplus) + lost + 1) % 16) as u8;
    let t = after_garbled(s, errors, now);
    lemma_after_garbled(s, errors, now);
    assert(tracking::missed(t.last_cc, next) == gap) by {
        tracking::law_gap_counts_losses(cc, gap);
        assert(cc + (errors.len() - surplus) + lost + 1 == cc + gap + 1);
    }
}

/// An unreadable packet, be it one too many, never makes a loss: whatever came
/// before and whatever frame comes next, no more is counted with it than without.
pub proof fn law_unreadable_packet_adds_no_loss(s: Reassembly, e: ParseError, cc: u8, now: u128)
    requires
        s.valid(),
    ensures
        s.taken(Heard::Garbled(e), now).totals == s.totals,
        s.taken(Heard::Garbled(e), now).stats.pkts_lost == s.stats.pkts_lost,
        s.taken(Heard::Garbled(e), now).lost_before(cc) <= s.lost_before(cc),
{
}

proof fn lemma_after_garbled(s: Reassembly, errors: Seq<ParseError>, now: u128)
    requires
        s.unread == 0,
    ensures
        after_garbled(s, errors, now).last_cc == s.last_cc,
        after_garbled(s, errors, now).unread == if errors.len() < 15 {
            errors.len() as int
        } else {
            15
        },
        after_garbled(s, errors, now).totals == s.totals,
        after_garbled(s, errors, now).stats.pkts_lost == s.stats.pkts_lost,
    decreases errors.len(),
{
    if errors.len() > 0 {
        lemma_after_garbled(s, errors.drop_last(), now);
    }
}

/// Only emissions move the cursor of a stream that has started, and a packet
/// for a block already emitted changes nothing but counts.
pub proof fn law_late_packets_change_nothing(s: Reassembly, heard: Heard, now: u128)
    requires
        s.started,
    ensures
        s.taken(heard, now).cursor == s.cursor,
        s.intake(heard) is Redundant ==> s.taken(heard, now).pool == s.pool && s.taken(
            heard,
            now,
        ).highest_seen == s.highest_seen,
{
}

/// What the encoder sends for the stream's blocks in turn are the packets that
/// the decoder takes them for: the pipeline's block number follows the stream's,
/// modulo 256.
pub proof fn law_pipeline_sends_the_stream(
    p: Pipeline,
    sent: Sent,
    n: u64,
    data: Seq<u8>,
    esi: u32,
    now: u128,
)
    requires
        p.valid(),
        p.sbn == n % 256,
        data.len() == p.oti.transfer_length,
        sent.symbols(n) == block::symbols_of(data),
    ensures
        sent.encodable(n),
        sent.data(n) == data,
        sent.oti(n) == p.oti,
        sent.packet(n, esi) == p.encoded(data).packet(esi as nat),
        p.sent(now).sbn == (n + 1) % 256,
{
    encoder::lemma_block_size_fits(p.oti.transfer_length);
    block::law_symbols_make_up_the_data(data, Seq::empty());
    let (s, t) = (data.len() as int, SYMBOL_SIZE as int);
    assert(s / t >= 1 && s == s / t * t) by (nonlinear_arith)
        requires
            s % t == 0,
            s > 0,
            t > 0,
    ;
}

} // verus!
