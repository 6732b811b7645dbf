//! From what arrives to what comes out: when the packets that arrive suffice for
//! every block to come through.

use crate::assemble;
use crate::block;
use crate::block::Block;
use crate::clock;
use crate::decoder::{Emitted, Intake, Reassembly};
use crate::delivery;
use crate::fec;
use crate::frame::{Frame, Heard};
use crate::stream;
use crate::stream::{Event, Sent};
use crate::ts::SYMBOL_SIZE;
use vstd::prelude::*;

verus! {

/// The event is the arrival of a data frame of block `n` that makes sense.
pub open spec fn data_for(event: Event, n: u64) -> bool {
    match event {
        Event::Packet { heard: Heard::Frame(Frame::Data { oti, .. }), n: m, .. } => m == n
            && block::sane(oti),
        _ => false,
    }
}

/// The packet that such a frame carries.
pub open spec fn packet_in(event: Event) -> fec::Packet
    recommends
        exists|n: u64| data_for(event, n),
{
    match event {
        Event::Packet { heard: Heard::Frame(Frame::Data { id, symbol, .. }), .. } => fec::Packet {
            id,
            data: symbol,
        },
        _ => arbitrary(),
    }
}

/// The packets of block `n` that arrive, in order.
pub open spec fn arrived(events: Seq<Event>, n: u64) -> Seq<fec::Packet>
    decreases events.len(),
{
    if events.len() == 0 {
        Seq::empty()
    } else if data_for(events.last(), n) {
        arrived(events.drop_last(), n).push(packet_in(events.last()))
    } else {
        arrived(events.drop_last(), n)
    }
}

/// What a block in reception becomes of these packets of block `n`.
pub open spec fn block_from(sent: Sent, n: u64, packets: Seq<fec::Packet>) -> Block {
    block::after_packets(Block::fresh((n % 256) as u8, sent.oti(n), 0), packets)
}

/// The packets of block `n` that arrive are enough: RaptorQ recovers the block
/// from them, or all its source packets are there.
pub open spec fn enough(events: Seq<Event>, n: u64, sent: Sent) -> bool {
    let packets = arrived(events, n);
    ||| block_from(sent, n, packets).completed() is Some
    ||| packets.len() > 0 && forall|esi: u32|
        esi < sent.symbols(n).len() ==> #[trigger] block::packet_ids(packets).contains(esi)
}

/// The stream arrives from block 0 on, and never runs too far ahead: before a
/// packet of block `n` arrives, enough has arrived of every block that lies
/// `window` or more before it.
pub open spec fn in_order(events: Seq<Event>, sent: Sent, window: u64) -> bool {
    &&& forall|i: int, n: u64|
        0 <= i < events.len() && #[trigger] data_for(events[i], n) && n != 0 ==> arrived(
            events.take(i),
            0,
        ).len() > 0
    &&& forall|i: int, n: u64, m: u64|
        0 <= i < events.len() && #[trigger] data_for(events[i], n) && m + window <= n
            ==> #[trigger] enough(events.take(i), m, sent)
}

/// A stream whose blocks come one after the other, enough of each before the
/// next begins, is in order for every window of at least one block.
pub proof fn law_blocks_one_by_one_are_in_order(events: Seq<Event>, sent: Sent, window: u64)
    requires
        window >= 1,
        forall|i: int, n: u64, m: u64|
            0 <= i < events.len() && #[trigger] data_for(events[i], n) && m < n
                ==> #[trigger] enough(events.take(i), m, sent),
    ensures
        in_order(events, sent, window),
{
    assert forall|i: int, n: u64|
        0 <= i < events.len() && #[trigger] data_for(events[i], n) && n != 0 implies arrived(
        events.take(i),
        0,
    ).len() > 0 by {
        let before = events.take(i);
        assert(enough(before, 0, sent));
        assert(before.take(before.len() as int) =~= before);
        lemma_enough_stays(before, before.len() as int, 0, sent);
    }
}

/// No timeout has anything given up: whenever the decoder is asked while an open
/// block is overdue, the block at the cursor is complete.
pub open spec fn in_time(s: Reassembly, events: Seq<Event>) -> bool {
    forall|i: int|
        0 <= i < events.len() ==> (#[trigger] events[i] matches Event::Ask { now } ==> {
            let t = stream::run(s, events.take(i)).0;
            t.overdue(now) ==> t.pool.contains_key(t.cursor) && t.pool[t.cursor].completed() is Some
        })
}

/// The blocks are the same but for the time of their first packet.
spec fn same_but_time(a: Block, b: Block) -> bool {
    a.setup == b.setup && a.received == b.received
}

/// How the state of a decoder follows from what has arrived.
spec fn serves(t: Reassembly, out: Seq<Emitted>, events: Seq<Event>, sent: Sent) -> bool {
    &&& t.cursor == out.len()
    &&& forall|j: int| 0 <= j < out.len() ==> (#[trigger] out[j]) is Decoded
    &&& !t.started ==> forall|n: u64| (#[trigger] arrived(events, n)).len() == 0
    &&& t.started ==> arrived(events, t.highest_seen).len() > 0
    &&& forall|m: u64| m < t.cursor ==> #[trigger] enough(events, m, sent)
    &&& forall|m: u64|
        m >= t.cursor ==> (#[trigger] t.pool.contains_key(m) <==> arrived(events, m).len() > 0)
    &&& forall|m: u64| #[trigger]
        t.pool.contains_key(m) ==> same_but_time(
            t.pool[m],
            block_from(sent, m, arrived(events, m)),
        )
}

proof fn lemma_arrived(events: Seq<Event>, n: u64)
    ensures
        arrived(events, n).len() <= events.len(),
        arrived(events, n).len() > 0 ==> exists|i: int|
            0 <= i < events.len() && data_for(#[trigger] events[i], n),
    decreases events.len(),
{
    if events.len() > 0 {
        let init = events.drop_last();
        lemma_arrived(init, n);
        if data_for(events.last(), n) {
            assert(data_for(events[events.len() - 1], n));
        } else if arrived(events, n).len() > 0 {
            let i = choose|i: int| 0 <= i < init.len() && data_for(#[trigger] init[i], n);
            assert(data_for(events[i], n));
        }
    }
}

/// Enough stays enough.
proof fn lemma_enough_stays(events: Seq<Event>, p: int, n: u64, sent: Sent)
    requires
        0 <= p <= events.len(),
        enough(events.take(p), n, sent),
    ensures
        enough(events, n, sent),
        arrived(events, n).len() > 0,
    decreases events.len() - p,
{
    if p == events.len() {
        assert(events.take(p) =~= events);
    } else {
        let init = events.drop_last();
        assert(init.take(p) =~= events.take(p));
        lemma_enough_stays(init, p, n, sent);
        if data_for(events.last(), n) {
            let (a, b) = (arrived(init, n), arrived(events, n));
            assert(b.drop_last() =~= a);
            let f = |p: fec::Packet| p.id.esi;
            assert forall|esi: u32| block::packet_ids(a).contains(esi) implies block::packet_ids(
                b,
            ).contains(esi) by {
                let ids = a.map_values(f);
                let j = choose|j: int| 0 <= j < ids.len() && ids[j] == esi;
                assert(b.map_values(f)[j] == esi);
            }
        }
    }
}

/// An open block for which enough has arrived is complete.
proof fn lemma_enough_completes(t: Reassembly, events: Seq<Event>, sent: Sent, m: u64)
    requires
        t.valid(),
        stream::tracks(t, sent),
        t.pool.contains_key(m),
        same_but_time(t.pool[m], block_from(sent, m, arrived(events, m))),
        enough(events, m, sent),
    ensures
        t.pool[m].completed() is Some,
{
    let packets = arrived(events, m);
    let b = block_from(sent, m, packets);
    assert(b.completed() == t.pool[m].completed());
    if b.completed() is None {
        assert(b.valid());
        assert(b.setup.k == sent.symbols(m).len());
        block::lemma_all_sources_complete((m % 256) as u8, sent.oti(m), 0, packets);
    }
}

proof fn lemma_ask(
    t: Reassembly,
    out: Seq<Emitted>,
    events: Seq<Event>,
    sent: Sent,
    now: u128,
)
    requires
        t.valid(),
        t.has_room(),
        stream::tracks(t, sent),
        serves(t, out, events, sent),
        in_order(events, sent, t.max_in_flight),
        t.overdue(now) ==> t.pool.contains_key(t.cursor) && t.pool[t.cursor].completed() is Some,
    ensures
        ({
            let (u, more) = stream::step(t, Event::Ask { now });
            serves(u, out + more, events.push(Event::Ask { now }), sent)
        }),
{
    let after = events.push(Event::Ask { now });
    assert(after.drop_last() =~= events);
    assert forall|n: u64| #[trigger] arrived(after, n) == arrived(events, n) by {
        assert(!data_for(after.last(), n));
    }
    assert forall|m: u64| #[trigger] enough(after, m, sent) == enough(events, m, sent) by {
        assert(arrived(after, m) == arrived(events, m));
    }
    let far = |n: u64| n >= t.cursor + t.max_in_flight && arrived(events, n).len() > 0;
    assert forall|n: u64| #[trigger] far(n) implies enough(events, t.cursor, sent) && arrived(
        events,
        t.cursor,
    ).len() > 0 by {
        lemma_arrived(events, n);
        let i = choose|i: int| 0 <= i < events.len() && data_for(#[trigger] events[i], n);
        assert(enough(events.take(i), t.cursor, sent));
        lemma_enough_stays(events, i, t.cursor, sent);
    }
    if t.forced() {
        let n = choose|n: u64| #[trigger]
            t.pool.contains_key(n) && n >= t.cursor + t.max_in_flight;
        assert(far(n));
    }
    if t.started && t.highest_seen >= t.cursor + t.max_in_flight {
        assert(far(t.highest_seen));
    }
    if t.pool.contains_key(t.cursor) {
        let head = t.pool[t.cursor];
        if enough(events, t.cursor, sent) {
            lemma_enough_completes(t, events, sent, t.cursor);
        }
        if head.completed() is None {
            assert(!t.forced());
            if clock_says_overdue(t, now) {
                assert(t.overdue(now));
            }
            assert(t.due(now) is None);
        } else {
            assert(enough(events, t.cursor, sent)) by {
                assert(same_but_time(
                    head,
                    block_from(sent, t.cursor, arrived(events, t.cursor)),
                ));
            }
        }
    } else {
        assert(t.due(now) is None);
    }
    let (u, more) = stream::step(t, Event::Ask { now });
    if more.len() == 0 {
        assert(out + more =~= out);
    } else {
        assert(u.pool == t.pool.remove(t.cursor));
        assert forall|m: u64| m < u.cursor implies #[trigger] enough(after, m, sent) by {
            assert(enough(events, m, sent));
        }
        assert forall|m: u64| m >= u.cursor implies (#[trigger] u.pool.contains_key(m)
            <==> arrived(after, m).len() > 0) by {
            assert(t.pool.contains_key(m) <==> arrived(events, m).len() > 0);
        }
        assert forall|m: u64| #[trigger] u.pool.contains_key(m) implies same_but_time(
            u.pool[m],
            block_from(sent, m, arrived(after, m)),
        ) by {
            assert(t.pool.contains_key(m));
        }
    }
}

/// The block at the cursor has been open for too long.
spec fn clock_says_overdue(t: Reassembly, now: u128) -> bool {
    clock::elapsed(t.pool[t.cursor].first_seen, now) >= t.timeout
}

proof fn lemma_packet(
    t: Reassembly,
    out: Seq<Emitted>,
    events: Seq<Event>,
    sent: Sent,
    event: Event,
)
    requires
        t.valid(),
        t.has_room(),
        stream::tracks(t, sent),
        serves(t, out, events, sent),
        event is Packet,
        stream::plausible(t, event, sent),
        forall|n: u64| #[trigger] data_for(event, n) && n != 0 ==> arrived(events, 0).len() > 0,
        events.len() < u32::MAX,
    ensures
        ({
            let (u, more) = stream::step(t, event);
            serves(u, out + more, events.push(event), sent)
        }),
{
    let after = events.push(event);
    assert(after.drop_last() =~= events);
    assert(out + Seq::<Emitted>::empty() =~= out);
    let u = stream::step(t, event).0;
    if let Event::Packet { heard, n, esi, now } = event {
        if !data_for(event, n) {
            assert forall|m: u64| #[trigger] arrived(after, m) == arrived(events, m) by {
                assert(!data_for(after.last(), m));
            }
            assert forall|m: u64| #[trigger] enough(after, m, sent) == enough(events, m, sent) by {
                assert(arrived(after, m) == arrived(events, m));
            }
            assert(u.pool == t.pool && u.cursor == t.cursor && u.highest_seen == t.highest_seen
                && u.started == t.started);
        } else if let Heard::Frame(Frame::Data { cc, oti, id, symbol }) = heard {
            let packet = fec::Packet { id, data: symbol };
            stream::lemma_block_size(sent, n);
            stream::lemma_target(t, n);
            lemma_arrived(events, n);
            assert(id.sbn == n % 256);
            assert(t.target(id.sbn) == n);
            assert(arrived(after, n) == arrived(events, n).push(packet));
            assert(arrived(after, n).drop_last() =~= arrived(events, n));
            assert forall|m: u64| m != n implies #[trigger] arrived(after, m) == arrived(
                events,
                m,
            ) by {
                assert(!data_for(after.last(), m));
            }
            assert forall|m: u64| enough(events, m, sent) implies #[trigger] enough(
                after,
                m,
                sent,
            ) by {
                assert(after.take(events.len() as int) =~= events);
                lemma_enough_stays(after, events.len() as int, m, sent);
            }
            if !t.started {
                assert(arrived(events, 0).len() == 0);
                assert(n == 0);
            }
            assert(t.opened(id.sbn).cursor == t.cursor);
            if n >= t.cursor {
                let b = block_from(sent, n, arrived(events, n));
                block::lemma_packets_taken((n % 256) as u8, sent.oti(n), 0, arrived(events, n));
                let target = t.target_block(oti, id.sbn, now);
                assert(same_but_time(target, b)) by {
                    if !t.pool.contains_key(n) {
                        assert(arrived(events, n) =~= Seq::empty());
                    }
                }
                assert(t.target_block(oti, id.sbn, 0).accepts(id));
                assert(t.intake(heard) == (Intake::Accepted { block: n }));
                assert(u.pool == t.pool.insert(n, target.ingested(packet)));
                assert(same_but_time(target.ingested(packet), b.ingested(packet)));
                assert(block_from(sent, n, arrived(after, n)) == b.ingested(packet));
                assert forall|m: u64| m >= u.cursor implies (#[trigger] u.pool.contains_key(m)
                    <==> arrived(after, m).len() > 0) by {
                    assert(m != n ==> (t.pool.contains_key(m) <==> arrived(events, m).len() > 0));
                }
                assert forall|m: u64| #[trigger] u.pool.contains_key(m) implies same_but_time(
                    u.pool[m],
                    block_from(sent, m, arrived(after, m)),
                ) by {
                    if m != n {
                        assert(t.pool.contains_key(m));
                    }
                }
                assert forall|m: u64| m < u.cursor implies #[trigger] enough(after, m, sent) by {
                    assert(enough(events, m, sent));
                }
            } else {
                assert(t.intake(heard) is Redundant);
                assert(u.pool == t.pool);
                assert forall|m: u64| m >= u.cursor implies (#[trigger] u.pool.contains_key(m)
                    <==> arrived(after, m).len() > 0) by {
                    assert(t.pool.contains_key(m) <==> arrived(events, m).len() > 0);
                }
                assert forall|m: u64| m < u.cursor implies #[trigger] enough(after, m, sent) by {
                    assert(enough(events, m, sent));
                }
            }
        }
    }
}

/// What is said of the arrivals holds of all but the last event too.
proof fn lemma_in_order(s: Reassembly, events: Seq<Event>, sent: Sent, window: u64)
    requires
        events.len() > 0,
        in_order(events, sent, window),
        in_time(s, events),
    ensures
        in_order(events.drop_last(), sent, window),
        in_time(s, events.drop_last()),
{
    let init = events.drop_last();
    assert forall|i: int, n: u64|
        0 <= i < init.len() && #[trigger] data_for(init[i], n) && n != 0 implies arrived(
        init.take(i),
        0,
    ).len() > 0 by {
        assert(init.take(i) =~= events.take(i));
        assert(data_for(events[i], n));
    }
    assert forall|i: int, n: u64, m: u64|
        0 <= i < init.len() && #[trigger] data_for(init[i], n) && m + window
            <= n implies #[trigger] enough(init.take(i), m, sent) by {
        assert(init.take(i) =~= events.take(i));
        assert(data_for(events[i], n));
        assert(enough(events.take(i), m, sent));
    }
    assert forall|i: int| 0 <= i < init.len() implies (#[trigger] init[i] matches Event::Ask {
        now,
    } ==> {
        let t = stream::run(s, init.take(i)).0;
        t.overdue(now) ==> t.pool.contains_key(t.cursor) && t.pool[t.cursor].completed() is Some
    }) by {
        assert(init.take(i) =~= events.take(i));
        assert(init[i] == events[i]);
    }
}

proof fn lemma_serves(
    pid: u16,
    timeout: u128,
    max_in_flight: u64,
    events: Seq<Event>,
    sent: Sent,
)
    requires
        stream::possible(Reassembly::initial(pid, timeout, max_in_flight), events, sent),
        in_order(events, sent, max_in_flight),
        in_time(Reassembly::initial(pid, timeout, max_in_flight), events),
        events.len() <= u32::MAX,
    ensures
        ({
            let (t, out) = stream::run(Reassembly::initial(pid, timeout, max_in_flight), events);
            &&& serves(t, out, events, sent)
            &&& t.max_in_flight == max_in_flight
        }),
    decreases events.len(),
{
    let s = Reassembly::initial(pid, timeout, max_in_flight);
    if events.len() > 0 {
        let init = events.drop_last();
        let last = events.last();
        stream::lemma_possible(s, events, sent);
        stream::lemma_possible(s, init, sent);
        lemma_in_order(s, events, sent, max_in_flight);
        lemma_serves(pid, timeout, max_in_flight, init, sent);
        delivery::law_fresh_decoder_delivers_the_stream(pid, timeout, max_in_flight, init, sent);
        let (t, out) = stream::run(s, init);
        assert(init.push(last) =~= events);
        assert(events.take(init.len() as int) =~= init);
        assert(last == events[init.len() as int]);
        match last {
            Event::Ask { now } => {
                lemma_ask(t, out, init, sent, now);
            },
            Event::Packet { .. } => {
                assert forall|n: u64| #[trigger] data_for(last, n) && n != 0 implies arrived(
                    init,
                    0,
                ).len() > 0 by {
                    assert(data_for(events[init.len() as int], n));
                }
                lemma_packet(t, out, init, sent, last);
            },
        }
    }
}

/// Enough packets bring every block through. Let the stream arrive in order, as
/// far as the window of open blocks goes, and in time, with packets lost,
/// repeated or damaged, as long as enough arrive of each of its `count` blocks:
/// then every block is emitted decoded, or is open and complete at the end.
pub proof fn law_enough_packets_bring_all_blocks(
    pid: u16,
    timeout: u128,
    max_in_flight: u64,
    events: Seq<Event>,
    sent: Sent,
    count: nat,
)
    requires
        stream::possible(Reassembly::initial(pid, timeout, max_in_flight), events, sent),
        in_order(events, sent, max_in_flight),
        in_time(Reassembly::initial(pid, timeout, max_in_flight), events),
        events.len() <= u32::MAX,
        forall|i: int, n: u64|
            0 <= i < events.len() && #[trigger] data_for(events[i], n) ==> n < count,
        forall|n: u64| n < count ==> #[trigger] enough(events, n, sent),
    ensures
        ({
            let s = Reassembly::initial(pid, timeout, max_in_flight);
            let (t, out) = stream::run(s, events);
            &&& delivery::all_came_through(t, out, count)
            &&& delivery::first_block(s, events) == if count > 0 {
                Some(0u64)
            } else {
                None
            }
        }),
{
    let s = Reassembly::initial(pid, timeout, max_in_flight);
    let (t, out) = stream::run(s, events);
    stream::lemma_possible(s, events, sent);
    lemma_serves(pid, timeout, max_in_flight, events, sent);
    delivery::law_fresh_decoder_delivers_the_stream(pid, timeout, max_in_flight, events, sent);
    assert forall|n: u64| arrived(events, n).len() > 0 implies n < count by {
        lemma_arrived(events, n);
        let i = choose|i: int| 0 <= i < events.len() && data_for(#[trigger] events[i], n);
        assert(data_for(events[i], n));
    }
    assert forall|n: u64| #[trigger] enough(events, n, sent) implies arrived(events, n).len() > 0 by {
        assert(events.take(events.len() as int) =~= events);
        lemma_enough_stays(events, events.len() as int, n, sent);
    }
    assert forall|n: u64| #[trigger] t.pool.contains_key(n) implies n < count
        && t.pool[n].completed() is Some by {
        assert(arrived(events, n).len() > 0);
        assert(enough(events, n, sent));
        lemma_enough_completes(t, events, sent, n);
    }
    assert forall|n: u64| t.cursor <= n < count implies #[trigger] t.pool.contains_key(n) by {
        assert(enough(events, n, sent));
    }
    if t.cursor > 0 {
        assert(enough(events, (t.cursor - 1) as u64, sent));
    }
    if count > 0 {
        assert(enough(events, 0u64, sent));
        assert(arrived(events, 0u64).len() > 0);
    } else {
        assert(arrived(events, t.highest_seen).len() == 0);
    }
}

/// The decoder gives back what the encoder was given, as far as can be told from
/// what arrives. Let the stream be the input `x` in blocks of `size` bytes, let
/// it arrive in order and in time, and let enough packets arrive of every block:
/// then the output, with what is given up at the end, is `x`, followed by the
/// zeros that fill its last block.
pub proof fn law_enough_packets_return_the_input(
    pid: u16,
    timeout: u128,
    max_in_flight: u64,
    events: Seq<Event>,
    sent: Sent,
    x: Seq<u8>,
    size: nat,
)
    requires
        size > 0,
        size % SYMBOL_SIZE as nat == 0,
        delivery::carries_input(sent, x, size),
        stream::possible(Reassembly::initial(pid, timeout, max_in_flight), events, sent),
        in_order(events, sent, max_in_flight),
        in_time(Reassembly::initial(pid, timeout, max_in_flight), events),
        events.len() <= u32::MAX,
        forall|i: int, n: u64|
            0 <= i < events.len() && #[trigger] data_for(events[i], n) ==> n
                < assemble::blocks_of(x, size).len(),
        forall|n: u64|
            n < assemble::blocks_of(x, size).len() ==> #[trigger] enough(events, n, sent),
    ensures
        ({
            let s = Reassembly::initial(pid, timeout, max_in_flight);
            let all = delivery::chunk_data(delivery::output(s, events));
            &&& all == assemble::blocks_of(x, size)
            &&& x.len() <= all.flatten().len() < x.len() + size
            &&& all.flatten().len() == all.len() * size
            &&& all.flatten().take(x.len() as int) == x
            &&& forall|i: int| x.len() <= i < all.flatten().len() ==> all.flatten()[i] == 0
        }),
{
    let count = assemble::blocks_of(x, size).len();
    law_enough_packets_bring_all_blocks(pid, timeout, max_in_flight, events, sent, count);
    delivery::law_link_returns_the_input(pid, timeout, max_in_flight, events, sent, x, size);
}

} // verus!
