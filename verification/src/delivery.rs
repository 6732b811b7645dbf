//! What comes out of a decoder over a whole run, from its first packet to the
//! blocks that it gives up at the end.

use crate::assemble;
use crate::block;
use crate::decoder::{Emitted, Intake, Reassembly};
use crate::frame::{Frame, Heard};
use crate::stream;
use crate::stream::{Event, Sent};
use crate::ts::{DEFAULT_BLOCK_SIZE, SYMBOL_SIZE};
use vstd::prelude::*;

verus! {

/// The block number in the first data frame that was taken in.
pub open spec fn first_block(s: Reassembly, events: Seq<Event>) -> Option<u64>
    decreases events.len(),
{
    if events.len() == 0 {
        None
    } else {
        match first_block(s, events.drop_last()) {
            Some(n) => Some(n),
            None => match events.last() {
                Event::Packet { heard, .. } => match stream::run(
                    s,
                    events.drop_last(),
                ).0.intake(heard) {
                    Intake::Accepted { block } => Some(block),
                    _ => None,
                },
                Event::Ask { .. } => None,
            },
        }
    }
}

/// Whatever happens on the link to a fresh decoder: nothing comes out before a
/// data frame was taken in, and from then on the stream comes out, from that
/// frame's block on, one block after the other, each one faithful.
#[verifier::rlimit(40)]
pub proof fn law_fresh_decoder_delivers_the_stream(
    pid: u16,
    timeout: u128,
    max_in_flight: u64,
    events: Seq<Event>,
    sent: Sent,
)
    requires
        stream::possible(Reassembly::initial(pid, timeout, max_in_flight), events, sent),
    ensures
        ({
            let s = Reassembly::initial(pid, timeout, max_in_flight);
            let (t, out) = stream::run(s, events);
            let first = first_block(s, events);
            &&& stream::tracks(t, sent)
            &&& t.started <==> first is Some
            &&& !t.started ==> out.len() == 0 && t.pool =~= Map::empty()
            &&& first matches Some(n) ==> {
                &&& n < 256
                &&& t.cursor == n + out.len()
                &&& forall|j: int|
                    0 <= j < out.len() ==> (#[trigger] out[j]).number() == n + j
                        && stream::faithful(out[j], sent)
                &&& out.len() == 0 ==> t.pool.contains_key(n)
            }
        }),
    decreases events.len(),
{
    let s = Reassembly::initial(pid, timeout, max_in_flight);
    stream::lemma_possible(s, events, sent);
    if events.len() > 0 {
        let init = events.drop_last();
        stream::lemma_possible(s, init, sent);
        law_fresh_decoder_delivers_the_stream(pid, timeout, max_in_flight, init, sent);
        let (t, out) = stream::run(s, init);
        match events.last() {
            Event::Packet { heard, n, esi, now } => {
                stream::law_decoder_tracks_the_stream(t, sent, heard, n, esi, now);
                if t.started {
                    stream::law_late_packets_change_nothing(t, heard, now);
                } else if let Heard::Frame(Frame::Data { cc, oti, id, symbol }) = heard {
                    assert(t.target(id.sbn) == id.sbn);
                }
            },
            Event::Ask { now } => {
                stream::law_output_is_the_stream(t, sent, now);
                assert(!t.started ==> t.due(now) is None);
            },
        }
    }
}

/// A stretch of the output, with the number of its block.
#[verifier::ext_equal]
pub struct Chunk {
    pub number: u64,
    pub data: Seq<u8>,
}

/// What was emitted, as chunks.
pub open spec fn emitted_chunks(out: Seq<Emitted>) -> Seq<Chunk> {
    Seq::new(out.len(), |j: int| Chunk { number: out[j].number(), data: out[j].data() })
}

/// What is given up at the end, from block `from` on, as chunks.
pub open spec fn flushed_chunks(s: Reassembly, from: int) -> Seq<Chunk>
    decreases s.highest_seen + 1 - from,
{
    if from > s.highest_seen {
        Seq::empty()
    } else if s.pool.contains_key(from as u64) {
        seq![Chunk { number: from as u64, data: s.pool[from as u64].as_is() }] + flushed_chunks(
            s,
            from + 1,
        )
    } else {
        flushed_chunks(s, from + 1)
    }
}

/// All that a run and the flush at its end bring.
pub open spec fn output(s: Reassembly, events: Seq<Event>) -> Seq<Chunk> {
    let (t, out) = stream::run(s, events);
    emitted_chunks(out) + flushed_chunks(t, t.cursor as int)
}

/// The bytes of a chunk are those of its block; or they have the block's length,
/// and are its bytes or zeros; or they are the zeros for a block of which nothing
/// came.
pub open spec fn of_the_stream(chunk: Chunk, sent: Sent) -> bool {
    let data = sent.data(chunk.number);
    ||| chunk.data == data
    ||| {
        &&& chunk.data.len() == data.len()
        &&& forall|i: int|
            0 <= i < data.len() ==> #[trigger] chunk.data[i] == data[i] || chunk.data[i] == 0
    }
    ||| chunk.data == Seq::new(DEFAULT_BLOCK_SIZE as nat, |i: int| 0u8)
}

/// The chunks given up at the end, as bytes.
pub open spec fn chunk_data(chunks: Seq<Chunk>) -> Seq<Seq<u8>> {
    Seq::new(chunks.len(), |i: int| chunks[i].data)
}

proof fn lemma_flushed_chunks(s: Reassembly, sent: Sent, from: int)
    requires
        s.valid(),
        stream::tracks(s, sent),
        s.cursor <= from,
    ensures
        ({
            let chunks = flushed_chunks(s, from);
            &&& chunk_data(chunks) == s.rest(from)
            &&& forall|i: int|
                0 <= i < chunks.len() ==> from <= (#[trigger] chunks[i]).number && of_the_stream(
                    chunks[i],
                    sent,
                )
            &&& forall|i: int, j: int|
                0 <= i < j < chunks.len() ==> (#[trigger] chunks[i]).number < (
                #[trigger] chunks[j]).number
            &&& from <= s.highest_seen && s.pool.contains_key(from as u64) ==> chunks.len() > 0
                && chunks[0].number == from
        }),
    decreases s.highest_seen + 1 - from,
{
    let chunks = flushed_chunks(s, from);
    if from > s.highest_seen {
        assert(chunk_data(chunks) =~= s.rest(from));
    } else {
        lemma_flushed_chunks(s, sent, from + 1);
        let more = flushed_chunks(s, from + 1);
        if s.pool.contains_key(from as u64) {
            let n = from as u64;
            let first = Chunk { number: n, data: s.pool[n].as_is() };
            stream::law_flush_is_the_stream(s, sent, n);
            assert(of_the_stream(first, sent));
            assert(chunk_data(chunks) =~= seq![first.data] + chunk_data(more));
            assert forall|i: int| 0 <= i < chunks.len() implies from <= (
            #[trigger] chunks[i]).number && of_the_stream(chunks[i], sent) by {
                if i > 0 {
                    assert(chunks[i] == more[i - 1]);
                }
            }
            assert forall|i: int, j: int| 0 <= i < j < chunks.len() implies (
            #[trigger] chunks[i]).number < (#[trigger] chunks[j]).number by {
                assert(chunks[j] == more[j - 1]);
                if i > 0 {
                    assert(chunks[i] == more[i - 1]);
                }
            }
        }
    }
}

/// All that a fresh decoder brings out, whatever happens on the link, are chunks
/// of the stream: their block numbers rise, none comes twice, and the first is
/// the block of the first data frame taken in. Without such a frame there is no
/// output.
#[verifier::rlimit(40)]
pub proof fn law_whole_output_is_the_stream(
    pid: u16,
    timeout: u128,
    max_in_flight: u64,
    events: Seq<Event>,
    sent: Sent,
)
    requires
        stream::possible(Reassembly::initial(pid, timeout, max_in_flight), events, sent),
    ensures
        ({
            let s = Reassembly::initial(pid, timeout, max_in_flight);
            let chunks = output(s, events);
            let (t, out) = stream::run(s, events);
            &&& chunk_data(chunks) == chunk_data(emitted_chunks(out)) + t.rest(t.cursor as int)
            &&& first_block(s, events) is None ==> chunks.len() == 0
            &&& first_block(s, events) matches Some(n) ==> chunks.len() > 0 && chunks[0].number == n
            &&& forall|i: int|
                0 <= i < chunks.len() ==> of_the_stream(#[trigger] chunks[i], sent)
            &&& forall|i: int, j: int|
                0 <= i < j < chunks.len() ==> (#[trigger] chunks[i]).number < (
                #[trigger] chunks[j]).number
        }),
{
    let s = Reassembly::initial(pid, timeout, max_in_flight);
    let (t, out) = stream::run(s, events);
    law_fresh_decoder_delivers_the_stream(pid, timeout, max_in_flight, events, sent);
    stream::lemma_possible(s, events, sent);
    lemma_flushed_chunks(t, sent, t.cursor as int);
    let (head, tail) = (emitted_chunks(out), flushed_chunks(t, t.cursor as int));
    let chunks = output(s, events);
    assert(chunk_data(chunks) =~= chunk_data(head) + chunk_data(tail));
    if !t.started {
        lemma_nothing_to_flush(t, t.cursor as int);
    }
    assert forall|i: int| 0 <= i < chunks.len() implies of_the_stream(
        #[trigger] chunks[i],
        sent,
    ) by {
        if i < head.len() {
            assert(chunks[i] == head[i]);
            assert(stream::faithful(out[i], sent));
        } else {
            assert(chunks[i] == tail[i - head.len()]);
        }
    }
    assert forall|i: int, j: int| 0 <= i < j < chunks.len() implies (#[trigger] chunks[i]).number
        < (#[trigger] chunks[j]).number by {
        if i < head.len() {
            assert(chunks[i] == head[i]);
            assert(head[i].number == out[i].number());
        } else {
            assert(chunks[i] == tail[i - head.len()]);
        }
        if j < head.len() {
            assert(chunks[j] == head[j]);
            assert(head[j].number == out[j].number());
        } else {
            assert(chunks[j] == tail[j - head.len()]);
        }
    }
    if let Some(n) = first_block(s, events) {
        if out.len() > 0 {
            assert(chunks[0] == head[0]);
            assert(head[0].number == out[0].number());
        } else {
            assert(chunks[0] == tail[0]);
        }
    }
}

proof fn lemma_nothing_to_flush(s: Reassembly, from: int)
    requires
        s.pool =~= Map::empty(),
    ensures
        flushed_chunks(s, from).len() == 0,
    decreases s.highest_seen + 1 - from,
{
    if from <= s.highest_seen {
        lemma_nothing_to_flush(s, from + 1);
    }
}

/// The stream is the input `x`, cut into blocks of `size` bytes.
pub open spec fn carries_input(sent: Sent, x: Seq<u8>, size: nat) -> bool {
    let blocks = assemble::blocks_of(x, size);
    forall|n: int|
        0 <= n < blocks.len() ==> sent.symbols(n as u64) == block::symbols_of(#[trigger] blocks[n])
}

/// Every block came through: all that was emitted is decoded, and of the
/// `count` blocks those not emitted are open and complete.
pub open spec fn all_came_through(t: Reassembly, out: Seq<Emitted>, count: nat) -> bool {
    &&& forall|j: int| 0 <= j < out.len() ==> (#[trigger] out[j]) is Decoded
    &&& forall|n: u64| #[trigger]
        t.pool.contains_key(n) ==> n < count && t.pool[n].completed() is Some
    &&& forall|n: u64| t.cursor <= n < count ==> #[trigger] t.pool.contains_key(n)
    &&& t.cursor <= count
}

proof fn lemma_blocks_have_the_size(x: Seq<u8>, size: nat)
    requires
        size > 0,
    ensures
        forall|n: int|
            0 <= n < assemble::blocks_of(x, size).len() ==> (#[trigger] assemble::blocks_of(
                x,
                size,
            )[n]).len() == size,
    decreases x.len(),
{
    let blocks = assemble::blocks_of(x, size);
    if x.len() > size {
        let tail = x.skip(size as int);
        lemma_blocks_have_the_size(tail, size);
        assert forall|n: int| 0 <= n < blocks.len() implies (#[trigger] blocks[n]).len() == size by {
            if n > 0 {
                assert(blocks[n] == assemble::blocks_of(tail, size)[n - 1]);
            }
        }
    }
}

proof fn lemma_rest_of_complete_blocks(t: Reassembly, sent: Sent, blocks: Seq<Seq<u8>>, from: int)
    requires
        t.valid(),
        stream::tracks(t, sent),
        t.cursor <= from <= blocks.len(),
        blocks.len() <= t.highest_seen + 1,
        forall|n: u64| #[trigger]
            t.pool.contains_key(n) ==> n < blocks.len() && t.pool[n].completed() is Some,
        forall|n: u64| t.cursor <= n < blocks.len() ==> #[trigger] t.pool.contains_key(n),
        forall|n: int| 0 <= n < blocks.len() ==> sent.data(n as u64) == #[trigger] blocks[n],
    ensures
        t.rest(from) == blocks.skip(from),
    decreases t.highest_seen + 1 - from,
{
    if from < blocks.len() {
        let n = from as u64;
        assert(t.pool.contains_key(n));
        stream::law_flush_is_the_stream(t, sent, n);
        lemma_rest_of_complete_blocks(t, sent, blocks, from + 1);
        assert(blocks.skip(from) =~= seq![blocks[from]] + blocks.skip(from + 1));
    } else {
        lemma_nothing_open(t, from);
        assert(blocks.skip(from) =~= Seq::empty());
    }
}

proof fn lemma_nothing_open(t: Reassembly, from: int)
    requires
        0 <= from,
        forall|n: u64| #[trigger] t.pool.contains_key(n) ==> n < from,
    ensures
        t.rest(from) == Seq::<Seq<u8>>::empty(),
    decreases t.highest_seen + 1 - from,
{
    if from <= t.highest_seen {
        lemma_nothing_open(t, from + 1);
    }
}

/// Where every block comes through, the output is the blocks of the stream.
proof fn lemma_all_blocks_come_out(
    t: Reassembly,
    out: Seq<Emitted>,
    sent: Sent,
    blocks: Seq<Seq<u8>>,
)
    requires
        t.valid(),
        t.has_room(),
        stream::tracks(t, sent),
        all_came_through(t, out, blocks.len()),
        t.cursor == out.len(),
        forall|j: int|
            0 <= j < out.len() ==> (#[trigger] out[j]).number() == j && stream::faithful(
                out[j],
                sent,
            ),
        forall|n: int| 0 <= n < blocks.len() ==> sent.data(n as u64) == #[trigger] blocks[n],
    ensures
        chunk_data(emitted_chunks(out)) + t.rest(t.cursor as int) == blocks,
{
    let head = chunk_data(emitted_chunks(out));
    assert forall|j: int| 0 <= j < out.len() implies head[j] == blocks[j] by {
        assert(out[j] is Decoded);
        assert(stream::faithful(out[j], sent));
        assert(sent.data(j as u64) == blocks[j]);
    }
    assert(head =~= blocks.take(out.len() as int));
    if t.highest_seen + 1 < blocks.len() {
        let next = (t.highest_seen + 1) as u64;
        assert(t.pool.contains_key(next));
    }
    lemma_rest_of_complete_blocks(t, sent, blocks, t.cursor as int);
    assert(head + blocks.skip(t.cursor as int) =~= blocks);
}

proof fn lemma_blocks_are_data(sent: Sent, x: Seq<u8>, size: nat)
    requires
        size > 0,
        size % SYMBOL_SIZE as nat == 0,
        carries_input(sent, x, size),
    ensures
        forall|n: int|
            0 <= n < assemble::blocks_of(x, size).len() ==> sent.data(n as u64)
                == #[trigger] assemble::blocks_of(x, size)[n],
{
    let blocks = assemble::blocks_of(x, size);
    lemma_blocks_have_the_size(x, size);
    assert forall|n: int| 0 <= n < blocks.len() implies sent.data(n as u64)
        == #[trigger] blocks[n] by {
        assert(blocks[n].len() == size);
        block::law_symbols_make_up_the_data(blocks[n], Seq::empty());
    }
}

/// The decoder gives back what the encoder was given. Let the stream be the
/// input `x` in blocks of `size` bytes, let it be received from block 0 on, and
/// let every block come through, be it that packets were lost or damaged: then
/// all that is emitted, followed by all that is given up at the end, is `x`,
/// followed by the zeros that fill its last block.
#[verifier::rlimit(40)]
pub proof fn law_link_returns_the_input(
    pid: u16,
    timeout: u128,
    max_in_flight: u64,
    events: Seq<Event>,
    sent: Sent,
    x: Seq<u8>,
    size: nat,
)
    requires
        size > 0,
        size % SYMBOL_SIZE as nat == 0,
        carries_input(sent, x, size),
        stream::possible(Reassembly::initial(pid, timeout, max_in_flight), events, sent),
        ({
            let s = Reassembly::initial(pid, timeout, max_in_flight);
            let (t, out) = stream::run(s, events);
            &&& all_came_through(t, out, assemble::blocks_of(x, size).len())
            &&& first_block(s, events) == if x.len() > 0 {
                Some(0u64)
            } else {
                None
            }
        }),
    ensures
        ({
            let s = Reassembly::initial(pid, timeout, max_in_flight);
            let all = chunk_data(output(s, events));
            &&& all == assemble::blocks_of(x, size)
            &&& x.len() <= all.flatten().len() < x.len() + size
            &&& all.flatten().len() == all.len() * size
            &&& all.flatten().take(x.len() as int) == x
            &&& forall|i: int| x.len() <= i < all.flatten().len() ==> all.flatten()[i] == 0
        }),
{
    let s = Reassembly::initial(pid, timeout, max_in_flight);
    let blocks = assemble::blocks_of(x, size);
    assert(chunk_data(output(s, events)) == blocks) by {
        let (t, out) = stream::run(s, events);
        law_whole_output_is_the_stream(pid, timeout, max_in_flight, events, sent);
        if x.len() == 0 {
            assert(chunk_data(output(s, events)) =~= blocks);
        } else {
            law_fresh_decoder_delivers_the_stream(pid, timeout, max_in_flight, events, sent);
            stream::lemma_possible(s, events, sent);
            lemma_blocks_are_data(sent, x, size);
            lemma_all_blocks_come_out(t, out, sent, blocks);
        }
    }
    assemble::law_blocks_hold_the_input(x, size);
}

/// The states differ at most in what is counted.
pub open spec fn alike(s: Reassembly, t: Reassembly) -> bool {
    s == (Reassembly {
        last_cc: s.last_cc,
        unread: s.unread,
        totals: s.totals,
        stats: s.stats,
        ..t
    })
}

/// The event adds nothing to what can come out: a packet that cannot be read, one
/// of stuffing, of garbage or for a block already emitted, or a question when
/// nothing is due.
pub open spec fn idle(s: Reassembly, event: Event) -> bool {
    match event {
        Event::Packet { heard, .. } => match s.intake(heard) {
            Intake::Accepted { .. } => false,
            Intake::Redundant { .. } => s.started,
            _ => true,
        },
        Event::Ask { now } => s.due(now) is None,
    }
}

/// The events that are not marked as inserted.
pub open spec fn without(events: Seq<Event>, inserted: Seq<bool>) -> Seq<Event>
    decreases events.len(),
{
    if events.len() == 0 {
        events
    } else {
        let rest = without(events.drop_last(), inserted.drop_last());
        if inserted.last() {
            rest
        } else {
            rest.push(events.last())
        }
    }
}

/// Inserted packets that are no use make no difference: with unreadable packets,
/// stuffing, garbage and repair for blocks already emitted among the others, and
/// with the decoder asked again where nothing is due, the same comes out, at the
/// end too.
pub proof fn law_useless_packets_make_no_difference(
    s: Reassembly,
    events: Seq<Event>,
    inserted: Seq<bool>,
)
    requires
        inserted.len() == events.len(),
        forall|i: int|
            0 <= i < events.len() && inserted[i] ==> idle(
                stream::run(s, events.take(i)).0,
                #[trigger] events[i],
            ),
    ensures
        stream::run(s, without(events, inserted)).1 == stream::run(s, events).1,
        alike(stream::run(s, without(events, inserted)).0, stream::run(s, events).0),
        output(s, without(events, inserted)) == output(s, events),
    decreases events.len(),
{
    let fewer = without(events, inserted);
    if events.len() > 0 {
        let (init, marks) = (events.drop_last(), inserted.drop_last());
        assert forall|i: int| 0 <= i < init.len() && marks[i] implies idle(
            stream::run(s, init.take(i)).0,
            #[trigger] init[i],
        ) by {
            assert(init.take(i) =~= events.take(i));
            assert(init[i] == events[i]);
        }
        law_useless_packets_make_no_difference(s, init, marks);
        assert(events.take(init.len() as int) =~= init);
        let (t, out) = stream::run(s, init);
        let (u, less) = stream::run(s, without(init, marks));
        if inserted.last() {
            assert(idle(t, events[init.len() as int]));
            assert(out + stream::step(t, events.last()).1 =~= out);
        } else {
            assert(fewer.drop_last() =~= without(init, marks));
            lemma_alike_step(u, t, events.last());
        }
    }
    let (t, out) = stream::run(s, events);
    lemma_alike_flush(stream::run(s, fewer).0, t, t.cursor as int);
}

proof fn lemma_alike_step(s: Reassembly, t: Reassembly, event: Event)
    requires
        alike(s, t),
    ensures
        stream::step(s, event).1 == stream::step(t, event).1,
        alike(stream::step(s, event).0, stream::step(t, event).0),
{
    match event {
        Event::Packet { heard, n, esi, now } => {
            assert(s.intake(heard) == t.intake(heard));
        },
        Event::Ask { now } => {
            assert(s.forced() == t.forced());
            assert(s.overdue(now) == t.overdue(now));
            assert(s.due(now) == t.due(now));
        },
    }
}

proof fn lemma_alike_flush(s: Reassembly, t: Reassembly, from: int)
    requires
        alike(s, t),
    ensures
        flushed_chunks(s, from) == flushed_chunks(t, from),
    decreases t.highest_seen + 1 - from,
{
    if from <= t.highest_seen {
        lemma_alike_flush(s, t, from + 1);
    }
}

} // verus!
