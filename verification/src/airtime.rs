//! What the encoder sends over a whole run: its blocks as they come, and more
//! repair in idle slots.

use crate::block;
use crate::codec::BlockEncoder;
use crate::encoder;
use crate::encoder::Pipeline;
use crate::fec;
use crate::fec::ENCODING_SYMBOL_ID_LIMIT;
use crate::interleave;
use crate::ring;
use crate::ring::BlockGen;
use vstd::prelude::*;

verus! {

/// A packet that was sent, with the number of its block.
pub struct Sending {
    pub block: nat,
    pub packet: fec::Packet,
}

/// The pipeline, with the numbers of the blocks in its ring, the number of blocks
/// so far and all that was sent.
pub struct Sender {
    pub p: Pipeline,
    pub numbers: Seq<nat>,
    pub count: nat,
    pub out: Seq<Sending>,
}

/// A turn of the encoder.
pub enum Turn {
    /// A block of the input is encoded by `encoder`, sent, and done with at time
    /// `now`.
    Block { data: Seq<u8>, encoder: BlockEncoder, now: u128 },
    /// There is no input at time `now`.
    Idle { now: u128 },
}

/// A sender that has sent nothing.
pub open spec fn fresh(p: Pipeline) -> Sender {
    Sender { p, numbers: Seq::empty(), count: 0, out: Seq::empty() }
}

/// The packets of block `number`.
pub open spec fn numbered(packets: Seq<fec::Packet>, number: nat) -> Seq<Sending> {
    Seq::new(packets.len(), |i: int| Sending { block: number, packet: packets[i] })
}

/// What goes out for the input block `data`.
pub open spec fn block_packets(p: Pipeline, data: Seq<u8>) -> Seq<fec::Packet> {
    encoder::emission(
        p.encoded(data),
        p.baseline as int,
        interleave::spread(p.k(), p.baseline as int),
    )
}

/// The numbers of the blocks that pruning leaves.
pub open spec fn kept_numbers(
    all: Seq<BlockGen>,
    numbers: Seq<nat>,
    horizon: u128,
    now: u128,
) -> Seq<nat> {
    let cut = ring::cut(all, horizon, now);
    Seq::new(
        ring::pruned(all, horizon, now).len(),
        |i: int| numbers[cut + ring::place(all.skip(cut), i)],
    )
}

/// The pipeline while a block is going out.
pub open spec fn sending(p: Pipeline, encoder: BlockEncoder) -> Pipeline {
    Pipeline {
        current: if p.adaptive {
            Some(encoder)
        } else {
            None
        },
        ..p
    }
}

/// The block that has just gone out, as the ring takes it.
pub open spec fn generation(p: Pipeline, encoder: BlockEncoder, now: u128) -> BlockGen {
    BlockGen {
        encoder,
        next_repair_id: p.baseline,
        max_repair: p.max_repair,
        created: now,
    }
}

/// The sender after a turn.
pub open spec fn turned(s: Sender, turn: Turn) -> Sender {
    match turn {
        Turn::Block { data, encoder, now } => Sender {
            p: sending(s.p, encoder).sent(now),
            numbers: if s.p.adaptive {
                kept_numbers(
                    s.p.ring.push(generation(s.p, encoder, now)),
                    s.numbers.push(s.count),
                    s.p.horizon,
                    now,
                )
            } else {
                s.numbers
            },
            count: s.count + 1,
            out: s.out + numbered(block_packets(s.p, data), s.count),
        },
        Turn::Idle { now } => {
            let numbers = kept_numbers(s.p.ring, s.numbers, s.p.horizon, now);
            Sender {
                p: s.p.idled(now),
                numbers,
                out: match s.p.pick(now).0 {
                    Some(i) if s.p.has_id(now) => s.out.push(
                        Sending { block: numbers[i], packet: s.p.extra(now) },
                    ),
                    _ => s.out,
                },
                ..s
            }
        },
    }
}

/// The sender after several turns.
pub open spec fn run(s: Sender, turns: Seq<Turn>) -> Sender
    decreases turns.len(),
{
    if turns.len() == 0 {
        s
    } else {
        turned(run(s, turns.drop_last()), turns.last())
    }
}

/// The turn is one of the pipeline: a block has the announced size, and its
/// encoder holds it.
pub open spec fn feasible(p: Pipeline, turn: Turn) -> bool {
    match turn {
        Turn::Block { data, encoder, .. } => data.len() == p.oti.transfer_length && encoder@
            == p.encoded(data),
        Turn::Idle { .. } => true,
    }
}

/// The symbol ids from `lo` up to `hi` among the packets sent for a block, in
/// the order of sending.
pub open spec fn ids_sent(out: Seq<Sending>, block: nat, lo: int, hi: int) -> Seq<int>
    decreases out.len(),
{
    if out.len() == 0 {
        Seq::empty()
    } else {
        let before = ids_sent(out.drop_last(), block, lo, hi);
        let last = out.last();
        if last.block == block && lo <= last.packet.id.esi < hi {
            before.push(last.packet.id.esi as int)
        } else {
            before
        }
    }
}

/// The numbers from `from` on, `n` of them.
pub open spec fn rising(from: int, n: nat) -> Seq<int> {
    Seq::new(n, |i: int| from + i)
}

/// Most repair packets that a block gets.
pub open spec fn ceiling(p: Pipeline) -> int {
    if p.adaptive {
        p.max_repair as int
    } else {
        p.baseline as int
    }
}

/// The ids sent for a block: every source symbol once, and the repair symbols
/// from the first on, without a gap, each once.
pub open spec fn in_turn(s: Sender, block: nat) -> bool {
    let k = s.p.k();
    let repairs = ids_sent(s.out, block, k, ENCODING_SYMBOL_ID_LIMIT as int);
    &&& ids_sent(s.out, block, 0, k) == rising(0, k as nat)
    &&& repairs == rising(k, repairs.len())
    &&& s.p.baseline <= repairs.len() <= ceiling(s.p)
}

/// What every reachable sender satisfies.
pub open spec fn orderly(s: Sender) -> bool {
    let k = s.p.k();
    let top = ENCODING_SYMBOL_ID_LIMIT as int;
    &&& s.p.valid()
    &&& s.p.current is None
    &&& s.numbers.len() == s.p.ring.len()
    &&& forall|i: int, j: int|
        0 <= i < j < s.numbers.len() ==> #[trigger] s.numbers[i] < #[trigger] s.numbers[j]
    &&& forall|i: int|
        0 <= i < s.numbers.len() ==> (#[trigger] s.numbers[i]) < s.count && ids_sent(
            s.out,
            s.numbers[i],
            k,
            top,
        ).len() == s.p.ring[i].next_repair_id
    &&& forall|b: nat| b < s.count ==> #[trigger] in_turn(s, b)
    &&& forall|i: int| 0 <= i < s.out.len() ==> (#[trigger] s.out[i]).block < s.count
}

proof fn lemma_ids_of_append(x: Seq<Sending>, y: Seq<Sending>, block: nat, lo: int, hi: int)
    ensures
        ids_sent(x + y, block, lo, hi) == ids_sent(x, block, lo, hi) + ids_sent(y, block, lo, hi),
    decreases y.len(),
{
    if y.len() == 0 {
        assert(x + y =~= x);
    } else {
        lemma_ids_of_append(x, y.drop_last(), block, lo, hi);
        assert((x + y).drop_last() =~= x + y.drop_last());
        assert((x + y).last() == y.last());
    }
}

proof fn lemma_ids_of_others(out: Seq<Sending>, block: nat, lo: int, hi: int)
    requires
        forall|i: int| 0 <= i < out.len() ==> (#[trigger] out[i]).block != block,
    ensures
        ids_sent(out, block, lo, hi) == Seq::<int>::empty(),
    decreases out.len(),
{
    if out.len() > 0 {
        assert(out.last() == out[out.len() - 1]);
        lemma_ids_of_others(out.drop_last(), block, lo, hi);
    }
}

/// The ids among the first `p` packets that go out for a block.
proof fn lemma_ids_of_block(s: Pipeline, data: Seq<u8>, number: nat, p: int)
    requires
        s.valid(),
        data.len() == s.oti.transfer_length,
        0 <= p <= s.k() + s.baseline,
    ensures
        block_packets(s, data).len() == s.k() + s.baseline,
        ({
            let out = numbered(block_packets(s, data), number).take(p);
            let v = interleave::spread(s.k(), s.baseline as int);
            let (a, c) = interleave::mixed(s.k(), s.baseline as int, v, p);
            &&& 0 <= a <= s.k()
            &&& 0 <= c <= s.baseline
            &&& a + c == p
            &&& ids_sent(out, number, 0, s.k()) == rising(0, a as nat)
            &&& ids_sent(out, number, s.k(), ENCODING_SYMBOL_ID_LIMIT as int) == rising(
                s.k(),
                c as nat,
            )
        }),
    decreases p,
{
    let (k, r) = (s.k(), s.baseline as int);
    let v = interleave::spread(k, r);
    let all = numbered(block_packets(s, data), number);
    lemma_symbols(s, data);
    lemma_spread(k, r);
    if p == 0 {
        assert(rising(0, 0) =~= Seq::empty());
        assert(rising(k, 0) =~= Seq::empty());
    } else {
        lemma_ids_of_block(s, data, number, p - 1);
        interleave::law_every_place_is_taken(k, r, v, p - 1);
        let (a, c) = interleave::mixed(k, r, v, p - 1);
        assert(all.take(p).drop_last() =~= all.take(p - 1));
        assert(all.take(p).last() == all[p - 1]);
        assert(all[p - 1].packet.id.esi == encoder::id_at(k, r, v, p - 1));
        assert(rising(0, (a + 1) as nat) =~= rising(0, a as nat).push(a));
        assert(rising(k, (c + 1) as nat) =~= rising(k, c as nat).push(k + c));
    }
}

proof fn lemma_spread(k: int, r: int)
    requires
        0 <= k,
        0 <= r,
    ensures
        interleave::spread(k, r) >= 0,
{
    if r > 0 {
        assert(k / r >= 0) by (nonlinear_arith)
            requires
                k >= 0,
                r > 0,
        ;
    }
}

/// A block of the announced size has as many symbols as announced.
proof fn lemma_symbols(s: Pipeline, data: Seq<u8>)
    requires
        s.valid(),
        data.len() == s.oti.transfer_length,
    ensures
        s.encoded(data).symbols.len() == s.k(),
        crate::codec::uniform(s.encoded(data).symbols, crate::ts::SYMBOL_SIZE as nat),
        1 <= s.k(),
{
    encoder::lemma_block_size_fits(s.oti.transfer_length);
    block::law_symbols_make_up_the_data(data, Seq::empty());
}

/// Where a block that pruning leaves stood before.
spec fn origin(all: Seq<BlockGen>, horizon: u128, now: u128, i: int) -> int {
    let cut = ring::cut(all, horizon, now);
    cut + ring::place(all.skip(cut), i)
}

/// `kept` and `number` are what stood at `j`.
spec fn same_block(
    all: Seq<BlockGen>,
    numbers: Seq<nat>,
    j: int,
    kept: BlockGen,
    number: nat,
) -> bool {
    0 <= j < all.len() && kept == all[j] && number == numbers[j]
}

/// Blocks keep their numbers when the ring is pruned.
proof fn lemma_kept_numbers(all: Seq<BlockGen>, numbers: Seq<nat>, horizon: u128, now: u128)
    requires
        numbers.len() == all.len(),
        forall|i: int, j: int|
            0 <= i < j < numbers.len() ==> #[trigger] numbers[i] < #[trigger] numbers[j],
    ensures
        ({
            let kept = ring::pruned(all, horizon, now);
            let left = kept_numbers(all, numbers, horizon, now);
            &&& left.len() == kept.len()
            &&& forall|i: int|
                0 <= i < left.len() ==> same_block(
                    all,
                    numbers,
                    origin(all, horizon, now, i),
                    kept[i],
                    #[trigger] left[i],
                )
            &&& forall|i: int, j: int|
                0 <= i < j < left.len() ==> #[trigger] left[i] < #[trigger] left[j]
        }),
{
    let kept = ring::pruned(all, horizon, now);
    let left = kept_numbers(all, numbers, horizon, now);
    let cut = ring::cut(all, horizon, now);
    ring::law_prune_keeps_the_fresh(all, horizon, now);
    let young = all.skip(cut);
    ring::lemma_unexhausted(young);
    assert forall|i: int| 0 <= i < left.len() implies same_block(
        all,
        numbers,
        origin(all, horizon, now, i),
        kept[i],
        #[trigger] left[i],
    ) by {
        assert(ring::placed(young, i, ring::unexhausted(young)[i]));
    }
    assert forall|i: int, j: int| 0 <= i < j < left.len() implies #[trigger] left[i]
        < #[trigger] left[j] by {
        assert(ring::placed(young, i, ring::unexhausted(young)[i]));
        assert(ring::placed(young, j, ring::unexhausted(young)[j]));
        assert(ring::place(young, i) < ring::place(young, j));
        let (a, b) = (origin(all, horizon, now, i), origin(all, horizon, now, j));
        assert(numbers[a] < numbers[b]);
    }
}

proof fn lemma_block_turn(s: Sender, data: Seq<u8>, encoder: BlockEncoder, now: u128)
    requires
        orderly(s),
        feasible(s.p, Turn::Block { data, encoder, now }),
    ensures
        orderly(turned(s, Turn::Block { data, encoder, now })),
{
    let t = turned(s, Turn::Block { data, encoder, now });
    let k = s.p.k();
    let top = ENCODING_SYMBOL_ID_LIMIT as int;
    let more = numbered(block_packets(s.p, data), s.count);
    lemma_symbols(s.p, data);
    lemma_ids_of_block(s.p, data, s.count, k + s.p.baseline);
    assert(more.take(more.len() as int) =~= more);
    assert(t.p.k() == k && t.p.baseline == s.p.baseline && t.p.adaptive == s.p.adaptive);
    assert forall|b: nat| b < t.count implies #[trigger] in_turn(t, b) by {
        lemma_ids_of_append(s.out, more, b, 0, k);
        lemma_ids_of_append(s.out, more, b, k, top);
        if b < s.count {
            assert(in_turn(s, b));
            lemma_ids_of_others(more, b, 0, k);
            lemma_ids_of_others(more, b, k, top);
            assert(ids_sent(t.out, b, 0, k) =~= ids_sent(s.out, b, 0, k));
            assert(ids_sent(t.out, b, k, top) =~= ids_sent(s.out, b, k, top));
        } else {
            lemma_ids_of_others(s.out, b, 0, k);
            lemma_ids_of_others(s.out, b, k, top);
            assert(ids_sent(t.out, b, 0, k) =~= ids_sent(more, b, 0, k));
            assert(ids_sent(t.out, b, k, top) =~= ids_sent(more, b, k, top));
        }
    }
    assert forall|i: int| 0 <= i < t.out.len() implies (#[trigger] t.out[i]).block < t.count by {
        if i < s.out.len() {
            assert(t.out[i] == s.out[i]);
        } else {
            assert(t.out[i] == more[i - s.out.len()]);
        }
    }
    if s.p.adaptive {
        let all = s.p.ring.push(generation(s.p, encoder, now));
        let numbers = s.numbers.push(s.count);
        assert forall|i: int| 0 <= i < all.len() implies s.p.minting(#[trigger] all[i]) by {
            if i < s.p.ring.len() {
                assert(all[i] == s.p.ring[i]);
            }
        }
        encoder::lemma_pruned_minting(s.p, all, now);
        assert forall|i: int, j: int| 0 <= i < j < numbers.len() implies #[trigger] numbers[i]
            < #[trigger] numbers[j] by {
            assert(numbers[i] == s.numbers[i]);
            if j < s.numbers.len() {
                assert(numbers[j] == s.numbers[j]);
            }
        }
        lemma_kept_numbers(all, numbers, s.p.horizon, now);
        assert forall|i: int| 0 <= i < t.p.ring.len() implies t.p.minting(#[trigger] t.p.ring[i]) by {
            assert(s.p.minting(t.p.ring[i]));
        }
        assert forall|i: int| 0 <= i < t.numbers.len() implies (#[trigger] t.numbers[i]) < t.count
            && ids_sent(t.out, t.numbers[i], k, top).len() == t.p.ring[i].next_repair_id by {
            let j = origin(all, s.p.horizon, now, i);
            let b = numbers[j];
            assert(t.numbers[i] == b);
            lemma_ids_of_append(s.out, more, b, k, top);
            if j < s.numbers.len() {
                assert(b == s.numbers[j]);
                lemma_ids_of_others(more, b, k, top);
            } else {
                lemma_ids_of_others(s.out, b, k, top);
            }
        }
    }
}

proof fn lemma_idle_turn(s: Sender, now: u128)
    requires
        orderly(s),
    ensures
        orderly(turned(s, Turn::Idle { now })),
{
    let t = turned(s, Turn::Idle { now });
    let k = s.p.k();
    let top = ENCODING_SYMBOL_ID_LIMIT as int;
    let kept = ring::pruned(s.p.ring, s.p.horizon, now);
    let numbers = kept_numbers(s.p.ring, s.numbers, s.p.horizon, now);
    lemma_kept_numbers(s.p.ring, s.numbers, s.p.horizon, now);
    encoder::lemma_pruned_minting(s.p, s.p.ring, now);
    encoder::law_idle_slots_bring_fresh_repair(s.p, now);
    assert forall|i: int| 0 <= i < numbers.len() implies (#[trigger] numbers[i]) < s.count
        && ids_sent(s.out, numbers[i], k, top).len() == kept[i].next_repair_id by {
        let j = origin(s.p.ring, s.p.horizon, now, i);
        assert(numbers[i] == s.numbers[j]);
    }
    assert(t.p.k() == k && t.p.baseline == s.p.baseline && t.p.adaptive == s.p.adaptive);
    let pick = s.p.pick(now).0;
    if pick is Some && s.p.has_id(now) {
        let i = pick->0;
        let x = Sending { block: numbers[i], packet: s.p.extra(now) };
        assert(t.out == s.out.push(x));
        assert(t.out.drop_last() =~= s.out);
        assert(s.p.minting(kept[i]));
        let next = kept[i].next_repair_id;
        assert(x.packet.id.esi == k + next);
        assert(in_turn(s, x.block));
        assert(rising(k, (next + 1) as nat) =~= rising(k, next as nat).push(k + next));
        assert forall|b: nat| b < t.count implies #[trigger] in_turn(t, b) by {
            assert(in_turn(s, b));
        }
        assert forall|j: int| 0 <= j < t.numbers.len() implies (#[trigger] t.numbers[j]) < t.count
            && ids_sent(t.out, t.numbers[j], k, top).len() == t.p.ring[j].next_repair_id by {
            assert(numbers[j] < s.count);
            if j < i {
                assert(numbers[j] < numbers[i]);
            } else if i < j {
                assert(numbers[i] < numbers[j]);
            }
        }
        assert forall|j: int| 0 <= j < t.p.ring.len() implies t.p.minting(#[trigger] t.p.ring[j]) by {
            assert(s.p.minting(kept[j]));
        }
    } else {
        assert(t.p.ring == kept);
        assert forall|b: nat| b < t.count implies #[trigger] in_turn(t, b) by {
            assert(in_turn(s, b));
        }
        assert forall|j: int| 0 <= j < t.p.ring.len() implies t.p.minting(#[trigger] t.p.ring[j]) by {
            assert(s.p.minting(kept[j]));
        }
    }
}

/// Over a whole run, however its blocks and idle slots follow one another: for
/// every block all source packets are sent once, and the repair packets sent for
/// it have the ids from the first on, each once and in rising order, as many as
/// the baseline at least and as the ceiling at most.
pub proof fn law_every_symbol_is_sent_in_turn(p: Pipeline, turns: Seq<Turn>)
    requires
        p.valid(),
        p.current is None,
        p.ring.len() == 0,
        forall|i: int|
            0 <= i < turns.len() ==> feasible(run(fresh(p), turns.take(i)).p, #[trigger] turns[i]),
    ensures
        orderly(run(fresh(p), turns)),
        forall|b: nat|
            b < run(fresh(p), turns).count ==> #[trigger] in_turn(run(fresh(p), turns), b),
    decreases turns.len(),
{
    if turns.len() > 0 {
        let init = turns.drop_last();
        assert forall|i: int| 0 <= i < init.len() implies feasible(
            run(fresh(p), init.take(i)).p,
            #[trigger] init[i],
        ) by {
            assert(init.take(i) =~= turns.take(i));
            assert(init[i] == turns[i]);
        }
        law_every_symbol_is_sent_in_turn(p, init);
        assert(turns.take(init.len() as int) =~= init);
        assert(turns.last() == turns[init.len() as int]);
        match turns.last() {
            Turn::Block { data, encoder, now } => {
                lemma_block_turn(run(fresh(p), init), data, encoder, now);
            },
            Turn::Idle { now } => {
                lemma_idle_turn(run(fresh(p), init), now);
            },
        }
    }
}

/// The packets sent that have a symbol id below `limit`, in order.
pub open spec fn below(out: Seq<Sending>, limit: int) -> Seq<fec::Packet>
    decreases out.len(),
{
    if out.len() == 0 {
        Seq::empty()
    } else if out.last().packet.id.esi < limit {
        below(out.drop_last(), limit).push(out.last().packet)
    } else {
        below(out.drop_last(), limit)
    }
}

/// The packets sent, in order.
pub open spec fn packets(out: Seq<Sending>) -> Seq<fec::Packet> {
    Seq::new(out.len(), |i: int| out[i].packet)
}

/// The turns in which there was input.
pub open spec fn inputs(turns: Seq<Turn>) -> Seq<Turn>
    decreases turns.len(),
{
    if turns.len() == 0 {
        turns
    } else if turns.last() is Block {
        inputs(turns.drop_last()).push(turns.last())
    } else {
        inputs(turns.drop_last())
    }
}

proof fn lemma_below_of_append(x: Seq<Sending>, y: Seq<Sending>, limit: int)
    requires
        forall|i: int| 0 <= i < y.len() ==> (#[trigger] y[i]).packet.id.esi < limit,
    ensures
        below(x + y, limit) == below(x, limit) + packets(y),
    decreases y.len(),
{
    if y.len() == 0 {
        assert(x + y =~= x);
        assert(below(x, limit) + packets(y) =~= below(x, limit));
    } else {
        let z = y.drop_last();
        assert forall|i: int| 0 <= i < z.len() implies (#[trigger] z[i]).packet.id.esi < limit by {
            assert(z[i] == y[i]);
        }
        lemma_below_of_append(x, z, limit);
        assert((x + y).drop_last() =~= x + z);
        assert((x + y).last() == y.last());
        assert(y.last() == y[y.len() - 1]);
        assert(packets(y) =~= packets(z).push(y.last().packet));
        assert(below(x + y, limit) =~= below(x, limit) + packets(y));
    }
}

/// Idle airtime only adds repair: what is sent with it, without the repair packets
/// beyond the baseline, is what is sent without it, packet by packet.
pub proof fn law_idle_airtime_only_adds(
    oti: fec::Oti,
    baseline: u32,
    max_repair: u32,
    horizon: u128,
    turns: Seq<Turn>,
)
    requires
        encoder::geometry_ok(oti, baseline),
        ({
            let p = Pipeline::initial(oti, baseline, max_repair, true, horizon);
            forall|i: int|
                0 <= i < turns.len() ==> feasible(
                    run(fresh(p), turns.take(i)).p,
                    #[trigger] turns[i],
                )
        }),
    ensures
        ({
            let p = Pipeline::initial(oti, baseline, max_repair, true, horizon);
            let q = Pipeline::initial(oti, baseline, max_repair, false, horizon);
            let (a, b) = (run(fresh(p), turns), run(fresh(q), inputs(turns)));
            &&& a.p.sbn == b.p.sbn
            &&& b.p.oti == oti && b.p.baseline == baseline && !b.p.adaptive
            &&& below(a.out, p.k() + baseline) == packets(b.out)
        }),
    decreases turns.len(),
{
    let p = Pipeline::initial(oti, baseline, max_repair, true, horizon);
    let q = Pipeline::initial(oti, baseline, max_repair, false, horizon);
    let limit = p.k() + baseline;
    law_every_symbol_is_sent_in_turn(p, turns);
    if turns.len() == 0 {
        assert(below(fresh(p).out, limit) =~= packets(fresh(q).out));
    } else {
        let init = turns.drop_last();
        assert forall|i: int| 0 <= i < init.len() implies feasible(
            run(fresh(p), init.take(i)).p,
            #[trigger] init[i],
        ) by {
            assert(init.take(i) =~= turns.take(i));
            assert(init[i] == turns[i]);
        }
        law_idle_airtime_only_adds(oti, baseline, max_repair, horizon, init);
        law_every_symbol_is_sent_in_turn(p, init);
        assert(turns.take(init.len() as int) =~= init);
        assert(turns.last() == turns[init.len() as int]);
        let (a, b) = (run(fresh(p), init), run(fresh(q), inputs(init)));
        lemma_constants(p, init);
        match turns.last() {
            Turn::Block { data, encoder, now } => {
                assert(inputs(turns).drop_last() =~= inputs(init));
                assert(inputs(turns).last() == turns.last());
                let more = block_packets(a.p, data);
                assert(block_packets(b.p, data) == more);
                let (x, y) = (numbered(more, a.count), numbered(more, b.count));
                lemma_ids_below(a.p, data);
                lemma_below_of_append(a.out, x, limit);
                assert(packets(x) =~= more);
                assert(packets(b.out + y) =~= packets(b.out) + more);
            },
            Turn::Idle { now } => {
                encoder::law_idle_slots_bring_fresh_repair(a.p, now);
                encoder::lemma_pruned_minting(a.p, a.p.ring, now);
                let t = run(fresh(p), turns);
                if t.out != a.out {
                    assert(t.out.drop_last() =~= a.out);
                    let i = a.p.pick(now).0->0;
                    assert(a.p.minting(ring::pruned(a.p.ring, a.p.horizon, now)[i]));
                }
            },
        }
    }
}

proof fn lemma_constants(p: Pipeline, turns: Seq<Turn>)
    ensures
        run(fresh(p), turns).p.oti == p.oti,
        run(fresh(p), turns).p.baseline == p.baseline,
    decreases turns.len(),
{
    if turns.len() > 0 {
        lemma_constants(p, turns.drop_last());
    }
}

/// What goes out for a block with its input has ids below the baseline's end.
proof fn lemma_ids_below(s: Pipeline, data: Seq<u8>)
    requires
        s.valid(),
        data.len() == s.oti.transfer_length,
    ensures
        forall|i: int|
            0 <= i < block_packets(s, data).len() ==> (#[trigger] block_packets(
                s,
                data,
            )[i]).id.esi < s.k() + s.baseline,
{
    let (k, r) = (s.k(), s.baseline as int);
    let v = interleave::spread(k, r);
    lemma_symbols(s, data);
    lemma_spread(k, r);
    let all = block_packets(s, data);
    assert forall|i: int| 0 <= i < all.len() implies (#[trigger] all[i]).id.esi < k + r by {
        interleave::law_every_place_is_taken(k, r, v, i);
    }
}

} // verus!
