//! The encoder's block pipeline: what goes out for every block, and what idle
//! airtime is spent on.

use crate::block;
use crate::clock::nanos_from_millis;
use crate::codec;
use crate::codec::BlockEncoder;
use crate::fec;
use crate::fec::{
    EncodingPacket, ObjectTransmissionInformation, ENCODING_SYMBOL_ID_LIMIT,
    MAX_SOURCE_SYMBOLS_PER_BLOCK,
};
use crate::frame;
use crate::interleave;
use crate::interleave::{interleave, repair_interval};
use crate::ring;
use crate::ring::{pick_block, prune_ring, BlockGen, Xorshift64};
use crate::ts::SYMBOL_SIZE;
use std::collections::VecDeque;
use vstd::prelude::*;

verus! {

/// Seed of the choice among recent blocks.
pub const REPAIR_SEED: u64 = 0x9E37_79B9_7F4A_7C15;

/// What is wrong with the encoder's configuration.
#[derive(Debug, Clone, Copy, PartialEq, Eq, Structural)]
pub enum ConfigError {
    /// The block size is not a positive multiple of the symbol size.
    BlockSize(usize),
    /// The rate is zero.
    Rate,
}

/// The number of source symbols of a block of this size, in 32 bits.
pub open spec fn symbols_in_block(block_size: usize) -> Result<u32, ConfigError> {
    if block_size == 0 || block_size % SYMBOL_SIZE != 0 {
        Err(ConfigError::BlockSize(block_size))
    } else {
        Ok((block_size / SYMBOL_SIZE) as u32)
    }
}

/// A rate that packets can be sent at.
pub open spec fn rate_works(rate: u64) -> Result<(), ConfigError> {
    if rate == 0 {
        Err(ConfigError::Rate)
    } else {
        Ok(())
    }
}

/// Checks the block size and gives the number of source symbols per block.
pub fn check_block_size(block_size: usize) -> (res: Result<u32, ConfigError>)
    ensures
        res == (if block_size == 0 || block_size % SYMBOL_SIZE != 0 {
            Err::<u32, ConfigError>(ConfigError::BlockSize(block_size))
        } else {
            Ok((block_size / SYMBOL_SIZE) as u32)
        }),
        res == symbols_in_block(block_size),
{
    if block_size == 0 || block_size % SYMBOL_SIZE != 0 {
        return Err(ConfigError::BlockSize(block_size));
    }
    Ok(#[verifier::truncate] ((block_size / SYMBOL_SIZE) as u32))
}

pub fn check_rate(rate: u64) -> (res: Result<(), ConfigError>)
    ensures
        res == (if rate == 0 {
            Err::<(), ConfigError>(ConfigError::Rate)
        } else {
            Ok(())
        }),
        res == rate_works(rate),
{
    if rate == 0 {
        Err(ConfigError::Rate)
    } else {
        Ok(())
    }
}

/// Block sizes that RaptorQ can take as one source block.
pub open spec fn block_size_fits(block_size: int) -> bool {
    &&& block_size > 0
    &&& block_size % SYMBOL_SIZE as int == 0
    &&& block_size / SYMBOL_SIZE as int <= MAX_SOURCE_SYMBOLS_PER_BLOCK
}

pub fn check_block_size_fits(block_size: usize) -> (res: bool)
    ensures
        res == block_size_fits(block_size as int),
{
    block_size > 0 && block_size % SYMBOL_SIZE == 0 && (block_size / SYMBOL_SIZE) as u64
        <= MAX_SOURCE_SYMBOLS_PER_BLOCK
}

/// A block size that fits meets what RaptorQ asks for.
pub proof fn lemma_block_size_fits(block_size: u64)
    requires
        block_size_fits(block_size as int),
    ensures
        fec::oti_parameters_ok(block_size, SYMBOL_SIZE as u16, 1, 1),
        codec::encodable(frame::block_oti(block_size, SYMBOL_SIZE as u16), block_size as nat),
        block::sane(frame::block_oti(block_size, SYMBOL_SIZE as u16)),
{
    let (s, t) = (block_size as int, SYMBOL_SIZE as int);
    assert(s / t >= 1 && s == s / t * t) by (nonlinear_arith)
        requires
            s % t == 0,
            s > 0,
            t > 0,
    ;
    assert(s <= MAX_SOURCE_SYMBOLS_PER_BLOCK * t) by (nonlinear_arith)
        requires
            s == s / t * t,
            s / t <= MAX_SOURCE_SYMBOLS_PER_BLOCK,
            t > 0,
    ;
}

/// `out` are the block's source packets and its first `repair` repair packets,
/// one repair packet behind every `interval` source packets.
pub open spec fn goes_out(
    out: Seq<EncodingPacket>,
    encoded: codec::EncodedBlock,
    repair: int,
    interval: int,
) -> bool {
    let k = encoded.symbols.len() as int;
    &&& out.len() == k + repair
    &&& forall|i: int|
        0 <= i < k ==> carries(
            out,
            #[trigger] interleave::source_position(i, repair, interval),
            encoded.packet(i as nat),
        )
    &&& forall|j: int|
        0 <= j < repair ==> carries(
            out,
            #[trigger] interleave::repair_position(j, k, interval),
            encoded.packet((k + j) as nat),
        )
}

/// The symbol id at place `p` of what goes out for a block of `k` source symbols.
pub open spec fn id_at(k: int, repair: int, interval: int, p: int) -> int {
    let (sent, repaired) = interleave::mixed(k, repair, interval, p);
    if interleave::repair_turn(k, repair, interval, sent, repaired) {
        k + repaired
    } else {
        sent
    }
}

/// What goes out for a block, packet by packet.
pub open spec fn emission(
    encoded: codec::EncodedBlock,
    repair: int,
    interval: int,
) -> Seq<fec::Packet> {
    let k = encoded.symbols.len() as int;
    Seq::new((k + repair) as nat, |p: int| encoded.packet(id_at(k, repair, interval, p) as nat))
}

/// What the packets carry.
pub open spec fn carried(packets: Seq<EncodingPacket>) -> Seq<fec::Packet> {
    Seq::new(packets.len(), |i: int| packets[i]@)
}

/// What goes out for a block is fixed in every place.
pub proof fn law_emission_is_fixed(
    out: Seq<EncodingPacket>,
    encoded: codec::EncodedBlock,
    repair: int,
    interval: int,
)
    requires
        goes_out(out, encoded, repair, interval),
        0 <= repair,
        0 <= interval,
    ensures
        carried(out) == emission(encoded, repair, interval),
{
    let k = encoded.symbols.len() as int;
    let all = emission(encoded, repair, interval);
    assert forall|p: int| 0 <= p < out.len() implies out[p]@ == all[p] by {
        interleave::law_every_place_is_taken(k, repair, interval, p);
        let (sent, repaired) = interleave::mixed(k, repair, interval, p);
        if interleave::repair_turn(k, repair, interval, sent, repaired) {
            assert(carries(
                out,
                interleave::repair_position(repaired, k, interval),
                encoded.packet((k + repaired) as nat),
            ));
        } else {
            assert(carries(
                out,
                interleave::source_position(sent, repair, interval),
                encoded.packet(sent as nat),
            ));
        }
    }
    assert(carried(out) =~= all);
}

/// Number `at` of `out` is `packet`.
pub open spec fn carries(out: Seq<EncodingPacket>, at: int, packet: fec::Packet) -> bool {
    0 <= at < out.len() && out[at]@ == packet
}

/// All packets have symbols of one size.
pub open spec fn sized(packets: Seq<EncodingPacket>, size: nat) -> bool {
    forall|i: int| 0 <= i < packets.len() ==> (#[trigger] packets[i])@.data.len() == size
}

/// Encodes one input block: its source symbols plus the baseline repair,
/// interleaved. The encoder comes back with them, so that more repair symbols
/// can be made later.
pub fn emit_block(
    block: &[u8],
    sbn: u8,
    oti: &ObjectTransmissionInformation,
    baseline_repair: u32,
    rep_interval: u32,
) -> (res: (BlockEncoder, Vec<EncodingPacket>))
    requires
        codec::encodable(oti@, block@.len()),
        block@.len() / oti@.symbol_size as nat + baseline_repair <= ENCODING_SYMBOL_ID_LIMIT,
        interleave::interleave_fits(
            (block@.len() / oti@.symbol_size as nat) as int,
            baseline_repair as int,
            rep_interval as int,
        ),
    ensures
        res.0@.sbn == sbn,
        codec::uniform(res.0@.symbols, oti@.symbol_size as nat),
        codec::block_of_symbols(oti@, res.0@.symbols) == block@,
        res.0@.symbols.len() == block@.len() / oti@.symbol_size as nat,
        goes_out(res.1@, res.0@, baseline_repair as int, rep_interval as int),
        carried(res.1@) == emission(res.0@, baseline_repair as int, rep_interval as int),
        sized(res.1@, oti@.symbol_size as nat),
{
    let encoder = BlockEncoder::new(sbn, oti, block);
    let source = encoder.source_packets();
    let repair = encoder.repair_packets(0, baseline_repair);
    let ghost (s, r) = (source@, repair@);
    let out = interleave(source, repair, rep_interval);
    proof {
        let (k, n, v) = (s.len() as int, r.len() as int, rep_interval as int);
        assert forall|i: int| 0 <= i < k implies carries(
            out@,
            #[trigger] interleave::source_position(i, n, v),
            encoder@.packet(i as nat),
        ) by {
            assert(interleave::stands_at(out@, interleave::source_position(i, n, v), s[i]));
        }
        assert forall|j: int| 0 <= j < n implies carries(
            out@,
            #[trigger] interleave::repair_position(j, k, v),
            encoder@.packet((k + j) as nat),
        ) by {
            assert(interleave::stands_at(out@, interleave::repair_position(j, k, v), r[j]));
        }
        assert forall|p: int| 0 <= p < out@.len() implies (#[trigger] out@[p])@.data.len()
            == oti@.symbol_size by {
            if s.contains(out@[p]) {
                let i = s.index_of(out@[p]);
                assert(s[i] == out@[p]);
            } else {
                let j = r.index_of(out@[p]);
                assert(r[j] == out@[p]);
            }
        }
        law_emission_is_fixed(out@, encoder@, n, v);
    }
    (encoder, out)
}

/// The state of the pipeline.
#[verifier::ext_equal]
pub struct Pipeline {
    pub oti: fec::Oti,
    /// Repair packets sent with every block.
    pub baseline: u32,
    /// Ceiling on the repair packets of a block.
    pub max_repair: u32,
    /// Idle airtime is spent on repair.
    pub adaptive: bool,
    /// How long repair for a block stays useful, in nanoseconds.
    pub horizon: u128,
    /// The number of the next block.
    pub sbn: u8,
    /// The block that is going out.
    pub current: Option<BlockEncoder>,
    /// Blocks that went out recently, oldest first.
    pub ring: Seq<BlockGen>,
    /// The state of the generator behind the choice among them.
    pub rng: u64,
}

impl Pipeline {
    pub open spec fn initial(
        oti: fec::Oti,
        baseline: u32,
        max_repair: u32,
        adaptive: bool,
        horizon: u128,
    ) -> Pipeline {
        Pipeline {
            oti,
            baseline,
            max_repair,
            adaptive: adaptive && max_repair > baseline,
            horizon,
            sbn: 0,
            current: None,
            ring: Seq::empty(),
            rng: REPAIR_SEED | 1,
        }
    }

    /// Source symbols per block.
    pub open spec fn k(self) -> int {
        self.oti.transfer_length as int / SYMBOL_SIZE as int
    }

    /// A block of the stream: symbols of the wire's size, as many as announced.
    pub open spec fn holds(self, encoder: BlockEncoder) -> bool {
        &&& codec::uniform(encoder@.symbols, SYMBOL_SIZE as nat)
        &&& encoder@.symbols.len() == self.k()
    }

    /// A recent block: repair was made for it between the baseline and the
    /// ceiling.
    pub open spec fn minting(self, generation: BlockGen) -> bool {
        &&& self.holds(generation.encoder)
        &&& self.baseline <= generation.next_repair_id <= self.max_repair
        &&& generation.max_repair == self.max_repair
    }

    /// What every reachable state satisfies.
    pub open spec fn valid(self) -> bool {
        &&& geometry_ok(self.oti, self.baseline)
        &&& self.adaptive ==> self.max_repair > self.baseline
        &&& !self.adaptive ==> self.current is None && self.ring.len() == 0
        &&& self.current matches Some(e) ==> self.holds(e)
        &&& forall|i: int| 0 <= i < self.ring.len() ==> self.minting(#[trigger] self.ring[i])
    }

    /// The block that `data` becomes.
    pub open spec fn encoded(self, data: Seq<u8>) -> codec::EncodedBlock {
        codec::EncodedBlock { sbn: self.sbn, symbols: block::symbols_of(data) }
    }

    /// The state once the current block has gone out, at time `now`.
    pub open spec fn sent(self, now: u128) -> Pipeline {
        let sbn = ((self.sbn + 1) % 256) as u8;
        match self.current {
            Some(encoder) => {
                let generation = BlockGen {
                    encoder,
                    next_repair_id: self.baseline,
                    max_repair: self.max_repair,
                    created: now,
                };
                Pipeline {
                    sbn,
                    current: None,
                    ring: ring::pruned(self.ring.push(generation), self.horizon, now),
                    ..self
                }
            },
            None => Pipeline { sbn, ..self },
        }
    }

    /// Which of the recent blocks gets an idle slot at time `now`, and the
    /// generator's state after the choice.
    pub open spec fn pick(self, now: u128) -> (Option<int>, u64) {
        let kept = ring::pruned(self.ring, self.horizon, now);
        ring::pick_from(ring::live_blocks(kept), kept.len() as int, self.rng, None)
    }

    /// The block that gets the slot.
    pub open spec fn picked(self, now: u128) -> BlockGen {
        ring::pruned(self.ring, self.horizon, now)[self.pick(now).0->0]
    }

    /// The packet that goes out in the slot: the next repair packet of the block.
    pub open spec fn extra(self, now: u128) -> fec::Packet {
        let encoded = self.picked(now).encoder@;
        encoded.packet(encoded.symbols.len() + self.picked(now).next_repair_id as nat)
    }

    /// The block that gets the slot still has a symbol id to give.
    pub open spec fn has_id(self, now: u128) -> bool {
        self.picked(now).encoder@.symbols.len() + self.picked(now).next_repair_id
            < ENCODING_SYMBOL_ID_LIMIT
    }

    /// The state after an idle slot at time `now`.
    pub open spec fn idled(self, now: u128) -> Pipeline {
        let kept = ring::pruned(self.ring, self.horizon, now);
        let (pick, rng) = self.pick(now);
        Pipeline {
            ring: match pick {
                Some(i) => if self.has_id(now) {
                    kept.update(
                        i,
                        BlockGen {
                            next_repair_id: (kept[i].next_repair_id + 1) as u32,
                            ..kept[i]
                        },
                    )
                } else {
                    kept
                },
                None => kept,
            },
            rng,
            ..self
        }
    }
}

pub proof fn lemma_pruned_minting(p: Pipeline, all: Seq<BlockGen>, now: u128)
    requires
        forall|i: int| 0 <= i < all.len() ==> p.minting(#[trigger] all[i]),
    ensures
        forall|i: int|
            0 <= i < ring::pruned(all, p.horizon, now).len() ==> p.minting(
                #[trigger] ring::pruned(all, p.horizon, now)[i],
            ),
        ring::pruned(all, p.horizon, now).len() <= all.len(),
{
    ring::law_prune_keeps_the_fresh(all, p.horizon, now);
    let kept = ring::pruned(all, p.horizon, now);
    assert forall|i: int| 0 <= i < kept.len() implies p.minting(#[trigger] kept[i]) by {
        let j = all.index_of(kept[i]);
        assert(all[j] == kept[i]);
    }
}

/// The geometry that the pipeline works with: one source block per object, and
/// symbol ids enough for its source and baseline repair packets.
pub open spec fn geometry_ok(oti: fec::Oti, baseline: u32) -> bool {
    &&& oti == frame::block_oti(oti.transfer_length, SYMBOL_SIZE as u16)
    &&& block_size_fits(oti.transfer_length as int)
    &&& oti.transfer_length as int / SYMBOL_SIZE as int + baseline <= ENCODING_SYMBOL_ID_LIMIT
}

/// What to do with an idle slot.
pub enum Idle {
    /// Send this repair packet.
    Repair(EncodingPacket),
    /// There is nothing useful to send; wait a little.
    Nap,
    /// The block that should get more repair has used up its symbol ids.
    NoIds,
}

/// From input blocks to packets, and from idle slots to more repair packets.
pub struct BlockPipeline {
    oti: ObjectTransmissionInformation,
    baseline_repair: u32,
    max_repair: u32,
    adaptive: bool,
    horizon: u128,
    rep_interval: u32,
    sbn: u8,
    current: Option<BlockEncoder>,
    ring: VecDeque<BlockGen>,
    rng: Xorshift64,
}

impl View for BlockPipeline {
    type V = Pipeline;

    closed spec fn view(&self) -> Pipeline {
        Pipeline {
            oti: self.oti@,
            baseline: self.baseline_repair,
            max_repair: self.max_repair,
            adaptive: self.adaptive,
            horizon: self.horizon,
            sbn: self.sbn,
            current: self.current,
            ring: self.ring@,
            rng: self.rng.state(),
        }
    }
}

impl BlockPipeline {
    /// The interval between repair packets is the one that spreads them.
    pub closed spec fn spreads(self) -> bool {
        self.rep_interval == interleave::spread(self@.k(), self@.baseline as int)
    }

    pub open spec fn wf(self) -> bool {
        self@.valid() && self.spreads()
    }

    pub fn new(
        oti: ObjectTransmissionInformation,
        baseline_repair: u32,
        max_repair: u32,
        adaptive: bool,
        horizon_ms: u64,
    ) -> (pipeline: Self)
        requires
            geometry_ok(oti@, baseline_repair),
        ensures
            pipeline.wf(),
            pipeline@ == Pipeline::initial(
                oti@,
                baseline_repair,
                max_repair,
                adaptive,
                (horizon_ms * 1_000_000) as u128,
            ),
    {
        let k: u32 = (oti.transfer_length() / SYMBOL_SIZE as u64) as u32;
        BlockPipeline {
            oti,
            baseline_repair,
            max_repair,
            adaptive: adaptive && max_repair > baseline_repair,
            horizon: nanos_from_millis(horizon_ms),
            rep_interval: repair_interval(k, baseline_repair),
            sbn: 0,
            current: None,
            ring: VecDeque::new(),
            rng: Xorshift64::new(REPAIR_SEED),
        }
    }

    /// Whether idle slots are worth asking for.
    pub fn is_adaptive(&self) -> (res: bool)
        ensures
            res == self@.adaptive,
    {
        self.adaptive
    }

    /// The packets that go out for the next block of the stream.
    pub fn encode(&mut self, block: &[u8]) -> (out: Vec<EncodingPacket>)
        requires
            old(self).wf(),
            block@.len() == old(self)@.oti.transfer_length,
        ensures
            final(self).wf(),
            final(self)@ == (Pipeline { current: final(self)@.current, ..old(self)@ }),
            old(self)@.adaptive <==> final(self)@.current is Some,
            final(self)@.current matches Some(e) ==> e@ == old(self)@.encoded(block@),
            goes_out(
                out@,
                old(self)@.encoded(block@),
                old(self)@.baseline as int,
                interleave::spread(old(self)@.k(), old(self)@.baseline as int),
            ),
            carried(out@) == emission(
                old(self)@.encoded(block@),
                old(self)@.baseline as int,
                interleave::spread(old(self)@.k(), old(self)@.baseline as int),
            ),
            sized(out@, SYMBOL_SIZE as nat),
    {
        proof {
            lemma_block_size_fits(self.oti@.transfer_length);
            interleave::lemma_spread_fits(self@.k(), self.baseline_repair as int);
        }
        let (encoder, out) = emit_block(
            block,
            self.sbn,
            &self.oti,
            self.baseline_repair,
            self.rep_interval,
        );
        proof {
            block::law_symbols_make_up_the_data(block@, encoder@.symbols);
            assert(encoder@ == self@.encoded(block@));
        }
        self.current = if self.adaptive {
            Some(encoder)
        } else {
            None
        };
        out
    }

    /// The current block's packets have all gone out: on to the next block. The
    /// old one is kept, where idle airtime may be spent on it.
    pub fn sent(&mut self, now: u128)
        requires
            old(self).wf(),
        ensures
            final(self).wf(),
            final(self)@ == old(self)@.sent(now),
    {
        let ghost before = self@;
        match self.current.take() {
            Some(encoder) => {
                self.ring.push_back(
                    BlockGen {
                        encoder,
                        next_repair_id: self.baseline_repair,
                        max_repair: self.max_repair,
                        created: now,
                    },
                );
                let ghost all = self.ring@;
                prune_ring(&mut self.ring, self.horizon, now);
                proof {
                    lemma_pruned_minting(before, all, now);
                }
            },
            None => {},
        }
        self.sbn = self.sbn.wrapping_add(1);
    }

    /// No fresh input: spends the idle slot on extra repair, if any block is
    /// still worth protecting.
    pub fn idle(&mut self, now: u128) -> (res: Idle)
        requires
            old(self).wf(),
        ensures
            final(self).wf(),
            final(self)@ == old(self)@.idled(now),
            match res {
                Idle::Repair(packet) => {
                    &&& old(self)@.pick(now).0 is Some
                    &&& old(self)@.has_id(now)
                    &&& packet@ == old(self)@.extra(now)
                    &&& packet@.data.len() == SYMBOL_SIZE
                },
                Idle::Nap => old(self)@.pick(now).0 is None,
                Idle::NoIds => old(self)@.pick(now).0 is Some && !old(self)@.has_id(now),
            },
    {
        let ghost before = self@;
        let ghost (all, rng) = (self.ring@, self.rng.state());
        prune_ring(&mut self.ring, self.horizon, now);
        let ghost kept = self.ring@;
        proof {
            lemma_pruned_minting(before, all, now);
            ring::law_pick_is_geometric(ring::live_blocks(kept), rng);
        }
        match pick_block(&self.ring, &mut self.rng) {
            Some(i) => {
                let k: u32 = self.ring[i].encoder.source_symbols();
                let next: u32 = self.ring[i].next_repair_id;
                if next >= ENCODING_SYMBOL_ID_LIMIT || k + next >= ENCODING_SYMBOL_ID_LIMIT {
                    return Idle::NoIds;
                }
                let mut extra = self.ring[i].encoder.repair_packets(next, 1);
                let packet: EncodingPacket = extra.pop().unwrap();
                let mut generation: BlockGen = self.ring.remove(i).unwrap();
                generation.next_repair_id = next + 1;
                self.ring.insert(i, generation);
                assert(self.ring@ =~= kept.update(i as int, generation));
                Idle::Repair(packet)
            },
            None => Idle::Nap,
        }
    }
}

/// An idle slot never goes to a block that had all its repair, and it is wasted
/// only if no block is left within the horizon that had not. What goes out is a repair
/// symbol that the block's receivers have not seen yet, beyond the baseline and
/// below the ceiling, and the block's next slot brings the one after it.
pub proof fn law_idle_slots_bring_fresh_repair(p: Pipeline, now: u128)
    requires
        p.valid(),
    ensures
        ({
            let kept = ring::pruned(p.ring, p.horizon, now);
            let pick = p.pick(now).0;
            &&& pick is None <==> kept.len() == 0
            &&& pick matches Some(i) ==> {
                let (old, k) = (kept[i], kept[i].encoder@.symbols.len());
                &&& 0 <= i < kept.len()
                &&& p.baseline <= old.next_repair_id < p.max_repair
                &&& p.has_id(now) ==> {
                    &&& p.extra(now).id.esi == k + old.next_repair_id
                    &&& p.idled(now).ring.len() == kept.len()
                    &&& p.idled(now).ring[i].next_repair_id == old.next_repair_id + 1
                    &&& p.idled(now).ring[i].encoder == old.encoder
                    &&& forall|j: int|
                        0 <= j < kept.len() && j != i ==> #[trigger] p.idled(now).ring[j] == kept[j]
                }
            }
        }),
{
    let kept = ring::pruned(p.ring, p.horizon, now);
    let live = ring::live_blocks(kept);
    lemma_pruned_minting(p, p.ring, now);
    ring::law_pick_is_geometric(live, p.rng);
    ring::law_prune_keeps_the_fresh(p.ring, p.horizon, now);
    if kept.len() > 0 {
        assert(!kept[0].is_exhausted());
        assert(live[0]);
    }
    if let Some(i) = p.pick(now).0 {
        assert(live[i]);
    }
}

/// Without headroom above the baseline, or when told not to adapt, the pipeline
/// sends the baseline repair and never mints more.
pub proof fn law_baseline_only_without_headroom(p: Pipeline, now: u128)
    requires
        p.valid(),
        !p.adaptive,
    ensures
        p.pick(now).0 is None,
        !p.sent(now).adaptive,
        p.sent(now).ring.len() == 0,
{
    lemma_pruned_minting(p, p.ring, now);
}

/// An idle slot is wasted only if every recent block has had its whole ceiling:
/// each of the last 64 that is within the horizon, in whatever order the blocks
/// came.
pub proof fn law_no_slot_is_wasted(p: Pipeline, now: u128, i: int)
    requires
        p.pick(now).0 is None,
        0 <= i < p.ring.len(),
        i >= p.ring.len() - 64,
        now <= p.ring[i].created || now - p.ring[i].created <= p.horizon,
    ensures
        p.ring[i].next_repair_id >= p.ring[i].max_repair,
{
    let kept = ring::pruned(p.ring, p.horizon, now);
    let at = ring::law_prune_keeps_what_can_be_used(p.ring, p.horizon, now);
    ring::law_pick_spares_full_blocks(kept, p.rng);
    if p.ring[i].next_repair_id < p.ring[i].max_repair {
        assert(ring::holds_back(p.ring, p.horizon, now, i));
        assert(ring::can_use(p.ring, p.horizon, now, i));
        let j = at.index_of(i);
        assert(at[j] == i);
        assert(kept[j].next_repair_id >= kept[j].max_repair);
    }
}

/// A slot that is not wasted goes to one of the last 64 blocks that is below its
/// ceiling and, where the blocks stand in order of time, within the horizon. It
/// carries that block's next repair symbol, under its number, as long as there
/// is a symbol id of 24 bits for it.
pub proof fn law_slot_goes_to_a_recent_block(p: Pipeline, now: u128) -> (i: int)
    requires
        p.pick(now).0 is Some,
    ensures
        0 <= i < p.ring.len(),
        i >= p.ring.len() - 64,
        p.ring[i].next_repair_id < p.ring[i].max_repair,
        p.picked(now) == p.ring[i],
        (forall|a: int, b: int|
            0 <= a <= b < p.ring.len() ==> (#[trigger] p.ring[a]).created <= (
            #[trigger] p.ring[b]).created) ==> now <= p.ring[i].created || now
            - p.ring[i].created <= p.horizon,
        ({
            let block = p.ring[i].encoder@;
            let esi = block.symbols.len() + p.ring[i].next_repair_id;
            &&& p.has_id(now) <==> esi < 0x100_0000
            &&& p.has_id(now) ==> {
                &&& p.extra(now).id.sbn == block.sbn
                &&& p.extra(now).id.esi == esi
                &&& p.extra(now).data == codec::repair_symbol(
                    block.symbols,
                    p.ring[i].next_repair_id as nat,
                )
            }
        }),
{
    let kept = ring::pruned(p.ring, p.horizon, now);
    let at = ring::law_prune_keeps_what_can_be_used(p.ring, p.horizon, now);
    ring::law_pick_spares_full_blocks(kept, p.rng);
    let n = p.pick(now).0->0;
    let i = at[n];
    assert(ring::can_use(p.ring, p.horizon, now, i));
    let j = choose|j: int| #[trigger]
        ring::holds_back(p.ring, p.horizon, now, j) && p.ring.len() - 64 <= j <= i;
    assert(p.ring[j] == p.ring[j]);
    i
}

/// After an idle slot the ring holds what pruning left of it, and only the block
/// that got the slot has changed: its next repair symbol is the one after.
/// Numbers, geometry and the block that is going out stay as they are.
pub proof fn law_idle_slot_changes_one_block(p: Pipeline, now: u128, j: int)
    ensures
        ({
            let kept = ring::pruned(p.ring, p.horizon, now);
            let after = p.idled(now);
            let spent = p.pick(now).0 is Some && p.has_id(now);
            &&& after.ring.len() == kept.len()
            &&& 0 <= j < kept.len() ==> {
                &&& after.ring[j].encoder == kept[j].encoder
                &&& after.ring[j].max_repair == kept[j].max_repair
                &&& after.ring[j].created == kept[j].created
                &&& after.ring[j].next_repair_id == (if spent && p.pick(now).0->0 == j {
                    kept[j].next_repair_id + 1
                } else {
                    kept[j].next_repair_id as int
                })
            }
            &&& after.rng == p.pick(now).1
            &&& after == (Pipeline { ring: after.ring, rng: after.rng, ..p })
        }),
{
    let kept = ring::pruned(p.ring, p.horizon, now);
    ring::law_pick_spares_full_blocks(kept, p.rng);
}

/// A pipeline starts with block number zero and nothing kept, and adapts if it
/// is told to and the ceiling leaves room above the baseline.
pub proof fn law_pipeline_starts_afresh(
    oti: fec::Oti,
    baseline: u32,
    max_repair: u32,
    adaptive: bool,
    horizon: u128,
)
    ensures
        ({
            let p = Pipeline::initial(oti, baseline, max_repair, adaptive, horizon);
            &&& p.oti == oti && p.baseline == baseline && p.max_repair == max_repair
            &&& p.horizon == horizon && p.sbn == 0 && p.current is None
            &&& p.ring.len() == 0
            &&& p.adaptive <==> adaptive && baseline < max_repair
            &&& p.rng == 0x9E37_79B9_7F4A_7C15
        }),
{
    assert(0x9E37_79B9_7F4A_7C15u64 | 1 == 0x9E37_79B9_7F4A_7C15u64) by (bit_vector);
}

/// Once a block has gone out the next has the number after it, modulo 256. The
/// block that went out stands last in the ring, before pruning, with repair from
/// the baseline up to the ceiling left to make; nothing else changes. Where it
/// has any left, pruning at that moment keeps it.
pub proof fn law_sent_block_is_kept(p: Pipeline, now: u128)
    ensures
        p.sent(now).sbn == (if p.sbn == 255 {
            0
        } else {
            p.sbn + 1
        }),
        p.sent(now).current is None,
        p.current is None ==> p.sent(now).ring == p.ring,
        p.current matches Some(encoder) ==> exists|all: Seq<BlockGen>|
            {
                &&& #[trigger] all.len() == p.ring.len() + 1
                &&& forall|i: int| 0 <= i < p.ring.len() ==> #[trigger] all[i] == p.ring[i]
                &&& all.last().encoder == encoder
                &&& all.last().next_repair_id == p.baseline
                &&& all.last().max_repair == p.max_repair
                &&& all.last().created == now
                &&& p.sent(now).ring == ring::pruned(all, p.horizon, now)
            },
        p.current is Some && p.baseline < p.max_repair ==> {
            let kept = p.sent(now).ring;
            &&& kept.len() > 0
            &&& kept.last().encoder == p.current->0
            &&& kept.last().next_repair_id == p.baseline
            &&& kept.last().created == now
        },
        p.sent(now) == (Pipeline {
            sbn: p.sent(now).sbn,
            current: None,
            ring: p.sent(now).ring,
            ..p
        }),
{
    if let Some(encoder) = p.current {
        let last = BlockGen {
            encoder,
            next_repair_id: p.baseline,
            max_repair: p.max_repair,
            created: now,
        };
        let all = p.ring.push(last);
        assert(all.len() == p.ring.len() + 1);
        assert(all.last() == last);
        assert(p.sent(now).ring == ring::pruned(all, p.horizon, now));
        let at = ring::law_prune_keeps_what_can_be_used(all, p.horizon, now);
        if p.baseline < p.max_repair {
            let j = all.len() - 1;
            assert(ring::holds_back(all, p.horizon, now, j));
            assert(ring::can_use(all, p.horizon, now, j));
            let i = at.index_of(j);
            assert(at[i] == j);
            if i < at.len() - 1 {
                assert(at[i] < at[at.len() - 1]);
                assert(ring::can_use(all, p.horizon, now, at[at.len() - 1]));
            }
        }
    }
}

/// Block sizes that fit hold at least one symbol of 163 bytes, only whole ones,
/// and no more than RaptorQ takes in one block.
pub proof fn law_block_sizes_are_whole_symbols(block_size: int)
    ensures
        block_size_fits(block_size) <==> exists|k: int|
            1 <= k <= 56_403 && block_size == #[trigger] (k * 163),
{
    if block_size_fits(block_size) {
        let k = block_size / 163;
        assert(block_size == k * 163);
    }
}

/// The packets of a block have its number. Packet `esi` carries source symbol
/// `esi`, up to the last one, and repair symbol `esi - k` after that.
pub proof fn law_packets_carry_the_block(block: codec::EncodedBlock, esi: u32)
    ensures
        ({
            let packet = block.packet(esi as nat);
            &&& packet.id.sbn == block.sbn
            &&& packet.id.esi == esi
            &&& esi < block.symbols.len() ==> packet.data == block.symbols[esi as int]
            &&& esi >= block.symbols.len() ==> packet.data == codec::repair_symbol(
                block.symbols,
                (esi - block.symbols.len()) as nat,
            )
        }),
{
}

/// A block of input goes out under the pipeline's number; its source symbols, one
/// after the other, are the input.
pub proof fn law_encoded_block_is_the_input(p: Pipeline, data: Seq<u8>, i: int)
    requires
        data.len() % 163 == 0,
    ensures
        p.encoded(data).sbn == p.sbn,
        p.encoded(data).symbols.len() * 163 == data.len(),
        0 <= i < data.len() ==> p.encoded(data).symbols[i / 163].len() == 163 && p.encoded(
            data,
        ).symbols[i / 163][i % 163] == data[i],
        p.k() == p.oti.transfer_length as int / 163,
{
}

/// The slot goes to the freshest block that can use it if the first flip shows
/// heads, to the next one if the second is the first to do so, and so on; to the
/// oldest also if no flip does. The generator moves on by the flips made.
pub proof fn law_idle_slots_favour_the_freshest(p: Pipeline, now: u128)
    ensures
        ({
            let n = ring::pruned(p.ring, p.horizon, now).len();
            let (pick, rng) = p.pick(now);
            &&& pick is None <==> n == 0
            &&& pick is None ==> rng == p.rng
            &&& pick matches Some(i) ==> {
                let t = (n - 1 - i) as nat;
                &&& 0 <= i < n
                &&& forall|u: nat| 1 <= u <= t ==> !ring::heads(#[trigger] ring::drawn(p.rng, u))
                &&& i > 0 ==> ring::heads(ring::drawn(p.rng, t + 1))
                &&& rng == ring::drawn(p.rng, t + 1)
            }
        }),
{
    let kept = ring::pruned(p.ring, p.horizon, now);
    let live = ring::live_blocks(kept);
    ring::law_prune_keeps_the_fresh(p.ring, p.horizon, now);
    ring::law_pick_is_geometric(live, p.rng);
    assert forall|i: int| 0 <= i < live.len() implies #[trigger] live[i] by {
        assert(!kept[i].is_exhausted());
    }
    if live.len() > 0 {
        assert(live[0]);
    }
    if let Some(i) = p.pick(now).0 {
        lemma_all_live(live, i + 1);
    }
}

proof fn lemma_all_live(live: Seq<bool>, from: int)
    requires
        0 <= from <= live.len(),
        forall|i: int| 0 <= i < live.len() ==> #[trigger] live[i],
    ensures
        ring::live_count(live, from) == live.len() - from,
    decreases live.len() - from,
{
    if from < live.len() {
        assert(live[from]);
        lemma_all_live(live, from + 1);
    }
}

/// All of a block goes out once: every source symbol and every baseline repair
/// symbol, under its own id and the block's number, at the place that the
/// interval gives it.
pub proof fn law_block_goes_out_whole(
    out: Seq<EncodingPacket>,
    block: codec::EncodedBlock,
    repair: int,
    interval: int,
    esi: int,
)
    requires
        carried(out) == emission(block, repair, interval),
        0 <= repair,
        0 <= interval,
        0 <= esi < block.symbols.len() + repair,
        block.symbols.len() + repair <= u32::MAX,
    ensures
        ({
            let k = block.symbols.len() as int;
            let at = if esi < k {
                interleave::source_position(esi, repair, interval)
            } else {
                interleave::repair_position(esi - k, k, interval)
            };
            &&& out.len() == k + repair
            &&& 0 <= at < out.len()
            &&& out[at]@.id.sbn == block.sbn
            &&& out[at]@.id.esi == esi
            &&& esi < k ==> out[at]@.data == block.symbols[esi]
            &&& esi >= k ==> out[at]@.data == codec::repair_symbol(
                block.symbols,
                (esi - k) as nat,
            )
        }),
{
    let (k, v) = (block.symbols.len() as int, interval);
    assert(carried(out).len() == out.len());
    let at = if esi < k {
        interleave::source_position(esi, repair, v)
    } else {
        interleave::repair_position(esi - k, k, v)
    };
    if esi < k {
        interleave::lemma_position_bounds(k, repair, v, esi);
    } else {
        assert((esi - k + 1) * v >= 0) by (nonlinear_arith)
            requires
                esi >= k,
                v >= 0,
        ;
    }
    interleave::law_every_place_is_taken(k, repair, v, at);
    let (a, c) = interleave::mixed(k, repair, v, at);
    if interleave::repair_turn(k, repair, v, a, c) {
        if esi < k {
            interleave::law_interleave_is_a_merge(k, repair, v, esi, esi, c, c);
        } else if c < esi - k {
            lemma_repair_places_differ(k, v, c, esi - k);
        } else if esi - k < c {
            lemma_repair_places_differ(k, v, esi - k, c);
        }
    } else {
        if esi >= k {
            interleave::law_interleave_is_a_merge(k, repair, v, a, a, esi - k, esi - k);
        } else if a < esi {
            interleave::lemma_source_places_differ(repair, v, a, esi);
        } else if esi < a {
            interleave::lemma_source_places_differ(repair, v, esi, a);
        }
    }
    assert(carried(out)[at] == out[at]@);
}

proof fn lemma_repair_places_differ(k: int, v: int, a: int, b: int)
    requires
        0 <= v,
        0 <= a < b,
    ensures
        interleave::repair_position(a, k, v) < interleave::repair_position(b, k, v),
{
    assert((a + 1) * v <= (b + 1) * v) by (nonlinear_arith)
        requires
            a <= b,
            v >= 0,
    ;
}

/// A block size is refused, and named, if it is not a positive multiple of 163;
/// otherwise the number of symbols that comes back, times 163, is the size. A
/// rate is refused if it is zero.
pub proof fn law_configuration_is_checked(block_size: usize, rate: u64)
    ensures
        symbols_in_block(block_size) is Err <==> block_size == 0 || block_size % 163 != 0,
        symbols_in_block(block_size) matches Err(e) ==> e == ConfigError::BlockSize(block_size),
        symbols_in_block(block_size) matches Ok(k) ==> (block_size <= 163 * u32::MAX ==> k * 163
            == block_size),
        rate_works(rate) is Err <==> rate == 0,
        rate_works(rate) matches Err(e) ==> e == ConfigError::Rate,
{
}

} // verus!
