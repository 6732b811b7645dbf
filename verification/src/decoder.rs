//! The decoder's reassembly: from wire packets to the blocks of the stream, in
//! order.

use crate::block;
use crate::block::{oti_is_sane, Block, BlockState};
use crate::clock;
use crate::clock::{nanos_from_millis, nanos_since};
use crate::fec;
use crate::fec::{EncodingPacket, ObjectTransmissionInformation, PayloadId};
use crate::frame;
use crate::frame::{read_packet, Frame, Heard, ParsedFrame, Reading};
use crate::stats::{IntervalStats, Totals};
use crate::tracking;
use crate::tracking::{cc_gap, unwrap_sbn};
use crate::ts::{ParseError, DEFAULT_BLOCK_SIZE, SYMBOL_SIZE};
use std::collections::BTreeMap;
use vstd::prelude::*;
use vstd::std_specs::iter::IteratorSpec;

verus! {

broadcast use {vstd::std_specs::btree::group_btree_axioms, vstd::laws_cmp::group_laws_cmp};

/// Block numbers stay below this: unwrapping looks up to 127 blocks ahead of
/// the cursor, in signed 64 bits.
pub const CURSOR_LIMIT: u64 = 0x7FFF_FFFF_FFFF_FF00;

/// What became of a packet.
#[derive(Debug, Clone, Copy)]
pub enum Intake {
    /// A symbol for a block still open.
    Accepted { block: u64 },
    /// A symbol for a block already emitted: unneeded repair, not loss.
    Redundant { block: u64, cursor: u64 },
    /// A data frame whose transmission information is garbage.
    Insane,
    /// Stuffing.
    Noop,
    /// Not a frame of this link.
    Unparseable(ParseError),
    /// A symbol that RaptorQ cannot take: one of another block than the open one
    /// that its number names, or the one that would have a block put together
    /// that has no sub-blocks or no alignment. Nothing was changed.
    Refused,
}

/// The state of reassembly.
#[verifier::ext_equal]
pub struct Reassembly {
    pub pid: u16,
    /// How long a block may stay incomplete, in nanoseconds.
    pub timeout: u128,
    /// How many blocks past the cursor may be open.
    pub max_in_flight: u64,
    /// The open blocks, by number.
    pub pool: Map<u64, Block>,
    /// The block that is emitted next.
    pub cursor: u64,
    /// The furthest block for which anything came.
    pub highest_seen: u64,
    /// A first block has fixed the numbering.
    pub started: bool,
    /// The continuity counter of the last frame.
    pub last_cc: Option<u8>,
    /// Packets of the stream that came since then and could not be read, counted
    /// up to 15: no gap is seen as longer.
    pub unread: u8,
    pub totals: Totals,
    pub stats: IntervalStats,
}

/// A stretch of the output: one block of the stream.
#[verifier::ext_equal]
pub enum Emitted {
    Decoded { block: u64, data: Seq<u8> },
    BestEffort {
        block: u64,
        recovered: nat,
        repair: nat,
        k: nat,
        timed_out: bool,
        data: Seq<u8>,
    },
    Zero { block: u64, data: Seq<u8> },
}

impl Emitted {
    /// The number of the block.
    pub open spec fn number(self) -> u64 {
        match self {
            Emitted::Decoded { block, .. } => block,
            Emitted::BestEffort { block, .. } => block,
            Emitted::Zero { block, .. } => block,
        }
    }

    /// The bytes that go out.
    pub open spec fn data(self) -> Seq<u8> {
        match self {
            Emitted::Decoded { data, .. } => data,
            Emitted::BestEffort { data, .. } => data,
            Emitted::Zero { data, .. } => data,
        }
    }
}

/// A block to be written out.
#[derive(Debug)]
pub enum Emission {
    /// The block, recovered whole.
    Decoded { block: u64, data: Vec<u8> },
    /// The block as far as its source symbols came in.
    BestEffort {
        block: u64,
        /// Source symbols that came in.
        recovered: usize,
        /// Repair symbols that came in.
        repair: u32,
        /// Source symbols that the block has.
        k: u32,
        /// The block was overdue; if not, it held up others.
        timed_out: bool,
        data: Vec<u8>,
    },
    /// Zeros in place of a block of which nothing came in.
    Zero { block: u64, data: Vec<u8> },
}

impl View for Emission {
    type V = Emitted;

    open spec fn view(&self) -> Emitted {
        match *self {
            Emission::Decoded { block, data } => Emitted::Decoded { block, data: data@ },
            Emission::BestEffort { block, recovered, repair, k, timed_out, data } =>
                Emitted::BestEffort {
                block,
                recovered: recovered as nat,
                repair: repair as nat,
                k: k as nat,
                timed_out,
                data: data@,
            },
            Emission::Zero { block, data } => Emitted::Zero { block, data: data@ },
        }
    }
}

/// What an optional [`Emission`] says.
pub open spec fn emission_of(emission: Option<Emission>) -> Option<Emitted> {
    match emission {
        Some(e) => Some(e@),
        None => None,
    }
}

/// What is heard keeps to the widths of the wire.
pub open spec fn on_wire(heard: Heard) -> bool {
    match heard {
        Heard::Frame(Frame::Data { cc, oti, id, symbol }) => cc < 16 && symbol.len()
            == SYMBOL_SIZE,
        Heard::Frame(Frame::Noop { cc }) => cc < 16,
        _ => true,
    }
}

impl Reassembly {
    pub open spec fn initial(pid: u16, timeout: u128, max_in_flight: u64) -> Reassembly {
        Reassembly {
            pid,
            timeout,
            max_in_flight,
            pool: Map::empty(),
            cursor: 0,
            highest_seen: 0,
            started: false,
            last_cc: None,
            unread: 0,
            totals: Totals::zeroed(),
            stats: IntervalStats::zeroed(),
        }
    }

    /// What every reachable state satisfies: open blocks lie between the cursor
    /// and the furthest block seen, at most 127 blocks on.
    pub open spec fn valid(self) -> bool {
        &&& self.pool.dom().finite()
        &&& forall|n: u64| #[trigger]
            self.pool.contains_key(n) ==> self.cursor <= n <= self.highest_seen
                && self.pool[n].valid()
        &&& self.highest_seen <= self.cursor + 127
        &&& self.cursor <= self.highest_seen + 1
        &&& !self.started ==> self.pool =~= Map::empty() && self.cursor == 0 && self.highest_seen
            == 0
        &&& self.last_cc matches Some(cc) ==> cc < 16
        &&& self.unread <= 15
    }

    /// No count is about to run over.
    pub open spec fn has_room(self) -> bool {
        &&& self.cursor < CURSOR_LIMIT
        &&& self.totals.has_room()
        &&& self.stats.has_room()
    }

    /// How many packets were lost between the last frame and one with counter
    /// `cc`: those missing from the series, but for as many as came and could not
    /// be read.
    pub open spec fn lost_before(self, cc: u8) -> int {
        let gap = tracking::missed(self.last_cc, cc);
        if gap > self.unread {
            gap - self.unread
        } else {
            0
        }
    }

    /// The state after the gap between the last frame and one with counter `cc`.
    pub open spec fn counted(self, cc: u8) -> Reassembly {
        let gap = self.lost_before(cc);
        Reassembly {
            last_cc: Some(cc),
            unread: 0,
            totals: Totals { lost_packets: (self.totals.lost_packets + gap) as u64, ..self.totals },
            stats: IntervalStats { pkts_lost: (self.stats.pkts_lost + gap) as u64, ..self.stats },
            ..self
        }
    }

    /// The first sane data frame fixes where the stream starts.
    pub open spec fn opened(self, sbn: u8) -> Reassembly {
        if self.started {
            self
        } else {
            Reassembly { cursor: sbn as u64, highest_seen: sbn as u64, started: true, ..self }
        }
    }

    /// The block that a sane data frame belongs to.
    pub open spec fn target(self, sbn: u8) -> u64 {
        tracking::unwrapped(self.opened(sbn).cursor, sbn) as u64
    }

    /// The block's state, where it is open, or that of a block just begun.
    pub open spec fn target_block(self, oti: fec::Oti, sbn: u8, now: u128) -> Block {
        if self.pool.contains_key(self.target(sbn)) {
            self.pool[self.target(sbn)]
        } else {
            Block::fresh(sbn, oti, now)
        }
    }

    /// RaptorQ can take the symbol of this data frame, or is not asked to.
    pub open spec fn can_take(self, oti: fec::Oti, id: fec::SymbolId) -> bool {
        block::sane(oti) && self.target(id.sbn) >= self.opened(id.sbn).cursor
            ==> self.target_block(oti, id.sbn, 0).accepts(id)
    }

    /// What becomes of what was heard.
    pub open spec fn intake(self, heard: Heard) -> Intake {
        match heard {
            Heard::Garbled(e) => Intake::Unparseable(e),
            Heard::Foreign(e) => Intake::Unparseable(e),
            Heard::Frame(Frame::Noop { cc }) => Intake::Noop,
            Heard::Frame(Frame::Data { cc, oti, id, symbol }) => {
                if !self.can_take(oti, id) {
                    Intake::Refused
                } else if !block::sane(oti) {
                    Intake::Insane
                } else if self.target(id.sbn) < self.opened(id.sbn).cursor {
                    Intake::Redundant {
                        block: self.target(id.sbn),
                        cursor: self.opened(id.sbn).cursor,
                    }
                } else {
                    Intake::Accepted { block: self.target(id.sbn) }
                }
            },
        }
    }

    /// The state after a packet.
    pub open spec fn taken(self, heard: Heard, now: u128) -> Reassembly {
        match heard {
            Heard::Garbled(_) => self.passed().unparseable(),
            Heard::Foreign(_) => self.unparseable(),
            Heard::Frame(Frame::Noop { cc }) => {
                let s = self.counted(cc);
                Reassembly {
                    stats: IntervalStats { noops: (s.stats.noops + 1) as u64, ..s.stats },
                    ..s
                }
            },
            Heard::Frame(Frame::Data { cc, oti, id, symbol }) => {
                match self.intake(heard) {
                    Intake::Refused => self,
                    Intake::Insane => self.counted(cc).unparseable(),
                    Intake::Redundant { .. } => self.counted(cc).opened(id.sbn).redundant(),
                    _ => self.counted(cc).opened(id.sbn).accepted(
                        self.target(id.sbn),
                        self.target_block(oti, id.sbn, now).ingested(
                            fec::Packet { id, data: symbol },
                        ),
                    ),
                }
            },
        }
    }

    /// A packet of the stream came whose own counter cannot be trusted. It may be
    /// the one that the next gap is about, which is then no loss.
    pub open spec fn passed(self) -> Reassembly {
        Reassembly {
            unread: if self.unread < 15 {
                (self.unread + 1) as u8
            } else {
                15
            },
            ..self
        }
    }

    pub open spec fn unparseable(self) -> Reassembly {
        Reassembly {
            stats: IntervalStats {
                pkts_unparseable: (self.stats.pkts_unparseable + 1) as u64,
                ..self.stats
            },
            ..self
        }
    }

    pub open spec fn redundant(self) -> Reassembly {
        Reassembly {
            totals: Totals {
                redundant_packets: (self.totals.redundant_packets + 1) as u64,
                ..self.totals
            },
            stats: IntervalStats {
                pkts_redundant: (self.stats.pkts_redundant + 1) as u64,
                ..self.stats
            },
            ..self
        }
    }

    pub open spec fn accepted(self, n: u64, block: Block) -> Reassembly {
        Reassembly {
            pool: self.pool.insert(n, block),
            highest_seen: if n > self.highest_seen {
                n
            } else {
                self.highest_seen
            },
            stats: IntervalStats { pkts_ok: (self.stats.pkts_ok + 1) as u64, ..self.stats },
            ..self
        }
    }

    /// Some block that is open lies too far ahead of the cursor for it to wait.
    pub open spec fn forced(self) -> bool {
        exists|n: u64| #[trigger]
            self.pool.contains_key(n) && n >= self.cursor + self.max_in_flight
    }

    /// Some open block has been waiting for too long.
    pub open spec fn overdue(self, now: u128) -> bool {
        exists|n: u64| #[trigger]
            self.pool.contains_key(n) && clock::elapsed(self.pool[n].first_seen, now)
                >= self.timeout
    }

    /// What is to be emitted now: the block at the cursor if it is complete, or
    /// as far as it got if it is overdue or holds up others; zeros in its place
    /// if nothing came for it and it holds up others, too many of them or for too
    /// long.
    pub open spec fn due(self, now: u128) -> Option<Emitted> {
        if self.pool.contains_key(self.cursor) {
            let block = self.pool[self.cursor];
            let timed_out = clock::elapsed(block.first_seen, now) >= self.timeout;
            match block.completed() {
                Some(data) => Some(Emitted::Decoded { block: self.cursor, data }),
                None => if timed_out || self.forced() {
                    Some(
                        Emitted::BestEffort {
                            block: self.cursor,
                            recovered: block.sources().len(),
                            repair: block.repair_count(),
                            k: block.setup.k,
                            timed_out,
                            data: block.best_effort(),
                        },
                    )
                } else {
                    None
                },
            }
        } else if self.started && (self.forced() || self.overdue(now) || self.highest_seen
            >= self.cursor + self.max_in_flight) {
            Some(
                Emitted::Zero {
                    block: self.cursor,
                    data: Seq::new(DEFAULT_BLOCK_SIZE as nat, |i: int| 0u8),
                },
            )
        } else {
            None
        }
    }

    /// The state after an emission.
    pub open spec fn emitted(self, emission: Emitted) -> Reassembly {
        let (totals, stats) = (self.totals, self.stats);
        Reassembly {
            cursor: (self.cursor + 1) as u64,
            pool: self.pool.remove(self.cursor),
            totals: match emission {
                Emitted::Decoded { .. } => Totals {
                    decoded_blocks: (totals.decoded_blocks + 1) as u64,
                    ..totals
                },
                Emitted::BestEffort { .. } => Totals {
                    besteffort_blocks: (totals.besteffort_blocks + 1) as u64,
                    ..totals
                },
                Emitted::Zero { .. } => Totals {
                    zero_blocks: (totals.zero_blocks + 1) as u64,
                    ..totals
                },
            },
            stats: match emission {
                Emitted::Decoded { .. } => IntervalStats {
                    decoded: (stats.decoded + 1) as u64,
                    ..stats
                },
                Emitted::BestEffort { recovered, repair, k, timed_out, .. } => IntervalStats {
                    besteffort: (stats.besteffort + 1) as u64,
                    be_syms_rcvd: (stats.be_syms_rcvd + recovered + repair) as u64,
                    be_syms_needed: (stats.be_syms_needed + k) as u64,
                    be_timed_out: if timed_out {
                        (stats.be_timed_out + 1) as u64
                    } else {
                        stats.be_timed_out
                    },
                    be_forced: if timed_out {
                        stats.be_forced
                    } else {
                        (stats.be_forced + 1) as u64
                    },
                    ..stats
                },
                Emitted::Zero { .. } => IntervalStats { zero: (stats.zero + 1) as u64, ..stats },
            },
            ..self
        }
    }

    /// The state without open blocks, and with the cursor at `cursor`.
    pub open spec fn flushed(self, cursor: u64) -> Reassembly {
        Reassembly { pool: Map::empty(), cursor, ..self }
    }

    /// `cursor` follows the last open block; without any it is the old cursor.
    pub open spec fn ends_at(self, cursor: u64) -> bool {
        &&& forall|n: u64| #[trigger] self.pool.contains_key(n) ==> n < cursor
        &&& cursor == self.cursor || self.cursor < cursor && self.pool.contains_key(
            (cursor - 1) as u64,
        )
    }

    /// The open blocks from number `from` up to `highest_seen`, in order, each
    /// complete or as far as it got.
    pub open spec fn rest(self, from: int) -> Seq<Seq<u8>>
        decreases self.highest_seen + 1 - from,
    {
        if from > self.highest_seen {
            Seq::empty()
        } else if self.pool.contains_key(from as u64) {
            seq![self.pool[from as u64].as_is()] + self.rest(from + 1)
        } else {
            self.rest(from + 1)
        }
    }
}

/// The bytes of several vectors.
pub open spec fn contents(out: Seq<Vec<u8>>) -> Seq<Seq<u8>> {
    out.map_values(|v: Vec<u8>| v@)
}

/// Reassembles the stream from wire packets.
pub struct Decoder {
    pid: u16,
    timeout: u128,
    max_in_flight: u64,
    pool: BTreeMap<u64, BlockState>,
    cursor: u64,
    highest_seen: u64,
    started: bool,
    last_cc: Option<u8>,
    unread: u8,
    totals: Totals,
    stats: IntervalStats,
}

impl View for Decoder {
    type V = Reassembly;

    closed spec fn view(&self) -> Reassembly {
        Reassembly {
            pid: self.pid,
            timeout: self.timeout,
            max_in_flight: self.max_in_flight,
            pool: self.pool@.map_values(|b: BlockState| b@),
            cursor: self.cursor,
            highest_seen: self.highest_seen,
            started: self.started,
            last_cc: self.last_cc,
            unread: self.unread,
            totals: self.totals,
            stats: self.stats,
        }
    }
}

/// The keys of the pool are the numbers of open blocks.
proof fn lemma_keys_are_open(decoder: Decoder)
    ensures
        ({
            let keys = vstd::std_specs::btree::spec_keys_iter(&decoder.pool).remaining();
            forall|i: int|
                0 <= i < keys.len() ==> decoder@.pool.contains_key(*#[trigger] keys[i])
        }),
{
    let keys = vstd::std_specs::btree::spec_keys_iter(&decoder.pool).remaining();
    assert forall|i: int| 0 <= i < keys.len() implies decoder@.pool.contains_key(
        *#[trigger] keys[i],
    ) by {
        assert(keys.unref()[i] == *keys[i]);
        assert(keys.unref().to_set().contains(*keys[i]));
    }
}

impl Decoder {
    /// The state of every open block is well formed.
    pub closed spec fn blocks_wf(self) -> bool {
        forall|n: u64| #[trigger] self.pool@.contains_key(n) ==> self.pool@[n].wf()
    }

    pub open spec fn wf(self) -> bool {
        self@.valid() && self.blocks_wf()
    }

    pub fn new(pid: u16, block_timeout_ms: u64, max_in_flight: u64) -> (decoder: Self)
        ensures
            decoder.wf(),
            decoder@ == Reassembly::initial(
                pid,
                (block_timeout_ms * 1_000_000) as u128,
                max_in_flight,
            ),
    {
        let decoder = Decoder {
            pid,
            timeout: nanos_from_millis(block_timeout_ms),
            max_in_flight,
            pool: BTreeMap::new(),
            cursor: 0,
            highest_seen: 0,
            started: false,
            last_cc: None,
            unread: 0,
            totals: Totals::default(),
            stats: IntervalStats::default(),
        };
        assert(decoder@.pool =~= Map::empty());
        decoder
    }

    /// Whether the counts can take another packet or emission.
    pub fn check_room(&self) -> (res: bool)
        ensures
            res == self@.has_room(),
    {
        self.cursor < CURSOR_LIMIT && self.totals.check_room() && self.stats.check_room()
    }

    /// Counts what is missing between the last frame and this one.
    fn count_gap(&mut self, cc: u8)
        requires
            old(self).wf(),
            old(self)@.has_room(),
            cc < 16,
        ensures
            final(self).wf(),
            final(self)@ == old(self)@.counted(cc),
            final(self).pool == old(self).pool,
    {
        let gap: u64 = cc_gap(&mut self.last_cc, cc).saturating_sub(self.unread as u64);
        self.unread = 0;
        self.stats.pkts_lost = self.stats.pkts_lost + gap;
        self.totals.lost_packets = self.totals.lost_packets + gap;
    }

    /// Takes in one packet as it came off the link.
    pub fn on_packet(&mut self, bytes: &[u8], now: u128) -> (res: Intake)
        requires
            old(self).wf(),
            old(self)@.has_room(),
        ensures
            final(self).wf(),
            final(self)@ == old(self)@.taken(frame::heard(bytes@, old(self)@.pid), now),
            res == old(self)@.intake(frame::heard(bytes@, old(self)@.pid)),
    {
        let reading = read_packet(bytes, self.pid);
        self.on_reading(reading, now)
    }

    /// Takes in what was heard of one packet.
    pub fn on_reading(&mut self, reading: Reading, now: u128) -> (res: Intake)
        requires
            old(self).wf(),
            old(self)@.has_room(),
            on_wire(reading@),
        ensures
            final(self).wf(),
            final(self)@ == old(self)@.taken(reading@, now),
            res == old(self)@.intake(reading@),
    {
        match reading {
            Reading::Frame(ParsedFrame::Data { cc, oti, payload_id, symbol }) => {
                self.on_data(cc, oti, payload_id, symbol, now)
            },
            Reading::Frame(ParsedFrame::Noop { cc }) => {
                self.count_gap(cc);
                self.stats.noops = self.stats.noops + 1;
                Intake::Noop
            },
            Reading::Garbled(e) => {
                if self.unread < 15 {
                    self.unread = self.unread + 1;
                }
                self.stats.pkts_unparseable = self.stats.pkts_unparseable + 1;
                Intake::Unparseable(e)
            },
            Reading::Foreign(e) => {
                self.stats.pkts_unparseable = self.stats.pkts_unparseable + 1;
                Intake::Unparseable(e)
            },
        }
    }

    fn on_data(
        &mut self,
        cc: u8,
        oti: ObjectTransmissionInformation,
        payload_id: PayloadId,
        symbol: Vec<u8>,
        now: u128,
    ) -> (res: Intake)
        requires
            old(self).wf(),
            old(self)@.has_room(),
            cc < 16,
            symbol@.len() == SYMBOL_SIZE,
        ensures
            final(self).wf(),
            ({
                let heard = Heard::Frame(
                    Frame::Data { cc, oti: oti@, id: payload_id@, symbol: symbol@ },
                );
                &&& final(self)@ == old(self)@.taken(heard, now)
                &&& res == old(self)@.intake(heard)
            }),
    {
        if !oti_is_sane(&oti) {
            // Corruption that slipped past the framing. RaptorQ would fail on it,
            // so it is dropped like any unusable frame.
            self.count_gap(cc);
            self.stats.pkts_unparseable = self.stats.pkts_unparseable + 1;
            return Intake::Insane;
        }
        let sbn: u8 = payload_id.source_block_number();
        let cursor: u64 = if self.started {
            self.cursor
        } else {
            sbn as u64
        };
        let n: u64 = unwrap_sbn(cursor, sbn);
        let mut begun: Option<BlockState> = None;
        if n >= cursor {
            let fits: bool = match self.pool.get(&n) {
                Some(block) => block.accepts(&payload_id),
                None => {
                    let block = BlockState::new(sbn, &oti, now);
                    let fits: bool = block.accepts(&payload_id);
                    begun = Some(block);
                    fits
                },
            };
            if !fits {
                return Intake::Refused;
            }
        }
        self.count_gap(cc);
        if !self.started {
            self.cursor = cursor;
            self.highest_seen = cursor;
            self.started = true;
        }
        if n < cursor {
            self.totals.redundant_packets = self.totals.redundant_packets + 1;
            self.stats.pkts_redundant = self.stats.pkts_redundant + 1;
            return Intake::Redundant { block: n, cursor };
        }
        if n > self.highest_seen {
            self.highest_seen = n;
        }
        self.stats.pkts_ok = self.stats.pkts_ok + 1;
        let ghost before = self.pool@;
        let mut block: BlockState = match self.pool.remove(&n) {
            Some(block) => block,
            None => begun.unwrap(),
        };
        block.ingest(EncodingPacket::new(payload_id, symbol));
        self.pool.insert(n, block);
        proof {
            let views = |b: BlockState| b@;
            assert(self.pool@.map_values(views) =~= before.map_values(views).insert(n, block@));
        }
        Intake::Accepted { block: n }
    }

    fn should_force(&self) -> (res: bool)
        requires
            self.wf(),
        ensures
            res == self@.forced(),
    {
        let mut found: bool = false;
        let (cursor, max): (u64, u64) = (self.cursor, self.max_in_flight);
        proof {
            lemma_keys_are_open(*self);
        }
        for key in it: self.pool.keys()
            invariant
                self.wf(),
                cursor == self.cursor,
                max == self.max_in_flight,
                forall|i: int|
                    0 <= i < it.seq().len() ==> self@.pool.contains_key(*#[trigger] it.seq()[i]),
                found ==> self@.forced(),
                forall|n: u64| #[trigger]
                    self@.pool.contains_key(n) && n >= cursor + max ==> found || exists|i: int|
                        it.index() <= i < it.seq().len() && *(#[trigger] it.seq()[i]) == n,
        {
            let n: u64 = *key;
            assert(self@.pool.contains_key(n));
            if n - cursor >= max {
                found = true;
            }
        }
        found
    }

    fn is_overdue(&self, now: u128) -> (res: bool)
        requires
            self.wf(),
        ensures
            res == self@.overdue(now),
    {
        let mut found: bool = false;
        proof {
            lemma_keys_are_open(*self);
        }
        for key in it: self.pool.keys()
            invariant
                self.wf(),
                forall|i: int|
                    0 <= i < it.seq().len() ==> self@.pool.contains_key(*#[trigger] it.seq()[i]),
                found ==> self@.overdue(now),
                forall|n: u64| #[trigger]
                    self@.pool.contains_key(n) && clock::elapsed(self@.pool[n].first_seen, now)
                        >= self@.timeout ==> found || exists|i: int|
                        it.index() <= i < it.seq().len() && *(#[trigger] it.seq()[i]) == n,
        {
            let n: u64 = *key;
            assert(self@.pool.contains_key(n));
            assert(self.pool@.contains_key(n));
            match self.pool.get(&n) {
                Some(state) => {
                    if nanos_since(state.first_seen(), now) >= self.timeout {
                        found = true;
                    }
                },
                None => {},
            }
        }
        found
    }

    /// Emits the block at the cursor, if its time has come. To be called until it
    /// gives nothing.
    pub fn next_emission(&mut self, now: u128) -> (res: Option<Emission>)
        requires
            old(self).wf(),
            old(self)@.has_room(),
        ensures
            final(self).wf(),
            emission_of(res) == old(self)@.due(now),
            final(self)@ == match old(self)@.due(now) {
                Some(emission) => old(self)@.emitted(emission),
                None => old(self)@,
            },
    {
        let should_force: bool = self.should_force();
        let block: u64 = self.cursor;
        let ghost pool = self.pool@;
        let emission: Emission = match self.pool.get(&block) {
            Some(state) => {
                assert(self@.pool.contains_key(block));
                let complete: bool = state.is_complete();
                let timed_out: bool = nanos_since(state.first_seen(), now) >= self.timeout;
                if !complete && !timed_out && !should_force {
                    return None;
                }
                let state: BlockState = self.pool.remove(&block).unwrap();
                if complete {
                    let data: Vec<u8> = state.into_completed().unwrap();
                    self.totals.decoded_blocks = self.totals.decoded_blocks + 1;
                    self.stats.decoded = self.stats.decoded + 1;
                    Emission::Decoded { block, data }
                } else {
                    let recovered: usize = state.source_count();
                    let repair: u32 = state.repair_count();
                    let k: u32 = state.k();
                    let data: Vec<u8> = state.best_effort();
                    proof {
                        block::lemma_source_count(state@);
                    }
                    self.totals.besteffort_blocks = self.totals.besteffort_blocks + 1;
                    self.stats.besteffort = self.stats.besteffort + 1;
                    self.stats.be_syms_rcvd = self.stats.be_syms_rcvd + (recovered as u64
                        + repair as u64);
                    self.stats.be_syms_needed = self.stats.be_syms_needed + k as u64;
                    if timed_out {
                        self.stats.be_timed_out = self.stats.be_timed_out + 1;
                    } else {
                        self.stats.be_forced = self.stats.be_forced + 1;
                    }
                    Emission::BestEffort { block, recovered, repair, k, timed_out, data }
                }
            },
            None => {
                let held_up: bool = self.highest_seen >= block && self.highest_seen - block
                    >= self.max_in_flight;
                if !self.started || !(should_force || held_up || self.is_overdue(now)) {
                    return None;
                }
                self.totals.zero_blocks = self.totals.zero_blocks + 1;
                self.stats.zero = self.stats.zero + 1;
                Emission::Zero { block, data: vec![0u8;DEFAULT_BLOCK_SIZE] }
            },
        };
        self.cursor = block + 1;
        proof {
            let views = |b: BlockState| b@;
            assert(self.pool@ =~= pool.remove(block));
            assert(self.pool@.map_values(views) =~= pool.map_values(views).remove(block));
        }
        Some(emission)
    }

    /// Gives up every open block, in order, once no more packets come: each
    /// complete or as far as it got. Blocks of which nothing came are passed over.
    pub fn flush_remaining(&mut self) -> (out: Vec<Vec<u8>>)
        requires
            old(self).wf(),
            old(self)@.cursor < CURSOR_LIMIT,
        ensures
            final(self).wf(),
            contents(out@) == old(self)@.rest(old(self)@.cursor as int),
            final(self)@ == old(self)@.flushed(final(self)@.cursor),
            old(self)@.ends_at(final(self)@.cursor),
    {
        let mut out: Vec<Vec<u8>> = Vec::new();
        let ghost all = self@;
        let mut n: u64 = self.cursor;
        assert(contents(out@) =~= Seq::empty());
        assert(Seq::empty() + all.rest(n as int) =~= all.rest(n as int));
        while n <= self.highest_seen
            invariant
                self.blocks_wf(),
                all.valid(),
                all.cursor < CURSOR_LIMIT,
                all.cursor <= n <= all.highest_seen + 1,
                contents(out@) + all.rest(n as int) == all.rest(all.cursor as int),
                all.cursor <= self.cursor <= n,
                self@ == (Reassembly { cursor: self.cursor, pool: self@.pool, ..all }),
                forall|m: u64| #[trigger]
                    self@.pool.contains_key(m) <==> all.pool.contains_key(m) && m >= n,
                forall|m: u64| #[trigger]
                    self@.pool.contains_key(m) ==> self@.pool[m] == all.pool[m],
                forall|m: u64| #[trigger]
                    all.pool.contains_key(m) && m < n ==> m < self.cursor,
                self.cursor == all.cursor || all.pool.contains_key((self.cursor - 1) as u64),
            decreases all.highest_seen + 1 - n,
        {
            let ghost sent = contents(out@);
            let ghost pool = self@.pool;
            assert(pool.contains_key(n) <==> self.pool@.contains_key(n));
            match self.pool.remove(&n) {
                Some(state) => {
                    assert(pool.contains_key(n));
                    let data: Vec<u8> = if state.is_complete() {
                        state.into_completed().unwrap()
                    } else {
                        state.best_effort()
                    };
                    proof {
                        assert(data@ == all.pool[n].as_is());
                        assert(sent + all.rest(n as int) =~= sent.push(data@) + all.rest(n + 1));
                    }
                    out.push(data);
                    assert(contents(out@) =~= sent.push(data@));
                    self.cursor = n + 1;
                },
                None => {},
            }
            assert(self@.pool =~= pool.remove(n));
            n = n + 1;
        }
        assert(all.rest(n as int) =~= Seq::empty());
        assert(self@.pool =~= Map::empty());
        assert(contents(out@) =~= all.rest(all.cursor as int));
        out
    }

    /// The counts of the interval that ends now; the next one starts at zero.
    pub fn take_stats(&mut self) -> (stats: IntervalStats)
        requires
            old(self).wf(),
        ensures
            final(self).wf(),
            stats == old(self)@.stats,
            final(self)@ == (Reassembly { stats: IntervalStats::zeroed(), ..old(self)@ }),
    {
        let stats: IntervalStats = self.stats;
        self.stats = IntervalStats::default();
        stats
    }

    pub fn totals(&self) -> (totals: Totals)
        ensures
            totals == self@.totals,
    {
        self.totals
    }
}

} // verus!
