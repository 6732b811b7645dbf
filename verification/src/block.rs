//! A block in reception: what has come in for it, and what can be made of that.

use crate::codec;
use crate::codec::BlockDecoder;
use crate::fec;
use crate::fec::{
    EncodingPacket, ObjectTransmissionInformation, PayloadId, MAX_SOURCE_SYMBOLS_PER_BLOCK,
};
use crate::frame;
use crate::ts::SYMBOL_SIZE;
use std::collections::{HashMap, HashSet};
use vstd::prelude::*;

verus! {

broadcast use vstd::std_specs::hash::group_hash_axioms;

/// Transmission information that this link's encoder can have sent: symbols of
/// the wire's size, and a whole number of them, not too many for one block.
pub open spec fn sane(oti: fec::Oti) -> bool {
    &&& oti.symbol_size == SYMBOL_SIZE
    &&& oti.transfer_length > 0
    &&& oti.transfer_length as int % SYMBOL_SIZE as int == 0
    &&& oti.transfer_length as int / SYMBOL_SIZE as int <= MAX_SOURCE_SYMBOLS_PER_BLOCK
}

/// Rejects transmission information that a corrupt-but-still-parseable data
/// frame can carry. The encoder always uses the wire's [`SYMBOL_SIZE`] and a
/// block whose number of symbols is in range, so anything else is corruption;
/// RaptorQ would divide by zero or fail an assertion on it.
pub fn oti_is_sane(oti: &ObjectTransmissionInformation) -> (res: bool)
    ensures
        res == sane(oti@),
{
    if oti.symbol_size() as usize != SYMBOL_SIZE {
        return false;
    }
    let sym: u64 = SYMBOL_SIZE as u64;
    let transfer: u64 = oti.transfer_length();
    transfer > 0 && transfer % sym == 0 && (transfer / sym) <= MAX_SOURCE_SYMBOLS_PER_BLOCK
}

/// A decoder can be made for sane transmission information.
pub proof fn lemma_sane_is_decodable(oti: fec::Oti)
    requires
        sane(oti),
    ensures
        codec::decodable(oti, oti.transfer_length),
        codec::setup_of(0, oti, oti.transfer_length).k == oti.transfer_length as int
            / SYMBOL_SIZE as int,
{
    let (f, t) = (oti.transfer_length as int, SYMBOL_SIZE as int);
    assert(f / t >= 1) by (nonlinear_arith)
        requires
            f % t == 0,
            f > 0,
            t > 0,
    ;
}

/// Repair symbols among `received`, repetitions counted.
pub open spec fn repairs_received(received: Seq<(u32, Seq<u8>)>, k: nat) -> nat
    decreases received.len(),
{
    if received.len() == 0 {
        0
    } else {
        repairs_received(received.drop_last(), k) + if received.last().0 < k {
            0nat
        } else {
            1nat
        }
    }
}

/// A block in reception.
#[verifier::ext_equal]
pub struct Block {
    /// The geometry that its first packet announced.
    pub setup: codec::DecoderSetup,
    /// The symbols taken in, in order, each with its symbol id.
    pub received: Seq<(u32, Seq<u8>)>,
    /// When its first packet came, in nanoseconds on the caller's clock.
    pub first_seen: u128,
}

impl Block {
    /// A block for which nothing has been taken in.
    pub open spec fn fresh(sbn: u8, oti: fec::Oti, now: u128) -> Block {
        Block {
            setup: codec::setup_of(sbn, oti, oti.transfer_length),
            received: Seq::empty(),
            first_seen: now,
        }
    }

    /// The block's data, once RaptorQ has recovered it.
    pub open spec fn completed(self) -> Option<Seq<u8>> {
        if self.received.len() == 0 {
            None
        } else {
            self.setup.outcome(self.received)
        }
    }

    /// The block with one more packet taken in. A completed block takes none.
    pub open spec fn ingested(self, packet: fec::Packet) -> Block {
        if self.completed() is Some {
            self
        } else {
            Block { received: self.received.push((packet.id.esi, packet.data)), ..self }
        }
    }

    /// The block can take in a packet with this id: it is complete, or the packet
    /// belongs to it, the count of repair symbols stays within 32 bits, and
    /// decoding does not fail for want of sub-blocks or alignment.
    pub open spec fn accepts(self, id: fec::SymbolId) -> bool {
        self.completed() is Some || {
            &&& id.sbn == self.setup.sbn
            &&& id.esi < self.setup.k || self.repair_count() < u32::MAX
            &&& self.setup.can_take(self.received, id.esi)
        }
    }

    /// The source symbols that have come in, each as it first came.
    pub open spec fn sources(self) -> Map<u32, Seq<u8>> {
        codec::sources_received(self.received, self.setup.k)
    }

    /// The repair symbols that have come in, repetitions counted.
    pub open spec fn repair_count(self) -> nat {
        repairs_received(self.received, self.setup.k)
    }

    /// The block as far as its source symbols have come in, each in its place,
    /// and zeros elsewhere.
    pub open spec fn best_effort(self) -> Seq<u8> {
        Seq::new(
            self.setup.k * SYMBOL_SIZE as nat,
            |i: int|
                {
                    let esi = (i / SYMBOL_SIZE as int) as u32;
                    if self.sources().contains_key(esi) {
                        self.sources()[esi][i % SYMBOL_SIZE as int]
                    } else {
                        0u8
                    }
                },
        )
    }

    /// The block's data if it is complete, else the best effort.
    pub open spec fn as_is(self) -> Seq<u8> {
        match self.completed() {
            Some(data) => data,
            None => self.best_effort(),
        }
    }

    /// What every block in reception satisfies.
    pub open spec fn valid(self) -> bool {
        &&& self.setup.valid()
        &&& self.setup.symbol_size == SYMBOL_SIZE
        &&& forall|j: int|
            0 <= j < self.received.len() ==> (#[trigger] self.received[j]).1.len() == SYMBOL_SIZE
        &&& codec::recovery_is_sound(self.setup, self.received, self.completed())
    }
}

/// State of one block until it is emitted.
pub struct BlockState {
    sbn: u8,
    k: u32,
    decoder: BlockDecoder,
    solvable: bool,
    ids: HashSet<u32>,
    source_symbols: HashMap<u32, Vec<u8>>,
    repair_count: u32,
    completed: Option<Vec<u8>>,
    first_seen: u128,
}

impl View for BlockState {
    type V = Block;

    closed spec fn view(&self) -> Block {
        Block {
            setup: self.decoder.setup(),
            received: self.decoder.received(),
            first_seen: self.first_seen,
        }
    }
}

impl BlockState {
    /// The counts and the kept symbols agree with what has been taken in.
    pub closed spec fn consistent(self) -> bool {
        &&& self.sbn == self@.setup.sbn
        &&& self.k == self@.setup.k
        &&& self.solvable == self@.setup.solvable()
        &&& self.ids@ == codec::received_ids(self@.received)
        &&& self.source_symbols@.dom() == self@.sources().dom()
        &&& forall|esi: u32| #[trigger]
            self.source_symbols@.contains_key(esi) ==> self.source_symbols@[esi]@
                == self@.sources()[esi]
        &&& self.repair_count == self@.repair_count()
        &&& codec::bytes_of(self.completed) == self@.completed()
    }

    pub open spec fn wf(self) -> bool {
        self@.valid() && self.consistent()
    }

    pub fn new(sbn: u8, oti: &ObjectTransmissionInformation, now: u128) -> (block: Self)
        requires
            sane(oti@),
        ensures
            block.wf(),
            block@ == Block::fresh(sbn, oti@, now),
    {
        proof {
            lemma_sane_is_decodable(oti@);
        }
        let block_size: u64 = oti.transfer_length();
        let k: u32 = (block_size / oti.symbol_size() as u64) as u32;
        let block = BlockState {
            sbn,
            k,
            decoder: BlockDecoder::new(sbn, oti, block_size),
            solvable: oti.sub_blocks() > 0 && oti.symbol_alignment() > 0,
            ids: HashSet::new(),
            source_symbols: HashMap::new(),
            repair_count: 0,
            completed: None,
            first_seen: now,
        };
        proof {
            lemma_nothing_received(block@);
            assert(block.ids@ =~= codec::received_ids(block@.received));
            assert(block.source_symbols@.dom() =~= block@.sources().dom());
        }
        block
    }

    pub fn accepts(&self, id: &PayloadId) -> (res: bool)
        requires
            self.wf(),
        ensures
            res == self@.accepts(id@),
    {
        if self.completed.is_some() {
            return true;
        }
        let esi: u32 = id.encoding_symbol_id();
        let fresh: usize = if self.ids.contains(&esi) {
            0
        } else {
            1
        };
        assert(self.ids@.contains(esi) ==> self.ids@.insert(esi) =~= self.ids@);
        id.source_block_number() == self.sbn && (esi < self.k || self.repair_count < u32::MAX) && (
        self.solvable || (self.ids.len() < self.k as usize && self.ids.len() + fresh
            < self.k as usize))
    }

    /// Takes in one packet of the block, unless the block is complete already.
    pub fn ingest(&mut self, packet: EncodingPacket)
        requires
            old(self).wf(),
            old(self)@.accepts(packet@.id),
            old(self)@.completed() is Some || packet@.data.len() == SYMBOL_SIZE,
        ensures
            final(self).wf(),
            old(self)@.completed() is Some ==> *final(self) == *old(self),
            final(self)@ == old(self)@.ingested(packet@),
    {
        if self.completed.is_some() {
            return;
        }
        let ghost before = self@;
        let esi: u32 = packet.payload_id().encoding_symbol_id();
        let ghost received = before.received.push((esi, packet@.data));
        assert(received.drop_last() =~= before.received);
        proof {
            lemma_ids_of_push(before.received, esi, packet@.data);
        }
        let _ = self.ids.insert(esi);
        if esi < self.k {
            if !self.source_symbols.contains_key(&esi) {
                let data: Vec<u8> = vstd::slice::slice_to_vec(packet.data());
                self.source_symbols.insert(esi, data);
            }
        } else {
            self.repair_count = self.repair_count + 1;
        }
        self.completed = self.decoder.decode(packet);
        assert(self@.received == received);
        assert(self.source_symbols@.dom() =~= self@.sources().dom());
    }

    pub fn is_complete(&self) -> (res: bool)
        requires
            self.wf(),
        ensures
            res == (self@.completed() is Some),
    {
        self.completed.is_some()
    }

    /// The block's data, where it is complete.
    pub fn into_completed(self) -> (data: Option<Vec<u8>>)
        requires
            self.wf(),
        ensures
            codec::bytes_of(data) == self@.completed(),
    {
        self.completed
    }

    /// The block as far as its source symbols have come in, zeros elsewhere.
    pub fn best_effort(&self) -> (out: Vec<u8>)
        requires
            self.wf(),
        ensures
            out@ == self@.best_effort(),
    {
        let ghost whole = self@.best_effort();
        proof {
            lemma_source_lengths(self@.received, self@.setup.k);
        }
        let mut out: Vec<u8> = Vec::new();
        let mut esi: u32 = 0;
        while esi < self.k
            invariant
                self.wf(),
                esi <= self.k,
                self.k == self@.setup.k,
                whole == self@.best_effort(),
                out@ =~= whole.take(esi * SYMBOL_SIZE),
                esi * SYMBOL_SIZE <= whole.len(),
                forall|esi: u32| #[trigger]
                    self@.sources().contains_key(esi) ==> self@.sources()[esi].len()
                        == SYMBOL_SIZE,
            decreases self.k - esi,
        {
            proof {
                lemma_place(esi as int, 0, self.k as int);
            }
            let symbol: Option<&Vec<u8>> = self.source_symbols.get(&esi);
            let mut j: usize = 0;
            while j < SYMBOL_SIZE
                invariant
                    self.wf(),
                    esi < self.k,
                    self.k == self@.setup.k,
                    j <= SYMBOL_SIZE,
                    whole == self@.best_effort(),
                    out@ =~= whole.take(esi * SYMBOL_SIZE + j),
                    symbol matches Some(s) ==> self@.sources().contains_key(esi) && s@
                        == self@.sources()[esi] && s@.len() == SYMBOL_SIZE,
                    symbol is None ==> !self@.sources().contains_key(esi),
                decreases SYMBOL_SIZE - j,
            {
                let b: u8 = match symbol {
                    Some(s) => s[j],
                    None => 0,
                };
                proof {
                    lemma_place(esi as int, j as int, self.k as int);
                }
                assert(whole[esi * SYMBOL_SIZE + j] == b);
                out.push(b);
                j += 1;
            }
            esi += 1;
        }
        assert(whole.take(whole.len() as int) =~= whole);
        out
    }

    /// How many source symbols have come in.
    pub fn source_count(&self) -> (n: usize)
        requires
            self.wf(),
        ensures
            n == self@.sources().len(),
    {
        self.source_symbols.len()
    }

    /// How many repair symbols have come in, repetitions counted.
    pub fn repair_count(&self) -> (n: u32)
        requires
            self.wf(),
        ensures
            n == self@.repair_count(),
    {
        self.repair_count
    }

    /// How many source symbols the block has.
    pub fn k(&self) -> (k: u32)
        requires
            self.wf(),
        ensures
            k == self@.setup.k,
    {
        self.k
    }

    pub fn first_seen(&self) -> (at: u128)
        ensures
            at == self@.first_seen,
    {
        self.first_seen
    }
}

/// One more symbol adds its id.
proof fn lemma_ids_of_push(received: Seq<(u32, Seq<u8>)>, esi: u32, data: Seq<u8>)
    ensures
        codec::received_ids(received.push((esi, data))) == codec::received_ids(received).insert(
            esi,
        ),
{
    let f = |r: (u32, Seq<u8>)| r.0;
    let (a, b) = (received.map_values(f), received.push((esi, data)).map_values(f));
    assert(b =~= a.push(esi));
    assert(b.to_set() =~= a.to_set().insert(esi)) by {
        assert forall|x: u32| b.contains(x) implies a.contains(x) || x == esi by {
            let i = choose|i: int| 0 <= i < b.len() && b[i] == x;
            if i < a.len() {
                assert(a[i] == x);
            }
        }
        assert forall|x: u32| a.contains(x) || x == esi implies b.contains(x) by {
            if a.contains(x) {
                let i = choose|i: int| 0 <= i < a.len() && a[i] == x;
                assert(b[i] == x);
            } else {
                assert(b[a.len() as int] == esi);
            }
        }
    }
}

proof fn lemma_nothing_received(block: Block)
    requires
        block.received.len() == 0,
        block.setup.valid(),
    ensures
        codec::recovery_is_sound(block.setup, block.received, None),
        codec::received_ids(block.received) == Set::<u32>::empty(),
{
    let ids = block.received.map_values(|r: (u32, Seq<u8>)| r.0);
    assert(ids =~= Seq::<u32>::empty());
    assert(ids.to_set() =~= Set::<u32>::empty());
    assert(!codec::sources_received(block.received, block.setup.k).contains_key(0u32));
}

/// Byte `j` of symbol `esi` within a block of `k` symbols.
proof fn lemma_place(esi: int, j: int, k: int)
    requires
        0 <= esi < k,
        0 <= j < SYMBOL_SIZE,
    ensures
        0 <= esi * SYMBOL_SIZE + j < k * SYMBOL_SIZE,
        (esi * SYMBOL_SIZE + j) / SYMBOL_SIZE as int == esi,
        (esi * SYMBOL_SIZE + j) % SYMBOL_SIZE as int == j,
        (esi + 1) * SYMBOL_SIZE == esi * SYMBOL_SIZE + SYMBOL_SIZE,
        (esi + 1) * SYMBOL_SIZE <= k * SYMBOL_SIZE,
{
    let t = SYMBOL_SIZE as int;
    assert(esi * t == esi * 163 && k * t == k * 163 && (esi + 1) * t == (esi + 1) * 163) by (nonlinear_arith)
        requires
            t == 163,
    ;
}

/// No more source symbols come in than there are.
pub proof fn lemma_source_count(block: Block)
    requires
        block.valid(),
    ensures
        block.sources().len() <= block.setup.k,
{
    lemma_source_lengths(block.received, block.setup.k);
    let range = vstd::set_lib::set_int_range(0, block.setup.k as int);
    vstd::set_lib::lemma_int_range(0, block.setup.k as int);
    let dom = block.sources().dom();
    let f = |esi: u32| esi as int;
    assert(dom.map(f).subset_of(range));
    vstd::set_lib::lemma_map_size(dom, dom.map(f), f);
    vstd::set_lib::lemma_len_subset(dom.map(f), range);
}

proof fn lemma_symbol_of_byte(i: int, k: int)
    requires
        0 <= i < k * SYMBOL_SIZE,
    ensures
        0 <= i / SYMBOL_SIZE as int,
        i / (SYMBOL_SIZE as int) < k,
{
    let t = SYMBOL_SIZE as int;
    assert(0 <= i / t && i / t < k) by (nonlinear_arith)
        requires
            0 <= i < k * t,
            t == 163,
    ;
}

proof fn lemma_source_lengths(received: Seq<(u32, Seq<u8>)>, k: nat)
    requires
        forall|j: int|
            0 <= j < received.len() ==> (#[trigger] received[j]).1.len() == SYMBOL_SIZE,
    ensures
        codec::sources_received(received, k).dom().finite(),
        forall|esi: u32| #[trigger]
            codec::sources_received(received, k).contains_key(esi) ==> esi < k
                && codec::sources_received(received, k)[esi].len() == SYMBOL_SIZE,
    decreases received.len(),
{
    if received.len() > 0 {
        let before = codec::sources_received(received.drop_last(), k);
        let after = codec::sources_received(received, k);
        lemma_source_lengths(received.drop_last(), k);
        assert(received.last() == received[received.len() - 1]);
        assert forall|esi: u32| #[trigger] after.contains_key(esi) implies esi < k
            && after[esi].len() == SYMBOL_SIZE by {
            assert(before.contains_key(esi) || esi == received.last().0);
        }
    }
}

proof fn lemma_gather(symbols: Seq<Seq<u8>>)
    requires
        codec::uniform(symbols, SYMBOL_SIZE as nat),
    ensures
        codec::gather(symbols, 0, SYMBOL_SIZE as int).len() == symbols.len() * SYMBOL_SIZE,
        forall|i: int|
            0 <= i < symbols.len() * SYMBOL_SIZE ==> #[trigger] codec::gather(
                symbols,
                0,
                SYMBOL_SIZE as int,
            )[i] == symbols[i / SYMBOL_SIZE as int][i % SYMBOL_SIZE as int],
    decreases symbols.len(),
{
    if symbols.len() > 0 {
        let n = symbols.len() - 1;
        let init = symbols.drop_last();
        assert forall|i: int| 0 <= i < init.len() implies (#[trigger] init[i]).len()
            == SYMBOL_SIZE by {
            assert(init[i] == symbols[i]);
        }
        lemma_gather(init);
        lemma_place(n, 0, n + 1);
        assert(symbols.last() == symbols[n]);
        let whole = codec::gather(symbols, 0, SYMBOL_SIZE as int);
        assert forall|i: int| 0 <= i < symbols.len() * SYMBOL_SIZE implies #[trigger] whole[i]
            == symbols[i / SYMBOL_SIZE as int][i % SYMBOL_SIZE as int] by {
            if i >= n * SYMBOL_SIZE {
                lemma_place(n, i - n * SYMBOL_SIZE, n + 1);
            } else {
                lemma_symbol_of_byte(i, n);
                assert(whole[i] == codec::gather(init, 0, SYMBOL_SIZE as int)[i]);
            }
        }
    }
}

proof fn lemma_one_sub_block(symbols: Seq<Seq<u8>>)
    requires
        codec::uniform(symbols, SYMBOL_SIZE as nat),
    ensures
        codec::joined(symbols, SYMBOL_SIZE as nat, 1, 1) == codec::gather(
            symbols,
            0,
            SYMBOL_SIZE as int,
        ),
{
    let t = SYMBOL_SIZE as nat;
    assert(codec::part_offset(t, 1, 1, 0) == 0);
    assert(codec::part_length(t, 1, 1, 0) == t);
    let whole = codec::gather(symbols, 0, t as int);
    lemma_gather(symbols);
    assert(codec::joined_parts(symbols, t, 1, 1, 0) =~= Seq::<u8>::empty());
    assert(codec::joined_parts(symbols, t, 1, 1, 1) =~= whole);
    assert(t * symbols.len() == symbols.len() * t) by (nonlinear_arith);
    assert(codec::joined(symbols, t, 1, 1) =~= whole);
}

proof fn lemma_sources_from(received: Seq<(u32, Seq<u8>)>, symbols: Seq<Seq<u8>>)
    requires
        codec::received_from(received, symbols),
    ensures
        forall|esi: u32| #[trigger]
            codec::sources_received(received, symbols.len()).contains_key(esi) ==> esi
                < symbols.len() && codec::sources_received(received, symbols.len())[esi]
                == symbols[esi as int],
    decreases received.len(),
{
    if received.len() > 0 {
        let k = symbols.len();
        let init = received.drop_last();
        assert forall|j: int| 0 <= j < init.len() implies (#[trigger] init[j]).1
            == codec::encoding_symbol(symbols, init[j].0 as nat) by {
            assert(init[j] == received[j]);
        }
        lemma_sources_from(init, symbols);
        assert(received.last() == received[received.len() - 1]);
        let before = codec::sources_received(init, k);
        let after = codec::sources_received(received, k);
        assert forall|esi: u32| #[trigger] after.contains_key(esi) implies esi < k && after[esi]
            == symbols[esi as int] by {
            assert(before.contains_key(esi) || esi == received.last().0);
        }
    }
}

/// What this link's encoder announces for the block with these source symbols.
pub open spec fn oti_for(symbols: Seq<Seq<u8>>) -> fec::Oti {
    frame::block_oti((symbols.len() * SYMBOL_SIZE) as u64, SYMBOL_SIZE as u16)
}

/// The data of the block with these source symbols, as this link encodes it.
pub open spec fn data_of(symbols: Seq<Seq<u8>>) -> Seq<u8> {
    codec::block_of_symbols(oti_for(symbols), symbols)
}

/// The source symbols that `data` is cut into.
pub open spec fn symbols_of(data: Seq<u8>) -> Seq<Seq<u8>> {
    Seq::new(
        data.len() / SYMBOL_SIZE as nat,
        |i: int| data.subrange(i * SYMBOL_SIZE, (i + 1) * SYMBOL_SIZE),
    )
}

/// Cutting data into symbols and putting the symbols together again are inverse
/// to one another.
pub proof fn law_symbols_make_up_the_data(data: Seq<u8>, symbols: Seq<Seq<u8>>)
    requires
        data.len() % SYMBOL_SIZE as nat == 0,
        codec::uniform(symbols, SYMBOL_SIZE as nat),
    ensures
        codec::uniform(symbols_of(data), SYMBOL_SIZE as nat),
        data_of(symbols_of(data)) == data,
        symbols_of(data_of(symbols)) == symbols,
{
    let t = SYMBOL_SIZE as int;
    let cut = symbols_of(data);
    let k = cut.len() as int;
    assert(k * t == data.len()) by (nonlinear_arith)
        requires
            k == data.len() as int / t,
            data.len() as int % t == 0,
            t == 163,
    ;
    assert forall|i: int| 0 <= i < cut.len() implies (#[trigger] cut[i]).len() == SYMBOL_SIZE by {
        lemma_place(i, 0, k);
    }
    lemma_gather(cut);
    assert forall|i: int| 0 <= i < data.len() implies data_of(cut)[i] == data[i] by {
        lemma_symbol_of_byte(i, k);
        let (q, r) = (i / t, i % t);
        lemma_place(q, r, k);
        assert(q * t + r == i) by (nonlinear_arith)
            requires
                q == i / t,
                r == i % t,
                t == 163,
        ;
        assert(cut[q][r] == data[q * SYMBOL_SIZE + r]);
    }
    assert(data_of(cut) =~= data);
    lemma_gather(symbols);
    let whole = data_of(symbols);
    let n = symbols.len() as int;
    assert(whole.len() as int / t == n) by (nonlinear_arith)
        requires
            whole.len() == n * t,
            t == 163,
    ;
    let again = symbols_of(whole);
    assert forall|i: int| 0 <= i < n implies again[i] == symbols[i] by {
        lemma_place(i, 0, n);
        assert forall|j: int| 0 <= j < t implies again[i][j] == symbols[i][j] by {
            lemma_place(i, j, n);
            assert(again[i][j] == whole[i * SYMBOL_SIZE + j]);
        }
        assert(again[i] =~= symbols[i]);
    }
    assert(again =~= symbols);
}

/// The block has the geometry that this link's encoder announces for
/// `symbols`, and every symbol that came in is one that the encoder made of them.
pub open spec fn receives(block: Block, symbols: Seq<Seq<u8>>) -> bool {
    &&& block.valid()
    &&& block.setup.sub_blocks == 1
    &&& block.setup.alignment == 1
    &&& symbols.len() == block.setup.k
    &&& codec::uniform(symbols, SYMBOL_SIZE as nat)
    &&& codec::received_from(block.received, symbols)
}

/// Whatever was lost or repeated on the way, and in whatever order symbols came:
/// a block that completes is the block that was sent. It is complete when all of
/// its source symbols are there, and never before there are as many symbols as
/// it has source symbols.
pub proof fn law_completed_block_is_the_block_sent(block: Block, symbols: Seq<Seq<u8>>)
    requires
        receives(block, symbols),
    ensures
        block.completed() matches Some(data) ==> data == data_of(symbols),
        codec::all_sources_received(block.received, block.setup.k) ==> block.completed() == Some(
            data_of(symbols),
        ),
        codec::received_ids(block.received).len() < block.setup.k ==> block.completed() is None,
{
    let k = block.setup.k;
    lemma_one_sub_block(symbols);
    if codec::all_sources_received(block.received, k) {
        lemma_sources_from(block.received, symbols);
        assert forall|i: int| 0 <= i < k implies codec::sources_in_order(block.received, k)[i]
            == symbols[i] by {
            assert(codec::sources_received(block.received, k).contains_key(i as u32));
        }
        assert(codec::sources_in_order(block.received, k) =~= symbols);
    }
}

/// A best effort never makes up data: it has the length of the block sent, the
/// bytes of every source symbol that came in, and zeros in place of the others.
pub proof fn law_best_effort_is_the_block_with_gaps(block: Block, symbols: Seq<Seq<u8>>)
    requires
        receives(block, symbols),
    ensures
        block.best_effort().len() == data_of(symbols).len(),
        forall|i: int|
            0 <= i < block.best_effort().len() ==> #[trigger] block.best_effort()[i] == (
            if block.sources().contains_key((i / SYMBOL_SIZE as int) as u32) {
                data_of(symbols)[i]
            } else {
                0
            }),
        codec::all_sources_received(block.received, block.setup.k) ==> block.best_effort()
            == data_of(symbols),
{
    lemma_gather(symbols);
    lemma_sources_from(block.received, symbols);
    let got = block.best_effort();
    let whole = data_of(symbols);
    assert forall|i: int| 0 <= i < got.len() implies #[trigger] got[i] == (
    if block.sources().contains_key((i / SYMBOL_SIZE as int) as u32) {
        whole[i]
    } else {
        0
    }) by {
        lemma_symbol_of_byte(i, block.setup.k as int);
        assert(whole[i] == symbols[i / SYMBOL_SIZE as int][i % SYMBOL_SIZE as int]);
    }
    if codec::all_sources_received(block.received, block.setup.k) {
        assert forall|i: int| 0 <= i < got.len() implies #[trigger] got[i] == whole[i] by {
            let esi = (i / SYMBOL_SIZE as int) as u32;
            lemma_symbol_of_byte(i, block.setup.k as int);
            assert(block.sources().contains_key(esi));
        }
        assert(got =~= whole);
    }
}

/// The source symbol that byte `i` of the block belongs to.
pub proof fn lemma_source_id(block: Block, symbols: Seq<Seq<u8>>, i: int)
    requires
        receives(block, symbols),
        0 <= i < data_of(symbols).len(),
    ensures
        0 <= i / 163 < block.setup.k,
        i < block.best_effort().len(),
{
    law_best_effort_is_the_block_with_gaps(block, symbols);
    lemma_symbol_of_byte(i, block.setup.k as int);
}

/// A completed block stays as it is, whatever else comes in for it.
pub proof fn law_completed_block_is_final(block: Block, packet: fec::Packet)
    requires
        block.completed() is Some,
    ensures
        block.ingested(packet) == block,
{
}

/// The block after all of `packets`, in order.
pub open spec fn after_packets(block: Block, packets: Seq<fec::Packet>) -> Block
    decreases packets.len(),
{
    if packets.len() == 0 {
        block
    } else {
        after_packets(block, packets.drop_last()).ingested(packets.last())
    }
}

/// The symbol ids that occur among `packets`.
pub open spec fn packet_ids(packets: Seq<fec::Packet>) -> Set<u32> {
    packets.map_values(|p: fec::Packet| p.id.esi).to_set()
}

/// The packets' symbols, each with its id.
pub open spec fn symbols_in(packets: Seq<fec::Packet>) -> Seq<(u32, Seq<u8>)> {
    packets.map_values(|p: fec::Packet| (p.id.esi, p.data))
}

proof fn lemma_after_packets(
    sbn: u8,
    oti: fec::Oti,
    now: u128,
    packets: Seq<fec::Packet>,
)
    ensures
        ({
            let block = after_packets(Block::fresh(sbn, oti, now), packets);
            &&& block.setup == codec::setup_of(sbn, oti, oti.transfer_length)
            &&& exists|m: int|
                0 <= m <= packets.len() && #[trigger] symbols_in(packets.take(m)) == block.received
            &&& block.completed() is None ==> block.received == symbols_in(packets)
        }),
    decreases packets.len(),
{
    let fresh = Block::fresh(sbn, oti, now);
    let block = after_packets(fresh, packets);
    if packets.len() == 0 {
        assert(symbols_in(packets.take(0)) =~= block.received);
        assert(symbols_in(packets) =~= block.received);
    } else {
        let init = packets.drop_last();
        lemma_after_packets(sbn, oti, now, init);
        let before = after_packets(fresh, init);
        let m = choose|m: int|
            0 <= m <= init.len() && #[trigger] symbols_in(init.take(m)) == before.received;
        if before.completed() is Some {
            assert(packets.take(m) =~= init.take(m));
            assert(symbols_in(packets.take(m)) == block.received);
        } else {
            assert(symbols_in(packets) =~= symbols_in(init).push(
                (packets.last().id.esi, packets.last().data),
            ));
            assert(packets.take(packets.len() as int) =~= packets);
            assert(symbols_in(packets.take(packets.len() as int)) == block.received);
        }
    }
}

pub proof fn lemma_sources_of(received: Seq<(u32, Seq<u8>)>, k: nat, i: int)
    requires
        0 <= i < received.len(),
        received[i].0 < k,
    ensures
        codec::sources_received(received, k).contains_key(received[i].0),
    decreases received.len(),
{
    if i < received.len() - 1 {
        lemma_sources_of(received.drop_last(), k, i);
        assert(received.drop_last()[i] == received[i]);
    }
}

/// All source packets, with whatever others, complete a block.
pub proof fn lemma_all_sources_complete(
    sbn: u8,
    oti: fec::Oti,
    now: u128,
    packets: Seq<fec::Packet>,
)
    requires
        ({
            let block = after_packets(Block::fresh(sbn, oti, now), packets);
            &&& block.valid()
            &&& forall|esi: u32|
                esi < block.setup.k ==> #[trigger] packet_ids(packets).contains(esi)
        }),
    ensures
        after_packets(Block::fresh(sbn, oti, now), packets).completed() is Some,
{
    let block = after_packets(Block::fresh(sbn, oti, now), packets);
    let k = block.setup.k;
    lemma_after_packets(sbn, oti, now, packets);
    if block.completed() is None {
        let ids = packets.map_values(|p: fec::Packet| p.id.esi);
        assert forall|esi: u32| esi < k implies #[trigger] codec::sources_received(
            block.received,
            k,
        ).contains_key(esi) by {
            assert(packet_ids(packets).contains(esi));
            let j = choose|j: int| 0 <= j < ids.len() && ids[j] == esi;
            assert(block.received[j].0 == esi);
            lemma_sources_of(block.received, k, j);
        }
        assert(codec::all_sources_received(block.received, k));
    }
}

/// A block takes in no more packets than came, and counts no more repair symbols
/// than it took in.
pub proof fn lemma_packets_taken(sbn: u8, oti: fec::Oti, now: u128, packets: Seq<fec::Packet>)
    ensures
        after_packets(Block::fresh(sbn, oti, now), packets).received.len() <= packets.len(),
        after_packets(Block::fresh(sbn, oti, now), packets).repair_count() <= packets.len(),
    decreases packets.len(),
{
    let block = after_packets(Block::fresh(sbn, oti, now), packets);
    if packets.len() > 0 {
        lemma_packets_taken(sbn, oti, now, packets.drop_last());
        let before = after_packets(Block::fresh(sbn, oti, now), packets.drop_last());
        if before.completed() is None {
            assert(block.received.drop_last() =~= before.received);
        }
    }
}

/// Over any series of packets of one encoder, in any order and with any losses
/// and repetitions: what the block completes to is the block sent; packets with
/// fewer distinct ids than the block has source symbols never complete it; and
/// all source packets always do.
pub proof fn law_packets_of_one_encoder(
    sbn: u8,
    now: u128,
    packets: Seq<fec::Packet>,
    symbols: Seq<Seq<u8>>,
)
    requires
        1 <= symbols.len() <= MAX_SOURCE_SYMBOLS_PER_BLOCK,
        codec::uniform(symbols, SYMBOL_SIZE as nat),
        forall|i: int|
            0 <= i < packets.len() ==> (#[trigger] packets[i]).data == codec::encoding_symbol(
                symbols,
                packets[i].id.esi as nat,
            ),
        after_packets(Block::fresh(sbn, oti_for(symbols), now), packets).valid(),
    ensures
        ({
            let block = after_packets(Block::fresh(sbn, oti_for(symbols), now), packets);
            &&& block.completed() matches Some(data) ==> data == data_of(symbols)
            &&& packet_ids(packets).len() < symbols.len() ==> block.completed() is None
            &&& (forall|esi: u32| esi < symbols.len() ==> #[trigger] packet_ids(packets).contains(esi))
                ==> block.completed() == Some(data_of(symbols))
        }),
{
    let oti = oti_for(symbols);
    let block = after_packets(Block::fresh(sbn, oti, now), packets);
    let (k, t) = (symbols.len() as int, SYMBOL_SIZE as int);
    assert(k * t == k * 163) by (nonlinear_arith)
        requires
            t == 163,
    ;
    lemma_sane_is_decodable(oti);
    lemma_after_packets(sbn, oti, now, packets);
    let m = choose|m: int|
        0 <= m <= packets.len() && #[trigger] symbols_in(packets.take(m)) == block.received;
    assert forall|j: int| 0 <= j < block.received.len() implies (#[trigger] block.received[j]).1
        == codec::encoding_symbol(symbols, block.received[j].0 as nat) by {
        assert(packets.take(m)[j] == packets[j]);
    }
    assert(receives(block, symbols));
    law_completed_block_is_the_block_sent(block, symbols);
    let f = |p: fec::Packet| p.id.esi;
    let g = |r: (u32, Seq<u8>)| r.0;
    let ids = packets.map_values(f);
    if packet_ids(packets).len() < k {
        let part = block.received.map_values(g);
        assert forall|x: u32| part.to_set().contains(x) implies ids.to_set().contains(x) by {
            let j = choose|j: int| 0 <= j < part.len() && part[j] == x;
            assert(packets.take(m)[j] == packets[j]);
            assert(ids[j] == x);
        }
        vstd::seq_lib::seq_to_set_is_finite(ids);
        vstd::set_lib::lemma_len_subset(part.to_set(), ids.to_set());
    }
    if forall|esi: u32| esi < symbols.len() ==> #[trigger] packet_ids(packets).contains(esi) {
        lemma_all_sources_complete(sbn, oti, now, packets);
    }
}

/// Transmission information makes sense exactly for symbols of 163 bytes and a
/// whole number of them, at least one and no more than RaptorQ takes.
pub proof fn law_sane_means_whole_symbols(oti: fec::Oti)
    ensures
        sane(oti) <==> oti.symbol_size == 163 && exists|k: int|
            1 <= k <= 56_403 && oti.transfer_length == #[trigger] (k * 163),
{
    if sane(oti) {
        let k = oti.transfer_length as int / 163;
        assert(oti.transfer_length == k * 163);
    }
}

/// A block begins with the number and geometry of its first packet, and with
/// nothing received: as many source symbols as the size announced makes.
pub proof fn law_block_begins_empty(sbn: u8, oti: fec::Oti, now: u128)
    requires
        sane(oti),
    ensures
        ({
            let block = Block::fresh(sbn, oti, now);
            &&& block.received.len() == 0
            &&& block.first_seen == now
            &&& block.setup.sbn == sbn
            &&& block.setup.k * 163 == oti.transfer_length
            &&& block.setup.symbol_size == 163
            &&& block.setup.sub_blocks == oti.sub_blocks
            &&& block.setup.alignment == oti.symbol_alignment
            &&& block.completed() is None
        }),
{
    lemma_sane_is_decodable(oti);
    let f = oti.transfer_length as int;
    assert(f == f / 163 * 163);
    assert(Block::fresh(sbn, oti, now).setup.k == f / 163);
}

/// A block is complete once RaptorQ recovers it from what came in, and then it is
/// what RaptorQ recovered.
pub proof fn law_complete_is_recovered(block: Block)
    requires
        block.received.len() > 0,
    ensures
        block.completed() == codec::recovered(
            block.setup.k,
            block.setup.symbol_size,
            block.setup.sub_blocks,
            block.setup.alignment,
            block.received,
        ),
{
}

/// A packet adds its symbol behind those that came before, unless the block is
/// complete; nothing else changes.
pub proof fn law_packet_adds_its_symbol(block: Block, packet: fec::Packet)
    ensures
        block.ingested(packet).setup == block.setup,
        block.ingested(packet).first_seen == block.first_seen,
        block.completed() is Some ==> block.ingested(packet).received == block.received,
        block.completed() is None ==> {
            let after = block.ingested(packet).received;
            &&& after.len() == block.received.len() + 1
            &&& after.take(block.received.len() as int) == block.received
            &&& after.last() == (packet.id.esi, packet.data)
        },
{
    let after = block.ingested(packet).received;
    if block.completed() is None {
        assert(after.take(block.received.len() as int) =~= block.received);
    }
}

/// Number `j` of `received` is the first with its id.
pub open spec fn first_copy(received: Seq<(u32, Seq<u8>)>, j: int) -> bool {
    &&& 0 <= j < received.len()
    &&& forall|i: int| 0 <= i < j ==> (#[trigger] received[i]).0 != received[j].0
}

proof fn lemma_first_copy(received: Seq<(u32, Seq<u8>)>, k: nat)
    ensures
        forall|j: int| #[trigger]
            first_copy(received, j) && received[j].0 < k ==> codec::sources_received(
                received,
                k,
            ).contains_key(received[j].0) && codec::sources_received(received, k)[received[j].0]
                == received[j].1,
        forall|esi: u32| #[trigger]
            codec::sources_received(received, k).contains_key(esi) ==> esi < k && exists|j: int| #[trigger]
                first_copy(received, j) && received[j].0 == esi,
    decreases received.len(),
{
    if received.len() > 0 {
        let init = received.drop_last();
        let (before, after) = (
            codec::sources_received(init, k),
            codec::sources_received(received, k),
        );
        let last = received.len() - 1;
        lemma_first_copy(init, k);
        assert forall|j: int| #[trigger] first_copy(received, j) && received[j].0
            < k implies after.contains_key(received[j].0) && after[received[j].0]
            == received[j].1 by {
            if j < last {
                assert forall|i: int| 0 <= i < j implies (#[trigger] init[i]).0 != init[j].0 by {
                    assert(received[i].0 != received[j].0);
                }
                assert(first_copy(init, j));
                assert(init[j] == received[j]);
            } else {
                assert(received.last() == received[j]);
                if before.contains_key(received[j].0) {
                    let i = choose|i: int| #[trigger]
                        first_copy(init, i) && init[i].0 == received[j].0;
                    assert(received[i].0 == received[j].0);
                }
            }
        }
        assert forall|esi: u32| #[trigger] after.contains_key(esi) implies esi < k && exists|j: int| #[trigger]
            first_copy(received, j) && received[j].0 == esi by {
            if before.contains_key(esi) {
                let j = choose|j: int| #[trigger] first_copy(init, j) && init[j].0 == esi;
                assert forall|i: int| 0 <= i < j implies (#[trigger] received[i]).0
                    != received[j].0 by {
                    assert(init[i].0 != init[j].0);
                }
                assert(first_copy(received, j));
            } else {
                assert(esi == received.last().0);
                assert forall|i: int| 0 <= i < last implies (#[trigger] received[i]).0
                    != received[last].0 by {
                    if received[i].0 == esi {
                        lemma_sources_of(init, k, i);
                        assert(init[i] == received[i]);
                    }
                }
                assert(first_copy(received, last));
            }
        }
    }
}

/// A best effort is as long as the block. Every source symbol that came in stands
/// in it at its place, byte for byte, as it first came. Where no copy of a source
/// symbol came in, there are zeros.
pub proof fn law_received_symbols_stand_in_place(block: Block, esi: u32, j: int, b: int)
    requires
        esi < block.setup.k,
        0 <= b < 163,
    ensures
        block.best_effort().len() == block.setup.k * 163,
        0 <= esi * 163 + b < block.best_effort().len(),
        first_copy(block.received, j) && block.received[j].0 == esi ==> block.best_effort()[esi
            * 163 + b] == block.received[j].1[b],
        (forall|i: int| 0 <= i < block.received.len() ==> (#[trigger] block.received[i]).0 != esi)
            ==> block.best_effort()[esi * 163 + b] == 0,
{
    let (k, t, e) = (block.setup.k as int, SYMBOL_SIZE as int, esi as int);
    lemma_first_copy(block.received, block.setup.k);
    lemma_place(e, b, k);
    assert(e * t == e * 163 && k * t == k * 163) by (nonlinear_arith)
        requires
            t == 163,
    ;
    if block.sources().contains_key(esi) {
        let i = choose|i: int| #[trigger]
            first_copy(block.received, i) && block.received[i].0 == esi;
        assert(block.received[i].0 == esi);
    }
}

/// The source symbols that count are the ids below `k` that came in, each once;
/// the repair symbols that count are all packets with other ids.
pub proof fn law_symbols_are_counted(block: Block)
    ensures
        block.sources().dom() == Set::new(
            |esi: u32|
                esi < block.setup.k && exists|j: int|
                    0 <= j < block.received.len() && (#[trigger] block.received[j]).0 == esi,
        ),
        block.repair_count() == block.received.filter(
            |r: (u32, Seq<u8>)| r.0 >= block.setup.k,
        ).len(),
{
    let k = block.setup.k;
    lemma_first_copy(block.received, k);
    lemma_repairs_filtered(block.received, k);
    let ids = Set::new(
        |esi: u32|
            esi < k && exists|j: int|
                0 <= j < block.received.len() && (#[trigger] block.received[j]).0 == esi,
    );
    assert forall|esi: u32| block.sources().dom().contains(esi) <==> ids.contains(esi) by {
        if block.sources().contains_key(esi) {
            let j = choose|j: int| #[trigger]
                first_copy(block.received, j) && block.received[j].0 == esi;
            assert(block.received[j].0 == esi);
        }
        if ids.contains(esi) {
            let j = choose|j: int|
                0 <= j < block.received.len() && (#[trigger] block.received[j]).0 == esi;
            lemma_sources_of(block.received, k, j);
        }
    }
    assert(block.sources().dom() =~= ids);
}

proof fn lemma_repairs_filtered(received: Seq<(u32, Seq<u8>)>, k: nat)
    ensures
        repairs_received(received, k) == received.filter(|r: (u32, Seq<u8>)| r.0 >= k).len(),
    decreases received.len(),
{
    reveal(Seq::filter);
    if received.len() > 0 {
        lemma_repairs_filtered(received.drop_last(), k);
    }
}

/// A block takes any packet once it is complete. Before that it takes a packet
/// with its own number, as long as its repair packets can be counted in 32 bits,
/// and, where it has no sub-blocks or no alignment, as long as there are too few
/// distinct symbols to put it together.
pub proof fn law_block_takes_its_packets(block: Block, id: fec::SymbolId)
    ensures
        block.completed() is Some ==> block.accepts(id),
        block.completed() is None ==> (block.accepts(id) <==> {
            &&& id.sbn == block.setup.sbn
            &&& id.esi < block.setup.k || block.repair_count() < 0xFFFF_FFFF
            &&& block.setup.sub_blocks == 0 || block.setup.alignment == 0
                ==> codec::received_ids(block.received).insert(id.esi).len() < block.setup.k
        }),
{
}

/// What is left of a block at the end: what RaptorQ recovered, or else the best
/// effort.
pub proof fn law_as_is_prefers_the_whole(block: Block)
    ensures
        block.completed() matches Some(data) ==> block.as_is() == data,
        block.completed() is None ==> block.as_is() == block.best_effort(),
{
}

} // verus!
