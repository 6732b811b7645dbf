//! Encoder and decoder of one source block.

use crate::fec::{
    EncodingPacket, ObjectTransmissionInformation, PayloadId, ENCODING_SYMBOL_ID_LIMIT,
    MAX_SOURCE_SYMBOLS_PER_BLOCK, OTI_SIZE,
};
use crate::fec;
use vstd::prelude::*;

verus! {

#[verifier::external_type_specification]
#[verifier::external_body]
pub struct ExSourceBlockEncoder(raptorq::SourceBlockEncoder);

#[verifier::external_type_specification]
#[verifier::external_body]
pub struct ExSourceBlockDecoder(raptorq::SourceBlockDecoder);

/// Length of part `part` of every symbol of `symbol_size` bytes, when a block
/// has `sub_blocks` sub-blocks (RFC 6330, section 4.4.1.2): the symbol's aligned
/// units, shared out as evenly as they go, the longer parts first.
pub open spec fn part_length(symbol_size: nat, sub_blocks: nat, alignment: nat, part: nat) -> nat {
    let units = symbol_size / alignment;
    let small = units / sub_blocks;
    if part < units - small * sub_blocks {
        fec::div_ceil(units, sub_blocks) * alignment
    } else {
        small * alignment
    }
}

/// Where part `part` starts within a symbol.
pub open spec fn part_offset(symbol_size: nat, sub_blocks: nat, alignment: nat, part: nat) -> nat
    decreases part,
{
    if part == 0 {
        0
    } else {
        part_offset(symbol_size, sub_blocks, alignment, (part - 1) as nat) + part_length(
            symbol_size,
            sub_blocks,
            alignment,
            (part - 1) as nat,
        )
    }
}

/// The bytes `from..from + len` of every symbol, one symbol after the other.
pub open spec fn gather(symbols: Seq<Seq<u8>>, from: int, len: int) -> Seq<u8>
    decreases symbols.len(),
{
    if symbols.len() == 0 {
        Seq::empty()
    } else {
        gather(symbols.drop_last(), from, len) + symbols.last().subrange(from, from + len)
    }
}

/// The first `parts` sub-blocks of the block that `symbols` make up.
pub open spec fn joined_parts(
    symbols: Seq<Seq<u8>>,
    symbol_size: nat,
    sub_blocks: nat,
    alignment: nat,
    parts: nat,
) -> Seq<u8>
    decreases parts,
{
    if parts == 0 {
        Seq::empty()
    } else {
        let part = (parts - 1) as nat;
        joined_parts(symbols, symbol_size, sub_blocks, alignment, part) + gather(
            symbols,
            part_offset(symbol_size, sub_blocks, alignment, part) as int,
            part_length(symbol_size, sub_blocks, alignment, part) as int,
        )
    }
}

/// The block that `symbols` make up: its sub-blocks one after the other, and
/// zeros for what the alignment leaves uncovered.
pub open spec fn joined(
    symbols: Seq<Seq<u8>>,
    symbol_size: nat,
    sub_blocks: nat,
    alignment: nat,
) -> Seq<u8> {
    let parts = joined_parts(symbols, symbol_size, sub_blocks, alignment, sub_blocks);
    parts + Seq::new((symbol_size * symbols.len() - parts.len()) as nat, |i: int| 0u8)
}

/// All symbols have `symbol_size` bytes.
pub open spec fn uniform(symbols: Seq<Seq<u8>>, symbol_size: nat) -> bool {
    forall|i: int| 0 <= i < symbols.len() ==> (#[trigger] symbols[i]).len() == symbol_size
}

/// What was fixed when a block decoder was made.
pub struct DecoderSetup {
    pub sbn: u8,
    pub k: nat,
    pub symbol_size: nat,
    pub sub_blocks: nat,
    pub alignment: nat,
}

/// The source symbols that an encoder holds.
pub uninterp spec fn encoder_symbols(encoder: raptorq::SourceBlockEncoder) -> Seq<Seq<u8>>;

/// The block number that an encoder was made with.
pub uninterp spec fn encoder_sbn(encoder: raptorq::SourceBlockEncoder) -> u8;

/// Repair symbol `id` of the block with these source symbols.
pub uninterp spec fn repair_symbol(symbols: Seq<Seq<u8>>, id: nat) -> Seq<u8>;

/// The symbols that a decoder was given, in order, each with its symbol id.
pub uninterp spec fn decoder_received(decoder: raptorq::SourceBlockDecoder) -> Seq<(u32, Seq<u8>)>;

/// What a decoder was made with.
pub uninterp spec fn decoder_setup(decoder: raptorq::SourceBlockDecoder) -> DecoderSetup;

/// What the RaptorQ decoder makes of the symbols `received` for a block of `k`
/// source symbols: the block, or nothing yet.
pub uninterp spec fn recovered(
    k: nat,
    symbol_size: nat,
    sub_blocks: nat,
    alignment: nat,
    received: Seq<(u32, Seq<u8>)>,
) -> Option<Seq<u8>>;

/// The encoding symbol with id `esi`: a source symbol below `symbols.len()`, a
/// repair symbol from there on.
pub open spec fn encoding_symbol(symbols: Seq<Seq<u8>>, esi: nat) -> Seq<u8> {
    if esi < symbols.len() {
        symbols[esi as int]
    } else {
        repair_symbol(symbols, (esi - symbols.len()) as nat)
    }
}

/// The ids that occur among the symbols `received`.
pub open spec fn received_ids(received: Seq<(u32, Seq<u8>)>) -> Set<u32> {
    received.map_values(|r: (u32, Seq<u8>)| r.0).to_set()
}

/// The source symbols among `received`, each as it first came.
pub open spec fn sources_received(received: Seq<(u32, Seq<u8>)>, k: nat) -> Map<u32, Seq<u8>>
    decreases received.len(),
{
    if received.len() == 0 {
        Map::empty()
    } else {
        let before = sources_received(received.drop_last(), k);
        let (esi, data) = received.last();
        if esi < k && !before.contains_key(esi) {
            before.insert(esi, data)
        } else {
            before
        }
    }
}

/// Every source symbol of the block is among `received`.
pub open spec fn all_sources_received(received: Seq<(u32, Seq<u8>)>, k: nat) -> bool {
    forall|esi: u32| esi < k ==> #[trigger] sources_received(received, k).contains_key(esi)
}

/// The `k` source symbols in order, where all of them were received.
pub open spec fn sources_in_order(received: Seq<(u32, Seq<u8>)>, k: nat) -> Seq<Seq<u8>> {
    Seq::new(k, |i: int| sources_received(received, k)[i as u32])
}

/// Every symbol `received` is the one that the block with these source symbols
/// has for its id.
pub open spec fn received_from(received: Seq<(u32, Seq<u8>)>, symbols: Seq<Seq<u8>>) -> bool {
    forall|j: int|
        0 <= j < received.len() ==> (#[trigger] received[j]).1 == encoding_symbol(
            symbols,
            received[j].0 as nat,
        )
}

/// The bytes of an optional vector.
pub open spec fn bytes_of(data: Option<Vec<u8>>) -> Option<Seq<u8>> {
    match data {
        Some(v) => Some(v@),
        None => None,
    }
}

/// Blocks that `raptorq::SourceBlockEncoder::new` encodes without a panic: a
/// whole number of symbols, not too many of them, and, where the block has
/// sub-blocks, symbols that are a whole number of aligned units.
pub open spec fn encodable(oti: fec::Oti, block_length: nat) -> bool {
    &&& oti.symbol_size > 0
    &&& block_length % oti.symbol_size as nat == 0
    &&& 1 <= block_length / oti.symbol_size as nat <= MAX_SOURCE_SYMBOLS_PER_BLOCK
    &&& oti.sub_blocks > 1 ==> oti.symbol_alignment > 0 && oti.symbol_size as nat
        % oti.symbol_alignment as nat == 0
}

/// The block that an encoder's source symbols make up.
pub open spec fn block_of_symbols(oti: fec::Oti, symbols: Seq<Seq<u8>>) -> Seq<u8> {
    if oti.sub_blocks > 1 {
        joined(
            symbols,
            oti.symbol_size as nat,
            oti.sub_blocks as nat,
            oti.symbol_alignment as nat,
        )
    } else {
        gather(symbols, 0, oti.symbol_size as int)
    }
}

/// Calls `raptorq::SourceBlockEncoder::new`, which cuts the block into symbols
/// of the announced size. The symbols, put together again, are the block.
#[verifier::external_body]
fn raptorq_encoder_new(sbn: u8, oti: &[u8; OTI_SIZE], block: &[u8]) -> (encoder:
    raptorq::SourceBlockEncoder)
    requires
        encodable(fec::oti_of_wire(oti@), block@.len()),
    ensures
        encoder_sbn(encoder) == sbn,
        encoder_symbols(encoder).len() == block@.len() / fec::oti_of_wire(
            oti@,
        ).symbol_size as nat,
        uniform(encoder_symbols(encoder), fec::oti_of_wire(oti@).symbol_size as nat),
        block_of_symbols(fec::oti_of_wire(oti@), encoder_symbols(encoder)) == block@,
{
    let config = raptorq::ObjectTransmissionInformation::deserialize(oti);
    raptorq::SourceBlockEncoder::new(sbn, &config, block)
}

/// Calls `raptorq::SourceBlockEncoder::source_packets`: one packet for each
/// source symbol, numbered from zero.
#[verifier::external_body]
fn raptorq_source_packets(encoder: &raptorq::SourceBlockEncoder) -> (packets: Vec<
    (u8, u32, Vec<u8>),
>)
    requires
        encoder_symbols(*encoder).len() <= ENCODING_SYMBOL_ID_LIMIT,
    ensures
        packets@.len() == encoder_symbols(*encoder).len(),
        forall|i: int|
            0 <= i < packets@.len() ==> {
                &&& (#[trigger] packets@[i]).0 == encoder_sbn(*encoder)
                &&& packets@[i].1 == i
                &&& packets@[i].2@ == encoder_symbols(*encoder)[i]
            },
{
    let convert = |p: raptorq::EncodingPacket| {
        let (id, data) = p.split();
        (id.source_block_number(), id.encoding_symbol_id(), data)
    };
    encoder.source_packets().into_iter().map(convert).collect()
}

/// Calls `raptorq::SourceBlockEncoder::repair_packets`: `packets` repair symbols
/// from number `start` on. Their ids follow those of the source symbols, and a
/// symbol depends on the source symbols and its number alone.
#[verifier::external_body]
fn raptorq_repair_packets(encoder: &raptorq::SourceBlockEncoder, start: u32, packets: u32) -> (res:
    Vec<(u8, u32, Vec<u8>)>)
    requires
        1 <= encoder_symbols(*encoder).len() <= MAX_SOURCE_SYMBOLS_PER_BLOCK,
        encoder_symbols(*encoder).len() + start + packets <= ENCODING_SYMBOL_ID_LIMIT,
    ensures
        res@.len() == packets,
        forall|i: int|
            0 <= i < res@.len() ==> {
                &&& (#[trigger] res@[i]).0 == encoder_sbn(*encoder)
                &&& res@[i].1 == encoder_symbols(*encoder).len() + start + i
                &&& res@[i].2@ == repair_symbol(encoder_symbols(*encoder), (start + i) as nat)
                &&& res@[i].2@.len() == encoder_symbols(*encoder)[0].len()
            },
{
    let convert = |p: raptorq::EncodingPacket| {
        let (id, data) = p.split();
        (id.source_block_number(), id.encoding_symbol_id(), data)
    };
    encoder.repair_packets(start, packets).into_iter().map(convert).collect()
}

/// Geometries for which `raptorq::SourceBlockDecoder` takes symbols in.
pub open spec fn decodable(oti: fec::Oti, block_length: u64) -> bool {
    &&& oti.symbol_size > 0
    &&& 1 <= fec::div_ceil(block_length as nat, oti.symbol_size as nat)
        <= MAX_SOURCE_SYMBOLS_PER_BLOCK
}

/// What a decoder for block `sbn` of this geometry is made with.
pub open spec fn setup_of(sbn: u8, oti: fec::Oti, block_length: u64) -> DecoderSetup {
    DecoderSetup {
        sbn,
        k: fec::div_ceil(block_length as nat, oti.symbol_size as nat),
        symbol_size: oti.symbol_size as nat,
        sub_blocks: oti.sub_blocks as nat,
        alignment: oti.symbol_alignment as nat,
    }
}

/// Calls `raptorq::SourceBlockDecoder::new`: a decoder that has received
/// nothing yet.
#[verifier::external_body]
fn raptorq_decoder_new(sbn: u8, oti: &[u8; OTI_SIZE], block_length: u64) -> (decoder:
    raptorq::SourceBlockDecoder)
    requires
        decodable(fec::oti_of_wire(oti@), block_length),
    ensures
        decoder_setup(decoder) == setup_of(sbn, fec::oti_of_wire(oti@), block_length),
        decoder_received(decoder) == Seq::<(u32, Seq<u8>)>::empty(),
{
    let config = raptorq::ObjectTransmissionInformation::deserialize(oti);
    raptorq::SourceBlockDecoder::new(sbn, &config, block_length)
}

/// Calls `raptorq::SourceBlockDecoder::decode` with one packet, which the
/// decoder keeps. What comes back depends on the geometry and on the symbols
/// received so far alone. Nothing comes back from fewer distinct symbols than
/// the block has source symbols; the geometry is looked at only after that, and
/// has to have sub-blocks and an alignment then. From all source symbols comes the block that
/// they make up. And a block that comes back, from any symbols of one encoded
/// block, is that block: RaptorQ is an erasure code.
#[verifier::external_body]
fn raptorq_decode(
    decoder: &mut raptorq::SourceBlockDecoder,
    sbn: u8,
    esi: u32,
    data: Vec<u8>,
) -> (res: Option<Vec<u8>>)
    requires
        sbn == decoder_setup(*old(decoder)).sbn,
        esi < ENCODING_SYMBOL_ID_LIMIT,
        data@.len() == decoder_setup(*old(decoder)).symbol_size,
        decoder_setup(*old(decoder)).valid(),
        decoder_setup(*old(decoder)).can_take(decoder_received(*old(decoder)), esi),
    ensures
        decoder_setup(*final(decoder)) == decoder_setup(*old(decoder)),
        decoder_received(*final(decoder)) == decoder_received(*old(decoder)).push((esi, data@)),
        bytes_of(res) == recovered(
            decoder_setup(*old(decoder)).k,
            decoder_setup(*old(decoder)).symbol_size,
            decoder_setup(*old(decoder)).sub_blocks,
            decoder_setup(*old(decoder)).alignment,
            decoder_received(*final(decoder)),
        ),
        recovery_is_sound(
            decoder_setup(*final(decoder)),
            decoder_received(*final(decoder)),
            bytes_of(res),
        ),
{
    let id = raptorq::PayloadId::new(sbn, esi);
    decoder.decode(std::iter::once(raptorq::EncodingPacket::new(id, data)))
}

/// What holds of every outcome of decoding the symbols `received`.
pub open spec fn recovery_is_sound(
    setup: DecoderSetup,
    received: Seq<(u32, Seq<u8>)>,
    outcome: Option<Seq<u8>>,
) -> bool {
    let k = setup.k;
    let t = setup.symbol_size;
    &&& received_ids(received).len() < k ==> outcome is None
    &&& all_sources_received(received, k) ==> outcome == Some(
        joined(sources_in_order(received, k), t, setup.sub_blocks, setup.alignment),
    )
    &&& outcome matches Some(block) ==> block.len() == t * k
    &&& forall|symbols: Seq<Seq<u8>>|
        symbols.len() == k && uniform(symbols, t) && #[trigger] received_from(received, symbols)
            && outcome is Some ==> outcome == Some(
            joined(symbols, t, setup.sub_blocks, setup.alignment),
        )
}

/// What an encoder holds: its block number and the block's source symbols.
pub struct EncodedBlock {
    pub sbn: u8,
    pub symbols: Seq<Seq<u8>>,
}

impl EncodedBlock {
    /// The block has source symbols, all of one size.
    pub open spec fn valid(self) -> bool {
        &&& 1 <= self.symbols.len() <= MAX_SOURCE_SYMBOLS_PER_BLOCK
        &&& uniform(self.symbols, self.symbols[0].len())
    }

    /// The packet with symbol id `esi`.
    pub open spec fn packet(self, esi: nat) -> fec::Packet {
        fec::Packet {
            id: fec::SymbolId { sbn: self.sbn, esi: esi as u32 },
            data: encoding_symbol(self.symbols, esi),
        }
    }
}

/// Takes over packets from their parts.
fn packets_from_parts(parts: Vec<(u8, u32, Vec<u8>)>) -> (packets: Vec<EncodingPacket>)
    requires
        forall|i: int|
            0 <= i < parts@.len() ==> (#[trigger] parts@[i]).1 < ENCODING_SYMBOL_ID_LIMIT,
    ensures
        packets@.len() == parts@.len(),
        forall|i: int|
            0 <= i < parts@.len() ==> (#[trigger] packets@[i])@ == (fec::Packet {
                id: fec::SymbolId { sbn: parts@[i].0, esi: parts@[i].1 },
                data: parts@[i].2@,
            }),
{
    let mut packets: Vec<EncodingPacket> = Vec::new();
    for part in it: parts
        invariant
            it.seq() == parts@,
            forall|i: int|
                0 <= i < parts@.len() ==> (#[trigger] parts@[i]).1 < ENCODING_SYMBOL_ID_LIMIT,
            packets@.len() == it.index(),
            forall|i: int|
                0 <= i < packets@.len() ==> (#[trigger] packets@[i])@ == (fec::Packet {
                    id: fec::SymbolId { sbn: parts@[i].0, esi: parts@[i].1 },
                    data: parts@[i].2@,
                }),
    {
        let (sbn, esi, data) = part;
        packets.push(EncodingPacket::new(PayloadId::new(sbn, esi), data));
    }
    packets
}

/// Encoder of one source block. Repair symbols can be made for as long as it
/// lives: RaptorQ is a fountain code.
pub struct BlockEncoder {
    inner: raptorq::SourceBlockEncoder,
    k: u32,
}

impl View for BlockEncoder {
    type V = EncodedBlock;

    closed spec fn view(&self) -> EncodedBlock {
        EncodedBlock { sbn: encoder_sbn(self.inner), symbols: encoder_symbols(self.inner) }
    }
}

impl BlockEncoder {
    #[verifier::type_invariant]
    spec fn is_valid(self) -> bool {
        self@.valid() && self.k == self@.symbols.len()
    }

    pub fn new(sbn: u8, oti: &ObjectTransmissionInformation, block: &[u8]) -> (encoder: Self)
        requires
            encodable(oti@, block@.len()),
        ensures
            encoder@.valid(),
            encoder@.sbn == sbn,
            encoder@.symbols.len() == block@.len() / oti@.symbol_size as nat,
            uniform(encoder@.symbols, oti@.symbol_size as nat),
            block_of_symbols(oti@, encoder@.symbols) == block@,
    {
        let wire: [u8; OTI_SIZE] = oti.serialize();
        proof {
            fec::law_oti_wire_roundtrip(oti@);
        }
        let k: usize = block.len() / oti.symbol_size() as usize;
        BlockEncoder { inner: raptorq_encoder_new(sbn, &wire, block), k: k as u32 }
    }

    /// The number of source symbols.
    pub fn source_symbols(&self) -> (k: u32)
        ensures
            self@.valid(),
            k == self@.symbols.len(),
    {
        proof {
            use_type_invariant(self);
        }
        self.k
    }

    pub fn source_packets(&self) -> (packets: Vec<EncodingPacket>)
        ensures
            self@.valid(),
            packets@.len() == self@.symbols.len(),
            forall|i: int|
                0 <= i < packets@.len() ==> (#[trigger] packets@[i])@ == self@.packet(i as nat),
    {
        proof {
            use_type_invariant(self);
        }
        let parts = raptorq_source_packets(&self.inner);
        packets_from_parts(parts)
    }

    /// `packets` repair packets, from repair symbol `start` on.
    pub fn repair_packets(&self, start: u32, packets: u32) -> (res: Vec<EncodingPacket>)
        requires
            self@.symbols.len() + start + packets <= ENCODING_SYMBOL_ID_LIMIT,
        ensures
            self@.valid(),
            res@.len() == packets,
            forall|i: int|
                0 <= i < res@.len() ==> {
                    &&& (#[trigger] res@[i])@ == self@.packet(
                        (self@.symbols.len() + start + i) as nat,
                    )
                    &&& res@[i]@.data.len() == self@.symbols[0].len()
                },
    {
        proof {
            use_type_invariant(self);
        }
        let parts = raptorq_repair_packets(&self.inner, start, packets);
        packets_from_parts(parts)
    }
}

/// Decoder of one source block.
pub struct BlockDecoder {
    inner: raptorq::SourceBlockDecoder,
}

impl BlockDecoder {
    /// What the decoder was made with.
    pub closed spec fn setup(self) -> DecoderSetup {
        decoder_setup(self.inner)
    }

    /// The symbols that the decoder was given, in order.
    pub closed spec fn received(self) -> Seq<(u32, Seq<u8>)> {
        decoder_received(self.inner)
    }

    pub fn new(sbn: u8, oti: &ObjectTransmissionInformation, block_length: u64) -> (decoder: Self)
        requires
            decodable(oti@, block_length),
        ensures
            decoder.setup().valid(),
            decoder.setup() == setup_of(sbn, oti@, block_length),
            decoder.received() == Seq::<(u32, Seq<u8>)>::empty(),
    {
        let wire: [u8; OTI_SIZE] = oti.serialize();
        proof {
            fec::law_oti_wire_roundtrip(oti@);
        }
        BlockDecoder { inner: raptorq_decoder_new(sbn, &wire, block_length) }
    }

    /// Takes one more packet and tries to recover the block from all of them.
    pub fn decode(&mut self, packet: EncodingPacket) -> (res: Option<Vec<u8>>)
        requires
            old(self).setup().valid(),
            old(self).setup().can_take(old(self).received(), packet@.id.esi),
            packet@.id.sbn == old(self).setup().sbn,
            packet@.data.len() == old(self).setup().symbol_size,
        ensures
            final(self).setup() == old(self).setup(),
            final(self).received() == old(self).received().push((packet@.id.esi, packet@.data)),
            bytes_of(res) == final(self).setup().outcome(final(self).received()),
            recovery_is_sound(final(self).setup(), final(self).received(), bytes_of(res)),
    {
        let (id, data) = packet.split();
        let esi: u32 = id.encoding_symbol_id();
        raptorq_decode(&mut self.inner, id.source_block_number(), esi, data)
    }
}

impl DecoderSetup {
    pub open spec fn valid(self) -> bool {
        1 <= self.k <= MAX_SOURCE_SYMBOLS_PER_BLOCK
    }

    /// Symbols of this geometry can be put together to a block.
    pub open spec fn solvable(self) -> bool {
        self.sub_blocks > 0 && self.alignment > 0
    }

    /// Decoding does not fail on a symbol with id `esi` behind those `received`:
    /// a block can be put together, or there are still too few symbols for it to
    /// be tried.
    pub open spec fn can_take(self, received: Seq<(u32, Seq<u8>)>, esi: u32) -> bool {
        self.solvable() || received_ids(received).insert(esi).len() < self.k
    }

    /// What decoding makes of the symbols `received`.
    pub open spec fn outcome(self, received: Seq<(u32, Seq<u8>)>) -> Option<Seq<u8>> {
        recovered(self.k, self.symbol_size, self.sub_blocks, self.alignment, received)
    }
}

} // verus!
