//! The values that travel with every RaptorQ symbol: transmission information,
//! payload ids and packets, with their wire forms.

use vstd::prelude::*;

verus! {

/// Most source symbols that a block can have (K'_max of RFC 6330).
pub const MAX_SOURCE_SYMBOLS_PER_BLOCK: u64 = 56403;

/// Longest object that RaptorQ can describe, in bytes.
pub const MAX_TRANSFER_LENGTH: u64 = 942574504275;

/// Encoding symbol ids have 24 bits.
pub const ENCODING_SYMBOL_ID_LIMIT: u32 = 0x100_0000;

/// Length of the serialized object transmission information.
pub const OTI_SIZE: usize = 12;

/// Length of a serialized payload id.
pub const PAYLOAD_ID_SIZE: usize = 4;

/// The number that `bytes` spell, most significant byte first.
pub open spec fn big_endian(bytes: Seq<u8>) -> nat
    decreases bytes.len(),
{
    if bytes.len() == 0 {
        0
    } else {
        big_endian(bytes.drop_last()) * 256 + bytes.last() as nat
    }
}

/// `a / b`, rounded up.
pub open spec fn div_ceil(a: nat, b: nat) -> nat {
    if a % b == 0 {
        a / b
    } else {
        a / b + 1
    }
}

/// What an [`ObjectTransmissionInformation`] says.
pub struct Oti {
    pub transfer_length: u64,
    pub symbol_size: u16,
    pub source_blocks: u8,
    pub sub_blocks: u16,
    pub symbol_alignment: u8,
}

/// What a [`PayloadId`] says.
pub struct SymbolId {
    pub sbn: u8,
    pub esi: u32,
}

/// What an [`EncodingPacket`] carries.
#[verifier::ext_equal]
pub struct Packet {
    pub id: SymbolId,
    pub data: Seq<u8>,
}

impl Oti {
    /// The transfer length fits the 40 bits that the wire has for it.
    pub open spec fn valid(self) -> bool {
        self.transfer_length < 0x100_0000_0000
    }
}

impl SymbolId {
    pub open spec fn valid(self) -> bool {
        self.esi < ENCODING_SYMBOL_ID_LIMIT
    }
}

/// The object transmission information in twelve bytes of wire form: five bytes
/// of transfer length, a reserved byte, then the other fields, all big-endian.
pub open spec fn oti_of_wire(wire: Seq<u8>) -> Oti {
    Oti {
        transfer_length: big_endian(wire.subrange(0, 5)) as u64,
        symbol_size: big_endian(wire.subrange(6, 8)) as u16,
        source_blocks: wire[8],
        sub_blocks: big_endian(wire.subrange(9, 11)) as u16,
        symbol_alignment: wire[11],
    }
}

/// The payload id in four bytes of wire form: the source block number, then the
/// 24-bit encoding symbol id, big-endian.
pub open spec fn symbol_id_of_wire(wire: Seq<u8>) -> SymbolId {
    SymbolId { sbn: wire[0], esi: big_endian(wire.subrange(1, 4)) as u32 }
}

/// The twelve bytes that spell `oti`, with the reserved byte zero.
pub open spec fn oti_wire(oti: Oti) -> Seq<u8> {
    let f = oti.transfer_length as int;
    seq![
        (f / 0x1_0000_0000 % 256) as u8,
        (f / 0x100_0000 % 256) as u8,
        (f / 0x1_0000 % 256) as u8,
        (f / 0x100 % 256) as u8,
        (f % 256) as u8,
        0u8,
        (oti.symbol_size as int / 256) as u8,
        (oti.symbol_size as int % 256) as u8,
        oti.source_blocks,
        (oti.sub_blocks as int / 256) as u8,
        (oti.sub_blocks as int % 256) as u8,
        oti.symbol_alignment,
    ]
}

/// The four bytes that spell `id`.
pub open spec fn symbol_id_wire(id: SymbolId) -> Seq<u8> {
    seq![
        id.sbn,
        (id.esi as int / 0x1_0000 % 256) as u8,
        (id.esi as int / 0x100 % 256) as u8,
        (id.esi as int % 256) as u8,
    ]
}

proof fn lemma_big_endian_2(b: Seq<u8>)
    requires
        b.len() == 2,
    ensures
        big_endian(b) == b[0] * 0x100 + b[1],
{
    reveal_with_fuel(big_endian, 3);
}

proof fn lemma_big_endian_3(b: Seq<u8>)
    requires
        b.len() == 3,
    ensures
        big_endian(b) == b[0] * 0x1_0000 + b[1] * 0x100 + b[2],
{
    reveal_with_fuel(big_endian, 4);
}

proof fn lemma_big_endian_5(b: Seq<u8>)
    requires
        b.len() == 5,
    ensures
        big_endian(b) == b[0] * 0x1_0000_0000 + b[1] * 0x100_0000 + b[2] * 0x1_0000 + b[3] * 0x100
            + b[4],
{
    reveal_with_fuel(big_endian, 6);
}

proof fn lemma_five_digits(f: int)
    requires
        0 <= f < 0x100_0000_0000,
    ensures
        f / 0x1_0000_0000 % 256 * 0x1_0000_0000 + f / 0x100_0000 % 256 * 0x100_0000 + f / 0x1_0000
            % 256 * 0x1_0000 + f / 0x100 % 256 * 0x100 + f % 256 == f,
{
    let f1 = f / 256;
    let f2 = f1 / 256;
    let f3 = f2 / 256;
    let f4 = f3 / 256;
    assert(f / 0x1_0000 == f2);
    assert(f / 0x100_0000 == f3);
    assert(f / 0x1_0000_0000 == f4);
}

/// Reading back serialized transmission information gives what was serialized.
pub proof fn law_oti_wire_roundtrip(oti: Oti)
    requires
        oti.valid(),
    ensures
        oti_wire(oti).len() == OTI_SIZE,
        oti_of_wire(oti_wire(oti)) == oti,
{
    let wire = oti_wire(oti);
    let f = oti.transfer_length;
    assert(big_endian(wire.subrange(0, 5)) == f) by {
        lemma_big_endian_5(wire.subrange(0, 5));
        lemma_five_digits(f as int);
    }
    assert(big_endian(wire.subrange(6, 8)) == oti.symbol_size) by {
        lemma_big_endian_2(wire.subrange(6, 8));
    }
    assert(big_endian(wire.subrange(9, 11)) == oti.sub_blocks) by {
        lemma_big_endian_2(wire.subrange(9, 11));
    }
}

/// What is read from the wire is always valid.
pub proof fn law_wire_values_are_valid(oti: Seq<u8>, id: Seq<u8>)
    requires
        oti.len() == OTI_SIZE,
        id.len() == PAYLOAD_ID_SIZE,
    ensures
        oti_of_wire(oti).valid(),
        symbol_id_of_wire(id).valid(),
{
    lemma_big_endian_5(oti.subrange(0, 5));
    lemma_big_endian_3(id.subrange(1, 4));
}

/// Reading back a serialized payload id gives what was serialized.
pub proof fn law_symbol_id_wire_roundtrip(id: SymbolId)
    requires
        id.valid(),
    ensures
        symbol_id_wire(id).len() == PAYLOAD_ID_SIZE,
        symbol_id_of_wire(symbol_id_wire(id)) == id,
{
    lemma_big_endian_3(symbol_id_wire(id).subrange(1, 4));
}

/// Source symbols per block that [`ObjectTransmissionInformation::new`] works
/// out; the number of symbols of the whole object is kept in 32 bits.
pub open spec fn symbols_per_block(transfer_length: u64, symbol_size: u16, source_blocks: u8) -> nat {
    div_ceil(
        div_ceil(transfer_length as nat, symbol_size as nat) % 0x1_0000_0000,
        source_blocks as nat,
    )
}

/// Parameters that [`ObjectTransmissionInformation::new`] accepts.
pub open spec fn oti_parameters_ok(
    transfer_length: u64,
    symbol_size: u16,
    source_blocks: u8,
    alignment: u8,
) -> bool {
    &&& transfer_length <= MAX_TRANSFER_LENGTH
    &&& alignment != 0
    &&& symbol_size as int % alignment as int == 0
    &&& symbol_size != 0 && source_blocks != 0 ==> symbols_per_block(
        transfer_length,
        symbol_size,
        source_blocks,
    ) <= MAX_SOURCE_SYMBOLS_PER_BLOCK
}

/// Calls `raptorq::ObjectTransmissionInformation::new`, which checks its
/// arguments and keeps them: the five fields come back as they went in.
#[verifier::external_body]
fn raptorq_oti_new(
    transfer_length: u64,
    symbol_size: u16,
    source_blocks: u8,
    sub_blocks: u16,
    alignment: u8,
) -> (fields: (u64, u16, u8, u16, u8))
    requires
        oti_parameters_ok(transfer_length, symbol_size, source_blocks, alignment),
    ensures
        fields == (transfer_length, symbol_size, source_blocks, sub_blocks, alignment),
{
    let oti = raptorq::ObjectTransmissionInformation::new(
        transfer_length,
        symbol_size,
        source_blocks,
        sub_blocks,
        alignment,
    );
    (
        oti.transfer_length(),
        oti.symbol_size(),
        oti.source_blocks(),
        oti.sub_blocks(),
        oti.symbol_alignment(),
    )
}

/// Calls `raptorq::ObjectTransmissionInformation::deserialize`, which reads the
/// five fields from their fixed places without checking them.
#[verifier::external_body]
fn raptorq_oti_deserialize(wire: &[u8; OTI_SIZE]) -> (fields: (u64, u16, u8, u16, u8))
    ensures
        fields.0 == oti_of_wire(wire@).transfer_length,
        fields.1 == oti_of_wire(wire@).symbol_size,
        fields.2 == oti_of_wire(wire@).source_blocks,
        fields.3 == oti_of_wire(wire@).sub_blocks,
        fields.4 == oti_of_wire(wire@).symbol_alignment,
{
    let oti = raptorq::ObjectTransmissionInformation::deserialize(wire);
    (
        oti.transfer_length(),
        oti.symbol_size(),
        oti.source_blocks(),
        oti.sub_blocks(),
        oti.symbol_alignment(),
    )
}

/// Calls `raptorq::PayloadId::serialize` on the id made of the two arguments.
/// `raptorq::PayloadId::new` refuses symbol ids of more than 24 bits.
#[verifier::external_body]
fn raptorq_payload_id_serialize(sbn: u8, esi: u32) -> (wire: [u8; PAYLOAD_ID_SIZE])
    requires
        esi < ENCODING_SYMBOL_ID_LIMIT,
    ensures
        wire@ == symbol_id_wire(SymbolId { sbn, esi }),
{
    raptorq::PayloadId::new(sbn, esi).serialize()
}

/// Calls `raptorq::PayloadId::deserialize`, which reads the block number from
/// the first byte and the symbol id from the other three.
#[verifier::external_body]
fn raptorq_payload_id_deserialize(wire: &[u8; PAYLOAD_ID_SIZE]) -> (fields: (u8, u32))
    ensures
        fields.0 == symbol_id_of_wire(wire@).sbn,
        fields.1 == symbol_id_of_wire(wire@).esi,
{
    let id = raptorq::PayloadId::deserialize(wire);
    (id.source_block_number(), id.encoding_symbol_id())
}

/// Object transmission information (RFC 6330, section 3.3): how an object is
/// cut into blocks and symbols.
#[derive(Debug, Clone, Copy)]
pub struct ObjectTransmissionInformation {
    transfer_length: u64,
    symbol_size: u16,
    source_blocks: u8,
    sub_blocks: u16,
    symbol_alignment: u8,
}

impl View for ObjectTransmissionInformation {
    type V = Oti;

    closed spec fn view(&self) -> Oti {
        Oti {
            transfer_length: self.transfer_length,
            symbol_size: self.symbol_size,
            source_blocks: self.source_blocks,
            sub_blocks: self.sub_blocks,
            symbol_alignment: self.symbol_alignment,
        }
    }
}

impl ObjectTransmissionInformation {
    #[verifier::type_invariant]
    spec fn is_valid(self) -> bool {
        self@.valid()
    }

    pub fn new(
        transfer_length: u64,
        symbol_size: u16,
        source_blocks: u8,
        sub_blocks: u16,
        alignment: u8,
    ) -> (oti: Self)
        requires
            oti_parameters_ok(transfer_length, symbol_size, source_blocks, alignment),
        ensures
            oti@ == (Oti {
                transfer_length,
                symbol_size,
                source_blocks,
                sub_blocks,
                symbol_alignment: alignment,
            }),
    {
        let fields = raptorq_oti_new(
            transfer_length,
            symbol_size,
            source_blocks,
            sub_blocks,
            alignment,
        );
        ObjectTransmissionInformation {
            transfer_length: fields.0,
            symbol_size: fields.1,
            source_blocks: fields.2,
            sub_blocks: fields.3,
            symbol_alignment: fields.4,
        }
    }

    pub fn deserialize(wire: &[u8; OTI_SIZE]) -> (oti: Self)
        ensures
            oti@ == oti_of_wire(wire@),
    {
        let fields = raptorq_oti_deserialize(wire);
        proof {
            law_wire_values_are_valid(wire@, seq![0u8, 0u8, 0u8, 0u8]);
        }
        ObjectTransmissionInformation {
            transfer_length: fields.0,
            symbol_size: fields.1,
            source_blocks: fields.2,
            sub_blocks: fields.3,
            symbol_alignment: fields.4,
        }
    }

    pub fn serialize(&self) -> (wire: [u8; OTI_SIZE])
        ensures
            self@.valid(),
            wire@ == oti_wire(self@),
    {
        proof {
            use_type_invariant(self);
        }
        let f: u64 = self.transfer_length;
        let t: u16 = self.symbol_size;
        let n: u16 = self.sub_blocks;
        let wire: [u8; OTI_SIZE] = [
            (f / 0x1_0000_0000 % 256) as u8,
            (f / 0x100_0000 % 256) as u8,
            (f / 0x1_0000 % 256) as u8,
            (f / 0x100 % 256) as u8,
            (f % 256) as u8,
            0u8,
            (t / 256) as u8,
            (t % 256) as u8,
            self.source_blocks,
            (n / 256) as u8,
            (n % 256) as u8,
            self.symbol_alignment,
        ];
        assert(wire@ =~= oti_wire(self@));
        wire
    }

    pub fn transfer_length(&self) -> (v: u64)
        ensures
            v == self@.transfer_length,
            self@.valid(),
    {
        proof {
            use_type_invariant(self);
        }
        self.transfer_length
    }

    pub fn symbol_size(&self) -> (v: u16)
        ensures
            v == self@.symbol_size,
    {
        self.symbol_size
    }

    pub fn source_blocks(&self) -> (v: u8)
        ensures
            v == self@.source_blocks,
    {
        self.source_blocks
    }

    pub fn sub_blocks(&self) -> (v: u16)
        ensures
            v == self@.sub_blocks,
    {
        self.sub_blocks
    }

    pub fn symbol_alignment(&self) -> (v: u8)
        ensures
            v == self@.symbol_alignment,
    {
        self.symbol_alignment
    }
}

/// Which symbol of which source block a packet carries (RFC 6330, section 3.2).
#[derive(Debug, Clone, Copy)]
pub struct PayloadId {
    source_block_number: u8,
    encoding_symbol_id: u32,
}

impl View for PayloadId {
    type V = SymbolId;

    closed spec fn view(&self) -> SymbolId {
        SymbolId { sbn: self.source_block_number, esi: self.encoding_symbol_id }
    }
}

impl PayloadId {
    #[verifier::type_invariant]
    spec fn is_valid(self) -> bool {
        self@.valid()
    }

    pub fn new(source_block_number: u8, encoding_symbol_id: u32) -> (id: Self)
        requires
            encoding_symbol_id < ENCODING_SYMBOL_ID_LIMIT,
        ensures
            id@ == (SymbolId { sbn: source_block_number, esi: encoding_symbol_id }),
    {
        PayloadId { source_block_number, encoding_symbol_id }
    }

    pub fn deserialize(wire: &[u8; PAYLOAD_ID_SIZE]) -> (id: Self)
        ensures
            id@ == symbol_id_of_wire(wire@),
    {
        let fields = raptorq_payload_id_deserialize(wire);
        proof {
            lemma_big_endian_3(wire@.subrange(1, 4));
        }
        PayloadId { source_block_number: fields.0, encoding_symbol_id: fields.1 }
    }

    pub fn serialize(&self) -> (wire: [u8; PAYLOAD_ID_SIZE])
        ensures
            self@.valid(),
            wire@ == symbol_id_wire(self@),
    {
        proof {
            use_type_invariant(self);
        }
        raptorq_payload_id_serialize(self.source_block_number, self.encoding_symbol_id)
    }

    pub fn source_block_number(&self) -> (v: u8)
        ensures
            v == self@.sbn,
    {
        self.source_block_number
    }

    pub fn encoding_symbol_id(&self) -> (v: u32)
        ensures
            v == self@.esi,
            self@.valid(),
    {
        proof {
            use_type_invariant(self);
        }
        self.encoding_symbol_id
    }
}

/// One encoding symbol with its id.
#[derive(Debug)]
pub struct EncodingPacket {
    payload_id: PayloadId,
    data: Vec<u8>,
}

impl View for EncodingPacket {
    type V = Packet;

    closed spec fn view(&self) -> Packet {
        Packet { id: self.payload_id@, data: self.data@ }
    }
}

impl Clone for EncodingPacket {
    fn clone(&self) -> (packet: Self)
        ensures
            packet@ == self@,
    {
        let data: Vec<u8> = self.data.clone();
        assert(data@ =~= self.data@);
        EncodingPacket { payload_id: self.payload_id, data }
    }
}

impl EncodingPacket {
    pub fn new(payload_id: PayloadId, data: Vec<u8>) -> (packet: Self)
        ensures
            packet@ == (Packet { id: payload_id@, data: data@ }),
    {
        EncodingPacket { payload_id, data }
    }

    pub fn payload_id(&self) -> (id: &PayloadId)
        ensures
            id@ == self@.id,
    {
        &self.payload_id
    }

    pub fn data(&self) -> (data: &[u8])
        ensures
            data@ == self@.data,
    {
        self.data.as_slice()
    }

    /// The id and the symbol, taken apart.
    pub fn split(self) -> (parts: (PayloadId, Vec<u8>))
        ensures
            parts.0@ == self@.id,
            parts.1@ == self@.data,
    {
        (self.payload_id, self.data)
    }
}

/// Where the fields stand on the wire: five bytes of transfer length, one that is
/// reserved, two of symbol size, one of source blocks, two of sub-blocks and one
/// of alignment; all big-endian.
pub proof fn law_oti_layout(wire: Seq<u8>, oti: Oti)
    requires
        wire.len() == OTI_SIZE,
        oti.valid(),
    ensures
        oti_of_wire(wire).transfer_length == wire[0] * 0x1_0000_0000 + wire[1] * 0x100_0000
            + wire[2] * 0x1_0000 + wire[3] * 0x100 + wire[4],
        oti_of_wire(wire).symbol_size == wire[6] * 256 + wire[7],
        oti_of_wire(wire).source_blocks == wire[8],
        oti_of_wire(wire).sub_blocks == wire[9] * 256 + wire[10],
        oti_of_wire(wire).symbol_alignment == wire[11],
        oti_wire(oti).len() == OTI_SIZE,
        oti_wire(oti)[5] == 0,
        oti_of_wire(oti_wire(oti)) == oti,
{
    lemma_big_endian_5(wire.subrange(0, 5));
    lemma_big_endian_2(wire.subrange(6, 8));
    lemma_big_endian_2(wire.subrange(9, 11));
    law_oti_wire_roundtrip(oti);
}

/// A payload id is one byte of block number and three of symbol id, big-endian.
pub proof fn law_symbol_id_layout(wire: Seq<u8>, id: SymbolId)
    requires
        wire.len() == PAYLOAD_ID_SIZE,
        id.valid(),
    ensures
        symbol_id_of_wire(wire).sbn == wire[0],
        symbol_id_of_wire(wire).esi == wire[1] * 0x1_0000 + wire[2] * 0x100 + wire[3],
        symbol_id_wire(id).len() == PAYLOAD_ID_SIZE,
        symbol_id_wire(id)[0] == id.sbn,
        symbol_id_wire(id)[1] * 0x1_0000 + symbol_id_wire(id)[2] * 0x100 + symbol_id_wire(id)[3]
            == id.esi,
{
    lemma_big_endian_3(wire.subrange(1, 4));
    law_symbol_id_wire_roundtrip(id);
}

} // verus!
