//! Frames: one RaptorQ symbol, or stuffing, in the payload of a TS packet.

use crate::codec::{BlockDecoder, BlockEncoder};
use crate::codec;
use crate::crc;
use crate::crc::crc32;
use crate::fec::{
    EncodingPacket, ObjectTransmissionInformation, PayloadId, OTI_SIZE, PAYLOAD_ID_SIZE,
};
use crate::fec;
use crate::ts::{
    ParseError, TsHeader, CRC_SIZE, FRAME_CRC_OFFSET, FRAME_OTI_OFFSET, FRAME_PAYLOAD_ID_OFFSET,
    FRAME_SYMBOL_OFFSET, FRAME_TYPE_DATA, FRAME_TYPE_NOOP, FRAME_TYPE_OFFSET, SYMBOL_SIZE,
    TS_HEADER_SIZE, TS_PACKET_SIZE, TS_SYNC_BYTE,
};
use crate::ts;
use vstd::prelude::*;

verus! {

/// A frame of the link, as read from a packet.
#[derive(Debug)]
pub enum ParsedFrame {
    Data {
        /// 4-bit TS continuity counter; gaps across consecutive frames reveal
        /// packets lost in transit.
        cc: u8,
        oti: ObjectTransmissionInformation,
        payload_id: PayloadId,
        symbol: Vec<u8>,
    },
    Noop {
        /// 4-bit TS continuity counter; see [`ParsedFrame::Data`].
        cc: u8,
    },
}

/// What a [`ParsedFrame`] says.
#[verifier::ext_equal]
pub enum Frame {
    Data { cc: u8, oti: fec::Oti, id: fec::SymbolId, symbol: Seq<u8> },
    Noop { cc: u8 },
}

impl View for ParsedFrame {
    type V = Frame;

    open spec fn view(&self) -> Frame {
        match *self {
            ParsedFrame::Data { cc, oti, payload_id, symbol } => Frame::Data {
                cc,
                oti: oti@,
                id: payload_id@,
                symbol: symbol@,
            },
            ParsedFrame::Noop { cc } => Frame::Noop { cc },
        }
    }
}

/// The outcome of parsing, with the frame by what it says.
pub open spec fn outcome_of(res: Result<ParsedFrame, ParseError>) -> Result<Frame, ParseError> {
    match res {
        Ok(frame) => Ok(frame@),
        Err(e) => Err(e),
    }
}

/// The four bytes of `v`, most significant first.
pub open spec fn be32(v: u32) -> Seq<u8> {
    seq![
        (v as int / 0x100_0000) as u8,
        (v as int / 0x1_0000 % 256) as u8,
        (v as int / 0x100 % 256) as u8,
        (v as int % 256) as u8,
    ]
}

/// The header of every packet that carries a frame.
pub open spec fn frame_header(pid: u16, cc: u8) -> TsHeader {
    TsHeader {
        tei: false,
        payload_unit_start: false,
        priority: false,
        pid,
        scrambling: 0,
        adaptation: 1,
        continuity_counter: cc,
    }
}

/// The packet with this frame body: the TS header, the body, and the body's CRC.
pub open spec fn framed(pid: u16, cc: u8, body: Seq<u8>) -> Seq<u8> {
    frame_header(pid, cc).bytes() + body + be32(crc::crc_of(body))
}

/// The body of a data frame.
pub open spec fn data_body(oti: fec::Oti, packet: fec::Packet) -> Seq<u8> {
    seq![FRAME_TYPE_DATA] + fec::oti_wire(oti) + fec::symbol_id_wire(packet.id) + packet.data
}

/// The body of a noop frame: stuffing up to the CRC.
pub open spec fn noop_body() -> Seq<u8> {
    seq![FRAME_TYPE_NOOP] + Seq::new((FRAME_CRC_OFFSET - 1) as nat, |i: int| 0xFFu8)
}

/// The packet that carries one symbol.
pub open spec fn data_packet(pid: u16, cc: u8, oti: fec::Oti, packet: fec::Packet) -> Seq<u8> {
    framed(pid, cc, data_body(oti, packet))
}

/// The stuffing packet.
pub open spec fn noop_packet(pid: u16, cc: u8) -> Seq<u8> {
    framed(pid, cc, noop_body())
}

/// The part of a packet that the CRC covers.
pub open spec fn body_of(bytes: Seq<u8>) -> Seq<u8> {
    bytes.subrange(TS_HEADER_SIZE as int, TS_HEADER_SIZE + FRAME_CRC_OFFSET)
}

/// The CRC that a packet carries.
pub open spec fn trailer_of(bytes: Seq<u8>) -> Seq<u8> {
    bytes.subrange(TS_HEADER_SIZE + FRAME_CRC_OFFSET, TS_PACKET_SIZE as int)
}

/// What a packet is to a receiver of `pid`: the first test that fails decides
/// the error, and no field of the frame counts before the CRC has matched.
pub open spec fn parse_of(bytes: Seq<u8>, pid: u16) -> Result<Frame, ParseError> {
    let header = ts::header_of(bytes);
    let body = body_of(bytes);
    if bytes.len() != TS_PACKET_SIZE {
        Err(ParseError::WrongLength(bytes.len() as usize))
    } else if bytes[0] != TS_SYNC_BYTE {
        Err(ParseError::BadSync)
    } else if header.tei {
        Err(ParseError::TransportError)
    } else if header.pid != pid {
        Err(ParseError::WrongPid { got: header.pid, want: pid })
    } else if trailer_of(bytes) != be32(crc::crc_of(body)) {
        Err(ParseError::BadCrc)
    } else if body[FRAME_TYPE_OFFSET as int] == FRAME_TYPE_NOOP {
        Ok(Frame::Noop { cc: header.continuity_counter })
    } else if body[FRAME_TYPE_OFFSET as int] == FRAME_TYPE_DATA {
        Ok(
            Frame::Data {
                cc: header.continuity_counter,
                oti: fec::oti_of_wire(
                    body.subrange(FRAME_OTI_OFFSET as int, FRAME_OTI_OFFSET + OTI_SIZE),
                ),
                id: fec::symbol_id_of_wire(
                    body.subrange(
                        FRAME_PAYLOAD_ID_OFFSET as int,
                        FRAME_PAYLOAD_ID_OFFSET + PAYLOAD_ID_SIZE,
                    ),
                ),
                symbol: body.subrange(FRAME_SYMBOL_OFFSET as int, FRAME_CRC_OFFSET as int),
            },
        )
    } else {
        Err(ParseError::UnknownFrameType(body[FRAME_TYPE_OFFSET as int]))
    }
}

/// `base` with `bytes` written over it from `at` on.
pub open spec fn overwritten(base: Seq<u8>, at: int, bytes: Seq<u8>) -> Seq<u8> {
    base.take(at) + bytes + base.skip(at + bytes.len())
}

/// Copies `bytes` into the packet from `at` on.
fn put(out: &mut [u8; TS_PACKET_SIZE], at: usize, bytes: &[u8])
    requires
        at + bytes@.len() <= TS_PACKET_SIZE,
    ensures
        final(out)@ == overwritten(old(out)@, at as int, bytes@),
{
    let mut i: usize = 0;
    let ghost base = out@;
    while i < bytes.len()
        invariant
            i <= bytes.len(),
            at + bytes@.len() <= TS_PACKET_SIZE,
            base.len() == TS_PACKET_SIZE,
            out@ =~= overwritten(base, at as int, bytes@.take(i as int)),
        decreases bytes.len() - i,
    {
        out[at + i] = bytes[i];
        i += 1;
    }
    assert(bytes@.take(i as int) =~= bytes@);
}

/// The bytes of a CRC as the trailer holds them.
fn crc_bytes(crc: u32) -> (bytes: [u8; CRC_SIZE])
    ensures
        bytes@ == be32(crc),
{
    let bytes: [u8; CRC_SIZE] = [
        (crc / 0x100_0000) as u8,
        (crc / 0x1_0000 % 256) as u8,
        (crc / 0x100 % 256) as u8,
        (crc % 256) as u8,
    ];
    assert(bytes@ =~= be32(crc));
    bytes
}

/// Writes the header of a packet that carries a frame.
fn write_frame_header(pid: u16, cc: u8, out: &mut [u8; TS_PACKET_SIZE])
    ensures
        final(out)@ == overwritten(old(out)@, 0, frame_header(pid, cc).bytes()),
{
    let mut header: [u8; TS_HEADER_SIZE] = [0u8;TS_HEADER_SIZE];
    TsHeader {
        tei: false,
        payload_unit_start: false,
        priority: false,
        pid,
        scrambling: 0,
        adaptation: 1,
        continuity_counter: cc,
    }.write(&mut header);
    put(out, 0, header.as_slice());
}

/// The packet with the CRC of its body in the trailer.
pub open spec fn sealed(packet: Seq<u8>) -> Seq<u8> {
    packet.take(TS_HEADER_SIZE + FRAME_CRC_OFFSET) + be32(crc::crc_of(body_of(packet)))
}

/// Computes the CRC-32 over the frame body and writes it into the trailer.
/// Covers everything in the TS payload up to the CRC field.
pub fn write_frame_crc(out: &mut [u8; TS_PACKET_SIZE])
    ensures
        final(out)@ == sealed(old(out)@),
{
    let crc: u32 = crc32(
        vstd::slice::slice_subrange(
            out.as_slice(),
            TS_HEADER_SIZE,
            TS_HEADER_SIZE + FRAME_CRC_OFFSET,
        ),
    );
    let trailer = crc_bytes(crc);
    let ghost before = out@;
    put(out, TS_HEADER_SIZE + FRAME_CRC_OFFSET, trailer.as_slice());
    assert(before.skip(TS_PACKET_SIZE as int) =~= Seq::<u8>::empty());
}

/// Builds a data packet that carries one RaptorQ symbol.
pub fn build_data_packet(
    pid: u16,
    cc: u8,
    oti: &ObjectTransmissionInformation,
    pkt: &EncodingPacket,
    out: &mut [u8; TS_PACKET_SIZE],
)
    requires
        pkt@.data.len() == SYMBOL_SIZE,
    ensures
        final(out)@ == data_packet(pid, cc, oti@, pkt@),
{
    write_frame_header(pid, cc, out);
    out[TS_HEADER_SIZE + FRAME_TYPE_OFFSET] = FRAME_TYPE_DATA;
    let oti_bytes = oti.serialize();
    put(out, TS_HEADER_SIZE + FRAME_OTI_OFFSET, oti_bytes.as_slice());
    let id_bytes = pkt.payload_id().serialize();
    put(out, TS_HEADER_SIZE + FRAME_PAYLOAD_ID_OFFSET, id_bytes.as_slice());
    put(out, TS_HEADER_SIZE + FRAME_SYMBOL_OFFSET, pkt.data());
    proof {
        let body = data_body(oti@, pkt@);
        assert(out@.take(TS_HEADER_SIZE as int) =~= frame_header(pid, cc).bytes());
        assert(body_of(out@) =~= body);
        assert(out@.take(TS_HEADER_SIZE + FRAME_CRC_OFFSET) =~= frame_header(pid, cc).bytes()
            + body);
    }
    write_frame_crc(out);
}

/// Builds a noop stuffing packet.
pub fn build_noop_packet(pid: u16, cc: u8, out: &mut [u8; TS_PACKET_SIZE])
    ensures
        final(out)@ == noop_packet(pid, cc),
{
    write_frame_header(pid, cc, out);
    out[TS_HEADER_SIZE] = FRAME_TYPE_NOOP;
    let mut i: usize = TS_HEADER_SIZE + 1;
    while i < TS_HEADER_SIZE + FRAME_CRC_OFFSET
        invariant
            TS_HEADER_SIZE + 1 <= i <= TS_HEADER_SIZE + FRAME_CRC_OFFSET,
            out@.take(TS_HEADER_SIZE as int) =~= frame_header(pid, cc).bytes(),
            out@[TS_HEADER_SIZE as int] == FRAME_TYPE_NOOP,
            forall|j: int| TS_HEADER_SIZE + 1 <= j < i ==> #[trigger] out@[j] == 0xFF,
        decreases TS_HEADER_SIZE + FRAME_CRC_OFFSET - i,
    {
        out[i] = 0xFF;
        i += 1;
    }
    proof {
        assert(body_of(out@) =~= noop_body());
        assert(out@.take(TS_HEADER_SIZE + FRAME_CRC_OFFSET) =~= frame_header(pid, cc).bytes()
            + noop_body());
    }
    write_frame_crc(out);
}

/// Reads the frame of a packet on `expected_pid`.
pub fn parse_packet(bytes: &[u8], expected_pid: u16) -> (res: Result<ParsedFrame, ParseError>)
    ensures
        outcome_of(res) == parse_of(bytes@, expected_pid),
{
    if bytes.len() != TS_PACKET_SIZE {
        return Err(ParseError::WrongLength(bytes.len()));
    }
    let header_bytes: [u8; TS_HEADER_SIZE] = [bytes[0], bytes[1], bytes[2], bytes[3]];
    let header: TsHeader = match TsHeader::parse(&header_bytes) {
        Ok(header) => header,
        Err(e) => {
            return Err(e);
        },
    };
    assert(header == ts::header_of(bytes@));
    if header.tei {
        return Err(ParseError::TransportError);
    }
    if header.pid != expected_pid {
        return Err(ParseError::WrongPid { got: header.pid, want: expected_pid });
    }
    // Integrity gate before trusting any frame field. A corrupt-but-parseable
    // frame is rejected here, so that RaptorQ never ingests a poisoned symbol
    // or a garbage OTI.

    let body: &[u8] = vstd::slice::slice_subrange(
        bytes,
        TS_HEADER_SIZE,
        TS_HEADER_SIZE + FRAME_CRC_OFFSET,
    );
    let crc: [u8; CRC_SIZE] = crc_bytes(crc32(body));
    let at: usize = TS_HEADER_SIZE + FRAME_CRC_OFFSET;
    if bytes[at] != crc[0] || bytes[at + 1] != crc[1] || bytes[at + 2] != crc[2] || bytes[at + 3]
        != crc[3] {
        proof {
            if trailer_of(bytes@) == crc@ {
                assert(trailer_of(bytes@)[0] == bytes@[at as int]);
                assert(trailer_of(bytes@)[1] == bytes@[at + 1]);
                assert(trailer_of(bytes@)[2] == bytes@[at + 2]);
                assert(trailer_of(bytes@)[3] == bytes@[at + 3]);
            }
        }
        return Err(ParseError::BadCrc);
    }
    assert(trailer_of(bytes@) =~= crc@);
    let frame_type: u8 = body[FRAME_TYPE_OFFSET];
    if frame_type == FRAME_TYPE_NOOP {
        return Ok(ParsedFrame::Noop { cc: header.continuity_counter });
    }
    if frame_type == FRAME_TYPE_DATA {
        let o: usize = FRAME_OTI_OFFSET;
        let oti_bytes: [u8; OTI_SIZE] = [
            body[o],
            body[o + 1],
            body[o + 2],
            body[o + 3],
            body[o + 4],
            body[o + 5],
            body[o + 6],
            body[o + 7],
            body[o + 8],
            body[o + 9],
            body[o + 10],
            body[o + 11],
        ];
        assert(oti_bytes@ =~= body@.subrange(o as int, o + OTI_SIZE));
        let oti = ObjectTransmissionInformation::deserialize(&oti_bytes);
        let p: usize = FRAME_PAYLOAD_ID_OFFSET;
        let id_bytes: [u8; PAYLOAD_ID_SIZE] = [body[p], body[p + 1], body[p + 2], body[p + 3]];
        assert(id_bytes@ =~= body@.subrange(p as int, p + PAYLOAD_ID_SIZE));
        let payload_id = PayloadId::deserialize(&id_bytes);
        let symbol: Vec<u8> = vstd::slice::slice_to_vec(
            vstd::slice::slice_subrange(body, FRAME_SYMBOL_OFFSET, FRAME_CRC_OFFSET),
        );
        return Ok(
            ParsedFrame::Data { cc: header.continuity_counter, oti, payload_id, symbol },
        );
    }
    Err(ParseError::UnknownFrameType(frame_type))
}

/// What a receiver of one PID hears of a packet.
pub enum Reading {
    Frame(ParsedFrame),
    /// A packet of the PID that could not be read.
    Garbled(ParseError),
    /// Nothing of the PID.
    Foreign(ParseError),
}

/// What a [`Reading`] says.
#[verifier::ext_equal]
pub enum Heard {
    Frame(Frame),
    Garbled(ParseError),
    Foreign(ParseError),
}

impl View for Reading {
    type V = Heard;

    open spec fn view(&self) -> Heard {
        match *self {
            Reading::Frame(frame) => Heard::Frame(frame@),
            Reading::Garbled(e) => Heard::Garbled(e),
            Reading::Foreign(e) => Heard::Foreign(e),
        }
    }
}

/// The packet's header names the PID.
pub open spec fn on_pid(bytes: Seq<u8>, pid: u16) -> bool {
    bytes.len() == TS_PACKET_SIZE && bytes[0] == TS_SYNC_BYTE && ts::header_of(bytes).pid == pid
}

/// What a receiver of `pid` hears of a packet.
pub open spec fn heard(bytes: Seq<u8>, pid: u16) -> Heard {
    match parse_of(bytes, pid) {
        Ok(frame) => Heard::Frame(frame),
        Err(e) => if on_pid(bytes, pid) {
            Heard::Garbled(e)
        } else {
            Heard::Foreign(e)
        },
    }
}

/// Reads a packet, and tells damaged packets of the PID from foreign ones.
pub fn read_packet(bytes: &[u8], pid: u16) -> (res: Reading)
    ensures
        res@ == heard(bytes@, pid),
{
    match parse_packet(bytes, pid) {
        Ok(frame) => Reading::Frame(frame),
        Err(e) => {
            if bytes.len() != TS_PACKET_SIZE {
                return Reading::Foreign(e);
            }
            let header_bytes: [u8; TS_HEADER_SIZE] = [bytes[0], bytes[1], bytes[2], bytes[3]];
            match TsHeader::parse(&header_bytes) {
                Ok(header) => {
                    assert(header == ts::header_of(bytes@));
                    if header.pid == pid {
                        Reading::Garbled(e)
                    } else {
                        Reading::Foreign(e)
                    }
                },
                Err(_) => Reading::Foreign(e),
            }
        },
    }
}

/// Transmission information for one source block sent as an object of its own.
pub open spec fn block_oti(block_size: u64, symbol_size: u16) -> fec::Oti {
    fec::Oti {
        transfer_length: block_size,
        symbol_size,
        source_blocks: 1,
        sub_blocks: 1,
        symbol_alignment: 1,
    }
}

pub fn make_block_oti(block_size: u64, symbol_size: u16) -> (oti: ObjectTransmissionInformation)
    requires
        fec::oti_parameters_ok(block_size, symbol_size, 1, 1),
    ensures
        oti@ == block_oti(block_size, symbol_size),
{
    ObjectTransmissionInformation::new(block_size, symbol_size, 1, 1, 1)
}

/// Runs a throwaway encode and decode for the given block geometry. The first
/// encoder for a number of symbols works out tables that later ones find ready;
/// calling this at startup keeps that one-time stall off the live stream.
pub fn warm_raptorq(block_size: u64, symbol_size: u16)
    requires
        fec::oti_parameters_ok(block_size, symbol_size, 1, 1),
        block_size <= usize::MAX,
        codec::encodable(block_oti(block_size, symbol_size), block_size as nat),
{
    let oti = make_block_oti(block_size, symbol_size);
    let block: Vec<u8> = vec![0u8;block_size as usize];
    let encoder = BlockEncoder::new(0, &oti, block.as_slice());
    let mut packets = encoder.source_packets();
    let mut repair = encoder.repair_packets(0, 1);
    packets.append(&mut repair);
    let mut decoder = BlockDecoder::new(0, &oti, block_size);
    for packet in it: packets
        invariant
            it.seq() == packets@,
            decoder.setup() == codec::setup_of(0, oti@, block_size),
            decoder.setup().valid(),
            decoder.setup().solvable(),
            oti@.symbol_size == symbol_size,
            forall|i: int|
                0 <= i < packets@.len() ==> (#[trigger] packets@[i])@.id.sbn == 0
                    && packets@[i]@.data.len() == symbol_size,
    {
        let _ = decoder.decode(packet);
    }
}

/// A data packet is read back as the frame that it was built from: same
/// counter, transmission information, payload id and symbol. The header has 13
/// bits for the PID and 4 for the counter, so a receiver finds the packet on the
/// low bits of the PID, with the low bits of the counter.
pub proof fn law_data_packet_roundtrip(pid: u16, cc: u8, oti: fec::Oti, packet: fec::Packet)
    requires
        oti.valid(),
        packet.id.valid(),
        packet.data.len() == SYMBOL_SIZE,
    ensures
        data_packet(pid, cc, oti, packet).len() == TS_PACKET_SIZE,
        parse_of(data_packet(pid, cc, oti, packet), (pid as int % 0x2000) as u16) == Ok::<
            Frame,
            ParseError,
        >(
            Frame::Data {
                cc: (cc as int % 16) as u8,
                oti,
                id: packet.id,
                symbol: packet.data,
            },
        ),
{
    let body = data_body(oti, packet);
    lemma_framed(pid, cc, body);
    lemma_data_fields(oti, packet);
}

/// The fields of a data frame's body are read back.
proof fn lemma_data_fields(oti: fec::Oti, packet: fec::Packet)
    requires
        oti.valid(),
        packet.id.valid(),
        packet.data.len() == SYMBOL_SIZE,
    ensures
        ({
            let body = data_body(oti, packet);
            &&& body.len() == FRAME_CRC_OFFSET
            &&& body[FRAME_TYPE_OFFSET as int] == FRAME_TYPE_DATA
            &&& fec::oti_of_wire(
                body.subrange(FRAME_OTI_OFFSET as int, FRAME_OTI_OFFSET + OTI_SIZE),
            ) == oti
            &&& fec::symbol_id_of_wire(
                body.subrange(
                    FRAME_PAYLOAD_ID_OFFSET as int,
                    FRAME_PAYLOAD_ID_OFFSET + PAYLOAD_ID_SIZE,
                ),
            ) == packet.id
            &&& body.subrange(FRAME_SYMBOL_OFFSET as int, FRAME_CRC_OFFSET as int) == packet.data
        }),
{
    let body = data_body(oti, packet);
    fec::law_oti_wire_roundtrip(oti);
    fec::law_symbol_id_wire_roundtrip(packet.id);
    assert(body.subrange(FRAME_OTI_OFFSET as int, FRAME_OTI_OFFSET + OTI_SIZE) =~= fec::oti_wire(
        oti,
    ));
    assert(body.subrange(
        FRAME_PAYLOAD_ID_OFFSET as int,
        FRAME_PAYLOAD_ID_OFFSET + PAYLOAD_ID_SIZE,
    ) =~= fec::symbol_id_wire(packet.id));
    assert(body.subrange(FRAME_SYMBOL_OFFSET as int, FRAME_CRC_OFFSET as int) =~= packet.data);
}

/// A noop packet is read back as a noop with the same counter, on the low bits
/// of the PID as [`law_data_packet_roundtrip`] says.
pub proof fn law_noop_packet_roundtrip(pid: u16, cc: u8)
    ensures
        noop_packet(pid, cc).len() == TS_PACKET_SIZE,
        parse_of(noop_packet(pid, cc), (pid as int % 0x2000) as u16) == Ok::<Frame, ParseError>(
            Frame::Noop { cc: (cc as int % 16) as u8 },
        ),
{
    lemma_framed(pid, cc, noop_body());
}

proof fn lemma_framed(pid: u16, cc: u8, body: Seq<u8>)
    requires
        body.len() == FRAME_CRC_OFFSET,
    ensures
        framed(pid, cc, body).len() == TS_PACKET_SIZE,
        framed(pid, cc, body)[0] == TS_SYNC_BYTE,
        ts::header_of(framed(pid, cc, body)) == frame_header(pid, cc).cut(),
        body_of(framed(pid, cc, body)) == body,
        trailer_of(framed(pid, cc, body)) == be32(crc::crc_of(body)),
{
    let bytes = framed(pid, cc, body);
    ts::law_header_write_parse(frame_header(pid, cc));
    assert(body_of(bytes) =~= body);
    assert(trailer_of(bytes) =~= be32(crc::crc_of(body)));
}

/// Writing the CRC keeps everything in front of it, and writing it again changes
/// nothing. The trailer depends neither on the header nor on the old trailer.
pub proof fn law_crc_goes_by_the_body(packet: Seq<u8>, other: Seq<u8>)
    requires
        packet.len() == TS_PACKET_SIZE,
        other.len() == TS_PACKET_SIZE,
        body_of(other) == body_of(packet),
    ensures
        sealed(packet).len() == TS_PACKET_SIZE,
        sealed(packet).take(TS_HEADER_SIZE + FRAME_CRC_OFFSET) == packet.take(
            TS_HEADER_SIZE + FRAME_CRC_OFFSET,
        ),
        trailer_of(sealed(packet)) == be32(crc::crc_of(body_of(packet))),
        sealed(sealed(packet)) == sealed(packet),
        trailer_of(sealed(other)) == trailer_of(sealed(packet)),
{
    let front = TS_HEADER_SIZE + FRAME_CRC_OFFSET;
    assert(sealed(packet).take(front) =~= packet.take(front));
    assert(body_of(sealed(packet)) =~= body_of(packet));
    assert(trailer_of(sealed(packet)) =~= be32(crc::crc_of(body_of(packet))));
    assert(trailer_of(sealed(other)) =~= be32(crc::crc_of(body_of(other))));
}

/// A packet that is a frame on one PID is refused on every other, and the error
/// names both.
pub proof fn law_other_pid_is_refused(bytes: Seq<u8>, pid: u16, other: u16)
    requires
        parse_of(bytes, pid) is Ok,
        other != pid,
    ensures
        parse_of(bytes, other) == Err::<Frame, ParseError>(
            ParseError::WrongPid { got: pid, want: other },
        ),
{
}

/// A frame in whose header only the transport error indicator was set is
/// refused as a transport error, on any PID.
pub proof fn law_transport_error_is_refused(bytes: Seq<u8>, pid: u16, other: u16)
    requires
        parse_of(bytes, pid) is Ok,
    ensures
        bytes[1] < 0x80,
        parse_of(bytes.update(1, (bytes[1] + 0x80) as u8), other) == Err::<Frame, ParseError>(
            ParseError::TransportError,
        ),
{
}

proof fn lemma_be32_injective(x: u32, y: u32)
    requires
        be32(x) == be32(y),
    ensures
        x == y,
{
    assert(be32(x)[0] == be32(y)[0]);
    assert(be32(x)[1] == be32(y)[1]);
    assert(be32(x)[2] == be32(y)[2]);
    assert(be32(x)[3] == be32(y)[3]);
}

/// A frame that is damaged behind the TS header, within four bytes in a row of
/// its body (the type, the OTI, the payload id, the symbol or the stuffing) or
/// within its CRC, is rejected for its CRC.
pub proof fn law_damage_is_rejected(sent: Seq<u8>, got: Seq<u8>, pid: u16, at: int)
    requires
        parse_of(sent, pid) is Ok,
        got.len() == sent.len(),
        got != sent,
        TS_HEADER_SIZE <= at <= TS_HEADER_SIZE + FRAME_CRC_OFFSET - 4 || at == TS_HEADER_SIZE
            + FRAME_CRC_OFFSET,
        forall|i: int| 0 <= i < sent.len() && !(at <= i < at + 4) ==> got[i] == sent[i],
    ensures
        parse_of(got, pid) == Err::<Frame, ParseError>(ParseError::BadCrc),
{
    let (b, c) = (body_of(sent), body_of(got));
    if at < TS_HEADER_SIZE + FRAME_CRC_OFFSET {
        let p = at - TS_HEADER_SIZE;
        let (head, tail) = (b.take(p), b.skip(p + 4));
        let (x, y) = (b.subrange(p, p + 4), c.subrange(p, p + 4));
        assert(b =~= head + x + tail);
        assert(c =~= head + y + tail);
        if x == y {
            assert forall|i: int| 0 <= i < sent.len() implies got[i] == sent[i] by {
                if at <= i < at + 4 {
                    assert(x[i - at] == y[i - at]);
                }
            }
            assert(got =~= sent);
        }
        crc::law_crc_detects_bursts(head, x, y, tail);
        assert(trailer_of(got) =~= trailer_of(sent));
        if be32(crc::crc_of(b)) == be32(crc::crc_of(c)) {
            lemma_be32_injective(crc::crc_of(b), crc::crc_of(c));
        }
    } else {
        assert(b =~= c);
        if trailer_of(got) == trailer_of(sent) {
            assert forall|i: int| 0 <= i < sent.len() implies got[i] == sent[i] by {
                if at <= i {
                    assert(trailer_of(got)[i - at] == trailer_of(sent)[i - at]);
                }
            }
            assert(got =~= sent);
        }
    }
}

/// The bytes of a data packet, one by one: a header of 4 bytes with a counter and
/// payload only; the frame type 1; 12 bytes of transmission information; 4 bytes
/// of payload id; 163 bytes of symbol; and the CRC of all behind the header.
#[verifier::rlimit(40)]
#[verifier::spinoff_prover]
pub proof fn law_data_packet_layout(pid: u16, cc: u8, oti: fec::Oti, packet: fec::Packet)
    requires
        oti.valid(),
        packet.id.valid(),
        packet.data.len() == 163,
    ensures
        ({
            let b = data_packet(pid, cc, oti, packet);
            &&& b.len() == 188
            &&& b[0] == 0x47
            &&& b[1] * 256 + b[2] == pid as int % 0x2000
            &&& b[3] == 0x10 + cc as int % 16
            &&& b[4] == 1
            &&& b[5] * 0x1_0000_0000 + b[6] * 0x100_0000 + b[7] * 0x1_0000 + b[8] * 0x100 + b[9]
                == oti.transfer_length
            &&& b[10] == 0
            &&& b[11] * 256 + b[12] == oti.symbol_size
            &&& b[13] == oti.source_blocks
            &&& b[14] * 256 + b[15] == oti.sub_blocks
            &&& b[16] == oti.symbol_alignment
            &&& b[17] == packet.id.sbn
            &&& b[18] * 0x1_0000 + b[19] * 0x100 + b[20] == packet.id.esi
            &&& b.subrange(21, 184) == packet.data
            &&& b[184] * 0x100_0000 + b[185] * 0x1_0000 + b[186] * 0x100 + b[187] == crc::crc_of(
                b.subrange(4, 184),
            )
        }),
{
    let body = data_body(oti, packet);
    let (wire, id) = (fec::oti_wire(oti), fec::symbol_id_wire(packet.id));
    fec::law_oti_layout(wire, oti);
    fec::law_symbol_id_layout(id, packet.id);
    assert(body.len() == 180);
    lemma_framed_layout(pid, cc, body);
    let b = data_packet(pid, cc, oti, packet);
    assert(body[0] == 1);
    assert forall|i: int| 0 <= i < 12 implies #[trigger] wire[i] == b[5 + i] by {
        assert(b[5 + i] == body[1 + i]);
    }
    assert(wire[0] == b[5] && wire[1] == b[6] && wire[2] == b[7] && wire[3] == b[8]);
    assert(wire[4] == b[9] && wire[5] == b[10] && wire[6] == b[11] && wire[7] == b[12]);
    assert(wire[8] == b[13] && wire[9] == b[14] && wire[10] == b[15] && wire[11] == b[16]);
    assert(id[0] == body[13] && id[1] == body[14] && id[2] == body[15] && id[3] == body[16]);
    assert(b.subrange(21, 184) =~= packet.data);
}

proof fn lemma_framed_layout(pid: u16, cc: u8, body: Seq<u8>)
    requires
        body.len() == 180,
    ensures
        ({
            let b = framed(pid, cc, body);
            &&& b.len() == 188
            &&& b[0] == 0x47
            &&& b[1] * 256 + b[2] == pid as int % 0x2000
            &&& b[3] == 0x10 + cc as int % 16
            &&& b.subrange(4, 184) == body
            &&& forall|i: int| 4 <= i < 184 ==> #[trigger] b[i] == body[i - 4]
            &&& b[184] * 0x100_0000 + b[185] * 0x1_0000 + b[186] * 0x100 + b[187] == crc::crc_of(
                body,
            )
        }),
{
    let b = framed(pid, cc, body);
    let h = frame_header(pid, cc).bytes();
    let c = be32(crc::crc_of(body));
    assert(h.len() == 4 && c.len() == 4);
    assert(b[0] == h[0] && b[1] == h[1] && b[2] == h[2] && b[3] == h[3]);
    assert(b[184] == c[0] && b[185] == c[1] && b[186] == c[2] && b[187] == c[3]);
    law_trailer_is_big_endian(crc::crc_of(body));
    assert(b.subrange(4, 184) =~= body);
}

/// A trailer is four bytes, the most significant first.
pub proof fn law_trailer_is_big_endian(v: u32)
    ensures
        be32(v).len() == 4,
        be32(v)[0] * 0x100_0000 + be32(v)[1] * 0x1_0000 + be32(v)[2] * 0x100 + be32(v)[3] == v,
{
}

/// The bytes of a stuffing packet: a header as of data, the frame type 2, nothing
/// but ones, and the CRC.
pub proof fn law_noop_packet_layout(pid: u16, cc: u8, i: int)
    ensures
        ({
            let b = noop_packet(pid, cc);
            &&& b.len() == 188
            &&& b[0] == 0x47
            &&& b[1] * 256 + b[2] == pid as int % 0x2000
            &&& b[3] == 0x10 + cc as int % 16
            &&& b[4] == 2
            &&& 5 <= i < 184 ==> b[i] == 0xFF
            &&& b[184] * 0x100_0000 + b[185] * 0x1_0000 + b[186] * 0x100 + b[187] == crc::crc_of(
                b.subrange(4, 184),
            )
        }),
{
    let body = noop_body();
    assert(body.len() == 180);
    lemma_framed_layout(pid, cc, body);
}

/// Why a packet is refused, by its bytes: for its length first, then for its sync
/// byte, its error flag, its PID, its CRC and its frame type. No other packet is
/// refused.
pub proof fn law_refusals_go_by_the_bytes(b: Seq<u8>, pid: u16)
    requires
        b.len() <= usize::MAX,
    ensures
        b.len() != 188 <==> parse_of(b, pid) matches Err(ParseError::WrongLength(_)),
        b.len() != 188 ==> parse_of(b, pid) == Err::<Frame, ParseError>(
            ParseError::WrongLength(b.len() as usize),
        ),
        b.len() == 188 ==> {
            let synced = b[0] == 0x47;
            let clean = b[1] < 0x80;
            let got = b[1] as int % 32 * 256 + b[2];
            let whole = b[184] * 0x100_0000 + b[185] * 0x1_0000 + b[186] * 0x100 + b[187]
                == crc::crc_of(b.subrange(4, 184));
            &&& !synced <==> parse_of(b, pid) == Err::<Frame, ParseError>(ParseError::BadSync)
            &&& synced && !clean <==> parse_of(b, pid) == Err::<Frame, ParseError>(
                ParseError::TransportError,
            )
            &&& synced && clean && got != pid <==> parse_of(b, pid) == Err::<Frame, ParseError>(
                ParseError::WrongPid { got: got as u16, want: pid },
            )
            &&& synced && clean && got == pid && !whole <==> parse_of(b, pid) == Err::<
                Frame,
                ParseError,
            >(ParseError::BadCrc)
            &&& synced && clean && got == pid && whole && b[4] != 1 && b[4] != 2 <==> parse_of(
                b,
                pid,
            ) == Err::<Frame, ParseError>(ParseError::UnknownFrameType(b[4]))
            &&& synced && clean && got == pid && whole && (b[4] == 1 || b[4] == 2) <==> parse_of(
                b,
                pid,
            ) is Ok
        },
{
    if b.len() == 188 {
        let (t, body) = (trailer_of(b), b.subrange(4, 184));
        let crc = crc::crc_of(body);
        assert(body_of(b) == body);
        assert(t[0] == b[184] && t[1] == b[185] && t[2] == b[186] && t[3] == b[187]);
        law_trailer_is_big_endian(crc);
        let c = be32(crc);
        if b[184] * 0x100_0000 + b[185] * 0x1_0000 + b[186] * 0x100 + b[187] == crc {
            assert(t[0] == c[0] && t[1] == c[1] && t[2] == c[2] && t[3] == c[3]);
            assert(t =~= c);
        }
        assert(body[0] == b[4]);
    }
}

/// What a packet that is not refused says, by its bytes.
pub proof fn law_frames_go_by_the_bytes(b: Seq<u8>, pid: u16)
    requires
        parse_of(b, pid) is Ok,
    ensures
        b.len() == 188,
        match parse_of(b, pid)->Ok_0 {
            Frame::Noop { cc } => b[4] == 2 && cc == b[3] as int % 16,
            Frame::Data { cc, oti, id, symbol } => {
                &&& b[4] == 1
                &&& cc == b[3] as int % 16
                &&& oti.transfer_length == b[5] * 0x1_0000_0000 + b[6] * 0x100_0000 + b[7]
                    * 0x1_0000 + b[8] * 0x100 + b[9]
                &&& oti.symbol_size == b[11] * 256 + b[12]
                &&& oti.source_blocks == b[13]
                &&& oti.sub_blocks == b[14] * 256 + b[15]
                &&& oti.symbol_alignment == b[16]
                &&& id.sbn == b[17]
                &&& id.esi == b[18] * 0x1_0000 + b[19] * 0x100 + b[20]
                &&& symbol == b.subrange(21, 184)
            },
        },
{
    let body = body_of(b);
    assert(body[0] == b[4]);
    if b[4] == 1 {
        let wire = body.subrange(1, 13);
        let id = body.subrange(13, 17);
        let any = fec::Oti {
            transfer_length: 0,
            symbol_size: 0,
            source_blocks: 0,
            sub_blocks: 0,
            symbol_alignment: 0,
        };
        fec::law_oti_layout(wire, any);
        fec::law_symbol_id_layout(id, fec::SymbolId { sbn: 0, esi: 0 });
        assert(wire[0] == b[5] && wire[1] == b[6] && wire[2] == b[7] && wire[3] == b[8]);
        assert(wire[4] == b[9] && wire[5] == b[10] && wire[6] == b[11] && wire[7] == b[12]);
        assert(wire[8] == b[13] && wire[9] == b[14] && wire[10] == b[15] && wire[11] == b[16]);
        assert(id[0] == b[17] && id[1] == b[18] && id[2] == b[19] && id[3] == b[20]);
        assert(body.subrange(17, 180) =~= b.subrange(21, 184));
    }
}

/// A receiver hears every frame that can be read. Of the packets that cannot it
/// holds itself meant by those with the right length, sync byte and PID.
pub proof fn law_garbled_packets_name_the_pid(b: Seq<u8>, pid: u16)
    ensures
        parse_of(b, pid) matches Ok(frame) ==> heard(b, pid) == Heard::Frame(frame),
        parse_of(b, pid) matches Err(e) ==> heard(b, pid) == (if b.len() == 188 && b[0] == 0x47
            && b[1] as int % 32 * 256 + b[2] == pid {
            Heard::Garbled(e)
        } else {
            Heard::Foreign(e)
        }),
{
}

/// Sealing writes the CRC of bytes 4 to 184 behind them, and leaves them alone.
pub proof fn law_seal_is_the_crc(packet: Seq<u8>, i: int)
    requires
        packet.len() == 188,
    ensures
        sealed(packet).len() == 188,
        0 <= i < 184 ==> sealed(packet)[i] == packet[i],
        sealed(packet)[184] * 0x100_0000 + sealed(packet)[185] * 0x1_0000 + sealed(packet)[186]
            * 0x100 + sealed(packet)[187] == crc::crc_of(packet.subrange(4, 184)),
{
    let c = be32(crc::crc_of(body_of(packet)));
    law_trailer_is_big_endian(crc::crc_of(body_of(packet)));
    let s = sealed(packet);
    assert(s[184] == c[0] && s[185] == c[1] && s[186] == c[2] && s[187] == c[3]);
}

/// A block is announced with its own size, and as one source block without
/// sub-blocks or alignment.
pub proof fn law_block_is_announced_alone(block_size: u64, symbol_size: u16)
    ensures
        block_oti(block_size, symbol_size).transfer_length == block_size,
        block_oti(block_size, symbol_size).symbol_size == symbol_size,
        block_oti(block_size, symbol_size).source_blocks == 1,
        block_oti(block_size, symbol_size).sub_blocks == 1,
        block_oti(block_size, symbol_size).symbol_alignment == 1,
{
}

} // verus!
