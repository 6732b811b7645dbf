//! Wire constants, the four-byte TS packet header and the continuity counter.

use vstd::prelude::*;

verus! {

pub const TS_PACKET_SIZE: usize = 188;

pub const TS_SYNC_BYTE: u8 = 0x47;

pub const TS_HEADER_SIZE: usize = 4;

pub const TS_PAYLOAD_SIZE: usize = TS_PACKET_SIZE - TS_HEADER_SIZE;

pub const FRAME_TYPE_OFFSET: usize = 0;

pub const FRAME_OTI_OFFSET: usize = 1;

pub const FRAME_PAYLOAD_ID_OFFSET: usize = 13;

pub const FRAME_SYMBOL_OFFSET: usize = 17;

pub const FRAME_OVERHEAD: usize = FRAME_SYMBOL_OFFSET;

/// Size of the CRC-32 trailer appended to every frame. RaptorQ is an erasure
/// code: it recovers *missing* symbols but trusts every symbol it receives
/// bit-exact. A failed CRC turns a corrupt frame into an erasure, which RaptorQ
/// is designed to recover.
pub const CRC_SIZE: usize = 4;

pub const SYMBOL_SIZE: usize = TS_PAYLOAD_SIZE - FRAME_OVERHEAD - CRC_SIZE;

/// Offset within the TS payload of the CRC trailer. Everything before it (frame
/// type, OTI, payload id, symbol) is covered by the CRC.
pub const FRAME_CRC_OFFSET: usize = FRAME_SYMBOL_OFFSET + SYMBOL_SIZE;

pub const FRAME_TYPE_DATA: u8 = 0x01;

pub const FRAME_TYPE_NOOP: u8 = 0x02;

pub const DEFAULT_PID: u16 = 0x100;

pub const DEFAULT_BLOCK_SYMBOLS: u32 = 392;

#[verifier::nonlinear]
pub const DEFAULT_BLOCK_SIZE: usize = DEFAULT_BLOCK_SYMBOLS as usize * SYMBOL_SIZE;

/// Why a packet is not a frame of this link.
#[derive(Debug, Clone, Copy, PartialEq, Eq, Structural)]
pub enum ParseError {
    /// The packet does not have [`TS_PACKET_SIZE`] bytes, but this many.
    WrongLength(usize),
    /// The first byte is not [`TS_SYNC_BYTE`].
    BadSync,
    /// The transport error indicator is set.
    TransportError,
    /// The packet belongs to another PID.
    WrongPid { got: u16, want: u16 },
    /// The frame's CRC trailer does not match its body.
    BadCrc,
    /// The frame type is neither data nor noop.
    UnknownFrameType(u8),
}

/// The fixed header of a TS packet.
#[derive(Debug, Clone, Copy)]
pub struct TsHeader {
    pub tei: bool,
    pub payload_unit_start: bool,
    pub priority: bool,
    pub pid: u16,
    pub scrambling: u8,
    pub adaptation: u8,
    pub continuity_counter: u8,
}

/// 1 for a set flag, 0 for a clear one.
pub open spec fn flag_bit(flag: bool) -> int {
    if flag {
        1
    } else {
        0
    }
}

/// The header that four bytes spell, read as bit fields from the most
/// significant bit down.
pub open spec fn header_of(bytes: Seq<u8>) -> TsHeader {
    TsHeader {
        tei: bytes[1] as int / 128 == 1,
        payload_unit_start: bytes[1] as int / 64 % 2 == 1,
        priority: bytes[1] as int / 32 % 2 == 1,
        pid: (bytes[1] as int % 32 * 256 + bytes[2]) as u16,
        scrambling: (bytes[3] as int / 64) as u8,
        adaptation: (bytes[3] as int / 16 % 4) as u8,
        continuity_counter: (bytes[3] as int % 16) as u8,
    }
}

impl TsHeader {
    /// Every field fits the bits that the header has for it.
    pub open spec fn fits(self) -> bool {
        &&& self.pid < 0x2000
        &&& self.scrambling < 4
        &&& self.adaptation < 4
        &&& self.continuity_counter < 16
    }

    /// The header with every field cut to the bits that there are for it.
    pub open spec fn cut(self) -> TsHeader {
        TsHeader {
            pid: (self.pid as int % 0x2000) as u16,
            scrambling: (self.scrambling as int % 4) as u8,
            adaptation: (self.adaptation as int % 4) as u8,
            continuity_counter: (self.continuity_counter as int % 16) as u8,
            ..self
        }
    }

    /// The four bytes of the header, each field cut to its width.
    pub open spec fn bytes(self) -> Seq<u8> {
        seq![
            TS_SYNC_BYTE,
            (flag_bit(self.tei) * 128 + flag_bit(self.payload_unit_start) * 64 + flag_bit(
                self.priority,
            ) * 32 + self.pid as int / 256 % 32) as u8,
            (self.pid as int % 256) as u8,
            (self.scrambling as int % 4 * 64 + self.adaptation as int % 4 * 16
                + self.continuity_counter as int % 16) as u8,
        ]
    }

    pub fn parse(bytes: &[u8; TS_HEADER_SIZE]) -> (res: Result<Self, ParseError>)
        ensures
            res == (if bytes@[0] != TS_SYNC_BYTE {
                Err::<TsHeader, ParseError>(ParseError::BadSync)
            } else {
                Ok(header_of(bytes@))
            }),
    {
        if bytes[0] != TS_SYNC_BYTE {
            return Err(ParseError::BadSync);
        }
        let b1: u8 = bytes[1];
        let b2: u8 = bytes[2];
        let b3: u8 = bytes[3];
        assert((b1 & 0x80 != 0) == (b1 / 128 == 1) && (b1 & 0x40 != 0) == (b1 / 64 % 2 == 1) && (b1
            & 0x20 != 0) == (b1 / 32 % 2 == 1) && ((((b1 & 0x1F) as u16) << 8) | b2 as u16) == b1
            % 32 * 256 + b2 && ((b3 >> 6) & 0x03) == b3 / 64 && ((b3 >> 4) & 0x03) == b3 / 16 % 4
            && (b3 & 0x0F) == b3 % 16) by (bit_vector);
        Ok(
            TsHeader {
                tei: b1 & 0x80 != 0,
                payload_unit_start: b1 & 0x40 != 0,
                priority: b1 & 0x20 != 0,
                pid: (((b1 & 0x1F) as u16) << 8) | b2 as u16,
                scrambling: (b3 >> 6) & 0x03,
                adaptation: (b3 >> 4) & 0x03,
                continuity_counter: b3 & 0x0F,
            },
        )
    }

    pub fn write(&self, out: &mut [u8; TS_HEADER_SIZE])
        ensures
            final(out)@ == self.bytes(),
    {
        let tei: u8 = if self.tei { 1 } else { 0 };
        let unit: u8 = if self.payload_unit_start { 1 } else { 0 };
        let priority: u8 = if self.priority { 1 } else { 0 };
        let pid: u16 = self.pid;
        let scrambling: u8 = self.scrambling;
        let adaptation: u8 = self.adaptation;
        let counter: u8 = self.continuity_counter;
        assert(((tei << 7) | (unit << 6) | (priority << 5) | ((pid >> 8) as u8 & 0x1F)) == tei * 128
            + unit * 64 + priority * 32 + pid / 256 % 32) by (bit_vector)
            requires
                tei <= 1,
                unit <= 1,
                priority <= 1,
        ;
        assert((pid & 0xFF) as u8 == pid % 256) by (bit_vector);
        assert((((scrambling & 0x03) << 6) | ((adaptation & 0x03) << 4) | (counter & 0x0F))
            == scrambling % 4 * 64 + adaptation % 4 * 16 + counter % 16) by (bit_vector);
        out[0] = TS_SYNC_BYTE;
        out[1] = (tei << 7) | (unit << 6) | (priority << 5) | ((pid >> 8) as u8 & 0x1F);
        out[2] = (pid & 0xFF) as u8;
        out[3] = ((scrambling & 0x03) << 6) | ((adaptation & 0x03) << 4) | (counter & 0x0F);
    }
}

/// Reading back a written header gives the header with every field cut to its
/// width: the same header, where the fields fit their bits.
pub proof fn law_header_write_parse(header: TsHeader)
    ensures
        header.bytes().len() == TS_HEADER_SIZE,
        header.bytes()[0] == TS_SYNC_BYTE,
        header_of(header.bytes()) == header.cut(),
        header.cut().fits(),
        header.fits() ==> header.cut() == header,
{
}

/// Writing a header that was read gives the same bytes, for every four bytes
/// that start with the sync byte.
pub proof fn law_header_parse_write(bytes: Seq<u8>)
    requires
        bytes.len() == TS_HEADER_SIZE,
        bytes[0] == TS_SYNC_BYTE,
    ensures
        header_of(bytes).fits(),
        header_of(bytes).bytes() == bytes,
{
    assert(header_of(bytes).bytes() =~= bytes);
}

/// The four-bit counter that goes up by one with every packet of a PID.
#[derive(Debug, Clone, Copy)]
pub struct ContinuityCounter(u8);

impl ContinuityCounter {
    #[verifier::type_invariant]
    spec fn in_range(self) -> bool {
        self.0 < 16
    }

    /// The value that the next packet carries.
    pub closed spec fn value(self) -> int {
        self.0 as int
    }

    /// Hands out the current value and moves on to the next one, modulo 16.
    pub fn advance(&mut self) -> (v: u8)
        ensures
            v < 16,
            v == old(self).value(),
            final(self).value() == (old(self).value() + 1) % 16,
    {
        proof {
            use_type_invariant(&*self);
        }
        let v: u8 = self.0;
        assert(v.wrapping_add(1) & 0x0F == (v + 1) % 16 && v.wrapping_add(1) & 0x0F < 16) by {
            let w: u8 = v.wrapping_add(1);
            assert(w & 0x0F == w % 16) by (bit_vector);
        }
        self.0 = v.wrapping_add(1) & 0x0F;
        v
    }
}

impl Default for ContinuityCounter {
    fn default() -> (counter: Self)
        ensures
            counter.value() == 0,
    {
        ContinuityCounter(0)
    }
}

/// The four bytes, read as one big-endian word, are the fields side by side: 8
/// bits of sync byte, three flags, 13 bits of PID, 2 of scrambling, 2 of
/// adaptation and 4 of counter.
pub proof fn law_header_is_one_word(header: TsHeader)
    ensures
        ({
            let b = header.bytes();
            let tei: int = if header.tei { 0x80_0000 } else { 0 };
            let unit: int = if header.payload_unit_start { 0x40_0000 } else { 0 };
            let priority: int = if header.priority { 0x20_0000 } else { 0 };
            b[0] * 0x100_0000 + b[1] * 0x1_0000 + b[2] * 0x100 + b[3] == 0x4700_0000 + tei + unit
                + priority + header.pid as int % 0x2000 * 0x100 + header.scrambling as int % 4 * 64
                + header.adaptation as int % 4 * 16 + header.continuity_counter as int % 16
        }),
{
}

} // verus!
