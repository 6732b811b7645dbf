//! RaptorQ forward error correction for MPEG-TS streams: the wire format, the
//! encoder's block pipeline and the decoder's reassembly, with their contracts.

pub mod airtime;
pub mod arrival;
pub mod assemble;
pub mod block;
pub mod clock;
pub mod codec;
pub mod crc;
pub mod decoder;
pub mod delivery;
pub mod encoder;
pub mod fec;
pub mod frame;
pub mod interleave;
pub mod pid;
pub mod reassembly;
pub mod resync;
pub mod ring;
pub mod stats;
pub mod stream;
pub mod tracking;
pub mod ts;
pub mod writer;

pub use crate::block::{oti_is_sane, BlockState};
pub use crate::codec::{BlockDecoder, BlockEncoder};
pub use crate::crc::{crc32, crc32_table};
pub use crate::fec::{
    EncodingPacket, ObjectTransmissionInformation, PayloadId, ENCODING_SYMBOL_ID_LIMIT,
    MAX_SOURCE_SYMBOLS_PER_BLOCK,
};
pub use crate::frame::{
    build_data_packet, build_noop_packet, make_block_oti, parse_packet, warm_raptorq,
    write_frame_crc, ParsedFrame,
};
pub use crate::ts::{
    ContinuityCounter, ParseError, TsHeader, CRC_SIZE, DEFAULT_BLOCK_SIZE, DEFAULT_BLOCK_SYMBOLS,
    DEFAULT_PID, FRAME_CRC_OFFSET, FRAME_OTI_OFFSET, FRAME_OVERHEAD, FRAME_PAYLOAD_ID_OFFSET,
    FRAME_SYMBOL_OFFSET, FRAME_TYPE_DATA, FRAME_TYPE_NOOP, FRAME_TYPE_OFFSET, SYMBOL_SIZE,
    TS_HEADER_SIZE, TS_PACKET_SIZE, TS_PAYLOAD_SIZE, TS_SYNC_BYTE,
};
