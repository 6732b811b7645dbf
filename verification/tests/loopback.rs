//! The framed pipeline on single blocks: encode, frame, drop some packets,
//! parse and decode.

use std::collections::HashSet;

use raptorq_ts::{
    build_data_packet, make_block_oti, parse_packet, BlockDecoder, BlockEncoder, EncodingPacket,
    ParsedFrame, DEFAULT_BLOCK_SIZE, SYMBOL_SIZE, TS_PACKET_SIZE,
};

fn deterministic_block(seed: u64, len: usize) -> Vec<u8> {
    let mut out = Vec::with_capacity(len);
    let mut x = seed.wrapping_mul(0x9E37_79B9_7F4A_7C15);
    for _ in 0..len {
        x = x
            .wrapping_mul(6364136223846793005)
            .wrapping_add(1442695040888963407);
        out.push((x >> 33) as u8);
    }
    out
}

fn frame_block(sbn: u8, block: &[u8], repair: u32) -> Vec<[u8; TS_PACKET_SIZE]> {
    let oti = make_block_oti(block.len() as u64, SYMBOL_SIZE as u16);
    let enc = BlockEncoder::new(sbn, &oti, block);
    let mut wire = Vec::new();
    for (i, pkt) in enc
        .source_packets()
        .into_iter()
        .chain(enc.repair_packets(0, repair))
        .enumerate()
    {
        let mut buf = [0u8; TS_PACKET_SIZE];
        build_data_packet(0x100, (i & 0x0F) as u8, &oti, &pkt, &mut buf);
        wire.push(buf);
    }
    wire
}

fn decode_block(wire: &[[u8; TS_PACKET_SIZE]]) -> Option<Vec<u8>> {
    let mut dec: Option<BlockDecoder> = None;
    let mut result: Option<Vec<u8>> = None;
    for pkt in wire {
        match parse_packet(pkt, 0x100).expect("frame parse") {
            ParsedFrame::Data {
                oti,
                payload_id,
                symbol,
                ..
            } => {
                let d = dec.get_or_insert_with(|| {
                    BlockDecoder::new(
                        payload_id.source_block_number(),
                        &oti,
                        oti.transfer_length(),
                    )
                });
                if result.is_some() {
                    continue;
                }
                let p = EncodingPacket::new(payload_id, symbol);
                result = d.decode(p);
            }
            ParsedFrame::Noop { .. } => {}
        }
    }
    result
}

#[test]
fn clean_block_roundtrip() {
    let block = deterministic_block(1, DEFAULT_BLOCK_SIZE);
    let wire = frame_block(3, &block, 0);
    assert_eq!(wire.len() as usize, DEFAULT_BLOCK_SIZE / SYMBOL_SIZE);
    let out = decode_block(&wire).expect("decode");
    assert_eq!(out, block);
}

#[test]
fn drop_within_repair_budget_recovers() {
    // With 25% repair overhead, theoretical max loss = 0.25/1.25 = 20% of total packets.
    // Drop 18% to leave comfortable margin for raptorq's small per-block overhead.
    let block = deterministic_block(2, DEFAULT_BLOCK_SIZE);
    let k = (DEFAULT_BLOCK_SIZE / SYMBOL_SIZE) as u32;
    let repair = (k as f32 * 0.25).ceil() as u32;
    let wire = frame_block(5, &block, repair);

    let total = wire.len();
    let mut rng = 0x1234u64;
    let drop_count = total * 18 / 100;
    let mut drop_idxs = HashSet::new();
    while drop_idxs.len() < drop_count {
        rng = rng.wrapping_mul(6364136223846793005).wrapping_add(1);
        drop_idxs.insert((rng as usize) % total);
    }
    let surviving: Vec<_> = wire
        .iter()
        .enumerate()
        .filter(|(i, _)| !drop_idxs.contains(i))
        .map(|(_, p)| *p)
        .collect();

    let out = decode_block(&surviving).expect("decode after 18% drop");
    assert_eq!(out, block);
}

#[test]
fn drop_beyond_repair_budget_fails() {
    let block = deterministic_block(7, DEFAULT_BLOCK_SIZE);
    let k = (DEFAULT_BLOCK_SIZE / SYMBOL_SIZE) as u32;
    let repair = (k as f32 * 0.25).ceil() as u32;
    let wire = frame_block(11, &block, repair);

    let total = wire.len();
    let truncated: Vec<_> = wire.into_iter().take(total - repair as usize - 5).collect();
    assert!(decode_block(&truncated).is_none());
}

#[test]
fn too_many_drops_fails_to_decode() {
    let block = deterministic_block(3, DEFAULT_BLOCK_SIZE);
    let k = (DEFAULT_BLOCK_SIZE / SYMBOL_SIZE) as u32;
    let repair = (k as f32 * 0.25).ceil() as u32;
    let wire = frame_block(9, &block, repair);
    let keep = (k - 5) as usize;
    let truncated: Vec<_> = wire.into_iter().take(keep).collect();
    assert!(decode_block(&truncated).is_none());
}

#[test]
fn many_blocks_in_sequence() {
    for sbn in 0u8..16 {
        let block = deterministic_block(100 + sbn as u64, DEFAULT_BLOCK_SIZE);
        let wire = frame_block(sbn, &block, 0);
        let out = decode_block(&wire).expect("decode");
        assert_eq!(out, block, "block {sbn} mismatch");
    }
}

#[test]
fn any_k_symbols_with_a_little_overhead_decode() {
    // Repair packets only: every source packet is lost.
    let block = deterministic_block(8, 20 * SYMBOL_SIZE);
    let wire = frame_block(1, &block, 30);
    let out = decode_block(&wire[20..]).expect("decode from repair alone");
    assert_eq!(out, block);
    // Fewer symbols than the block has never decode.
    assert!(decode_block(&wire[20..39]).is_none());
}

#[test]
fn repair_symbols_depend_on_their_number_alone() {
    let block = deterministic_block(4, 10 * SYMBOL_SIZE);
    let oti = make_block_oti(block.len() as u64, SYMBOL_SIZE as u16);
    let enc = BlockEncoder::new(0, &oti, &block);
    assert_eq!(enc.source_symbols(), 10);
    let all = enc.repair_packets(0, 6);
    let some = enc.repair_packets(4, 2);
    assert_eq!(all[4].data(), some[0].data());
    assert_eq!(all[5].data(), some[1].data());
    assert_eq!(some[0].payload_id().encoding_symbol_id(), 14);
    assert_eq!(some[0].data().len(), SYMBOL_SIZE);
    assert_ne!(all[0].data(), all[1].data());
}

#[test]
fn sub_blocks_are_put_together_again() {
    // Two sub-blocks per block, symbols of eight bytes in units of four.
    let oti = raptorq_ts::ObjectTransmissionInformation::new(80, 8, 1, 2, 4);
    let block: Vec<u8> = (0..80u8).collect();
    let enc = BlockEncoder::new(2, &oti, &block);
    let src = enc.source_packets();
    assert_eq!(src.len(), 10);
    // The first half of a symbol comes from the first sub-block, the rest from the second.
    assert_eq!(src[0].data(), &[0, 1, 2, 3, 40, 41, 42, 43]);
    let mut dec = BlockDecoder::new(2, &oti, 80);
    let mut got = None;
    for p in src {
        got = dec.decode(p);
    }
    assert_eq!(got, Some(block));
}
