use raptorq_ts::decoder::{Decoder, Emission, Intake};
use raptorq_ts::stats::{report_due, IntervalStats};
use raptorq_ts::tracking::{cc_gap, unwrap_sbn};
use raptorq_ts::{
    build_data_packet, build_noop_packet, make_block_oti, oti_is_sane, BlockEncoder, BlockState,
    EncodingPacket, ObjectTransmissionInformation, ParseError, PayloadId, DEFAULT_BLOCK_SIZE,
    SYMBOL_SIZE, TS_PACKET_SIZE,
};

const PID: u16 = 0x100;
const MILLI: u128 = 1_000_000;

#[test]
fn unwrap_sbn_forward() {
    assert_eq!(unwrap_sbn(300, 50), 306);
    assert_eq!(unwrap_sbn(300, 45), 301);
    assert_eq!(unwrap_sbn(300, 44), 300);
}

#[test]
fn unwrap_sbn_stale() {
    assert_eq!(unwrap_sbn(300, 200), 200);
}

fn default_oti() -> ObjectTransmissionInformation {
    make_block_oti(DEFAULT_BLOCK_SIZE as u64, SYMBOL_SIZE as u16)
}

#[test]
fn oti_sane_accepts_encoder_default() {
    // Round-trip through the wire form the decoder actually deserializes.
    let oti = ObjectTransmissionInformation::deserialize(&default_oti().serialize());
    assert!(oti_is_sane(&oti));
}

#[test]
fn oti_sane_rejects_corrupt_oti() {
    // Huge transfer_length, valid symbol size -> K far over the raptorq cap.
    // deserialize() does no validation, so only oti_is_sane stops it.
    let mut bytes = default_oti().serialize();
    bytes[0] = 0xFF;
    bytes[1] = 0xFF;
    assert!(!oti_is_sane(&ObjectTransmissionInformation::deserialize(&bytes)));

    // All-0xFF garbage: wrong symbol size.
    assert!(!oti_is_sane(&ObjectTransmissionInformation::deserialize(&[0xFF; 12])));

    // In-range transfer length that is not a whole number of symbols.
    let mut bytes = default_oti().serialize();
    bytes[4] = bytes[4].wrapping_add(1);
    assert!(!oti_is_sane(&ObjectTransmissionInformation::deserialize(&bytes)));
}

#[test]
fn oti_sane_edges() {
    let sane = |len: u64| {
        let mut bytes = default_oti().serialize();
        bytes[..5].copy_from_slice(&len.to_be_bytes()[3..]);
        oti_is_sane(&ObjectTransmissionInformation::deserialize(&bytes))
    };
    assert!(!sane(0));
    assert!(sane(163));
    assert!(sane(56403 * 163));
    assert!(!sane(56404 * 163));
}

#[test]
fn unwrap_sbn_edges() {
    assert_eq!(unwrap_sbn(0, 127), 127);
    assert_eq!(unwrap_sbn(0, 128), 0);
    assert_eq!(unwrap_sbn(0, 255), 0);
    assert_eq!(unwrap_sbn(1000, 104), 872);
    assert_eq!(unwrap_sbn(1000, 103), 1127);
    assert_eq!(unwrap_sbn(u64::MAX, 5), 5);
}

#[test]
fn gaps_count_losses_modulo_sixteen() {
    let mut last = None;
    assert_eq!(cc_gap(&mut last, 9), 0);
    assert_eq!(cc_gap(&mut last, 10), 0);
    assert_eq!(cc_gap(&mut last, 13), 2);
    assert_eq!(cc_gap(&mut last, 1), 3);
    assert_eq!(cc_gap(&mut last, 1), 15);
    assert_eq!(last, Some(1));
}

fn block_data(n: u64, symbols: usize) -> Vec<u8> {
    (0..symbols * SYMBOL_SIZE).map(|i| (i as u64 * 7 + n * 13 + 1) as u8).collect()
}

fn encoder(n: u64, symbols: usize) -> BlockEncoder {
    let oti = make_block_oti((symbols * SYMBOL_SIZE) as u64, SYMBOL_SIZE as u16);
    BlockEncoder::new(n as u8, &oti, &block_data(n, symbols))
}

fn wire(symbols: usize, cc: u8, packet: &EncodingPacket) -> [u8; TS_PACKET_SIZE] {
    let oti = make_block_oti((symbols * SYMBOL_SIZE) as u64, SYMBOL_SIZE as u16);
    let mut buf = [0u8; TS_PACKET_SIZE];
    build_data_packet(PID, cc, &oti, packet, &mut buf);
    buf
}

fn noop(cc: u8) -> [u8; TS_PACKET_SIZE] {
    let mut buf = [0u8; TS_PACKET_SIZE];
    build_noop_packet(PID, cc, &mut buf);
    buf
}

#[test]
fn block_state_completes_and_stays_complete() {
    let symbols = 6;
    let oti = make_block_oti((symbols * SYMBOL_SIZE) as u64, SYMBOL_SIZE as u16);
    let enc = encoder(3, symbols);
    let mut block = BlockState::new(3, &oti, 77);
    assert_eq!((block.k(), block.first_seen()), (6, 77));
    let source = enc.source_packets();
    for p in source.iter().take(4) {
        block.ingest(p.clone());
        block.ingest(p.clone());
    }
    for p in enc.repair_packets(0, 1) {
        block.ingest(p.clone());
        block.ingest(p);
    }
    assert!(!block.is_complete());
    assert_eq!((block.source_count(), block.repair_count()), (4, 2));
    let data = block_data(3, symbols);
    let mut gaps = data.clone();
    gaps[4 * SYMBOL_SIZE..].fill(0);
    assert_eq!(block.best_effort(), gaps);
    block.ingest(source[4].clone());
    block.ingest(source[5].clone());
    assert!(block.is_complete());
    // A packet of another block is no concern of a complete one.
    assert!(block.accepts(&PayloadId::new(9, 0)));
    block.ingest(enc.repair_packets(1, 1).pop().unwrap());
    block.ingest(EncodingPacket::new(PayloadId::new(9, 0), vec![]));
    // Five source symbols and one repair symbol were enough.
    assert_eq!((block.source_count(), block.repair_count()), (5, 2));
    assert_eq!(block.into_completed(), Some(data));
}

#[test]
fn block_state_refuses_other_blocks() {
    let oti = make_block_oti(2 * 163, 163);
    let block = BlockState::new(3, &oti, 0);
    assert!(block.accepts(&PayloadId::new(3, 5)));
    assert!(!block.accepts(&PayloadId::new(4, 0)));
    assert_eq!(block.into_completed(), None);
}

#[test]
fn blocks_come_out_in_order() {
    let mut dec = Decoder::new(PID, 700, 8);
    let a = encoder(0, 2).source_packets();
    let b = encoder(1, 2).source_packets();
    assert!(matches!(dec.on_packet(&wire(2, 0, &a[0]), 0), Intake::Accepted { block: 0 }));
    assert!(matches!(dec.on_packet(&wire(2, 1, &b[0]), 0), Intake::Accepted { block: 1 }));
    assert!(matches!(dec.on_packet(&wire(2, 2, &b[1]), 0), Intake::Accepted { block: 1 }));
    // Block 1 is whole, but it waits for block 0.
    assert!(dec.next_emission(0).is_none());
    dec.on_packet(&wire(2, 3, &a[1]), 0);
    match dec.next_emission(0) {
        Some(Emission::Decoded { block: 0, data }) => assert_eq!(data, block_data(0, 2)),
        other => panic!("expected block 0, got {other:?}"),
    }
    match dec.next_emission(0) {
        Some(Emission::Decoded { block: 1, data }) => assert_eq!(data, block_data(1, 2)),
        other => panic!("expected block 1, got {other:?}"),
    }
    assert!(dec.next_emission(0).is_none());
    // What comes for an emitted block is redundant.
    assert!(matches!(
        dec.on_packet(&wire(2, 4, &a[0]), 0),
        Intake::Redundant { block: 0, cursor: 2 }
    ));
    let stats = dec.take_stats();
    assert_eq!((stats.decoded, stats.pkts_ok, stats.pkts_redundant), (2, 4, 1));
    assert_eq!(dec.totals().decoded_blocks, 2);
    assert_eq!(dec.totals().redundant_packets, 1);
    assert_eq!(dec.take_stats().decoded, 0);
}

#[test]
fn overdue_block_goes_out_best_effort() {
    let mut dec = Decoder::new(PID, 700, 8);
    let a = encoder(0, 3);
    dec.on_packet(&wire(3, 0, &a.source_packets()[1]), 5 * MILLI);
    dec.on_packet(&wire(3, 1, &a.repair_packets(0, 1)[0]), 6 * MILLI);
    assert!(dec.next_emission(705 * MILLI - 1).is_none());
    match dec.next_emission(705 * MILLI) {
        Some(Emission::BestEffort { block, recovered, repair, k, timed_out, data }) => {
            assert_eq!((block, recovered, repair, k, timed_out), (0, 1, 1, 3, true));
            let mut want = vec![0u8; 3 * SYMBOL_SIZE];
            want[SYMBOL_SIZE..2 * SYMBOL_SIZE]
                .copy_from_slice(&block_data(0, 3)[SYMBOL_SIZE..2 * SYMBOL_SIZE]);
            assert_eq!(data, want);
        }
        other => panic!("expected a best effort, got {other:?}"),
    }
    let stats = dec.take_stats();
    assert_eq!((stats.besteffort, stats.be_timed_out, stats.be_forced), (1, 1, 0));
    assert_eq!((stats.be_syms_rcvd, stats.be_syms_needed), (2, 3));
    assert_eq!(stats.be_fill_pct(), 66);
    assert_eq!(dec.totals().besteffort_blocks, 1);
}

#[test]
fn window_forces_the_head_out() {
    let mut dec = Decoder::new(PID, 700, 2);
    dec.on_packet(&wire(2, 0, &encoder(0, 2).source_packets()[0]), 0);
    dec.on_packet(&wire(2, 1, &encoder(1, 2).source_packets()[0]), 0);
    assert!(dec.next_emission(0).is_none());
    // Block 4 is too far ahead: blocks 0, 1 and 2 make room, the last one as zeros.
    dec.on_packet(&wire(2, 2, &encoder(4, 2).source_packets()[0]), 0);
    assert!(matches!(
        dec.next_emission(0),
        Some(Emission::BestEffort { block: 0, timed_out: false, .. })
    ));
    assert!(matches!(dec.next_emission(0), Some(Emission::BestEffort { block: 1, .. })));
    match dec.next_emission(0) {
        Some(Emission::Zero { block: 2, data }) => {
            assert_eq!(data, vec![0u8; DEFAULT_BLOCK_SIZE])
        }
        other => panic!("expected zeros, got {other:?}"),
    }
    assert!(dec.next_emission(0).is_none());
    let stats = dec.take_stats();
    assert_eq!((stats.be_forced, stats.zero), (2, 1));
    assert_eq!(dec.totals().zero_blocks, 1);
    // The end: block 3 never came, block 4 goes out as it is.
    let rest = dec.flush_remaining();
    let mut want = block_data(4, 2);
    want[SYMBOL_SIZE..].fill(0);
    assert_eq!(rest, vec![want]);
    assert!(dec.flush_remaining().is_empty());
}

#[test]
fn flush_keeps_order_and_passes_over_gaps() {
    let mut dec = Decoder::new(PID, 700, 100);
    for n in [5u64, 9, 7] {
        for p in encoder(n, 2).source_packets() {
            dec.on_packet(&wire(2, 0, &p), 0);
        }
    }
    let rest = dec.flush_remaining();
    assert_eq!(rest, vec![block_data(5, 2), block_data(7, 2), block_data(9, 2)]);
}

#[test]
fn stream_can_start_anywhere_and_wrap() {
    let mut dec = Decoder::new(PID, 700, 8);
    for n in 250..270u64 {
        for p in encoder(n, 1).source_packets() {
            assert!(matches!(
                dec.on_packet(&wire(1, 0, &p), 0),
                Intake::Accepted { block } if block == n
            ));
        }
        match dec.next_emission(0) {
            Some(Emission::Decoded { block, data }) => {
                assert_eq!(block, n);
                assert_eq!(data, block_data(n % 256, 1));
            }
            other => panic!("expected block {n}, got {other:?}"),
        }
    }
}

#[test]
fn losses_are_counted_over_data_and_stuffing() {
    let mut dec = Decoder::new(PID, 700, 8);
    let a = encoder(0, 4).source_packets();
    dec.on_packet(&wire(4, 14, &a[0]), 0);
    assert!(matches!(dec.on_packet(&noop(1), 0), Intake::Noop));
    dec.on_packet(&wire(4, 4, &a[1]), 0);
    // A damaged packet has its place in the series: it came, so it is no loss.
    let mut damaged = noop(5);
    damaged[100] ^= 1;
    assert!(matches!(dec.on_packet(&damaged, 0), Intake::Unparseable(ParseError::BadCrc)));
    dec.on_packet(&noop(6), 0);
    let stats = dec.take_stats();
    assert_eq!(stats.pkts_lost, 4);
    assert_eq!((stats.pkts_ok, stats.noops, stats.pkts_unparseable), (2, 2, 1));
    assert_eq!((stats.received(), stats.sent(), stats.data_received()), (4, 8, 2));
    assert_eq!(dec.totals().lost_packets, 4);
}

#[test]
fn garbage_geometry_is_dropped() {
    let mut dec = Decoder::new(PID, 700, 8);
    let oti = make_block_oti(2 * 100, 100);
    let packet = EncodingPacket::new(PayloadId::new(0, 0), vec![0u8; SYMBOL_SIZE]);
    let mut buf = [0u8; TS_PACKET_SIZE];
    build_data_packet(PID, 0, &oti, &packet, &mut buf);
    assert!(matches!(dec.on_packet(&buf, 0), Intake::Insane));
    assert_eq!(dec.take_stats().pkts_unparseable, 1);
    // It did not start the stream.
    assert!(matches!(
        dec.on_packet(&wire(2, 1, &encoder(9, 2).source_packets()[0]), 0),
        Intake::Accepted { block: 9 }
    ));
}

#[test]
fn corrupt_frame_between_good_ones_is_no_loss() {
    let mut dec = Decoder::new(PID, 700, 8);
    dec.on_packet(&noop(0), 0);
    let mut corrupt = noop(1);
    corrupt[5] ^= 0xFF;
    dec.on_packet(&corrupt, 0);
    dec.on_packet(&noop(2), 0);
    assert_eq!(dec.totals().lost_packets, 0);
    // One more corrupt and two lost: two are lost.
    dec.on_packet(&corrupt, 0);
    dec.on_packet(&noop(6), 0);
    assert_eq!(dec.totals().lost_packets, 2);
    // A transport error on this PID came too; one on another PID is none of ours.
    let mut broken = noop(7);
    broken[1] |= 0x80;
    assert!(matches!(dec.on_packet(&broken, 0), Intake::Unparseable(ParseError::TransportError)));
    let mut foreign = broken;
    foreign[2] ^= 1;
    assert!(matches!(dec.on_packet(&foreign, 0), Intake::Unparseable(ParseError::TransportError)));
    let mut other = noop(3);
    other[2] ^= 1;
    assert!(matches!(dec.on_packet(&other, 0), Intake::Unparseable(ParseError::WrongPid { .. })));
    dec.on_packet(&noop(8), 0);
    assert_eq!(dec.totals().lost_packets, 2);
    let stats = dec.take_stats();
    assert_eq!((stats.noops, stats.pkts_unparseable, stats.pkts_lost), (4, 5, 2));
}

#[test]
fn surplus_damaged_packet_makes_no_loss() {
    let mut damaged = noop(1);
    damaged[50] ^= 1;
    let lost = |wire: &[[u8; TS_PACKET_SIZE]]| {
        let mut dec = Decoder::new(PID, 700, 8);
        for packet in wire {
            dec.on_packet(packet, 0);
        }
        assert_eq!(dec.take_stats().pkts_lost, dec.totals().lost_packets);
        dec.totals().lost_packets
    };
    assert_eq!(lost(&[noop(0), damaged, noop(1)]), 0);
    assert_eq!(lost(&[noop(0), damaged, damaged, noop(2)]), 0);
    assert_eq!(lost(&[noop(0), damaged, noop(5)]), 3);
    // What is unreadable before one gap says nothing of the next.
    assert_eq!(lost(&[noop(0), damaged, noop(1), noop(3)]), 1);
    // Unreadable packets in front of the first frame are no matter.
    assert_eq!(lost(&[damaged, noop(7), noop(9)]), 1);
    assert_eq!(lost(&[vec![noop(0)], vec![damaged; 40], vec![noop(9)]].concat()), 0);
}

#[test]
fn blocks_come_through_a_window_with_late_repair() {
    // Block 0 is short of a symbol until repair comes behind block 1.
    let mut dec = Decoder::new(PID, 700, 2);
    let a = encoder(0, 2);
    let mut wires = vec![wire(2, 0, &a.source_packets()[0])];
    for p in encoder(1, 2).source_packets() {
        wires.push(wire(2, 1, &p));
    }
    for p in a.repair_packets(0, 3) {
        wires.push(wire(2, 2, &p));
    }
    for p in encoder(2, 2).source_packets() {
        wires.push(wire(2, 3, &p));
    }
    let mut out = Vec::new();
    for packet in wires {
        dec.on_packet(&packet, 0);
        while let Some(emission) = dec.next_emission(0) {
            match emission {
                Emission::Decoded { data, .. } => out.extend(data),
                other => panic!("expected a decoded block, got {other:?}"),
            }
        }
    }
    let want: Vec<u8> = (0..3).flat_map(|n| block_data(n, 2)).collect();
    assert_eq!(out, want);
}

#[test]
fn missing_block_goes_out_as_zeros_in_time() {
    let mut dec = Decoder::new(PID, 700, 8);
    for p in encoder(0, 2).source_packets() {
        dec.on_packet(&wire(2, 0, &p), 0);
    }
    assert!(matches!(dec.next_emission(0), Some(Emission::Decoded { block: 0, .. })));
    // Of block 1 nothing comes; block 2 is whole and waits for it.
    for p in encoder(2, 2).source_packets() {
        dec.on_packet(&wire(2, 0, &p), 10 * MILLI);
    }
    assert!(dec.next_emission(710 * MILLI - 1).is_none());
    match dec.next_emission(710 * MILLI) {
        Some(Emission::Zero { block: 1, data }) => {
            assert_eq!(data, vec![0u8; DEFAULT_BLOCK_SIZE])
        }
        other => panic!("expected zeros, got {other:?}"),
    }
    match dec.next_emission(710 * MILLI) {
        Some(Emission::Decoded { block: 2, data }) => assert_eq!(data, block_data(2, 2)),
        other => panic!("expected block 2, got {other:?}"),
    }
    // With nothing open, nothing is overdue.
    assert!(dec.next_emission(u128::MAX).is_none());
}

#[test]
fn geometry_without_alignment_is_taken_in_until_it_counts() {
    let mut dec = Decoder::new(PID, 700, 8);
    let mut bytes = make_block_oti(3 * 163, 163).serialize();
    bytes[11] = 0;
    let oti = ObjectTransmissionInformation::deserialize(&bytes);
    let mut send = |esi: u32, cc: u8| {
        let packet = EncodingPacket::new(PayloadId::new(0, esi), vec![esi as u8 + 1; SYMBOL_SIZE]);
        let mut buf = [0u8; TS_PACKET_SIZE];
        build_data_packet(PID, cc, &oti, &packet, &mut buf);
        dec.on_packet(&buf, 0)
    };
    assert!(matches!(send(0, 0), Intake::Accepted { block: 0 }));
    assert!(matches!(send(9, 2), Intake::Accepted { block: 0 }));
    assert!(matches!(send(9, 3), Intake::Accepted { block: 0 }));
    // A third distinct symbol would have the block put together.
    assert!(matches!(send(1, 4), Intake::Refused));
    assert_eq!(dec.totals().lost_packets, 1);
    match dec.next_emission(700 * MILLI) {
        Some(Emission::BestEffort { recovered: 1, repair: 2, k: 3, data, .. }) => {
            let mut want = vec![0u8; 3 * SYMBOL_SIZE];
            want[..SYMBOL_SIZE].fill(1);
            assert_eq!(data, want);
        }
        other => panic!("expected a best effort, got {other:?}"),
    }
}

#[test]
fn symbols_of_another_block_are_refused() {
    let mut dec = Decoder::new(PID, 700, 8);
    // Block numbers before the first block are taken for the first block, which
    // is another one.
    dec.on_packet(&wire(2, 0, &encoder(0, 2).source_packets()[0]), 0);
    assert!(matches!(
        dec.on_packet(&wire(2, 1, &encoder(200, 2).source_packets()[0]), 0),
        Intake::Refused
    ));
    assert!(dec.check_room());
}

#[test]
fn useless_packets_make_no_difference() {
    let a = encoder(0, 2).source_packets();
    let b = encoder(1, 2).source_packets();
    let plain = [wire(2, 0, &a[0]), wire(2, 0, &a[1]), wire(2, 0, &b[0]), wire(2, 0, &b[1])];
    let mut damaged = noop(1);
    damaged[30] ^= 4;
    let mixed = [
        noop(3), plain[0], damaged, plain[1], plain[0], noop(9), plain[2], plain[1], plain[3],
    ];
    let output = |wire: &[[u8; TS_PACKET_SIZE]]| {
        let mut dec = Decoder::new(PID, 700, 8);
        let mut out = Vec::new();
        for packet in wire {
            dec.on_packet(packet, 0);
            while let Some(Emission::Decoded { data, .. }) = dec.next_emission(0) {
                out.extend(data);
            }
        }
        out
    };
    assert_eq!(output(&mixed), output(&plain));
    assert_eq!(output(&plain).len(), 4 * SYMBOL_SIZE);
}

#[test]
fn stats_start_at_zero_and_are_due_by_the_clock() {
    let stats = IntervalStats::default();
    assert_eq!(stats.be_fill_pct(), 100);
    assert_eq!((stats.received(), stats.sent()), (0, 0));
    assert!(!report_due(0, 0, 1 << 100));
    assert!(!report_due(10, 5, 10_000_000_004));
    assert!(report_due(10, 5, 10_000_000_005));
}
