//! Encoder and decoder back to back, as they run on a link.

use raptorq_ts::assemble::BlockAssembler;
use raptorq_ts::decoder::{Decoder, Emission};
use raptorq_ts::encoder::{BlockPipeline, Idle};
use raptorq_ts::pid::{parse_pid, PidFault};
use raptorq_ts::resync::{skip_worth_a_warning, Found, PacketSync};
use raptorq_ts::writer::{heartbeat_due, Input, PacedWriter};
use raptorq_ts::{
    make_block_oti, EncodingPacket, PayloadId, DEFAULT_BLOCK_SIZE, FRAME_TYPE_DATA,
    FRAME_TYPE_NOOP, FRAME_TYPE_OFFSET, SYMBOL_SIZE, TS_HEADER_SIZE, TS_PACKET_SIZE,
};
use std::collections::VecDeque;

fn deterministic_payload(seed: u64, len: usize) -> Vec<u8> {
    let mut out = Vec::with_capacity(len);
    let mut x = seed.wrapping_mul(0x9E37_79B9_7F4A_7C15);
    for _ in 0..len {
        x = x.wrapping_mul(6364136223846793005).wrapping_add(1442695040888963407);
        out.push((x >> 33) as u8);
    }
    out
}

/// Make a fake MPEG-TS stream: 0x47 every 188 bytes, plausible header bytes,
/// pseudo-random payload. Lets the byte-stream comparison stay meaningful.
fn fake_ts_stream(num_packets: usize, seed: u64) -> Vec<u8> {
    let mut buf = Vec::with_capacity(num_packets * TS_PACKET_SIZE);
    let body = deterministic_payload(seed, num_packets * (TS_PACKET_SIZE - 4));
    for i in 0..num_packets {
        buf.push(0x47);
        buf.push(0x40);
        buf.push(0x21);
        buf.push((0x10 | (i & 0x0F)) as u8);
        let start = i * (TS_PACKET_SIZE - 4);
        buf.extend_from_slice(&body[start..start + TS_PACKET_SIZE - 4]);
    }
    buf
}

const K: u32 = (DEFAULT_BLOCK_SIZE / SYMBOL_SIZE) as u32;

/// The blocks of `input`, read in uneven chunks.
fn blocks(input: &[u8], block_size: usize) -> Vec<Vec<u8>> {
    let mut assembler = BlockAssembler::new(block_size);
    let mut out = Vec::new();
    let mut rest = input;
    let mut size = 1;
    while !rest.is_empty() {
        let n = size.min(assembler.wanted()).min(rest.len());
        out.extend(assembler.accept(&rest[..n]));
        rest = &rest[n..];
        size = size * 3 % 10_007;
    }
    out.extend(assembler.finish());
    out
}

/// All that the encoder sends for `input`, in blocks of `k` symbols, with a noop
/// in every tenth slot.
fn sent(input: &[u8], k: u32) -> Vec<[u8; TS_PACKET_SIZE]> {
    let block_size = k as usize * SYMBOL_SIZE;
    let oti = make_block_oti(block_size as u64, SYMBOL_SIZE as u16);
    let mut pipeline = BlockPipeline::new(oti, k / 4, k, true, 700);
    let mut writer = PacedWriter::new(0x100, 100_000_000, oti);
    let mut wire = Vec::new();
    for block in blocks(input, block_size) {
        for packet in pipeline.encode(&block) {
            wire.extend(writer.next_frame(Input::Packet(packet)));
            if wire.len() % 10 == 9 {
                wire.extend(writer.next_frame(Input::Empty));
            }
        }
        pipeline.sent(0);
    }
    assert!(writer.next_frame(Input::Closed).is_none());
    assert_eq!(writer.packets_sent() + writer.noops_sent(), wire.len() as u64);
    wire
}

/// What the decoder makes of the bytes of `wire`.
fn received(wire: &[u8], timeout_ms: u64) -> (Vec<u8>, Decoder) {
    let mut decoder = Decoder::new(0x100, timeout_ms, 8);
    let mut sync = PacketSync::new();
    let mut out = Vec::new();
    let mut rest = wire;
    while !rest.is_empty() {
        let n = sync.wanted().min(rest.len()).min(100);
        if let Found::Packet(packet) = sync.accept(&rest[..n]) {
            decoder.on_packet(&packet, 0);
            while let Some(emission) = decoder.next_emission(0) {
                match emission {
                    Emission::Decoded { data, .. }
                    | Emission::BestEffort { data, .. }
                    | Emission::Zero { data, .. } => out.extend(data),
                }
            }
        }
        rest = &rest[n..];
    }
    for data in decoder.flush_remaining() {
        out.extend(data);
    }
    (out, decoder)
}

#[test]
fn enc_dec_loopback_clean() {
    let blocks = 3;
    let stream_len = blocks * DEFAULT_BLOCK_SIZE;
    let ts_packets = stream_len / TS_PACKET_SIZE;
    let input = fake_ts_stream(ts_packets, 42);

    let wire: Vec<u8> = sent(&input, K).concat();
    let (out, mut decoder) = received(&wire, 200);
    assert!(
        out.len() >= input.len(),
        "decoder emitted {} bytes, expected at least {}",
        out.len(),
        input.len()
    );
    assert_eq!(&out[..input.len()], &input[..], "decoded byte stream does not match input");
    // Nothing is lost, and what the last block lacked is padded with zeros.
    assert!(out[input.len()..].iter().all(|b| *b == 0));
    assert_eq!(decoder.totals().lost_packets, 0);
    assert_eq!(decoder.take_stats().pkts_unparseable, 0);
}

#[test]
fn random_drops_within_the_repair_budget_are_recovered() {
    let k = 100;
    let blocks = 4;
    let ts_packets = blocks * k as usize * SYMBOL_SIZE / TS_PACKET_SIZE;
    let input = fake_ts_stream(ts_packets, 99);

    // Drop ~10% of TS packets randomly; within the 25% repair budget.
    let mut rng = 0xdeadbeefu64;
    let kept: Vec<[u8; TS_PACKET_SIZE]> = sent(&input, k)
        .into_iter()
        .filter(|_| {
            rng = rng.wrapping_mul(6364136223846793005).wrapping_add(1);
            (rng >> 40) % 100 >= 10
        })
        .collect();
    let (out, decoder) = received(&kept.concat(), 200);
    assert!(out.len() >= input.len());
    assert_eq!(&out[..input.len()], &input[..]);
    assert!(decoder.totals().lost_packets > 0);
}

#[test]
fn enc_emits_noops_under_underrun() {
    // No data flowing: the paced writer still emits noops at the target rate.
    let rate_bps: u64 = 1_460_000;
    let oti = make_block_oti(DEFAULT_BLOCK_SIZE as u64, SYMBOL_SIZE as u16);
    let mut writer = PacedWriter::new(0x100, rate_bps, oti);
    // 200 ms of output, on a clock that the writer's own sleeping moves.
    let measurement: u128 = 200_000_000;
    let mut clock = 0u128;
    let mut got = Vec::new();
    while clock < measurement {
        got.extend_from_slice(&writer.next_frame(Input::Empty).unwrap());
        clock += writer.sleep_nanos(clock) as u128;
    }
    let secs = clock as f64 / 1e9;
    let ratio = got.len() as f64 / secs * 8.0 / rate_bps as f64;
    assert!(ratio > 0.5 && ratio < 1.3, "underrun output rate ratio {ratio:.2}");

    // Confirm output bytes are TS-aligned.
    assert!(got.len() >= TS_PACKET_SIZE);
    assert_eq!(got[0], 0x47, "first byte should be TS sync");
    assert_eq!(got[TS_PACKET_SIZE], 0x47, "second packet should be aligned");
}

/// Gives the encoder one block of input and leaves it idle, and counts the DATA
/// and NOOP frames of the first `window` nanoseconds.
fn count_frames(adaptive: bool, input: &[u8]) -> (usize, usize) {
    let oti = make_block_oti(DEFAULT_BLOCK_SIZE as u64, SYMBOL_SIZE as u16);
    let mut pipeline = BlockPipeline::new(oti, K / 4, 5 * K, adaptive, 5000);
    let mut writer = PacedWriter::new(0x100, 8_000_000, oti);
    let mut queue: VecDeque<EncodingPacket> = VecDeque::new();
    queue.extend(pipeline.encode(&input[..DEFAULT_BLOCK_SIZE]));
    pipeline.sent(0);
    let window: u128 = 250_000_000;
    let mut clock = 0u128;
    let mut data = 0usize;
    let mut noop = 0usize;
    while clock < window {
        if queue.is_empty() && pipeline.is_adaptive() {
            if let Idle::Repair(packet) = pipeline.idle(clock) {
                queue.push_back(packet);
            }
        }
        let input = match queue.pop_front() {
            Some(packet) => Input::Packet(packet),
            None => Input::Empty,
        };
        let pkt = writer.next_frame(input).unwrap();
        match pkt[TS_HEADER_SIZE + FRAME_TYPE_OFFSET] {
            FRAME_TYPE_DATA => data += 1,
            FRAME_TYPE_NOOP => noop += 1,
            _ => {}
        }
        clock += writer.sleep_nanos(clock) as u128;
    }
    (data, noop)
}

#[test]
fn adaptive_fec_fills_idle_with_repair_not_noops() {
    // Slightly more than one block so exactly one full block is encoded; the
    // rest of the input stays open and idle.
    let ts_packets = DEFAULT_BLOCK_SIZE / TS_PACKET_SIZE + 1;
    let input = fake_ts_stream(ts_packets, 7);
    // One block = K source + 25% baseline repair.
    let baseline_data = DEFAULT_BLOCK_SIZE / SYMBOL_SIZE + (DEFAULT_BLOCK_SIZE / SYMBOL_SIZE) / 4;

    let (adaptive_data, adaptive_noop) = count_frames(true, &input);
    let (plain_data, plain_noop) = count_frames(false, &input);

    // Adaptive turns idle airtime into extra repair: more DATA frames than the
    // single block's baseline, and far more than the non-adaptive run.
    assert!(
        adaptive_data > baseline_data,
        "adaptive should mint repair beyond baseline {baseline_data}: got {adaptive_data}"
    );
    assert!(
        adaptive_data > plain_data,
        "adaptive should emit more DATA than plain: adaptive={adaptive_data}, plain={plain_data}"
    );
    // Non-adaptive fills the same idle airtime with noop stuffing instead.
    assert!(
        plain_noop > 100,
        "plain run should emit noop stuffing: got {plain_noop}"
    );
    assert!(
        adaptive_noop * 4 < plain_noop,
        "adaptive should nearly eliminate noops: adaptive={adaptive_noop}, plain={plain_noop}"
    );
}

#[test]
fn decoder_finds_the_stream_in_garbage() {
    let input = deterministic_payload(5, DEFAULT_BLOCK_SIZE);
    let mut wire = vec![0x11u8; 57];
    wire.extend(sent(&input, K).concat());
    let (out, decoder) = received(&wire, 200);
    assert_eq!(out, input);
    assert_eq!(decoder.totals().lost_packets, 0);
}

#[test]
fn sync_skips_byte_by_byte() {
    let mut sync = PacketSync::new();
    assert_eq!(sync.wanted(), 188);
    assert!(matches!(sync.accept(&[0u8; 180]), Found::Nothing));
    assert_eq!(sync.wanted(), 8);
    assert!(matches!(sync.accept(&[0x47u8; 8]), Found::Skipped(1)));
    for n in 2..=180u64 {
        assert_eq!(sync.wanted(), 1);
        assert!(matches!(sync.accept(&[0x47]), Found::Skipped(m) if m == n));
    }
    match sync.accept(&[9]) {
        Found::Packet(packet) => {
            assert_eq!(packet.len(), 188);
            assert_eq!((packet[0], packet[187]), (0x47, 9));
        }
        _ => panic!("expected a packet"),
    }
    assert_eq!(sync.wanted(), 188);
    assert!(sync.check_room());
}

#[test]
fn warnings_come_at_powers_of_two() {
    let due: Vec<u64> = (0..70).filter(|n| skip_worth_a_warning(*n)).collect();
    assert_eq!(due, [1, 2, 4, 8, 16, 32, 64]);
    assert!(skip_worth_a_warning(1 << 63));
    assert!(!skip_worth_a_warning(u64::MAX));
}

#[test]
fn assembler_cuts_and_pads() {
    let mut assembler = BlockAssembler::new(5);
    assert_eq!(assembler.accept(&[1, 2, 3]), None);
    assert_eq!(assembler.wanted(), 2);
    assert_eq!(assembler.accept(&[4, 5]), Some(vec![1, 2, 3, 4, 5]));
    assert_eq!(assembler.accept(&[6]), None);
    assert_eq!(assembler.finish(), Some(vec![6, 0, 0, 0, 0]));

    let mut assembler = BlockAssembler::new(2);
    assert_eq!(assembler.accept(&[1, 2]), Some(vec![1, 2]));
    assert_eq!(assembler.finish(), None);
}

#[test]
fn writer_paces_exactly() {
    let oti = make_block_oti(163, 163);
    let mut writer = PacedWriter::new(0x100, 1_000_000, oti);
    assert_eq!(writer.sleep_nanos(0), 0);
    let noop = writer.next_frame(Input::Empty).unwrap();
    assert_eq!(noop[3], 0x10);
    // 1504 bits at one megabit per second.
    assert_eq!(writer.sleep_nanos(0), 1_504_000);
    assert_eq!(writer.sleep_nanos(1_503_999), 1);
    assert_eq!(writer.sleep_nanos(1_504_000), 0);
    let packet = EncodingPacket::new(PayloadId::new(0, 0), vec![5u8; 163]);
    let data = writer.next_frame(Input::Packet(packet)).unwrap();
    assert_eq!((data[3], data[4]), (0x11, FRAME_TYPE_DATA));
    assert_eq!(writer.sleep_nanos(0), 3_008_000);
    assert_eq!((writer.packets_sent(), writer.noops_sent()), (1, 1));
    assert!(writer.check_room());
}

#[test]
fn heartbeat_every_five_seconds() {
    assert!(!heartbeat_due(7, 5_000_000_006));
    assert!(heartbeat_due(7, 5_000_000_007));
    assert!(!heartbeat_due(7, 0));
}

#[test]
fn pids_are_read_in_hex() {
    let pid = |s: &str| parse_pid(s).unwrap();
    assert_eq!(pid("0x100"), 0x100);
    assert_eq!(pid("1fFf"), 0x1FFF);
    assert_eq!(pid("0XAb"), 0xAB);
    assert_eq!(pid("0x0x0X7"), 7);
    assert_eq!(pid("+ffff"), 0xFFFF);
    assert_eq!(pid("0"), 0);
    assert_eq!(pid("0000000012"), 0x12);
}

#[test]
fn bad_pids_are_explained() {
    let fault = |s: &str| {
        let e = parse_pid(s).unwrap_err();
        (e.text, e.fault)
    };
    assert_eq!(fault(""), (String::new(), PidFault::Empty));
    assert_eq!(fault("0x"), (String::new(), PidFault::Empty));
    assert_eq!(fault("0x10000"), ("10000".to_string(), PidFault::Overflow));
    assert_eq!(fault("0xg1"), ("g1".to_string(), PidFault::InvalidDigit));
    assert_eq!(fault("+"), ("+".to_string(), PidFault::InvalidDigit));
    assert_eq!(fault("-1"), ("-1".to_string(), PidFault::InvalidDigit));
    // Once stripped of 0X, another 0x is text.
    assert_eq!(fault("0X0x1"), ("0x1".to_string(), PidFault::InvalidDigit));
    // The first fault counts.
    assert_eq!(fault("12345z"), ("12345z".to_string(), PidFault::Overflow));
    assert_eq!(fault("1\u{e9}"), ("1\u{e9}".to_string(), PidFault::InvalidDigit));
}
