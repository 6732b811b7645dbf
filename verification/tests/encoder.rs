use raptorq_ts::encoder::{
    check_block_size, check_block_size_fits, check_rate, emit_block, BlockPipeline, ConfigError,
    Idle,
};
use raptorq_ts::interleave::{interleave, repair_interval};
use raptorq_ts::ring::{pick_block, prune_ring, BlockGen, Xorshift64, MAX_RING};
use raptorq_ts::{make_block_oti, BlockEncoder, EncodingPacket, DEFAULT_BLOCK_SIZE, SYMBOL_SIZE};
use std::collections::VecDeque;

const DEFAULT_REPAIR_OVERHEAD: f32 = 0.25;
const MILLI: u128 = 1_000_000;
const SECOND: u128 = 1_000_000_000;

fn make_packets(k: u32, repair: u32) -> (Vec<EncodingPacket>, Vec<EncodingPacket>) {
    let block_size = k as usize * SYMBOL_SIZE;
    let oti = make_block_oti(block_size as u64, SYMBOL_SIZE as u16);
    let data: Vec<u8> = (0..block_size).map(|i| (i & 0xFF) as u8).collect();
    let enc = BlockEncoder::new(0, &oti, &data);
    (enc.source_packets(), enc.repair_packets(0, repair))
}

#[test]
fn repair_packets_are_evenly_spaced() {
    let k: u32 = 392;
    let repair: u32 = 98;
    let rep_interval = (k / repair).max(1);
    let (source, repair_pkts) = make_packets(k, repair);

    let out: Vec<EncodingPacket> = interleave(source, repair_pkts, rep_interval);
    assert_eq!(out.len(), (k + repair) as usize);

    // Between any two consecutive repair packets there must be at least
    // rep_interval - 1 source packets (i.e., no repair bursts).
    let repair_positions: Vec<usize> = out
        .iter()
        .enumerate()
        .filter(|(_, p)| p.payload_id().encoding_symbol_id() >= k)
        .map(|(i, _)| i)
        .collect();

    assert_eq!(repair_positions.len(), repair as usize, "wrong repair count");
    for window in repair_positions.windows(2) {
        let gap = window[1] - window[0];
        assert!(
            gap >= rep_interval as usize,
            "repair packets too close together: positions {} and {} (gap {}, need >= {})",
            window[0], window[1], gap, rep_interval
        );
    }
}

#[test]
fn no_repair_passes_source_through_unchanged() {
    let k: u32 = 8;
    let (source, repair_pkts) = make_packets(k, 0);
    assert!(repair_pkts.is_empty());
    let out: Vec<EncodingPacket> = interleave(source.clone(), repair_pkts, u32::MAX);
    assert_eq!(out.len(), source.len());
    for (a, b) in out.iter().zip(source.iter()) {
        assert_eq!(a.payload_id().encoding_symbol_id(), b.payload_id().encoding_symbol_id());
    }
}

#[test]
fn default_block_interleave_survives_burst_loss_of_repair_cluster() {
    // If all repairs were bunched after the 4th source packet, losing positions
    // 4..102 would wipe the entire repair budget. Spread out, a burst only hits
    // a few of them.
    let k = (DEFAULT_BLOCK_SIZE / SYMBOL_SIZE) as u32;
    let repair = (k as f32 * DEFAULT_REPAIR_OVERHEAD).ceil() as u32;
    let rep_interval = (k / repair).max(1);
    let (source, repair_pkts) = make_packets(k, repair);

    let out: Vec<EncodingPacket> = interleave(source, repair_pkts, rep_interval);

    // Drop a burst of rep_interval * 2 packets starting at position 4.
    let burst_start = 4usize;
    let burst_len = rep_interval as usize * 2;
    let surviving: Vec<&EncodingPacket> = out
        .iter()
        .enumerate()
        .filter(|(i, _)| *i < burst_start || *i >= burst_start + burst_len)
        .map(|(_, p)| p)
        .collect();

    let repairs_surviving = surviving
        .iter()
        .filter(|p| p.payload_id().encoding_symbol_id() >= k)
        .count();

    // After a burst of 2*rep_interval, we should lose at most 2 repair
    // packets (one per rep_interval), leaving the vast majority intact.
    assert!(
        repairs_surviving >= (repair - 2) as usize,
        "too many repairs lost in burst: {} surviving out of {repair}",
        repairs_surviving
    );
}

fn dummy_blockgen(next_repair_id: u32, max_repair: u32, created: u128) -> BlockGen {
    let k = 8u32;
    let block_size = k as usize * SYMBOL_SIZE;
    let oti = make_block_oti(block_size as u64, SYMBOL_SIZE as u16);
    let encoder = BlockEncoder::new(0, &oti, &vec![0u8; block_size]);
    BlockGen {
        encoder,
        next_repair_id,
        max_repair,
        created,
    }
}

#[test]
fn pick_block_prefers_freshest() {
    let now = 10 * SECOND;
    let mut ring: VecDeque<BlockGen> = VecDeque::new();
    // 3 live blocks; freshest is the back (index 2).
    for _ in 0..3 {
        ring.push_back(dummy_blockgen(0, 100, now));
    }
    let mut rng = Xorshift64::new(0x1234_5678);
    let n = 20_000;
    let mut counts = [0usize; 3];
    for _ in 0..n {
        counts[pick_block(&ring, &mut rng).unwrap()] += 1;
    }
    // Freshest dominates and lands near the geometric 1/2.
    assert!(
        counts[2] > counts[1] && counts[2] > counts[0],
        "freshest should dominate: {counts:?}"
    );
    let frac = counts[2] as f64 / n as f64;
    assert!((0.45..0.55).contains(&frac), "freshest ~1/2: {counts:?}");
}

#[test]
fn pick_block_skips_exhausted() {
    let now = 10 * SECOND;
    let mut ring: VecDeque<BlockGen> = VecDeque::new();
    ring.push_back(dummy_blockgen(0, 100, now)); // live
    ring.push_back(dummy_blockgen(50, 50, now)); // exhausted (freshest)
    let mut rng = Xorshift64::new(7);
    for _ in 0..1000 {
        assert_eq!(pick_block(&ring, &mut rng), Some(0));
    }
}

#[test]
fn pick_block_none_when_all_exhausted() {
    let now = 10 * SECOND;
    let mut ring: VecDeque<BlockGen> = VecDeque::new();
    ring.push_back(dummy_blockgen(50, 50, now));
    let mut rng = Xorshift64::new(1);
    assert_eq!(pick_block(&ring, &mut rng), None);
}

#[test]
fn prune_ring_drops_exhausted_and_expired_front() {
    let now = 10 * SECOND;
    let horizon = 500 * MILLI;

    // Exhausted front is dropped, live block kept.
    let mut ring: VecDeque<BlockGen> = VecDeque::new();
    ring.push_back(dummy_blockgen(50, 50, now));
    ring.push_back(dummy_blockgen(0, 100, now));
    prune_ring(&mut ring, horizon, now);
    assert_eq!(ring.len(), 1);
    assert!(!ring[0].exhausted());

    // Expired front (older than horizon) is dropped.
    let old = now - 5 * SECOND;
    let mut ring: VecDeque<BlockGen> = VecDeque::new();
    ring.push_back(dummy_blockgen(0, 100, old));
    ring.push_back(dummy_blockgen(0, 100, now));
    prune_ring(&mut ring, horizon, now);
    assert_eq!(ring.len(), 1);
}

#[test]
fn coin_is_roughly_fair() {
    let mut rng = Xorshift64::new(0xDEAD_BEEF);
    let n = 100_000;
    let heads = (0..n).filter(|_| rng.coin()).count();
    let frac = heads as f64 / n as f64;
    assert!((0.47..0.53).contains(&frac), "coin biased: {frac}");
}

#[test]
fn xorshift_draws_exact_values() {
    // An even seed is made odd.
    let mut rng = Xorshift64::new(0);
    assert_eq!(rng.next_u64(), 0x4082_2041);
    assert_eq!(rng.next_u64(), 0x1000_4106_0C01_1441);
}

#[test]
fn ring_is_capped_and_horizon_is_inclusive() {
    let mut ring: VecDeque<BlockGen> = VecDeque::new();
    for i in 0..MAX_RING as u128 + 3 {
        ring.push_back(dummy_blockgen(0, 100, i));
    }
    prune_ring(&mut ring, SECOND, 100);
    assert_eq!(ring.len(), MAX_RING);
    assert_eq!(ring[0].created, 3);
    // A block exactly as old as the horizon is kept; a nanosecond more and it goes.
    prune_ring(&mut ring, 97, 100);
    assert_eq!(ring[0].created, 3);
    prune_ring(&mut ring, 96, 100);
    assert_eq!(ring[0].created, 4);
}

#[test]
fn exhausted_blocks_behind_live_ones_are_dropped() {
    let now = 10 * SECOND;
    let mut ring: VecDeque<BlockGen> = VecDeque::new();
    ring.push_back(dummy_blockgen(0, 100, now));
    ring.push_back(dummy_blockgen(50, 50, now));
    ring.push_back(dummy_blockgen(7, 100, now));
    prune_ring(&mut ring, 500 * MILLI, now);
    let left: Vec<u32> = ring.iter().map(|b| b.next_repair_id).collect();
    assert_eq!(left, [0, 7]);
}

#[test]
fn repair_ids_rise_over_a_run() {
    let k = 4;
    let oti = make_block_oti(4 * 163, 163);
    let mut pipeline = BlockPipeline::new(oti, 2, 6, true, 700);
    let mut plain = BlockPipeline::new(oti, 2, 6, false, 700);
    let mut out: Vec<EncodingPacket> = Vec::new();
    let mut base: Vec<EncodingPacket> = Vec::new();
    for n in 0..5u8 {
        out.extend(pipeline.encode(&[n; 4 * 163]));
        pipeline.sent(0);
        base.extend(plain.encode(&[n; 4 * 163]));
        plain.sent(0);
        for _ in 0..n {
            if let Idle::Repair(p) = pipeline.idle(1) {
                out.push(p);
            }
        }
    }
    for n in 0..5u8 {
        let repairs: Vec<u32> = out
            .iter()
            .map(|p| p.payload_id())
            .filter(|id| id.source_block_number() == n && id.encoding_symbol_id() >= k)
            .map(|id| id.encoding_symbol_id() - k)
            .collect();
        assert!((2..=6).contains(&repairs.len()));
        assert_eq!(repairs, (0..repairs.len() as u32).collect::<Vec<u32>>());
    }
    // Without the extra repair it is the run without idle slots.
    out.retain(|p| p.payload_id().encoding_symbol_id() < k + 2);
    assert_eq!(out.len(), base.len());
    for (a, b) in out.iter().zip(&base) {
        assert_eq!(a.payload_id().serialize(), b.payload_id().serialize());
        assert_eq!(a.data(), b.data());
    }
}

#[test]
fn interval_spreads_repairs() {
    assert_eq!(repair_interval(392, 98), 4);
    assert_eq!(repair_interval(392, 100), 3);
    assert_eq!(repair_interval(8, 20), 1);
    assert_eq!(repair_interval(8, 0), u32::MAX);
}

#[test]
fn leftover_repairs_follow_at_the_end() {
    let (source, repair) = make_packets(4, 4);
    let ids: Vec<u32> = interleave(source, repair, 3)
        .iter()
        .map(|p| p.payload_id().encoding_symbol_id())
        .collect();
    assert_eq!(ids, [0, 1, 2, 4, 3, 5, 6, 7]);

    let (source, repair) = make_packets(3, 2);
    let ids: Vec<u32> = interleave(source, repair, 0)
        .iter()
        .map(|p| p.payload_id().encoding_symbol_id())
        .collect();
    assert_eq!(ids, [3, 4, 0, 1, 2]);
}

#[test]
fn configuration_is_checked() {
    assert_eq!(check_block_size(0), Err(ConfigError::BlockSize(0)));
    assert_eq!(check_block_size(164), Err(ConfigError::BlockSize(164)));
    assert_eq!(check_block_size(DEFAULT_BLOCK_SIZE), Ok(392));
    assert_eq!(check_rate(0), Err(ConfigError::Rate));
    assert_eq!(check_rate(1), Ok(()));
    assert!(check_block_size_fits(56403 * SYMBOL_SIZE));
    assert!(!check_block_size_fits(56404 * SYMBOL_SIZE));
    assert!(!check_block_size_fits(0));
    assert!(!check_block_size_fits(100));
}

#[test]
fn emitted_block_is_interleaved() {
    let oti = make_block_oti(4 * 163, 163);
    let block: Vec<u8> = (0..4 * 163).map(|i| (i / 163) as u8).collect();
    let (encoder, out) = emit_block(&block, 7, &oti, 2, 2);
    assert_eq!(encoder.source_symbols(), 4);
    let ids: Vec<u32> = out.iter().map(|p| p.payload_id().encoding_symbol_id()).collect();
    assert_eq!(ids, [0, 1, 4, 2, 3, 5]);
    assert!(out.iter().all(|p| p.payload_id().source_block_number() == 7));
    assert_eq!(out[3].data(), &[2u8; 163][..]);
}

fn extra_id(pipeline: &mut BlockPipeline, now: u128) -> Option<(u8, u32)> {
    match pipeline.idle(now) {
        Idle::Repair(p) => {
            assert_eq!(p.data().len(), SYMBOL_SIZE);
            let id = p.payload_id();
            Some((id.source_block_number(), id.encoding_symbol_id()))
        }
        Idle::Nap => None,
        Idle::NoIds => panic!("symbol ids used up"),
    }
}

#[test]
fn idle_slots_bring_repair_up_to_the_ceiling() {
    let oti = make_block_oti(4 * 163, 163);
    let mut pipeline = BlockPipeline::new(oti, 1, 4, true, 700);
    assert!(pipeline.is_adaptive());
    assert_eq!(extra_id(&mut pipeline, 0), None);
    assert_eq!(pipeline.encode(&[1u8; 4 * 163]).len(), 5);
    pipeline.sent(0);
    // Source ids are 0..4 and the baseline took 4; the ceiling leaves three more.
    assert_eq!(extra_id(&mut pipeline, 1), Some((0, 5)));
    assert_eq!(extra_id(&mut pipeline, 2), Some((0, 6)));
    assert_eq!(extra_id(&mut pipeline, 3), Some((0, 7)));
    assert_eq!(extra_id(&mut pipeline, 4), None);
    // The next block has the next number, and gets no repair beyond the horizon.
    let out = pipeline.encode(&[2u8; 4 * 163]);
    assert_eq!(out[0].payload_id().source_block_number(), 1);
    pipeline.sent(SECOND);
    assert_eq!(extra_id(&mut pipeline, SECOND + 700 * MILLI), Some((1, 5)));
    assert_eq!(extra_id(&mut pipeline, SECOND + 700 * MILLI + 1), None);
}

#[test]
fn baseline_only_without_headroom() {
    let oti = make_block_oti(4 * 163, 163);
    for (max, adaptive) in [(4, false), (1, true), (0, true)] {
        let mut pipeline = BlockPipeline::new(oti, 1, max, adaptive, 700);
        assert!(!pipeline.is_adaptive());
        assert_eq!(pipeline.encode(&[1u8; 4 * 163]).len(), 5);
        pipeline.sent(0);
        assert_eq!(extra_id(&mut pipeline, 1), None);
    }
}

#[test]
fn block_numbers_wrap_after_256() {
    let oti = make_block_oti(163, 163);
    let mut pipeline = BlockPipeline::new(oti, 0, 0, false, 700);
    for n in 0..258u32 {
        let out = pipeline.encode(&[0u8; 163]);
        assert_eq!(out[0].payload_id().source_block_number(), (n % 256) as u8);
        pipeline.sent(0);
    }
}
