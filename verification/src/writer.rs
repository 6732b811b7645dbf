//! The paced writer: one frame per slot, at the rate of the link.

use crate::clock;
use crate::clock::{nanos_from_secs, nanos_since};
use crate::fec;
use crate::fec::{EncodingPacket, ObjectTransmissionInformation};
use crate::frame;
use crate::frame::{build_data_packet, build_noop_packet};
use crate::tracking;
use crate::ts::{ContinuityCounter, SYMBOL_SIZE, TS_PACKET_SIZE};
use vstd::prelude::*;

verus! {

/// What the packet queue had for a slot.
pub enum Input {
    Packet(EncodingPacket),
    /// No packet was ready.
    Empty,
    /// No packet will come any more.
    Closed,
}

/// What a queue had, with the packet by what it carries.
#[verifier::ext_equal]
pub enum Slot {
    Packet(fec::Packet),
    Empty,
    Closed,
}

impl View for Input {
    type V = Slot;

    open spec fn view(&self) -> Slot {
        match *self {
            Input::Packet(packet) => Slot::Packet(packet@),
            Input::Empty => Slot::Empty,
            Input::Closed => Slot::Closed,
        }
    }
}

/// Seconds between two signs of life in the log.
pub const HEARTBEAT_SECS: u64 = 5;

/// The state of the writer.
pub struct Pace {
    pub pid: u16,
    pub oti: fec::Oti,
    /// The time that one packet takes on the link, in nanoseconds.
    pub nanos_per_packet: u128,
    /// The continuity counter of the next packet.
    pub cc: int,
    pub packets_sent: u64,
    pub noops_sent: u64,
}

/// Nanoseconds that one packet takes at `rate` bits per second.
pub open spec fn packet_nanos(rate: u64) -> int {
    1_000_000_000 * (TS_PACKET_SIZE * 8) / rate as int
}

impl Pace {
    pub open spec fn initial(pid: u16, rate: u64, oti: fec::Oti) -> Pace {
        Pace {
            pid,
            oti,
            nanos_per_packet: packet_nanos(rate) as u128,
            cc: 0,
            packets_sent: 0,
            noops_sent: 0,
        }
    }

    /// What goes out in a slot: the packet that was ready, else stuffing; and
    /// nothing, once no packet will come any more.
    pub open spec fn frame(self, slot: Slot) -> Option<Seq<u8>> {
        match slot {
            Slot::Packet(packet) => Some(
                frame::data_packet(self.pid, self.cc as u8, self.oti, packet),
            ),
            Slot::Empty => Some(frame::noop_packet(self.pid, self.cc as u8)),
            Slot::Closed => None,
        }
    }

    /// The state after a slot.
    pub open spec fn after(self, slot: Slot) -> Pace {
        match slot {
            Slot::Packet(_) => Pace {
                cc: (self.cc + 1) % 16,
                packets_sent: (self.packets_sent + 1) as u64,
                ..self
            },
            Slot::Empty => Pace {
                cc: (self.cc + 1) % 16,
                noops_sent: (self.noops_sent + 1) as u64,
                ..self
            },
            Slot::Closed => self,
        }
    }

    /// What every reachable state satisfies: even a link of one bit per second
    /// takes no longer for a packet than this, and the counter has four bits.
    pub open spec fn valid(self) -> bool {
        &&& self.nanos_per_packet <= 1_504_000_000_000
        &&& 0 <= self.cc < 16
    }

    /// Packets that have gone out.
    pub open spec fn total(self) -> int {
        self.packets_sent + self.noops_sent
    }

    /// When the next packet may go out, in nanoseconds from the start.
    pub open spec fn deadline(self) -> int {
        self.nanos_per_packet * self.total()
    }
}

impl Pace {
    /// How long the writer sleeps, `elapsed` nanoseconds after the start.
    pub open spec fn sleep(self, elapsed: u128) -> u64 {
        if self.deadline() > elapsed {
            (self.deadline() - elapsed) as u64
        } else {
            0
        }
    }

    /// The state after several slots.
    pub open spec fn after_slots(self, slots: Seq<Slot>) -> Pace
        decreases slots.len(),
    {
        if slots.len() == 0 {
            self
        } else {
            self.after_slots(slots.drop_last()).after(slots.last())
        }
    }
}

/// Frames packets for the link and keeps its pace.
pub struct PacedWriter {
    pid: u16,
    oti: ObjectTransmissionInformation,
    nanos_per_packet: u128,
    cc: ContinuityCounter,
    packets_sent: u64,
    noops_sent: u64,
}

impl View for PacedWriter {
    type V = Pace;

    closed spec fn view(&self) -> Pace {
        Pace {
            pid: self.pid,
            oti: self.oti@,
            nanos_per_packet: self.nanos_per_packet,
            cc: self.cc.value(),
            packets_sent: self.packets_sent,
            noops_sent: self.noops_sent,
        }
    }
}

/// The bytes of an optional packet.
pub open spec fn packet_bytes(packet: Option<[u8; TS_PACKET_SIZE]>) -> Option<Seq<u8>> {
    match packet {
        Some(bytes) => Some(bytes@),
        None => None,
    }
}

impl PacedWriter {
    pub fn new(pid: u16, rate_bps: u64, oti: ObjectTransmissionInformation) -> (writer: Self)
        requires
            rate_bps > 0,
        ensures
            writer@.valid(),
            writer@ == Pace::initial(pid, rate_bps, oti@),
    {
        let bits_per_packet: u128 = (TS_PACKET_SIZE * 8) as u128;
        proof {
            let (all, rate) = (1_000_000_000 * (TS_PACKET_SIZE * 8), rate_bps as int);
            assert(all / rate <= all) by (nonlinear_arith)
                requires
                    all >= 0,
                    rate >= 1,
            ;
        }
        PacedWriter {
            pid,
            oti,
            nanos_per_packet: 1_000_000_000u128 * bits_per_packet / rate_bps as u128,
            cc: ContinuityCounter::default(),
            packets_sent: 0,
            noops_sent: 0,
        }
    }

    /// The packet for the next slot, or nothing once the input is closed.
    pub fn next_frame(&mut self, input: Input) -> (res: Option<[u8; TS_PACKET_SIZE]>)
        requires
            input@ matches Slot::Packet(packet) ==> packet.data.len() == SYMBOL_SIZE,
            old(self)@.valid(),
            old(self)@.total() < u64::MAX,
        ensures
            final(self)@.valid(),
            packet_bytes(res) == old(self)@.frame(input@),
            final(self)@ == old(self)@.after(input@),
    {
        let mut buf: [u8; TS_PACKET_SIZE] = [0u8;TS_PACKET_SIZE];
        match input {
            Input::Packet(packet) => {
                build_data_packet(self.pid, self.cc.advance(), &self.oti, &packet, &mut buf);
                self.packets_sent = self.packets_sent + 1;
                Some(buf)
            },
            Input::Empty => {
                build_noop_packet(self.pid, self.cc.advance(), &mut buf);
                self.noops_sent = self.noops_sent + 1;
                Some(buf)
            },
            Input::Closed => None,
        }
    }

    /// How long to sleep before the next slot, `elapsed` nanoseconds after the
    /// start, in whole nanoseconds of 64 bits.
    pub fn sleep_nanos(&self, elapsed: u128) -> (nanos: u64)
        requires
            self@.valid(),
            self@.total() <= u64::MAX,
        ensures
            nanos == self@.sleep(elapsed),
    {
        let total: u64 = self.packets_sent + self.noops_sent;
        assert(self.nanos_per_packet * total <= 1_504_000_000_000 * u64::MAX) by (nonlinear_arith)
            requires
                self.nanos_per_packet <= 1_504_000_000_000,
        ;
        let deadline: u128 = self.nanos_per_packet * total as u128;
        if deadline > elapsed {
            #[verifier::truncate] ((deadline - elapsed) as u64)
        } else {
            0
        }
    }

    /// Whether the counts can take another packet.
    pub fn check_room(&self) -> (res: bool)
        ensures
            res == (self@.total() < u64::MAX),
    {
        self.packets_sent < u64::MAX - self.noops_sent
    }

    pub fn packets_sent(&self) -> (n: u64)
        ensures
            n == self@.packets_sent,
    {
        self.packets_sent
    }

    pub fn noops_sent(&self) -> (n: u64)
        ensures
            n == self@.noops_sent,
    {
        self.noops_sent
    }
}

/// A sign of life falls due at time `now`.
pub open spec fn shows_life(last: u128, now: u128) -> bool {
    clock::elapsed(last, now) >= HEARTBEAT_SECS * 1_000_000_000
}

/// A sign of life is due some time after the last.
pub fn heartbeat_due(last: u128, now: u128) -> (due: bool)
    ensures
        due == (clock::elapsed(last, now) >= HEARTBEAT_SECS * 1_000_000_000),
        due == shows_life(last, now),
{
    nanos_since(last, now) >= nanos_from_secs(HEARTBEAT_SECS)
}

/// Continuity counters follow one another, over data and stuffing alike: a
/// receiver of all packets sees no gap.
pub proof fn law_counters_leave_no_gap(p: Pace, slot: Slot)
    requires
        p.valid(),
        p.total() < u64::MAX,
        slot != Slot::Closed,
    ensures
        tracking::missed(Some(p.cc as u8), p.after(slot).cc as u8) == 0,
        p.after(slot).total() == p.total() + 1,
{
}

/// The writer keeps to the link's rate: the bits of all packets so far, at that
/// rate, take at least as long as the deadline says, and longer by less than a
/// nanosecond per packet.
pub proof fn law_pace_is_the_rate(p: Pace, rate: u64)
    requires
        rate > 0,
        p.nanos_per_packet == packet_nanos(rate),
        p.total() > 0,
    ensures
        p.deadline() * rate <= p.total() * (TS_PACKET_SIZE * 8) * 1_000_000_000 < (p.deadline()
            + p.total()) * rate,
{
    let (n, r, t) = (p.nanos_per_packet as int, rate as int, p.total());
    let all = 1_000_000_000 * (TS_PACKET_SIZE * 8);
    assert(n * r <= all < (n + 1) * r) by (nonlinear_arith)
        requires
            n == all / r,
            r > 0,
    ;
    assert(n * t * r <= t * all < (n * t + t) * r) by (nonlinear_arith)
        requires
            n * r <= all < (n + 1) * r,
            t > 0,
    ;
    assert(t * all == t * (TS_PACKET_SIZE * 8) * 1_000_000_000) by (nonlinear_arith)
        requires
            all == 1_000_000_000 * (TS_PACKET_SIZE * 8),
    ;
}

/// A run of the writer by the clock, in nanoseconds from its start. Packet `i`
/// goes out at `written[i]`. After it the clock is read at `checked[i]`, the
/// writer sleeps for as long as it is told then or longer, and only after that
/// comes the next packet.
pub open spec fn keeps_time(
    start: Pace,
    slots: Seq<Slot>,
    written: Seq<u128>,
    checked: Seq<u128>,
) -> bool {
    &&& written.len() == slots.len()
    &&& checked.len() == slots.len()
    &&& forall|i: int|
        0 <= i < slots.len() ==> (#[trigger] slots[i]) != Slot::Closed && written[i] <= checked[i]
    &&& forall|i: int|
        0 < i < slots.len() ==> #[trigger] written[i] >= checked[i - 1] + start.after_slots(
            slots.take(i),
        ).sleep(checked[i - 1])
}

proof fn lemma_after_slots(start: Pace, slots: Seq<Slot>)
    requires
        start.total() == 0,
        slots.len() <= u64::MAX,
        forall|i: int| 0 <= i < slots.len() ==> (#[trigger] slots[i]) != Slot::Closed,
    ensures
        start.after_slots(slots).total() == slots.len(),
        start.after_slots(slots).nanos_per_packet == start.nanos_per_packet,
    decreases slots.len(),
{
    if slots.len() > 0 {
        lemma_after_slots(start, slots.drop_last());
        assert(slots.last() == slots[slots.len() - 1]);
    }
}

/// The output never runs ahead of the rate: packet `n`, counted from zero, data
/// and stuffing alike, does not go out before `n` times the time that a packet
/// takes.
pub proof fn law_output_never_runs_ahead(
    pid: u16,
    rate: u64,
    oti: fec::Oti,
    slots: Seq<Slot>,
    written: Seq<u128>,
    checked: Seq<u128>,
    n: int,
)
    requires
        rate > 0,
        slots.len() <= u64::MAX,
        keeps_time(Pace::initial(pid, rate, oti), slots, written, checked),
        0 <= n < slots.len(),
    ensures
        written[n] >= n * packet_nanos(rate),
    decreases n,
{
    let start = Pace::initial(pid, rate, oti);
    let t = packet_nanos(rate);
    let all = 1_000_000_000 * (TS_PACKET_SIZE * 8);
    assert(0 <= t <= all) by (nonlinear_arith)
        requires
            t == all / (rate as int),
            all >= 0,
            rate >= 1,
    ;
    if n == 0 {
        assert(n * t == 0) by (nonlinear_arith)
            requires
                n == 0,
        ;
    } else {
        law_output_never_runs_ahead(pid, rate, oti, slots, written, checked, n - 1);
        lemma_after_slots(start, slots.take(n));
        let p = start.after_slots(slots.take(n));
        let c = checked[n - 1];
        assert(slots[n - 1] != Slot::Closed);
        assert(written[n - 1] <= c);
        assert(p.deadline() == n * t) by (nonlinear_arith)
            requires
                p.deadline() == p.nanos_per_packet * p.total(),
                p.nanos_per_packet == t,
                p.total() == n,
        ;
        assert(n * t == (n - 1) * t + t) by (nonlinear_arith);
        assert(written[n] >= c + p.sleep(c));
    }
}

/// A sleep ends at the deadline: with the time that one packet takes, once for
/// every packet that has gone out, still ahead, the writer sleeps up to that
/// moment, as long as that takes no more than 64 bits of nanoseconds. From that
/// moment on it does not sleep at all.
pub proof fn law_sleep_ends_at_the_deadline(p: Pace, elapsed: u128)
    ensures
        ({
            let due = p.nanos_per_packet * (p.packets_sent + p.noops_sent);
            let wakes = elapsed + p.sleep(elapsed);
            &&& elapsed >= due ==> wakes == elapsed
            &&& elapsed < due <= elapsed + u64::MAX ==> wakes == due
        }),
{
}

/// How long a packet takes: at the rate, its 188 bytes last for so many whole
/// nanoseconds and less than one more.
pub proof fn law_packet_time_is_whole_nanoseconds(rate: u64)
    requires
        rate > 0,
    ensures
        packet_nanos(rate) * rate <= 188 * 8 * 1_000_000_000 < (packet_nanos(rate) + 1) * rate,
        packet_nanos(rate) <= 1_504_000_000_000,
{
    let (n, r, all) = (packet_nanos(rate), rate as int, 1_504_000_000_000int);
    assert(n == all / r);
    assert(n * r <= all < (n + 1) * r && n <= all) by (nonlinear_arith)
        requires
            n == all / r,
            r > 0,
            all == 1_504_000_000_000,
    ;
}

/// In a run in which packet `n` goes out as soon as the writer wakes, it goes out
/// at `n` times the time that a packet takes; or at once, where the clock stood
/// later than that already. So a writer that was held up catches up, without any
/// pause.
pub proof fn law_late_packets_go_out_at_once(
    pid: u16,
    rate: u64,
    oti: fec::Oti,
    slots: Seq<Slot>,
    written: Seq<u128>,
    checked: Seq<u128>,
    n: int,
)
    requires
        rate > 0,
        slots.len() <= u64::MAX,
        keeps_time(Pace::initial(pid, rate, oti), slots, written, checked),
        0 < n < slots.len(),
        written[n] == checked[n - 1] + Pace::initial(pid, rate, oti).after_slots(
            slots.take(n),
        ).sleep(checked[n - 1]),
    ensures
        checked[n - 1] >= n * packet_nanos(rate) ==> written[n] == checked[n - 1],
        checked[n - 1] <= n * packet_nanos(rate) ==> written[n] == n * packet_nanos(rate),
{
    let start = Pace::initial(pid, rate, oti);
    let t = packet_nanos(rate);
    law_packet_time_is_whole_nanoseconds(rate);
    assert(t >= 0) by (nonlinear_arith)
        requires
            t == 1_000_000_000 * (TS_PACKET_SIZE * 8) / rate as int,
            rate >= 1,
    ;
    law_output_never_runs_ahead(pid, rate, oti, slots, written, checked, n - 1);
    lemma_after_slots(start, slots.take(n));
    let p = start.after_slots(slots.take(n));
    let c = checked[n - 1];
    assert(slots[n - 1] != Slot::Closed && written[n - 1] <= c);
    let due = p.nanos_per_packet * (p.packets_sent + p.noops_sent);
    assert(due == n * t) by (nonlinear_arith)
        requires
            due == p.nanos_per_packet * (p.packets_sent + p.noops_sent),
            p.nanos_per_packet == t,
            p.packets_sent + p.noops_sent == n,
    ;
    assert(n * t == (n - 1) * t + t) by (nonlinear_arith);
    law_sleep_ends_at_the_deadline(p, c);
}

/// A writer that is held up by nothing but its sleeps, and less than the time of
/// a packet by all else between two packets, is on time with every packet.
pub proof fn law_output_keeps_up(
    pid: u16,
    rate: u64,
    oti: fec::Oti,
    slots: Seq<Slot>,
    written: Seq<u128>,
    checked: Seq<u128>,
    n: int,
)
    requires
        rate > 0,
        slots.len() <= u64::MAX,
        keeps_time(Pace::initial(pid, rate, oti), slots, written, checked),
        written[0] == 0,
        forall|i: int|
            0 < i < slots.len() ==> #[trigger] written[i] == checked[i - 1] + Pace::initial(
                pid,
                rate,
                oti,
            ).after_slots(slots.take(i)).sleep(checked[i - 1]),
        forall|i: int|
            0 <= i < slots.len() ==> #[trigger] checked[i] <= written[i] + packet_nanos(rate),
        0 <= n < slots.len(),
    ensures
        written[n] == n * packet_nanos(rate),
    decreases n,
{
    let t = packet_nanos(rate);
    if n == 0 {
        assert(n * t == 0) by (nonlinear_arith)
            requires
                n == 0,
        ;
    } else {
        law_output_keeps_up(pid, rate, oti, slots, written, checked, n - 1);
        assert(n * t == (n - 1) * t + t) by (nonlinear_arith);
        assert(checked[n - 1] <= written[n - 1] + t);
        law_late_packets_go_out_at_once(pid, rate, oti, slots, written, checked, n);
    }
}

/// A packet that is put in is heard on the writer's PID with its id and symbol,
/// under the writer's transmission information and counter.
pub proof fn law_packets_go_out_as_they_came(p: Pace, packet: fec::Packet)
    requires
        p.valid(),
        p.pid < 0x2000,
        p.oti.valid(),
        packet.id.valid(),
        packet.data.len() == SYMBOL_SIZE,
    ensures
        p.frame(Slot::Packet(packet)) is Some,
        frame::heard(p.frame(Slot::Packet(packet))->0, p.pid) == frame::Heard::Frame(
            frame::Frame::Data {
                cc: p.cc as u8,
                oti: p.oti,
                id: packet.id,
                symbol: packet.data,
            },
        ),
{
    let cc = p.cc as u8;
    assert((p.pid as int % 0x2000) as u16 == p.pid);
    assert((cc as int % 16) as u8 == cc);
    frame::law_data_packet_roundtrip(p.pid, cc, p.oti, packet);
}

/// Where nothing is put in, stuffing is heard, with the writer's counter; and
/// nothing at all goes out once the input is closed.
pub proof fn law_empty_slots_go_out_as_stuffing(p: Pace)
    requires
        p.valid(),
        p.pid < 0x2000,
    ensures
        p.frame(Slot::Empty) is Some,
        frame::heard(p.frame(Slot::Empty)->0, p.pid) == frame::Heard::Frame(
            frame::Frame::Noop { cc: p.cc as u8 },
        ),
        p.frame(Slot::Closed) is None,
{
    let cc = p.cc as u8;
    assert((p.pid as int % 0x2000) as u16 == p.pid);
    assert((cc as int % 16) as u8 == cc);
    frame::law_noop_packet_roundtrip(p.pid, cc);
}

/// Every packet that goes out counts once, by its kind, and moves the counter on
/// by one of sixteen; nothing else changes.
pub proof fn law_every_slot_counts_once(p: Pace, packet: fec::Packet)
    requires
        p.valid(),
        p.packets_sent < u64::MAX,
        p.noops_sent < u64::MAX,
    ensures
        ({
            let (data, stuffing) = (p.after(Slot::Packet(packet)), p.after(Slot::Empty));
            &&& data.packets_sent == p.packets_sent + 1 && data.noops_sent == p.noops_sent
            &&& stuffing.packets_sent == p.packets_sent && stuffing.noops_sent == p.noops_sent + 1
            &&& data.cc == stuffing.cc && 0 <= data.cc < 16
            &&& data.cc == p.cc + 1 || p.cc == 15 && data.cc == 0
            &&& data.pid == p.pid && stuffing.pid == p.pid
            &&& data.oti == p.oti && stuffing.oti == p.oti
            &&& data.nanos_per_packet == p.nanos_per_packet
            &&& stuffing.nanos_per_packet == p.nanos_per_packet
            &&& p.after(Slot::Closed) == p
        }),
{
}

/// A writer starts with nothing sent, the counter at zero, and the time of a
/// packet at its rate.
pub proof fn law_writer_starts_afresh(pid: u16, rate: u64, oti: fec::Oti)
    requires
        rate > 0,
    ensures
        ({
            let p = Pace::initial(pid, rate, oti);
            &&& p.pid == pid && p.oti == oti && p.cc == 0
            &&& p.packets_sent == 0 && p.noops_sent == 0
            &&& p.nanos_per_packet * rate <= 1_504_000_000_000 < (p.nanos_per_packet + 1) * rate
        }),
{
    law_packet_time_is_whole_nanoseconds(rate);
    let n = packet_nanos(rate);
    assert(n >= 0) by (nonlinear_arith)
        requires
            n == 1_000_000_000 * (TS_PACKET_SIZE * 8) / rate as int,
            rate >= 1,
    ;
}

/// A sign of life falls due five seconds after the last, and not before.
pub proof fn law_life_shows_every_five_seconds(last: u128, now: u128)
    ensures
        shows_life(last, now) <==> last + 5_000_000_000 <= now,
{
}

} // verus!
