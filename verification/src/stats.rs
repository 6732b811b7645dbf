//! What the decoder counts, per reporting interval and in all.

use crate::clock;
use crate::clock::{nanos_from_secs, nanos_since};
use vstd::prelude::*;

verus! {

/// Counts of one reporting interval.
#[derive(Debug, Clone, Copy)]
pub struct IntervalStats {
    pub decoded: u64,
    pub besteffort: u64,
    pub be_timed_out: u64,
    pub be_forced: u64,
    /// Sum of source and repair symbols received for best-effort blocks.
    pub be_syms_rcvd: u64,
    /// Sum of the source symbols that best-effort blocks have.
    pub be_syms_needed: u64,
    pub zero: u64,
    /// Data symbols accepted into a still-open block.
    pub pkts_ok: u64,
    /// Noop packets received.
    pub noops: u64,
    /// Data packets for a block already emitted: unneeded repair, not loss.
    pub pkts_redundant: u64,
    /// Packets that failed to parse (corruption); not counted as link loss.
    pub pkts_unparseable: u64,
    /// Packets that never arrived, inferred from continuity-counter gaps.
    pub pkts_lost: u64,
}

/// Counts since the start.
#[derive(Debug, Clone, Copy)]
pub struct Totals {
    pub decoded_blocks: u64,
    pub besteffort_blocks: u64,
    pub zero_blocks: u64,
    pub redundant_packets: u64,
    pub lost_packets: u64,
}

/// Room that every count must have left: more than one event can add.
pub const COUNT_LIMIT: u64 = 0xFFFF_FFFE_0000_0000;

impl IntervalStats {
    pub open spec fn zeroed() -> IntervalStats {
        IntervalStats {
            decoded: 0,
            besteffort: 0,
            be_timed_out: 0,
            be_forced: 0,
            be_syms_rcvd: 0,
            be_syms_needed: 0,
            zero: 0,
            pkts_ok: 0,
            noops: 0,
            pkts_redundant: 0,
            pkts_unparseable: 0,
            pkts_lost: 0,
        }
    }

    /// No count is about to run over.
    pub open spec fn has_room(self) -> bool {
        &&& self.decoded <= COUNT_LIMIT
        &&& self.besteffort <= COUNT_LIMIT
        &&& self.be_timed_out <= COUNT_LIMIT
        &&& self.be_forced <= COUNT_LIMIT
        &&& self.be_syms_rcvd <= COUNT_LIMIT
        &&& self.be_syms_needed <= COUNT_LIMIT
        &&& self.zero <= COUNT_LIMIT
        &&& self.pkts_ok <= COUNT_LIMIT
        &&& self.noops <= COUNT_LIMIT
        &&& self.pkts_redundant <= COUNT_LIMIT
        &&& self.pkts_unparseable <= COUNT_LIMIT
        &&& self.pkts_lost <= COUNT_LIMIT
    }

    pub fn check_room(&self) -> (res: bool)
        ensures
            res == self.has_room(),
    {
        self.decoded <= COUNT_LIMIT && self.besteffort <= COUNT_LIMIT && self.be_timed_out
            <= COUNT_LIMIT && self.be_forced <= COUNT_LIMIT && self.be_syms_rcvd <= COUNT_LIMIT
            && self.be_syms_needed <= COUNT_LIMIT && self.zero <= COUNT_LIMIT && self.pkts_ok
            <= COUNT_LIMIT && self.noops <= COUNT_LIMIT && self.pkts_redundant <= COUNT_LIMIT
            && self.pkts_unparseable <= COUNT_LIMIT && self.pkts_lost <= COUNT_LIMIT
    }

    /// How far best-effort blocks were filled, in percent.
    pub open spec fn filled(self) -> int {
        if self.be_syms_needed > 0 {
            self.be_syms_rcvd as int * 100 / self.be_syms_needed as int
        } else {
            100
        }
    }

    /// Packets between which gaps are seen.
    pub open spec fn arrived(self) -> int {
        self.pkts_ok + self.pkts_redundant + self.noops
    }

    /// Packets that arrived or were missed.
    pub open spec fn on_air(self) -> int {
        self.pkts_ok + self.pkts_redundant + self.noops + self.pkts_lost
    }

    /// Symbols received for best-effort blocks, in percent of those needed.
    pub fn be_fill_pct(&self) -> (pct: u64)
        requires
            self.be_syms_needed > 0 ==> self.be_syms_rcvd * 100 <= u64::MAX,
        ensures
            pct == (if self.be_syms_needed > 0 {
                self.be_syms_rcvd as int * 100 / self.be_syms_needed as int
            } else {
                100
            }),
            pct == self.filled(),
    {
        if self.be_syms_needed > 0 {
            self.be_syms_rcvd * 100 / self.be_syms_needed
        } else {
            100
        }
    }

    /// Packets that arrived. Every parsed frame carries a continuity counter, so
    /// these are the packets between which gaps are seen.
    pub fn received(&self) -> (n: u64)
        requires
            self.pkts_ok + self.pkts_redundant + self.noops <= u64::MAX,
        ensures
            n == self.pkts_ok + self.pkts_redundant + self.noops,
            n == self.arrived(),
    {
        self.pkts_ok + self.pkts_redundant + self.noops
    }

    /// Packets that were sent: those that arrived and those missed in gaps.
    pub fn sent(&self) -> (n: u64)
        requires
            self.pkts_ok + self.pkts_redundant + self.noops + self.pkts_lost <= u64::MAX,
        ensures
            n == self.pkts_ok + self.pkts_redundant + self.noops + self.pkts_lost,
            n == self.on_air(),
    {
        self.received() + self.pkts_lost
    }

    /// Data packets that arrived.
    pub fn data_received(&self) -> (n: u64)
        requires
            self.pkts_ok + self.pkts_redundant <= u64::MAX,
        ensures
            n == self.pkts_ok + self.pkts_redundant,
    {
        self.pkts_ok + self.pkts_redundant
    }
}

impl Default for IntervalStats {
    fn default() -> (stats: Self)
        ensures
            stats == IntervalStats::zeroed(),
    {
        IntervalStats {
            decoded: 0,
            besteffort: 0,
            be_timed_out: 0,
            be_forced: 0,
            be_syms_rcvd: 0,
            be_syms_needed: 0,
            zero: 0,
            pkts_ok: 0,
            noops: 0,
            pkts_redundant: 0,
            pkts_unparseable: 0,
            pkts_lost: 0,
        }
    }
}

impl Totals {
    pub open spec fn zeroed() -> Totals {
        Totals {
            decoded_blocks: 0,
            besteffort_blocks: 0,
            zero_blocks: 0,
            redundant_packets: 0,
            lost_packets: 0,
        }
    }

    /// No count is about to run over.
    pub open spec fn has_room(self) -> bool {
        &&& self.decoded_blocks <= COUNT_LIMIT
        &&& self.besteffort_blocks <= COUNT_LIMIT
        &&& self.zero_blocks <= COUNT_LIMIT
        &&& self.redundant_packets <= COUNT_LIMIT
        &&& self.lost_packets <= COUNT_LIMIT
    }

    pub fn check_room(&self) -> (res: bool)
        ensures
            res == self.has_room(),
    {
        self.decoded_blocks <= COUNT_LIMIT && self.besteffort_blocks <= COUNT_LIMIT
            && self.zero_blocks <= COUNT_LIMIT && self.redundant_packets <= COUNT_LIMIT
            && self.lost_packets <= COUNT_LIMIT
    }
}

impl Default for Totals {
    fn default() -> (totals: Self)
        ensures
            totals == Totals::zeroed(),
    {
        Totals {
            decoded_blocks: 0,
            besteffort_blocks: 0,
            zero_blocks: 0,
            redundant_packets: 0,
            lost_packets: 0,
        }
    }
}

/// A report falls due at time `now`.
pub open spec fn falls_due(interval_secs: u64, last: u128, now: u128) -> bool {
    interval_secs > 0 && clock::elapsed(last, now) >= interval_secs * 1_000_000_000
}

/// Statistics are reported once `interval_secs` have passed since the last
/// report; an interval of zero switches reports off. Times are in nanoseconds.
pub fn report_due(interval_secs: u64, last: u128, now: u128) -> (due: bool)
    ensures
        due == (interval_secs > 0 && clock::elapsed(last, now) >= interval_secs * 1_000_000_000),
        due == falls_due(interval_secs, last, now),
{
    interval_secs > 0 && nanos_since(last, now) >= nanos_from_secs(interval_secs)
}

/// Counts start at zero, and have room up to the limit.
pub proof fn law_counts_have_room(stats: IntervalStats, totals: Totals)
    ensures
        IntervalStats::zeroed() == (IntervalStats {
            decoded: 0,
            besteffort: 0,
            be_timed_out: 0,
            be_forced: 0,
            be_syms_rcvd: 0,
            be_syms_needed: 0,
            zero: 0,
            pkts_ok: 0,
            noops: 0,
            pkts_redundant: 0,
            pkts_unparseable: 0,
            pkts_lost: 0,
        }),
        Totals::zeroed() == (Totals {
            decoded_blocks: 0,
            besteffort_blocks: 0,
            zero_blocks: 0,
            redundant_packets: 0,
            lost_packets: 0,
        }),
        stats.has_room() <==> {
            let limit = 0xFFFF_FFFE_0000_0000u64;
            &&& stats.decoded <= limit && stats.besteffort <= limit && stats.be_timed_out <= limit
            &&& stats.be_forced <= limit && stats.be_syms_rcvd <= limit && stats.be_syms_needed
                <= limit
            &&& stats.zero <= limit && stats.pkts_ok <= limit && stats.noops <= limit
            &&& stats.pkts_redundant <= limit && stats.pkts_unparseable <= limit && stats.pkts_lost
                <= limit
        },
        totals.has_room() <==> {
            let limit = 0xFFFF_FFFE_0000_0000u64;
            &&& totals.decoded_blocks <= limit && totals.besteffort_blocks <= limit
            &&& totals.zero_blocks <= limit && totals.redundant_packets <= limit
                && totals.lost_packets <= limit
        },
{
}

/// The percentage is the largest whole one that what came reaches; where nothing
/// was needed, all of it came.
pub proof fn law_fill_is_a_whole_percentage(stats: IntervalStats)
    ensures
        stats.be_syms_needed > 0 ==> stats.filled() * stats.be_syms_needed <= stats.be_syms_rcvd
            * 100 < (stats.filled() + 1) * stats.be_syms_needed,
        stats.be_syms_needed == 0 ==> stats.filled() == 100,
{
    if stats.be_syms_needed > 0 {
        let (a, b, q) = (
            stats.be_syms_rcvd as int * 100,
            stats.be_syms_needed as int,
            stats.filled(),
        );
        assert(q * b <= a < (q + 1) * b) by (nonlinear_arith)
            requires
                q == a / b,
                b > 0,
        ;
    }
}

/// What was on the air is what arrived and what was lost; what arrived is data,
/// needed or not, and stuffing. Blocks and unreadable packets have no part in it.
pub proof fn law_arrivals_and_losses_add_up(stats: IntervalStats)
    ensures
        stats.on_air() - stats.arrived() == stats.pkts_lost,
        stats.arrived() - stats.noops == stats.pkts_ok + stats.pkts_redundant,
{
}

/// A report falls due at the moment at which the interval has passed since the
/// last, and from then on; with an interval of zero it never does.
pub proof fn law_reports_keep_their_interval(interval_secs: u64, last: u128, now: u128)
    ensures
        interval_secs > 0 ==> (falls_due(interval_secs, last, now) <==> last + interval_secs
            * 1_000_000_000 <= now),
        interval_secs == 0 ==> !falls_due(interval_secs, last, now),
{
}

} // verus!
