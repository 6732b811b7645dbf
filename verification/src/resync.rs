//! Finding packets in a byte stream.

use crate::ts::{TS_PACKET_SIZE, TS_SYNC_BYTE};
use vstd::prelude::*;

verus! {

/// The packets in `stream`, and the bytes at its end that are not yet decided.
/// Where a whole packet's worth of bytes starts with the sync byte, it is a
/// packet; where it does not, its first byte is skipped.
pub open spec fn split_packets(stream: Seq<u8>) -> (Seq<Seq<u8>>, Seq<u8>)
    decreases stream.len(),
{
    if stream.len() < TS_PACKET_SIZE {
        (Seq::empty(), stream)
    } else if stream[0] == TS_SYNC_BYTE {
        let (packets, rest) = split_packets(stream.skip(TS_PACKET_SIZE as int));
        (seq![stream.take(TS_PACKET_SIZE as int)] + packets, rest)
    } else {
        split_packets(stream.skip(1))
    }
}

/// What came of a read.
pub enum Found {
    /// Not yet a packet's worth of bytes.
    Nothing,
    /// A packet.
    Packet(Vec<u8>),
    /// A byte was skipped; this many so far.
    Skipped(u64),
}

/// The packet that a read completed, if any.
pub open spec fn packets_of(found: Found) -> Seq<Seq<u8>> {
    match found {
        Found::Packet(packet) => seq![packet@],
        _ => Seq::empty(),
    }
}

/// What a read makes of `bytes`, those pending and those that came: the packet
/// that they are, if any, the bytes left, and how many were skipped.
pub open spec fn read_of(bytes: Seq<u8>) -> (Seq<Seq<u8>>, Seq<u8>, int) {
    if bytes.len() < TS_PACKET_SIZE {
        (Seq::empty(), bytes, 0)
    } else if bytes[0] == TS_SYNC_BYTE {
        (seq![bytes], Seq::empty(), 0)
    } else {
        (Seq::empty(), bytes.skip(1), 1)
    }
}

/// Cuts a byte stream into packets, skipping bytes until a sync byte leads.
pub struct PacketSync {
    scratch: Vec<u8>,
    skipped: u64,
}

impl PacketSync {
    #[verifier::type_invariant]
    spec fn part_of_a_packet(self) -> bool {
        self.scratch@.len() < TS_PACKET_SIZE
    }

    /// The bytes read that are not yet decided.
    pub closed spec fn pending(self) -> Seq<u8> {
        self.scratch@
    }

    /// How many bytes have been skipped.
    pub closed spec fn skipped(self) -> u64 {
        self.skipped
    }

    pub fn new() -> (sync: Self)
        ensures
            sync.pending() == Seq::<u8>::empty(),
            sync.skipped() == 0,
    {
        PacketSync { scratch: Vec::new(), skipped: 0 }
    }

    /// How many bytes the next read may bring.
    pub fn wanted(&self) -> (n: usize)
        ensures
            self.pending().len() < TS_PACKET_SIZE,
            n == TS_PACKET_SIZE - self.pending().len(),
    {
        proof {
            use_type_invariant(self);
        }
        TS_PACKET_SIZE - self.scratch.len()
    }

    /// Whether the count of skipped bytes can take another one.
    pub fn check_room(&self) -> (res: bool)
        ensures
            res == (self.skipped() < u64::MAX),
    {
        self.skipped < u64::MAX
    }

    /// Takes the bytes of one read.
    pub fn accept(&mut self, chunk: &[u8]) -> (found: Found)
        requires
            old(self).pending().len() + chunk@.len() <= TS_PACKET_SIZE,
            old(self).skipped() < u64::MAX,
        ensures
            ({
                let all = old(self).pending() + chunk@;
                if all.len() < TS_PACKET_SIZE {
                    &&& found is Nothing
                    &&& final(self).pending() == all
                    &&& final(self).skipped() == old(self).skipped()
                } else if all[0] == TS_SYNC_BYTE {
                    &&& found matches Found::Packet(packet) && packet@ == all
                    &&& final(self).pending() == Seq::<u8>::empty()
                    &&& final(self).skipped() == old(self).skipped()
                } else {
                    &&& found == Found::Skipped(final(self).skipped())
                    &&& final(self).pending() == all.skip(1)
                    &&& final(self).skipped() == old(self).skipped() + 1
                }
            }),
            (packets_of(found), final(self).pending(), final(self).skipped() - old(self).skipped())
                == read_of(old(self).pending() + chunk@),
    {
        proof {
            use_type_invariant(&*self);
        }
        let ghost pending = self.scratch@;
        let mut all: Vec<u8> = Vec::new();
        let mut i: usize = 0;
        while i < self.scratch.len()
            invariant
                i <= self.scratch@.len(),
                self.scratch@ == pending,
                all@ =~= pending.take(i as int),
            decreases self.scratch.len() - i,
        {
            all.push(self.scratch[i]);
            i += 1;
        }
        let mut i: usize = 0;
        while i < chunk.len()
            invariant
                i <= chunk@.len(),
                all@ =~= pending + chunk@.take(i as int),
            decreases chunk.len() - i,
        {
            all.push(chunk[i]);
            i += 1;
        }
        assert(all@ =~= pending + chunk@);
        if all.len() < TS_PACKET_SIZE {
            self.scratch = all;
            return Found::Nothing;
        }
        if all[0] != TS_SYNC_BYTE {
            self.scratch = vstd::slice::slice_to_vec(
                vstd::slice::slice_subrange(all.as_slice(), 1, all.len()),
            );
            self.skipped = self.skipped + 1;
            return Found::Skipped(self.skipped);
        }
        self.scratch = Vec::new();
        Found::Packet(all)
    }
}

/// `n` is one, two, four, ...
pub open spec fn is_power_of_two(n: u64) -> bool
    decreases n,
{
    n == 1 || n > 1 && n % 2 == 0 && is_power_of_two(n / 2)
}

/// Skipped bytes are worth a warning when their number is a power of two.
pub fn skip_worth_a_warning(skipped: u64) -> (res: bool)
    ensures
        res == is_power_of_two(skipped),
{
    let mut n: u64 = skipped;
    while n > 1 && n % 2 == 0
        invariant
            is_power_of_two(n) == is_power_of_two(skipped),
        decreases n,
    {
        n = n / 2;
    }
    n == 1
}

/// It makes no difference how a stream is cut into reads: what one read gives,
/// followed by what is found in the bytes it leaves and those that follow, is
/// what is found in the whole.
pub proof fn law_reads_do_not_matter(
    pending: Seq<u8>,
    chunk: Seq<u8>,
    found: Found,
    left: Seq<u8>,
    later: Seq<u8>,
)
    requires
        pending.len() + chunk.len() <= TS_PACKET_SIZE,
        ({
            let all = pending + chunk;
            if all.len() < TS_PACKET_SIZE {
                found is Nothing && left == all
            } else if all[0] == TS_SYNC_BYTE {
                found matches Found::Packet(packet) && packet@ == all && left == Seq::<u8>::empty()
            } else {
                found is Skipped && left == all.skip(1)
            }
        }),
    ensures
        split_packets(pending + chunk + later) == (
            packets_of(found) + split_packets(left + later).0,
            split_packets(left + later).1,
        ),
{
    let all = pending + chunk;
    let whole = all + later;
    if all.len() < TS_PACKET_SIZE {
        assert(packets_of(found) + split_packets(left + later).0 =~= split_packets(left + later).0);
    } else if all[0] == TS_SYNC_BYTE {
        assert(whole.skip(TS_PACKET_SIZE as int) =~= later);
        assert(left + later =~= later);
        assert(whole.take(TS_PACKET_SIZE as int) =~= all);
    } else {
        assert(whole.skip(1) =~= left + later);
        assert(packets_of(found) + split_packets(left + later).0 =~= split_packets(left + later).0);
    }
}

/// A packet of this link.
pub open spec fn is_packet(bytes: Seq<u8>) -> bool {
    bytes.len() == TS_PACKET_SIZE && bytes[0] == TS_SYNC_BYTE
}

/// A stream of packets is cut into these packets, with nothing left.
pub proof fn law_aligned_stream_passes(packets: Seq<Seq<u8>>)
    requires
        forall|i: int| 0 <= i < packets.len() ==> is_packet(#[trigger] packets[i]),
    ensures
        split_packets(packets.flatten()) == (packets, Seq::<u8>::empty()),
    decreases packets.len(),
{
    if packets.len() == 0 {
    } else {
        let rest = packets.drop_first();
        assert forall|i: int| 0 <= i < rest.len() implies is_packet(#[trigger] rest[i]) by {
            assert(rest[i] == packets[i + 1]);
        }
        law_aligned_stream_passes(rest);
        let all = packets.flatten();
        assert(all == packets.first() + rest.flatten());
        assert(is_packet(packets[0]));
        assert(all.skip(TS_PACKET_SIZE as int) =~= rest.flatten());
        assert(all.take(TS_PACKET_SIZE as int) =~= packets[0]);
        assert(seq![packets[0]] + rest =~= packets);
    }
}

/// After garbage the stream is found again: bytes in front of it that are no
/// sync bytes cost none of its packets.
pub proof fn law_garbage_is_skipped(garbage: Seq<u8>, stream: Seq<u8>)
    requires
        forall|i: int| 0 <= i < garbage.len() ==> garbage[i] != TS_SYNC_BYTE,
    ensures
        split_packets(garbage + stream).0 == split_packets(stream).0,
    decreases garbage.len(),
{
    let all = garbage + stream;
    if garbage.len() == 0 {
        assert(all =~= stream);
    } else if all.len() >= TS_PACKET_SIZE {
        assert(all[0] == garbage[0]);
        assert(all.skip(1) =~= garbage.skip(1) + stream);
        law_garbage_is_skipped(garbage.skip(1), stream);
    }
}

/// A power of two is two to some power.
pub proof fn law_powers_of_two(n: u64)
    ensures
        is_power_of_two(n) <==> exists|e: nat| n == #[trigger] vstd::arithmetic::power2::pow2(e),
    decreases n,
{
    vstd::arithmetic::power2::lemma2_to64();
    if n > 1 && n % 2 == 0 {
        law_powers_of_two(n / 2);
        if is_power_of_two(n / 2) {
            let e = choose|e: nat| n / 2 == #[trigger] vstd::arithmetic::power2::pow2(e);
            vstd::arithmetic::power2::lemma_pow2_unfold(e + 1);
            assert(n == vstd::arithmetic::power2::pow2(e + 1));
        }
        if exists|e: nat| n == #[trigger] vstd::arithmetic::power2::pow2(e) {
            let e = choose|e: nat| n == #[trigger] vstd::arithmetic::power2::pow2(e);
            assert(e > 0);
            vstd::arithmetic::power2::lemma_pow2_unfold(e);
            assert(n / 2 == vstd::arithmetic::power2::pow2((e - 1) as nat));
        }
    } else if n == 1 {
        assert(n == vstd::arithmetic::power2::pow2(0));
    } else if exists|e: nat| n == #[trigger] vstd::arithmetic::power2::pow2(e) {
        let e = choose|e: nat| n == #[trigger] vstd::arithmetic::power2::pow2(e);
        vstd::arithmetic::power2::lemma_pow2_pos(e);
        if e > 0 {
            vstd::arithmetic::power2::lemma_pow2_unfold(e);
        }
    }
}

/// Reads may be cut anywhere: what one read gives, followed by what the bytes it
/// leaves give together with those that follow, is what the whole gives. No byte
/// is lost: each one is part of a packet, left, or skipped. A packet has 188
/// bytes and starts with the sync byte, and what is skipped is one byte that is
/// no sync byte.
pub proof fn law_one_read_at_a_time(bytes: Seq<u8>, later: Seq<u8>)
    requires
        bytes.len() <= 188,
    ensures
        ({
            let (packets, left, skipped) = read_of(bytes);
            &&& split_packets(bytes + later) == (
                packets + split_packets(left + later).0,
                split_packets(left + later).1,
            )
            &&& packets.flatten() + bytes.take(skipped) + left == bytes
            &&& packets.len() == 1 <==> bytes.len() == 188 && bytes[0] == 0x47
            &&& packets.len() <= 1
            &&& skipped == 1 <==> bytes.len() == 188 && bytes[0] != 0x47
            &&& 0 <= skipped <= 1
        }),
{
    let (packets, left, skipped) = read_of(bytes);
    let whole = bytes + later;
    if bytes.len() < 188 {
        assert(packets + split_packets(left + later).0 =~= split_packets(left + later).0);
        assert(packets.flatten() =~= Seq::<u8>::empty());
        assert(packets.flatten() + bytes.take(skipped) + left =~= bytes);
    } else if bytes[0] == 0x47 {
        assert(whole.skip(188) =~= later);
        assert(left + later =~= later);
        assert(whole.take(188) =~= bytes);
        let rest = packets.drop_first();
        assert(rest =~= Seq::empty());
        assert(rest.flatten() =~= Seq::<u8>::empty());
        assert(packets.flatten() =~= bytes);
        assert(packets.flatten() + bytes.take(skipped) + left =~= bytes);
    } else {
        assert(whole.skip(1) =~= left + later);
        assert(packets + split_packets(left + later).0 =~= split_packets(left + later).0);
        assert(packets.flatten() =~= Seq::<u8>::empty());
        assert(packets.flatten() + bytes.take(skipped) + left =~= bytes);
    }
}

} // verus!
