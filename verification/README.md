# raptorq_ts

Application-layer FEC for MPEG-TS over DVB-S2 or DVB-S. Wraps a TS stream in
RaptorQ erasure codes, so that the decoder can reconstruct missing packets from
repair symbols. The logic is a library verified with Verus; RaptorQ itself comes
from the `raptorq` crate, whose calls are declared with the contracts that the
proofs rest on.

```
stdin (MPEG-TS)
    |
raptorq-enc ---- stdout (TS-shaped wire) ---- dvbs2-tx
                 or ZMQ PUSH socket

dvbs2-rx ---- stdin (TS-shaped wire) ---- raptorq-dec ---- stdout (MPEG-TS)
```

## Wire format

Each packet of 188 bytes carries one RaptorQ symbol in its payload:

```
[TS header 4][frame type 1][OTI 12][payload ID 4][symbol 163][CRC-32 4]
```

Frame types are `0x01` for data and `0x02` for stuffing. The CRC covers all of
the payload before it.

## Decoder

Blocks come out in order. A block that exceeds the timeout goes out with the
source symbols that came, or as zeros if none of its symbols came and others wait
for it. A packet of the stream that comes damaged is counted as unparseable, and
not as lost.

## Layout

- `src/ts.rs`, `src/crc.rs`, `src/frame.rs`: the TS header, the CRC and the
  frames built on them.
- `src/fec.rs`, `src/codec.rs`: transmission information, payload ids and
  packets; encoder and decoder of one block. The calls into `raptorq` are here.
- `src/assemble.rs`, `src/interleave.rs`, `src/ring.rs`, `src/encoder.rs`,
  `src/writer.rs`: the encoder, from input bytes to paced packets.
- `src/resync.rs`, `src/tracking.rs`, `src/block.rs`, `src/decoder.rs`,
  `src/stats.rs`: the decoder, from wire bytes to blocks in order.
- `src/stream.rs`, `src/delivery.rs`, `src/arrival.rs`, `src/airtime.rs`: what holds
  of the link from end to end, of the decoder's output and of what the encoder
  sends over a run.
- `src/clock.rs`, `src/pid.rs`: times and the PID argument.
- `app/`: the two programs `raptorq-enc` and `raptorq-dec`: arguments, threads,
  standard input and output, ZeroMQ and logging.
