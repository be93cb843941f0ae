# telemutter

A fixed-frame telemetry envelope for constrained targets, verified with Verus.

Every frame of `X` bytes is `VFT (1) | schema lane (S) | payload (X - 1 - S)`.
The schema lane multiplexes a schema stream (a CBOR definite-length byte
string) alongside the payload, so a receiver discovers the wire format without
out-of-band configuration. A start frame carries the schema identifier (SID8 or
SID32, the low byte or the whole CRC-32/IEEE of the stream); the receiver
reassembles the stream within byte and frame budgets and installs it only when
its CRC matches the SID. The receiver keeps the stream in a caller-sized
`[u8; N]` buffer and the library does not allocate.

- `src/` — the verified library: frame parsing and writing, length discovery,
  the receiver state machine, and the laws proved of them (write/parse
  round trips, installed schemas are authentic, errors and oversized totals
  abort, the active SID follows the latest accepted start frame, a clean epoch
  converges).
- `tests/` — the envelope test vectors and adversarial wire scenarios.
- `app/` — the host entry point that runs the embedded start-up self-checks.
