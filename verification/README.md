# sc_transport

A file-transfer and telemetry stack over QUIC whose decision logic is written
in Verus and proved against its contracts.

## Layout

- `src/` — the verified library.
  - Wire formats: `bytes`, `protocol` (control and chunk frames), `descriptor`
    (chunk descriptors, bincode), `event_frame` (telemetry event frames and
    batches), `compression` (zstd pass-through rules), `digest` (BLAKE3).
  - Forward error correction: `erasure` (Reed–Solomon through
    `reed-solomon-erasure`), `fec` (block encoding), `stash` and `pipeline`
    (per-group buffering), `delivery` (what a receiver makes of sender
    frames, and recovery of lost shards).
  - Endpoints: `sender`, `receiver` (ingesting frames, FEC recovery, resume
    and feedback bookkeeping), `reorder`, `schedule` (block scheduling, parity
    planning, multi-timescale clock), `packet`.
  - Operations: `daemon` (transfer queue, records and event replay, request
    interpretation), `known_hosts` (trust-on-first-use pins and their file),
    `cli`, `netprobe`, `batch`, `datagram`, `telemetry`, `transport`, `sizes`.
- `tests/` — tests of the library on concrete values.
- `app/` — the `sct` program around the library: QUIC endpoints, file and
  network I/O, the daemon's HTTP API, serde forms of the control messages,
  and the floating-point parts: the congestion controller, and the adaptive
  sender's path utilities, forecasting and stabilisation (`autopilot`,
  `optimization`, `predictive`), which call the library for every integer
  decision.

Laws of the library are public proof functions named `law_*`; the rest of the
guarantees are the `ensures` clauses of the functions themselves.
