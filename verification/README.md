# ipc_bench

A Windows inter-process communication benchmark suite whose protocol logic is
verified with Verus.

- `src/` — the verified library: command-line configuration and its validation,
  the framed payload protocol (request frames, responder transformation, response
  validation), the SPSC ring's cursor steps and slot arithmetic (with a
  sequential model of the ring proved first-in first-out; the cross-process atomics
  that carry the cursors are not verified), shared-mapping layout and
  attachment checks, windowed and streaming delivery bookkeeping, the
  spin/arm/sleep waiting protocol, processor-topology decoding and placement
  selection, batch layout and report labels, and per-transport rules.
- `tests/` — tests of the library on concrete values.
- `app/` — the runtime around it: processes, environment, timing and statistics,
  JSON/text reports, and the transports themselves (pipes, sockets, mailslots,
  shared memory, raw-sync events, iceoryx2).
