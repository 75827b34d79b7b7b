# rust_can

A CAN bus library whose behaviour is stated as contracts and proved with
Verus: messages and wire frames, acceptance filters, bit timing, ASC and BLF
log readers and writers, the scheduling decisions of periodic sends, and a
profiler of nested scopes.

- `src/` is the verified library. Each public function states in `ensures`
  what it returns; the proof functions named `law_*` state properties that
  span several functions, such as that an ASC or BLF log written by the
  writers reads back as the events written. `binary64` states IEEE 754
  double rounding over integers, which the ASC timestamps (parsed and
  written as `f64` seconds) are specified and computed with.
- `tests/` runs the library on concrete inputs.
- `app/` holds what the proofs do not cover: adapters, buses and the
  notifier (threads, channels and async tasks), log readers and writers on
  `std::io` sources and sinks, the process-wide switch and per-thread
  state of the profiler, floating-point helpers, payloads as
  `smallvec::SmallVec` and serde forms of the library's types.
