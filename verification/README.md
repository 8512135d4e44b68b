# valverig-io

Runs an audio chain from a device callback: one closure, mono in and one or
two channels out, with the live input carried from the input callback to the
output callback through a ring primed with one block of silence.

`src/` is the verified library (Verus):

- `ring.rs`: the single-producer, single-consumer ring of samples, with its
  capacity rounded up to a power of two and its two wrapping counters.
- `frames.rs`: `Fold`, which folds an input device's frames to mono and
  hands them to the ring, and `Blocks`, which cuts an output callback into
  blocks for the chain and spreads the result over the device's channels,
  silencing non-finite samples.
- `stream.rs`: the configuration and its checks, the choice of device and
  of stream configuration, the primed ring, and the laws of the live path.
- `devices.rs`: describing what the host offers.
- `error.rs`: what the checks and choices fail with.

Samples travel as the bit patterns of their `f32` values.

`app/` opens the devices through cpal, converts between cpal's types and the
library's, and runs the library from the two callbacks. The ring sits
behind a lock that neither callback waits for: when the other one holds it,
the output callback feeds the chain silence and the input callback drops what
it was handed.
