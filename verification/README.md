# audio_gen

The verified core of an audio-graph engine. Nodes compute samples; the
library decides in which order they are polled and keeps the integer
bookkeeping that the sample computation relies on.

`src/` holds the verified library:

- `scheduler`: graph references, single-rootedness, removal of isolated
  nodes, the root, the sequential schedule (a topological order) and the
  layered schedule (each node one layer above its deepest child).
- `generator`: the plan of a sample generator, composed of the above; its
  root sits alone in the last layer.
- `node_signature`, `graph`: node signatures, their equality, and the
  registry that hands out node ids, de-duplicating equal signatures.
- `node`: the wiring of the arithmetic nodes.
- `sequence`: sample intervals, a stable sort, the tracker of the intervals
  playing at each sample index, and the buffer and read plan of a sequence
  node.
- `input_buffer`: the flag and integer rows of an external input buffer.

`app/` holds the floating-point sample computation, the node
implementations, wav input, seeded noise, parallel polling and the
sequencer, built on the library. `tests/` exercises the library.
