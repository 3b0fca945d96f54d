# audio_engine

The core of a real-time audio engine, verified with Verus.

- `src/data_types`: ticks and exact beats, the audio and playback contexts,
  hardware configurations, event slots and the size of data on a node port.
- `src/graph`: the node graph. Nodes are kept by id with the source of each
  input; sorting yields an order in which every node follows the nodes it
  reads (or names a node on a cycle), and preparing plans every buffer that
  processing reads and writes. `graph/automation` holds the cursors that find
  the keyframe or gradient that applies at a sample.
- `src/node`: the interface that nodes offer to the graph, the ports of a
  node as plain values, the audio output node, and the index arithmetic of
  automation tracks.
- `src/mixer`: tempo events and the tempo map in samples, with whole-number
  tempos: where each event starts, where a tick falls, and how a range of
  samples splits at tempo changes.
- `src/thread`: the decisions of the audio thread for each command, of the
  output callback for the playhead, and of the export for its blocks.

`app/` holds what runs around this core: reading WAV files, the floating-point
parts of timing and automation, running nodes on raw buffers (the graph holds
their ports, and each node sits beside it under the same id), mixing tracks,
and the threads that talk to the output device.
