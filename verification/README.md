# pipewire_native

A verified core for a native PipeWire client node and a scripted protocol
peer, written in Verus. Every function under `src/` carries a contract that
Verus proves.

- `pod`, `fields`, `wire`, `message`: the POD encoding, ClientNode events and
  methods, message footers, generation tracking and the routing of a
  client's inbound frames to its proxies.
- `frame`, `send`, `recv`: native frame headers and the stream framing with
  descriptor accounting.
- `memory`, `control`: the memory pool (exact-generation resolution) and the
  shared-mapping window arithmetic.
- `activation`, `transport`, `peer`, `port`, `cycle`, `output`: activation
  records, the own transport, downstream peers, IO/chunk records and the
  per-cycle output publication.
- `owner`: the ClientNode session state machine (`apply`, `on_wake`).
- `dispatch`, `runtime`, `fixture`: re-entrant event dispatch and small
  runtime helpers.
- `server`: the deterministic scripted peer's decoding, encoding and step
  logic (`play_step`), the client's Core method encoding and Core event
  decoding.
- `wav`: a RIFF/WAVE parser and looping playback cursor.

`app/` holds the unverified I/O around the library: sockets, memfds and
mappings, eventfds, the client's read-and-route step, the blocking session
loop and the scripted peer's socket loop. `tests/` exercises the library from outside.
