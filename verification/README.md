# rtc_sctp

Building blocks of an SCTP association, written and proved in Verus.

- `serial`: serial number arithmetic on TSNs and stream sequence numbers.
- `queue::payload_queue`: chunks that are in flight or wait for a gap to close,
  with duplicates, gap reports and an index of abandonable fragments.
- `queue::pending_queue`: messages that wait to be sent, ordered and unordered.
- `association`: set-up, FORWARD-TSN and the bundling of DATA chunks.
- `octets`, `fx_map`: what is taken on trust of the `bytes` and `rustc-hash`
  crates.

Each queue has a model (`*_model`), in which the contracts of its operations are
written, and laws (`*_laws`) that hold of every queue.
