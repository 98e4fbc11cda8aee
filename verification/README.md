# mt_rudp

A reliable transport over UDP with three channels. Packets go unreliably,
reliably (sequence numbers, acknowledgements, resends, in-order delivery
through a reorder buffer), or in chunks that the receiver puts back together.

- `src/` is the verified library: the wire format (`wire`, `send`), the
  sending state (`send`), the receiving state machine (`recv`), its model
  over plain values (`model`), and the laws that tie sender and receiver
  together (`laws`). Verus proves the library's own functions against
  their contracts. Five small functions are trusted rather than proved: the
  four wrappers in `wire` around byteorder's big-endian reads and writes, and
  the one in `error` that builds an `UnexpectedEof` I/O error. Their doc
  comments say what their contracts claim.
- `app/` is the asynchronous shell: sockets, timers, locks and the client
  program. It hands the library events, performs the sends that the library
  asks for, and hands back how each acknowledgement send went.
- `tests/` runs the library on concrete datagrams.
