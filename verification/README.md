# ergo_proxy_node

An Ergo P2P relay: it accepts inbound peers, dials outbound peers, and forwards
protocol messages between them, with Inv-based request routing and a full or
light mode per listener.

The library (`src/`) is verified with Verus:

- `transport` — the byte cursor, VLQ / ZigZag / short-string encodings, message
  frames (magic, length, blake2b-256 checksum) and the handshake (build, parse,
  measure, validate). Round trips are proved: decoding an encoded frame, reading
  a written VLQ value or short string, and parsing a built handshake give back
  what was written.
- `protocol` — typed messages parsed from and serialized into frames (with the
  round trip proved) and the one-way peer lifecycle.
- `routing` — the Inv table, the request and sync trackers, and the router. The
  router's result is stated exactly for every event, and it is proved that the
  tables only refer to registered peers, that every action targets a registered
  peer, and that a disconnected peer is forgotten everywhere.
- `config` and `node` — the checks on a loaded configuration, the version
  string, and the connection loops' decisions (admission, dialling, back-off).

`app/` holds the program around it: reading the TOML file, sockets and tasks
(tokio), timestamps and session ids, logging, and the latency statistics
(floating point).
