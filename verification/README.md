# multiproxy

A port forwarder for TCP, UDP, TCP with a PROXY v2 header, and a stand-alone
game status responder, with its logic verified in Verus.

`src/` is the verified library:

- `text`: characters of a string, trimming, searching, splitting, and the
  decimal form of 16-bit numbers, each specified over `Seq<char>`.
- `endpoints`: port lists (`80,443,8000-8002`), `host:ports` endpoints and
  the pairing of binds with targets; errors say exactly which text was refused.
- `args`: `--name value` options and the forwarder kind.
- `varint`, `status`, `session`: the status exchange, its packets and its
  state machine, with the answer to a well-behaved client proved end to end.
- `proxy_header`: the PROXY protocol v2 header.
- `pipe`: the decisions of a byte pipe.
- `udp`: the table of UDP clients with inactivity timeouts.

`app/` holds the sockets, threads and logging around it; `tests/` runs the
library on concrete values.
