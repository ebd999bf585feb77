# nats-server-rs

A NATS Core server whose logic is verified with Verus.

- `src/` is the library: the parser, subject matching, the registry, fan-out, the outbound
  queues, keepalive, the options, and the tools that drive a server from outside. Every
  function states what it does over mathematical models, and Verus proves it.
- `app/` is the program around it: sockets, timers, signals, files, and the benchmarks.
- `tests/` runs the library, with the real buffer and JSON crates linked.

Where to start reading:

| Module | What it models |
|---|---|
| `proto` | `run`: what a byte stream means, whatever pieces it arrives in |
| `subjects` | which filters are legal, and what they match |
| `routing`, `fanout` | who listens, and who gets a message |
| `client` | one connection: its options, its subscriptions, and what waits to be written |
| `server`, `loops` | what each command, error, probe and write does to the whole |
| `laws` | what holds of the server as a whole |
| `config`, `net`, `info`, `nuid` | options, addresses, the greeting, identifiers |
| `reader`, `arena`, `buf` | buffers, and what is believed of the `bytes` crate |
| `json` | what is believed of `serde_json` |
| `wire`, `flood`, `harness`, `allocstats` | clients, load, launching and reporting |
