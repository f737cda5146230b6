# in_memory_network

A simulated, in-memory UDP/IP network with an arbitrary number of nodes, and a workbench that runs
QUIC and UDP traffic through it.

Links have a delay and a bandwidth, nodes have a buffer and routes, and both go up and down as
configured. Packets can be lost, duplicated, delayed and marked. Every step of every packet is
recorded in a replay log, and every node's traffic in a pcap file.

## Layout

- `src/` is the library, verified with [Verus](https://github.com/verus-lang/verus). It never reads a
  clock, sleeps or spawns: each function takes the current time, changes the state that it is given
  and says what has to happen next.
  - `network/` is the network itself. `forwarding.rs` moves packets, `routing.rs` picks links,
    `link.rs` paces them, `accounting.rs` keeps track of what nodes hold, and `event_processing.rs`
    changes statuses. `laws.rs`, `connected.rs`, `traced.rs`, `delivery.rs`, `origin.rs`,
    `repeatability.rs`, `run.rs`, `handling.rs`, `naming.rs` and `pacing.rs` state what holds of a
    network whatever happens in it.
  - `tracing/` is the replay log; `pcap_exporter.rs` and `checksum.rs` build the packets of the pcap
    files.
  - `simulation.rs` and `course.rs` decide what a simulation does, and in which order. `quic/` and
    `udp/` decide what its clients do.
  - `config/` holds the configuration, and `report.rs` the lines that are shown in the end.
- `tests/` drives the library without a runtime.
- `app/` is the command-line application. It reads the configuration, lets time pass and connects the
  library to the QUIC implementation.

Floating point stays in `app/`: the library gets random draws as bit patterns, and the time that a
packet takes to send in nanoseconds.

## Running the application

The application reads `topology.json`, and `events.json` and `traffic.json` if there are such files;
`--help` lists the options. QUIC servers present the certificate in `server.cert.der`, whose key is in
`server.key.der`.
