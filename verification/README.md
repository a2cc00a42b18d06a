# flowsketch

Approximate network telemetry with fixed memory: mergeable sketches over
packet headers, a query planner with explicit memory and error budgets, and
the exports, agent and gateway around them. The library is written in Verus:
Verus checks all of `src/`, and what a function returns or changes is stated
in its contract and proved.

## Layout

- `src/hash.rs`, `src/snapshot.rs`, `src/bytes.rs`, `src/text.rs`: the hash
  family, the snapshot format, byte and text encodings.
- `src/algos/`: Count-Min, Count-Sketch, SpaceSaving, Misra-Gries,
  HyperLogLog, a map of HyperLogLogs, KLL, and exact counters.
- `src/event.rs`, `src/field.rs`, `src/pcap/`, `src/ebpf/`, `src/synth.rs`:
  flow events and where they come from.
- `src/ir/`, `src/planner.rs`: queries and their physical plans.
- `src/prometheus.rs`, `src/otel/`, `src/net/`: exports.
- `src/agent/`, `src/gateway/`, `src/cli/`: what the programs decide.
- `app/`: threads, sockets, files, floating point and the command line.

## Conventions

- A type with content has a view, a mathematical value that contracts speak
  of; a type with an invariant has `wf`.
- `law_*` proof functions state what holds across calls: what a merge keeps,
  what a snapshot gives back, what no operation exceeds.
- Floating point stays out of the library. A number that is only carried or
  compared is held as its IEEE 754 bits (`Float64`).
- Work that alternates with the outside world is a state machine: `step` takes
  what came of the last action and names the next one.
- `#[verifier::external_body]` marks the few standard-library calls whose
  contracts are believed.
