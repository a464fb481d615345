# ferrium

A distributed, Raft-replicated key/value store that speaks RESP2, with its
logic written in Verus and proved against contracts.

## Layout

- `src/` — the verified library.
  - `protocol/` — RESP2 framing (`resp.rs`: a streaming decoder and an
    encoder, proved against a grammar written as spec functions, with the
    round-trip and partial-frame laws), command parsing (`command.rs`) and the
    diagnostic text of frames (`describe.rs`).
  - `raft/` — the replicated log (`log.rs`), messages, per-role bookkeeping,
    the node state machine (`node.rs`), its model as functions on values
    (`model.rs`), the laws proved over the model (`laws.rs`) and over runs
    of calls (`runs.rs`: one candidate per term for a node's granted votes;
    nodes seeded and driven alike stay alike).
  - `storage/` — the storage-engine trait and the in-memory engine.
  - `apply.rs` — applying committed writes to a store.
  - `server.rs` — what the runtime driver does after each turn: messages to
    send, outputs to apply, waiting clients to answer, metrics to publish.
  - `net/client.rs` — how each client command is answered.
  - `metrics.rs`, `config.rs`, `decimal.rs`, `text.rs`, `error.rs`.
  - `sim.rs` — an in-memory cluster for simulation tests. Its view is a
    `SimState`; building a cluster gives `SimState::initial(n, seed)` and each
    step gives `stepped()` of the state before, so a run is a function of the
    size, the seed and the calls made. A seeded node's random draws are named
    by `seeded_draws(seed, ranges)`.
  - `election.rs` — election safety of the simulated cluster: a fresh
    cluster is `safe`, every operation keeps it `safe`, and in a `safe` state
    no two members lead in the same term.
- `tests/` — the test suite, including the simulation scenarios.
- `app/` — the node binary: command-line parsing, the tokio runtime, TCP
  servers, the JSON peer transport and the JSON form of log entries.

Trusted boundaries are kept small and named: each call into `std` or `rand`
whose behaviour Verus cannot see sits in one function marked
`#[verifier::external_body]`, with a doc comment saying what its contract
claims.
