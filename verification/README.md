# cronos_ctc

The worldline runtime of the Cronos-CTC chronal stack, written in Verus.

`src/` is the verified library:

- `addr`, `node`, `graph`, `worldline` — spacetime addresses, the
  append-only worldline fabric, its dependency edges (structural acyclicity
  outside declared retrocausal regions), retro-writes, cascade invalidation,
  sealing, pruning and snapshots.
- `compiler` — the chronal DSL front end: tokenizer, recursive-descent
  parser, temporal analysis of epoch crossings and lowering onto the fabric.
- `bridge`, `config` — block classification, device routing with ordered
  fallback, and the configuration sections that feed them.
- `gc`, `checkpoint`, `collect` — retrocausal pins, compression candidates,
  the checkpoint archive and history compaction.
- `agents`, `continuum` — the agent roster and the books of a continuum
  federation.

`app/` is the driver around it: configuration loading, the numeric kernel,
the floating-point subsystems (entropy, collapse scoring, cosmos ticks) and
the phase demonstrations.
