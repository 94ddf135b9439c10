# silverbond

The verified core of SilverBond, a local-first graph workflow runner: the
decisions its scheduler takes over workflow graphs, cursors, split families,
collector barriers, approvals, subflow calls, decide nodes, prompt templates
and tmux pane bookkeeping. The functions in `src/` are proved by Verus
against their contracts; the few calls into `regex`, `serde_json`, `uuid` and
`chrono` stand behind small trusted wrappers whose contracts are stated next
to them (the clock reading that stamps session entries has no contract: its
value rests on the time alone).

## Layout

- `src/` — the library, verified by Verus.
  - `graph`, `routing`, `nearest`, `skip` — workflow graphs: edges, reachability,
    the next edge after a node, the nearest collectors, skip conditions.
  - `cursor`, `lifecycle`, `scheduler`, `resume`, `restart` — cursors and their
    call stacks, splits, subflow calls and returns, dispatch and idle verdicts,
    parallel batches, resuming and restarting runs.
  - `barrier`, `collectors` — collector barriers and what arrives at them.
  - `approvals`, `decide`, `task`, `template`, `bindings` — approval queues,
    decide nodes, the decisions around an agent run, prompt templates, input
    bindings and the items of a parallel batch.
  - `counters`, `results`, `records`, `registry`, `panes`, `candidates`,
    `reaper`, `session`, `naming`, `ids` — run bookkeeping: counters, results,
    logs, the registry of active runs, panes and their cleanup, stale session
    reaping, interactive agent sessions, names and identifiers.
  - `text`, `seqs`, `strset` — verified string and sequence helpers.
- `tests/` — tests of the library.
- `app/` — the ordinary Rust around it: serde wire forms of the library's
  types, executable lookup on disk, and panic payloads.
