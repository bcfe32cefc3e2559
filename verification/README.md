# tinyhivemind_verified

Completion-driven episodes over a desk of bound agents, verified with Verus.

A host opens an episode with the seats that received its first work, runs
them in bounded rounds, and hands every row it durably commits to the
driver. The driver folds each row into caller-owned, resumable state and
proposes what the host does next: run the seats a broadcast was routed to,
deliver a private message, or hand a queued handoff to a seat that came free.

## Layout

- `src/completion.rs` — the completion fold: who owes work, what a completion
  or an assignment records, and when an episode is complete.
- `src/graph.rs`, `src/routing.rs` — the validated one-desk hive graph, the
  plain values a router is asked and answers, and private routes.
- `src/driver/` — the driver: setup and resume (`setup.rs`), the fold of one
  row as values (`step.rs`) and in code (`fold.rs`, `broadcast.rs`), pending
  rounds (`round.rs`), the brief a seat is shown (`brief.rs`), and the laws
  that hold across operations (`laws.rs`, `ordering.rs`, `floor.rs`,
  `resumable.rs`).
- `src/ledger.rs`, `src/keyed.rs` — queued handoffs, budgets, open questions
  and what the host reported, over a sorted string-keyed map.
- `src/server.rs`, `src/render.rs`, `src/reply.rs` — request framing, seat
  capabilities, the vocabulary rendered as tool definitions, and what the
  loopback tool server answers each request.
- `src/error.rs` — every refusal, and the text each one reads as.
- `app/` — the unverified edge: serde wire forms, the async routers a
  broadcast is put to, and the tokio loopback server's sockets.
- `tests/` — behaviour tests against the library.
