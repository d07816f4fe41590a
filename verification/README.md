# schema

A control plane for agents that learn the hidden rules of grid games by
building an executable world model, certifying it against everything observed,
and planning inside it. The library is written in Verus and its contracts are
proved.

- `src/timeline.rs`: the append-only record of real transitions.
- `src/model.rs`, `src/program.rs`: world models; the rule-program interpreter,
  its pretty form and its structural diff.
- `src/backtest.rs`: exact replay of the full history against a model.
- `src/planner.rs`: breadth-first search inside the model: a plan it finds
  reaches the goal in the model and is the first such plan in breadth-first
  order (so none is shorter); when it finds none, every state it expanded is
  accounted for, and no plan exists when the budget was not spent.
- `src/executor.rs`: gated execution of a plan; the first misprediction halts.
- `src/agent.rs`: the observe, deliberate, execute, record loop with the
  backtest gate before planning; its contract follows every cycle: the
  inputs of each deliberation, whether a plan was trusted (a trusted plan is
  the one found by search, and nothing else is sent for it), the actions
  taken, and the misprediction passed to the next cycle as its
  counterexample.
- `src/envs.rs`: each demo environment's record of interactions follows its
  hidden rule.
- `src/deliberators.rs`, `src/demo_provider.rs`: bounded-hypothesis
  deliberators and a scripted provider.
- `src/protocol.rs`, `src/session.rs`: deliberation requests and responses,
  session snapshots and their restoration.
- `src/gateway.rs`: device-pairing records.
- `app/`: the command line, JSON encoding of the records, and the
  provider-driven deliberator.
