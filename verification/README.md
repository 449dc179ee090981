# crsec_simulation

Emergence of social norms in a society of generative agents (the CRSEC norm
life cycle: creation, spreading, evaluation, compliance), with its decision
logic verified in Verus.

- `src/` — the verified library. Each life-cycle step is split into the
  prompt it needs (a pure function of the state) and the update a model
  reply causes (from state and reply to the next state); the model call
  itself is left to the driver. Modules: `text` (string specifications and
  helpers), `config`, `norm`, `parse` (lenient `KEY: value` replies),
  `prompts`, `world` (state, canonical norm identity, canonicalizer),
  `mechanisms` (the steps, long-term synthesis, convergence, and the laws of
  spreading, synthesis and convergence), `metrics` (adoption and diversity as
  counts), `reproduce_mock` (the scripted replies of offline runs),
  `simulation` (initial profiles), `reproduce` (run shapes), `cli` (list
  arguments).
- `tests/` — unit and scenario tests, including a whole society driven by
  the scripted replies.
- `app/` — the `crsec` binary: command line, the socsim engine loop, the
  cached model client, floating-point rates and the CSV/JSON writers.
