# archsim

Two small computer-architecture tools, verified with Verus:

* `simulator` — a cycle-level model of an out-of-order core with register
  renaming (active list, free list, register map table, integer queue,
  four two-stage ALUs) and precise exceptions. `propagate` advances the
  core by one cycle; its contract is the cycle function `step`.
* `scheduler` — a scheduler for a five-slot VLIW machine (two ALUs, a
  multiplier, a memory unit, a branch unit): dependency analysis, ASAP
  scheduling of a loop program for `loop`, modulo scheduling of its body
  for `loop.pip` (the initiation interval searched upwards from the
  resource bound), register allocation (rotating registers for
  `loop.pip`), stage predication of the pipelined kernel, and output.

Layout:

* `src/text.rs` — trimming, splitting and number parsing on characters,
  and reading a JSON array of strings.
* `src/simulator/` — instruction parsing, core state and the pipeline.
* `src/scheduler/` — IR, parser, dependencies, schedulers, allocators,
  loop preparation and output.
* `tests/` — scenarios and concrete instances of the proved laws.
* `app/main.rs` — the command line: `archsim simulate <in> <out>` and
  `archsim schedule <in> <simple_out> <pip_out>`, with JSON input and
  output.
