# mcrs_minecraft_worldgen

The integer logic of Minecraft-style world generation, written in Verus and
proved against its contracts.

## Layout

- `src/material/` — surface rules. `proto` holds the rules as a datapack
  writes them; `compile` interns their conditions and compiles them into a
  tape of guards and blocks, proved to give at every position what the rules
  give; `eval` answers the tape at a position and settles whole runs of a
  column at once, proved to agree with walking the tape block by block;
  `bands` is the state machine that fills the clay band table.
- `src/feature/` — decoration. `sort` orders every feature the biomes carry
  into one list per step, or names a feature on a cycle; `placer` holds the
  world's state masks, block layouts, block predicates over a volume, rule
  tests, the environment scan, the depth-first placement machine and the step schedule;
  `placement`, `config`, `tree` and `block_predicate` hold the placement
  filters, ore targets, tree decorators and configuration checks.
- `src/program.rs`, `src/node/`, `src/jmath.rs` — the integer parts of the
  density program: cell lattices, tiling, distance parameters, floor division.
- `src/plan.rs` — planning a fill of the density program: which nodes the
  target needs, in program order, and the buffer slot of each node, proved
  never to hand a node a buffer that is still to be read.
- `src/proto.rs` — the world's vertical extent and the density roots a
  dimension names.
- `app/` — what runs outside the proofs: floating-point sampling, random
  draws, and serde forms of the library's types.
- `tests/` — tests of the library on concrete values.
