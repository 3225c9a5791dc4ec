# ryzr

A gate-level logic simulator with a multi-layer board editor model, verified
with Verus.

## Layout

- `src/` — the verified library.
  - `circuit`, `entity`: netlists, the builder, and their meaning
    (`signal_value`): every signal settles within a tick from the inputs and
    the register state.
  - `interp`: the reference interpreter every engine is held to.
  - `opt`: netlist optimization (constant folding, CSE, dead-code removal,
    mux strength reduction) that keeps outputs and next states bit-for-bit
    and leaves a normal form that a second pass keeps as it is.
  - `tape`: compilation of a netlist to a levelized, opcode-sorted tape with
    a CSR successor map.
  - `scalar`, `batch`: the one-instance and 64-instance engines over a tape,
    proved to agree with the interpreter.
  - `tile`, `board`, `uf`, `net`, `display`, `lower`, `sim`, `demos`: the
    painted board, net extraction, lowering to a circuit, and the cell-level
    simulator façade.
  - `hud`: the editor's status line, built from live state.
  - `timing`: the timed burst that measures an engine's tick latency.
  - `editor`, `capture`, `bench`: the editor's tools, line painting, key
    bindings and starter canvas; the headless capture sequence; the benchmark
    viewer's maze and tick budget.
- `tests/` — behavioural and unit tests run against the compiled library.
- `app/` — the Bevy editor program around the library: window, camera,
  input, rendering and the status line.
