# qrust

A quantum circuit simulator with a terminal editor.

- `src/` is the verified library:
  - `gate.rs`: gates, operations and grid cells;
  - `circuit.rs`: the circuit grid, its editing operations (`place_single`,
    `place_cnot`, `clear`), the operation list (`ops`) and `run`, with the
    well-formedness invariant (every CNOT cell paired with its other end)
    and the laws about them;
  - `state.rs`: state vectors over an amplitude type chosen by the caller,
    the traversal that applies single-qubit gates pair by pair, the CNOT
    permutation, and the probability folds; the amplitude arithmetic itself
    is passed in as functions;
  - `bits.rs`: facts about index bits and block arithmetic;
  - `editor.rs`: the editor's key handling as a state machine;
  - `text.rs`: basis-state labels and probability bars.
- `app/` is the terminal program (ratatui, crossterm) and the complex
  floating-point arithmetic (num-complex): gate matrices and norms.
- `tests/` runs the library with complex amplitudes and with exact integer
  amplitudes.
