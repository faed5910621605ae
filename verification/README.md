# zkie_core

Chips, an instruction assembler and program circuits over the BN254 scalar field, for proving
fixed-point inference, written and verified in Verus.

- `src/` is the library. A chip declares its constraints on a `ConstraintSystem` (`plonk.rs`)
  and lays its rows out on a `Layouter` (`layout.rs`), which records regions, cells, selectors
  and copy constraints. Contracts speak of the layout twice: whatever satisfies it has the
  chip's relation in its cells, and the values that the chip itself records satisfy it. Rules
  that a row does not turn on hold there too, once the tables are loaded.
  - `field.rs`, `prime.rs`, `field_convert.rs`: field elements, the primality of the order, and
    signed integers as field elements.
  - `fixed_point.rs`, `tensor.rs`, `isa.rs`: numbers with eighteen decimals, tensors and
    instructions.
  - `chips/`: range checks, elementwise operations, division, dot products, sums and means,
    lookups, activations, normalizations, embeddings and Poseidon commitments to tensors.
  - `assembler/`: programs over registers, what they compute, and their layout.
  - `program_circuit/`: the circuit of a program, its public values, and the bytes that identify
    its shape. The shape decides the layout: `laws.rs` proves that witnesses do not.
- `tests/` runs the circuits through the mock prover of `halo2_proofs`, and proves and verifies
  some of them with KZG commitments in `halo2-axiom`.
- `app/` replays recorded layouts into `halo2_proofs` and builds lookup tables from floating
  point.
