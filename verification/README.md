# density_matrix

Density matrices of systems of qubits: starting states, pure states, operators
on some of the qubits, two-qubit gates, products, partial traces, traces and
expectation values. The library is written in Verus, and every function in `src/`
is proved to meet its contract.

- `src/density_matrix.rs` holds the type `DensityMatrix` and its operations.
- `src/matrix.rs` says what the operations compute, entry by entry.
- `src/laws/` proves what holds of the operations together.
- `src/scalar.rs` describes the numbers that the entries are made of. Any type
  with the operations can be used; the laws need one whose operations do not
  round. `src/field9.rs` is such a type.
- `src/parallel.rs` hands work to rayon's threads. Its two functions are the
  only ones whose contracts are taken on trust.
- `app/` puts floating-point numbers in, and shows the states to Python. Its
  number type has no specification, so what is proved is not claimed of it.
