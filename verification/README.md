# qsv_core

A quantum statevector simulator whose index arithmetic, kernels, circuit handling, fusion
planning and sampling structure are verified with Verus.

Statevector simulation is memory-bandwidth-bound: every gate is one streaming pass over the
`2^N` amplitudes. The kernels therefore differ in how they walk the state (bit-shifted pair
indices, nested blocks, gather/scatter blocks, reshaping); the library proves that each of them
computes, for every amplitude, the right row of the matrix applied to the right column of
inputs, so all of them agree with the reference kernel.

## Layout

- `src/` — the verified library.
  - `layout.rs`: bit-index arithmetic (inserting zero bits, gather/scatter of sub-indices,
    masks, sorting positions) and the tiling laws the kernels rest on.
  - `state.rs`: the Structure-of-Arrays statevector.
  - `gate.rs`: dense gate matrices and the index structure of controlled and swap gates.
  - `circuit.rs`: checked circuits.
  - `backend/`: the reference, bit-shift, CPU (nested blocks, diagonal, multi-qubit blocks),
    reshape and SIMD-front backends. Kernels are generic in the scalar type; the caller supplies
    the arithmetic of one gate row (or one diagonal entry) as a closure.
  - `fusion.rs`, `compose.rs`: greedy gate fusion and the composition of a group's matrices.
  - `circuits.rs`: the SplitMix64 generator and the GHZ, QFT and random circuit layouts.
  - `sample.rs`: the alias table's buckets and the parity signs of Pauli-Z expectations.
- `app/` — the command-line runner and everything floating-point or threaded: complex numbers,
  the library of standard gates, the `Backend` trait over complex gates, rayon-parallel block splitting,
  SIMD kernels, the CUDA backend, sampling draws and reductions.
- `tests/` — the test suite, run against the library with ordinary Rust scalars.
