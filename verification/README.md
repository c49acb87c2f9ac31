# quipu_math_wasm

Incan knotted-cord (quipu) mathematics as a Verus-verified Rust library.

- `src/knot.rs`: knot types and the digit each knot stands for
- `src/encoding.rs`: `encode_number`, `decode_number`, `checksum`, the
  model of what a knot sequence records, and the round-trip proof
- `src/cord.rs`: `PendantCord` and `CordTree`, whose pendants always carry
  knots in the form `encode_number` gives them (a type invariant)
- `src/arithmetic.rs`: `quipu_add`, `quipu_subtract` and their laws
- `src/corruption.rs`: `detect_corruption` and its laws
- `src/weave.rs`: `weave`, `unweave` and their laws
- `app/lib.rs`: the JavaScript bindings through `wasm-bindgen`
