# Soroban Forge

Reusable Soroban smart-contract logic and developer tooling for the Stellar
ecosystem, written in Verus: every operation carries a contract, and the
invariants the contracts promise are proved.

## Layout

- `src/` — the verified library.
  - `escrow`, `vesting`, `multisig`, `dao`, `subscription`, `royalties`:
    each contract as a state machine over plain values. An entry point takes
    the current ledger time where it needs one and returns an `Outcome`: its
    result, the addresses that must authorize it and the token transfers or
    contract invocations the host must make (`effects`).
  - `errors`, `types`, `keyed`: the shared error codes, addresses, time
    windows, and small address-keyed maps.
  - `cli`: the decisions of the developer CLI — contract-name checks, case
    conversions, templates, the cargo / stellar command lines, WASM
    artifact selection and the size budget.
- `app/` — the CLI binary (argument parsing, processes, files) and the
  Soroban contracts that load state from storage, run an operation of the
  library, perform its host calls and store the new state.
- `tests/` — executable tests of the library.
