# Soroban Upgrade Safeguard

Compares the interface of a deployed Soroban contract with the interface of a
proposed upgrade and reports what the upgrade would break: removed or changed
functions, struct fields that moved, vanished or changed type, enum cases whose
values changed, and the types whose storage layout breaks because they embed a
broken type.

The comparison logic is written in Verus and proved against its contracts.

## Layout

- `src/model.rs`: the interface model (types, functions, structs, enums,
  unions) and its mathematical views.
- `src/contract.rs`: `ContractSpec`, the interface of one contract, with
  distinct names per kind.
- `src/text.rs`: decimal rendering, event-name detection and string order.
- `src/mapper.rs`: type rendering, member dependencies and the reverse
  dependency graph (`LayoutMapper`).
- `src/finding.rs`: severities, findings and the exact wording of each one.
- `src/diff.rs`: the comparison itself, cascade detection, and its first
  laws as proof functions.
- `src/laws.rs`: laws over whole reports: severity by category, which
  findings name a type and that the type exists, additive upgrades are
  safe, and removals one way are additions the other way.
- `src/parser.rs`, `src/loader.rs`: reading WebAssembly custom sections and
  XDR interface entries through `wasmparser` and `stellar-xdr`.
- `app/`: the command-line program (file reading, argument handling, report
  printing and JSON output).
- `tests/`: tests of the library on concrete interfaces and modules.
