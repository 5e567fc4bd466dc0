# lenso_terminal

Terminal command composition for Lenso products, as a Verus-verified library.

- `src/contract.rs`: the wire shapes of the command provider and terminal
  command roles, with their mathematical views.
- `src/catalog.rs`: validation of the catalog one provider advertises.
- `src/runtime.rs`: the aggregate runtime's decisions: composing the
  providers' catalogs into one routed catalog, answering catalog requests,
  routing execution requests, and checking what providers stream back.
- `src/cli.rs`, `src/clap_bridge.rs`, `src/parse.rs`, `src/accept.rs`: the
  catalog-driven command line: which arguments target the catalog, the command
  tree, the description handed to clap, and the argument envelope of a parsed
  command.
- `src/json.rs`, `src/text.rs`: JSON checks and rendering through serde_json,
  and text helpers.
- `src/laws.rs`: properties that relate several operations.
- `app/`: serde wire shapes, errors with `Display`, and the asynchronous drivers
  of the runtime, around the library.

`tests/` exercises the library on concrete catalogs and command lines.
