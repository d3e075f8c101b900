# fleets

An inventory engine: it reads YAML, JSON, TOML and INI sources, the output of inventory
scripts, directories of sources and `constructed` configurations into one inventory of hosts
and groups, resolves each host's variables, and shows the result as JSON, YAML or TOML.

## Layout

- `src/` is the library. Every function in it is verified with Verus against a contract over
  a mathematical model of the inventory (`model::InvView`), its variables (`vars`), the
  expression language (`expr`), and the output trees (`output`).
- `tests/` runs the library on concrete inventories, together with the crates it calls.
- `app/` is the `fleets` command: arguments, files, subprocesses, tracing, and floating
  point arithmetic.

## What is trusted

Calls into `indexmap`, `regex`, `serde_json`, `noyalib` and `toml`, and a few functions of
the standard library, stand behind small functions marked `#[verifier::external_body]`. Each
of them names the function it calls and says what is claimed of it. They are in
`src/documents.rs`, `src/regexes.rs`, `src/model.rs`, `src/constructed.rs`, `src/value.rs`,
`src/text.rs` and `src/expr/token.rs`.

## Floating point

The library computes with integers and with the texts of floats. Where an expression needs
the sum, the product or the order of two floats, the evaluation stops with a question
(`FloatQuery`); the caller answers it, adds the answer to a `FloatTable`, and evaluates again.
`expr::questions` shows that no question is asked twice and that an answer changes nothing
that was decided without it.
