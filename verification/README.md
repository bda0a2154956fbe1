# tfm_core

Git-native localization. English is the source text in code; a project keeps a
configuration, the state of every extracted message, and one catalog for each
target locale.

- `src/` is the library, verified with Verus: target locales, creating and
  checking a project, taking over what an analyzer found, planning missing
  translations and taking over a response, choosing an analyzer, and looking up
  texts at run time. It works on values and does no input or output.
- `app/` is the command line: files, YAML and JSON, WASM analyzers, and the
  process-wide runtime with its `t!` macro.
- `tests/` runs the library.

Besides Verus and `vstd`, the library relies on the stated behaviour of
`sha2::Sha256::digest`, `serde_yaml::from_str` and `String::push`.
