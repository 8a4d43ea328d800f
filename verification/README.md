# macro_workshop

Three procedural macros, with their logic verified by Verus:

- `#[derive(Builder)]` generates a builder type with one setter per field,
  `Option` fields left optional, and `#[builder(each = "name")]` vector
  fields filled one item at a time.
- `seq!(N in a..b { ... })` repeats its body for each value of `N`, turns
  `name # N` into one identifier ending in the value, and repeats only the
  `#( ... )*` section where there is one.
- `#[sorted]` checks that an enum's variants are in order, and `#[check]`
  does the same for the arms of each `#[sorted]` `match` in a function.

Layout:

- `src/` is the verified library. The macros' inputs are plain models (token
  trees with span handles, or the parts of a syntax tree that a macro
  reads), and every public function states exactly what it generates or
  which error it reports. `text` holds the character-level helpers
  (ordering, decimal printing, parsing of `u64`), `tokens` the token-tree
  model, and `seq_macro`, `sorted_check` and `builder` the three macros.
- `app/` converts between compiler tokens (`proc_macro2`, `syn`) and the
  models, and turns the library's plans back into tokens with `quote`.
- `tests/` runs the library on inputs parsed with `syn`.
