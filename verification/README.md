# mywubi

The core of a table-driven (shape-code, Wubi-style) input method, written
in Verus.  The functions under `src/` carry contracts that Verus proves; the
few calls into `std` that vstd does not specify (`String::push`,
`String::pop`, `PathBuf::from`, `PathBuf::clone`) sit in
small trusted wrappers whose contracts state what the documentation says.

- `src/text.rs` – characters, trimming, field and line splitting, decimal
  and hexadecimal numbers, UTF-8 lengths.
- `src/sort.rs`, `src/order.rs` – stable sorting by a total preorder and the
  lexicographic order of codes.
- `src/dictionary.rs` – the code table: the text format with its optional
  settings header, sorting, exact, prefix and wildcard lookup, the
  word-index lookup; `src/table_roundtrip.rs` proves that a written table
  reads back as the same settings and entries.
- `src/state_machine.rs` – the input state machine, specified as a pure
  step function over a model of the machine.
- `src/user_dictionary.rs` – the user's word list: validation, edits, the
  file format and its read-back law, merging with a code table.
- `src/config.rs`, `src/config_path.rs` – the configuration model, defaults
  and checks, and the choice of where the configuration is kept (beside the
  executable first, portable mode).
- `src/front_end.rs`, `src/settings.rs`, `src/tip.rs` – the
  platform-independent decisions of the Windows front end and settings
  program (the table editor, the table directory, save-as names).

`app/` holds the file and directory work around the library (configuration
files, table files and the table editor's files, the user word list on
disk, locating `config.toml`).
