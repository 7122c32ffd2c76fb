# settings

A store of strongly-typed settings that are defined via multiple JSON files: a default settings
file, a user settings file, and the settings files of directories. Each setting combines the
contents of the files that apply at a path, least specific first.

The library is written in Verus. Every function states what it does in a contract, over the model
in `src/model.rs`. `src/laws.rs` and `src/histories.rs` prove what holds of the store as a whole.

- `src/store.rs`: the store, and how each file is read and replaced
- `src/reload.rs`: loading the values of one setting anew
- `src/setting.rs`: the `Setting` trait, and the loaded values of one setting
- `src/model.rs`: the mathematical model of a store
- `src/laws.rs`: properties of the store and of the JSON merge
- `src/histories.rs`: properties of several calls and of their order
- `src/json.rs`: JSON values and their merge
- `src/parse.rs`: the members of a settings file, read with `serde_json`; the only trusted code
- `src/path.rs`, `src/path_map.rs`, `src/order.rs`: paths, maps sorted by path, and their order
- `app/`: a store keyed by Rust types, with serde for file contents and values
- `tests/`: tests of the library
