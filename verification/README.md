# elf_reader

Reads ELF files with DWARF debug information and fills a registry of measurement and calibration
objects: events, calibration segments, variables with their types, and metadata.

The library in `src/` is written in Rust and verified with Verus. Every function states in its
contract what it returns or changes; the proof functions whose names begin with `law_` state what
holds of several functions together.

- `object_file`, `dwarf_file`, `demangle`, `filter`, `variable_map`: what comes from the crates
  `object`, `gimli`, `cpp_demangle`, `regex` and `indexmap`
- `dwarf`: from the entries of the debug information to variables and names of types
- `debuginfo`, `report`: the debug information of a program, and its description as text
- `registry`: the registry, as plain values
- `types`, `variables`, `segments`, `events`, `metadata`, `elf_reader`: what is registered
- `text`, `bytes`, `name_map`: strings, bytes and maps by name

`app/` opens and maps files, prints and logs, and carries what the library registers over into the
registry of a target.
