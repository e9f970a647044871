# elf_diff

Compares the symbols of two ELF files and reports which symbols were added,
removed or changed in size, as a table or as CSV.

- `src/` is the verified library (Verus): symbol extraction from object files
  (through the `object` and `goblin` crates) and from `nm` output, name
  demangling (through `rustc-demangle` and `cpp_demangle`), the comparison
  itself, and the report (its rows, and CSV through `csv`).
- `app/` is the command-line program: argument parsing, reading files,
  running `nm`, logging, laying the table out for the terminal with
  `comfy-table`, and writing the report.
- `tests/` exercises the library.
