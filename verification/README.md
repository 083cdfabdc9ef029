# cs2-analysis-engine

Read-only analysis of x86-64 module files and `cs2-dumper` output: section
listing, signature scanning with `??` wildcards, disassembly annotated with
dumper symbols, symbol listing, and discovery of the game's processes and
Steam library folders. Nothing attaches to or writes to a running process.

## Layout

- `src/` is the library, written in Verus and verified:
  - `text.rs`: whitespace splitting and trimming, ASCII case folding,
    lexicographic order of strings.
  - `number.rs`: decimal and `0x` hexadecimal `u64` parsing.
  - `pattern.rs`: byte signatures with wildcards and where they match.
  - `image.rs`: a module's section table (read with `object`), the section
    list, reads at virtual addresses, and signature scanning.
  - `disasm.rs`: disassembly (decoded with `iced-x86`) with spaced hex
    encodings and symbol annotations.
  - `symbols.rs`: dumper JSON (read with `serde_json`), module filtering,
    ordering, and symbol maps.
  - `environment.rs`: selection of `cs2.exe` processes and parsing of
    `libraryfolders.vdf`.
- `app/` is the command-line program: argument handling, file reading,
  process listing with `sysinfo`, and text or JSON output.
- `tests/` exercises the library on concrete inputs.

Each public function states its result in its `ensures`; the `law_*` proof
functions state properties that span calls, such as that a scan reports
exactly the offsets where the signature matches.
