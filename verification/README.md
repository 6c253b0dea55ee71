# tabasm

A table-driven two-pass cross-assembler. An instruction table names the
target's mnemonics, operand patterns, opcodes and encoding rules; the
assembler reads source text, expands macros, evaluates expressions, encodes
instructions and data, and writes an object file (Intel HEX, MOS Technology,
Motorola S-record or binary), a listing, and optional symbol and export files.

The library in `src/` is verified with Verus:

- `text`, `fmt`: byte-level text helpers and number formatting.
- `limits`: capacities and exit codes.
- `errlog`: diagnostic messages and the `TASMERRFORMAT` layout.
- `expr`: expression evaluation, 32-bit wrapping, in both precedence modes.
- `symbols`, `image`: the symbol table and the 64 KB memory image.
- `macros`: `#define` macros and their expansion.
- `table`, `table2`: the legacy and current table formats (loading, rendering).
- `matcher`, `rules`: matching an instruction to a row and encoding it.
- `object`, `listing`: the object formats and listing lines.
- `cli`: command-line and `TASMOPTS` options.
- `assembler`: the two passes, directives, listing, label tables and paging.

`app/main.rs` is the program around it: arguments, environment, files, and
the exit status. Sources are handed to the library by name; an `.INCLUDE`
the library has not been given is asked for, read, and the run started again.
