# regvm

A small register machine, verified with Verus.

- `src/binary.rs` — the program image: headers, DATA entries, CODE
  instructions, and a parser from bytes whose result is stated exactly.
- `src/memory.rs` — the typed register file (integer, float, string, boolean
  and character banks), reads and writes, and text conversions of values.
- `src/text.rs` — trimming, decimal and hexadecimal text, integer parsing.
- `src/machine.rs` — loading the DATA entries and the step function of the
  interpreter, which returns what the host must do (print, read a line, open
  a file, do floating-point work).
- `app/main.rs` — the command-line runner: file and console I/O and the
  floating-point operations, around the library.

Doubles are held in the library as their IEEE 754 bit patterns.
