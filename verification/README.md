# sms

A bytecode compiler and virtual machine for a small dynamically typed
scripting language (variables, blocks, `if`/`while`/`for`, functions and
calls, and a garbage-collected heap of strings, closures, classes and
instances), verified with Verus.

## Layout

- `src/scanner.rs`: the scanner; `Scanner::scan` returns exactly the token
  that the spec function `next_token` describes.
- `src/parser.rs`, `src/compiler.rs`: the single-pass compiler from tokens
  to the instructions of `src/chunk.rs`.
- `src/gc.rs`: the mark-and-sweep heap. A collection keeps exactly the
  objects that a marked object reaches.
- `src/table.rs`: the name-to-value tables of globals, fields and methods.
- `src/vm.rs`: the machine. `Vm::step` runs one instruction and states its
  effect; the machine hands the host what it cannot do itself (printing,
  arithmetic on floating-point numbers, functions of the host) as an
  `Action`, and `Vm::run` runs steps until one needs the host.
- `src/debug.rs`: listings of chunks.
- `src/text.rs`: decoding of byte strings into text.
- `app/main.rs`: the command-line program: it reads a file or a prompt,
  parses number literals, computes with floating-point numbers, and prints.
- `tests/`: tests of each module.
