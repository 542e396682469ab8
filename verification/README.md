# g2bf

A compiler and an interpreter for a two-dimensional dialect of brainfuck.
The program is a grid of characters; control starts at the top-left cell
flowing right, and the letters `l`, `r`, `u`, `d` turn it. Besides the
usual `+ - . , [ ]`, the tape pointer moves with `< >` (left and right) and
`^ v` (up and down a 2D tape).

Layout:

- `src/` — the verified library (Verus):
  - `grid.rs`: positions, directions, the character grid;
  - `text.rs`: decimal rendering of integers;
  - `nodes.rs`: the node tree, merging of neighbouring nodes, and the
    assembly text of each node;
  - `compiler.rs`: reading the grid into functions, and the whole
    assembly file;
  - `interpreter.rs`: running the grid one instruction at a time over a
    128 by 128 byte tape.
- `tests/` — tests of the library on concrete programs.
- `app/main.rs` — the command line: reads `./program.txt`, then either
  compiles it to `./output.asm` (default, or `compile`) or runs it (`run`),
  reading keys with the `getch` crate.
