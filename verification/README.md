# clarity_wasm

Runtime support for running Clarity smart contracts compiled to WebAssembly,
verified with Verus.

The library (`src/`) holds the parts of the runtime that decide and compute:

- `value`: Clarity values and their mathematical model.
- `serialization`: the byte format values cross the WebAssembly boundary in
  (a type byte, a two-byte length, the body), with a proof that reading back
  what was written gives the value, for values without tuples (which are not
  read), whose strings are Clarity ASCII or UTF-8, whose lists hold items of
  one type, and whose bodies fit in the two-byte lengths (under 2^16 bytes).
  Tuples hold their entries in ascending order of name, and are written so.
- `values`: the table of values WebAssembly refers to by `i32` pointer, which
  hands freed slots out again.
- `stack`: a stack of values with virtual frames; locals pushed in a frame are
  let go when it ends, and its results stay readable in a result buffer.
- `allocator`: a bump allocator and a buddy allocator for linear memory, with
  proofs that allocating and freeing keep the free space accounted for, that
  every block handed out lies at a multiple of its block size inside the
  memory, and that no two blocks, free or allocated, overlap or share an id.
- `native`, `fold`: the arithmetic of the host functions and the bookkeeping of
  `fold`, on values reached through the table, the stack or memory.
- `stdlib`: 128-bit arithmetic on integers passed as two 64-bit halves, and a
  bump allocator over a fixed arena.
- `runtime`, `host`, `compiler`, `context`: result codes, host function
  signatures, compilation errors and the host's state.

`app/` wires these into wasmtime host functions and builds modules with
Walrus; it is not verified.

The Clarity virtual machine (its parser, analysis and value types) is not
available to this crate: `value` holds the crate's own Clarity values, and
compiling contracts, which needs the parser and analysis, is not part of it.
