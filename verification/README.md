# dqir

A compiler backend for a small SSA intermediate representation: text in,
RISC-V machine code out. The library is written in Verus; each stage states
what it computes in its contract, and Verus proves the code against it.

Layout of `src/`:

- `arena`, `types`, `inst`, `function`, `module`: the IR and its index-based storage.
- `lexer`, `parser`: the textual IR, specified token by token.
- `printer`: the text of functions and modules.
- `opt`: constant folding, common subexpression elimination, dead code elimination.
- `regalloc`, `alloc_laws`: liveness, live intervals, linear-scan allocation, and what it guarantees.
- `select`, `riscv`, `emit`: instruction selection, the machine instructions, and their encoding.
- `vm`: an interpreter of the machine code, used to run compiled functions.
- `load_laws`: what the interpreter does with the sequence that loads a 64-bit constant.
- `pipeline`: the stages put together, per function and per module.
- `text`: string helpers.

`app/` holds the command-line driver, the incremental query database, the
executable-memory loader and the benchmarks, which depend on I/O and on the
outside crates `salsa` and `memmap2`.
