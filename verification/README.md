# wasm_hooks

Instruments WebAssembly modules for dynamic analysis: every instruction of every function gets calls to
hooks, imported functions that are told where the instruction stands, what it takes and gives, and what
else matters about it. Besides the instrumented module there is a script that hands the analysis what is
known of the module and defines the hooks.

Code that cannot be reached, behind `unreachable`, `br`, `br_table` or `return`, is instrumented like all
other code. Operands may be missing there; a `drop` or `select` that finds no value to tell its type by
counts as one of `i32`. What was on the stack before such code still counts as there, so a `select` whose
noted operands do not fit together is refused there too.

The library in `src/` is written in Verus. Its contracts state the instrumented module in full, and
public proof functions named `law_...` state what holds of instrumentation as a whole.

- `ast`, `ops`: modules, instructions and their types
- `block_stack`, `type_stack`: open blocks and branch targets, types on the operand stack
- `convert_i64`: how 64-bit integers are handed to hooks
- `hook_map`: the hooks, their names, types and definitions
- `static_info`: what is known of a module before it runs
- `trace`: the code that goes in place of each instruction
- `walk`, `emitter`, `add_hooks`: the walk over a function, the writing of its code, the whole module
- `generate_js`, `text`: the script
- `machine`, `machine_lemmas`, `chunk_lemmas`: a model of running code, and how the pieces run in it
- `laws`, `control_laws`: what the code for an instruction does and what it tells the hooks
- `structure_laws`, `layout`: how the code of an instrumented function is laid out
- `program`, `typing`, `program_laws`: a model of whole functions with blocks and branches, that the
  walk knows the types on the stack throughout, and that an instrumented function runs as the
  function did
- `module_laws`: what holds of instrumented modules
- `test_utilities`: helpers for tests on files

`app/` holds what works on files, runs tools and writes JSON.
