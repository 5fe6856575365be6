# banjoc

Banjo is a small graph language: a program is a set of nodes (literals,
operators, variables, functions and calls) wired together by their inputs.
This crate compiles such programs to bytecode and runs them on a stack-based
virtual machine, with every step stated in Verus contracts and proved.

## Layout

- `src/banjo/` — the Banjo pipeline:
  - `ast.rs`: programs, their nodes, the arity of each function definition and
    the roots of the graph; `source_check.rs` checks a program before it is
    compiled (distinct ids, no loop among the inputs reached from a root or a
    definition, inputs that can be compiled);
  - `compiler.rs`, `func_compiler.rs`, `chunk.rs`: compiling nodes into the code
    of functions, in the order of their dependencies; the effect of each step
    is a spec function over plain values (`node_step`, `visit_step`,
    `compile_step`, ...);
  - `vm.rs`: the virtual machine. `step` carries out one instruction (its
    effect is `step_spec`), `run` carries out instructions until one needs the
    caller and is proved to end. Numbers are a type parameter: the machine
    hands arithmetic on them, adding values and native functions back to its
    caller. Adding values (`Value::add`, whose result `sum_of` states) and the
    native functions `sum` and `product` (`native_functions.rs`) are the
    library's too; the caller passes in how numbers add, multiply and are
    written out;
  - `gc.rs`, `obj.rs`, `value.rs`, `output.rs`, `error.rs`, `op_code.rs`: the
    heap, its objects, values, the values and errors a run reports.
- `src/gc.rs`, `src/table.rs`, `src/obj.rs`: the string collector with its
  intern table, an open-addressing hash table keyed by heap strings.
- `src/scanner.rs`, `src/parser.rs`, `src/graph_compiler.rs`, `src/stack.rs`:
  a scanner and parser for the DOT-like text form of graphs, the scopes of a
  graph compiler, and a fixed-capacity stack. `scanning_reaches_the_end` states
  a whole run of scanning.
- `src/chunk.rs`, `src/disassembler.rs`: the chunks of the stack machine of the
  graph language, and their listings, whose text `instruction_line` states.
- `app/`: the command-line front end. It reads programs as JSON, runs them, and
  does the floating-point work the machine hands back.
- `tests/`: tests of the library.
