# spinel_vm

The core of a Ruby virtual machine, written in Verus: every function in `src/`
has a contract that Verus proves.

## Layout

| Where | What |
|---|---|
| `value.rs`, `double.rs` | a Ruby value as one tagged word; doubles as bit patterns |
| `heap.rs` | objects, handle scopes, and a mark and sweep collector |
| `class.rs`, `mixin.rs`, `boot.rs`, `kernel.rs`, `exception.rs` | the class table, ancestors, method lookup, and what a booted heap holds |
| `shape.rs`, `shared/`, `method.rs`, `regexp.rs`, `callcache.rs` | tables: shapes, symbols, bodies, patterns, inline caches |
| `bignum.rs`, `text.rs` | integers of any size, numbers and bytes as text |
| `ast.rs`, `compile/` | the syntax tree, and its lowering to code |
| `bytecode.rs`, `interp/` | code, and the machine that runs it |
| `app/` | what is taken from the process: the platform, the floating-point unit, the shared tables |

## How it is stated

A heap is seen as a `HeapModel`: a map from addresses to objects, the roots, and
the tables. An object that the roots reach is still there after any operation,
with what it held. The compiler's contract is `compile/lower.rs`, which says for
each construct what code it becomes; the interpreter's is `interp/step.rs`,
which says for each instruction what state it leads to. What holds across
functions is stated as a proof function named `law_...`.

Floating-point arithmetic is not part of the library. It is asked of a value
that implements `double::Floats`.
