# malc library

Part of the compiler library of `malc`, the reference compiler of the mal language, written in
Verus: the lexer, diagnostics, core and control lowering, liveness, call forwarding, the editor
index, the checker's type expansion and utilities, and the decisions of source-graph loading.
The parser, name resolution, the rest of the type checker, generic specialization, ANF, closure
conversion, completion lowering and the back ends are not part of it, so the `malc` command
built from `app/` lexes a file but does not type-check or compile it.
Verus proves the contract of every function under `src/` but one: `text::string_from_chars`,
which collects characters into a `String` through the standard library and is trusted.

## Layout

- `source`, `text`, `diagnostic`: source files, spans, line and column lookup, text helpers, and
  the rendering of diagnostics with source excerpts.
- `lexer`: the lexical tokens of a source file.
- `ast`, `resolve`: syntax nodes and the identities that name resolution assigns.
- `check`: the checked program, type names and representability, the expansion of written
  types through aliases, generic aliases and substitutions, exact big-integer arithmetic,
  identity allocation and admission limits for generic specialization.
- `core_ir`: the core program, its host interface, primitive operators, the lowering of a
  checked program to it, and the lowering of a packed build into a builder and its capabilities.
- `closure`: the closure-converted program and structural copies of its parts.
- `control`: lowering to a state machine, liveness of values across states, and forwarding of
  result continuations into tail calls.
- `editor`: the lexical syntax index, the semantic document (occurrences, hover, definitions,
  references, renames), and the index that turns a checked program into such a document.
- `driver`, `cli`: command-line parsing, exit statuses, toolchain options and properties, and the
  decisions of loading a source graph (requirement kinds, cycles, de-duplicated edges and `.c`
  sources).

`app/` holds the command-line program around the library; `tests/` holds the tests.
