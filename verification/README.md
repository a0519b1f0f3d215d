# xl

The front end of Forma (formerly XL), a small pure language for data
transformation, written in Verus. The functions of the library are verified
against their contracts. The lowering from syntax tree to abstract syntax
(`Lowerer` in `src/parser.rs`) states, rule by rule, exactly when each node
lowers (`expr_ok`, `binding_ok`, `block_ok` and the predicates around them),
the kind, name and type parameters of each binding, and the shape of what it
builds (`lowered_shape`, `binding_shape`, `block_shape`): each result's
variant and location, its operator, field name and closure parameters, the
text of atoms, bytes and strings, the fields of a Dict, the closure a call
section elaborates to, the expression a contract stands for, and its
subexpressions as the lowerings of the matching child nodes. Decorators are
stated with their callee path and arguments (`decorator_shape`), and a
decorated value as the nesting of their calls around the lowered value,
first decorator outermost, each given the context Dict of its target
(`decorations`, `context_shape`). `parser::parse` is stated as the lowering (`lower_parse`,
`lowering_result`) of a parse of the source whose leaves are the source's
tokens, and fails at or before the first invalid token; the shape of that
parse tree is not itself specified by a grammar.

## Layout

- `src/text.rs`, `src/source.rs`: byte offsets, lines and columns, the source
  database, located diagnostics and their rendering.
- `src/syntax/`: the lossless syntax layer. `scan.rs` holds the byte classes
  shared by the lexers, `tree.rs` the concrete syntax tree built from parser
  events; `xl/` and `json/` each hold a lexer and a recovering parser. Both
  parsers produce trees whose token leaves spell the source exactly.
- `src/parser.rs`, `src/ast.rs`: lowering of the XL tree to the located
  abstract syntax, with escapes, call sections and the earliest diagnostic.
- `src/types.rs`, `src/descriptor.rs`: type graphs and type descriptors,
  their display, assignability and where two types disagree.
- `src/semantic.rs`: the queries of a workspace snapshot (definitions and
  references at a position, exports, types).
- `src/module_id.rs`: module identities, formats, lexical path normalization
  and the decisions of module resolution; `src/manifest.rs`: reading and
  checking a dependency manifest from its JSON tree; `src/json.rs`: JSON
  errors, paths and string decoding.
- `src/value.rs`, `src/bytecode.rs`, `src/lexer.rs`, `src/module.rs`: atoms,
  shapes, native-function descriptions and the error types of the front end;
  `src/core_modules.rs`: the core library's modules, their declaring source
  and the native functions behind their names.
- `app/`: the command line and the file-system side of module resolution.
- `tests/`: the test suite, run against the compiled library.
