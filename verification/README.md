# ui_compiler

A compiler for `.ui` component files, and the host-independent parts of the
runtime the generated code talks to.

A component file declares its imports and properties and describes one root
element with its properties and children. The compiler tokenizes the file,
parses it, checks names, types and the rules on children, and generates a
TypeScript module that builds the component with the runtime's DOM library.

- `src/` is the library, verified with Verus: `tokens` (tokenizer), `parser`,
  `scope` (names and scopes), `checker`, `codegen`, `issue` (diagnostics and
  how they are laid out), `loader` (which files to read, in what order),
  `pipeline` (building components in the order of their imports), `abi`
  (handles, buffers and results at the runtime's boundary with the host), and
  `property` (the runtime's properties and bindings, and how a commit pushes
  changes from parents to the bindings that read them).
- `app/` is the command line: it finds and reads the files the loader asks
  for, prints diagnostics in color, writes the generated modules to
  `./dist`, and with `--watch` rebuilds when a built file changes. It also
  holds the step that packages the runtime compiled to WebAssembly, and the
  runtime's values that carry floating-point numbers (lengths, brushes,
  iterators, wrapped values) with the functions the host calls on them.
- `tests/` exercises the library on concrete inputs.
