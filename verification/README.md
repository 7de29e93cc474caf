# lci_codegraph

A structural code graph out of source files, verified with Verus: the definitions of each file, what
contains what, and what calls what across files. Java files that use Spring also bring their HTTP
routes, the services their Feign clients call, and their repository methods as call targets.

## Layout

- `src/syntax.rs` — a parsed file as plain values: the nodes of a `tree_sitter` tree in document order.
- `src/graph/` — the symbols of one file (`emit`, `callee`), the resolution of calls across files
  (`resolve`), the canonical form of a graph (`canon`), and what holds of them all (`laws`).
- `src/spring/` — what Spring adds to a Java file, and what holds of it (`laws`).
- `src/input/` — the indexer: raw inputs in, chunks, a graph and counters out; and what holds of every
  input and run (`laws`).
- `src/toolkit.rs` — what the indexer leaves to others: languages, parsers, the chunker, the PDF reader.
- `src/model.rs`, `src/order.rs`, `src/text.rs` — the vocabulary and the tools they share.
- `app/` — the graph in a form that serialises, and runs that log what they did.

## What is proved

Every function states what it returns over the values of its arguments, and Verus proves it. The calls
into `tree_sitter` stand behind small wrappers in `src/syntax.rs`, whose contracts are believed: moving a
cursor through a tree, and reading the node it stands on. Of std, three functions are believed:
`String::push`, `str::from_utf8` and, beyond ASCII, `char::is_uppercase`.

The public proof functions state what holds of the library as a whole, among them: the graph is
determined by its files and does not depend on their order; a call gives at most one edge, to a
definition of its own name, and one that gives none is counted; definitions of a call's own file win;
framework facts only add; no edge has a loose end; files pushed again add no node and no edge; a run over
two lists joined is the sum of the runs over each; within a file, ids differ by line or name.
