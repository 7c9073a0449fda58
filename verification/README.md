# polydat

A library for data programs: a small language of bindings that is lowered to
a graph of nodes, templates that are filled from its wires, and
comprehensions that say over which tuples a program runs.

- `src/chars.rs`, `src/float.rs`, `src/pcg.rs`, `src/value.rs`: text, doubles
  by their bits, the generator of positions, values and their types.
- `src/document.rs`: JSON and YAML documents, read by `serde_json` and
  `serde_yaml`.
- `src/comprehension/`: comprehensions: sources, cardinalities, orders, the
  program they are compiled to and its interpreter, and the evaluation that
  asks its surroundings for what it cannot know.
- `src/dsl/`: the language: registry, pragmas, bindings, cursors, lowering,
  embedding in a host, and templates.
- `tests/`: tests of the library.
- `app/`: the host side: what is collected at link time, what is serialised,
  and what runs nodes.

Functions state what they return or change in `requires` and `ensures`, over
the views of the types. Laws that relate several functions are public proof
functions whose names begin with `law_`.
