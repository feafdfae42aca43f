# odis_fca

Formal Concept Analysis over cross tables, verified with Verus, and the
`odis` Python module built on it.

- `src/` is the verified library. A formal context is modelled by
  `context::ContextView` (names, and one set of attribute indices per object);
  the executable `FormalContext` keeps each row in a `bit_set::BitSet`, whose
  operations go through the trusted wrappers of `src/bitset.rs`.
  - `context`, `concepts`, `neighbor`: derivation operators, closures, all
    concepts and iceberg concepts (in lectic order of their intents, so
    every listing of them is the same list), upper neighbours.
  - `lectic`, `closure`, `basis`: the lectic order, NextClosure, and the
    canonical (Duquenne–Guigues) basis, proved to list exactly the
    pseudo-intents, to be unique and to be a smallest complete list.
  - `exploration`: attribute exploration as a state machine; the caller
    answers each question by accepting it or by naming a counterexample.
  - `labelset`, `concept`, `implication`: the collections handed to callers,
    with Python-style indexing and slicing.
  - `api`, `titanic`: the name-addressed context with its guard against
    changes while lazy generators are alive.
  - `cxt`: reading and writing the Burmeister `.cxt` format, with a proved
    round trip.
  - `drawing`, `poset`: what a drawing starts from (algorithm and size checks,
    covering edges, reduced labels, SVG escaping) and acyclicity of a poset.
- `tests/` runs the library on concrete contexts.
- `app/` is the PyO3 module: argument conversion, file I/O, the exploration
  loop around a Python callback, and SVG rendering of floating-point layouts.
