# cegar_fix

A verified library of the structural analyses and cycle-patching steps used by
a Hamiltonian-cycle solver: degree-2 chain contraction records, tour checks,
hub detection and hub-based cycle patching, matching and 2-opt patchers,
iterated local search over cycle families, modular decomposition, gadget
modules and dual channels, satellite modules, hub clusters, two-vertex
separators, the ring of elementary gadgets, and the discovery of 2-opt and
3-opt swaps between cycles; and, for the alternating pair search, the pair
graph, its propositional encoding and the judgement of each satisfying
assignment (a tour, or clauses that cut its subcycles off).

Layout:

- `src/` — the library, written in Verus; every function carries a contract
  that Verus proves.
- `tests/` — ordinary Rust tests of the library.
- `app/` — a command-line front end that reads a DIMACS edge list and reports
  what the analyses find, and the solve loop of the alternating pair search,
  which hands the library's clauses to the SAT solver and the solver's
  assignments back to the library.

The other SAT-based solving stages are not part of this library.
