# util

A verified library of string and flow-network algorithms and of the programs
built on them, written in Verus.

- `src/strings.rs`: Z-function and prefix function, with their specifications.
- `src/capacity.rs`, `src/graph.rs`: capacities (finite or unbounded) and a
  flow network with augmenting paths, maximum flow and reachability; the
  maximum flow is proved equal to the capacity of a minimum cut.
- `src/grid.rs`: sums over ranges and grids used in the proofs.
- `src/task_*.rs`: one module per program, each with a `solve` function whose
  contract states what it computes.
- `tests/`: tests of the library.
- `app/main.rs`: the command-line front end, `app <letter>`, which reads a
  program's input from standard input and prints its answer.
