# payback

Settling a network of debts with few transactions.

Every person is a vertex with a weight: negative weights are what a person
owes the network, positive weights what the network owes them. A solution is
a list of transfers `(Edge { u, v }, amount)`, read "`v` pays `amount` to
`u`", such that every person receives, net, exactly their weight.

## Layout

- `src/` — the verified library.
  - `graph` — vertices, the complete directed graph on them, the builders
    from weights, named weights and weighted edge lists, and name lookups.
  - `solution` — what it means for transfers to settle a network, and the
    amounts and counts any settling needs.
  - `probleminstance` — a network to be settled, solvability, the dispatch
    over all solving methods, and the lines of a solution.
  - `approximation` — star expand and greedy satisfaction, both proved to
    settle every solvable network; greedy also moves the least total amount.
  - `exact_partitioning` — every set partition of the vertices, and the
    solver that settles the partitioning with the most zero-sum blocks.
  - `dynamic_program` — the dynamic program over creditor and debtor bit
    masks, with its memo table, the extraction of the blocks it chooses, and
    the proof that it needs no more transfers than any settling.
  - `tree_bases` — zero-sum subsets, and the branching solver, which splits
    the network into the most zero-sum blocks and so needs no more transfers
    than any settling.
  - `optimality` — the components of any settling, and the proof that the
    partitioning solver needs no more transfers than any settling.
  - `partition` — the partition based solver as an instance type of its own.
  - `graph_parser` — the records a graph is read from.
  - `enumerate` — the enumerations taken from `itertools`.
- `tests/` — the test suite.
- `app/` — the command line program: argument parsing, reading CSV input,
  printing transfers or a graphviz graph.

## Trusted items

Three functions are trusted rather than proved: `ordered_pairs`
(`Itertools::permutations`), `powerset_of` (`Itertools::powerset`) and
`decimal_string` (`usize::to_string`). Their doc comments say what is assumed
of each.
