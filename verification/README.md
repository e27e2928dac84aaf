# lib: a verified clause-learning SAT solver

A small CDCL-style SAT solver for problems in DIMACS CNF form, written in Verus.

- `src/util.rs`: literal helpers.
- `src/implication_graph.rs`: the implication graph, one node per assigned variable, with
  conflict analysis that finds the decisions behind a falsified clause.
- `src/sat_solver.rs`: the solver. Clauses hold at most three literals; longer ones are
  stored as a chain of such clauses with new variables. `solve` walks the clauses from the
  last to the first, propagating, deciding, and learning a clause at each conflict. Its
  contract relates the final state to the start by a run of search steps, and states that both
  answers are sound.
- `src/parser.rs`: reading a DIMACS text into a solver, specified by `parse_spec`.
- `app/main.rs`: the program: reads the file named on the command line, solves, and prints
  the clauses, the answer and the check of the assignment.
- `tests/`: tests of the library.
