# cdcl_solver

A conflict-driven clause-learning SAT solver for CNF formulas, written in Verus.
Several solvers can run side by side and pass the clauses they learn to each
other over channels.

## Layout

- `src/literal.rs`: literals and their value under a partial assignment.
- `src/clause.rs`: clauses with two watched positions; the state update, unit
  choice and resolution, each with an exact contract, and the laws about the
  computed state (what `Satisfied`, `Unit`, `Open` and `Unsatisfiable` say about
  the literals) and about resolution.
- `src/formula.rs`: a formula as a set of clauses with an assignment;
  `form_state` with its Conflict > Unit > Else priority.
- `src/cdcl.rs`: the solver: unit propagation, decisions, conflict analysis,
  backtracking and clause sharing, and `sat`.
- `src/trail.rs`: how the assignment trail relates to the assignment and to the
  formula, and why a conflict without decisions refutes the formula.
- `src/dimacs.rs`: the DIMACS CNF reader, specified over the text's characters.
- `src/randomness.rs`, `src/messaging.rs`: the calls into `rand` and into
  `std::sync::mpsc`, with the contracts that the rest relies on.
- `app/main.rs`: the command-line program: reads the file, starts four solvers
  in threads and prints the first answer.

## What is proved

- A `Some(true)` from `sat` comes with a complete assignment that satisfies every
  clause, the clauses the solver started with among them.
- Unit propagation only sets literals that every model agreeing with the current
  assignment must set, and reports a conflict only when there is no such model,
  as long as each clause watches two different positions or has one literal.
- A `Some(false)` from a fresh solver that takes no clauses from others and
  starts from clauses that each watch two different positions (or have one
  literal) means that the formula has no model. Learnt clauses are given two
  different watched positions when the ones they inherit do not qualify, so the
  condition lasts through the search.
- A formula that unit propagation decides before any decision gets its answer:
  `Some(false)` on a conflict there, `Some(true)` when every variable is set.
  Otherwise the solver records why it stopped without an answer (`last_ending`);
  only a solver with peers sees one stop listening.
- Conflict analysis adds the clause it learns to the formula; every literal of it
  fails under the current assignment when the conflict clause's literals do and
  each trail entry's clause fails off its own variable, and every model of the
  formula satisfies it when the trail is justified.
- Received clauses that name a variable the formula lacks, or watch a position
  they lack, are left out; the others are added.
- The DIMACS reader returns exactly the formula the text describes, or the error
  that the text's first defect calls for.
