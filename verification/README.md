# kissat

Verified building blocks of the kissat SAT solver, written in Verus.

## Layout

- `src/` — the library, every function with a contract proved by Verus:
  - `literal` — the literal encoding `2 * idx + sign` and its laws.
  - `kitten` — the small embedded CDCL solver: clauses, assumptions,
    propagation, conflict analysis, decisions, solving (a reported model is
    checked against every clause), literal flipping, clausal cores and
    shrinking a formula to its core; `kitten_shuffle` permutes its clauses
    and queue; `kitten_answers` holds what its answers mean (a satisfying
    assignment, unsatisfiability of the clauses given) and the checks
    behind them: unit propagation, reverse unit propagation of learned
    clauses, and a complete search for when the search stops early.
  - `options` — the option table (sorted, distinct names, defaults in
    range), reading and setting options, and parsing option arguments.
  - `parse` — the DIMACS reader, a function on bytes, with the grammar it
    accepts and the error it gives for each malformed text.
  - `clauses` — a DIMACS clause as the embedded solver takes it: repeated
    literals merged, tautologies left out.
  - `format`, `error`, `file` — the text of counts, values, sizes and
    durations, of error messages, and the rules that name compressed files
    and the commands that read and write them; `value_laws` proves that an
    option value written by `format` reads back through `options`.
  - `congruence` — hashing, matching and sorting helpers of gate extraction,
    and what becomes of an if-then-else gate when one of its inputs equals
    another literal (the new gate means the same as the old one), and which
    clauses are candidates for subsumption by matching.
  - `fastel` — what resolving two large clauses on a pivot comes to in fast
    variable elimination.
  - `flags`, `extend`, `heap`, `queue`, `policy`, `kimits`, `frames`,
    `phases`, `internal`, `random`, `text`, `seqs` — smaller pieces and the
    shared specifications they rest on.
- `tests/` — tests that run the compiled library.
- `app/` — the command-line program: argument handling, terminal colours,
  reading (and decompressing) the input, floating-point measurements and
  printing. It reads a DIMACS formula, decides it with `kitten` and prints
  the answer.

The only trusted item is the wrapper of std's `String::push` in `text`.
