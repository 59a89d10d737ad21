# tcct

A trace-constraint consistency test for arithmetic circuits. A template is executed
symbolically: every path gathers the *trace constraints* (what the program computes) and the
*side constraints* (what the circuit's constraints state). A search then looks for an
assignment on which the two disagree: the trace holding while the side constraints fail is
over-constrained; the side constraints holding while the trace fails, with a concrete run
that gives an output another value, is under-constrained.

Layout:

- `src/` — the verified library.
  - `bignum`: arbitrary-precision integers, each operation stated over its mathematical value.
  - `arith`: field arithmetic of constants and the extended Euclidean algorithm.
  - `ast`, `symbolic_value`, `symbolic_library`, `name_map`, `tables`: the program's syntax,
    symbolic values and names, and the tables that hold them.
  - `symbolic_execution`, `executor`: the symbolic executor and its settings.
  - `solver`: evaluation of constraints under an assignment, the exhaustive search and the
    genetic search.
  - `pretty`, `lookup`: text forms of syntax trees, symbolic values and counterexample
    reports.
- `tests/` — tests of the library.
- `app/` — the command-line program: parsing, conversion of the parser's trees, printing
  and JSON output.
