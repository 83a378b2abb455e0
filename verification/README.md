# illu-logi-solver-super

A rule-based solver for nonograms (picture logic puzzles), verified with Verus.

Each row and column carries a clue: the lengths of its runs of black cells.
The solver fills the board with eight line rules of the kind people use, and
explains every cell it confirms with the rule behind it. It does no search:
a puzzle that the rules cannot finish is reported as `Stuck`, a normal
result, with the partial board.

## Layout

- `src/clue.rs`: validated clues (`Clues::new` is the only place where input
  is refused) and line identifiers.
- `src/grid.rs`: the board, its text form, and what a solution is.
- `src/analysis.rs`: the analysis of one line, narrowing the range of each
  block and the candidate blocks of each cell until nothing changes.
- `src/rules.rs`: the eight line rules; each states exactly what it reports.
- `src/solver.rs`: full solving, hints and single steps.
- `src/session.rs`: the interactive layer (edits, undo, rollback, mistakes).
- `app/lib.rs`: error messages and `Display` around the library.

## What is proved

- Every cell that a rule, a hint, a step or a solve confirms has that colour
  in every solution that agrees with the board; a contradiction is reported
  only when no such solution exists.
- The line analysis is exactly the settled narrowing, and every rule reports
  exactly the deductions it is defined by.
- `solve` follows its list of lines exactly as the spec functions of
  `src/solver.rs` describe (`solve_rounds`): the board, the list, the step
  count and the contradiction it ends with are all determined. Starting from
  a new solver, or after calls that succeeded, a successful solve stops only
  where no rule deduces anything on any line. A conflict is the first cell
  of the deduction's range that holds the other colour.
- `hint` returns the first deduction of the rules, which is unique, and
  whose reason names the rule it came from; `next_step` takes that step,
  and fails with the conflict when the step meets a cell of the other
  colour.
- A solve leaves unchanged a board on which no rule deduces anything, so it
  stops where stepping stops. That solving and stepping always stop on the
  same board is checked by a property test, not proved.
- `Session::deduce` and `Session::mistakes` give exactly what `solve` gives
  on a fresh solver.
- Undo and rollback restore the boards of earlier turns, and the cells that
  `mistakes` reports are wrong in every solution.
