# sudoku

A sudoku solver that works the way a person does: step by step, with named strategies
(primaries, hidden and naked groups, locked candidates, X-Wing, chute remote pairs, simple
colouring), with a backtracking search besides. Each step records which strategy it took and
what to highlight, so that a solution can be browsed move by move.

The library in `src/` is verified with Verus:

- `board/` holds the board, its cells as sets of candidates, the text encodings and the reading
  of puzzle files (XML documents with `game` elements, or one puzzle per line).
- `index/` holds the indices of cells, rows, columns, blocks and chutes, and the houses.
- `strategy/` holds the strategies. Each one is proved to remove only candidates that no
  solution uses, to break exactly when it changes the board, and to report that nothing applies
  when it continues. `solve` runs them in order and records the run.
- `graph.rs` holds the graphs of linked cells used by the colouring strategies.
- `browse.rs` holds the decisions of the terminal browser: filters, key handling and what each
  screen shows.

`app/` is the terminal program around the library: argument handling, file reading, the
progress screen and the drawing.
