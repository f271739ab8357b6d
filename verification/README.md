# 4x4 four-in-a-row engine

A verified game engine for four in a row on a 4x4 board.

- `src/geometry.rs` — the board model: cells, rows of the four directions, four in a row.
- `src/lines/line_row.rs` — the runs of stones ("lines") of one row and how a new stone
  changes them.  Each step states its new lines and its list of value changes exactly, and is
  proved against the board model: the lines are the runs that can still grow, and each empty
  cell's value is the square of a run's length at each open end, up to a bounded excess that
  one kind of step leaves (closing the other player's line at its `p2` end takes the value
  off at the stone's own cell).
- `src/lines.rs` — the lines of all rows and the heuristic value of every cell; a move and
  its undoing (`update_move`, `redo_changes`).
- `src/negmax.rs` — move ordering by cell value and negamax with alpha-beta pruning, proved
  against the game value as the search defines it (`game_value`: a position with one empty
  cell left scores 0, and the depth limit `MAX_DEPTH` scores 0).
- `src/lib.rs` — `Algo`, a game: moves, state, and the best move.
- `app/` — printing a game to standard output.
