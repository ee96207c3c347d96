# connect_four

A Connect Four engine whose rules and searches are verified with Verus.

- `src/` is the verified library: the bitboard and its win detection, the
  exact game score (`value`), the transposition tables, the endgame solver,
  the negamax searches and the opening book, each with its contract.
- `tests/` runs the library on concrete positions.
- `app/` is the terminal game around it: reading moves, printing the board,
  and handing the root moves of the parallel search to threads.
