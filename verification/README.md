# barricade_engine

A Quoridor engine whose board logic is verified with Verus.

- `src/` is the verified library: bitboard positions (`state`), board geometry and
  blocked-step masks (`board`), Zobrist keys (`zobrist`), bit-parallel flood fill
  with its cell-by-cell meaning (`reach`), move generation, move ordering and killer
  moves (`movegen`), FEN notation (`fen`), the top-to-bottom mirror symmetry of
  the path metrics (`mirror`), and properties that span several operations (`laws`).
- `app/` holds the Python bindings (pyo3) and the parts that work on floating-point
  scores or read the clock: the evaluation function and the iterative-deepening
  alpha-beta search with its transposition table.
- `tests/` exercises the library on concrete positions.
