# backend

A bitboard chess move generator, verified with Verus.

`src/` is the library:

- `bits` — bitboards as sets of squares, the facts about bit operations the
  proofs use, and listing a bitboard's squares.
- `board` — pieces, colours, the position and `make_move`.
- `attacks` — knight, king and pawn moves, and sliding attacks along rays.
- `move_gen` — the moves of every piece (`gen_pseudolegal_moves`), the
  squares each attacks (`gen_attacks`: a pawn attacks only diagonally), the
  legal ones (`gen_moves`: no move may leave the king attacked) and the move
  list (`iter_moves`). Sliding pieces are computed by walking their rays.
- `position` — sound positions, and the proof that legal moves keep them sound.
- `perft` — counting the sequences of legal moves of a given length.
- `notation` — square and move names, and the text picture of a board.
- `magic`, `magic_file` — the search for magic numbers for sliding pieces;
  `magic_attacks`, a lookup of slider attacks through a found magic, proved
  to agree with the ray walk; the entries and sizes of stored tables; and
  reading stored tables back from their Rust source text (parsed with `syn`).
- `enumeration` — the proof that the blocker lists hold every set of blockers
  exactly once.

`app/` holds the interactive board (`main`), the multi-threaded magic search
(`gen-magic`) and the table size report (`size-magic`).
