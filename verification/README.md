# chess_core

A bitboard chess engine core written in Verus: the library under `src/` is verified,
`app/` is a small UCI front end around it.

Layout of the library:

- `bits`, `square`, `utility`: bit tricks on 64-bit square sets and the square type.
- `types`: pieces, colours, moves, castling rights, clocks and their text forms.
- `attacks`, `magic`, `precalculated`: leaper patterns, slider rays, the search for magic
  multipliers and the lookup tables built from the precomputed ones.
- `game`: the game state, making and taking back moves, and the laws relating them.
- `generation`, `pawn_sets`, `legal`: pseudo-legal and legal move generation, perft.
- `fen`, `fen_round_trip`: reading and writing FEN records and reading back what was written.
- `zobrist`, `transposition_table`, `search_engine`: hashing, the table of searched nodes,
  alpha-beta search and the pieces of the parallel search.
- `algebraic_notation`, `lexer`: tokenizers for move text and command lines.
- `named_boards`, `game_board`, `board_picture`: boards held as twelve named bitboards,
  read from records, and the text drawings of boards.

Outside crates: `rand` and `rand_pcg` are called from the library through small trusted
wrappers (random multipliers, the seeded key generator); `rayon` runs the parallel perft
and the parallel search, also behind trusted wrappers whose closures call verified functions.
