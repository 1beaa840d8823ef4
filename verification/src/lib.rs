//! Bitboard chess engine core: squares, pieces, attack generation,
//! magic lookup tables, game state with make/unmake, FEN, search support.

pub mod bits;
pub mod square;
pub mod text;
pub mod types;
pub mod attacks;
pub mod precalculated;
pub mod magic;
pub mod zobrist;
pub mod utility;
pub mod game;
pub mod generation;
pub mod legal;
pub mod fen;
pub mod transposition_table;
pub mod search_engine;
pub mod algebraic_notation;
pub mod lexer;
pub mod pawn_sets;
pub mod named_boards;
pub mod game_board;
pub mod fen_round_trip;
pub mod board_picture;
pub mod minimax;
