use chess_core::fen::START_FEN;
use chess_core::game_board::Game;
use chess_core::named_boards::BitBoard;
use chess_core::square::{FileRank, RANK_1, RANK_2, RANK_7, RANK_8};
use chess_core::types::{AlgebraicNotationToken, Color, Move, Moves, Piece, PieceType};

#[test]
fn named_boards_read_a_record() {
    let b = BitBoard::new_game();
    assert_eq!(b.w_pawn, RANK_2);
    assert_eq!(b.b_pawn, RANK_7);
    assert_eq!(b.get_white_pieces(), RANK_1 | RANK_2);
    assert_eq!(b.get_black_pieces(), RANK_7 | RANK_8);
    assert_eq!(b.empty_square(), !(RANK_1 | RANK_2 | RANK_7 | RANK_8));
    assert_eq!(b.w_king, FileRank::E1.mask());
    assert_eq!(b.turn, Color::White);
    assert!(b.castling.w_king_side && b.castling.w_queen_side && b.castling.b_king_side && b.castling.b_queen_side);
    assert_eq!(b.halfmove_clock, 0);
    assert_eq!(b.fullmove_number, 1);

    let c = BitBoard::deserialize("8/8/8/8/8/8/8/4K2R b k - 7");
    assert_eq!(c.w_rook, FileRank::H1.mask());
    assert_eq!(c.turn, Color::Black);
    assert!(!c.castling.w_king_side && c.castling.b_king_side && !c.castling.b_queen_side);
    assert_eq!(c.halfmove_clock, 7);
    // a missing full-move field reads as 1
    assert_eq!(c.fullmove_number, 1);
    assert!(BitBoard::get(c.w_king, FileRank::E1));
    assert!(!BitBoard::get_by_index(c.w_king, 0));
}

#[test]
fn named_boards_set_and_clear() {
    let mut b = BitBoard::empty();
    let knight = Piece { piece_type: PieceType::Knight, color: Color::Black };
    b.set_piece(&knight, FileRank::G8);
    assert_eq!(b.b_knight, FileRank::G8.mask());
    assert_eq!(b.get_all_pieces(), FileRank::G8.mask());
    b.clear_piece(&knight, FileRank::G8);
    assert_eq!(b.b_knight, 0);
    // clearing an absent square leaves the set as it is
    b.clear_piece(&knight, FileRank::G8);
    assert_eq!(b.b_knight, 0);
}

#[test]
fn named_boards_first_move_token() {
    let b = BitBoard::empty();
    assert_eq!(b.deserialize_move("Nf3"), Some(AlgebraicNotationToken::Piece('N')));
    assert_eq!(b.deserialize_move("b4"), Some(AlgebraicNotationToken::Piece('b')));
    assert_eq!(b.deserialize_move("e4"), Some(AlgebraicNotationToken::File('e')));
    assert_eq!(b.deserialize_move("4"), Some(AlgebraicNotationToken::Rank('4')));
    assert_eq!(b.deserialize_move("xe4"), Some(AlgebraicNotationToken::Capture));
    assert_eq!(b.deserialize_move("+"), None);
    assert_eq!(b.deserialize_move(""), None);
}

#[test]
fn game_board_reads_swapped_letters() {
    let g = Game::new_game();
    // lowercase letters are White's pieces here, and the top row comes first
    assert_eq!(g.w_pawn, RANK_7);
    assert_eq!(g.b_pawn, RANK_2);
    assert_eq!(g.w_king, FileRank::E8.mask());
    assert!(g.w_turn);
    assert!(g.castling.w_king_side && g.castling.w_queen_side && g.castling.b_king_side && g.castling.b_queen_side);
    let e = Game::from_fen("4k3/8/8/8/8/8/8/4K3 b -");
    assert_eq!(e.w_king, FileRank::E8.mask());
    assert_eq!(e.b_king, FileRank::E1.mask());
    assert!(!e.w_turn);
    assert!(!e.castling.w_king_side && !e.castling.b_queen_side);
    let none = Game::from_fen("8/8/8/8/8/8/8/8");
    assert!(!none.w_turn);
    assert_eq!(Game::empty().w_pawn, 0);
    assert!(START_FEN.len() > 0);
}

#[test]
fn game_board_bits() {
    let mut b: u64 = 0;
    Game::set_bit(&mut b, FileRank::C3);
    assert!(Game::get(b, FileRank::C3));
    Game::clear_bit(&mut b, FileRank::C3);
    assert_eq!(b, 0);
    // clearing toggles: an absent square is added
    Game::clear_bit(&mut b, FileRank::C3);
    // these boards number squares from a1: c3 is bit 18
    assert_eq!(b, 1u64 << 18);
    let mut g = Game::empty();
    g.set_piece(&Piece { piece_type: PieceType::Queen, color: Color::White }, FileRank::D1);
    assert_eq!(g.w_queen, 1u64 << 3);
    assert!(Game::get(1u64, FileRank::A1));
    assert!(Game::get(1u64 << 63, FileRank::H8));
}

#[test]
fn move_texts() {
    let m = Move { from: 52, to: 36 };
    assert_eq!(m.to_text(), "(from: E2, to: E4)");
    let list = Moves(vec![Move { from: 0, to: 1 }, Move { from: 63, to: 62 }]);
    assert_eq!(list.to_text(), "Moves:\n(from: A8, to: B8) \n(from: H1, to: G1) \n");
    assert_eq!(Moves(Vec::new()).to_text(), "Moves:\n");
    let squares = FileRank::iterator();
    assert_eq!(squares.len(), 64);
    assert_eq!(squares[0], FileRank::A1);
    assert_eq!(squares[7], FileRank::H1);
    assert_eq!(squares[8], FileRank::A2);
    assert_eq!(squares[63], FileRank::H8);
}

#[test]
fn named_and_record_board_drawings() {
    let b = BitBoard::new_game();
    let text = b.board_text();
    let lines: Vec<&str> = text.lines().collect();
    assert_eq!(lines[1], " +----------------+");
    assert_eq!(lines[2], "8|♖ ♘ ♗ ♕ ♔ ♗ ♘ ♖ |8");
    assert_eq!(lines[3], "7|♙ ♙ ♙ ♙ ♙ ♙ ♙ ♙ |7");
    assert_eq!(lines[8], "2|♟\u{FE0E} ♟\u{FE0E} ♟\u{FE0E} ♟\u{FE0E} ♟\u{FE0E} ♟\u{FE0E} ♟\u{FE0E} ♟\u{FE0E} |2");
    assert_eq!(lines[9], "1|♜ ♞ ♝ ♛ ♚ ♝ ♞ ♜ |1");
    assert_eq!(lines.len(), 12);
    let g = Game::empty();
    let gtext = g.board_text();
    let glines: Vec<&str> = gtext.lines().collect();
    assert_eq!(glines[1], " +----------------");
    assert_eq!(glines[5], "5|. . . . . . . . |5");
    assert_eq!(glines[11], "  a b c d e f g h");
}
