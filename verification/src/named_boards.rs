//! A board held as one named bitboard per piece kind and colour, with the side to move,
//! castling flags and clocks, read from a FEN record.
use vstd::prelude::*;
use std::sync::Arc;
use crate::bits::{bit_at, single};
use crate::fen::{field, placement_fits, placement_of, empty_placement, Placement, next_field,
    lemma_scan_bounds, lemma_placement_ok_prefix, START_FEN};
use crate::game::lemma_bit_test;
use crate::magic::MoveLookupTable;
use crate::square::FileRank;
use crate::types::{AlgebraicNotationToken, Color, Piece, PieceType, get_piece_from_char, parse_u8, parse_u8_text,
    piece_ord, lemma_piece_letter};
use crate::utility::{set_bit, clear_bit};
use vstd::string::*;

verus! {

/// Castling rights as four flags.
#[derive(Debug, Clone, Copy, PartialEq, Eq, Structural)]
pub struct Castling {
    pub w_king_side: bool,
    pub w_queen_side: bool,
    pub b_king_side: bool,
    pub b_queen_side: bool,
}

impl Castling {
    /// No rights at all.
    pub fn new() -> (c: Castling)
        ensures
            !c.w_king_side && !c.w_queen_side && !c.b_king_side && !c.b_queen_side,
    {
        Castling { b_king_side: false, b_queen_side: false, w_king_side: false, w_queen_side: false }
    }
}

/// The rights a castling field grants: each letter K, Q, k, q that occurs in it.
pub open spec fn castling_of(s: Seq<char>) -> Castling {
    Castling { w_king_side: s.contains('K'), w_queen_side: s.contains('Q'), b_king_side: s.contains('k'), b_queen_side: s.contains('q') }
}

/// The side a FEN side field names: "w" White, "b" Black, White otherwise.
pub open spec fn side_of_field(s: Seq<char>) -> Color {
    if s == seq!['b'] { Color::Black } else { Color::White }
}

/// What a move text starts with: a piece letter of either colour, a file, a rank or the
/// capture sign; nothing for anything else or an empty text.
pub open spec fn first_token(s: Seq<char>) -> Option<AlgebraicNotationToken> {
    if s.len() == 0 {
        None
    } else {
        let c = s[0];
        if c == 'K' || c == 'Q' || c == 'R' || c == 'B' || c == 'N' || c == 'P' || c == 'k' || c == 'q' || c == 'r'
            || c == 'b' || c == 'n' || c == 'p' {
            Some(AlgebraicNotationToken::Piece(c))
        } else if 'a' <= c <= 'h' {
            Some(AlgebraicNotationToken::File(c))
        } else if '1' <= c <= '8' {
            Some(AlgebraicNotationToken::Rank(c))
        } else if c == 'x' {
            Some(AlgebraicNotationToken::Capture)
        } else {
            None
        }
    }
}

/// Twelve bitboards, one per piece kind and colour, with the game state and the move
/// lists of both sides (one list of target squares per origin square).
#[derive(Debug, Clone)]
pub struct BitBoard {
    pub w_pawn: u64,
    pub w_bishop: u64,
    pub w_knight: u64,
    pub w_rook: u64,
    pub w_queen: u64,
    pub w_king: u64,
    pub b_pawn: u64,
    pub b_bishop: u64,
    pub b_knight: u64,
    pub b_rook: u64,
    pub b_queen: u64,
    pub b_king: u64,
    pub turn: Color,
    pub castling: Castling,
    pub halfmove_clock: u8,
    pub fullmove_number: u8,
    pub db: Arc<MoveLookupTable>,
    pub white_moves: Vec<Vec<u8>>,
    pub black_moves: Vec<Vec<u8>>,
}

impl BitBoard {
    /// The twelve bitboards in the order white pawn, bishop, knight, rook, queen, king,
    /// then the black ones.
    pub open spec fn boards(&self) -> Seq<u64> {
        seq![self.w_pawn, self.w_bishop, self.w_knight, self.w_rook, self.w_queen, self.w_king,
            self.b_pawn, self.b_bishop, self.b_knight, self.b_rook, self.b_queen, self.b_king]
    }

    /// Everything but the bitboards is as in `other`.
    pub open spec fn same_state(&self, other: &BitBoard) -> bool {
        &&& self.turn == other.turn
        &&& self.castling == other.castling
        &&& self.halfmove_clock == other.halfmove_clock
        &&& self.fullmove_number == other.fullmove_number
        &&& self.db == other.db
        &&& self.white_moves@ == other.white_moves@
        &&& self.black_moves@ == other.black_moves@
    }
}

impl Default for BitBoard {
    /// An empty board, White to move, no castling rights, both clocks at zero, no moves,
    /// and freshly built attack tables.
    fn default() -> (b: Self)
        ensures
            b.boards() == seq![0u64; 12],
            b.turn == Color::White,
            !b.castling.w_king_side && !b.castling.w_queen_side && !b.castling.b_king_side && !b.castling.b_queen_side,
            b.halfmove_clock == 0,
            b.fullmove_number == 0,
            b.db.wf(),
            b.white_moves@.len() == 0,
            b.black_moves@.len() == 0,
    {
        let db = Arc::new(MoveLookupTable::init());
        let b = BitBoard {
            db,
            w_pawn: 0,
            w_bishop: 0,
            w_knight: 0,
            w_rook: 0,
            w_queen: 0,
            w_king: 0,
            b_pawn: 0,
            b_bishop: 0,
            b_knight: 0,
            b_rook: 0,
            b_queen: 0,
            b_king: 0,
            turn: Color::White,
            castling: Castling::new(),
            halfmove_clock: 0,
            fullmove_number: 0,
            black_moves: Vec::new(),
            white_moves: Vec::new(),
        };
        proof {
            assert(b.boards() =~= seq![0u64; 12]);
        }
        b
    }
}

impl BitBoard {
    /// An empty board (see `default`).
    pub fn empty() -> (b: BitBoard)
        ensures
            b.boards() == seq![0u64; 12],
            b.turn == Color::White,
            !b.castling.w_king_side && !b.castling.w_queen_side && !b.castling.b_king_side && !b.castling.b_queen_side,
            b.halfmove_clock == 0,
            b.fullmove_number == 0,
            b.db.wf(),
            b.white_moves@.len() == 0,
            b.black_moves@.len() == 0,
    {
        BitBoard::default()
    }

    /// Adds `piece` on `file_rank` to that piece's bitboard.
    pub fn set_piece(&mut self, piece: &Piece, file_rank: FileRank)
        ensures
            final(self).boards() == old(self).boards().update(piece_ord(*piece),
                old(self).boards()[piece_ord(*piece)] | single(file_rank.idx())),
            final(self).same_state(old(self)),
    {
        proof {
            lemma_piece_letter(*piece);
        }
        match (piece.piece_type, piece.color) {
            (PieceType::Pawn, Color::White) => set_bit(&mut self.w_pawn, &file_rank),
            (PieceType::Bishop, Color::White) => set_bit(&mut self.w_bishop, &file_rank),
            (PieceType::Knight, Color::White) => set_bit(&mut self.w_knight, &file_rank),
            (PieceType::Rook, Color::White) => set_bit(&mut self.w_rook, &file_rank),
            (PieceType::Queen, Color::White) => set_bit(&mut self.w_queen, &file_rank),
            (PieceType::King, Color::White) => set_bit(&mut self.w_king, &file_rank),
            (PieceType::Pawn, Color::Black) => set_bit(&mut self.b_pawn, &file_rank),
            (PieceType::Bishop, Color::Black) => set_bit(&mut self.b_bishop, &file_rank),
            (PieceType::Knight, Color::Black) => set_bit(&mut self.b_knight, &file_rank),
            (PieceType::Rook, Color::Black) => set_bit(&mut self.b_rook, &file_rank),
            (PieceType::Queen, Color::Black) => set_bit(&mut self.b_queen, &file_rank),
            (PieceType::King, Color::Black) => set_bit(&mut self.b_king, &file_rank),
        }
        proof {
            assert(self.boards() =~= old(self).boards().update(piece_ord(*piece),
                old(self).boards()[piece_ord(*piece)] | single(file_rank.idx())));
        }
    }

    /// Removes `file_rank` from the bitboard of `piece`.
    pub fn clear_piece(&mut self, piece: &Piece, file_rank: FileRank)
        ensures
            final(self).boards() == old(self).boards().update(piece_ord(*piece),
                old(self).boards()[piece_ord(*piece)] & !single(file_rank.idx())),
            final(self).same_state(old(self)),
    {
        proof {
            lemma_piece_letter(*piece);
        }
        match (piece.piece_type, piece.color) {
            (PieceType::Pawn, Color::White) => clear_bit(&mut self.w_pawn, &file_rank),
            (PieceType::Bishop, Color::White) => clear_bit(&mut self.w_bishop, &file_rank),
            (PieceType::Knight, Color::White) => clear_bit(&mut self.w_knight, &file_rank),
            (PieceType::Rook, Color::White) => clear_bit(&mut self.w_rook, &file_rank),
            (PieceType::Queen, Color::White) => clear_bit(&mut self.w_queen, &file_rank),
            (PieceType::King, Color::White) => clear_bit(&mut self.w_king, &file_rank),
            (PieceType::Pawn, Color::Black) => clear_bit(&mut self.b_pawn, &file_rank),
            (PieceType::Bishop, Color::Black) => clear_bit(&mut self.b_bishop, &file_rank),
            (PieceType::Knight, Color::Black) => clear_bit(&mut self.b_knight, &file_rank),
            (PieceType::Rook, Color::Black) => clear_bit(&mut self.b_rook, &file_rank),
            (PieceType::Queen, Color::Black) => clear_bit(&mut self.b_queen, &file_rank),
            (PieceType::King, Color::Black) => clear_bit(&mut self.b_king, &file_rank),
        }
        proof {
            assert(self.boards() =~= old(self).boards().update(piece_ord(*piece),
                old(self).boards()[piece_ord(*piece)] & !single(file_rank.idx())));
        }
    }

    /// The squares of White's pieces.
    pub fn get_white_pieces(&self) -> (r: u64)
        ensures
            r == self.w_pawn | self.w_bishop | self.w_knight | self.w_rook | self.w_queen | self.w_king,
    {
        self.w_pawn | self.w_bishop | self.w_knight | self.w_rook | self.w_queen | self.w_king
    }

    /// The squares of Black's pieces.
    pub fn get_black_pieces(&self) -> (r: u64)
        ensures
            r == self.b_pawn | self.b_bishop | self.b_knight | self.b_rook | self.b_queen | self.b_king,
    {
        self.b_pawn | self.b_bishop | self.b_knight | self.b_rook | self.b_queen | self.b_king
    }

    /// The squares of all pieces.
    pub fn get_all_pieces(&self) -> (r: u64)
        ensures
            r == (self.w_pawn | self.w_bishop | self.w_knight | self.w_rook | self.w_queen | self.w_king)
                | (self.b_pawn | self.b_bishop | self.b_knight | self.b_rook | self.b_queen | self.b_king),
    {
        self.get_white_pieces() | self.get_black_pieces()
    }

    /// The empty squares.
    pub fn empty_square(&self) -> (r: u64)
        ensures
            r == !((self.w_pawn | self.w_bishop | self.w_knight | self.w_rook | self.w_queen | self.w_king)
                | (self.b_pawn | self.b_bishop | self.b_knight | self.b_rook | self.b_queen | self.b_king)),
    {
        !self.get_all_pieces()
    }

    /// Whether the set has the square.
    pub fn get(bit_board: u64, file_rank: FileRank) -> (r: bool)
        ensures
            r == bit_at(bit_board, file_rank.idx()),
    {
        let mask = file_rank.mask();
        proof {
            lemma_bit_test(bit_board, file_rank.idx());
        }
        (bit_board & mask) != 0
    }

    /// Whether the set has the square of the given index.
    pub fn get_by_index(bit_board: u64, index: u8) -> (r: bool)
        requires
            index < 64,
        ensures
            r == bit_at(bit_board, index as int),
    {
        let mask: u64 = 1u64 << index;
        proof {
            lemma_bit_test(bit_board, index as int);
        }
        (bit_board & mask) != 0
    }

    /// The token a move text starts with (see `first_token`).
    pub fn deserialize_move(&self, input: &str) -> (r: Option<AlgebraicNotationToken>)
        ensures
            r == first_token(input@),
    {
        if input.unicode_len() == 0 {
            return None;
        }
        let c = input.get_char(0);
        if c == 'K' || c == 'Q' || c == 'R' || c == 'B' || c == 'N' || c == 'P' || c == 'k' || c == 'q' || c == 'r'
            || c == 'b' || c == 'n' || c == 'p' {
            Some(AlgebraicNotationToken::Piece(c))
        } else if 'a' <= c && c <= 'h' {
            Some(AlgebraicNotationToken::File(c))
        } else if '1' <= c && c <= '8' {
            Some(AlgebraicNotationToken::Rank(c))
        } else if c == 'x' {
            Some(AlgebraicNotationToken::Capture)
        } else {
            None
        }
    }

    /// Places the pieces of a placement field, from the top-left corner.
    fn place_pieces(&mut self, placement: &str)
        requires
            placement_of(placement@, Placement { board: empty_placement().board, bb: old(self).boards(), row: 0, col: 0, ok: true }).ok,
        ensures
            final(self).boards() == placement_of(placement@, Placement { board: empty_placement().board, bb: old(self).boards(), row: 0, col: 0, ok: true }).bb,
            final(self).same_state(old(self)),
    {
        let ghost start = Placement { board: empty_placement().board, bb: self.boards(), row: 0, col: 0, ok: true };
        let ghost text = placement@;
        let n = placement.unicode_len();
        let mut row: u8 = 0;
        let mut col: u8 = 0;
        let mut i: usize = 0;
        proof {
            assert(text.take(0) =~= Seq::<char>::empty());
        }
        while i < n
            invariant
                n == text.len(),
                text == placement@,
                i <= n,
                placement_of(text, start).ok,
                ({
                    let st = placement_of(text.take(i as int), start);
                    &&& st.ok
                    &&& st.row == row
                    &&& st.col == col
                    &&& st.bb == self.boards()
                }),
                self.same_state(old(self)),
            decreases n - i,
        {
            let c = placement.get_char(i);
            proof {
                assert(text.take(i + 1).drop_last() =~= text.take(i as int));
                assert(text.take(i + 1).last() == c);
                lemma_placement_ok_prefix(text, start, i + 1);
            }
            match get_piece_from_char(c) {
                Some(piece) => {
                    let index = (row * 8) + col;
                    match FileRank::get_file_rank(index) {
                        Some(file_rank) => {
                            proof {
                                lemma_piece_letter(piece);
                            }
                            self.set_piece(&piece, file_rank);
                        },
                        None => {},
                    }
                    col = col + 1;
                },
                None => {
                    if c == '/' {
                        row = row + 1;
                        col = 0;
                    } else if '1' <= c && c <= '8' {
                        let offset = (c as u32 - 48) as u8;
                        col = col + offset;
                    }
                },
            }
            i = i + 1;
        }
        proof {
            assert(text.take(n as int) =~= text);
        }
    }

    /// Reads the placement, side, castling and clock fields of a FEN record (the
    /// en-passant field is skipped; missing fields read as empty): pieces from the
    /// top-left corner, the side to move ('b' for Black, White otherwise), the castling
    /// letters present, the half-move clock (0 when it is no number below 256) and the
    /// full-move number (1 when it is none).
    pub fn deserialize(fen: &str) -> (b: BitBoard)
        requires
            placement_fits(fen@),
        ensures
            b.boards() == placement_of(field(fen@, 0), empty_placement()).bb,
            b.turn == side_of_field(field(fen@, 1)),
            b.castling == castling_of(field(fen@, 2)),
            b.halfmove_clock == (match parse_u8(field(fen@, 4)) { Some(v) => v, None => 0u8 }),
            b.fullmove_number == (match parse_u8(field(fen@, 5)) { Some(v) => v, None => 1u8 }),
            b.db.wf(),
            b.white_moves@.len() == 0,
            b.black_moves@.len() == 0,
    {
        let n = fen.unicode_len();
        proof {
            lemma_scan_bounds(fen@, 0);
        }
        let (piece_placement, p1) = next_field(fen, n, 0);
        proof {
            lemma_scan_bounds(fen@, p1 as int);
        }
        let (active_color, p2) = next_field(fen, n, p1);
        proof {
            lemma_scan_bounds(fen@, p2 as int);
        }
        let (castling_rights, p3) = next_field(fen, n, p2);
        proof {
            lemma_scan_bounds(fen@, p3 as int);
        }
        let (en_passant, p4) = next_field(fen, n, p3);
        proof {
            lemma_scan_bounds(fen@, p4 as int);
        }
        let (halfmove_clock, p5) = next_field(fen, n, p4);
        proof {
            lemma_scan_bounds(fen@, p5 as int);
        }
        let (fullmove_number, _p6) = next_field(fen, n, p5);
        proof {
            assert(piece_placement@ == field(fen@, 0));
            assert(active_color@ == field(fen@, 1));
            assert(castling_rights@ == field(fen@, 2));
            assert(en_passant@ == field(fen@, 3));
            assert(halfmove_clock@ == field(fen@, 4));
            assert(fullmove_number@ == field(fen@, 5));
        }
        let mut game = BitBoard::empty();
        proof {
            assert(game.boards() =~= empty_placement().bb);
            assert(Placement { board: empty_placement().board, bb: game.boards(), row: 0, col: 0, ok: true } == empty_placement());
        }
        game.place_pieces(piece_placement);
        let color_len = active_color.unicode_len();
        if color_len == 1 && active_color.get_char(0) == 'w' {
            game.turn = Color::White;
        } else if color_len == 1 && active_color.get_char(0) == 'b' {
            game.turn = Color::Black;
        }
        proof {
            if active_color@ == seq!['b'] {
                assert(active_color@[0] == 'b');
            }
            if color_len == 1 && active_color@[0] == 'b' {
                assert(active_color@ =~= seq!['b']);
            }
        }
        let mut castling = Castling::new();
        let rights_len = castling_rights.unicode_len();
        let ghost rights = castling_rights@;
        let mut i: usize = 0;
        while i < rights_len
            invariant
                i <= rights_len,
                rights_len == rights.len(),
                rights == castling_rights@,
                castling == castling_of(rights.take(i as int)),
            decreases rights_len - i,
        {
            let c = castling_rights.get_char(i);
            proof {
                let pre = rights.take(i as int);
                let post = rights.take(i + 1);
                assert(post =~= pre.push(c));
                assert forall|x: char| post.contains(x) <==> (pre.contains(x) || x == c) by {
                    if post.contains(x) {
                        let k = choose|k: int| 0 <= k < post.len() && post[k] == x;
                        if k < i {
                            assert(pre[k] == x);
                        }
                    }
                    if pre.contains(x) {
                        let k = choose|k: int| 0 <= k < pre.len() && pre[k] == x;
                        assert(post[k] == x);
                    }
                    if x == c {
                        assert(post[i as int] == x);
                    }
                }
            }
            if c == 'K' {
                castling.w_king_side = true;
            } else if c == 'Q' {
                castling.w_queen_side = true;
            } else if c == 'k' {
                castling.b_king_side = true;
            } else if c == 'q' {
                castling.b_queen_side = true;
            }
            i = i + 1;
        }
        proof {
            assert(rights.take(rights_len as int) =~= rights);
        }
        game.halfmove_clock = match parse_u8_text(halfmove_clock) {
            Some(v) => v,
            None => 0,
        };
        game.fullmove_number = match parse_u8_text(fullmove_number) {
            Some(v) => v,
            None => 1,
        };
        game.castling = castling;
        game
    }

    /// The standard starting position: both sides' pieces on their home rows, White to
    /// move, all four castling rights, clocks 0 and 1.
    pub fn new_game() -> (b: BitBoard)
        ensures
            b.boards() == placement_of(field(START_FEN@, 0), empty_placement()).bb,
            b.turn == Color::White,
            b.castling.w_king_side && b.castling.w_queen_side && b.castling.b_king_side && b.castling.b_queen_side,
            b.halfmove_clock == 0,
            b.fullmove_number == 1,
    {
        proof {
            crate::fen::lemma_start_placement();
            crate::fen::lemma_start_fields();
            assert(seq!['w'][0] != seq!['b'][0]);
            let f = seq!['K', 'Q', 'k', 'q'];
            assert(f[0] == 'K' && f[1] == 'Q' && f[2] == 'k' && f[3] == 'q');
            assert(f.contains('K') && f.contains('Q') && f.contains('k') && f.contains('q'));
            assert((match parse_u8(seq!['0']) { Some(v) => v, None => 0u8 }) == 0
                && (match parse_u8(seq!['1']) { Some(v) => v, None => 1u8 }) == 1) by {
                crate::fen::lemma_small_clocks();
            }
        }
        BitBoard::deserialize(START_FEN)
    }
}

} // verus!
