//! The game state: piece bitboards, a character board, castling rights,
//! clocks, en-passant square, Zobrist hash and a history of moves made.
use vstd::prelude::*;
use std::sync::Arc;
use crate::bits::{bit_at, single, lemma_bit_ops, lemma_bits_ext, lemma_single, lemma_bit_nonzero};
use crate::square::{FileRank, square_at};
use crate::types::{Castling, Clock, Color, MoveType, Piece, PieceMove, PieceType, BoardSide, PieceIndex,
    fen_letter, piece_of_letter, piece_ord, piece_of_ord, lemma_piece_letter, lemma_letter_piece, lemma_piece_of_ord, other,
    king_side_bit, queen_side_bit};
use crate::magic::MoveLookupTable;
use crate::zobrist::{ZobristHashing, position_hash};

verus! {

/// What a move changed that its reversal needs back.
#[derive(Clone, Copy, Debug, PartialEq, Eq, Structural)]
pub struct UnmakeInfo {
    pub piece_move: PieceMove,
    pub captured_piece: Option<Piece>,
    pub captured_piece_position: Option<FileRank>,
    pub previous_hash: u64,
    pub previous_castling_rights: u64,
    pub half_moves: u8,
    pub full_moves: u8,
    pub en_passant: Option<FileRank>,
}

/// The part of a game state that moves change.
pub ghost struct Position {
    pub bitboard: Seq<u64>,
    pub board: Seq<char>,
    pub turn: Color,
    pub castling: u64,
    pub half: u8,
    pub full: u8,
    pub en_passant: Option<FileRank>,
    pub hash: u64,
    pub history: Seq<UnmakeInfo>,
}

/// The board characters and the bitboards describe the same pieces: a bitboard
/// has a square exactly when the board holds that piece's letter there, and
/// every board character is a piece letter or '-'.
pub open spec fn consistent(bb: Seq<u64>, board: Seq<char>) -> bool {
    &&& bb.len() == 12
    &&& board.len() == 64
    &&& forall|p: int, sq: int| 0 <= p < 12 && 0 <= sq < 64 ==> (#[trigger] bit_at(bb[p], sq) <==> board[sq] == fen_letter(piece_of_ord(p)))
    &&& forall|sq: int| 0 <= sq < 64 ==> (board[sq] == '-' || #[trigger] piece_of_letter(board[sq]) is Some)
}

/// Places `piece` on square `sq`: board letter and bitboard bit.
pub open spec fn put(p: Position, piece: Piece, sq: int) -> Position {
    Position {
        board: p.board.update(sq, fen_letter(piece)),
        bitboard: p.bitboard.update(piece_ord(piece), p.bitboard[piece_ord(piece)] | single(sq)),
        ..p
    }
}

/// Removes `piece` from square `sq`: the board shows '-' and the bitboard loses the bit.
pub open spec fn lift(p: Position, piece: Piece, sq: int) -> Position {
    Position {
        board: p.board.update(sq, '-'),
        bitboard: p.bitboard.update(piece_ord(piece), p.bitboard[piece_ord(piece)] & !single(sq)),
        ..p
    }
}

/// Two bitboard lists consistent with the same board are equal.
pub proof fn lemma_consistent_unique(bb1: Seq<u64>, bb2: Seq<u64>, board: Seq<char>)
    requires
        consistent(bb1, board),
        consistent(bb2, board),
    ensures
        bb1 == bb2,
{
    assert forall|p: int| 0 <= p < 12 implies bb1[p] == bb2[p] by {
        assert forall|sq: int| 0 <= sq < 64 implies bit_at(bb1[p], sq) == bit_at(bb2[p], sq) by {
            assert(bit_at(bb1[p], sq) <==> board[sq] == fen_letter(piece_of_ord(p)));
            assert(bit_at(bb2[p], sq) <==> board[sq] == fen_letter(piece_of_ord(p)));
        }
        lemma_bits_ext(bb1[p], bb2[p]);
    }
    assert(bb1 =~= bb2);
}

/// Placing a piece on an empty square (or on a square holding that same piece) keeps the state consistent.
pub proof fn lemma_put_consistent(p: Position, piece: Piece, sq: int)
    requires
        consistent(p.bitboard, p.board),
        0 <= sq < 64,
        p.board[sq] == '-' || p.board[sq] == fen_letter(piece),
    ensures
        consistent(put(p, piece, sq).bitboard, put(p, piece, sq).board),
{
    let q = put(p, piece, sq);
    let o = piece_ord(piece);
    lemma_piece_letter(piece);
    assert forall|k: int, s: int| 0 <= k < 12 && 0 <= s < 64 implies (#[trigger] bit_at(q.bitboard[k], s) <==> q.board[s] == fen_letter(piece_of_ord(k))) by {
        lemma_piece_of_ord(k);
        lemma_piece_letter(piece_of_ord(k));
        lemma_bit_ops(p.bitboard[o], single(sq), s);
        lemma_single(sq, s);
        if k == o {
            assert(piece_of_ord(k) == piece);
        } else {
            assert(piece_of_ord(k) != piece);
            assert(fen_letter(piece_of_ord(k)) != fen_letter(piece)) by {
                lemma_piece_letter(piece_of_ord(k));
            }
        }
    }
    assert forall|s: int| 0 <= s < 64 implies (q.board[s] == '-' || #[trigger] piece_of_letter(q.board[s]) is Some) by {
        if s == sq {
            lemma_piece_letter(piece);
        }
    }
}

/// Removing a piece from its square (or from an empty square) keeps the state consistent.
pub proof fn lemma_lift_consistent(p: Position, piece: Piece, sq: int)
    requires
        consistent(p.bitboard, p.board),
        0 <= sq < 64,
        p.board[sq] == '-' || p.board[sq] == fen_letter(piece),
    ensures
        consistent(lift(p, piece, sq).bitboard, lift(p, piece, sq).board),
{
    let q = lift(p, piece, sq);
    let o = piece_ord(piece);
    lemma_piece_letter(piece);
    assert forall|k: int, s: int| 0 <= k < 12 && 0 <= s < 64 implies (#[trigger] bit_at(q.bitboard[k], s) <==> q.board[s] == fen_letter(piece_of_ord(k))) by {
        lemma_piece_of_ord(k);
        lemma_piece_letter(piece_of_ord(k));
        lemma_bit_ops(p.bitboard[o], !single(sq), s);
        lemma_bit_ops(single(sq), single(sq), s);
        lemma_single(sq, s);
        if k != o {
            assert(piece_of_ord(k) != piece);
        }
    }
}

/// Moves `piece` from square `from` to square `to`.
pub open spec fn shift_piece(p: Position, piece: Piece, from: int, to: int) -> Position {
    put(lift(p, piece, from), piece, to)
}

/// The rook of a colour.
pub open spec fn rook_of(c: Color) -> Piece {
    Piece { piece_type: PieceType::Rook, color: c }
}

/// The king of a colour.
pub open spec fn king_of(c: Color) -> Piece {
    Piece { piece_type: PieceType::King, color: c }
}

/// The king's home square of a colour (e1 or e8).
pub open spec fn king_home(c: Color) -> int {
    match c { Color::White => 60, Color::Black => 4 }
}

/// The king-side rook's home square (h1 or h8).
pub open spec fn king_rook_home(c: Color) -> int {
    match c { Color::White => 63, Color::Black => 7 }
}

/// Where the king-side rook lands when castling (f1 or f8).
pub open spec fn king_rook_castled(c: Color) -> int {
    match c { Color::White => 61, Color::Black => 5 }
}

/// The queen-side rook's home square (a1 or a8).
pub open spec fn queen_rook_home(c: Color) -> int {
    match c { Color::White => 56, Color::Black => 0 }
}

/// Where the queen-side rook lands when castling (d1 or d8).
pub open spec fn queen_rook_castled(c: Color) -> int {
    match c { Color::White => 59, Color::Black => 3 }
}

/// Whether the move kind takes a piece.
pub open spec fn is_capture(m: PieceMove) -> bool {
    m.move_type == MoveType::Capture || m.move_type is CaptureWithPromotion
}

/// A pawn moving onto the empty en-passant square.
pub open spec fn ep_capture(p: Position, m: PieceMove) -> bool {
    &&& m.piece.piece_type == PieceType::Pawn
    &&& piece_of_letter(p.board[m.target.idx()]) is None
    &&& p.en_passant == Some(m.target)
}

/// The square of the pawn taken en passant on `ep`: above it on the third row from the
/// bottom, below it otherwise.
pub open spec fn ep_victim(ep: FileRank) -> int {
    if 40 <= ep.idx() < 48 { ep.idx() - 8 } else { ep.idx() + 8 }
}

/// The piece a capture takes.
pub open spec fn captured_of(p: Position, m: PieceMove) -> Option<Piece> {
    match piece_of_letter(p.board[m.target.idx()]) {
        Some(x) => Some(x),
        None => if ep_capture(p, m) { Some(pawn_of_color(other(m.piece.color))) } else { None },
    }
}

/// Where the taken piece stood, when that is not the target square.
pub open spec fn captured_at(p: Position, m: PieceMove) -> Option<FileRank> {
    match piece_of_letter(p.board[m.target.idx()]) {
        Some(x) => None,
        None => if ep_capture(p, m) { Some(square_at(ep_victim(m.target))) } else { None },
    }
}

/// The pawn of a colour.
pub open spec fn pawn_of_color(c: Color) -> Piece {
    Piece { piece_type: PieceType::Pawn, color: c }
}

/// The board after taking the captured piece off.
pub open spec fn capture_step(p: Position, m: PieceMove) -> Position {
    match piece_of_letter(p.board[m.target.idx()]) {
        Some(x) => lift(p, x, m.target.idx()),
        None => if ep_capture(p, m) { lift(p, pawn_of_color(other(m.piece.color)), ep_victim(m.target)) } else { p },
    }
}

/// The board after the pieces of a move have been placed.
pub open spec fn placed(p: Position, m: PieceMove) -> Position {
    let f = m.from.idx();
    let t = m.target.idx();
    let c = m.piece.color;
    match m.move_type {
        MoveType::Capture => shift_piece(capture_step(p, m), m.piece, f, t),
        MoveType::Promotion(k) => put(lift(p, m.piece, f), Piece { piece_type: k, color: c }, t),
        MoveType::CaptureWithPromotion(k) => put(lift(capture_step(p, m), m.piece, f), Piece { piece_type: k, color: c }, t),
        MoveType::CastleKingSide => shift_piece(shift_piece(p, m.piece, f, t), rook_of(c), king_rook_home(c), king_rook_castled(c)),
        MoveType::CastleQueenSide => shift_piece(shift_piece(p, m.piece, f, t), rook_of(c), queen_rook_home(c), queen_rook_castled(c)),
        _ => shift_piece(p, m.piece, f, t),
    }
}

/// Castling rights after a plain piece move: a king loses both, a rook leaving its corner loses that side.
pub open spec fn rights_after_move(rights: u64, m: PieceMove) -> u64 {
    match (m.piece.color, m.piece.piece_type) {
        (Color::White, PieceType::King) => rights & 0xffff_ffff_ffff_fff3u64,
        (Color::Black, PieceType::King) => rights & 0xffff_ffff_ffff_fffcu64,
        (c, PieceType::Rook) => if m.from.idx() == queen_rook_home(c) {
            rights & !queen_side_bit(c)
        } else if m.from.idx() == king_rook_home(c) {
            rights & !king_side_bit(c)
        } else {
            rights
        },
        _ => rights,
    }
}

/// Castling rights after a move.
pub open spec fn rights_after(rights: u64, m: PieceMove) -> u64 {
    match m.move_type {
        MoveType::Promotion(_) => rights,
        MoveType::CaptureWithPromotion(_) => rights,
        MoveType::CastleKingSide | MoveType::CastleQueenSide => match m.piece.color {
            Color::White => rights & 0xffff_ffff_ffff_fff3u64,
            Color::Black => rights & 0xffff_ffff_ffff_fffcu64,
        },
        _ => rights_after_move(rights, m),
    }
}

/// The half-move clock after a move: zero after a pawn move or a capture, one more otherwise.
pub open spec fn half_after(half: u8, m: PieceMove) -> u8 {
    match m.move_type {
        MoveType::CastleKingSide | MoveType::CastleQueenSide => (half + 1) as u8,
        MoveType::Quiet => if m.piece.piece_type == PieceType::Pawn { 0 } else { (half + 1) as u8 },
        _ => 0,
    }
}

/// The en-passant square after a move: the one a double push names, none otherwise.
pub open spec fn ep_after(m: PieceMove) -> Option<FileRank> {
    match m.move_type {
        MoveType::DoublePush(e) => e,
        _ => None,
    }
}

/// What a move records for its reversal.
pub open spec fn undo_record(p: Position, m: PieceMove) -> UnmakeInfo {
    UnmakeInfo {
        piece_move: m,
        captured_piece: if is_capture(m) { captured_of(p, m) } else { None },
        captured_piece_position: if is_capture(m) { captured_at(p, m) } else { None },
        previous_hash: p.hash,
        previous_castling_rights: p.castling,
        half_moves: p.half,
        full_moves: p.full,
        en_passant: p.en_passant,
    }
}

/// The position after a move: pieces placed, side to move switched, rights, clocks and
/// en-passant square updated, the hash recomputed and the reversal record pushed.
#[verifier::opaque]
pub open spec fn make_spec(p: Position, m: PieceMove, z: &ZobristHashing) -> Position {
    let b = placed(p, m);
    let turn = other(p.turn);
    let castling = rights_after(p.castling, m);
    let ep = ep_after(m);
    Position {
        bitboard: b.bitboard,
        board: b.board,
        turn,
        castling,
        half: half_after(p.half, m),
        full: if p.turn == Color::Black { (p.full + 1) as u8 } else { p.full },
        en_passant: ep,
        hash: position_hash(z, b.bitboard, castling, ep, turn),
        history: p.history.push(undo_record(p, m)),
    }
}

/// What making a move needs so that nothing overflows or fails: clocks below their
/// limit, and an en-passant capture whose taken pawn is on the board.
pub open spec fn make_ok(p: Position, m: PieceMove) -> bool {
    &&& p.half < 255
    &&& p.turn == Color::Black ==> p.full < 255
    &&& (is_capture(m) && ep_capture(p, m)) ==> m.target.idx() < 56
}

/// The board after the last move's pieces are put back.
pub open spec fn unplaced(p: Position, u: UnmakeInfo) -> Position {
    let m = u.piece_move;
    let f = m.from.idx();
    let t = m.target.idx();
    let c = m.piece.color;
    let back = match u.captured_piece_position { Some(fr) => fr.idx(), None => t };
    match m.move_type {
        MoveType::Capture => put(shift_piece(p, m.piece, t, f), u.captured_piece.unwrap(), back),
        MoveType::CaptureWithPromotion(k) =>
            put(put(lift(p, Piece { piece_type: k, color: c }, t), m.piece, f), u.captured_piece.unwrap(), back),
        MoveType::Promotion(k) => put(lift(p, Piece { piece_type: k, color: c }, t), m.piece, f),
        MoveType::CastleQueenSide => put(put(lift(lift(p, king_of(c), king_home(c) - 2), rook_of(c), queen_rook_castled(c)),
            king_of(c), king_home(c)), rook_of(c), queen_rook_home(c)),
        MoveType::CastleKingSide => put(put(lift(lift(p, king_of(c), king_home(c) + 2), rook_of(c), king_rook_castled(c)),
            king_of(c), king_home(c)), rook_of(c), king_rook_home(c)),
        _ => shift_piece(p, m.piece, t, f),
    }
}

/// The position after the last move is taken back; unchanged when there is none.
pub open spec fn unmake_spec(p: Position) -> Position {
    if p.history.len() == 0 {
        p
    } else {
        let u = p.history.last();
        let b = unplaced(p, u);
        Position {
            bitboard: b.bitboard,
            board: b.board,
            turn: other(p.turn),
            castling: u.previous_castling_rights,
            half: u.half_moves,
            full: u.full_moves,
            en_passant: u.en_passant,
            hash: u.previous_hash,
            history: p.history.drop_last(),
        }
    }
}

/// Taking back the last move needs the taken piece of a capture on record.
pub open spec fn unmake_ok(p: Position) -> bool {
    p.history.len() > 0 && is_capture(p.history.last().piece_move) ==> p.history.last().captured_piece is Some
}

/// A move that fits the position: its piece stands on its origin; a quiet move, double
/// push or promotion goes to an empty square; a capture takes a piece on another square,
/// or takes en passant a pawn that stands behind the en-passant square; castling moves
/// the king from its home two squares towards a rook on its corner over empty squares.
pub open spec fn applicable(p: Position, m: PieceMove) -> bool {
    let f = m.from.idx();
    let t = m.target.idx();
    let c = m.piece.color;
    &&& p.board[f] == fen_letter(m.piece)
    &&& match m.move_type {
        MoveType::Quiet | MoveType::DoublePush(_) | MoveType::Promotion(_) => p.board[t] == '-',
        MoveType::Capture | MoveType::CaptureWithPromotion(_) => if p.board[t] != '-' {
            f != t
        } else {
            &&& ep_capture(p, m)
            &&& t < 56
            &&& p.board[ep_victim(m.target)] == fen_letter(pawn_of_color(other(c)))
        },
        MoveType::CastleKingSide => {
            &&& m.piece == king_of(c)
            &&& f == king_home(c)
            &&& t == king_home(c) + 2
            &&& p.board[t] == '-'
            &&& p.board[king_rook_castled(c)] == '-'
            &&& p.board[king_rook_home(c)] == fen_letter(rook_of(c))
        },
        MoveType::CastleQueenSide => {
            &&& m.piece == king_of(c)
            &&& f == king_home(c)
            &&& t == king_home(c) - 2
            &&& p.board[t] == '-'
            &&& p.board[queen_rook_castled(c)] == '-'
            &&& p.board[queen_rook_home(c)] == fen_letter(rook_of(c))
        },
    }
}

/// Moving a piece off a square it stands on and onto an empty square keeps the state consistent.
proof fn lemma_shift_consistent(p: Position, piece: Piece, f: int, t: int)
    requires
        consistent(p.bitboard, p.board),
        0 <= f < 64,
        0 <= t < 64,
        p.board[f] == fen_letter(piece),
        p.board[t] == '-' || t == f,
    ensures
        consistent(shift_piece(p, piece, f, t).bitboard, shift_piece(p, piece, f, t).board),
        shift_piece(p, piece, f, t).board == p.board.update(f, '-').update(t, fen_letter(piece)),
{
    lemma_lift_consistent(p, piece, f);
    lemma_put_consistent(lift(p, piece, f), piece, t);
}

/// Board and consistency facts for the pieces a capture takes off.
proof fn lemma_capture_step(p: Position, m: PieceMove)
    requires
        consistent(p.bitboard, p.board),
        applicable(p, m),
        is_capture(m),
    ensures
        consistent(capture_step(p, m).bitboard, capture_step(p, m).board),
        captured_of(p, m) is Some,
        ({
            let x = captured_of(p, m).unwrap();
            let back = match captured_at(p, m) { Some(fr) => fr.idx(), None => m.target.idx() };
            &&& 0 <= back < 64
            &&& back != m.from.idx()
            &&& p.board[back] == fen_letter(x)
            &&& capture_step(p, m).board == p.board.update(back, '-')
            &&& capture_step(p, m) == lift(p, x, back)
            &&& (back != m.target.idx() ==> p.board[m.target.idx()] == '-')
        }),
{
    let t = m.target.idx();
    lemma_letter_piece(p.board[t]);
    lemma_letter_piece('-');
    lemma_piece_letter(m.piece);
    lemma_piece_letter(pawn_of_color(other(m.piece.color)));
    if p.board[t] != '-' {
        assert(piece_of_letter(p.board[t]) is Some);
        lemma_lift_consistent(p, piece_of_letter(p.board[t]).unwrap(), t);
    } else {
        let v = ep_victim(m.target);
        lemma_lift_consistent(p, pawn_of_color(other(m.piece.color)), v);
        assert(square_at(v).idx() == v) by {
            crate::square::lemma_square_at(v);
        }
    }
}

/// Making an applicable move keeps board and bitboards consistent, and the pieces that
/// taking it back puts down restore the board.
proof fn lemma_make_unmake_board(p: Position, m: PieceMove, q: Position)
    requires
        consistent(p.bitboard, p.board),
        applicable(p, m),
        q.board == placed(p, m).board,
        q.bitboard == placed(p, m).bitboard,
    ensures
        consistent(q.bitboard, q.board),
        consistent(unplaced(q, undo_record(p, m)).bitboard, unplaced(q, undo_record(p, m)).board),
        unplaced(q, undo_record(p, m)).board == p.board,
{
    let f = m.from.idx();
    let t = m.target.idx();
    let c = m.piece.color;
    let u = undo_record(p, m);
    lemma_piece_letter(m.piece);
    lemma_letter_piece('-');
    match m.move_type {
        MoveType::Quiet | MoveType::DoublePush(_) => {
            lemma_shift_consistent(p, m.piece, f, t);
            lemma_shift_consistent(q, m.piece, t, f);
            assert(unplaced(q, u).board =~= p.board);
        },
        MoveType::Promotion(k) => {
            let np = Piece { piece_type: k, color: c };
            lemma_piece_letter(np);
            lemma_lift_consistent(p, m.piece, f);
            lemma_put_consistent(lift(p, m.piece, f), np, t);
            lemma_lift_consistent(q, np, t);
            lemma_put_consistent(lift(q, np, t), m.piece, f);
            assert(unplaced(q, u).board =~= p.board);
        },
        MoveType::Capture => {
            lemma_capture_step(p, m);
            let x = captured_of(p, m).unwrap();
            let back = match captured_at(p, m) { Some(fr) => fr.idx(), None => t };
            lemma_piece_letter(x);
            let p1 = capture_step(p, m);
            lemma_shift_consistent(p1, m.piece, f, t);
            lemma_shift_consistent(q, m.piece, t, f);
            let r = shift_piece(q, m.piece, t, f);
            lemma_put_consistent(r, x, back);
            assert(unplaced(q, u).board =~= p.board);
        },
        MoveType::CaptureWithPromotion(k) => {
            let np = Piece { piece_type: k, color: c };
            lemma_piece_letter(np);
            lemma_capture_step(p, m);
            let x = captured_of(p, m).unwrap();
            let back = match captured_at(p, m) { Some(fr) => fr.idx(), None => t };
            lemma_piece_letter(x);
            let p1 = capture_step(p, m);
            lemma_lift_consistent(p1, m.piece, f);
            lemma_put_consistent(lift(p1, m.piece, f), np, t);
            lemma_lift_consistent(q, np, t);
            let r1 = lift(q, np, t);
            lemma_put_consistent(r1, m.piece, f);
            let r2 = put(r1, m.piece, f);
            lemma_put_consistent(r2, x, back);
            assert(unplaced(q, u).board =~= p.board);
        },
        MoveType::CastleKingSide => {
            let rook = rook_of(c);
            lemma_piece_letter(rook);
            lemma_shift_consistent(p, m.piece, f, t);
            let p1 = shift_piece(p, m.piece, f, t);
            lemma_shift_consistent(p1, rook, king_rook_home(c), king_rook_castled(c));
            let k = king_of(c);
            lemma_lift_consistent(q, k, t);
            let r1 = lift(q, k, t);
            lemma_lift_consistent(r1, rook, king_rook_castled(c));
            let r2 = lift(r1, rook, king_rook_castled(c));
            lemma_put_consistent(r2, k, f);
            let r3 = put(r2, k, f);
            lemma_put_consistent(r3, rook, king_rook_home(c));
            assert(unplaced(q, u).board =~= p.board);
        },
        MoveType::CastleQueenSide => {
            let rook = rook_of(c);
            lemma_piece_letter(rook);
            lemma_shift_consistent(p, m.piece, f, t);
            let p1 = shift_piece(p, m.piece, f, t);
            lemma_shift_consistent(p1, rook, queen_rook_home(c), queen_rook_castled(c));
            let k = king_of(c);
            lemma_lift_consistent(q, k, t);
            let r1 = lift(q, k, t);
            lemma_lift_consistent(r1, rook, queen_rook_castled(c));
            let r2 = lift(r1, rook, queen_rook_castled(c));
            lemma_put_consistent(r2, k, f);
            let r3 = put(r2, k, f);
            lemma_put_consistent(r3, rook, queen_rook_home(c));
            assert(unplaced(q, u).board =~= p.board);
        },
    }
}

/// Making a move that fits a consistent position keeps board and bitboards consistent.
pub proof fn lemma_make_keeps_consistency(p: Position, m: PieceMove, z: &ZobristHashing)
    requires
        consistent(p.bitboard, p.board),
        applicable(p, m),
    ensures
        consistent(make_spec(p, m, z).bitboard, make_spec(p, m, z).board),
{
    reveal(make_spec);
    lemma_make_unmake_board(p, m, make_spec(p, m, z));
}

/// Making a move switches the side to move and moves each clock by at most one.
pub proof fn lemma_make_clocks(p: Position, m: PieceMove, z: &ZobristHashing)
    requires
        p.half < 255,
        p.turn == Color::Black ==> p.full < 255,
    ensures
        make_spec(p, m, z).half <= p.half + 1,
        make_spec(p, m, z).full <= p.full + 1,
        make_spec(p, m, z).turn == other(p.turn),
{
    reveal(make_spec);
}

/// After a move the hash is the hash of the new position computed from scratch.
pub proof fn lemma_make_hash_from_scratch(p: Position, m: PieceMove, z: &ZobristHashing)
    ensures
        make_spec(p, m, z).hash == position_hash(z, make_spec(p, m, z).bitboard, make_spec(p, m, z).castling,
            make_spec(p, m, z).en_passant, make_spec(p, m, z).turn),
{
    reveal(make_spec);
}

/// A move never grants a castling right that was not held before it.
pub proof fn lemma_make_never_adds_rights(p: Position, m: PieceMove, z: &ZobristHashing)
    ensures
        make_spec(p, m, z).castling & !p.castling == 0,
{
    reveal(make_spec);
    let r = p.castling;
    assert(forall|k: u64| #[trigger] ((r & k) & !r) == 0u64) by (bit_vector);
    assert((r & !r) == 0u64) by (bit_vector);
    let c = rights_after(r, m);
    let c2 = rights_after_move(r, m);
    assert(c2 == r || c2 == r & 0xffff_ffff_ffff_fff3u64 || c2 == r & 0xffff_ffff_ffff_fffcu64
        || c2 == r & !queen_side_bit(m.piece.color) || c2 == r & !king_side_bit(m.piece.color));
    assert(c == r || c == c2 || c == r & 0xffff_ffff_ffff_fff3u64 || c == r & 0xffff_ffff_ffff_fffcu64);
    assert((c2 & !r) == 0u64);
}

/// Placing a piece on an empty square and lifting it again gives back the position.
pub proof fn lemma_lift_undoes_put(p: Position, piece: Piece, sq: int)
    requires
        consistent(p.bitboard, p.board),
        0 <= sq < 64,
        p.board[sq] == '-',
    ensures
        lift(put(p, piece, sq), piece, sq) == p,
{
    lemma_piece_letter(piece);
    let k = piece_ord(piece);
    let b = p.bitboard[k];
    assert(!bit_at(b, sq));
    let j = sq as u64;
    assert(j < 64 && (b >> j) & 1u64 != 1u64 ==> (b | (1u64 << j)) & !(1u64 << j) == b) by (bit_vector);
    assert(put(p, piece, sq).bitboard[k] == b | single(sq));
    assert(lift(put(p, piece, sq), piece, sq).bitboard =~= p.bitboard);
    assert(lift(put(p, piece, sq), piece, sq).board =~= p.board);
}

/// Taking back a move just made, which fits a consistent position, gives back exactly
/// the position before it: pieces, side to move, rights, clocks, en-passant square,
/// hash and history.
pub proof fn lemma_unmake_undoes_make(p: Position, m: PieceMove, z: &ZobristHashing)
    requires
        consistent(p.bitboard, p.board),
        applicable(p, m),
    ensures
        unmake_ok(make_spec(p, m, z)),
        unmake_spec(make_spec(p, m, z)) == p,
{
    reveal(make_spec);
    let q = make_spec(p, m, z);
    let u = undo_record(p, m);
    assert(q.history.last() == u);
    lemma_make_unmake_board(p, m, q);
    let r = unplaced(q, u);
    lemma_consistent_unique(r.bitboard, p.bitboard, p.board);
    assert(q.history.drop_last() =~= p.history);
    if is_capture(m) {
        lemma_capture_step(p, m);
    }
    let back = unmake_spec(q);
    assert(back.turn == p.turn) by {
        match p.turn { Color::White => {}, Color::Black => {} }
    }
    assert(back == p);
}

/// The game: piece bitboards and board characters, the side to move, castling
/// rights, clocks, en-passant square, generated moves, hash and history.
#[derive(Debug)]
pub struct GameState {
    pub bitboard: [u64; 12],
    pub move_turn: Color,
    pub castling: Castling,
    pub halfmove_clock: Clock,
    pub fullmove_number: Clock,
    pub board: [char; 64],
    pub en_passant: Option<FileRank>,
    pub move_lookup_table: Arc<MoveLookupTable>,
    pub quiet_white_moves: Vec<PieceMove>,
    pub quiet_black_moves: Vec<PieceMove>,
    pub killer_white_moves: Vec<PieceMove>,
    pub killer_black_moves: Vec<PieceMove>,
    pub w_moves_mask: u64,
    pub b_moves_mask: u64,
    pub zobrist_hashing: Arc<ZobristHashing>,
    pub hash: u64,
    pub history: Vec<UnmakeInfo>,
}

/// Another handle to a shared value (std's `Arc::clone`): the value seen through the
/// new handle is the same value.
#[verifier::external_body]
fn share<T>(a: &Arc<T>) -> (r: Arc<T>)
    ensures
        r == *a,
{
    Arc::clone(a)
}

/// The generated move lists and attack masks are as they were.
pub open spec fn lists_kept(a: &GameState, b: &GameState) -> bool {
    &&& b.quiet_white_moves == a.quiet_white_moves
    &&& b.quiet_black_moves == a.quiet_black_moves
    &&& b.killer_white_moves == a.killer_white_moves
    &&& b.killer_black_moves == a.killer_black_moves
    &&& b.w_moves_mask == a.w_moves_mask
    &&& b.b_moves_mask == a.b_moves_mask
}

impl Clone for GameState {
    /// A copy of the position, clocks, rights, history and shared tables; the move lists
    /// start empty and the attack masks are copied.
    fn clone(&self) -> (g: Self)
        ensures
            g.pos() == self.pos(),
            g.move_lookup_table == self.move_lookup_table,
            g.zobrist_hashing == self.zobrist_hashing,
            g.w_moves_mask == self.w_moves_mask,
            g.b_moves_mask == self.b_moves_mask,
            g.quiet_white_moves@.len() == 0,
            g.quiet_black_moves@.len() == 0,
            g.killer_white_moves@.len() == 0,
            g.killer_black_moves@.len() == 0,
    {
        let history = self.history.clone();
        proof {
            assert(history@ =~= self.history@);
        }
        GameState {
            bitboard: self.bitboard,
            move_turn: self.move_turn,
            castling: self.castling,
            halfmove_clock: self.halfmove_clock,
            fullmove_number: self.fullmove_number,
            en_passant: self.en_passant,
            move_lookup_table: share(&self.move_lookup_table),
            quiet_white_moves: Vec::new(),
            quiet_black_moves: Vec::new(),
            killer_white_moves: Vec::new(),
            killer_black_moves: Vec::new(),
            w_moves_mask: self.w_moves_mask,
            b_moves_mask: self.b_moves_mask,
            zobrist_hashing: share(&self.zobrist_hashing),
            hash: self.hash,
            history,
            board: self.board,
        }
    }
}

impl GameState {
    /// The part of the state that moves change.
    pub open spec fn pos(&self) -> Position {
        Position {
            bitboard: self.bitboard@,
            board: self.board@,
            turn: self.move_turn,
            castling: self.castling.mask,
            half: self.halfmove_clock.0,
            full: self.fullmove_number.0,
            en_passant: self.en_passant,
            hash: self.hash,
            history: self.history@,
        }
    }

    /// Board and bitboards agree, and the shared tables are well formed.
    pub open spec fn wf(&self) -> bool {
        &&& consistent(self.bitboard@, self.board@)
        &&& self.move_lookup_table.wf()
        &&& self.zobrist_hashing.wf()
    }

    /// An empty board, White to move, full castling rights, clocks at zero.
    pub fn empty() -> (g: GameState)
        ensures
            g.wf(),
            g.bitboard@ == seq![0u64; 12],
            forall|i: int| 0 <= i < 64 ==> #[trigger] g.board@[i] == '-',
            g.move_turn == Color::White,
            g.castling.mask == 0b1111,
            g.halfmove_clock.0 == 0,
            g.fullmove_number.0 == 0,
            g.en_passant is None,
            g.hash == 0,
            g.history@.len() == 0,
            g.w_moves_mask == 0,
            g.b_moves_mask == 0,
            crate::zobrist::standard_keys(&*g.zobrist_hashing),
    {
        let move_lookup_table = Arc::new(MoveLookupTable::init());
        let zobrist_hashing = Arc::new(ZobristHashing::init());
        let g = GameState {
            move_lookup_table,
            bitboard: [0, 0, 0, 0, 0, 0, 0, 0, 0, 0, 0, 0],
            move_turn: Color::White,
            castling: Castling::new(),
            en_passant: None,
            halfmove_clock: Clock::new(),
            fullmove_number: Clock::new(),
            quiet_black_moves: Vec::new(),
            quiet_white_moves: Vec::new(),
            killer_black_moves: Vec::new(),
            killer_white_moves: Vec::new(),
            w_moves_mask: 0u64,
            b_moves_mask: 0u64,
            zobrist_hashing,
            hash: 0,
            history: Vec::new(),
            board: ['-'; 64],
        };
        proof {
            assert(g.bitboard@ =~= seq![0u64; 12]);
            assert forall|p: int, sq: int| 0 <= p < 12 && 0 <= sq < 64 implies (#[trigger] bit_at(g.bitboard@[p], sq) <==> g.board@[sq] == fen_letter(piece_of_ord(p))) by {
                lemma_bit_ops(0u64, 0u64, sq);
                lemma_piece_letter(piece_of_ord(p));
            }
        }
        g
    }

    /// Places `piece` on `file_rank`: the board shows its letter and its bitboard gains the square.
    pub fn set_piece(&mut self, piece: &Piece, file_rank: &FileRank)
        ensures
            lists_kept(&*old(self), &*final(self)),
            final(self).w_moves_mask == old(self).w_moves_mask,
            final(self).b_moves_mask == old(self).b_moves_mask,
            final(self).quiet_white_moves == old(self).quiet_white_moves,
            final(self).quiet_black_moves == old(self).quiet_black_moves,
            final(self).killer_white_moves == old(self).killer_white_moves,
            final(self).killer_black_moves == old(self).killer_black_moves,
            final(self).pos() == put(old(self).pos(), *piece, file_rank.idx()),
            final(self).move_lookup_table == old(self).move_lookup_table,
            final(self).zobrist_hashing == old(self).zobrist_hashing,
    {
        let i = file_rank.index();
        self.board[i] = piece.symbol();
        let b = piece.bitboard_index();
        let m = file_rank.mask();
        self.bitboard[b] = self.bitboard[b] | m;
        proof {
            assert(self.board@ =~= old(self).board@.update(i as int, fen_letter(*piece)));
            assert(self.bitboard@ =~= old(self).bitboard@.update(b as int, old(self).bitboard@[b as int] | single(file_rank.idx())));
        }
    }

    /// Removes `piece` from `file_rank`: the board shows '-' and its bitboard loses the square.
    pub fn clear_piece(&mut self, piece: &Piece, file_rank: &FileRank)
        ensures
            lists_kept(&*old(self), &*final(self)),
            final(self).w_moves_mask == old(self).w_moves_mask,
            final(self).b_moves_mask == old(self).b_moves_mask,
            final(self).quiet_white_moves == old(self).quiet_white_moves,
            final(self).quiet_black_moves == old(self).quiet_black_moves,
            final(self).killer_white_moves == old(self).killer_white_moves,
            final(self).killer_black_moves == old(self).killer_black_moves,
            final(self).pos() == lift(old(self).pos(), *piece, file_rank.idx()),
            final(self).move_lookup_table == old(self).move_lookup_table,
            final(self).zobrist_hashing == old(self).zobrist_hashing,
    {
        let i = file_rank.index();
        self.board[i] = '-';
        let b = piece.bitboard_index();
        let m = file_rank.mask();
        self.bitboard[b] = self.bitboard[b] & !m;
        proof {
            assert(self.board@ =~= old(self).board@.update(i as int, '-'));
            assert(self.bitboard@ =~= old(self).bitboard@.update(b as int, old(self).bitboard@[b as int] & !single(file_rank.idx())));
        }
    }

    /// The shared tables are well formed.
    pub open spec fn tables_ok(&self) -> bool {
        &&& self.move_lookup_table.wf()
        &&& self.zobrist_hashing.wf()
    }

    /// Makes a move: takes what it captures, places its pieces, updates castling rights,
    /// clocks, the en-passant square and the side to move, recomputes the hash and
    /// records what taking the move back needs.
    pub fn make_move(&mut self, piece_move: &PieceMove)
        requires
            old(self).tables_ok(),
            make_ok(old(self).pos(), *piece_move),
        ensures
            lists_kept(&*old(self), &*final(self)),
            final(self).pos() == make_spec(old(self).pos(), *piece_move, &*old(self).zobrist_hashing),
            final(self).move_lookup_table == old(self).move_lookup_table,
            final(self).zobrist_hashing == old(self).zobrist_hashing,
    {
        let ghost p0 = self.pos();
        let mut state = UnmakeInfo {
            piece_move: *piece_move,
            previous_hash: self.hash,
            en_passant: self.en_passant,
            captured_piece: None,
            captured_piece_position: None,
            previous_castling_rights: self.castling.mask,
            half_moves: self.halfmove_clock.counter(),
            full_moves: self.fullmove_number.counter(),
        };
        self.halfmove_clock.tick();
        let mut en_passant_is_updated = false;
        self.increment_full_move();
        let ghost p1 = self.pos();
        assert(p1.board == p0.board && p1.bitboard == p0.bitboard && p1.en_passant == p0.en_passant);
        match piece_move.move_type {
            MoveType::Capture => {
                self.handle_capture(piece_move, &mut state);
                self.move_piece(piece_move);
            },
            MoveType::Promotion(piece) => self.promote(piece_move, &piece),
            MoveType::CaptureWithPromotion(piece) => {
                self.capture_with_promotion(piece_move, &piece, &mut state);
            },
            MoveType::CastleKingSide => {
                self.set_and_clear(piece_move);
                match piece_move.piece.color {
                    Color::White => {
                        let rook = Piece { piece_type: PieceType::Rook, color: Color::White };
                        self.clear_piece(&rook, &FileRank::H1);
                        self.set_piece(&rook, &FileRank::F1);
                        self.castling.disable_white_castling_rights();
                    },
                    Color::Black => {
                        let rook = Piece { piece_type: PieceType::Rook, color: Color::Black };
                        self.clear_piece(&rook, &FileRank::H8);
                        self.set_piece(&rook, &FileRank::F8);
                        self.castling.disable_black_castling_rights();
                    },
                }
            },
            MoveType::CastleQueenSide => {
                self.set_and_clear(piece_move);
                match piece_move.piece.color {
                    Color::White => {
                        let rook = Piece { piece_type: PieceType::Rook, color: Color::White };
                        self.clear_piece(&rook, &FileRank::A1);
                        self.set_piece(&rook, &FileRank::D1);
                        self.castling.disable_white_castling_rights();
                    },
                    Color::Black => {
                        let rook = Piece { piece_type: PieceType::Rook, color: Color::Black };
                        self.clear_piece(&rook, &FileRank::A8);
                        self.set_piece(&rook, &FileRank::D8);
                        self.castling.disable_black_castling_rights();
                    },
                }
            },
            MoveType::DoublePush(en_passant_option) => {
                self.move_piece(piece_move);
                self.en_passant = en_passant_option;
                if en_passant_option.is_some() {
                    en_passant_is_updated = true;
                }
                self.halfmove_clock.reset();
            },
            MoveType::Quiet => self.move_piece(piece_move),
        }
        if !en_passant_is_updated {
            self.en_passant = None;
        }
        self.move_turn = self.move_turn.flip();
        let h = self.zobrist_hashing.get_hash_from_scratch(&*self);
        self.hash = h;
        self.history.push(state);
        proof {
            reveal(make_spec);
            assert(state == undo_record(p0, *piece_move));
            assert(self.pos().history =~= p0.history.push(undo_record(p0, *piece_move)));
        }
    }

    /// Takes back the last move recorded in the history: puts the pieces back, restores
    /// the captured piece, rights, clocks, en-passant square, side to move and hash.
    /// Returns whether there was a move to take back; with an empty history nothing changes.
    pub fn unmake_move(&mut self) -> (r: bool)
        requires
            unmake_ok(old(self).pos()),
        ensures
            lists_kept(&*old(self), &*final(self)),
            r == (old(self).history@.len() > 0),
            final(self).pos() == unmake_spec(old(self).pos()),
            final(self).move_lookup_table == old(self).move_lookup_table,
            final(self).zobrist_hashing == old(self).zobrist_hashing,
    {
        let ghost p0 = self.pos();
        match self.history.pop() {
            Some(last_move) => {
                let ghost p1 = self.pos();
                assert(last_move == p0.history.last());
                assert(p1.history == p0.history.drop_last());
                self.halfmove_clock = Clock::from(last_move.half_moves);
                self.fullmove_number = Clock::from(last_move.full_moves);
                self.castling = Castling::from_mask(last_move.previous_castling_rights);
                let m = last_move.piece_move;
                let color = m.piece.color;
                match m.move_type {
                    MoveType::Quiet | MoveType::DoublePush(_) => {
                        self.revert_move(&m);
                    },
                    MoveType::Capture => {
                        self.revert_move(&m);
                        let back = match last_move.captured_piece_position {
                            Some(fr) => fr,
                            None => m.target,
                        };
                        self.set_piece(&last_move.captured_piece.unwrap(), &back);
                    },
                    MoveType::CaptureWithPromotion(piece_type) => {
                        self.clear_piece(&Piece { piece_type, color }, &m.target);
                        self.set_piece(&m.piece, &m.from);
                        let back = match last_move.captured_piece_position {
                            Some(fr) => fr,
                            None => m.target,
                        };
                        self.set_piece(&last_move.captured_piece.unwrap(), &back);
                    },
                    MoveType::Promotion(piece_type) => {
                        self.clear_piece(&Piece { piece_type, color }, &m.target);
                        self.set_piece(&m.piece, &m.from);
                    },
                    MoveType::CastleQueenSide => {
                        let king = Piece { piece_type: PieceType::King, color };
                        let rook = Piece { piece_type: PieceType::Rook, color };
                        match color {
                            Color::White => {
                                self.clear_piece(&king, &FileRank::C1);
                                self.clear_piece(&rook, &FileRank::D1);
                                self.set_piece(&king, &FileRank::E1);
                                self.set_piece(&rook, &FileRank::A1);
                            },
                            Color::Black => {
                                self.clear_piece(&king, &FileRank::C8);
                                self.clear_piece(&rook, &FileRank::D8);
                                self.set_piece(&king, &FileRank::E8);
                                self.set_piece(&rook, &FileRank::A8);
                            },
                        }
                    },
                    MoveType::CastleKingSide => {
                        let king = Piece { piece_type: PieceType::King, color };
                        let rook = Piece { piece_type: PieceType::Rook, color };
                        match color {
                            Color::White => {
                                self.clear_piece(&king, &FileRank::G1);
                                self.clear_piece(&rook, &FileRank::F1);
                                self.set_piece(&king, &FileRank::E1);
                                self.set_piece(&rook, &FileRank::H1);
                            },
                            Color::Black => {
                                self.clear_piece(&king, &FileRank::G8);
                                self.clear_piece(&rook, &FileRank::F8);
                                self.set_piece(&king, &FileRank::E8);
                                self.set_piece(&rook, &FileRank::H8);
                            },
                        }
                    },
                }
                self.move_turn = self.move_turn.flip();
                self.en_passant = last_move.en_passant;
                self.hash = last_move.previous_hash;
                true
            },
            None => false,
        }
    }

    /// Adds one to the full-move number after Black's move.
    fn increment_full_move(&mut self)
        requires
            old(self).move_turn == Color::Black ==> old(self).fullmove_number.0 < 255,
        ensures
            lists_kept(&*old(self), &*final(self)),
            final(self).pos() == (Position {
                full: if old(self).move_turn == Color::Black { (old(self).fullmove_number.0 + 1) as u8 } else { old(self).fullmove_number.0 },
                ..old(self).pos()
            }),
            final(self).move_lookup_table == old(self).move_lookup_table,
            final(self).zobrist_hashing == old(self).zobrist_hashing,
    {
        if self.move_turn == Color::Black {
            self.fullmove_number.tick();
        }
    }

    /// Moves the piece, updating castling rights for king and rook moves and resetting
    /// the half-move clock for pawn moves.
    fn move_piece(&mut self, piece_move: &PieceMove)
        ensures
            lists_kept(&*old(self), &*final(self)),
            final(self).pos() == (Position {
                castling: rights_after_move(old(self).castling.mask, *piece_move),
                half: if piece_move.piece.piece_type == PieceType::Pawn { 0 } else { old(self).halfmove_clock.0 },
                ..shift_piece(old(self).pos(), piece_move.piece, piece_move.from.idx(), piece_move.target.idx())
            }),
            final(self).move_lookup_table == old(self).move_lookup_table,
            final(self).zobrist_hashing == old(self).zobrist_hashing,
    {
        match (piece_move.piece.color, piece_move.piece.piece_type) {
            (Color::White, PieceType::King) => self.castling.disable_white_castling_rights(),
            (Color::Black, PieceType::King) => self.castling.disable_black_castling_rights(),
            (Color::White, PieceType::Rook) => match piece_move.from {
                FileRank::A1 => self.castling.disable_queen_side(&Color::White),
                FileRank::H1 => self.castling.disable_king_side(&Color::White),
                _ => {},
            },
            (Color::Black, PieceType::Rook) => match piece_move.from {
                FileRank::A8 => self.castling.disable_queen_side(&Color::Black),
                FileRank::H8 => self.castling.disable_king_side(&Color::Black),
                _ => {},
            },
            (_, PieceType::Pawn) => self.halfmove_clock.reset(),
            _ => {},
        }
        self.set_and_clear(piece_move);
    }

    /// Lifts the piece from its origin and places it on the target.
    fn set_and_clear(&mut self, piece_move: &PieceMove)
        ensures
            lists_kept(&*old(self), &*final(self)),
            final(self).pos() == shift_piece(old(self).pos(), piece_move.piece, piece_move.from.idx(), piece_move.target.idx()),
            final(self).move_lookup_table == old(self).move_lookup_table,
            final(self).zobrist_hashing == old(self).zobrist_hashing,
    {
        self.clear_piece(&piece_move.piece, &piece_move.from);
        self.set_piece(&piece_move.piece, &piece_move.target);
    }

    /// Lifts the piece from the target and places it back on its origin.
    fn revert_move(&mut self, piece_move: &PieceMove)
        ensures
            lists_kept(&*old(self), &*final(self)),
            final(self).pos() == shift_piece(old(self).pos(), piece_move.piece, piece_move.target.idx(), piece_move.from.idx()),
            final(self).move_lookup_table == old(self).move_lookup_table,
            final(self).zobrist_hashing == old(self).zobrist_hashing,
    {
        self.clear_piece(&piece_move.piece, &piece_move.target);
        self.set_piece(&piece_move.piece, &piece_move.from);
    }

    /// Takes the captured piece, then promotes.
    fn capture_with_promotion(&mut self, piece_move: &PieceMove, promotion: &PieceType, state: &mut UnmakeInfo)
        requires
            old(state).captured_piece is None,
            old(state).captured_piece_position is None,
            ep_capture(old(self).pos(), *piece_move) ==> piece_move.target.idx() < 56,
        ensures
            lists_kept(&*old(self), &*final(self)),
            final(self).pos() == (Position {
                half: 0,
                ..put(lift(capture_step(old(self).pos(), *piece_move), piece_move.piece, piece_move.from.idx()),
                    Piece { piece_type: *promotion, color: piece_move.piece.color }, piece_move.target.idx())
            }),
            final(state).captured_piece == captured_of(old(self).pos(), *piece_move),
            final(state).captured_piece_position == captured_at(old(self).pos(), *piece_move),
            (UnmakeInfo { captured_piece: None, captured_piece_position: None, ..*final(state) })
                == (UnmakeInfo { captured_piece: None, captured_piece_position: None, ..*old(state) }),
            final(self).move_lookup_table == old(self).move_lookup_table,
            final(self).zobrist_hashing == old(self).zobrist_hashing,
    {
        self.handle_capture(piece_move, state);
        self.promote(piece_move, promotion);
    }

    /// Replaces the pawn by the promoted piece on the target and resets the half-move clock.
    fn promote(&mut self, piece_move: &PieceMove, promotion: &PieceType)
        ensures
            lists_kept(&*old(self), &*final(self)),
            final(self).pos() == (Position {
                half: 0,
                ..put(lift(old(self).pos(), piece_move.piece, piece_move.from.idx()),
                    Piece { piece_type: *promotion, color: piece_move.piece.color }, piece_move.target.idx())
            }),
            final(self).move_lookup_table == old(self).move_lookup_table,
            final(self).zobrist_hashing == old(self).zobrist_hashing,
    {
        self.halfmove_clock.reset();
        let new_piece = Piece { piece_type: *promotion, color: piece_move.piece.color };
        self.clear_piece(&piece_move.piece, &piece_move.from);
        self.set_piece(&new_piece, &piece_move.target);
    }

    /// Takes the piece on the target, or the pawn passed by en passant, recording what
    /// was taken and where; resets the half-move clock.
    fn handle_capture(&mut self, piece_move: &PieceMove, state: &mut UnmakeInfo)
        requires
            old(state).captured_piece is None,
            old(state).captured_piece_position is None,
            ep_capture(old(self).pos(), *piece_move) ==> piece_move.target.idx() < 56,
        ensures
            lists_kept(&*old(self), &*final(self)),
            final(self).pos() == (Position { half: 0, ..capture_step(old(self).pos(), *piece_move) }),
            final(state).captured_piece == captured_of(old(self).pos(), *piece_move),
            final(state).captured_piece_position == captured_at(old(self).pos(), *piece_move),
            (UnmakeInfo { captured_piece: None, captured_piece_position: None, ..*final(state) })
                == (UnmakeInfo { captured_piece: None, captured_piece_position: None, ..*old(state) }),
            final(self).move_lookup_table == old(self).move_lookup_table,
            final(self).zobrist_hashing == old(self).zobrist_hashing,
    {
        self.halfmove_clock.reset();
        if let Some(target_piece) = self.get_piece_at(&piece_move.target) {
            self.clear_piece(&target_piece, &piece_move.target);
            state.captured_piece = Some(target_piece);
        } else {
            if piece_move.piece.piece_type == PieceType::Pawn {
                if let Some(en_passant_file_rank) = self.en_passant {
                    if en_passant_file_rank == piece_move.target {
                        let idx = en_passant_file_rank.index();
                        let victim = if 40 <= idx && idx < 48 {
                            FileRank::get_file_rank((idx - 8) as u8)
                        } else {
                            FileRank::get_file_rank((idx + 8) as u8)
                        };
                        let target_file_rank = match victim {
                            Some(fr) => fr,
                            None => {
                                proof {
                                    assert(false);
                                }
                                FileRank::A8
                            },
                        };
                        let captured_piece = Piece { color: piece_move.piece.color.flip(), piece_type: PieceType::Pawn };
                        state.captured_piece = Some(captured_piece);
                        state.captured_piece_position = Some(target_file_rank);
                        self.clear_piece(&captured_piece, &target_file_rank);
                    }
                }
            }
        }
    }

    /// The piece standing on `file_rank`, read from the board characters.
    pub fn get_piece_at(&self, file_rank: &FileRank) -> (r: Option<Piece>)
        ensures
            r == piece_of_letter(self.board@[file_rank.idx()]),
    {
        let c = self.board[file_rank.index()];
        Piece::from_character(c)
    }

    /// All white pieces.
    pub fn get_white_pieces(&self) -> (r: u64)
        ensures
            r == white_of(self.bitboard@),
    {
        self.bitboard[0] | self.bitboard[1] | self.bitboard[2] | self.bitboard[3] | self.bitboard[4] | self.bitboard[5]
    }

    /// All black pieces.
    pub fn get_black_pieces(&self) -> (r: u64)
        ensures
            r == black_of(self.bitboard@),
    {
        self.bitboard[6] | self.bitboard[7] | self.bitboard[8] | self.bitboard[9] | self.bitboard[10] | self.bitboard[11]
    }

    /// All pieces.
    pub fn get_all_pieces(&self) -> (r: u64)
        ensures
            r == white_of(self.bitboard@) | black_of(self.bitboard@),
    {
        self.get_white_pieces() | self.get_black_pieces()
    }

    /// All empty squares.
    pub fn empty_square(&self) -> (r: u64)
        ensures
            r == !(white_of(self.bitboard@) | black_of(self.bitboard@)),
    {
        !self.get_all_pieces()
    }

    /// Whether the set has the square.
    pub fn has(bit_board: u64, file_rank: &FileRank) -> (r: bool)
        ensures
            r == bit_at(bit_board, file_rank.idx()),
    {
        let mask = file_rank.mask();
        proof {
            lemma_bit_test(bit_board, file_rank.idx());
        }
        (bit_board & mask) != 0
    }

    /// Whether the set has the square of the given index.
    pub fn get_by_index(bit_board: u64, index: u8) -> (r: bool)
        requires
            index < 64,
        ensures
            r == bit_at(bit_board, index as int),
    {
        let mask: u64 = 1u64 << index;
        proof {
            lemma_bit_test(bit_board, index as int);
        }
        (bit_board & mask) != 0
    }

    /// Whether any square of the king set is attacked.
    pub fn detect_check(&self, king_mask: &u64, attacks_mask: &u64) -> (r: bool)
        ensures
            r == (*king_mask & *attacks_mask > 0),
    {
        *king_mask & *attacks_mask > 0
    }
}

/// The union of the white bitboards.
pub open spec fn white_of(bb: Seq<u64>) -> u64 {
    bb[0] | bb[1] | bb[2] | bb[3] | bb[4] | bb[5]
}

/// The union of the black bitboards.
pub open spec fn black_of(bb: Seq<u64>) -> u64 {
    bb[6] | bb[7] | bb[8] | bb[9] | bb[10] | bb[11]
}

/// Testing against a single-bit mask tests that bit.
pub proof fn lemma_bit_test(b: u64, i: int)
    requires
        0 <= i < 64,
    ensures
        ((b & single(i)) != 0) == bit_at(b, i),
{
    let j = i as u64;
    assert(j < 64 ==> ((b & (1u64 << j)) != 0u64) == ((b >> j) & 1u64 == 1u64)) by (bit_vector);
}

} // verus!
