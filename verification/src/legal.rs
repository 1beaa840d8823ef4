//! Legal moves and move-path enumeration: the pseudo-legal moves of the side to move
//! that leave its king unattacked, and the count of move sequences of a given length.
use vstd::prelude::*;
use crate::types::{BoardSide, Color, PieceMove, other, uci_text};
use crate::magic::MoveLookupTable;
use crate::zobrist::ZobristHashing;
use crate::game::{GameState, Position, white_of, black_of, make_spec, applicable, consistent, lemma_unmake_undoes_make,
    lemma_make_keeps_consistency, ep_victim, pawn_of_color, ep_capture};
use crate::generation::{side_reach, generated, targets_mask, side_of, side_info, side_mask, side_quiet, side_loud, castle_list, group_quiet, group_loud, reach,
    can_castle_king_side, can_castle_queen_side, home_of};
use crate::game::{placed, shift_piece, capture_step, lift, put, ep_after, king_home, king_rook_home, king_rook_castled, queen_rook_home, queen_rook_castled, king_of, rook_of, lemma_bit_test};
use crate::bits::{bit_at, single, square_list, lemma_bit_ops, lemma_square_list};
use crate::square::{FileRank, square_at};
use vstd::string::StrSliceExecFns;
use rayon::iter::{IntoParallelRefIterator, ParallelIterator};
use crate::types::{MoveType, Piece, PieceType, fen_letter, piece_of_letter, piece_ord, piece_of_ord, lemma_piece_letter,
    lemma_letter_piece, lemma_piece_of_ord};
use crate::attacks::{concat_map, quiet_fill, capture_fill, move_to, pawn_single_push, pawn_double_push, pawn_captures,
    pawn_targets, pawn_quiet_to, pawn_loud_to, pawn_quiet_moves, pawn_loud_moves, ep_mask_of, pawn_pattern, forward, promotions,
    pawn_of, passed_square};
use crate::square::{RANK_3, RANK_6};

verus! {

/// The candidate moves of the side to move, in the order they are generated: captures
/// and promotions, castling moves, then quiet moves.
#[verifier::opaque]
pub open spec fn turn_moves(p: Position, t: &MoveLookupTable) -> Seq<PieceMove> {
    let all = white_of(p.bitboard) | black_of(p.bitboard);
    let mover = side_of(p.bitboard, p.castling, 0, 0, p.turn);
    let opp = side_of(p.bitboard, p.castling, 0, 0, other(p.turn));
    let castles = castle_list(BoardSide { opposite_attacks: side_mask(t, opp, all, p.en_passant), ..mover });
    side_loud(t, mover, all, p.en_passant) + castles + side_quiet(t, mover, all, p.en_passant)
}

/// After the move, no square that the opponent's pieces reach holds the mover's king.
#[verifier::opaque]
pub open spec fn king_safe_after(p: Position, m: PieceMove, t: &MoveLookupTable, z: &ZobristHashing) -> bool {
    let q = make_spec(p, m, z);
    let all = white_of(q.bitboard) | black_of(q.bitboard);
    let attacks = side_mask(t, side_of(q.bitboard, q.castling, 0, 0, q.turn), all, q.en_passant);
    !(side_of(q.bitboard, q.castling, 0, 0, other(q.turn)).king & attacks > 0)
}

/// Which moves of a list leave the mover's king safe, in list order.
pub open spec fn safe_moves(p: Position, l: Seq<PieceMove>, t: &MoveLookupTable, z: &ZobristHashing) -> Seq<PieceMove> {
    l.filter(|m: PieceMove| king_safe_after(p, m, t, z))
}

/// One more element of a list: the filtered list grows by it when it passes.
proof fn lemma_filter_step<A>(s: Seq<A>, k: int, pred: spec_fn(A) -> bool)
    requires
        0 <= k < s.len(),
    ensures
        s.take(k + 1).filter(pred) == if pred(s[k]) { s.take(k).filter(pred).push(s[k]) } else { s.take(k).filter(pred) },
{
    reveal(Seq::filter);
    assert(s.take(k + 1).drop_last() =~= s.take(k));
}

/// `front` written over the start of `old`: the entries of `old` past `front` stay.
pub open spec fn overwrite_front<A>(old: Seq<A>, front: Seq<A>) -> Seq<A> {
    if front.len() < old.len() { front + old.skip(front.len() as int) } else { front }
}

/// Writing one more entry at the end of the front.
proof fn lemma_overwrite_step<A>(old: Seq<A>, front: Seq<A>, m: A)
    ensures
        front.len() <= overwrite_front(old, front).len(),
        front.len() < overwrite_front(old, front).len() ==>
            overwrite_front(old, front.push(m)) == overwrite_front(old, front).update(front.len() as int, m),
        front.len() == overwrite_front(old, front).len() ==>
            overwrite_front(old, front.push(m)) == overwrite_front(old, front).push(m),
{
    if front.len() + 1 < old.len() {
        assert(overwrite_front(old, front.push(m)) =~= overwrite_front(old, front).update(front.len() as int, m));
    } else if front.len() + 1 == old.len() {
        assert(overwrite_front(old, front.push(m)) =~= overwrite_front(old, front).update(front.len() as int, m));
    } else {
        assert(overwrite_front(old, front.push(m)) =~= overwrite_front(old, front).push(m));
    }
}

/// Puts `m` at position `k`: over the entry there, or at the end.
fn put_at(buffer: &mut Vec<PieceMove>, k: usize, m: PieceMove)
    requires
        k <= old(buffer)@.len(),
    ensures
        k < old(buffer)@.len() ==> final(buffer)@ == old(buffer)@.update(k as int, m),
        k == old(buffer)@.len() ==> final(buffer)@ == old(buffer)@.push(m),
{
    if k < buffer.len() {
        buffer.set(k, m);
    } else {
        buffer.push(m);
    }
}

/// The attack mask of a side does not depend on the opponent's attacks recorded in it.
proof fn lemma_side_mask_attacks(t: &MoveLookupTable, side: BoardSide, x: u64, all: u64, ep: Option<crate::square::FileRank>)
    ensures
        side_mask(t, BoardSide { opposite_attacks: x, ..side }, all, ep) == side_mask(t, side, all, ep),
        side_quiet(t, BoardSide { opposite_attacks: x, ..side }, all, ep) == side_quiet(t, side, all, ep),
        side_loud(t, BoardSide { opposite_attacks: x, ..side }, all, ep) == side_loud(t, side, all, ep),
{
}

/// Each side has at most one king on the board.
pub open spec fn kings_unique(board: Seq<char>) -> bool {
    &&& forall|a: int, b: int| 0 <= a < 64 && 0 <= b < 64 && #[trigger] board[a] == 'K' && #[trigger] board[b] == 'K' ==> a == b
    &&& forall|a: int, b: int| 0 <= a < 64 && 0 <= b < 64 && #[trigger] board[a] == 'k' && #[trigger] board[b] == 'k' ==> a == b
}

/// An en-passant square is on the third or sixth row from the top, is empty, and the
/// pawn it lets be taken (the opponent's of the side to move) stands behind it.
pub open spec fn ep_inv(p: Position) -> bool {
    match p.en_passant {
        None => true,
        Some(e) => {
            &&& (16 <= e.idx() < 24 || 40 <= e.idx() < 48)
            &&& p.board[e.idx()] == '-'
            &&& p.board[ep_victim(e)] == fen_letter(pawn_of_color(other(p.turn)))
        },
    }
}

/// A position the generator and make/unmake work on: board and bitboards agree, at most
/// one king per side, and the en-passant square is well placed.
///
/// Each part is needed for the moves generated to be made safely. The castling path is
/// checked for blockers other than the side's kings, so a second king of the castling
/// side standing on the path would be taken for an empty square and the king moved onto
/// it, leaving board and bitboards disagreeing; with one king per side that cannot
/// happen. An en-passant square elsewhere would send the captured pawn off the board.
#[verifier::opaque]
pub open spec fn sound(p: Position) -> bool {
    &&& consistent(p.bitboard, p.board)
    &&& kings_unique(p.board)
    &&& ep_inv(p)
}

/// A generated move: it fits the position, belongs to the side to move, a double push
/// names the square it passes over (which is empty), and promotions are to a queen,
/// rook, bishop or knight.
#[verifier::opaque]
pub open spec fn fits(p: Position, m: PieceMove) -> bool {
    let f = m.from.idx();
    let t = m.target.idx();
    &&& applicable(p, m)
    &&& m.piece.color == p.turn
    &&& match m.move_type {
        MoveType::DoublePush(e) => {
            &&& m.piece == pawn_of_color(p.turn)
            &&& match p.turn {
                Color::White => f == t + 16 && 32 <= t < 40 && e == Some(square_at(t + 8)) && p.board[t + 8] == '-',
                Color::Black => f == t - 16 && 24 <= t < 32 && e == Some(square_at(t - 8)) && p.board[t - 8] == '-',
            }
        },
        MoveType::Promotion(k) => k != PieceType::King && k != PieceType::Pawn,
        MoveType::CaptureWithPromotion(k) => k != PieceType::King && k != PieceType::Pawn,
        _ => true,
    }
}

/// Every element of a concatenation comes from one of its parts.
proof fn lemma_concat_map_all(l: Seq<int>, f: spec_fn(int) -> Seq<PieceMove>, pred: spec_fn(PieceMove) -> bool)
    requires
        forall|i: int, j: int| 0 <= i < l.len() && 0 <= j < f(l[i]).len() ==> #[trigger] pred(#[trigger] f(l[i])[j]),
    ensures
        forall|j: int| 0 <= j < concat_map(l, f).len() ==> pred(#[trigger] concat_map(l, f)[j]),
    decreases l.len(),
{
    if l.len() > 0 {
        let rest = l.drop_first();
        assert forall|i: int, j: int| 0 <= i < rest.len() && 0 <= j < f(rest[i]).len() implies #[trigger] pred(#[trigger] f(rest[i])[j]) by {
            assert(rest[i] == l[i + 1]);
        }
        lemma_concat_map_all(rest, f, pred);
        let a = f(l[0]);
        let b = concat_map(rest, f);
        assert(concat_map(l, f) == a + b);
        assert forall|j: int| 0 <= j < concat_map(l, f).len() implies pred(#[trigger] concat_map(l, f)[j]) by {
            if j < a.len() {
                assert(concat_map(l, f)[j] == f(l[0])[j]);
            } else {
                assert(concat_map(l, f)[j] == b[j - a.len()]);
            }
        }
    }
}

/// What a square holds, read from the bitboards of a consistent position.
proof fn lemma_square_contents(p: Position, x: int)
    requires
        consistent(p.bitboard, p.board),
        0 <= x < 64,
    ensures
        !bit_at(white_of(p.bitboard), x) && !bit_at(black_of(p.bitboard), x) ==> p.board[x] == '-',
        bit_at(white_of(p.bitboard), x) ==> (piece_of_letter(p.board[x]) matches Some(pc) && pc.color == Color::White),
        bit_at(black_of(p.bitboard), x) ==> (piece_of_letter(p.board[x]) matches Some(pc) && pc.color == Color::Black),
        forall|k: int| 0 <= k < 12 ==> (#[trigger] bit_at(p.bitboard[k], x) <==> p.board[x] == fen_letter(piece_of_ord(k))),
{
    let bb = p.bitboard;
    lemma_bit_ops(bb[0], bb[1], x);
    lemma_bit_ops(bb[0] | bb[1], bb[2], x);
    lemma_bit_ops(bb[0] | bb[1] | bb[2], bb[3], x);
    lemma_bit_ops(bb[0] | bb[1] | bb[2] | bb[3], bb[4], x);
    lemma_bit_ops(bb[0] | bb[1] | bb[2] | bb[3] | bb[4], bb[5], x);
    lemma_bit_ops(bb[6], bb[7], x);
    lemma_bit_ops(bb[6] | bb[7], bb[8], x);
    lemma_bit_ops(bb[6] | bb[7] | bb[8], bb[9], x);
    lemma_bit_ops(bb[6] | bb[7] | bb[8] | bb[9], bb[10], x);
    lemma_bit_ops(bb[6] | bb[7] | bb[8] | bb[9] | bb[10], bb[11], x);
    lemma_letter_piece(p.board[x]);
    if piece_of_letter(p.board[x]) is Some {
        let pc = piece_of_letter(p.board[x]).unwrap();
        lemma_piece_letter(pc);
        assert(bit_at(bb[piece_ord(pc)], x));
    }
}

/// The quiet moves and captures of the non-pawn pieces of the side to move fit the position.
proof fn lemma_group_fits(p: Position, t: &MoveLookupTable, kind: PieceType)
    requires
        sound(p),
        kind != PieceType::Pawn,
    ensures
        ({
            let all = white_of(p.bitboard) | black_of(p.bitboard);
            let side = side_of(p.bitboard, p.castling, 0, 0, p.turn);
            let piece = Piece { piece_type: kind, color: p.turn };
            let sq = p.bitboard[piece_ord(piece)];
            let q = group_quiet(t, kind, p.turn, sq, all, !side.friendly_blockers, side.opposite_blockers);
            let l = group_loud(t, kind, p.turn, sq, all, !side.friendly_blockers, side.opposite_blockers);
            &&& forall|j: int| 0 <= j < q.len() ==> fits(p, #[trigger] q[j])
            &&& forall|j: int| 0 <= j < l.len() ==> fits(p, #[trigger] l[j])
        }),
{
    reveal(sound);
    reveal(fits);
    let all = white_of(p.bitboard) | black_of(p.bitboard);
    let side = side_of(p.bitboard, p.castling, 0, 0, p.turn);
    let piece = Piece { piece_type: kind, color: p.turn };
    lemma_piece_letter(piece);
    let sq = p.bitboard[piece_ord(piece)];
    let rf = !side.friendly_blockers;
    let opp = side.opposite_blockers;
    let pred = |m: PieceMove| fits(p, m);
    let fq = |s: int| concat_map(square_list(reach(t, kind, s, all) & rf), quiet_fill(square_at(s), piece, opp));
    let fk = |s: int| concat_map(square_list(reach(t, kind, s, all) & rf), capture_fill(square_at(s), piece, opp));
    lemma_square_list(sq);
    assert forall|i: int, j: int| 0 <= i < square_list(sq).len() && 0 <= j < fq(square_list(sq)[i]).len()
        implies #[trigger] pred(#[trigger] fq(square_list(sq)[i])[j]) by {
        let s = square_list(sq)[i];
        assert(bit_at(sq, s));
        let from = square_at(s);
        crate::square::lemma_square_at(s);
        lemma_square_contents(p, s);
        let targets = reach(t, kind, s, all) & rf;
        lemma_square_list(targets);
        let inner = quiet_fill(from, piece, opp);
        assert forall|a: int, b: int| 0 <= a < square_list(targets).len() && 0 <= b < inner(square_list(targets)[a]).len()
            implies #[trigger] pred(#[trigger] inner(square_list(targets)[a])[b]) by {
            let x = square_list(targets)[a];
            assert(bit_at(targets, x));
            lemma_bit_ops(reach(t, kind, s, all), rf, x);
            lemma_bit_ops(side.friendly_blockers, 0, x);
            crate::square::lemma_square_at(x);
            lemma_square_contents(p, x);
        }
        lemma_concat_map_all(square_list(targets), inner, pred);
    }
    lemma_concat_map_all(square_list(sq), fq, pred);
    assert forall|i: int, j: int| 0 <= i < square_list(sq).len() && 0 <= j < fk(square_list(sq)[i]).len()
        implies #[trigger] pred(#[trigger] fk(square_list(sq)[i])[j]) by {
        let s = square_list(sq)[i];
        assert(bit_at(sq, s));
        let from = square_at(s);
        crate::square::lemma_square_at(s);
        lemma_square_contents(p, s);
        let targets = reach(t, kind, s, all) & rf;
        lemma_square_list(targets);
        let inner = capture_fill(from, piece, opp);
        assert forall|a: int, b: int| 0 <= a < square_list(targets).len() && 0 <= b < inner(square_list(targets)[a]).len()
            implies #[trigger] pred(#[trigger] inner(square_list(targets)[a])[b]) by {
            let x = square_list(targets)[a];
            assert(bit_at(targets, x));
            lemma_bit_ops(reach(t, kind, s, all), rf, x);
            lemma_bit_ops(side.friendly_blockers, 0, x);
            crate::square::lemma_square_at(x);
            lemma_square_contents(p, x);
        }
        lemma_concat_map_all(square_list(targets), inner, pred);
    }
    lemma_concat_map_all(square_list(sq), fk, pred);
    assert(group_quiet(t, kind, p.turn, sq, all, rf, opp) == concat_map(square_list(sq), fq)) by {
        assert((|s: int| concat_map(square_list(reach(t, kind, s, all) & rf),
            quiet_fill(square_at(s), Piece { piece_type: kind, color: p.turn }, opp))) =~= fq);
    }
    assert(group_loud(t, kind, p.turn, sq, all, rf, opp) == concat_map(square_list(sq), fk)) by {
        assert((|s: int| concat_map(square_list(reach(t, kind, s, all) & rf),
            capture_fill(square_at(s), Piece { piece_type: kind, color: p.turn }, opp))) =~= fk);
    }
}

/// Where pawn pushes and captures can land.
proof fn lemma_pawn_geometry(c: Color, s: int, e: u64, opp: u64, ep: u64, x: int)
    requires
        0 <= s < 64,
        0 <= x < 64,
    ensures
        bit_at(pawn_single_push(c, s, e), x) ==> bit_at(e, x),
        bit_at(pawn_double_push(c, s, e), x) ==> bit_at(e, x) && match c {
            Color::White => s == x + 16 && 32 <= x < 40 && bit_at(e, x + 8),
            Color::Black => s == x - 16 && 24 <= x < 32 && bit_at(e, x - 8),
        },
        bit_at(pawn_captures(c, s, opp, ep), x) ==> bit_at(opp, x) || bit_at(ep, x),
{
    let ss = s as u64;
    let xx = x as u64;
    lemma_bit_ops(forward(c, single(s)), e, x);
    let third = match c { Color::White => RANK_3, Color::Black => RANK_6 };
    lemma_bit_ops(forward(c, pawn_single_push(c, s, e) & third), e, x);
    lemma_bit_ops(pawn_pattern(c, s), opp | ep, x);
    lemma_bit_ops(opp, ep, x);
    assert(ss < 64 && xx < 64 ==> (
        ((((((((1u64 << ss) >> 8u64) & e) & 0xFF0000000000u64) >> 8u64) >> xx) & 1u64 == 1u64)
            ==> ss == xx + 16 && 32 <= xx && xx < 40 && (e >> (xx + 8u64)) & 1u64 == 1u64)
        && ((((((((1u64 << ss) << 8u64) & e) & 0xFF0000u64) << 8u64) >> xx) & 1u64 == 1u64)
            ==> ss + 16 == xx && 24 <= xx && xx < 32 && (e >> (ss + 8u64)) & 1u64 == 1u64))) by (bit_vector);
    if bit_at(pawn_double_push(c, s, e), x) {
        lemma_bit_ops(forward(c, pawn_single_push(c, s, e) & third), e, x);
        match c {
            Color::White => {
                assert(((x + 8) as u64) == xx + 8u64);
            },
            Color::Black => {
                assert(((x - 8) as u64) == ss + 8u64);
            },
        }
    }
}

/// The pawn moves of the side to move to one target square fit the position.
proof fn lemma_pawn_target_fits(p: Position, s: int, x: int)
    requires
        sound(p),
        0 <= s < 64,
        0 <= x < 64,
        bit_at(p.bitboard[piece_ord(pawn_of(p.turn))], s),
    ensures
        ({
            let all = white_of(p.bitboard) | black_of(p.bitboard);
            let side = side_of(p.bitboard, p.castling, 0, 0, p.turn);
            let q = pawn_quiet_to(p.turn, s, !all, side.opposite_blockers, ep_mask_of(p.en_passant))(x);
            let l = pawn_loud_to(p.turn, s, !all, side.opposite_blockers, ep_mask_of(p.en_passant))(x);
            &&& forall|j: int| 0 <= j < q.len() ==> fits(p, #[trigger] q[j])
            &&& forall|j: int| 0 <= j < l.len() ==> fits(p, #[trigger] l[j])
        }),
{
    reveal(sound);
    reveal(fits);
    let c = p.turn;
    let all = white_of(p.bitboard) | black_of(p.bitboard);
    let side = side_of(p.bitboard, p.castling, 0, 0, c);
    let opp = side.opposite_blockers;
    let epm = ep_mask_of(p.en_passant);
    let e = !all;
    lemma_piece_letter(pawn_of(c));
    lemma_square_contents(p, s);
    lemma_square_contents(p, x);
    lemma_pawn_geometry(c, s, e, opp, epm, x);
    lemma_bit_ops(white_of(p.bitboard), black_of(p.bitboard), x);
    lemma_bit_ops(all, 0, x);
    crate::square::lemma_square_at(s);
    crate::square::lemma_square_at(x);
    if bit_at(pawn_double_push(c, s, e), x) {
        match c {
            Color::White => {
                lemma_square_contents(p, x + 8);
                lemma_bit_ops(white_of(p.bitboard), black_of(p.bitboard), x + 8);
                lemma_bit_ops(all, 0, x + 8);
                crate::square::lemma_square_at(x + 8);
            },
            Color::Black => {
                lemma_square_contents(p, x - 8);
                lemma_bit_ops(white_of(p.bitboard), black_of(p.bitboard), x - 8);
                lemma_bit_ops(all, 0, x - 8);
                crate::square::lemma_square_at(x - 8);
            },
        }
    }
    match p.en_passant {
        Some(ep) => {
            crate::bits::lemma_single(ep.idx(), x);
            ep.lemma_idx();
        },
        None => {
            lemma_bit_ops(0, 0, x);
        },
    }
    lemma_letter_piece('-');
    let from = square_at(s);
    let pw = pawn_of(c);
    let sp = pawn_single_push(c, s, e);
    let dp = pawn_double_push(c, s, e);
    let cp = pawn_captures(c, s, opp, epm);
    if bit_at(sp, x) {
        assert(fits(p, move_to(pw, from, x, MoveType::Quiet)));
        assert forall|k: int| 0 <= k < 4 implies fits(p, move_to(pw, from, x,
            MoveType::Promotion(#[trigger] crate::types::promotion_piece(k)))) by {}
    }
    if bit_at(dp, x) {
        assert(fits(p, move_to(pw, from, x, MoveType::DoublePush(Some(passed_square(c, x))))));
    }
    if bit_at(cp, x) {
        assert(fits(p, move_to(pw, from, x, MoveType::Capture)));
        assert forall|k: int| 0 <= k < 4 implies fits(p, move_to(pw, from, x,
            MoveType::CaptureWithPromotion(#[trigger] crate::types::promotion_piece(k)))) by {}
    }
    let q = pawn_quiet_to(c, s, e, opp, epm)(x);
    let l = pawn_loud_to(c, s, e, opp, epm)(x);
    let qa: Seq<PieceMove> = if bit_at(sp, x) && !crate::attacks::promotion_row(x) {
        seq![move_to(pw, from, x, MoveType::Quiet)] } else { Seq::empty() };
    let qb: Seq<PieceMove> = if bit_at(dp, x) {
        seq![move_to(pw, from, x, MoveType::DoublePush(Some(passed_square(c, x))))] } else { Seq::empty() };
    assert(q == qa + qb);
    assert forall|j: int| 0 <= j < q.len() implies fits(p, #[trigger] q[j]) by {
        if j < qa.len() {
            assert(q[j] == qa[j]);
        } else {
            assert(q[j] == qb[j - qa.len()]);
        }
    }
    let la: Seq<PieceMove> = if bit_at(cp, x) {
        if crate::attacks::promotion_row(x) { promotions(pw, from, x, true) }
        else { seq![move_to(pw, from, x, MoveType::Capture)] } } else { Seq::empty() };
    let lb: Seq<PieceMove> = if bit_at(sp, x) && crate::attacks::promotion_row(x) { promotions(pw, from, x, false) } else { Seq::empty() };
    assert(l == la + lb);
    assert forall|j: int| 0 <= j < l.len() implies fits(p, #[trigger] l[j]) by {
        if j < la.len() {
            assert(l[j] == la[j]);
        } else {
            assert(l[j] == lb[j - la.len()]);
        }
    }
}

/// All pawn moves of the side to move fit the position.
proof fn lemma_pawn_fits(p: Position)
    requires
        sound(p),
    ensures
        ({
            let all = white_of(p.bitboard) | black_of(p.bitboard);
            let side = side_of(p.bitboard, p.castling, 0, 0, p.turn);
            let q = pawn_quiet_moves(p.turn, side.pawns, !all, side.opposite_blockers, ep_mask_of(p.en_passant));
            let l = pawn_loud_moves(p.turn, side.pawns, !all, side.opposite_blockers, ep_mask_of(p.en_passant));
            &&& forall|j: int| 0 <= j < q.len() ==> fits(p, #[trigger] q[j])
            &&& forall|j: int| 0 <= j < l.len() ==> fits(p, #[trigger] l[j])
        }),
{
    reveal(sound);
    let c = p.turn;
    let all = white_of(p.bitboard) | black_of(p.bitboard);
    let side = side_of(p.bitboard, p.castling, 0, 0, c);
    let opp = side.opposite_blockers;
    let epm = ep_mask_of(p.en_passant);
    let e = !all;
    let pawns = side.pawns;
    assert(pawns == p.bitboard[piece_ord(pawn_of(c))]);
    let pred = |m: PieceMove| fits(p, m);
    let fq = |s: int| concat_map(square_list(pawn_targets(c, s, e, opp, epm)), pawn_quiet_to(c, s, e, opp, epm));
    let fl = |s: int| concat_map(square_list(pawn_targets(c, s, e, opp, epm)), pawn_loud_to(c, s, e, opp, epm));
    lemma_square_list(pawns);
    assert forall|i: int, j: int| 0 <= i < square_list(pawns).len() && 0 <= j < fq(square_list(pawns)[i]).len()
        implies #[trigger] pred(#[trigger] fq(square_list(pawns)[i])[j]) by {
        let s = square_list(pawns)[i];
        assert(bit_at(pawns, s));
        let targets = pawn_targets(c, s, e, opp, epm);
        lemma_square_list(targets);
        let inner = pawn_quiet_to(c, s, e, opp, epm);
        assert forall|a: int, b: int| 0 <= a < square_list(targets).len() && 0 <= b < inner(square_list(targets)[a]).len()
            implies #[trigger] pred(#[trigger] inner(square_list(targets)[a])[b]) by {
            let x = square_list(targets)[a];
            assert(bit_at(targets, x));
            lemma_pawn_target_fits(p, s, x);
        }
        lemma_concat_map_all(square_list(targets), inner, pred);
    }
    lemma_concat_map_all(square_list(pawns), fq, pred);
    assert forall|i: int, j: int| 0 <= i < square_list(pawns).len() && 0 <= j < fl(square_list(pawns)[i]).len()
        implies #[trigger] pred(#[trigger] fl(square_list(pawns)[i])[j]) by {
        let s = square_list(pawns)[i];
        assert(bit_at(pawns, s));
        let targets = pawn_targets(c, s, e, opp, epm);
        lemma_square_list(targets);
        let inner = pawn_loud_to(c, s, e, opp, epm);
        assert forall|a: int, b: int| 0 <= a < square_list(targets).len() && 0 <= b < inner(square_list(targets)[a]).len()
            implies #[trigger] pred(#[trigger] inner(square_list(targets)[a])[b]) by {
            let x = square_list(targets)[a];
            assert(bit_at(targets, x));
            lemma_pawn_target_fits(p, s, x);
        }
        lemma_concat_map_all(square_list(targets), inner, pred);
    }
    lemma_concat_map_all(square_list(pawns), fl, pred);
    assert(pawn_quiet_moves(c, pawns, e, opp, epm) == concat_map(square_list(pawns), fq)) by {
        assert((|s: int| concat_map(square_list(pawn_targets(c, s, e, opp, epm)), pawn_quiet_to(c, s, e, opp, epm))) =~= fq);
    }
    assert(pawn_loud_moves(c, pawns, e, opp, epm) == concat_map(square_list(pawns), fl)) by {
        assert((|s: int| concat_map(square_list(pawn_targets(c, s, e, opp, epm)), pawn_loud_to(c, s, e, opp, epm))) =~= fl);
    }
}

/// A square on the castling path that the path check finds free is empty.
proof fn lemma_path_square_empty(p: Position, side: BoardSide, mask: u64, x: int)
    requires
        sound(p),
        side == (BoardSide { opposite_attacks: side.opposite_attacks, ..side_of(p.bitboard, p.castling, 0, 0, p.turn) }),
        0 <= x < 64,
        x != home_of(p.turn),
        bit_at(side.king, home_of(p.turn)),
        bit_at(mask, x),
        ((side.opposite_blockers | side.friendly_blockers) & !side.king) & mask == 0,
    ensures
        p.board[x] == '-',
{
    reveal(sound);
    reveal(fits);
    let blockers = side.opposite_blockers | side.friendly_blockers;
    lemma_bit_ops(blockers & !side.king, mask, x);
    lemma_bit_ops(blockers, !side.king, x);
    lemma_bit_ops(side.king, 0, x);
    lemma_bit_ops(side.opposite_blockers, side.friendly_blockers, x);
    lemma_bit_ops(0, 0, x);
    lemma_square_contents(p, x);
    lemma_square_contents(p, home_of(p.turn));
    lemma_piece_letter(king_of(p.turn));
}

/// The castling moves of the side to move fit the position.
proof fn lemma_castle_fits(p: Position, attacks: u64)
    requires
        sound(p),
    ensures
        ({
            let side = BoardSide { opposite_attacks: attacks, ..side_of(p.bitboard, p.castling, 0, 0, p.turn) };
            forall|j: int| 0 <= j < castle_list(side).len() ==> fits(p, #[trigger] castle_list(side)[j])
        }),
{
    reveal(sound);
    reveal(fits);
    let c = p.turn;
    let side = BoardSide { opposite_attacks: attacks, ..side_of(p.bitboard, p.castling, 0, 0, c) };
    let home = home_of(c);
    let l = castle_list(side);
    if l.len() > 0 {
        assert(single(home) & side.king != 0);
        crate::bits::lemma_word_facts(single(home), side.king, 0, 0);
        lemma_bit_test(side.king, home);
        lemma_square_contents(p, home);
        lemma_piece_letter(king_of(c));
        lemma_piece_letter(rook_of(c));
        crate::square::lemma_square_at(home);
        crate::square::lemma_square_at(home + 2);
        crate::square::lemma_square_at(home - 2);
        assert(((0x7000000000000000u64 >> 61u64) & 1u64 == 1u64) && ((0x7000000000000000u64 >> 62u64) & 1u64 == 1u64)
            && ((0x70u64 >> 5u64) & 1u64 == 1u64) && ((0x70u64 >> 6u64) & 1u64 == 1u64)
            && (((0x1C00000000000000u64 | (1u64 << 57u64)) >> 58u64) & 1u64 == 1u64)
            && (((0x1C00000000000000u64 | (1u64 << 57u64)) >> 59u64) & 1u64 == 1u64)
            && (((0x1Cu64 | (1u64 << 1u64)) >> 2u64) & 1u64 == 1u64)
            && (((0x1Cu64 | (1u64 << 1u64)) >> 3u64) & 1u64 == 1u64)) by (bit_vector);
        if can_castle_king_side(side) {
            let corner: int = match c { Color::White => 63, Color::Black => 7 };
            crate::bits::lemma_word_facts(single(corner), side.rooks, 0, 0);
            lemma_bit_test(side.rooks, corner);
            lemma_square_contents(p, corner);
            lemma_path_square_empty(p, side, side.king_mask_castling, home + 1);
            lemma_path_square_empty(p, side, side.king_mask_castling, home + 2);
            assert(fits(p, PieceMove { piece: king_of(c), from: square_at(home), target: square_at(home + 2), move_type: MoveType::CastleKingSide }));
        }
        if can_castle_queen_side(side) {
            let corner: int = match c { Color::White => 56, Color::Black => 0 };
            let space = match c {
                Color::White => side.queen_mask_castling | (1u64 << 57u64),
                Color::Black => side.queen_mask_castling | (1u64 << 1u64),
            };
            crate::bits::lemma_word_facts(single(corner), side.rooks, 0, 0);
            lemma_bit_test(side.rooks, corner);
            lemma_square_contents(p, corner);
            lemma_path_square_empty(p, side, space, home - 1);
            lemma_path_square_empty(p, side, space, home - 2);
            assert(fits(p, PieceMove { piece: king_of(c), from: square_at(home), target: square_at(home - 2), move_type: MoveType::CastleQueenSide }));
        }
    }
}

/// Every element of a concatenation of two lists whose elements all fit fits.
proof fn lemma_fits_concat(p: Position, a: Seq<PieceMove>, b: Seq<PieceMove>)
    requires
        forall|j: int| 0 <= j < a.len() ==> fits(p, #[trigger] a[j]),
        forall|j: int| 0 <= j < b.len() ==> fits(p, #[trigger] b[j]),
    ensures
        forall|j: int| 0 <= j < (a + b).len() ==> fits(p, #[trigger] (a + b)[j]),
{
    assert forall|j: int| 0 <= j < (a + b).len() implies fits(p, #[trigger] (a + b)[j]) by {
        if j < a.len() {
            assert((a + b)[j] == a[j]);
        } else {
            assert((a + b)[j] == b[j - a.len()]);
        }
    }
}

/// Every move generated for the side to move of a sound position fits it.
pub proof fn lemma_turn_moves_fit(p: Position, t: &MoveLookupTable)
    requires
        sound(p),
    ensures
        forall|j: int| 0 <= j < turn_moves(p, t).len() ==> fits(p, #[trigger] turn_moves(p, t)[j]),
{
    reveal(turn_moves);
    reveal(sound);
    let c = p.turn;
    let all = white_of(p.bitboard) | black_of(p.bitboard);
    let mover = side_of(p.bitboard, p.castling, 0, 0, c);
    let opp = side_of(p.bitboard, p.castling, 0, 0, other(c));
    let rf = !mover.friendly_blockers;
    let ob = mover.opposite_blockers;
    let epm = ep_mask_of(p.en_passant);
    assert(mover.rooks == p.bitboard[piece_ord(Piece { piece_type: PieceType::Rook, color: c })]
        && mover.bishops == p.bitboard[piece_ord(Piece { piece_type: PieceType::Bishop, color: c })]
        && mover.queens == p.bitboard[piece_ord(Piece { piece_type: PieceType::Queen, color: c })]
        && mover.knights == p.bitboard[piece_ord(Piece { piece_type: PieceType::Knight, color: c })]
        && mover.king == p.bitboard[piece_ord(Piece { piece_type: PieceType::King, color: c })]) by {
        match c { Color::White => {}, Color::Black => {} }
    }
    lemma_group_fits(p, t, PieceType::Rook);
    lemma_group_fits(p, t, PieceType::Bishop);
    lemma_group_fits(p, t, PieceType::Queen);
    lemma_group_fits(p, t, PieceType::Knight);
    lemma_group_fits(p, t, PieceType::King);
    lemma_pawn_fits(p);
    let attacks = side_mask(t, opp, all, p.en_passant);
    lemma_castle_fits(p, attacks);
    let gq = |k: PieceType, b: u64| group_quiet(t, k, c, b, all, rf, ob);
    let gl = |k: PieceType, b: u64| group_loud(t, k, c, b, all, rf, ob);
    let l1 = gl(PieceType::Rook, mover.rooks) + gl(PieceType::Bishop, mover.bishops);
    lemma_fits_concat(p, gl(PieceType::Rook, mover.rooks), gl(PieceType::Bishop, mover.bishops));
    let l2 = l1 + gl(PieceType::Queen, mover.queens);
    lemma_fits_concat(p, l1, gl(PieceType::Queen, mover.queens));
    let l3 = l2 + gl(PieceType::Knight, mover.knights);
    lemma_fits_concat(p, l2, gl(PieceType::Knight, mover.knights));
    let l4 = l3 + pawn_loud_moves(c, mover.pawns, !all, ob, epm);
    lemma_fits_concat(p, l3, pawn_loud_moves(c, mover.pawns, !all, ob, epm));
    let l5 = l4 + gl(PieceType::King, mover.king);
    lemma_fits_concat(p, l4, gl(PieceType::King, mover.king));
    assert(l5 == side_loud(t, mover, all, p.en_passant));
    let q1 = gq(PieceType::Rook, mover.rooks) + gq(PieceType::Bishop, mover.bishops);
    lemma_fits_concat(p, gq(PieceType::Rook, mover.rooks), gq(PieceType::Bishop, mover.bishops));
    let q2 = q1 + gq(PieceType::Queen, mover.queens);
    lemma_fits_concat(p, q1, gq(PieceType::Queen, mover.queens));
    let q3 = q2 + gq(PieceType::Knight, mover.knights);
    lemma_fits_concat(p, q2, gq(PieceType::Knight, mover.knights));
    let q4 = q3 + pawn_quiet_moves(c, mover.pawns, !all, ob, epm);
    lemma_fits_concat(p, q3, pawn_quiet_moves(c, mover.pawns, !all, ob, epm));
    let q5 = q4 + gq(PieceType::King, mover.king);
    lemma_fits_concat(p, q4, gq(PieceType::King, mover.king));
    assert(q5 == side_quiet(t, mover, all, p.en_passant));
    let castles = castle_list(BoardSide { opposite_attacks: attacks, ..mover });
    lemma_fits_concat(p, l5, castles);
    lemma_fits_concat(p, l5 + castles, q5);
}

/// Making a generated move keeps a position sound.
pub proof fn lemma_make_keeps_sound(p: Position, m: PieceMove, z: &ZobristHashing)
    requires
        sound(p),
        fits(p, m),
    ensures
        sound(make_spec(p, m, z)),
{
    reveal(sound);
    reveal(fits);
    reveal(make_spec);
    let q = make_spec(p, m, z);
    lemma_make_keeps_consistency(p, m, z);
    let f = m.from.idx();
    let t = m.target.idx();
    let c = m.piece.color;
    lemma_piece_letter(m.piece);
    lemma_letter_piece(p.board[t]);
    if m.move_type is DoublePush {
        crate::square::lemma_square_at(t + 8);
        crate::square::lemma_square_at(t - 8);
    }
    let b = placed(p, m).board;
    assert(kings_unique(b)) by {
        match m.move_type {
            MoveType::Promotion(k) => {
                lemma_piece_letter(Piece { piece_type: k, color: c });
            },
            MoveType::CaptureWithPromotion(k) => {
                lemma_piece_letter(Piece { piece_type: k, color: c });
            },
            _ => {},
        }
    }
    assert(ep_inv(q));
}

/// The legal moves of the side to move: the generated moves that leave its king safe.
pub open spec fn legal_moves(p: Position, t: &MoveLookupTable, z: &ZobristHashing) -> Seq<PieceMove> {
    safe_moves(p, turn_moves(p, t), t, z)
}

/// The number of legal move sequences of length `depth` from the position.
pub open spec fn perft_count(p: Position, depth: nat, t: &MoveLookupTable, z: &ZobristHashing) -> nat
    decreases depth, 0nat,
{
    if depth == 0 {
        1
    } else {
        perft_sum(p, legal_moves(p, t, z), (depth - 1) as nat, t, z)
    }
}

/// The sum, over the moves of `l`, of the sequence counts of length `d` after each.
pub open spec fn perft_sum(p: Position, l: Seq<PieceMove>, d: nat, t: &MoveLookupTable, z: &ZobristHashing) -> nat
    decreases d, l.len(),
{
    if l.len() == 0 {
        0
    } else {
        perft_count(make_spec(p, l[0], z), d, t, z) + perft_sum(p, l.drop_first(), d, t, z)
    }
}

/// A generated move fits: it can be made (the clocks permitting) and taken back.
pub proof fn lemma_fits_facts(p: Position, m: PieceMove)
    requires
        fits(p, m),
        consistent(p.bitboard, p.board),
        p.half < 255,
        p.turn == Color::Black ==> p.full < 255,
    ensures
        applicable(p, m),
        crate::game::make_ok(p, m),
{
    reveal(fits);
    lemma_letter_piece(p.board[m.target.idx()]);
}

/// A sound position's board and bitboards agree.
pub proof fn lemma_sound_consistent(p: Position)
    requires
        sound(p),
    ensures
        consistent(p.bitboard, p.board),
{
    reveal(sound);
}

/// One level of the sequence count: one sequence of length zero, otherwise the sum over
/// the legal moves.
pub proof fn lemma_perft_count_unfold(p: Position, depth: nat, t: &MoveLookupTable, z: &ZobristHashing)
    ensures
        depth == 0 ==> perft_count(p, depth, t, z) == 1,
        depth > 0 ==> perft_count(p, depth, t, z) == perft_sum(p, legal_moves(p, t, z), (depth - 1) as nat, t, z),
{
}

/// The sum over the moves from position `i` on is the count after move `i` plus the sum
/// over the rest; it is zero past the end.
pub proof fn lemma_perft_sum_step(p: Position, l: Seq<PieceMove>, i: int, d: nat, t: &MoveLookupTable, z: &ZobristHashing)
    requires
        0 <= i <= l.len(),
    ensures
        i < l.len() ==> perft_sum(p, l.skip(i), d, t, z)
            == perft_count(make_spec(p, l[i], z), d, t, z) + perft_sum(p, l.skip(i + 1), d, t, z),
        i == l.len() ==> perft_sum(p, l.skip(i), d, t, z) == 0,
{
    if i < l.len() {
        assert(l.skip(i).drop_first() =~= l.skip(i + 1));
        assert(l.skip(i)[0] == l[i]);
    } else {
        assert(l.skip(i) =~= Seq::<PieceMove>::empty());
    }
}

/// Filtering keeps only elements of the list, so a property of all of them holds of what is kept.
pub proof fn lemma_safe_moves_fit(p: Position, l: Seq<PieceMove>, t: &MoveLookupTable, z: &ZobristHashing)
    requires
        forall|j: int| 0 <= j < l.len() ==> fits(p, #[trigger] l[j]),
    ensures
        forall|j: int| 0 <= j < safe_moves(p, l, t, z).len() ==> fits(p, #[trigger] safe_moves(p, l, t, z)[j]),
    decreases l.len(),
{
    reveal(Seq::filter);
    if l.len() > 0 {
        let pred = |m: PieceMove| king_safe_after(p, m, t, z);
        let front = l.drop_last();
        assert forall|j: int| 0 <= j < front.len() implies fits(p, #[trigger] front[j]) by {
            assert(front[j] == l[j]);
        }
        lemma_safe_moves_fit(p, front, t, z);
        assert(safe_moves(p, front, t, z) == front.filter(pred));
        assert(safe_moves(p, l, t, z) == l.filter(pred));
        assert forall|j: int| 0 <= j < safe_moves(p, l, t, z).len() implies fits(p, #[trigger] safe_moves(p, l, t, z)[j]) by {
            if j < front.filter(pred).len() {
                assert(safe_moves(p, l, t, z)[j] == front.filter(pred)[j]);
            } else {
                assert(safe_moves(p, l, t, z)[j] == l.last());
                assert(l.last() == l[l.len() - 1]);
            }
        }
    }
}

/// After `calculate_pseudolegal_moves`, the lists of the side to move hold exactly its
/// generated moves.
pub proof fn lemma_generated_turn_moves(g0: &GameState, g: &GameState)
    requires
        generated(g0, g, Color::White),
        generated(g0, g, Color::Black),
        g.pos() == g0.pos(),
    ensures
        g0.move_turn == Color::White ==> g.killer_white_moves@ + g.quiet_white_moves@ == turn_moves(g0.pos(), &*g0.move_lookup_table),
        g0.move_turn == Color::Black ==> g.killer_black_moves@ + g.quiet_black_moves@ == turn_moves(g0.pos(), &*g0.move_lookup_table),
{
    reveal(turn_moves);
    let p = g0.pos();
    let t = &*g0.move_lookup_table;
    let c = p.turn;
    let all = white_of(p.bitboard) | black_of(p.bitboard);
    let mover = side_of(p.bitboard, p.castling, 0, 0, c);
    let opp = side_of(p.bitboard, p.castling, 0, 0, other(c));
    lemma_side_mask_attacks(t, mover, side_info(g0, c).opposite_attacks, all, p.en_passant);
    lemma_side_mask_attacks(t, opp, side_info(g0, other(c)).opposite_attacks, all, p.en_passant);
    assert(side_info(g0, c) == (BoardSide { opposite_attacks: side_info(g0, c).opposite_attacks, ..mover }));
    assert(side_info(g0, other(c)) == (BoardSide { opposite_attacks: side_info(g0, other(c)).opposite_attacks, ..opp }));
    let om = side_mask(t, opp, all, p.en_passant);
    crate::bits::lemma_word_facts(om, 0, 0, 0);
    assert(targets_mask(Seq::<PieceMove>::empty()) == 0);
    assert(side_info(g, c) == (BoardSide { opposite_attacks: om, ..mover }));
    match c {
        Color::White => {
            assert(g.killer_white_moves@ + g.quiet_white_moves@ =~= turn_moves(p, t));
        },
        Color::Black => {
            assert(g.killer_black_moves@ + g.quiet_black_moves@ =~= turn_moves(p, t));
        },
    }
}

impl GameState {
    /// Whether the board characters and the bitboards describe the same pieces.
    fn boards_agree(&self) -> (b: bool)
        ensures
            b == consistent(self.bitboard@, self.board@),
    {
        let mut sq: usize = 0;
        while sq < 64
            invariant
                sq <= 64,
                forall|q: int| 0 <= q < sq ==> (self.board@[q] == '-' || #[trigger] piece_of_letter(self.board@[q]) is Some),
                forall|k: int, q: int| 0 <= k < 12 && 0 <= q < sq ==>
                    (#[trigger] bit_at(self.bitboard@[k], q) <==> self.board@[q] == fen_letter(piece_of_ord(k))),
            decreases 64 - sq,
        {
            let c = self.board[sq];
            if c != '-' && crate::types::get_piece_from_char(c).is_none() {
                proof {
                    assert(!(self.board@[sq as int] == '-' || piece_of_letter(self.board@[sq as int]) is Some));
                }
                return false;
            }
            let mut k: usize = 0;
            while k < 12
                invariant
                    k <= 12,
                    sq < 64,
                    c == self.board@[sq as int],
                    forall|j: int| 0 <= j < k ==>
                        (#[trigger] bit_at(self.bitboard@[j], sq as int) <==> c == fen_letter(piece_of_ord(j))),
                decreases 12 - k,
            {
                let piece = crate::types::piece_at_index(k);
                let word = self.bitboard[k];
                let set = (word >> (sq as u64)) & 1u64 == 1u64;
                if set != (c == piece.symbol()) {
                    proof {
                        assert(set == bit_at(self.bitboard@[k as int], sq as int));
                        assert(!(bit_at(self.bitboard@[k as int], sq as int) <==> self.board@[sq as int] == fen_letter(piece_of_ord(k as int))));
                    }
                    return false;
                }
                k = k + 1;
            }
            sq = sq + 1;
        }
        true
    }

    /// Whether the game is a position the generator works on: board and bitboards agree,
    /// each side has at most one king, and an en-passant square is on the third or sixth
    /// row from the top, empty, with the opponent's pawn behind it.
    pub fn is_sound(&self) -> (b: bool)
        ensures
            b == sound(self.pos()),
    {
        proof {
            reveal(sound);
        }
        if !self.boards_agree() {
            return false;
        }
        let mut white_seen = false;
        let mut black_seen = false;
        let mut sq: usize = 0;
        while sq < 64
            invariant
                sq <= 64,
                white_seen <==> exists|a: int| 0 <= a < sq && self.board@[a] == 'K',
                black_seen <==> exists|a: int| 0 <= a < sq && self.board@[a] == 'k',
                consistent(self.bitboard@, self.board@),
                forall|a: int, b: int| 0 <= a < sq && 0 <= b < sq && #[trigger] self.board@[a] == 'K' && #[trigger] self.board@[b] == 'K' ==> a == b,
                forall|a: int, b: int| 0 <= a < sq && 0 <= b < sq && #[trigger] self.board@[a] == 'k' && #[trigger] self.board@[b] == 'k' ==> a == b,
            decreases 64 - sq,
        {
            let c = self.board[sq];
            if c == 'K' {
                if white_seen {
                    proof {
                        let a = choose|a: int| 0 <= a < sq && self.board@[a] == 'K';
                        assert(self.board@[a] == 'K' && self.board@[sq as int] == 'K');
                        assert(!kings_unique(self.board@));
                        reveal(sound);
                    }
                    return false;
                }
                white_seen = true;
            } else if c == 'k' {
                if black_seen {
                    proof {
                        let a = choose|a: int| 0 <= a < sq && self.board@[a] == 'k';
                        assert(self.board@[a] == 'k' && self.board@[sq as int] == 'k');
                        assert(!kings_unique(self.board@));
                        reveal(sound);
                    }
                    return false;
                }
                black_seen = true;
            }
            sq = sq + 1;
        }
        match self.en_passant {
            None => true,
            Some(e) => {
                let i = e.index();
                let victim = if 40 <= i && i < 48 { i - 8 } else { i + 8 };
                if !((16 <= i && i < 24) || (40 <= i && i < 48)) {
                    return false;
                }
                let pawn = if self.move_turn == Color::White { 'p' } else { 'P' };
                self.board[i] == '-' && self.board[victim] == pawn
            },
        }
    }

    /// The generated moves of the side to move that do not leave its king attacked: each
    /// is made on a copy of the game, the opponent's replies are generated and the king
    /// is checked against them, then the move is taken back. The buffer receives the
    /// moves that pass, captures first, in generation order; their number is returned.
    pub fn fill_valid_moves(&self, buffer: &mut Vec<PieceMove>) -> (count: usize)
        requires
            self.tables_ok(),
            consistent(self.bitboard@, self.board@),
            self.halfmove_clock.0 < 255,
            self.move_turn == Color::Black ==> self.fullmove_number.0 < 255,
            self.move_turn == Color::White ==> forall|k: int| 0 <= k < (self.killer_white_moves@ + self.quiet_white_moves@).len()
                ==> applicable(self.pos(), #[trigger] (self.killer_white_moves@ + self.quiet_white_moves@)[k]),
            self.move_turn == Color::Black ==> forall|k: int| 0 <= k < (self.killer_black_moves@ + self.quiet_black_moves@).len()
                ==> applicable(self.pos(), #[trigger] (self.killer_black_moves@ + self.quiet_black_moves@)[k]),
        ensures
            self.move_turn == Color::White ==> final(buffer)@ == overwrite_front(old(buffer)@, safe_moves(self.pos(),
                self.killer_white_moves@ + self.quiet_white_moves@, &*self.move_lookup_table, &*self.zobrist_hashing)),
            self.move_turn == Color::Black ==> final(buffer)@ == overwrite_front(old(buffer)@, safe_moves(self.pos(),
                self.killer_black_moves@ + self.quiet_black_moves@, &*self.move_lookup_table, &*self.zobrist_hashing)),
            self.move_turn == Color::White ==> count == safe_moves(self.pos(),
                self.killer_white_moves@ + self.quiet_white_moves@, &*self.move_lookup_table, &*self.zobrist_hashing).len(),
            self.move_turn == Color::Black ==> count == safe_moves(self.pos(),
                self.killer_black_moves@ + self.quiet_black_moves@, &*self.move_lookup_table, &*self.zobrist_hashing).len(),
    {
        let (quite_moves, capture_moves) = if self.move_turn == Color::White {
            (&self.quiet_white_moves, &self.killer_white_moves)
        } else {
            (&self.quiet_black_moves, &self.killer_black_moves)
        };
        let ghost p = self.pos();
        let ghost t = &*self.move_lookup_table;
        let ghost z = &*self.zobrist_hashing;
        let ghost cands = capture_moves@ + quite_moves@;
        let ghost pred = |m: PieceMove| king_safe_after(p, m, t, z);
        let mut game: GameState = self.clone();
        let ghost old_buf = buffer@;
        let mut count: usize = 0;
        let n1 = capture_moves.len();
        let mut i: usize = 0;
        proof {
            assert(cands.take(0) =~= Seq::<PieceMove>::empty());
            reveal(Seq::filter);
            assert(cands.take(0).filter(pred) =~= Seq::<PieceMove>::empty());
            assert(overwrite_front(old_buf, Seq::<PieceMove>::empty()) =~= old_buf);
        }
        while i < n1
            invariant
                i <= n1,
                n1 == capture_moves@.len(),
                cands == capture_moves@ + quite_moves@,
                pred == (|m: PieceMove| king_safe_after(p, m, t, z)),
                forall|k: int| 0 <= k < cands.len() ==> applicable(p, #[trigger] cands[k]),
                game.pos() == p,
                game.move_lookup_table == self.move_lookup_table,
                game.zobrist_hashing == self.zobrist_hashing,
                t == &*self.move_lookup_table,
                z == &*self.zobrist_hashing,
                game.tables_ok(),
                consistent(p.bitboard, p.board),
                p.half < 255,
                p.turn == Color::Black ==> p.full < 255,
                buffer@ == overwrite_front(old_buf, cands.take(i as int).filter(pred)),
                count == cands.take(i as int).filter(pred).len(),
                cands.take(i as int).filter(pred).len() <= i,
            decreases n1 - i,
        {
            let piece_move = capture_moves[i];
            assert(cands[i as int] == piece_move);
            let check = game.leaves_check(&piece_move);
            proof {
                lemma_filter_step(cands, i as int, pred);
            }
            if !check {
                proof {
                    lemma_overwrite_step(old_buf, cands.take(i as int).filter(pred), piece_move);
                }
                put_at(buffer, count, piece_move);
                let filled = buffer.len();
                assert(count < filled);
                count = count + 1;
            }
            i = i + 1;
        }
        let n2 = quite_moves.len();
        let mut j: usize = 0;
        while j < n2
            invariant
                j <= n2,
                n1 == capture_moves@.len(),
                n2 == quite_moves@.len(),
                cands == capture_moves@ + quite_moves@,
                pred == (|m: PieceMove| king_safe_after(p, m, t, z)),
                forall|k: int| 0 <= k < cands.len() ==> applicable(p, #[trigger] cands[k]),
                game.pos() == p,
                game.move_lookup_table == self.move_lookup_table,
                game.zobrist_hashing == self.zobrist_hashing,
                t == &*self.move_lookup_table,
                z == &*self.zobrist_hashing,
                game.tables_ok(),
                consistent(p.bitboard, p.board),
                p.half < 255,
                p.turn == Color::Black ==> p.full < 255,
                buffer@ == overwrite_front(old_buf, cands.take(n1 + j).filter(pred)),
                count == cands.take(n1 + j).filter(pred).len(),
                cands.take(n1 + j).filter(pred).len() <= n1 + j,
            decreases n2 - j,
        {
            let piece_move = quite_moves[j];
            assert(cands[n1 + j] == piece_move);
            let check = game.leaves_check(&piece_move);
            proof {
                lemma_filter_step(cands, n1 + j, pred);
            }
            if !check {
                proof {
                    lemma_overwrite_step(old_buf, cands.take(n1 + j).filter(pred), piece_move);
                }
                put_at(buffer, count, piece_move);
                let filled = buffer.len();
                assert(count < filled);
                count = count + 1;
            }
            j = j + 1;
        }
        proof {
            assert(cands.take(n1 + n2) =~= cands);
        }
        count
    }

    /// Whether making the move leaves the mover's king on a square the opponent reaches;
    /// the move is made, the squares the opponent reaches computed, and the move taken back.
    fn leaves_check(&mut self, piece_move: &PieceMove) -> (check: bool)
        requires
            old(self).tables_ok(),
            consistent(old(self).bitboard@, old(self).board@),
            applicable(old(self).pos(), *piece_move),
            old(self).halfmove_clock.0 < 255,
            old(self).move_turn == Color::Black ==> old(self).fullmove_number.0 < 255,
        ensures
            final(self).pos() == old(self).pos(),
            final(self).move_lookup_table == old(self).move_lookup_table,
            final(self).zobrist_hashing == old(self).zobrist_hashing,
            check == !king_safe_after(old(self).pos(), *piece_move, &*old(self).move_lookup_table, &*old(self).zobrist_hashing),
    {
        let ghost p = self.pos();
        let ghost z = &*self.zobrist_hashing;
        proof {
            lemma_unmake_undoes_make(p, *piece_move, z);
            reveal(king_safe_after);
        }
        self.make_move(piece_move);
        let side = self.get_board_side_info(&self.move_turn);
        let attacks = side_reach(&self.move_lookup_table, &side, self.get_all_pieces(), &self.en_passant);
        let mover = self.move_turn.flip();
        let own = self.get_board_side_info(&mover);
        let check = self.detect_check(&own.king, &attacks);
        proof {
            let q = make_spec(p, *piece_move, z);
            let all = white_of(q.bitboard) | black_of(q.bitboard);
            lemma_side_mask_attacks(&*self.move_lookup_table, side_of(q.bitboard, q.castling, 0, 0, q.turn),
                side.opposite_attacks, all, q.en_passant);
            assert(side == (BoardSide { opposite_attacks: side.opposite_attacks, ..side_of(q.bitboard, q.castling, 0, 0, q.turn) }));
        }
        self.unmake_move();
        check
    }

    /// Generates the legal moves of the side to move into `buffer`; each fits the position.
    pub fn collect_legal_moves(&mut self, buffer: &mut Vec<PieceMove>) -> (count: usize)
        requires
            old(self).tables_ok(),
            sound(old(self).pos()),
            old(self).halfmove_clock.0 < 255,
            old(self).move_turn == Color::Black ==> old(self).fullmove_number.0 < 255,
        ensures
            final(buffer)@ == legal_moves(old(self).pos(), &*old(self).move_lookup_table, &*old(self).zobrist_hashing),
            count == final(buffer)@.len(),
            forall|j: int| 0 <= j < final(buffer)@.len() ==> fits(old(self).pos(), #[trigger] final(buffer)@[j]),
            final(self).pos() == old(self).pos(),
            final(self).move_lookup_table == old(self).move_lookup_table,
            final(self).zobrist_hashing == old(self).zobrist_hashing,
    {
        let ghost p = self.pos();
        let ghost t = &*self.move_lookup_table;
        let ghost z = &*self.zobrist_hashing;
        let ghost g0 = *self;
        self.calculate_pseudolegal_moves();
        proof {
            lemma_generated_turn_moves(&g0, &*self);
            lemma_turn_moves_fit(p, t);
            lemma_sound_consistent(p);
            assert forall|k: int| 0 <= k < turn_moves(p, t).len() implies applicable(p, #[trigger] turn_moves(p, t)[k]) by {
                lemma_fits_facts(p, turn_moves(p, t)[k]);
            }
        }
        buffer.clear();
        let count = self.fill_valid_moves(buffer);
        proof {
            lemma_safe_moves_fit(p, turn_moves(p, t), t, z);
        }
        count
    }

    /// Counts the legal move sequences of length `depth` from the current position: the
    /// legal moves are generated into `buffer`; one ply from the end their number is the
    /// count, otherwise each is made, counted below, and taken back. The position is left
    /// as it was.
    #[verifier::rlimit(40)]
    pub fn inner_perft(&mut self, depth: usize, buffer: &mut Vec<PieceMove>) -> (nodes: usize)
        requires
            old(self).tables_ok(),
            sound(old(self).pos()),
            old(self).halfmove_clock.0 + depth <= 255,
            old(self).fullmove_number.0 + depth <= 255,
            perft_count(old(self).pos(), depth as nat, &*old(self).move_lookup_table, &*old(self).zobrist_hashing) <= usize::MAX,
        ensures
            nodes == perft_count(old(self).pos(), depth as nat, &*old(self).move_lookup_table, &*old(self).zobrist_hashing),
            final(self).pos() == old(self).pos(),
            final(self).move_lookup_table == old(self).move_lookup_table,
            final(self).zobrist_hashing == old(self).zobrist_hashing,
        decreases depth,
    {
        if depth == 0 {
            return 1;
        }
        let ghost p = self.pos();
        let ghost t = &*self.move_lookup_table;
        let ghost z = &*self.zobrist_hashing;
        let ghost g0 = *self;
        self.calculate_pseudolegal_moves();
        proof {
            lemma_generated_turn_moves(&g0, &*self);
            lemma_turn_moves_fit(p, t);
            lemma_sound_consistent(p);
            assert forall|k: int| 0 <= k < turn_moves(p, t).len() implies applicable(p, #[trigger] turn_moves(p, t)[k]) by {
                lemma_fits_facts(p, turn_moves(p, t)[k]);
            }
        }
        buffer.clear();
        let count = self.fill_valid_moves(buffer);
        let ghost legal = buffer@;
        proof {
            lemma_safe_moves_fit(p, turn_moves(p, t), t, z);
            assert(legal == legal_moves(p, t, z));
            assert(legal.skip(0) =~= legal);
        }
        let ghost total = perft_sum(p, legal, (depth - 1) as nat, t, z);
        proof {
            lemma_perft_count_unfold(p, depth as nat, t, z);
        }
        if depth == 1 {
            proof {
                lemma_perft_sum_last_ply(p, legal, t, z);
            }
            return count;
        }
        let mut result: usize = 0;
        let mut i: usize = 0;
        while i < count
            invariant
                count == legal.len(),
                buffer@ == legal,
                i <= count,
                self.pos() == p,
                self.move_lookup_table == g0.move_lookup_table,
                self.zobrist_hashing == g0.zobrist_hashing,
                t == &*self.move_lookup_table,
                z == &*self.zobrist_hashing,
                self.tables_ok(),
                sound(p),
                1 <= depth,
                p.half + depth <= 255,
                p.full + depth <= 255,
                forall|j: int| 0 <= j < legal.len() ==> fits(p, #[trigger] legal[j]),
                total == perft_sum(p, legal, (depth - 1) as nat, t, z),
                total <= usize::MAX,
                result + perft_sum(p, legal.skip(i as int), (depth - 1) as nat, t, z) == total,
            decreases count - i,
        {
            let piece_move = buffer[i];
            proof {
                assert(fits(p, legal[i as int]));
                lemma_sound_consistent(p);
                lemma_fits_facts(p, piece_move);
                crate::game::lemma_make_clocks(p, piece_move, z);
                lemma_perft_sum_step(p, legal, i as int, (depth - 1) as nat, t, z);
                lemma_make_keeps_sound(p, piece_move, z);
                lemma_unmake_undoes_make(p, piece_move, z);
            }
            self.make_move(&piece_move);
            let mut next: Vec<PieceMove> = Vec::new();
            let n = self.inner_perft(depth - 1, &mut next);
            result = result + n;
            let taken_back = self.unmake_move();
            i = i + 1;
        }
        proof {
            lemma_perft_sum_step(p, legal, count as int, (depth - 1) as nat, t, z);
        }
        result
    }

    /// Counts the legal move sequences of length `depth` (at least one) from the position,
    /// with the count below each legal move, listed with the move's UCI text in the order
    /// the moves are generated. The total is the sum of the per-move counts.
    pub fn perft(self, depth: usize) -> (r: (usize, Vec<(String, usize)>))
        requires
            self.tables_ok(),
            sound(self.pos()),
            1 <= depth,
            self.halfmove_clock.0 + depth <= 255,
            self.fullmove_number.0 + depth <= 255,
            perft_count(self.pos(), depth as nat, &*self.move_lookup_table, &*self.zobrist_hashing) <= usize::MAX,
        ensures
            r.0 == perft_count(self.pos(), depth as nat, &*self.move_lookup_table, &*self.zobrist_hashing),
            r.0 == counts_total(r.1@),
            r.1@.len() == legal_moves(self.pos(), &*self.move_lookup_table, &*self.zobrist_hashing).len(),
            forall|j: int| 0 <= j < r.1@.len() ==> {
                let m = #[trigger] legal_moves(self.pos(), &*self.move_lookup_table, &*self.zobrist_hashing)[j];
                &&& r.1@[j].0@ == uci_text(m)
                &&& r.1@[j].1 == perft_count(make_spec(self.pos(), m, &*self.zobrist_hashing), (depth - 1) as nat,
                    &*self.move_lookup_table, &*self.zobrist_hashing)
            },
    {
        let ghost p = self.pos();
        let ghost t = &*self.move_lookup_table;
        let ghost z = &*self.zobrist_hashing;
        let mut game = self.clone();
        let mut valid_attacks: Vec<PieceMove> = Vec::new();
        let count = game.collect_legal_moves(&mut valid_attacks);
        let ghost legal = valid_attacks@;
        proof {
            assert(legal.skip(0) =~= legal);
        }
        let ghost total = perft_sum(p, legal, (depth - 1) as nat, t, z);
        proof {
            lemma_perft_count_unfold(p, depth as nat, t, z);
            assert forall|j: int| 0 <= j < legal.len() implies count_below_ok(&game, #[trigger] legal[j], (depth - 1) as usize) by {
                lemma_perft_sum_part(p, legal, 0, j, (depth - 1) as nat, t, z);
            }
        }
        let results = par_count_below(&game, &valid_attacks, depth - 1);
        let mut total_nodes: usize = 0;
        let mut i: usize = 0;
        while i < count
            invariant
                count == legal.len(),
                results@.len() == count,
                i <= count,
                total == perft_sum(p, legal, (depth - 1) as nat, t, z),
                total <= usize::MAX,
                total_nodes + perft_sum(p, legal.skip(i as int), (depth - 1) as nat, t, z) == total,
                forall|j: int| 0 <= j < count ==> (#[trigger] results@[j]).1 == perft_count(make_spec(p, legal[j], z), (depth - 1) as nat, t, z),
                total_nodes == counts_total(results@.take(i as int)),
            decreases count - i,
        {
            proof {
                lemma_perft_sum_step(p, legal, i as int, (depth - 1) as nat, t, z);
                assert(results@.take(i + 1).drop_last() =~= results@.take(i as int));
            }
            total_nodes = total_nodes + results[i].1;
            i = i + 1;
        }
        proof {
            lemma_perft_sum_step(p, legal, count as int, (depth - 1) as nat, t, z);
            assert(results@.take(count as int) =~= results@);
        }
        (total_nodes, results)
    }
}

/// The counts of a list of (move text, count) pairs, added up.
pub open spec fn counts_total(v: Seq<(String, usize)>) -> int
    decreases v.len(),
{
    if v.len() == 0 {
        0
    } else {
        counts_total(v.drop_last()) + v.last().1
    }
}

/// The position of the first move of the list whose UCI text is `text`.
pub open spec fn first_with_text(l: Seq<PieceMove>, text: Seq<char>, i: int) -> Option<int>
    decreases l.len() - i,
{
    if i >= l.len() || i < 0 {
        None
    } else if uci_text(l[i]) == text {
        Some(i)
    } else {
        first_with_text(l, text, i + 1)
    }
}

/// Whether two texts are equal, character by character.
fn same_text(a: &String, b: &str) -> (r: bool)
    ensures
        r == (a@ == b@),
{
    let x = a.as_str();
    let n = x.unicode_len();
    let m = b.unicode_len();
    if n != m {
        return false;
    }
    let mut i: usize = 0;
    while i < n
        invariant
            i <= n,
            n == a@.len(),
            m == b@.len(),
            n == m,
            x@ == a@,
            forall|k: int| 0 <= k < i ==> a@[k] == b@[k],
        decreases n - i,
    {
        if x.get_char(i) != b.get_char(i) {
            return false;
        }
        i = i + 1;
    }
    proof {
        assert(a@ =~= b@);
    }
    true
}

impl PieceMove {
    /// The legal move of the game whose UCI text is `uci` (the first, in generation
    /// order), if there is one.
    pub fn from_uci(uci: &str, game: &GameState) -> (r: Option<PieceMove>)
        requires
            game.tables_ok(),
            sound(game.pos()),
            game.halfmove_clock.0 < 255,
            game.move_turn == Color::Black ==> game.fullmove_number.0 < 255,
        ensures
            ({
                let l = legal_moves(game.pos(), &*game.move_lookup_table, &*game.zobrist_hashing);
                match first_with_text(l, uci@, 0) {
                    Some(j) => r == Some(l[j]),
                    None => r is None,
                }
            }),
    {
        let mut copy = game.clone();
        let mut moves: Vec<PieceMove> = Vec::new();
        let count = copy.collect_legal_moves(&mut moves);
        let ghost l = moves@;
        let mut i: usize = 0;
        while i < count
            invariant
                i <= count,
                count == l.len(),
                moves@ == l,
                l == legal_moves(game.pos(), &*game.move_lookup_table, &*game.zobrist_hashing),
                first_with_text(l, uci@, 0) == first_with_text(l, uci@, i as int),
            decreases count - i,
        {
            let text = moves[i].uci();
            if same_text(&text, uci) {
                return Some(moves[i]);
            }
            i = i + 1;
        }
        None
    }
}

/// A node counter for checking move generation against other programs; the map is kept
/// for positions seen while counting.
pub struct CalculationObject {
    pub unique_position: std::collections::HashMap<String, usize>,
}

impl CalculationObject {
    /// A counter with an empty map.
    pub fn new() -> (c: CalculationObject)
        ensures
            c.unique_position@ == Map::<String, usize>::empty(),
    {
        CalculationObject { unique_position: std::collections::HashMap::new() }
    }

    /// Counts the legal move sequences of length `depth` from the game's position: each
    /// legal move is made on a copy of the game and the copy's sequences are counted.
    /// The game keeps its position.
    pub fn get_total_nodes(&mut self, game: &mut GameState, depth: u8) -> (nodes: usize)
        requires
            old(game).tables_ok(),
            sound(old(game).pos()),
            old(game).halfmove_clock.0 + depth <= 255,
            old(game).fullmove_number.0 + depth <= 255,
            perft_count(old(game).pos(), depth as nat, &*old(game).move_lookup_table, &*old(game).zobrist_hashing) <= usize::MAX,
        ensures
            nodes == perft_count(old(game).pos(), depth as nat, &*old(game).move_lookup_table, &*old(game).zobrist_hashing),
            final(game).pos() == old(game).pos(),
            final(game).move_lookup_table == old(game).move_lookup_table,
            final(game).zobrist_hashing == old(game).zobrist_hashing,
        decreases depth,
    {
        if depth == 0 {
            return 1;
        }
        let ghost p = game.pos();
        let ghost t = &*game.move_lookup_table;
        let ghost z = &*game.zobrist_hashing;
        let mut valid: Vec<PieceMove> = Vec::new();
        let count = game.collect_legal_moves(&mut valid);
        let ghost legal = valid@;
        let ghost total = perft_sum(p, legal, (depth - 1) as nat, t, z);
        proof {
            lemma_perft_count_unfold(p, depth as nat, t, z);
            assert(legal.skip(0) =~= legal);
        }
        let mut nodes: usize = 0;
        let mut i: usize = 0;
        while i < count
            invariant
                count == legal.len(),
                valid@ == legal,
                i <= count,
                game.pos() == p,
                t == &*game.move_lookup_table,
                z == &*game.zobrist_hashing,
                game.tables_ok(),
                sound(p),
                1 <= depth,
                p.half + depth <= 255,
                p.full + depth <= 255,
                forall|j: int| 0 <= j < legal.len() ==> fits(p, #[trigger] legal[j]),
                legal == legal_moves(p, t, z),
                total == perft_sum(p, legal, (depth - 1) as nat, t, z),
                total <= usize::MAX,
                nodes + perft_sum(p, legal.skip(i as int), (depth - 1) as nat, t, z) == total,
            decreases count - i,
        {
            let valid_move = valid[i];
            proof {
                assert(fits(p, legal[i as int]));
                lemma_sound_consistent(p);
                lemma_fits_facts(p, valid_move);
                crate::game::lemma_make_clocks(p, valid_move, z);
                lemma_perft_sum_step(p, legal, i as int, (depth - 1) as nat, t, z);
                lemma_make_keeps_sound(p, valid_move, z);
            }
            let mut clone_game = game.clone();
            clone_game.make_move(&valid_move);
            let move_nodes = self.get_total_nodes(&mut clone_game, depth - 1);
            nodes = nodes + move_nodes;
            i = i + 1;
        }
        proof {
            lemma_perft_sum_step(p, legal, count as int, (depth - 1) as nat, t, z);
        }
        nodes
    }
}

/// What counting below one move asks: the move fits a sound position, the clocks have
/// room for the move and `depth` more, and the count fits in a `usize`.
pub open spec fn count_below_ok(game: &GameState, m: PieceMove, depth: usize) -> bool {
    &&& game.tables_ok()
    &&& sound(game.pos())
    &&& fits(game.pos(), m)
    &&& game.halfmove_clock.0 + depth + 1 <= 255
    &&& game.fullmove_number.0 + depth + 1 <= 255
    &&& perft_count(make_spec(game.pos(), m, &*game.zobrist_hashing), depth as nat, &*game.move_lookup_table,
        &*game.zobrist_hashing) <= usize::MAX
}

/// The move's UCI text and the number of legal sequences of length `depth` after it,
/// counted on a copy of the game.
fn count_below(game: &GameState, piece_move: &PieceMove, depth: usize) -> (r: (String, usize))
    requires
        count_below_ok(game, *piece_move, depth),
    ensures
        r.0@ == uci_text(*piece_move),
        r.1 == perft_count(make_spec(game.pos(), *piece_move, &*game.zobrist_hashing), depth as nat,
            &*game.move_lookup_table, &*game.zobrist_hashing),
{
    let ghost p = game.pos();
    let ghost z = &*game.zobrist_hashing;
    proof {
        lemma_sound_consistent(p);
        lemma_fits_facts(p, *piece_move);
        crate::game::lemma_make_clocks(p, *piece_move, z);
        lemma_make_keeps_sound(p, *piece_move, z);
    }
    let mut clone_game = game.clone();
    clone_game.make_move(piece_move);
    let mut new_buffer: Vec<PieceMove> = Vec::new();
    let inner_nodes = clone_game.inner_perft(depth, &mut new_buffer);
    (piece_move.uci(), inner_nodes)
}

/// rayon's `par_iter().map(..).collect()` over the moves: each move is counted by
/// `count_below` on a task of its own, and the results are collected in the order of
/// the moves.
#[verifier::external_body]
fn par_count_below(game: &GameState, moves: &Vec<PieceMove>, depth: usize) -> (r: Vec<(String, usize)>)
    requires
        forall|i: int| 0 <= i < moves@.len() ==> count_below_ok(game, #[trigger] moves@[i], depth),
    ensures
        r@.len() == moves@.len(),
        forall|i: int| 0 <= i < moves@.len() ==> (#[trigger] r@[i]).0@ == uci_text(moves@[i])
            && r@[i].1 == perft_count(make_spec(game.pos(), moves@[i], &*game.zobrist_hashing), depth as nat,
                &*game.move_lookup_table, &*game.zobrist_hashing),
{
    moves.par_iter().map(|m| count_below(game, m, depth)).collect()
}

/// With no ply left below them, the moves of a list count one sequence each.
proof fn lemma_perft_sum_last_ply(p: Position, l: Seq<PieceMove>, t: &MoveLookupTable, z: &ZobristHashing)
    ensures
        perft_sum(p, l, 0, t, z) == l.len(),
    decreases l.len(),
{
    if l.len() > 0 {
        lemma_perft_sum_last_ply(p, l.drop_first(), t, z);
        lemma_perft_count_unfold(make_spec(p, l[0], z), 0, t, z);
    }
}

/// The count below one move is part of the sum over the moves from position `j` on.
proof fn lemma_perft_sum_part(p: Position, l: Seq<PieceMove>, j: int, i: int, d: nat, t: &MoveLookupTable, z: &ZobristHashing)
    requires
        0 <= j <= i < l.len(),
    ensures
        perft_count(make_spec(p, l[i], z), d, t, z) <= perft_sum(p, l.skip(j), d, t, z),
    decreases i - j,
{
    lemma_perft_sum_step(p, l, j, d, t, z);
    if j < i {
        lemma_perft_sum_part(p, l, j + 1, i, d, t, z);
    }
}

} // verus!
