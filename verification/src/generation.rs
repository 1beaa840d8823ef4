//! Pseudo-legal move generation for a game state: per-side summaries, piece moves read
//! from the lookup tables and patterns, pawn moves and castling.
use vstd::prelude::*;
use crate::bits::{single, square_list};
use crate::square::{FileRank, square_at, BLACK_KING_CASTLE_BOARD_MASK, BLACK_QUEEN_CASTLE_BOARD_MASK,
    WHITE_KING_CASTLE_BOARD_MASK, WHITE_QUEEN_CASTLE_BOARD_MASK};
use crate::types::{BoardSide, Color, MoveType, Piece, PieceIndex, PieceMove, PieceType, king_side_bit, queen_side_bit};
use crate::attacks::{concat_map, union_map, quiet_fill, capture_fill, fill_moves, get_knight_attacks, get_king_attacks,
    knight_pattern, king_pattern, lemma_square_list_step, lemma_or_facts, get_pawn_moves, pawn_quiet_moves, pawn_loud_moves,
    pawn_reach, ep_mask_of, rook_attacks, bishop_attacks};
use crate::magic::MoveLookupTable;
use crate::game::{GameState, white_of, black_of};

verus! {

/// The squares a piece of kind `kind` on square `s` reaches with blockers `all`,
/// friendly squares included (no pawns: they have their own rules).
pub open spec fn reach(t: &MoveLookupTable, kind: PieceType, s: int, all: u64) -> u64 {
    match kind {
        PieceType::Rook => rook_attacks(s, all),
        PieceType::Bishop => bishop_attacks(s, all),
        PieceType::Queen => bishop_attacks(s, all) | rook_attacks(s, all),
        PieceType::Knight => knight_pattern(single(s)),
        PieceType::King => king_pattern(single(s)),
        PieceType::Pawn => 0,
    }
}

/// The quiet moves of the pieces of one kind standing on `squares`, piece by piece.
pub open spec fn group_quiet(t: &MoveLookupTable, kind: PieceType, color: Color, squares: u64, all: u64, rev_friendly: u64, opp: u64) -> Seq<PieceMove> {
    concat_map(square_list(squares), |s: int| concat_map(square_list(reach(t, kind, s, all) & rev_friendly),
        quiet_fill(square_at(s), Piece { piece_type: kind, color }, opp)))
}

/// The captures of the pieces of one kind standing on `squares`, piece by piece.
pub open spec fn group_loud(t: &MoveLookupTable, kind: PieceType, color: Color, squares: u64, all: u64, rev_friendly: u64, opp: u64) -> Seq<PieceMove> {
    concat_map(square_list(squares), |s: int| concat_map(square_list(reach(t, kind, s, all) & rev_friendly),
        capture_fill(square_at(s), Piece { piece_type: kind, color }, opp)))
}

/// The target squares of the pieces of one kind standing on `squares`.
pub open spec fn group_mask(t: &MoveLookupTable, kind: PieceType, squares: u64, all: u64, rev_friendly: u64) -> u64 {
    union_map(square_list(squares), |s: int| reach(t, kind, s, all) & rev_friendly)
}

/// The squares a piece of kind `kind` on `fr` can move to, friendly squares removed.
fn piece_reach(table: &MoveLookupTable, kind: PieceType, fr: FileRank, all_pieces: u64, rev_friendly: u64) -> (moves: u64)
    requires
        table.wf(),
    ensures
        moves == reach(table, kind, fr.idx(), all_pieces) & rev_friendly,
{
    match kind {
        PieceType::Rook => table.get_rook_attack(fr, all_pieces) & rev_friendly,
        PieceType::Bishop => table.get_bishop_attack(fr, all_pieces) & rev_friendly,
        PieceType::Queen => {
            let bishop_moves = table.get_bishop_attack(fr, all_pieces);
            let rook_moves = table.get_rook_attack(fr, all_pieces);
            (bishop_moves | rook_moves) & rev_friendly
        },
        PieceType::Knight => get_knight_attacks(&fr) & rev_friendly,
        PieceType::King => get_king_attacks(&fr) & rev_friendly,
        PieceType::Pawn => 0 & rev_friendly,
    }
}

/// Appends the moves of the pieces of one kind (not pawns) standing on `squares` and adds
/// their targets to `move_mask`.
fn fill_group(
    table: &MoveLookupTable,
    kind: PieceType,
    color: Color,
    squares: u64,
    all_pieces: u64,
    rev_friendly: u64,
    opp: u64,
    quiet: &mut Vec<PieceMove>,
    killer: &mut Vec<PieceMove>,
    move_mask: &mut u64,
)
    requires
        table.wf(),
        kind != PieceType::Pawn,
    ensures
        final(quiet)@ == old(quiet)@ + group_quiet(table, kind, color, squares, all_pieces, rev_friendly, opp),
        final(killer)@ == old(killer)@ + group_loud(table, kind, color, squares, all_pieces, rev_friendly, opp),
        *final(move_mask) == *old(move_mask) | group_mask(table, kind, squares, all_pieces, rev_friendly),
{
    let piece = Piece { piece_type: kind, color };
    let mut rem = squares;
    let ghost q0 = quiet@;
    let ghost k0 = killer@;
    let ghost m0 = *move_mask;
    let ghost fq = |s: int| concat_map(square_list(reach(table, kind, s, all_pieces) & rev_friendly),
        quiet_fill(square_at(s), piece, opp));
    let ghost fk = |s: int| concat_map(square_list(reach(table, kind, s, all_pieces) & rev_friendly),
        capture_fill(square_at(s), piece, opp));
    let ghost fm = |s: int| reach(table, kind, s, all_pieces) & rev_friendly;
    proof {
        assert(quiet@ + concat_map(square_list(rem), fq) =~= q0 + concat_map(square_list(squares), fq));
        assert(killer@ + concat_map(square_list(rem), fk) =~= k0 + concat_map(square_list(squares), fk));
    }
    while rem > 0
        invariant
            table.wf(),
            kind != PieceType::Pawn,
            piece == (Piece { piece_type: kind, color }),
            fq == (|s: int| concat_map(square_list(reach(table, kind, s, all_pieces) & rev_friendly),
                quiet_fill(square_at(s), piece, opp))),
            fk == (|s: int| concat_map(square_list(reach(table, kind, s, all_pieces) & rev_friendly),
                capture_fill(square_at(s), piece, opp))),
            fm == (|s: int| reach(table, kind, s, all_pieces) & rev_friendly),
            quiet@ + concat_map(square_list(rem), fq) == q0 + concat_map(square_list(squares), fq),
            killer@ + concat_map(square_list(rem), fk) == k0 + concat_map(square_list(squares), fk),
            *move_mask | union_map(square_list(rem), fm) == m0 | union_map(square_list(squares), fm),
        decreases rem,
    {
        let ghost before = rem;
        proof {
            lemma_square_list_step(rem);
        }
        let i = crate::bits::pop_lsb(&mut rem);
        let fr = match FileRank::get_file_rank(i as u8) {
            Some(f) => f,
            None => {
                proof {
                    assert(false);
                }
                FileRank::A8
            },
        };
        proof {
            crate::square::lemma_square_at(i as int);
        }
        let moves = piece_reach(table, kind, fr, all_pieces, rev_friendly);
        assert(moves == fm(i as int));
        let ghost qb = quiet@;
        let ghost kb = killer@;
        let ghost mb = *move_mask;
        proof {
            lemma_or_facts(mb, moves, union_map(square_list(rem), fm));
        }
        *move_mask = *move_mask | moves;
        fill_moves(fr, piece, moves, quiet, killer, opp);
        proof {
            assert(concat_map(square_list(before), fq) == fq(i as int) + concat_map(square_list(rem), fq));
            assert(concat_map(square_list(before), fk) == fk(i as int) + concat_map(square_list(rem), fk));
            assert(quiet@ + concat_map(square_list(rem), fq) =~= qb + concat_map(square_list(before), fq));
            assert(killer@ + concat_map(square_list(rem), fk) =~= kb + concat_map(square_list(before), fk));
        }
    }
    proof {
        assert(quiet@ =~= quiet@ + concat_map(square_list(rem), fq));
        assert(killer@ =~= killer@ + concat_map(square_list(rem), fk));
        lemma_or_facts(*move_mask, 0, 0);
    }
}

/// All quiet moves of one side, in generation order: rooks, bishops, queens, knights,
/// pawns, king.
pub open spec fn side_quiet(t: &MoveLookupTable, side: BoardSide, all: u64, ep: Option<FileRank>) -> Seq<PieceMove> {
    let rf = !side.friendly_blockers;
    let opp = side.opposite_blockers;
    let c = side.color;
    group_quiet(t, PieceType::Rook, c, side.rooks, all, rf, opp)
        + group_quiet(t, PieceType::Bishop, c, side.bishops, all, rf, opp)
        + group_quiet(t, PieceType::Queen, c, side.queens, all, rf, opp)
        + group_quiet(t, PieceType::Knight, c, side.knights, all, rf, opp)
        + pawn_quiet_moves(c, side.pawns, !all, opp, ep_mask_of(ep))
        + group_quiet(t, PieceType::King, c, side.king, all, rf, opp)
}

/// All captures and promotions of one side, in the same order.
pub open spec fn side_loud(t: &MoveLookupTable, side: BoardSide, all: u64, ep: Option<FileRank>) -> Seq<PieceMove> {
    let rf = !side.friendly_blockers;
    let opp = side.opposite_blockers;
    let c = side.color;
    group_loud(t, PieceType::Rook, c, side.rooks, all, rf, opp)
        + group_loud(t, PieceType::Bishop, c, side.bishops, all, rf, opp)
        + group_loud(t, PieceType::Queen, c, side.queens, all, rf, opp)
        + group_loud(t, PieceType::Knight, c, side.knights, all, rf, opp)
        + pawn_loud_moves(c, side.pawns, !all, opp, ep_mask_of(ep))
        + group_loud(t, PieceType::King, c, side.king, all, rf, opp)
}

/// Every square one side's pieces can move to.
pub open spec fn side_mask(t: &MoveLookupTable, side: BoardSide, all: u64, ep: Option<FileRank>) -> u64 {
    let rf = !side.friendly_blockers;
    let opp = side.opposite_blockers;
    0u64 | group_mask(t, PieceType::Rook, side.rooks, all, rf)
        | group_mask(t, PieceType::Bishop, side.bishops, all, rf)
        | group_mask(t, PieceType::Queen, side.queens, all, rf)
        | group_mask(t, PieceType::Knight, side.knights, all, rf)
        | pawn_reach(side.color, side.pawns, !all, opp, ep_mask_of(ep))
        | group_mask(t, PieceType::King, side.king, all, rf)
}

/// The targets of the pieces of one kind (not pawns) standing on `squares`, without
/// listing their moves.
fn group_reach(table: &MoveLookupTable, kind: PieceType, squares: u64, all_pieces: u64, rev_friendly: u64) -> (mask: u64)
    requires
        table.wf(),
    ensures
        mask == group_mask(table, kind, squares, all_pieces, rev_friendly),
{
    let ghost fm = |s: int| reach(table, kind, s, all_pieces) & rev_friendly;
    let mut rem = squares;
    let mut mask: u64 = 0;
    proof {
        lemma_or_facts(union_map(square_list(squares), fm), 0, 0);
    }
    while rem > 0
        invariant
            table.wf(),
            fm == (|s: int| reach(table, kind, s, all_pieces) & rev_friendly),
            mask | union_map(square_list(rem), fm) == union_map(square_list(squares), fm),
        decreases rem,
    {
        proof {
            lemma_square_list_step(rem);
        }
        let i = crate::bits::pop_lsb(&mut rem);
        let fr = match FileRank::get_file_rank(i as u8) {
            Some(f) => f,
            None => {
                proof {
                    assert(false);
                }
                FileRank::A8
            },
        };
        proof {
            crate::square::lemma_square_at(i as int);
        }
        let moves = piece_reach(table, kind, fr, all_pieces, rev_friendly);
        assert(moves == fm(i as int));
        proof {
            lemma_or_facts(mask, moves, union_map(square_list(rem), fm));
        }
        mask = mask | moves;
    }
    proof {
        lemma_or_facts(mask, 0, 0);
    }
    mask
}

/// The squares one side's pieces reach (its move mask), computed without listing the moves.
pub(crate) fn side_reach(table: &MoveLookupTable, side: &BoardSide, all_pieces: u64, en_passant: &Option<FileRank>) -> (mask: u64)
    requires
        table.wf(),
    ensures
        mask == side_mask(table, *side, all_pieces, *en_passant),
{
    let rf = !side.friendly_blockers;
    let ep_mask: u64 = match en_passant {
        Some(fr) => fr.mask(),
        None => 0,
    };
    proof {
        crate::pawn_sets::lemma_pawn_reach_fan(side.color, side.pawns, !all_pieces, side.opposite_blockers,
            ep_mask_of(*en_passant));
    }
    let pawns = crate::pawn_sets::pawn_fan_of(side.color, side.pawns, !all_pieces, side.opposite_blockers | ep_mask);
    0u64 | group_reach(table, PieceType::Rook, side.rooks, all_pieces, rf)
        | group_reach(table, PieceType::Bishop, side.bishops, all_pieces, rf)
        | group_reach(table, PieceType::Queen, side.queens, all_pieces, rf)
        | group_reach(table, PieceType::Knight, side.knights, all_pieces, rf)
        | pawns
        | group_reach(table, PieceType::King, side.king, all_pieces, rf)
}

/// Refills one side's move lists and target mask.
fn fill_side(
    table: &MoveLookupTable,
    side: &BoardSide,
    all_pieces: u64,
    en_passant: &Option<FileRank>,
    quiet: &mut Vec<PieceMove>,
    killer: &mut Vec<PieceMove>,
    move_mask: &mut u64,
)
    requires
        table.wf(),
    ensures
        final(quiet)@ == side_quiet(table, *side, all_pieces, *en_passant),
        final(killer)@ == side_loud(table, *side, all_pieces, *en_passant),
        *final(move_mask) == side_mask(table, *side, all_pieces, *en_passant),
{
    killer.clear();
    quiet.clear();
    *move_mask = 0;
    let color = side.color;
    let rev_friendly_blockers = !side.friendly_blockers;
    let opp = side.opposite_blockers;
    fill_group(table, PieceType::Rook, color, side.rooks, all_pieces, rev_friendly_blockers, opp, quiet, killer, move_mask);
    fill_group(table, PieceType::Bishop, color, side.bishops, all_pieces, rev_friendly_blockers, opp, quiet, killer, move_mask);
    fill_group(table, PieceType::Queen, color, side.queens, all_pieces, rev_friendly_blockers, opp, quiet, killer, move_mask);
    fill_group(table, PieceType::Knight, color, side.knights, all_pieces, rev_friendly_blockers, opp, quiet, killer, move_mask);
    let empty_squares = !all_pieces;
    get_pawn_moves(color, side.pawns, empty_squares, opp, en_passant, move_mask, quiet, killer);
    fill_group(table, PieceType::King, color, side.king, all_pieces, rev_friendly_blockers, opp, quiet, killer, move_mask);
    proof {
        assert(quiet@ =~= side_quiet(table, *side, all_pieces, *en_passant));
        assert(killer@ =~= side_loud(table, *side, all_pieces, *en_passant));
    }
}

/// The summary of one side, from the bitboards, castling rights and both attack masks.
pub open spec fn side_of(bb: Seq<u64>, castling: u64, w_mask: u64, b_mask: u64, color: Color) -> BoardSide {
    match color {
        Color::White => BoardSide {
            bishops: bb[1],
            king: bb[5],
            knights: bb[2],
            pawns: bb[0],
            queens: bb[4],
            rooks: bb[3],
            opposite_bishops: bb[7],
            opposite_king: bb[11],
            opposite_knights: bb[8],
            opposite_pawns: bb[6],
            opposite_queens: bb[10],
            opposite_rooks: bb[9],
            opposite_attacks: b_mask,
            opposite_blockers: black_of(bb),
            friendly_blockers: white_of(bb),
            castling_king_side: castling & king_side_bit(Color::White) != 0,
            castling_queen_side: castling & queen_side_bit(Color::White) != 0,
            king_mask_castling: WHITE_KING_CASTLE_BOARD_MASK,
            queen_mask_castling: WHITE_QUEEN_CASTLE_BOARD_MASK,
            color: Color::White,
        },
        Color::Black => BoardSide {
            bishops: bb[7],
            king: bb[11],
            knights: bb[8],
            pawns: bb[6],
            queens: bb[10],
            rooks: bb[9],
            opposite_bishops: bb[1],
            opposite_king: bb[5],
            opposite_knights: bb[2],
            opposite_pawns: bb[0],
            opposite_queens: bb[4],
            opposite_rooks: bb[3],
            opposite_attacks: w_mask,
            opposite_blockers: white_of(bb),
            friendly_blockers: black_of(bb),
            castling_king_side: castling & king_side_bit(Color::Black) != 0,
            castling_queen_side: castling & queen_side_bit(Color::Black) != 0,
            king_mask_castling: BLACK_KING_CASTLE_BOARD_MASK,
            queen_mask_castling: BLACK_QUEEN_CASTLE_BOARD_MASK,
            color: Color::Black,
        },
    }
}

/// The summary of one side of the game.
pub open spec fn side_info(g: &GameState, color: Color) -> BoardSide {
    side_of(g.bitboard@, g.castling.mask, g.w_moves_mask, g.b_moves_mask, color)
}

impl GameState {
    /// The pieces, blockers, attacks and castling rights of one side, and those of its opponent.
    pub fn get_board_side_info(&self, color: &Color) -> (side: BoardSide)
        ensures
            side == side_info(self, *color),
    {
        if *color == Color::White {
            BoardSide {
                bishops: self.bitboard[PieceIndex::B.idx()],
                king: self.bitboard[PieceIndex::K.idx()],
                knights: self.bitboard[PieceIndex::N.idx()],
                pawns: self.bitboard[PieceIndex::P.idx()],
                queens: self.bitboard[PieceIndex::Q.idx()],
                rooks: self.bitboard[PieceIndex::R.idx()],
                opposite_bishops: self.bitboard[PieceIndex::b.idx()],
                opposite_king: self.bitboard[PieceIndex::k.idx()],
                opposite_knights: self.bitboard[PieceIndex::n.idx()],
                opposite_pawns: self.bitboard[PieceIndex::p.idx()],
                opposite_queens: self.bitboard[PieceIndex::q.idx()],
                opposite_rooks: self.bitboard[PieceIndex::r.idx()],
                opposite_attacks: self.b_moves_mask,
                opposite_blockers: self.get_black_pieces(),
                friendly_blockers: self.get_white_pieces(),
                castling_king_side: self.castling.get_king_side(&Color::White),
                castling_queen_side: self.castling.get_queen_side(&Color::White),
                king_mask_castling: WHITE_KING_CASTLE_BOARD_MASK,
                queen_mask_castling: WHITE_QUEEN_CASTLE_BOARD_MASK,
                color: Color::White,
            }
        } else {
            BoardSide {
                bishops: self.bitboard[PieceIndex::b.idx()],
                king: self.bitboard[PieceIndex::k.idx()],
                knights: self.bitboard[PieceIndex::n.idx()],
                pawns: self.bitboard[PieceIndex::p.idx()],
                queens: self.bitboard[PieceIndex::q.idx()],
                rooks: self.bitboard[PieceIndex::r.idx()],
                opposite_bishops: self.bitboard[PieceIndex::B.idx()],
                opposite_king: self.bitboard[PieceIndex::K.idx()],
                opposite_knights: self.bitboard[PieceIndex::N.idx()],
                opposite_pawns: self.bitboard[PieceIndex::P.idx()],
                opposite_queens: self.bitboard[PieceIndex::Q.idx()],
                opposite_rooks: self.bitboard[PieceIndex::R.idx()],
                opposite_attacks: self.w_moves_mask,
                opposite_blockers: self.get_white_pieces(),
                friendly_blockers: self.get_black_pieces(),
                castling_king_side: self.castling.get_king_side(&Color::Black),
                castling_queen_side: self.castling.get_queen_side(&Color::Black),
                king_mask_castling: BLACK_KING_CASTLE_BOARD_MASK,
                queen_mask_castling: BLACK_QUEEN_CASTLE_BOARD_MASK,
                color: Color::Black,
            }
        }
    }

    /// Regenerates the pseudo-legal moves of `side`'s colour: its quiet moves, its captures
    /// and promotions, and the mask of squares it reaches. The other colour's lists and the
    /// position are left as they are.
    pub fn get_pseudolegal_moves(&mut self, side: &BoardSide)
        requires
            old(self).tables_ok(),
        ensures
            final(self).pos() == old(self).pos(),
            final(self).move_lookup_table == old(self).move_lookup_table,
            final(self).zobrist_hashing == old(self).zobrist_hashing,
            side.color == Color::White ==> {
                &&& final(self).quiet_white_moves@ == side_quiet(&*old(self).move_lookup_table, *side,
                    white_of(old(self).bitboard@) | black_of(old(self).bitboard@), old(self).en_passant)
                &&& final(self).killer_white_moves@ == side_loud(&*old(self).move_lookup_table, *side,
                    white_of(old(self).bitboard@) | black_of(old(self).bitboard@), old(self).en_passant)
                &&& final(self).w_moves_mask == side_mask(&*old(self).move_lookup_table, *side,
                    white_of(old(self).bitboard@) | black_of(old(self).bitboard@), old(self).en_passant)
                &&& final(self).quiet_black_moves == old(self).quiet_black_moves
                &&& final(self).killer_black_moves == old(self).killer_black_moves
                &&& final(self).b_moves_mask == old(self).b_moves_mask
            },
            side.color == Color::Black ==> {
                &&& final(self).quiet_black_moves@ == side_quiet(&*old(self).move_lookup_table, *side,
                    white_of(old(self).bitboard@) | black_of(old(self).bitboard@), old(self).en_passant)
                &&& final(self).killer_black_moves@ == side_loud(&*old(self).move_lookup_table, *side,
                    white_of(old(self).bitboard@) | black_of(old(self).bitboard@), old(self).en_passant)
                &&& final(self).b_moves_mask == side_mask(&*old(self).move_lookup_table, *side,
                    white_of(old(self).bitboard@) | black_of(old(self).bitboard@), old(self).en_passant)
                &&& final(self).quiet_white_moves == old(self).quiet_white_moves
                &&& final(self).killer_white_moves == old(self).killer_white_moves
                &&& final(self).w_moves_mask == old(self).w_moves_mask
            },
    {
        let all_pieces: u64 = self.get_all_pieces();
        let en_passant = self.en_passant;
        if side.color == Color::White {
            fill_side(&self.move_lookup_table, side, all_pieces, &en_passant,
                &mut self.quiet_white_moves, &mut self.killer_white_moves, &mut self.w_moves_mask);
        } else {
            fill_side(&self.move_lookup_table, side, all_pieces, &en_passant,
                &mut self.quiet_black_moves, &mut self.killer_black_moves, &mut self.b_moves_mask);
        }
    }

    /// The castling moves of `side`: none while its king is attacked or it has no rights
    /// left or its king is off its home square; king side when that right is held, the
    /// king's path is not attacked, the squares between are empty and the rook is home;
    /// queen side likewise. `None` when neither is possible.
    pub fn get_castling_moves(&self, side: &BoardSide) -> (r: Option<Vec<PieceMove>>)
        ensures
            castle_list(*side).len() == 0 ==> r is None,
            castle_list(*side).len() > 0 ==> (r matches Some(v) && v@ == castle_list(*side)),
    {
        let king = side.king;
        let rooks = side.rooks;
        let opposite_attacks = side.opposite_attacks;
        let color = side.color;
        let blockers = side.opposite_blockers | side.friendly_blockers;
        let has_check = self.detect_check(&king, &opposite_attacks);
        if has_check || !(side.castling_king_side || side.castling_queen_side) {
            return None;
        }
        let mut castlings: Vec<PieceMove> = Vec::with_capacity(2);
        let king_piece = Piece { piece_type: PieceType::King, color };
        let starting_king_file_rank = if color == Color::White { FileRank::E1 } else { FileRank::E8 };
        let king_is_on_start_field = starting_king_file_rank.mask() & king > 0;
        if king_is_on_start_field == false {
            return None;
        }
        let targets = if color == Color::White { [FileRank::C1, FileRank::G1] } else { [FileRank::C8, FileRank::G8] };
        let rooks_starting_field = if color == Color::White { [FileRank::A1, FileRank::H1] } else { [FileRank::A8, FileRank::H8] };
        let blockers_without_king = blockers & (!king);
        let king_side_free_from_attack = (opposite_attacks & side.king_mask_castling) == 0;
        let has_space_king_side = (blockers_without_king & side.king_mask_castling) == 0;
        if side.castling_king_side && king_side_free_from_attack && has_space_king_side
            && rooks_starting_field[1].mask() & rooks > 0 {
            castlings.push(PieceMove {
                piece: king_piece,
                from: starting_king_file_rank,
                target: targets[1],
                move_type: MoveType::CastleKingSide,
            });
        }
        let required_space_mask = if color == Color::White {
            side.queen_mask_castling | (1u64 << 57u64)
        } else {
            side.queen_mask_castling | (1u64 << 1u64)
        };
        let queen_side_free_from_attack = (opposite_attacks & side.queen_mask_castling) == 0;
        let has_space_queen_side = (blockers_without_king & required_space_mask) == 0;
        if side.castling_queen_side && queen_side_free_from_attack && has_space_queen_side
            && (rooks_starting_field[0].mask() & rooks) > 0 {
            castlings.push(PieceMove {
                piece: king_piece,
                from: starting_king_file_rank,
                target: targets[0],
                move_type: MoveType::CastleQueenSide,
            });
        }
        proof {
            assert(castlings@ =~= castle_list(*side));
        }
        if castlings.len() > 0 {
            return Some(castlings);
        }
        None
    }
}

/// The square, as an index, of the king's home of a colour (e1 or e8).
pub open spec fn home_of(c: Color) -> int {
    match c { Color::White => 60, Color::Black => 4 }
}

/// Whether `side` may castle king side now.
pub open spec fn can_castle_king_side(side: BoardSide) -> bool {
    let blockers = side.opposite_blockers | side.friendly_blockers;
    let corner: int = match side.color { Color::White => 63, Color::Black => 7 };
    &&& side.castling_king_side
    &&& side.opposite_attacks & side.king_mask_castling == 0
    &&& (blockers & !side.king) & side.king_mask_castling == 0
    &&& single(corner) & side.rooks > 0
}

/// Whether `side` may castle queen side now.
pub open spec fn can_castle_queen_side(side: BoardSide) -> bool {
    let blockers = side.opposite_blockers | side.friendly_blockers;
    let corner: int = match side.color { Color::White => 56, Color::Black => 0 };
    let space = match side.color {
        Color::White => side.queen_mask_castling | (1u64 << 57u64),
        Color::Black => side.queen_mask_castling | (1u64 << 1u64),
    };
    &&& side.castling_queen_side
    &&& side.opposite_attacks & side.queen_mask_castling == 0
    &&& (blockers & !side.king) & space == 0
    &&& single(corner) & side.rooks > 0
}

/// The castling moves of a side: king side first, then queen side.
pub open spec fn castle_list(side: BoardSide) -> Seq<PieceMove> {
    let king = Piece { piece_type: PieceType::King, color: side.color };
    let home = home_of(side.color);
    if side.king & side.opposite_attacks > 0 || !(side.castling_king_side || side.castling_queen_side)
        || single(home) & side.king == 0 {
        Seq::empty()
    } else {
        (if can_castle_king_side(side) {
            seq![PieceMove { piece: king, from: square_at(home), target: square_at(home + 2), move_type: MoveType::CastleKingSide }]
        } else {
            Seq::empty()
        }) + (if can_castle_queen_side(side) {
            seq![PieceMove { piece: king, from: square_at(home), target: square_at(home - 2), move_type: MoveType::CastleQueenSide }]
        } else {
            Seq::empty()
        })
    }
}

/// The union of the target squares of a list of moves.
pub open spec fn targets_mask(l: Seq<PieceMove>) -> u64
    decreases l.len(),
{
    if l.len() == 0 {
        0
    } else {
        targets_mask(l.drop_last()) | single(l.last().target.idx())
    }
}

/// The moves generated for one colour by `calculate_pseudolegal_moves`: its lists and mask
/// as `get_pseudolegal_moves` leaves them, with the castling moves added for the side to move.
pub open spec fn generated(g0: &GameState, g: &GameState, c: Color) -> bool {
    let t = &*g0.move_lookup_table;
    let all = white_of(g0.bitboard@) | black_of(g0.bitboard@);
    let side = side_info(g0, c);
    let castles = if c == g0.move_turn { castle_list(side_info(g, c)) } else { Seq::empty() };
    match c {
        Color::White => {
            &&& g.quiet_white_moves@ == side_quiet(t, side, all, g0.en_passant)
            &&& g.killer_white_moves@ == side_loud(t, side, all, g0.en_passant) + castles
            &&& g.w_moves_mask == side_mask(t, side, all, g0.en_passant) | targets_mask(castles)
        },
        Color::Black => {
            &&& g.quiet_black_moves@ == side_quiet(t, side, all, g0.en_passant)
            &&& g.killer_black_moves@ == side_loud(t, side, all, g0.en_passant) + castles
            &&& g.b_moves_mask == side_mask(t, side, all, g0.en_passant) | targets_mask(castles)
        },
    }
}

impl GameState {
    /// Generates the pseudo-legal moves of both colours, then adds the castling moves of
    /// the side to move (checked against the attacks just generated for its opponent).
    #[verifier::rlimit(60)]
    pub fn calculate_pseudolegal_moves(&mut self)
        requires
            old(self).tables_ok(),
        ensures
            final(self).pos() == old(self).pos(),
            final(self).move_lookup_table == old(self).move_lookup_table,
            final(self).zobrist_hashing == old(self).zobrist_hashing,
            generated(old(self), final(self), Color::White),
            generated(old(self), final(self), Color::Black),
    {
        let ghost g0 = *self;
        let white = self.get_board_side_info(&Color::White);
        let black = self.get_board_side_info(&Color::Black);
        self.get_pseudolegal_moves(&white);
        self.get_pseudolegal_moves(&black);
        let turn = self.move_turn;
        let side = self.get_board_side_info(&turn);
        let ghost mid = *self;
        let castles = self.get_castling_moves(&side);
        match castles {
            Some(castlings) => {
                let mut i: usize = 0;
                proof {
                    lemma_or_facts(self.w_moves_mask, 0, 0);
                    lemma_or_facts(self.b_moves_mask, 0, 0);
                    assert(castlings@.take(0) =~= Seq::<PieceMove>::empty());
                }
                while i < castlings.len()
                    invariant
                        i <= castlings@.len(),
                        castlings@ == castle_list(side),
                        side == side_info(&mid, turn),
                        turn == mid.move_turn,
                        self.pos() == mid.pos(),
                        self.move_lookup_table == mid.move_lookup_table,
                        self.zobrist_hashing == mid.zobrist_hashing,
                        self.quiet_white_moves == mid.quiet_white_moves,
                        self.quiet_black_moves == mid.quiet_black_moves,
                        turn == Color::White ==> {
                            &&& self.killer_white_moves@ == mid.killer_white_moves@ + castlings@.take(i as int)
                            &&& self.w_moves_mask == mid.w_moves_mask | targets_mask(castlings@.take(i as int))
                            &&& self.killer_black_moves == mid.killer_black_moves
                            &&& self.b_moves_mask == mid.b_moves_mask
                        },
                        turn == Color::Black ==> {
                            &&& self.killer_black_moves@ == mid.killer_black_moves@ + castlings@.take(i as int)
                            &&& self.b_moves_mask == mid.b_moves_mask | targets_mask(castlings@.take(i as int))
                            &&& self.killer_white_moves == mid.killer_white_moves
                            &&& self.w_moves_mask == mid.w_moves_mask
                        },
                    decreases castlings@.len() - i,
                {
                    let piece_move = castlings[i];
                    let target_mask = piece_move.target.mask();
                    proof {
                        assert(castlings@.take(i + 1).drop_last() =~= castlings@.take(i as int));
                        assert(castlings@.take(i + 1) =~= castlings@.take(i as int).push(piece_move));
                        lemma_or_facts(mid.w_moves_mask, targets_mask(castlings@.take(i as int)), target_mask);
                        lemma_or_facts(mid.b_moves_mask, targets_mask(castlings@.take(i as int)), target_mask);
                    }
                    if Color::White == self.move_turn {
                        self.killer_white_moves.push(piece_move);
                        self.w_moves_mask = self.w_moves_mask | target_mask;
                    } else {
                        self.killer_black_moves.push(piece_move);
                        self.b_moves_mask = self.b_moves_mask | target_mask;
                    }
                    i = i + 1;
                }
                proof {
                    assert(castlings@.take(castlings@.len() as int) =~= castlings@);
                }
            },
            None => {
                proof {
                    lemma_or_facts(self.w_moves_mask, 0, 0);
                    lemma_or_facts(self.b_moves_mask, 0, 0);
                    assert(mid.killer_white_moves@ + Seq::<PieceMove>::empty() =~= mid.killer_white_moves@);
                    assert(mid.killer_black_moves@ + Seq::<PieceMove>::empty() =~= mid.killer_black_moves@);
                }
            },
        }
        proof {
            assert(side_info(&*self, turn) == side_info(&mid, turn));
            assert(g0.bitboard@ == self.bitboard@);
        }
    }
}

} // verus!
