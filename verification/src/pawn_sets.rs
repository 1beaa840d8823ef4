//! Pawn moves of all pawns of a colour at once, grouped by kind: single pushes, double
//! pushes, and captures to each side.
use vstd::prelude::*;
use crate::bits::{bit_at, single, square_list};
use crate::square::{FileRank, square_at, RANK_1, RANK_3, RANK_6, RANK_8, FILE_NOT_A, FILE_NOT_H};
use crate::types::{Color, MoveType, Piece, PieceMove, PieceType};
use crate::attacks::{concat_map, move_to, promotions, push_promotions, lemma_square_list_step, lemma_or_facts, forward, pawn_targets, pawn_reach};

verus! {

/// A group of pawn moves.
#[derive(Clone, Copy, PartialEq, Eq, Structural)]
pub enum PawnGroup {
    SinglePush,
    DoublePush,
    LeftCapture,
    RightCapture,
}

/// How far from the target square the pawn of a group starts.
pub open spec fn group_offset(c: Color, g: PawnGroup) -> int {
    let d = match g {
        PawnGroup::SinglePush => 8,
        PawnGroup::DoublePush => 16,
        PawnGroup::LeftCapture => 7,
        PawnGroup::RightCapture => 9,
    };
    match c {
        Color::White => d,
        Color::Black => -d,
    }
}

/// The target square is on the colour's last rank.
pub open spec fn last_rank(c: Color, t: int) -> bool {
    match c {
        Color::White => single(t) & RANK_8 != 0,
        Color::Black => single(t) & RANK_1 != 0,
    }
}

/// The moves of a group to target `t`.
pub open spec fn group_moves(c: Color, g: PawnGroup) -> spec_fn(int) -> Seq<PieceMove> {
    |t: int| {
        let piece = Piece { piece_type: PieceType::Pawn, color: c };
        let from = square_at(t + group_offset(c, g));
        match g {
            PawnGroup::SinglePush => if last_rank(c, t) {
                promotions(piece, from, t, false)
            } else {
                seq![move_to(piece, from, t, MoveType::Quiet)]
            },
            PawnGroup::DoublePush => seq![move_to(piece, from, t,
                MoveType::DoublePush(Some(square_at(t + group_offset(c, PawnGroup::SinglePush)))))],
            _ => if last_rank(c, t) {
                promotions(piece, from, t, true)
            } else {
                seq![move_to(piece, from, t, MoveType::Capture)]
            },
        }
    }
}

/// The target squares of each group.
pub open spec fn group_set(c: Color, g: PawnGroup, pawns: u64, empties: u64, capture_mask: u64) -> u64 {
    match c {
        Color::White => match g {
            PawnGroup::SinglePush => (pawns >> 8u64) & empties,
            PawnGroup::DoublePush => ((((pawns >> 8u64) & empties) & RANK_3) >> 8u64) & empties,
            PawnGroup::LeftCapture => ((pawns >> 7u64) & FILE_NOT_A) & capture_mask,
            PawnGroup::RightCapture => ((pawns >> 9u64) & FILE_NOT_H) & capture_mask,
        },
        Color::Black => match g {
            PawnGroup::SinglePush => (pawns << 8u64) & empties,
            PawnGroup::DoublePush => ((((pawns << 8u64) & empties) & RANK_6) << 8u64) & empties,
            PawnGroup::LeftCapture => ((pawns << 7u64) & FILE_NOT_H) & capture_mask,
            PawnGroup::RightCapture => ((pawns << 9u64) & FILE_NOT_A) & capture_mask,
        },
    }
}

/// The origin of every move of a group is on the board.
proof fn lemma_group_origin(c: Color, g: PawnGroup, pawns: u64, empties: u64, capture_mask: u64, t: int)
    requires
        bit_at(group_set(c, g, pawns, empties, capture_mask), t),
    ensures
        0 <= t + group_offset(c, g) < 64,
        g == PawnGroup::DoublePush ==> 0 <= t + group_offset(c, PawnGroup::SinglePush) < 64,
{
    let tt = t as u64;
    let x = group_set(c, g, pawns, empties, capture_mask);
    assert(tt < 64 && (x >> tt) & 1u64 == 1u64 ==> (
        (x == (pawns >> 8u64) & empties ==> tt < 56)
        && (x == ((((pawns >> 8u64) & empties) & 0xFF0000000000u64) >> 8u64) & empties ==> tt < 48)
        && (x == ((pawns >> 7u64) & 18374403900871474942u64) & capture_mask ==> tt < 57)
        && (x == ((pawns >> 9u64) & 9187201950435737471u64) & capture_mask ==> tt < 55)
        && (x == (pawns << 8u64) & empties ==> tt >= 8)
        && (x == ((((pawns << 8u64) & empties) & 0xFF0000u64) << 8u64) & empties ==> tt >= 16)
        && (x == ((pawns << 7u64) & 9187201950435737471u64) & capture_mask ==> tt >= 7)
        && (x == ((pawns << 9u64) & 18374403900871474942u64) & capture_mask ==> tt >= 9))) by (bit_vector);
}

/// Appends the moves of one group, lowest target first.
fn emit_group(list: &mut Vec<PieceMove>, set: u64, color: Color, g: PawnGroup)
    requires
        forall|t: int| #[trigger] bit_at(set, t) ==> 0 <= t + group_offset(color, g) < 64
            && (g == PawnGroup::DoublePush ==> 0 <= t + group_offset(color, PawnGroup::SinglePush) < 64),
    ensures
        final(list)@ == old(list)@ + concat_map(square_list(set), group_moves(color, g)),
{
    let piece = Piece { piece_type: PieceType::Pawn, color };
    let ghost f = group_moves(color, g);
    let ghost l0 = list@;
    let mut rem = set;
    proof {
        assert(list@ + concat_map(square_list(rem), f) =~= l0 + concat_map(square_list(set), f));
    }
    while rem != 0
        invariant
            f == group_moves(color, g),
            piece == (Piece { piece_type: PieceType::Pawn, color }),
            forall|t: int| #[trigger] bit_at(set, t) ==> 0 <= t + group_offset(color, g) < 64
                && (g == PawnGroup::DoublePush ==> 0 <= t + group_offset(color, PawnGroup::SinglePush) < 64),
            forall|t: int| #[trigger] bit_at(rem, t) ==> bit_at(set, t),
            list@ + concat_map(square_list(rem), f) == l0 + concat_map(square_list(set), f),
        decreases rem,
    {
        let ghost before = rem;
        let ghost lb = list@;
        proof {
            lemma_square_list_step(rem);
            crate::bits::lemma_lowest_bit(rem);
        }
        let to_sq = crate::bits::pop_lsb(&mut rem);
        proof {
            assert(bit_at(set, to_sq as int));
        }
        let from_sq: usize = match color {
            Color::White => match g {
                PawnGroup::SinglePush => to_sq as usize + 8,
                PawnGroup::DoublePush => to_sq as usize + 16,
                PawnGroup::LeftCapture => to_sq as usize + 7,
                PawnGroup::RightCapture => to_sq as usize + 9,
            },
            Color::Black => match g {
                PawnGroup::SinglePush => to_sq as usize - 8,
                PawnGroup::DoublePush => to_sq as usize - 16,
                PawnGroup::LeftCapture => to_sq as usize - 7,
                PawnGroup::RightCapture => to_sq as usize - 9,
            },
        };
        let from = file_rank_at(from_sq);
        let target = file_rank_at(to_sq as usize);
        let target_mask = target.mask();
        let is_promotion = match color {
            Color::White => target_mask & RANK_8 != 0,
            Color::Black => target_mask & RANK_1 != 0,
        };
        match g {
            PawnGroup::SinglePush => {
                if is_promotion {
                    push_promotions(list, piece, from, target, false);
                } else {
                    list.push(PieceMove { from, piece, target, move_type: MoveType::Quiet });
                }
            },
            PawnGroup::DoublePush => {
                let en_passant_fr = match color {
                    Color::White => file_rank_at(from_sq - 8),
                    Color::Black => file_rank_at(from_sq + 8),
                };
                list.push(PieceMove { from, piece, target, move_type: MoveType::DoublePush(Some(en_passant_fr)) });
            },
            _ => {
                if is_promotion {
                    push_promotions(list, piece, from, target, true);
                } else {
                    list.push(PieceMove { from, piece, target, move_type: MoveType::Capture });
                }
            },
        }
        proof {
            assert(list@ =~= lb + f(to_sq as int));
            assert(concat_map(square_list(before), f) == f(to_sq as int) + concat_map(square_list(rem), f));
            assert(list@ + concat_map(square_list(rem), f) =~= lb + concat_map(square_list(before), f));
        }
    }
    proof {
        assert(list@ =~= list@ + concat_map(square_list(rem), f));
    }
}

/// The square of an index on the board.
fn file_rank_at(i: usize) -> (fr: FileRank)
    requires
        i < 64,
    ensures
        fr == square_at(i as int),
        fr.idx() == i,
{
    proof {
        crate::square::lemma_square_at(i as int);
    }
    match FileRank::get_file_rank(i as u8) {
        Some(fr) => fr,
        None => {
            proof {
                assert(false);
            }
            FileRank::A8
        },
    }
}

/// Generates the pawn moves of `color` a group at a time: single pushes (promotions
/// among them) and then double pushes go to `quiet_moves`; captures to one side and then
/// the other (promotions among them, and en-passant captures) go to `capture_moves`.
/// Every target is also added to `attack_mask`.
pub fn get_pawn_moves_vectorized(
    color: Color,
    pawns: u64,
    empty_squares: u64,
    opposite_blockers: u64,
    en_passant: &Option<FileRank>,
    attack_mask: &mut u64,
    quiet_moves: &mut Vec<PieceMove>,
    capture_moves: &mut Vec<PieceMove>,
)
    ensures
        ({
            let cm = opposite_blockers | crate::attacks::ep_mask_of(*en_passant);
            let s = group_set(color, PawnGroup::SinglePush, pawns, empty_squares, cm);
            let d = group_set(color, PawnGroup::DoublePush, pawns, empty_squares, cm);
            let l = group_set(color, PawnGroup::LeftCapture, pawns, empty_squares, cm);
            let r = group_set(color, PawnGroup::RightCapture, pawns, empty_squares, cm);
            &&& *final(attack_mask) == (((*old(attack_mask) | s) | d) | l) | r
            &&& final(quiet_moves)@ == old(quiet_moves)@ + concat_map(square_list(s), group_moves(color, PawnGroup::SinglePush))
                + concat_map(square_list(d), group_moves(color, PawnGroup::DoublePush))
            &&& final(capture_moves)@ == old(capture_moves)@ + concat_map(square_list(l), group_moves(color, PawnGroup::LeftCapture))
                + concat_map(square_list(r), group_moves(color, PawnGroup::RightCapture))
        }),
{
    let en_passant_mask: u64 = match en_passant {
        Some(fr) => fr.mask(),
        None => 0,
    };
    let (single_push_all, double_push_all) = match color {
        Color::White => {
            let single = (pawns >> 8u64) & empty_squares;
            let dbl = ((single & RANK_3) >> 8u64) & empty_squares;
            (single, dbl)
        },
        Color::Black => {
            let single = (pawns << 8u64) & empty_squares;
            let dbl = ((single & RANK_6) << 8u64) & empty_squares;
            (single, dbl)
        },
    };
    let capture_mask = opposite_blockers | en_passant_mask;
    let (left_attacks_all, right_attacks_all) = match color {
        Color::White => {
            let left = ((pawns >> 7u64) & FILE_NOT_A) & capture_mask;
            let right = ((pawns >> 9u64) & FILE_NOT_H) & capture_mask;
            (left, right)
        },
        Color::Black => {
            let left = ((pawns << 7u64) & FILE_NOT_H) & capture_mask;
            let right = ((pawns << 9u64) & FILE_NOT_A) & capture_mask;
            (left, right)
        },
    };
    *attack_mask = *attack_mask | single_push_all;
    *attack_mask = *attack_mask | double_push_all;
    *attack_mask = *attack_mask | left_attacks_all;
    *attack_mask = *attack_mask | right_attacks_all;
    proof {
        assert forall|t: int| #[trigger] bit_at(single_push_all, t) implies 0 <= t + group_offset(color, PawnGroup::SinglePush) < 64 by {
            lemma_group_origin(color, PawnGroup::SinglePush, pawns, empty_squares, capture_mask, t);
        }
        assert forall|t: int| #[trigger] bit_at(double_push_all, t) implies 0 <= t + group_offset(color, PawnGroup::DoublePush) < 64
            && 0 <= t + group_offset(color, PawnGroup::SinglePush) < 64 by {
            lemma_group_origin(color, PawnGroup::DoublePush, pawns, empty_squares, capture_mask, t);
        }
        assert forall|t: int| #[trigger] bit_at(left_attacks_all, t) implies 0 <= t + group_offset(color, PawnGroup::LeftCapture) < 64 by {
            lemma_group_origin(color, PawnGroup::LeftCapture, pawns, empty_squares, capture_mask, t);
        }
        assert forall|t: int| #[trigger] bit_at(right_attacks_all, t) implies 0 <= t + group_offset(color, PawnGroup::RightCapture) < 64 by {
            lemma_group_origin(color, PawnGroup::RightCapture, pawns, empty_squares, capture_mask, t);
        }
    }
    emit_group(quiet_moves, single_push_all, color, PawnGroup::SinglePush);
    emit_group(quiet_moves, double_push_all, color, PawnGroup::DoublePush);
    emit_group(capture_moves, left_attacks_all, color, PawnGroup::LeftCapture);
    emit_group(capture_moves, right_attacks_all, color, PawnGroup::RightCapture);
}

/// Every target of the pawns of the set `x` for colour `c`: single pushes into
/// `empties`, double pushes over the third row into `empties`, and diagonal captures
/// onto `cm`.
pub open spec fn pawn_fan(c: Color, x: u64, empties: u64, cm: u64) -> u64 {
    let third = match c {
        Color::White => RANK_3,
        Color::Black => RANK_6,
    };
    let one = forward(c, x) & empties;
    let two = forward(c, one & third) & empties;
    let caps = match c {
        Color::White => ((x & FILE_NOT_H) >> 7u64) | ((x & FILE_NOT_A) >> 9u64),
        Color::Black => ((x & FILE_NOT_A) << 7u64) | ((x & FILE_NOT_H) << 9u64),
    };
    (one | two) | (caps & cm)
}

/// The targets of all the pawns of `x` at once, computed on the whole set.
pub(crate) fn pawn_fan_of(c: Color, x: u64, empties: u64, cm: u64) -> (r: u64)
    ensures
        r == pawn_fan(c, x, empties, cm),
{
    match c {
        Color::White => {
            let one = (x >> 8u64) & empties;
            let two = ((one & RANK_3) >> 8u64) & empties;
            let caps = ((x & FILE_NOT_H) >> 7u64) | ((x & FILE_NOT_A) >> 9u64);
            (one | two) | (caps & cm)
        },
        Color::Black => {
            let one = (x << 8u64) & empties;
            let two = ((one & RANK_6) << 8u64) & empties;
            let caps = ((x & FILE_NOT_A) << 7u64) | ((x & FILE_NOT_H) << 9u64);
            (one | two) | (caps & cm)
        },
    }
}

/// The squares every pawn reaches, pawn by pawn, are the fan of all the pawns, with the
/// en-passant square among the capture squares.
pub proof fn lemma_pawn_reach_fan(c: Color, pawns: u64, empties: u64, opp: u64, ep_mask: u64)
    ensures
        pawn_reach(c, pawns, empties, opp, ep_mask) == pawn_fan(c, pawns, empties, opp | ep_mask),
{
    lemma_union_of_targets(c, square_list(pawns), empties, opp, ep_mask);
    lemma_union_of_singles(pawns);
}

/// The fan of a union is the union of the fans, the fan of nothing is nothing, and the
/// fan of all pawns is the union of the four groups.
proof fn lemma_fan_bits(x: u64, y: u64, e: u64, cm: u64)
    ensures
        pawn_fan(Color::White, x | y, e, cm) == pawn_fan(Color::White, x, e, cm) | pawn_fan(Color::White, y, e, cm),
        pawn_fan(Color::Black, x | y, e, cm) == pawn_fan(Color::Black, x, e, cm) | pawn_fan(Color::Black, y, e, cm),
        pawn_fan(Color::White, 0, e, cm) == 0,
        pawn_fan(Color::Black, 0, e, cm) == 0,
        pawn_fan(Color::White, x, e, cm) == ((group_set(Color::White, PawnGroup::SinglePush, x, e, cm)
            | group_set(Color::White, PawnGroup::DoublePush, x, e, cm)) | group_set(Color::White, PawnGroup::LeftCapture, x, e, cm))
            | group_set(Color::White, PawnGroup::RightCapture, x, e, cm),
        pawn_fan(Color::Black, x, e, cm) == ((group_set(Color::Black, PawnGroup::SinglePush, x, e, cm)
            | group_set(Color::Black, PawnGroup::DoublePush, x, e, cm)) | group_set(Color::Black, PawnGroup::LeftCapture, x, e, cm))
            | group_set(Color::Black, PawnGroup::RightCapture, x, e, cm),
{
    let na: u64 = FILE_NOT_A;
    let nh: u64 = FILE_NOT_H;
    let r3: u64 = RANK_3;
    let r6: u64 = RANK_6;
    assert(na == 18374403900871474942u64 && nh == 9187201950435737471u64 && r3 == 0xFF0000000000u64 && r6 == 0xFF0000u64);
    assert(
        ((((x | y) >> 8u64) & e) | (((((x | y) >> 8u64) & e) & r3) >> 8u64 & e)) | (((((x | y) & nh) >> 7u64) | (((x | y) & na) >> 9u64)) & cm)
        == (((((x >> 8u64) & e) | ((((x >> 8u64) & e) & r3) >> 8u64 & e)) | ((((x & nh) >> 7u64) | ((x & na) >> 9u64)) & cm))
            | ((((y >> 8u64) & e) | ((((y >> 8u64) & e) & r3) >> 8u64 & e)) | ((((y & nh) >> 7u64) | ((y & na) >> 9u64)) & cm)))
        && ((((x | y) << 8u64) & e) | (((((x | y) << 8u64) & e) & r6) << 8u64 & e)) | (((((x | y) & na) << 7u64) | (((x | y) & nh) << 9u64)) & cm)
        == (((((x << 8u64) & e) | ((((x << 8u64) & e) & r6) << 8u64 & e)) | ((((x & na) << 7u64) | ((x & nh) << 9u64)) & cm))
            | ((((y << 8u64) & e) | ((((y << 8u64) & e) & r6) << 8u64 & e)) | ((((y & na) << 7u64) | ((y & nh) << 9u64)) & cm)))
        && ((((0u64 >> 8u64) & e) | ((((0u64 >> 8u64) & e) & r3) >> 8u64 & e)) | ((((0u64 & nh) >> 7u64) | ((0u64 & na) >> 9u64)) & cm)) == 0u64
        && ((((0u64 << 8u64) & e) | ((((0u64 << 8u64) & e) & r6) << 8u64 & e)) | ((((0u64 & na) << 7u64) | ((0u64 & nh) << 9u64)) & cm)) == 0u64
        && ((((x >> 8u64) & e) | ((((x >> 8u64) & e) & r3) >> 8u64 & e)) | ((((x & nh) >> 7u64) | ((x & na) >> 9u64)) & cm))
            == ((((x >> 8u64) & e) | (((((x >> 8u64) & e) & r3) >> 8u64) & e)) | (((x >> 7u64) & na) & cm)) | (((x >> 9u64) & nh) & cm)
        && ((((x << 8u64) & e) | ((((x << 8u64) & e) & r6) << 8u64 & e)) | ((((x & na) << 7u64) | ((x & nh) << 9u64)) & cm))
            == ((((x << 8u64) & e) | (((((x << 8u64) & e) & r6) << 8u64) & e)) | (((x << 7u64) & nh) & cm)) | (((x << 9u64) & na) & cm)
    ) by (bit_vector)
        requires
            na == 18374403900871474942u64,
            nh == 9187201950435737471u64,
            r3 == 0xFF0000000000u64,
            r6 == 0xFF0000u64,
    ;
}

/// The squares of a set, as a union of single squares, make up the set.
proof fn lemma_union_of_singles(b: u64)
    ensures
        crate::attacks::union_map(square_list(b), |p: int| single(p)) == b,
    decreases b,
{
    if b != 0 {
        crate::bits::lemma_lowest_bit(b);
        lemma_square_list_step(b);
        let r = b & ((b - 1) as u64);
        lemma_union_of_singles(r);
        let t = vstd::std_specs::bits::u64_trailing_zeros(b) as int;
        assert forall|j: int| 0 <= j < 64 implies bit_at(single(t) | r, j) == bit_at(b, j) by {
            crate::bits::lemma_bit_ops(single(t), r, j);
            crate::bits::lemma_single(t, j);
        }
        crate::bits::lemma_bits_ext(single(t) | r, b);
    }
}

/// The union of the targets of the pawns on the squares of `l` is the fan of the union of
/// those squares.
proof fn lemma_union_of_targets(c: Color, l: Seq<int>, empties: u64, opp: u64, ep_mask: u64)
    ensures
        crate::attacks::union_map(l, |p: int| pawn_targets(c, p, empties, opp, ep_mask))
            == pawn_fan(c, crate::attacks::union_map(l, |p: int| single(p)), empties, opp | ep_mask),
    decreases l.len(),
{
    let x = single(l[0]);
    if l.len() == 0 {
        lemma_fan_bits(0, 0, empties, opp | ep_mask);
    } else {
        lemma_union_of_targets(c, l.drop_first(), empties, opp, ep_mask);
        let rest = crate::attacks::union_map(l.drop_first(), |p: int| single(p));
        lemma_fan_bits(x, rest, empties, opp | ep_mask);
        assert(pawn_targets(c, l[0], empties, opp, ep_mask) == pawn_fan(c, x, empties, opp | ep_mask));
    }
}

/// The per-pawn generator and the grouped generator add the same squares to the attack
/// mask: the squares every pawn reaches are the four groups' targets together.
pub proof fn lemma_pawn_reach_agrees(c: Color, pawns: u64, empties: u64, opp: u64, en_passant: Option<FileRank>)
    ensures
        ({
            let cm = opp | crate::attacks::ep_mask_of(en_passant);
            pawn_reach(c, pawns, empties, opp, crate::attacks::ep_mask_of(en_passant))
                == ((group_set(c, PawnGroup::SinglePush, pawns, empties, cm) | group_set(c, PawnGroup::DoublePush, pawns, empties, cm))
                    | group_set(c, PawnGroup::LeftCapture, pawns, empties, cm)) | group_set(c, PawnGroup::RightCapture, pawns, empties, cm)
        }),
{
    let ep = crate::attacks::ep_mask_of(en_passant);
    lemma_union_of_targets(c, square_list(pawns), empties, opp, ep);
    lemma_union_of_singles(pawns);
    lemma_fan_bits(pawns, 0, empties, opp | ep);
}

/// Each group's target set is a union-preserving function of the pawns, empty for no
/// pawns.
proof fn lemma_group_union(x: u64, y: u64, e: u64, cm: u64)
    ensures
        forall|c: Color, g: PawnGroup| #[trigger] group_set(c, g, x | y, e, cm) == group_set(c, g, x, e, cm) | group_set(c, g, y, e, cm),
        forall|c: Color, g: PawnGroup| #[trigger] group_set(c, g, 0, e, cm) == 0,
{
    let na: u64 = FILE_NOT_A;
    let nh: u64 = FILE_NOT_H;
    let r3: u64 = RANK_3;
    let r6: u64 = RANK_6;
    assert(
        (((x | y) >> 8u64) & e) == ((x >> 8u64) & e) | ((y >> 8u64) & e)
        && (((((x | y) >> 8u64) & e) & r3) >> 8u64) & e == (((((x >> 8u64) & e) & r3) >> 8u64) & e) | (((((y >> 8u64) & e) & r3) >> 8u64) & e)
        && (((x | y) >> 7u64) & na) & cm == (((x >> 7u64) & na) & cm) | (((y >> 7u64) & na) & cm)
        && (((x | y) >> 9u64) & nh) & cm == (((x >> 9u64) & nh) & cm) | (((y >> 9u64) & nh) & cm)
        && (((x | y) << 8u64) & e) == ((x << 8u64) & e) | ((y << 8u64) & e)
        && (((((x | y) << 8u64) & e) & r6) << 8u64) & e == (((((x << 8u64) & e) & r6) << 8u64) & e) | (((((y << 8u64) & e) & r6) << 8u64) & e)
        && (((x | y) << 7u64) & nh) & cm == (((x << 7u64) & nh) & cm) | (((y << 7u64) & nh) & cm)
        && (((x | y) << 9u64) & na) & cm == (((x << 9u64) & na) & cm) | (((y << 9u64) & na) & cm)
        && ((0u64 >> 8u64) & e) == 0u64
        && (((((0u64 >> 8u64) & e) & r3) >> 8u64) & e) == 0u64
        && (((0u64 >> 7u64) & na) & cm) == 0u64
        && (((0u64 >> 9u64) & nh) & cm) == 0u64
        && ((0u64 << 8u64) & e) == 0u64
        && (((((0u64 << 8u64) & e) & r6) << 8u64) & e) == 0u64
        && (((0u64 << 7u64) & nh) & cm) == 0u64
        && (((0u64 << 9u64) & na) & cm) == 0u64
    ) by (bit_vector);
    assert forall|c: Color, g: PawnGroup| #[trigger] group_set(c, g, x | y, e, cm) == group_set(c, g, x, e, cm) | group_set(c, g, y, e, cm) by {
        assert(na == FILE_NOT_A && nh == FILE_NOT_H && r3 == RANK_3 && r6 == RANK_6);
    }
    assert forall|c: Color, g: PawnGroup| #[trigger] group_set(c, g, 0, e, cm) == 0 by {
        assert(na == FILE_NOT_A && nh == FILE_NOT_H && r3 == RANK_3 && r6 == RANK_6);
    }
}

/// A pawn on `p` reaches target `t` of a group only from the group's offset; captures
/// never wrap around the board's edge files; last-rank tests are row tests.
proof fn lemma_group_square(p: u64, t: u64, e: u64, cm: u64)
    requires
        p < 64,
        t < 64,
    ensures
        (((((1u64 << p) >> 8u64) & e) >> t) & 1u64 == 1u64) ==> p == t + 8,
        ((((((((1u64 << p) >> 8u64) & e) & 0xFF0000000000u64) >> 8u64) & e) >> t) & 1u64 == 1u64) ==> p == t + 16,
        ((((((1u64 << p) >> 7u64) & 18374403900871474942u64) & cm) >> t) & 1u64 == 1u64) ==> p == t + 7 && t % 8 != 0,
        ((((((1u64 << p) >> 9u64) & 9187201950435737471u64) & cm) >> t) & 1u64 == 1u64) ==> p == t + 9 && t % 8 != 7,
        (((((1u64 << p) << 8u64) & e) >> t) & 1u64 == 1u64) ==> t == p + 8,
        ((((((((1u64 << p) << 8u64) & e) & 0xFF0000u64) << 8u64) & e) >> t) & 1u64 == 1u64) ==> t == p + 16,
        ((((((1u64 << p) << 7u64) & 9187201950435737471u64) & cm) >> t) & 1u64 == 1u64) ==> t == p + 7 && t % 8 != 7,
        ((((((1u64 << p) << 9u64) & 18374403900871474942u64) & cm) >> t) & 1u64 == 1u64) ==> t == p + 9 && t % 8 != 0,
        ((1u64 << t) & 0xFFu64 != 0) == (t < 8),
        ((1u64 << t) & 0xFF00000000000000u64 != 0) == (t >= 56),
{
    assert(p < 64 && t < 64 ==> (
        ((((((1u64 << p) >> 8u64) & e) >> t) & 1u64 == 1u64) ==> p == t + 8)
        && (((((((((1u64 << p) >> 8u64) & e) & 0xFF0000000000u64) >> 8u64) & e) >> t) & 1u64 == 1u64) ==> p == t + 16)
        && (((((((1u64 << p) >> 7u64) & 18374403900871474942u64) & cm) >> t) & 1u64 == 1u64) ==> p == t + 7 && t % 8 != 0)
        && (((((((1u64 << p) >> 9u64) & 9187201950435737471u64) & cm) >> t) & 1u64 == 1u64) ==> p == t + 9 && t % 8 != 7)
    )) by (bit_vector);
    assert(p < 64 && t < 64 ==> (
        ((((((1u64 << p) << 8u64) & e) >> t) & 1u64 == 1u64) ==> t == p + 8)
        && (((((((((1u64 << p) << 8u64) & e) & 0xFF0000u64) << 8u64) & e) >> t) & 1u64 == 1u64) ==> t == p + 16)
        && (((((((1u64 << p) << 7u64) & 9187201950435737471u64) & cm) >> t) & 1u64 == 1u64) ==> t == p + 7 && t % 8 != 7)
        && (((((((1u64 << p) << 9u64) & 18374403900871474942u64) & cm) >> t) & 1u64 == 1u64) ==> t == p + 9 && t % 8 != 0)
        && (((1u64 << t) & 0xFFu64 != 0) == (t < 8))
        && (((1u64 << t) & 0xFF00000000000000u64 != 0) == (t >= 56))
    )) by (bit_vector);
}

/// A square is in a union over a list exactly when it is in one of the parts.
proof fn lemma_union_bit(l: Seq<int>, f: spec_fn(int) -> u64, t: int)
    ensures
        bit_at(crate::attacks::union_map(l, f), t) <==> exists|i: int| 0 <= i < l.len() && #[trigger] bit_at(f(l[i]), t),
    decreases l.len(),
{
    if !(0 <= t < 64) {
    } else if l.len() == 0 {
        crate::bits::lemma_bit_ops(0, 0, t);
    } else {
        lemma_union_bit(l.drop_first(), f, t);
        crate::bits::lemma_bit_ops(f(l[0]), crate::attacks::union_map(l.drop_first(), f), t);
        if exists|i: int| 0 <= i < l.len() && #[trigger] bit_at(f(l[i]), t) {
            let i = choose|i: int| 0 <= i < l.len() && #[trigger] bit_at(f(l[i]), t);
            if i > 0 {
                assert(l.drop_first()[i - 1] == l[i]);
            }
        }
        if exists|i: int| 0 <= i < l.drop_first().len() && #[trigger] bit_at(f(l.drop_first()[i]), t) {
            let i = choose|i: int| 0 <= i < l.drop_first().len() && #[trigger] bit_at(f(l.drop_first()[i]), t);
            assert(l[i + 1] == l.drop_first()[i]);
        }
    }
}

/// A group's targets over a list of squares are the group's targets of their union.
proof fn lemma_group_of_union(c: Color, g: PawnGroup, l: Seq<int>, e: u64, cm: u64)
    ensures
        crate::attacks::union_map(l, |p: int| group_set(c, g, single(p), e, cm))
            == group_set(c, g, crate::attacks::union_map(l, |p: int| single(p)), e, cm),
    decreases l.len(),
{
    if l.len() == 0 {
        lemma_group_union(0, 0, e, cm);
    } else {
        lemma_group_of_union(c, g, l.drop_first(), e, cm);
        lemma_group_union(single(l[0]), crate::attacks::union_map(l.drop_first(), |p: int| single(p)), e, cm);
    }
}

/// Target `t` is in a group of all pawns exactly when it is in the group of one pawn.
proof fn lemma_group_bit(c: Color, g: PawnGroup, pawns: u64, e: u64, cm: u64, t: int)
    ensures
        bit_at(group_set(c, g, pawns, e, cm), t) <==> exists|p: int| #[trigger] bit_at(pawns, p) && bit_at(group_set(c, g, single(p), e, cm), t),
{
    let l = square_list(pawns);
    let f = |p: int| group_set(c, g, single(p), e, cm);
    lemma_group_of_union(c, g, l, e, cm);
    lemma_union_of_singles(pawns);
    crate::bits::lemma_square_list(pawns);
    lemma_union_bit(l, f, t);
    assert(crate::attacks::union_map(l, f) == group_set(c, g, pawns, e, cm));
    if bit_at(group_set(c, g, pawns, e, cm), t) {
        let i = choose|i: int| 0 <= i < l.len() && #[trigger] bit_at(f(l[i]), t);
        assert(bit_at(pawns, l[i]));
        assert(bit_at(group_set(c, g, single(l[i]), e, cm), t));
    }
    if exists|p: int| #[trigger] bit_at(pawns, p) && bit_at(group_set(c, g, single(p), e, cm), t) {
        let p = choose|p: int| #[trigger] bit_at(pawns, p) && bit_at(group_set(c, g, single(p), e, cm), t);
        assert(l.contains(p));
        let i = choose|i: int| 0 <= i < l.len() && l[i] == p;
        assert(bit_at(f(l[i]), t));
    }
}

/// A pawn on `p` reaches target `t` in group `g` only from the group's offset, and then
/// the target is on the last rank exactly when it is on a promotion row (except for double
/// pushes, which never reach either).
proof fn lemma_group_step(c: Color, g: PawnGroup, p: int, t: int, e: u64, cm: u64)
    requires
        0 <= p < 64,
        bit_at(group_set(c, g, single(p), e, cm), t),
    ensures
        p == t + group_offset(c, g),
        g != PawnGroup::DoublePush ==> (crate::attacks::promotion_row(t) == last_rank(c, t)),
        g == PawnGroup::DoublePush ==> 0 <= t + group_offset(c, PawnGroup::SinglePush) < 64,
{
    lemma_group_square(p as u64, t as u64, e, cm);
    assert(single(p) == 1u64 << (p as u64));
    assert(single(t) == 1u64 << (t as u64));
}

/// The captures of a pawn are its two capture groups together.
proof fn lemma_capture_groups(c: Color, p: int, e: u64, opp: u64, ep_mask: u64)
    requires
        0 <= p < 64,
    ensures
        crate::attacks::pawn_captures(c, p, opp, ep_mask) == group_set(c, PawnGroup::LeftCapture, single(p), e, opp | ep_mask)
            | group_set(c, PawnGroup::RightCapture, single(p), e, opp | ep_mask),
        crate::attacks::pawn_single_push(c, p, e) == group_set(c, PawnGroup::SinglePush, single(p), e, opp | ep_mask),
        crate::attacks::pawn_double_push(c, p, e) == group_set(c, PawnGroup::DoublePush, single(p), e, opp | ep_mask),
{
    let x = single(p);
    let cm = opp | ep_mask;
    assert(((((x & 9187201950435737471u64) >> 7u64) | ((x & 18374403900871474942u64) >> 9u64)) & cm)
            == (((x >> 7u64) & 18374403900871474942u64) & cm) | (((x >> 9u64) & 9187201950435737471u64) & cm)
        && ((((x & 18374403900871474942u64) << 7u64) | ((x & 9187201950435737471u64) << 9u64)) & cm)
            == (((x << 7u64) & 9187201950435737471u64) & cm) | (((x << 9u64) & 18374403900871474942u64) & cm)) by (bit_vector);
}

/// A joined list holds what either part holds.
proof fn lemma_add_contains<A>(x: Seq<A>, y: Seq<A>, m: A)
    ensures
        (x + y).contains(m) <==> (x.contains(m) || y.contains(m)),
{
    if (x + y).contains(m) {
        let k = choose|k: int| 0 <= k < (x + y).len() && (x + y)[k] == m;
        if k < x.len() {
            assert(x[k] == m);
        } else {
            assert(y[k - x.len()] == m);
        }
    }
    if x.contains(m) {
        let k = choose|k: int| 0 <= k < x.len() && x[k] == m;
        assert((x + y)[k] == m);
    }
    if y.contains(m) {
        let k = choose|k: int| 0 <= k < y.len() && y[k] == m;
        assert((x + y)[k + x.len()] == m);
    }
}

/// A concatenation over a list holds what one of its parts holds.
proof fn lemma_concat_contains<A>(l: Seq<int>, f: spec_fn(int) -> Seq<A>, m: A)
    ensures
        concat_map(l, f).contains(m) <==> exists|i: int| 0 <= i < l.len() && #[trigger] f(l[i]).contains(m),
    decreases l.len(),
{
    if l.len() > 0 {
        lemma_concat_contains(l.drop_first(), f, m);
        lemma_add_contains(f(l[0]), concat_map(l.drop_first(), f), m);
        if exists|i: int| 0 <= i < l.len() && #[trigger] f(l[i]).contains(m) {
            let i = choose|i: int| 0 <= i < l.len() && #[trigger] f(l[i]).contains(m);
            if i > 0 {
                assert(l.drop_first()[i - 1] == l[i]);
            }
        }
        if exists|i: int| 0 <= i < l.drop_first().len() && #[trigger] f(l.drop_first()[i]).contains(m) {
            let i = choose|i: int| 0 <= i < l.drop_first().len() && #[trigger] f(l.drop_first()[i]).contains(m);
            assert(l[i + 1] == l.drop_first()[i]);
        }
    }
}

/// The moves of one pawn to one target, as the per-pawn generator lists them.
spec fn pawn_to(c: Color, p: int, t: int, e: u64, opp: u64, ep_mask: u64) -> Seq<PieceMove> {
    crate::attacks::pawn_quiet_to(c, p, e, opp, ep_mask)(t) + crate::attacks::pawn_loud_to(c, p, e, opp, ep_mask)(t)
}

/// Each move of a pawn to a target is a move of the group that reaches that target.
proof fn lemma_pawn_to_group(c: Color, p: int, t: int, e: u64, opp: u64, ep_mask: u64, m: PieceMove)
    requires
        0 <= p < 64,
        pawn_to(c, p, t, e, opp, ep_mask).contains(m),
    ensures
        exists|g: PawnGroup| #[trigger] bit_at(group_set(c, g, single(p), e, opp | ep_mask), t)
            && group_moves(c, g)(t).contains(m),
{
    let cm = opp | ep_mask;
    lemma_capture_groups(c, p, e, opp, ep_mask);
    let q = crate::attacks::pawn_quiet_to(c, p, e, opp, ep_mask)(t);
    let ld = crate::attacks::pawn_loud_to(c, p, e, opp, ep_mask)(t);
    lemma_add_contains(q, ld, m);
    let sp = crate::attacks::pawn_single_push(c, p, e);
    let dp = crate::attacks::pawn_double_push(c, p, e);
    let cp = crate::attacks::pawn_captures(c, p, opp, ep_mask);
    let prom = crate::attacks::promotion_row(t);
    let q1: Seq<PieceMove> = if bit_at(sp, t) && !prom { seq![move_to(crate::attacks::pawn_of(c), square_at(p), t, MoveType::Quiet)] } else { Seq::empty() };
    let q2: Seq<PieceMove> = if bit_at(dp, t) { seq![move_to(crate::attacks::pawn_of(c), square_at(p), t,
        MoveType::DoublePush(Some(crate::attacks::passed_square(c, t))))] } else { Seq::empty() };
    assert(q == q1 + q2);
    lemma_add_contains(q1, q2, m);
    let l1: Seq<PieceMove> = if bit_at(cp, t) {
        if prom { promotions(crate::attacks::pawn_of(c), square_at(p), t, true) }
        else { seq![move_to(crate::attacks::pawn_of(c), square_at(p), t, MoveType::Capture)] }
    } else { Seq::empty() };
    let l2: Seq<PieceMove> = if bit_at(sp, t) && prom { promotions(crate::attacks::pawn_of(c), square_at(p), t, false) } else { Seq::empty() };
    assert(ld == l1 + l2);
    lemma_add_contains(l1, l2, m);
    if q1.contains(m) || l2.contains(m) {
        let g = PawnGroup::SinglePush;
        lemma_group_step(c, g, p, t, e, cm);
        assert(group_moves(c, g)(t).contains(m));
        assert(bit_at(group_set(c, g, single(p), e, cm), t) && group_moves(c, g)(t).contains(m));
    } else if q2.contains(m) {
        let g = PawnGroup::DoublePush;
        lemma_group_step(c, g, p, t, e, cm);
        assert(group_moves(c, g)(t).contains(m));
        assert(bit_at(group_set(c, g, single(p), e, cm), t) && group_moves(c, g)(t).contains(m));
    } else {
        assert(l1.contains(m));
        let left = group_set(c, PawnGroup::LeftCapture, single(p), e, cm);
        let right = group_set(c, PawnGroup::RightCapture, single(p), e, cm);
        crate::bits::lemma_bit_ops(left, right, t);
        if bit_at(left, t) {
            let g = PawnGroup::LeftCapture;
            lemma_group_step(c, g, p, t, e, cm);
            assert(group_moves(c, g)(t).contains(m));
            assert(bit_at(group_set(c, g, single(p), e, cm), t) && group_moves(c, g)(t).contains(m));
        } else {
            let g = PawnGroup::RightCapture;
            lemma_group_step(c, g, p, t, e, cm);
            assert(group_moves(c, g)(t).contains(m));
            assert(bit_at(group_set(c, g, single(p), e, cm), t) && group_moves(c, g)(t).contains(m));
        }
    }
}

/// Each move of a group to a target is a move of the pawn the group starts from.
proof fn lemma_group_to_pawn(c: Color, g: PawnGroup, p: int, t: int, e: u64, opp: u64, ep_mask: u64, m: PieceMove)
    requires
        0 <= p < 64,
        bit_at(group_set(c, g, single(p), e, opp | ep_mask), t),
        group_moves(c, g)(t).contains(m),
    ensures
        bit_at(crate::attacks::pawn_targets(c, p, e, opp, ep_mask), t),
        pawn_to(c, p, t, e, opp, ep_mask).contains(m),
{
    let cm = opp | ep_mask;
    lemma_capture_groups(c, p, e, opp, ep_mask);
    lemma_group_step(c, g, p, t, e, cm);
    let q = crate::attacks::pawn_quiet_to(c, p, e, opp, ep_mask)(t);
    let ld = crate::attacks::pawn_loud_to(c, p, e, opp, ep_mask)(t);
    lemma_add_contains(q, ld, m);
    let sp = crate::attacks::pawn_single_push(c, p, e);
    let dp = crate::attacks::pawn_double_push(c, p, e);
    let cp = crate::attacks::pawn_captures(c, p, opp, ep_mask);
    let left = group_set(c, PawnGroup::LeftCapture, single(p), e, cm);
    let right = group_set(c, PawnGroup::RightCapture, single(p), e, cm);
    crate::bits::lemma_bit_ops(left, right, t);
    crate::bits::lemma_bit_ops(sp, dp, t);
    crate::bits::lemma_bit_ops(sp | dp, cp, t);
    let prom = crate::attacks::promotion_row(t);
    let q1: Seq<PieceMove> = if bit_at(sp, t) && !prom { seq![move_to(crate::attacks::pawn_of(c), square_at(p), t, MoveType::Quiet)] } else { Seq::empty() };
    let q2: Seq<PieceMove> = if bit_at(dp, t) { seq![move_to(crate::attacks::pawn_of(c), square_at(p), t,
        MoveType::DoublePush(Some(crate::attacks::passed_square(c, t))))] } else { Seq::empty() };
    assert(q == q1 + q2);
    lemma_add_contains(q1, q2, m);
    let l1: Seq<PieceMove> = if bit_at(cp, t) {
        if prom { promotions(crate::attacks::pawn_of(c), square_at(p), t, true) }
        else { seq![move_to(crate::attacks::pawn_of(c), square_at(p), t, MoveType::Capture)] }
    } else { Seq::empty() };
    let l2: Seq<PieceMove> = if bit_at(sp, t) && prom { promotions(crate::attacks::pawn_of(c), square_at(p), t, false) } else { Seq::empty() };
    assert(ld == l1 + l2);
    lemma_add_contains(l1, l2, m);
    match g {
        PawnGroup::SinglePush => {
            if prom {
                assert(l2.contains(m));
            } else {
                assert(q1.contains(m));
            }
        },
        PawnGroup::DoublePush => {
            assert(q2.contains(m));
        },
        _ => {
            assert(l1.contains(m));
        },
    }
}

/// A move the per-pawn generator lists is a move of one pawn to one target.
proof fn lemma_pawn_side(c: Color, pawns: u64, empties: u64, opp: u64, ep: u64, m: PieceMove)
    requires
        (crate::attacks::pawn_quiet_moves(c, pawns, empties, opp, ep) + crate::attacks::pawn_loud_moves(c, pawns, empties, opp, ep)).contains(m),
    ensures
        exists|p: int, t: int| 0 <= p < 64 && #[trigger] bit_at(pawns, p) && #[trigger] pawn_to(c, p, t, empties, opp, ep).contains(m),
{
    let pl = square_list(pawns);
    let fq = |p: int| concat_map(square_list(crate::attacks::pawn_targets(c, p, empties, opp, ep)), crate::attacks::pawn_quiet_to(c, p, empties, opp, ep));
    let fl = |p: int| concat_map(square_list(crate::attacks::pawn_targets(c, p, empties, opp, ep)), crate::attacks::pawn_loud_to(c, p, empties, opp, ep));
    let qa = crate::attacks::pawn_quiet_moves(c, pawns, empties, opp, ep);
    let la = crate::attacks::pawn_loud_moves(c, pawns, empties, opp, ep);
    assert(qa == concat_map(pl, fq));
    assert(la == concat_map(pl, fl));
    lemma_add_contains(qa, la, m);
    lemma_concat_contains(pl, fq, m);
    lemma_concat_contains(pl, fl, m);
    crate::bits::lemma_square_list(pawns);
    if qa.contains(m) {
        let i = choose|i: int| 0 <= i < pl.len() && #[trigger] fq(pl[i]).contains(m);
        let p = pl[i];
        assert(bit_at(pawns, p));
        let tl = square_list(crate::attacks::pawn_targets(c, p, empties, opp, ep));
        let f2 = crate::attacks::pawn_quiet_to(c, p, empties, opp, ep);
        lemma_concat_contains(tl, f2, m);
        let j = choose|j: int| 0 <= j < tl.len() && #[trigger] f2(tl[j]).contains(m);
        let t = tl[j];
        lemma_add_contains(f2(t), crate::attacks::pawn_loud_to(c, p, empties, opp, ep)(t), m);
        assert(0 <= p < 64 && bit_at(pawns, p) && pawn_to(c, p, t, empties, opp, ep).contains(m));
    } else {
        let i = choose|i: int| 0 <= i < pl.len() && #[trigger] fl(pl[i]).contains(m);
        let p = pl[i];
        assert(bit_at(pawns, p));
        let tl = square_list(crate::attacks::pawn_targets(c, p, empties, opp, ep));
        let f2 = crate::attacks::pawn_loud_to(c, p, empties, opp, ep);
        lemma_concat_contains(tl, f2, m);
        let j = choose|j: int| 0 <= j < tl.len() && #[trigger] f2(tl[j]).contains(m);
        let t = tl[j];
        lemma_add_contains(crate::attacks::pawn_quiet_to(c, p, empties, opp, ep)(t), f2(t), m);
        assert(0 <= p < 64 && bit_at(pawns, p) && pawn_to(c, p, t, empties, opp, ep).contains(m));
    }
}

/// The moves of each group, as the grouped generator lists them.
pub open spec fn group_list(c: Color, g: PawnGroup, pawns: u64, empties: u64, capture_mask: u64) -> Seq<PieceMove> {
    concat_map(square_list(group_set(c, g, pawns, empties, capture_mask)), group_moves(c, g))
}

/// The per-pawn generator and the grouped generator produce the same moves, though a
/// push to the last rank is listed with the quiet moves by the grouped generator and with
/// the captures by the per-pawn one, and the order differs.
pub proof fn lemma_pawn_moves_agree(c: Color, pawns: u64, empties: u64, opp: u64, en_passant: Option<FileRank>, m: PieceMove)
    ensures
        ({
            let ep = crate::attacks::ep_mask_of(en_passant);
            let cm = opp | ep;
            (crate::attacks::pawn_quiet_moves(c, pawns, empties, opp, ep) + crate::attacks::pawn_loud_moves(c, pawns, empties, opp, ep)).contains(m)
                <==> (group_list(c, PawnGroup::SinglePush, pawns, empties, cm) + group_list(c, PawnGroup::DoublePush, pawns, empties, cm)
                    + group_list(c, PawnGroup::LeftCapture, pawns, empties, cm) + group_list(c, PawnGroup::RightCapture, pawns, empties, cm)).contains(m)
        }),
{
    let ep = crate::attacks::ep_mask_of(en_passant);
    let cm = opp | ep;
    let pl = square_list(pawns);
    let fq = |p: int| concat_map(square_list(crate::attacks::pawn_targets(c, p, empties, opp, ep)), crate::attacks::pawn_quiet_to(c, p, empties, opp, ep));
    let fl = |p: int| concat_map(square_list(crate::attacks::pawn_targets(c, p, empties, opp, ep)), crate::attacks::pawn_loud_to(c, p, empties, opp, ep));
    let qa = crate::attacks::pawn_quiet_moves(c, pawns, empties, opp, ep);
    let la = crate::attacks::pawn_loud_moves(c, pawns, empties, opp, ep);
    assert(qa == concat_map(pl, fq));
    assert(la == concat_map(pl, fl));
    let gs = group_list(c, PawnGroup::SinglePush, pawns, empties, cm);
    let gd = group_list(c, PawnGroup::DoublePush, pawns, empties, cm);
    let gl = group_list(c, PawnGroup::LeftCapture, pawns, empties, cm);
    let gr = group_list(c, PawnGroup::RightCapture, pawns, empties, cm);
    lemma_add_contains(qa, la, m);
    lemma_add_contains(gs + gd + gl, gr, m);
    lemma_add_contains(gs + gd, gl, m);
    lemma_add_contains(gs, gd, m);
    lemma_concat_contains(pl, fq, m);
    lemma_concat_contains(pl, fl, m);
    crate::bits::lemma_square_list(pawns);
    if (qa + la).contains(m) {
        lemma_pawn_side(c, pawns, empties, opp, ep, m);
        let (p, t) = choose|p: int, t: int| 0 <= p < 64 && #[trigger] bit_at(pawns, p) && #[trigger] pawn_to(c, p, t, empties, opp, ep).contains(m);
        lemma_pawn_to_group(c, p, t, empties, opp, ep, m);
        let g = choose|g: PawnGroup| #[trigger] bit_at(group_set(c, g, single(p), empties, cm), t) && group_moves(c, g)(t).contains(m);
        lemma_group_bit(c, g, pawns, empties, cm, t);
        let gl_all = square_list(group_set(c, g, pawns, empties, cm));
        crate::bits::lemma_square_list(group_set(c, g, pawns, empties, cm));
        assert(gl_all.contains(t));
        let k = choose|k: int| 0 <= k < gl_all.len() && gl_all[k] == t;
        lemma_concat_contains(gl_all, group_moves(c, g), m);
        assert(group_moves(c, g)(gl_all[k]).contains(m));
        assert(group_list(c, g, pawns, empties, cm).contains(m));
    }
    if (gs + gd + gl + gr).contains(m) {
        let g = if gs.contains(m) { PawnGroup::SinglePush } else if gd.contains(m) { PawnGroup::DoublePush }
            else if gl.contains(m) { PawnGroup::LeftCapture } else { PawnGroup::RightCapture };
        assert(group_list(c, g, pawns, empties, cm).contains(m));
        let gl_all = square_list(group_set(c, g, pawns, empties, cm));
        crate::bits::lemma_square_list(group_set(c, g, pawns, empties, cm));
        lemma_concat_contains(gl_all, group_moves(c, g), m);
        let k = choose|k: int| 0 <= k < gl_all.len() && #[trigger] group_moves(c, g)(gl_all[k]).contains(m);
        let t = gl_all[k];
        assert(bit_at(group_set(c, g, pawns, empties, cm), t));
        lemma_group_bit(c, g, pawns, empties, cm, t);
        let p = choose|p: int| #[trigger] bit_at(pawns, p) && bit_at(group_set(c, g, single(p), empties, cm), t);
        lemma_group_to_pawn(c, g, p, t, empties, opp, ep, m);
        assert(pl.contains(p));
        let i = choose|i: int| 0 <= i < pl.len() && pl[i] == p;
        let tl = square_list(crate::attacks::pawn_targets(c, p, empties, opp, ep));
        crate::bits::lemma_square_list(crate::attacks::pawn_targets(c, p, empties, opp, ep));
        assert(tl.contains(t));
        let j = choose|j: int| 0 <= j < tl.len() && tl[j] == t;
        let fq2 = crate::attacks::pawn_quiet_to(c, p, empties, opp, ep);
        let fl2 = crate::attacks::pawn_loud_to(c, p, empties, opp, ep);
        lemma_add_contains(fq2(t), fl2(t), m);
        lemma_concat_contains(tl, fq2, m);
        lemma_concat_contains(tl, fl2, m);
        if fq2(tl[j]).contains(m) {
            assert(fq(pl[i]).contains(m));
        } else {
            assert(fl(pl[i]).contains(m));
        }
    }
}


/// Every move of a concatenation satisfies what every move of its parts satisfies.
proof fn lemma_concat_all(l: Seq<int>, f: spec_fn(int) -> Seq<PieceMove>, pred: spec_fn(PieceMove) -> bool)
    requires
        forall|i: int, j: int| 0 <= i < l.len() && 0 <= j < f(l[i]).len() ==> #[trigger] pred(#[trigger] f(l[i])[j]),
    ensures
        forall|j: int| 0 <= j < concat_map(l, f).len() ==> pred(#[trigger] concat_map(l, f)[j]),
    decreases l.len(),
{
    if l.len() > 0 {
        let rest = l.drop_first();
        assert forall|i: int, j: int| 0 <= i < rest.len() && 0 <= j < f(rest[i]).len() implies #[trigger] pred(#[trigger] f(rest[i])[j]) by {
            assert(rest[i] == l[i + 1]);
        }
        lemma_concat_all(rest, f, pred);
        let a = f(l[0]);
        let b = concat_map(rest, f);
        assert(concat_map(l, f) == a + b);
        assert forall|j: int| 0 <= j < (a + b).len() implies pred(#[trigger] (a + b)[j]) by {
            if j < a.len() {
                assert((a + b)[j] == a[j]);
                assert(pred(f(l[0])[j]));
            } else {
                assert((a + b)[j] == b[j - a.len()]);
            }
        }
    }
}

/// A concatenation over a strictly increasing list of parts without repeats, where each
/// move of the part for `x` has key `x`, has no repeats, and every key in it is at least
/// the first of the list.
proof fn lemma_concat_no_dup(l: Seq<int>, f: spec_fn(int) -> Seq<PieceMove>, key: spec_fn(PieceMove) -> int)
    requires
        forall|a: int, b: int| 0 <= a < b < l.len() ==> l[a] < l[b],
        forall|k: int| 0 <= k < l.len() ==> (#[trigger] f(l[k])).no_duplicates(),
        forall|k: int, j: int| 0 <= k < l.len() && 0 <= j < f(l[k]).len() ==> key(#[trigger] f(l[k])[j]) == l[k],
    ensures
        concat_map(l, f).no_duplicates(),
        forall|j: int| 0 <= j < concat_map(l, f).len() ==> l.len() > 0 && l[0] <= key(#[trigger] concat_map(l, f)[j]),
    decreases l.len(),
{
    if l.len() > 0 {
        let rest = l.drop_first();
        assert forall|a: int, b: int| 0 <= a < b < rest.len() implies rest[a] < rest[b] by {
            assert(rest[a] == l[a + 1] && rest[b] == l[b + 1]);
        }
        assert forall|k: int| 0 <= k < rest.len() implies (#[trigger] f(rest[k])).no_duplicates() by {
            assert(rest[k] == l[k + 1]);
        }
        assert forall|k: int, j: int| 0 <= k < rest.len() && 0 <= j < f(rest[k]).len() implies key(#[trigger] f(rest[k])[j]) == rest[k] by {
            assert(rest[k] == l[k + 1]);
        }
        lemma_concat_no_dup(rest, f, key);
        let a = f(l[0]);
        let b = concat_map(rest, f);
        assert(concat_map(l, f) == a + b);
        assert(a.no_duplicates());
        assert forall|i: int, j: int| 0 <= i < a.len() && 0 <= j < b.len() implies a[i] != b[j] by {
            assert(key(f(l[0])[i]) == l[0]);
            assert(rest[0] == l[1]);
            assert(l[0] < l[1]);
        }
        vstd::seq_lib::lemma_no_dup_in_concat(a, b);
        assert forall|j: int| 0 <= j < (a + b).len() implies l.len() > 0 && l[0] <= key(#[trigger] (a + b)[j]) by {
            if j < a.len() {
                assert((a + b)[j] == a[j]);
                assert(key(f(l[0])[j]) == l[0]);
            } else {
                assert((a + b)[j] == b[j - a.len()]);
                assert(rest[0] == l[1]);
            }
        }
    }
}

/// The four promotions to one target are all different.
proof fn lemma_promotions_no_dup(piece: Piece, from: FileRank, t: int, capture: bool)
    ensures
        crate::attacks::promotions(piece, from, t, capture).no_duplicates(),
        forall|j: int| 0 <= j < 4 ==> (#[trigger] crate::attacks::promotions(piece, from, t, capture)[j]).from == from
            && crate::attacks::promotions(piece, from, t, capture)[j].target == square_at(t),
        crate::attacks::promotions(piece, from, t, capture).len() == 4,
{
    let l = crate::attacks::promotions(piece, from, t, capture);
    assert forall|i: int, j: int| 0 <= i < l.len() && 0 <= j < l.len() && i != j implies l[i] != l[j] by {
        assert(crate::types::promotion_piece(i) != crate::types::promotion_piece(j));
    }
}


/// A quiet pawn move: a single step or a double push.
spec fn quietish(m: PieceMove) -> bool {
    m.move_type is Quiet || m.move_type is DoublePush
}

/// The moves of one pawn to one target, in either list of the per-pawn generator, have no
/// repeats; they go from the pawn's square to the target, quiet ones in the quiet list only.
proof fn lemma_pawn_target_no_dup(c: Color, p: int, t: int, e: u64, opp: u64, ep: u64)
    requires
        0 <= p < 64,
        0 <= t < 64,
    ensures
        ({
            let q = crate::attacks::pawn_quiet_to(c, p, e, opp, ep)(t);
            let l = crate::attacks::pawn_loud_to(c, p, e, opp, ep)(t);
            &&& q.no_duplicates()
            &&& l.no_duplicates()
            &&& forall|j: int| 0 <= j < q.len() ==> (#[trigger] q[j]).target.idx() == t && q[j].from == square_at(p) && quietish(q[j])
            &&& forall|j: int| 0 <= j < l.len() ==> (#[trigger] l[j]).target.idx() == t && l[j].from == square_at(p) && !quietish(l[j])
        }),
{
    crate::square::lemma_square_at(t);
    let pc = crate::attacks::pawn_of(c);
    let from = square_at(p);
    lemma_promotions_no_dup(pc, from, t, true);
    lemma_promotions_no_dup(pc, from, t, false);
    let qa = if bit_at(crate::attacks::pawn_single_push(c, p, e), t) && !crate::attacks::promotion_row(t) {
        seq![crate::attacks::move_to(pc, from, t, MoveType::Quiet)]
    } else {
        Seq::empty()
    };
    let qb = if bit_at(crate::attacks::pawn_double_push(c, p, e), t) {
        seq![crate::attacks::move_to(pc, from, t, MoveType::DoublePush(Some(crate::attacks::passed_square(c, t))))]
    } else {
        Seq::empty()
    };
    let q = crate::attacks::pawn_quiet_to(c, p, e, opp, ep)(t);
    assert(q == qa + qb);
    assert forall|i: int, j: int| 0 <= i < qa.len() && 0 <= j < qb.len() implies qa[i] != qb[j] by {}
    vstd::seq_lib::lemma_no_dup_in_concat(qa, qb);
    assert forall|j: int| 0 <= j < q.len() implies (#[trigger] q[j]).target.idx() == t && q[j].from == square_at(p) && quietish(q[j]) by {
        if j < qa.len() {
            assert(q[j] == qa[j]);
        } else {
            assert(q[j] == qb[j - qa.len()]);
        }
    }
    let a = if bit_at(crate::attacks::pawn_captures(c, p, opp, ep), t) {
        if crate::attacks::promotion_row(t) {
            crate::attacks::promotions(pc, from, t, true)
        } else {
            seq![crate::attacks::move_to(pc, from, t, MoveType::Capture)]
        }
    } else {
        Seq::empty()
    };
    let b = if bit_at(crate::attacks::pawn_single_push(c, p, e), t) && crate::attacks::promotion_row(t) {
        crate::attacks::promotions(pc, from, t, false)
    } else {
        Seq::empty()
    };
    let l = crate::attacks::pawn_loud_to(c, p, e, opp, ep)(t);
    assert(l == a + b);
    assert forall|i: int, j: int| 0 <= i < a.len() && 0 <= j < b.len() implies a[i] != b[j] by {}
    vstd::seq_lib::lemma_no_dup_in_concat(a, b);
    assert forall|j: int| 0 <= j < l.len() implies (#[trigger] l[j]).target.idx() == t && l[j].from == square_at(p) && !quietish(l[j]) by {
        if j < a.len() {
            assert(l[j] == a[j]);
        } else {
            assert(l[j] == b[j - a.len()]);
        }
    }
}

/// The moves of one pawn, as the per-pawn generator lists them, have no repeats, all start
/// on its square, and are quiet in the quiet list and not in the other.
proof fn lemma_pawn_part_no_dup(c: Color, p: int, e: u64, opp: u64, ep: u64)
    requires
        0 <= p < 64,
    ensures
        ({
            let tl = square_list(crate::attacks::pawn_targets(c, p, e, opp, ep));
            let q = concat_map(tl, crate::attacks::pawn_quiet_to(c, p, e, opp, ep));
            let l = concat_map(tl, crate::attacks::pawn_loud_to(c, p, e, opp, ep));
            &&& q.no_duplicates()
            &&& l.no_duplicates()
            &&& forall|j: int| 0 <= j < q.len() ==> (#[trigger] q[j]).from == square_at(p) && quietish(q[j])
            &&& forall|j: int| 0 <= j < l.len() ==> (#[trigger] l[j]).from == square_at(p) && !quietish(l[j])
        }),
{
    let targets = crate::attacks::pawn_targets(c, p, e, opp, ep);
    let tl = square_list(targets);
    let fq = crate::attacks::pawn_quiet_to(c, p, e, opp, ep);
    let fl = crate::attacks::pawn_loud_to(c, p, e, opp, ep);
    crate::bits::lemma_square_list(targets);
    let key = |m: PieceMove| m.target.idx();
    let pq = |m: PieceMove| m.from == square_at(p) && quietish(m);
    let pl = |m: PieceMove| m.from == square_at(p) && !quietish(m);
    assert forall|k: int| 0 <= k < tl.len() implies (#[trigger] fq(tl[k])).no_duplicates() by {
        assert(bit_at(targets, tl[k]));
        lemma_pawn_target_no_dup(c, p, tl[k], e, opp, ep);
    }
    assert forall|k: int| 0 <= k < tl.len() implies (#[trigger] fl(tl[k])).no_duplicates() by {
        assert(bit_at(targets, tl[k]));
        lemma_pawn_target_no_dup(c, p, tl[k], e, opp, ep);
    }
    assert forall|k: int, j: int| 0 <= k < tl.len() && 0 <= j < fq(tl[k]).len() implies key(#[trigger] fq(tl[k])[j]) == tl[k]
        && pq(fq(tl[k])[j]) by {
        assert(bit_at(targets, tl[k]));
        lemma_pawn_target_no_dup(c, p, tl[k], e, opp, ep);
    }
    assert forall|k: int, j: int| 0 <= k < tl.len() && 0 <= j < fl(tl[k]).len() implies key(#[trigger] fl(tl[k])[j]) == tl[k]
        && pl(fl(tl[k])[j]) by {
        assert(bit_at(targets, tl[k]));
        lemma_pawn_target_no_dup(c, p, tl[k], e, opp, ep);
    }
    lemma_concat_no_dup(tl, fq, key);
    lemma_concat_no_dup(tl, fl, key);
    lemma_concat_all(tl, fq, pq);
    lemma_concat_all(tl, fl, pl);
}


/// The class of a pawn move: a push (quiet or promoting), a double push, or a capture.
spec fn move_class(m: PieceMove) -> int {
    match m.move_type {
        MoveType::Quiet | MoveType::Promotion(_) => 0,
        MoveType::DoublePush(_) => 1,
        _ => 2,
    }
}

/// The class of the moves of a group.
spec fn group_class(g: PawnGroup) -> int {
    match g {
        PawnGroup::SinglePush => 0,
        PawnGroup::DoublePush => 1,
        _ => 2,
    }
}

/// What every move of a group satisfies: its class, and its origin at the group's offset
/// from its target.
spec fn group_move_ok(c: Color, g: PawnGroup, m: PieceMove) -> bool {
    &&& move_class(m) == group_class(g)
    &&& m.from.idx() == m.target.idx() + group_offset(c, g)
}

/// The moves of a group to one of its targets have no repeats and go to that target.
proof fn lemma_group_target_no_dup(c: Color, g: PawnGroup, pawns: u64, e: u64, cm: u64, t: int)
    requires
        bit_at(group_set(c, g, pawns, e, cm), t),
    ensures
        group_moves(c, g)(t).no_duplicates(),
        forall|j: int| 0 <= j < group_moves(c, g)(t).len() ==> (#[trigger] group_moves(c, g)(t)[j]).target.idx() == t
            && group_move_ok(c, g, group_moves(c, g)(t)[j]),
{
    lemma_group_origin(c, g, pawns, e, cm, t);
    crate::square::lemma_square_at(t);
    crate::square::lemma_square_at(t + group_offset(c, g));
    let piece = Piece { piece_type: PieceType::Pawn, color: c };
    let from = square_at(t + group_offset(c, g));
    lemma_promotions_no_dup(piece, from, t, true);
    lemma_promotions_no_dup(piece, from, t, false);
}

/// A group's list has no repeats, and its moves satisfy the group's condition.
proof fn lemma_group_list_no_dup(c: Color, g: PawnGroup, pawns: u64, e: u64, cm: u64)
    ensures
        group_list(c, g, pawns, e, cm).no_duplicates(),
        forall|j: int| 0 <= j < group_list(c, g, pawns, e, cm).len() ==> group_move_ok(c, g, #[trigger] group_list(c, g, pawns, e, cm)[j]),
{
    let set = group_set(c, g, pawns, e, cm);
    let tl = square_list(set);
    let f = group_moves(c, g);
    crate::bits::lemma_square_list(set);
    let key = |m: PieceMove| m.target.idx();
    let ok = |m: PieceMove| group_move_ok(c, g, m);
    assert forall|k: int| 0 <= k < tl.len() implies (#[trigger] f(tl[k])).no_duplicates() by {
        lemma_group_target_no_dup(c, g, pawns, e, cm, tl[k]);
    }
    assert forall|k: int, j: int| 0 <= k < tl.len() && 0 <= j < f(tl[k]).len() implies key(#[trigger] f(tl[k])[j]) == tl[k]
        && ok(f(tl[k])[j]) by {
        lemma_group_target_no_dup(c, g, pawns, e, cm, tl[k]);
    }
    lemma_concat_no_dup(tl, f, key);
    lemma_concat_all(tl, f, ok);
}

/// The per-pawn generator's two lists together have no repeats.
proof fn lemma_per_pawn_no_dup(c: Color, pawns: u64, e: u64, opp: u64, ep: u64)
    ensures
        (crate::attacks::pawn_quiet_moves(c, pawns, e, opp, ep) + crate::attacks::pawn_loud_moves(c, pawns, e, opp, ep)).no_duplicates(),
{
    let pl = square_list(pawns);
    let fq = |p: int| concat_map(square_list(crate::attacks::pawn_targets(c, p, e, opp, ep)), crate::attacks::pawn_quiet_to(c, p, e, opp, ep));
    let fl = |p: int| concat_map(square_list(crate::attacks::pawn_targets(c, p, e, opp, ep)), crate::attacks::pawn_loud_to(c, p, e, opp, ep));
    let qa = crate::attacks::pawn_quiet_moves(c, pawns, e, opp, ep);
    let la = crate::attacks::pawn_loud_moves(c, pawns, e, opp, ep);
    assert(qa == concat_map(pl, fq));
    assert(la == concat_map(pl, fl));
    crate::bits::lemma_square_list(pawns);
    let key = |m: PieceMove| m.from.idx();
    assert forall|k: int| 0 <= k < pl.len() implies (#[trigger] fq(pl[k])).no_duplicates() by {
        assert(bit_at(pawns, pl[k]));
        lemma_pawn_part_no_dup(c, pl[k], e, opp, ep);
    }
    assert forall|k: int| 0 <= k < pl.len() implies (#[trigger] fl(pl[k])).no_duplicates() by {
        assert(bit_at(pawns, pl[k]));
        lemma_pawn_part_no_dup(c, pl[k], e, opp, ep);
    }
    assert forall|k: int, j: int| 0 <= k < pl.len() && 0 <= j < fq(pl[k]).len() implies key(#[trigger] fq(pl[k])[j]) == pl[k]
        && quietish(fq(pl[k])[j]) by {
        assert(bit_at(pawns, pl[k]));
        lemma_pawn_part_no_dup(c, pl[k], e, opp, ep);
        crate::square::lemma_square_at(pl[k]);
    }
    assert forall|k: int, j: int| 0 <= k < pl.len() && 0 <= j < fl(pl[k]).len() implies key(#[trigger] fl(pl[k])[j]) == pl[k]
        && !quietish(fl(pl[k])[j]) by {
        assert(bit_at(pawns, pl[k]));
        lemma_pawn_part_no_dup(c, pl[k], e, opp, ep);
        crate::square::lemma_square_at(pl[k]);
    }
    lemma_concat_no_dup(pl, fq, key);
    lemma_concat_no_dup(pl, fl, key);
    lemma_concat_all(pl, fq, |m: PieceMove| quietish(m));
    lemma_concat_all(pl, fl, |m: PieceMove| !quietish(m));
    assert forall|i: int, j: int| 0 <= i < qa.len() && 0 <= j < la.len() implies qa[i] != la[j] by {
        assert(quietish(qa[i]));
        assert(!quietish(la[j]));
    }
    vstd::seq_lib::lemma_no_dup_in_concat(qa, la);
}

/// The grouped generator's four lists together have no repeats.
proof fn lemma_grouped_no_dup(c: Color, pawns: u64, e: u64, cm: u64)
    ensures
        (group_list(c, PawnGroup::SinglePush, pawns, e, cm) + group_list(c, PawnGroup::DoublePush, pawns, e, cm)
            + group_list(c, PawnGroup::LeftCapture, pawns, e, cm) + group_list(c, PawnGroup::RightCapture, pawns, e, cm)).no_duplicates(),
{
    let gs = group_list(c, PawnGroup::SinglePush, pawns, e, cm);
    let gd = group_list(c, PawnGroup::DoublePush, pawns, e, cm);
    let gl = group_list(c, PawnGroup::LeftCapture, pawns, e, cm);
    let gr = group_list(c, PawnGroup::RightCapture, pawns, e, cm);
    lemma_group_list_no_dup(c, PawnGroup::SinglePush, pawns, e, cm);
    lemma_group_list_no_dup(c, PawnGroup::DoublePush, pawns, e, cm);
    lemma_group_list_no_dup(c, PawnGroup::LeftCapture, pawns, e, cm);
    lemma_group_list_no_dup(c, PawnGroup::RightCapture, pawns, e, cm);
    assert forall|i: int, j: int| 0 <= i < gs.len() && 0 <= j < gd.len() implies gs[i] != gd[j] by {
        assert(group_move_ok(c, PawnGroup::SinglePush, gs[i]));
        assert(group_move_ok(c, PawnGroup::DoublePush, gd[j]));
    }
    vstd::seq_lib::lemma_no_dup_in_concat(gs, gd);
    let a = gs + gd;
    assert forall|i: int, j: int| 0 <= i < a.len() && 0 <= j < gl.len() implies a[i] != gl[j] by {
        assert(group_move_ok(c, PawnGroup::LeftCapture, gl[j]));
        if i < gs.len() {
            assert(a[i] == gs[i]);
            assert(group_move_ok(c, PawnGroup::SinglePush, gs[i]));
        } else {
            assert(a[i] == gd[i - gs.len()]);
            assert(group_move_ok(c, PawnGroup::DoublePush, gd[i - gs.len()]));
        }
    }
    vstd::seq_lib::lemma_no_dup_in_concat(a, gl);
    let b = a + gl;
    assert forall|i: int, j: int| 0 <= i < b.len() && 0 <= j < gr.len() implies b[i] != gr[j] by {
        assert(group_move_ok(c, PawnGroup::RightCapture, gr[j]));
        if i < gs.len() {
            assert(b[i] == gs[i]);
            assert(group_move_ok(c, PawnGroup::SinglePush, gs[i]));
        } else if i < a.len() {
            assert(b[i] == gd[i - gs.len()]);
            assert(group_move_ok(c, PawnGroup::DoublePush, gd[i - gs.len()]));
        } else {
            assert(b[i] == gl[i - a.len()]);
            assert(group_move_ok(c, PawnGroup::LeftCapture, gl[i - a.len()]));
        }
    }
    vstd::seq_lib::lemma_no_dup_in_concat(b, gr);
}

/// The per-pawn generator and the grouped generator produce the same moves, each as often:
/// their lists, put together, are equal as multisets.
pub proof fn lemma_pawn_lists_same_multiset(c: Color, pawns: u64, empties: u64, opp: u64, en_passant: Option<FileRank>)
    ensures
        ({
            let ep = crate::attacks::ep_mask_of(en_passant);
            let cm = opp | ep;
            (crate::attacks::pawn_quiet_moves(c, pawns, empties, opp, ep) + crate::attacks::pawn_loud_moves(c, pawns, empties, opp, ep)).to_multiset()
                == (group_list(c, PawnGroup::SinglePush, pawns, empties, cm) + group_list(c, PawnGroup::DoublePush, pawns, empties, cm)
                    + group_list(c, PawnGroup::LeftCapture, pawns, empties, cm) + group_list(c, PawnGroup::RightCapture, pawns, empties, cm)).to_multiset()
        }),
{
    let ep = crate::attacks::ep_mask_of(en_passant);
    let cm = opp | ep;
    let a = crate::attacks::pawn_quiet_moves(c, pawns, empties, opp, ep) + crate::attacks::pawn_loud_moves(c, pawns, empties, opp, ep);
    let b = group_list(c, PawnGroup::SinglePush, pawns, empties, cm) + group_list(c, PawnGroup::DoublePush, pawns, empties, cm)
        + group_list(c, PawnGroup::LeftCapture, pawns, empties, cm) + group_list(c, PawnGroup::RightCapture, pawns, empties, cm);
    lemma_per_pawn_no_dup(c, pawns, empties, opp, ep);
    lemma_grouped_no_dup(c, pawns, empties, cm);
    a.lemma_multiset_has_no_duplicates();
    b.lemma_multiset_has_no_duplicates();
    a.to_multiset_ensures();
    b.to_multiset_ensures();
    assert forall|m: PieceMove| a.to_multiset().count(m) == b.to_multiset().count(m) by {
        lemma_pawn_moves_agree(c, pawns, empties, opp, en_passant, m);
    }
    assert(a.to_multiset() =~= b.to_multiset());
}


/// The per-pawn generator (`get_pawn_moves`) and the grouped one
/// (`get_pawn_moves_vectorized`), given the same pawns, empty squares, opposing pieces,
/// en-passant square and starting mask, add the same squares to the mask and produce the
/// same moves, each as often: the per-pawn quiet and capture lists together equal the
/// grouped quiet and capture lists together as multisets. (A push to the last rank goes
/// to the per-pawn capture list but to the grouped quiet list.)
pub proof fn lemma_pawn_generators_agree(c: Color, pawns: u64, empties: u64, opp: u64, en_passant: Option<FileRank>, mask: u64)
    ensures
        ({
            let ep = crate::attacks::ep_mask_of(en_passant);
            let cm = opp | ep;
            let s = group_set(c, PawnGroup::SinglePush, pawns, empties, cm);
            let d = group_set(c, PawnGroup::DoublePush, pawns, empties, cm);
            let l = group_set(c, PawnGroup::LeftCapture, pawns, empties, cm);
            let r = group_set(c, PawnGroup::RightCapture, pawns, empties, cm);
            let per_pawn = crate::attacks::pawn_quiet_moves(c, pawns, empties, opp, ep)
                + crate::attacks::pawn_loud_moves(c, pawns, empties, opp, ep);
            let grouped = (concat_map(square_list(s), group_moves(c, PawnGroup::SinglePush))
                + concat_map(square_list(d), group_moves(c, PawnGroup::DoublePush)))
                + (concat_map(square_list(l), group_moves(c, PawnGroup::LeftCapture))
                + concat_map(square_list(r), group_moves(c, PawnGroup::RightCapture)));
            &&& mask | pawn_reach(c, pawns, empties, opp, ep) == (((mask | s) | d) | l) | r
            &&& per_pawn.to_multiset() == grouped.to_multiset()
        }),
{
    let ep = crate::attacks::ep_mask_of(en_passant);
    let cm = opp | ep;
    let s = group_set(c, PawnGroup::SinglePush, pawns, empties, cm);
    let d = group_set(c, PawnGroup::DoublePush, pawns, empties, cm);
    let l = group_set(c, PawnGroup::LeftCapture, pawns, empties, cm);
    let r = group_set(c, PawnGroup::RightCapture, pawns, empties, cm);
    lemma_pawn_reach_agrees(c, pawns, empties, opp, en_passant);
    lemma_or_facts(mask, s, d);
    lemma_or_facts(mask, s | d, l);
    lemma_or_facts(mask, (s | d) | l, r);
    lemma_pawn_lists_same_multiset(c, pawns, empties, opp, en_passant);
    let gs = group_list(c, PawnGroup::SinglePush, pawns, empties, cm);
    let gd = group_list(c, PawnGroup::DoublePush, pawns, empties, cm);
    let gl = group_list(c, PawnGroup::LeftCapture, pawns, empties, cm);
    let gr = group_list(c, PawnGroup::RightCapture, pawns, empties, cm);
    assert((gs + gd) + (gl + gr) =~= gs + gd + gl + gr);
}

} // verus!
