//! Attack patterns of the pieces and move-list generation.
use vstd::prelude::*;
use crate::bits::{bit_at, squares_of, single, square_list, lemma_bit_all, lemma_single};
use crate::square::{FileRank, square_at, FILE_NOT_A, FILE_NOT_H, FILE_NOT_AB, FILE_NOT_GH, NOT_RANK_1, NOT_RANK_8, NOT_RANK_1_2, NOT_RANK_7_8, RANK_1, RANK_3, RANK_6, RANK_8};
use crate::types::{Color, Piece, PieceMove, MoveType, PieceType, promotion_piece};

verus! {

/// Row of a square index (0 = rank 8).
pub open spec fn row_of(i: int) -> int {
    i / 8
}

/// Column of a square index (0 = file a).
pub open spec fn col_of(i: int) -> int {
    i % 8
}

/// Absolute difference.
pub open spec fn dist(a: int, b: int) -> int {
    if a >= b { a - b } else { b - a }
}

/// A knight on `s` attacks `t`.
pub open spec fn knight_step(s: int, t: int) -> bool {
    let dr = dist(row_of(s), row_of(t));
    let dc = dist(col_of(s), col_of(t));
    (dr == 1 && dc == 2) || (dr == 2 && dc == 1)
}

/// A king on `s` attacks `t`.
pub open spec fn king_step(s: int, t: int) -> bool {
    let dr = dist(row_of(s), row_of(t));
    let dc = dist(col_of(s), col_of(t));
    dr <= 1 && dc <= 1 && !(dr == 0 && dc == 0)
}

/// A pawn of colour `c` on `s` attacks `t` (White moves toward row 0).
pub open spec fn pawn_capture_step(c: Color, s: int, t: int) -> bool {
    dist(col_of(s), col_of(t)) == 1 && match c {
        Color::White => row_of(t) == row_of(s) - 1,
        Color::Black => row_of(t) == row_of(s) + 1,
    }
}

/// The knight pattern of the square with single-bit mask `start`.
pub open spec fn knight_pattern(start: u64) -> u64 {
    ((start & (FILE_NOT_H & NOT_RANK_7_8)) >> 15u64)
        | ((start & (FILE_NOT_A & NOT_RANK_7_8)) >> 17u64)
        | ((start & (FILE_NOT_A & NOT_RANK_1_2)) << 15u64)
        | ((start & (FILE_NOT_H & NOT_RANK_1_2)) << 17u64)
        | ((start & (FILE_NOT_GH & NOT_RANK_8)) >> 6u64)
        | ((start & (FILE_NOT_AB & NOT_RANK_8)) >> 10u64)
        | ((start & (FILE_NOT_AB & NOT_RANK_1)) << 6u64)
        | ((start & (FILE_NOT_GH & NOT_RANK_1)) << 10u64)
}

/// The king pattern of the square with single-bit mask `start`.
pub open spec fn king_pattern(start: u64) -> u64 {
    ((start & NOT_RANK_8) >> 8u64)
        | ((start & (NOT_RANK_8 & FILE_NOT_H)) >> 7u64)
        | ((start & (NOT_RANK_8 & FILE_NOT_A)) >> 9u64)
        | ((start & NOT_RANK_1) << 8u64)
        | ((start & (NOT_RANK_1 & FILE_NOT_A)) << 7u64)
        | ((start & (NOT_RANK_1 & FILE_NOT_H)) << 9u64)
        | ((start & FILE_NOT_H) << 1u64)
        | ((start & FILE_NOT_A) >> 1u64)
}

/// The squares a knight on `fr` attacks.
pub fn get_knight_attacks(file_rank: &FileRank) -> (attacks: u64)
    ensures
        attacks == knight_pattern(single(file_rank.idx())),
        forall|t: int| 0 <= t < 64 ==> #[trigger] bit_at(attacks, t) == knight_step(file_rank.idx(), t),
{
    let tr: u8 = file_rank.rank();
    let tf: u8 = file_rank.file();
    let s: u64 = (tr * 8 + tf) as u64;
    let start = 1u64 << s;
    let attacks = ((start & (FILE_NOT_H & NOT_RANK_7_8)) >> 15u64)
        | ((start & (FILE_NOT_A & NOT_RANK_7_8)) >> 17u64)
        | ((start & (FILE_NOT_A & NOT_RANK_1_2)) << 15u64)
        | ((start & (FILE_NOT_H & NOT_RANK_1_2)) << 17u64)
        | ((start & (FILE_NOT_GH & NOT_RANK_8)) >> 6u64)
        | ((start & (FILE_NOT_AB & NOT_RANK_8)) >> 10u64)
        | ((start & (FILE_NOT_AB & NOT_RANK_1)) << 6u64)
        | ((start & (FILE_NOT_GH & NOT_RANK_1)) << 10u64);
    proof {
        assert forall|t: int| 0 <= t < 64 implies #[trigger] bit_at(attacks, t) == knight_step(file_rank.idx(), t) by {
            let tt = t as u64;
            assert(((attacks >> tt) & 1u64 == 1u64) == (
                ((s / 8 >= tt / 8 && s / 8 - tt / 8 == 1) || (tt / 8 > s / 8 && tt / 8 - s / 8 == 1)) &&
                ((s % 8 >= tt % 8 && s % 8 - tt % 8 == 2) || (tt % 8 > s % 8 && tt % 8 - s % 8 == 2)) ||
                ((s / 8 >= tt / 8 && s / 8 - tt / 8 == 2) || (tt / 8 > s / 8 && tt / 8 - s / 8 == 2)) &&
                ((s % 8 >= tt % 8 && s % 8 - tt % 8 == 1) || (tt % 8 > s % 8 && tt % 8 - s % 8 == 1))
            )) by (bit_vector)
                requires
                    s < 64,
                    tt < 64,
                    start == 1u64 << s,
                    attacks == ((start & (FILE_NOT_H & NOT_RANK_7_8)) >> 15u64)
                        | ((start & (FILE_NOT_A & NOT_RANK_7_8)) >> 17u64)
                        | ((start & (FILE_NOT_A & NOT_RANK_1_2)) << 15u64)
                        | ((start & (FILE_NOT_H & NOT_RANK_1_2)) << 17u64)
                        | ((start & (FILE_NOT_GH & NOT_RANK_8)) >> 6u64)
                        | ((start & (FILE_NOT_AB & NOT_RANK_8)) >> 10u64)
                        | ((start & (FILE_NOT_AB & NOT_RANK_1)) << 6u64)
                        | ((start & (FILE_NOT_GH & NOT_RANK_1)) << 10u64),
            ;
        }
    }
    attacks
}

/// The squares a king on `fr` attacks.
pub fn get_king_attacks(file_rank: &FileRank) -> (attacks: u64)
    ensures
        attacks == king_pattern(single(file_rank.idx())),
        forall|t: int| 0 <= t < 64 ==> #[trigger] bit_at(attacks, t) == king_step(file_rank.idx(), t),
{
    let tr: u8 = file_rank.rank();
    let tf: u8 = file_rank.file();
    let s: u64 = (tr * 8 + tf) as u64;
    let start = 1u64 << s;
    let attacks = ((start & NOT_RANK_8) >> 8u64)
        | ((start & (NOT_RANK_8 & FILE_NOT_H)) >> 7u64)
        | ((start & (NOT_RANK_8 & FILE_NOT_A)) >> 9u64)
        | ((start & NOT_RANK_1) << 8u64)
        | ((start & (NOT_RANK_1 & FILE_NOT_A)) << 7u64)
        | ((start & (NOT_RANK_1 & FILE_NOT_H)) << 9u64)
        | ((start & FILE_NOT_H) << 1u64)
        | ((start & FILE_NOT_A) >> 1u64);
    proof {
        assert forall|t: int| 0 <= t < 64 implies #[trigger] bit_at(attacks, t) == king_step(file_rank.idx(), t) by {
            let tt = t as u64;
            assert(((attacks >> tt) & 1u64 == 1u64) == ((((s / 8 >= tt / 8 && s / 8 - tt / 8 == 0) || (tt / 8 > s / 8 && tt / 8 - s / 8 == 0)) || ((s / 8 >= tt / 8 && s / 8 - tt / 8 == 1) || (tt / 8 > s / 8 && tt / 8 - s / 8 == 1))) && (((s % 8 >= tt % 8 && s % 8 - tt % 8 == 0) || (tt % 8 > s % 8 && tt % 8 - s % 8 == 0)) || ((s % 8 >= tt % 8 && s % 8 - tt % 8 == 1) || (tt % 8 > s % 8 && tt % 8 - s % 8 == 1))) && !(((s / 8 >= tt / 8 && s / 8 - tt / 8 == 0) || (tt / 8 > s / 8 && tt / 8 - s / 8 == 0)) && ((s % 8 >= tt % 8 && s % 8 - tt % 8 == 0) || (tt % 8 > s % 8 && tt % 8 - s % 8 == 0))))) by (bit_vector)
                requires
                    s < 64,
                    tt < 64,
                    start == 1u64 << s,
                    attacks == ((start & NOT_RANK_8) >> 8u64)
                        | ((start & (NOT_RANK_8 & FILE_NOT_H)) >> 7u64)
                        | ((start & (NOT_RANK_8 & FILE_NOT_A)) >> 9u64)
                        | ((start & NOT_RANK_1) << 8u64)
                        | ((start & (NOT_RANK_1 & FILE_NOT_A)) << 7u64)
                        | ((start & (NOT_RANK_1 & FILE_NOT_H)) << 9u64)
                        | ((start & FILE_NOT_H) << 1u64)
                        | ((start & FILE_NOT_A) >> 1u64),
            ;
        }
    }
    attacks
}

/// The squares a pawn of colour `side` on `file_rank` attacks diagonally (the pattern
/// of `get_pawn_pattern_attacks`, taking its arguments by value).
pub fn get_pawn_attacks(side: Color, file_rank: FileRank) -> (attacks: u64)
    ensures
        forall|t: int| 0 <= t < 64 ==> #[trigger] bit_at(attacks, t) == pawn_capture_step(side, file_rank.idx(), t),
{
    get_pawn_pattern_attacks(&side, &file_rank)
}

/// The squares a pawn of colour `side` on `fr` attacks diagonally.
pub fn get_pawn_pattern_attacks(side: &Color, file_rank: &FileRank) -> (attacks: u64)
    ensures
        forall|t: int| 0 <= t < 64 ==> #[trigger] bit_at(attacks, t) == pawn_capture_step(*side, file_rank.idx(), t),
{
    let tr: u8 = file_rank.rank();
    let tf: u8 = file_rank.file();
    let s: u64 = (tr * 8 + tf) as u64;
    let start = 1u64 << s;
    match side {
        Color::White => {
            let attacks = ((start & FILE_NOT_H) >> 7u64) | ((start & FILE_NOT_A) >> 9u64);
            proof {
                assert forall|t: int| 0 <= t < 64 implies #[trigger] bit_at(attacks, t) == pawn_capture_step(*side, file_rank.idx(), t) by {
                    let tt = t as u64;
                    assert(((attacks >> tt) & 1u64 == 1u64) == (((s % 8 >= tt % 8 && s % 8 - tt % 8 == 1) || (tt % 8 > s % 8 && tt % 8 - s % 8 == 1)) && s / 8 >= 1 && tt / 8 == s / 8 - 1)) by (bit_vector)
                        requires
                            s < 64,
                            tt < 64,
                            start == 1u64 << s,
                            attacks == ((start & FILE_NOT_H) >> 7u64) | ((start & FILE_NOT_A) >> 9u64),
                    ;
                }
            }
            attacks
        }
        Color::Black => {
            let attacks = ((start & FILE_NOT_A) << 7u64) | ((start & FILE_NOT_H) << 9u64);
            proof {
                assert forall|t: int| 0 <= t < 64 implies #[trigger] bit_at(attacks, t) == pawn_capture_step(*side, file_rank.idx(), t) by {
                    let tt = t as u64;
                    assert(((attacks >> tt) & 1u64 == 1u64) == (((s % 8 >= tt % 8 && s % 8 - tt % 8 == 1) || (tt % 8 > s % 8 && tt % 8 - s % 8 == 1)) && tt / 8 == s / 8 + 1)) by (bit_vector)
                        requires
                            s < 64,
                            tt < 64,
                            start == 1u64 << s,
                            attacks == ((start & FILE_NOT_A) << 7u64) | ((start & FILE_NOT_H) << 9u64),
                    ;
                }
            }
            attacks
        }
    }
}

/// Squares reached from (`r`, `c`) stepping by (`dr`, `dc`) up to and including
/// the first occupied square or the board's edge.
pub open spec fn ray(r: int, c: int, dr: int, dc: int, occ: u64) -> u64
    decreases (if dr > 0 { 7 - r } else if dr < 0 { r } else { 0 }) + (if dc > 0 { 7 - c } else if dc < 0 { c } else { 0 }),
{
    let nr = r + dr;
    let nc = c + dc;
    if (dr == 0 && dc == 0) || dr < -1 || dr > 1 || dc < -1 || dc > 1 || !(0 <= r < 8 && 0 <= c < 8)
        || !(0 <= nr < 8 && 0 <= nc < 8) {
        0
    } else if bit_at(occ, nr * 8 + nc) {
        single(nr * 8 + nc)
    } else {
        single(nr * 8 + nc) | ray(nr, nc, dr, dc, occ)
    }
}

/// Squares strictly between (`r`, `c`) and the board's edge in direction
/// (`dr`, `dc`), leaving out the edge square itself.
pub open spec fn inner_ray(r: int, c: int, dr: int, dc: int) -> u64
    decreases (if dr > 0 { 7 - r } else if dr < 0 { r } else { 0 }) + (if dc > 0 { 7 - c } else if dc < 0 { c } else { 0 }),
{
    let nr = r + dr;
    let nc = c + dc;
    if (dr == 0 && dc == 0) || dr < -1 || dr > 1 || dc < -1 || dc > 1 || !(0 <= r < 8 && 0 <= c < 8)
        || !(0 <= nr < 8 && 0 <= nc < 8) || !(0 <= nr + dr < 8 && 0 <= nc + dc < 8) {
        0
    } else {
        single(nr * 8 + nc) | inner_ray(nr, nc, dr, dc)
    }
}

/// Rook attacks from square `s` with blockers `occ`: east, west, south, north.
pub open spec fn rook_attacks(s: int, occ: u64) -> u64 {
    ray(row_of(s), col_of(s), 0, 1, occ) | ray(row_of(s), col_of(s), 0, -1, occ)
        | ray(row_of(s), col_of(s), 1, 0, occ) | ray(row_of(s), col_of(s), -1, 0, occ)
}

/// Bishop attacks from square `s` with blockers `occ`, along the four diagonals.
pub open spec fn bishop_attacks(s: int, occ: u64) -> u64 {
    ray(row_of(s), col_of(s), 1, 1, occ) | ray(row_of(s), col_of(s), -1, -1, occ)
        | ray(row_of(s), col_of(s), -1, 1, occ) | ray(row_of(s), col_of(s), 1, -1, occ)
}

/// Squares whose occupancy matters for a rook on `s` (its lines without the edges).
pub open spec fn rook_mask(s: int) -> u64 {
    inner_ray(row_of(s), col_of(s), 0, 1) | inner_ray(row_of(s), col_of(s), 0, -1)
        | inner_ray(row_of(s), col_of(s), 1, 0) | inner_ray(row_of(s), col_of(s), -1, 0)
}

/// Squares whose occupancy matters for a bishop on `s` (its diagonals without the edges).
pub open spec fn bishop_mask(s: int) -> u64 {
    inner_ray(row_of(s), col_of(s), 1, 1) | inner_ray(row_of(s), col_of(s), -1, -1)
        | inner_ray(row_of(s), col_of(s), -1, 1) | inner_ray(row_of(s), col_of(s), 1, -1)
}

/// `x | 0` is `x`, and `|` regroups.
pub proof fn lemma_or_facts(a: u64, b: u64, c: u64)
    ensures
        a | 0u64 == a,
        0u64 | a == a,
        (a | b) | c == a | (b | c),
{
    crate::bits::lemma_word_facts(a, b, c, 0);
}

/// Walks from (`tr`, `tf`) in direction (`dr`, `dc`), collecting squares up to the first blocker.
fn walk_ray(tr: u8, tf: u8, dr: i8, dc: i8, occ: u64) -> (attacks: u64)
    requires
        tr < 8,
        tf < 8,
        -1 <= dr <= 1,
        -1 <= dc <= 1,
        !(dr == 0 && dc == 0),
    ensures
        attacks == ray(tr as int, tf as int, dr as int, dc as int, occ),
{
    let mut r: i8 = tr as i8;
    let mut c: i8 = tf as i8;
    let mut attacks: u64 = 0;
    proof {
        lemma_or_facts(ray(tr as int, tf as int, dr as int, dc as int, occ), 0, 0);
    }
    loop
        invariant_except_break
            attacks | ray(r as int, c as int, dr as int, dc as int, occ) == ray(tr as int, tf as int, dr as int, dc as int, occ),
        invariant
            0 <= r < 8,
            0 <= c < 8,
            -1 <= dr <= 1,
            -1 <= dc <= 1,
            !(dr == 0 && dc == 0),
        ensures
            attacks == ray(tr as int, tf as int, dr as int, dc as int, occ),
        decreases (if dr > 0 { 7 - r } else if dr < 0 { r as int } else { 0 }) + (if dc > 0 { 7 - c } else if dc < 0 { c as int } else { 0 }),
    {
        let nr = r + dr;
        let nc = c + dc;
        if nr < 0 || nr >= 8 || nc < 0 || nc >= 8 {
            proof {
                lemma_or_facts(attacks, 0, 0);
            }
            break;
        }
        let sq: u64 = (nr * 8 + nc) as u64;
        let m = 1u64 << sq;
        let rest = Ghost(ray(nr as int, nc as int, dr as int, dc as int, occ));
        proof {
            lemma_or_facts(attacks, m, rest@);
        }
        attacks = attacks | m;
        if (occ >> sq) & 1 == 1 {
            break;
        }
        r = nr;
        c = nc;
    }
    attacks
}

/// Walks from (`tr`, `tf`) in direction (`dr`, `dc`), collecting squares short of the edge.
fn walk_inner(tr: u8, tf: u8, dr: i8, dc: i8) -> (attacks: u64)
    requires
        tr < 8,
        tf < 8,
        -1 <= dr <= 1,
        -1 <= dc <= 1,
        !(dr == 0 && dc == 0),
    ensures
        attacks == inner_ray(tr as int, tf as int, dr as int, dc as int),
{
    let mut r: i8 = tr as i8;
    let mut c: i8 = tf as i8;
    let mut attacks: u64 = 0;
    proof {
        lemma_or_facts(inner_ray(tr as int, tf as int, dr as int, dc as int), 0, 0);
    }
    loop
        invariant
            0 <= r < 8,
            0 <= c < 8,
            -1 <= dr <= 1,
            -1 <= dc <= 1,
            !(dr == 0 && dc == 0),
            attacks | inner_ray(r as int, c as int, dr as int, dc as int) == inner_ray(tr as int, tf as int, dr as int, dc as int),
        ensures
            attacks == inner_ray(tr as int, tf as int, dr as int, dc as int),
        decreases (if dr > 0 { 7 - r } else if dr < 0 { r as int } else { 0 }) + (if dc > 0 { 7 - c } else if dc < 0 { c as int } else { 0 }),
    {
        let nr = r + dr;
        let nc = c + dc;
        if nr < 0 || nr >= 8 || nc < 0 || nc >= 8 || nr + dr < 0 || nr + dr >= 8 || nc + dc < 0 || nc + dc >= 8 {
            proof {
                lemma_or_facts(attacks, 0, 0);
            }
            break;
        }
        let sq: u64 = (nr * 8 + nc) as u64;
        let m = 1u64 << sq;
        let rest = Ghost(inner_ray(nr as int, nc as int, dr as int, dc as int));
        proof {
            lemma_or_facts(attacks, m, rest@);
        }
        attacks = attacks | m;
        r = nr;
        c = nc;
    }
    attacks
}

/// Rook attacks from `file_rank` on the board `bit_board`, each line up to and including its first blocker.
pub fn _gen_rook_move_fly(file_rank: FileRank, bit_board: u64) -> (attacks: u64)
    ensures
        attacks == rook_attacks(file_rank.idx(), bit_board),
{
    let tr: u8 = file_rank.rank();
    let tf: u8 = file_rank.file();
    walk_ray(tr, tf, 0, 1, bit_board) | walk_ray(tr, tf, 0, -1, bit_board) | walk_ray(tr, tf, 1, 0, bit_board)
        | walk_ray(tr, tf, -1, 0, bit_board)
}

/// Bishop attacks from `file_rank` on the board `bit_board`, each diagonal up to and including its first blocker.
pub fn _gen_bishop_attacks_on_the_fly(file_rank: FileRank, bit_board: u64) -> (attacks: u64)
    ensures
        attacks == bishop_attacks(file_rank.idx(), bit_board),
{
    let tr: u8 = file_rank.rank();
    let tf: u8 = file_rank.file();
    walk_ray(tr, tf, 1, 1, bit_board) | walk_ray(tr, tf, -1, -1, bit_board) | walk_ray(tr, tf, -1, 1, bit_board)
        | walk_ray(tr, tf, 1, -1, bit_board)
}

/// The squares whose occupancy changes a rook's attacks from `file_rank`.
pub fn _gen_rook_attacks_mask(file_rank: FileRank) -> (attacks: u64)
    ensures
        attacks == rook_mask(file_rank.idx()),
{
    let tr: u8 = file_rank.rank();
    let tf: u8 = file_rank.file();
    walk_inner(tr, tf, 0, 1) | walk_inner(tr, tf, 0, -1) | walk_inner(tr, tf, 1, 0) | walk_inner(tr, tf, -1, 0)
}

/// The squares whose occupancy changes a bishop's attacks from `file_rank`.
pub fn _gen_bishop_attacks_mask(file_rank: FileRank) -> (attacks: u64)
    ensures
        attacks == bishop_mask(file_rank.idx()),
{
    let tr: u8 = file_rank.rank();
    let tf: u8 = file_rank.file();
    walk_inner(tr, tf, 1, 1) | walk_inner(tr, tf, -1, -1) | walk_inner(tr, tf, -1, 1) | walk_inner(tr, tf, 1, -1)
}

/// Concatenation of `f(x)` over the elements of `l`, in order.
pub open spec fn concat_map<A>(l: Seq<int>, f: spec_fn(int) -> Seq<A>) -> Seq<A>
    decreases l.len(),
{
    if l.len() == 0 {
        Seq::empty()
    } else {
        f(l[0]) + concat_map(l.drop_first(), f)
    }
}

/// Union of `f(x)` over the elements of `l`.
pub open spec fn union_map(l: Seq<int>, f: spec_fn(int) -> u64) -> u64
    decreases l.len(),
{
    if l.len() == 0 {
        0
    } else {
        f(l[0]) | union_map(l.drop_first(), f)
    }
}

/// The set bits of a non-empty word: its lowest bit, then the rest.
pub proof fn lemma_square_list_step(b: u64)
    requires
        b != 0,
    ensures
        square_list(b).len() > 0,
        square_list(b)[0] == vstd::std_specs::bits::u64_trailing_zeros(b),
        square_list(b).drop_first() == square_list(b & ((b - 1) as u64)),
{
    assert(square_list(b).drop_first() =~= square_list(b & ((b - 1) as u64)));
}

/// A move of `piece` from `from` to square index `t`.
pub open spec fn move_to(piece: Piece, from: FileRank, t: int, move_type: MoveType) -> PieceMove {
    PieceMove { piece, from, target: square_at(t), move_type }
}

/// The quiet moves that `fill_moves` produces for target `t`.
pub open spec fn quiet_fill(from: FileRank, piece: Piece, opp: u64) -> spec_fn(int) -> Seq<PieceMove> {
    |t: int| if bit_at(opp, t) { Seq::empty() } else { seq![move_to(piece, from, t, MoveType::Quiet)] }
}

/// The captures that `fill_moves` produces for target `t`.
pub open spec fn capture_fill(from: FileRank, piece: Piece, opp: u64) -> spec_fn(int) -> Seq<PieceMove> {
    |t: int| if bit_at(opp, t) { seq![move_to(piece, from, t, MoveType::Capture)] } else { Seq::empty() }
}

/// Appends one move per set bit of `bit_moves` (lowest square first): a capture where an
/// opposing piece stands, a quiet move elsewhere.
pub fn fill_moves(
    from: FileRank,
    piece: Piece,
    bit_moves: u64,
    quiet_attacks: &mut Vec<PieceMove>,
    killer_attacks: &mut Vec<PieceMove>,
    opposite_blockers: u64,
)
    ensures
        final(quiet_attacks)@ == old(quiet_attacks)@ + concat_map(square_list(bit_moves), quiet_fill(from, piece, opposite_blockers)),
        final(killer_attacks)@ == old(killer_attacks)@ + concat_map(square_list(bit_moves), capture_fill(from, piece, opposite_blockers)),
{
    let mut moves = bit_moves;
    let ghost q0 = quiet_attacks@;
    let ghost k0 = killer_attacks@;
    let ghost fq = quiet_fill(from, piece, opposite_blockers);
    let ghost fk = capture_fill(from, piece, opposite_blockers);
    assert(quiet_attacks@ + concat_map(square_list(moves), fq) =~= q0 + concat_map(square_list(bit_moves), fq));
    assert(killer_attacks@ + concat_map(square_list(moves), fk) =~= k0 + concat_map(square_list(bit_moves), fk));
    while moves > 0
        invariant
            fq == quiet_fill(from, piece, opposite_blockers),
            fk == capture_fill(from, piece, opposite_blockers),
            quiet_attacks@ + concat_map(square_list(moves), fq) == q0 + concat_map(square_list(bit_moves), fq),
            killer_attacks@ + concat_map(square_list(moves), fk) == k0 + concat_map(square_list(bit_moves), fk),
        decreases moves,
    {
        let ghost before = moves;
        proof {
            lemma_square_list_step(moves);
        }
        let i = crate::bits::pop_lsb(&mut moves);
        proof {
            crate::bits::lemma_lowest_bit(before);
        }
        let fr = FileRank::get_file_rank(i as u8);
        match fr {
            Some(fr) => {
                let m = fr.mask();
                let is_capture = opposite_blockers & m > 0;
                proof {
                    lemma_bit_all(opposite_blockers, m);
                    crate::bits::lemma_single(i as int, i as int);
                    assert(bit_at(m, i as int));
                    if bit_at(opposite_blockers, i as int) {
                        assert(bit_at(opposite_blockers & m, i as int));
                        crate::bits::lemma_bit_nonzero(opposite_blockers & m, i as int);
                    } else {
                        assert forall|k: int| 0 <= k < 64 implies bit_at(opposite_blockers & m, k) == bit_at(0u64, k) by {
                            crate::bits::lemma_bit_ops(0u64, 0u64, k);
                        }
                        crate::bits::lemma_bits_ext(opposite_blockers & m, 0);
                    }
                }
                let mv = PieceMove {
                    piece,
                    from,
                    target: fr,
                    move_type: if is_capture { MoveType::Capture } else { MoveType::Quiet },
                };
                if is_capture {
                    killer_attacks.push(mv);
                } else {
                    quiet_attacks.push(mv);
                }
                proof {
                    let l = square_list(before);
                    assert(concat_map(l, fq) == fq(l[0]) + concat_map(l.drop_first(), fq));
                    assert(concat_map(l, fk) == fk(l[0]) + concat_map(l.drop_first(), fk));
                    assert(quiet_attacks@ + concat_map(square_list(moves), fq) =~= q0 + concat_map(square_list(bit_moves), fq));
                    assert(killer_attacks@ + concat_map(square_list(moves), fk) =~= k0 + concat_map(square_list(bit_moves), fk));
                }
            }
            None => {}
        }
    }
    proof {
        assert(quiet_attacks@ =~= quiet_attacks@ + concat_map(square_list(moves), fq));
        assert(killer_attacks@ =~= killer_attacks@ + concat_map(square_list(moves), fk));
    }
}

/// The diagonal attack pattern of a pawn as a word.
pub open spec fn pawn_pattern(c: Color, s: int) -> u64 {
    match c {
        Color::White => ((single(s) & FILE_NOT_H) >> 7u64) | ((single(s) & FILE_NOT_A) >> 9u64),
        Color::Black => ((single(s) & FILE_NOT_A) << 7u64) | ((single(s) & FILE_NOT_H) << 9u64),
    }
}

/// One square forward for colour `c` (White moves toward rank 8, i.e. lower indices).
pub open spec fn forward(c: Color, b: u64) -> u64 {
    match c {
        Color::White => b >> 8u64,
        Color::Black => b << 8u64,
    }
}

/// The square a pawn of colour `c` on `p` can advance to by one step, if it is empty.
pub open spec fn pawn_single_push(c: Color, p: int, empties: u64) -> u64 {
    forward(c, single(p)) & empties
}

/// The square a pawn can reach by its first double step, if both squares are empty.
pub open spec fn pawn_double_push(c: Color, p: int, empties: u64) -> u64 {
    let third = match c {
        Color::White => RANK_3,
        Color::Black => RANK_6,
    };
    forward(c, pawn_single_push(c, p, empties) & third) & empties
}

/// The squares a pawn can capture on: opposing pieces or the en-passant square.
pub open spec fn pawn_captures(c: Color, p: int, opp: u64, ep_mask: u64) -> u64 {
    pawn_pattern(c, p) & (opp | ep_mask)
}

/// Every square a pawn on `p` can move to.
pub open spec fn pawn_targets(c: Color, p: int, empties: u64, opp: u64, ep_mask: u64) -> u64 {
    pawn_single_push(c, p, empties) | pawn_double_push(c, p, empties) | pawn_captures(c, p, opp, ep_mask)
}

/// The target is on the last rank of either side.
pub open spec fn promotion_row(t: int) -> bool {
    row_of(t) == 0 || row_of(t) == 7
}

/// The four promotion moves of a pawn, with the given kind of move for each piece.
pub open spec fn promotions(piece: Piece, from: FileRank, t: int, capture: bool) -> Seq<PieceMove> {
    Seq::new(4, |k: int| move_to(piece, from, t,
        if capture { MoveType::CaptureWithPromotion(promotion_piece(k)) } else { MoveType::Promotion(promotion_piece(k)) }))
}

/// The square passed over by a double push to `t`.
pub open spec fn passed_square(c: Color, t: int) -> FileRank {
    match c {
        Color::White => square_at(t + 8),
        Color::Black => square_at(t - 8),
    }
}

/// The pawn of a colour.
pub open spec fn pawn_of(c: Color) -> Piece {
    Piece { piece_type: PieceType::Pawn, color: c }
}

/// Quiet moves of the pawn on `p` to target `t`: a plain single push, or a double push.
pub open spec fn pawn_quiet_to(c: Color, p: int, empties: u64, opp: u64, ep_mask: u64) -> spec_fn(int) -> Seq<PieceMove> {
    |t: int|
        (if bit_at(pawn_single_push(c, p, empties), t) && !promotion_row(t) {
            seq![move_to(pawn_of(c), square_at(p), t, MoveType::Quiet)]
        } else {
            Seq::empty()
        }) + (if bit_at(pawn_double_push(c, p, empties), t) {
            seq![move_to(pawn_of(c), square_at(p), t, MoveType::DoublePush(Some(passed_square(c, t))))]
        } else {
            Seq::empty()
        })
}

/// Captures and promotions of the pawn on `p` to target `t`.
pub open spec fn pawn_loud_to(c: Color, p: int, empties: u64, opp: u64, ep_mask: u64) -> spec_fn(int) -> Seq<PieceMove> {
    |t: int|
        (if bit_at(pawn_captures(c, p, opp, ep_mask), t) {
            if promotion_row(t) {
                promotions(pawn_of(c), square_at(p), t, true)
            } else {
                seq![move_to(pawn_of(c), square_at(p), t, MoveType::Capture)]
            }
        } else {
            Seq::empty()
        }) + (if bit_at(pawn_single_push(c, p, empties), t) && promotion_row(t) {
            promotions(pawn_of(c), square_at(p), t, false)
        } else {
            Seq::empty()
        })
}

/// Quiet pawn moves of all pawns, pawn by pawn and target by target, lowest square first.
pub open spec fn pawn_quiet_moves(c: Color, pawns: u64, empties: u64, opp: u64, ep_mask: u64) -> Seq<PieceMove> {
    concat_map(square_list(pawns), |p: int| concat_map(square_list(pawn_targets(c, p, empties, opp, ep_mask)), pawn_quiet_to(c, p, empties, opp, ep_mask)))
}

/// Captures and promotions of all pawns, in the same order.
pub open spec fn pawn_loud_moves(c: Color, pawns: u64, empties: u64, opp: u64, ep_mask: u64) -> Seq<PieceMove> {
    concat_map(square_list(pawns), |p: int| concat_map(square_list(pawn_targets(c, p, empties, opp, ep_mask)), pawn_loud_to(c, p, empties, opp, ep_mask)))
}

/// All squares the pawns can move to.
pub open spec fn pawn_reach(c: Color, pawns: u64, empties: u64, opp: u64, ep_mask: u64) -> u64 {
    union_map(square_list(pawns), |p: int| pawn_targets(c, p, empties, opp, ep_mask))
}

/// The single-bit mask of the en-passant square, or 0.
pub open spec fn ep_mask_of(en_passant: Option<FileRank>) -> u64 {
    match en_passant {
        Some(fr) => single(fr.idx()),
        None => 0,
    }
}

/// Pushes the four promotion moves.
pub(crate) fn push_promotions(list: &mut Vec<PieceMove>, piece: Piece, from: FileRank, target: FileRank, capture: bool)
    ensures
        final(list)@ == old(list)@ + promotions(piece, from, target.idx(), capture),
{
    let mut k: usize = 0;
    let ghost l0 = list@;
    while k < 4
        invariant
            k <= 4,
            list@ == l0 + promotions(piece, from, target.idx(), capture).take(k as int),
        decreases 4 - k,
    {
        let t = crate::types::promotion_pieces(k);
        let mt = if capture { MoveType::CaptureWithPromotion(t) } else { MoveType::Promotion(t) };
        proof {
            target.lemma_idx();
        }
        list.push(PieceMove { from, piece, target, move_type: mt });
        proof {
            assert(promotions(piece, from, target.idx(), capture).take(k + 1) =~= promotions(piece, from, target.idx(), capture).take(k as int).push(
                PieceMove { from, piece, target, move_type: mt }));
        }
        k = k + 1;
    }
    proof {
        assert(promotions(piece, from, target.idx(), capture).take(4) =~= promotions(piece, from, target.idx(), capture));
    }
}

/// Generates all pawn moves of `color`: quiet pushes and double pushes go to
/// `quite_attacks`; captures, en-passant captures and promotions go to
/// `capture_attacks`. Every target is also added to `attack_mask`. Pushes go only to
/// squares of `all_blockers`, which callers pass as the set of empty squares.
pub fn get_pawn_moves(
    color: Color,
    pawns: u64,
    all_blockers: u64,
    opposite_blockers: u64,
    en_passant: &Option<FileRank>,
    attack_mask: &mut u64,
    quite_attacks: &mut Vec<PieceMove>,
    capture_attacks: &mut Vec<PieceMove>,
)
    ensures
        final(quite_attacks)@ == old(quite_attacks)@ + pawn_quiet_moves(color, pawns, all_blockers, opposite_blockers, ep_mask_of(*en_passant)),
        final(capture_attacks)@ == old(capture_attacks)@ + pawn_loud_moves(color, pawns, all_blockers, opposite_blockers, ep_mask_of(*en_passant)),
        *final(attack_mask) == *old(attack_mask) | pawn_reach(color, pawns, all_blockers, opposite_blockers, ep_mask_of(*en_passant)),
{
    let mut remaining = pawns;
    let rank_3_or_6 = if color == Color::White { RANK_3 } else { RANK_6 };
    let piece = Piece { piece_type: PieceType::Pawn, color };
    let en_passant_mask = match en_passant {
        Some(file_rank) => {
            let mut mask = 0u64;
            crate::bits::set_bit_by_index(&mut mask, file_rank.index() as u8);
            proof {
                lemma_or_facts(single(file_rank.idx()), 0, 0);
            }
            mask
        }
        None => 0u64,
    };
    let ghost ep = ep_mask_of(*en_passant);
    let ghost fq = |p: int| concat_map(square_list(pawn_targets(color, p, all_blockers, opposite_blockers, ep)), pawn_quiet_to(color, p, all_blockers, opposite_blockers, ep));
    let ghost fl = |p: int| concat_map(square_list(pawn_targets(color, p, all_blockers, opposite_blockers, ep)), pawn_loud_to(color, p, all_blockers, opposite_blockers, ep));
    let ghost fm = |p: int| pawn_targets(color, p, all_blockers, opposite_blockers, ep);
    let ghost q0 = quite_attacks@;
    let ghost c0 = capture_attacks@;
    let ghost a0 = *attack_mask;
    proof {
        assert(quite_attacks@ + concat_map(square_list(remaining), fq) =~= q0 + pawn_quiet_moves(color, pawns, all_blockers, opposite_blockers, ep));
        assert(capture_attacks@ + concat_map(square_list(remaining), fl) =~= c0 + pawn_loud_moves(color, pawns, all_blockers, opposite_blockers, ep));
        lemma_or_facts(a0, 0, 0);
    }
    while remaining > 0
        invariant
            ep == ep_mask_of(*en_passant),
            en_passant_mask == ep,
            piece == pawn_of(color),
            rank_3_or_6 == (match color { Color::White => RANK_3, Color::Black => RANK_6 }),
            fq == (|p: int| concat_map(square_list(pawn_targets(color, p, all_blockers, opposite_blockers, ep)), pawn_quiet_to(color, p, all_blockers, opposite_blockers, ep))),
            fl == (|p: int| concat_map(square_list(pawn_targets(color, p, all_blockers, opposite_blockers, ep)), pawn_loud_to(color, p, all_blockers, opposite_blockers, ep))),
            fm == (|p: int| pawn_targets(color, p, all_blockers, opposite_blockers, ep)),
            quite_attacks@ + concat_map(square_list(remaining), fq) == q0 + pawn_quiet_moves(color, pawns, all_blockers, opposite_blockers, ep),
            capture_attacks@ + concat_map(square_list(remaining), fl) == c0 + pawn_loud_moves(color, pawns, all_blockers, opposite_blockers, ep),
            *attack_mask | union_map(square_list(remaining), fm) == a0 | pawn_reach(color, pawns, all_blockers, opposite_blockers, ep),
        decreases remaining,
    {
        let ghost before = remaining;
        proof {
            lemma_square_list_step(remaining);
        }
        let index = crate::bits::pop_lsb(&mut remaining);
        let from_opt = FileRank::get_file_rank(index as u8);
        let from = match from_opt {
            Some(f) => f,
            None => {
                proof {
                    assert(false);
                }
                FileRank::A8
            }
        };
        let ghost p = index as int;
        let pattern = get_pawn_pattern_attacks(&color, &from);
        proof {
            lemma_pawn_pattern(color, p, pattern);
        }
        let attack_pattern = pattern & (opposite_blockers | en_passant_mask);
        let isolated_pawn = 1u64 << (index as u64);
        let single_push: u64 = if color == Color::White { (isolated_pawn >> 8u64) & all_blockers } else { (isolated_pawn << 8u64) & all_blockers };
        let double_push: u64 = if color == Color::White { ((single_push & rank_3_or_6) >> 8u64) & all_blockers } else { ((single_push & rank_3_or_6) << 8u64) & all_blockers };
        let all_moves_mask = single_push | double_push | attack_pattern;
        proof {
            assert(single_push == pawn_single_push(color, p, all_blockers));
            assert(double_push == pawn_double_push(color, p, all_blockers));
            assert(attack_pattern == pawn_captures(color, p, opposite_blockers, ep));
            assert(all_moves_mask == fm(p));
            lemma_double_push_rows(color, single_push, rank_3_or_6, all_blockers, double_push);
            lemma_or_facts(*attack_mask, all_moves_mask, union_map(square_list(remaining), fm));
        }
        *attack_mask = *attack_mask | all_moves_mask;
        let ghost qs = quite_attacks@;
        let ghost cs = capture_attacks@;
        pawn_targets_moves(color, from, piece, all_moves_mask, attack_pattern, single_push, double_push, quite_attacks, capture_attacks);
        proof {
            let l = square_list(before);
            assert(l[0] == p);
            assert(concat_map(l, fq) == fq(p) + concat_map(l.drop_first(), fq));
            assert(concat_map(l, fl) == fl(p) + concat_map(l.drop_first(), fl));
            assert(union_map(l, fm) == fm(p) | union_map(l.drop_first(), fm));
            assert(quite_attacks@ + concat_map(square_list(remaining), fq) =~= q0 + pawn_quiet_moves(color, pawns, all_blockers, opposite_blockers, ep));
            assert(capture_attacks@ + concat_map(square_list(remaining), fl) =~= c0 + pawn_loud_moves(color, pawns, all_blockers, opposite_blockers, ep));
        }
    }
    proof {
        assert(quite_attacks@ =~= quite_attacks@ + concat_map(square_list(remaining), fq));
        assert(capture_attacks@ =~= capture_attacks@ + concat_map(square_list(remaining), fl));
        lemma_or_facts(*attack_mask, 0, 0);
    }
}

/// The exec pattern word equals the spec pattern word.
proof fn lemma_pawn_pattern(c: Color, p: int, pattern: u64)
    requires
        0 <= p < 64,
        forall|t: int| 0 <= t < 64 ==> #[trigger] bit_at(pattern, t) == pawn_capture_step(c, p, t),
    ensures
        pattern == pawn_pattern(c, p),
{
    assert forall|t: int| 0 <= t < 64 implies bit_at(pattern, t) == bit_at(pawn_pattern(c, p), t) by {
        let tt = t as u64;
        let s = p as u64;
        match c {
            Color::White => {
                assert(((((((1u64 << s) & FILE_NOT_H) >> 7u64) | (((1u64 << s) & FILE_NOT_A) >> 9u64)) >> tt) & 1u64 == 1u64) == (
                    ((s % 8 >= tt % 8 && s % 8 - tt % 8 == 1) || (tt % 8 > s % 8 && tt % 8 - s % 8 == 1)) && s / 8 >= 1 && tt / 8 == s / 8 - 1)) by (bit_vector)
                    requires s < 64, tt < 64;
            }
            Color::Black => {
                assert(((((((1u64 << s) & FILE_NOT_A) << 7u64) | (((1u64 << s) & FILE_NOT_H) << 9u64)) >> tt) & 1u64 == 1u64) == (
                    ((s % 8 >= tt % 8 && s % 8 - tt % 8 == 1) || (tt % 8 > s % 8 && tt % 8 - s % 8 == 1)) && tt / 8 == s / 8 + 1)) by (bit_vector)
                    requires s < 64, tt < 64;
            }
        }
    }
    crate::bits::lemma_bits_ext(pattern, pawn_pattern(c, p));
}

/// Emits the moves of one pawn, target by target, lowest square first.
fn pawn_targets_moves(
    color: Color,
    from: FileRank,
    piece: Piece,
    all_moves_mask: u64,
    attack_pattern: u64,
    single_push: u64,
    double_push: u64,
    quite_attacks: &mut Vec<PieceMove>,
    capture_attacks: &mut Vec<PieceMove>,
)
    requires
        piece == pawn_of(color),
        forall|t: int| #[trigger] bit_at(double_push, t) ==> 8 <= t < 56,
    ensures
        final(quite_attacks)@ == old(quite_attacks)@ + concat_map(square_list(all_moves_mask), pawn_quiet_cases(color, from, single_push, double_push)),
        final(capture_attacks)@ == old(capture_attacks)@ + concat_map(square_list(all_moves_mask), pawn_loud_cases(color, from, attack_pattern, single_push)),
{
    let ghost fq = pawn_quiet_cases(color, from, single_push, double_push);
    let ghost fl = pawn_loud_cases(color, from, attack_pattern, single_push);
    let ghost q0 = quite_attacks@;
    let ghost c0 = capture_attacks@;
    let mut targets = all_moves_mask;
    proof {
        assert(quite_attacks@ + concat_map(square_list(targets), fq) =~= q0 + concat_map(square_list(all_moves_mask), fq));
        assert(capture_attacks@ + concat_map(square_list(targets), fl) =~= c0 + concat_map(square_list(all_moves_mask), fl));
    }
    while targets > 0
        invariant
            piece == pawn_of(color),
            forall|t: int| #[trigger] bit_at(double_push, t) ==> 8 <= t < 56,
            fq == pawn_quiet_cases(color, from, single_push, double_push),
            fl == pawn_loud_cases(color, from, attack_pattern, single_push),
            quite_attacks@ + concat_map(square_list(targets), fq) == q0 + concat_map(square_list(all_moves_mask), fq),
            capture_attacks@ + concat_map(square_list(targets), fl) == c0 + concat_map(square_list(all_moves_mask), fl),
        decreases targets,
    {
        let ghost before = targets;
        proof {
            lemma_square_list_step(targets);
        }
        let i = crate::bits::pop_lsb(&mut targets);
        let ghost t = i as int;
        let target = match FileRank::get_file_rank(i as u8) {
            Some(f) => f,
            None => {
                proof {
                    assert(false);
                }
                FileRank::A8
            }
        };
        let file_rank_mask = target.mask();
        proof {
            lemma_mask_test(attack_pattern, file_rank_mask, t);
            lemma_mask_test(single_push, file_rank_mask, t);
            lemma_mask_test(double_push, file_rank_mask, t);
            lemma_promotion_row(file_rank_mask, t);
        }
        let is_capture_attack = (attack_pattern & file_rank_mask) > 0;
        let is_single_push = (single_push & file_rank_mask) > 0;
        let is_double_push = (double_push & file_rank_mask) > 0;
        let is_promotion = file_rank_mask & RANK_8 > 0 || file_rank_mask & RANK_1 > 0;
        let ghost qs = quite_attacks@;
        let ghost cs = capture_attacks@;
        if is_capture_attack {
            if is_promotion {
                push_promotions(capture_attacks, piece, from, target, true);
            } else {
                capture_attacks.push(PieceMove { from, piece, target, move_type: MoveType::Capture });
            }
        }
        let ghost cs2 = capture_attacks@;
        if is_single_push {
            if is_promotion {
                push_promotions(capture_attacks, piece, from, target, false);
            } else {
                quite_attacks.push(PieceMove { from, piece, target, move_type: MoveType::Quiet });
            }
        }
        let ghost qs2 = quite_attacks@;
        if is_double_push {
            assert(bit_at(double_push, t));
            let passed = if color == Color::White { FileRank::get_file_rank((i + 8) as u8) } else { FileRank::get_file_rank((i - 8) as u8) };
            quite_attacks.push(PieceMove { from, piece, target, move_type: MoveType::DoublePush(passed) });
        }
        proof {
            target.lemma_idx();
            assert(target == square_at(t));
            let l = square_list(before);
            assert(l[0] == t);
            assert(concat_map(l, fq) == fq(t) + concat_map(l.drop_first(), fq));
            assert(concat_map(l, fl) == fl(t) + concat_map(l.drop_first(), fl));
            assert(quite_attacks@ =~= qs + fq(t));
            assert(capture_attacks@ =~= cs + fl(t));
            assert(quite_attacks@ + concat_map(square_list(targets), fq) =~= q0 + concat_map(square_list(all_moves_mask), fq));
            assert(capture_attacks@ + concat_map(square_list(targets), fl) =~= c0 + concat_map(square_list(all_moves_mask), fl));
        }
    }
    proof {
        assert(quite_attacks@ =~= quite_attacks@ + concat_map(square_list(targets), fq));
        assert(capture_attacks@ =~= capture_attacks@ + concat_map(square_list(targets), fl));
    }
}

/// Quiet moves of one pawn to target `t`, given its push words.
pub open spec fn pawn_quiet_cases(c: Color, from: FileRank, sp: u64, dp: u64) -> spec_fn(int) -> Seq<PieceMove> {
    |t: int|
        (if bit_at(sp, t) && !promotion_row(t) {
            seq![move_to(pawn_of(c), from, t, MoveType::Quiet)]
        } else {
            Seq::empty()
        }) + (if bit_at(dp, t) {
            seq![move_to(pawn_of(c), from, t, MoveType::DoublePush(Some(passed_square(c, t))))]
        } else {
            Seq::empty()
        })
}

/// Captures and promotions of one pawn to target `t`, given its capture and push words.
pub open spec fn pawn_loud_cases(c: Color, from: FileRank, att: u64, sp: u64) -> spec_fn(int) -> Seq<PieceMove> {
    |t: int|
        (if bit_at(att, t) {
            if promotion_row(t) {
                promotions(pawn_of(c), from, t, true)
            } else {
                seq![move_to(pawn_of(c), from, t, MoveType::Capture)]
            }
        } else {
            Seq::empty()
        }) + (if bit_at(sp, t) && promotion_row(t) {
            promotions(pawn_of(c), from, t, false)
        } else {
            Seq::empty()
        })
}

/// Double pushes land on the fourth or fifth rank.
proof fn lemma_double_push_rows(c: Color, sp: u64, third: u64, e: u64, dp: u64)
    requires
        third == (match c { Color::White => RANK_3, Color::Black => RANK_6 }),
        dp == (match c { Color::White => ((sp & third) >> 8u64) & e, Color::Black => ((sp & third) << 8u64) & e }),
    ensures
        forall|t: int| #[trigger] bit_at(dp, t) ==> 8 <= t < 56,
{
    assert forall|t: int| #[trigger] bit_at(dp, t) implies 8 <= t < 56 by {
        let tt = t as u64;
        match c {
            Color::White => {
                assert(tt < 64 && (((((sp & 0xFF0000000000u64) >> 8u64) & e) >> tt) & 1u64 == 1u64) ==> 8 <= tt && tt < 56) by (bit_vector);
            }
            Color::Black => {
                assert(tt < 64 && (((((sp & 0xFF0000u64) << 8u64) & e) >> tt) & 1u64 == 1u64) ==> 8 <= tt && tt < 56) by (bit_vector);
            }
        }
    }
}

/// Testing a word against a single-bit mask tests that bit.
proof fn lemma_mask_test(w: u64, m: u64, t: int)
    requires
        0 <= t < 64,
        m == single(t),
    ensures
        (w & m > 0) == bit_at(w, t),
{
    let tt = t as u64;
    assert(tt < 64 ==> ((w & (1u64 << tt) > 0u64) == ((w >> tt) & 1u64 == 1u64))) by (bit_vector);
}

/// The single-bit mask of `t` meets rank 8 or rank 1 exactly when `t` is on a last row.
proof fn lemma_promotion_row(m: u64, t: int)
    requires
        0 <= t < 64,
        m == single(t),
    ensures
        (m & RANK_8 > 0 || m & RANK_1 > 0) == promotion_row(t),
{
    let tt = t as u64;
    assert(tt < 64 ==> (((1u64 << tt) & 0xFFu64 > 0u64 || (1u64 << tt) & 0xFF00000000000000u64 > 0u64) == (tt / 8 == 0 || tt / 8 == 7))) by (bit_vector);
}

/// How many squares a walk from (`r`, `c`) in direction (`dr`, `dc`) can take at most.
pub open spec fn walk_bound(r: int, c: int, dr: int, dc: int) -> int {
    if dr > 0 { 7 - r } else if dr < 0 { r } else if dc > 0 { 7 - c } else { c }
}

/// A line segment toward the edge holds at most `walk_bound` squares.
pub proof fn lemma_inner_ray_size(r: int, c: int, dr: int, dc: int)
    requires
        0 <= r < 8,
        0 <= c < 8,
        -1 <= dr <= 1,
        -1 <= dc <= 1,
        !(dr == 0 && dc == 0),
    ensures
        crate::bits::nbits(inner_ray(r, c, dr, dc)) <= walk_bound(r, c, dr, dc),
    decreases (if dr > 0 { 7 - r } else if dr < 0 { r } else { 0 }) + (if dc > 0 { 7 - c } else if dc < 0 { c } else { 0 }),
{
    let nr = r + dr;
    let nc = c + dc;
    if !(0 <= nr < 8 && 0 <= nc < 8) || !(0 <= nr + dr < 8 && 0 <= nc + dc < 8) {
        crate::bits::lemma_nbits(0);
    } else {
        lemma_inner_ray_size(nr, nc, dr, dc);
        lemma_nbits_or(single(nr * 8 + nc), inner_ray(nr, nc, dr, dc));
        lemma_nbits_single(nr * 8 + nc);
    }
}

/// The union of two square sets has at most as many squares as the two together.
pub proof fn lemma_nbits_or(a: u64, b: u64)
    ensures
        crate::bits::nbits(a | b) <= crate::bits::nbits(a) + crate::bits::nbits(b),
{
    crate::bits::lemma_nbits(a);
    crate::bits::lemma_nbits(b);
    crate::bits::lemma_nbits(a | b);
    lemma_bit_all(a, b);
    assert(squares_of(a | b) =~= squares_of(a).union(squares_of(b)));
    vstd::set_lib::lemma_len_union(squares_of(a), squares_of(b));
}

/// A single square is one square.
pub proof fn lemma_nbits_single(i: int)
    requires
        0 <= i < 64,
    ensures
        crate::bits::nbits(single(i)) == 1,
{
    crate::bits::lemma_nbits(single(i));
    assert forall|k: int| squares_of(single(i)).contains(k) <==> k == i by {
        if 0 <= k < 64 {
            lemma_single(i, k);
        }
    }
    assert(squares_of(single(i)) =~= set![i]);
}

/// The relevant-blocker masks have at most 28 squares.
pub proof fn lemma_mask_sizes(s: int)
    requires
        0 <= s < 64,
    ensures
        crate::bits::nbits(rook_mask(s)) <= 28,
        crate::bits::nbits(bishop_mask(s)) <= 28,
{
    let r = row_of(s);
    let c = col_of(s);
    lemma_inner_ray_size(r, c, 0, 1);
    lemma_inner_ray_size(r, c, 0, -1);
    lemma_inner_ray_size(r, c, 1, 0);
    lemma_inner_ray_size(r, c, -1, 0);
    lemma_inner_ray_size(r, c, 1, 1);
    lemma_inner_ray_size(r, c, -1, -1);
    lemma_inner_ray_size(r, c, -1, 1);
    lemma_inner_ray_size(r, c, 1, -1);
    let a = inner_ray(r, c, 0, 1);
    let b = inner_ray(r, c, 0, -1);
    let d = inner_ray(r, c, 1, 0);
    let e = inner_ray(r, c, -1, 0);
    lemma_nbits_or(a, b);
    lemma_nbits_or(a | b, d);
    lemma_nbits_or(a | b | d, e);
    let a2 = inner_ray(r, c, 1, 1);
    let b2 = inner_ray(r, c, -1, -1);
    let d2 = inner_ray(r, c, -1, 1);
    let e2 = inner_ray(r, c, 1, -1);
    lemma_nbits_or(a2, b2);
    lemma_nbits_or(a2 | b2, d2);
    lemma_nbits_or(a2 | b2 | d2, e2);
}

/// A ray only looks at blockers on its own inner squares: masking the blockers
/// with any superset of those squares leaves the ray unchanged.
pub proof fn lemma_ray_relevant(r: int, c: int, dr: int, dc: int, occ: u64, m: u64)
    requires
        crate::magic::is_subset(inner_ray(r, c, dr, dc), m),
    ensures
        ray(r, c, dr, dc, occ) == ray(r, c, dr, dc, occ & m),
    decreases (if dr > 0 { 7 - r } else if dr < 0 { r } else { 0 }) + (if dc > 0 { 7 - c } else if dc < 0 { c } else { 0 }),
{
    let nr = r + dr;
    let nc = c + dc;
    if (dr == 0 && dc == 0) || dr < -1 || dr > 1 || dc < -1 || dc > 1 || !(0 <= r < 8 && 0 <= c < 8)
        || !(0 <= nr < 8 && 0 <= nc < 8) {
    } else if !(0 <= nr + dr < 8 && 0 <= nc + dc < 8) {
        assert(ray(nr, nc, dr, dc, occ) == 0);
        assert(ray(nr, nc, dr, dc, occ & m) == 0);
        lemma_or_facts(single(nr * 8 + nc), 0, 0);
    } else {
        let n = nr * 8 + nc;
        let inner = inner_ray(nr, nc, dr, dc);
        assert(inner_ray(r, c, dr, dc) == single(n) | inner);
        assert forall|k: int| 0 <= k < 64 implies bit_at(inner & m, k) == bit_at(inner, k) by {
            crate::bits::lemma_bit_ops(inner, m, k);
            crate::bits::lemma_bit_ops(single(n) | inner, m, k);
            crate::bits::lemma_bit_ops(single(n), inner, k);
            crate::bits::lemma_bit_ops((single(n) | inner) & m, single(n) | inner, k);
        }
        crate::bits::lemma_bits_ext(inner & m, inner);
        lemma_ray_relevant(nr, nc, dr, dc, occ, m);
        crate::bits::lemma_bit_ops(occ, m, n);
        crate::bits::lemma_bit_ops(single(n) | inner, m, n);
        crate::bits::lemma_bit_ops(single(n), inner, n);
        lemma_single(n, n);
    }
}

/// Rook attacks depend only on the blockers inside the rook's relevant mask.
pub proof fn lemma_rook_relevant(s: int, occ: u64)
    requires
        0 <= s < 64,
    ensures
        rook_attacks(s, occ) == rook_attacks(s, occ & rook_mask(s)),
{
    let r = row_of(s);
    let c = col_of(s);
    let m = rook_mask(s);
    lemma_part_of_union4(inner_ray(r, c, 0, 1), inner_ray(r, c, 0, -1), inner_ray(r, c, 1, 0), inner_ray(r, c, -1, 0));
    lemma_ray_relevant(r, c, 0, 1, occ, m);
    lemma_ray_relevant(r, c, 0, -1, occ, m);
    lemma_ray_relevant(r, c, 1, 0, occ, m);
    lemma_ray_relevant(r, c, -1, 0, occ, m);
}

/// Bishop attacks depend only on the blockers inside the bishop's relevant mask.
pub proof fn lemma_bishop_relevant(s: int, occ: u64)
    requires
        0 <= s < 64,
    ensures
        bishop_attacks(s, occ) == bishop_attacks(s, occ & bishop_mask(s)),
{
    let r = row_of(s);
    let c = col_of(s);
    let m = bishop_mask(s);
    lemma_part_of_union4(inner_ray(r, c, 1, 1), inner_ray(r, c, -1, -1), inner_ray(r, c, -1, 1), inner_ray(r, c, 1, -1));
    lemma_ray_relevant(r, c, 1, 1, occ, m);
    lemma_ray_relevant(r, c, -1, -1, occ, m);
    lemma_ray_relevant(r, c, -1, 1, occ, m);
    lemma_ray_relevant(r, c, 1, -1, occ, m);
}

/// Each of four words is a subset of their union.
pub proof fn lemma_part_of_union4(a: u64, b: u64, c: u64, d: u64)
    ensures
        crate::magic::is_subset(a, a | b | c | d),
        crate::magic::is_subset(b, a | b | c | d),
        crate::magic::is_subset(c, a | b | c | d),
        crate::magic::is_subset(d, a | b | c | d),
{
    crate::bits::lemma_word_facts(a, b, c, d);
}

} // verus!
