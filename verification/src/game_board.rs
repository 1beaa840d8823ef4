//! A game as twelve named bitboards, a side-to-move flag and castling flags, read from
//! the characters of a FEN-like record. In this record lowercase letters are White's
//! pieces and uppercase letters Black's, and the castling letters follow the same
//! convention.
use vstd::prelude::*;
use crate::bits::{bit_at, single};
use crate::fen::{START_FEN, Placement};
use crate::game::lemma_bit_test;
use crate::square::{FileRank, a1_number};
use crate::types::{Color, Piece, PieceType, get_piece_from_char, piece_of_letter, piece_ord, other, lemma_piece_letter};
use vstd::string::*;

verus! {

/// Castling rights as four flags.
#[derive(Debug, Clone, Copy, PartialEq, Eq, Structural)]
pub struct Castling {
    pub w_king_side: bool,
    pub w_queen_side: bool,
    pub b_king_side: bool,
    pub b_queen_side: bool,
}

impl Castling {
    /// No rights at all.
    pub fn new() -> (c: Castling)
        ensures
            !c.w_king_side && !c.w_queen_side && !c.b_king_side && !c.b_queen_side,
    {
        Castling { b_king_side: false, b_queen_side: false, w_king_side: false, w_queen_side: false }
    }
}

/// The piece a letter names in this record: the letter's piece with the colour swapped.
pub open spec fn swapped_piece(c: char) -> Option<Piece> {
    match piece_of_letter(c) {
        Some(p) => Some(Piece { piece_type: p.piece_type, color: other(p.color) }),
        None => None,
    }
}

/// The position of the first space from `i` on (the length when there is none).
pub open spec fn space_at(s: Seq<char>, i: int) -> int
    decreases s.len() - i,
{
    if i >= s.len() || i < 0 {
        s.len() as int
    } else if s[i] == ' ' {
        i
    } else {
        space_at(s, i + 1)
    }
}

/// The characters before the first space.
pub open spec fn lead(s: Seq<char>) -> Seq<char> {
    s.take(space_at(s, 0))
}

/// The characters after the first space (none when there is no space).
pub open spec fn rest(s: Seq<char>) -> Seq<char> {
    if space_at(s, 0) < s.len() { s.skip(space_at(s, 0) + 1) } else { Seq::empty() }
}

/// One character of the placement: a piece letter is placed at row * 8 + col (which must
/// be a square) and moves one column on; '/' starts the next row; a digit 1 to 9 skips that
/// many columns; anything else is ignored. `ok` records that every step stayed on the board
/// and within the byte counters.
pub open spec fn sweep_step(st: Placement, c: char) -> Placement {
    match swapped_piece(c) {
        Some(pc) => {
            let idx = st.row * 8 + st.col;
            Placement {
                bb: if idx < 64 { st.bb.update(piece_ord(pc), st.bb[piece_ord(pc)] | single(idx)) } else { st.bb },
                col: st.col + 1,
                ok: st.ok && idx < 64,
                ..st
            }
        },
        None => if c == '/' {
            Placement { row: st.row + 1, col: 0, ok: st.ok && st.row < 255, ..st }
        } else if '1' <= c <= '9' {
            Placement { col: st.col + (c as int - 48), ok: st.ok && st.col + (c as int - 48) <= 255, ..st }
        } else {
            st
        },
    }
}

/// The state after the characters of `s`.
pub open spec fn sweep(s: Seq<char>, start: Placement) -> Placement
    decreases s.len(),
{
    if s.len() == 0 {
        start
    } else {
        sweep_step(sweep(s.drop_last(), start), s.last())
    }
}

/// The state before any character: no pieces, at the first square.
pub open spec fn sweep_start() -> Placement {
    Placement { board: Seq::empty(), bb: seq![0u64; 12], row: 0, col: 0, ok: true }
}

/// The side the last 'w' or 'b' of `s` names (true for White), if there is one.
pub open spec fn last_side(s: Seq<char>) -> Option<bool>
    decreases s.len(),
{
    if s.len() == 0 {
        None
    } else if s.last() == 'w' {
        Some(true)
    } else if s.last() == 'b' {
        Some(false)
    } else {
        last_side(s.drop_last())
    }
}

/// The castling flags the letters of `s` grant: k and q White's, K and Q Black's.
pub open spec fn flags_of(s: Seq<char>) -> Castling {
    Castling { w_king_side: s.contains('k'), w_queen_side: s.contains('q'), b_king_side: s.contains('K'), b_queen_side: s.contains('Q') }
}

/// A failed step stays failed.
proof fn lemma_sweep_ok_prefix(s: Seq<char>, start: Placement, i: int)
    requires
        0 <= i <= s.len(),
        sweep(s, start).ok,
    ensures
        sweep(s.take(i), start).ok,
    decreases s.len() - i,
{
    if i < s.len() {
        assert(s.take(i + 1).drop_last() =~= s.take(i));
        lemma_sweep_ok_prefix(s, start, i + 1);
    } else {
        assert(s.take(i) =~= s);
    }
}

/// The placement of `s` can be read: every piece lands on a square and no counter passes
/// 255.
pub open spec fn record_fits(s: Seq<char>) -> bool {
    sweep(lead(s), sweep_start()).ok
}

/// Twelve bitboards, one per piece kind and colour, whether White is to move, and the
/// castling flags.
#[derive(Debug)]
pub struct Game {
    pub w_pawn: u64,
    pub w_bishop: u64,
    pub w_knight: u64,
    pub w_rook: u64,
    pub w_queen: u64,
    pub w_king: u64,
    pub b_pawn: u64,
    pub b_bishop: u64,
    pub b_knight: u64,
    pub b_rook: u64,
    pub b_queen: u64,
    pub b_king: u64,
    pub w_turn: bool,
    pub castling: Castling,
}

impl Game {
    /// The twelve bitboards in the order white pawn, bishop, knight, rook, queen, king,
    /// then the black ones.
    pub open spec fn boards(&self) -> Seq<u64> {
        seq![self.w_pawn, self.w_bishop, self.w_knight, self.w_rook, self.w_queen, self.w_king,
            self.b_pawn, self.b_bishop, self.b_knight, self.b_rook, self.b_queen, self.b_king]
    }

    /// No pieces, Black to move, no castling rights.
    pub fn empty() -> (g: Game)
        ensures
            g.boards() == seq![0u64; 12],
            !g.w_turn,
            g.castling == Castling::new_spec(),
    {
        let g = Game {
            w_pawn: 0,
            w_bishop: 0,
            w_knight: 0,
            w_rook: 0,
            w_queen: 0,
            w_king: 0,
            b_pawn: 0,
            b_bishop: 0,
            b_knight: 0,
            b_rook: 0,
            b_queen: 0,
            b_king: 0,
            w_turn: false,
            castling: Castling { b_king_side: false, b_queen_side: false, w_king_side: false, w_queen_side: false },
        };
        proof {
            assert(g.boards() =~= seq![0u64; 12]);
        }
        g
    }

    /// Reads a record: the placement up to the first space (see `sweep_step`), then from
    /// the rest the side to move (the last 'w' or 'b'; Black when there is none) and the
    /// castling letters present.
    pub fn from_fen(fen: &str) -> (g: Game)
        requires
            record_fits(fen@),
        ensures
            g.boards() == sweep(lead(fen@), sweep_start()).bb,
            g.w_turn == (match last_side(rest(fen@)) { Some(w) => w, None => false }),
            g.castling == flags_of(rest(fen@)),
    {
        let ghost s = fen@;
        let ghost start = sweep_start();
        let n = fen.unicode_len();
        let mut game = Game::empty();
        let mut row: u8 = 0;
        let mut col: u8 = 0;
        let mut i: usize = 0;
        proof {
            assert(s.take(0) =~= Seq::<char>::empty());
            assert(game.boards() =~= start.bb);
            lemma_space_bounds(s, 0);
        }
        while i < n && fen.get_char(i) != ' '
            invariant
                n == s.len(),
                s == fen@,
                i <= n,
                i <= space_at(s, 0),
                forall|k: int| 0 <= k < i ==> s[k] != ' ',
                space_at(s, 0) == space_at(s, i as int),
                sweep(lead(s), start).ok,
                start == sweep_start(),
                ({
                    let st = sweep(s.take(i as int), start);
                    &&& st.ok
                    &&& st.row == row
                    &&& st.col == col
                    &&& st.bb == game.boards()
                }),
                !game.w_turn,
                game.castling == Castling::new_spec(),
            decreases n - i,
        {
            let c = fen.get_char(i);
            proof {
                assert(s.take(i + 1).drop_last() =~= s.take(i as int));
                assert(s.take(i + 1).last() == c);
                lemma_space_after(s, i as int);
                lemma_space_bounds(s, 0);
                assert(lead(s).take(i + 1) =~= s.take(i + 1));
                lemma_sweep_ok_prefix(lead(s), start, i + 1);
            }
            match get_piece_from_char(c) {
                Some(letter_piece) => {
                    let piece = Piece { piece_type: letter_piece.piece_type, color: letter_piece.color.flip() };
                    let index = (row * 8) + col;
                    let file_rank = match FileRank::get_file_rank((7 - index / 8) * 8 + index % 8) {
                        Some(fr) => fr,
                        None => {
                            proof {
                                assert(false);
                            }
                            FileRank::A8
                        },
                    };
                    proof {
                        lemma_piece_letter(piece);
                        crate::square::lemma_a1_round(index as int);
                    }
                    game.set_piece(&piece, file_rank);
                    col = col + 1;
                },
                None => {
                    if c == '/' {
                        row = row + 1;
                        col = 0;
                    } else if '1' <= c && c <= '9' {
                        let offset = (c as u32 - 48) as u8;
                        col = col + offset;
                    }
                },
            }
            i = i + 1;
        }
        proof {
            lemma_space_end(s, i as int);
            assert(lead(s) =~= s.take(i as int));
        }
        let mut castling = Castling::new();
        let ghost tail_start: int = if i < n { i + 1 } else { n as int };
        let mut j: usize = if i < n { i + 1 } else { n };
        proof {
            assert(rest(s) =~= s.skip(tail_start));
            assert(s.skip(tail_start).take(0) =~= Seq::<char>::empty());
        }
        while j < n
            invariant
                n == s.len(),
                s == fen@,
                tail_start <= j <= n,
                0 <= tail_start <= n,
                rest(s) == s.skip(tail_start),
                castling == flags_of(s.skip(tail_start).take(j - tail_start)),
                game.w_turn == (match last_side(s.skip(tail_start).take(j - tail_start)) { Some(w) => w, None => false }),
                game.boards() == sweep(lead(s), sweep_start()).bb,
            decreases n - j,
        {
            let c = fen.get_char(j);
            proof {
                let pre = s.skip(tail_start).take(j - tail_start);
                let post = s.skip(tail_start).take(j + 1 - tail_start);
                assert(post =~= pre.push(c));
                assert(post.drop_last() =~= pre);
                assert forall|x: char| post.contains(x) <==> (pre.contains(x) || x == c) by {
                    if post.contains(x) {
                        let k = choose|k: int| 0 <= k < post.len() && post[k] == x;
                        if k < pre.len() {
                            assert(pre[k] == x);
                        }
                    }
                    if pre.contains(x) {
                        let k = choose|k: int| 0 <= k < pre.len() && pre[k] == x;
                        assert(post[k] == x);
                    }
                    if x == c {
                        assert(post[pre.len() as int] == x);
                    }
                }
            }
            if c == 'b' {
                game.w_turn = false;
            } else if c == 'w' {
                game.w_turn = true;
            } else if c == 'k' {
                castling.w_king_side = true;
            } else if c == 'q' {
                castling.w_queen_side = true;
            } else if c == 'K' {
                castling.b_king_side = true;
            } else if c == 'Q' {
                castling.b_queen_side = true;
            }
            j = j + 1;
        }
        proof {
            assert(s.skip(tail_start).take(n - tail_start) =~= s.skip(tail_start));
        }
        game.castling = castling;
        game
    }

    /// The standard starting record read as above.
    pub fn new_game() -> (g: Game)
        ensures
            g.boards() == sweep(lead(START_FEN@), sweep_start()).bb,
            g.w_turn,
            g.castling == flags_of(rest(START_FEN@)),
    {
        proof {
            lemma_start_record();
        }
        Game::from_fen(START_FEN)
    }

    /// Adds the square to the set; these boards number squares from a1 (see `a1_number`).
    pub fn set_bit(bit_board: &mut u64, file_rank: FileRank)
        ensures
            *final(bit_board) == *old(bit_board) | single(a1_number(file_rank)),
    {
        let mask: u64 = 1u64 << file_rank.a1_index();
        *bit_board = *bit_board | mask;
    }

    /// Toggles the square in the set: it leaves the set when it was there and joins it
    /// otherwise. Squares are numbered from a1.
    pub fn clear_bit(bit_board: &mut u64, file_rank: FileRank)
        ensures
            *final(bit_board) == *old(bit_board) ^ single(a1_number(file_rank)),
    {
        let mask: u64 = 1u64 << file_rank.a1_index();
        *bit_board = *bit_board ^ mask;
    }

    /// Adds `piece` on `file_rank` to that piece's bitboard (squares numbered from a1).
    pub fn set_piece(&mut self, piece: &Piece, file_rank: FileRank)
        ensures
            final(self).boards() == old(self).boards().update(piece_ord(*piece),
                old(self).boards()[piece_ord(*piece)] | single(a1_number(file_rank))),
            final(self).w_turn == old(self).w_turn,
            final(self).castling == old(self).castling,
    {
        proof {
            lemma_piece_letter(*piece);
        }
        match (piece.piece_type, piece.color) {
            (PieceType::Pawn, Color::White) => Game::set_bit(&mut self.w_pawn, file_rank),
            (PieceType::Bishop, Color::White) => Game::set_bit(&mut self.w_bishop, file_rank),
            (PieceType::Knight, Color::White) => Game::set_bit(&mut self.w_knight, file_rank),
            (PieceType::Rook, Color::White) => Game::set_bit(&mut self.w_rook, file_rank),
            (PieceType::Queen, Color::White) => Game::set_bit(&mut self.w_queen, file_rank),
            (PieceType::King, Color::White) => Game::set_bit(&mut self.w_king, file_rank),
            (PieceType::Pawn, Color::Black) => Game::set_bit(&mut self.b_pawn, file_rank),
            (PieceType::Bishop, Color::Black) => Game::set_bit(&mut self.b_bishop, file_rank),
            (PieceType::Knight, Color::Black) => Game::set_bit(&mut self.b_knight, file_rank),
            (PieceType::Rook, Color::Black) => Game::set_bit(&mut self.b_rook, file_rank),
            (PieceType::Queen, Color::Black) => Game::set_bit(&mut self.b_queen, file_rank),
            (PieceType::King, Color::Black) => Game::set_bit(&mut self.b_king, file_rank),
        }
        proof {
            assert(self.boards() =~= old(self).boards().update(piece_ord(*piece),
                old(self).boards()[piece_ord(*piece)] | single(a1_number(file_rank))));
        }
    }

    /// Whether the set has the square (squares numbered from a1).
    pub fn get(bit_board: u64, file_rank: FileRank) -> (r: bool)
        ensures
            r == bit_at(bit_board, a1_number(file_rank)),
    {
        let n = file_rank.a1_index();
        let mask: u64 = 1u64 << n;
        proof {
            lemma_bit_test(bit_board, n as int);
        }
        (bit_board & mask) != 0
    }
}

impl Castling {
    /// No rights at all.
    pub open spec fn new_spec() -> Castling {
        Castling { b_king_side: false, b_queen_side: false, w_king_side: false, w_queen_side: false }
    }
}

/// Before the first space every character is no space.
proof fn lemma_space_after(s: Seq<char>, i: int)
    requires
        0 <= i < s.len(),
        s[i] != ' ',
        forall|k: int| 0 <= k < i ==> s[k] != ' ',
        space_at(s, 0) == space_at(s, i),
    ensures
        i < space_at(s, 0),
        space_at(s, 0) == space_at(s, i + 1),
{
    lemma_space_bounds(s, i + 1);
}

/// Where the scan stops is the first space.
proof fn lemma_space_end(s: Seq<char>, i: int)
    requires
        0 <= i <= s.len(),
        i == s.len() || s[i] == ' ',
        space_at(s, 0) == space_at(s, i),
    ensures
        space_at(s, 0) == i,
{
}

proof fn lemma_space_bounds(s: Seq<char>, i: int)
    requires
        0 <= i <= s.len(),
    ensures
        i <= space_at(s, i) <= s.len(),
    decreases s.len() - i,
{
    if i < s.len() && s[i] != ' ' {
        lemma_space_bounds(s, i + 1);
    }
}

/// Reading two pieces of text one after the other is reading their concatenation.
proof fn lemma_sweep_concat(a: Seq<char>, b: Seq<char>, start: Placement)
    ensures
        sweep(a + b, start) == sweep(b, sweep(a, start)),
    decreases b.len(),
{
    if b.len() == 0 {
        assert(a + b =~= a);
    } else {
        assert((a + b).drop_last() =~= a + b.drop_last());
        assert((a + b).last() == b.last());
        lemma_sweep_concat(a, b.drop_last(), start);
    }
}

/// Piece letters that stay on the board move the column on by their number.
proof fn lemma_sweep_letters(seg: Seq<char>, st: Placement)
    requires
        forall|k: int| 0 <= k < seg.len() ==> #[trigger] swapped_piece(seg[k]) is Some,
        st.ok,
        0 <= st.row,
        0 <= st.col,
        st.row * 8 + st.col + seg.len() <= 64,
    ensures
        sweep(seg, st).ok,
        sweep(seg, st).row == st.row,
        sweep(seg, st).col == st.col + seg.len(),
    decreases seg.len(),
{
    if seg.len() > 0 {
        let front = seg.drop_last();
        assert forall|k: int| 0 <= k < front.len() implies #[trigger] swapped_piece(front[k]) is Some by {
            assert(front[k] == seg[k]);
        }
        lemma_sweep_letters(front, st);
        assert(swapped_piece(seg[seg.len() - 1]) is Some);
    }
}

/// The first space of `s` is at `j` when none comes before it.
proof fn lemma_space_first(s: Seq<char>, i: int, j: int)
    requires
        0 <= i <= j < s.len(),
        s[j] == ' ',
        forall|k: int| i <= k < j ==> s[k] != ' ',
    ensures
        space_at(s, i) == j,
    decreases j - i,
{
    if i < j {
        lemma_space_first(s, i + 1, j);
    }
}

/// A text whose only side letter is a 'w' at its start names White.
proof fn lemma_side_first(s: Seq<char>)
    requires
        s.len() > 0,
        s[0] == 'w',
        forall|k: int| 1 <= k < s.len() ==> s[k] != 'w' && s[k] != 'b',
    ensures
        last_side(s) == Some(true),
    decreases s.len(),
{
    if s.len() > 1 {
        let front = s.drop_last();
        assert forall|k: int| 1 <= k < front.len() implies front[k] != 'w' && front[k] != 'b' by {
            assert(front[k] == s[k]);
        }
        lemma_side_first(front);
    }
}

/// The starting record reads: its placement fits, and its rest names White.
proof fn lemma_start_record()
    ensures
        record_fits(START_FEN@),
        last_side(rest(START_FEN@)) == Some(true),
{
    reveal_strlit("rnbqkbnr/pppppppp/8/8/8/8/PPPPPPPP/RNBQKBNR w KQkq - 0 1");
    let s = START_FEN@;
    assert(s.len() == 56);
    lemma_space_first(s, 0, 43);
    let black_back = seq!['r', 'n', 'b', 'q', 'k', 'b', 'n', 'r'];
    let black_pawns = seq!['p', 'p', 'p', 'p', 'p', 'p', 'p', 'p'];
    let white_pawns = seq!['P', 'P', 'P', 'P', 'P', 'P', 'P', 'P'];
    let white_back = seq!['R', 'N', 'B', 'Q', 'K', 'B', 'N', 'R'];
    let slash = seq!['/'];
    let eight = seq!['8'];
    let gap = slash + eight;
    assert(lead(s) =~= black_back + slash + black_pawns + gap + gap + gap + gap + slash + white_pawns + slash + white_back);
    let st0 = sweep_start();
    reveal_with_fuel(sweep, 3);
    lemma_sweep_letters(black_back, st0);
    let st1 = sweep(black_back, st0);
    let st2 = sweep(slash, st1);
    assert(slash.drop_last() =~= Seq::<char>::empty());
    assert(st2.row == 1 && st2.col == 0 && st2.ok);
    lemma_sweep_letters(black_pawns, st2);
    let st3 = sweep(black_pawns, st2);
    assert(gap.drop_last() =~= slash);
    assert(eight.drop_last() =~= Seq::<char>::empty());
    let st4 = sweep(gap, st3);
    assert(st4.row == 2 && st4.col == 8 && st4.ok);
    let st5 = sweep(gap, st4);
    assert(st5.row == 3 && st5.col == 8 && st5.ok);
    let st6 = sweep(gap, st5);
    assert(st6.row == 4 && st6.col == 8 && st6.ok);
    let st7 = sweep(gap, st6);
    assert(st7.row == 5 && st7.col == 8 && st7.ok);
    let st8 = sweep(slash, st7);
    assert(st8.row == 6 && st8.col == 0 && st8.ok);
    lemma_sweep_letters(white_pawns, st8);
    let st9 = sweep(white_pawns, st8);
    let st10 = sweep(slash, st9);
    assert(st10.row == 7 && st10.col == 0 && st10.ok);
    lemma_sweep_letters(white_back, st10);
    let a1 = black_back + slash;
    let a2 = a1 + black_pawns;
    let a3 = a2 + gap;
    let a4 = a3 + gap;
    let a5 = a4 + gap;
    let a6 = a5 + gap;
    let a7 = a6 + slash;
    let a8 = a7 + white_pawns;
    let a9 = a8 + slash;
    lemma_sweep_concat(black_back, slash, st0);
    lemma_sweep_concat(a1, black_pawns, st0);
    lemma_sweep_concat(a2, gap, st0);
    lemma_sweep_concat(a3, gap, st0);
    lemma_sweep_concat(a4, gap, st0);
    lemma_sweep_concat(a5, gap, st0);
    lemma_sweep_concat(a6, slash, st0);
    lemma_sweep_concat(a7, white_pawns, st0);
    lemma_sweep_concat(a8, slash, st0);
    lemma_sweep_concat(a9, white_back, st0);
    assert(sweep(lead(s), st0).ok);
    let r = rest(s);
    assert(r =~= s.skip(44));
    assert(r[0] == 'w');
    assert forall|k: int| 1 <= k < r.len() implies r[k] != 'w' && r[k] != 'b' by {
        assert(r[k] == s[k + 44]);
    }
    lemma_side_first(r);
}

} // verus!
