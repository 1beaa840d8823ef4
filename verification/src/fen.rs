//! Forsyth-Edwards Notation: reading a game from a FEN record and writing one back.
use vstd::prelude::*;
use vstd::string::StrSliceExecFns;
use crate::bits::single;
use crate::square::{FileRank, square_at};
use crate::types::{Castling, Clock, Color, Piece, fen_letter, piece_of_letter, piece_ord, parse_u8, decimal_text,
    get_piece_from_char, lemma_piece_letter, WHITE_CASTLING_KING_MASK, WHITE_CASTLING_QUEEN_MASK, BLACK_CASTLING_KING_MASK,
    BLACK_CASTLING_QUEEN_MASK};
use crate::game::{GameState, consistent};
use crate::zobrist::position_hash;

verus! {

/// The characters Rust's `char::is_whitespace` accepts (Unicode White_Space).
pub open spec fn is_ws(c: char) -> bool {
    ('\u{9}' <= c <= '\u{d}') || c == ' ' || c == '\u{85}' || c == '\u{a0}' || c == '\u{1680}'
        || ('\u{2000}' <= c <= '\u{200a}') || c == '\u{2028}' || c == '\u{2029}' || c == '\u{202f}'
        || c == '\u{205f}' || c == '\u{3000}'
}

/// The first index from `i` on that holds no whitespace (or the end).
pub open spec fn ws_skip(s: Seq<char>, i: int) -> int
    decreases s.len() - i,
{
    if i >= s.len() || i < 0 {
        i
    } else if is_ws(s[i]) {
        ws_skip(s, i + 1)
    } else {
        i
    }
}

/// The first index from `i` on that holds whitespace (or the end).
pub open spec fn tok_end(s: Seq<char>, i: int) -> int
    decreases s.len() - i,
{
    if i >= s.len() || i < 0 {
        i
    } else if is_ws(s[i]) {
        i
    } else {
        tok_end(s, i + 1)
    }
}

/// Where the `k`-th whitespace-separated field starts (the end when there are fewer).
pub open spec fn field_start(s: Seq<char>, k: nat) -> int
    decreases k,
{
    if k == 0 {
        ws_skip(s, 0)
    } else {
        ws_skip(s, tok_end(s, field_start(s, (k - 1) as nat)))
    }
}

/// The `k`-th whitespace-separated field, empty when there are fewer.
pub open spec fn field(s: Seq<char>, k: nat) -> Seq<char> {
    s.subrange(field_start(s, k), tok_end(s, field_start(s, k)))
}

/// Facts about the scanning positions.
pub(crate) proof fn lemma_scan_bounds(s: Seq<char>, i: int)
    requires
        0 <= i <= s.len(),
    ensures
        i <= ws_skip(s, i) <= s.len(),
        ws_skip(s, i) <= tok_end(s, ws_skip(s, i)) <= s.len(),
    decreases s.len() - i,
{
    if i < s.len() {
        lemma_scan_bounds(s, i + 1);
    }
    lemma_tok_bounds(s, ws_skip(s, i));
}

proof fn lemma_tok_bounds(s: Seq<char>, i: int)
    requires
        0 <= i <= s.len(),
    ensures
        i <= tok_end(s, i) <= s.len(),
    decreases s.len() - i,
{
    if i < s.len() {
        lemma_tok_bounds(s, i + 1);
    }
}

/// Whether a character is whitespace.
pub(crate) fn is_space(c: char) -> (b: bool)
    ensures
        b == is_ws(c),
{
    ('\u{9}' <= c && c <= '\u{d}') || c == ' ' || c == '\u{85}' || c == '\u{a0}' || c == '\u{1680}'
        || ('\u{2000}' <= c && c <= '\u{200a}') || c == '\u{2028}' || c == '\u{2029}' || c == '\u{202f}'
        || c == '\u{205f}' || c == '\u{3000}'
}

/// Skips whitespace from position `i`.
fn skip_spaces(text: &str, n: usize, i: usize) -> (j: usize)
    requires
        n == text@.len(),
        i <= n,
    ensures
        j == ws_skip(text@, i as int),
        i <= j <= n,
{
    let mut j = i;
    while j < n && is_space(text.get_char(j))
        invariant
            n == text@.len(),
            i <= j <= n,
            ws_skip(text@, i as int) == ws_skip(text@, j as int),
        decreases n - j,
    {
        j = j + 1;
    }
    j
}

/// Advances over non-whitespace from position `i`.
fn field_end(text: &str, n: usize, i: usize) -> (j: usize)
    requires
        n == text@.len(),
        i <= n,
    ensures
        j == tok_end(text@, i as int),
        i <= j <= n,
{
    let mut j = i;
    while j < n && !is_space(text.get_char(j))
        invariant
            n == text@.len(),
            i <= j <= n,
            tok_end(text@, i as int) == tok_end(text@, j as int),
        decreases n - j,
    {
        j = j + 1;
    }
    j
}

/// The next whitespace-separated field after position `pos`, and where it ends.
pub(crate) fn next_field<'a>(text: &'a str, n: usize, pos: usize) -> (r: (&'a str, usize))
    requires
        n == text@.len(),
        pos <= n,
    ensures
        r.0@ == text@.subrange(ws_skip(text@, pos as int), tok_end(text@, ws_skip(text@, pos as int))),
        r.1 == tok_end(text@, ws_skip(text@, pos as int)),
        r.1 <= n,
{
    let start = skip_spaces(text, n, pos);
    let end = field_end(text, n, start);
    (text.substring_char(start, end), end)
}

/// The reading state of the piece-placement field: board letters, bitboards, the row and
/// column reached, and whether every step stayed within the byte counters.
pub ghost struct Placement {
    pub board: Seq<char>,
    pub bb: Seq<u64>,
    pub row: int,
    pub col: int,
    pub ok: bool,
}

/// One character of the placement field: a piece letter is placed at row * 8 + col (when
/// that is a square) and moves one column on; '/' starts the next row; a digit 1 to 8
/// skips that many columns; anything else is ignored.
pub open spec fn place_step(st: Placement, c: char) -> Placement {
    match piece_of_letter(c) {
        Some(pc) => {
            let idx = st.row * 8 + st.col;
            Placement {
                board: if idx < 64 { st.board.update(idx, fen_letter(pc)) } else { st.board },
                bb: if idx < 64 { st.bb.update(piece_ord(pc), st.bb[piece_ord(pc)] | single(idx)) } else { st.bb },
                row: st.row,
                col: st.col + 1,
                ok: st.ok && idx <= 255 && st.col < 255,
            }
        },
        None => if c == '/' {
            Placement { row: st.row + 1, col: 0, ok: st.ok && st.row < 255, ..st }
        } else if '1' <= c <= '8' {
            Placement { col: st.col + (c as int - 48), ok: st.ok && st.col + (c as int - 48) <= 255, ..st }
        } else {
            st
        },
    }
}

/// The state after reading the characters of `s` from `start`.
pub open spec fn placement_of(s: Seq<char>, start: Placement) -> Placement
    decreases s.len(),
{
    if s.len() == 0 {
        start
    } else {
        place_step(placement_of(s.drop_last(), start), s.last())
    }
}

/// The reading state before any character: an empty board at the top-left corner.
pub open spec fn empty_placement() -> Placement {
    Placement { board: Seq::new(64, |i: int| '-'), bb: Seq::new(12, |i: int| 0u64), row: 0, col: 0, ok: true }
}

/// A failed step stays failed.
pub(crate) proof fn lemma_placement_ok_prefix(s: Seq<char>, start: Placement, i: int)
    requires
        0 <= i <= s.len(),
        placement_of(s, start).ok,
    ensures
        placement_of(s.take(i), start).ok,
    decreases s.len() - i,
{
    if i < s.len() {
        assert(s.take(i + 1).drop_last() =~= s.take(i));
        lemma_placement_ok_prefix(s, start, i + 1);
    } else {
        assert(s.take(i) =~= s);
    }
}

/// Whether the placement field can be read without a counter passing 255.
pub open spec fn placement_fits(fen: Seq<char>) -> bool {
    placement_of(field(fen, 0), empty_placement()).ok
}

/// The side to move named by the second field: 'w' White, 'b' Black, White otherwise.
pub open spec fn color_field(s: Seq<char>) -> Color {
    if s == seq!['b'] { Color::Black } else { Color::White }
}

/// The clock value a field gives: the number it denotes, 0 when it is none.
pub open spec fn clock_field(s: Seq<char>) -> u8 {
    match parse_u8(s) {
        Some(v) => v,
        None => 0,
    }
}

/// Reading and writing a game as a FEN record.
pub trait FenParser: Sized {
    /// Reads a game from its FEN record.
    fn deserialize(fen: &str) -> Self
        requires
            placement_fits(fen@),
    ;

    /// Writes the FEN record of the game.
    fn serialize(&self) -> String;
}

impl GameState {
    /// Places the pieces of a FEN placement field on the board, starting at the top-left corner.
    fn place_pieces(&mut self, placement: &str)
        requires
            placement_of(placement@, Placement { board: old(self).board@, bb: old(self).bitboard@, row: 0, col: 0, ok: true }).ok,
        ensures
            final(self).board@ == placement_of(placement@, Placement { board: old(self).board@, bb: old(self).bitboard@, row: 0, col: 0, ok: true }).board,
            final(self).bitboard@ == placement_of(placement@, Placement { board: old(self).board@, bb: old(self).bitboard@, row: 0, col: 0, ok: true }).bb,
            final(self).move_turn == old(self).move_turn,
            final(self).castling == old(self).castling,
            final(self).halfmove_clock == old(self).halfmove_clock,
            final(self).fullmove_number == old(self).fullmove_number,
            final(self).en_passant == old(self).en_passant,
            final(self).hash == old(self).hash,
            final(self).history@ == old(self).history@,
            final(self).move_lookup_table == old(self).move_lookup_table,
            final(self).zobrist_hashing == old(self).zobrist_hashing,
            final(self).w_moves_mask == old(self).w_moves_mask,
            final(self).b_moves_mask == old(self).b_moves_mask,
            final(self).quiet_white_moves == old(self).quiet_white_moves,
            final(self).quiet_black_moves == old(self).quiet_black_moves,
            final(self).killer_white_moves == old(self).killer_white_moves,
            final(self).killer_black_moves == old(self).killer_black_moves,
    {
        let ghost start = Placement { board: self.board@, bb: self.bitboard@, row: 0, col: 0, ok: true };
        let ghost text = placement@;
        let n = placement.unicode_len();
        let mut row: u8 = 0;
        let mut col: u8 = 0;
        let mut i: usize = 0;
        proof {
            assert(text.take(0) =~= Seq::<char>::empty());
        }
        while i < n
            invariant
                n == text.len(),
                text == placement@,
                i <= n,
                placement_of(text, start).ok,
                ({
                    let st = placement_of(text.take(i as int), start);
                    &&& st.ok
                    &&& st.row == row
                    &&& st.col == col
                    &&& st.board == self.board@
                    &&& st.bb == self.bitboard@
                }),
                self.move_turn == old(self).move_turn,
                self.castling == old(self).castling,
                self.halfmove_clock == old(self).halfmove_clock,
                self.fullmove_number == old(self).fullmove_number,
                self.en_passant == old(self).en_passant,
                self.hash == old(self).hash,
                self.history@ == old(self).history@,
                self.move_lookup_table == old(self).move_lookup_table,
                self.zobrist_hashing == old(self).zobrist_hashing,
                self.w_moves_mask == old(self).w_moves_mask,
                self.b_moves_mask == old(self).b_moves_mask,
                self.quiet_white_moves == old(self).quiet_white_moves,
                self.quiet_black_moves == old(self).quiet_black_moves,
                self.killer_white_moves == old(self).killer_white_moves,
                self.killer_black_moves == old(self).killer_black_moves,
            decreases n - i,
        {
            let c = placement.get_char(i);
            proof {
                assert(text.take(i + 1).drop_last() =~= text.take(i as int));
                assert(text.take(i + 1).last() == c);
                lemma_placement_ok_prefix(text, start, i + 1);
            }
            match get_piece_from_char(c) {
                Some(piece) => {
                    let index = (row * 8) + col;
                    match FileRank::get_file_rank(index) {
                        Some(file_rank) => {
                            proof {
                                lemma_piece_letter(piece);
                            }
                            self.set_piece(&piece, &file_rank);
                        },
                        None => {},
                    }
                    col = col + 1;
                },
                None => {
                    if c == '/' {
                        row = row + 1;
                        col = 0;
                    } else if '1' <= c && c <= '8' {
                        let offset = (c as u32 - 48) as u8;
                        col = col + offset;
                    }
                },
            }
            i = i + 1;
        }
        proof {
            assert(text.take(n as int) =~= text);
        }
    }
}

/// Whether the piece-placement field of a FEN record can be read: no row, column or
/// square number passes 255 while reading it.
pub fn placement_readable(fen: &str) -> (b: bool)
    ensures
        b == placement_fits(fen@),
{
    let n = fen.unicode_len();
    proof {
        lemma_scan_bounds(fen@, 0);
    }
    let (placement, _end) = next_field(fen, n, 0);
    let ghost text = placement@;
    let ghost start = empty_placement();
    proof {
        assert(text == field(fen@, 0));
        assert(text.take(0) =~= Seq::<char>::empty());
    }
    let m = placement.unicode_len();
    let mut row: u32 = 0;
    let mut col: u32 = 0;
    let mut i: usize = 0;
    while i < m
        invariant
            m == text.len(),
            text == placement@,
            text == field(fen@, 0),
            i <= m,
            start == empty_placement(),
            ({
                let st = placement_of(text.take(i as int), start);
                &&& st.ok
                &&& st.row == row
                &&& st.col == col
                &&& row <= 255
                &&& col <= 255
            }),
        decreases m - i,
    {
        let c = placement.get_char(i);
        proof {
            assert(text.take(i + 1).drop_last() =~= text.take(i as int));
            assert(text.take(i + 1).last() == c);
            assert(placement_of(text.take(i + 1), start) == place_step(placement_of(text.take(i as int), start), c));
        }
        let fits_step = match get_piece_from_char(c) {
            Some(_) => {
                if row * 8 + col <= 255 && col < 255 {
                    col = col + 1;
                    true
                } else {
                    false
                }
            },
            None => {
                if c == '/' {
                    if row < 255 {
                        row = row + 1;
                        col = 0;
                        true
                    } else {
                        false
                    }
                } else if '1' <= c && c <= '8' {
                    let offset = c as u32 - 48;
                    if col + offset <= 255 {
                        col = col + offset;
                        true
                    } else {
                        false
                    }
                } else {
                    true
                }
            },
        };
        if !fits_step {
            proof {
                assert(!placement_of(text.take(i + 1), start).ok);
                if placement_of(text, start).ok {
                    lemma_placement_ok_prefix(text, start, i + 1);
                }
            }
            return false;
        }
        i = i + 1;
    }
    proof {
        assert(text.take(m as int) =~= text);
    }
    true
}

impl FenParser for GameState {
    /// Reads the six fields of a FEN record (missing ones read as empty): the piece
    /// placement from the top-left corner, the side to move ('b' for Black, White
    /// otherwise), the castling rights (added to full rights), the en-passant square, and
    /// the two clocks (0 where a field is no number below 256). The hash is computed for
    /// the resulting position.
    fn deserialize(fen: &str) -> (g: GameState)
        ensures
            g.board@ == placement_of(field(fen@, 0), empty_placement()).board,
            g.bitboard@ == placement_of(field(fen@, 0), empty_placement()).bb,
            g.move_turn == color_field(field(fen@, 1)),
            g.castling.mask == 0b1111,
            g.en_passant matches Some(fr) ==> field(fen@, 3) == fr.name(),
            g.en_passant is None ==> forall|i: int| 0 <= i < 64 ==> field(fen@, 3) != #[trigger] square_at(i).name(),
            g.halfmove_clock.0 == clock_field(field(fen@, 4)),
            g.fullmove_number.0 == clock_field(field(fen@, 5)),
            g.hash == position_hash(&*g.zobrist_hashing, g.bitboard@, g.castling.mask, g.en_passant, g.move_turn),
            g.history@.len() == 0,
            g.tables_ok(),
            g.w_moves_mask == 0,
            g.b_moves_mask == 0,
            crate::zobrist::standard_keys(&*g.zobrist_hashing),
    {
        let n = fen.unicode_len();
        proof {
            lemma_scan_bounds(fen@, 0);
        }
        let (piece_placement, p1) = next_field(fen, n, 0);
        proof {
            lemma_scan_bounds(fen@, p1 as int);
        }
        let (active_color, p2) = next_field(fen, n, p1);
        proof {
            lemma_scan_bounds(fen@, p2 as int);
        }
        let (castling_rights, p3) = next_field(fen, n, p2);
        proof {
            lemma_scan_bounds(fen@, p3 as int);
        }
        let (en_passant, p4) = next_field(fen, n, p3);
        proof {
            lemma_scan_bounds(fen@, p4 as int);
        }
        let (halfmove_clock, p5) = next_field(fen, n, p4);
        proof {
            lemma_scan_bounds(fen@, p5 as int);
        }
        let (fullmove_number, p6) = next_field(fen, n, p5);
        proof {
            assert(piece_placement@ == field(fen@, 0));
            assert(active_color@ == field(fen@, 1));
            assert(castling_rights@ == field(fen@, 2));
            assert(en_passant@ == field(fen@, 3));
            assert(halfmove_clock@ == field(fen@, 4));
            assert(fullmove_number@ == field(fen@, 5));
        }
        let mut game = GameState::empty();
        proof {
            assert(game.board@ =~= empty_placement().board);
            assert(game.bitboard@ =~= empty_placement().bb);
        }
        game.place_pieces(piece_placement);
        let color_len = active_color.unicode_len();
        if color_len == 1 && active_color.get_char(0) == 'w' {
            game.move_turn = Color::White;
        } else if color_len == 1 && active_color.get_char(0) == 'b' {
            game.move_turn = Color::Black;
        }
        proof {
            if active_color@ == seq!['b'] {
                assert(active_color@[0] == 'b');
            }
            if color_len == 1 && active_color@[0] == 'b' {
                assert(active_color@ =~= seq!['b']);
            }
        }
        let mut castling = Castling::new();
        let rights_len = castling_rights.unicode_len();
        let mut i: usize = 0;
        while i < rights_len
            invariant
                i <= rights_len,
                rights_len == castling_rights@.len(),
                castling.mask == 15,
            decreases rights_len - i,
        {
            proof {
                assert((15u64 | 8u64) == 15u64 && (15u64 | 4u64) == 15u64 && (15u64 | 2u64) == 15u64
                    && (15u64 | 1u64) == 15u64) by (bit_vector);
            }
            let c = castling_rights.get_char(i);
            if c == 'K' {
                castling.mask = castling.mask | WHITE_CASTLING_KING_MASK;
            } else if c == 'Q' {
                castling.mask = castling.mask | WHITE_CASTLING_QUEEN_MASK;
            } else if c == 'k' {
                castling.mask = castling.mask | BLACK_CASTLING_KING_MASK;
            } else if c == 'q' {
                castling.mask = castling.mask | BLACK_CASTLING_QUEEN_MASK;
            }
            i = i + 1;
        }
        game.halfmove_clock = Clock::from_string(halfmove_clock);
        game.fullmove_number = Clock::from_string(fullmove_number);
        game.castling = castling;
        game.en_passant = FileRank::from_string(en_passant);
        let h = game.zobrist_hashing.get_hash_from_scratch(&game);
        game.hash = h;
        game
    }

    /// Writes the FEN record: placement row by row from the top, runs of empty squares
    /// as digits, side to move, castling rights ('-' for none), en-passant square ('-'
    /// for none) and both clocks, separated by single spaces.
    fn serialize(&self) -> (s: String)
        ensures
            s@ == fen_text(self),
    {
        let mut text = String::new();
        write_placement(&self.board, &mut text);
        proof {
            assert(text@ =~= placement_text_from(self.board@, 0));
        }
        let ghost placed_text = text@;
        crate::text::push_char(&mut text, ' ');
        if self.move_turn == Color::White {
            crate::text::push_char(&mut text, 'w');
        } else {
            crate::text::push_char(&mut text, 'b');
        }
        crate::text::push_char(&mut text, ' ');
        write_castling(self.castling.mask, &mut text);
        crate::text::push_char(&mut text, ' ');
        write_ep(self.en_passant, &mut text);
        crate::text::push_char(&mut text, ' ');
        let halfmove_clock = self.halfmove_clock.to_text();
        append(&mut text, &halfmove_clock);
        crate::text::push_char(&mut text, ' ');
        let fullmove_number = self.fullmove_number.to_text();
        append(&mut text, &fullmove_number);
        proof {
            assert(text@ =~= fen_text(self));
        }
        text
    }
}

/// Appends the placement text of the board, row by row from the top.
fn write_placement(board: &[char; 64], text: &mut String)
    ensures
        final(text)@ == old(text)@ + placement_text_from(board@, 0),
{
    let mut rank: u8 = 0;
    proof {
        assert(old(text)@ + placement_text_from(board@, 0) =~= old(text)@ + placement_text_from(board@, 0));
    }
    while rank < 8
        invariant
            rank <= 8,
            board@.len() == 64,
            text@ + placement_text_from(board@, rank as int) == old(text)@ + placement_text_from(board@, 0),
        decreases 8 - rank,
    {
        let ghost before = text@;
        write_row(board, rank, text);
        if rank < 7 {
            crate::text::push_char(text, '/');
        }
        proof {
            assert(text@ + placement_text_from(board@, rank + 1) =~= before + placement_text_from(board@, rank as int));
        }
        rank = rank + 1;
    }
    proof {
        assert(text@ =~= text@ + placement_text_from(board@, 8));
    }
}

/// Appends the text of one row of the board: piece letters, runs of empty squares as digits.
fn write_row(board: &[char; 64], rank: u8, text: &mut String)
    requires
        rank < 8,
    ensures
        final(text)@ == old(text)@ + row_text(board@, rank as int, 0, 0),
{
    let ghost before = text@;
    let mut empty_count: u8 = 0;
    let mut file: u8 = 0;
    while file < 8
        invariant
            rank < 8,
            file <= 8,
            empty_count <= file,
            board@.len() == 64,
            text@ + row_text(board@, rank as int, file as int, empty_count as int) == before + row_text(board@, rank as int, 0, 0),
        decreases 8 - file,
    {
        let index = (rank * 8 + file) as usize;
        let ghost t0 = text@;
        let ghost e0 = empty_count as int;
        match Piece::from_character(board[index]) {
            Some(piece) => {
                if empty_count > 0 {
                    crate::text::push_char(text, crate::types::digit_char(empty_count));
                    empty_count = 0;
                }
                crate::text::push_char(text, piece.symbol());
                proof {
                    assert(text@ =~= t0 + count_text(e0) + seq![fen_letter(piece)]);
                    assert(text@ + row_text(board@, rank as int, file + 1, 0)
                        =~= t0 + row_text(board@, rank as int, file as int, e0));
                }
            },
            None => {
                empty_count = empty_count + 1;
            },
        }
        file = file + 1;
    }
    let ghost t1 = text@;
    if empty_count > 0 {
        crate::text::push_char(text, crate::types::digit_char(empty_count));
    }
    proof {
        assert(text@ =~= t1 + count_text(empty_count as int));
        assert(text@ =~= before + row_text(board@, rank as int, 0, 0));
    }
}

/// Appends the castling field.
fn write_castling(mask: u64, text: &mut String)
    ensures
        final(text)@ == old(text)@ + castling_text(mask),
{
    let castling = Castling::from_mask(mask);
    let mut any_rights = false;
    if castling.get_king_side(&Color::White) {
        crate::text::push_char(text, 'K');
        any_rights = true;
    }
    if castling.get_queen_side(&Color::White) {
        crate::text::push_char(text, 'Q');
        any_rights = true;
    }
    if castling.get_king_side(&Color::Black) {
        crate::text::push_char(text, 'k');
        any_rights = true;
    }
    if castling.get_queen_side(&Color::Black) {
        crate::text::push_char(text, 'q');
        any_rights = true;
    }
    if !any_rights {
        crate::text::push_char(text, '-');
    }
    proof {
        assert(text@ =~= old(text)@ + castling_text(mask));
    }
}

/// Appends the en-passant field.
fn write_ep(ep: Option<FileRank>, text: &mut String)
    ensures
        final(text)@ == old(text)@ + ep_text(ep),
{
    match ep {
        Some(fr) => {
            crate::text::push_char(text, fr.file_letter());
            crate::text::push_char(text, fr.rank_digit());
        },
        None => {
            crate::text::push_char(text, '-');
        },
    }
    proof {
        assert(text@ =~= old(text)@ + ep_text(ep));
    }
}

/// Appends the characters of `src` to `dst`.
fn append(dst: &mut String, src: &String)
    ensures
        final(dst)@ == old(dst)@ + src@,
{
    let s = src.as_str();
    let n = s.unicode_len();
    let mut i: usize = 0;
    while i < n
        invariant
            i <= n,
            n == src@.len(),
            s@ == src@,
            dst@ == old(dst)@ + src@.take(i as int),
        decreases n - i,
    {
        let c = s.get_char(i);
        crate::text::push_char(dst, c);
        proof {
            assert(src@.take(i + 1) =~= src@.take(i as int).push(c));
        }
        i = i + 1;
    }
    proof {
        assert(src@.take(n as int) =~= src@);
    }
}

/// A run of `e` empty squares as a digit, nothing when there is none.
pub open spec fn count_text(e: int) -> Seq<char> {
    if e > 0 { seq![(e + 48) as char] } else { Seq::empty() }
}

/// The text of row `r` of the board from column `f` on, with `e` empty squares pending.
pub open spec fn row_text(b: Seq<char>, r: int, f: int, e: int) -> Seq<char>
    decreases 8 - f,
{
    if f >= 8 {
        count_text(e)
    } else {
        match piece_of_letter(b[r * 8 + f]) {
            Some(pc) => count_text(e) + seq![fen_letter(pc)] + row_text(b, r, f + 1, 0),
            None => row_text(b, r, f + 1, e + 1),
        }
    }
}

/// The placement text from row `r` down, rows separated by '/'.
pub open spec fn placement_text_from(b: Seq<char>, r: int) -> Seq<char>
    decreases 8 - r,
{
    if r >= 8 {
        Seq::empty()
    } else {
        row_text(b, r, 0, 0) + (if r < 7 { seq!['/'] } else { Seq::empty() }) + placement_text_from(b, r + 1)
    }
}

/// The castling field: K, Q, k, q for the rights held, '-' when none is.
pub open spec fn castling_text(mask: u64) -> Seq<char> {
    let t = (if mask & WHITE_CASTLING_KING_MASK != 0 { seq!['K'] } else { Seq::empty() })
        + (if mask & WHITE_CASTLING_QUEEN_MASK != 0 { seq!['Q'] } else { Seq::empty() })
        + (if mask & BLACK_CASTLING_KING_MASK != 0 { seq!['k'] } else { Seq::empty() })
        + (if mask & BLACK_CASTLING_QUEEN_MASK != 0 { seq!['q'] } else { Seq::empty() });
    if t.len() == 0 { seq!['-'] } else { t }
}

/// The en-passant field: the square's name, '-' when there is none.
pub open spec fn ep_text(ep: Option<FileRank>) -> Seq<char> {
    match ep {
        Some(fr) => fr.name(),
        None => seq!['-'],
    }
}

/// The FEN record of a game.
pub open spec fn fen_text(g: &GameState) -> Seq<char> {
    placement_text_from(g.board@, 0) + seq![' '] + seq![if g.move_turn == Color::White { 'w' } else { 'b' }]
        + seq![' '] + castling_text(g.castling.mask) + seq![' '] + ep_text(g.en_passant) + seq![' ']
        + decimal_text(g.halfmove_clock.0 as nat) + seq![' '] + decimal_text(g.fullmove_number.0 as nat)
}

impl GameState {
    /// The standard starting position.
    pub fn new_game() -> (g: GameState)
        ensures
            g.board@ == placement_of(field(START_FEN@, 0), empty_placement()).board,
            g.bitboard@ == placement_of(field(START_FEN@, 0), empty_placement()).bb,
            g.move_turn == Color::White,
            g.castling.mask == 0b1111,
            g.en_passant is None,
            g.halfmove_clock.0 == 0,
            g.fullmove_number.0 == 1,
            g.tables_ok(),
            crate::zobrist::standard_keys(&*g.zobrist_hashing),
    {
        proof {
            lemma_start_placement();
            lemma_start_fields();
            lemma_small_clocks();
            assert(seq!['w'][0] != seq!['b'][0]);
            assert(color_field(seq!['w']) == Color::White);
        }
        GameState::deserialize(START_FEN)
    }
}

/// A run of non-whitespace from `a` ends at the first whitespace `b`.
proof fn lemma_tok_end_at(s: Seq<char>, a: int, b: int)
    requires
        0 <= a <= b < s.len(),
        forall|i: int| a <= i < b ==> !is_ws(#[trigger] s[i]),
        is_ws(s[b]),
    ensures
        tok_end(s, a) == b,
    decreases b - a,
{
    if a < b {
        lemma_tok_end_at(s, a + 1, b);
    }
}

/// The placement field of the starting record is its first 43 characters.
proof fn lemma_start_first_field()
    ensures
        field(START_FEN@, 0) == START_FEN@.subrange(0, 43),
        tok_end(START_FEN@, 0) == 43,
{
    reveal_strlit("rnbqkbnr/pppppppp/8/8/8/8/PPPPPPPP/RNBQKBNR w KQkq - 0 1");
    let s = START_FEN@;
    assert(ws_skip(s, 0) == 0);
    lemma_tok_end_at(s, 0, 43);
    assert(field(s, 0) =~= s.subrange(0, 43));
}

/// The row, column and success of reading a placement field, without the board.
pub open spec fn place_counters(s: Seq<char>, row: int, col: int, ok: bool) -> (int, int, bool)
    decreases s.len(),
{
    if s.len() == 0 {
        (row, col, ok)
    } else {
        let (r, c, k) = place_counters(s.drop_last(), row, col, ok);
        let ch = s.last();
        if piece_of_letter(ch) is Some {
            (r, c + 1, k && r * 8 + c <= 255 && c < 255)
        } else if ch == '/' {
            (r + 1, 0, k && r < 255)
        } else if '1' <= ch <= '8' {
            (r, c + (ch as int - 48), k && c + (ch as int - 48) <= 255)
        } else {
            (r, c, k)
        }
    }
}

/// The counters of a placement read are those of the full read.
proof fn lemma_place_counters(s: Seq<char>, st: Placement)
    ensures
        place_counters(s, st.row, st.col, st.ok)
            == (placement_of(s, st).row, placement_of(s, st).col, placement_of(s, st).ok),
    decreases s.len(),
{
    if s.len() > 0 {
        lemma_place_counters(s.drop_last(), st);
    }
}

/// Reading two pieces of text one after the other counts as reading them joined.
proof fn lemma_counters_concat(a: Seq<char>, b: Seq<char>, row: int, col: int, ok: bool)
    ensures
        place_counters(a + b, row, col, ok) == ({
            let (r, c, k) = place_counters(a, row, col, ok);
            place_counters(b, r, c, k)
        }),
    decreases b.len(),
{
    if b.len() == 0 {
        assert(a + b =~= a);
    } else {
        lemma_counters_concat(a, b.drop_last(), row, col, ok);
        assert((a + b).drop_last() =~= a + b.drop_last());
    }
}

/// A row of eight pieces followed by '/' moves to the start of the next row.
proof fn lemma_full_row(seg: Seq<char>, row: int)
    requires
        seg.len() == 9,
        forall|i: int| 0 <= i < 8 ==> piece_of_letter(#[trigger] seg[i]) is Some,
        seg[8] == '/',
        0 <= row < 31,
    ensures
        place_counters(seg, row, 0, true) == (row + 1, 0int, true),
{
    reveal_with_fuel(place_counters, 10);
}

/// "8/" moves to the start of the next row.
proof fn lemma_empty_row(seg: Seq<char>, row: int)
    requires
        seg == seq!['8', '/'],
        0 <= row < 31,
    ensures
        place_counters(seg, row, 0, true) == (row + 1, 0int, true),
{
    reveal_with_fuel(place_counters, 3);
    assert(seg.drop_last() =~= seq!['8']);
    assert(seq!['8'].drop_last() =~= Seq::<char>::empty());
}

/// Eight pieces at the start of a row fill it.
proof fn lemma_last_row(seg: Seq<char>, row: int)
    requires
        seg.len() == 8,
        forall|i: int| 0 <= i < 8 ==> piece_of_letter(#[trigger] seg[i]) is Some,
        0 <= row < 31,
    ensures
        place_counters(seg, row, 0, true) == (row, 8int, true),
{
    reveal_with_fuel(place_counters, 9);
}

/// The placement field of the starting record reads without overflow.
pub(crate) proof fn lemma_start_placement()
    ensures
        placement_fits(START_FEN@),
{
    lemma_start_first_field();
    reveal_strlit("rnbqkbnr/pppppppp/8/8/8/8/PPPPPPPP/RNBQKBNR w KQkq - 0 1");
    let s = START_FEN@.subrange(0, 43);
    lemma_place_counters(s, empty_placement());
    let s1 = s.subrange(0, 9);
    let s2 = s.subrange(9, 18);
    let s3 = s.subrange(18, 20);
    let s4 = s.subrange(20, 22);
    let s5 = s.subrange(22, 24);
    let s6 = s.subrange(24, 26);
    let s7 = s.subrange(26, 35);
    let s8 = s.subrange(35, 43);
    assert(s =~= s1 + s2 + s3 + s4 + s5 + s6 + s7 + s8);
    lemma_full_row(s1, 0);
    lemma_full_row(s2, 1);
    assert(s3 =~= seq!['8', '/']);
    assert(s4 =~= seq!['8', '/']);
    assert(s5 =~= seq!['8', '/']);
    assert(s6 =~= seq!['8', '/']);
    lemma_empty_row(s3, 2);
    lemma_empty_row(s4, 3);
    lemma_empty_row(s5, 4);
    lemma_empty_row(s6, 5);
    lemma_full_row(s7, 6);
    lemma_last_row(s8, 7);
    lemma_counters_concat(s1, s2, 0, 0, true);
    lemma_counters_concat(s1 + s2, s3, 0, 0, true);
    lemma_counters_concat(s1 + s2 + s3, s4, 0, 0, true);
    lemma_counters_concat(s1 + s2 + s3 + s4, s5, 0, 0, true);
    lemma_counters_concat(s1 + s2 + s3 + s4 + s5, s6, 0, 0, true);
    lemma_counters_concat(s1 + s2 + s3 + s4 + s5 + s6, s7, 0, 0, true);
    lemma_counters_concat(s1 + s2 + s3 + s4 + s5 + s6 + s7, s8, 0, 0, true);
}

/// The other fields of the starting record.
pub(crate) proof fn lemma_start_fields()
    ensures
        field(START_FEN@, 1) == seq!['w'],
        field(START_FEN@, 2) == seq!['K', 'Q', 'k', 'q'],
        field(START_FEN@, 3) == seq!['-'],
        field(START_FEN@, 4) == seq!['0'],
        field(START_FEN@, 5) == seq!['1'],
{
    lemma_start_first_field();
    reveal_strlit("rnbqkbnr/pppppppp/8/8/8/8/PPPPPPPP/RNBQKBNR w KQkq - 0 1");
    let s = START_FEN@;
    reveal_with_fuel(ws_skip, 3);
    reveal_with_fuel(tok_end, 3);
    lemma_tok_end_at(s, 46, 50);
    assert(field_start(s, 1) == 44);
    assert(tok_end(s, 44) == 45);
    assert(field(s, 1) =~= seq!['w']);
    assert(field_start(s, 2) == 46);
    assert(tok_end(s, 46) == 50);
    assert(field(s, 2) =~= seq!['K', 'Q', 'k', 'q']);
    assert(field_start(s, 3) == 51);
    assert(tok_end(s, 51) == 52);
    assert(field(s, 3) =~= seq!['-']);
    assert(field_start(s, 4) == 53);
    assert(tok_end(s, 53) == 54);
    assert(field(s, 4) =~= seq!['0']);
    assert(field_start(s, 5) == 55);
    assert(tok_end(s, 55) == 56);
    assert(field(s, 5) =~= seq!['1']);
}

/// "0" and "1" read as the clocks 0 and 1.
pub(crate) proof fn lemma_small_clocks()
    ensures
        clock_field(seq!['0']) == 0,
        clock_field(seq!['1']) == 1,
{
    assert(seq!['0'].drop_last() =~= Seq::<char>::empty());
    assert(seq!['1'].drop_last() =~= Seq::<char>::empty());
    assert(seq!['0'].last() == '0');
    assert(seq!['1'].last() == '1');
    assert(crate::types::digit_value('0') == 0);
    assert(crate::types::decimal_value(Seq::<char>::empty()) == 0);
    assert(crate::types::decimal_value(seq!['0']) == 0);
    assert(crate::types::decimal_value(seq!['1']) == 1);
}

/// The FEN record of the starting position.
pub const START_FEN: &'static str = "rnbqkbnr/pppppppp/8/8/8/8/PPPPPPPP/RNBQKBNR w KQkq - 0 1";

} // verus!
