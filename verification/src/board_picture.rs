//! The board drawn as text: files and ranks around the squares, a figure for each piece
//! and a dot for each empty square, followed by the FEN record.
use vstd::prelude::*;
use crate::fen::{FenParser, fen_text};
use crate::game::GameState;
use crate::square::FileRank;
use crate::text::{push_char, push_text};
use crate::types::{figurine, piece_of_letter};

verus! {

/// The cell of a board character: the piece's figure or a dot, then a space.
pub open spec fn cell_text(c: char) -> Seq<char> {
    match piece_of_letter(c) {
        Some(p) => seq![figurine(p), ' '],
        None => seq!['.', ' '],
    }
}

/// Square `i` (0 = a8 to 63 = h1): at the start of a row, the end of the previous row
/// ("|" and its rank, then a line break) and the row's rank and "|"; then the cell.
pub open spec fn square_text(b: Seq<char>, i: int) -> Seq<char> {
    let row = 7 - i / 8;
    (if i % 8 == 0 {
        (if row != 7 { seq!['|', (row + 2 + 48) as char, '\n'] } else { Seq::empty() }) + seq![(row + 1 + 48) as char, '|']
    } else {
        Seq::empty()
    }) + cell_text(b[i])
}

/// The first `n` squares drawn.
pub open spec fn squares_text(b: Seq<char>, n: int) -> Seq<char>
    decreases n,
{
    if n <= 0 {
        Seq::empty()
    } else {
        squares_text(b, n - 1) + square_text(b, n - 1)
    }
}

/// The whole drawing: a header of files, the squares, a footer, and the FEN record.
pub open spec fn board_picture(g: &GameState) -> Seq<char> {
    "  a b c d e f g h\n +----------------+\n"@ + squares_text(g.board@, 64)
        + "|1\n +----------------+\n  a b c d e f g h\nfen: "@ + fen_text(g) + seq!['\n']
}

impl GameState {
    /// The board drawn as text (see `board_picture`).
    pub fn board_text(&self) -> (t: String)
        ensures
            t@ == board_picture(self),
    {
        let mut t = String::new();
        push_text(&mut t, "  a b c d e f g h\n +----------------+\n");
        let ghost head = t@;
        let squares = FileRank::iter();
        let mut i: usize = 0;
        proof {
            assert(t@ =~= head + squares_text(self.board@, 0));
        }
        while i < 64
            invariant
                i <= 64,
                squares@.len() == 64,
                forall|k: int| 0 <= k < 64 ==> #[trigger] squares@[k] == crate::square::square_at(k),
                head == "  a b c d e f g h\n +----------------+\n"@,
                t@ == head + squares_text(self.board@, i as int),
            decreases 64 - i,
        {
            let file_rank = squares[i];
            proof {
                crate::square::lemma_square_at(i as int);
            }
            let ghost before = t@;
            let row = 7 - file_rank.rank();
            let col = file_rank.file();
            if col == 0 {
                if row != 7 {
                    push_char(&mut t, '|');
                    push_char(&mut t, crate::types::digit_char(row + 2));
                    push_char(&mut t, '\n');
                }
                push_char(&mut t, crate::types::digit_char(row + 1));
                push_char(&mut t, '|');
            }
            match self.get_piece_at(&file_rank) {
                Some(p) => {
                    push_char(&mut t, p.piece_symbol());
                    push_char(&mut t, ' ');
                },
                None => {
                    push_char(&mut t, '.');
                    push_char(&mut t, ' ');
                },
            }
            proof {
                assert(t@ =~= before + square_text(self.board@, i as int));
            }
            i = i + 1;
        }
        push_text(&mut t, "|1\n +----------------+\n  a b c d e f g h\nfen: ");
        let record = GameState::serialize(self);
        push_text(&mut t, record.as_str());
        push_char(&mut t, '\n');
        proof {
            assert(t@ =~= board_picture(self));
        }
        t
    }
}

/// The figure drawn for bitboard `k` of the twelve (white pawn, bishop, knight, rook,
/// queen, king, then the black ones), followed by a space.
pub open spec fn figure_text(k: int) -> Seq<char> {
    if k == 0 { seq!['\u{265F}', '\u{FE0E}', ' '] }
    else if k == 1 { seq!['\u{265D}', ' '] }
    else if k == 2 { seq!['\u{265E}', ' '] }
    else if k == 3 { seq!['\u{265C}', ' '] }
    else if k == 4 { seq!['\u{265B}', ' '] }
    else if k == 5 { seq!['\u{265A}', ' '] }
    else if k == 6 { seq!['\u{2659}', ' '] }
    else if k == 7 { seq!['\u{2657}', ' '] }
    else if k == 8 { seq!['\u{2658}', ' '] }
    else if k == 9 { seq!['\u{2656}', ' '] }
    else if k == 10 { seq!['\u{2655}', ' '] }
    else { seq!['\u{2654}', ' '] }
}

/// The cell of square `sq`: the figure of the first of the bitboards from `k` on that
/// holds the square, or a dot.
pub open spec fn boards_cell(boards: Seq<u64>, sq: int, k: int) -> Seq<char>
    decreases 12 - k,
{
    if k >= 12 || k < 0 {
        seq!['.', ' ']
    } else if crate::bits::bit_at(boards[k], sq) {
        figure_text(k)
    } else {
        boards_cell(boards, sq, k + 1)
    }
}

/// Square `i` of a drawing from twelve bitboards (see `square_text` for the row marks).
pub open spec fn boards_square(boards: Seq<u64>, i: int) -> Seq<char> {
    let row = 7 - i / 8;
    (if i % 8 == 0 {
        (if row != 7 { seq!['|', (row + 2 + 48) as char, '\n'] } else { Seq::empty() }) + seq![(row + 1 + 48) as char, '|']
    } else {
        Seq::empty()
    }) + boards_cell(boards, i, 0)
}

/// The first `n` squares drawn from twelve bitboards.
pub open spec fn boards_squares(boards: Seq<u64>, n: int) -> Seq<char>
    decreases n,
{
    if n <= 0 {
        Seq::empty()
    } else {
        boards_squares(boards, n - 1) + boards_square(boards, n - 1)
    }
}

/// The drawing from twelve bitboards with the given border line.
pub open spec fn boards_picture(boards: Seq<u64>, border: Seq<char>) -> Seq<char> {
    "  a b c d e f g h\n"@ + border + seq!['\n'] + boards_squares(boards, 64) + "|1\n"@ + border + seq!['\n']
        + "  a b c d e f g h\n"@
}

/// Draws twelve bitboards with the given border line.
fn draw_boards(boards: &[u64; 12], border: &str) -> (t: String)
    ensures
        t@ == boards_picture(boards@, border@),
{
    let mut t = String::new();
    push_text(&mut t, "  a b c d e f g h\n");
    push_text(&mut t, border);
    push_char(&mut t, '\n');
    let ghost head = t@;
    proof {
        assert(t@ =~= head + boards_squares(boards@, 0));
    }
    let mut i: usize = 0;
    while i < 64
        invariant
            i <= 64,
            t@ == head + boards_squares(boards@, i as int),
        decreases 64 - i,
    {
        let ghost before = t@;
        let row: usize = 7 - i / 8;
        if i % 8 == 0 {
            if row != 7 {
                push_char(&mut t, '|');
                push_char(&mut t, crate::types::digit_char((row + 2) as u8));
                push_char(&mut t, '\n');
            }
            push_char(&mut t, crate::types::digit_char((row + 1) as u8));
            push_char(&mut t, '|');
        }
        let ghost marks = t@;
        let mut k: usize = 0;
        let mut drawn = false;
        while k < 12 && !drawn
            invariant
                k <= 12,
                i < 64,
                !drawn ==> boards_cell(boards@, i as int, 0) == boards_cell(boards@, i as int, k as int) && t@ == marks,
                drawn ==> t@ == marks + boards_cell(boards@, i as int, 0),
            decreases 12 - k + (if drawn { 0int } else { 1int }),
        {
            let mask: u64 = 1u64 << (i as u64);
            proof {
                crate::game::lemma_bit_test(boards[k as int], i as int);
            }
            if boards[k] & mask != 0 {
                match k {
                    0 => {
                        push_char(&mut t, '\u{265F}');
                        push_char(&mut t, '\u{FE0E}');
                    },
                    1 => push_char(&mut t, '\u{265D}'),
                    2 => push_char(&mut t, '\u{265E}'),
                    3 => push_char(&mut t, '\u{265C}'),
                    4 => push_char(&mut t, '\u{265B}'),
                    5 => push_char(&mut t, '\u{265A}'),
                    6 => push_char(&mut t, '\u{2659}'),
                    7 => push_char(&mut t, '\u{2657}'),
                    8 => push_char(&mut t, '\u{2658}'),
                    9 => push_char(&mut t, '\u{2656}'),
                    10 => push_char(&mut t, '\u{2655}'),
                    _ => push_char(&mut t, '\u{2654}'),
                }
                push_char(&mut t, ' ');
                drawn = true;
                proof {
                    assert(t@ =~= marks + figure_text(k as int));
                }
            } else {
                k = k + 1;
            }
        }
        if !drawn {
            push_char(&mut t, '.');
            push_char(&mut t, ' ');
        }
        proof {
            assert(t@ =~= before + boards_square(boards@, i as int));
        }
        i = i + 1;
    }
    push_text(&mut t, "|1\n");
    push_text(&mut t, border);
    push_char(&mut t, '\n');
    push_text(&mut t, "  a b c d e f g h\n");
    proof {
        assert(t@ =~= boards_picture(boards@, border@));
    }
    t
}

impl crate::named_boards::BitBoard {
    /// The twelve bitboards drawn, with the border " +----------------+".
    pub fn board_text(&self) -> (t: String)
        ensures
            t@ == boards_picture(self.boards(), " +----------------+"@),
    {
        let boards = [self.w_pawn, self.w_bishop, self.w_knight, self.w_rook, self.w_queen, self.w_king,
            self.b_pawn, self.b_bishop, self.b_knight, self.b_rook, self.b_queen, self.b_king];
        proof {
            assert(boards@ =~= self.boards());
        }
        draw_boards(&boards, " +----------------+")
    }
}

impl crate::game_board::Game {
    /// The twelve bitboards drawn, with the border " +----------------".
    pub fn board_text(&self) -> (t: String)
        ensures
            t@ == boards_picture(self.boards(), " +----------------"@),
    {
        let boards = [self.w_pawn, self.w_bishop, self.w_knight, self.w_rook, self.w_queen, self.w_king,
            self.b_pawn, self.b_bishop, self.b_knight, self.b_rook, self.b_queen, self.b_king];
        proof {
            assert(boards@ =~= self.boards());
        }
        draw_boards(&boards, " +----------------")
    }
}

} // verus!
