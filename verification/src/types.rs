//! Pieces, colours, moves, castling rights and move clocks.
use vstd::prelude::*;
use crate::square::FileRank;
use crate::text::push_char;
use vstd::string::StrSliceExecFns;

verus! {

/// The kind of a chess piece.
#[derive(Debug, PartialEq, Eq, Clone, Copy, Structural)]
pub enum PieceType {
    Pawn,
    Bishop,
    Knight,
    Rook,
    Queen,
    King,
}

/// Position of a piece kind in the bitboard order (pawn, bishop, knight, rook, queen, king).
pub open spec fn type_ord(t: PieceType) -> int {
    match t {
        PieceType::Pawn => 0,
        PieceType::Bishop => 1,
        PieceType::Knight => 2,
        PieceType::Rook => 3,
        PieceType::Queen => 4,
        PieceType::King => 5,
    }
}

/// The lowercase letter of a piece kind.
pub open spec fn type_letter(t: PieceType) -> char {
    match t {
        PieceType::Pawn => 'p',
        PieceType::Knight => 'n',
        PieceType::Bishop => 'b',
        PieceType::Rook => 'r',
        PieceType::Queen => 'q',
        PieceType::King => 'k',
    }
}

impl PieceType {
    /// The lowercase letter of the piece kind (as used for promotions in UCI).
    pub fn get_symbol(&self) -> (c: char)
        ensures
            c == type_letter(*self),
    {
        match self {
            PieceType::Pawn => 'p',
            PieceType::Knight => 'n',
            PieceType::Bishop => 'b',
            PieceType::Rook => 'r',
            PieceType::Queen => 'q',
            PieceType::King => 'k',
        }
    }
}

/// Index into the twelve piece bitboards, white pieces first.
#[allow(non_camel_case_types)]
#[derive(Copy, Clone, Debug, PartialEq, Eq, Structural)]
pub enum PieceIndex {
    P,
    B,
    N,
    R,
    Q,
    K,
    p,
    b,
    n,
    r,
    q,
    k,
}

impl PieceIndex {
    /// Position of the bitboard, 0 to 11.
    pub open spec fn spec_idx(self) -> int {
        match self {
            PieceIndex::P => 0,
            PieceIndex::B => 1,
            PieceIndex::N => 2,
            PieceIndex::R => 3,
            PieceIndex::Q => 4,
            PieceIndex::K => 5,
            PieceIndex::p => 6,
            PieceIndex::b => 7,
            PieceIndex::n => 8,
            PieceIndex::r => 9,
            PieceIndex::q => 10,
            PieceIndex::k => 11,
        }
    }

    /// Position of the bitboard, 0 to 11.
    pub fn idx(&self) -> (r: usize)
        ensures
            r == self.spec_idx(),
            r < 12,
    {
        match self {
            PieceIndex::P => 0,
            PieceIndex::B => 1,
            PieceIndex::N => 2,
            PieceIndex::R => 3,
            PieceIndex::Q => 4,
            PieceIndex::K => 5,
            PieceIndex::p => 6,
            PieceIndex::b => 7,
            PieceIndex::n => 8,
            PieceIndex::r => 9,
            PieceIndex::q => 10,
            PieceIndex::k => 11,
        }
    }
}

/// The side a piece belongs to.
#[derive(Debug, PartialEq, Eq, Clone, Copy, Structural)]
pub enum Color {
    White,
    Black,
}

/// The other side.
pub open spec fn other(c: Color) -> Color {
    match c {
        Color::White => Color::Black,
        Color::Black => Color::White,
    }
}

/// 0 for White, 1 for Black.
pub open spec fn color_ord(c: Color) -> int {
    match c {
        Color::White => 0,
        Color::Black => 1,
    }
}

impl Color {
    /// The other side.
    pub fn flip(&self) -> (c: Color)
        ensures
            c == other(*self),
            c != *self,
    {
        match self {
            Color::White => Color::Black,
            Color::Black => Color::White,
        }
    }

    /// 0 for White, 1 for Black.
    pub fn as_number(&self) -> (n: u64)
        ensures
            n == color_ord(*self),
    {
        match self {
            Color::White => 0,
            Color::Black => 1,
        }
    }
}

/// A piece: its kind and its colour.
#[derive(Debug, PartialEq, Eq, Clone, Copy, Structural)]
pub struct Piece {
    pub piece_type: PieceType,
    pub color: Color,
}

/// Position of a piece's bitboard: pawn, bishop, knight, rook, queen, king; white first.
pub open spec fn piece_ord(p: Piece) -> int {
    type_ord(p.piece_type) + 6 * color_ord(p.color)
}

/// The piece whose bitboard is at position `i` (0 to 11).
pub open spec fn piece_of_ord(i: int) -> Piece {
    Piece {
        piece_type: if i % 6 == 0 {
            PieceType::Pawn
        } else if i % 6 == 1 {
            PieceType::Bishop
        } else if i % 6 == 2 {
            PieceType::Knight
        } else if i % 6 == 3 {
            PieceType::Rook
        } else if i % 6 == 4 {
            PieceType::Queen
        } else {
            PieceType::King
        },
        color: if i < 6 { Color::White } else { Color::Black },
    }
}

/// The FEN letter of a piece: uppercase for White, lowercase for Black.
pub open spec fn fen_letter(p: Piece) -> char {
    match (p.piece_type, p.color) {
        (PieceType::Pawn, Color::White) => 'P',
        (PieceType::Pawn, Color::Black) => 'p',
        (PieceType::Knight, Color::White) => 'N',
        (PieceType::Knight, Color::Black) => 'n',
        (PieceType::Bishop, Color::White) => 'B',
        (PieceType::Bishop, Color::Black) => 'b',
        (PieceType::Rook, Color::White) => 'R',
        (PieceType::Rook, Color::Black) => 'r',
        (PieceType::Queen, Color::White) => 'Q',
        (PieceType::Queen, Color::Black) => 'q',
        (PieceType::King, Color::White) => 'K',
        (PieceType::King, Color::Black) => 'k',
    }
}

/// The piece written by a FEN letter, if the letter is one.
pub open spec fn piece_of_letter(c: char) -> Option<Piece> {
    if c == 'P' {
        Some(Piece { piece_type: PieceType::Pawn, color: Color::White })
    } else if c == 'B' {
        Some(Piece { piece_type: PieceType::Bishop, color: Color::White })
    } else if c == 'N' {
        Some(Piece { piece_type: PieceType::Knight, color: Color::White })
    } else if c == 'R' {
        Some(Piece { piece_type: PieceType::Rook, color: Color::White })
    } else if c == 'Q' {
        Some(Piece { piece_type: PieceType::Queen, color: Color::White })
    } else if c == 'K' {
        Some(Piece { piece_type: PieceType::King, color: Color::White })
    } else if c == 'p' {
        Some(Piece { piece_type: PieceType::Pawn, color: Color::Black })
    } else if c == 'b' {
        Some(Piece { piece_type: PieceType::Bishop, color: Color::Black })
    } else if c == 'n' {
        Some(Piece { piece_type: PieceType::Knight, color: Color::Black })
    } else if c == 'r' {
        Some(Piece { piece_type: PieceType::Rook, color: Color::Black })
    } else if c == 'q' {
        Some(Piece { piece_type: PieceType::Queen, color: Color::Black })
    } else if c == 'k' {
        Some(Piece { piece_type: PieceType::King, color: Color::Black })
    } else {
        None
    }
}

/// Letters and pieces correspond one to one, and the bitboard order is a bijection.
pub proof fn lemma_piece_letter(p: Piece)
    ensures
        piece_of_letter(fen_letter(p)) == Some(p),
        fen_letter(p) != '-',
        0 <= piece_ord(p) < 12,
        piece_of_ord(piece_ord(p)) == p,
{
}

/// Every letter that names a piece is that piece's letter.
pub proof fn lemma_letter_piece(c: char)
    ensures
        piece_of_letter(c) matches Some(p) ==> fen_letter(p) == c,
        piece_of_letter('-') is None,
{
}

/// Bitboard positions 0..12 name twelve distinct pieces.
pub proof fn lemma_piece_of_ord(i: int)
    requires
        0 <= i < 12,
    ensures
        piece_ord(piece_of_ord(i)) == i,
{
}

impl Piece {
    /// Builds a piece from its kind and colour.
    pub fn from(piece_type: &PieceType, color: &Color) -> (p: Piece)
        ensures
            p.piece_type == *piece_type,
            p.color == *color,
    {
        Piece { piece_type: *piece_type, color: *color }
    }

    /// Position of this piece's bitboard, 0 to 11.
    pub fn bitboard_index(&self) -> (i: usize)
        ensures
            i == piece_ord(*self),
            i < 12,
    {
        let t: usize = match self.piece_type {
            PieceType::Pawn => 0,
            PieceType::Bishop => 1,
            PieceType::Knight => 2,
            PieceType::Rook => 3,
            PieceType::Queen => 4,
            PieceType::King => 5,
        };
        match self.color {
            Color::White => t,
            Color::Black => t + 6,
        }
    }

    /// The FEN letter of the piece.
    pub fn symbol(&self) -> (c: char)
        ensures
            c == fen_letter(*self),
    {
        match (self.piece_type, self.color) {
            (PieceType::Pawn, Color::White) => 'P',
            (PieceType::Pawn, Color::Black) => 'p',
            (PieceType::Knight, Color::White) => 'N',
            (PieceType::Knight, Color::Black) => 'n',
            (PieceType::Bishop, Color::White) => 'B',
            (PieceType::Bishop, Color::Black) => 'b',
            (PieceType::Rook, Color::White) => 'R',
            (PieceType::Rook, Color::Black) => 'r',
            (PieceType::Queen, Color::White) => 'Q',
            (PieceType::Queen, Color::Black) => 'q',
            (PieceType::King, Color::White) => 'K',
            (PieceType::King, Color::Black) => 'k',
        }
    }

    /// The chess figurine of the piece.
    pub fn piece_symbol(&self) -> (c: char)
        ensures
            c == figurine(*self),
    {
        match (self.piece_type, self.color) {
            (PieceType::Pawn, Color::White) => '\u{2659}',
            (PieceType::Pawn, Color::Black) => '\u{265F}',
            (PieceType::Knight, Color::White) => '\u{2658}',
            (PieceType::Knight, Color::Black) => '\u{265E}',
            (PieceType::Bishop, Color::White) => '\u{2657}',
            (PieceType::Bishop, Color::Black) => '\u{265D}',
            (PieceType::Rook, Color::White) => '\u{2656}',
            (PieceType::Rook, Color::Black) => '\u{265C}',
            (PieceType::Queen, Color::White) => '\u{2655}',
            (PieceType::Queen, Color::Black) => '\u{265B}',
            (PieceType::King, Color::White) => '\u{2654}',
            (PieceType::King, Color::Black) => '\u{265A}',
        }
    }

    /// The piece written by a board character, if it is a piece letter.
    pub fn from_character(c: char) -> (r: Option<Piece>)
        ensures
            r == piece_of_letter(c),
    {
        get_piece_from_char(c)
    }
}

/// The figurine code point of a piece (U+2654 to U+265F).
pub open spec fn figurine(p: Piece) -> char {
    match (p.piece_type, p.color) {
        (PieceType::Pawn, Color::White) => '\u{2659}',
        (PieceType::Pawn, Color::Black) => '\u{265F}',
        (PieceType::Knight, Color::White) => '\u{2658}',
        (PieceType::Knight, Color::Black) => '\u{265E}',
        (PieceType::Bishop, Color::White) => '\u{2657}',
        (PieceType::Bishop, Color::Black) => '\u{265D}',
        (PieceType::Rook, Color::White) => '\u{2656}',
        (PieceType::Rook, Color::Black) => '\u{265C}',
        (PieceType::Queen, Color::White) => '\u{2655}',
        (PieceType::Queen, Color::Black) => '\u{265B}',
        (PieceType::King, Color::White) => '\u{2654}',
        (PieceType::King, Color::Black) => '\u{265A}',
    }
}


/// The pieces a pawn may promote to, in the order moves are generated.
pub open spec fn promotion_piece(k: int) -> PieceType {
    if k == 0 {
        PieceType::Bishop
    } else if k == 1 {
        PieceType::Queen
    } else if k == 2 {
        PieceType::Knight
    } else {
        PieceType::Rook
    }
}

/// The `k`-th promotion choice (bishop, queen, knight, rook).
pub fn promotion_pieces(k: usize) -> (t: PieceType)
    requires
        k < 4,
    ensures
        t == promotion_piece(k as int),
{
    if k == 0 {
        PieceType::Bishop
    } else if k == 1 {
        PieceType::Queen
    } else if k == 2 {
        PieceType::Knight
    } else {
        PieceType::Rook
    }
}

/// The position of a FEN piece letter in the bitboard order, or -1.
pub fn get_char_value(c: char) -> (v: i32)
    ensures
        piece_of_letter(c) matches Some(p) ==> v == piece_ord(p),
        piece_of_letter(c) is None ==> v == -1,
{
    match c {
        'P' => 0,
        'B' => 1,
        'N' => 2,
        'R' => 3,
        'Q' => 4,
        'K' => 5,
        'p' => 6,
        'b' => 7,
        'n' => 8,
        'r' => 9,
        'q' => 10,
        'k' => 11,
        _ => -1,
    }
}

/// The piece at a bitboard position (0 to 11).
pub fn piece_at_index(i: usize) -> (p: Piece)
    requires
        i < 12,
    ensures
        p == piece_of_ord(i as int),
        piece_ord(p) == i,
{
    let piece_type = match i % 6 {
        0 => PieceType::Pawn,
        1 => PieceType::Bishop,
        2 => PieceType::Knight,
        3 => PieceType::Rook,
        4 => PieceType::Queen,
        _ => PieceType::King,
    };
    let color = if i < 6 { Color::White } else { Color::Black };
    Piece { piece_type, color }
}

/// The piece written by a FEN letter, if the letter is one.
pub fn get_piece_from_char(piece: char) -> (r: Option<Piece>)
    ensures
        r == piece_of_letter(piece),
{
    let index = get_char_value(piece);
    if index < 0 {
        return None;
    }
    Some(piece_at_index(index as usize))
}

/// How a move changes the board.
#[derive(Debug, Clone, Copy, PartialEq, Eq, Structural)]
pub enum MoveType {
    Quiet,
    DoublePush(Option<FileRank>),
    Capture,
    Promotion(PieceType),
    CaptureWithPromotion(PieceType),
    CastleKingSide,
    CastleQueenSide,
}

/// A move of one piece from one square to another.
#[derive(Debug, Clone, Copy, PartialEq, Eq, Structural)]
pub struct PieceMove {
    pub piece: Piece,
    pub from: FileRank,
    pub target: FileRank,
    pub move_type: MoveType,
}

/// The UCI text of a move: both squares, then the promotion letter if any.
pub open spec fn uci_text(m: PieceMove) -> Seq<char> {
    match m.move_type {
        MoveType::Promotion(t) => m.from.name() + m.target.name() + seq![type_letter(t)],
        MoveType::CaptureWithPromotion(t) => m.from.name() + m.target.name() + seq![type_letter(t)],
        _ => m.from.name() + m.target.name(),
    }
}

impl PieceMove {
    /// The move in UCI notation, such as "e2e4" or "a7a8q".
    pub fn uci(&self) -> (s: String)
        ensures
            s@ == uci_text(*self),
    {
        let mut s = String::new();
        push_char(&mut s, self.from.file_letter());
        push_char(&mut s, self.from.rank_digit());
        push_char(&mut s, self.target.file_letter());
        push_char(&mut s, self.target.rank_digit());
        match self.move_type {
            MoveType::Promotion(t) => push_char(&mut s, t.get_symbol()),
            MoveType::CaptureWithPromotion(t) => push_char(&mut s, t.get_symbol()),
            _ => {},
        }
        proof {
            assert(s@ =~= uci_text(*self));
        }
        s
    }
}

/// White's castling rights, both sides.
pub const WHITE_CASTLING_RIGHTS_MASK: u64 = 0b1100;
/// Black's castling rights, both sides.
pub const BLACK_CASTLING_RIGHTS_MASK: u64 = 0b0011;
/// White may castle king side.
pub const WHITE_CASTLING_KING_MASK: u64 = 0b1000;
/// White may castle queen side.
pub const WHITE_CASTLING_QUEEN_MASK: u64 = 0b0100;
/// Black may castle king side.
pub const BLACK_CASTLING_KING_MASK: u64 = 0b0010;
/// Black may castle queen side.
pub const BLACK_CASTLING_QUEEN_MASK: u64 = 0b0001;

/// The castling-rights bit of one side of one colour.
pub open spec fn king_side_bit(c: Color) -> u64 {
    match c {
        Color::White => WHITE_CASTLING_KING_MASK,
        Color::Black => BLACK_CASTLING_KING_MASK,
    }
}

/// The queen-side castling-rights bit of a colour.
pub open spec fn queen_side_bit(c: Color) -> u64 {
    match c {
        Color::White => WHITE_CASTLING_QUEEN_MASK,
        Color::Black => BLACK_CASTLING_QUEEN_MASK,
    }
}

/// Facts about clearing castling-rights bits.
proof fn lemma_rights_facts(m: u64)
    by (bit_vector)
    ensures
        0b1100u64 | 0b0011u64 == 0b1111u64,
        !0b1100u64 == 0xffff_ffff_ffff_fff3u64,
        (m & 0xffff_ffff_ffff_fff3u64) & 0b0011 == m & 0b0011,
        (m & 0xffff_ffff_ffff_fff3u64) & 0b1100 == 0,
        m < 16 ==> (m & 0xffff_ffff_ffff_fff3u64) < 16,
        !0b0011u64 == 0xffff_ffff_ffff_fffcu64,
        (m & 0xffff_ffff_ffff_fffcu64) & 0b1100 == m & 0b1100,
        (m & 0xffff_ffff_ffff_fffcu64) & 0b0011 == 0,
        m < 16 ==> (m & 0xffff_ffff_ffff_fffcu64) < 16,
        m < 16 ==> (m & !0b1000u64) < 16,
        m < 16 ==> (m & !0b0010u64) < 16,
        m < 16 ==> (m & !0b0100u64) < 16,
        m < 16 ==> (m & !0b0001u64) < 16,
{
}

/// Castling rights as four bits: white king, white queen, black king, black queen side.
#[derive(Debug, Clone, Copy, PartialEq, Eq, Structural)]
pub struct Castling {
    pub mask: u64,
}

impl Castling {
    /// The rights are held in the low four bits.
    pub open spec fn wf(self) -> bool {
        self.mask < 16
    }

    /// Full rights for both colours.
    pub fn new() -> (c: Castling)
        ensures
            c.mask == 0b1111,
            c.wf(),
    {
        proof {
            lemma_rights_facts(0);
        }
        Castling { mask: WHITE_CASTLING_RIGHTS_MASK | BLACK_CASTLING_RIGHTS_MASK }
    }

    /// Rights given as a mask.
    pub fn from_mask(mask: u64) -> (c: Castling)
        ensures
            c.mask == mask,
    {
        Castling { mask }
    }

    /// Removes both of White's rights and keeps Black's.
    pub fn disable_white_castling_rights(&mut self)
        ensures
            final(self).mask == old(self).mask & 0xffff_ffff_ffff_fff3u64,
            final(self).mask & 0b0011 == old(self).mask & 0b0011,
            final(self).mask & 0b1100 == 0,
            old(self).wf() ==> final(self).wf(),
    {
        let m = self.mask;
        self.mask = m & !WHITE_CASTLING_RIGHTS_MASK;
        proof {
            lemma_rights_facts(m);
        }
    }

    /// Removes both of Black's rights and keeps White's.
    pub fn disable_black_castling_rights(&mut self)
        ensures
            final(self).mask == old(self).mask & 0xffff_ffff_ffff_fffcu64,
            final(self).mask & 0b1100 == old(self).mask & 0b1100,
            final(self).mask & 0b0011 == 0,
            old(self).wf() ==> final(self).wf(),
    {
        let m = self.mask;
        self.mask = m & !BLACK_CASTLING_RIGHTS_MASK;
        proof {
            lemma_rights_facts(m);
        }
    }

    /// Removes the king-side right of `color`.
    pub fn disable_king_side(&mut self, color: &Color)
        ensures
            final(self).mask == old(self).mask & !king_side_bit(*color),
            old(self).wf() ==> final(self).wf(),
    {
        let m = self.mask;
        match color {
            Color::White => {
                self.mask = m & !WHITE_CASTLING_KING_MASK;
                proof {
                    lemma_rights_facts(m);
                }
            },
            Color::Black => {
                self.mask = m & !BLACK_CASTLING_KING_MASK;
                proof {
                    lemma_rights_facts(m);
                }
            },
        }
    }

    /// Removes the queen-side right of `color`.
    pub fn disable_queen_side(&mut self, color: &Color)
        ensures
            final(self).mask == old(self).mask & !queen_side_bit(*color),
            old(self).wf() ==> final(self).wf(),
    {
        let m = self.mask;
        match color {
            Color::White => {
                self.mask = m & !WHITE_CASTLING_QUEEN_MASK;
                proof {
                    lemma_rights_facts(m);
                }
            },
            Color::Black => {
                self.mask = m & !BLACK_CASTLING_QUEEN_MASK;
                proof {
                    lemma_rights_facts(m);
                }
            },
        }
    }

    /// Whether `color` may still castle king side.
    pub fn get_king_side(&self, color: &Color) -> (b: bool)
        ensures
            b == (self.mask & king_side_bit(*color) != 0),
    {
        match color {
            Color::White => self.mask & WHITE_CASTLING_KING_MASK != 0,
            Color::Black => self.mask & BLACK_CASTLING_KING_MASK != 0,
        }
    }

    /// Whether `color` may still castle queen side.
    pub fn get_queen_side(&self, color: &Color) -> (b: bool)
        ensures
            b == (self.mask & queen_side_bit(*color) != 0),
    {
        match color {
            Color::White => self.mask & WHITE_CASTLING_QUEEN_MASK != 0,
            Color::Black => self.mask & BLACK_CASTLING_QUEEN_MASK != 0,
        }
    }
}

/// A move counter (half-move clock or full-move number).
#[derive(Clone, Copy, Debug, PartialEq, Eq, Structural)]
pub struct Clock(pub u8);

/// Value of a digit character.
pub open spec fn digit_value(c: char) -> int {
    c as int - 48
}

/// Whether every character is an ASCII digit.
pub open spec fn all_digits(s: Seq<char>) -> bool {
    forall|i: int| 0 <= i < s.len() ==> '0' <= #[trigger] s[i] <= '9'
}

/// The number written by a string of decimal digits.
pub open spec fn decimal_value(s: Seq<char>) -> int
    decreases s.len(),
{
    if s.len() == 0 {
        0
    } else {
        decimal_value(s.drop_last()) * 10 + digit_value(s.last())
    }
}

/// The `u8` that the text denotes as Rust's integer parser reads it: an
/// optional `+`, then one or more decimal digits, at most 255.
pub open spec fn parse_u8(s: Seq<char>) -> Option<u8> {
    let d = if s.len() > 0 && s[0] == '+' { s.drop_first() } else { s };
    if d.len() > 0 && all_digits(d) && decimal_value(d) <= 255 {
        Some(decimal_value(d) as u8)
    } else {
        None
    }
}

/// Decimal digits of a number, without leading zeros ("0" for zero).
pub open spec fn decimal_text(n: nat) -> Seq<char>
    decreases n,
{
    if n < 10 {
        seq![(n + 48) as char]
    } else {
        decimal_text(n / 10).push(((n % 10) + 48) as char)
    }
}

/// Reads a `u8` from text: an optional `+` and decimal digits.
pub fn parse_u8_text(value: &str) -> (r: Option<u8>)
    ensures
        r == parse_u8(value@),
{
    let n = value.unicode_len();
    let mut start: usize = 0;
    if n > 0 && value.get_char(0) == '+' {
        start = 1;
    }
    let ghost d = if value@.len() > 0 && value@[0] == '+' { value@.drop_first() } else { value@ };
    proof {
        assert(d =~= value@.subrange(start as int, n as int));
    }
    if start >= n {
        return None;
    }
    let mut acc: u32 = 0;
    let mut i = start;
    while i < n
        invariant
            start <= i <= n,
            n == value@.len(),
            d == value@.subrange(start as int, n as int),
            d == (if value@.len() > 0 && value@[0] == '+' { value@.drop_first() } else { value@ }),
            all_digits(value@.subrange(start as int, i as int)),
            acc == decimal_value(value@.subrange(start as int, i as int)),
            acc <= 255,
        decreases n - i,
    {
        let c = value.get_char(i);
        proof {
            assert(value@.subrange(start as int, i + 1).drop_last() =~= value@.subrange(start as int, i as int));
        }
        if c < '0' || c > '9' {
            proof {
                assert(d[i - start] == c);
                assert(!all_digits(d));
            }
            return None;
        }
        let v = acc * 10 + (c as u32 - 48);
        if v > 255 {
            proof {
                if all_digits(d) {
                lemma_decimal_grows(value@.subrange(start as int, n as int), (i - start + 1) as nat);
                }
                assert(value@.subrange(start as int, n as int).subrange(0, i - start + 1) =~= value@.subrange(start as int, i + 1));
                assert forall|k: int| 0 <= k < i + 1 - start implies '0' <= #[trigger] value@.subrange(start as int, i + 1)[k] <= '9' by {
                    if k < i - start {
                        assert(value@.subrange(start as int, i + 1)[k] == value@.subrange(start as int, i as int)[k]);
                    }
                }
            }
            return None;
        }
        acc = v;
        proof {
            assert forall|k: int| 0 <= k < i + 1 - start implies '0' <= #[trigger] value@.subrange(start as int, i + 1)[k] <= '9' by {
                if k < i - start {
                    assert(value@.subrange(start as int, i + 1)[k] == value@.subrange(start as int, i as int)[k]);
                }
            }
        }
        i = i + 1;
    }
    proof {
        assert(value@.subrange(start as int, i as int) =~= d);
    }
    Some(acc as u8)
}

/// A digit string's value is at least that of any of its prefixes.
pub proof fn lemma_decimal_grows(s: Seq<char>, k: nat)
    requires
        k <= s.len(),
        all_digits(s),
    ensures
        decimal_value(s) >= decimal_value(s.subrange(0, k as int)),
        decimal_value(s.subrange(0, k as int)) >= 0,
    decreases s.len(),
{
    if s.len() == 0 {
        assert(s.subrange(0, 0) =~= s);
    } else if k == s.len() {
        assert(s.subrange(0, k as int) =~= s);
        lemma_decimal_nonneg(s);
    } else {
        let t = s.drop_last();
        assert forall|i: int| 0 <= i < t.len() implies '0' <= #[trigger] t[i] <= '9' by {
            assert(t[i] == s[i]);
        }
        lemma_decimal_grows(t, k);
        assert(t.subrange(0, k as int) =~= s.subrange(0, k as int));
        lemma_decimal_nonneg(t);
        assert('0' <= s[s.len() - 1] <= '9');
    }
}

/// Digit strings have nonnegative values.
pub proof fn lemma_decimal_nonneg(s: Seq<char>)
    requires
        all_digits(s),
    ensures
        decimal_value(s) >= 0,
    decreases s.len(),
{
    if s.len() > 0 {
        let t = s.drop_last();
        assert forall|i: int| 0 <= i < t.len() implies '0' <= #[trigger] t[i] <= '9' by {
            assert(t[i] == s[i]);
        }
        lemma_decimal_nonneg(t);
        assert('0' <= s[s.len() - 1] <= '9');
    }
}

/// Writes a number in decimal.
pub fn u8_to_text(n: u8) -> (s: String)
    ensures
        s@ == decimal_text(n as nat),
{
    let mut s = String::new();
    if n >= 100 {
        push_char(&mut s, digit_char(n / 100));
        push_char(&mut s, digit_char((n / 10) % 10));
        push_char(&mut s, digit_char(n % 10));
        proof {
            assert(decimal_text((n / 100) as nat) == seq![((n / 100) + 48) as char]);
            assert(decimal_text((n / 10) as nat) == decimal_text((n / 100) as nat).push((((n / 10) % 10) + 48) as char));
            assert(s@ =~= decimal_text(n as nat));
        }
    } else if n >= 10 {
        push_char(&mut s, digit_char(n / 10));
        push_char(&mut s, digit_char(n % 10));
        proof {
            assert(decimal_text((n / 10) as nat) == seq![((n / 10) + 48) as char]);
            assert(s@ =~= decimal_text(n as nat));
        }
    } else {
        push_char(&mut s, digit_char(n));
        proof {
            assert(s@ =~= decimal_text(n as nat));
        }
    }
    s
}

/// The character of a decimal digit.
pub fn digit_char(d: u8) -> (c: char)
    requires
        d < 10,
    ensures
        c == (d + 48) as char,
{
    match d {
        0 => '0',
        1 => '1',
        2 => '2',
        3 => '3',
        4 => '4',
        5 => '5',
        6 => '6',
        7 => '7',
        8 => '8',
        _ => '9',
    }
}

impl Clock {
    /// The counter's value.
    pub open spec fn value(self) -> u8 {
        self.0
    }

    /// A counter at zero.
    pub fn new() -> (c: Clock)
        ensures
            c.0 == 0,
    {
        Clock(0)
    }

    /// A counter at the given value.
    pub fn from(value: u8) -> (c: Clock)
        ensures
            c.0 == value,
    {
        Clock(value)
    }

    /// Adds one to the counter.
    pub fn tick(&mut self)
        requires
            old(self).0 < 255,
        ensures
            final(self).0 == old(self).0 + 1,
    {
        self.0 = self.0 + 1;
    }

    /// Reads a counter from text, 0 where the text is no `u8`.
    pub fn from_string(value: &str) -> (c: Clock)
        ensures
            parse_u8(value@) matches Some(v) ==> c.0 == v,
            parse_u8(value@) is None ==> c.0 == 0,
    {
        match parse_u8_text(value) {
            Some(v) => Clock(v),
            None => Clock(0),
        }
    }

    /// Sets the counter to zero.
    pub fn reset(&mut self)
        ensures
            final(self).0 == 0,
    {
        self.0 = 0;
    }

    /// The counter's value.
    pub fn counter(&self) -> (v: u8)
        ensures
            v == self.0,
    {
        self.0
    }

    /// The counter in decimal.
    pub fn to_text(&self) -> (s: String)
        ensures
            s@ == decimal_text(self.0 as nat),
    {
        u8_to_text(self.0)
    }
}

/// A token of algebraic chess notation.
#[derive(Debug, Clone, Copy, PartialEq, Eq, Structural)]
pub enum AlgebraicNotationToken {
    Piece(char),
    File(char),
    Rank(char),
    Capture,
    Check,
    Checkmate,
    CastleKingSide,
    CastleQueenSide,
    Promotion(char),
    MoveIndicator,
}

/// The six piece bitboards of one colour.
#[derive(Debug, Clone, Copy)]
pub struct PieceCollection {
    pub rooks: u64,
    pub bishops: u64,
    pub queens: u64,
    pub king: u64,
    pub knights: u64,
    pub pawns: u64,
}

/// Everything move generation needs to know about one side.
#[derive(Debug, Clone, Copy)]
pub struct BoardSide {
    pub rooks: u64,
    pub bishops: u64,
    pub queens: u64,
    pub king: u64,
    pub knights: u64,
    pub pawns: u64,
    pub opposite_rooks: u64,
    pub opposite_bishops: u64,
    pub opposite_queens: u64,
    pub opposite_king: u64,
    pub opposite_knights: u64,
    pub opposite_pawns: u64,
    pub opposite_attacks: u64,
    pub friendly_blockers: u64,
    pub opposite_blockers: u64,
    pub color: Color,
    pub king_mask_castling: u64,
    pub queen_mask_castling: u64,
    pub castling_queen_side: bool,
    pub castling_king_side: bool,
}

/// A piece standing on a square.
#[derive(Debug, Clone, Copy)]
pub struct PieceLocation {
    pub piece: PieceType,
    pub file_rank: FileRank,
    pub color: Color,
}

/// A move between two square indices.
#[derive(Clone, Copy, Debug)]
pub struct Move {
    pub from: u8,
    pub to: u8,
}

/// The name of square `i` with an uppercase file letter, such as "E4".
pub open spec fn upper_name(i: int) -> Seq<char> {
    seq![(65 + crate::square::square_at(i).col()) as char, crate::square::square_at(i).rank_char()]
}

/// The text of a move: "(from: A8, to: B8)".
pub open spec fn move_text(m: Move) -> Seq<char> {
    seq!['(', 'f', 'r', 'o', 'm', ':', ' '] + upper_name(m.from as int) + seq![',', ' ', 't', 'o', ':', ' ']
        + upper_name(m.to as int) + seq![')']
}

/// The text of the first `k` moves of a list, each followed by a space and a line break.
pub open spec fn moves_lines(l: Seq<Move>, k: int) -> Seq<char>
    decreases k,
{
    if k <= 0 {
        Seq::empty()
    } else {
        moves_lines(l, k - 1) + move_text(l[k - 1]) + seq![' ', '\n']
    }
}

/// Appends the uppercase name of a square.
fn push_upper_name(s: &mut String, index: u8)
    requires
        index < 64,
    ensures
        final(s)@ == old(s)@ + upper_name(index as int),
{
    let fr = match FileRank::get_file_rank(index) {
        Some(fr) => fr,
        None => FileRank::A8,
    };
    let f = fr.file();
    let upper = match f {
        0 => 'A',
        1 => 'B',
        2 => 'C',
        3 => 'D',
        4 => 'E',
        5 => 'F',
        6 => 'G',
        _ => 'H',
    };
    push_char(s, upper);
    push_char(s, fr.rank_digit());
    proof {
        assert(s@ =~= old(s)@ + upper_name(index as int));
    }
}

impl Move {
    /// The move as "(from: A8, to: B8)".
    pub fn to_text(&self) -> (t: String)
        requires
            self.from < 64,
            self.to < 64,
        ensures
            t@ == move_text(*self),
    {
        let mut t = String::new();
        push_char(&mut t, '(');
        push_char(&mut t, 'f');
        push_char(&mut t, 'r');
        push_char(&mut t, 'o');
        push_char(&mut t, 'm');
        push_char(&mut t, ':');
        push_char(&mut t, ' ');
        push_upper_name(&mut t, self.from);
        push_char(&mut t, ',');
        push_char(&mut t, ' ');
        push_char(&mut t, 't');
        push_char(&mut t, 'o');
        push_char(&mut t, ':');
        push_char(&mut t, ' ');
        push_upper_name(&mut t, self.to);
        push_char(&mut t, ')');
        proof {
            assert(t@ =~= move_text(*self));
        }
        t
    }
}

/// A list of moves.
pub struct Moves(pub Vec<Move>);

impl Moves {
    /// "Moves:" on a line of its own, then each move on its own line followed by a space.
    pub fn to_text(&self) -> (t: String)
        requires
            forall|k: int| 0 <= k < self.0@.len() ==> (#[trigger] self.0@[k]).from < 64 && self.0@[k].to < 64,
        ensures
            t@ == seq!['M', 'o', 'v', 'e', 's', ':', '\n'] + moves_lines(self.0@, self.0@.len() as int),
    {
        let mut t = String::new();
        push_char(&mut t, 'M');
        push_char(&mut t, 'o');
        push_char(&mut t, 'v');
        push_char(&mut t, 'e');
        push_char(&mut t, 's');
        push_char(&mut t, ':');
        push_char(&mut t, '\n');
        let ghost head = t@;
        proof {
            assert(head =~= seq!['M', 'o', 'v', 'e', 's', ':', '\n']);
            assert(t@ =~= head + moves_lines(self.0@, 0));
        }
        let n = self.0.len();
        let mut i: usize = 0;
        while i < n
            invariant
                i <= n,
                n == self.0@.len(),
                forall|k: int| 0 <= k < self.0@.len() ==> (#[trigger] self.0@[k]).from < 64 && self.0@[k].to < 64,
                head == seq!['M', 'o', 'v', 'e', 's', ':', '\n'],
                t@ == head + moves_lines(self.0@, i as int),
            decreases n - i,
        {
            let m = self.0[i];
            let line = m.to_text();
            let ls = line.as_str();
            let len = ls.unicode_len();
            let ghost before = t@;
            let mut j: usize = 0;
            while j < len
                invariant
                    j <= len,
                    len == line@.len(),
                    ls@ == line@,
                    t@ == before + line@.take(j as int),
                decreases len - j,
            {
                push_char(&mut t, ls.get_char(j));
                proof {
                    assert(line@.take(j + 1) =~= line@.take(j as int).push(line@[j as int]));
                }
                j = j + 1;
            }
            push_char(&mut t, ' ');
            push_char(&mut t, '\n');
            proof {
                assert(line@.take(len as int) =~= line@);
                assert(t@ =~= head + moves_lines(self.0@, i + 1));
            }
            i = i + 1;
        }
        t
    }
}

} // verus!
