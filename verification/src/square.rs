//! Board squares and the square/rank/file masks.
use vstd::prelude::*;
use vstd::std_specs::bits::{u64_trailing_zeros, axiom_u64_trailing_zeros};
use vstd::string::StrSliceExecFns;
use crate::bits::{bit_at, single, lemma_single};

verus! {

/// Rank 8 (the top row as seen by White; squares 0..8).
pub const RANK_8: u64 = 0xFF;
/// Rank 7.
pub const RANK_7: u64 = 0xFF00;
/// Rank 6.
pub const RANK_6: u64 = 0xFF0000;
/// Rank 5.
pub const RANK_5: u64 = 0xFF000000;
/// Rank 4.
pub const RANK_4: u64 = 0xFF00000000;
/// Rank 3.
pub const RANK_3: u64 = 0xFF0000000000;
/// Rank 2.
pub const RANK_2: u64 = 0xFF000000000000;
/// Rank 1.
pub const RANK_1: u64 = 0xFF00000000000000;
/// Ranks 1 and 2.
pub const RANK_1_2: u64 = 0xFFFF000000000000;
/// Ranks 7 and 8.
pub const RANK_7_8: u64 = 0xFFFF;
/// Everything but rank 1.
pub const NOT_RANK_1: u64 = 0x00FFFFFFFFFFFFFF;
/// Everything but ranks 1 and 2.
pub const NOT_RANK_1_2: u64 = 0x0000FFFFFFFFFFFF;
/// Everything but rank 8.
pub const NOT_RANK_8: u64 = 0xFFFFFFFFFFFFFF00;
/// Everything but ranks 7 and 8.
pub const NOT_RANK_7_8: u64 = 0xFFFFFFFFFFFF0000;
/// Everything but the a-file.
pub const FILE_NOT_A: u64 = 18374403900871474942;
/// Everything but the b-file.
pub const FILE_NOT_B: u64 = 18302063728033398269;
/// Everything but the a- and b-files.
pub const FILE_NOT_AB: u64 = 18229723555195321596;
/// Everything but the h-file.
pub const FILE_NOT_H: u64 = 9187201950435737471;
/// Everything but the g-file.
pub const FILE_NOT_G: u64 = 13816973012072644543;
/// Everything but the g- and h-files.
pub const FILE_NOT_GH: u64 = 4557430888798830399;
/// The a-file.
pub const FILE_A: u64 = 72340172838076673;
/// The h-file.
pub const FILE_H: u64 = 9259542123273814144;
/// Squares the king crosses when Black castles king side (e8, f8, g8).
pub const BLACK_KING_CASTLE_BOARD_MASK: u64 = 0x70;
/// Squares the king crosses when Black castles queen side (c8, d8, e8).
pub const BLACK_QUEEN_CASTLE_BOARD_MASK: u64 = 0x1C;
/// Squares the king crosses when White castles king side (e1, f1, g1).
pub const WHITE_KING_CASTLE_BOARD_MASK: u64 = 0x7000000000000000;
/// Squares the king crosses when White castles queen side (c1, d1, e1).
pub const WHITE_QUEEN_CASTLE_BOARD_MASK: u64 = 0x1C00000000000000;

/// A square of the board, numbered 0 (a8) to 63 (h1), row by row.
#[derive(Clone, Copy, Debug, PartialEq, Eq, Structural)]
pub enum FileRank {
    A8, B8, C8, D8, E8, F8, G8, H8,
    A7, B7, C7, D7, E7, F7, G7, H7,
    A6, B6, C6, D6, E6, F6, G6, H6,
    A5, B5, C5, D5, E5, F5, G5, H5,
    A4, B4, C4, D4, E4, F4, G4, H4,
    A3, B3, C3, D3, E3, F3, G3, H3,
    A2, B2, C2, D2, E2, F2, G2, H2,
    A1, B1, C1, D1, E1, F1, G1, H1
}

/// The square with index `i` (0 = a8, 63 = h1).
pub open spec fn square_at(i: int) -> FileRank {
    match i as u8 {
        0 => FileRank::A8,
        1 => FileRank::B8,
        2 => FileRank::C8,
        3 => FileRank::D8,
        4 => FileRank::E8,
        5 => FileRank::F8,
        6 => FileRank::G8,
        7 => FileRank::H8,
        8 => FileRank::A7,
        9 => FileRank::B7,
        10 => FileRank::C7,
        11 => FileRank::D7,
        12 => FileRank::E7,
        13 => FileRank::F7,
        14 => FileRank::G7,
        15 => FileRank::H7,
        16 => FileRank::A6,
        17 => FileRank::B6,
        18 => FileRank::C6,
        19 => FileRank::D6,
        20 => FileRank::E6,
        21 => FileRank::F6,
        22 => FileRank::G6,
        23 => FileRank::H6,
        24 => FileRank::A5,
        25 => FileRank::B5,
        26 => FileRank::C5,
        27 => FileRank::D5,
        28 => FileRank::E5,
        29 => FileRank::F5,
        30 => FileRank::G5,
        31 => FileRank::H5,
        32 => FileRank::A4,
        33 => FileRank::B4,
        34 => FileRank::C4,
        35 => FileRank::D4,
        36 => FileRank::E4,
        37 => FileRank::F4,
        38 => FileRank::G4,
        39 => FileRank::H4,
        40 => FileRank::A3,
        41 => FileRank::B3,
        42 => FileRank::C3,
        43 => FileRank::D3,
        44 => FileRank::E3,
        45 => FileRank::F3,
        46 => FileRank::G3,
        47 => FileRank::H3,
        48 => FileRank::A2,
        49 => FileRank::B2,
        50 => FileRank::C2,
        51 => FileRank::D2,
        52 => FileRank::E2,
        53 => FileRank::F2,
        54 => FileRank::G2,
        55 => FileRank::H2,
        56 => FileRank::A1,
        57 => FileRank::B1,
        58 => FileRank::C1,
        59 => FileRank::D1,
        60 => FileRank::E1,
        61 => FileRank::F1,
        62 => FileRank::G1,
        63 => FileRank::H1,
        _ => FileRank::H1,
    }
}

impl FileRank {
    /// Index of the square, 0 (a8) to 63 (h1).
    pub open spec fn idx(self) -> int {
        match self {
            FileRank::A8 => 0,
            FileRank::B8 => 1,
            FileRank::C8 => 2,
            FileRank::D8 => 3,
            FileRank::E8 => 4,
            FileRank::F8 => 5,
            FileRank::G8 => 6,
            FileRank::H8 => 7,
            FileRank::A7 => 8,
            FileRank::B7 => 9,
            FileRank::C7 => 10,
            FileRank::D7 => 11,
            FileRank::E7 => 12,
            FileRank::F7 => 13,
            FileRank::G7 => 14,
            FileRank::H7 => 15,
            FileRank::A6 => 16,
            FileRank::B6 => 17,
            FileRank::C6 => 18,
            FileRank::D6 => 19,
            FileRank::E6 => 20,
            FileRank::F6 => 21,
            FileRank::G6 => 22,
            FileRank::H6 => 23,
            FileRank::A5 => 24,
            FileRank::B5 => 25,
            FileRank::C5 => 26,
            FileRank::D5 => 27,
            FileRank::E5 => 28,
            FileRank::F5 => 29,
            FileRank::G5 => 30,
            FileRank::H5 => 31,
            FileRank::A4 => 32,
            FileRank::B4 => 33,
            FileRank::C4 => 34,
            FileRank::D4 => 35,
            FileRank::E4 => 36,
            FileRank::F4 => 37,
            FileRank::G4 => 38,
            FileRank::H4 => 39,
            FileRank::A3 => 40,
            FileRank::B3 => 41,
            FileRank::C3 => 42,
            FileRank::D3 => 43,
            FileRank::E3 => 44,
            FileRank::F3 => 45,
            FileRank::G3 => 46,
            FileRank::H3 => 47,
            FileRank::A2 => 48,
            FileRank::B2 => 49,
            FileRank::C2 => 50,
            FileRank::D2 => 51,
            FileRank::E2 => 52,
            FileRank::F2 => 53,
            FileRank::G2 => 54,
            FileRank::H2 => 55,
            FileRank::A1 => 56,
            FileRank::B1 => 57,
            FileRank::C1 => 58,
            FileRank::D1 => 59,
            FileRank::E1 => 60,
            FileRank::F1 => 61,
            FileRank::G1 => 62,
            FileRank::H1 => 63,
        }
    }

    /// Row from the top (0 = rank 8, 7 = rank 1).
    pub open spec fn row(self) -> int {
        self.idx() / 8
    }

    /// Column from the left (0 = file a, 7 = file h).
    pub open spec fn col(self) -> int {
        self.idx() % 8
    }

    /// The file letter, 'a' to 'h'.
    pub open spec fn file_char(self) -> char {
        (97 + self.col()) as char
    }

    /// The rank digit, '8' for the top row down to '1'.
    pub open spec fn rank_char(self) -> char {
        (56 - self.row()) as char
    }

    /// The coordinate name, such as "e4".
    pub open spec fn name(self) -> Seq<char> {
        seq![self.file_char(), self.rank_char()]
    }

    /// Squares and indices correspond one to one.
    pub proof fn lemma_idx(self)
        ensures
            0 <= self.idx() < 64,
            square_at(self.idx()) == self,
    {
    }

    /// Index of the square.
    pub fn index(self) -> (r: usize)
        ensures
            r == self.idx(),
            r < 64,
    {
        match self {
            FileRank::A8 => 0,
            FileRank::B8 => 1,
            FileRank::C8 => 2,
            FileRank::D8 => 3,
            FileRank::E8 => 4,
            FileRank::F8 => 5,
            FileRank::G8 => 6,
            FileRank::H8 => 7,
            FileRank::A7 => 8,
            FileRank::B7 => 9,
            FileRank::C7 => 10,
            FileRank::D7 => 11,
            FileRank::E7 => 12,
            FileRank::F7 => 13,
            FileRank::G7 => 14,
            FileRank::H7 => 15,
            FileRank::A6 => 16,
            FileRank::B6 => 17,
            FileRank::C6 => 18,
            FileRank::D6 => 19,
            FileRank::E6 => 20,
            FileRank::F6 => 21,
            FileRank::G6 => 22,
            FileRank::H6 => 23,
            FileRank::A5 => 24,
            FileRank::B5 => 25,
            FileRank::C5 => 26,
            FileRank::D5 => 27,
            FileRank::E5 => 28,
            FileRank::F5 => 29,
            FileRank::G5 => 30,
            FileRank::H5 => 31,
            FileRank::A4 => 32,
            FileRank::B4 => 33,
            FileRank::C4 => 34,
            FileRank::D4 => 35,
            FileRank::E4 => 36,
            FileRank::F4 => 37,
            FileRank::G4 => 38,
            FileRank::H4 => 39,
            FileRank::A3 => 40,
            FileRank::B3 => 41,
            FileRank::C3 => 42,
            FileRank::D3 => 43,
            FileRank::E3 => 44,
            FileRank::F3 => 45,
            FileRank::G3 => 46,
            FileRank::H3 => 47,
            FileRank::A2 => 48,
            FileRank::B2 => 49,
            FileRank::C2 => 50,
            FileRank::D2 => 51,
            FileRank::E2 => 52,
            FileRank::F2 => 53,
            FileRank::G2 => 54,
            FileRank::H2 => 55,
            FileRank::A1 => 56,
            FileRank::B1 => 57,
            FileRank::C1 => 58,
            FileRank::D1 => 59,
            FileRank::E1 => 60,
            FileRank::F1 => 61,
            FileRank::G1 => 62,
            FileRank::H1 => 63,
        }
    }

    /// Row from the top (0 is rank 8).
    pub fn rank(self) -> (r: u8)
        ensures
            r == self.row(),
            r < 8,
    {
        (self.index() / 8) as u8
    }

    /// Column from the left (0 is file a).
    pub fn file(self) -> (r: u8)
        ensures
            r == self.col(),
            r < 8,
    {
        (self.index() % 8) as u8
    }

    /// The single-bit mask of the square.
    pub fn mask(self) -> (r: u64)
        ensures
            r == single(self.idx()),
            forall|k: int| 0 <= k < 64 ==> bit_at(r, k) == (k == self.idx()),
            r != 0,
    {
        let i = self.index();
        proof {
            assert forall|k: int| 0 <= k < 64 implies bit_at(single(self.idx()), k) == (k == self.idx()) by {
                lemma_single(self.idx(), k);
            }
            lemma_single(self.idx(), 0);
        }
        1u64 << i
    }

    /// The square of the given index, if it is on the board.
    pub fn get_file_rank(value: u8) -> (r: Option<FileRank>)
        ensures
            value < 64 ==> r == Some(square_at(value as int)),
            value >= 64 ==> r is None,
            r matches Some(fr) ==> fr.idx() == value,
    {
        match value {
            0 => Some(FileRank::A8),
            1 => Some(FileRank::B8),
            2 => Some(FileRank::C8),
            3 => Some(FileRank::D8),
            4 => Some(FileRank::E8),
            5 => Some(FileRank::F8),
            6 => Some(FileRank::G8),
            7 => Some(FileRank::H8),
            8 => Some(FileRank::A7),
            9 => Some(FileRank::B7),
            10 => Some(FileRank::C7),
            11 => Some(FileRank::D7),
            12 => Some(FileRank::E7),
            13 => Some(FileRank::F7),
            14 => Some(FileRank::G7),
            15 => Some(FileRank::H7),
            16 => Some(FileRank::A6),
            17 => Some(FileRank::B6),
            18 => Some(FileRank::C6),
            19 => Some(FileRank::D6),
            20 => Some(FileRank::E6),
            21 => Some(FileRank::F6),
            22 => Some(FileRank::G6),
            23 => Some(FileRank::H6),
            24 => Some(FileRank::A5),
            25 => Some(FileRank::B5),
            26 => Some(FileRank::C5),
            27 => Some(FileRank::D5),
            28 => Some(FileRank::E5),
            29 => Some(FileRank::F5),
            30 => Some(FileRank::G5),
            31 => Some(FileRank::H5),
            32 => Some(FileRank::A4),
            33 => Some(FileRank::B4),
            34 => Some(FileRank::C4),
            35 => Some(FileRank::D4),
            36 => Some(FileRank::E4),
            37 => Some(FileRank::F4),
            38 => Some(FileRank::G4),
            39 => Some(FileRank::H4),
            40 => Some(FileRank::A3),
            41 => Some(FileRank::B3),
            42 => Some(FileRank::C3),
            43 => Some(FileRank::D3),
            44 => Some(FileRank::E3),
            45 => Some(FileRank::F3),
            46 => Some(FileRank::G3),
            47 => Some(FileRank::H3),
            48 => Some(FileRank::A2),
            49 => Some(FileRank::B2),
            50 => Some(FileRank::C2),
            51 => Some(FileRank::D2),
            52 => Some(FileRank::E2),
            53 => Some(FileRank::F2),
            54 => Some(FileRank::G2),
            55 => Some(FileRank::H2),
            56 => Some(FileRank::A1),
            57 => Some(FileRank::B1),
            58 => Some(FileRank::C1),
            59 => Some(FileRank::D1),
            60 => Some(FileRank::E1),
            61 => Some(FileRank::F1),
            62 => Some(FileRank::G1),
            63 => Some(FileRank::H1),
            _ => None,
        }
    }

    /// The square of the lowest set bit of `mask`, if any.
    pub fn get_from_mask(mask: u64) -> (r: Option<FileRank>)
        ensures
            mask == 0 ==> r is None,
            mask != 0 ==> r == Some(square_at(u64_trailing_zeros(mask) as int)),
            r matches Some(fr) ==> bit_at(mask, fr.idx()) && forall|j: int| 0 <= j < fr.idx() ==> !bit_at(mask, j),
    {
        proof {
            axiom_u64_trailing_zeros(mask);
            if mask != 0 {
                crate::bits::lemma_lowest_bit(mask);
            }
        }
        let tz = mask.trailing_zeros();
        FileRank::get_file_rank(tz as u8)
    }

    /// All squares in board order, a8 first and h1 last.
    pub fn iter() -> (r: Vec<FileRank>)
        ensures
            r@.len() == 64,
            forall|i: int| 0 <= i < 64 ==> #[trigger] r@[i] == square_at(i),
    {
        let mut r: Vec<FileRank> = Vec::new();
        let mut i: u8 = 0;
        while i < 64
            invariant
                i <= 64,
                r@.len() == i,
                forall|k: int| 0 <= k < i ==> #[trigger] r@[k] == square_at(k),
            decreases 64 - i,
        {
            let fr = FileRank::get_file_rank(i);
            match fr {
                Some(f) => r.push(f),
                None => {}
            }
            i = i + 1;
        }
        r
    }

    /// All squares numbered from a1, rank by rank: a1 to h1, then a2 to h2, up to h8
    /// (the order the record boards use).
    pub fn iterator() -> (r: Vec<FileRank>)
        ensures
            r@.len() == 64,
            forall|i: int| 0 <= i < 64 ==> #[trigger] r@[i] == from_a1(i),
    {
        let mut r: Vec<FileRank> = Vec::new();
        let mut i: u8 = 0;
        while i < 64
            invariant
                i <= 64,
                r@.len() == i,
                forall|k: int| 0 <= k < i ==> #[trigger] r@[k] == from_a1(k),
            decreases 64 - i,
        {
            let n: u8 = (7 - i / 8) * 8 + i % 8;
            match FileRank::get_file_rank(n) {
                Some(f) => r.push(f),
                None => {
                    proof {
                        assert(false);
                    }
                },
            }
            i = i + 1;
        }
        r
    }

    /// The square's number counted from a1 (see `a1_number`).
    pub fn a1_index(self) -> (r: u8)
        ensures
            r == a1_number(self),
            r < 64,
    {
        (7 - self.rank()) * 8 + self.file()
    }

    /// The file letter of the square.
    pub fn file_letter(self) -> (c: char)
        ensures
            c == self.file_char(),
    {
        let f = self.file();
        match f {
            0 => 'a',
            1 => 'b',
            2 => 'c',
            3 => 'd',
            4 => 'e',
            5 => 'f',
            6 => 'g',
            _ => 'h',
        }
    }

    /// The rank digit of the square.
    pub fn rank_digit(self) -> (c: char)
        ensures
            c == self.rank_char(),
    {
        let r = self.rank();
        match r {
            0 => '8',
            1 => '7',
            2 => '6',
            3 => '5',
            4 => '4',
            5 => '3',
            6 => '2',
            _ => '1',
        }
    }

    /// The square named by a file letter and a rank digit.
    pub fn from_chars(f: char, r: char) -> (res: Option<FileRank>)
        ensures
            res matches Some(fr) ==> fr.file_char() == f && fr.rank_char() == r,
            res is None ==> forall|i: int| 0 <= i < 64 ==> !(#[trigger] square_at(i).file_char() == f && square_at(i).rank_char() == r),
    {
        if 'a' <= f && f <= 'h' && '1' <= r && r <= '8' {
            let col = (f as u32 - 97) as u8;
            let row = (56 - r as u32) as u8;
            let res = FileRank::get_file_rank(row * 8 + col);
            proof {
                let fr = square_at(row * 8 + col);
                assert(fr.idx() == row * 8 + col);
                assert(fr.col() == col);
                assert(fr.row() == row);
            }
            res
        } else {
            proof {
                assert forall|i: int| 0 <= i < 64 implies !(#[trigger] square_at(i).file_char() == f && square_at(i).rank_char() == r) by {
                    let fr = square_at(i);
                    assert(fr.idx() == i);
                }
            }
            None
        }
    }

    /// The square named by a two-character coordinate such as "e3".
    pub fn from_string(value: &str) -> (res: Option<FileRank>)
        ensures
            res matches Some(fr) ==> value@ == fr.name(),
            res is None ==> forall|i: int| 0 <= i < 64 ==> value@ != #[trigger] square_at(i).name(),
    {
        let n = value.unicode_len();
        if n != 2 {
            proof {
                assert forall|i: int| 0 <= i < 64 implies value@ != #[trigger] square_at(i).name() by {
                    assert(square_at(i).name().len() == 2);
                }
            }
            return None;
        }
        let f = value.get_char(0);
        let r = value.get_char(1);
        let res = FileRank::from_chars(f, r);
        proof {
            match res {
                Some(fr) => {
                    assert(value@ =~= fr.name());
                }
                None => {
                    assert forall|i: int| 0 <= i < 64 implies value@ != #[trigger] square_at(i).name() by {
                        if value@ == square_at(i).name() {
                            assert(value@[0] == square_at(i).file_char());
                            assert(value@[1] == square_at(i).rank_char());
                        }
                    }
                }
            }
        }
        res
    }
}

/// Every index names a square that maps back to it.
pub proof fn lemma_square_at(i: int)
    requires
        0 <= i < 64,
    ensures
        square_at(i).idx() == i,
{
}

/// The number of a square counted from a1, rank by rank: a1 is 0, h1 is 7, a2 is 8 and
/// h8 is 63.
pub open spec fn a1_number(fr: FileRank) -> int {
    (7 - fr.idx() / 8) * 8 + fr.idx() % 8
}

/// The square numbered `n` from a1.
pub open spec fn from_a1(n: int) -> FileRank {
    square_at((7 - n / 8) * 8 + n % 8)
}

/// Counting from a1 undoes `from_a1`.
pub proof fn lemma_a1_round(n: int)
    requires
        0 <= n < 64,
    ensures
        0 <= (7 - n / 8) * 8 + n % 8 < 64,
        a1_number(from_a1(n)) == n,
{
    lemma_square_at((7 - n / 8) * 8 + n % 8);
}

/// Two squares with the same name are the same square, so reading a square's name gives
/// the square back.
pub proof fn lemma_name_identifies_square(a: FileRank, b: FileRank)
    ensures
        a.name() == b.name() ==> a == b,
{
    a.lemma_idx();
    b.lemma_idx();
    if a.name() == b.name() {
        assert(a.name()[0] == b.name()[0] && a.name()[1] == b.name()[1]);
        assert(a.col() == b.col());
        assert(a.row() == b.row());
        assert(a.idx() == b.idx());
    }
}

} // verus!
