//! Tokens of standard algebraic chess notation, read from text one at a time.
use vstd::prelude::*;
use vstd::string::StrSliceExecFns;
use crate::types::AlgebraicNotationToken;

verus! {

/// A reader of algebraic-notation tokens: the text as characters, the position reached,
/// and the letter that castling is written with.
pub struct AlgebraicNotation {
    pub input: Vec<char>,
    pub position: usize,
    pub castling_symbol: char,
}

/// What a token reader finds in `s` from position `i`: the next token and the position
/// after it, or nothing and the position where reading stopped. Characters that are no
/// token are skipped. 'O' or '0' starts castling: "-O-O" after it is queen side, "-O"
/// king side (with `sym` for O), anything else ends reading. '=' takes the next character
/// as a promotion piece (at the end of the text it ends reading).
pub open spec fn scan(s: Seq<char>, i: int, sym: char) -> (Option<AlgebraicNotationToken>, int)
    decreases s.len() - i,
{
    if i >= s.len() || i < 0 {
        (None, i)
    } else {
        let c = s[i];
        if c == 'K' || c == 'Q' || c == 'R' || c == 'B' || c == 'N' || c == 'P' {
            (Some(AlgebraicNotationToken::Piece(c)), i + 1)
        } else if 'a' <= c <= 'h' {
            (Some(AlgebraicNotationToken::File(c)), i + 1)
        } else if '1' <= c <= '8' {
            (Some(AlgebraicNotationToken::Rank(c)), i + 1)
        } else if c == 'x' {
            (Some(AlgebraicNotationToken::Capture), i + 1)
        } else if c == '+' {
            (Some(AlgebraicNotationToken::Check), i + 1)
        } else if c == '#' {
            (Some(AlgebraicNotationToken::Checkmate), i + 1)
        } else if c == 'O' || c == '0' {
            if i + 5 <= s.len() && s.subrange(i + 1, i + 5) == seq!['-', sym, '-', sym] {
                (Some(AlgebraicNotationToken::CastleQueenSide), i + 5)
            } else if i + 3 <= s.len() && s.subrange(i + 1, i + 3) == seq!['-', sym] {
                (Some(AlgebraicNotationToken::CastleKingSide), i + 3)
            } else {
                (None, i + 1)
            }
        } else if c == '=' {
            if i + 1 < s.len() {
                (Some(AlgebraicNotationToken::Promotion(s[i + 1])), i + 2)
            } else {
                (None, i + 1)
            }
        } else if c == '-' {
            (Some(AlgebraicNotationToken::MoveIndicator), i + 1)
        } else {
            scan(s, i + 1, sym)
        }
    }
}

impl AlgebraicNotation {
    /// A reader at the start of `input`, castling written with 'O'.
    pub fn new(input: &str) -> (a: AlgebraicNotation)
        ensures
            a.input@ == input@,
            a.position == 0,
            a.castling_symbol == 'O',
    {
        let n = input.unicode_len();
        let mut chars: Vec<char> = Vec::new();
        let mut i: usize = 0;
        while i < n
            invariant
                i <= n,
                n == input@.len(),
                chars@ == input@.take(i as int),
            decreases n - i,
        {
            chars.push(input.get_char(i));
            proof {
                assert(input@.take(i + 1) =~= input@.take(i as int).push(input@[i as int]));
            }
            i = i + 1;
        }
        proof {
            assert(input@.take(n as int) =~= input@);
        }
        AlgebraicNotation { input: chars, position: 0, castling_symbol: 'O' }
    }

    /// The next token, or `None` when the text ends or a castling sign is not followed by
    /// a castling pattern.
    pub fn next_token(&mut self) -> (r: Option<AlgebraicNotationToken>)
        requires
            old(self).position <= old(self).input@.len(),
        ensures
            (r, final(self).position as int) == scan(old(self).input@, old(self).position as int, old(self).castling_symbol),
            final(self).input == old(self).input,
            final(self).castling_symbol == old(self).castling_symbol,
            final(self).position <= final(self).input@.len(),
    {
        let n = self.input.len();
        while self.position < n
            invariant
                n == self.input@.len(),
                self.position <= n,
                self.input == old(self).input,
                self.castling_symbol == old(self).castling_symbol,
                scan(old(self).input@, old(self).position as int, old(self).castling_symbol)
                    == scan(self.input@, self.position as int, self.castling_symbol),
            decreases n - self.position,
        {
            let c = self.input[self.position];
            self.position = self.position + 1;
            if c == 'K' || c == 'Q' || c == 'R' || c == 'B' || c == 'N' || c == 'P' {
                return Some(AlgebraicNotationToken::Piece(c));
            } else if 'a' <= c && c <= 'h' {
                return Some(AlgebraicNotationToken::File(c));
            } else if '1' <= c && c <= '8' {
                return Some(AlgebraicNotationToken::Rank(c));
            } else if c == 'x' {
                return Some(AlgebraicNotationToken::Capture);
            } else if c == '+' {
                return Some(AlgebraicNotationToken::Check);
            } else if c == '#' {
                return Some(AlgebraicNotationToken::Checkmate);
            } else if c == 'O' || c == '0' {
                return self.parse_castling();
            } else if c == '=' {
                if self.position < n {
                    let promotion_piece = self.input[self.position];
                    self.position = self.position + 1;
                    return Some(AlgebraicNotationToken::Promotion(promotion_piece));
                }
            } else if c == '-' {
                return Some(AlgebraicNotationToken::MoveIndicator);
            }
        }
        None
    }

    /// Reads a castling pattern after a castling sign: "-O-O" is queen side, "-O" king side
    /// (with the castling letter for O); otherwise nothing is read.
    fn parse_castling(&mut self) -> (r: Option<AlgebraicNotationToken>)
        requires
            old(self).position <= old(self).input@.len(),
        ensures
            ({
                let s = old(self).input@;
                let i = old(self).position as int;
                let sym = old(self).castling_symbol;
                if i + 4 <= s.len() && s.subrange(i, i + 4) == seq!['-', sym, '-', sym] {
                    r == Some(AlgebraicNotationToken::CastleQueenSide) && final(self).position == i + 4
                } else if i + 2 <= s.len() && s.subrange(i, i + 2) == seq!['-', sym] {
                    r == Some(AlgebraicNotationToken::CastleKingSide) && final(self).position == i + 2
                } else {
                    r is None && final(self).position == i
                }
            }),
            final(self).input == old(self).input,
            final(self).castling_symbol == old(self).castling_symbol,
    {
        let symbol = self.castling_symbol;
        let n = self.input.len();
        let i = self.position;
        if n - i > 3 && self.input[i] == '-' && self.input[i + 1] == symbol && self.input[i + 2] == '-'
            && self.input[i + 3] == symbol {
            proof {
                assert(self.input@.subrange(i as int, i + 4) =~= seq!['-', symbol, '-', symbol]);
            }
            self.position = i + 4;
            return Some(AlgebraicNotationToken::CastleQueenSide);
        }
        proof {
            if i + 4 <= n && self.input@.subrange(i as int, i + 4) == seq!['-', symbol, '-', symbol] {
                assert(self.input@.subrange(i as int, i + 4)[0] == self.input@[i as int]);
                assert(self.input@.subrange(i as int, i + 4)[1] == self.input@[i + 1]);
                assert(self.input@.subrange(i as int, i + 4)[2] == self.input@[i + 2]);
                assert(self.input@.subrange(i as int, i + 4)[3] == self.input@[i + 3]);
            }
        }
        if n - i > 1 && self.input[i] == '-' && self.input[i + 1] == symbol {
            proof {
                assert(self.input@.subrange(i as int, i + 2) =~= seq!['-', symbol]);
            }
            self.position = i + 2;
            return Some(AlgebraicNotationToken::CastleKingSide);
        }
        proof {
            if i + 2 <= n && self.input@.subrange(i as int, i + 2) == seq!['-', symbol] {
                assert(self.input@.subrange(i as int, i + 2)[0] == self.input@[i as int]);
                assert(self.input@.subrange(i as int, i + 2)[1] == self.input@[i + 1]);
            }
        }
        None
    }
}


/// Reading at a character that is a token by itself gives that token and moves one on: a
/// piece letter K, Q, R, B, N or P gives that piece, every file letter 'a' to 'h' gives
/// that file, every rank digit '1' to '8' gives that rank, and 'x', '+', '#' and '-' give
/// capture, check, checkmate and the move sign.
pub proof fn lemma_single_char_tokens(s: Seq<char>, i: int, sym: char)
    requires
        0 <= i < s.len(),
    ensures
        (s[i] == 'K' || s[i] == 'Q' || s[i] == 'R' || s[i] == 'B' || s[i] == 'N' || s[i] == 'P')
            ==> scan(s, i, sym) == (Some(AlgebraicNotationToken::Piece(s[i])), i + 1),
        'a' <= s[i] <= 'h' ==> scan(s, i, sym) == (Some(AlgebraicNotationToken::File(s[i])), i + 1),
        '1' <= s[i] <= '8' ==> scan(s, i, sym) == (Some(AlgebraicNotationToken::Rank(s[i])), i + 1),
        s[i] == 'x' ==> scan(s, i, sym) == (Some(AlgebraicNotationToken::Capture), i + 1),
        s[i] == '+' ==> scan(s, i, sym) == (Some(AlgebraicNotationToken::Check), i + 1),
        s[i] == '#' ==> scan(s, i, sym) == (Some(AlgebraicNotationToken::Checkmate), i + 1),
        s[i] == '-' ==> scan(s, i, sym) == (Some(AlgebraicNotationToken::MoveIndicator), i + 1),
{
}

} // verus!
