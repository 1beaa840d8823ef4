//! Zobrist hashing of positions: one random key per piece and square, per
//! castling-rights mask, per en-passant square, and one for the side to move.
use vstd::prelude::*;
use rand::{Rng, SeedableRng};
use rand::distributions::Standard;
use rand_pcg::Lcg64Xsh32;
use crate::bits::{square_list, lemma_lowest_bit};
use crate::square::FileRank;
use crate::types::{Color, MoveType, PieceMove, piece_ord};
use crate::attacks::lemma_square_list_step;
use crate::game::GameState;

verus! {

/// The first `n` words of 64 bits that `Rng::gen::<u64>` draws, one after another, from
/// a PCG32 generator (`Lcg64Xsh32`) seeded by `SeedableRng::seed_from_u64(seed)`.
/// The generator is fixed by the seed alone, so the words are too.
pub uninterp spec fn pcg_stream(seed: u64, n: nat) -> Seq<u64>;

/// rand_pcg's `Lcg64Xsh32::seed_from_u64(seed)`, then the first `n` words of
/// `sample_iter(Standard)`; each word is `Standard.sample(rng)`, which is exactly what
/// `gen::<u64>` returns. The words are named `pcg_stream(seed, n)`, and there are `n`.
#[verifier::external_body]
fn pcg_draws(seed: u64, n: usize) -> (r: Vec<u64>)
    ensures
        r@ == pcg_stream(seed, n as nat),
        r@.len() == n,
{
    Lcg64Xsh32::seed_from_u64(seed).sample_iter::<u64, Standard>(Standard).take(n).collect()
}

/// The fixed seed of the key generator.
pub const SEED: u64 = 2305843009213693951;

/// The random keys of the hash.
#[derive(Debug)]
pub struct ZobristHashing {
    pub pieces: Vec<u64>,
    pub castling_rights: Vec<u64>,
    pub en_passant: Vec<u64>,
    pub side: u64,
}

/// XOR of the keys of piece `p` on the squares of `l`.
pub open spec fn xor_keys(keys: Seq<u64>, p: int, l: Seq<int>) -> u64
    decreases l.len(),
{
    if l.len() == 0 {
        0
    } else {
        keys[p * 64 + l[0]] ^ xor_keys(keys, p, l.drop_first())
    }
}

/// XOR of the keys of every piece of the first `n` bitboards.
pub open spec fn piece_hash(keys: Seq<u64>, bb: Seq<u64>, n: nat) -> u64
    decreases n,
{
    if n == 0 {
        0
    } else {
        piece_hash(keys, bb, (n - 1) as nat) ^ xor_keys(keys, n - 1, square_list(bb[n - 1]))
    }
}

/// The hash of a position: pieces, castling rights, en-passant square and side to move.
pub open spec fn position_hash(z: &ZobristHashing, bb: Seq<u64>, castling_mask: u64, ep: Option<FileRank>, turn: Color) -> u64 {
    let h = piece_hash(z.pieces@, bb, 12) ^ z.castling_rights@[(castling_mask % 16) as int];
    let h2 = match ep {
        Some(fr) => h ^ z.en_passant@[fr.idx()],
        None => h,
    };
    h2 ^ (if turn == Color::Black { z.side } else { 0 })
}

/// The keys `init` draws: the first 849 words of the generator with the fixed seed,
/// in the order pieces, castling rights, en-passant squares, side.
pub open spec fn standard_keys(z: &ZobristHashing) -> bool {
    &&& z.wf()
    &&& z.pieces@ + z.castling_rights@ + z.en_passant@ + seq![z.side] == pcg_stream(SEED, 849)
}

/// Two key tables drawn by `init` hash every position alike.
pub proof fn lemma_standard_keys_hash(a: &ZobristHashing, b: &ZobristHashing, bb: Seq<u64>, castling_mask: u64,
    ep: Option<FileRank>, turn: Color)
    requires
        standard_keys(a),
        standard_keys(b),
    ensures
        a.pieces@ == b.pieces@,
        a.castling_rights@ == b.castling_rights@,
        a.en_passant@ == b.en_passant@,
        a.side == b.side,
        position_hash(a, bb, castling_mask, ep, turn) == position_hash(b, bb, castling_mask, ep, turn),
{
    let s = pcg_stream(SEED, 849);
    let sa = a.pieces@ + a.castling_rights@ + a.en_passant@ + seq![a.side];
    let sb = b.pieces@ + b.castling_rights@ + b.en_passant@ + seq![b.side];
    assert(a.pieces@ =~= sa.subrange(0, 768));
    assert(b.pieces@ =~= sb.subrange(0, 768));
    assert(a.castling_rights@ =~= sa.subrange(768, 784));
    assert(b.castling_rights@ =~= sb.subrange(768, 784));
    assert(a.en_passant@ =~= sa.subrange(784, 848));
    assert(b.en_passant@ =~= sb.subrange(784, 848));
    assert(sa[848] == a.side);
    assert(sb[848] == b.side);
}

/// XOR regroups and cancels.
pub proof fn lemma_xor_facts(a: u64, b: u64, c: u64)
    ensures
        (a ^ b) ^ c == a ^ (b ^ c),
        a ^ 0u64 == a,
        a ^ a == 0u64,
        a ^ b == b ^ a,
{
    crate::bits::lemma_word_facts(a, b, c, 0);
}

impl ZobristHashing {
    /// Key tables of the right sizes.
    pub open spec fn wf(&self) -> bool {
        &&& self.pieces@.len() == 12 * 64
        &&& self.castling_rights@.len() == 16
        &&& self.en_passant@.len() == 64
    }

    /// Draws the keys from a PCG32 generator with the fixed seed: pieces first,
    /// then castling rights, en-passant squares and the side key.
    pub fn init() -> (z: ZobristHashing)
        ensures
            standard_keys(&z),
    {
        let draws = pcg_draws(SEED, 849);
        let pieces = copy_range(&draws, 0, 768);
        let castling_rights = copy_range(&draws, 768, 784);
        let en_passant = copy_range(&draws, 784, 848);
        let side = draws[848];
        proof {
            assert(pieces@ + castling_rights@ + en_passant@ + seq![side] =~= draws@);
        }
        ZobristHashing { pieces, castling_rights, en_passant, side }
    }

    /// Position of the key of bitboard `index` on `file_rank`.
    pub fn piece_index(index: usize, file_rank: &FileRank) -> (r: usize)
        requires
            index < 12,
        ensures
            r == index * 64 + file_rank.idx(),
            r < 12 * 64,
    {
        let piece = crate::types::piece_at_index(index);
        piece.bitboard_index() * 64 + file_rank.index()
    }

    /// The hash of the given position, computed from scratch.
    pub fn hash_position(&self, bitboard: &[u64; 12], castling_mask: u64, en_passant: Option<FileRank>, move_turn: Color) -> (hash: u64)
        requires
            self.wf(),
        ensures
            hash == position_hash(self, bitboard@, castling_mask, en_passant, move_turn),
    {
        let mut hash: u64 = 0;
        let mut index: usize = 0;
        while index < 12
            invariant
                index <= 12,
                self.wf(),
                hash == piece_hash(self.pieces@, bitboard@, index as nat),
            decreases 12 - index,
        {
            let squares = bitboard[index];
            let mut rem = squares;
            let ghost start = hash;
            proof {
                lemma_xor_facts(start, xor_keys(self.pieces@, index as int, square_list(squares)), 0);
            }
            while rem != 0
                invariant
                    index < 12,
                    self.wf(),
                    start == piece_hash(self.pieces@, bitboard@, index as nat),
                    hash ^ xor_keys(self.pieces@, index as int, square_list(rem)) == start ^ xor_keys(self.pieces@, index as int, square_list(squares)),
                decreases rem,
            {
                let ghost before = rem;
                proof {
                    lemma_square_list_step(rem);
                    lemma_lowest_bit(rem);
                }
                let sq = crate::bits::pop_lsb(&mut rem);
                let key = self.pieces[index * 64 + sq as usize];
                proof {
                    let l = square_list(before);
                    assert(xor_keys(self.pieces@, index as int, l) == key ^ xor_keys(self.pieces@, index as int, l.drop_first()));
                    lemma_xor_facts(hash, key, xor_keys(self.pieces@, index as int, square_list(rem)));
                }
                hash = hash ^ key;
            }
            proof {
                lemma_xor_facts(hash, 0, 0);
                assert(piece_hash(self.pieces@, bitboard@, (index + 1) as nat) == start ^ xor_keys(self.pieces@, index as int, square_list(squares)));
            }
            index = index + 1;
        }
        hash = hash ^ self.castling_rights[(castling_mask % 16) as usize];
        match en_passant {
            Some(fr) => {
                hash = hash ^ self.en_passant[fr.index()];
            }
            None => {}
        }
        let turn = move_turn.as_number();
        hash = hash ^ (turn * self.side);
        hash
    }

    /// The hash of the game's position, computed from scratch.
    pub fn get_hash_from_scratch(&self, game: &GameState) -> (hash: u64)
        requires
            self.wf(),
        ensures
            hash == position_hash(self, game.bitboard@, game.castling.mask, game.en_passant, game.move_turn),
    {
        self.hash_position(&game.bitboard, game.castling.mask, game.en_passant, game.move_turn)
    }

    /// Updates the game's hash for a move: the side key is toggled, and for a quiet move
    /// or double push the piece's key moves from the origin to the target; the other
    /// kinds of move change nothing more.
    pub fn fast_recalculate_hash(&self, game: &GameState, mv: &PieceMove) -> (r: u64)
        requires
            self.wf(),
        ensures
            (mv.move_type == MoveType::Quiet || mv.move_type is DoublePush) ==> r == game.hash ^ self.side
                ^ self.pieces@[piece_ord(mv.piece) * 64 + mv.from.idx()] ^ self.pieces@[piece_ord(mv.piece) * 64 + mv.target.idx()],
            !(mv.move_type == MoveType::Quiet || mv.move_type is DoublePush) ==> r == game.hash ^ self.side,
    {
        let mut h = game.hash;
        let flipped = game.move_turn.flip().as_number();
        let current = game.move_turn.as_number();
        let a = flipped * self.side;
        let b = current * self.side;
        proof {
            lemma_xor_facts(h, a, b);
            lemma_xor_facts(a, b, 0);
            lemma_xor_facts(h, a ^ b, 0);
            lemma_xor_facts(a, a, 0);
            lemma_xor_facts(b, b, 0);
            assert((a == 0 && b == self.side) || (a == self.side && b == 0));
            lemma_xor_facts(self.side, 0, 0);
            lemma_xor_facts(0, self.side, 0);
            lemma_xor_facts(self.side, self.side, 0);
            assert(a ^ b == self.side);
        }
        h = h ^ a;
        h = h ^ b;
        match mv.move_type {
            MoveType::Quiet | MoveType::DoublePush(_) => {
                let idx_from = Self::piece_index(mv.piece.bitboard_index(), &mv.from);
                let idx_target = Self::piece_index(mv.piece.bitboard_index(), &mv.target);
                h = h ^ self.pieces[idx_from];
                h = h ^ self.pieces[idx_target];
            }
            _ => {}
        }
        h
    }
}

/// The words of `v` from position `from` up to `to`.
fn copy_range(v: &Vec<u64>, from: usize, to: usize) -> (r: Vec<u64>)
    requires
        from <= to <= v@.len(),
    ensures
        r@ == v@.subrange(from as int, to as int),
{
    let mut r: Vec<u64> = Vec::new();
    let mut i: usize = from;
    while i < to
        invariant
            from <= i <= to,
            to <= v@.len(),
            r@ == v@.subrange(from as int, i as int),
        decreases to - i,
    {
        r.push(v[i]);
        proof {
            assert(v@.subrange(from as int, i + 1) =~= v@.subrange(from as int, i as int).push(v@[i as int]));
        }
        i = i + 1;
    }
    r
}

} // verus!
