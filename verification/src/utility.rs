//! Square-set helpers that take squares rather than indices.
use vstd::prelude::*;
use crate::bits::{bit_at, squares_of, single, square_list, lemma_bit_all, lemma_single, lemma_square_list};
use crate::square::{FileRank, square_at};

verus! {

/// Adds the square to the set.
pub fn set_bit(bit_board: &mut u64, file_rank: &FileRank)
    ensures
        *final(bit_board) == *old(bit_board) | single(file_rank.idx()),
        squares_of(*final(bit_board)) == squares_of(*old(bit_board)).insert(file_rank.idx()),
{
    let mask = file_rank.mask();
    *bit_board = *bit_board | mask;
    proof {
        lemma_bit_all(*old(bit_board), mask);
        assert(squares_of(*bit_board) =~= squares_of(*old(bit_board)).insert(file_rank.idx()));
    }
}

/// Removes the square from the set.
pub fn clear_bit(bit_board: &mut u64, file_rank: &FileRank)
    ensures
        *final(bit_board) == *old(bit_board) & !single(file_rank.idx()),
        squares_of(*final(bit_board)) == squares_of(*old(bit_board)).remove(file_rank.idx()),
{
    let mask = file_rank.mask();
    *bit_board = *bit_board & !mask;
    proof {
        lemma_bit_all(*old(bit_board), !mask);
        lemma_bit_all(mask, mask);
        assert(squares_of(*bit_board) =~= squares_of(*old(bit_board)).remove(file_rank.idx()));
    }
}

/// The squares of the set, lowest index (a8 side) first.
pub fn get_file_ranks_from_mask(bitboard: u64) -> (squares: Vec<FileRank>)
    ensures
        squares@.len() == square_list(bitboard).len(),
        forall|k: int| 0 <= k < squares@.len() ==> #[trigger] squares@[k] == square_at(square_list(bitboard)[k]),
{
    let mut copy = bitboard;
    let mut squares: Vec<FileRank> = Vec::new();
    proof {
        assert(square_list(bitboard).subrange(0, 0) =~= Seq::<int>::empty());
    }
    while copy > 0
        invariant
            squares@.len() <= square_list(bitboard).len(),
            square_list(bitboard) == square_list(bitboard).subrange(0, squares@.len() as int) + square_list(copy),
            forall|k: int| 0 <= k < squares@.len() ==> #[trigger] squares@[k] == square_at(square_list(bitboard)[k]),
        decreases copy,
    {
        let ghost before = copy;
        let ghost n = squares@.len() as int;
        proof {
            crate::attacks::lemma_square_list_step(copy);
        }
        let index = crate::bits::pop_lsb(&mut copy);
        let l = Ghost(square_list(bitboard));
        proof {
            assert(square_list(before)[0] == index);
            assert(square_list(before) =~= seq![index as int] + square_list(copy));
            assert(l@ =~= l@.subrange(0, n) + (seq![index as int] + square_list(copy)));
            assert(l@[n] == index);
            assert(l@.subrange(0, n + 1) =~= l@.subrange(0, n).push(index as int));
            assert(l@ =~= l@.subrange(0, n + 1) + square_list(copy));
        }
        match FileRank::get_file_rank(index as u8) {
            Some(fr) => {
                squares.push(fr);
            }
            None => {}
        }
    }
    proof {
        assert(square_list(copy) =~= Seq::<int>::empty());
        assert(square_list(bitboard) =~= square_list(bitboard).subrange(0, squares@.len() as int));
    }
    squares
}

} // verus!
