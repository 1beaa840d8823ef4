//! Operations on 64-bit square sets (one bit per square).
use vstd::prelude::*;
use vstd::std_specs::bits::{u64_trailing_zeros, axiom_u64_trailing_zeros};

verus! {

/// Word identities: or, and and xor with zero and with themselves, regrouping and
/// swapping, parts of a union, and that clearing the lowest set bit makes a word smaller.
pub proof fn lemma_word_facts(a: u64, b: u64, c: u64, d: u64)
    by (bit_vector)
    ensures
        a | 0u64 == a,
        0u64 | a == a,
        (a | b) | c == a | (b | c),
        (a ^ b) ^ c == a ^ (b ^ c),
        a ^ 0u64 == a,
        a ^ a == 0u64,
        a ^ b == b ^ a,
        a & b == b & a,
        (a & b) & b == a & b,
        a & 0u64 == 0u64,
        a >> 0u64 == a,
        a != 0 ==> a & ((a - 1) as u64) < a,
        a & (a | b | c | d) == a,
        b & (a | b | c | d) == b,
        c & (a | b | c | d) == c,
        d & (a | b | c | d) == d,
{
}

/// Bit `i` of `b` is set (squares are numbered 0..64 from A8 to H1).
pub open spec fn bit_at(b: u64, i: int) -> bool {
    0 <= i < 64 && ((b >> (i as u64)) & 1u64) == 1u64
}

/// The set of square indices whose bit is set in `b`.
pub open spec fn squares_of(b: u64) -> Set<int> {
    Set::new(|i: int| bit_at(b, i))
}

/// The single-bit mask of square `i`.
pub open spec fn single(i: int) -> u64 {
    (1u64 << (i as u64))
}

/// Square indices of the set bits of `b`, lowest first.
pub open spec fn square_list(b: u64) -> Seq<int>
    decreases b,
{
    if b == 0 {
        Seq::empty()
    } else {
        proof {
            lemma_word_facts(b, 0, 0, 0);
        }
        seq![u64_trailing_zeros(b) as int] + square_list(b & ((b - 1) as u64))
    }
}

/// Number of set bits of `b`, counted by clearing the lowest one at a time.
pub open spec fn nbits(b: u64) -> nat
    decreases b,
{
    if b == 0 {
        0
    } else {
        proof {
            lemma_word_facts(b, 0, 0, 0);
        }
        1 + nbits(b & ((b - 1) as u64))
    }
}

/// The number of set bits is the size of the square set, at most 64.
pub proof fn lemma_nbits(b: u64)
    ensures
        nbits(b) == squares_of(b).len(),
        squares_of(b).finite(),
        nbits(b) <= 64,
    decreases b,
{
    let full = vstd::set_lib::set_int_range(0, 64);
    assert(squares_of(b).subset_of(full));
    vstd::set_lib::lemma_int_range(0, 64);
    vstd::set_lib::lemma_len_subset(squares_of(b), full);
    if b == 0 {
        assert forall|i: int| !squares_of(b).contains(i) by {
            lemma_bit_nonzero(b, i);
        }
        assert(squares_of(b) =~= Set::empty());
    } else {
        lemma_lowest_bit(b);
        lemma_nbits(b & ((b - 1) as u64));
    }
}

/// Two words with the same bits are equal.
pub proof fn lemma_bits_ext(a: u64, b: u64)
    requires
        forall|i: int| 0 <= i < 64 ==> bit_at(a, i) == bit_at(b, i),
    ensures
        a == b,
{
    assert forall|j: u64| j < 64 implies ((a >> j) & 1u64) == ((b >> j) & 1u64) by {
        assert(bit_at(a, j as int) == bit_at(b, j as int));
        assert((((a >> j) & 1u64) == 1u64 || ((a >> j) & 1u64) == 0u64) && (((b >> j) & 1u64) == 1u64 || ((b >> j) & 1u64) == 0u64)) by (bit_vector);
    }
    assert(a == b) by (bit_vector)
        requires
            (a >> 0u64) & 1u64 == (b >> 0u64) & 1u64,
            (a >> 1u64) & 1u64 == (b >> 1u64) & 1u64,
            (a >> 2u64) & 1u64 == (b >> 2u64) & 1u64,
            (a >> 3u64) & 1u64 == (b >> 3u64) & 1u64,
            (a >> 4u64) & 1u64 == (b >> 4u64) & 1u64,
            (a >> 5u64) & 1u64 == (b >> 5u64) & 1u64,
            (a >> 6u64) & 1u64 == (b >> 6u64) & 1u64,
            (a >> 7u64) & 1u64 == (b >> 7u64) & 1u64,
            (a >> 8u64) & 1u64 == (b >> 8u64) & 1u64,
            (a >> 9u64) & 1u64 == (b >> 9u64) & 1u64,
            (a >> 10u64) & 1u64 == (b >> 10u64) & 1u64,
            (a >> 11u64) & 1u64 == (b >> 11u64) & 1u64,
            (a >> 12u64) & 1u64 == (b >> 12u64) & 1u64,
            (a >> 13u64) & 1u64 == (b >> 13u64) & 1u64,
            (a >> 14u64) & 1u64 == (b >> 14u64) & 1u64,
            (a >> 15u64) & 1u64 == (b >> 15u64) & 1u64,
            (a >> 16u64) & 1u64 == (b >> 16u64) & 1u64,
            (a >> 17u64) & 1u64 == (b >> 17u64) & 1u64,
            (a >> 18u64) & 1u64 == (b >> 18u64) & 1u64,
            (a >> 19u64) & 1u64 == (b >> 19u64) & 1u64,
            (a >> 20u64) & 1u64 == (b >> 20u64) & 1u64,
            (a >> 21u64) & 1u64 == (b >> 21u64) & 1u64,
            (a >> 22u64) & 1u64 == (b >> 22u64) & 1u64,
            (a >> 23u64) & 1u64 == (b >> 23u64) & 1u64,
            (a >> 24u64) & 1u64 == (b >> 24u64) & 1u64,
            (a >> 25u64) & 1u64 == (b >> 25u64) & 1u64,
            (a >> 26u64) & 1u64 == (b >> 26u64) & 1u64,
            (a >> 27u64) & 1u64 == (b >> 27u64) & 1u64,
            (a >> 28u64) & 1u64 == (b >> 28u64) & 1u64,
            (a >> 29u64) & 1u64 == (b >> 29u64) & 1u64,
            (a >> 30u64) & 1u64 == (b >> 30u64) & 1u64,
            (a >> 31u64) & 1u64 == (b >> 31u64) & 1u64,
            (a >> 32u64) & 1u64 == (b >> 32u64) & 1u64,
            (a >> 33u64) & 1u64 == (b >> 33u64) & 1u64,
            (a >> 34u64) & 1u64 == (b >> 34u64) & 1u64,
            (a >> 35u64) & 1u64 == (b >> 35u64) & 1u64,
            (a >> 36u64) & 1u64 == (b >> 36u64) & 1u64,
            (a >> 37u64) & 1u64 == (b >> 37u64) & 1u64,
            (a >> 38u64) & 1u64 == (b >> 38u64) & 1u64,
            (a >> 39u64) & 1u64 == (b >> 39u64) & 1u64,
            (a >> 40u64) & 1u64 == (b >> 40u64) & 1u64,
            (a >> 41u64) & 1u64 == (b >> 41u64) & 1u64,
            (a >> 42u64) & 1u64 == (b >> 42u64) & 1u64,
            (a >> 43u64) & 1u64 == (b >> 43u64) & 1u64,
            (a >> 44u64) & 1u64 == (b >> 44u64) & 1u64,
            (a >> 45u64) & 1u64 == (b >> 45u64) & 1u64,
            (a >> 46u64) & 1u64 == (b >> 46u64) & 1u64,
            (a >> 47u64) & 1u64 == (b >> 47u64) & 1u64,
            (a >> 48u64) & 1u64 == (b >> 48u64) & 1u64,
            (a >> 49u64) & 1u64 == (b >> 49u64) & 1u64,
            (a >> 50u64) & 1u64 == (b >> 50u64) & 1u64,
            (a >> 51u64) & 1u64 == (b >> 51u64) & 1u64,
            (a >> 52u64) & 1u64 == (b >> 52u64) & 1u64,
            (a >> 53u64) & 1u64 == (b >> 53u64) & 1u64,
            (a >> 54u64) & 1u64 == (b >> 54u64) & 1u64,
            (a >> 55u64) & 1u64 == (b >> 55u64) & 1u64,
            (a >> 56u64) & 1u64 == (b >> 56u64) & 1u64,
            (a >> 57u64) & 1u64 == (b >> 57u64) & 1u64,
            (a >> 58u64) & 1u64 == (b >> 58u64) & 1u64,
            (a >> 59u64) & 1u64 == (b >> 59u64) & 1u64,
            (a >> 60u64) & 1u64 == (b >> 60u64) & 1u64,
            (a >> 61u64) & 1u64 == (b >> 61u64) & 1u64,
            (a >> 62u64) & 1u64 == (b >> 62u64) & 1u64,
            (a >> 63u64) & 1u64 == (b >> 63u64) & 1u64,
    ;
}

/// Bit-level facts about or, and, not, xor and single-bit masks.
pub proof fn lemma_bit_ops(a: u64, b: u64, i: int)
    requires
        0 <= i < 64,
    ensures
        bit_at(a | b, i) == (bit_at(a, i) || bit_at(b, i)),
        bit_at(a & b, i) == (bit_at(a, i) && bit_at(b, i)),
        bit_at(a ^ b, i) == (bit_at(a, i) != bit_at(b, i)),
        bit_at(!a, i) == !bit_at(a, i),
        bit_at(0u64, i) == false,
        bit_at(0xffff_ffff_ffff_ffffu64, i) == true,
{
    let j = i as u64;
    assert(j < 64 ==> (
        (((a | b) >> j) & 1u64 == 1u64 <==> ((a >> j) & 1u64 == 1u64 || (b >> j) & 1u64 == 1u64))
        && (((a & b) >> j) & 1u64 == 1u64 <==> ((a >> j) & 1u64 == 1u64 && (b >> j) & 1u64 == 1u64))
        && (((a ^ b) >> j) & 1u64 == 1u64 <==> (((a >> j) & 1u64 == 1u64) != ((b >> j) & 1u64 == 1u64)))
        && (((!a) >> j) & 1u64 == 1u64 <==> !((a >> j) & 1u64 == 1u64))
        && (0u64 >> j) & 1u64 == 0u64
        && (0xffff_ffff_ffff_ffffu64 >> j) & 1u64 == 1u64)) by (bit_vector);
}

/// The single-bit mask of `i` has exactly bit `i` set.
pub proof fn lemma_single(i: int, k: int)
    requires
        0 <= i < 64,
        0 <= k < 64,
    ensures
        bit_at(single(i), k) == (i == k),
        single(i) != 0,
{
    let a = i as u64;
    let c = k as u64;
    assert(a < 64 && c < 64 ==> (((((1u64 << a) >> c) & 1u64 == 1u64) <==> a == c) && (1u64 << a) != 0u64)) by (bit_vector);
}

/// Word-level facts used by the bit helpers.
pub proof fn lemma_bit_all(a: u64, b: u64)
    ensures
        forall|i: int| 0 <= i < 64 ==> #[trigger] bit_at(a | b, i) == (bit_at(a, i) || bit_at(b, i)),
        forall|i: int| 0 <= i < 64 ==> #[trigger] bit_at(a & b, i) == (bit_at(a, i) && bit_at(b, i)),
        forall|i: int| 0 <= i < 64 ==> #[trigger] bit_at(a ^ b, i) == (bit_at(a, i) != bit_at(b, i)),
        forall|i: int| 0 <= i < 64 ==> #[trigger] bit_at(!a, i) == !bit_at(a, i),
{
    assert forall|i: int| 0 <= i < 64 implies #[trigger] bit_at(a | b, i) == (bit_at(a, i) || bit_at(b, i)) by {
        lemma_bit_ops(a, b, i);
    }
    assert forall|i: int| 0 <= i < 64 implies #[trigger] bit_at(a & b, i) == (bit_at(a, i) && bit_at(b, i)) by {
        lemma_bit_ops(a, b, i);
    }
    assert forall|i: int| 0 <= i < 64 implies #[trigger] bit_at(a ^ b, i) == (bit_at(a, i) != bit_at(b, i)) by {
        lemma_bit_ops(a, b, i);
    }
    assert forall|i: int| 0 <= i < 64 implies #[trigger] bit_at(!a, i) == !bit_at(a, i) by {
        lemma_bit_ops(a, b, i);
    }
}

/// A word with a set bit is not zero; zero has no set bit.
pub proof fn lemma_bit_nonzero(x: u64, i: int)
    ensures
        bit_at(x, i) ==> x != 0,
        x == 0 ==> !bit_at(x, i),
{
    if 0 <= i < 64 {
        let j = i as u64;
        assert(((x >> j) & 1u64) == 1u64 ==> x != 0) by (bit_vector);
    }
}

/// Facts about the lowest set bit and clearing it.
pub proof fn lemma_lowest_bit(b: u64)
    requires
        b != 0,
    ensures
        u64_trailing_zeros(b) < 64,
        bit_at(b, u64_trailing_zeros(b) as int),
        forall|j: int| 0 <= j < u64_trailing_zeros(b) ==> !bit_at(b, j),
        forall|j: int| 0 <= j < 64 ==> #[trigger] bit_at(b & ((b - 1) as u64), j) == (bit_at(b, j) && j != u64_trailing_zeros(b)),
        b & ((b - 1) as u64) < b,
        squares_of(b & ((b - 1) as u64)) == squares_of(b).remove(u64_trailing_zeros(b) as int),
{
    axiom_u64_trailing_zeros(b);
    let t = u64_trailing_zeros(b) as u64;
    assert forall|j: int| 0 <= j < u64_trailing_zeros(b) implies !bit_at(b, j) by {
        let jj = j as u64;
        assert((b >> jj) & 1u64 == 0u64);
    }
    assert forall|j: int| 0 <= j < 64 implies #[trigger] bit_at(b & ((b - 1) as u64), j) == (bit_at(b, j) && j != u64_trailing_zeros(b)) by {
        let jj = j as u64;
        assert(b != 0 && t < 64 && (b >> t) & 1u64 == 1u64 && b << ((64 - t) as u64) == 0 && jj < 64 ==>
            ((((b & ((b - 1) as u64)) >> jj) & 1u64 == 1u64) <==> ((b >> jj) & 1u64 == 1u64 && jj != t))) by (bit_vector);
    }
    lemma_word_facts(b, 0, 0, 0);
    assert(squares_of(b & ((b - 1) as u64)) =~= squares_of(b).remove(u64_trailing_zeros(b) as int));
}

/// `square_list` lists exactly the set bits, in increasing order.
pub proof fn lemma_square_list(b: u64)
    ensures
        forall|k: int| 0 <= k < square_list(b).len() ==> #[trigger] bit_at(b, square_list(b)[k]),
        forall|i: int| #[trigger] bit_at(b, i) ==> square_list(b).contains(i),
        forall|k: int, l: int| 0 <= k < l < square_list(b).len() ==> square_list(b)[k] < square_list(b)[l],
        square_list(b).to_set() == squares_of(b),
    decreases b,
{
    if b == 0 {
        assert forall|i: int| #[trigger] bit_at(b, i) implies square_list(b).contains(i) by {
            lemma_bit_ops(0, 0, i);
        }
    } else {
        lemma_lowest_bit(b);
        let r = b & ((b - 1) as u64);
        lemma_square_list(r);
        let t = u64_trailing_zeros(b) as int;
        let s = square_list(b);
        assert(s == seq![t] + square_list(r));
        assert forall|k: int| 0 <= k < s.len() implies #[trigger] bit_at(b, s[k]) by {
            if k > 0 {
                assert(s[k] == square_list(r)[k - 1]);
                assert(bit_at(r, square_list(r)[k - 1]));
                let x = square_list(r)[k - 1];
                assert(0 <= x < 64);
            }
        }
        assert forall|i: int| #[trigger] bit_at(b, i) implies s.contains(i) by {
            if i == t {
                assert(s[0] == t);
            } else {
                assert(bit_at(r, i));
                let k = choose|k: int| 0 <= k < square_list(r).len() && square_list(r)[k] == i;
                assert(s[k + 1] == i);
            }
        }
        assert forall|k: int, l: int| 0 <= k < l < s.len() implies s[k] < s[l] by {
            if k == 0 {
                let x = square_list(r)[l - 1];
                assert(bit_at(r, x));
                assert(bit_at(b, x) && x != t);
                assert(0 <= x < 64);
                if x < t {
                    assert(!bit_at(b, x));
                }
            } else {
                assert(s[k] == square_list(r)[k - 1]);
                assert(s[l] == square_list(r)[l - 1]);
            }
        }
        assert forall|i: int| s.to_set().contains(i) <==> squares_of(b).contains(i) by {
            if s.to_set().contains(i) {
                let k = choose|k: int| 0 <= k < s.len() && s[k] == i;
                assert(bit_at(b, s[k]));
            }
            if squares_of(b).contains(i) {
                assert(bit_at(b, i));
                assert(s.contains(i));
            }
        }
        assert(s.to_set() =~= squares_of(b));
    }
}

/// Sets the bit of square `index`.
pub fn set_bit_by_index(bit_board: &mut u64, index: u8)
    requires
        index < 64,
    ensures
        *final(bit_board) == *old(bit_board) | single(index as int),
        squares_of(*final(bit_board)) == squares_of(*old(bit_board)).insert(index as int),
{
    let mask = 1u64 << index;
    *bit_board = *bit_board | mask;
    proof {
        let a = *old(bit_board);
        lemma_bit_all(a, single(index as int));
        assert forall|k: int| 0 <= k < 64 implies bit_at(single(index as int), k) == (k == index) by {
            lemma_single(index as int, k);
        }
        assert(squares_of(*bit_board) =~= squares_of(a).insert(index as int));
    }
}

/// Toggles the bit of square `index`.
pub fn pop_bit(bit_board: &mut u64, index: u8)
    requires
        index < 64,
    ensures
        *final(bit_board) == *old(bit_board) ^ single(index as int),
        bit_at(*old(bit_board), index as int) ==> squares_of(*final(bit_board)) == squares_of(*old(bit_board)).remove(index as int),
        !bit_at(*old(bit_board), index as int) ==> squares_of(*final(bit_board)) == squares_of(*old(bit_board)).insert(index as int),
{
    let mask = 1u64 << index;
    *bit_board = *bit_board ^ mask;
    proof {
        let a = *old(bit_board);
        lemma_bit_all(a, single(index as int));
        assert forall|k: int| 0 <= k < 64 implies bit_at(single(index as int), k) == (k == index) by {
            lemma_single(index as int, k);
        }
        if bit_at(a, index as int) {
            assert(squares_of(*bit_board) =~= squares_of(a).remove(index as int));
        } else {
            assert(squares_of(*bit_board) =~= squares_of(a).insert(index as int));
        }
    }
}

/// Clears the lowest set bit and returns its square index.
pub fn pop_lsb(b: &mut u64) -> (i: u32)
    requires
        *old(b) != 0,
    ensures
        i == u64_trailing_zeros(*old(b)),
        i < 64,
        bit_at(*old(b), i as int),
        forall|j: int| 0 <= j < i ==> !bit_at(*old(b), j),
        *final(b) == *old(b) & ((*old(b) - 1) as u64),
        *final(b) < *old(b),
        squares_of(*final(b)) == squares_of(*old(b)).remove(i as int),
{
    proof {
        lemma_lowest_bit(*b);
    }
    let i = b.trailing_zeros();
    *b = *b & (*b - 1);
    i
}

/// Number of set bits (Kernighan's method: clear the lowest set bit until none is left).
pub fn bit_count(bit_board: u64) -> (n: usize)
    ensures
        n == nbits(bit_board),
        n <= 64,
{
    let mut n: usize = 0;
    let mut b = bit_board;
    proof {
        lemma_nbits(bit_board);
    }
    while b != 0
        invariant
            n + nbits(b) == nbits(bit_board),
            nbits(bit_board) <= 64,
        decreases b,
    {
        proof {
            lemma_word_facts(b, 0, 0, 0);
        }
        b = b & (b - 1);
        n = n + 1;
    }
    n
}

/// Index of the lowest set bit (64 for the empty set).
pub fn get_lsb_index(bit_board: u64) -> (r: u32)
    ensures
        r == u64_trailing_zeros(bit_board),
        bit_board == 0 ==> r == 64,
        bit_board != 0 ==> r < 64 && bit_at(bit_board, r as int) && forall|j: int| 0 <= j < r ==> !bit_at(bit_board, j),
{
    proof {
        axiom_u64_trailing_zeros(bit_board);
        if bit_board != 0 {
            lemma_lowest_bit(bit_board);
        }
    }
    bit_board.trailing_zeros()
}

} // verus!
